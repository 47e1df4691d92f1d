use smllr::catalog::FileHandle;
use smllr::vfs::{DeviceId, FileType, FileTypeFlags, FsError, Inode, MetaData, Stat};
use smllr::ID;

struct FixedMd {
    len: u64,
    device: Option<u64>,
}

impl MetaData for FixedMd {
    fn stat(&self) -> Stat {
        Stat {
            len: self.get_len(),
            mod_time: self.get_mod_time(),
            kind: self.get_type(),
            inode: self.get_inode(),
            device: self.get_device(),
        }
    }
    fn get_len(&self) -> u64 {
        self.len
    }
    fn get_mod_time(&self) -> Result<u64, FsError> {
        Err(FsError::MetadataUnavailable)
    }
    fn get_type(&self) -> FileType {
        FileType::File
    }
    fn get_inode(&self) -> Inode {
        Inode(7)
    }
    fn get_device(&self) -> Result<DeviceId, FsError> {
        match self.device {
            Some(d) => Ok(DeviceId(d)),
            None => Err(FsError::MetadataUnavailable),
        }
    }
}

#[test]
fn file_type_from_flags_takes_the_first_that_holds() {
    let flags = |is_file, is_dir, is_symlink| FileTypeFlags { is_file, is_dir, is_symlink };
    assert_eq!(FileType::from(flags(true, false, false)), FileType::File);
    assert_eq!(FileType::from(flags(false, true, false)), FileType::Dir);
    assert_eq!(FileType::from(flags(false, false, true)), FileType::Symlink);
    assert_eq!(FileType::from(flags(false, false, false)), FileType::Other);
    assert_eq!(FileType::from(flags(true, true, true)), FileType::File);
    assert_eq!(FileType::from(flags(false, true, true)), FileType::Dir);
}

#[test]
fn identity_is_device_and_inode() {
    let id = ID::new(DeviceId(3), Inode(9));
    assert_eq!(id.dev, 3);
    assert_eq!(id.inode, 9);
    assert_eq!(id, ID { dev: 3, inode: 9 });
    assert_ne!(id, ID { dev: 9, inode: 3 });
}

#[test]
fn handle_from_a_plain_stat() {
    let stat = Stat {
        len: 42,
        mod_time: Ok(1_500_000_000),
        kind: FileType::File,
        inode: Inode(11),
        device: Ok(DeviceId(2)),
    };
    let h = FileHandle::from_metadata("/a/x".to_string(), &stat).unwrap();
    assert_eq!(h.path, "/a/x");
    assert_eq!(h.id, ID { dev: 2, inode: 11 });
    assert_eq!(h.size, 42);
    assert_eq!(h.kind, FileType::File);
    assert_eq!(h.mod_time, Ok(1_500_000_000));
}

#[test]
fn handle_from_any_metadata() {
    let h = FileHandle::from_metadata("/a/y".to_string(), &FixedMd { len: 5, device: Some(1) }).unwrap();
    assert_eq!(h.id, ID { dev: 1, inode: 7 });
    assert_eq!(h.size, 5);
    assert_eq!(h.mod_time, Err(FsError::MetadataUnavailable));
}

#[test]
fn no_handle_without_a_device() {
    let r = FileHandle::from_metadata("/a/z".to_string(), &FixedMd { len: 5, device: None });
    assert_eq!(r.err(), Some(FsError::MetadataUnavailable));
}

#[test]
fn identity_in_hexadecimal() {
    assert_eq!(ID { dev: 255, inode: 4096 }.hex(), "FF:1000");
    assert_eq!(ID { dev: 0, inode: 0 }.hex(), "0:0");
    assert_eq!(ID { dev: 10, inode: 16 }.hex(), "A:10");
    assert_eq!(ID { dev: 0xDEADBEEF, inode: 0x1234_5678_9ABC_DEF0 }.hex(), "DEADBEEF:123456789ABCDEF0");
    assert_eq!(ID { dev: u64::MAX, inode: 1 }.hex(), "FFFFFFFFFFFFFFFF:1");
    assert_eq!(ID { dev: 2049, inode: 131 }.hex(), format!("{:X}:{:X}", 2049, 131));
}
