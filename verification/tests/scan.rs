use smllr::catalog::{DigestState, Placement};
use smllr::digest::{digest_bytes, DigestKind, CHUNK_SIZE};
use smllr::scan::{
    get_first_bytes, get_hash, insert_path, scan, scan_with, traverse_all, walk_step, Reporter,
};
use smllr::vfs::{DeviceId, File, FileType, FsError, Inode, Stat, VFS};
use smllr::walker::DirWalker;
use smllr::ID;
use std::cell::RefCell;
use std::collections::{HashMap, HashSet};
use std::rc::Rc;

// A filesystem held in memory. It keeps a log of every read and can be told
// which paths fail.

#[derive(Clone)]
enum Node {
    File { dev: u64, inode: u64, content: Vec<u8> },
    Dir { children: Vec<String> },
    Symlink { target: String },
    Other,
}

#[derive(Default)]
struct State {
    nodes: HashMap<String, Node>,
    unlistable: HashSet<String>,
    unstatable: HashSet<String>,
    unreadable: HashSet<String>,
    short_reads: HashSet<String>,
    reads: RefCell<Vec<(String, u64, usize)>>,
    listed: RefCell<Vec<String>>,
}

#[derive(Clone)]
struct MemFs {
    state: Rc<State>,
}

struct MemFile {
    path: String,
    state: Rc<State>,
}

struct Builder {
    state: State,
}

impl Builder {
    fn new() -> Builder {
        Builder { state: State::default() }
    }

    fn attach(&mut self, path: &str, node: Node) {
        if let Some(cut) = path.rfind('/') {
            let parent = if cut == 0 { "/" } else { &path[..cut] };
            if let Some(Node::Dir { children }) = self.state.nodes.get_mut(parent) {
                children.push(path.to_string());
            }
        }
        self.state.nodes.insert(path.to_string(), node);
    }

    fn dir(mut self, path: &str) -> Builder {
        self.attach(path, Node::Dir { children: Vec::new() });
        self
    }

    fn file(mut self, path: &str, inode: u64, content: &[u8]) -> Builder {
        self.attach(path, Node::File { dev: 1, inode, content: content.to_vec() });
        self
    }

    fn hard_link(mut self, path: &str, to: &str) -> Builder {
        let node = self.state.nodes.get(to).unwrap().clone();
        self.attach(path, node);
        self
    }

    fn symlink(mut self, path: &str, target: &str) -> Builder {
        self.attach(path, Node::Symlink { target: target.to_string() });
        self
    }

    fn other(mut self, path: &str) -> Builder {
        self.attach(path, Node::Other);
        self
    }

    fn unlistable(mut self, path: &str) -> Builder {
        self.state.unlistable.insert(path.to_string());
        self
    }

    fn unstatable(mut self, path: &str) -> Builder {
        self.state.unstatable.insert(path.to_string());
        self
    }

    fn unreadable(mut self, path: &str) -> Builder {
        self.state.unreadable.insert(path.to_string());
        self
    }

    fn short_reads(mut self, path: &str) -> Builder {
        self.state.short_reads.insert(path.to_string());
        self
    }

    fn build(self) -> MemFs {
        MemFs { state: Rc::new(self.state) }
    }
}

impl MemFs {
    fn reads(&self) -> Vec<(String, u64, usize)> {
        self.state.reads.borrow().clone()
    }

    fn reads_of(&self, path: &str) -> usize {
        self.state.reads.borrow().iter().filter(|r| r.0 == path).count()
    }

    fn listed(&self) -> Vec<String> {
        self.state.listed.borrow().clone()
    }

    fn resolve(&self, path: &str) -> Result<Node, FsError> {
        let mut at = path.to_string();
        for _ in 0..16 {
            match self.state.nodes.get(&at) {
                None => return Err(FsError::NotFound),
                Some(Node::Symlink { target }) => at = target.clone(),
                Some(node) => return Ok(node.clone()),
            }
        }
        Err(FsError::BrokenSymlinkTarget)
    }
}

fn stat_of(node: &Node) -> Stat {
    let (kind, len, dev, inode) = match node {
        Node::File { dev, inode, content } => (FileType::File, content.len() as u64, *dev, *inode),
        Node::Dir { .. } => (FileType::Dir, 0, 1, 0),
        Node::Symlink { .. } => (FileType::Symlink, 0, 1, 0),
        Node::Other => (FileType::Other, 0, 1, 0),
    };
    Stat { len, mod_time: Ok(0), kind, inode: Inode(inode), device: Ok(DeviceId(dev)) }
}

impl File for MemFile {
    type MD = Stat;

    fn get_inode(&self) -> Result<Inode, FsError> {
        self.get_metadata().map(|md| md.inode)
    }

    fn get_path(&self) -> String {
        self.path.clone()
    }

    fn get_type(&self) -> Result<FileType, FsError> {
        if self.state.unstatable.contains(&self.path) {
            return Err(FsError::MetadataUnavailable);
        }
        match self.state.nodes.get(&self.path) {
            None => Err(FsError::NotFound),
            Some(node) => Ok(stat_of(node).kind),
        }
    }

    fn get_metadata(&self) -> Result<Stat, FsError> {
        if self.state.unstatable.contains(&self.path) {
            return Err(FsError::MetadataUnavailable);
        }
        let fs = MemFs { state: self.state.clone() };
        fs.resolve(&self.path).map(|node| stat_of(&node))
    }

    fn read_at(&self, offset: u64, max: usize) -> Result<Vec<u8>, FsError> {
        self.state.reads.borrow_mut().push((self.path.clone(), offset, max));
        if self.state.unreadable.contains(&self.path) {
            return Err(FsError::ReadFailure);
        }
        let fs = MemFs { state: self.state.clone() };
        match fs.resolve(&self.path)? {
            Node::File { content, .. } => {
                let from = (offset as usize).min(content.len());
                let mut to = (from + max).min(content.len());
                if self.state.short_reads.contains(&self.path) && to > from {
                    to = from + ((to - from) / 2).max(1);
                }
                Ok(content[from..to].to_vec())
            }
            _ => Err(FsError::ReadFailure),
        }
    }
}

impl VFS for MemFs {
    type FileIter = MemFile;

    fn list_dir(&self, p: &str) -> Result<Vec<Result<MemFile, FsError>>, FsError> {
        self.state.listed.borrow_mut().push(p.to_string());
        if self.state.unlistable.contains(p) {
            return Err(FsError::PermissionDenied);
        }
        match self.state.nodes.get(p) {
            Some(Node::Dir { children }) => Ok(children
                .iter()
                .map(|c| Ok(MemFile { path: c.clone(), state: self.state.clone() }))
                .collect()),
            Some(_) => Err(FsError::NotFound),
            None => Err(FsError::NotFound),
        }
    }

    fn get_metadata(&self, p: &str) -> Result<Stat, FsError> {
        self.resolve(p).map(|node| stat_of(&node))
    }

    fn get_symlink_metadata(&self, p: &str) -> Result<Stat, FsError> {
        self.state.nodes.get(p).map(stat_of).ok_or(FsError::NotFound)
    }

    fn read_link(&self, p: &str) -> Result<String, FsError> {
        match self.state.nodes.get(p) {
            Some(Node::Symlink { target }) => Ok(target.clone()),
            Some(_) => Err(FsError::BrokenSymlinkTarget),
            None => Err(FsError::NotFound),
        }
    }

    fn get_file(&self, p: &str) -> Result<MemFile, FsError> {
        match self.resolve(p)? {
            Node::File { .. } => Ok(MemFile { path: p.to_string(), state: self.state.clone() }),
            _ => Err(FsError::NotFound),
        }
    }

    fn rm_file(&mut self, _p: &str) -> Result<(), FsError> {
        Err(FsError::PermissionDenied)
    }

    fn make_link(&mut self, _src: &str, _dst: &str) -> Result<(), FsError> {
        Err(FsError::CrossDeviceLink)
    }
}

fn strings(v: &[&str]) -> Vec<String> {
    v.iter().map(|s| s.to_string()).collect()
}

fn walker(roots: &[&str]) -> DirWalker {
    DirWalker::new(strings(roots))
}

/// The duplicate sets as sorted lists of sorted path lists.
fn groups(fs: &MemFs, w: &DirWalker, kind: DigestKind) -> Vec<Vec<Vec<String>>> {
    let s = scan(w, fs, kind, usize::MAX);
    s.catalog
        .duplicate_sets()
        .iter()
        .map(|set| set.members.iter().map(|m| m.paths.clone()).collect())
        .collect()
}

#[test]
fn equal_files_are_one_set() {
    let fs = Builder::new()
        .dir("/a")
        .file("/a/x", 1, b"AAAA")
        .file("/a/y", 2, b"AAAA")
        .file("/a/z", 3, b"AAAB")
        .build();
    let s = scan(&walker(&["/a"]), &fs, DigestKind::Fast, usize::MAX);
    assert_eq!(s.walk.files(), &strings(&["/a/x", "/a/y", "/a/z"]));
    let sets = s.catalog.duplicate_sets();
    assert_eq!(sets.len(), 1);
    assert_eq!(sets[0].size, 4);
    assert_eq!(sets[0].members.len(), 2);
    assert_eq!(sets[0].members[0].id, ID { dev: 1, inode: 1 });
    assert_eq!(sets[0].members[0].paths, strings(&["/a/x"]));
    assert_eq!(sets[0].members[1].id, ID { dev: 1, inode: 2 });
    assert_eq!(sets[0].members[1].paths, strings(&["/a/y"]));
    assert_eq!(s.catalog.duplicate_groups(), vec![vec![0, 1]]);
    // z differs within its first bytes: its partial digest settles it.
    assert_eq!(s.catalog.partial_reads(), 3);
    assert_eq!(s.catalog.full_reads(), 2);
    assert_eq!(fs.reads_of("/a/z"), 1);
}

#[test]
fn hard_link_is_one_entry_and_no_read() {
    let fs = Builder::new().dir("/r").file("/r/a", 7, b"same bytes").hard_link("/r/b", "/r/a").build();
    let s = scan(&walker(&["/r"]), &fs, DigestKind::Fast, usize::MAX);
    assert_eq!(s.catalog.entries().len(), 1);
    assert_eq!(s.catalog.entries()[0].paths(), &strings(&["/r/a", "/r/b"]));
    assert_eq!(s.catalog.entries()[0].id(), ID { dev: 1, inode: 7 });
    assert!(matches!(s.catalog.entries()[0].partial(), DigestState::Unread));
    assert!(matches!(s.catalog.entries()[0].full(), DigestState::Unread));
    assert_eq!(s.catalog.partial_reads(), 0);
    assert_eq!(s.catalog.full_reads(), 0);
    assert!(fs.reads().is_empty());
    assert!(s.catalog.duplicate_sets().is_empty());
}

#[test]
fn excluded_folder_hides_the_copy() {
    let fs = Builder::new()
        .dir("/a")
        .dir("/a/tmp")
        .file("/a/tmp/dup1", 1, b"identical")
        .dir("/a/keep")
        .file("/a/keep/dup1", 2, b"identical")
        .build();
    let w = walker(&["/a"]).blacklist_folders(strings(&["/a/tmp"]));
    let s = scan(&w, &fs, DigestKind::Fast, usize::MAX);
    assert_eq!(s.walk.files(), &strings(&["/a/keep/dup1"]));
    assert!(s.catalog.duplicate_sets().is_empty());
    assert!(!fs.listed().contains(&"/a/tmp".to_string()));
    assert!(fs.reads().is_empty());
    // Without the exclusion the two are a set.
    let sets = groups(&fs, &walker(&["/a"]), DigestKind::Fast);
    assert_eq!(sets, vec![vec![strings(&["/a/tmp/dup1"]), strings(&["/a/keep/dup1"])]]);
}

#[test]
fn hard_links_of_duplicates_are_listed_with_their_file() {
    let fs = Builder::new()
        .dir("/a")
        .file("/a/x", 1, b"content")
        .hard_link("/a/x2", "/a/x")
        .file("/a/y", 2, b"content")
        .build();
    let sets = groups(&fs, &walker(&["/a"]), DigestKind::Fast);
    assert_eq!(sets, vec![vec![strings(&["/a/x", "/a/x2"]), strings(&["/a/y"])]]);
    assert_eq!(fs.reads_of("/a/x2"), 0);
}

#[test]
fn files_of_different_sizes_are_never_read() {
    let fs = Builder::new()
        .dir("/a")
        .file("/a/one", 1, b"1")
        .file("/a/two", 2, b"22")
        .file("/a/three", 3, b"333")
        .build();
    let s = scan(&walker(&["/a"]), &fs, DigestKind::Fast, usize::MAX);
    assert!(fs.reads().is_empty());
    assert_eq!(s.catalog.entries().len(), 3);
    assert_eq!(s.catalog.partial_reads(), 0);
    assert!(s.catalog.duplicate_sets().is_empty());
}

#[test]
fn reading_stays_within_one_size() {
    let fs = Builder::new()
        .dir("/a")
        .file("/a/p", 1, b"pq")
        .file("/a/q", 2, b"pq")
        .file("/a/lone", 3, b"lonely")
        .file("/a/r", 4, b"xy")
        .build();
    let mut catalog = smllr::catalog::FileCatalog::new(DigestKind::Fast);
    for p in ["/a/p", "/a/q", "/a/lone"] {
        insert_path(&mut catalog, &fs, p).unwrap();
    }
    let before = fs.reads().len();
    assert_eq!(insert_path(&mut catalog, &fs, "/a/r"), Ok(Placement::Fresh(3)));
    let new_reads: Vec<String> = fs.reads()[before..].iter().map(|r| r.0.clone()).collect();
    // Only the newcomer is read: p and q have their digests, lone has another size.
    assert_eq!(new_reads, strings(&["/a/r"]));
    assert_eq!(fs.reads_of("/a/lone"), 0);
    assert_eq!(catalog.duplicate_groups(), vec![vec![0, 1]]);
}

#[test]
fn equal_first_bytes_do_not_make_duplicates() {
    let mut a = vec![b'h'; 32];
    let mut b = a.clone();
    a.extend_from_slice(b"tail one");
    b.extend_from_slice(b"tail two");
    let fs = Builder::new().dir("/d").file("/d/a", 1, &a).file("/d/b", 2, &b).build();
    let s = scan(&walker(&["/d"]), &fs, DigestKind::Fast, usize::MAX);
    assert!(s.catalog.duplicate_sets().is_empty());
    assert_eq!(s.catalog.partial_reads(), 2);
    assert_eq!(s.catalog.full_reads(), 2);
    let e = s.catalog.entries();
    match (e[0].partial(), e[1].partial(), e[0].full(), e[1].full()) {
        (
            DigestState::Known(pa),
            DigestState::Known(pb),
            DigestState::Known(fa),
            DigestState::Known(fb),
        ) => {
            assert!(pa.same(pb));
            assert!(!fa.same(fb));
            assert!(pa.same(&digest_bytes(DigestKind::Fast, &a[..32])));
            assert!(fa.same(&digest_bytes(DigestKind::Fast, &a)));
        }
        _ => panic!("both digests of both files should be known"),
    }
}

#[test]
fn partial_read_asks_for_exactly_the_leading_bytes() {
    let long = vec![7u8; 100];
    let fs = Builder::new()
        .dir("/d")
        .file("/d/long1", 1, &long)
        .file("/d/long2", 2, &long)
        .file("/d/s1", 3, b"tiny")
        .file("/d/s2", 4, b"tinY")
        .build();
    let _ = scan(&walker(&["/d"]), &fs, DigestKind::Fast, usize::MAX);
    let reads = fs.reads();
    assert!(reads.contains(&("/d/long1".to_string(), 0, 32)));
    assert!(reads.contains(&("/d/long2".to_string(), 0, 32)));
    assert!(reads.contains(&("/d/s1".to_string(), 0, 4)));
    assert!(reads.contains(&("/d/s2".to_string(), 0, 4)));
    // The short files differ in their first bytes: no full read of them.
    assert_eq!(fs.reads_of("/d/s1"), 1);
    assert_eq!(fs.reads_of("/d/s2"), 1);
}

#[test]
fn long_files_are_read_in_bounded_pieces() {
    let mut content = Vec::new();
    for i in 0..10_000u32 {
        content.push((i % 251) as u8);
    }
    let fs = Builder::new().dir("/d").file("/d/a", 1, &content).file("/d/b", 2, &content).build();
    let s = scan(&walker(&["/d"]), &fs, DigestKind::Paranoid, usize::MAX);
    assert_eq!(s.catalog.duplicate_groups(), vec![vec![0, 1]]);
    let full_reads: Vec<(u64, usize)> =
        fs.reads().iter().filter(|r| r.0 == "/d/a").skip(1).map(|r| (r.1, r.2)).collect();
    assert_eq!(full_reads, vec![(0, 4096), (4096, 4096), (8192, 10_000 - 8192)]);
    assert!(fs.reads().iter().all(|r| r.2 <= CHUNK_SIZE));
    match s.catalog.entries()[0].full() {
        DigestState::Known(d) => assert!(d.same(&digest_bytes(DigestKind::Paranoid, &content))),
        _ => panic!("the full digest should be known"),
    }
}

#[test]
fn digests_of_a_file_through_its_handle() {
    let content: Vec<u8> = (0..5000u32).map(|i| (i % 7) as u8).collect();
    let fs = Builder::new().dir("/d").file("/d/a", 1, &content).build();
    let file = fs.get_file("/d/a").unwrap();
    for kind in [DigestKind::Fast, DigestKind::Paranoid] {
        let first = get_first_bytes(&file, kind, 5000).unwrap();
        assert!(first.same(&digest_bytes(kind, &content[..32])));
        let whole = get_hash(&file, kind, 5000).unwrap();
        assert!(whole.same(&digest_bytes(kind, &content)));
    }
    // A file that turns out shorter than its stat said cannot be hashed.
    assert_eq!(get_hash(&file, DigestKind::Fast, 6000).err(), Some(FsError::ReadFailure));
    assert_eq!(get_first_bytes(&file, DigestKind::Fast, 0).map(|d| d.as_bytes().len()), Ok(16));
}

#[test]
fn short_reads_still_cover_the_whole_content() {
    let content: Vec<u8> = (0..9000u32).map(|i| (i % 13) as u8).collect();
    let fs = Builder::new().dir("/d").file("/d/a", 1, &content).short_reads("/d/a").build();
    let file = fs.get_file("/d/a").unwrap();
    let whole = get_hash(&file, DigestKind::Fast, 9000).unwrap();
    assert!(whole.same(&digest_bytes(DigestKind::Fast, &content)));
    // The first bytes must come in one read.
    assert_eq!(get_first_bytes(&file, DigestKind::Fast, 9000).err(), Some(FsError::ReadFailure));
}

#[test]
fn failed_read_takes_only_that_file_out() {
    let fs = Builder::new()
        .dir("/d")
        .file("/d/a", 1, b"twin")
        .file("/d/b", 2, b"twin")
        .file("/d/c", 3, b"twin")
        .unreadable("/d/b")
        .build();
    let s = scan(&walker(&["/d"]), &fs, DigestKind::Fast, usize::MAX);
    assert_eq!(s.catalog.duplicate_groups(), vec![vec![0, 2]]);
    assert!(matches!(
        s.catalog.entries()[1].partial(),
        DigestState::Failed(FsError::ReadFailure)
    ));
    assert!(matches!(s.catalog.entries()[1].full(), DigestState::Unread));
    // The failure is final: the file is not read again.
    assert_eq!(fs.reads_of("/d/b"), 1);
}

#[test]
fn failed_stat_is_skipped_not_fatal() {
    let fs = Builder::new()
        .dir("/d")
        .file("/d/a", 1, b"twin")
        .file("/d/bad", 2, b"twin")
        .file("/d/c", 3, b"twin")
        .build();
    let mut catalog = smllr::catalog::FileCatalog::new(DigestKind::Fast);
    assert_eq!(insert_path(&mut catalog, &fs, "/d/a"), Ok(Placement::Fresh(0)));
    assert_eq!(insert_path(&mut catalog, &fs, "/d/missing"), Err(FsError::NotFound));
    assert_eq!(insert_path(&mut catalog, &fs, "/d"), Err(FsError::NotFound));
    assert_eq!(insert_path(&mut catalog, &fs, "/d/c"), Ok(Placement::Fresh(1)));
    assert_eq!(
        catalog.skipped(),
        &vec![("/d/missing".to_string(), FsError::NotFound), ("/d".to_string(), FsError::NotFound)]
    );
    assert_eq!(catalog.duplicate_groups(), vec![vec![0, 1]]);
}

#[test]
fn unreadable_kind_is_reported_and_the_walk_goes_on() {
    let fs = Builder::new()
        .dir("/d")
        .file("/d/a", 1, b"x")
        .file("/d/odd", 2, b"y")
        .file("/d/c", 3, b"z")
        .unstatable("/d/odd")
        .build();
    let walk = traverse_all(&walker(&["/d"]), &fs, usize::MAX);
    assert_eq!(walk.files(), &strings(&["/d/a", "/d/c"]));
    assert_eq!(walk.errors().len(), 1);
    assert_eq!(walk.errors()[0].path, "/d/odd");
    assert_eq!(walk.errors()[0].error, FsError::MetadataUnavailable);
}

#[test]
fn unlistable_directory_is_reported_and_the_walk_goes_on() {
    let fs = Builder::new()
        .dir("/r1")
        .dir("/r1/locked")
        .file("/r1/locked/hidden", 1, b"h")
        .dir("/r1/open")
        .file("/r1/open/seen", 2, b"s")
        .dir("/r2")
        .file("/r2/also", 3, b"a")
        .unlistable("/r1/locked")
        .build();
    let walk = traverse_all(&walker(&["/r1", "/missing", "/r2"]), &fs, usize::MAX);
    assert!(walk.is_done());
    assert_eq!(walk.files(), &strings(&["/r1/open/seen", "/r2/also"]));
    let errors: Vec<(String, FsError)> =
        walk.errors().iter().map(|e| (e.path.clone(), e.error)).collect();
    assert_eq!(
        errors,
        vec![
            ("/r1/locked".to_string(), FsError::PermissionDenied),
            ("/missing".to_string(), FsError::NotFound),
        ]
    );
}

#[test]
fn walk_order_follows_the_roots_and_the_listings() {
    let fs = Builder::new()
        .dir("/r1")
        .file("/r1/f1", 1, b"1")
        .dir("/r1/d1")
        .file("/r1/f2", 2, b"2")
        .dir("/r1/d2")
        .file("/r1/d1/g1", 3, b"3")
        .dir("/r1/d1/deep")
        .file("/r1/d1/deep/h", 4, b"4")
        .file("/r1/d2/g2", 5, b"5")
        .dir("/r2")
        .file("/r2/k", 6, b"6")
        .build();
    let walk = traverse_all(&walker(&["/r1", "/r2"]), &fs, usize::MAX);
    assert_eq!(
        walk.files(),
        &strings(&["/r1/f1", "/r1/f2", "/r1/d1/g1", "/r1/d1/deep/h", "/r1/d2/g2", "/r2/k"])
    );
    assert_eq!(fs.listed(), strings(&["/r1", "/r1/d1", "/r1/d1/deep", "/r1/d2", "/r2"]));
}

#[test]
fn symlinks_and_special_files_are_never_followed() {
    let fs = Builder::new()
        .dir("/r")
        .file("/r/real", 1, b"data")
        .symlink("/r/link", "/r/real")
        .symlink("/r/loop", "/r")
        .other("/r/fifo")
        .build();
    let s = scan(&walker(&["/r"]), &fs, DigestKind::Fast, usize::MAX);
    assert_eq!(s.walk.files(), &strings(&["/r/real"]));
    assert_eq!(fs.listed(), strings(&["/r"]));
    assert!(s.walk.errors().is_empty());
    assert!(s.catalog.duplicate_sets().is_empty());
}

#[test]
fn excluded_names_are_left_out_wherever_they_lie() {
    let fs = Builder::new()
        .dir("/r")
        .file("/r/keep.txt", 1, b"same")
        .file("/r/drop.bak", 2, b"same")
        .dir("/r/bak")
        .file("/r/bak/inner.txt", 3, b"same")
        .file("/r/bak/inner.bak", 4, b"same")
        .build();
    let w = walker(&["/r"]).blacklist_patterns(&strings(&[r"\.bak$"])).unwrap();
    let s = scan(&w, &fs, DigestKind::Fast, usize::MAX);
    // The pattern is held against the base name only: the folder "bak" is walked.
    assert_eq!(s.walk.files(), &strings(&["/r/keep.txt", "/r/bak/inner.txt"]));
    assert_eq!(fs.reads_of("/r/drop.bak"), 0);
    assert_eq!(s.catalog.duplicate_groups(), vec![vec![0, 1]]);
}

#[test]
fn excluded_folders_hide_all_below_them() {
    let fs = Builder::new()
        .dir("/r")
        .dir("/r/skip")
        .file("/r/skip/a", 1, b"a")
        .dir("/r/skip/deeper")
        .file("/r/skip/deeper/b", 2, b"b")
        .dir("/r/skipper")
        .file("/r/skipper/c", 3, b"c")
        .dir("/other")
        .file("/other/d", 4, b"d")
        .build();
    let w = walker(&["/r", "/other"]).blacklist_folders(strings(&["/r/skip", "/other"]));
    let walk = traverse_all(&w, &fs, usize::MAX);
    // Exclusion is by the exact path: "/r/skipper" is another folder.
    assert_eq!(walk.files(), &strings(&["/r/skipper/c"]));
    assert_eq!(fs.listed(), strings(&["/r", "/r/skipper"]));
}

#[test]
fn scanning_twice_gives_the_same_sets() {
    let fs = Builder::new()
        .dir("/a")
        .file("/a/x", 1, b"AAAA")
        .file("/a/y", 2, b"AAAA")
        .dir("/a/sub")
        .file("/a/sub/z", 3, b"AAAA")
        .file("/a/w", 4, b"BBBB")
        .hard_link("/a/x2", "/a/x")
        .build();
    let w = walker(&["/a"]);
    let first = groups(&fs, &w, DigestKind::Fast);
    let second = groups(&fs, &w, DigestKind::Fast);
    assert_eq!(first, second);
    assert_eq!(first.len(), 1);
    assert_eq!(first[0].len(), 3);
}

#[test]
fn rescanning_into_the_same_catalog_changes_no_group() {
    let fs = Builder::new()
        .dir("/a")
        .file("/a/x", 1, b"AAAA")
        .file("/a/y", 2, b"AAAA")
        .file("/a/z", 3, b"CCCC")
        .build();
    let s = scan(&walker(&["/a"]), &fs, DigestKind::Fast, usize::MAX);
    let mut catalog = s.catalog;
    let groups_before = catalog.duplicate_groups();
    let reads_before = fs.reads().len();
    let (partial, full) = (catalog.partial_reads(), catalog.full_reads());
    for (i, p) in ["/a/x", "/a/y", "/a/z"].iter().enumerate() {
        assert_eq!(insert_path(&mut catalog, &fs, p), Ok(Placement::Alias(i)));
    }
    assert_eq!(catalog.duplicate_groups(), groups_before);
    assert_eq!(fs.reads().len(), reads_before);
    assert_eq!((catalog.partial_reads(), catalog.full_reads()), (partial, full));
    assert_eq!(catalog.entries().len(), 3);
}

#[test]
fn both_algorithms_find_the_same_sets() {
    let fs = Builder::new()
        .dir("/a")
        .file("/a/x", 1, b"one content")
        .file("/a/y", 2, b"one content")
        .file("/a/z", 3, b"two content")
        .build();
    let w = walker(&["/a"]);
    let fast = scan(&w, &fs, DigestKind::Fast, usize::MAX);
    let paranoid = scan(&w, &fs, DigestKind::Paranoid, usize::MAX);
    assert_eq!(fast.catalog.kind(), DigestKind::Fast);
    assert_eq!(paranoid.catalog.kind(), DigestKind::Paranoid);
    assert_eq!(fast.catalog.duplicate_groups(), vec![vec![0, 1]]);
    assert_eq!(paranoid.catalog.duplicate_groups(), vec![vec![0, 1]]);
    match (fast.catalog.entries()[0].full(), paranoid.catalog.entries()[0].full()) {
        (DigestState::Known(f), DigestState::Known(p)) => {
            assert_eq!(f.as_bytes().len(), 16);
            assert_eq!(p.as_bytes().len(), 32);
        }
        _ => panic!("both full digests should be known"),
    }
}

#[test]
fn the_limit_bounds_the_listings() {
    let fs = Builder::new()
        .dir("/r")
        .file("/r/top", 1, b"t")
        .dir("/r/d1")
        .file("/r/d1/in1", 2, b"i")
        .dir("/r/d2")
        .file("/r/d2/in2", 3, b"j")
        .build();
    let w = walker(&["/r"]);
    let none = traverse_all(&w, &fs, 0);
    assert!(!none.is_done());
    assert!(none.files().is_empty());
    let two = traverse_all(&w, &fs, 2);
    assert!(!two.is_done());
    assert_eq!(two.files(), &strings(&["/r/top", "/r/d1/in1"]));
    assert_eq!(two.next_dir(), Some(&"/r/d2".to_string()));
    let all = traverse_all(&w, &fs, 3);
    assert!(all.is_done());
    assert_eq!(all.files().len(), 3);
}

#[test]
fn a_walk_can_be_driven_step_by_step() {
    let fs = Builder::new().dir("/r").dir("/r/d").file("/r/d/f", 1, b"f").build();
    let w = walker(&["/r"]);
    let mut walk = w.start();
    assert_eq!(walk.next_dir(), Some(&"/r".to_string()));
    assert!(walk_step(&mut walk, &w, &fs));
    assert_eq!(walk.next_dir(), Some(&"/r/d".to_string()));
    assert!(walk_step(&mut walk, &w, &fs));
    assert!(walk.is_done());
    assert!(!walk_step(&mut walk, &w, &fs));
    assert_eq!(walk.files(), &strings(&["/r/d/f"]));
}

#[test]
fn three_sets_come_in_the_order_of_their_first_files() {
    let fs = Builder::new()
        .dir("/a")
        .file("/a/u1", 1, b"pp")
        .file("/a/v1", 2, b"qqq")
        .file("/a/v2", 3, b"qqq")
        .file("/a/u2", 4, b"pp")
        .file("/a/w1", 5, b"r")
        .file("/a/u3", 6, b"pp")
        .build();
    let s = scan(&walker(&["/a"]), &fs, DigestKind::Fast, usize::MAX);
    assert_eq!(s.catalog.duplicate_groups(), vec![vec![0, 3, 5], vec![1, 2]]);
    let sets = s.catalog.duplicate_sets();
    assert_eq!(sets[0].size, 2);
    assert_eq!(sets[1].size, 3);
    assert_eq!(fs.reads_of("/a/w1"), 0);
    assert!(s.catalog.content_equal(0, 5));
    assert!(!s.catalog.content_equal(0, 1));
    assert!(!s.catalog.content_equal(4, 4));
    assert!(!s.catalog.content_equal(0, 9));
}

struct Recorder {
    lines: Vec<String>,
}

impl Reporter for Recorder {
    fn unreadable(&mut self, path: &str, error: FsError) {
        self.lines.push(format!("unreadable {} {:?}", path, error));
    }

    fn taken(&mut self, path: &str, outcome: &Result<Placement, FsError>) {
        self.lines.push(format!("taken {} {:?}", path, outcome));
    }
}

#[test]
fn reporter_is_told_of_everything() {
    let fs = Builder::new()
        .dir("/d")
        .file("/d/a", 1, b"twin")
        .hard_link("/d/a2", "/d/a")
        .file("/d/bad", 2, b"twin")
        .dir("/d/locked")
        .unlistable("/d/locked")
        .build();
    // A file that vanishes between the walk and the catalog: the walk sees it,
    // the catalog cannot open it.
    let mut recorder = Recorder { lines: Vec::new() };
    let s = scan_with(&walker(&["/d", "/gone"]), &fs, DigestKind::Fast, usize::MAX, &mut recorder);
    assert_eq!(
        recorder.lines,
        vec![
            "unreadable /d/locked PermissionDenied",
            "unreadable /gone NotFound",
            "taken /d/a Ok(Fresh(0))",
            "taken /d/a2 Ok(Alias(0))",
            "taken /d/bad Ok(Fresh(1))",
        ]
    );
    assert_eq!(s.catalog.duplicate_groups(), vec![vec![0, 1]]);
}
