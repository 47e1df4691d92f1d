//! Finds byte-identical files across directory trees.
//!
//! A [`walker::DirWalker`] enumerates the regular files under a set of roots,
//! leaving out excluded folders and excluded file names. A
//! [`catalog::FileCatalog`] takes those files one at a time and narrows the
//! candidates step by step: by physical identity, by size, by the digest of
//! the first bytes and at last by the digest of the whole content, so that a
//! file is only read when another file could still be equal to it.
//!
//! Neither the walk nor the catalog touches a filesystem. Each says what it
//! wants to know next, a directory's listing or a file's digest, and takes
//! the answer in; what it makes of every answer is proved. The functions in
//! [`scan`] put the questions to a filesystem, which is anything that offers
//! the operations of [`vfs::VFS`]. What holds of every scan, whatever the
//! filesystem answers, is stated in [`laws`] and beside the walk in
//! [`walker`].

use vstd::prelude::*;

pub mod catalog;
pub mod digest;
pub mod index;
pub mod laws;
pub mod pattern;
pub mod scan;
pub mod vfs;
pub mod walker;

verus! {

/// How many leading bytes of a file the partial digest covers.
pub const FIRST_K_BYTES: usize = 32;

/// The physical identity of a file: the device it lives on and its inode
/// number there. Paths that share an `ID` are hard links to one file.
#[derive(Clone, Copy, Debug, Hash, PartialEq, Eq, Structural)]
pub struct ID {
    pub dev: u64,
    pub inode: u64,
}

/// The upper-case hexadecimal digit for a value below 16.
pub open spec fn hex_digit(d: int) -> char {
    seq!['0', '1', '2', '3', '4', '5', '6', '7', '8', '9', 'A', 'B', 'C', 'D', 'E', 'F'][d]
}

/// A number in upper-case hexadecimal, without leading zeros.
pub open spec fn hex_of(n: nat) -> Seq<char>
    decreases n,
{
    if n < 16 {
        seq![hex_digit(n as int)]
    } else {
        hex_of(n / 16).push(hex_digit((n % 16) as int))
    }
}

/// The hexadecimal digit for a value below 16, as a string.
fn digit_text(d: u64) -> (text: &'static str)
    requires
        d < 16,
    ensures
        text@ == seq![hex_digit(d as int)],
{
    proof {
        reveal_strlit("0");
        reveal_strlit("1");
        reveal_strlit("2");
        reveal_strlit("3");
        reveal_strlit("4");
        reveal_strlit("5");
        reveal_strlit("6");
        reveal_strlit("7");
        reveal_strlit("8");
        reveal_strlit("9");
        reveal_strlit("A");
        reveal_strlit("B");
        reveal_strlit("C");
        reveal_strlit("D");
        reveal_strlit("E");
        reveal_strlit("F");
    }
    let text = if d == 0 {
        "0"
    } else if d == 1 {
        "1"
    } else if d == 2 {
        "2"
    } else if d == 3 {
        "3"
    } else if d == 4 {
        "4"
    } else if d == 5 {
        "5"
    } else if d == 6 {
        "6"
    } else if d == 7 {
        "7"
    } else if d == 8 {
        "8"
    } else if d == 9 {
        "9"
    } else if d == 10 {
        "A"
    } else if d == 11 {
        "B"
    } else if d == 12 {
        "C"
    } else if d == 13 {
        "D"
    } else if d == 14 {
        "E"
    } else {
        "F"
    };
    assert(text@ =~= seq![hex_digit(d as int)]);
    text
}

/// Writes a number in hexadecimal behind what the string holds.
fn push_hex(out: &mut String, n: u64)
    ensures
        final(out)@ == old(out)@ + hex_of(n as nat),
    decreases n,
{
    if n >= 16 {
        push_hex(out, n / 16);
    }
    let ghost before = out@;
    out.append(digit_text(n % 16));
    assert(out@ =~= old(out)@ + hex_of(n as nat));
}

impl ID {
    /// The identity made of a device id and an inode number.
    pub fn new(dev: vfs::DeviceId, inode: vfs::Inode) -> (id: ID)
        ensures
            id.dev == dev.0,
            id.inode == inode.0,
    {
        ID { dev: dev.0, inode: inode.0 }
    }

    /// The identity as text: the device and the inode in upper-case
    /// hexadecimal with a colon between them.
    pub fn hex(&self) -> (text: String)
        ensures
            text@ == hex_of(self.dev as nat) + seq![':'] + hex_of(self.inode as nat),
    {
        let mut text = String::new();
        push_hex(&mut text, self.dev);
        proof {
            reveal_strlit(":");
        }
        text.append(":");
        push_hex(&mut text, self.inode);
        assert(text@ =~= hex_of(self.dev as nat) + seq![':'] + hex_of(self.inode as nat));
        text
    }
}

} // verus!
