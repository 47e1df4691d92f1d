//! The identity catalog: it takes files in one at a time and finds, with as
//! few reads as it can, which of them have equal content.
//!
//! The catalog does no input or output. It says which entries it wants a
//! digest of; whoever drives it reads those files and hands the digests in.

use crate::digest::{Digest, DigestKind};
use crate::index::{bucket, bucket_of, lemma_bucket, positions, PositionIndex};
use crate::vfs::{FileType, FsError, MetaData, Stat};
use crate::walker::texts;
use crate::ID;
use vstd::prelude::*;

verus! {

/// A file as the catalog takes it in: its path and what a stat that follows
/// symlinks said of it.
#[derive(Debug)]
pub struct FileHandle {
    pub path: String,
    pub id: ID,
    pub size: u64,
    pub kind: FileType,
    pub mod_time: Result<u64, FsError>,
}

impl FileHandle {
    /// The handle for `path` with the given stat. Fails with the stat's own
    /// error where the stat could not tell the device, for then the file has
    /// no identity.
    pub fn from_stat(path: String, stat: &Stat) -> (r: Result<FileHandle, FsError>)
        ensures
            match stat.device {
                Ok(device) => r matches Ok(h) && h.path@ == path@ && h.id == (ID {
                    dev: device.0,
                    inode: stat.inode.0,
                }) && h.size == stat.len && h.kind == stat.kind && h.mod_time == stat.mod_time,
                Err(e) => r == Err::<FileHandle, FsError>(e),
            },
    {
        match stat.device {
            Ok(device) => Ok(
                FileHandle {
                    path,
                    id: ID::new(device, stat.inode),
                    size: stat.len,
                    kind: stat.kind,
                    mod_time: stat.mod_time,
                },
            ),
            Err(e) => Err(e),
        }
    }

    /// The handle for `path` with what the metadata holds: its identity is
    /// the device and the inode, its size the length. Fails with the stat's
    /// own error where the metadata cannot tell the device, for then the file
    /// has no identity.
    pub fn from_metadata<M: MetaData>(path: String, md: &M) -> (r: Result<FileHandle, FsError>)
        ensures
            match md.stat().device {
                Ok(device) => r matches Ok(h) && h.path@ == path@ && h.id == (ID {
                    dev: device.0,
                    inode: md.stat().inode.0,
                }) && h.size == md.stat().len && h.kind == md.stat().kind && h.mod_time
                    == md.stat().mod_time,
                Err(e) => r == Err::<FileHandle, FsError>(e),
            },
    {
        let stat = Stat::of(md);
        FileHandle::from_stat(path, &stat)
    }
}

/// How far one digest of an entry has come, as a value of the model.
pub enum Stage {
    /// Never asked for: the file was not read for it.
    Unread,
    /// Read, with this digest.
    Known(Seq<u8>),
    /// The read failed. The entry is out of the comparison for good.
    Failed(FsError),
}

/// How far one digest of an entry has come.
#[derive(Debug)]
pub enum DigestState {
    Unread,
    Known(Digest),
    Failed(FsError),
}

impl View for DigestState {
    type V = Stage;

    open spec fn view(&self) -> Stage {
        match self {
            DigestState::Unread => Stage::Unread,
            DigestState::Known(d) => Stage::Known(d@),
            DigestState::Failed(e) => Stage::Failed(*e),
        }
    }
}

/// The stage that the outcome of a read leads to.
pub open spec fn stage_of(outcome: Result<Digest, FsError>) -> Stage {
    match outcome {
        Ok(d) => Stage::Known(d@),
        Err(e) => Stage::Failed(e),
    }
}

/// One physical file in the catalog: its identity and size, every path that
/// leads to it, and its two digests as far as they were needed.
pub struct EntryView {
    pub id: ID,
    pub size: u64,
    pub paths: Seq<Seq<char>>,
    pub partial: Stage,
    pub full: Stage,
}

/// One physical file in the catalog.
#[derive(Debug)]
pub struct CatalogEntry {
    id: ID,
    size: u64,
    paths: Vec<String>,
    partial: DigestState,
    full: DigestState,
}

impl View for CatalogEntry {
    type V = EntryView;

    closed spec fn view(&self) -> EntryView {
        EntryView {
            id: self.id,
            size: self.size,
            paths: texts(self.paths@),
            partial: self.partial@,
            full: self.full@,
        }
    }
}

impl CatalogEntry {
    /// The identity of the file.
    pub fn id(&self) -> (id: ID)
        ensures
            id == self@.id,
    {
        self.id
    }

    /// The size of the file in bytes.
    pub fn size(&self) -> (size: u64)
        ensures
            size == self@.size,
    {
        self.size
    }

    /// Every path under which the file was taken in, in that order.
    pub fn paths(&self) -> (paths: &Vec<String>)
        ensures
            texts(paths@) == self@.paths,
    {
        &self.paths
    }

    /// The digest of the file's first bytes, as far as it was needed.
    pub fn partial(&self) -> (state: &DigestState)
        ensures
            state@ == self@.partial,
    {
        &self.partial
    }

    /// The digest of the file's whole content, as far as it was needed.
    pub fn full(&self) -> (state: &DigestState)
        ensures
            state@ == self@.full,
    {
        &self.full
    }
}

/// The catalog as a value of the model.
pub struct CatalogView {
    /// The digest algorithm, the same for the catalog's whole life.
    pub kind: DigestKind,
    /// The physical files, in the order in which they were first taken in.
    pub entries: Seq<EntryView>,
    /// The paths that were left out because their stat failed.
    pub skipped: Seq<(Seq<char>, FsError)>,
    /// How many reads for a partial digest were made.
    pub partial_reads: nat,
    /// How many reads for a full digest were made.
    pub full_reads: nat,
}

/// The views of a sequence of entries.
pub open spec fn entry_views(entries: Seq<CatalogEntry>) -> Seq<EntryView> {
    entries.map_values(|e: CatalogEntry| e@)
}

/// The texts and errors of a sequence of skipped paths.
pub open spec fn skipped_views(skipped: Seq<(String, FsError)>) -> Seq<(Seq<char>, FsError)> {
    skipped.map_values(|s: (String, FsError)| (s.0@, s.1))
}

/// The position of the first entry with the given identity.
pub open spec fn position_of(entries: Seq<EntryView>, id: ID) -> Option<int>
    decreases entries.len(),
{
    if entries.len() == 0 {
        None
    } else {
        match position_of(entries.drop_last(), id) {
            Some(i) => Some(i),
            None => if entries.last().id == id {
                Some(entries.len() - 1)
            } else {
                None
            },
        }
    }
}

/// Whether another entry has the size of entry `i`: whether its size bucket
/// holds two entries or more.
pub open spec fn has_mate(entries: Seq<EntryView>, i: int) -> bool {
    exists|j: int| 0 <= j < entries.len() && j != i && (#[trigger] entries[j]).size == entries[i].size
}

/// Whether another entry has the size and the partial digest of entry `i`.
pub open spec fn has_partial_mate(entries: Seq<EntryView>, i: int) -> bool {
    exists|j: int|
        0 <= j < entries.len() && j != i && (#[trigger] entries[j]).size == entries[i].size
            && entries[j].partial == entries[i].partial
}

/// Whether the catalog is waiting for the partial digest of entry `i`: the
/// entry has none yet and is no longer alone in its size bucket.
pub open spec fn needs_partial(entries: Seq<EntryView>, i: int) -> bool {
    &&& 0 <= i < entries.len()
    &&& entries[i].partial is Unread
    &&& has_mate(entries, i)
}

/// Whether the catalog is waiting for the full digest of entry `i`: the
/// entry has a partial digest that another entry of its size shares, and no
/// full digest yet.
pub open spec fn needs_full(entries: Seq<EntryView>, i: int) -> bool {
    &&& 0 <= i < entries.len()
    &&& entries[i].partial is Known
    &&& entries[i].full is Unread
    &&& has_partial_mate(entries, i)
}

/// Whether the catalog waits for no digest at all.
pub open spec fn settled(entries: Seq<EntryView>) -> bool {
    &&& forall|i: int| !#[trigger] needs_partial(entries, i)
    &&& forall|i: int| !#[trigger] needs_full(entries, i)
}

/// Whether every digest that the catalog waits for belongs to an entry of
/// the given size.
pub open spec fn unsettled_within(entries: Seq<EntryView>, size: u64) -> bool {
    &&& forall|i: int| #[trigger] needs_partial(entries, i) ==> entries[i].size == size
    &&& forall|i: int| #[trigger] needs_full(entries, i) ==> entries[i].size == size
}

/// How many of the entries were read for a partial digest.
pub open spec fn partial_count(entries: Seq<EntryView>) -> nat
    decreases entries.len(),
{
    if entries.len() == 0 {
        0
    } else {
        partial_count(entries.drop_last()) + if entries.last().partial is Unread {
            0nat
        } else {
            1nat
        }
    }
}

/// How many of the entries were read for a full digest.
pub open spec fn full_count(entries: Seq<EntryView>) -> nat
    decreases entries.len(),
{
    if entries.len() == 0 {
        0
    } else {
        full_count(entries.drop_last()) + if entries.last().full is Unread {
            0nat
        } else {
            1nat
        }
    }
}

/// What holds of every catalog.
///
/// No identity stands in it twice, and every entry has a path. An entry was
/// read for its partial digest only if it is not alone in its size bucket,
/// and for its full digest only if another entry of its size shares its
/// partial digest. Each counter is the number of entries that were read for
/// that digest, so no entry was read twice for the same one.
pub open spec fn well_formed(c: CatalogView) -> bool {
    &&& forall|i: int, j: int|
        0 <= i < j < c.entries.len() ==> (#[trigger] c.entries[i]).id != (#[trigger] c.entries[j]).id
    &&& forall|i: int| 0 <= i < c.entries.len() ==> (#[trigger] c.entries[i]).paths.len() > 0
    &&& forall|i: int|
        0 <= i < c.entries.len() && !((#[trigger] c.entries[i]).partial is Unread) ==> has_mate(
            c.entries,
            i,
        )
    &&& forall|i: int|
        0 <= i < c.entries.len() && !((#[trigger] c.entries[i]).full is Unread) ==> c.entries[i].partial is Known
            && has_partial_mate(c.entries, i)
    &&& c.partial_reads == partial_count(c.entries)
    &&& c.full_reads == full_count(c.entries)
}

/// Whether the path is one of the paths of one of the entries.
pub open spec fn entries_hold(entries: Seq<EntryView>, path: Seq<char>) -> bool {
    exists|i: int, k: int|
        0 <= i < entries.len() && 0 <= k < entries[i].paths.len() && #[trigger] entries[i].paths[k]
            == path
}

/// Whether the catalog holds the path: as a path of one of its entries, or
/// as one that it left out.
pub open spec fn holds_path(c: CatalogView, path: Seq<char>) -> bool {
    ||| entries_hold(c.entries, path)
    ||| exists|s: int| 0 <= s < c.skipped.len() && (#[trigger] c.skipped[s]).0 == path
}

/// What of a handle the catalog keeps.
pub struct HandleView {
    pub path: Seq<char>,
    pub id: ID,
    pub size: u64,
}

impl View for FileHandle {
    type V = HandleView;

    open spec fn view(&self) -> HandleView {
        HandleView { path: self.path@, id: self.id, size: self.size }
    }
}

/// The entry at position `i` with one more path, everything else as it was.
pub open spec fn with_alias(entries: Seq<EntryView>, i: int, path: Seq<char>) -> Seq<EntryView> {
    entries.update(
        i,
        EntryView {
            id: entries[i].id,
            size: entries[i].size,
            paths: entries[i].paths.push(path),
            partial: entries[i].partial,
            full: entries[i].full,
        },
    )
}

/// A new entry for the handle, of which nothing was read yet.
pub open spec fn fresh_entry(h: HandleView) -> EntryView {
    EntryView {
        id: h.id,
        size: h.size,
        paths: seq![h.path],
        partial: Stage::Unread,
        full: Stage::Unread,
    }
}

/// The catalog after it took in a handle. Where the handle's identity is in
/// the catalog already, the path becomes one more alias of that entry and
/// nothing else changes. Otherwise a new entry is put behind the others.
pub open spec fn insert_spec(c: CatalogView, h: HandleView) -> CatalogView {
    match position_of(c.entries, h.id) {
        Some(i) => CatalogView {
            kind: c.kind,
            entries: with_alias(c.entries, i, h.path),
            skipped: c.skipped,
            partial_reads: c.partial_reads,
            full_reads: c.full_reads,
        },
        None => CatalogView {
            kind: c.kind,
            entries: c.entries.push(fresh_entry(h)),
            skipped: c.skipped,
            partial_reads: c.partial_reads,
            full_reads: c.full_reads,
        },
    }
}

/// Entry `i` with the given stage of its partial digest.
pub open spec fn with_partial(entries: Seq<EntryView>, i: int, stage: Stage) -> Seq<EntryView> {
    entries.update(
        i,
        EntryView {
            id: entries[i].id,
            size: entries[i].size,
            paths: entries[i].paths,
            partial: stage,
            full: entries[i].full,
        },
    )
}

/// Entry `i` with the given stage of its full digest.
pub open spec fn with_full(entries: Seq<EntryView>, i: int, stage: Stage) -> Seq<EntryView> {
    entries.update(
        i,
        EntryView {
            id: entries[i].id,
            size: entries[i].size,
            paths: entries[i].paths,
            partial: entries[i].partial,
            full: stage,
        },
    )
}

/// Where the handle went.
#[derive(Debug, Clone, Copy, PartialEq, Eq, Structural)]
pub enum Placement {
    /// Its identity was known: the path is one more alias of this entry.
    Alias(usize),
    /// Its identity was new: this entry was made for it.
    Fresh(usize),
}

/// What `position_of` finds is the first entry with the identity, and it
/// finds one wherever there is one.
pub proof fn lemma_position_of(entries: Seq<EntryView>, id: ID)
    ensures
        match position_of(entries, id) {
            Some(i) => 0 <= i < entries.len() && entries[i].id == id && forall|j: int|
                0 <= j < i ==> (#[trigger] entries[j]).id != id,
            None => forall|j: int| 0 <= j < entries.len() ==> (#[trigger] entries[j]).id != id,
        },
    decreases entries.len(),
{
    if entries.len() > 0 {
        let front = entries.drop_last();
        lemma_position_of(front, id);
        match position_of(front, id) {
            Some(i) => {
                assert(front[i] == entries[i]);
                assert forall|j: int| 0 <= j < i implies (#[trigger] entries[j]).id != id by {
                    assert(front[j] == entries[j]);
                }
            },
            None => {
                assert forall|j: int| 0 <= j < entries.len() - 1 implies (#[trigger] entries[j]).id
                    != id by {
                    assert(front[j] == entries[j]);
                }
            },
        }
    }
}

/// Reading one more entry for its partial digest raises the count by one,
/// and no change to paths or to the other digest moves it.
pub proof fn lemma_partial_count_update(entries: Seq<EntryView>, i: int, e: EntryView)
    requires
        0 <= i < entries.len(),
    ensures
        partial_count(entries.update(i, e)) + (if entries[i].partial is Unread {
            0nat
        } else {
            1nat
        }) == partial_count(entries) + (if e.partial is Unread {
            0nat
        } else {
            1nat
        }),
        partial_count(entries) <= entries.len(),
    decreases entries.len(),
{
    let front = entries.drop_last();
    if i == entries.len() - 1 {
        assert(entries.update(i, e).drop_last() == front);
        lemma_partial_count_bound(front);
    } else {
        lemma_partial_count_update(front, i, e);
        assert(entries.update(i, e).drop_last() == front.update(i, e));
    }
}

/// No more entries were read for a partial digest than there are entries.
pub proof fn lemma_partial_count_bound(entries: Seq<EntryView>)
    ensures
        partial_count(entries) <= entries.len(),
    decreases entries.len(),
{
    if entries.len() > 0 {
        lemma_partial_count_bound(entries.drop_last());
    }
}

/// Reading one more entry for its full digest raises the count by one, and
/// no change to paths or to the other digest moves it.
pub proof fn lemma_full_count_update(entries: Seq<EntryView>, i: int, e: EntryView)
    requires
        0 <= i < entries.len(),
    ensures
        full_count(entries.update(i, e)) + (if entries[i].full is Unread {
            0nat
        } else {
            1nat
        }) == full_count(entries) + (if e.full is Unread {
            0nat
        } else {
            1nat
        }),
        full_count(entries) <= entries.len(),
    decreases entries.len(),
{
    let front = entries.drop_last();
    if i == entries.len() - 1 {
        assert(entries.update(i, e).drop_last() == front);
        lemma_full_count_bound(front);
    } else {
        lemma_full_count_update(front, i, e);
        assert(entries.update(i, e).drop_last() == front.update(i, e));
    }
}

/// No more entries were read for a full digest than there are entries.
pub proof fn lemma_full_count_bound(entries: Seq<EntryView>)
    ensures
        full_count(entries) <= entries.len(),
    decreases entries.len(),
{
    if entries.len() > 0 {
        lemma_full_count_bound(entries.drop_last());
    }
}

/// Taking in a handle keeps the catalog well formed.
pub proof fn lemma_insert_well_formed(c: CatalogView, h: HandleView)
    requires
        well_formed(c),
    ensures
        well_formed(insert_spec(c, h)),
{
    let after = insert_spec(c, h);
    lemma_position_of(c.entries, h.id);
    match position_of(c.entries, h.id) {
        Some(p) => {
            lemma_partial_count_update(c.entries, p, after.entries[p]);
            lemma_full_count_update(c.entries, p, after.entries[p]);
            assert forall|i: int|
                0 <= i < after.entries.len() && !((#[trigger] after.entries[i]).partial is Unread)
                implies has_mate(after.entries, i) by {
                assert(!(c.entries[i].partial is Unread));
                let j = choose|j: int|
                    0 <= j < c.entries.len() && j != i && (#[trigger] c.entries[j]).size
                        == c.entries[i].size;
                assert(after.entries[j].size == after.entries[i].size);
            }
            assert forall|i: int|
                0 <= i < after.entries.len() && !((#[trigger] after.entries[i]).full is Unread)
                implies after.entries[i].partial is Known && has_partial_mate(
                after.entries,
                i,
            ) by {
                assert(!(c.entries[i].full is Unread));
                let j = choose|j: int|
                    0 <= j < c.entries.len() && j != i && (#[trigger] c.entries[j]).size
                        == c.entries[i].size && c.entries[j].partial == c.entries[i].partial;
                assert(after.entries[j].size == after.entries[i].size);
            }
        },
        None => {
            let n = c.entries.len() as int;
            assert(after.entries.drop_last() == c.entries);
            assert forall|i: int, j: int| 0 <= i < j < after.entries.len() implies (
            #[trigger] after.entries[i]).id != (#[trigger] after.entries[j]).id by {
                if j < n {
                    assert(c.entries[i].id != c.entries[j].id);
                } else {
                    assert(c.entries[i].id != h.id);
                }
            }
            assert forall|i: int|
                0 <= i < after.entries.len() && !((#[trigger] after.entries[i]).partial is Unread)
                implies has_mate(after.entries, i) by {
                assert(i < n);
                assert(!(c.entries[i].partial is Unread));
                let j = choose|j: int|
                    0 <= j < c.entries.len() && j != i && (#[trigger] c.entries[j]).size
                        == c.entries[i].size;
                assert(after.entries[j].size == after.entries[i].size);
            }
            assert forall|i: int|
                0 <= i < after.entries.len() && !((#[trigger] after.entries[i]).full is Unread)
                implies after.entries[i].partial is Known && has_partial_mate(
                after.entries,
                i,
            ) by {
                assert(i < n);
                assert(!(c.entries[i].full is Unread));
                let j = choose|j: int|
                    0 <= j < c.entries.len() && j != i && (#[trigger] c.entries[j]).size
                        == c.entries[i].size && c.entries[j].partial == c.entries[i].partial;
                assert(after.entries[j].size == after.entries[i].size);
            }
        },
    }
}

/// The sizes of the entries, in their order.
pub open spec fn sizes(entries: Seq<EntryView>) -> Seq<u64> {
    entries.map_values(|e: EntryView| e.size)
}

/// The inode numbers of the entries, in their order.
pub open spec fn inodes(entries: Seq<EntryView>) -> Seq<u64> {
    entries.map_values(|e: EntryView| e.id.inode)
}

/// The catalog of the physical files met so far.
///
/// Beside the entries it keeps two indexes: the size buckets, which lead
/// from a size to the entries of that size, and one that leads from an
/// inode number to the entries with it.
pub struct FileCatalog {
    kind: DigestKind,
    entries: Vec<CatalogEntry>,
    skipped: Vec<(String, FsError)>,
    partial_reads: usize,
    full_reads: usize,
    by_size: PositionIndex,
    by_inode: PositionIndex,
}

impl View for FileCatalog {
    type V = CatalogView;

    closed spec fn view(&self) -> CatalogView {
        CatalogView {
            kind: self.kind,
            entries: entry_views(self.entries@),
            skipped: skipped_views(self.skipped@),
            partial_reads: self.partial_reads as nat,
            full_reads: self.full_reads as nat,
        }
    }
}

impl FileCatalog {
    /// Whether the two indexes are those of the entries.
    pub closed spec fn indexed(&self) -> bool {
        &&& self.by_size.wf()
        &&& self.by_inode.wf()
        &&& self.by_size@ == sizes(self@.entries)
        &&& self.by_inode@ == inodes(self@.entries)
    }

    /// Whether the catalog is in order: what it holds is well formed, and
    /// its indexes are those of its entries.
    pub open spec fn wf(&self) -> bool {
        &&& well_formed(self@)
        &&& self.indexed()
    }

    /// An empty catalog that compares by digests of the given kind.
    pub fn new(kind: DigestKind) -> (catalog: FileCatalog)
        ensures
            catalog.wf(),
            catalog@.kind == kind,
            catalog@.entries == Seq::<EntryView>::empty(),
            catalog@.skipped == Seq::<(Seq<char>, FsError)>::empty(),
            catalog@.partial_reads == 0,
            catalog@.full_reads == 0,
            settled(catalog@.entries),
    {
        let catalog = FileCatalog {
            kind,
            entries: Vec::new(),
            skipped: Vec::new(),
            partial_reads: 0,
            full_reads: 0,
            by_size: PositionIndex::new(),
            by_inode: PositionIndex::new(),
        };
        assert(sizes(catalog@.entries) == Seq::<u64>::empty());
        assert(inodes(catalog@.entries) == Seq::<u64>::empty());
        catalog
    }

    /// The digest algorithm of this catalog.
    pub fn kind(&self) -> (kind: DigestKind)
        ensures
            kind == self@.kind,
    {
        self.kind
    }

    /// The physical files, in the order in which they were first taken in.
    pub fn entries(&self) -> (entries: &Vec<CatalogEntry>)
        ensures
            entry_views(entries@) == self@.entries,
    {
        &self.entries
    }

    /// The paths that were left out because their stat failed.
    pub fn skipped(&self) -> (skipped: &Vec<(String, FsError)>)
        ensures
            skipped_views(skipped@) == self@.skipped,
    {
        &self.skipped
    }

    /// How many reads for a partial digest were made.
    pub fn partial_reads(&self) -> (n: usize)
        ensures
            n == self@.partial_reads,
    {
        self.partial_reads
    }

    /// How many reads for a full digest were made.
    pub fn full_reads(&self) -> (n: usize)
        ensures
            n == self@.full_reads,
    {
        self.full_reads
    }

    /// The position of the entry with the given identity.
    pub fn find(&self, id: ID) -> (found: Option<usize>)
        requires
            self.indexed(),
        ensures
            match found {
                Some(i) => position_of(self@.entries, id) == Some(i as int),
                None => position_of(self@.entries, id) is None,
            },
    {
        let list = self.by_inode.lookup(id.inode);
        let ghost keys = inodes(self@.entries);
        proof {
            lemma_bucket(keys, id.inode, keys.len() as int);
            lemma_position_of(self@.entries, id);
        }
        let mut m: usize = 0;
        while m < list.len()
            invariant
                m <= list.len(),
                self.indexed(),
                keys == inodes(self@.entries),
                positions(list@) == bucket(keys, id.inode),
                forall|x: int| 0 <= x < m ==> self@.entries[#[trigger] positions(list@)[x]].id != id,
            decreases list.len() - m,
        {
            proof {
                lemma_bucket(keys, id.inode, keys.len() as int);
            }
            let i = list[m];
            assert(positions(list@)[m as int] == i);
            assert(keys[i as int] == id.inode);
            if self.entries[i].id.dev == id.dev {
                assert(self@.entries[i as int].id == id);
                assert forall|j: int| 0 <= j < i implies (#[trigger] self@.entries[j]).id != id by {
                    if self@.entries[j].id == id {
                        assert(keys[j] == id.inode);
                        let x = choose|x: int|
                            0 <= x < bucket(keys, id.inode).len() && #[trigger] bucket(
                                keys,
                                id.inode,
                            )[x] == j;
                        if x >= m {
                            if x > m {
                                assert(bucket(keys, id.inode)[m as int] < bucket(keys, id.inode)[x]);
                            }
                        }
                    }
                }
                proof {
                    lemma_position_of(self@.entries, id);
                    let p = position_of(self@.entries, id);
                    assert(p is Some);
                    if p->0 < i {
                        assert(self@.entries[p->0].id != id);
                    }
                }
                return Some(i);
            }
            m += 1;
        }
        assert forall|j: int| 0 <= j < self@.entries.len() implies (#[trigger] self@.entries[j]).id
            != id by {
            if self@.entries[j].id == id {
                assert(keys[j] == id.inode);
                let x = choose|x: int|
                    0 <= x < bucket(keys, id.inode).len() && #[trigger] bucket(keys, id.inode)[x]
                        == j;
                assert(positions(list@)[x] == j);
            }
        }
        None
    }

    /// Leaves a path out of the comparison because its stat failed, and
    /// keeps the path and the error for the report.
    pub fn skip(&mut self, path: String, error: FsError)
        ensures
            final(self)@.kind == old(self)@.kind,
            final(self)@.entries == old(self)@.entries,
            final(self)@.skipped == old(self)@.skipped.push((path@, error)),
            final(self)@.partial_reads == old(self)@.partial_reads,
            final(self)@.full_reads == old(self)@.full_reads,
            final(self).indexed() == old(self).indexed(),
    {
        self.skipped.push((path, error));
        assert(skipped_views(self.skipped@) == skipped_views(old(self).skipped@).push(
            (path@, error),
        ));
    }

    /// Takes in a handle. Where its identity is in the catalog already, the
    /// path becomes one more alias of that entry, at no cost: nothing is
    /// read for it, now or later. Otherwise the handle gets an entry of its
    /// own, which may leave the catalog waiting for digests.
    pub fn insert_handle(&mut self, handle: FileHandle) -> (placed: Placement)
        requires
            old(self).wf(),
        ensures
            final(self).wf(),
            final(self)@ == insert_spec(old(self)@, handle@),
            match placed {
                Placement::Alias(i) => position_of(old(self)@.entries, handle.id) == Some(i as int),
                Placement::Fresh(i) => position_of(old(self)@.entries, handle.id) is None && i
                    == old(self)@.entries.len(),
            },
    {
        proof {
            lemma_insert_well_formed(self@, handle@);
            lemma_position_of(self@.entries, handle.id);
        }
        let ghost before_views = self@.entries;
        match self.find(handle.id) {
            Some(i) => {
                let ghost before = self.entries@;
                self.entries[i].paths.push(handle.path);
                assert(self.entries@.len() == before.len());
                assert(texts(self.entries@[i as int].paths@) == texts(
                    before[i as int].paths@,
                ).push(handle.path@));
                assert(self.entries@[i as int]@ == with_alias(
                    entry_views(before),
                    i as int,
                    handle.path@,
                )[i as int]);
                assert forall|j: int| 0 <= j < before.len() && j != i implies self.entries@[j]
                    == before[j] by {}
                assert(entry_views(self.entries@) =~= with_alias(
                    entry_views(before),
                    i as int,
                    handle.path@,
                ));
                assert(sizes(self@.entries) =~= sizes(before_views));
                assert(inodes(self@.entries) =~= inodes(before_views));
                Placement::Alias(i)
            },
            None => {
                let ghost before = self.entries@;
                let i = self.entries.len();
                let mut paths: Vec<String> = Vec::new();
                paths.push(handle.path);
                self.by_size.add(handle.size, i);
                self.by_inode.add(handle.id.inode, i);
                self.entries.push(
                    CatalogEntry {
                        id: handle.id,
                        size: handle.size,
                        paths,
                        partial: DigestState::Unread,
                        full: DigestState::Unread,
                    },
                );
                assert(texts(paths@) == seq![handle.path@]);
                assert(entry_views(self.entries@) == entry_views(before).push(
                    fresh_entry(handle@),
                ));
                assert(sizes(self@.entries) =~= sizes(before_views).push(handle.size));
                assert(inodes(self@.entries) =~= inodes(before_views).push(handle.id.inode));
                Placement::Fresh(i)
            },
        }
    }
}

/// The catalog after the read for the partial digest of entry `i` came back.
pub open spec fn supply_partial_spec(c: CatalogView, i: int, stage: Stage) -> CatalogView {
    CatalogView {
        kind: c.kind,
        entries: with_partial(c.entries, i, stage),
        skipped: c.skipped,
        partial_reads: c.partial_reads + 1,
        full_reads: c.full_reads,
    }
}

/// The catalog after the read for the full digest of entry `i` came back.
pub open spec fn supply_full_spec(c: CatalogView, i: int, stage: Stage) -> CatalogView {
    CatalogView {
        kind: c.kind,
        entries: with_full(c.entries, i, stage),
        skipped: c.skipped,
        partial_reads: c.partial_reads,
        full_reads: c.full_reads + 1,
    }
}

/// Handing in a partial digest that the catalog waited for keeps it well
/// formed.
pub proof fn lemma_supply_partial_well_formed(c: CatalogView, i: int, stage: Stage)
    requires
        well_formed(c),
        needs_partial(c.entries, i),
        !(stage is Unread),
    ensures
        well_formed(supply_partial_spec(c, i, stage)),
        c.partial_reads < c.entries.len(),
{
    let after = supply_partial_spec(c, i, stage);
    lemma_partial_count_update(c.entries, i, after.entries[i]);
    lemma_partial_count_bound(after.entries);
    lemma_full_count_update(c.entries, i, after.entries[i]);
    assert forall|k: int|
        0 <= k < after.entries.len() && !((#[trigger] after.entries[k]).partial is Unread)
        implies has_mate(after.entries, k) by {
        let j = choose|j: int|
            0 <= j < c.entries.len() && j != k && (#[trigger] c.entries[j]).size
                == c.entries[k].size;
        assert(after.entries[j].size == after.entries[k].size);
    }
    assert forall|k: int|
        0 <= k < after.entries.len() && !((#[trigger] after.entries[k]).full is Unread)
        implies after.entries[k].partial is Known && has_partial_mate(after.entries, k) by {
        assert(!(c.entries[k].full is Unread));
        assert(k != i);
        let j = choose|j: int|
            0 <= j < c.entries.len() && j != k && (#[trigger] c.entries[j]).size
                == c.entries[k].size && c.entries[j].partial == c.entries[k].partial;
        assert(j != i);
        assert(after.entries[j].size == after.entries[k].size);
    }
}

/// Handing in a full digest that the catalog waited for keeps it well formed.
pub proof fn lemma_supply_full_well_formed(c: CatalogView, i: int, stage: Stage)
    requires
        well_formed(c),
        needs_full(c.entries, i),
        !(stage is Unread),
    ensures
        well_formed(supply_full_spec(c, i, stage)),
        c.full_reads < c.entries.len(),
{
    let after = supply_full_spec(c, i, stage);
    lemma_full_count_update(c.entries, i, after.entries[i]);
    lemma_full_count_bound(after.entries);
    lemma_partial_count_update(c.entries, i, after.entries[i]);
    assert forall|k: int|
        0 <= k < after.entries.len() && !((#[trigger] after.entries[k]).partial is Unread)
        implies has_mate(after.entries, k) by {
        let j = choose|j: int|
            0 <= j < c.entries.len() && j != k && (#[trigger] c.entries[j]).size
                == c.entries[k].size;
        assert(after.entries[j].size == after.entries[k].size);
    }
    assert forall|k: int|
        0 <= k < after.entries.len() && !((#[trigger] after.entries[k]).full is Unread)
        implies after.entries[k].partial is Known && has_partial_mate(after.entries, k) by {
        let j = choose|j: int|
            0 <= j < c.entries.len() && j != k && (#[trigger] c.entries[j]).size
                == c.entries[k].size && c.entries[j].partial == c.entries[k].partial;
        assert(after.entries[j].size == after.entries[k].size);
        assert(after.entries[j].partial == after.entries[k].partial);
    }
}

/// An entry has a mate exactly if its size bucket holds two entries or
/// more.
proof fn lemma_mate_in_bucket(entries: Seq<EntryView>, i: int)
    requires
        0 <= i < entries.len(),
    ensures
        has_mate(entries, i) <==> bucket(sizes(entries), entries[i].size).len() >= 2,
{
    let keys = sizes(entries);
    let size = entries[i].size;
    let b = bucket(keys, size);
    lemma_bucket(keys, size, keys.len() as int);
    assert(keys[i] == size);
    let m = choose|m: int| 0 <= m < b.len() && #[trigger] b[m] == i;
    if has_mate(entries, i) {
        let j = choose|j: int|
            0 <= j < entries.len() && j != i && (#[trigger] entries[j]).size == entries[i].size;
        assert(keys[j] == size);
        let n = choose|n: int| 0 <= n < b.len() && #[trigger] b[n] == j;
        assert(n != m);
    }
    if b.len() >= 2 {
        let n = if m == 0 {
            1int
        } else {
            0int
        };
        if n < m {
            assert(b[n] < b[m]);
        } else {
            assert(b[m] < b[n]);
        }
        assert(keys[b[n]] == size);
        assert(entries[b[n]].size == entries[i].size);
    }
}

impl FileCatalog {
    /// Whether another entry has the size and the partial digest of entry
    /// `i`, whose partial digest is known.
    fn partial_mate_exists(&self, i: usize) -> (found: bool)
        requires
            self.indexed(),
            i < self@.entries.len(),
            self@.entries[i as int].partial is Known,
        ensures
            found == has_partial_mate(self@.entries, i as int),
    {
        let size = self.entries[i].size;
        let list = self.by_size.lookup(size);
        let ghost keys = sizes(self@.entries);
        proof {
            lemma_bucket(keys, size, keys.len() as int);
        }
        let mut m: usize = 0;
        while m < list.len()
            invariant
                m <= list.len(),
                i < self.entries.len(),
                keys == sizes(self@.entries),
                size == self@.entries[i as int].size,
                self@.entries[i as int].partial is Known,
                positions(list@) == bucket(keys, size),
                forall|x: int|
                    0 <= x < m && positions(list@)[x] != i ==> self@.entries[#[trigger] positions(
                        list@,
                    )[x]].partial != self@.entries[i as int].partial,
            decreases list.len() - m,
        {
            proof {
                lemma_bucket(keys, size, keys.len() as int);
            }
            let j = list[m];
            assert(positions(list@)[m as int] == j);
            assert(keys[j as int] == size);
            if j != i {
                let same = match (&self.entries[i].partial, &self.entries[j].partial) {
                    (DigestState::Known(a), DigestState::Known(b)) => a.same(b),
                    _ => false,
                };
                if same {
                    assert(self@.entries[j as int].size == size);
                    assert(self@.entries[j as int].partial == self@.entries[i as int].partial);
                    return true;
                }
            }
            m += 1;
        }
        assert(!has_partial_mate(self@.entries, i as int)) by {
            if has_partial_mate(self@.entries, i as int) {
                let j = choose|j: int|
                    0 <= j < self@.entries.len() && j != i && (#[trigger] self@.entries[j]).size
                        == self@.entries[i as int].size && self@.entries[j].partial
                        == self@.entries[i as int].partial;
                assert(keys[j] == size);
                let x = choose|x: int|
                    0 <= x < bucket(keys, size).len() && #[trigger] bucket(keys, size)[x] == j;
                assert(positions(list@)[x] == j);
            }
        }
        false
    }

    /// The entries of the given size whose partial digest the catalog waits
    /// for, by position, in rising order.
    pub fn partial_requests(&self, size: u64) -> (wanted: Vec<usize>)
        requires
            self.indexed(),
        ensures
            forall|k: int|
                0 <= k < wanted@.len() ==> needs_partial(self@.entries, #[trigger] wanted@[k] as int)
                    && self@.entries[wanted@[k] as int].size == size,
            forall|a: int, b: int| 0 <= a < b < wanted@.len() ==> wanted@[a] < wanted@[b],
            forall|i: int|
                0 <= i < self@.entries.len() && self@.entries[i].size == size && #[trigger] needs_partial(
                    self@.entries,
                    i,
                ) ==> exists|m: int| 0 <= m < wanted@.len() && #[trigger] wanted@[m] == i,
    {
        let mut wanted: Vec<usize> = Vec::new();
        let list = self.by_size.lookup(size);
        let ghost keys = sizes(self@.entries);
        proof {
            lemma_bucket(keys, size, keys.len() as int);
            assert forall|i: int| 0 <= i < self@.entries.len() && self@.entries[i].size
                == size implies (has_mate(self@.entries, i) <==> list@.len() >= 2) by {
                lemma_mate_in_bucket(self@.entries, i);
            }
        }
        if list.len() < 2 {
            return wanted;
        }
        let mut m: usize = 0;
        while m < list.len()
            invariant
                m <= list.len(),
                list@.len() >= 2,
                keys == sizes(self@.entries),
                keys.len() == self.entries@.len(),
                positions(list@) == bucket(keys, size),
                forall|i: int|
                    0 <= i < self@.entries.len() && self@.entries[i].size == size ==> #[trigger] has_mate(
                        self@.entries,
                        i,
                    ),
                forall|k: int|
                    0 <= k < wanted@.len() ==> needs_partial(
                        self@.entries,
                        #[trigger] wanted@[k] as int,
                    ) && self@.entries[wanted@[k] as int].size == size,
                forall|k: int|
                    0 <= k < wanted@.len() && m < list@.len() ==> (#[trigger] wanted@[k])
                        < list@[m as int],
                forall|a: int, b: int| 0 <= a < b < wanted@.len() ==> wanted@[a] < wanted@[b],
                forall|x: int|
                    0 <= x < m && #[trigger] needs_partial(self@.entries, positions(list@)[x])
                        ==> exists|k: int|
                        0 <= k < wanted@.len() && #[trigger] wanted@[k] == positions(list@)[x],
            decreases list.len() - m,
        {
            proof {
                lemma_bucket(keys, size, keys.len() as int);
            }
            let i = list[m];
            assert(positions(list@)[m as int] == i);
            assert(keys[i as int] == size);
            assert(self@.entries[i as int].size == size);
            let unread = match &self.entries[i].partial {
                DigestState::Unread => true,
                _ => false,
            };
            let ghost before = wanted@;
            if unread {
                assert(has_mate(self@.entries, i as int));
                wanted.push(i);
                assert(wanted@[before.len() as int] == i);
            }
            proof {
                if m + 1 < list@.len() {
                    assert(positions(list@)[m as int] < positions(list@)[m + 1]);
                    assert(positions(list@)[m + 1] == list@[m + 1]);
                }
                assert forall|x: int|
                    0 <= x < m + 1 && #[trigger] needs_partial(
                        self@.entries,
                        positions(list@)[x],
                    ) implies exists|k: int|
                    0 <= k < wanted@.len() && #[trigger] wanted@[k] == positions(list@)[x] by {
                    if x < m {
                        let k = choose|k: int|
                            0 <= k < before.len() && #[trigger] before[k] == positions(list@)[x];
                        assert(wanted@[k] == before[k]);
                    } else {
                        assert(wanted@[before.len() as int] == i);
                    }
                }
            }
            m += 1;
        }
        proof {
            assert forall|i: int|
                0 <= i < self@.entries.len() && self@.entries[i].size == size && #[trigger] needs_partial(
                    self@.entries,
                    i,
                ) implies exists|k: int| 0 <= k < wanted@.len() && #[trigger] wanted@[k] == i by {
                assert(keys[i] == size);
                let x = choose|x: int|
                    0 <= x < bucket(keys, size).len() && #[trigger] bucket(keys, size)[x] == i;
                assert(positions(list@)[x] == i);
                assert(needs_partial(self@.entries, positions(list@)[x]));
            }
        }
        wanted
    }

    /// The entries of the given size whose full digest the catalog waits
    /// for, by position, in rising order.
    pub fn full_requests(&self, size: u64) -> (wanted: Vec<usize>)
        requires
            self.indexed(),
        ensures
            forall|k: int|
                0 <= k < wanted@.len() ==> needs_full(self@.entries, #[trigger] wanted@[k] as int)
                    && self@.entries[wanted@[k] as int].size == size,
            forall|a: int, b: int| 0 <= a < b < wanted@.len() ==> wanted@[a] < wanted@[b],
            forall|i: int|
                0 <= i < self@.entries.len() && self@.entries[i].size == size && #[trigger] needs_full(
                    self@.entries,
                    i,
                ) ==> exists|m: int| 0 <= m < wanted@.len() && #[trigger] wanted@[m] == i,
    {
        let mut wanted: Vec<usize> = Vec::new();
        let list = self.by_size.lookup(size);
        let ghost keys = sizes(self@.entries);
        proof {
            lemma_bucket(keys, size, keys.len() as int);
        }
        let mut m: usize = 0;
        while m < list.len()
            invariant
                m <= list.len(),
                self.indexed(),
                keys == sizes(self@.entries),
                keys.len() == self.entries@.len(),
                positions(list@) == bucket(keys, size),
                forall|k: int|
                    0 <= k < wanted@.len() ==> needs_full(
                        self@.entries,
                        #[trigger] wanted@[k] as int,
                    ) && self@.entries[wanted@[k] as int].size == size,
                forall|k: int|
                    0 <= k < wanted@.len() && m < list@.len() ==> (#[trigger] wanted@[k])
                        < list@[m as int],
                forall|a: int, b: int| 0 <= a < b < wanted@.len() ==> wanted@[a] < wanted@[b],
                forall|x: int|
                    0 <= x < m && #[trigger] needs_full(self@.entries, positions(list@)[x])
                        ==> exists|k: int|
                        0 <= k < wanted@.len() && #[trigger] wanted@[k] == positions(list@)[x],
            decreases list.len() - m,
        {
            proof {
                lemma_bucket(keys, size, keys.len() as int);
            }
            let i = list[m];
            assert(positions(list@)[m as int] == i);
            assert(keys[i as int] == size);
            assert(self@.entries[i as int].size == size);
            let open = match (&self.entries[i].partial, &self.entries[i].full) {
                (DigestState::Known(_), DigestState::Unread) => true,
                _ => false,
            };
            let ghost before = wanted@;
            if open && self.partial_mate_exists(i) {
                wanted.push(i);
                assert(wanted@[before.len() as int] == i);
            }
            proof {
                if m + 1 < list@.len() {
                    assert(positions(list@)[m as int] < positions(list@)[m + 1]);
                    assert(positions(list@)[m + 1] == list@[m + 1]);
                }
                assert forall|x: int|
                    0 <= x < m + 1 && #[trigger] needs_full(
                        self@.entries,
                        positions(list@)[x],
                    ) implies exists|k: int|
                    0 <= k < wanted@.len() && #[trigger] wanted@[k] == positions(list@)[x] by {
                    if x < m {
                        let k = choose|k: int|
                            0 <= k < before.len() && #[trigger] before[k] == positions(list@)[x];
                        assert(wanted@[k] == before[k]);
                    } else {
                        assert(wanted@[before.len() as int] == i);
                    }
                }
            }
            m += 1;
        }
        proof {
            assert forall|i: int|
                0 <= i < self@.entries.len() && self@.entries[i].size == size && #[trigger] needs_full(
                    self@.entries,
                    i,
                ) implies exists|k: int| 0 <= k < wanted@.len() && #[trigger] wanted@[k] == i by {
                assert(keys[i] == size);
                let x = choose|x: int|
                    0 <= x < bucket(keys, size).len() && #[trigger] bucket(keys, size)[x] == i;
                assert(positions(list@)[x] == i);
                assert(needs_full(self@.entries, positions(list@)[x]));
            }
        }
        wanted
    }

    /// Hands in what the read for the partial digest of entry `i` came to:
    /// the digest of the file's first bytes, or the error. An entry whose
    /// read failed stays out of every comparison from then on.
    pub fn supply_partial(&mut self, i: usize, outcome: Result<Digest, FsError>)
        requires
            old(self).wf(),
            needs_partial(old(self)@.entries, i as int),
        ensures
            final(self).wf(),
            final(self)@ == supply_partial_spec(old(self)@, i as int, stage_of(outcome)),
    {
        proof {
            lemma_supply_partial_well_formed(self@, i as int, stage_of(outcome));
            assert(self@.entries.len() == self.entries@.len());
        }
        assert(self.partial_reads < self.entries.len());
        let ghost before = self.entries@;
        let ghost before_views = self@.entries;
        let state = match outcome {
            Ok(d) => DigestState::Known(d),
            Err(e) => DigestState::Failed(e),
        };
        self.entries[i].partial = state;
        self.partial_reads = self.partial_reads + 1;
        assert(self.entries@.len() == before.len());
        assert(self.entries@[i as int]@ == with_partial(
            entry_views(before),
            i as int,
            stage_of(outcome),
        )[i as int]);
        assert forall|j: int| 0 <= j < before.len() && j != i implies self.entries@[j]
            == before[j] by {}
        assert(entry_views(self.entries@) =~= with_partial(
            entry_views(before),
            i as int,
            stage_of(outcome),
        ));
        assert(sizes(self@.entries) =~= sizes(before_views));
        assert(inodes(self@.entries) =~= inodes(before_views));
    }

    /// Hands in what the read for the full digest of entry `i` came to: the
    /// digest of the file's whole content, or the error. An entry whose read
    /// failed stays out of every comparison from then on.
    pub fn supply_full(&mut self, i: usize, outcome: Result<Digest, FsError>)
        requires
            old(self).wf(),
            needs_full(old(self)@.entries, i as int),
        ensures
            final(self).wf(),
            final(self)@ == supply_full_spec(old(self)@, i as int, stage_of(outcome)),
    {
        proof {
            lemma_supply_full_well_formed(self@, i as int, stage_of(outcome));
            assert(self@.entries.len() == self.entries@.len());
        }
        assert(self.full_reads < self.entries.len());
        let ghost before = self.entries@;
        let ghost before_views = self@.entries;
        let state = match outcome {
            Ok(d) => DigestState::Known(d),
            Err(e) => DigestState::Failed(e),
        };
        self.entries[i].full = state;
        self.full_reads = self.full_reads + 1;
        assert(self.entries@.len() == before.len());
        assert(self.entries@[i as int]@ == with_full(
            entry_views(before),
            i as int,
            stage_of(outcome),
        )[i as int]);
        assert forall|j: int| 0 <= j < before.len() && j != i implies self.entries@[j]
            == before[j] by {}
        assert(entry_views(self.entries@) =~= with_full(
            entry_views(before),
            i as int,
            stage_of(outcome),
        ));
        assert(sizes(self@.entries) =~= sizes(before_views));
        assert(inodes(self@.entries) =~= inodes(before_views));
    }
}

/// Whether the entries at `i` and `j` are taken to have equal content: they
/// have the same size, the same partial digest and the same full digest, and
/// both digests are known. Neither step is skipped.
pub open spec fn same_content(entries: Seq<EntryView>, i: int, j: int) -> bool {
    &&& 0 <= i < entries.len()
    &&& 0 <= j < entries.len()
    &&& entries[i].size == entries[j].size
    &&& entries[i].partial is Known
    &&& entries[i].partial == entries[j].partial
    &&& entries[i].full is Known
    &&& entries[i].full == entries[j].full
}

/// The positions below `k` of the entries with the content of entry `i`, in
/// rising order.
pub open spec fn twins_below(entries: Seq<EntryView>, i: int, k: int) -> Seq<int>
    decreases k,
{
    if k <= 0 {
        Seq::empty()
    } else if same_content(entries, i, k - 1) {
        twins_below(entries, i, k - 1).push(k - 1)
    } else {
        twins_below(entries, i, k - 1)
    }
}

/// Whether entry `i` has both digests and is the first entry with its
/// content.
pub open spec fn is_first_of_kind(entries: Seq<EntryView>, i: int) -> bool {
    &&& same_content(entries, i, i)
    &&& forall|j: int| 0 <= j < i ==> !#[trigger] same_content(entries, j, i)
}

/// The duplicate groups whose first entry stands below `k`, in the order of
/// their first entries. A group is the positions of all entries with one
/// content, where there are two or more of them.
pub open spec fn groups_below(entries: Seq<EntryView>, k: int) -> Seq<Seq<int>>
    decreases k,
{
    if k <= 0 {
        Seq::empty()
    } else {
        let twins = twins_below(entries, k - 1, entries.len() as int);
        if is_first_of_kind(entries, k - 1) && twins.len() >= 2 {
            groups_below(entries, k - 1).push(twins)
        } else {
            groups_below(entries, k - 1)
        }
    }
}

/// All the duplicate groups of a catalog.
pub open spec fn duplicate_groups_spec(entries: Seq<EntryView>) -> Seq<Seq<int>> {
    groups_below(entries, entries.len() as int)
}

/// The positions that each of a sequence of index vectors holds.
pub open spec fn position_lists(v: Seq<Vec<usize>>) -> Seq<Seq<int>> {
    v.map_values(|g: Vec<usize>| positions(g@))
}

/// One file of a duplicate set, as a value of the model.
pub struct MemberView {
    pub id: ID,
    pub paths: Seq<Seq<char>>,
}

/// A duplicate set, as a value of the model.
pub struct DuplicateSetView {
    pub size: u64,
    pub members: Seq<MemberView>,
}

/// One physical file of a duplicate set, with every path that leads to it.
#[derive(Debug)]
pub struct Member {
    pub id: ID,
    pub paths: Vec<String>,
}

impl View for Member {
    type V = MemberView;

    open spec fn view(&self) -> MemberView {
        MemberView { id: self.id, paths: texts(self.paths@) }
    }
}

/// Two or more physical files of one size whose partial and full digests
/// agree.
#[derive(Debug)]
pub struct DuplicateSet {
    pub size: u64,
    pub members: Vec<Member>,
}

impl View for DuplicateSet {
    type V = DuplicateSetView;

    open spec fn view(&self) -> DuplicateSetView {
        DuplicateSetView { size: self.size, members: self.members@.map_values(|m: Member| m@) }
    }
}

/// The duplicate set that a group of positions stands for.
pub open spec fn set_of(entries: Seq<EntryView>, group: Seq<int>) -> DuplicateSetView {
    DuplicateSetView {
        size: entries[group[0]].size,
        members: Seq::new(
            group.len(),
            |m: int| MemberView { id: entries[group[m]].id, paths: entries[group[m]].paths },
        ),
    }
}

/// The duplicate sets of a catalog, in the order of their first entries.
pub open spec fn duplicate_sets_spec(entries: Seq<EntryView>) -> Seq<DuplicateSetView> {
    duplicate_groups_spec(entries).map_values(|g: Seq<int>| set_of(entries, g))
}

/// The views of a sequence of duplicate sets.
pub open spec fn set_views(sets: Seq<DuplicateSet>) -> Seq<DuplicateSetView> {
    sets.map_values(|s: DuplicateSet| s@)
}

/// A copy of a list of paths.
fn copy_paths(paths: &Vec<String>) -> (copy: Vec<String>)
    ensures
        texts(copy@) == texts(paths@),
{
    let mut copy: Vec<String> = Vec::new();
    let mut i: usize = 0;
    while i < paths.len()
        invariant
            i <= paths.len(),
            texts(copy@) == texts(paths@).take(i as int),
        decreases paths.len() - i,
    {
        let ghost before = copy@;
        copy.push(paths[i].clone());
        assert(texts(copy@) == texts(before).push(paths@[i as int]@));
        i += 1;
    }
    assert(texts(paths@).take(i as int) == texts(paths@));
    copy
}

impl FileCatalog {
    /// Whether the entries at `i` and `j` are taken to have equal content.
    pub fn content_equal(&self, i: usize, j: usize) -> (eq: bool)
        ensures
            eq == same_content(self@.entries, i as int, j as int),
    {
        if i >= self.entries.len() || j >= self.entries.len() {
            return false;
        }
        let a = &self.entries[i];
        let b = &self.entries[j];
        if a.size != b.size {
            return false;
        }
        let partial = match (&a.partial, &b.partial) {
            (DigestState::Known(x), DigestState::Known(y)) => x.same(y),
            _ => false,
        };
        if !partial {
            return false;
        }
        match (&a.full, &b.full) {
            (DigestState::Known(x), DigestState::Known(y)) => x.same(y),
            _ => false,
        }
    }

    /// The positions of all entries with the content of entry `i`. Only
    /// the entries of its size are looked at.
    fn twins(&self, i: usize) -> (found: Vec<usize>)
        requires
            self.indexed(),
            i < self@.entries.len(),
        ensures
            positions(found@) == twins_below(self@.entries, i as int, self@.entries.len() as int),
    {
        let size = self.entries[i].size;
        let list = self.by_size.lookup(size);
        let ghost keys = sizes(self@.entries);
        let mut found: Vec<usize> = Vec::new();
        let mut m: usize = 0;
        while m < list.len()
            invariant
                m <= list.len(),
                keys == sizes(self@.entries),
                positions(list@) == bucket(keys, size),
                positions(found@) == twins_among(
                    self@.entries,
                    i as int,
                    positions(list@),
                    m as int,
                ),
            decreases list.len() - m,
        {
            let j = list[m];
            assert(positions(list@)[m as int] == j);
            if self.content_equal(i, j) {
                let ghost before = found@;
                found.push(j);
                assert(positions(found@) == positions(before).push(j as int));
            }
            m += 1;
        }
        proof {
            lemma_twins_in_bucket(self@.entries, i as int, self@.entries.len() as int);
        }
        found
    }

    /// Whether entry `i` has both digests and is the first entry with its
    /// content. Only the entries of its size are looked at.
    fn first_of_kind(&self, i: usize) -> (first: bool)
        requires
            self.indexed(),
            i < self@.entries.len(),
        ensures
            first == is_first_of_kind(self@.entries, i as int),
    {
        if !self.content_equal(i, i) {
            return false;
        }
        let size = self.entries[i].size;
        let list = self.by_size.lookup(size);
        let ghost keys = sizes(self@.entries);
        let mut m: usize = 0;
        while m < list.len() && list[m] < i
            invariant
                m <= list.len(),
                i < self@.entries.len(),
                keys == sizes(self@.entries),
                size == self@.entries[i as int].size,
                positions(list@) == bucket(keys, size),
                forall|x: int|
                    0 <= x < m ==> !same_content(
                        self@.entries,
                        #[trigger] positions(list@)[x],
                        i as int,
                    ),
            decreases list.len() - m,
        {
            let j = list[m];
            assert(positions(list@)[m as int] == j);
            if self.content_equal(j, i) {
                assert(j < i);
                return false;
            }
            m += 1;
        }
        proof {
            lemma_bucket(keys, size, keys.len() as int);
            assert forall|j: int| 0 <= j < i implies !#[trigger] same_content(
                self@.entries,
                j,
                i as int,
            ) by {
                if same_content(self@.entries, j, i as int) {
                    assert(keys[j] == size);
                    let x = choose|x: int|
                        0 <= x < bucket(keys, size).len() && #[trigger] bucket(keys, size)[x] == j;
                    assert(positions(list@)[x] == j);
                    if x >= m {
                        assert(m < list@.len());
                        assert(positions(list@)[m as int] == list@[m as int]);
                        if x > m {
                            assert(bucket(keys, size)[m as int] < bucket(keys, size)[x]);
                        }
                    }
                }
            }
        }
        true
    }

    /// The duplicate groups: for each content that two or more entries
    /// have, the positions of those entries in rising order. The groups
    /// stand in the order of their first entries.
    pub fn duplicate_groups(&self) -> (groups: Vec<Vec<usize>>)
        requires
            self.indexed(),
        ensures
            position_lists(groups@) == duplicate_groups_spec(self@.entries),
    {
        let mut groups: Vec<Vec<usize>> = Vec::new();
        let mut i: usize = 0;
        while i < self.entries.len()
            invariant
                i <= self.entries.len(),
                self.indexed(),
                self@.entries.len() == self.entries.len(),
                position_lists(groups@) == groups_below(self@.entries, i as int),
            decreases self.entries.len() - i,
        {
            if self.first_of_kind(i) {
                let twins = self.twins(i);
                if twins.len() >= 2 {
                    let ghost before = groups@;
                    groups.push(twins);
                    assert(position_lists(groups@) == position_lists(before).push(
                        positions(twins@),
                    ));
                }
            }
            i += 1;
        }
        groups
    }

    /// The duplicate set that a group of positions stands for.
    fn collect_set(&self, group: &Vec<usize>) -> (set: DuplicateSet)
        requires
            group@.len() > 0,
            forall|m: int| 0 <= m < group@.len() ==> (#[trigger] group@[m]) < self@.entries.len(),
        ensures
            set@ == set_of(self@.entries, positions(group@)),
    {
        let mut members: Vec<Member> = Vec::new();
        let mut m: usize = 0;
        while m < group.len()
            invariant
                m <= group.len(),
                forall|x: int| 0 <= x < group@.len() ==> (#[trigger] group@[x]) < self@.entries.len(),
                members@.map_values(|x: Member| x@) == set_of(
                    self@.entries,
                    positions(group@),
                ).members.take(m as int),
            decreases group.len() - m,
        {
            let entry = &self.entries[group[m]];
            let ghost before = members@;
            let member = Member { id: entry.id, paths: copy_paths(&entry.paths) };
            members.push(member);
            assert(members@.map_values(|x: Member| x@) == before.map_values(|x: Member| x@).push(
                member@,
            ));
            m += 1;
        }
        let set = DuplicateSet { size: self.entries[group[0]].size, members };
        assert(set@.members == set_of(self@.entries, positions(group@)).members);
        set
    }

    /// The duplicate sets: every group of two or more physical files that
    /// are taken to have equal content, each file with all its paths.
    /// Nothing is read for this: the sets follow from what the catalog
    /// holds.
    pub fn duplicate_sets(&self) -> (sets: Vec<DuplicateSet>)
        requires
            self.indexed(),
        ensures
            set_views(sets@) == duplicate_sets_spec(self@.entries),
    {
        let groups = self.duplicate_groups();
        let mut sets: Vec<DuplicateSet> = Vec::new();
        let mut s: usize = 0;
        proof {
            lemma_groups_shape(self@.entries, self@.entries.len() as int);
        }
        while s < groups.len()
            invariant
                s <= groups.len(),
                position_lists(groups@) == duplicate_groups_spec(self@.entries),
                forall|x: int|
                    0 <= x < duplicate_groups_spec(self@.entries).len() ==> group_in_shape(
                        self@.entries,
                        #[trigger] duplicate_groups_spec(self@.entries)[x],
                    ),
                set_views(sets@) == duplicate_sets_spec(self@.entries).take(s as int),
            decreases groups.len() - s,
        {
            let ghost g = duplicate_groups_spec(self@.entries)[s as int];
            assert(positions(groups@[s as int]@) == g);
            assert(group_in_shape(self@.entries, g));
            assert forall|m: int| 0 <= m < groups@[s as int]@.len() implies (
            #[trigger] groups@[s as int]@[m]) < self@.entries.len() by {
                assert(g[m] == groups@[s as int]@[m] as int);
            }
            let ghost before = sets@;
            let set = self.collect_set(&groups[s]);
            sets.push(set);
            assert(set_views(sets@) == set_views(before).push(set@));
            s += 1;
        }
        assert(duplicate_sets_spec(self@.entries).take(s as int) == duplicate_sets_spec(
            self@.entries,
        ));
        sets
    }
}

/// The positions among the first `m` of `list` at which the entries have
/// the content of entry `i`, in the order of the list.
pub open spec fn twins_among(entries: Seq<EntryView>, i: int, list: Seq<int>, m: int) -> Seq<int>
    decreases m,
{
    if m <= 0 {
        Seq::empty()
    } else if same_content(entries, i, list[m - 1]) {
        twins_among(entries, i, list, m - 1).push(list[m - 1])
    } else {
        twins_among(entries, i, list, m - 1)
    }
}

proof fn lemma_twins_among_push(entries: Seq<EntryView>, i: int, list: Seq<int>, more: int, m: int)
    requires
        0 <= m <= list.len(),
    ensures
        twins_among(entries, i, list.push(more), m) == twins_among(entries, i, list, m),
    decreases m,
{
    if m > 0 {
        lemma_twins_among_push(entries, i, list, more, m - 1);
        assert(list.push(more)[m - 1] == list[m - 1]);
    }
}

/// The entries with the content of entry `i` all lie in its size bucket:
/// looking through the bucket finds the same as looking through all.
proof fn lemma_twins_in_bucket(entries: Seq<EntryView>, i: int, k: int)
    requires
        0 <= i < entries.len(),
        k <= entries.len(),
    ensures
        twins_among(
            entries,
            i,
            bucket_of(sizes(entries), entries[i].size, k),
            bucket_of(sizes(entries), entries[i].size, k).len() as int,
        ) == twins_below(entries, i, k),
    decreases k,
{
    if k > 0 {
        lemma_twins_in_bucket(entries, i, k - 1);
        let keys = sizes(entries);
        let size = entries[i].size;
        let front = bucket_of(keys, size, k - 1);
        assert(keys[k - 1] == entries[k - 1].size);
        if keys[k - 1] == size {
            lemma_twins_among_push(entries, i, front, k - 1, front.len() as int);
            assert(front.push(k - 1)[front.len() as int] == k - 1);
        }
    }
}

/// What every duplicate group looks like: it holds two positions or more,
/// all of them positions of entries, in rising order, and the entries at
/// them are exactly those with the content of the first.
pub open spec fn group_in_shape(entries: Seq<EntryView>, group: Seq<int>) -> bool {
    &&& group.len() >= 2
    &&& forall|m: int| 0 <= m < group.len() ==> same_content(entries, group[0], #[trigger] group[m])
    &&& forall|a: int, b: int| 0 <= a < b < group.len() ==> group[a] < group[b]
    &&& forall|j: int| #[trigger] same_content(entries, group[0], j) ==> group.contains(j)
    &&& is_first_of_kind(entries, group[0])
}

/// The twins of an entry below `k` are the positions below `k` of the
/// entries with its content, each once, in rising order.
pub proof fn lemma_twins(entries: Seq<EntryView>, i: int, k: int)
    requires
        k <= entries.len(),
    ensures
        forall|m: int|
            0 <= m < twins_below(entries, i, k).len() ==> 0 <= (#[trigger] twins_below(
                entries,
                i,
                k,
            )[m]) < k && same_content(entries, i, twins_below(entries, i, k)[m]),
        forall|a: int, b: int|
            0 <= a < b < twins_below(entries, i, k).len() ==> twins_below(entries, i, k)[a]
                < twins_below(entries, i, k)[b],
        forall|j: int|
            0 <= j < k && #[trigger] same_content(entries, i, j) ==> twins_below(
                entries,
                i,
                k,
            ).contains(j),
    decreases k,
{
    if k > 0 {
        lemma_twins(entries, i, k - 1);
        let front = twins_below(entries, i, k - 1);
        let all = twins_below(entries, i, k);
        assert forall|j: int| 0 <= j < k && #[trigger] same_content(entries, i, j) implies all.contains(
            j,
        ) by {
            if j < k - 1 {
                let m = choose|m: int| 0 <= m < front.len() && front[m] == j;
                assert(all[m] == j);
            } else {
                assert(all[all.len() - 1] == j);
            }
        }
    }
}

/// Every duplicate group is in shape, and the groups stand in the order of
/// their first entries.
pub proof fn lemma_groups_shape(entries: Seq<EntryView>, k: int)
    requires
        k <= entries.len(),
    ensures
        forall|x: int|
            0 <= x < groups_below(entries, k).len() ==> group_in_shape(
                entries,
                #[trigger] groups_below(entries, k)[x],
            ) && groups_below(entries, k)[x][0] < k,
        forall|x: int, y: int|
            0 <= x < y < groups_below(entries, k).len() ==> groups_below(entries, k)[x][0]
                < groups_below(entries, k)[y][0],
    decreases k,
{
    if k > 0 {
        lemma_groups_shape(entries, k - 1);
        let n = entries.len() as int;
        let twins = twins_below(entries, k - 1, n);
        if is_first_of_kind(entries, k - 1) && twins.len() >= 2 {
            lemma_twins(entries, k - 1, n);
            let m = choose|m: int| 0 <= m < twins.len() && twins[m] == k - 1;
            if m > 0 {
                assert(twins[0] < twins[m]);
                assert(same_content(entries, k - 1, twins[0]));
                assert(same_content(entries, twins[0], k - 1));
            }
            assert(twins[0] == k - 1);
            assert forall|j: int| #[trigger] same_content(entries, twins[0], j) implies twins.contains(
                j,
            ) by {}
            assert(group_in_shape(entries, twins));
        }
        let front = groups_below(entries, k - 1);
        let all = groups_below(entries, k);
        assert forall|x: int| 0 <= x < all.len() implies group_in_shape(entries, #[trigger] all[x])
            && all[x][0] < k by {
            if x < front.len() {
                assert(all[x] == front[x]);
            }
        }
        assert forall|x: int, y: int| 0 <= x < y < all.len() implies all[x][0] < all[y][0] by {
            assert(all[x] == front[x]);
            if y < front.len() {
                assert(all[y] == front[y]);
            }
        }
    }
}

} // verus!
