//! The directory walker: which folders and files a walk leaves out, and the
//! walk itself as a state that takes in one directory listing at a time.
//!
//! The walk does no input or output. It names the directory to list next;
//! whoever drives it lists that directory and hands the listing over.

use crate::pattern::{
    file_name, file_name_of, name_excluded, refusal_fault, regex_compiles, NamePattern,
    PatternError,
};
use crate::vfs::{FileType, FsError};
use vstd::prelude::*;

verus! {

/// The texts of a sequence of strings.
pub open spec fn texts(v: Seq<String>) -> Seq<Seq<char>> {
    v.map_values(|s: String| s@)
}

/// The texts of a sequence of patterns.
pub open spec fn pattern_texts(v: Seq<NamePattern>) -> Seq<Seq<char>> {
    v.map_values(|p: NamePattern| p@)
}

/// What a walker is made of: the roots to walk, in order, the folders to
/// leave out and the patterns of the file names to leave out.
pub struct WalkerView {
    pub roots: Seq<Seq<char>>,
    pub folders: Seq<Seq<char>>,
    pub patterns: Seq<Seq<char>>,
}

/// Whether the pattern at `i` is the first of `patterns` that does not
/// compile.
pub open spec fn first_refused(patterns: Seq<Seq<char>>, i: int) -> bool {
    &&& 0 <= i < patterns.len()
    &&& !regex_compiles(patterns[i])
    &&& forall|j: int| 0 <= j < i ==> regex_compiles(#[trigger] patterns[j])
}

/// What the walk does with one object that it met.
#[derive(Debug, Clone, Copy, PartialEq, Eq, Structural)]
pub enum Verdict {
    /// A directory to walk into.
    Descend,
    /// A regular file to hand out.
    Emit,
    /// Left out: an excluded folder, an excluded file name, a symlink or a
    /// special file.
    Skip,
    /// Its kind could not be read.
    Report(FsError),
}

/// One child of a directory, as a listing gives it: its path, and its kind
/// by a stat that does not follow symlinks.
#[derive(Debug)]
pub struct DirEntry {
    pub path: String,
    pub kind: Result<FileType, FsError>,
}

impl DirEntry {
    /// The entry that stands in the listing of `dir` for one of its
    /// children: the child's own path and kind where the listing could read
    /// the child, and else the directory's path with the error, since a
    /// child that could not be read has no path to go by.
    pub fn of_child(dir: &str, child: Result<(String, Result<FileType, FsError>), FsError>) -> (entry:
        DirEntry)
        ensures
            match child {
                Ok((path, kind)) => entry.path@ == path@ && entry.kind == kind,
                Err(e) => entry.path@ == dir@ && entry.kind == Err::<FileType, FsError>(e),
            },
    {
        match child {
            Ok((path, kind)) => DirEntry { path, kind },
            Err(e) => DirEntry { path: dir.to_owned(), kind: Err(e) },
        }
    }
}

/// A path that the walk could not read, with the reason.
#[derive(Debug)]
pub struct WalkError {
    pub path: String,
    pub error: FsError,
}

/// The verdict on an object of the given path and kind. A directory is
/// walked into unless its path is one of the excluded folders, letter for
/// letter. A regular file is handed out unless an excluded pattern matches
/// its base name. Symlinks and special files are never followed.
pub open spec fn verdict_of(w: WalkerView, path: Seq<char>, kind: Result<FileType, FsError>) -> Verdict {
    match kind {
        Err(e) => Verdict::Report(e),
        Ok(FileType::Dir) => if w.folders.contains(path) {
            Verdict::Skip
        } else {
            Verdict::Descend
        },
        Ok(FileType::File) => if name_excluded(w.patterns, file_name_of(path)) {
            Verdict::Skip
        } else {
            Verdict::Emit
        },
        Ok(_) => Verdict::Skip,
    }
}

/// A folder is never handed out as a file. Where the platform's answers
/// about an object name it a directory, the walk either goes into it or,
/// where its path is an excluded folder, leaves it and all below it out;
/// and where they name it a regular file, the walk never goes into it.
pub proof fn lemma_verdict_follows_the_kind(
    w: WalkerView,
    path: Seq<char>,
    ft: crate::vfs::FileTypeFlags,
)
    requires
        ft.exclusive(),
    ensures
        ft.is_dir ==> verdict_of(w, path, Ok(crate::vfs::file_type_of(ft))) == (if w.folders.contains(
            path,
        ) {
            Verdict::Skip
        } else {
            Verdict::Descend
        }),
        ft.is_file ==> verdict_of(w, path, Ok(crate::vfs::file_type_of(ft))) == (if name_excluded(
            w.patterns,
            file_name_of(path),
        ) {
            Verdict::Skip
        } else {
            Verdict::Emit
        }),
        !ft.is_dir && !ft.is_file ==> verdict_of(w, path, Ok(crate::vfs::file_type_of(ft)))
            == Verdict::Skip,
{
}

/// The paths among `paths` that are no excluded folder, in order.
pub open spec fn kept_folders(w: WalkerView, paths: Seq<Seq<char>>) -> Seq<Seq<char>>
    decreases paths.len(),
{
    if paths.len() == 0 {
        Seq::empty()
    } else if w.folders.contains(paths.last()) {
        kept_folders(w, paths.drop_last())
    } else {
        kept_folders(w, paths.drop_last()).push(paths.last())
    }
}

/// The paths of the entries on which the verdict is `wanted`, in order.
pub open spec fn chosen(w: WalkerView, entries: Seq<DirEntry>, wanted: Verdict) -> Seq<Seq<char>>
    decreases entries.len(),
{
    if entries.len() == 0 {
        Seq::empty()
    } else {
        let last = entries.last();
        let front = chosen(w, entries.drop_last(), wanted);
        if verdict_of(w, last.path@, last.kind) == wanted {
            front.push(last.path@)
        } else {
            front
        }
    }
}

/// The entries whose kind could not be read, in order, each with its error.
pub open spec fn reported(entries: Seq<DirEntry>) -> Seq<(Seq<char>, FsError)>
    decreases entries.len(),
{
    if entries.len() == 0 {
        Seq::empty()
    } else {
        let last = entries.last();
        let front = reported(entries.drop_last());
        match last.kind {
            Err(e) => front.push((last.path@, e)),
            Ok(_) => front,
        }
    }
}

/// The state of a walk.
///
/// `pending` is a stack of the directories still to list; its last element
/// is listed next. `files` are the regular files handed out so far and
/// `errors` the paths that could not be read. Beside each pending directory
/// and each file stands its lineage: the directories through whose listings
/// the walk came to it, from the root down.
pub struct WalkView {
    pub pending: Seq<Seq<char>>,
    pub pending_lineage: Seq<Seq<Seq<char>>>,
    pub files: Seq<Seq<char>>,
    pub file_lineage: Seq<Seq<Seq<char>>>,
    pub errors: Seq<(Seq<char>, FsError)>,
}

/// The walk before anything was listed: the roots that are no excluded
/// folder are pending, the first of them on top.
pub open spec fn start_spec(w: WalkerView) -> WalkView {
    let roots = kept_folders(w, w.roots).reverse();
    WalkView {
        pending: roots,
        pending_lineage: Seq::new(roots.len(), |i: int| Seq::empty()),
        files: Seq::empty(),
        file_lineage: Seq::empty(),
        errors: Seq::empty(),
    }
}

/// The walk after the listing of its next directory came in.
///
/// The directory leaves the stack. Where it could not be listed, it is
/// recorded with the error and the walk goes on. Otherwise its regular files
/// that are not left out are handed out in the listing's order, the entries
/// whose kind could not be read are recorded, and its subdirectories that
/// are not excluded go onto the stack, the first of them on top. With
/// nothing pending, the walk stays as it is.
pub open spec fn absorb_spec(v: WalkView, w: WalkerView, listing: Result<Seq<DirEntry>, FsError>) -> WalkView {
    if v.pending.len() == 0 {
        v
    } else {
        let dir = v.pending.last();
        let line = v.pending_lineage.last().push(dir);
        match listing {
            Err(e) => WalkView {
                pending: v.pending.drop_last(),
                pending_lineage: v.pending_lineage.drop_last(),
                files: v.files,
                file_lineage: v.file_lineage,
                errors: v.errors.push((dir, e)),
            },
            Ok(entries) => {
                let subdirs = chosen(w, entries, Verdict::Descend).reverse();
                let found = chosen(w, entries, Verdict::Emit);
                WalkView {
                    pending: v.pending.drop_last() + subdirs,
                    pending_lineage: v.pending_lineage.drop_last() + Seq::new(
                        subdirs.len(),
                        |i: int| line,
                    ),
                    files: v.files + found,
                    file_lineage: v.file_lineage + Seq::new(found.len(), |i: int| line),
                    errors: v.errors + reported(entries),
                }
            },
        }
    }
}

/// The walk after a series of listings came in, one for each directory that
/// was next in turn.
pub open spec fn walk_after(w: WalkerView, listings: Seq<Result<Seq<DirEntry>, FsError>>) -> WalkView
    decreases listings.len(),
{
    if listings.len() == 0 {
        start_spec(w)
    } else {
        absorb_spec(walk_after(w, listings.drop_last()), w, listings.last())
    }
}

/// What holds of every walk: no pending directory is an excluded folder, and
/// none was reached through one; no file handed out was reached through an
/// excluded folder, and the base name of none matches an excluded pattern.
pub open spec fn respects_exclusions(v: WalkView, w: WalkerView) -> bool {
    &&& v.pending_lineage.len() == v.pending.len()
    &&& v.file_lineage.len() == v.files.len()
    &&& forall|i: int| 0 <= i < v.pending.len() ==> !w.folders.contains(#[trigger] v.pending[i])
    &&& forall|i: int, k: int|
        0 <= i < v.pending.len() && 0 <= k < v.pending_lineage[i].len() ==> !w.folders.contains(
            #[trigger] v.pending_lineage[i][k],
        )
    &&& forall|i: int| 0 <= i < v.files.len() ==> (#[trigger] v.file_lineage[i]).len() > 0
    &&& forall|i: int, k: int|
        0 <= i < v.files.len() && 0 <= k < v.file_lineage[i].len() ==> !w.folders.contains(
            #[trigger] v.file_lineage[i][k],
        )
    &&& forall|i: int|
        0 <= i < v.files.len() ==> !name_excluded(w.patterns, file_name_of(#[trigger] v.files[i]))
}

/// None of the kept folders is excluded, and each is one of the paths given.
pub proof fn lemma_kept_folders(w: WalkerView, paths: Seq<Seq<char>>)
    ensures
        forall|i: int|
            0 <= i < kept_folders(w, paths).len() ==> {
                &&& !w.folders.contains(#[trigger] kept_folders(w, paths)[i])
                &&& paths.contains(kept_folders(w, paths)[i])
            },
    decreases paths.len(),
{
    if paths.len() > 0 {
        let front = paths.drop_last();
        lemma_kept_folders(w, front);
        assert forall|i: int| 0 <= i < kept_folders(w, paths).len() implies {
            &&& !w.folders.contains(#[trigger] kept_folders(w, paths)[i])
            &&& paths.contains(kept_folders(w, paths)[i])
        } by {
            if i < kept_folders(w, front).len() {
                let p = kept_folders(w, front)[i];
                let j = choose|j: int| 0 <= j < front.len() && front[j] == p;
                assert(paths[j] == p);
            } else {
                assert(paths[paths.len() - 1] == paths.last());
            }
        }
    }
}

/// Each chosen path is the path of an entry on which the verdict is the
/// wanted one.
pub proof fn lemma_chosen(w: WalkerView, entries: Seq<DirEntry>, wanted: Verdict)
    ensures
        forall|i: int|
            0 <= i < chosen(w, entries, wanted).len() ==> exists|j: int|
                0 <= j < entries.len() && entries[j].path@ == #[trigger] chosen(w, entries, wanted)[i]
                    && verdict_of(w, entries[j].path@, entries[j].kind) == wanted,
    decreases entries.len(),
{
    if entries.len() > 0 {
        let front = entries.drop_last();
        lemma_chosen(w, front, wanted);
        assert forall|i: int| 0 <= i < chosen(w, entries, wanted).len() implies exists|j: int|
            0 <= j < entries.len() && entries[j].path@ == #[trigger] chosen(w, entries, wanted)[i]
                && verdict_of(w, entries[j].path@, entries[j].kind) == wanted by {
            if i < chosen(w, front, wanted).len() {
                let j = choose|j: int|
                    0 <= j < front.len() && front[j].path@ == chosen(w, front, wanted)[i]
                        && verdict_of(w, front[j].path@, front[j].kind) == wanted;
                assert(entries[j] == front[j]);
            } else {
                let j = entries.len() - 1;
                assert(entries[j] == entries.last());
            }
        }
    }
}

/// A walk that respects the exclusions still does once the next listing came
/// in, whatever the listing holds.
pub proof fn lemma_absorb_respects_exclusions(
    v: WalkView,
    w: WalkerView,
    listing: Result<Seq<DirEntry>, FsError>,
)
    requires
        respects_exclusions(v, w),
    ensures
        respects_exclusions(absorb_spec(v, w, listing), w),
{
    let after = absorb_spec(v, w, listing);
    if v.pending.len() > 0 {
        let dir = v.pending.last();
        let line = v.pending_lineage.last().push(dir);
        assert(!w.folders.contains(v.pending[v.pending.len() - 1]));
        assert forall|k: int| 0 <= k < line.len() implies !w.folders.contains(line[k]) by {
            if k < line.len() - 1 {
                assert(line[k] == v.pending_lineage[v.pending.len() - 1][k]);
            }
        }
        match listing {
            Err(e) => {
                assert forall|i: int| 0 <= i < after.pending.len() implies !w.folders.contains(
                    #[trigger] after.pending[i],
                ) by {
                    assert(after.pending[i] == v.pending[i]);
                }
                assert forall|i: int, k: int|
                    0 <= i < after.pending.len() && 0 <= k < after.pending_lineage[i].len()
                    implies !w.folders.contains(#[trigger] after.pending_lineage[i][k]) by {
                    assert(after.pending_lineage[i][k] == v.pending_lineage[i][k]);
                }
            },
            Ok(entries) => {
                let subdirs = chosen(w, entries, Verdict::Descend).reverse();
                let found = chosen(w, entries, Verdict::Emit);
                let rest = v.pending.drop_last();
                lemma_chosen(w, entries, Verdict::Descend);
                lemma_chosen(w, entries, Verdict::Emit);
                assert forall|i: int| 0 <= i < after.pending.len() implies !w.folders.contains(
                    #[trigger] after.pending[i],
                ) by {
                    if i < rest.len() {
                        assert(after.pending[i] == v.pending[i]);
                    } else {
                        let c = chosen(w, entries, Verdict::Descend);
                        let m = c.len() - 1 - (i - rest.len());
                        assert(after.pending[i] == c[m]);
                    }
                }
                assert forall|i: int, k: int|
                    0 <= i < after.pending.len() && 0 <= k < after.pending_lineage[i].len()
                    implies !w.folders.contains(#[trigger] after.pending_lineage[i][k]) by {
                    if i < rest.len() {
                        assert(after.pending_lineage[i][k] == v.pending_lineage[i][k]);
                    } else {
                        assert(after.pending_lineage[i] == line);
                    }
                }
                assert forall|i: int| 0 <= i < after.files.len() implies (
                #[trigger] after.file_lineage[i]).len() > 0 by {
                    if i < v.files.len() {
                        assert(after.file_lineage[i] == v.file_lineage[i]);
                    } else {
                        assert(after.file_lineage[i] == line);
                    }
                }
                assert forall|i: int, k: int|
                    0 <= i < after.files.len() && 0 <= k < after.file_lineage[i].len()
                    implies !w.folders.contains(#[trigger] after.file_lineage[i][k]) by {
                    if i < v.files.len() {
                        assert(after.file_lineage[i][k] == v.file_lineage[i][k]);
                    } else {
                        assert(after.file_lineage[i] == line);
                    }
                }
                assert forall|i: int| 0 <= i < after.files.len() implies !name_excluded(
                    w.patterns,
                    file_name_of(#[trigger] after.files[i]),
                ) by {
                    if i < v.files.len() {
                        assert(after.files[i] == v.files[i]);
                    } else {
                        assert(after.files[i] == found[i - v.files.len()]);
                    }
                }
            },
        }
    }
}

/// Exclusions hold of every walk, whatever the filesystem answers: a file
/// under an excluded folder never appears among the files handed out, nor
/// does anything further below it, and a file whose base name matches an
/// excluded pattern never appears either, wherever it lies.
pub proof fn lemma_walk_respects_exclusions(
    w: WalkerView,
    listings: Seq<Result<Seq<DirEntry>, FsError>>,
)
    ensures
        respects_exclusions(walk_after(w, listings), w),
    decreases listings.len(),
{
    if listings.len() == 0 {
        lemma_kept_folders(w, w.roots);
        let kept = kept_folders(w, w.roots);
        let v = start_spec(w);
        assert forall|i: int| 0 <= i < v.pending.len() implies !w.folders.contains(
            #[trigger] v.pending[i],
        ) by {
            assert(v.pending[i] == kept[kept.len() - 1 - i]);
        }
    } else {
        lemma_walk_respects_exclusions(w, listings.drop_last());
        lemma_absorb_respects_exclusions(
            walk_after(w, listings.drop_last()),
            w,
            listings.last(),
        );
    }
}

/// Whether each listing of the series is the one that `tree` gives for the
/// directory that was next in turn: whether the series is what a walk of
/// that tree reads, as far as it goes.
pub open spec fn listings_of(
    w: WalkerView,
    listings: Seq<Result<Seq<DirEntry>, FsError>>,
    tree: spec_fn(Seq<char>) -> Result<Seq<DirEntry>, FsError>,
) -> bool {
    forall|k: int|
        0 <= k < listings.len() ==> (#[trigger] walk_after(w, listings.take(k))).pending.len() > 0
            && listings[k] == tree(walk_after(w, listings.take(k)).pending.last())
}

/// A walk is repeatable. Two walks of one tree that stays as it is read the
/// same listings in the same order, as far as the shorter of them goes, and
/// a walk that is over cannot be outrun: two finished walks of an unchanged
/// tree hand out the same files in the same order.
pub proof fn lemma_walk_is_repeatable(
    w: WalkerView,
    a: Seq<Result<Seq<DirEntry>, FsError>>,
    b: Seq<Result<Seq<DirEntry>, FsError>>,
    tree: spec_fn(Seq<char>) -> Result<Seq<DirEntry>, FsError>,
)
    requires
        listings_of(w, a, tree),
        listings_of(w, b, tree),
        a.len() <= b.len(),
    ensures
        a == b.take(a.len() as int),
        walk_after(w, a).pending.len() == 0 ==> a == b && walk_after(w, a) == walk_after(w, b),
    decreases a.len(),
{
    if a.len() > 0 {
        let n = a.len() - 1;
        let front = a.drop_last();
        assert forall|k: int| 0 <= k < front.len() implies (#[trigger] walk_after(
            w,
            front.take(k),
        )).pending.len() > 0 && front[k] == tree(walk_after(w, front.take(k)).pending.last()) by {
            assert(front.take(k) == a.take(k));
            assert(walk_after(w, a.take(k)).pending.len() > 0);
        }
        lemma_walk_is_repeatable(w, front, b, tree);
        assert(a.take(n) == front);
        assert(b.take(n) == front);
        assert(walk_after(w, a.take(n)).pending.len() > 0);
        assert(walk_after(w, b.take(n)).pending.len() > 0);
        assert(a[n] == b[n]);
        assert(a == b.take(a.len() as int));
    } else {
        assert(a == b.take(0));
    }
    if walk_after(w, a).pending.len() == 0 {
        if a.len() < b.len() {
            let k = a.len() as int;
            assert(b.take(k) == a);
            assert(walk_after(w, b.take(k)).pending.len() > 0);
        }
        assert(b.take(b.len() as int) == b);
    }
}

/// What a listing is to the walk: its entries, or the error.
pub open spec fn listing_view(listing: Result<Vec<DirEntry>, FsError>) -> Result<Seq<DirEntry>, FsError> {
    match listing {
        Ok(entries) => Ok(entries@),
        Err(e) => Err(e),
    }
}

/// Whether `path` is one of `folders`.
fn holds_path(folders: &Vec<String>, path: &str) -> (found: bool)
    ensures
        found == texts(folders@).contains(path@),
{
    let wanted: String = path.to_owned();
    let mut i: usize = 0;
    while i < folders.len()
        invariant
            i <= folders.len(),
            wanted@ == path@,
            forall|j: int| 0 <= j < i ==> texts(folders@)[j] != path@,
        decreases folders.len() - i,
    {
        if folders[i] == wanted {
            assert(texts(folders@)[i as int] == path@);
            return true;
        }
        i += 1;
    }
    false
}

/// Moves the strings of `from` onto the end of `onto`, the last first.
fn pour(from: Vec<String>, onto: &mut Vec<String>)
    ensures
        texts(final(onto)@) == texts(old(onto)@) + texts(from@).reverse(),
        final(onto)@.len() == old(onto)@.len() + from@.len(),
{
    let mut from = from;
    let ghost all = from@;
    assert(texts(onto@) == texts(old(onto)@) + texts(all).subrange(
        all.len() as int,
        all.len() as int,
    ).reverse());
    while from.len() > 0
        invariant
            from@ == all.take(from@.len() as int),
            onto@.len() == old(onto)@.len() + all.len() - from@.len(),
            texts(onto@) == texts(old(onto)@) + texts(all).subrange(
                from@.len() as int,
                all.len() as int,
            ).reverse(),
        decreases from.len(),
    {
        let ghost before = onto@;
        let ghost n = from@.len() as int;
        let top = from.pop().unwrap();
        onto.push(top);
        assert(texts(onto@) == texts(before).push(top@));
        assert(top@ == texts(all)[n - 1]);
        assert(texts(onto@) == texts(old(onto)@) + texts(all).subrange(
            n - 1,
            all.len() as int,
        ).reverse());
    }
    assert(texts(all).subrange(0, all.len() as int) == texts(all));
}

/// Walks directory trees and hands out the regular files in them, leaving
/// out excluded folders and excluded file names.
pub struct DirWalker {
    directories: Vec<String>,
    blacklist: Vec<String>,
    patterns: Vec<NamePattern>,
}

impl View for DirWalker {
    type V = WalkerView;

    closed spec fn view(&self) -> WalkerView {
        WalkerView {
            roots: texts(self.directories@),
            folders: texts(self.blacklist@),
            patterns: pattern_texts(self.patterns@),
        }
    }
}

impl DirWalker {
    /// A walker over the given roots that leaves nothing out.
    pub fn new(dirs: Vec<String>) -> (walker: DirWalker)
        ensures
            walker@.roots == texts(dirs@),
            walker@.folders == Seq::<Seq<char>>::empty(),
            walker@.patterns == Seq::<Seq<char>>::empty(),
    {
        DirWalker { directories: dirs, blacklist: Vec::new(), patterns: Vec::new() }
    }

    /// The same walker, which leaves out the given folders too. A folder is
    /// left out where its path is one of these, letter for letter.
    pub fn blacklist_folders(self, folders: Vec<String>) -> (walker: DirWalker)
        ensures
            walker@.roots == self@.roots,
            walker@.folders == self@.folders + texts(folders@),
            walker@.patterns == self@.patterns,
    {
        let mut walker = self;
        let mut folders = folders;
        walker.blacklist.append(&mut folders);
        walker
    }

    /// The same walker, which leaves out file names that `pattern` matches
    /// too.
    pub fn blacklist_pattern(self, pattern: NamePattern) -> (walker: DirWalker)
        ensures
            walker@.roots == self@.roots,
            walker@.folders == self@.folders,
            walker@.patterns == self@.patterns.push(pattern@),
    {
        let mut walker = self;
        walker.patterns.push(pattern);
        walker
    }

    /// The same walker, which leaves out file names that one of the given
    /// patterns matches too. It succeeds where every pattern compiles, and
    /// fails on the first that does not, which the error names with its
    /// fault.
    pub fn blacklist_patterns(self, patterns: &Vec<String>) -> (r: Result<DirWalker, PatternError>)
        ensures
            r is Ok <==> forall|i: int|
                0 <= i < patterns@.len() ==> regex_compiles(#[trigger] texts(patterns@)[i]),
            match r {
                Ok(walker) => {
                    &&& walker@.roots == self@.roots
                    &&& walker@.folders == self@.folders
                    &&& walker@.patterns == self@.patterns + texts(patterns@)
                },
                Err(e) => exists|i: int|
                    #[trigger] first_refused(texts(patterns@), i) && e.pattern@ == texts(
                        patterns@,
                    )[i] && e.fault == refusal_fault(texts(patterns@)[i]),
            },
    {
        let mut walker = self;
        let mut i: usize = 0;
        while i < patterns.len()
            invariant
                i <= patterns.len(),
                walker@.roots == self@.roots,
                walker@.folders == self@.folders,
                walker@.patterns == self@.patterns + texts(patterns@).take(i as int),
                forall|j: int| 0 <= j < i ==> regex_compiles(#[trigger] texts(patterns@)[j]),
            decreases patterns.len() - i,
        {
            match NamePattern::compile(patterns[i].as_str()) {
                Ok(pattern) => {
                    walker = walker.blacklist_pattern(pattern);
                },
                Err(e) => {
                    assert(texts(patterns@)[i as int] == e.pattern@);
                    assert(first_refused(texts(patterns@), i as int));
                    return Err(e);
                },
            }
            assert(texts(patterns@)[i as int] == patterns@[i as int]@);
            assert(texts(patterns@).take(i + 1) == texts(patterns@).take(i as int).push(
                patterns@[i as int]@,
            ));
            i += 1;
        }
        assert(texts(patterns@).take(i as int) == texts(patterns@));
        Ok(walker)
    }

    /// Whether the walk goes into the folder at `path`: it does unless the
    /// path is an excluded folder.
    pub fn should_traverse_folder(&self, path: &str) -> (go: bool)
        ensures
            go == !self@.folders.contains(path@),
    {
        !holds_path(&self.blacklist, path)
    }

    /// Whether the walk hands out the file at `path`: it does unless an
    /// excluded pattern matches the file's base name.
    pub fn should_handle_file(&self, path: &str) -> (go: bool)
        ensures
            go == !name_excluded(self@.patterns, file_name_of(path@)),
    {
        let name = file_name(path);
        let mut i: usize = 0;
        while i < self.patterns.len()
            invariant
                i <= self.patterns.len(),
                name@ == file_name_of(path@),
                forall|j: int|
                    0 <= j < i ==> !crate::pattern::regex_is_match(
                        #[trigger] self@.patterns[j],
                        name@,
                    ),
            decreases self.patterns.len() - i,
        {
            if self.patterns[i].matches(name) {
                assert(crate::pattern::regex_is_match(self@.patterns[i as int], name@));
                return false;
            }
            i += 1;
        }
        true
    }

    /// The verdict on an object of the given path and kind.
    pub fn verdict(&self, path: &str, kind: Result<FileType, FsError>) -> (v: Verdict)
        ensures
            v == verdict_of(self@, path@, kind),
    {
        match kind {
            Err(e) => Verdict::Report(e),
            Ok(FileType::Dir) => if self.should_traverse_folder(path) {
                Verdict::Descend
            } else {
                Verdict::Skip
            },
            Ok(FileType::File) => if self.should_handle_file(path) {
                Verdict::Emit
            } else {
                Verdict::Skip
            },
            Ok(_) => Verdict::Skip,
        }
    }

    /// A walk of this walker's roots, before anything was listed.
    pub fn start(&self) -> (walk: Walk)
        ensures
            walk@ == start_spec(self@),
            respects_exclusions(walk@, self@),
    {
        let mut kept: Vec<String> = Vec::new();
        let mut i: usize = 0;
        while i < self.directories.len()
            invariant
                i <= self.directories.len(),
                texts(kept@) == kept_folders(self@, self@.roots.take(i as int)),
            decreases self.directories.len() - i,
        {
            assert(self@.roots.take(i + 1).drop_last() == self@.roots.take(i as int));
            assert(self@.roots.take(i + 1).last() == self.directories@[i as int]@);
            if self.should_traverse_folder(self.directories[i].as_str()) {
                let ghost before = kept@;
                kept.push(self.directories[i].clone());
                assert(texts(kept@) == texts(before).push(self.directories@[i as int]@));
            }
            i += 1;
        }
        assert(self@.roots.take(i as int) == self@.roots);
        let mut pending: Vec<String> = Vec::new();
        pour(kept, &mut pending);
        assert(texts(pending@) == kept_folders(self@, self@.roots).reverse());
        let walk = Walk {
            pending,
            files: Vec::new(),
            errors: Vec::new(),
            pending_lineage: Ghost(
                Seq::new(kept_folders(self@, self@.roots).len(), |i: int| Seq::empty()),
            ),
            file_lineage: Ghost(Seq::empty()),
        };
        proof {
            assert(walk@.pending == start_spec(self@).pending);
            assert(walk@.files == start_spec(self@).files);
            assert(walk@.errors == start_spec(self@).errors);
            assert(walk@.pending_lineage == start_spec(self@).pending_lineage);
            lemma_walk_respects_exclusions(self@, Seq::empty());
        }
        walk
    }
}

/// The texts and errors of a sequence of recorded failures.
pub open spec fn error_views(errors: Seq<WalkError>) -> Seq<(Seq<char>, FsError)> {
    errors.map_values(|e: WalkError| (e.path@, e.error))
}

/// A walk in progress.
pub struct Walk {
    pending: Vec<String>,
    files: Vec<String>,
    errors: Vec<WalkError>,
    pending_lineage: Ghost<Seq<Seq<Seq<char>>>>,
    file_lineage: Ghost<Seq<Seq<Seq<char>>>>,
}

impl View for Walk {
    type V = WalkView;

    closed spec fn view(&self) -> WalkView {
        WalkView {
            pending: texts(self.pending@),
            pending_lineage: self.pending_lineage@,
            files: texts(self.files@),
            file_lineage: self.file_lineage@,
            errors: error_views(self.errors@),
        }
    }
}

impl Walk {
    /// The directory to list next, or `None` when the walk is over.
    pub fn next_dir(&self) -> (dir: Option<&String>)
        ensures
            match dir {
                Some(d) => self@.pending.len() > 0 && d@ == self@.pending.last(),
                None => self@.pending.len() == 0,
            },
    {
        if self.pending.len() == 0 {
            None
        } else {
            Some(&self.pending[self.pending.len() - 1])
        }
    }

    /// Whether every directory the walk came to has been listed.
    pub fn is_done(&self) -> (done: bool)
        ensures
            done == (self@.pending.len() == 0),
    {
        self.pending.len() == 0
    }

    /// The files handed out so far, in the order in which the walk met them.
    pub fn files(&self) -> (files: &Vec<String>)
        ensures
            texts(files@) == self@.files,
    {
        &self.files
    }

    /// The paths that could not be read so far.
    pub fn errors(&self) -> (errors: &Vec<WalkError>)
        ensures
            error_views(errors@) == self@.errors,
    {
        &self.errors
    }

    /// Takes in the listing of the directory that `next_dir` named.
    pub fn absorb(&mut self, walker: &DirWalker, listing: Result<Vec<DirEntry>, FsError>)
        ensures
            final(self)@ == absorb_spec(old(self)@, walker@, listing_view(listing)),
            respects_exclusions(old(self)@, walker@) ==> respects_exclusions(
                final(self)@,
                walker@,
            ),
    {
        proof {
            if respects_exclusions(self@, walker@) {
                lemma_absorb_respects_exclusions(self@, walker@, listing_view(listing));
            }
        }
        if self.pending.len() == 0 {
            return ;
        }
        let ghost before = self@;
        let ghost line = self.pending_lineage@.last().push(before.pending.last());
        let dir = self.pending.pop().unwrap();
        assert(texts(self.pending@) == before.pending.drop_last());
        assert(dir@ == before.pending.last());
        self.pending_lineage = Ghost(self.pending_lineage@.drop_last());
        match listing {
            Err(e) => {
                self.errors.push(WalkError { path: dir, error: e });
                assert(error_views(self.errors@) == before.errors.push((dir@, e)));
            },
            Ok(entries) => {
                let mut subdirs: Vec<String> = Vec::new();
                let mut i: usize = 0;
                while i < entries.len()
                    invariant
                        i <= entries.len(),
                        texts(self.pending@) == before.pending.drop_last(),
                        self.pending_lineage@ == before.pending_lineage.drop_last(),
                        texts(subdirs@) == chosen(
                            walker@,
                            entries@.take(i as int),
                            Verdict::Descend,
                        ),
                        texts(self.files@) == before.files + chosen(
                            walker@,
                            entries@.take(i as int),
                            Verdict::Emit,
                        ),
                        self.file_lineage@ == before.file_lineage + Seq::new(
                            chosen(walker@, entries@.take(i as int), Verdict::Emit).len(),
                            |k: int| line,
                        ),
                        error_views(self.errors@) == before.errors + reported(
                            entries@.take(i as int),
                        ),
                    decreases entries.len() - i,
                {
                    assert(entries@.take(i + 1).drop_last() == entries@.take(i as int));
                    assert(entries@.take(i + 1).last() == entries@[i as int]);
                    let entry = &entries[i];
                    match walker.verdict(entry.path.as_str(), entry.kind) {
                        Verdict::Descend => {
                            let ghost old_subdirs = subdirs@;
                            subdirs.push(entry.path.clone());
                            assert(texts(subdirs@) == texts(old_subdirs).push(entry.path@));
                        },
                        Verdict::Emit => {
                            let ghost old_files = self.files@;
                            self.files.push(entry.path.clone());
                            self.file_lineage = Ghost(self.file_lineage@.push(line));
                            assert(texts(self.files@) == texts(old_files).push(entry.path@));
                            assert(chosen(walker@, entries@.take(i + 1), Verdict::Emit) == chosen(
                                walker@,
                                entries@.take(i as int),
                                Verdict::Emit,
                            ).push(entry.path@));
                            assert(self.file_lineage@ =~= before.file_lineage + Seq::new(
                                chosen(walker@, entries@.take(i + 1), Verdict::Emit).len(),
                                |k: int| line,
                            ));
                        },
                        Verdict::Skip => {},
                        Verdict::Report(e) => {
                            let ghost old_errors = self.errors@;
                            self.errors.push(WalkError { path: entry.path.clone(), error: e });
                            assert(error_views(self.errors@) == error_views(old_errors).push(
                                (entry.path@, e),
                            ));
                        },
                    }
                    i += 1;
                }
                assert(entries@.take(i as int) == entries@);
                let ghost count = subdirs@.len();
                pour(subdirs, &mut self.pending);
                self.pending_lineage = Ghost(
                    self.pending_lineage@ + Seq::new(count, |k: int| line),
                );
            },
        }
    }
}

} // verus!
