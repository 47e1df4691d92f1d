//! The walk and the catalog at work on a filesystem: these functions ask
//! the filesystem what the walk and the catalog want to know, and hand them
//! the answers.
//!
//! What a filesystem answers is not for this library to say. So each
//! function here states what holds whatever the answers were; what is made
//! of each answer is stated where the answer is taken in.

use crate::catalog::{
    entries_hold, holds_path, insert_spec, needs_full, needs_partial, position_of, settled, stage_of, unsettled_within,
    well_formed, CatalogView, EntryView, FileCatalog, FileHandle, HandleView, Placement, Stage,
};
use crate::digest::{
    chunk_view, digest_bytes, digest_len, digest_of, fed, finished, outcome_view, wanted_spec,
    ChunkedDigest, ChunkedView, Digest, DigestKind,
};
use crate::laws::{
    lemma_alias_costs_nothing, lemma_insert_holds_path, lemma_insert_stays_within_size,
    lemma_supply_full_stays_within_size, lemma_supply_partial_stays_within_size,
};
use crate::vfs::{File, FsError, VFS};
use crate::walker::{
    absorb_spec, respects_exclusions, texts, walk_after, DirEntry, DirWalker, Walk,
};
use crate::ID;
use vstd::prelude::*;

verus! {

/// How many bytes the read for the partial digest of a file of `size` bytes
/// asks for: the first `FIRST_K_BYTES`, or all of them where the file is
/// shorter.
pub open spec fn partial_len(size: u64) -> nat {
    if size <= crate::FIRST_K_BYTES {
        size as nat
    } else {
        crate::FIRST_K_BYTES as nat
    }
}

/// What the read for a partial digest comes to. A read that failed leaves
/// its error. One that brought another number of bytes than was asked for
/// leaves `ReadFailure`. Otherwise the digest of the bytes is known.
pub open spec fn first_bytes_stage(kind: DigestKind, want: nat, read: Result<Seq<u8>, FsError>) -> Stage {
    match read {
        Err(e) => Stage::Failed(e),
        Ok(bytes) => if bytes.len() == want {
            Stage::Known(digest_of(kind, bytes))
        } else {
            Stage::Failed(FsError::ReadFailure)
        },
    }
}

/// Makes the partial digest of what a read of `want` bytes came to.
pub fn first_bytes_digest(kind: DigestKind, want: usize, read: Result<Vec<u8>, FsError>) -> (r: Result<
    Digest,
    FsError,
>)
    ensures
        stage_of(r) == first_bytes_stage(kind, want as nat, chunk_view(read)),
{
    match read {
        Err(e) => Err(e),
        Ok(bytes) => if bytes.len() == want {
            Ok(digest_bytes(kind, bytes.as_slice()))
        } else {
            Err(FsError::ReadFailure)
        },
    }
}

/// How many bytes the read for the partial digest of a file of `size` bytes
/// asks for.
pub fn partial_want(size: u64) -> (want: usize)
    ensures
        want == partial_len(size),
{
    if size <= crate::FIRST_K_BYTES as u64 {
        size as usize
    } else {
        crate::FIRST_K_BYTES
    }
}

/// Reads the first bytes of a file of `size` bytes and makes their digest.
/// One read is made, from the start of the file, for exactly as many bytes
/// as `partial_want` says.
pub fn get_first_bytes<F: File>(file: &F, kind: DigestKind, size: u64) -> (r: Result<Digest, FsError>)
    ensures
        exists|read: Result<Seq<u8>, FsError>|
            stage_of(r) == #[trigger] first_bytes_stage(kind, partial_len(size), read),
{
    let want: usize = partial_want(size);
    let read = file.read_at(0, want);
    let r = first_bytes_digest(kind, want, read);
    assert(stage_of(r) == first_bytes_stage(kind, partial_len(size), chunk_view(read)));
    r
}

/// How much of the content is still to read: nothing once the reading has
/// failed.
pub open spec fn left_to_read(v: ChunkedView) -> nat {
    if v.failed is Some || v.absorbed.len() >= v.size {
        0
    } else {
        (v.size - v.absorbed.len()) as nat
    }
}

/// Reads a file of `size` bytes from its start to its end, in pieces of at
/// most `CHUNK_SIZE` bytes, and makes the digest of the whole. The reading
/// goes on until the whole content is in or a read fails. Where it
/// succeeds, the digest is that of `size` bytes.
pub fn get_hash<F: File>(file: &F, kind: DigestKind, size: u64) -> (r: Result<Digest, FsError>)
    ensures
        exists|chunks: Seq<Result<Seq<u8>, FsError>>|
            {
                let end = #[trigger] fed(
                    ChunkedView { kind, size, absorbed: Seq::empty(), failed: None },
                    chunks,
                );
                wanted_spec(end) == 0 && outcome_view(r) == finished(end)
            },
        r matches Ok(d) ==> d@.len() == digest_len(kind) && exists|content: Seq<u8>|
            content.len() == size && d@ == #[trigger] digest_of(kind, content),
{
    let mut job = ChunkedDigest::new(kind, size);
    let ghost start = job@;
    let ghost mut chunks: Seq<Result<Seq<u8>, FsError>> = Seq::empty();
    let mut want: usize = job.wanted();
    while want > 0
        invariant
            job.wf(),
            job@.kind == kind,
            job@.size == size,
            job@ == fed(start, chunks),
            want == wanted_spec(job@),
        decreases left_to_read(job@),
    {
        let chunk = file.read_at(job.offset(), want);
        let ghost seen = chunks;
        proof {
            chunks = seen.push(chunk_view(chunk));
            assert(chunks.drop_last() == seen);
        }
        job.feed(chunk);
        want = job.wanted();
    }
    let ghost end = job@;
    let r = job.finish();
    proof {
        assert(end == fed(ChunkedView { kind, size, absorbed: Seq::empty(), failed: None }, chunks));
        if r is Ok {
            assert(end.absorbed.len() == size);
            assert(r->Ok_0@ == digest_of(kind, end.absorbed));
        }
    }
    r
}

/// Lists a directory and asks each child for its path and its kind. What
/// the filesystem answers is all that the result is made of: a listing that
/// failed is handed on with its error, and each child becomes the entry
/// that `DirEntry::of_child` makes of it, in the listing's order.
fn observe_dir<V: VFS>(vfs: &V, dir: &str) -> (r: Result<Vec<DirEntry>, FsError>) {
    match vfs.list_dir(dir) {
        Err(e) => Err(e),
        Ok(children) => {
            let mut entries: Vec<DirEntry> = Vec::new();
            let mut i: usize = 0;
            while i < children.len()
                invariant
                    i <= children.len(),
                decreases children.len() - i,
            {
                match &children[i] {
                    Ok(child) => {
                        entries.push(
                            DirEntry::of_child(dir, Ok((child.get_path(), child.get_type()))),
                        );
                    },
                    Err(e) => {
                        entries.push(DirEntry::of_child(dir, Err(*e)));
                    },
                }
                i += 1;
            }
            Ok(entries)
        },
    }
}

/// Lists the directory that is next in the walk and lets the walk take the
/// listing in. Returns whether there was a directory to list.
pub fn walk_step<V: VFS>(walk: &mut Walk, walker: &DirWalker, vfs: &V) -> (more: bool)
    ensures
        more == (old(walk)@.pending.len() > 0),
        !more ==> final(walk)@ == old(walk)@,
        more ==> exists|listing: Result<Seq<DirEntry>, FsError>|
            final(walk)@ == #[trigger] absorb_spec(old(walk)@, walker@, listing),
        respects_exclusions(old(walk)@, walker@) ==> respects_exclusions(final(walk)@, walker@),
{
    let dir: String = match walk.next_dir() {
        None => {
            return false;
        },
        Some(d) => d.clone(),
    };
    let listing = observe_dir(vfs, dir.as_str());
    walk.absorb(walker, listing);
    true
}

/// Walks the walker's roots, listing at most `limit` directories. The walk
/// that comes back is over unless the limit was reached.
pub fn traverse_all<V: VFS>(walker: &DirWalker, vfs: &V, limit: usize) -> (walk: Walk)
    ensures
        respects_exclusions(walk@, walker@),
        exists|listings: Seq<Result<Seq<DirEntry>, FsError>>|
            listings.len() <= limit && walk@ == #[trigger] walk_after(walker@, listings) && (
            walk@.pending.len() == 0 || listings.len() == limit),
{
    let mut walk = walker.start();
    let ghost mut listings: Seq<Result<Seq<DirEntry>, FsError>> = Seq::empty();
    let mut steps: usize = 0;
    while steps < limit && !walk.is_done()
        invariant
            steps <= limit,
            listings.len() == steps,
            walk@ == walk_after(walker@, listings),
            respects_exclusions(walk@, walker@),
        decreases limit - steps,
    {
        let ghost before = walk@;
        let ghost seen = listings;
        walk_step(&mut walk, walker, vfs);
        proof {
            let listing = choose|listing: Result<Seq<DirEntry>, FsError>|
                walk@ == #[trigger] absorb_spec(before, walker@, listing);
            listings = seen.push(listing);
            assert(listings.drop_last() == seen);
        }
        steps += 1;
    }
    walk
}

/// Whether, from `before` to `after`, the catalog did nothing but read
/// entries of the given size: no entry came or went, identities, sizes and
/// paths are what they were, entries of another size are untouched, and a
/// digest that was there before is unchanged.
pub open spec fn read_on(before: Seq<EntryView>, after: Seq<EntryView>, size: u64) -> bool {
    &&& after.len() == before.len()
    &&& forall|i: int|
        0 <= i < before.len() ==> {
            &&& (#[trigger] after[i]).id == before[i].id
            &&& after[i].size == before[i].size
            &&& after[i].paths == before[i].paths
            &&& before[i].partial is Unread || after[i].partial == before[i].partial
            &&& before[i].full is Unread || after[i].full == before[i].full
            &&& before[i].size != size ==> after[i] == before[i]
        }
}

/// Reads the file of entry `i` for its partial digest: opens the file under
/// the entry's first path and reads its first bytes. A file that cannot be
/// opened leaves the error of the opening, as a read that failed would.
fn read_partial<V: VFS>(catalog: &FileCatalog, vfs: &V, i: usize) -> (r: Result<Digest, FsError>)
    requires
        catalog.wf(),
        i < catalog@.entries.len(),
    ensures
        exists|read: Result<Seq<u8>, FsError>|
            stage_of(r) == #[trigger] first_bytes_stage(
                catalog@.kind,
                partial_len(catalog@.entries[i as int].size),
                read,
            ),
{
    let entry = &catalog.entries()[i];
    assert(entry@ == catalog@.entries[i as int]);
    let paths = entry.paths();
    assert(paths@.len() == entry@.paths.len());
    match vfs.get_file(paths[0].as_str()) {
        Ok(file) => get_first_bytes(&file, catalog.kind(), entry.size()),
        Err(e) => {
            assert(stage_of(Err::<Digest, FsError>(e)) == first_bytes_stage(
                catalog@.kind,
                partial_len(catalog@.entries[i as int].size),
                Err::<Seq<u8>, FsError>(e),
            ));
            Err(e)
        },
    }
}

/// What reading a file of `size` bytes for its full digest comes to: the
/// error of the opening where the file could not be opened, else what the
/// reading of its content came to in the end.
pub open spec fn full_read_outcome(
    kind: DigestKind,
    size: u64,
    opened: Result<Seq<Result<Seq<u8>, FsError>>, FsError>,
) -> Result<Seq<u8>, FsError> {
    match opened {
        Err(e) => Err(e),
        Ok(chunks) => finished(
            fed(ChunkedView { kind, size, absorbed: Seq::empty(), failed: None }, chunks),
        ),
    }
}

/// Reads the file of entry `i` for its full digest: opens the file under
/// the entry's first path and reads it from its start to its end. Where it
/// succeeds, the digest is that of as many bytes as the entry's size says.
fn read_full<V: VFS>(catalog: &FileCatalog, vfs: &V, i: usize) -> (r: Result<Digest, FsError>)
    requires
        catalog.wf(),
        i < catalog@.entries.len(),
    ensures
        exists|opened: Result<Seq<Result<Seq<u8>, FsError>>, FsError>|
            outcome_view(r) == #[trigger] full_read_outcome(
                catalog@.kind,
                catalog@.entries[i as int].size,
                opened,
            ),
        r matches Ok(d) ==> d@.len() == digest_len(catalog@.kind) && exists|content: Seq<u8>|
            content.len() == catalog@.entries[i as int].size && d@ == #[trigger] digest_of(
                catalog@.kind,
                content,
            ),
{
    let entry = &catalog.entries()[i];
    assert(entry@ == catalog@.entries[i as int]);
    let paths = entry.paths();
    assert(paths@.len() == entry@.paths.len());
    match vfs.get_file(paths[0].as_str()) {
        Ok(file) => {
            let r = get_hash(&file, catalog.kind(), entry.size());
            proof {
                let kind = catalog@.kind;
                let size = catalog@.entries[i as int].size;
                let chunks = choose|chunks: Seq<Result<Seq<u8>, FsError>>|
                    {
                        let end = #[trigger] fed(
                            ChunkedView { kind, size, absorbed: Seq::empty(), failed: None },
                            chunks,
                        );
                        wanted_spec(end) == 0 && outcome_view(r) == finished(end)
                    };
                assert(outcome_view(r) == full_read_outcome(kind, size, Ok(chunks)));
            }
            r
        },
        Err(e) => {
            assert(outcome_view(Err::<Digest, FsError>(e)) == full_read_outcome(
                catalog@.kind,
                catalog@.entries[i as int].size,
                Err::<Seq<Result<Seq<u8>, FsError>>, FsError>(e),
            ));
            Err(e)
        },
    }
}

/// The entries after every partial digest that the catalog waits for came
/// in: `answers` gives, for each such entry, what its read came to.
pub open spec fn with_partials(entries: Seq<EntryView>, answers: spec_fn(int) -> Stage) -> Seq<
    EntryView,
> {
    Seq::new(
        entries.len(),
        |i: int|
            if needs_partial(entries, i) {
                EntryView { partial: answers(i), ..entries[i] }
            } else {
                entries[i]
            },
    )
}

/// The entries after every full digest that the catalog waits for came in:
/// `answers` gives, for each such entry, what its read came to.
pub open spec fn with_fulls(entries: Seq<EntryView>, answers: spec_fn(int) -> Stage) -> Seq<
    EntryView,
> {
    Seq::new(
        entries.len(),
        |i: int|
            if needs_full(entries, i) {
                EntryView { full: answers(i), ..entries[i] }
            } else {
                entries[i]
            },
    )
}

/// The entries after the catalog was settled: first every partial digest
/// that it waited for came in, then every full digest that it waited for
/// after that.
pub open spec fn settled_with(
    entries: Seq<EntryView>,
    partial: spec_fn(int) -> Stage,
    full: spec_fn(int) -> Stage,
) -> Seq<EntryView> {
    with_fulls(with_partials(entries, partial), full)
}

/// Whether every answer is that of a read: a digest or an error.
pub open spec fn all_read(answers: spec_fn(int) -> Stage) -> bool {
    forall|i: int| !((#[trigger] answers(i)) is Unread)
}

/// Reads every file whose partial digest the catalog waits for.
fn read_partials<V: VFS>(catalog: &mut FileCatalog, vfs: &V, size: u64)
    requires
        old(catalog).wf(),
        unsettled_within(old(catalog)@.entries, size),
    ensures
        final(catalog).wf(),
        unsettled_within(final(catalog)@.entries, size),
        forall|i: int| !#[trigger] needs_partial(final(catalog)@.entries, i),
        read_on(old(catalog)@.entries, final(catalog)@.entries, size),
        final(catalog)@.kind == old(catalog)@.kind,
        final(catalog)@.skipped == old(catalog)@.skipped,
        exists|partial: spec_fn(int) -> Stage|
            all_read(partial) && final(catalog)@.entries == #[trigger] with_partials(
                old(catalog)@.entries,
                partial,
            ),
{
    let ghost start = catalog@;
    let ghost mut answered: Map<int, Stage> = Map::empty();
    let wanted = catalog.partial_requests(size);
    let mut k: usize = 0;
    assert forall|i: int| #[trigger]
        needs_partial(catalog@.entries, i) implies exists|m: int|
        0 <= m < wanted@.len() && #[trigger] wanted@[m] == i by {
        assert(catalog@.entries[i].size == size);
    }
    while k < wanted.len()
        invariant
            k <= wanted.len(),
            catalog.wf(),
            unsettled_within(catalog@.entries, size),
            read_on(start.entries, catalog@.entries, size),
            catalog@.kind == start.kind,
            catalog@.skipped == start.skipped,
            forall|a: int, b: int| 0 <= a < b < wanted@.len() ==> wanted@[a] < wanted@[b],
            forall|m: int|
                k <= m < wanted@.len() ==> needs_partial(
                    catalog@.entries,
                    #[trigger] wanted@[m] as int,
                ),
            forall|i: int| #[trigger]
                needs_partial(catalog@.entries, i) ==> exists|m: int|
                    k <= m < wanted@.len() && #[trigger] wanted@[m] == i,
            forall|i: int|
                #[trigger] answered.dom().contains(i) ==> needs_partial(start.entries, i) && !(
                answered[i] is Unread),
            forall|i: int|
                needs_partial(start.entries, i) && !answered.dom().contains(i)
                    ==> #[trigger] needs_partial(catalog@.entries, i),
            forall|i: int|
                0 <= i < start.entries.len() ==> #[trigger] catalog@.entries[i] == (if answered.dom().contains(
                    i,
                ) {
                    EntryView { partial: answered[i], ..start.entries[i] }
                } else {
                    start.entries[i]
                }),
        decreases wanted.len() - k,
    {
        let i = wanted[k];
        let ghost before = catalog@;
        let ghost given = answered;
        let outcome = read_partial(catalog, vfs, i);
        proof {
            lemma_supply_partial_stays_within_size(before, i as int, stage_of(outcome), size);
        }
        catalog.supply_partial(i, outcome);
        proof {
            answered = given.insert(i as int, stage_of(outcome));
            assert(before.entries[i as int].size == size);
            assert(!given.dom().contains(i as int));
            assert(before.entries[i as int] == start.entries[i as int]);
            assert(needs_partial(start.entries, i as int)) by {
                let j = choose|j: int|
                    0 <= j < before.entries.len() && j != i && (#[trigger] before.entries[j]).size
                        == before.entries[i as int].size;
                assert(start.entries[j].size == start.entries[i as int].size);
            }
            assert forall|m: int| k + 1 <= m < wanted@.len() implies needs_partial(
                catalog@.entries,
                #[trigger] wanted@[m] as int,
            ) by {
                assert(wanted@[k as int] < wanted@[m]);
                assert(needs_partial(before.entries, wanted@[m] as int));
            }
            assert forall|j: int| #[trigger]
                needs_partial(catalog@.entries, j) implies exists|m: int|
                k + 1 <= m < wanted@.len() && #[trigger] wanted@[m] == j by {
                assert(needs_partial(before.entries, j));
                let m = choose|m: int| k <= m < wanted@.len() && #[trigger] wanted@[m] == j;
                assert(m != k);
            }
            assert forall|j: int|
                needs_partial(start.entries, j) && !answered.dom().contains(
                    j,
                ) implies #[trigger] needs_partial(catalog@.entries, j) by {
                assert(needs_partial(before.entries, j));
            }
            assert forall|j: int| 0 <= j < start.entries.len() implies #[trigger] catalog@.entries[j]
                == (if answered.dom().contains(j) {
                EntryView { partial: answered[j], ..start.entries[j] }
            } else {
                start.entries[j]
            }) by {
                assert(before.entries[j] == (if given.dom().contains(j) {
                    EntryView { partial: given[j], ..start.entries[j] }
                } else {
                    start.entries[j]
                }));
            }
        }
        k += 1;
    }
    proof {
        assert forall|i: int| !#[trigger] needs_partial(catalog@.entries, i) by {
            if needs_partial(catalog@.entries, i) {
                let m = choose|m: int| k <= m < wanted@.len() && #[trigger] wanted@[m] == i;
            }
        }
        let partial = |i: int|
            if answered.dom().contains(i) {
                answered[i]
            } else {
                Stage::Failed(FsError::ReadFailure)
            };
        let made = with_partials(start.entries, partial);
        assert forall|i: int| 0 <= i < start.entries.len() implies catalog@.entries[i]
            == made[i] by {
            if needs_partial(start.entries, i) && !answered.dom().contains(i) {
                assert(needs_partial(catalog@.entries, i));
            }
        }
        assert(catalog@.entries =~= made);
        assert(all_read(partial));
    }
}

/// Reads every file whose full digest the catalog waits for.
fn read_fulls<V: VFS>(catalog: &mut FileCatalog, vfs: &V, size: u64)
    requires
        old(catalog).wf(),
        unsettled_within(old(catalog)@.entries, size),
        forall|i: int| !#[trigger] needs_partial(old(catalog)@.entries, i),
    ensures
        final(catalog).wf(),
        settled(final(catalog)@.entries),
        read_on(old(catalog)@.entries, final(catalog)@.entries, size),
        final(catalog)@.kind == old(catalog)@.kind,
        final(catalog)@.skipped == old(catalog)@.skipped,
        exists|full: spec_fn(int) -> Stage|
            all_read(full) && final(catalog)@.entries == #[trigger] with_fulls(
                old(catalog)@.entries,
                full,
            ),
{
    let ghost start = catalog@;
    let ghost mut answered: Map<int, Stage> = Map::empty();
    let wanted = catalog.full_requests(size);
    let mut k: usize = 0;
    assert forall|i: int| #[trigger]
        needs_full(catalog@.entries, i) implies exists|m: int|
        0 <= m < wanted@.len() && #[trigger] wanted@[m] == i by {
        assert(catalog@.entries[i].size == size);
    }
    while k < wanted.len()
        invariant
            k <= wanted.len(),
            catalog.wf(),
            unsettled_within(catalog@.entries, size),
            read_on(start.entries, catalog@.entries, size),
            catalog@.kind == start.kind,
            catalog@.skipped == start.skipped,
            forall|i: int| !#[trigger] needs_partial(catalog@.entries, i),
            forall|a: int, b: int| 0 <= a < b < wanted@.len() ==> wanted@[a] < wanted@[b],
            forall|m: int|
                k <= m < wanted@.len() ==> needs_full(catalog@.entries, #[trigger] wanted@[m] as int),
            forall|i: int| #[trigger]
                needs_full(catalog@.entries, i) ==> exists|m: int|
                    k <= m < wanted@.len() && #[trigger] wanted@[m] == i,
            forall|i: int|
                #[trigger] answered.dom().contains(i) ==> needs_full(start.entries, i) && !(
                answered[i] is Unread),
            forall|i: int|
                needs_full(start.entries, i) && !answered.dom().contains(i) ==> #[trigger] needs_full(
                    catalog@.entries,
                    i,
                ),
            forall|i: int|
                0 <= i < start.entries.len() ==> #[trigger] catalog@.entries[i] == (if answered.dom().contains(
                    i,
                ) {
                    EntryView { full: answered[i], ..start.entries[i] }
                } else {
                    start.entries[i]
                }),
        decreases wanted.len() - k,
    {
        let i = wanted[k];
        let ghost before = catalog@;
        let ghost given = answered;
        let outcome = read_full(catalog, vfs, i);
        proof {
            lemma_supply_full_stays_within_size(before, i as int, stage_of(outcome), size);
        }
        catalog.supply_full(i, outcome);
        proof {
            answered = given.insert(i as int, stage_of(outcome));
            assert(before.entries[i as int].size == size);
            assert(!given.dom().contains(i as int));
            assert(before.entries[i as int] == start.entries[i as int]);
            assert(needs_full(start.entries, i as int)) by {
                let j = choose|j: int|
                    0 <= j < before.entries.len() && j != i && (#[trigger] before.entries[j]).size
                        == before.entries[i as int].size && before.entries[j].partial
                        == before.entries[i as int].partial;
                assert(start.entries[j].size == start.entries[i as int].size);
                assert(start.entries[j].partial == start.entries[i as int].partial);
            }
            assert forall|m: int| k + 1 <= m < wanted@.len() implies needs_full(
                catalog@.entries,
                #[trigger] wanted@[m] as int,
            ) by {
                assert(wanted@[k as int] < wanted@[m]);
                assert(needs_full(before.entries, wanted@[m] as int));
            }
            assert forall|j: int| #[trigger]
                needs_full(catalog@.entries, j) implies exists|m: int|
                k + 1 <= m < wanted@.len() && #[trigger] wanted@[m] == j by {
                assert(needs_full(before.entries, j));
                let m = choose|m: int| k <= m < wanted@.len() && #[trigger] wanted@[m] == j;
                assert(m != k);
            }
            assert forall|j: int| !#[trigger] needs_partial(catalog@.entries, j) by {
                if needs_partial(catalog@.entries, j) {
                    assert(needs_partial(before.entries, j));
                }
            }
            assert forall|j: int|
                needs_full(start.entries, j) && !answered.dom().contains(
                    j,
                ) implies #[trigger] needs_full(catalog@.entries, j) by {
                assert(needs_full(before.entries, j));
            }
            assert forall|j: int| 0 <= j < start.entries.len() implies #[trigger] catalog@.entries[j]
                == (if answered.dom().contains(j) {
                EntryView { full: answered[j], ..start.entries[j] }
            } else {
                start.entries[j]
            }) by {
                assert(before.entries[j] == (if given.dom().contains(j) {
                    EntryView { full: given[j], ..start.entries[j] }
                } else {
                    start.entries[j]
                }));
            }
        }
        k += 1;
    }
    proof {
        assert forall|i: int| !#[trigger] needs_full(catalog@.entries, i) by {
            if needs_full(catalog@.entries, i) {
                let m = choose|m: int| k <= m < wanted@.len() && #[trigger] wanted@[m] == i;
            }
        }
        let full = |i: int|
            if answered.dom().contains(i) {
                answered[i]
            } else {
                Stage::Failed(FsError::ReadFailure)
            };
        let made = with_fulls(start.entries, full);
        assert forall|i: int| 0 <= i < start.entries.len() implies catalog@.entries[i]
            == made[i] by {
            if needs_full(start.entries, i) && !answered.dom().contains(i) {
                assert(needs_full(catalog@.entries, i));
            }
        }
        assert(catalog@.entries =~= made);
        assert(all_read(full));
    }
}

/// Reads every file whose digest the catalog waits for, the partial digests
/// first and then the full ones, until it waits for none. Only files of the
/// given size are read, each at most once for either digest. What the
/// catalog holds afterwards follows from what the reads came to.
pub fn settle<V: VFS>(catalog: &mut FileCatalog, vfs: &V, size: u64)
    requires
        old(catalog).wf(),
        unsettled_within(old(catalog)@.entries, size),
    ensures
        final(catalog).wf(),
        settled(final(catalog)@.entries),
        read_on(old(catalog)@.entries, final(catalog)@.entries, size),
        final(catalog)@.kind == old(catalog)@.kind,
        final(catalog)@.skipped == old(catalog)@.skipped,
        exists|partial: spec_fn(int) -> Stage, full: spec_fn(int) -> Stage|
            all_read(partial) && all_read(full) && final(catalog)@.entries == #[trigger] settled_with(
                old(catalog)@.entries,
                partial,
                full,
            ),
{
    let ghost start = catalog@;
    read_partials(catalog, vfs, size);
    let ghost mid = catalog@;
    read_fulls(catalog, vfs, size);
    proof {
        let partial = choose|partial: spec_fn(int) -> Stage|
            all_read(partial) && mid.entries == #[trigger] with_partials(start.entries, partial);
        let full = choose|full: spec_fn(int) -> Stage|
            all_read(full) && catalog@.entries == #[trigger] with_fulls(mid.entries, full);
        assert(catalog@.entries == settled_with(start.entries, partial, full));
    }
}

/// Reading changes no path: what the entries held before, they hold after.
proof fn lemma_read_on_holds(before: Seq<EntryView>, after: Seq<EntryView>, size: u64, path: Seq<char>)
    requires
        read_on(before, after, size),
    ensures
        entries_hold(after, path) <==> entries_hold(before, path),
{
    if entries_hold(before, path) {
        let (i, k) = choose|i: int, k: int|
            0 <= i < before.len() && 0 <= k < before[i].paths.len() && #[trigger] before[i].paths[k]
                == path;
        assert(after[i].paths[k] == path);
    }
    if entries_hold(after, path) {
        let (i, k) = choose|i: int, k: int|
            0 <= i < after.len() && 0 <= k < after[i].paths.len() && #[trigger] after[i].paths[k]
                == path;
        assert(after[i].paths == before[i].paths);
        assert(before[i].paths[k] == path);
    }
}

/// Leaves a path out of the catalog, with the error that its stat came to.
fn skip_path(catalog: &mut FileCatalog, path: &str, error: FsError)
    ensures
        final(catalog)@.kind == old(catalog)@.kind,
        final(catalog)@.entries == old(catalog)@.entries,
        final(catalog)@.skipped == old(catalog)@.skipped.push((path@, error)),
        final(catalog)@.partial_reads == old(catalog)@.partial_reads,
        final(catalog)@.full_reads == old(catalog)@.full_reads,
        final(catalog).indexed() == old(catalog).indexed(),
        forall|p: Seq<char>|
            holds_path(final(catalog)@, p) <==> holds_path(old(catalog)@, p) || p == path@,
{
    catalog.skip(path.to_owned(), error);
    proof {
        let before = old(catalog)@;
        let after = catalog@;
        assert forall|p: Seq<char>| holds_path(after, p) <==> holds_path(before, p) || p
            == path@ by {
            assert(after.skipped[after.skipped.len() - 1].0 == path@);
            if holds_path(before, p) && !entries_hold(before.entries, p) {
                let s = choose|s: int| 0 <= s < before.skipped.len() && (#[trigger] before.skipped[s]).0 == p;
                assert(after.skipped[s].0 == p);
            }
            if holds_path(after, p) && !entries_hold(after.entries, p) && p != path@ {
                let s = choose|s: int| 0 <= s < after.skipped.len() && (#[trigger] after.skipped[s]).0 == p;
                assert(before.skipped[s].0 == p);
            }
        }
    }
}

/// A catalog that waits for nothing stays as it is when it is settled.
proof fn lemma_settled_stays(entries: Seq<EntryView>, partial: spec_fn(int) -> Stage, full: spec_fn(
    int,
) -> Stage)
    requires
        settled(entries),
    ensures
        settled_with(entries, partial, full) == entries,
{
    assert(with_partials(entries, partial) =~= entries);
    assert(with_fulls(entries, full) =~= entries);
}

/// Whether `after` is what became of `before` when it took in the handle
/// `h` and then read what it had to: the entries are those that follow from
/// what the reads came to, the handle went where `placed` says, nothing but
/// entries of the handle's size was read, and nothing was read at all where
/// the handle's identity was known.
pub open spec fn took_in(before: CatalogView, after: CatalogView, h: HandleView, placed: Placement) -> bool {
    &&& exists|partial: spec_fn(int) -> Stage, full: spec_fn(int) -> Stage|
        all_read(partial) && all_read(full) && after.entries == #[trigger] settled_with(
            insert_spec(before, h).entries,
            partial,
            full,
        )
    &&& read_on(insert_spec(before, h).entries, after.entries, h.size)
    &&& match placed {
        Placement::Alias(i) => position_of(before.entries, h.id) == Some(i as int) && after
            == insert_spec(before, h),
        Placement::Fresh(i) => position_of(before.entries, h.id) is None && i
            == before.entries.len(),
    }
}

/// Takes a file into the catalog under the given path: stats it, puts it
/// where its identity belongs, and reads whatever the catalog then waits
/// for. A file whose stat fails is left out and recorded as skipped, with
/// the error that is returned.
pub fn insert_file<V: VFS>(catalog: &mut FileCatalog, vfs: &V, path: &str, file: &V::FileIter) -> (r:
    Result<Placement, FsError>)
    requires
        old(catalog).wf(),
        settled(old(catalog)@.entries),
    ensures
        final(catalog).wf(),
        settled(final(catalog)@.entries),
        final(catalog)@.kind == old(catalog)@.kind,
        forall|p: Seq<char>|
            holds_path(final(catalog)@, p) <==> holds_path(old(catalog)@, p) || p == path@,
        match r {
            Err(e) => {
                &&& final(catalog)@.entries == old(catalog)@.entries
                &&& final(catalog)@.skipped == old(catalog)@.skipped.push((path@, e))
                &&& final(catalog)@.partial_reads == old(catalog)@.partial_reads
                &&& final(catalog)@.full_reads == old(catalog)@.full_reads
            },
            Ok(placed) => {
                &&& final(catalog)@.skipped == old(catalog)@.skipped
                &&& exists|id: ID, size: u64| #[trigger]
                    took_in(
                        old(catalog)@,
                        final(catalog)@,
                        HandleView { path: path@, id, size },
                        placed,
                    )
            },
        },
{
    let md = match file.get_metadata() {
        Ok(md) => md,
        Err(e) => {
            skip_path(catalog, path, e);
            return Err(e);
        },
    };
    let handle = match FileHandle::from_metadata(path.to_owned(), &md) {
        Ok(handle) => handle,
        Err(e) => {
            skip_path(catalog, path, e);
            return Err(e);
        },
    };
    let ghost before = catalog@;
    let ghost h = handle@;
    let size = handle.size;
    proof {
        lemma_insert_stays_within_size(before, h);
    }
    let placed = catalog.insert_handle(handle);
    match placed {
        Placement::Alias(_) => {
            proof {
                lemma_alias_costs_nothing(before, h);
                let nothing = |i: int| Stage::Failed(FsError::ReadFailure);
                lemma_settled_stays(catalog@.entries, nothing, nothing);
                assert(all_read(nothing));
                assert(catalog@.entries == settled_with(
                    insert_spec(before, h).entries,
                    nothing,
                    nothing,
                ));
            }
        },
        Placement::Fresh(_) => {
            settle(catalog, vfs, size);
        },
    }
    assert(took_in(before, catalog@, HandleView { path: path@, id: h.id, size: h.size }, placed));
    proof {
        let mid = insert_spec(before, h);
        assert forall|p: Seq<char>| holds_path(catalog@, p) <==> holds_path(before, p) || p
            == path@ by {
            lemma_insert_holds_path(before, h, p);
            lemma_read_on_holds(mid.entries, catalog@.entries, h.size, p);
        }
    }
    Ok(placed)
}

/// Takes the file at `path` into the catalog. A path that leads to no
/// regular file is left out and recorded as skipped, like one whose stat
/// fails.
pub fn insert_path<V: VFS>(catalog: &mut FileCatalog, vfs: &V, path: &str) -> (r: Result<
    Placement,
    FsError,
>)
    requires
        old(catalog).wf(),
        settled(old(catalog)@.entries),
    ensures
        final(catalog).wf(),
        settled(final(catalog)@.entries),
        final(catalog)@.kind == old(catalog)@.kind,
        forall|p: Seq<char>|
            holds_path(final(catalog)@, p) <==> holds_path(old(catalog)@, p) || p == path@,
        match r {
            Err(e) => {
                &&& final(catalog)@.entries == old(catalog)@.entries
                &&& final(catalog)@.skipped == old(catalog)@.skipped.push((path@, e))
                &&& final(catalog)@.partial_reads == old(catalog)@.partial_reads
                &&& final(catalog)@.full_reads == old(catalog)@.full_reads
            },
            Ok(placed) => {
                &&& final(catalog)@.skipped == old(catalog)@.skipped
                &&& exists|id: ID, size: u64| #[trigger]
                    took_in(
                        old(catalog)@,
                        final(catalog)@,
                        HandleView { path: path@, id, size },
                        placed,
                    )
            },
        },
{
    match vfs.get_file(path) {
        Ok(file) => insert_file(catalog, vfs, path, &file),
        Err(e) => {
            skip_path(catalog, path, e);
            Err(e)
        },
    }
}

/// What a scan leaves: the walk, with the files it handed out and the paths
/// it could not read, and the catalog of those files.
pub struct Scan {
    pub walk: Walk,
    pub catalog: FileCatalog,
}

/// What watches a scan as it goes, to log it or to show how far it is. The
/// library tells it what happens and asks nothing of it.
pub trait Reporter {
    /// The walk could not read this path.
    fn unreadable(&mut self, path: &str, error: FsError);

    /// This file was taken into the catalog, or left out with an error.
    fn taken(&mut self, path: &str, outcome: &Result<Placement, FsError>);
}

/// A reporter that tells nobody.
pub struct Silent;

impl Reporter for Silent {
    fn unreadable(&mut self, path: &str, error: FsError) {
    }

    fn taken(&mut self, path: &str, outcome: &Result<Placement, FsError>) {
    }
}

/// Walks the walker's roots, listing at most `limit` directories, and takes
/// every file that the walk hands out into a new catalog, in the walk's
/// order. The reporter is told of every path that the walk could not read
/// and of every file as it is taken in.
pub fn scan_with<V: VFS, R: Reporter>(
    walker: &DirWalker,
    vfs: &V,
    kind: DigestKind,
    limit: usize,
    reporter: &mut R,
) -> (s: Scan)
    ensures
        respects_exclusions(s.walk@, walker@),
        exists|listings: Seq<Result<Seq<DirEntry>, FsError>>|
            listings.len() <= limit && s.walk@ == #[trigger] walk_after(walker@, listings) && (
            s.walk@.pending.len() == 0 || listings.len() == limit),
        s.catalog@.kind == kind,
        s.catalog.wf(),
        settled(s.catalog@.entries),
        forall|p: Seq<char>| holds_path(s.catalog@, p) <==> s.walk@.files.contains(p),
{
    let walk = traverse_all(walker, vfs, limit);
    let errors = walk.errors();
    let mut e: usize = 0;
    while e < errors.len()
        invariant
            e <= errors.len(),
        decreases errors.len() - e,
    {
        reporter.unreadable(errors[e].path.as_str(), errors[e].error);
        e += 1;
    }
    let mut catalog = FileCatalog::new(kind);
    let files = walk.files();
    let mut i: usize = 0;
    assert forall|p: Seq<char>| !holds_path(catalog@, p) by {}
    while i < files.len()
        invariant
            i <= files.len(),
            texts(files@) == walk@.files,
            catalog@.kind == kind,
            catalog.wf(),
            settled(catalog@.entries),
            forall|p: Seq<char>|
                holds_path(catalog@, p) <==> walk@.files.take(i as int).contains(p),
        decreases files.len() - i,
    {
        let ghost before = catalog@;
        let outcome = insert_path(&mut catalog, vfs, files[i].as_str());
        reporter.taken(files[i].as_str(), &outcome);
        proof {
            let seen = walk@.files.take(i as int);
            let more = walk@.files.take(i + 1);
            assert(more == seen.push(files@[i as int]@));
            assert forall|p: Seq<char>| holds_path(catalog@, p) <==> more.contains(p) by {
                if seen.contains(p) {
                    let j = choose|j: int| 0 <= j < seen.len() && seen[j] == p;
                    assert(more[j] == p);
                }
                if more.contains(p) {
                    let j = choose|j: int| 0 <= j < more.len() && more[j] == p;
                    if j < seen.len() {
                        assert(seen[j] == p);
                    }
                }
                assert(more[i as int] == files@[i as int]@);
            }
        }
        i += 1;
    }
    assert(walk@.files.take(i as int) == walk@.files);
    Scan { walk, catalog }
}

/// Walks the walker's roots, listing at most `limit` directories, and takes
/// every file that the walk hands out into a new catalog, in the walk's
/// order. The catalog that comes back holds exactly the paths that the walk
/// handed out, and waits for no digest.
pub fn scan<V: VFS>(walker: &DirWalker, vfs: &V, kind: DigestKind, limit: usize) -> (s: Scan)
    ensures
        respects_exclusions(s.walk@, walker@),
        exists|listings: Seq<Result<Seq<DirEntry>, FsError>>|
            listings.len() <= limit && s.walk@ == #[trigger] walk_after(walker@, listings) && (
            s.walk@.pending.len() == 0 || listings.len() == limit),
        s.catalog@.kind == kind,
        s.catalog.wf(),
        settled(s.catalog@.entries),
        forall|p: Seq<char>| holds_path(s.catalog@, p) <==> s.walk@.files.contains(p),
{
    let mut nobody = Silent;
    scan_with(walker, vfs, kind, limit, &mut nobody)
}

} // verus!
