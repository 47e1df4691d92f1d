//! What the catalog guarantees, whatever files it is given and whatever the
//! reads come to.

use crate::catalog::{
    duplicate_groups_spec, entries_hold, holds_path, group_in_shape, groups_below, has_mate, has_partial_mate, insert_spec,
    is_first_of_kind, lemma_groups_shape, lemma_position_of, lemma_twins, needs_full, needs_partial,
    position_of, same_content, settled, supply_full_spec, supply_partial_spec, twins_below,
    unsettled_within, well_formed, CatalogView, EntryView, HandleView, Stage,
};
use crate::pattern::{file_name_of, name_excluded};
use crate::walker::{respects_exclusions, WalkView, WalkerView};
use vstd::prelude::*;

verus! {

/// Whether two catalogs hold, position by position, entries of the same
/// size with the same digests.
pub open spec fn same_contents(a: Seq<EntryView>, b: Seq<EntryView>) -> bool {
    &&& a.len() == b.len()
    &&& forall|i: int|
        0 <= i < a.len() ==> (#[trigger] a[i]).size == b[i].size && a[i].partial == b[i].partial
            && a[i].full == b[i].full
}

/// The catalog after it took in a series of handles, one after the other.
pub open spec fn insert_all(c: CatalogView, handles: Seq<HandleView>) -> CatalogView
    decreases handles.len(),
{
    if handles.len() == 0 {
        c
    } else {
        insert_spec(insert_all(c, handles.drop_last()), handles.last())
    }
}

proof fn lemma_twins_depend_on_content(a: Seq<EntryView>, b: Seq<EntryView>, i: int, k: int)
    requires
        same_contents(a, b),
    ensures
        twins_below(a, i, k) == twins_below(b, i, k),
    decreases k,
{
    if k > 0 {
        lemma_twins_depend_on_content(a, b, i, k - 1);
        assert(same_content(a, i, k - 1) == same_content(b, i, k - 1));
    }
}

proof fn lemma_groups_below_depend_on_content(a: Seq<EntryView>, b: Seq<EntryView>, k: int)
    requires
        same_contents(a, b),
    ensures
        groups_below(a, k) == groups_below(b, k),
    decreases k,
{
    if k > 0 {
        lemma_groups_below_depend_on_content(a, b, k - 1);
        lemma_twins_depend_on_content(a, b, k - 1, a.len() as int);
        assert(same_content(a, k - 1, k - 1) == same_content(b, k - 1, k - 1));
        assert(is_first_of_kind(a, k - 1) == is_first_of_kind(b, k - 1)) by {
            assert forall|j: int|
                #![trigger same_content(a, j, k - 1)]
                #![trigger same_content(b, j, k - 1)]
                0 <= j < k - 1 implies same_content(a, j, k - 1) == same_content(b, j, k - 1) by {}
        }
    }
}

/// The duplicate groups follow from the sizes and digests of the entries
/// alone: neither paths nor identities nor the counters move them.
pub proof fn lemma_groups_depend_on_content(a: Seq<EntryView>, b: Seq<EntryView>)
    requires
        same_contents(a, b),
    ensures
        duplicate_groups_spec(a) == duplicate_groups_spec(b),
{
    lemma_groups_below_depend_on_content(a, b, a.len() as int);
}

/// A hard link costs nothing. Where a handle's identity is in the catalog
/// already, taking it in puts its path beside the other paths of that one
/// entry and does nothing else: no entry is added, no digest changes, no
/// read is counted, a catalog that waited for no digest still waits for
/// none, and the duplicate groups are what they were.
pub proof fn lemma_alias_costs_nothing(c: CatalogView, h: HandleView)
    requires
        well_formed(c),
        position_of(c.entries, h.id) is Some,
    ensures
        ({
            let i = position_of(c.entries, h.id)->0;
            let after = insert_spec(c, h);
            &&& 0 <= i < c.entries.len()
            &&& c.entries[i].id == h.id
            &&& after.entries.len() == c.entries.len()
            &&& after.entries[i].paths == c.entries[i].paths.push(h.path)
            &&& forall|k: int|
                0 <= k < c.entries.len() && k != i ==> #[trigger] after.entries[k] == c.entries[k]
            &&& same_contents(c.entries, after.entries)
            &&& after.partial_reads == c.partial_reads
            &&& after.full_reads == c.full_reads
            &&& settled(c.entries) ==> settled(after.entries)
            &&& duplicate_groups_spec(after.entries) == duplicate_groups_spec(c.entries)
        }),
{
    lemma_position_of(c.entries, h.id);
    let after = insert_spec(c, h);
    lemma_groups_depend_on_content(c.entries, after.entries);
    if settled(c.entries) {
        lemma_settled_depends_on_content(c.entries, after.entries);
    }
}

proof fn lemma_settled_depends_on_content(a: Seq<EntryView>, b: Seq<EntryView>)
    requires
        same_contents(a, b),
        settled(a),
    ensures
        settled(b),
{
    assert forall|i: int| !#[trigger] needs_partial(b, i) by {
        if needs_partial(b, i) {
            let j = choose|j: int| 0 <= j < b.len() && j != i && (#[trigger] b[j]).size == b[i].size;
            assert(a[j].size == a[i].size);
            assert(needs_partial(a, i));
        }
    }
    assert forall|i: int| !#[trigger] needs_full(b, i) by {
        if needs_full(b, i) {
            let j = choose|j: int|
                0 <= j < b.len() && j != i && (#[trigger] b[j]).size == b[i].size && b[j].partial
                    == b[i].partial;
            assert(a[j].size == a[i].size && a[j].partial == a[i].partial);
            assert(needs_full(a, i));
        }
    }
}

/// Scanning is idempotent. Once a catalog holds the files of a tree, taking
/// in the same files again, in any order and any number of times, leaves
/// every duplicate group as it was, reads nothing and leaves the catalog
/// waiting for nothing: each of the files is known by its identity.
pub proof fn lemma_rescan_changes_no_group(c: CatalogView, handles: Seq<HandleView>)
    requires
        well_formed(c),
        forall|k: int| 0 <= k < handles.len() ==> position_of(c.entries, (#[trigger] handles[k]).id) is Some,
    ensures
        well_formed(insert_all(c, handles)),
        same_contents(c.entries, insert_all(c, handles).entries),
        forall|i: int|
            0 <= i < c.entries.len() ==> (#[trigger] insert_all(c, handles).entries[i]).id
                == c.entries[i].id,
        duplicate_groups_spec(insert_all(c, handles).entries) == duplicate_groups_spec(c.entries),
        insert_all(c, handles).partial_reads == c.partial_reads,
        insert_all(c, handles).full_reads == c.full_reads,
        settled(c.entries) ==> settled(insert_all(c, handles).entries),
    decreases handles.len(),
{
    if handles.len() > 0 {
        let front = handles.drop_last();
        let h = handles.last();
        assert forall|k: int| 0 <= k < front.len() implies position_of(
            c.entries,
            (#[trigger] front[k]).id,
        ) is Some by {
            assert(front[k] == handles[k]);
        }
        lemma_rescan_changes_no_group(c, front);
        let mid = insert_all(c, front);
        crate::catalog::lemma_insert_well_formed(mid, h);
        assert(handles[handles.len() - 1] == h);
        lemma_position_of(c.entries, h.id);
        let p = position_of(c.entries, h.id)->0;
        assert(mid.entries[p].id == h.id);
        lemma_position_of(mid.entries, h.id);
        lemma_alias_costs_nothing(mid, h);
        let after = insert_spec(mid, h);
        lemma_groups_depend_on_content(c.entries, after.entries);
        let q = position_of(mid.entries, h.id)->0;
        assert forall|i: int| 0 <= i < c.entries.len() implies (#[trigger] after.entries[i]).id
            == c.entries[i].id by {
            assert(mid.entries[i].id == c.entries[i].id);
            if i != q {
                assert(after.entries[i] == mid.entries[i]);
            }
        }
    }
}

/// Sizes are kept apart. When a catalog that waits for nothing takes in a
/// handle, every digest it waits for afterwards belongs to an entry of the
/// handle's size: no file of another size is read on that handle's account.
pub proof fn lemma_insert_stays_within_size(c: CatalogView, h: HandleView)
    requires
        well_formed(c),
        settled(c.entries),
    ensures
        unsettled_within(insert_spec(c, h).entries, h.size),
{
    let after = insert_spec(c, h).entries;
    lemma_position_of(c.entries, h.id);
    match position_of(c.entries, h.id) {
        Some(p) => {
            lemma_alias_costs_nothing(c, h);
        },
        None => {
            let n = c.entries.len() as int;
            assert forall|i: int| #[trigger] needs_partial(after, i) implies after[i].size
                == h.size by {
                if i < n {
                    assert(after[i] == c.entries[i]);
                    let j = choose|j: int|
                        0 <= j < after.len() && j != i && (#[trigger] after[j]).size
                            == after[i].size;
                    if j < n {
                        assert(c.entries[j].size == c.entries[i].size);
                        assert(needs_partial(c.entries, i));
                    }
                }
            }
            assert forall|i: int| #[trigger] needs_full(after, i) implies after[i].size
                == h.size by {
                if i < n {
                    assert(after[i] == c.entries[i]);
                    let j = choose|j: int|
                        0 <= j < after.len() && j != i && (#[trigger] after[j]).size
                            == after[i].size && after[j].partial == after[i].partial;
                    assert(j < n);
                    assert(c.entries[j].size == c.entries[i].size && c.entries[j].partial
                        == c.entries[i].partial);
                    assert(needs_full(c.entries, i));
                }
            }
        },
    }
}

/// Sizes stay apart while the digests come in. Where every digest that the
/// catalog waits for belongs to an entry of one size, handing in one of the
/// partial digests leaves it so.
pub proof fn lemma_supply_partial_stays_within_size(c: CatalogView, i: int, stage: Stage, size: u64)
    requires
        unsettled_within(c.entries, size),
        needs_partial(c.entries, i),
        !(stage is Unread),
    ensures
        unsettled_within(supply_partial_spec(c, i, stage).entries, size),
        !needs_partial(supply_partial_spec(c, i, stage).entries, i),
        forall|k: int|
            needs_partial(supply_partial_spec(c, i, stage).entries, k) ==> #[trigger] needs_partial(
                c.entries,
                k,
            ),
        forall|k: int|
            k != i && #[trigger] needs_partial(c.entries, k) ==> needs_partial(
                supply_partial_spec(c, i, stage).entries,
                k,
            ),
{
    let before = c.entries;
    let after = supply_partial_spec(c, i, stage).entries;
    assert forall|k: int| needs_partial(after, k) implies #[trigger] needs_partial(before, k) by {
        let j = choose|j: int|
            0 <= j < after.len() && j != k && (#[trigger] after[j]).size == after[k].size;
        assert(before[j].size == before[k].size);
    }
    assert forall|k: int| k != i && #[trigger] needs_partial(before, k) implies needs_partial(
        after,
        k,
    ) by {
        let j = choose|j: int|
            0 <= j < before.len() && j != k && (#[trigger] before[j]).size == before[k].size;
        assert(after[j].size == after[k].size);
    }
    assert forall|k: int| #[trigger] needs_partial(after, k) implies after[k].size == size by {
        assert(needs_partial(before, k));
    }
    assert forall|k: int| #[trigger] needs_full(after, k) implies after[k].size == size by {
        if k != i {
            let j = choose|j: int|
                0 <= j < after.len() && j != k && (#[trigger] after[j]).size == after[k].size
                    && after[j].partial == after[k].partial;
            if j != i {
                assert(before[j].size == before[k].size && before[j].partial
                    == before[k].partial);
                assert(needs_full(before, k));
            }
        }
    }
}

/// Handing in a full digest makes the catalog wait for nothing new: what it
/// waits for afterwards it waited for before, and it no longer waits for
/// the digest handed in.
pub proof fn lemma_supply_full_stays_within_size(c: CatalogView, i: int, stage: Stage, size: u64)
    requires
        unsettled_within(c.entries, size),
        needs_full(c.entries, i),
        !(stage is Unread),
    ensures
        unsettled_within(supply_full_spec(c, i, stage).entries, size),
        !needs_full(supply_full_spec(c, i, stage).entries, i),
        forall|k: int|
            needs_partial(supply_full_spec(c, i, stage).entries, k) ==> #[trigger] needs_partial(
                c.entries,
                k,
            ),
        forall|k: int|
            needs_full(supply_full_spec(c, i, stage).entries, k) ==> #[trigger] needs_full(
                c.entries,
                k,
            ),
        forall|k: int|
            k != i && #[trigger] needs_full(c.entries, k) ==> needs_full(
                supply_full_spec(c, i, stage).entries,
                k,
            ),
{
    let before = c.entries;
    let after = supply_full_spec(c, i, stage).entries;
    assert forall|k: int| needs_partial(after, k) implies #[trigger] needs_partial(before, k) by {
        let j = choose|j: int|
            0 <= j < after.len() && j != k && (#[trigger] after[j]).size == after[k].size;
        assert(before[j].size == before[k].size);
    }
    assert forall|k: int| needs_full(after, k) implies #[trigger] needs_full(before, k) by {
        let j = choose|j: int|
            0 <= j < after.len() && j != k && (#[trigger] after[j]).size == after[k].size
                && after[j].partial == after[k].partial;
        assert(before[j].size == before[k].size && before[j].partial == before[k].partial);
    }
    assert forall|k: int| k != i && #[trigger] needs_full(before, k) implies needs_full(
        after,
        k,
    ) by {
        let j = choose|j: int|
            0 <= j < before.len() && j != k && (#[trigger] before[j]).size == before[k].size
                && before[j].partial == before[k].partial;
        assert(after[j].size == after[k].size && after[j].partial == after[k].partial);
    }
    assert forall|k: int| #[trigger] needs_partial(after, k) implies after[k].size == size by {
        assert(needs_partial(before, k));
    }
    assert forall|k: int| #[trigger] needs_full(after, k) implies after[k].size == size by {
        assert(needs_full(before, k));
    }
}

/// No false report. Any two members of a duplicate group have the same
/// size, the same partial digest and the same full digest, all of them
/// known: no step of the comparison was skipped for either.
pub proof fn lemma_group_members_agree(entries: Seq<EntryView>, x: int, a: int, b: int)
    requires
        0 <= x < duplicate_groups_spec(entries).len(),
        duplicate_groups_spec(entries)[x].contains(a),
        duplicate_groups_spec(entries)[x].contains(b),
    ensures
        same_content(entries, a, b),
        entries[a].size == entries[b].size,
        entries[a].partial is Known && entries[a].partial == entries[b].partial,
        entries[a].full is Known && entries[a].full == entries[b].full,
{
    lemma_groups_shape(entries, entries.len() as int);
    let g = duplicate_groups_spec(entries)[x];
    assert(group_in_shape(entries, g));
    let m = choose|m: int| 0 <= m < g.len() && g[m] == a;
    let n = choose|n: int| 0 <= n < g.len() && g[n] == b;
    assert(same_content(entries, g[0], g[m]));
    assert(same_content(entries, g[0], g[n]));
}

/// The partial digest alone decides nothing. Two entries whose full digests
/// differ are in no duplicate group together, although their sizes and
/// their partial digests may agree.
pub proof fn lemma_full_digest_breaks_tie(entries: Seq<EntryView>, x: int, a: int, b: int)
    requires
        0 <= x < duplicate_groups_spec(entries).len(),
        0 <= a < entries.len(),
        0 <= b < entries.len(),
        entries[a].full != entries[b].full,
    ensures
        !(duplicate_groups_spec(entries)[x].contains(a) && duplicate_groups_spec(entries)[x].contains(
            b,
        )),
{
    if duplicate_groups_spec(entries)[x].contains(a) && duplicate_groups_spec(entries)[x].contains(
        b,
    ) {
        lemma_group_members_agree(entries, x, a, b);
    }
}

proof fn lemma_group_listed(entries: Seq<EntryView>, first: int, k: int)
    requires
        0 <= first < k <= entries.len(),
        is_first_of_kind(entries, first),
        twins_below(entries, first, entries.len() as int).len() >= 2,
    ensures
        groups_below(entries, k).contains(twins_below(entries, first, entries.len() as int)),
    decreases k,
{
    let twins = twins_below(entries, first, entries.len() as int);
    if first == k - 1 {
        let all = groups_below(entries, k);
        assert(all[all.len() - 1] == twins);
    } else {
        lemma_group_listed(entries, first, k - 1);
        let front = groups_below(entries, k - 1);
        let x = choose|x: int| 0 <= x < front.len() && front[x] == twins;
        assert(groups_below(entries, k)[x] == twins);
    }
}

/// No missed duplicate. Two different entries with the same size, the same
/// known partial digest and the same known full digest stand together in
/// one of the duplicate groups.
pub proof fn lemma_groups_complete(entries: Seq<EntryView>, a: int, b: int)
    requires
        a != b,
        same_content(entries, a, b),
    ensures
        exists|x: int|
            0 <= x < duplicate_groups_spec(entries).len() && (#[trigger] duplicate_groups_spec(
                entries,
            )[x]).contains(a) && duplicate_groups_spec(entries)[x].contains(b),
{
    let n = entries.len() as int;
    let of_a = twins_below(entries, a, n);
    lemma_twins(entries, a, n);
    assert(same_content(entries, a, a));
    assert(of_a.contains(a));
    let first = of_a[0];
    assert(same_content(entries, a, first));
    assert(same_content(entries, first, first));
    assert forall|j: int| 0 <= j < first implies !#[trigger] same_content(entries, j, first) by {
        if same_content(entries, j, first) {
            assert(same_content(entries, a, j));
            let m = choose|m: int| 0 <= m < of_a.len() && of_a[m] == j;
            if m > 0 {
                assert(of_a[0] < of_a[m]);
            }
        }
    }
    let twins = twins_below(entries, first, n);
    lemma_twins(entries, first, n);
    assert(same_content(entries, first, a));
    assert(same_content(entries, first, b));
    let ma = choose|m: int| 0 <= m < twins.len() && twins[m] == a;
    let mb = choose|m: int| 0 <= m < twins.len() && twins[m] == b;
    assert(ma != mb);
    lemma_group_listed(entries, first, n);
    let x = choose|x: int|
        0 <= x < groups_below(entries, n).len() && groups_below(entries, n)[x] == twins;
    assert(duplicate_groups_spec(entries)[x].contains(a));
}

/// A duplicate set never counts one file twice: two different positions of
/// a duplicate group are two files with different identities.
pub proof fn lemma_group_members_distinct(c: CatalogView, x: int, m: int, n: int)
    requires
        well_formed(c),
        0 <= x < duplicate_groups_spec(c.entries).len(),
        0 <= m < n < duplicate_groups_spec(c.entries)[x].len(),
    ensures
        ({
            let g = duplicate_groups_spec(c.entries)[x];
            &&& 0 <= g[m] < g[n] < c.entries.len()
            &&& c.entries[g[m]].id != c.entries[g[n]].id
        }),
{
    lemma_groups_shape(c.entries, c.entries.len() as int);
    let g = duplicate_groups_spec(c.entries)[x];
    assert(group_in_shape(c.entries, g));
    assert(same_content(c.entries, g[0], g[m]));
    assert(same_content(c.entries, g[0], g[n]));
}

/// Taking in a handle adds its path to the paths that the catalog holds,
/// and no other.
pub proof fn lemma_insert_holds_path(c: CatalogView, h: HandleView, path: Seq<char>)
    ensures
        holds_path(insert_spec(c, h), path) <==> holds_path(c, path) || path == h.path,
{
    let after = insert_spec(c, h);
    lemma_position_of(c.entries, h.id);
    assert(after.skipped == c.skipped);
    match position_of(c.entries, h.id) {
        Some(p) => {
            let last = c.entries[p].paths.len() as int;
            assert(after.entries[p].paths[last] == h.path);
            assert(entries_hold(after.entries, h.path));
            if entries_hold(c.entries, path) {
                let (i, k) = choose|i: int, k: int|
                    0 <= i < c.entries.len() && 0 <= k < c.entries[i].paths.len()
                        && #[trigger] c.entries[i].paths[k] == path;
                if i == p {
                    assert(after.entries[p].paths[k] == c.entries[p].paths[k]);
                } else {
                    assert(after.entries[i] == c.entries[i]);
                }
                assert(after.entries[i].paths[k] == path);
                assert(entries_hold(after.entries, path));
            }
            if entries_hold(after.entries, path) && path != h.path {
                let (i, k) = choose|i: int, k: int|
                    0 <= i < after.entries.len() && 0 <= k < after.entries[i].paths.len()
                        && #[trigger] after.entries[i].paths[k] == path;
                if i == p {
                    assert(k != last);
                    assert(after.entries[p].paths[k] == c.entries[p].paths[k]);
                } else {
                    assert(after.entries[i] == c.entries[i]);
                }
                assert(c.entries[i].paths[k] == path);
                assert(entries_hold(c.entries, path));
            }
        },
        None => {
            let n = c.entries.len() as int;
            assert(after.entries[n].paths[0] == h.path);
            assert(entries_hold(after.entries, h.path));
            if entries_hold(c.entries, path) {
                let (i, k) = choose|i: int, k: int|
                    0 <= i < c.entries.len() && 0 <= k < c.entries[i].paths.len()
                        && #[trigger] c.entries[i].paths[k] == path;
                assert(after.entries[i] == c.entries[i]);
                assert(after.entries[i].paths[k] == path);
                assert(entries_hold(after.entries, path));
            }
            if entries_hold(after.entries, path) && path != h.path {
                let (i, k) = choose|i: int, k: int|
                    0 <= i < after.entries.len() && 0 <= k < after.entries[i].paths.len()
                        && #[trigger] after.entries[i].paths[k] == path;
                if i == n {
                    assert(k == 0);
                }
                assert(after.entries[i] == c.entries[i]);
                assert(c.entries[i].paths[k] == path);
                assert(entries_hold(c.entries, path));
            }
        },
    }
}

/// Exclusions reach the catalog. Where the catalog holds exactly the paths
/// that a walk handed out, every path in it, and so every path of every
/// duplicate set, was reached through folders that are not excluded and has
/// a base name that no excluded pattern matches.
pub proof fn lemma_catalog_respects_exclusions(
    c: CatalogView,
    v: WalkView,
    w: WalkerView,
    path: Seq<char>,
)
    requires
        respects_exclusions(v, w),
        forall|p: Seq<char>| holds_path(c, p) <==> v.files.contains(p),
        holds_path(c, path),
    ensures
        !name_excluded(w.patterns, file_name_of(path)),
        exists|i: int|
            0 <= i < v.files.len() && #[trigger] v.files[i] == path && v.file_lineage[i].len() > 0
                && forall|k: int|
                0 <= k < v.file_lineage[i].len() ==> !w.folders.contains(
                    #[trigger] v.file_lineage[i][k],
                ),
{
    assert(v.files.contains(path));
    let i = choose|i: int| 0 <= i < v.files.len() && v.files[i] == path;
    assert(v.files[i] == path);
    assert(v.file_lineage[i].len() > 0);
}

} // verus!
