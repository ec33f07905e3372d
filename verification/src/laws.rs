//! Properties that relate the table's operations to one another.
use vstd::prelude::*;
use crate::crypto::xxh3_64_hash;
use crate::deletion::{deletion_order, lemma_delete_keeps, lemma_order_in_range, reusable_ok};
use crate::error::ErrorView;
use crate::filetime::FileTimes;
use crate::fragments::{
    allocate_spec, count_below, extents_fit, flatten, free_total, group_by_size, groups_nonempty,
    lemma_count_below, lemma_flatten, lemma_group_by_size, lemma_merged_runs, lemma_runs,
    lemma_sort_pairs, lemma_split_exists, merge_spec, merged_runs, pair_le, pairs_fit, pairs_sorted,
    runs, sizes_increasing, sort_pairs, splits_at, FragmentsView,
};
use crate::record::{
    empty_record_view, lemma_listing_insert_get, lemma_listing_ops, lemma_listing_remove_get,
    listing_get, listing_insert, listing_remove, position_of, FileRecord, InnerView, RecordView,
};
use crate::separation::{
    apart, extent_at, extents_apart, free_below, groups_apart, lemma_flatten_contains,
    lemma_group_by_size_ascending, lemma_group_by_size_multiset, lemma_runs_separate,
    lemma_runs_sorted, lemma_runs_unchanged, lemma_sorted_apart, lemma_sorted_unique, none_adjacent,
    offsets_increasing, runs_separate,
};
use crate::sizes::{
    lemma_avoids_past_end, lemma_dir_size_fill_empty, lemma_dir_size_frame,
    lemma_settled_avoids_itself, size_avoids,
};
use crate::table::{
    create_spec, delete_spec, dir_size, readable_form, refs_ok, rename_spec, send_spec, size_of,
    storable_len, stored_file, stored_form, strings_view, walk_spec, TableView,
};

verus! {

/// Merging free space keeps the number of free bytes, orders the groups by
/// strictly increasing size, leaves no group empty, and keeps every extent
/// within the range of `usize`.
pub proof fn law_merge_keeps_free_bytes(f: FragmentsView)
    requires
        extents_fit(f),
    ensures
        free_total(merge_spec(f)) == free_total(f),
        sizes_increasing(merge_spec(f)),
        groups_nonempty(merge_spec(f)),
        extents_fit(merge_spec(f)),
{
    let flat = flatten(f);
    lemma_flatten(f);
    lemma_sort_pairs(flat);
    let sorted = sort_pairs(flat);
    assert forall|i: int| 0 <= i < sorted.len() implies #[trigger] sorted[i].0 + sorted[i].1
        <= usize::MAX by {
        assert(sorted.contains(sorted[i]));
        assert(flat.contains(sorted[i]));
        let k = choose|k: int| 0 <= k < flat.len() && flat[k] == sorted[i];
        assert(flat[k].0 + flat[k].1 <= usize::MAX);
    }
    lemma_merged_runs(sorted);
    lemma_group_by_size(merged_runs(sorted));
}

/// The runs that merging makes of free extents of which no two overlap, none
/// is empty and at least one is present lie in increasing order with a gap
/// between any two.
proof fn lemma_merge_runs(f: FragmentsView)
    requires
        extents_fit(f),
        extents_apart(flatten(f)),
        flatten(f).len() > 0,
    ensures
        runs_separate(merged_runs(sort_pairs(flatten(f)))),
{
    let flat = flatten(f);
    lemma_flatten(f);
    lemma_sort_pairs(flat);
    let s = sort_pairs(flat);
    assert forall|i: int| 0 <= i < s.len() implies #[trigger] s[i].0 + s[i].1 <= usize::MAX by {
        assert(s.contains(s[i]));
        assert(flat.contains(s[i]));
        let k = choose|k: int| 0 <= k < flat.len() && flat[k] == s[i];
        assert(flat[k].0 + flat[k].1 <= usize::MAX);
    }
    lemma_sorted_apart(flat);
    lemma_runs_separate(s);
}

/// Merging free extents of which no two overlap, none is empty and at least
/// one is present leaves no extent beginning where one ends; the groups come
/// in strictly increasing order of size, none of them empty, and the offsets
/// within each group strictly increase.
pub proof fn law_merge_leaves_no_neighbours(f: FragmentsView)
    requires
        extents_fit(f),
        extents_apart(flatten(f)),
        flatten(f).len() > 0,
    ensures
        none_adjacent(merge_spec(f)),
        sizes_increasing(merge_spec(f)),
        groups_nonempty(merge_spec(f)),
        offsets_increasing(merge_spec(f)),
{
    broadcast use vstd::seq_lib::group_to_multiset_ensures;
    lemma_merge_runs(f);
    let rs = merged_runs(sort_pairs(flatten(f)));
    let g = group_by_size(rs);
    lemma_group_by_size(rs);
    lemma_group_by_size_multiset(rs);
    assert forall|i: int, j: int| #![trigger rs[i], rs[j]] 0 <= i < j < rs.len() implies rs[i].0 < rs[j].0 by {
        assert(rs[i].0 + rs[i].1 < rs[j].0);
    }
    lemma_group_by_size_ascending(rs);
    assert forall|i: int, a: int, j: int, b: int|
        #![trigger g[i].1[a], g[j].1[b]]
        0 <= i < g.len() && 0 <= a < g[i].1.len() && 0 <= j < g.len() && 0 <= b < g[j].1.len()
        implies g[i].1[a] + g[i].0 != g[j].1[b] by {
        lemma_flatten_contains(g, i, a);
        lemma_flatten_contains(g, j, b);
        let p = (g[i].1[a], g[i].0);
        let q = (g[j].1[b], g[j].0);
        assert(flatten(g).to_multiset().count(p) > 0);
        assert(flatten(g).to_multiset().count(q) > 0);
        assert(rs.contains(p));
        assert(rs.contains(q));
        let k1 = choose|k: int| 0 <= k < rs.len() && rs[k] == p;
        let k2 = choose|k: int| 0 <= k < rs.len() && rs[k] == q;
        if k1 < k2 {
            assert(rs[k1].0 + rs[k1].1 < rs[k2].0);
        } else if k2 < k1 {
            assert(rs[k2].0 + rs[k2].1 < rs[k1].0);
            assert(rs[k1].1 > 0);
        } else {
            assert(rs[k1].1 > 0);
        }
    }
}

/// Merging free space, and then merging the result again, changes nothing
/// the second time.
pub proof fn law_merge_twice(f: FragmentsView)
    requires
        extents_fit(f),
    ensures
        merge_spec(merge_spec(f)) == merge_spec(f),
{
    let flat = flatten(f);
    lemma_flatten(f);
    lemma_sort_pairs(flat);
    let s = sort_pairs(flat);
    assert forall|i: int| 0 <= i < s.len() implies #[trigger] s[i].0 + s[i].1 <= usize::MAX by {
        assert(s.contains(s[i]));
        assert(flat.contains(s[i]));
        let k = choose|k: int| 0 <= k < flat.len() && flat[k] == s[i];
        assert(flat[k].0 + flat[k].1 <= usize::MAX);
    }
    let rs = merged_runs(s);
    if s.len() > 0 {
        lemma_runs_sorted(s);
        lemma_runs(s);
    } else {
        assert(rs == seq![(0usize, 0usize)]);
        assert(seq![(0usize, 0usize)].drop_last() =~= Seq::<(usize, usize)>::empty());
    }
    lemma_runs_unchanged(rs);
    let g = group_by_size(rs);
    lemma_group_by_size_multiset(rs);
    let fl = flatten(g);
    lemma_sort_pairs(fl);
    lemma_sorted_unique(sort_pairs(fl), rs);
    assert(merged_runs(rs) == runs(rs));
}

/// Allocating `len` bytes, where no two free extents overlap, no live extent
/// overlaps a free one, and all of them end within the store, gives an
/// extent that overlaps no live extent and nothing that stays free, and that
/// ends within the store's new end; no two of the extents that stay free
/// overlap, and all extents still end within the store.
pub proof fn law_allocation_apart(f: FragmentsView, end: usize, len: usize, live: Seq<(usize, usize)>)
    requires
        sizes_increasing(f),
        groups_apart(f),
        free_below(f, end as int),
        forall|k: int| 0 <= k < live.len() ==> #[trigger] live[k].0 + live[k].1 <= end,
        forall|k: int, i: int, a: int|
            0 <= k < live.len() && 0 <= i < f.len() && 0 <= a < f[i].1.len() ==> apart(
                #[trigger] live[k],
                #[trigger] extent_at(f, i, a),
            ),
        end + len <= usize::MAX,
    ensures
        ({
            let (f2, end2, off) = allocate_spec(f, end, len);
            &&& off + len <= end2
            &&& forall|k: int| 0 <= k < live.len() ==> apart((off, len), #[trigger] live[k])
            &&& forall|i: int, a: int|
                0 <= i < f2.len() && 0 <= a < f2[i].1.len() ==> apart((off, len), #[trigger] extent_at(f2, i, a))
            &&& groups_apart(f2)
            &&& free_below(f2, end2 as int)
            &&& forall|k: int| 0 <= k < live.len() ==> #[trigger] live[k].0 + live[k].1 <= end2
        }),
{
    lemma_split_exists(f, len);
    let j = choose|j: int| splits_at(f, len, j);
    lemma_count_below(f, len, j);
    let p = count_below(f, len) as int;
    let (f2, end2, off) = allocate_spec(f, end, len);
    if p < f.len() && f[p].1.len() > 0 {
        let last = f[p].1.len() - 1;
        assert(f[p].0 >= len);
        assert(off == f[p].1[last]);
        assert(f[p].1[last] + f[p].0 <= end);
        assert(f2 == f.update(p, (f[p].0, f[p].1.drop_last())));
        assert forall|k: int| 0 <= k < live.len() implies apart((off, len), #[trigger] live[k]) by {
            assert(apart(live[k], extent_at(f, p, last)));
        }
        assert forall|i: int, a: int| 0 <= i < f2.len() && 0 <= a < f2[i].1.len() implies extent_at(f2, i, a)
            == extent_at(f, i, a) && (i != p || a != last) by {
            if i == p {
                assert(f2[i].1 == f[p].1.drop_last());
            }
        }
        assert forall|i: int, a: int| 0 <= i < f2.len() && 0 <= a < f2[i].1.len() implies apart(
            (off, len),
            #[trigger] extent_at(f2, i, a),
        ) by {
            assert(extent_at(f2, i, a) == extent_at(f, i, a) && (i != p || a != last));
            assert(apart(extent_at(f, p, last), extent_at(f, i, a)));
        }
        assert forall|i: int, a: int, j: int, b: int|
            #![trigger extent_at(f2, i, a), extent_at(f2, j, b)]
            0 <= i < f2.len() && 0 <= a < f2[i].1.len() && 0 <= j < f2.len() && 0 <= b < f2[j].1.len() && (i
                != j || a != b) implies apart(extent_at(f2, i, a), extent_at(f2, j, b)) by {
            assert(extent_at(f2, i, a) == extent_at(f, i, a));
            assert(extent_at(f2, j, b) == extent_at(f, j, b));
            assert(apart(extent_at(f, i, a), extent_at(f, j, b)));
        }
        assert forall|i: int, a: int| 0 <= i < f2.len() && 0 <= a < f2[i].1.len() implies #[trigger] f2[i].1[a]
            + f2[i].0 <= end2 by {
            assert(extent_at(f2, i, a) == extent_at(f, i, a));
            assert(f[i].1[a] + f[i].0 <= end);
        }
    } else {
        assert(off == end && end2 == end + len);
        let n = f.len() as int;
        assert forall|i: int, a: int| 0 <= i < f2.len() && 0 <= a < f2[i].1.len() implies 0 <= group_after(
            i,
            p,
            n,
        ) < f.len() && a < f[group_after(i, p, n)].1.len() && extent_at(f2, i, a) == #[trigger] extent_at(
            f,
            group_after(i, p, n),
            a,
        ) by {
            assert(f2[i] == f[group_after(i, p, n)]);
        }
        assert forall|i: int, a: int| 0 <= i < f2.len() && 0 <= a < f2[i].1.len() implies apart(
            (off, len),
            #[trigger] extent_at(f2, i, a),
        ) && f2[i].1[a] + f2[i].0 <= end2 by {
            assert(extent_at(f2, i, a) == extent_at(f, group_after(i, p, n), a));
            assert(f[group_after(i, p, n)].1[a] + f[group_after(i, p, n)].0 <= end);
        }
        assert forall|i: int, a: int, j: int, b: int|
            #![trigger extent_at(f2, i, a), extent_at(f2, j, b)]
            0 <= i < f2.len() && 0 <= a < f2[i].1.len() && 0 <= j < f2.len() && 0 <= b < f2[j].1.len() && (i
                != j || a != b) implies apart(extent_at(f2, i, a), extent_at(f2, j, b)) by {
            assert(extent_at(f2, i, a) == extent_at(f, group_after(i, p, n), a));
            assert(extent_at(f2, j, b) == extent_at(f, group_after(j, p, n), b));
            assert(apart(extent_at(f, group_after(i, p, n), a), extent_at(f, group_after(j, p, n), b)));
        }
    }
}

/// Where group `i` of the free space after allocating stood before: the
/// groups from `p` on moved down by one when the group at `p` (of `n`) was
/// dropped, and none moved when `p` is `n`.
spec fn group_after(i: int, p: int, n: int) -> int {
    if p < n && i >= p {
        i + 1
    } else {
        i
    }
}

/// Deleting a record keeps the reusable ids distinct and naming empty
/// records, whether the deletion succeeds or fails, where deleting takes out
/// no record twice and none that is already reusable, and every directory it
/// takes out is stored under its own id. Deleting a record that is no
/// directory, with some depth to spare, always ends.
pub proof fn law_delete_keeps_reusable_ids(t: TableView, rid: usize, fuel: nat)
    requires
        t.wf(),
        t.has_working_dir(),
        rid < t.meta.entries.len(),
        reusable_ok(t.meta),
        deletion_order(t.meta.entries, rid as int, fuel).no_duplicates(),
        forall|x: usize| #[trigger] deletion_order(t.meta.entries, rid as int, fuel).contains(x) ==> {
            &&& !t.meta.empty_records.contains(x)
            &&& t.meta.entries[x as int].inner is Directory ==> t.meta.entries[x as int].id == x
        },
    ensures
        delete_spec(t, rid as int, fuel) matches Some((t2, _, _)) ==> reusable_ok(t2.meta),
        fuel > 0 && !(t.meta.entries[rid as int].inner is Directory) ==> delete_spec(t, rid as int, fuel) is Some,
{
    let e = t.meta.entries;
    assert forall|k: int| 0 <= k < e.len() implies crate::table::targets_below(#[trigger] e[k], e.len() as int) by {
        assert(refs_ok(e[k], e.len() as int));
    }
    lemma_order_in_range(e, rid, fuel);
    lemma_delete_keeps(t, rid, fuel);
}

/// The id that the next created record takes: the most recently freed one,
/// or a new one after the last record.
pub open spec fn next_record_id(m: crate::table::MetaView) -> int {
    if m.empty_records.len() > 0 {
        m.empty_records.last() as int
    } else {
        m.entries.len() as int
    }
}

/// Creating a file record in the working directory, under a name it does
/// not hold, makes the working directory's settled size grow by the file's
/// size, where the sum fits in `usize`; the new record's size is its file's
/// size. Where the new record reuses a freed id that measuring the working
/// directory meets, the file must have no bytes and the freed record must be
/// empty. The working directory must not be the most recently freed id.
pub proof fn law_create_grows_directory(
    t: TableView,
    name: Seq<char>,
    file: FileRecord,
    times: FileTimes,
    s: usize,
)
    requires
        t.wf(),
        t.has_working_dir(),
        t.meta.empty_records.len() > 0 ==> t.meta.empty_records.last() != t.working_dir_id,
        t.meta.entries.len() < usize::MAX,
        t.meta.entries[t.working_dir_id as int].inner is Directory,
        listing_get(t.meta.entries[t.working_dir_id as int].inner->Directory_0, name) is None,
        size_of(t.meta.entries, t.meta.entries[t.working_dir_id as int], usize::MAX as nat) == Some(
            Ok::<usize, ErrorView>(s),
        ),
        s + file.size <= usize::MAX,
        t.meta.empty_records.len() > 0 ==> size_avoids(
            t.meta.entries,
            t.meta.entries[t.working_dir_id as int],
            next_record_id(t.meta),
            usize::MAX as nat,
        ) || (file.size == 0 && t.meta.entries[next_record_id(t.meta)].inner is Empty),
    ensures
        ({
            let created = create_spec(t, name, InnerView::File(file), times);
            let w = t.working_dir_id as int;
            &&& created.1 is Ok
            &&& size_of(created.0.meta.entries, created.0.meta.entries[w], usize::MAX as nat) == Some(
                Ok::<usize, ErrorView>((s + file.size) as usize),
            )
            &&& size_of(created.0.meta.entries, created.1->Ok_0, usize::MAX as nat) == Some(
                Ok::<usize, ErrorView>(file.size),
            )
        }),
{
    let e = t.meta.entries;
    let w = t.working_dir_id as int;
    let fuel = usize::MAX as nat;
    let empties = t.meta.empty_records;
    assert(refs_ok(e[w], e.len() as int));
    let l = e[w].inner->Directory_0;
    let id: usize = if empties.len() > 0 { empties.last() } else { e.len() as usize };
    assert(id as int == next_record_id(t.meta));
    assert(id as int != w);
    if empties.len() > 0 {
        assert(empties[empties.len() - 1] < e.len());
    }
    assert(position_of(l, name) is None);
    let created = create_spec(t, name, InnerView::File(file), times);
    let e3 = created.0.meta.entries;
    let rec = RecordView { id, name, file_times: times, inner: InnerView::File(file) };
    assert(e3.len() >= e.len());
    assert(e3[w].inner == InnerView::Directory(l.push((name, id))));
    assert(e3[id as int] == rec);
    assert(created.1 == Ok::<RecordView, ErrorView>(rec));
    assert forall|k: int| 0 <= k < e.len() && k != w && k != id as int implies #[trigger] e3[k] == e[k] by {}
    assert forall|k: int| 0 <= k < e.len() implies crate::table::targets_below(#[trigger] e[k], e.len() as int) by {
        assert(refs_ok(e[k], e.len() as int));
    }
    if empties.len() == 0 {
        lemma_avoids_past_end(e, e[w], fuel);
    }
    lemma_settled_avoids_itself(e, w, fuel);
    let ids = crate::record::listing_ids(l);
    assert forall|k: int| 0 <= k < ids.len() implies #[trigger] ids[k] < e.len() by {
        assert(ids[k] == l[k].1);
    }
    assert(size_of(e, e[w], fuel) == dir_size(e, ids, (fuel - 1) as nat));
    if size_avoids(e, e[w], id as int, fuel) {
        lemma_dir_size_frame(e, e3, ids, w, id as int, (fuel - 1) as nat);
    } else {
        lemma_dir_size_fill_empty(e, e3, ids, w, id as int, (fuel - 1) as nat, s);
    }
    let ids3 = crate::record::listing_ids(l.push((name, id)));
    assert(ids3 =~= ids.push(id));
    assert(ids3.drop_last() =~= ids);
    assert(size_of(e3, rec, (fuel - 1) as nat) == Some(Ok::<usize, ErrorView>(file.size)));
    assert(dir_size(e3, ids, (fuel - 1) as nat) == Some(Ok::<usize, ErrorView>(s)));
    assert(ids3.last() == id);
    assert(e3[ids3.last() as int] == rec);
    assert(dir_size(e3, ids3, (fuel - 1) as nat) == Some(Ok::<usize, ErrorView>((s + file.size) as usize)));
    assert(size_of(e3, e3[w], fuel) == dir_size(e3, ids3, (fuel - 1) as nat));
}

/// Contents that were stored compressed read back as they were: the bytes
/// written for them are the form in which reading expects them, they are
/// small enough to be read, and the file's checksum is theirs. (Where the
/// compressed ciphertext is not shorter, the file records the ciphertext's
/// length while the compressed bytes are written, and reading fails.)
pub proof fn law_compressed_contents_read_back(key: Seq<u8>, c: Seq<u8>, file: FileRecord, data: Seq<u8>)
    requires
        stored_file(key, c, file, data),
        storable_len(c.len() as int),
        file.is_compressed,
    ensures
        data == stored_form(key, file, c),
        readable_form(key, file, c),
        file.checksum == xxh3_64_hash(c),
{
}

/// Pinning a record that was not pinned and then unpinning it leaves the set
/// of pinned records as it was.
pub proof fn law_pin_then_unpin(pinned: Set<usize>, id: usize)
    requires
        !pinned.contains(id),
    ensures
        pinned.insert(id).remove(id) == pinned,
{
    assert(pinned.insert(id).remove(id) =~= pinned);
}

/// Creating a record makes the working directory map its name to the new id
/// and leaves every other name as it was; the record stored under that id is
/// the one returned. The working directory must not be the most recently
/// freed id.
pub proof fn law_create_then_lookup(
    t: TableView,
    name: Seq<char>,
    inner: InnerView,
    times: FileTimes,
    other: Seq<char>,
)
    requires
        t.wf(),
        t.has_working_dir(),
        t.meta.empty_records.len() > 0 ==> t.meta.empty_records.last() != t.working_dir_id,
        t.meta.entries.len() < usize::MAX,
        create_spec(t, name, inner, times).1 is Ok,
    ensures
        ({
            let t2 = create_spec(t, name, inner, times).0;
            let rec = create_spec(t, name, inner, times).1->Ok_0;
            let w = t.working_dir_id as int;
            let l = t.meta.entries[w].inner->Directory_0;
            let l2 = t2.meta.entries[w].inner->Directory_0;
            &&& t2.meta.entries[rec.id as int] == rec
            &&& t2.meta.entries[w].inner is Directory
            &&& listing_get(l2, name) == Some(rec.id)
            &&& other != name ==> listing_get(l2, other) == listing_get(l, other)
        }),
{
    let w = t.working_dir_id as int;
    let empties = t.meta.empty_records;
    assert(refs_ok(t.meta.entries[w], t.meta.entries.len() as int));
    let l = t.meta.entries[w].inner->Directory_0;
    let id: usize = if empties.len() > 0 { empties.last() } else { t.meta.entries.len() as usize };
    let rec = RecordView { id: 0, name, file_times: times, inner };
    let e1 = if empties.len() > 0 {
        t.meta.entries.update(id as int, rec)
    } else {
        t.meta.entries.push(rec)
    };
    assert(e1[id as int] == rec);
    assert(e1[w] == t.meta.entries[w]);
    lemma_listing_insert_get(l, name, id, other);
}

/// Creating an empty directory under a name that the working directory does
/// not hold and then deleting it succeeds, and gives the working directory
/// back exactly as it was; the new record's slot is empty again, and its id
/// is the last reusable one. The working directory must not be the most
/// recently freed id.
pub proof fn law_create_then_delete(t: TableView, name: Seq<char>, times: FileTimes, fuel: nat)
    requires
        t.wf(),
        t.has_working_dir(),
        t.meta.empty_records.len() > 0 ==> t.meta.empty_records.last() != t.working_dir_id,
        t.meta.entries.len() < usize::MAX,
        t.meta.entries[t.working_dir_id as int].inner is Directory,
        listing_get(t.meta.entries[t.working_dir_id as int].inner->Directory_0, name) is None,
        fuel > 0,
    ensures
        ({
            let created = create_spec(t, name, InnerView::Directory(Seq::empty()), times);
            let id = created.1->Ok_0.id;
            let w = t.working_dir_id as int;
            &&& created.1 is Ok
            &&& delete_spec(created.0, id as int, fuel) matches Some((t3, _, r)) && {
                &&& r is Ok
                &&& t3.working_dir_id == t.working_dir_id
                &&& t3.meta.entries[w] == t.meta.entries[w]
                &&& t3.meta.entries[id as int] == empty_record_view()
                &&& t3.meta.empty_records.last() == id
            }
        }),
{
    let w = t.working_dir_id as int;
    let empties = t.meta.empty_records;
    assert(refs_ok(t.meta.entries[w], t.meta.entries.len() as int));
    let l = t.meta.entries[w].inner->Directory_0;
    let id: usize = if empties.len() > 0 { empties.last() } else { t.meta.entries.len() as usize };
    assert(id as int != w);
    lemma_listing_insert_get(l, name, id, name);
    let l2 = listing_insert(l, name, id);
    assert(position_of(l, name) is None);
    assert(l2 == l.push((name, id)));
    lemma_listing_ops(l, name, id, usize::MAX as int + 1);
    crate::record::lemma_position_of(l2, name);
    assert(position_of(l2, name) == Some(l.len() as int));
    assert(listing_remove(l2, name) =~= l);
}

/// Renaming an entry of the working directory makes the new name map to the
/// entry's id and drops the old name; other names keep their ids; the record
/// takes the new name.
pub proof fn law_rename_moves_entry(
    t: TableView,
    old_name: Seq<char>,
    new_name: Seq<char>,
    m: u64,
    other: Seq<char>,
)
    requires
        t.wf(),
        t.has_working_dir(),
        rename_spec(t, old_name, new_name, m).1 is Ok,
    ensures
        ({
            let t2 = rename_spec(t, old_name, new_name, m).0;
            let w = t.working_dir_id as int;
            let l = t.meta.entries[w].inner->Directory_0;
            let id = listing_get(l, old_name)->Some_0;
            let l2 = t2.meta.entries[w].inner->Directory_0;
            &&& listing_get(l, old_name) is Some
            &&& t2.meta.entries[id as int].name == new_name
            &&& t2.meta.entries[w].inner is Directory
            &&& listing_get(l2, new_name) == Some(id)
            &&& old_name != new_name ==> listing_get(l2, old_name) is None
            &&& other != old_name && other != new_name ==> listing_get(l2, other) == listing_get(l, other)
        }),
{
    let w = t.working_dir_id as int;
    assert(refs_ok(t.meta.entries[w], t.meta.entries.len() as int));
    let l = t.meta.entries[w].inner->Directory_0;
    let id = listing_get(l, old_name)->Some_0;
    lemma_listing_ops(l, old_name, id, t.meta.entries.len() as int);
    let l1 = crate::record::listing_remove(l, old_name);
    lemma_listing_remove_get(l, old_name, other);
    lemma_listing_remove_get(l, old_name, new_name);
    lemma_listing_insert_get(l1, new_name, id, other);
    lemma_listing_insert_get(l1, new_name, id, old_name);
}

/// Renaming an entry of the working directory to a name it does not hold and
/// then back succeeds, and gives every name of the working directory the id
/// it had; the record is named `a`, and every record other than it and the
/// working directory is as it was.
pub proof fn law_rename_back(t: TableView, a: Seq<char>, b: Seq<char>, m1: u64, m2: u64, x: Seq<char>)
    requires
        t.wf(),
        t.has_working_dir(),
        t.meta.entries[t.working_dir_id as int].inner is Directory,
        listing_get(t.meta.entries[t.working_dir_id as int].inner->Directory_0, a) is Some,
        listing_get(t.meta.entries[t.working_dir_id as int].inner->Directory_0, b) is None,
    ensures
        ({
            let w = t.working_dir_id as int;
            let l = t.meta.entries[w].inner->Directory_0;
            let id = listing_get(l, a)->Some_0 as int;
            let first = rename_spec(t, a, b, m1);
            let back = rename_spec(first.0, b, a, m2);
            let t3 = back.0;
            &&& first.1 is Ok
            &&& back.1 is Ok
            &&& t3.meta.entries[w].inner is Directory
            &&& listing_get(t3.meta.entries[w].inner->Directory_0, x) == listing_get(l, x)
            &&& t3.meta.entries[id].name == a
            &&& forall|k: int| 0 <= k < t.meta.entries.len() && k != w && k != id ==> #[trigger] t3.meta.entries[k]
                == t.meta.entries[k]
        }),
{
    let w = t.working_dir_id as int;
    assert(refs_ok(t.meta.entries[w], t.meta.entries.len() as int));
    let l = t.meta.entries[w].inner->Directory_0;
    let id = listing_get(l, a)->Some_0;
    lemma_listing_ops(l, a, id, t.meta.entries.len() as int);
    assert(id < t.meta.entries.len());
    let l1 = listing_remove(l, a);
    lemma_listing_ops(l1, b, id, t.meta.entries.len() as int);
    let l2 = listing_insert(l1, b, id);
    lemma_listing_remove_get(l, a, x);
    lemma_listing_remove_get(l, a, b);
    lemma_listing_insert_get(l1, b, id, x);
    let t2 = rename_spec(t, a, b, m1).0;
    assert(t2.meta.entries[w].inner == InnerView::Directory(l2));
    lemma_listing_ops(l2, b, id, t.meta.entries.len() as int);
    let l3 = listing_remove(l2, b);
    lemma_listing_remove_get(l2, b, x);
    lemma_listing_insert_get(l3, a, id, x);
    lemma_listing_remove_get(l2, b, a);
    let t3 = rename_spec(t2, b, a, m2).0;
    assert(t3.meta.entries[w].inner == InnerView::Directory(listing_insert(l3, a, id)));
}

/// Sending a record moves its name: the target directory maps the record's
/// name to the record's id.
pub proof fn law_send_arrives(t: TableView, rid: int, to: Seq<Seq<char>>)
    requires
        t.wf(),
        t.has_working_dir(),
        0 <= rid < t.meta.entries.len(),
        send_spec(t, rid, to).1 is Ok,
    ensures
        ({
            let t2 = send_spec(t, rid, to).0;
            let rec = t.meta.entries[rid];
            let w = t.working_dir_id as int;
            let l = t.meta.entries[w].inner->Directory_0;
            let e1 = t.meta.entries.update(
                w,
                RecordView {
                    inner: InnerView::Directory(crate::record::listing_remove(l, rec.name)),
                    ..t.meta.entries[w]
                },
            );
            let d = walk_spec(e1, 0, to, rec.name)->Ok_0;
            &&& walk_spec(e1, 0, to, rec.name) is Ok
            &&& t2.meta.entries[d as int].inner is Directory
            &&& listing_get(t2.meta.entries[d as int].inner->Directory_0, rec.name) == Some(rec.id)
        }),
{
    let w = t.working_dir_id as int;
    let rec = t.meta.entries[rid];
    assert(refs_ok(t.meta.entries[w], t.meta.entries.len() as int));
    let l = t.meta.entries[w].inner->Directory_0;
    lemma_listing_ops(l, rec.name, 0, t.meta.entries.len() as int);
    let e1 = t.meta.entries.update(
        w,
        RecordView { inner: InnerView::Directory(crate::record::listing_remove(l, rec.name)), ..t.meta.entries[w] },
    );
    let d = walk_spec(e1, 0, to, rec.name)->Ok_0;
    if d as int != w {
        lemma_walk_in_range(e1, 0, to, rec.name, t);
        assert(refs_ok(t.meta.entries[d as int], t.meta.entries.len() as int));
    }
    let l2 = e1[d as int].inner->Directory_0;
    lemma_listing_insert_get(l2, rec.name, rec.id, rec.name);
}

/// The directories that a path passes through from `ids[0]`: each `ids[i]`
/// is a directory whose entry `parts[i]` is `ids[i + 1]`.
pub open spec fn path_through(e: Seq<RecordView>, ids: Seq<usize>, parts: Seq<Seq<char>>) -> bool {
    &&& ids.len() == parts.len() + 1
    &&& forall|i: int|
        0 <= i < parts.len() ==> {
            &&& (#[trigger] e[ids[i] as int]).inner is Directory
            &&& listing_get(e[ids[i] as int].inner->Directory_0, parts[i]) == Some(ids[i + 1])
        }
}

proof fn lemma_walk_path(e: Seq<RecordView>, cur: usize, parts: Seq<Seq<char>>, name: Seq<char>)
    requires
        walk_spec(e, cur, parts, name) is Ok,
    ensures
        exists|ids: Seq<usize>|
            path_through(e, ids, parts) && ids[0] == cur && #[trigger] ids.last() == walk_spec(
                e,
                cur,
                parts,
                name,
            )->Ok_0,
    decreases parts.len(),
{
    if parts.len() == 0 {
        let ids = seq![cur];
        assert(path_through(e, ids, parts));
        assert(ids.last() == cur);
    } else {
        let l = e[cur as int].inner->Directory_0;
        let next = listing_get(l, parts[0])->Some_0;
        let rest = parts.drop_first();
        lemma_walk_path(e, next, rest, name);
        let r = choose|r: Seq<usize>|
            path_through(e, r, rest) && r[0] == next && #[trigger] r.last() == walk_spec(e, next, rest, name)->Ok_0;
        let ids = seq![cur] + r;
        assert forall|i: int| 0 <= i < parts.len() implies {
            &&& (#[trigger] e[ids[i] as int]).inner is Directory
            &&& listing_get(e[ids[i] as int].inner->Directory_0, parts[i]) == Some(ids[i + 1])
        } by {
            if i > 0 {
                assert(ids[i] == r[i - 1]);
                assert(ids[i + 1] == r[i]);
                assert(parts[i] == rest[i - 1]);
                assert(e[r[i - 1] as int].inner is Directory);
            } else {
                assert(ids[0] == cur && ids[1] == r[0]);
            }
        }
        assert(ids.last() == r.last());
        assert(path_through(e, ids, parts));
    }
}

/// Sending a record follows the whole path from the root: there are
/// directories, the first the root, each holding the next under the next
/// part of the path, and the last of them, reached by the last part, maps
/// the record's name to the record's id. The directories are read after the
/// name left the working directory.
pub proof fn law_send_follows_path(t: TableView, rid: int, to: Seq<Seq<char>>)
    requires
        t.wf(),
        t.has_working_dir(),
        0 <= rid < t.meta.entries.len(),
        send_spec(t, rid, to).1 is Ok,
    ensures
        ({
            let t2 = send_spec(t, rid, to).0;
            let rec = t.meta.entries[rid];
            let w = t.working_dir_id as int;
            let l = t.meta.entries[w].inner->Directory_0;
            let e1 = t.meta.entries.update(
                w,
                RecordView {
                    inner: InnerView::Directory(listing_remove(l, rec.name)),
                    ..t.meta.entries[w]
                },
            );
            &&& exists|ids: Seq<usize>|
                #![trigger path_through(e1, ids, to)]
                {
                    let d = ids.last() as int;
                    &&& path_through(e1, ids, to)
                    &&& ids[0] == 0
                    &&& t2.meta.entries[d].inner is Directory
                    &&& listing_get(t2.meta.entries[d].inner->Directory_0, rec.name) == Some(rec.id)
                    &&& d != w ==> listing_get(t2.meta.entries[w].inner->Directory_0, rec.name) is None
                    &&& forall|k: int|
                        0 <= k < t.meta.entries.len() && k != w && k != d ==> #[trigger] t2.meta.entries[k]
                            == t.meta.entries[k]
                }
            &&& forall|other: Seq<char>|
                other != rec.name ==> #[trigger] listing_get(e1[w].inner->Directory_0, other) == listing_get(
                    l,
                    other,
                )
            &&& t2.meta.entries.len() == t.meta.entries.len()
            &&& t2.meta.free_fragments == t.meta.free_fragments
            &&& t2.meta.empty_records == t.meta.empty_records
            &&& t2.meta.pinned == t.meta.pinned
            &&& t2.working_dir_id == t.working_dir_id
        }),
{
    law_send_arrives(t, rid, to);
    let w = t.working_dir_id as int;
    let rec = t.meta.entries[rid];
    let l = t.meta.entries[w].inner->Directory_0;
    let e1 = t.meta.entries.update(
        w,
        RecordView { inner: InnerView::Directory(listing_remove(l, rec.name)), ..t.meta.entries[w] },
    );
    lemma_walk_path(e1, 0, to, rec.name);
    let ids = choose|ids: Seq<usize>|
        path_through(e1, ids, to) && ids[0] == 0 && #[trigger] ids.last() == walk_spec(e1, 0, to, rec.name)->Ok_0;
    assert(path_through(e1, ids, to));
    assert(refs_ok(t.meta.entries[w], t.meta.entries.len() as int));
    lemma_listing_remove_get(l, rec.name, rec.name);
    lemma_listing_ops(l, rec.name, 0, t.meta.entries.len() as int);
    lemma_walk_in_range(e1, 0, to, rec.name, t);
    let d = ids.last() as int;
    let t2 = send_spec(t, rid, to).0;
    assert(d == walk_spec(e1, 0, to, rec.name)->Ok_0);
    assert(t2.meta.entries == e1.update(
        d,
        RecordView {
            inner: InnerView::Directory(listing_insert(e1[d].inner->Directory_0, rec.name, rec.id)),
            ..e1[d]
        },
    ));
    assert forall|k: int| 0 <= k < t.meta.entries.len() && k != w && k != d implies #[trigger] t2.meta.entries[k]
        == t.meta.entries[k] by {}
    if d != w {
        assert(t2.meta.entries[w] == e1[w]);
    }
    assert forall|other: Seq<char>| other != rec.name implies #[trigger] listing_get(
        e1[w].inner->Directory_0,
        other,
    ) == listing_get(l, other) by {
        lemma_listing_remove_get(l, rec.name, other);
    }
}

/// Renaming an entry of the working directory changes nothing of the renamed
/// record but its name, which becomes the new one, and its modification
/// time, which becomes `m`; it keeps its id, its contents, and its creation
/// and access times. Every other record but the working directory, the free
/// space, the reusable ids, the end of the store, the pinned records and the
/// working directory's id stay as they were. The renamed record must not be
/// the working directory itself.
pub proof fn law_rename_keeps_record(t: TableView, old_name: Seq<char>, new_name: Seq<char>, m: u64)
    requires
        t.wf(),
        t.has_working_dir(),
        rename_spec(t, old_name, new_name, m).1 is Ok,
        listing_get(t.meta.entries[t.working_dir_id as int].inner->Directory_0, old_name)->Some_0
            != t.working_dir_id,
    ensures
        ({
            let t2 = rename_spec(t, old_name, new_name, m).0;
            let w = t.working_dir_id as int;
            let id = listing_get(t.meta.entries[w].inner->Directory_0, old_name)->Some_0 as int;
            let before = t.meta.entries[id];
            let after = t2.meta.entries[id];
            &&& after.name == new_name
            &&& after.id == before.id
            &&& after.inner == before.inner
            &&& after.file_times.created == before.file_times.created
            &&& after.file_times.accessed == before.file_times.accessed
            &&& after.file_times.modified == m
            &&& t2.meta.entries.len() == t.meta.entries.len()
            &&& forall|k: int| 0 <= k < t.meta.entries.len() && k != w && k != id ==> #[trigger] t2.meta.entries[k]
                == t.meta.entries[k]
            &&& t2.meta.free_fragments == t.meta.free_fragments
            &&& t2.meta.empty_records == t.meta.empty_records
            &&& t2.meta.end_offset == t.meta.end_offset
            &&& t2.meta.pinned == t.meta.pinned
            &&& t2.working_dir_id == t.working_dir_id
        }),
{
    let w = t.working_dir_id as int;
    assert(refs_ok(t.meta.entries[w], t.meta.entries.len() as int));
    let l = t.meta.entries[w].inner->Directory_0;
    let id = listing_get(l, old_name)->Some_0;
    lemma_listing_ops(l, old_name, id, t.meta.entries.len() as int);
    assert(id < t.meta.entries.len());
}

/// Following a path stops only where it must: where it fails there are
/// directories from `cur` holding each next one under the parts before, and
/// the last of them is no directory (`NotDirectory` with its name) or has no
/// entry of the next part (`NotFound` with `name`).
pub proof fn law_walk_fails_where_path_ends(e: Seq<RecordView>, cur: usize, parts: Seq<Seq<char>>, name: Seq<char>)
    requires
        walk_spec(e, cur, parts, name) is Err,
    ensures
        exists|k: int, ids: Seq<usize>|
            #![trigger path_through(e, ids, parts.take(k))]
            0 <= k < parts.len() && path_through(e, ids, parts.take(k)) && ids[0] == cur && {
                let at = e[ids.last() as int];
                match at.inner {
                    InnerView::Directory(l) => listing_get(l, parts[k]) is None && walk_spec(e, cur, parts, name)
                        == Err::<usize, ErrorView>(ErrorView::NotFound { name }),
                    _ => walk_spec(e, cur, parts, name) == Err::<usize, ErrorView>(
                        ErrorView::NotDirectory { name: at.name },
                    ),
                }
            },
    decreases parts.len(),
{
    let ids0 = seq![cur];
    assert(path_through(e, ids0, parts.take(0)));
    match e[cur as int].inner {
        InnerView::Directory(l) => {
            match listing_get(l, parts[0]) {
                Some(next) => {
                    let rest = parts.drop_first();
                    law_walk_fails_where_path_ends(e, next, rest, name);
                    let (k, r) = choose|k: int, r: Seq<usize>|
                        #![trigger path_through(e, r, rest.take(k))]
                        0 <= k < rest.len() && path_through(e, r, rest.take(k)) && r[0] == next && {
                            let at = e[r.last() as int];
                            match at.inner {
                                InnerView::Directory(l2) => listing_get(l2, rest[k]) is None && walk_spec(
                                    e,
                                    next,
                                    rest,
                                    name,
                                ) == Err::<usize, ErrorView>(ErrorView::NotFound { name }),
                                _ => walk_spec(e, next, rest, name) == Err::<usize, ErrorView>(
                                    ErrorView::NotDirectory { name: at.name },
                                ),
                            }
                        };
                    let ids = seq![cur] + r;
                    let p = parts.take(k + 1);
                    assert forall|i: int| 0 <= i < p.len() implies {
                        &&& (#[trigger] e[ids[i] as int]).inner is Directory
                        &&& listing_get(e[ids[i] as int].inner->Directory_0, p[i]) == Some(ids[i + 1])
                    } by {
                        if i > 0 {
                            assert(ids[i] == r[i - 1]);
                            assert(ids[i + 1] == r[i]);
                            assert(p[i] == rest.take(k)[i - 1]);
                            assert(e[r[i - 1] as int].inner is Directory);
                        } else {
                            assert(ids[0] == cur && ids[1] == r[0]);
                        }
                    }
                    assert(path_through(e, ids, p));
                    assert(ids.last() == r.last());
                    assert(parts[k + 1] == rest[k]);
                }
                None => {
                    assert(ids0.last() == cur);
                }
            }
        },
        _ => {
            assert(ids0.last() == cur);
        },
    }
}

/// Renaming fails exactly where the working directory is no directory
/// (`NotDirectory` with its name) or has no entry of the old name
/// (`NotFound` with the old name), and then changes nothing.
pub proof fn law_rename_fails_only_without_entry(t: TableView, old_name: Seq<char>, new_name: Seq<char>, m: u64)
    ensures
        ({
            let wd = t.meta.entries[t.working_dir_id as int];
            let out = rename_spec(t, old_name, new_name, m);
            match wd.inner {
                InnerView::Directory(l) => if listing_get(l, old_name) is None {
                    out == (t, Err::<(), ErrorView>(ErrorView::NotFound { name: old_name }))
                } else {
                    out.1 is Ok
                },
                _ => out == (t, Err::<(), ErrorView>(ErrorView::NotDirectory { name: wd.name })),
            }
        }),
{
}

/// Sending fails without a change where the working directory is no
/// directory (`NotDirectory` with its name) or has no entry of the record's
/// name (`NotFound` with that name); where the path then fails, the name has
/// left the working directory and the error is where the path ends.
pub proof fn law_send_fails_where_path_ends(t: TableView, rid: int, to: Seq<Seq<char>>)
    ensures
        ({
            let rec = t.meta.entries[rid];
            let w = t.working_dir_id as int;
            let wd = t.meta.entries[w];
            let out = send_spec(t, rid, to);
            match wd.inner {
                InnerView::Directory(l) => if listing_get(l, rec.name) is None {
                    out == (t, Err::<(), ErrorView>(ErrorView::NotFound { name: rec.name }))
                } else {
                    let e1 = t.meta.entries.update(
                        w,
                        RecordView { inner: InnerView::Directory(listing_remove(l, rec.name)), ..wd },
                    );
                    walk_spec(e1, 0, to, rec.name) matches Err(err) ==> out == (
                        t.with_entries(e1),
                        Err::<(), ErrorView>(err),
                    )
                },
                _ => out == (t, Err::<(), ErrorView>(ErrorView::NotDirectory { name: wd.name })),
            }
        }),
{
}

proof fn lemma_walk_in_range(e: Seq<RecordView>, cur: usize, parts: Seq<Seq<char>>, name: Seq<char>, t: TableView)
    requires
        t.wf(),
        e.len() == t.meta.entries.len(),
        cur < e.len(),
        forall|i: int| 0 <= i < e.len() ==> (#[trigger] e[i]).inner is Directory ==> crate::record::ids_below(
            e[i].inner->Directory_0,
            e.len() as int,
        ),
    ensures
        walk_spec(e, cur, parts, name) matches Ok(d) ==> d < e.len(),
    decreases parts.len(),
{
    if parts.len() > 0 {
        if let InnerView::Directory(l) = e[cur as int].inner {
            if let Some(next) = listing_get(l, parts[0]) {
                let p = crate::record::position_of(l, parts[0])->Some_0;
                assert(l[p].1 < e.len());
                lemma_walk_in_range(e, next, parts.drop_first(), name, t);
            }
        }
    }
}

/// A record's size, once the measuring ends within some depth, is the same
/// at every greater depth.
pub proof fn law_size_settles(entries: Seq<RecordView>, r: RecordView, f1: nat, f2: nat)
    requires
        size_of(entries, r, f1) is Some,
        f1 <= f2,
    ensures
        size_of(entries, r, f2) == size_of(entries, r, f1),
    decreases f1, 0nat,
{
    if f1 > 0 {
        match r.inner {
            InnerView::Directory(l) => {
                lemma_dir_size_settles(entries, crate::record::listing_ids(l), (f1 - 1) as nat, (f2 - 1) as nat);
            },
            InnerView::Symlink(s) => {
                if !s.is_file {
                    law_size_settles(entries, entries[s.reference_record_id as int], (f1 - 1) as nat, (f2 - 1) as nat);
                }
            },
            _ => {},
        }
    }
}

proof fn lemma_dir_size_settles(entries: Seq<RecordView>, ids: Seq<usize>, f1: nat, f2: nat)
    requires
        dir_size(entries, ids, f1) is Some,
        f1 <= f2,
    ensures
        dir_size(entries, ids, f2) == dir_size(entries, ids, f1),
    decreases f1, ids.len() + 1,
{
    if ids.len() > 0 {
        lemma_dir_size_settles(entries, ids.drop_last(), f1, f2);
        if let Some(Ok(_)) = dir_size(entries, ids.drop_last(), f1) {
            law_size_settles(entries, entries[ids.last() as int], f1, f2);
        }
    }
}

} // verus!
