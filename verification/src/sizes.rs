//! Which records measuring a size looks at: measuring that never looks at a
//! record is blind to changes of it, and a directory whose size settles is
//! never met again while it is measured.
use vstd::prelude::*;
use crate::record::{listing_ids, InnerView, RecordView};
use crate::error::ErrorView;
use crate::table::{dir_size, size_of, targets_below};

verus! {

/// Measuring `r` within `fuel` levels never looks at the record `x`: no
/// directory entry met and no link target met is `x`.
pub open spec fn size_avoids(entries: Seq<RecordView>, r: RecordView, x: int, fuel: nat) -> bool
    decreases fuel, 0nat,
{
    if fuel == 0 {
        true
    } else {
        match r.inner {
            InnerView::Directory(l) => dir_avoids(entries, listing_ids(l), x, (fuel - 1) as nat),
            InnerView::Symlink(s) => s.reference_record_id != x && (s.is_file || size_avoids(
                entries,
                entries[s.reference_record_id as int],
                x,
                (fuel - 1) as nat,
            )),
            _ => true,
        }
    }
}

/// Measuring the records `ids`, each within `fuel` levels, never looks at
/// the record `x`.
pub open spec fn dir_avoids(entries: Seq<RecordView>, ids: Seq<usize>, x: int, fuel: nat) -> bool
    decreases fuel, ids.len() + 1,
{
    if ids.len() == 0 {
        true
    } else {
        &&& dir_avoids(entries, ids.drop_last(), x, fuel)
        &&& ids.last() != x
        &&& size_avoids(entries, entries[ids.last() as int], x, fuel)
    }
}

/// Following `d` steps of directory entries and links from `r` leads to the
/// record `x`.
pub open spec fn reaches_in(entries: Seq<RecordView>, r: RecordView, x: int, d: nat) -> bool
    decreases d,
{
    if d == 0 {
        false
    } else {
        match r.inner {
            InnerView::Directory(l) => exists|k: int|
                0 <= k < l.len() && ((d == 1 && #[trigger] l[k].1 == x) || reaches_in(
                    entries,
                    entries[l[k].1 as int],
                    x,
                    (d - 1) as nat,
                )),
            InnerView::Symlink(s) => (d == 1 && s.reference_record_id == x) || (!s.is_file && reaches_in(
                entries,
                entries[s.reference_record_id as int],
                x,
                (d - 1) as nat,
            )),
            _ => false,
        }
    }
}

/// A measurement that changes of the records `x` and `y` cannot reach gives
/// the same result after them.
pub proof fn lemma_size_frame(
    e: Seq<RecordView>,
    e2: Seq<RecordView>,
    r: RecordView,
    x: int,
    y: int,
    fuel: nat,
)
    requires
        e.len() <= e2.len(),
        forall|k: int| 0 <= k < e.len() && k != x && k != y ==> #[trigger] e2[k] == e[k],
        forall|k: int| 0 <= k < e.len() ==> targets_below(#[trigger] e[k], e.len() as int),
        targets_below(r, e.len() as int),
        size_avoids(e, r, x, fuel),
        size_avoids(e, r, y, fuel),
    ensures
        size_of(e2, r, fuel) == size_of(e, r, fuel),
    decreases fuel, 0nat,
{
    if fuel > 0 {
        match r.inner {
            InnerView::Directory(l) => {
                lemma_dir_size_frame(e, e2, listing_ids(l), x, y, (fuel - 1) as nat);
            },
            InnerView::Symlink(s) => {
                let t = s.reference_record_id as int;
                assert(e2[t] == e[t]);
                if !s.is_file {
                    lemma_size_frame(e, e2, e[t], x, y, (fuel - 1) as nat);
                }
            },
            _ => {},
        }
    }
}

/// A measurement of `ids` that changes of the records `x` and `y` cannot
/// reach gives the same result after them.
pub proof fn lemma_dir_size_frame(
    e: Seq<RecordView>,
    e2: Seq<RecordView>,
    ids: Seq<usize>,
    x: int,
    y: int,
    fuel: nat,
)
    requires
        e.len() <= e2.len(),
        forall|k: int| 0 <= k < e.len() && k != x && k != y ==> #[trigger] e2[k] == e[k],
        forall|k: int| 0 <= k < e.len() ==> targets_below(#[trigger] e[k], e.len() as int),
        forall|k: int| 0 <= k < ids.len() ==> #[trigger] ids[k] < e.len(),
        dir_avoids(e, ids, x, fuel),
        dir_avoids(e, ids, y, fuel),
    ensures
        dir_size(e2, ids, fuel) == dir_size(e, ids, fuel),
    decreases fuel, ids.len() + 1,
{
    if ids.len() > 0 {
        let c = ids.last() as int;
        assert(ids[ids.len() - 1] < e.len());
        assert forall|k: int| 0 <= k < ids.drop_last().len() implies #[trigger] ids.drop_last()[k] < e.len() by {
            assert(ids[k] < e.len());
        }
        lemma_dir_size_frame(e, e2, ids.drop_last(), x, y, fuel);
        assert(e2[c] == e[c]);
        lemma_size_frame(e, e2, e[c], x, y, fuel);
    }
}

/// A measurement of `ids` that succeeds measures each of them successfully.
proof fn lemma_dir_size_parts(e: Seq<RecordView>, ids: Seq<usize>, fuel: nat, k: int)
    requires
        dir_size(e, ids, fuel) matches Some(Ok(_)),
        0 <= k < ids.len(),
    ensures
        size_of(e, e[ids[k] as int], fuel) matches Some(Ok(_)),
    decreases ids.len(),
{
    if k < ids.len() - 1 {
        assert(ids.drop_last()[k] == ids[k]);
        lemma_dir_size_parts(e, ids.drop_last(), fuel, k);
    }
}

/// Where measuring `ids` looks at `x`, one of them is `x` or measuring it
/// looks at `x`.
proof fn lemma_dir_avoids_parts(e: Seq<RecordView>, ids: Seq<usize>, x: int, fuel: nat)
    requires
        !dir_avoids(e, ids, x, fuel),
    ensures
        exists|k: int|
            0 <= k < ids.len() && (#[trigger] ids[k] == x || !size_avoids(e, e[ids[k] as int], x, fuel)),
    decreases ids.len(),
{
    if ids.len() > 0 {
        if !dir_avoids(e, ids.drop_last(), x, fuel) {
            lemma_dir_avoids_parts(e, ids.drop_last(), x, fuel);
            let k = choose|k: int|
                0 <= k < ids.drop_last().len() && (#[trigger] ids.drop_last()[k] == x || !size_avoids(
                    e,
                    e[ids.drop_last()[k] as int],
                    x,
                    fuel,
                ));
            assert(ids[k] == ids.drop_last()[k]);
        } else {
            assert(ids[ids.len() - 1] == ids.last());
        }
    }
}

/// Where measuring `r` within `fuel` levels looks at `x`, some path of at
/// most `fuel` steps leads from `r` to `x`.
proof fn lemma_reaches_within(e: Seq<RecordView>, r: RecordView, x: int, fuel: nat)
    requires
        !size_avoids(e, r, x, fuel),
    ensures
        exists|d: nat| 1 <= d <= fuel && #[trigger] reaches_in(e, r, x, d),
    decreases fuel,
{
    match r.inner {
        InnerView::Directory(l) => {
            let ids = listing_ids(l);
            lemma_dir_avoids_parts(e, ids, x, (fuel - 1) as nat);
            let k = choose|k: int|
                0 <= k < ids.len() && (#[trigger] ids[k] == x || !size_avoids(e, e[ids[k] as int], x, (fuel
                    - 1) as nat));
            assert(ids[k] == l[k].1);
            if ids[k] == x {
                assert(reaches_in(e, r, x, 1));
            } else {
                lemma_reaches_within(e, e[ids[k] as int], x, (fuel - 1) as nat);
                let d = choose|d: nat| 1 <= d <= fuel - 1 && #[trigger] reaches_in(e, e[ids[k] as int], x, d);
                assert(reaches_in(e, r, x, d + 1));
            }
        },
        InnerView::Symlink(s) => {
            if s.reference_record_id == x {
                assert(reaches_in(e, r, x, 1));
            } else {
                let t = e[s.reference_record_id as int];
                lemma_reaches_within(e, t, x, (fuel - 1) as nat);
                let d = choose|d: nat| 1 <= d <= fuel - 1 && #[trigger] reaches_in(e, t, x, d);
                assert(reaches_in(e, r, x, d + 1));
            }
        },
        _ => {},
    }
}

/// Where a successful measurement of `r` within `fuel` levels meets the
/// record `x` (no file) after `d` steps, it measures `x` successfully with
/// the `fuel - d` levels left.
proof fn lemma_reached_measured(e: Seq<RecordView>, r: RecordView, x: int, d: nat, fuel: nat)
    requires
        reaches_in(e, r, x, d),
        size_of(e, r, fuel) matches Some(Ok(_)),
        !(e[x].inner is File),
    ensures
        d < fuel,
        size_of(e, e[x], (fuel - d) as nat) matches Some(Ok(_)),
    decreases d,
{
    match r.inner {
        InnerView::Directory(l) => {
            let ids = listing_ids(l);
            let k = choose|k: int|
                0 <= k < l.len() && ((d == 1 && #[trigger] l[k].1 == x) || reaches_in(
                    e,
                    e[l[k].1 as int],
                    x,
                    (d - 1) as nat,
                ));
            assert(ids[k] == l[k].1);
            lemma_dir_size_parts(e, ids, (fuel - 1) as nat, k);
            if d == 1 && l[k].1 == x {
            } else {
                lemma_reached_measured(e, e[l[k].1 as int], x, (d - 1) as nat, (fuel - 1) as nat);
            }
        },
        InnerView::Symlink(s) => {
            let t = s.reference_record_id as int;
            if !s.is_file {
                if d == 1 && t == x {
                } else {
                    lemma_reached_measured(e, e[t], x, (d - 1) as nat, (fuel - 1) as nat);
                }
            }
        },
        _ => {},
    }
}

/// A record (no file) from which a path leads back to itself is never
/// measured successfully.
proof fn lemma_cycle_never_settles(e: Seq<RecordView>, x: int, d: nat, fuel: nat)
    requires
        reaches_in(e, e[x], x, d),
        !(e[x].inner is File),
    ensures
        !(size_of(e, e[x], fuel) matches Some(Ok(_))),
    decreases fuel,
{
    if size_of(e, e[x], fuel) matches Some(Ok(_)) {
        lemma_reached_measured(e, e[x], x, d, fuel);
        lemma_cycle_never_settles(e, x, d, (fuel - d) as nat);
    }
}

/// Measuring a record (no file) successfully never meets that record again.
pub proof fn lemma_settled_avoids_itself(e: Seq<RecordView>, x: int, fuel: nat)
    requires
        size_of(e, e[x], fuel) matches Some(Ok(_)),
        !(e[x].inner is File),
    ensures
        size_avoids(e, e[x], x, fuel),
{
    if !size_avoids(e, e[x], x, fuel) {
        lemma_reaches_within(e, e[x], x, fuel);
        let d = choose|d: nat| 1 <= d <= fuel && #[trigger] reaches_in(e, e[x], x, d);
        lemma_cycle_never_settles(e, x, d, fuel);
    }
}

/// Measuring never looks at a record past the end of the table, when every
/// id it meets names a record.
pub proof fn lemma_avoids_past_end(e: Seq<RecordView>, r: RecordView, fuel: nat)
    requires
        forall|k: int| 0 <= k < e.len() ==> targets_below(#[trigger] e[k], e.len() as int),
        targets_below(r, e.len() as int),
    ensures
        size_avoids(e, r, e.len() as int, fuel),
    decreases fuel, 0nat,
{
    if fuel > 0 {
        match r.inner {
            InnerView::Directory(l) => {
                let ids = listing_ids(l);
                assert forall|k: int| 0 <= k < ids.len() implies #[trigger] ids[k] < e.len() by {
                    assert(ids[k] == l[k].1);
                }
                lemma_dir_avoids_past_end(e, ids, (fuel - 1) as nat);
            },
            InnerView::Symlink(s) => {
                if !s.is_file {
                    lemma_avoids_past_end(e, e[s.reference_record_id as int], (fuel - 1) as nat);
                }
            },
            _ => {},
        }
    }
}

proof fn lemma_dir_avoids_past_end(e: Seq<RecordView>, ids: Seq<usize>, fuel: nat)
    requires
        forall|k: int| 0 <= k < e.len() ==> targets_below(#[trigger] e[k], e.len() as int),
        forall|k: int| 0 <= k < ids.len() ==> #[trigger] ids[k] < e.len(),
    ensures
        dir_avoids(e, ids, e.len() as int, fuel),
    decreases fuel, ids.len() + 1,
{
    if ids.len() > 0 {
        assert forall|k: int| 0 <= k < ids.drop_last().len() implies #[trigger] ids.drop_last()[k] < e.len() by {
            assert(ids[k] < e.len());
        }
        lemma_dir_avoids_past_end(e, ids.drop_last(), fuel);
        assert(ids[ids.len() - 1] < e.len());
        lemma_avoids_past_end(e, e[ids.last() as int], fuel);
    }
}

/// Replacing the empty record `y` by a file of no bytes, and changing the
/// record `x` that the measurement never looks at, leaves every successful
/// measurement as it was.
pub proof fn lemma_size_fill_empty(
    e: Seq<RecordView>,
    e2: Seq<RecordView>,
    r: RecordView,
    x: int,
    y: int,
    fuel: nat,
    n: usize,
)
    requires
        e.len() <= e2.len(),
        0 <= y < e.len(),
        forall|k: int| 0 <= k < e.len() && k != x && k != y ==> #[trigger] e2[k] == e[k],
        forall|k: int| 0 <= k < e.len() ==> targets_below(#[trigger] e[k], e.len() as int),
        targets_below(r, e.len() as int),
        e[y].inner is Empty,
        e2[y].inner matches InnerView::File(f) && f.size == 0,
        size_avoids(e, r, x, fuel),
        size_of(e, r, fuel) == Some(Ok::<usize, ErrorView>(n)),
    ensures
        size_of(e2, r, fuel) == Some(Ok::<usize, ErrorView>(n)),
    decreases fuel, 0nat,
{
    match r.inner {
        InnerView::Directory(l) => {
            let ids = listing_ids(l);
            assert forall|k: int| 0 <= k < ids.len() implies #[trigger] ids[k] < e.len() by {
                assert(ids[k] == l[k].1);
            }
            assert(fuel > 0);
            assert(size_of(e, r, fuel) == dir_size(e, ids, (fuel - 1) as nat));
            lemma_dir_size_fill_empty(e, e2, ids, x, y, (fuel - 1) as nat, n);
            assert(size_of(e2, r, fuel) == dir_size(e2, ids, (fuel - 1) as nat));
        },
        InnerView::Symlink(s) => {
            let t = s.reference_record_id as int;
            assert(fuel > 0);
            if t != y {
                assert(e2[t] == e[t]);
                if !s.is_file {
                    lemma_size_fill_empty(e, e2, e[t], x, y, (fuel - 1) as nat, n);
                }
            } else if !s.is_file {
                assert(size_of(e, r, fuel) == size_of(e, e[y], (fuel - 1) as nat));
                assert(size_of(e2, r, fuel) == size_of(e2, e2[y], (fuel - 1) as nat));
            }
        },
        _ => {},
    }
}

/// Replacing the empty record `y` by a file of no bytes, and changing the
/// record `x` that measuring `ids` never looks at, leaves every successful
/// measurement of `ids` as it was.
pub proof fn lemma_dir_size_fill_empty(
    e: Seq<RecordView>,
    e2: Seq<RecordView>,
    ids: Seq<usize>,
    x: int,
    y: int,
    fuel: nat,
    n: usize,
)
    requires
        e.len() <= e2.len(),
        0 <= y < e.len(),
        forall|k: int| 0 <= k < e.len() && k != x && k != y ==> #[trigger] e2[k] == e[k],
        forall|k: int| 0 <= k < e.len() ==> targets_below(#[trigger] e[k], e.len() as int),
        e[y].inner is Empty,
        e2[y].inner matches InnerView::File(f) && f.size == 0,
        forall|k: int| 0 <= k < ids.len() ==> #[trigger] ids[k] < e.len(),
        dir_avoids(e, ids, x, fuel),
        dir_size(e, ids, fuel) == Some(Ok::<usize, ErrorView>(n)),
    ensures
        dir_size(e2, ids, fuel) == Some(Ok::<usize, ErrorView>(n)),
    decreases fuel, ids.len() + 1,
{
    if ids.len() > 0 {
        let c = ids.last() as int;
        assert(ids[ids.len() - 1] < e.len());
        assert forall|k: int| 0 <= k < ids.drop_last().len() implies #[trigger] ids.drop_last()[k] < e.len() by {
            assert(ids[k] < e.len());
        }
        let a = dir_size(e, ids.drop_last(), fuel)->Some_0->Ok_0;
        let b = size_of(e, e[c], fuel)->Some_0->Ok_0;
        lemma_dir_size_fill_empty(e, e2, ids.drop_last(), x, y, fuel, a);
        if c == y {
            assert(size_of(e2, e2[c], fuel) == Some(Ok::<usize, ErrorView>(0)));
        } else {
            assert(e2[c] == e[c]);
            lemma_size_fill_empty(e, e2, e[c], x, y, fuel, b);
        }
    }
}

} // verus!
