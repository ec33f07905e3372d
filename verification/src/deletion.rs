//! Which records deleting takes out, and what deleting keeps of the reusable
//! ids: they stay distinct and name empty records, as long as deleting takes
//! out no record twice and none that is already reusable.
use vstd::prelude::*;
use crate::record::{empty_record_view, listing_ids, InnerView, RecordView};
use crate::table::{delete_all, delete_spec, targets_below, MetaView, TableView};

verus! {

broadcast use {vstd::seq_lib::lemma_seq_concat_contains_all_elements, vstd::seq_lib::lemma_seq_contains_after_push};

/// The reusable ids are distinct and each names an empty record.
pub open spec fn reusable_ok(m: MetaView) -> bool {
    &&& m.empty_records.no_duplicates()
    &&& forall|k: int|
        0 <= k < m.empty_records.len() ==> #[trigger] m.empty_records[k] < m.entries.len()
            && m.entries[m.empty_records[k] as int] == empty_record_view()
}

/// The records that deleting the record `rid` within `fuel` levels takes
/// out, in order: for a directory those that deleting its entries takes out,
/// entry by entry in listing order, and then the directory itself.
pub open spec fn deletion_order(e: Seq<RecordView>, rid: int, fuel: nat) -> Seq<usize>
    decreases fuel, 0nat,
{
    if fuel == 0 {
        Seq::empty()
    } else {
        match e[rid].inner {
            InnerView::Directory(l) => deletion_order_all(e, listing_ids(l), (fuel - 1) as nat).push(
                rid as usize,
            ),
            _ => seq![rid as usize],
        }
    }
}

/// The records that deleting the records `ids` one by one, each within
/// `fuel` levels, takes out, in order.
pub open spec fn deletion_order_all(e: Seq<RecordView>, ids: Seq<usize>, fuel: nat) -> Seq<usize>
    decreases fuel, ids.len() + 1,
{
    if ids.len() == 0 {
        Seq::empty()
    } else {
        deletion_order_all(e, ids.drop_last(), fuel) + deletion_order(e, ids.last() as int, fuel)
    }
}

/// Every directory among the records is stored under its own id, and every
/// record it refers to exists.
pub open spec fn order_sound(e: Seq<RecordView>, order: Seq<usize>) -> bool {
    forall|x: usize|
        #[trigger] order.contains(x) ==> {
            &&& x < e.len()
            &&& targets_below(e[x as int], e.len() as int)
            &&& e[x as int].inner is Directory ==> e[x as int].id == x
        }
}

/// Every record that deleting takes out exists, where every record the
/// table's records refer to exists.
pub proof fn lemma_order_in_range(e: Seq<RecordView>, rid: usize, fuel: nat)
    requires
        forall|k: int| 0 <= k < e.len() ==> targets_below(#[trigger] e[k], e.len() as int),
        rid < e.len(),
    ensures
        forall|x: usize| #[trigger] deletion_order(e, rid as int, fuel).contains(x) ==> x < e.len(),
    decreases fuel, 0nat,
{
    if fuel > 0 {
        if let InnerView::Directory(l) = e[rid as int].inner {
            let ids = listing_ids(l);
            assert(targets_below(e[rid as int], e.len() as int));
            assert forall|k: int| 0 <= k < ids.len() implies #[trigger] ids[k] < e.len() by {
                assert(ids[k] == l[k].1);
            }
            lemma_order_all_in_range(e, ids, (fuel - 1) as nat);
            assert(deletion_order(e, rid as int, fuel) == deletion_order_all(e, ids, (fuel - 1) as nat).push(rid));
        } else {
            assert(deletion_order(e, rid as int, fuel) == seq![rid]);
            assert(seq![rid] == Seq::<usize>::empty().push(rid));
        }
    }
}

proof fn lemma_order_all_in_range(e: Seq<RecordView>, ids: Seq<usize>, fuel: nat)
    requires
        forall|k: int| 0 <= k < e.len() ==> targets_below(#[trigger] e[k], e.len() as int),
        forall|k: int| 0 <= k < ids.len() ==> #[trigger] ids[k] < e.len(),
    ensures
        forall|x: usize| #[trigger] deletion_order_all(e, ids, fuel).contains(x) ==> x < e.len(),
    decreases fuel, ids.len() + 1,
{
    if ids.len() > 0 {
        assert forall|k: int| 0 <= k < ids.drop_last().len() implies #[trigger] ids.drop_last()[k] < e.len() by {
            assert(ids[k] < e.len());
        }
        assert(ids[ids.len() - 1] < e.len());
        lemma_order_all_in_range(e, ids.drop_last(), fuel);
        lemma_order_in_range(e, ids.last(), fuel);
        let a = deletion_order_all(e, ids.drop_last(), fuel);
        let b = deletion_order(e, ids.last() as int, fuel);
        assert(deletion_order_all(e, ids, fuel) == a + b);
    }
}

proof fn lemma_concat_parts(a: Seq<usize>, b: Seq<usize>)
    requires
        (a + b).no_duplicates(),
    ensures
        a.no_duplicates(),
        b.no_duplicates(),
        forall|x: usize| a.contains(x) ==> !b.contains(x),
{
    let c = a + b;
    assert forall|i: int, j: int| 0 <= i < a.len() && 0 <= j < a.len() && i != j implies a[i] != a[j] by {
        assert(c[i] == a[i] && c[j] == a[j]);
    }
    assert forall|i: int, j: int| 0 <= i < b.len() && 0 <= j < b.len() && i != j implies b[i] != b[j] by {
        assert(c[a.len() + i] == b[i] && c[a.len() + j] == b[j]);
    }
    assert forall|x: usize| a.contains(x) implies !b.contains(x) by {
        if b.contains(x) {
            let i = choose|i: int| 0 <= i < a.len() && a[i] == x;
            let j = choose|j: int| 0 <= j < b.len() && b[j] == x;
            assert(c[i] == x && c[a.len() + j] == x);
        }
    }
}

proof fn lemma_push_parts(a: Seq<usize>, x: usize)
    requires
        a.push(x).no_duplicates(),
    ensures
        a.no_duplicates(),
        !a.contains(x),
{
    let c = a.push(x);
    assert forall|i: int, j: int| 0 <= i < a.len() && 0 <= j < a.len() && i != j implies a[i] != a[j] by {
        assert(c[i] == a[i] && c[j] == a[j]);
    }
    if a.contains(x) {
        let i = choose|i: int| 0 <= i < a.len() && a[i] == x;
        assert(c[i] == x && c[a.len() as int] == x);
    }
}

/// The records that deleting takes out depend only on those records.
proof fn lemma_order_frame(e: Seq<RecordView>, e2: Seq<RecordView>, rid: int, fuel: nat)
    requires
        forall|x: usize| #[trigger] deletion_order(e, rid, fuel).contains(x) ==> e2[x as int] == e[x as int],
        0 <= rid <= usize::MAX,
    ensures
        deletion_order(e2, rid, fuel) == deletion_order(e, rid, fuel),
    decreases fuel, 0nat,
{
    if fuel > 0 {
        let o = deletion_order(e, rid, fuel);
        assert(o.contains(rid as usize)) by {
            assert(o[o.len() - 1] == rid as usize);
        }
        assert(e2[rid] == e[rid]);
        if let InnerView::Directory(l) = e[rid].inner {
            let inner = deletion_order_all(e, listing_ids(l), (fuel - 1) as nat);
            assert(o == inner.push(rid as usize));
            assert forall|x: usize| #[trigger] inner.contains(x) implies e2[x as int] == e[x as int] by {
                assert(o.contains(x));
            }
            lemma_order_all_frame(e, e2, listing_ids(l), (fuel - 1) as nat);
        }
    }
}

proof fn lemma_order_all_frame(e: Seq<RecordView>, e2: Seq<RecordView>, ids: Seq<usize>, fuel: nat)
    requires
        forall|x: usize| #[trigger] deletion_order_all(e, ids, fuel).contains(x) ==> e2[x as int] == e[x as int],
    ensures
        deletion_order_all(e2, ids, fuel) == deletion_order_all(e, ids, fuel),
    decreases fuel, ids.len() + 1,
{
    if ids.len() > 0 {
        let a = deletion_order_all(e, ids.drop_last(), fuel);
        let b = deletion_order(e, ids.last() as int, fuel);
        assert(deletion_order_all(e, ids, fuel) == a + b);
        assert forall|x: usize| #[trigger] a.contains(x) implies e2[x as int] == e[x as int] by {
            assert((a + b).contains(x));
        }
        assert forall|x: usize| #[trigger] b.contains(x) implies e2[x as int] == e[x as int] by {
            assert((a + b).contains(x));
        }
        lemma_order_all_frame(e, e2, ids.drop_last(), fuel);
        lemma_order_frame(e, e2, ids.last() as int, fuel);
    }
}

/// The reusable ids of `t2` are those of `t` followed by ids among `order`.
pub open spec fn grown_within(t: TableView, t2: TableView, order: Seq<usize>) -> bool {
    let n = t.meta.empty_records.len();
    &&& t2.meta.empty_records.len() >= n
    &&& forall|i: int| 0 <= i < n ==> #[trigger] t2.meta.empty_records[i] == t.meta.empty_records[i]
    &&& forall|i: int| n <= i < t2.meta.empty_records.len() ==> order.contains(#[trigger] t2.meta.empty_records[i])
}

/// Every record of `t2` that is neither among `order` nor `keep` is that of
/// `t`, and there are as many.
pub open spec fn changed_within(t: TableView, t2: TableView, order: Seq<usize>, keep: int) -> bool {
    &&& t2.meta.entries.len() == t.meta.entries.len()
    &&& forall|k: int|
        0 <= k < t.meta.entries.len() && k != keep && !order.contains(k as usize) ==> #[trigger] t2.meta.entries[k]
            == t.meta.entries[k]
}

/// Deleting a record, where deleting takes out no record twice and none that
/// is reusable, keeps the reusable ids distinct and naming empty records;
/// it adds only ids it takes out, and changes no record but those and the
/// working directory.
pub proof fn lemma_delete_keeps(t: TableView, rid: usize, fuel: nat)
    requires
        rid < t.meta.entries.len(),
        t.working_dir_id < t.meta.entries.len(),
        order_sound(t.meta.entries, deletion_order(t.meta.entries, rid as int, fuel)),
        deletion_order(t.meta.entries, rid as int, fuel).no_duplicates(),
        forall|x: usize| #[trigger] deletion_order(t.meta.entries, rid as int, fuel).contains(x)
            ==> !t.meta.empty_records.contains(x),
        reusable_ok(t.meta),
    ensures
        delete_spec(t, rid as int, fuel) matches Some((t2, _, r)) ==> {
            &&& reusable_ok(t2.meta)
            &&& grown_within(t, t2, deletion_order(t.meta.entries, rid as int, fuel))
            &&& changed_within(t, t2, deletion_order(t.meta.entries, rid as int, fuel), t.working_dir_id as int)
            &&& (r is Ok ==> t2.working_dir_id == t.working_dir_id)
        },
    decreases fuel, 0nat,
{
    if fuel > 0 {
        let e = t.meta.entries;
        let order = deletion_order(e, rid as int, fuel);
        let rec = e[rid as int];
        assert(order.contains(rid)) by {
            assert(order[order.len() - 1] == rid);
        }
        let step: Option<crate::table::DeleteOutcome> = match rec.inner {
            InnerView::File(f) => Some(
                (
                    t.with_meta(
                        MetaView {
                            free_fragments: crate::fragments::release_spec(t.meta.free_fragments, f.offset, f.len),
                            ..t.meta
                        },
                    ),
                    seq![(f.offset, f.len)],
                    Ok(()),
                ),
            ),
            InnerView::Directory(l) => match delete_all(
                TableView { working_dir_id: rec.id, ..t },
                listing_ids(l),
                (fuel - 1) as nat,
            ) {
                Some((t2, w, Ok(()))) => Some((TableView { working_dir_id: t.working_dir_id, ..t2 }, w, Ok(()))),
                other => other,
            },
            _ => Some((t, Seq::empty(), Ok(()))),
        };
        // the ids that the entries' deletion may add: none for a record that is
        // no directory, else those that deleting its entries takes out
        let inner: Seq<usize> = match rec.inner {
            InnerView::Directory(l) => deletion_order_all(e, listing_ids(l), (fuel - 1) as nat),
            _ => Seq::empty(),
        };
        assert(order =~= inner.push(rid));
        lemma_push_parts(inner, rid);
        assert forall|x: usize| #[trigger] inner.contains(x) implies order.contains(x) by {}
        if let InnerView::Directory(l) = rec.inner {
            let ids = listing_ids(l);
            assert(rec.id == rid);
            assert(targets_below(rec, e.len() as int));
            assert forall|k: int| 0 <= k < ids.len() implies #[trigger] ids[k] < e.len() by {
                assert(ids[k] == l[k].1);
            }
            let tw = TableView { working_dir_id: rec.id, ..t };
            assert forall|x: usize| #[trigger] inner.contains(x) implies !t.meta.empty_records.contains(x)
                && x != rid by {
                assert(order.contains(x));
            }
            lemma_delete_all_keeps(tw, ids, (fuel - 1) as nat);
        }
        // what the entries' deletion, if any, left
        if let Some((t1, w1, r1)) = step {
            assert(reusable_ok(t1.meta));
            assert(grown_within(t, t1, inner));
            assert(changed_within(t, t1, inner, rid as int));
            assert(grown_within(t, t1, order)) by {
                assert forall|i: int| t.meta.empty_records.len() <= i < t1.meta.empty_records.len() implies order.contains(
                    #[trigger] t1.meta.empty_records[i],
                ) by {
                    assert(inner.contains(t1.meta.empty_records[i]));
                }
            }
            assert(changed_within(t, t1, order, t.working_dir_id as int));
            if r1 is Ok {
                assert(t1.working_dir_id == t.working_dir_id);
                let m1 = t1.meta;
                let wdi = t1.working_dir_id as int;
                let em = m1.empty_records;
                assert forall|k: int| 0 <= k < em.len() implies #[trigger] em[k] != rid by {
                    if k < t.meta.empty_records.len() {
                        assert(t.meta.empty_records.contains(t.meta.empty_records[k]));
                    } else {
                        assert(inner.contains(em[k]));
                    }
                }
                let (t2, w2, r2) = crate::table::delete_finish(t1, rid as int, rec, w1);
                assert(delete_spec(t, rid as int, fuel) == Some((t2, w2, r2)));
                if let InnerView::Directory(wl) = m1.entries[wdi].inner {
                    if crate::record::listing_get(wl, rec.name) is Some {
                        assert forall|k: int| 0 <= k < em.len() implies #[trigger] em[k] as int != wdi by {
                            assert(m1.entries[em[k] as int] == empty_record_view());
                        }
                        let e2 = t2.meta.entries;
                        let em2 = t2.meta.empty_records;
                        assert(em2 == em.push(rid));
                        assert forall|k: int| 0 <= k < em2.len() implies e2[#[trigger] em2[k] as int]
                            == empty_record_view() by {
                            if k < em.len() {
                                assert(em2[k] == em[k]);
                                assert(em[k] < m1.entries.len());
                            }
                        }
                        assert forall|i: int, j: int| 0 <= i < em2.len() && 0 <= j < em2.len() && i != j implies em2[i]
                            != em2[j] by {
                            if i < em.len() && j < em.len() {
                                assert(em2[i] == em[i] && em2[j] == em[j]);
                            } else if i < em.len() {
                                assert(em2[i] == em[i]);
                            } else if j < em.len() {
                                assert(em2[j] == em[j]);
                            }
                        }
                        assert(grown_within(t, t2, order)) by {
                            assert forall|i: int| t.meta.empty_records.len() <= i < em2.len() implies order.contains(
                                #[trigger] em2[i],
                            ) by {
                                if i < em.len() {
                                    assert(em2[i] == em[i]);
                                }
                            }
                            assert forall|i: int| 0 <= i < t.meta.empty_records.len() implies #[trigger] em2[i]
                                == t.meta.empty_records[i] by {
                                assert(em2[i] == em[i]);
                            }
                        }
                        assert(changed_within(t, t2, order, t.working_dir_id as int)) by {
                            assert forall|k: int|
                                0 <= k < e.len() && k != t.working_dir_id && !order.contains(k as usize)
                                implies #[trigger] e2[k] == e[k] by {
                                assert(k != rid);
                                assert(e2[k] == m1.entries[k]);
                            }
                        }
                    }
                }
            }
        }
    }
}

/// Deleting the records `ids` one by one, where deleting takes out no record
/// twice, none that is reusable and not the working directory, keeps the
/// reusable ids distinct and naming empty records; it adds only ids it takes
/// out, and changes no record but those and the working directory.
proof fn lemma_delete_all_keeps(t: TableView, ids: Seq<usize>, fuel: nat)
    requires
        forall|k: int| 0 <= k < ids.len() ==> #[trigger] ids[k] < t.meta.entries.len(),
        t.working_dir_id < t.meta.entries.len(),
        order_sound(t.meta.entries, deletion_order_all(t.meta.entries, ids, fuel)),
        deletion_order_all(t.meta.entries, ids, fuel).no_duplicates(),
        forall|x: usize| #[trigger] deletion_order_all(t.meta.entries, ids, fuel).contains(x)
            ==> !t.meta.empty_records.contains(x) && x != t.working_dir_id,
        reusable_ok(t.meta),
    ensures
        delete_all(t, ids, fuel) matches Some((t2, _, r)) ==> {
            &&& reusable_ok(t2.meta)
            &&& grown_within(t, t2, deletion_order_all(t.meta.entries, ids, fuel))
            &&& changed_within(t, t2, deletion_order_all(t.meta.entries, ids, fuel), t.working_dir_id as int)
            &&& (r is Ok ==> t2.working_dir_id == t.working_dir_id)
        },
    decreases fuel, ids.len() + 1,
{
    if ids.len() > 0 {
        let e = t.meta.entries;
        let all = deletion_order_all(e, ids, fuel);
        let a = deletion_order_all(e, ids.drop_last(), fuel);
        let c = ids.last() as int;
        let b = deletion_order(e, c, fuel);
        assert(all == a + b);
        lemma_concat_parts(a, b);
        assert forall|k: int| 0 <= k < ids.drop_last().len() implies #[trigger] ids.drop_last()[k] < e.len() by {
            assert(ids[k] < e.len());
        }
        assert forall|x: usize| #[trigger] a.contains(x) implies all.contains(x) by {}
        assert forall|x: usize| #[trigger] b.contains(x) implies all.contains(x) by {}
        lemma_delete_all_keeps(t, ids.drop_last(), fuel);
        if let Some((t1, w1, Ok(()))) = delete_all(t, ids.drop_last(), fuel) {
            let e1 = t1.meta.entries;
            assert(ids[ids.len() - 1] < e.len());
            assert forall|x: usize| #[trigger] b.contains(x) implies e1[x as int] == e[x as int] by {
                assert(all.contains(x));
                assert(!a.contains(x));
                assert(x < e.len());
            }
            lemma_order_frame(e, e1, c, fuel);
            assert(deletion_order(e1, c, fuel) == b);
            assert forall|x: usize| #[trigger] b.contains(x) implies !t1.meta.empty_records.contains(x) by {
                assert(all.contains(x));
                if t1.meta.empty_records.contains(x) {
                    let i = choose|i: int| 0 <= i < t1.meta.empty_records.len() && t1.meta.empty_records[i] == x;
                    if i < t.meta.empty_records.len() {
                        assert(t.meta.empty_records[i] == x);
                        assert(t.meta.empty_records.contains(x));
                    } else {
                        assert(a.contains(x));
                    }
                }
            }
            assert(order_sound(e1, b)) by {
                assert forall|x: usize| #[trigger] b.contains(x) implies {
                    &&& x < e1.len()
                    &&& targets_below(e1[x as int], e1.len() as int)
                    &&& e1[x as int].inner is Directory ==> e1[x as int].id == x
                } by {
                    assert(all.contains(x));
                    assert(!a.contains(x));
                }
            }
            lemma_delete_keeps(t1, ids.last(), fuel);
            if let Some((t2, w2, r)) = delete_spec(t1, c, fuel) {
                assert(grown_within(t, t2, all)) by {
                    let n = t.meta.empty_records.len();
                    let n1 = t1.meta.empty_records.len();
                    assert forall|i: int| n <= i < t2.meta.empty_records.len() implies all.contains(
                        #[trigger] t2.meta.empty_records[i],
                    ) by {
                        if i < n1 {
                            assert(t2.meta.empty_records[i] == t1.meta.empty_records[i]);
                            assert(a.contains(t1.meta.empty_records[i]));
                        } else {
                            assert(b.contains(t2.meta.empty_records[i]));
                        }
                    }
                    assert forall|i: int| 0 <= i < n implies #[trigger] t2.meta.empty_records[i]
                        == t.meta.empty_records[i] by {
                        assert(t2.meta.empty_records[i] == t1.meta.empty_records[i]);
                    }
                }
                assert(changed_within(t, t2, all, t.working_dir_id as int)) by {
                    assert forall|k: int|
                        0 <= k < e.len() && k != t.working_dir_id && !all.contains(k as usize) implies #[trigger] t2.meta.entries[k]
                        == e[k] by {
                        assert(!a.contains(k as usize) && !b.contains(k as usize));
                        assert(t2.meta.entries[k] == e1[k]);
                    }
                }
            }
        }
    }
}

} // verus!
