//! How free extents lie apart: extents that do not overlap come out of
//! merging in separate runs, grouped by size with increasing offsets, and the
//! free space can be asked whether any two of its extents overlap.
use vstd::prelude::*;
use crate::fragments::{
    flatten, group_by_size, group_insert, lemma_count_below, lemma_group_by_size, lemma_runs,
    lemma_sort_pairs, lemma_split_exists, offsets_at, pair_le, pairs_fit, pairs_sorted, runs,
    sizes_increasing, sort_pairs, splits_at, FragmentsView,
};

verus! {

/// The extents `x` and `y` share no byte: one of them is empty, or one ends
/// no later than the other begins.
pub open spec fn apart(x: (usize, usize), y: (usize, usize)) -> bool {
    x.1 == 0 || y.1 == 0 || x.0 + x.1 <= y.0 || y.0 + y.1 <= x.0
}

/// No two of the extents overlap (an extent listed twice overlaps itself),
/// and none is empty.
pub open spec fn extents_apart(s: Seq<(usize, usize)>) -> bool {
    &&& forall|i: int, j: int|
        0 <= i < s.len() && 0 <= j < s.len() && i != j ==> apart(#[trigger] s[i], #[trigger] s[j])
    &&& forall|i: int| 0 <= i < s.len() ==> #[trigger] s[i].1 > 0
}

/// The extents lie in increasing order, each ending no later than the next
/// begins, and none is empty.
pub open spec fn ordered_apart(s: Seq<(usize, usize)>) -> bool {
    &&& forall|i: int, j: int| #![trigger s[i], s[j]] 0 <= i < j < s.len() ==> s[i].0 + s[i].1 <= s[j].0
    &&& forall|i: int| 0 <= i < s.len() ==> #[trigger] s[i].1 > 0
}

/// The extents lie in increasing order with a gap between any two, and none
/// is empty.
pub open spec fn runs_separate(s: Seq<(usize, usize)>) -> bool {
    &&& forall|i: int, j: int| #![trigger s[i], s[j]] 0 <= i < j < s.len() ==> s[i].0 + s[i].1 < s[j].0
    &&& forall|i: int| 0 <= i < s.len() ==> #[trigger] s[i].1 > 0
}

/// No free extent begins where one (itself included) ends.
pub open spec fn none_adjacent(f: FragmentsView) -> bool {
    forall|i: int, a: int, j: int, b: int|
        #![trigger f[i].1[a], f[j].1[b]]
        0 <= i < f.len() && 0 <= a < f[i].1.len() && 0 <= j < f.len() && 0 <= b < f[j].1.len()
            ==> f[i].1[a] + f[i].0 != f[j].1[b]
}

/// Within each group the offsets strictly increase.
pub open spec fn offsets_increasing(f: FragmentsView) -> bool {
    forall|i: int, a: int, b: int|
        #![trigger f[i].1[a], f[i].1[b]]
        0 <= i < f.len() && 0 <= a < b < f[i].1.len() ==> f[i].1[a] < f[i].1[b]
}

/// Sorting extents that do not overlap puts them in increasing order, each
/// ending no later than the next begins.
pub proof fn lemma_sorted_apart(flat: Seq<(usize, usize)>)
    requires
        extents_apart(flat),
    ensures
        ordered_apart(sort_pairs(flat)),
{
    broadcast use vstd::seq_lib::group_to_multiset_ensures;
    broadcast use vstd::multiset::group_multiset_axioms;
    lemma_sort_pairs(flat);
    let s = sort_pairs(flat);
    assert forall|i: int, j: int| 0 <= i < flat.len() && 0 <= j < flat.len() && i != j implies flat[i]
        != flat[j] by {
        assert(apart(flat[i], flat[j]));
        assert(flat[i].1 > 0);
    }
    assert(flat.no_duplicates());
    flat.lemma_multiset_has_no_duplicates();
    s.lemma_multiset_has_no_duplicates_conv();
    assert forall|i: int, j: int| #![trigger s[i], s[j]] 0 <= i < j < s.len() implies s[i].0 + s[i].1
        <= s[j].0 by {
        assert(s.contains(s[i]));
        assert(s.contains(s[j]));
        assert(flat.contains(s[i]));
        assert(flat.contains(s[j]));
        let a = choose|a: int| 0 <= a < flat.len() && flat[a] == s[i];
        let b = choose|b: int| 0 <= b < flat.len() && flat[b] == s[j];
        assert(s[i] != s[j]);
        assert(apart(flat[a], flat[b]));
        assert(flat[a].1 > 0 && flat[b].1 > 0);
        assert(pair_le(s[i], s[j]));
    }
    assert forall|i: int| 0 <= i < s.len() implies #[trigger] s[i].1 > 0 by {
        assert(s.contains(s[i]));
        assert(flat.contains(s[i]));
        let a = choose|a: int| 0 <= a < flat.len() && flat[a] == s[i];
        assert(flat[a].1 > 0);
    }
}

/// The runs of ordered extents lie in increasing order with a gap between
/// any two.
pub proof fn lemma_runs_separate(s: Seq<(usize, usize)>)
    requires
        ordered_apart(s),
        pairs_fit(s),
    ensures
        runs_separate(runs(s)),
    decreases s.len(),
{
    if s.len() > 0 {
        let t = s.drop_last();
        assert forall|i: int, j: int| #![trigger t[i], t[j]] 0 <= i < j < t.len() implies t[i].0 + t[i].1
            <= t[j].0 by {
            assert(s[i] == t[i] && s[j] == t[j]);
        }
        assert forall|i: int| 0 <= i < t.len() implies #[trigger] t[i].1 > 0 by {
            assert(s[i] == t[i]);
        }
        assert forall|i: int| 0 <= i < t.len() implies #[trigger] t[i].0 + t[i].1 <= usize::MAX by {
            assert(s[i] == t[i]);
        }
        lemma_runs_separate(t);
        lemma_runs(t);
        let r = runs(t);
        let x = s.last();
        assert(s[s.len() - 1] == x);
        assert(x.1 > 0);
        assert(x.0 + x.1 <= usize::MAX);
        if s.len() >= 2 && s[s.len() - 2].0 + s[s.len() - 2].1 == x.0 {
            assert(t.last() == s[s.len() - 2]);
            let r2 = r.update(r.len() - 1, (r.last().0, (r.last().1 + x.1) as usize));
            assert(r[r.len() - 1].1 > 0);
            assert forall|i: int, j: int| #![trigger r2[i], r2[j]] 0 <= i < j < r2.len() implies r2[i].0
                + r2[i].1 < r2[j].0 by {
                assert(r[i].0 + r[i].1 < r[j].0);
            }
            assert forall|i: int| 0 <= i < r2.len() implies #[trigger] r2[i].1 > 0 by {
                assert(r[i].1 > 0);
            }
        } else {
            let r2 = r.push(x);
            if s.len() >= 2 {
                assert(s[s.len() - 2].0 + s[s.len() - 2].1 <= s[s.len() - 1].0);
                assert(t.last() == s[s.len() - 2]);
                assert(r[r.len() - 1].1 > 0);
            }
            assert forall|i: int, j: int| #![trigger r2[i], r2[j]] 0 <= i < j < r2.len() implies r2[i].0
                + r2[i].1 < r2[j].0 by {
                if j == r.len() {
                    assert(r2[i] == r[i]);
                    if i < r.len() - 1 {
                        assert(r[i].0 + r[i].1 < r[r.len() - 1].0);
                    }
                } else {
                    assert(r2[i] == r[i] && r2[j] == r[j]);
                    assert(r[i].0 + r[i].1 < r[j].0);
                }
            }
            assert forall|i: int| 0 <= i < r2.len() implies #[trigger] r2[i].1 > 0 by {
                if i < r.len() {
                    assert(r[i].1 > 0);
                }
            }
        }
    }
}

/// The runs of sorted extents are sorted themselves, none begins where the
/// one before it ends, and the last begins no later than the last extent.
pub proof fn lemma_runs_sorted(s: Seq<(usize, usize)>)
    requires
        pairs_sorted(s),
        pairs_fit(s),
    ensures
        pairs_sorted(runs(s)),
        forall|i: int, j: int| #![trigger runs(s)[i], runs(s)[j]] 0 <= i && j == i + 1 && j < runs(s).len()
            ==> runs(s)[i].0 + runs(s)[i].1 != runs(s)[j].0,
        s.len() > 0 ==> runs(s).last().0 <= s.last().0,
    decreases s.len(),
{
    if s.len() > 0 {
        let t = s.drop_last();
        assert forall|i: int, j: int| 0 <= i < j < t.len() implies pair_le(t[i], t[j]) by {
            assert(pair_le(s[i], s[j]));
        }
        assert forall|i: int| 0 <= i < t.len() implies #[trigger] t[i].0 + t[i].1 <= usize::MAX by {
            assert(s[i] == t[i]);
        }
        lemma_runs_sorted(t);
        lemma_runs(t);
        let r = runs(t);
        let x = s.last();
        assert(s[s.len() - 1] == x);
        assert(x.0 + x.1 <= usize::MAX);
        if s.len() >= 2 {
            assert(t.last() == s[s.len() - 2]);
            assert(pair_le(s[s.len() - 2], x));
        }
        if s.len() >= 2 && s[s.len() - 2].0 + s[s.len() - 2].1 == x.0 {
            let r2 = r.update(r.len() - 1, (r.last().0, (r.last().1 + x.1) as usize));
            assert forall|i: int, j: int| 0 <= i < j < r2.len() implies pair_le(r2[i], r2[j]) by {
                assert(pair_le(r[i], r[j]));
            }
            assert forall|i: int, j: int| #![trigger r2[i], r2[j]] 0 <= i && j == i + 1 && j < r2.len()
                implies r2[i].0 + r2[i].1 != r2[j].0 by {
                assert(r[i].0 + r[i].1 != r[j].0);
            }
        } else {
            let r2 = r.push(x);
            if s.len() >= 2 {
                let l = r[r.len() - 1];
                assert(l.0 + l.1 == s[s.len() - 2].0 + s[s.len() - 2].1);
                assert(pair_le(l, x));
                assert forall|i: int, j: int| 0 <= i < j < r2.len() implies pair_le(r2[i], r2[j]) by {
                    if j == r.len() {
                        if i < r.len() - 1 {
                            assert(pair_le(r[i], l));
                        }
                    } else {
                        assert(pair_le(r[i], r[j]));
                    }
                }
                assert forall|i: int, j: int| #![trigger r2[i], r2[j]] 0 <= i && j == i + 1 && j < r2.len()
                    implies r2[i].0 + r2[i].1 != r2[j].0 by {
                    if j < r.len() {
                        assert(r[i].0 + r[i].1 != r[j].0);
                    }
                }
            } else {
                assert(r2 =~= seq![x]);
            }
        }
    }
}

/// Extents of which none begins where the one before it ends are their own
/// runs.
pub proof fn lemma_runs_unchanged(s: Seq<(usize, usize)>)
    requires
        forall|i: int, j: int| #![trigger s[i], s[j]] 0 <= i && j == i + 1 && j < s.len() ==> s[i].0 + s[i].1
            != s[j].0,
    ensures
        runs(s) == s,
    decreases s.len(),
{
    if s.len() > 0 {
        let t = s.drop_last();
        assert forall|i: int, j: int| #![trigger t[i], t[j]] 0 <= i && j == i + 1 && j < t.len() implies t[i].0
            + t[i].1 != t[j].0 by {
            assert(s[i] == t[i] && s[j] == t[j]);
        }
        lemma_runs_unchanged(t);
        if s.len() >= 2 {
            assert(s[s.len() - 2].0 + s[s.len() - 2].1 != s[s.len() - 1].0);
        }
        assert(t.push(s.last()) =~= s);
    }
}

/// Two sorted sequences of the same pairs are equal.
pub proof fn lemma_sorted_unique(a: Seq<(usize, usize)>, b: Seq<(usize, usize)>)
    requires
        pairs_sorted(a),
        pairs_sorted(b),
        a.to_multiset() == b.to_multiset(),
    ensures
        a == b,
    decreases a.len(),
{
    broadcast use vstd::seq_lib::group_to_multiset_ensures;
    broadcast use vstd::multiset::group_multiset_axioms;
    assert(a.len() == a.to_multiset().len());
    assert(b.len() == b.to_multiset().len());
    if a.len() > 0 {
        let x = a.last();
        let y = b.last();
        assert(a[a.len() - 1] == x);
        assert(b[b.len() - 1] == y);
        assert(a.contains(x));
        assert(a.to_multiset().count(x) > 0);
        assert(b.contains(x));
        let k = choose|k: int| 0 <= k < b.len() && b[k] == x;
        if k < b.len() - 1 {
            assert(pair_le(b[k], b[b.len() - 1]));
        }
        assert(b.contains(y));
        assert(b.to_multiset().count(y) > 0);
        assert(a.contains(y));
        let m = choose|m: int| 0 <= m < a.len() && a[m] == y;
        if m < a.len() - 1 {
            assert(pair_le(a[m], a[a.len() - 1]));
        }
        assert(x == y);
        let a1 = a.drop_last();
        let b1 = b.drop_last();
        assert(a1.push(x) =~= a);
        assert(b1.push(x) =~= b);
        assert(a1.push(x).to_multiset() =~= a1.to_multiset().insert(x));
        assert(b1.push(x).to_multiset() =~= b1.to_multiset().insert(x));
        assert(a1.to_multiset().insert(x) == b1.to_multiset().insert(x));
        assert(a1.to_multiset() =~= b1.to_multiset()) by {
            assert forall|z: (usize, usize)| a1.to_multiset().count(z) == b1.to_multiset().count(z) by {
                assert(a1.to_multiset().insert(x).count(z) == b1.to_multiset().insert(x).count(z));
            }
        }
        assert forall|i: int, j: int| 0 <= i < j < a1.len() implies pair_le(a1[i], a1[j]) by {
            assert(pair_le(a[i], a[j]));
        }
        assert forall|i: int, j: int| 0 <= i < j < b1.len() implies pair_le(b1[i], b1[j]) by {
            assert(pair_le(b[i], b[j]));
        }
        lemma_sorted_unique(a1, b1);
    }
}

proof fn lemma_flatten_push_group(f: FragmentsView, j: int, off: usize)
    requires
        0 <= j < f.len(),
    ensures
        flatten(f.update(j, (f[j].0, f[j].1.push(off)))).to_multiset() == flatten(f).to_multiset().insert(
            (off, f[j].0),
        ),
    decreases f.len(),
{
    broadcast use vstd::seq_lib::group_to_multiset_ensures;
    broadcast use vstd::multiset::group_multiset_axioms;
    let g = (f[j].0, f[j].1.push(off));
    let u = f.update(j, g);
    let x = (off, f[j].0);
    let f1 = f.drop_last();
    if j == f.len() - 1 {
        assert(u.drop_last() =~= f1);
        assert(offsets_at(g.1, g.0) =~= offsets_at(f[j].1, f[j].0).push(x));
        assert(flatten(u) =~= flatten(f).push(x));
    } else {
        assert(u.drop_last() =~= f1.update(j, g));
        assert(u.last() == f.last());
        assert(f1[j] == f[j]);
        lemma_flatten_push_group(f1, j, off);
        let tail = offsets_at(f.last().1, f.last().0);
        vstd::seq_lib::lemma_multiset_commutative(flatten(u.drop_last()), tail);
        vstd::seq_lib::lemma_multiset_commutative(flatten(f1), tail);
        assert(flatten(u).to_multiset() =~= flatten(f).to_multiset().insert(x));
    }
}

proof fn lemma_flatten_insert_group(f: FragmentsView, j: int, off: usize, size: usize)
    requires
        0 <= j <= f.len(),
    ensures
        flatten(f.insert(j, (size, seq![off]))).to_multiset() == flatten(f).to_multiset().insert((off, size)),
    decreases f.len(),
{
    broadcast use vstd::seq_lib::group_to_multiset_ensures;
    broadcast use vstd::multiset::group_multiset_axioms;
    let g = (size, seq![off]);
    let u = f.insert(j, g);
    let x = (off, size);
    if j == f.len() {
        assert(u.drop_last() =~= f);
        assert(offsets_at(g.1, g.0) =~= seq![x]);
        assert(flatten(u) =~= flatten(f).push(x));
    } else {
        let f1 = f.drop_last();
        assert(u.drop_last() =~= f1.insert(j, g));
        assert(u.last() == f.last());
        lemma_flatten_insert_group(f1, j, off, size);
        let tail = offsets_at(f.last().1, f.last().0);
        vstd::seq_lib::lemma_multiset_commutative(flatten(u.drop_last()), tail);
        vstd::seq_lib::lemma_multiset_commutative(flatten(f1), tail);
        assert(flatten(u).to_multiset() =~= flatten(f).to_multiset().insert(x));
    }
}

proof fn lemma_group_insert_multiset(f: FragmentsView, off: usize, size: usize)
    requires
        sizes_increasing(f),
    ensures
        flatten(group_insert(f, off, size)).to_multiset() == flatten(f).to_multiset().insert((off, size)),
{
    lemma_split_exists(f, size);
    let j = choose|j: int| splits_at(f, size, j);
    lemma_count_below(f, size, j);
    if j < f.len() && f[j].0 == size {
        lemma_flatten_push_group(f, j, off);
    } else {
        lemma_flatten_insert_group(f, j, off, size);
    }
}

/// Grouping extents by size keeps them: the groups hold the extents, each
/// as often as before.
pub proof fn lemma_group_by_size_multiset(rs: Seq<(usize, usize)>)
    ensures
        flatten(group_by_size(rs)).to_multiset() == rs.to_multiset(),
    decreases rs.len(),
{
    broadcast use vstd::seq_lib::group_to_multiset_ensures;
    broadcast use vstd::multiset::group_multiset_axioms;
    if rs.len() == 0 {
        assert(flatten(group_by_size(rs)) =~= Seq::<(usize, usize)>::empty());
        assert(rs =~= Seq::<(usize, usize)>::empty());
    } else {
        let t = rs.drop_last();
        lemma_group_by_size_multiset(t);
        lemma_group_by_size(t);
        lemma_group_insert_multiset(group_by_size(t), rs.last().0, rs.last().1);
        assert(t.push(rs.last()) =~= rs);
        assert(t.push(rs.last()).to_multiset() =~= t.to_multiset().insert(rs.last()));
    }
}

/// Each extent of a group is among the flattened extents.
pub proof fn lemma_flatten_contains(f: FragmentsView, i: int, a: int)
    requires
        0 <= i < f.len(),
        0 <= a < f[i].1.len(),
    ensures
        flatten(f).contains((f[i].1[a], f[i].0)),
    decreases f.len(),
{
    let t = f.drop_last();
    let tail = offsets_at(f.last().1, f.last().0);
    if i == f.len() - 1 {
        assert((flatten(t) + tail)[flatten(t).len() + a] == (f[i].1[a], f[i].0));
    } else {
        assert(t[i] == f[i]);
        lemma_flatten_contains(t, i, a);
        let k = choose|k: int| 0 <= k < flatten(t).len() && flatten(t)[k] == (f[i].1[a], f[i].0);
        assert((flatten(t) + tail)[k] == flatten(t)[k]);
    }
}

/// Extents with strictly increasing offsets, grouped by size, give groups
/// whose offsets strictly increase.
pub proof fn lemma_group_by_size_ascending(rs: Seq<(usize, usize)>)
    requires
        forall|i: int, j: int| #![trigger rs[i], rs[j]] 0 <= i < j < rs.len() ==> rs[i].0 < rs[j].0,
    ensures
        offsets_increasing(group_by_size(rs)),
    decreases rs.len(),
{
    broadcast use vstd::seq_lib::group_to_multiset_ensures;
    if rs.len() > 0 {
        let t = rs.drop_last();
        let off = rs.last().0;
        let size = rs.last().1;
        assert forall|i: int, j: int| #![trigger t[i], t[j]] 0 <= i < j < t.len() implies t[i].0 < t[j].0 by {
            assert(rs[i] == t[i] && rs[j] == t[j]);
        }
        lemma_group_by_size_ascending(t);
        lemma_group_by_size(t);
        lemma_group_by_size_multiset(t);
        let f = group_by_size(t);
        assert forall|i: int, a: int| 0 <= i < f.len() && 0 <= a < f[i].1.len() implies #[trigger] f[i].1[a]
            < off by {
            lemma_flatten_contains(f, i, a);
            let p = (f[i].1[a], f[i].0);
            assert(flatten(f).to_multiset().count(p) > 0);
            assert(t.to_multiset().count(p) > 0);
            assert(t.contains(p));
            let k = choose|k: int| 0 <= k < t.len() && t[k] == p;
            assert(rs[k] == t[k]);
            assert(rs[k].0 < rs[rs.len() - 1].0);
        }
        lemma_split_exists(f, size);
        let j = choose|j: int| splits_at(f, size, j);
        lemma_count_below(f, size, j);
        let u = group_insert(f, off, size);
        if j < f.len() && f[j].0 == size {
            assert forall|i: int, a: int, b: int|
                #![trigger u[i].1[a], u[i].1[b]]
                0 <= i < u.len() && 0 <= a < b < u[i].1.len() implies u[i].1[a] < u[i].1[b] by {
                if i == j {
                    assert(u[i].1 == f[j].1.push(off));
                    if b == f[j].1.len() {
                        assert(u[i].1[a] == f[j].1[a]);
                        assert(f[j].1[a] < off);
                    } else {
                        assert(u[i].1[a] == f[j].1[a] && u[i].1[b] == f[j].1[b]);
                    }
                } else {
                    assert(u[i] == f[i]);
                }
            }
        } else {
            assert forall|i: int, a: int, b: int|
                #![trigger u[i].1[a], u[i].1[b]]
                0 <= i < u.len() && 0 <= a < b < u[i].1.len() implies u[i].1[a] < u[i].1[b] by {
                if i < j {
                    assert(u[i] == f[i]);
                } else if i > j {
                    assert(u[i] == f[i - 1]);
                } else {
                    assert(u[i].1 == seq![off]);
                }
            }
        }
    }
}

/// The free extent at position `a` of group `i`, as (offset, size).
pub open spec fn extent_at(f: FragmentsView, i: int, a: int) -> (usize, usize) {
    (f[i].1[a], f[i].0)
}

/// No two free extents overlap.
pub open spec fn groups_apart(f: FragmentsView) -> bool {
    forall|i: int, a: int, j: int, b: int|
        #![trigger extent_at(f, i, a), extent_at(f, j, b)]
        0 <= i < f.len() && 0 <= a < f[i].1.len() && 0 <= j < f.len() && 0 <= b < f[j].1.len() && (i
            != j || a != b) ==> apart(extent_at(f, i, a), extent_at(f, j, b))
}

/// Every free extent ends at or before `end`.
pub open spec fn free_below(f: FragmentsView, end: int) -> bool {
    forall|i: int, a: int| 0 <= i < f.len() && 0 <= a < f[i].1.len() ==> #[trigger] f[i].1[a] + f[i].0 <= end
}

} // verus!
