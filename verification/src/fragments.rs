//! Free space of the backing store: groups of free extents of equal size,
//! kept sorted by size, and the merging of adjacent free extents.
use vstd::prelude::*;
use vstd::multiset::Multiset;

verus! {

/// Free extents grouped by size: each group is a size and the offsets of the
/// free extents of that size.
pub type FragmentsView = Seq<(usize, Seq<usize>)>;

/// The mathematical value of a vector of fragment groups.
pub open spec fn fragments_view(v: Seq<(usize, Vec<usize>)>) -> FragmentsView {
    v.map_values(|g: (usize, Vec<usize>)| (g.0, g.1@))
}

/// Group sizes strictly increase: each size occurs once and groups are in
/// order of size.
pub open spec fn sizes_increasing(f: FragmentsView) -> bool {
    forall|i: int, j: int| 0 <= i < j < f.len() ==> f[i].0 < f[j].0
}

/// Every free extent ends within the address range of `usize`.
pub open spec fn extents_fit(f: FragmentsView) -> bool {
    forall|i: int, k: int|
        0 <= i < f.len() && 0 <= k < f[i].1.len() ==> f[i].1[k] + f[i].0 <= usize::MAX
}

/// The extents of the given size at the given offsets, as (offset, size)
/// pairs.
pub open spec fn offsets_at(offs: Seq<usize>, size: usize) -> Seq<(usize, usize)> {
    offs.map_values(|o: usize| (o, size))
}

/// The free extents as (offset, size) pairs, group by group, each group's
/// offsets in order.
pub open spec fn flatten(f: FragmentsView) -> Seq<(usize, usize)>
    decreases f.len(),
{
    if f.len() == 0 {
        Seq::empty()
    } else {
        flatten(f.drop_last()) + offsets_at(f.last().1, f.last().0)
    }
}

/// Lexicographic order on (offset, size) pairs.
pub open spec fn pair_le(a: (usize, usize), b: (usize, usize)) -> bool {
    a.0 < b.0 || (a.0 == b.0 && a.1 <= b.1)
}

/// The pairs are in lexicographic order.
pub open spec fn pairs_sorted(s: Seq<(usize, usize)>) -> bool {
    forall|i: int, j: int| 0 <= i < j < s.len() ==> pair_le(s[i], s[j])
}

/// `x` put into the sorted sequence `s`, after every element not above it.
pub open spec fn insert_sorted(s: Seq<(usize, usize)>, x: (usize, usize)) -> Seq<(usize, usize)>
    decreases s.len(),
{
    if s.len() == 0 {
        seq![x]
    } else if pair_le(s.last(), x) {
        s.push(x)
    } else {
        insert_sorted(s.drop_last(), x).push(s.last())
    }
}

/// The pairs of `s` in lexicographic order.
pub open spec fn sort_pairs(s: Seq<(usize, usize)>) -> Seq<(usize, usize)>
    decreases s.len(),
{
    if s.len() == 0 {
        Seq::empty()
    } else {
        insert_sorted(sort_pairs(s.drop_last()), s.last())
    }
}

/// Maximal runs of adjacent extents of the sorted pairs `s`: an extent that
/// starts where the one before it ends joins that one's run. Each run is its
/// first offset and the sum of its sizes.
pub open spec fn runs(s: Seq<(usize, usize)>) -> Seq<(usize, usize)>
    decreases s.len(),
{
    if s.len() == 0 {
        Seq::empty()
    } else {
        let r = runs(s.drop_last());
        let x = s.last();
        if s.len() >= 2 && s[s.len() - 2].0 + s[s.len() - 2].1 == x.0 {
            r.update(r.len() - 1, (r.last().0, (r.last().1 + x.1) as usize))
        } else {
            r.push(x)
        }
    }
}

/// The runs of `s`, or the single empty extent at offset 0 when there are no
/// free extents at all.
pub open spec fn merged_runs(s: Seq<(usize, usize)>) -> Seq<(usize, usize)> {
    if s.len() == 0 {
        seq![(0usize, 0usize)]
    } else {
        runs(s)
    }
}

/// Number of groups whose size is below `size`.
pub open spec fn count_below(f: FragmentsView, size: usize) -> nat
    decreases f.len(),
{
    if f.len() == 0 {
        0
    } else {
        count_below(f.drop_last(), size) + if f.last().0 < size {
            1nat
        } else {
            0nat
        }
    }
}

/// Index of the group of the given size, if there is one.
pub open spec fn group_of(f: FragmentsView, size: usize) -> Option<int> {
    if exists|i: int| 0 <= i < f.len() && f[i].0 == size {
        Some(choose|i: int| 0 <= i < f.len() && f[i].0 == size)
    } else {
        None
    }
}

/// The extent at `off` of `size` added to the groups: appended to the group of
/// its size, or as a new group at its place in order of size.
pub open spec fn group_insert(f: FragmentsView, off: usize, size: usize) -> FragmentsView {
    match group_of(f, size) {
        Some(i) => f.update(i, (size, f[i].1.push(off))),
        None => f.insert(count_below(f, size) as int, (size, seq![off])),
    }
}

/// The extents `rs` grouped by size, sizes in increasing order, each group's
/// offsets in the order of `rs`.
pub open spec fn group_by_size(rs: Seq<(usize, usize)>) -> FragmentsView
    decreases rs.len(),
{
    if rs.len() == 0 {
        Seq::empty()
    } else {
        group_insert(group_by_size(rs.drop_last()), rs.last().0, rs.last().1)
    }
}

/// The free space after merging: extents sorted, adjacent ones joined into
/// runs, and the runs grouped by size.
pub open spec fn merge_spec(f: FragmentsView) -> FragmentsView {
    group_by_size(merged_runs(sort_pairs(flatten(f))))
}

/// Sum of the sizes of a sequence of extents.
pub open spec fn extents_total(s: Seq<(usize, usize)>) -> int
    decreases s.len(),
{
    if s.len() == 0 {
        0
    } else {
        extents_total(s.drop_last()) + s.last().1
    }
}

/// Total free bytes: each group's size times its number of extents.
pub open spec fn free_total(f: FragmentsView) -> int
    decreases f.len(),
{
    if f.len() == 0 {
        0
    } else {
        free_total(f.drop_last()) + f.last().0 * f.last().1.len()
    }
}


/// `p` is where `insert_sorted` puts `x` into `s`.
pub open spec fn insert_position(s: Seq<(usize, usize)>, x: (usize, usize), p: int) -> bool {
    &&& 0 <= p <= s.len()
    &&& (p == 0 || pair_le(s[p - 1], x))
    &&& forall|k: int| p <= k < s.len() ==> !pair_le(#[trigger] s[k], x)
}

proof fn lemma_insert_sorted_at(s: Seq<(usize, usize)>, x: (usize, usize), p: int)
    requires
        insert_position(s, x, p),
    ensures
        insert_sorted(s, x) == s.insert(p, x),
    decreases s.len(),
{
    if s.len() == 0 {
        assert(s.insert(p, x) =~= seq![x]);
    } else if pair_le(s.last(), x) {
        assert(p == s.len());
        assert(s.insert(p, x) =~= s.push(x));
    } else {
        let t = s.drop_last();
        assert(p < s.len());
        assert(insert_position(t, x, p));
        lemma_insert_sorted_at(t, x, p);
        assert(t.insert(p, x).push(s.last()) =~= s.insert(p, x));
    }
}

proof fn lemma_insert_sorted_props(s: Seq<(usize, usize)>, x: (usize, usize))
    requires
        pairs_sorted(s),
    ensures
        pairs_sorted(insert_sorted(s, x)),
        insert_sorted(s, x).to_multiset() == s.to_multiset().insert(x),
        extents_total(insert_sorted(s, x)) == extents_total(s) + x.1,
        insert_sorted(s, x).len() == s.len() + 1,
        forall|y: (usize, usize)| insert_sorted(s, x).contains(y) <==> (s.contains(y) || y == x),
    decreases s.len(),
{
    broadcast use vstd::seq_lib::group_seq_properties;
    if s.len() == 0 {
        assert(seq![x].to_multiset() =~= Multiset::<(usize, usize)>::empty().insert(x)) by {
            broadcast use vstd::multiset::group_multiset_axioms;
            assert(seq![x] == Seq::<(usize, usize)>::empty().push(x));
            assert(Seq::<(usize, usize)>::empty().to_multiset() =~= Multiset::empty());
        }
        assert(seq![x].drop_last() =~= Seq::<(usize, usize)>::empty());
    } else if pair_le(s.last(), x) {
        assert(s.push(x).drop_last() =~= s);
        assert forall|i: int, j: int| 0 <= i < j < s.push(x).len() implies pair_le(
            s.push(x)[i],
            s.push(x)[j],
        ) by {
            if j == s.len() && i < s.len() - 1 {
                assert(pair_le(s[i], s[s.len() - 1]));
            }
        }
    } else {
        let t = s.drop_last();
        lemma_insert_sorted_props(t, x);
        let u = insert_sorted(t, x);
        assert(u.push(s.last()).drop_last() =~= u);
        assert(t.push(s.last()) =~= s);
        assert forall|i: int, j: int| 0 <= i < j < u.push(s.last()).len() implies pair_le(
            u.push(s.last())[i],
            u.push(s.last())[j],
        ) by {
            if j == u.len() {
                let y = u[i];
                assert(u.contains(y));
                if y != x {
                    assert(t.contains(y));
                    let k = choose|k: int| 0 <= k < t.len() && t[k] == y;
                    assert(pair_le(s[k], s[s.len() - 1]));
                }
            }
        }
        assert(u.push(s.last()).to_multiset() =~= s.to_multiset().insert(x)) by {
            broadcast use vstd::multiset::group_multiset_axioms;
            vstd::seq_lib::lemma_multiset_commutative(t, seq![s.last()]);
            vstd::seq_lib::lemma_multiset_commutative(u, seq![s.last()]);
            assert(t + seq![s.last()] =~= s);
            assert(u + seq![s.last()] =~= u.push(s.last()));
        }
    }
}

/// Sorting keeps the pairs and puts them in lexicographic order.
pub proof fn lemma_sort_pairs(s: Seq<(usize, usize)>)
    ensures
        pairs_sorted(sort_pairs(s)),
        sort_pairs(s).to_multiset() == s.to_multiset(),
        sort_pairs(s).len() == s.len(),
        extents_total(sort_pairs(s)) == extents_total(s),
        forall|y: (usize, usize)| sort_pairs(s).contains(y) <==> s.contains(y),
    decreases s.len(),
{
    broadcast use vstd::seq_lib::group_seq_properties;
    if s.len() > 0 {
        let t = s.drop_last();
        lemma_sort_pairs(t);
        lemma_insert_sorted_props(sort_pairs(t), s.last());
        assert(t.push(s.last()) =~= s);
        assert forall|y: (usize, usize)| s.contains(y) <==> (t.contains(y) || y == s.last()) by {
            if s.contains(y) && y != s.last() {
                let k = choose|k: int| 0 <= k < s.len() && s[k] == y;
                assert(t[k] == y);
            }
            if t.contains(y) {
                let k = choose|k: int| 0 <= k < t.len() && t[k] == y;
                assert(s[k] == y);
            }
        }
        broadcast use vstd::multiset::group_multiset_axioms;
    } else {
        assert(s.to_multiset() =~= Multiset::empty()) by {
            broadcast use vstd::multiset::group_multiset_axioms;
        }
        assert(sort_pairs(s).to_multiset() =~= Multiset::empty()) by {
            broadcast use vstd::multiset::group_multiset_axioms;
        }
    }
}

/// Puts `x` into `v` after every element not above it.
fn insert_pair_sorted(v: &mut Vec<(usize, usize)>, x: (usize, usize))
    ensures
        final(v)@ == insert_sorted(old(v)@, x),
{
    let mut p = v.len();
    while p > 0 && !(v[p - 1].0 < x.0 || (v[p - 1].0 == x.0 && v[p - 1].1 <= x.1))
        invariant
            p <= v.len(),
            forall|k: int| p <= k < v.len() ==> !pair_le(#[trigger] v@[k], x),
        decreases p,
    {
        p = p - 1;
    }
    proof {
        lemma_insert_sorted_at(v@, x, p as int);
    }
    v.insert(p, x);
}

/// The pairs of `s` in lexicographic order.
pub fn sorted_pairs(s: &Vec<(usize, usize)>) -> (r: Vec<(usize, usize)>)
    ensures
        r@ == sort_pairs(s@),
{
    let mut r: Vec<(usize, usize)> = Vec::new();
    let mut i: usize = 0;
    while i < s.len()
        invariant
            i <= s.len(),
            r@ == sort_pairs(s@.take(i as int)),
        decreases s.len() - i,
    {
        assert(s@.take(i + 1).drop_last() =~= s@.take(i as int));
        insert_pair_sorted(&mut r, s[i]);
        i = i + 1;
    }
    assert(s@.take(i as int) =~= s@);
    r
}


/// Every pair's extent ends within the address range of `usize`.
pub open spec fn pairs_fit(s: Seq<(usize, usize)>) -> bool {
    forall|i: int| 0 <= i < s.len() ==> #[trigger] s[i].0 + s[i].1 <= usize::MAX
}

/// Every group holds at least one extent.
pub open spec fn groups_nonempty(f: FragmentsView) -> bool {
    forall|i: int| 0 <= i < f.len() ==> #[trigger] f[i].1.len() > 0
}

pub(crate) proof fn lemma_runs(s: Seq<(usize, usize)>)
    requires
        pairs_fit(s),
    ensures
        pairs_fit(runs(s)),
        extents_total(runs(s)) == extents_total(s),
        s.len() > 0 ==> runs(s).len() > 0 && runs(s).last().0 + runs(s).last().1 == s.last().0
            + s.last().1,
        s.len() == 0 ==> runs(s).len() == 0,
    decreases s.len(),
{
    if s.len() > 0 {
        let t = s.drop_last();
        lemma_runs(t);
        let r = runs(t);
        let x = s.last();
        if s.len() >= 2 && s[s.len() - 2].0 + s[s.len() - 2].1 == x.0 {
            assert(t.last() == s[s.len() - 2]);
            let r2 = r.update(r.len() - 1, (r.last().0, (r.last().1 + x.1) as usize));
            assert(r2.drop_last() =~= r.drop_last());
            assert(extents_total(r) == extents_total(r.drop_last()) + r.last().1);
        } else {
            assert(r.push(x).drop_last() =~= r);
        }
    }
}

/// The runs of a sequence of fitting extents fit, and hold the same number of
/// bytes.
pub proof fn lemma_merged_runs(s: Seq<(usize, usize)>)
    requires
        pairs_fit(s),
    ensures
        pairs_fit(merged_runs(s)),
        extents_total(merged_runs(s)) == extents_total(s),
{
    lemma_runs(s);
    if s.len() == 0 {
        assert(seq![(0usize, 0usize)].drop_last() =~= Seq::<(usize, usize)>::empty());
    }
}

/// The runs of adjacent extents of `s`, or the single empty extent at offset 0
/// when `s` is empty.
pub fn merge_adjacent(s: &Vec<(usize, usize)>) -> (r: Vec<(usize, usize)>)
    requires
        pairs_fit(s@),
    ensures
        r@ == merged_runs(s@),
{
    let mut out: Vec<(usize, usize)> = Vec::new();
    if s.len() == 0 {
        out.push((0, 0));
        assert(out@ =~= seq![(0usize, 0usize)]);
        return out;
    }
    let mut lo = s[0].0;
    let mut cur = s[0].1;
    assert(s@.take(1).drop_last() =~= Seq::<(usize, usize)>::empty());
    assert(runs(Seq::<(usize, usize)>::empty()) == Seq::<(usize, usize)>::empty());
    assert(s@.take(1).last() == s@[0]);
    assert(out@.push((lo, cur)) =~= runs(s@.take(1)));
    let mut k: usize = 1;
    while k < s.len()
        invariant
            1 <= k <= s.len(),
            pairs_fit(s@),
            lo + cur == s@[k - 1].0 + s@[k - 1].1,
            out@.push((lo, cur)) == runs(s@.take(k as int)),
        decreases s.len() - k,
    {
        let ghost t = s@.take(k + 1);
        assert(t.drop_last() =~= s@.take(k as int));
        assert(t[t.len() - 2] == s@[k - 1]);
        assert(s@[k as int].0 + s@[k as int].1 <= usize::MAX);
        if s[k - 1].0 + s[k - 1].1 == s[k].0 {
            cur = cur + s[k].1;
            assert(out@.push((lo, cur)) =~= runs(t));
        } else {
            out.push((lo, cur));
            lo = s[k].0;
            cur = s[k].1;
            assert(out@.push((lo, cur)) =~= runs(t));
        }
        k = k + 1;
    }
    assert(s@.take(k as int) =~= s@);
    out.push((lo, cur));
    out
}


/// `j` splits the groups into those below `size` and those not below it.
pub open spec fn splits_at(f: FragmentsView, size: usize, j: int) -> bool {
    &&& 0 <= j <= f.len()
    &&& forall|i: int| 0 <= i < j ==> #[trigger] f[i].0 < size
    &&& (j == f.len() || f[j].0 >= size)
}

pub(crate) proof fn lemma_count_below(f: FragmentsView, size: usize, j: int)
    requires
        sizes_increasing(f),
        splits_at(f, size, j),
    ensures
        count_below(f, size) == j,
        j < f.len() && f[j].0 == size ==> group_of(f, size) == Some(j),
        !(j < f.len() && f[j].0 == size) ==> group_of(f, size) is None,
    decreases f.len(),
{
    if f.len() > 0 {
        let t = f.drop_last();
        if j == f.len() {
            assert(splits_at(t, size, j - 1));
            lemma_count_below(t, size, j - 1);
        } else {
            assert(f.last().0 >= size);
            assert(splits_at(t, size, j));
            lemma_count_below(t, size, j);
        }
    }
    if j < f.len() && f[j].0 == size {
        assert(exists|i: int| 0 <= i < f.len() && f[i].0 == size);
        let c = choose|i: int| 0 <= i < f.len() && f[i].0 == size;
        if c < j {
        } else if c > j {
        }
    } else {
        assert forall|i: int| 0 <= i < f.len() implies f[i].0 != size by {
            if i > j {
                assert(f[j].0 < f[i].0);
            }
        }
    }
}

proof fn lemma_free_total_update(f: FragmentsView, i: int, g: (usize, Seq<usize>))
    requires
        0 <= i < f.len(),
    ensures
        free_total(f.update(i, g)) == free_total(f) - f[i].0 * f[i].1.len() + g.0 * g.1.len(),
    decreases f.len(),
{
    let u = f.update(i, g);
    if i == f.len() - 1 {
        assert(u.drop_last() =~= f.drop_last());
    } else {
        assert(u.drop_last() =~= f.drop_last().update(i, g));
        lemma_free_total_update(f.drop_last(), i, g);
    }
}

proof fn lemma_free_total_insert(f: FragmentsView, p: int, g: (usize, Seq<usize>))
    requires
        0 <= p <= f.len(),
    ensures
        free_total(f.insert(p, g)) == free_total(f) + g.0 * g.1.len(),
    decreases f.len(),
{
    let u = f.insert(p, g);
    if p == f.len() {
        assert(u.drop_last() =~= f);
    } else {
        assert(u.drop_last() =~= f.drop_last().insert(p, g));
        lemma_free_total_insert(f.drop_last(), p, g);
    }
}

proof fn lemma_group_insert(f: FragmentsView, off: usize, size: usize)
    requires
        sizes_increasing(f),
        groups_nonempty(f),
    ensures
        sizes_increasing(group_insert(f, off, size)),
        groups_nonempty(group_insert(f, off, size)),
        free_total(group_insert(f, off, size)) == free_total(f) + size,
        extents_fit(f) && off + size <= usize::MAX ==> extents_fit(group_insert(f, off, size)),
{
    lemma_split_exists(f, size);
    let j = choose|j: int| splits_at(f, size, j);
    {
        lemma_count_below(f, size, j);
        let u = group_insert(f, off, size);
        if j < f.len() && f[j].0 == size {
            let g = (size, f[j].1.push(off));
            lemma_free_total_update(f, j, g);
            assert(size * (f[j].1.len() + 1) == size * f[j].1.len() + size) by (nonlinear_arith);
            assert forall|a: int, k: int|
                extents_fit(f) && off + size <= usize::MAX && 0 <= a < u.len() && 0 <= k < u[a].1.len()
                implies u[a].1[k] + u[a].0 <= usize::MAX by {
                if a == j && k == f[j].1.len() {
                } else if a == j {
                    assert(u[a].1[k] == f[a].1[k]);
                }
            }
        } else {
            let g = (size, seq![off]);
            lemma_free_total_insert(f, j, g);
            assert(g.1.len() == 1);
            assert(size * 1 == size);
            assert forall|a: int, b: int| 0 <= a < b < u.len() implies u[a].0 < u[b].0 by {
                if b < j {
                } else if b == j {
                } else if a < j {
                    assert(f[a].0 < size);
                    assert(f[j].0 > size);
                    if b - 1 > j {
                        assert(f[j].0 < f[b - 1].0);
                    }
                } else if a == j {
                    assert(f[j].0 > size);
                    if b - 1 > j {
                        assert(f[j].0 < f[b - 1].0);
                    }
                }
            }
            assert forall|a: int| 0 <= a < u.len() implies #[trigger] u[a].1.len() > 0 by {
                if a < j {
                    assert(u[a] == f[a]);
                } else if a > j {
                    assert(u[a] == f[a - 1]);
                }
            }
            assert forall|a: int, k: int|
                extents_fit(f) && off + size <= usize::MAX && 0 <= a < u.len() && 0 <= k < u[a].1.len()
                implies u[a].1[k] + u[a].0 <= usize::MAX by {
                if a < j {
                    assert(u[a] == f[a]);
                } else if a > j {
                    assert(u[a] == f[a - 1]);
                }
            }
        }
    }
}

pub(crate) proof fn lemma_split_exists(f: FragmentsView, size: usize)
    requires
        sizes_increasing(f),
    ensures
        exists|j: int| splits_at(f, size, j),
    decreases f.len(),
{
    if f.len() == 0 {
        assert(splits_at(f, size, 0));
    } else {
        let t = f.drop_last();
        lemma_split_exists(t, size);
        let j = choose|j: int| splits_at(t, size, j);
        assert forall|i: int| 0 <= i < t.len() implies f[i] == t[i] by {}
        if j < t.len() {
            assert(splits_at(f, size, j));
        } else if f.last().0 < size {
            assert(splits_at(f, size, f.len() as int));
        } else {
            assert(splits_at(f, size, j));
        }
    }
}

/// Grouping extents by size gives groups in increasing order of size, none
/// of them empty, holding the same number of bytes.
pub proof fn lemma_group_by_size(rs: Seq<(usize, usize)>)
    ensures
        sizes_increasing(group_by_size(rs)),
        groups_nonempty(group_by_size(rs)),
        free_total(group_by_size(rs)) == extents_total(rs),
        pairs_fit(rs) ==> extents_fit(group_by_size(rs)),
    decreases rs.len(),
{
    if rs.len() > 0 {
        let t = rs.drop_last();
        lemma_group_by_size(t);
        lemma_group_insert(group_by_size(t), rs.last().0, rs.last().1);
        if pairs_fit(rs) {
            assert forall|i: int| 0 <= i < t.len() implies #[trigger] t[i].0 + t[i].1 <= usize::MAX by {
                assert(t[i] == rs[i]);
            }
            assert(rs[rs.len() - 1].0 + rs[rs.len() - 1].1 <= usize::MAX);
        }
    }
}


proof fn lemma_extents_total_concat(a: Seq<(usize, usize)>, b: Seq<(usize, usize)>)
    ensures
        extents_total(a + b) == extents_total(a) + extents_total(b),
    decreases b.len(),
{
    if b.len() > 0 {
        lemma_extents_total_concat(a, b.drop_last());
        assert((a + b).drop_last() =~= a + b.drop_last());
    } else {
        assert(a + b =~= a);
    }
}

proof fn lemma_offsets_total(offs: Seq<usize>, size: usize)
    ensures
        extents_total(offsets_at(offs, size)) == size * offs.len(),
    decreases offs.len(),
{
    if offs.len() > 0 {
        lemma_offsets_total(offs.drop_last(), size);
        assert(offsets_at(offs, size).drop_last() =~= offsets_at(offs.drop_last(), size));
        assert(size * (offs.len() - 1) + size == size * offs.len()) by (nonlinear_arith);
    } else {
        assert(size * 0 == 0);
    }
}

/// Flattening keeps the number of free bytes, and fitting extents fit.
pub proof fn lemma_flatten(f: FragmentsView)
    ensures
        extents_total(flatten(f)) == free_total(f),
        extents_fit(f) ==> pairs_fit(flatten(f)),
    decreases f.len(),
{
    if f.len() > 0 {
        let t = f.drop_last();
        lemma_flatten(t);
        lemma_extents_total_concat(flatten(t), offsets_at(f.last().1, f.last().0));
        lemma_offsets_total(f.last().1, f.last().0);
        if extents_fit(f) {
            assert(extents_fit(t)) by {
                assert forall|i: int, k: int| 0 <= i < t.len() && 0 <= k < t[i].1.len()
                    implies t[i].1[k] + t[i].0 <= usize::MAX by {
                    assert(t[i] == f[i]);
                }
            }
            let a = flatten(t);
            let b = offsets_at(f.last().1, f.last().0);
            assert forall|i: int| 0 <= i < (a + b).len() implies #[trigger] (a + b)[i].0 + (a
                + b)[i].1 <= usize::MAX by {
                if i >= a.len() {
                    assert((a + b)[i] == b[i - a.len()]);
                    assert(f[f.len() - 1].1[i - a.len()] + f[f.len() - 1].0 <= usize::MAX);
                }
            }
        }
    }
}

/// The free extents as (offset, size) pairs, group by group.
pub fn flatten_fragments(f: &Vec<(usize, Vec<usize>)>) -> (r: Vec<(usize, usize)>)
    ensures
        r@ == flatten(fragments_view(f@)),
{
    let ghost fv = fragments_view(f@);
    let mut out: Vec<(usize, usize)> = Vec::new();
    let mut i: usize = 0;
    while i < f.len()
        invariant
            i <= f.len(),
            fv == fragments_view(f@),
            out@ == flatten(fv.take(i as int)),
        decreases f.len() - i,
    {
        let size = f[i].0;
        let offs = &f[i].1;
        assert(fv[i as int] == (size, offs@));
        let mut k: usize = 0;
        while k < offs.len()
            invariant
                k <= offs.len(),
                out@ == flatten(fv.take(i as int)) + offsets_at(offs@.take(k as int), size),
            decreases offs.len() - k,
        {
            out.push((offs[k], size));
            assert(offsets_at(offs@.take(k + 1), size) =~= offsets_at(offs@.take(k as int), size).push(
                (offs@[k as int], size),
            ));
            assert(out@ =~= flatten(fv.take(i as int)) + offsets_at(offs@.take(k + 1), size));
            k = k + 1;
        }
        assert(offs@.take(k as int) =~= offs@);
        assert(fv.take(i + 1).drop_last() =~= fv.take(i as int));
        assert(fv.take(i + 1).last() == fv[i as int]);
        i = i + 1;
    }
    assert(fv.take(i as int) =~= fv);
    out
}

/// The extents `rs` grouped by size, in increasing order of size.
pub fn group_extents(rs: &Vec<(usize, usize)>) -> (r: Vec<(usize, Vec<usize>)>)
    ensures
        fragments_view(r@) == group_by_size(rs@),
{
    let mut out: Vec<(usize, Vec<usize>)> = Vec::new();
    assert(fragments_view(out@) =~= group_by_size(rs@.take(0)));
    let mut i: usize = 0;
    while i < rs.len()
        invariant
            i <= rs.len(),
            fragments_view(out@) == group_by_size(rs@.take(i as int)),
        decreases rs.len() - i,
    {
        proof {
            lemma_group_by_size(rs@.take(i as int));
        }
        let ghost fv = fragments_view(out@);
        let (off, size) = rs[i];
        let mut j: usize = 0;
        while j < out.len() && out[j].0 < size
            invariant
                j <= out.len(),
                fv == fragments_view(out@),
                forall|k: int| 0 <= k < j ==> #[trigger] fv[k].0 < size,
            decreases out.len() - j,
        {
            j = j + 1;
        }
        assert(splits_at(fv, size, j as int));
        proof {
            lemma_count_below(fv, size, j as int);
        }
        if j < out.len() && out[j].0 == size {
            let mut g = out.remove(j);
            g.1.push(off);
            out.insert(j, g);
            assert(fragments_view(out@) =~= fv.update(j as int, (size, fv[j as int].1.push(off))));
        } else {
            let mut v: Vec<usize> = Vec::new();
            v.push(off);
            assert(v@ =~= seq![off]);
            out.insert(j, (size, v));
            assert(fragments_view(out@) =~= fv.insert(j as int, (size, seq![off])));
        }
        assert(rs@.take(i + 1).drop_last() =~= rs@.take(i as int));
        assert(rs@.take(i + 1).last() == (off, size));
        i = i + 1;
    }
    assert(rs@.take(i as int) =~= rs@);
    out
}

/// Merges adjacent free extents.
///
/// The extents are sorted by offset, each maximal run of extents that start
/// where the one before ends becomes one extent, and the result is grouped by
/// size. With no free extents at all the result is one empty extent at
/// offset 0. The number of free bytes stays the same.
pub fn merge_fragments(f: &Vec<(usize, Vec<usize>)>) -> (r: Vec<(usize, Vec<usize>)>)
    requires
        extents_fit(fragments_view(f@)),
    ensures
        fragments_view(r@) == merge_spec(fragments_view(f@)),
        sizes_increasing(fragments_view(r@)),
        groups_nonempty(fragments_view(r@)),
        extents_fit(fragments_view(r@)),
        free_total(fragments_view(r@)) == free_total(fragments_view(f@)),
{
    let ghost fv = fragments_view(f@);
    let flat = flatten_fragments(f);
    let sorted = sorted_pairs(&flat);
    proof {
        lemma_flatten(fv);
        lemma_sort_pairs(flat@);
        assert forall|i: int| 0 <= i < sorted@.len() implies #[trigger] sorted@[i].0 + sorted@[i].1
            <= usize::MAX by {
            assert(sorted@.contains(sorted@[i]));
            assert(flat@.contains(sorted@[i]));
        }
        lemma_merged_runs(sorted@);
    }
    let runs = merge_adjacent(&sorted);
    proof {
        lemma_group_by_size(runs@);
    }
    group_extents(&runs)
}


/// Whether allocating `len` bytes takes them from the end of the store: no
/// group of size at least `len` exists, or the first such group is empty.
pub open spec fn allocation_grows(f: FragmentsView, len: usize) -> bool {
    let p = count_below(f, len) as int;
    !(p < f.len() && f[p].1.len() > 0)
}

/// Where `len` bytes are allocated, and the free space and end offset after.
///
/// The first group whose size is at least `len` gives up its last extent; an
/// extent larger than `len` is taken whole. If that group has no extents it is
/// dropped and the bytes come from the end of the store, as they do when no
/// group is large enough.
pub open spec fn allocate_spec(f: FragmentsView, end: usize, len: usize) -> (
    FragmentsView,
    usize,
    usize,
) {
    let p = count_below(f, len) as int;
    if p < f.len() {
        if f[p].1.len() > 0 {
            (f.update(p, (f[p].0, f[p].1.drop_last())), end, f[p].1.last())
        } else {
            (f.remove(p), (end + len) as usize, end)
        }
    } else {
        (f, (end + len) as usize, end)
    }
}

/// The free space after the extent at `off` of `len` bytes is given back: its
/// offset joins the group of its size; if there is no such group, an empty
/// group of that size is put in its place in order of size, and the offset is
/// not kept.
pub open spec fn release_spec(f: FragmentsView, off: usize, len: usize) -> FragmentsView {
    match group_of(f, len) {
        Some(i) => f.update(i, (len, f[i].1.push(off))),
        None => f.insert(count_below(f, len) as int, (len, Seq::empty())),
    }
}

/// Index of the first group whose size is not below `len`.
fn search_size(f: &Vec<(usize, Vec<usize>)>, len: usize) -> (p: usize)
    requires
        sizes_increasing(fragments_view(f@)),
    ensures
        splits_at(fragments_view(f@), len, p as int),
{
    let ghost fv = fragments_view(f@);
    let mut lo: usize = 0;
    let mut hi: usize = f.len();
    while lo < hi
        invariant
            0 <= lo <= hi <= f.len(),
            fv == fragments_view(f@),
            sizes_increasing(fv),
            forall|i: int| 0 <= i < lo ==> #[trigger] fv[i].0 < len,
            forall|i: int| hi <= i < f.len() ==> #[trigger] fv[i].0 >= len,
        decreases hi - lo,
    {
        let mid = lo + (hi - lo) / 2;
        if f[mid].0 < len {
            assert forall|i: int| 0 <= i < mid + 1 implies #[trigger] fv[i].0 < len by {
                if i < mid {
                    assert(fv[i].0 < fv[mid as int].0);
                }
            }
            lo = mid + 1;
        } else {
            assert forall|i: int| mid <= i < f.len() implies #[trigger] fv[i].0 >= len by {
                if i > mid {
                    assert(fv[mid as int].0 < fv[i].0);
                }
            }
            hi = mid;
        }
    }
    lo
}

/// Allocates `len` bytes; returns their offset.
pub fn allocate(f: &mut Vec<(usize, Vec<usize>)>, end: &mut usize, len: usize) -> (off: usize)
    requires
        sizes_increasing(fragments_view(old(f)@)),
        allocation_grows(fragments_view(old(f)@), len) ==> *old(end) + len <= usize::MAX,
    ensures
        (fragments_view(final(f)@), *final(end), off) == allocate_spec(
            fragments_view(old(f)@),
            *old(end),
            len,
        ),
        sizes_increasing(fragments_view(final(f)@)),
        extents_fit(fragments_view(old(f)@)) ==> extents_fit(fragments_view(final(f)@)),
        extents_fit(fragments_view(old(f)@)) ==> off + len <= usize::MAX,
{
    let ghost fv = fragments_view(f@);
    let p = search_size(f, len);
    proof {
        lemma_count_below(fv, len, p as int);
    }
    if p < f.len() {
        if f[p].1.len() > 0 {
            let mut g = f.remove(p);
            let off = match g.1.pop() {
                Some(o) => o,
                None => 0,
            };
            f.insert(p, g);
            assert(fragments_view(f@) =~= fv.update(p as int, (fv[p as int].0, fv[p as int].1.drop_last())));
            proof {
                if extents_fit(fv) {
                    assert(fv[p as int].1.last() == fv[p as int].1[fv[p as int].1.len() - 1]);
                    assert(fv[p as int].0 >= len);
                    let u = fragments_view(f@);
                    assert forall|a: int, k: int| 0 <= a < u.len() && 0 <= k < u[a].1.len()
                        implies u[a].1[k] + u[a].0 <= usize::MAX by {
                        if a == p {
                            assert(u[a].1[k] == fv[a].1[k]);
                        }
                    }
                }
            }
            off
        } else {
            f.remove(p);
            assert(fragments_view(f@) =~= fv.remove(p as int));
            proof {
                let u = fragments_view(f@);
                assert forall|a: int, b: int| 0 <= a < b < u.len() implies u[a].0 < u[b].0 by {
                    let a2 = if a < p { a } else { a + 1 };
                    let b2 = if b < p { b } else { b + 1 };
                    assert(u[a] == fv[a2]);
                    assert(u[b] == fv[b2]);
                }
                assert forall|a: int, k: int|
                    extents_fit(fv) && 0 <= a < u.len() && 0 <= k < u[a].1.len()
                    implies u[a].1[k] + u[a].0 <= usize::MAX by {
                    let a2 = if a < p { a } else { a + 1 };
                    assert(u[a] == fv[a2]);
                }
            }
            let off = *end;
            *end = *end + len;
            off
        }
    } else {
        let off = *end;
        *end = *end + len;
        off
    }
}

/// Gives back the extent at `off` of `len` bytes, as `release_spec` says.
pub fn release(f: &mut Vec<(usize, Vec<usize>)>, off: usize, len: usize)
    requires
        sizes_increasing(fragments_view(old(f)@)),
    ensures
        fragments_view(final(f)@) == release_spec(fragments_view(old(f)@), off, len),
        sizes_increasing(fragments_view(final(f)@)),
        extents_fit(fragments_view(old(f)@)) && off + len <= usize::MAX ==> extents_fit(
            fragments_view(final(f)@),
        ),
{
    let ghost fv = fragments_view(f@);
    let p = search_size(f, len);
    proof {
        lemma_count_below(fv, len, p as int);
    }
    if p < f.len() && f[p].0 == len {
        let mut g = f.remove(p);
        g.1.push(off);
        f.insert(p, g);
        assert(fragments_view(f@) =~= fv.update(p as int, (len, fv[p as int].1.push(off))));
        proof {
            let u = fragments_view(f@);
            assert forall|a: int, k: int|
                extents_fit(fv) && off + len <= usize::MAX && 0 <= a < u.len() && 0 <= k < u[a].1.len()
                implies u[a].1[k] + u[a].0 <= usize::MAX by {
                if a == p && k < fv[a].1.len() {
                    assert(u[a].1[k] == fv[a].1[k]);
                }
            }
        }
    } else {
        f.insert(p, (len, Vec::new()));
        assert(fragments_view(f@) =~= fv.insert(p as int, (len, Seq::<usize>::empty())));
        proof {
            let u = fragments_view(f@);
            assert forall|a: int, b: int| 0 <= a < b < u.len() implies u[a].0 < u[b].0 by {
                if b < p {
                } else if b == p {
                } else if a < p {
                    assert(fv[a].0 < len);
                    if b - 1 > p {
                        assert(fv[p as int].0 < fv[b - 1].0);
                    }
                } else if a == p {
                    if b - 1 > p {
                        assert(fv[p as int].0 < fv[b - 1].0);
                    }
                }
            }
            assert forall|a: int, k: int|
                extents_fit(fv) && 0 <= a < u.len() && 0 <= k < u[a].1.len()
                implies u[a].1[k] + u[a].0 <= usize::MAX by {
                if a < p {
                    assert(u[a] == fv[a]);
                } else if a > p {
                    assert(u[a] == fv[a - 1]);
                }
            }
        }
    }
}


} // verus!
