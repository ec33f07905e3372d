use vstd::prelude::*;
use crate::error::StoreError;
use crate::filetime::FileTimes;

verus! {

/// Where a file's encrypted contents lie in the backing store, and how to
/// read them back.
#[derive(Clone, Copy, Debug, PartialEq, Eq)]
pub struct FileRecord {
    /// xxh3-64 of the plain contents.
    pub checksum: u64,
    /// Byte offset of the stored bytes in the backing store.
    pub offset: usize,
    /// Number of stored bytes that belong to the file.
    pub len: usize,
    /// Nonce the contents were encrypted with.
    pub nonce: [u8; 12],
    /// Whether the stored bytes are the Snappy compression of the ciphertext.
    pub is_compressed: bool,
    /// Length of the plain contents.
    pub size: usize,
}

/// A link to another record.
#[derive(Clone, Copy, Debug, PartialEq, Eq)]
pub struct SymlinkRecord {
    pub reference_record_id: usize,
    pub is_file: bool,
}

/// A directory: names of its entries, each with the id of its record.
///
/// No name occurs twice; the entries keep the order in which names were
/// first added.
#[derive(Clone, Debug, PartialEq, Eq)]
pub struct DirectoryRecord {
    entries: Vec<(String, usize)>,
}

/// What a record is.
#[derive(Clone, Debug, PartialEq, Eq)]
pub enum RecordInner {
    Empty,
    File(FileRecord),
    Directory(DirectoryRecord),
    Symlink(SymlinkRecord),
}

/// One entry of the record table.
#[derive(Clone, Debug, PartialEq, Eq)]
pub struct Record {
    pub id: usize,
    pub name: String,
    pub file_times: FileTimes,
    pub inner: RecordInner,
}

/// A directory's entries as an association list of names and ids.
pub type Listing = Seq<(Seq<char>, usize)>;

/// No name occurs twice in the listing.
pub open spec fn names_distinct(s: Listing) -> bool {
    forall|i: int, j: int| 0 <= i < j < s.len() ==> s[i].0 != s[j].0
}

/// The map from names to ids that a listing describes.
pub open spec fn listing_map(s: Listing) -> Map<Seq<char>, usize>
    decreases s.len(),
{
    if s.len() == 0 {
        Map::empty()
    } else {
        listing_map(s.drop_last()).insert(s.last().0, s.last().1)
    }
}

/// The position of `name` in the listing, if it occurs.
pub open spec fn position_of(s: Listing, name: Seq<char>) -> Option<int> {
    if exists|i: int| 0 <= i < s.len() && s[i].0 == name {
        Some(choose|i: int| 0 <= i < s.len() && s[i].0 == name)
    } else {
        None
    }
}

/// The listing that a vector of owned name and id pairs describes.
pub open spec fn pairs_listing(v: Seq<(String, usize)>) -> Listing {
    v.map_values(|e: (String, usize)| (e.0@, e.1))
}

/// The listing after mapping `name` to `id`: an existing entry of that name
/// keeps its place and takes the new id; a new name goes last.
pub open spec fn listing_insert(s: Listing, name: Seq<char>, id: usize) -> Listing {
    match position_of(s, name) {
        Some(i) => s.update(i, (name, id)),
        None => s.push((name, id)),
    }
}

/// The listing without the entry of `name`, the others keeping their order.
pub open spec fn listing_remove(s: Listing, name: Seq<char>) -> Listing {
    match position_of(s, name) {
        Some(i) => s.remove(i),
        None => s,
    }
}

/// The id that the listing holds under `name`.
pub open spec fn listing_get(s: Listing, name: Seq<char>) -> Option<usize> {
    match position_of(s, name) {
        Some(i) => Some(s[i].1),
        None => None,
    }
}

/// The listing that inserting the pairs `s` one by one into an empty
/// directory gives.
pub open spec fn pairs_fold(s: Listing) -> Listing
    decreases s.len(),
{
    if s.len() == 0 {
        Seq::empty()
    } else {
        listing_insert(pairs_fold(s.drop_last()), s.last().0, s.last().1)
    }
}

/// The ids of a listing, in order.
pub open spec fn listing_ids(s: Listing) -> Seq<usize> {
    s.map_values(|e: (Seq<char>, usize)| e.1)
}

/// Every id of the listing is below `n`.
pub open spec fn ids_below(s: Listing, n: int) -> bool {
    forall|j: int| 0 <= j < s.len() ==> #[trigger] s[j].1 < n
}

/// Removing and inserting keep names distinct and ids below a bound; a name
/// that is present holds an id below the bound.
pub proof fn lemma_listing_ops(s: Listing, name: Seq<char>, id: usize, n: int)
    requires
        names_distinct(s),
        ids_below(s, n),
    ensures
        names_distinct(listing_remove(s, name)),
        ids_below(listing_remove(s, name), n),
        names_distinct(listing_insert(s, name, id)),
        id < n ==> ids_below(listing_insert(s, name, id), n),
        listing_get(s, name) matches Some(x) ==> x < n,
{
    match position_of(s, name) {
        Some(i) => {
            let p = choose|i: int| 0 <= i < s.len() && s[i].0 == name;
            assert(p == i);
            let r = s.remove(i);
            assert forall|a: int, b: int| 0 <= a < b < r.len() implies r[a].0 != r[b].0 by {
                let a2 = if a < i { a } else { a + 1 };
                let b2 = if b < i { b } else { b + 1 };
                assert(r[a] == s[a2]);
                assert(r[b] == s[b2]);
            }
            assert forall|j: int| 0 <= j < r.len() implies #[trigger] r[j].1 < n by {
                let j2 = if j < i { j } else { j + 1 };
                assert(r[j] == s[j2]);
            }
            let u = s.update(i, (name, id));
            assert forall|a: int, b: int| 0 <= a < b < u.len() implies u[a].0 != u[b].0 by {}
            assert(s[i].1 < n);
        },
        None => {
            let u = s.push((name, id));
            assert forall|a: int, b: int| 0 <= a < b < u.len() implies u[a].0 != u[b].0 by {
                if b == s.len() {
                    assert(!(0 <= a < s.len() && s[a].0 == name));
                }
            }
        },
    }
}

/// After mapping `name` to `id`, the listing gives `id` for `name` and what
/// it gave before for every other name.
pub proof fn lemma_listing_insert_get(s: Listing, name: Seq<char>, id: usize, other: Seq<char>)
    requires
        names_distinct(s),
    ensures
        listing_get(listing_insert(s, name, id), name) == Some(id),
        other != name ==> listing_get(listing_insert(s, name, id), other) == listing_get(s, other),
{
    lemma_listing_ops(s, name, id, usize::MAX as int + 1);
    let u = listing_insert(s, name, id);
    lemma_position_of(u, name);
    lemma_position_of(u, other);
    lemma_position_of(s, other);
    lemma_position_of(s, name);
    if other != name {
        match position_of(s, other) {
            Some(j) => {
                assert(u[j] == s[j]);
                assert(exists|k: int| 0 <= k < u.len() && u[k].0 == other);
            },
            None => {
                assert forall|k: int| 0 <= k < u.len() implies u[k].0 != other by {
                    if k < s.len() {
                        assert(!(0 <= k < s.len() && s[k].0 == other));
                    }
                }
            },
        }
    }
    match position_of(s, name) {
        Some(i) => assert(u[i].0 == name),
        None => assert(u[s.len() as int].0 == name),
    }
}

/// After removing `name`, the listing gives nothing for `name` and what it
/// gave before for every other name.
pub proof fn lemma_listing_remove_get(s: Listing, name: Seq<char>, other: Seq<char>)
    requires
        names_distinct(s),
    ensures
        listing_get(listing_remove(s, name), name) is None,
        other != name ==> listing_get(listing_remove(s, name), other) == listing_get(s, other),
{
    lemma_listing_ops(s, name, 0, usize::MAX as int + 1);
    let u = listing_remove(s, name);
    lemma_position_of(u, name);
    lemma_position_of(u, other);
    lemma_position_of(s, other);
    lemma_position_of(s, name);
    match position_of(s, name) {
        Some(i) => {
            assert forall|k: int| 0 <= k < u.len() implies u[k].0 != name by {
                let k2 = if k < i { k } else { k + 1 };
                assert(u[k] == s[k2]);
            }
            if other != name {
                match position_of(s, other) {
                    Some(j) => {
                        let j2 = if j < i { j } else { j - 1 };
                        assert(u[j2] == s[j]);
                        assert(exists|k: int| 0 <= k < u.len() && u[k].0 == other);
                    },
                    None => {
                        assert forall|k: int| 0 <= k < u.len() implies u[k].0 != other by {
                            let k2 = if k < i { k } else { k + 1 };
                            assert(u[k] == s[k2]);
                        }
                    },
                }
            }
        },
        None => {},
    }
}

/// A listing's map holds exactly its names, each with its id.
pub proof fn lemma_listing_map(s: Listing)
    requires
        names_distinct(s),
    ensures
        forall|k: Seq<char>|
            listing_map(s).dom().contains(k) <==> exists|i: int| 0 <= i < s.len() && s[i].0 == k,
        forall|i: int| 0 <= i < s.len() ==> #[trigger] listing_map(s)[s[i].0] == s[i].1,
        listing_map(s).dom().finite(),
    decreases s.len(),
{
    if s.len() > 0 {
        let t = s.drop_last();
        lemma_listing_map(t);
        assert forall|k: Seq<char>|
            listing_map(s).dom().contains(k) implies exists|i: int| 0 <= i < s.len() && s[i].0 == k by {
            if k == s.last().0 {
                assert(s[s.len() - 1].0 == k);
            } else {
                let i = choose|i: int| 0 <= i < t.len() && t[i].0 == k;
                assert(s[i].0 == k);
            }
        }
        assert forall|k: Seq<char>|
            (exists|i: int| 0 <= i < s.len() && s[i].0 == k) implies listing_map(s).dom().contains(k) by {
            let i = choose|i: int| 0 <= i < s.len() && s[i].0 == k;
            if i < s.len() - 1 {
                assert(t[i].0 == k);
            }
        }
        assert forall|i: int| 0 <= i < s.len() implies #[trigger] listing_map(s)[s[i].0] == s[i].1 by {
            if i < s.len() - 1 {
                assert(t[i] == s[i]);
                assert(s[i].0 != s.last().0);
            }
        }
    }
}

/// Where a name occurs in a listing with distinct names.
pub proof fn lemma_position_of(s: Listing, name: Seq<char>)
    requires
        names_distinct(s),
    ensures
        match position_of(s, name) {
            Some(i) => 0 <= i < s.len() && s[i].0 == name && listing_map(s).dom().contains(name)
                && listing_map(s)[name] == s[i].1,
            None => !listing_map(s).dom().contains(name),
        },
{
    lemma_listing_map(s);
    if let Some(i) = position_of(s, name) {
        assert(listing_map(s)[s[i].0] == s[i].1);
    }
}

impl View for DirectoryRecord {
    type V = Map<Seq<char>, usize>;

    /// Names mapped to record ids.
    closed spec fn view(&self) -> Map<Seq<char>, usize> {
        listing_map(self.listing())
    }
}

impl DirectoryRecord {
    /// The entries, in order.
    pub closed spec fn listing(&self) -> Listing {
        pairs_listing(self.entries@)
    }

    /// No name occurs twice.
    pub open spec fn wf(&self) -> bool {
        names_distinct(self.listing())
    }

    /// The listing of every directory has distinct names, and its view is the
    /// map that the listing describes.
    pub proof fn lemma_wf(&self)
        requires
            self.wf(),
        ensures
            names_distinct(self.listing()),
            self@ == listing_map(self.listing()),
            self@.dom().finite(),
            forall|i: int|
                0 <= i < self.listing().len() ==> #[trigger] self@.dom().contains(
                    self.listing()[i].0,
                ) && self@[self.listing()[i].0] == self.listing()[i].1,
            forall|k: Seq<char>|
                self@.dom().contains(k) ==> exists|i: int|
                    0 <= i < self.listing().len() && self.listing()[i].0 == k,
    {
        lemma_listing_map(self.listing());
    }

    /// An empty directory.
    pub fn new() -> (r: DirectoryRecord)
        ensures
            r.wf(),
            r.listing() == Seq::<(Seq<char>, usize)>::empty(),
            r@ == Map::<Seq<char>, usize>::empty(),
    {
        let r = DirectoryRecord { entries: Vec::new() };
        assert(r.listing() =~= Seq::<(Seq<char>, usize)>::empty());
        r
    }

    /// Number of entries.
    pub fn len(&self) -> (n: usize)
        ensures
            n == self.listing().len(),
    {
        self.entries.len()
    }

    /// The index of `name` in the listing.
    fn find(&self, name: &str) -> (r: Option<usize>)
        requires
            self.wf(),
        ensures
            match r {
                Some(i) => position_of(self.listing(), name@) == Some(i as int),
                None => position_of(self.listing(), name@) is None,
            },
    {
        let target = name.to_owned();
        let mut i: usize = 0;
        while i < self.entries.len()
            invariant
                i <= self.entries.len(),
                target@ == name@,
                names_distinct(self.listing()),
                forall|j: int| 0 <= j < i ==> self.listing()[j].0 != name@,
            decreases self.entries.len() - i,
        {
            if self.entries[i].0 == target {
                assert(self.listing()[i as int].0 == name@);
                proof {
                    let p = choose|j: int|
                        0 <= j < self.listing().len() && self.listing()[j].0 == name@;
                    assert(p == i);
                }
                return Some(i);
            }
            assert(self.listing()[i as int].0 != name@);
            i = i + 1;
        }
        None
    }

    /// The id stored under `name`.
    pub fn get(&self, name: &str) -> (r: Option<usize>)
        requires
            self.wf(),
        ensures
            r == listing_get(self.listing(), name@),
            r == (if self@.dom().contains(name@) {
                Some(self@[name@])
            } else {
                None::<usize>
            }),
    {
        proof {
            self.lemma_wf();
            lemma_position_of(self.listing(), name@);
        }
        match self.find(name) {
            Some(i) => Some(self.entries[i].1),
            None => None,
        }
    }

    /// Maps `name` to `id`, replacing the id it had; returns the id it had.
    /// A new name goes after the existing ones.
    pub fn insert(&mut self, name: String, id: usize) -> (r: Option<usize>)
        requires
            old(self).wf(),
        ensures
            final(self).wf(),
            final(self)@ == old(self)@.insert(name@, id),
            r == (if old(self)@.dom().contains(name@) {
                Some(old(self)@[name@])
            } else {
                None::<usize>
            }),
            final(self).listing() == listing_insert(old(self).listing(), name@, id),
            r == listing_get(old(self).listing(), name@),
    {
        proof {
            self.lemma_wf();
            lemma_position_of(self.listing(), name@);
        }
        let ghost old_listing = self.listing();
        match self.find(name.as_str()) {
            Some(i) => {
                let prev = self.entries[i].1;
                let ghost nm = name@;
                let mut entries: Vec<(String, usize)> = Vec::new();
                std::mem::swap(&mut entries, &mut self.entries);
                entries.set(i, (name, id));
                assert(pairs_listing(entries@) =~= old_listing.update(
                    i as int,
                    (nm, id),
                ));
                proof {
                    let s2 = old_listing.update(i as int, (nm, id));
                    assert(names_distinct(s2));
                    lemma_listing_map(old_listing);
                    lemma_listing_map(s2);
                    assert(listing_map(s2) =~= listing_map(old_listing).insert(nm, id)) by {
                        assert forall|k: Seq<char>|
                            listing_map(old_listing).insert(nm, id).dom().contains(k) implies
                            listing_map(s2).dom().contains(k) by {
                            if k != nm {
                                let j = choose|j: int| 0 <= j < old_listing.len() && old_listing[j].0 == k;
                                assert(s2[j].0 == k);
                            } else {
                                assert(s2[i as int].0 == k);
                            }
                        }
                        assert forall|k: Seq<char>| listing_map(s2).dom().contains(k) implies
                            listing_map(old_listing).insert(nm, id).dom().contains(k)
                            && listing_map(s2)[k] == listing_map(old_listing).insert(nm, id)[k] by {
                            let j = choose|j: int| 0 <= j < s2.len() && s2[j].0 == k;
                            assert(listing_map(s2)[s2[j].0] == s2[j].1);
                            if j != i {
                                assert(old_listing[j].0 == k);
                                assert(listing_map(old_listing)[old_listing[j].0] == old_listing[j].1);
                            }
                        }
                    }
                }
                self.entries = entries;
                Some(prev)
            },
            None => {
                let ghost nm = name@;
                let mut entries: Vec<(String, usize)> = Vec::new();
                std::mem::swap(&mut entries, &mut self.entries);
                entries.push((name, id));
                assert(pairs_listing(entries@) =~= old_listing.push(
                    (nm, id),
                ));
                proof {
                    let s2 = old_listing.push((nm, id));
                    assert(s2.drop_last() =~= old_listing);
                    assert forall|a: int, b: int| 0 <= a < b < s2.len() implies s2[a].0 != s2[b].0 by {
                        if b == s2.len() - 1 {
                            assert(old_listing[a].0 != nm);
                        }
                    }
                }
                self.entries = entries;
                None
            },
        }
    }

    /// Removes `name`; returns the id it had.
    pub fn remove(&mut self, name: &str) -> (r: Option<usize>)
        requires
            old(self).wf(),
        ensures
            final(self).wf(),
            final(self)@ == old(self)@.remove(name@),
            r == (if old(self)@.dom().contains(name@) {
                Some(old(self)@[name@])
            } else {
                None::<usize>
            }),
            final(self).listing() == listing_remove(old(self).listing(), name@),
            r == listing_get(old(self).listing(), name@),
    {
        proof {
            self.lemma_wf();
            lemma_position_of(self.listing(), name@);
        }
        let ghost old_listing = self.listing();
        match self.find(name) {
            Some(i) => {
                let mut entries: Vec<(String, usize)> = Vec::new();
                std::mem::swap(&mut entries, &mut self.entries);
                let (_, prev) = entries.remove(i);
                assert(pairs_listing(entries@) =~= old_listing.remove(
                    i as int,
                ));
                proof {
                    let s2 = old_listing.remove(i as int);
                    assert forall|a: int, b: int| 0 <= a < b < s2.len() implies s2[a].0 != s2[b].0 by {
                        let a2 = if a < i { a } else { a + 1 };
                        let b2 = if b < i { b } else { b + 1 };
                        assert(s2[a] == old_listing[a2]);
                        assert(s2[b] == old_listing[b2]);
                    }
                    lemma_listing_map(old_listing);
                    lemma_listing_map(s2);
                    let nm = name@;
                    assert(listing_map(s2) =~= listing_map(old_listing).remove(nm)) by {
                        assert forall|k: Seq<char>|
                            listing_map(old_listing).remove(nm).dom().contains(k) implies
                            listing_map(s2).dom().contains(k) by {
                            let j = choose|j: int| 0 <= j < old_listing.len() && old_listing[j].0 == k;
                            assert(j != i);
                            let j2 = if j < i { j } else { j - 1 };
                            assert(s2[j2] == old_listing[j]);
                        }
                        assert forall|k: Seq<char>| listing_map(s2).dom().contains(k) implies
                            listing_map(old_listing).remove(nm).dom().contains(k)
                            && listing_map(s2)[k] == listing_map(old_listing)[k] by {
                            let j = choose|j: int| 0 <= j < s2.len() && s2[j].0 == k;
                            let j2 = if j < i { j } else { j + 1 };
                            assert(s2[j] == old_listing[j2]);
                            assert(listing_map(s2)[s2[j].0] == s2[j].1);
                            assert(listing_map(old_listing)[old_listing[j2].0] == old_listing[j2].1);
                            assert(j2 != i);
                        }
                    }
                }
                self.entries = entries;
                Some(prev)
            },
            None => None,
        }
    }

    /// The ids of the entries, in listing order.
    pub fn ids(&self) -> (r: Vec<usize>)
        ensures
            r@ == listing_ids(self.listing()),
    {
        let mut r: Vec<usize> = Vec::new();
        let mut i: usize = 0;
        while i < self.entries.len()
            invariant
                i <= self.entries.len(),
                r@ == listing_ids(self.listing()).take(i as int),
            decreases self.entries.len() - i,
        {
            r.push(self.entries[i].1);
            assert(listing_ids(self.listing()).take(i + 1) =~= listing_ids(self.listing()).take(
                i as int,
            ).push(self.entries[i as int].1));
            i = i + 1;
        }
        assert(listing_ids(self.listing()).take(i as int) =~= listing_ids(self.listing()));
        r
    }

    /// The entries, in listing order, as owned pairs.
    pub fn to_pairs(&self) -> (r: Vec<(String, usize)>)
        ensures
            pairs_listing(r@) == self.listing(),
    {
        let mut r: Vec<(String, usize)> = Vec::new();
        let mut i: usize = 0;
        while i < self.entries.len()
            invariant
                i <= self.entries.len(),
                r@.len() == i,
                self.listing().len() == self.entries@.len(),
                pairs_listing(r@) == self.listing().take(i as int),
            decreases self.entries.len() - i,
        {
            let name = self.entries[i].0.clone();
            assert(name@ == self.entries@[i as int].0@);
            let ghost before = r@;
            r.push((name, self.entries[i].1));
            assert(r@ == before.push((name, self.entries[i as int].1)));
            assert(pairs_listing(r@)[i as int] == self.listing()[i as int]);
            assert(pairs_listing(r@) =~= self.listing().take(
                i + 1,
            ));
            i = i + 1;
        }
        assert(self.listing().take(i as int) =~= self.listing());
        r
    }

    /// A directory holding the given pairs, a later pair replacing the id of
    /// an earlier one of the same name.
    pub fn from_pairs(pairs: Vec<(String, usize)>) -> (r: DirectoryRecord)
        ensures
            r.wf(),
            r.listing() == pairs_fold(pairs_listing(pairs@)),
    {
        let mut d = DirectoryRecord::new();
        let mut i: usize = 0;
        let ghost pl = pairs_listing(pairs@);
        while i < pairs.len()
            invariant
                i <= pairs.len(),
                pl == pairs_listing(pairs@),
                d.wf(),
                d.listing() == pairs_fold(pl.take(i as int)),
            decreases pairs.len() - i,
        {
            let name = pairs[i].0.clone();
            d.insert(name, pairs[i].1);
            assert(pl.take(i + 1).drop_last() =~= pl.take(i as int));
            assert(pl.take(i + 1).last() == pl[i as int]);
            i = i + 1;
        }
        assert(pl.take(i as int) =~= pl);
        d
    }

    /// Whether no name occurs twice.
    pub fn has_distinct_names(&self) -> (r: bool)
        ensures
            r == self.wf(),
    {
        let mut i: usize = 0;
        while i < self.entries.len()
            invariant
                i <= self.entries.len(),
                forall|a: int, b: int| 0 <= a < b < self.listing().len() && a < i ==> self.listing()[a].0
                    != self.listing()[b].0,
            decreases self.entries.len() - i,
        {
            let mut j: usize = i + 1;
            while j < self.entries.len()
                invariant
                    i < j <= self.entries.len(),
                    forall|a: int, b: int| 0 <= a < b < self.listing().len() && a < i ==> self.listing()[a].0
                        != self.listing()[b].0,
                    forall|b: int| i < b < j ==> self.listing()[i as int].0 != self.listing()[b].0,
                decreases self.entries.len() - j,
            {
                if self.entries[i].0 == self.entries[j].0 {
                    assert(self.listing()[i as int].0 == self.listing()[j as int].0);
                    return false;
                }
                j = j + 1;
            }
            i = i + 1;
        }
        true
    }

    /// A copy with the same entries in the same order.
    pub fn duplicate(&self) -> (r: DirectoryRecord)
        ensures
            r.listing() == self.listing(),
            r@ == self@,
            r.wf() == self.wf(),
    {
        let entries = self.to_pairs();
        let r = DirectoryRecord { entries };
        assert(r.listing() =~= self.listing());
        r
    }
}

} // verus!

verus! {

/// What a record is, with a directory taken as its listing.
pub enum InnerView {
    Empty,
    File(FileRecord),
    Directory(Listing),
    Symlink(SymlinkRecord),
}

/// A record as a mathematical value.
pub struct RecordView {
    pub id: usize,
    pub name: Seq<char>,
    pub file_times: FileTimes,
    pub inner: InnerView,
}

impl View for RecordInner {
    type V = InnerView;

    open spec fn view(&self) -> InnerView {
        match self {
            RecordInner::Empty => InnerView::Empty,
            RecordInner::File(f) => InnerView::File(*f),
            RecordInner::Directory(d) => InnerView::Directory(d.listing()),
            RecordInner::Symlink(s) => InnerView::Symlink(*s),
        }
    }
}

impl View for Record {
    type V = RecordView;

    open spec fn view(&self) -> RecordView {
        RecordView {
            id: self.id,
            name: self.name@,
            file_times: self.file_times,
            inner: self.inner@,
        }
    }
}

impl RecordInner {
    /// A directory has no name twice.
    pub open spec fn wf(&self) -> bool {
        match self {
            RecordInner::Directory(d) => d.wf(),
            _ => true,
        }
    }

    /// A copy with the same view.
    pub fn duplicate(&self) -> (r: RecordInner)
        ensures
            r@ == self@,
            r.wf() == self.wf(),
    {
        match self {
            RecordInner::Empty => RecordInner::Empty,
            RecordInner::File(f) => RecordInner::File(*f),
            RecordInner::Directory(d) => RecordInner::Directory(d.duplicate()),
            RecordInner::Symlink(s) => RecordInner::Symlink(*s),
        }
    }
}

/// The empty record: id 0, no name, zero times, no contents.
pub open spec fn empty_record_view() -> RecordView {
    RecordView {
        id: 0,
        name: Seq::empty(),
        file_times: FileTimes { created: 0, modified: 0, accessed: 0 },
        inner: InnerView::Empty,
    }
}

impl Record {
    /// Its directory, if it is one, has no name twice.
    pub open spec fn wf(&self) -> bool {
        self.inner.wf()
    }

    /// A copy with the same view.
    pub fn duplicate(&self) -> (r: Record)
        ensures
            r@ == self@,
            r.wf() == self.wf(),
    {
        Record {
            id: self.id,
            name: self.name.clone(),
            file_times: self.file_times,
            inner: self.inner.duplicate(),
        }
    }

    /// The record's file data, or `NotFile` with its name.
    pub fn as_file(&self) -> (r: Result<&FileRecord, StoreError>)
        ensures
            match self.inner {
                RecordInner::File(f) => r == Ok::<&FileRecord, StoreError>(&f),
                _ => r == Err::<&FileRecord, StoreError>(StoreError::NotFile { name: self.name }),
            },
    {
        match &self.inner {
            RecordInner::File(file) => Ok(file),
            _ => Err(StoreError::NotFile { name: self.name.clone() }),
        }
    }

    /// The record's directory, or `NotDirectory` with its name.
    pub fn as_directory(&self) -> (r: Result<&DirectoryRecord, StoreError>)
        ensures
            match self.inner {
                RecordInner::Directory(d) => r == Ok::<&DirectoryRecord, StoreError>(&d),
                _ => r == Err::<&DirectoryRecord, StoreError>(StoreError::NotDirectory { name: self.name }),
            },
    {
        match &self.inner {
            RecordInner::Directory(directory) => Ok(directory),
            _ => Err(StoreError::NotDirectory { name: self.name.clone() }),
        }
    }

    /// The record's directory for changing, or `NotDirectory` with its name.
    pub fn as_directory_mut(&mut self) -> (r: Result<&mut DirectoryRecord, StoreError>)
        ensures
            old(self).inner is Directory <==> r is Ok,
            match r {
                Ok(d) => {
                    &&& old(self).inner == RecordInner::Directory(*d)
                    &&& *final(self) == (Record { inner: RecordInner::Directory(*final(d)), ..*old(self) })
                },
                Err(e) => {
                    &&& e == StoreError::NotDirectory { name: old(self).name }
                    &&& *final(self) == *old(self)
                },
            },
    {
        match &mut self.inner {
            RecordInner::Directory(directory) => Ok(directory),
            _ => Err(StoreError::NotDirectory { name: self.name.clone() }),
        }
    }
}

impl Default for Record {
    fn default() -> (r: Record)
        ensures
            r@ == empty_record_view(),
            r.wf(),
    {
        Record {
            id: 0,
            name: String::new(),
            file_times: FileTimes::default(),
            inner: RecordInner::Empty,
        }
    }
}

} // verus!
