//! The store: a map from keys to values that is kept, and listed, in
//! ascending order of its keys.

use vstd::prelude::*;
use crate::order::{compare_keys, key_lt, lemma_key_lt_strict_total, Rank};

verus! {

/// A sequence of key and value pairs.
pub type Listing = Seq<(Seq<char>, Seq<char>)>;

/// The keys of `l` ascend strictly, so that no key occurs twice.
pub open spec fn ascending(l: Listing) -> bool {
    forall|i: int, j: int| #![trigger l[i], l[j]] 0 <= i < j < l.len() ==> key_lt(l[i].0, l[j].0)
}

/// Some pair of `l` has the key `k`.
pub open spec fn has_key(l: Listing, k: Seq<char>) -> bool {
    exists|i: int| 0 <= i < l.len() && (#[trigger] l[i]).0 == k
}

/// The map that `l` lists: its keys are the keys of `l`, each with the value
/// that stands beside it.
pub open spec fn listing_map(l: Listing) -> Map<Seq<char>, Seq<char>> {
    Map::new(
        |k: Seq<char>| has_key(l, k),
        |k: Seq<char>| l[choose|i: int| 0 <= i < l.len() && (#[trigger] l[i]).0 == k].1,
    )
}

/// In an ascending listing every pair is an entry of the map it lists.
pub proof fn lemma_listing_entry(l: Listing, i: int)
    requires
        ascending(l),
        0 <= i < l.len(),
    ensures
        listing_map(l).contains_key(l[i].0),
        listing_map(l)[l[i].0] == l[i].1,
{
    let k = l[i].0;
    let j = choose|j: int| 0 <= j < l.len() && (#[trigger] l[j]).0 == k;
    lemma_key_lt_strict_total(k, k, k);
    if j < i {
        assert(key_lt(l[j].0, l[i].0));
    } else if i < j {
        assert(key_lt(l[i].0, l[j].0));
    }
}

/// Putting a pair into an ascending listing at the place where its key
/// belongs keeps the listing ascending and inserts the pair into the map.
pub proof fn lemma_listing_insert(l: Listing, p: int, k: Seq<char>, v: Seq<char>)
    requires
        ascending(l),
        0 <= p <= l.len(),
        forall|j: int| 0 <= j < p ==> key_lt((#[trigger] l[j]).0, k),
        forall|j: int| p <= j < l.len() ==> key_lt(k, (#[trigger] l[j]).0),
    ensures
        ascending(l.insert(p, (k, v))),
        listing_map(l.insert(p, (k, v))) == listing_map(l).insert(k, v),
{
    let l2 = l.insert(p, (k, v));
    assert forall|i: int, j: int| 0 <= i < j < l2.len() implies key_lt(
        (#[trigger] l2[i]).0,
        (#[trigger] l2[j]).0,
    ) by {
        let i0 = if i < p { i } else { i - 1 };
        let j0 = if j < p { j } else { j - 1 };
        if i == p {
            assert(l2[j] == l[j0]);
        } else if j == p {
            assert(l2[i] == l[i0]);
        } else {
            assert(l2[i] == l[i0]);
            assert(l2[j] == l[j0]);
        }
    }
    let m2 = listing_map(l2);
    let m = listing_map(l).insert(k, v);
    assert forall|x: Seq<char>| m2.contains_key(x) <==> m.contains_key(x) by {
        if m2.contains_key(x) {
            let i = choose|i: int| 0 <= i < l2.len() && (#[trigger] l2[i]).0 == x;
            if i < p {
                assert(l[i].0 == x);
            } else if i > p {
                assert(l[i - 1].0 == x);
            }
        }
        if m.contains_key(x) {
            if x == k {
                assert(l2[p].0 == x);
            } else {
                let i = choose|i: int| 0 <= i < l.len() && (#[trigger] l[i]).0 == x;
                if i < p {
                    assert(l2[i].0 == x);
                } else {
                    assert(l2[i + 1] == l[i]);
                }
            }
        }
    }
    assert forall|x: Seq<char>| m2.contains_key(x) implies m2[x] == m[x] by {
        let i = choose|i: int| 0 <= i < l2.len() && (#[trigger] l2[i]).0 == x;
        lemma_listing_entry(l2, i);
        if i < p {
            assert(l2[i] == l[i]);
            lemma_listing_entry(l, i);
            lemma_key_lt_strict_total(x, k, k);
        } else if i > p {
            assert(l2[i] == l[i - 1]);
            lemma_listing_entry(l, i - 1);
            lemma_key_lt_strict_total(k, x, x);
        }
    }
    assert(m2 =~= m);
}

/// Giving the pair at `p` of an ascending listing a new value keeps the
/// listing ascending and gives its key that value in the map.
pub proof fn lemma_listing_update(l: Listing, p: int, v: Seq<char>)
    requires
        ascending(l),
        0 <= p < l.len(),
    ensures
        ascending(l.update(p, (l[p].0, v))),
        listing_map(l.update(p, (l[p].0, v))) == listing_map(l).insert(l[p].0, v),
{
    let k = l[p].0;
    let l2 = l.update(p, (k, v));
    assert forall|i: int, j: int| 0 <= i < j < l2.len() implies key_lt(
        (#[trigger] l2[i]).0,
        (#[trigger] l2[j]).0,
    ) by {
        assert(l2[i].0 == l[i].0);
        assert(l2[j].0 == l[j].0);
    }
    let m2 = listing_map(l2);
    let m = listing_map(l).insert(k, v);
    assert forall|x: Seq<char>| m2.contains_key(x) <==> m.contains_key(x) by {
        if m2.contains_key(x) {
            let i = choose|i: int| 0 <= i < l2.len() && (#[trigger] l2[i]).0 == x;
            assert(l[i].0 == x);
        }
        if m.contains_key(x) {
            if x == k {
                assert(l2[p].0 == x);
            } else {
                let i = choose|i: int| 0 <= i < l.len() && (#[trigger] l[i]).0 == x;
                assert(l2[i].0 == x);
            }
        }
    }
    assert forall|x: Seq<char>| m2.contains_key(x) implies m2[x] == m[x] by {
        let i = choose|i: int| 0 <= i < l2.len() && (#[trigger] l2[i]).0 == x;
        lemma_listing_entry(l2, i);
        if i != p {
            assert(l2[i] == l[i]);
            lemma_listing_entry(l, i);
            lemma_key_lt_strict_total(x, k, k);
            if i < p {
                assert(key_lt(l[i].0, l[p].0));
            } else {
                assert(key_lt(l[p].0, l[i].0));
            }
        }
    }
    assert(m2 =~= m);
}

/// Both ways of giving a key its value, as `Store::insert` uses them: at
/// `p` the listing holds the key (`found`), or `p` is where the key belongs.
proof fn lemma_listing_entry_at(l: Listing, p: int, found: bool, k: Seq<char>, v: Seq<char>)
    requires
        ascending(l),
        0 <= p <= l.len(),
        found ==> p < l.len() && l[p].0 == k,
        !found ==> forall|j: int| 0 <= j < p ==> key_lt((#[trigger] l[j]).0, k),
        !found ==> forall|j: int| p <= j < l.len() ==> key_lt(k, (#[trigger] l[j]).0),
    ensures
        ({
            let l2 = if found {
                l.update(p, (l[p].0, v))
            } else {
                l.insert(p, (k, v))
            };
            ascending(l2) && listing_map(l2) == listing_map(l).insert(k, v)
        }),
{
    if found {
        lemma_listing_update(l, p, v);
    } else {
        lemma_listing_insert(l, p, k, v);
    }
}

/// Without its last pair an ascending listing is still ascending, and lists
/// the map without the last key.
pub proof fn lemma_listing_drop_last(l: Listing)
    requires
        ascending(l),
        l.len() > 0,
    ensures
        ascending(l.drop_last()),
        !listing_map(l.drop_last()).contains_key(l.last().0),
        listing_map(l) == listing_map(l.drop_last()).insert(l.last().0, l.last().1),
        listing_map(l.drop_last()) == listing_map(l).remove(l.last().0),
{
    let n = l.len() - 1;
    let front = l.drop_last();
    let (k, v) = l.last();
    assert forall|i: int, j: int| 0 <= i < j < front.len() implies key_lt(
        (#[trigger] front[i]).0,
        (#[trigger] front[j]).0,
    ) by {
        assert(front[i] == l[i]);
        assert(front[j] == l[j]);
    }
    assert forall|j: int| 0 <= j < n implies key_lt((#[trigger] front[j]).0, k) by {
        assert(front[j] == l[j]);
        assert(key_lt(l[j].0, l[n].0));
    }
    lemma_listing_insert(front, n, k, v);
    assert(front.insert(n, (k, v)) =~= l);
    if listing_map(front).contains_key(k) {
        let i = choose|i: int| 0 <= i < front.len() && (#[trigger] front[i]).0 == k;
        lemma_key_lt_strict_total(k, k, k);
    }
    assert(listing_map(front) =~= listing_map(l).remove(k));
}

/// An ascending listing has one pair for each key of the map it lists.
pub proof fn lemma_listing_len(l: Listing)
    requires
        ascending(l),
    ensures
        listing_map(l).dom().finite(),
        listing_map(l).dom().len() == l.len(),
    decreases l.len(),
{
    if l.len() == 0 {
        assert(listing_map(l).dom() =~= Set::<Seq<char>>::empty());
    } else {
        lemma_listing_drop_last(l);
        lemma_listing_len(l.drop_last());
        assert(listing_map(l).dom() =~= listing_map(l.drop_last()).dom().insert(l.last().0));
    }
}

/// A map has one ascending listing only: two ascending listings of the same
/// map are the same sequence.
pub proof fn lemma_listing_unique(a: Listing, b: Listing)
    requires
        ascending(a),
        ascending(b),
        listing_map(a) == listing_map(b),
    ensures
        a == b,
    decreases a.len(),
{
    lemma_listing_len(a);
    lemma_listing_len(b);
    if a.len() == 0 {
        assert(a =~= b);
    } else {
        let n = a.len() - 1;
        let ka = a[n].0;
        let kb = b[n].0;
        lemma_listing_entry(a, n);
        lemma_listing_entry(b, n);
        if ka != kb {
            lemma_key_lt_strict_total(ka, kb, ka);
            if key_lt(ka, kb) {
                assert(listing_map(a).contains_key(kb));
                let i = choose|i: int| 0 <= i < a.len() && (#[trigger] a[i]).0 == kb;
                assert(key_lt(a[i].0, a[n].0));
            } else {
                assert(listing_map(b).contains_key(ka));
                let i = choose|i: int| 0 <= i < b.len() && (#[trigger] b[i]).0 == ka;
                assert(key_lt(b[i].0, b[n].0));
            }
        }
        lemma_listing_drop_last(a);
        lemma_listing_drop_last(b);
        lemma_listing_unique(a.drop_last(), b.drop_last());
        assert(a =~= a.drop_last().push(a[n]));
        assert(b =~= b.drop_last().push(b[n]));
    }
}

/// The pairs of strings as pairs of texts.
spec fn views(entries: Seq<(String, String)>) -> Listing {
    Seq::new(entries.len(), |i: int| (entries[i].0@, entries[i].1@))
}

/// A map from keys to values, held as a listing in ascending order of the
/// keys.
pub struct Store {
    entries: Vec<(String, String)>,
}

impl View for Store {
    type V = Map<Seq<char>, Seq<char>>;

    /// The map that the store holds.
    open spec fn view(&self) -> Map<Seq<char>, Seq<char>> {
        listing_map(self.listing())
    }
}

impl Store {
    /// The pairs of the store in the order in which it holds them.
    pub closed spec fn listing(&self) -> Listing {
        views(self.entries@)
    }

    #[verifier::type_invariant]
    spec fn well_formed(&self) -> bool {
        ascending(self.listing())
    }

    /// An empty store.
    pub fn new() -> (s: Store)
        ensures
            s.listing() == Seq::<(Seq<char>, Seq<char>)>::empty(),
            s@ == Map::<Seq<char>, Seq<char>>::empty(),
    {
        let s = Store { entries: Vec::new() };
        proof {
            assert(s.listing() =~= Seq::<(Seq<char>, Seq<char>)>::empty());
            assert(s@ =~= Map::<Seq<char>, Seq<char>>::empty());
        }
        s
    }

    /// The number of keys.
    pub fn len(&self) -> (n: usize)
        ensures
            n == self@.dom().len(),
            n == self.listing().len(),
            self@.dom().finite(),
    {
        proof {
            use_type_invariant(self);
            lemma_listing_len(self.listing());
        }
        self.entries.len()
    }

    /// The pairs of the store, in ascending order of their keys.
    pub fn entries(&self) -> (r: &Vec<(String, String)>)
        ensures
            r@.len() == self.listing().len(),
            forall|i: int|
                0 <= i < r@.len() ==> (r@[i].0@, r@[i].1@) == #[trigger] self.listing()[i],
            ascending(self.listing()),
    {
        proof {
            use_type_invariant(self);
        }
        &self.entries
    }

    /// Where `key` stands in the listing, or where it would have to be put.
    fn position(&self, key: &str) -> (r: (usize, bool))
        ensures
            r.0 <= self.listing().len(),
            r.1 ==> r.0 < self.listing().len() && self.listing()[r.0 as int].0 == key@,
            !r.1 ==> forall|j: int| 0 <= j < r.0 ==> key_lt((#[trigger] self.listing()[j]).0, key@),
            !r.1 ==> forall|j: int|
                r.0 <= j < self.listing().len() ==> key_lt(key@, (#[trigger] self.listing()[j]).0),
    {
        proof {
            use_type_invariant(self);
        }
        let ghost l = self.listing();
        let mut lo: usize = 0;
        let mut hi: usize = self.entries.len();
        while lo < hi
            invariant
                l == self.listing(),
                ascending(l),
                lo <= hi <= l.len(),
                l.len() == self.entries@.len(),
                forall|j: int| 0 <= j < lo ==> key_lt((#[trigger] l[j]).0, key@),
                forall|j: int| hi <= j < l.len() ==> key_lt(key@, (#[trigger] l[j]).0),
            decreases hi - lo,
        {
            let mid = lo + (hi - lo) / 2;
            let rank = compare_keys(self.entries[mid].0.as_str(), key);
            assert(l[mid as int].0 == self.entries@[mid as int].0@);
            match rank {
                Rank::Equal => {
                    return (mid, true);
                },
                Rank::Less => {
                    assert forall|j: int| 0 <= j < mid + 1 implies key_lt(
                        (#[trigger] l[j]).0,
                        key@,
                    ) by {
                        if j < mid {
                            assert(key_lt(l[j].0, l[mid as int].0));
                            lemma_key_lt_strict_total(l[j].0, l[mid as int].0, key@);
                        }
                    }
                    lo = mid + 1;
                },
                Rank::Greater => {
                    assert forall|j: int| mid <= j < l.len() implies key_lt(
                        key@,
                        (#[trigger] l[j]).0,
                    ) by {
                        if mid < j {
                            assert(key_lt(l[mid as int].0, l[j].0));
                            lemma_key_lt_strict_total(key@, l[mid as int].0, l[j].0);
                        }
                    }
                    hi = mid;
                },
            }
        }
        (lo, false)
    }

    /// The value of `key`, if the store holds the key.
    pub fn get(&self, key: &str) -> (r: Option<&str>)
        ensures
            match r {
                Some(value) => self@.contains_key(key@) && self@[key@] == value@,
                None => !self@.contains_key(key@),
            },
    {
        proof {
            use_type_invariant(self);
        }
        let (p, found) = self.position(key);
        if found {
            proof {
                lemma_listing_entry(self.listing(), p as int);
            }
            Some(self.entries[p].1.as_str())
        } else {
            proof {
                let l = self.listing();
                if has_key(l, key@) {
                    let i = choose|i: int| 0 <= i < l.len() && (#[trigger] l[i]).0 == key@;
                    lemma_key_lt_strict_total(key@, key@, key@);
                }
            }
            None
        }
    }

    /// Gives `key` the value `value`, whether or not the store held the key.
    pub fn insert(&mut self, key: String, value: String)
        ensures
            final(self)@ == old(self)@.insert(key@, value@),
    {
        proof {
            use_type_invariant(&*self);
        }
        let (p, found) = self.position(key.as_str());
        let ghost l = self.listing();
        proof {
            lemma_listing_entry_at(l, p as int, found, key@, value@);
        }
        let mut entries: Vec<(String, String)> = Vec::new();
        core::mem::swap(&mut self.entries, &mut entries);
        if found {
            entries.set(p, (key, value));
        } else {
            entries.insert(p, (key, value));
        }
        assert(views(entries@) =~= if found {
            l.update(p as int, (l[p as int].0, value@))
        } else {
            l.insert(p as int, (key@, value@))
        });
        self.entries = entries;
    }
}

} // verus!
