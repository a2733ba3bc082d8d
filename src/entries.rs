//! An ordered map from string keys to string values, kept sorted by key in
//! the order that `String`'s `Ord` uses: code point by code point.
use vstd::prelude::*;

verus! {

/// `a` sorts strictly before `b`, comparing from position `i` on.
pub open spec fn key_lt_from(a: Seq<char>, b: Seq<char>, i: int) -> bool
    decreases a.len() - i,
{
    if i < 0 || i >= a.len() {
        i >= 0 && i < b.len()
    } else if i >= b.len() {
        false
    } else if a[i] != b[i] {
        (a[i] as int) < (b[i] as int)
    } else {
        key_lt_from(a, b, i + 1)
    }
}

/// Lexicographic order on keys.
pub open spec fn key_lt(a: Seq<char>, b: Seq<char>) -> bool {
    key_lt_from(a, b, 0)
}

proof fn lemma_lt_from_irreflexive(a: Seq<char>, i: int)
    requires
        0 <= i,
    ensures
        !key_lt_from(a, a, i),
    decreases a.len() - i,
{
    if i < a.len() {
        lemma_lt_from_irreflexive(a, i + 1);
    }
}

proof fn lemma_lt_from_transitive(a: Seq<char>, b: Seq<char>, c: Seq<char>, i: int)
    requires
        0 <= i,
        key_lt_from(a, b, i),
        key_lt_from(b, c, i),
    ensures
        key_lt_from(a, c, i),
    decreases a.len() - i,
{
    if i < a.len() && i < b.len() && i < c.len() && a[i] == b[i] && b[i] == c[i] {
        lemma_lt_from_transitive(a, b, c, i + 1);
    }
}

proof fn lemma_lt_from_total(a: Seq<char>, b: Seq<char>, i: int)
    requires
        0 <= i <= a.len(),
        i <= b.len(),
        a.take(i) == b.take(i),
        !key_lt_from(a, b, i),
        !key_lt_from(b, a, i),
    ensures
        a == b,
    decreases a.len() - i,
{
    if i < a.len() && i < b.len() {
        if a[i] != b[i] {
            assert((a[i] as int) != (b[i] as int));
        }
        assert(a[i] == b[i]);
        assert(a.take(i + 1) =~= a.take(i).push(a[i]));
        assert(b.take(i + 1) =~= b.take(i).push(b[i]));
        lemma_lt_from_total(a, b, i + 1);
    } else {
        assert(a =~= a.take(i));
        assert(b =~= b.take(i));
    }
}

/// The order on keys is a strict total order.
pub proof fn lemma_key_order(a: Seq<char>, b: Seq<char>, c: Seq<char>)
    ensures
        !key_lt(a, a),
        key_lt(a, b) && key_lt(b, c) ==> key_lt(a, c),
        a != b ==> key_lt(a, b) || key_lt(b, a),
{
    lemma_lt_from_irreflexive(a, 0);
    if key_lt(a, b) && key_lt(b, c) {
        lemma_lt_from_transitive(a, b, c, 0);
    }
    if !key_lt(a, b) && !key_lt(b, a) {
        assert(a.take(0) =~= b.take(0));
        lemma_lt_from_total(a, b, 0);
    }
}

/// Compares two keys as `String`'s `Ord` does.
pub fn key_less(a: &String, b: &String) -> (r: bool)
    ensures
        r == key_lt(a@, b@),
{
    let sa = a.as_str();
    let sb = b.as_str();
    let na = sa.unicode_len();
    let nb = sb.unicode_len();
    let mut i: usize = 0;
    while i < na && i < nb
        invariant
            na == a@.len(),
            nb == b@.len(),
            sa@ == a@,
            sb@ == b@,
            0 <= i <= na,
            i <= nb,
            key_lt(a@, b@) == key_lt_from(a@, b@, i as int),
        decreases na - i,
    {
        let ca = sa.get_char(i);
        let cb = sb.get_char(i);
        if ca != cb {
            return (ca as u32) < (cb as u32);
        }
        i = i + 1;
    }
    i == na && i < nb
}


/// Keys strictly increase along the sequence.
pub open spec fn keys_increasing(ps: Seq<(Seq<char>, Seq<char>)>) -> bool {
    forall|i: int, j: int| 0 <= i < j < ps.len() ==> key_lt(#[trigger] ps[i].0, #[trigger] ps[j].0)
}

/// No two pairs share a key.
pub open spec fn keys_distinct(ps: Seq<(Seq<char>, Seq<char>)>) -> bool {
    forall|i: int, j: int| 0 <= i < ps.len() && 0 <= j < ps.len() && i != j ==> #[trigger] ps[i].0 != #[trigger] ps[j].0
}

/// The map that results from inserting the pairs in order: a later pair
/// overwrites an earlier one with the same key.
pub open spec fn pairs_map(ps: Seq<(Seq<char>, Seq<char>)>) -> Map<Seq<char>, Seq<char>>
    decreases ps.len(),
{
    if ps.len() == 0 {
        Map::empty()
    } else {
        pairs_map(ps.drop_last()).insert(ps.last().0, ps.last().1)
    }
}

pub proof fn lemma_increasing_distinct(ps: Seq<(Seq<char>, Seq<char>)>)
    requires
        keys_increasing(ps),
    ensures
        keys_distinct(ps),
{
    assert forall|i: int, j: int| 0 <= i < ps.len() && 0 <= j < ps.len() && i != j implies #[trigger] ps[i].0 != #[trigger] ps[j].0 by {
        lemma_key_order(ps[i].0, ps[j].0, ps[j].0);
        lemma_key_order(ps[j].0, ps[i].0, ps[i].0);
    }
}

/// With distinct keys, the map holds exactly the pairs.
pub proof fn lemma_pairs_map(ps: Seq<(Seq<char>, Seq<char>)>)
    requires
        keys_distinct(ps),
    ensures
        pairs_map(ps).dom().finite(),
        pairs_map(ps).len() == ps.len(),
        forall|i: int| 0 <= i < ps.len() ==> #[trigger] pairs_map(ps).contains_key(ps[i].0)
            && pairs_map(ps)[ps[i].0] == ps[i].1,
        forall|k: Seq<char>| #[trigger] pairs_map(ps).contains_key(k) ==> exists|i: int| 0 <= i < ps.len() && ps[i].0 == k,
    decreases ps.len(),
{
    if ps.len() > 0 {
        let q = ps.drop_last();
        assert(keys_distinct(q));
        lemma_pairs_map(q);
        assert(!pairs_map(q).contains_key(ps.last().0)) by {
            if pairs_map(q).contains_key(ps.last().0) {
                let i = choose|i: int| 0 <= i < q.len() && q[i].0 == ps.last().0;
                assert(ps[i].0 == ps[ps.len() - 1].0);
            }
        }
        assert forall|k: Seq<char>| #[trigger] pairs_map(ps).contains_key(k) implies exists|i: int| 0 <= i < ps.len() && ps[i].0 == k by {
            if k != ps.last().0 {
                let i = choose|i: int| 0 <= i < q.len() && q[i].0 == k;
                assert(ps[i].0 == k);
            } else {
                assert(ps[ps.len() - 1].0 == k);
            }
        }
        assert forall|i: int| 0 <= i < ps.len() implies #[trigger] pairs_map(ps).contains_key(ps[i].0)
            && pairs_map(ps)[ps[i].0] == ps[i].1 by {
            if i < ps.len() - 1 {
                assert(q[i] == ps[i]);
            }
        }
    }
}

/// Strictly increasing keys make the pairs and their map say the same.
pub proof fn lemma_increasing_pairs(ps: Seq<(Seq<char>, Seq<char>)>)
    requires
        keys_increasing(ps),
    ensures
        keys_distinct(ps),
        pairs_map(ps).len() == ps.len(),
        pairs_map(ps).dom().finite(),
        forall|i: int| 0 <= i < ps.len() ==> #[trigger] pairs_map(ps).contains_key(ps[i].0)
            && pairs_map(ps)[ps[i].0] == ps[i].1,
        forall|k: Seq<char>| #[trigger] pairs_map(ps).contains_key(k) ==> exists|i: int| 0 <= i < ps.len() && ps[i].0 == k,
{
    lemma_increasing_distinct(ps);
    lemma_pairs_map(ps);
}

/// Builds the map's view as the pairs it holds.
pub open spec fn pair_views(items: Seq<(String, String)>) -> Seq<(Seq<char>, Seq<char>)> {
    items.map_values(|p: (String, String)| (p.0@, p.1@))
}

/// A map from string keys to string values whose entries are kept in key
/// order.
pub struct Entries {
    items: Vec<(String, String)>,
}

impl Entries {
    /// The entries in key order.
    pub closed spec fn pairs(&self) -> Seq<(Seq<char>, Seq<char>)> {
        pair_views(self.items@)
    }

    #[verifier::type_invariant]
    closed spec fn sorted(&self) -> bool {
        keys_increasing(self.pairs())
    }

    /// An empty map.
    pub fn new() -> (r: Entries)
        ensures
            r@ == Map::<Seq<char>, Seq<char>>::empty(),
            r.pairs().len() == 0,
    {
        let r = Entries { items: Vec::new() };
        assert(r.pairs() =~= Seq::empty());
        r
    }

    /// The number of entries.
    pub fn len(&self) -> (r: usize)
        ensures
            r == self@.len(),
            r == self.pairs().len(),
            keys_increasing(self.pairs()),
    {
        proof {
            use_type_invariant(self);
            lemma_increasing_pairs(self.pairs());
        }
        self.items.len()
    }

    /// The key of the `i`th entry in key order.
    pub fn key_at(&self, i: usize) -> (r: &String)
        requires
            i < self.pairs().len(),
        ensures
            r@ == self.pairs()[i as int].0,
    {
        &self.items[i].0
    }

    /// The value of the `i`th entry in key order.
    pub fn value_at(&self, i: usize) -> (r: &String)
        requires
            i < self.pairs().len(),
        ensures
            r@ == self.pairs()[i as int].1,
    {
        &self.items[i].1
    }

    /// Where `key` stands, if it is present.
    fn find(&self, key: &String) -> (r: Option<usize>)
        ensures
            match r {
                Some(i) => i < self.pairs().len() && self.pairs()[i as int].0 == key@,
                None => !self@.contains_key(key@),
            },
    {
        proof {
            use_type_invariant(self);
            lemma_increasing_pairs(self.pairs());
        }
        let mut i: usize = 0;
        while i < self.items.len()
            invariant
                i <= self.items.len(),
                forall|j: int| 0 <= j < i ==> self.pairs()[j].0 != key@,
            decreases self.items.len() - i,
        {
            if self.items[i].0 == *key {
                return Some(i);
            }
            i = i + 1;
        }
        None
    }

    /// The value held for `key`.
    pub fn get(&self, key: &String) -> (r: Option<&String>)
        ensures
            match r {
                Some(v) => self@.contains_key(key@) && v@ == self@[key@],
                None => !self@.contains_key(key@),
            },
    {
        proof {
            use_type_invariant(self);
            lemma_increasing_pairs(self.pairs());
        }
        match self.find(key) {
            Some(i) => {
                proof {
                    assert(self.pairs()[i as int] == (self.items@[i as int].0@, self.items@[i as int].1@));
                    assert(self@.contains_key(self.pairs()[i as int].0));
                }
                Some(&self.items[i].1)
            },
            None => None,
        }
    }

    /// Sets the value for `key`, replacing any earlier value.
    pub fn insert(&mut self, key: String, value: String)
        ensures
            final(self)@ == old(self)@.insert(key@, value@),
    {
        proof {
            use_type_invariant(&*self);
            lemma_increasing_pairs(self.pairs());
        }
        let ghost ps = self.pairs();
        let mut i: usize = 0;
        while i < self.items.len() && key_less(&self.items[i].0, &key)
            invariant
                i <= self.items.len(),
                ps == pair_views(self.items@),
                forall|j: int| 0 <= j < i ==> key_lt(#[trigger] ps[j].0, key@),
            decreases self.items.len() - i,
        {
            i = i + 1;
        }
        let ghost np: (Seq<char>, Seq<char>) = (key@, value@);
        let mut taken = Entries::new();
        core::mem::swap(self, &mut taken);
        let mut items = taken.items;
        if i < items.len() && items[i].0 == key {
            let ghost qs = ps.update(i as int, np);
            items.set(i, (key, value));
            proof {
            assert(items@.map_values(|p: (String, String)| (p.0@, p.1@)) =~= qs);
            assert forall|j: int| 0 <= j < qs.len() implies #[trigger] qs[j].0 == ps[j].0 by {}
            assert(keys_increasing(qs));
            assert(keys_distinct(qs)) by { lemma_increasing_distinct(qs); }
            lemma_pairs_map(qs);
            assert(pairs_map(qs) =~= pairs_map(ps).insert(np.0, np.1)) by {
                assert forall|k: Seq<char>| #[trigger] pairs_map(qs).contains_key(k) implies pairs_map(ps).insert(np.0, np.1).contains_key(k) by {
                    let j = choose|j: int| 0 <= j < qs.len() && qs[j].0 == k;
                    if j != i { assert(ps[j] == qs[j]); }
                }
                assert forall|k: Seq<char>| #[trigger] pairs_map(ps).insert(np.0, np.1).contains_key(k) implies pairs_map(qs).contains_key(k) && pairs_map(qs)[k] == pairs_map(ps).insert(np.0, np.1)[k] by {
                    if k != key@ {
                        let j = choose|j: int| 0 <= j < ps.len() && ps[j].0 == k;
                        assert(qs[j] == ps[j]);
                    } else {
                        assert(qs[i as int] == np);
                    }
                }
            }
            }
        } else {
            proof {
                assert forall|j: int| i <= j < ps.len() implies key_lt(key@, #[trigger] ps[j].0) by {
                    lemma_key_order(key@, ps[i as int].0, ps[j].0);
                    lemma_key_order(ps[i as int].0, key@, key@);
                    if j > i {
                        lemma_key_order(key@, ps[i as int].0, ps[j].0);
                    }
                }
            }
            let ghost qs = ps.insert(i as int, np);
            items.insert(i, (key, value));
            proof {
            assert(items@.map_values(|p: (String, String)| (p.0@, p.1@)) =~= qs);
            assert(keys_increasing(qs)) by {
                assert forall|a: int, b: int| 0 <= a < b < qs.len() implies key_lt(#[trigger] qs[a].0, #[trigger] qs[b].0) by {
                    if b < i {
                    } else if a < i && b == i {
                    } else if a < i {
                        lemma_key_order(qs[a].0, key@, qs[b].0);
                    } else if a == i {
                    } else {
                        assert(qs[a] == ps[a - 1] && qs[b] == ps[b - 1]);
                    }
                }
            }
            assert(keys_distinct(qs)) by { lemma_increasing_distinct(qs); }
            lemma_pairs_map(qs);
            assert(pairs_map(qs) =~= pairs_map(ps).insert(np.0, np.1)) by {
                assert forall|k: Seq<char>| #[trigger] pairs_map(qs).contains_key(k) implies pairs_map(ps).insert(np.0, np.1).contains_key(k) by {
                    let j = choose|j: int| 0 <= j < qs.len() && qs[j].0 == k;
                    if j < i { assert(ps[j] == qs[j]); }
                    else if j > i { assert(ps[j - 1] == qs[j]); }
                }
                assert forall|k: Seq<char>| #[trigger] pairs_map(ps).insert(np.0, np.1).contains_key(k) implies pairs_map(qs).contains_key(k) && pairs_map(qs)[k] == pairs_map(ps).insert(np.0, np.1)[k] by {
                    if k != key@ {
                        let j = choose|j: int| 0 <= j < ps.len() && ps[j].0 == k;
                        if j < i {
                            assert(qs[j] == ps[j]);
                            assert(pairs_map(qs).contains_key(qs[j].0));
                        } else {
                            assert(qs[j + 1] == ps[j]);
                            assert(pairs_map(qs).contains_key(qs[j + 1].0));
                        }
                    } else {
                        assert(qs[i as int] == np);
                    }
                }
            }
            }
        }
        *self = Entries { items };
    }

    /// Takes out the entry for `key`, handing back its value if it was there.
    pub fn remove(&mut self, key: &String) -> (r: Option<String>)
        ensures
            final(self)@ == old(self)@.remove(key@),
            match r {
                Some(v) => old(self)@.contains_key(key@) && v@ == old(self)@[key@]
                    && final(self)@.len() + 1 == old(self)@.len(),
                None => !old(self)@.contains_key(key@) && final(self)@ == old(self)@,
            },
    {
        proof {
            use_type_invariant(&*self);
            lemma_increasing_pairs(self.pairs());
        }
        let ghost ps = self.pairs();
        match self.find(key) {
            None => {
                proof {
                    assert(self@.remove(key@) =~= self@);
                }
                None
            },
            Some(i) => {
                let mut taken = Entries::new();
                core::mem::swap(self, &mut taken);
                let mut items = taken.items;
                let ghost qs = ps.remove(i as int);
                let (_, v) = items.remove(i);
                proof {
                    assert(items@.map_values(|p: (String, String)| (p.0@, p.1@)) =~= qs);
                    assert(keys_increasing(qs)) by {
                        assert forall|a: int, b: int| 0 <= a < b < qs.len() implies key_lt(#[trigger] qs[a].0, #[trigger] qs[b].0) by {
                            if a >= i {
                                assert(qs[a] == ps[a + 1] && qs[b] == ps[b + 1]);
                            } else if b >= i {
                                assert(qs[a] == ps[a] && qs[b] == ps[b + 1]);
                            }
                        }
                    }
                    lemma_increasing_pairs(qs);
                    assert(ps[i as int].1 == v@);
                    assert(pairs_map(ps).contains_key(ps[i as int].0));
                    assert(pairs_map(qs) =~= pairs_map(ps).remove(key@)) by {
                        assert forall|k: Seq<char>| #[trigger] pairs_map(qs).contains_key(k) implies pairs_map(ps).remove(key@).contains_key(k) && pairs_map(qs)[k] == pairs_map(ps)[k] by {
                            let j = choose|j: int| 0 <= j < qs.len() && qs[j].0 == k;
                            if j < i {
                                assert(qs[j] == ps[j]);
                                assert(pairs_map(ps).contains_key(ps[j].0));
                            } else {
                                assert(qs[j] == ps[j + 1]);
                                assert(pairs_map(ps).contains_key(ps[j + 1].0));
                            }
                        }
                        assert forall|k: Seq<char>| #[trigger] pairs_map(ps).remove(key@).contains_key(k) implies pairs_map(qs).contains_key(k) by {
                            let j = choose|j: int| 0 <= j < ps.len() && ps[j].0 == k;
                            if j < i {
                                assert(qs[j] == ps[j]);
                                assert(pairs_map(qs).contains_key(qs[j].0));
                            } else {
                                assert(qs[j - 1] == ps[j]);
                                assert(pairs_map(qs).contains_key(qs[j - 1].0));
                            }
                        }
                    }
                }
                *self = Entries { items };
                Some(v)
            },
        }
    }
}

impl View for Entries {
    type V = Map<Seq<char>, Seq<char>>;

    open spec fn view(&self) -> Map<Seq<char>, Seq<char>> {
        pairs_map(self.pairs())
    }
}

} // verus!
