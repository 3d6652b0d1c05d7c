use crate::text::{
    compare_str, lemma_seq_lt_irreflexive, lemma_seq_lt_total, lemma_seq_lt_transitive, seq_lt,
    KeyOrder,
};
use vstd::prelude::*;

verus! {

/// Keys of an `OrdMap`: a strict total order on their views and a comparison that decides it.
pub trait MapKey: View + Sized {
    spec fn key_lt(a: Self::V, b: Self::V) -> bool;

    proof fn lemma_key_lt_irreflexive(a: Self::V)
        ensures
            !Self::key_lt(a, a),
    ;

    proof fn lemma_key_lt_transitive(a: Self::V, b: Self::V, c: Self::V)
        requires
            Self::key_lt(a, b),
            Self::key_lt(b, c),
        ensures
            Self::key_lt(a, c),
    ;

    proof fn lemma_key_lt_total(a: Self::V, b: Self::V)
        ensures
            a == b || Self::key_lt(a, b) || Self::key_lt(b, a),
    ;

    fn compare_key(&self, other: &Self) -> (r: KeyOrder)
        ensures
            (r == KeyOrder::Less) == Self::key_lt(self@, other@),
            (r == KeyOrder::Equal) == (self@ == other@),
            (r == KeyOrder::Greater) == Self::key_lt(other@, self@),
    ;

    fn clone_key(&self) -> (r: Self)
        ensures
            r@ == self@,
    ;
}

impl MapKey for String {
    open spec fn key_lt(a: Seq<char>, b: Seq<char>) -> bool {
        seq_lt(a, b)
    }

    proof fn lemma_key_lt_irreflexive(a: Seq<char>) {
        lemma_seq_lt_irreflexive(a);
    }

    proof fn lemma_key_lt_transitive(a: Seq<char>, b: Seq<char>, c: Seq<char>) {
        lemma_seq_lt_transitive(a, b, c);
    }

    proof fn lemma_key_lt_total(a: Seq<char>, b: Seq<char>) {
        lemma_seq_lt_total(a, b);
    }

    fn compare_key(&self, other: &Self) -> (r: KeyOrder) {
        compare_str(self.as_str(), other.as_str())
    }

    fn clone_key(&self) -> (r: Self) {
        self.clone()
    }
}

impl MapKey for u64 {
    open spec fn key_lt(a: u64, b: u64) -> bool {
        a < b
    }

    proof fn lemma_key_lt_irreflexive(a: u64) {
    }

    proof fn lemma_key_lt_transitive(a: u64, b: u64, c: u64) {
    }

    proof fn lemma_key_lt_total(a: u64, b: u64) {
    }

    fn compare_key(&self, other: &Self) -> (r: KeyOrder) {
        if *self < *other {
            KeyOrder::Less
        } else if *self == *other {
            KeyOrder::Equal
        } else {
            KeyOrder::Greater
        }
    }

    fn clone_key(&self) -> (r: Self) {
        *self
    }
}

/// Entries whose keys strictly increase.
pub open spec fn sorted_keys<K: MapKey, V>(s: Seq<(K, V)>) -> bool {
    forall|i: int, j: int| 0 <= i < j < s.len() ==> K::key_lt(#[trigger] s[i].0@, #[trigger] s[j].0@)
}

/// Some entry of `s` has key `k`.
pub open spec fn has_key<K: MapKey, V>(s: Seq<(K, V)>, k: K::V) -> bool {
    exists|i: int| 0 <= i < s.len() && #[trigger] s[i].0@ == k
}

/// The map that a sequence of entries stands for; a later entry replaces an earlier one.
pub open spec fn map_of<K: MapKey, V>(s: Seq<(K, V)>) -> Map<K::V, V>
    decreases s.len(),
{
    if s.len() == 0 {
        Map::empty()
    } else {
        map_of(s.drop_last()).insert(s.last().0@, s.last().1)
    }
}

/// The entries of a sequence sorted by key have distinct keys.
pub proof fn lemma_sorted_distinct<K: MapKey, V>(s: Seq<(K, V)>, i: int, j: int)
    requires
        sorted_keys(s),
        0 <= i < s.len(),
        0 <= j < s.len(),
        i != j,
    ensures
        s[i].0@ != s[j].0@,
{
    if i < j {
        if s[i].0@ == s[j].0@ {
            K::lemma_key_lt_irreflexive(s[i].0@);
        }
    } else {
        if s[i].0@ == s[j].0@ {
            K::lemma_key_lt_irreflexive(s[i].0@);
        }
    }
}

/// The domain of `map_of(s)` is the set of keys in `s`, and it is finite.
pub proof fn lemma_map_of_dom<K: MapKey, V>(s: Seq<(K, V)>)
    ensures
        forall|k: K::V| #[trigger] map_of(s).contains_key(k) <==> has_key(s, k),
        map_of(s).dom().finite(),
    decreases s.len(),
{
    if s.len() > 0 {
        let t = s.drop_last();
        lemma_map_of_dom(t);
        assert forall|k: K::V| #[trigger] map_of(s).contains_key(k) <==> has_key(s, k) by {
            if map_of(s).contains_key(k) {
                if k == s.last().0@ {
                    assert(s[s.len() - 1].0@ == k);
                } else {
                    assert(map_of(t).contains_key(k));
                    let i = choose|i: int| 0 <= i < t.len() && #[trigger] t[i].0@ == k;
                    assert(s[i].0@ == k);
                }
            }
            if has_key(s, k) {
                let i = choose|i: int| 0 <= i < s.len() && #[trigger] s[i].0@ == k;
                if i < s.len() - 1 {
                    assert(t[i].0@ == k);
                }
            }
        }
    }
}

/// In sorted entries, every entry's value is what the map holds at its key.
pub proof fn lemma_map_of_index<K: MapKey, V>(s: Seq<(K, V)>)
    requires
        sorted_keys(s),
    ensures
        forall|i: int| 0 <= i < s.len() ==> map_of(s)[#[trigger] s[i].0@] == s[i].1,
        forall|i: int| 0 <= i < s.len() ==> map_of(s).contains_key(#[trigger] s[i].0@),
    decreases s.len(),
{
    if s.len() > 0 {
        let t = s.drop_last();
        assert(sorted_keys(t)) by {
            assert forall|i: int, j: int| 0 <= i < j < t.len() implies K::key_lt(
                #[trigger] t[i].0@,
                #[trigger] t[j].0@,
            ) by {
                assert(s[i] == t[i] && s[j] == t[j]);
            }
        }
        lemma_map_of_index(t);
        assert forall|i: int| 0 <= i < s.len() implies map_of(s)[#[trigger] s[i].0@] == s[i].1
            && map_of(s).contains_key(s[i].0@) by {
            if i < s.len() - 1 {
                lemma_sorted_distinct(s, i, s.len() - 1);
                assert(t[i] == s[i]);
            }
        }
    }
}

/// The number of keys of sorted entries is the number of entries.
pub proof fn lemma_map_of_len<K: MapKey, V>(s: Seq<(K, V)>)
    requires
        sorted_keys(s),
    ensures
        map_of(s).len() == s.len(),
    decreases s.len(),
{
    if s.len() > 0 {
        let t = s.drop_last();
        assert(sorted_keys(t)) by {
            assert forall|i: int, j: int| 0 <= i < j < t.len() implies K::key_lt(
                #[trigger] t[i].0@,
                #[trigger] t[j].0@,
            ) by {
                assert(s[i] == t[i] && s[j] == t[j]);
            }
        }
        lemma_map_of_len(t);
        lemma_map_of_dom(t);
        if map_of(t).contains_key(s.last().0@) {
            let i = choose|i: int| 0 <= i < t.len() && #[trigger] t[i].0@ == s.last().0@;
            lemma_sorted_distinct(s, i, s.len() - 1);
        }
    }
}

/// Each key of `map_of(s)` has an entry in `s` that holds the map's value for it.
pub proof fn lemma_map_of_entry<K: MapKey, V>(s: Seq<(K, V)>, k: K::V) -> (i: int)
    requires
        map_of(s).contains_key(k),
    ensures
        0 <= i < s.len(),
        s[i].0@ == k,
        s[i].1 == map_of(s)[k],
    decreases s.len(),
{
    let t = s.drop_last();
    if s.last().0@ == k {
        s.len() - 1
    } else {
        let i = lemma_map_of_entry(t, k);
        assert(s[i] == t[i]);
        i
    }
}

/// A sorted sequence of entries with key `k` inserted at the position where its order puts it.
proof fn lemma_insert_at<K: MapKey, V>(s: Seq<(K, V)>, p: int, k: K, v: V)
    requires
        sorted_keys(s),
        0 <= p <= s.len(),
        forall|j: int| 0 <= j < p ==> K::key_lt(#[trigger] s[j].0@, k@),
        forall|j: int| p <= j < s.len() ==> K::key_lt(k@, #[trigger] s[j].0@),
    ensures
        sorted_keys(s.insert(p, (k, v))),
        map_of(s.insert(p, (k, v))) == map_of(s).insert(k@, v),
{
    let t = s.insert(p, (k, v));
    assert forall|i: int, j: int| 0 <= i < j < t.len() implies K::key_lt(
        #[trigger] t[i].0@,
        #[trigger] t[j].0@,
    ) by {
        if i < p && j == p {
        } else if i == p {
            assert(t[j] == s[j - 1]);
        } else if j < p {
            assert(t[i] == s[i] && t[j] == s[j]);
        } else if i < p {
            assert(t[i] == s[i] && t[j] == s[j - 1]);
            K::lemma_key_lt_transitive(s[i].0@, k@, s[j - 1].0@);
        } else {
            assert(t[i] == s[i - 1] && t[j] == s[j - 1]);
        }
    }
    lemma_map_of_dom(s);
    lemma_map_of_dom(t);
    lemma_map_of_index(s);
    lemma_map_of_index(t);
    assert(t[p] == (k, v));
    assert forall|x: K::V| #[trigger] map_of(t).contains_key(x) <==> map_of(s).insert(
        k@,
        v,
    ).contains_key(x) by {
        if has_key(t, x) {
            let i = choose|i: int| 0 <= i < t.len() && #[trigger] t[i].0@ == x;
            if i < p {
                assert(s[i] == t[i]);
            } else if i > p {
                assert(s[i - 1] == t[i]);
            }
        }
        if has_key(s, x) {
            let i = choose|i: int| 0 <= i < s.len() && #[trigger] s[i].0@ == x;
            if i < p {
                assert(s[i] == t[i]);
            } else {
                assert(s[i] == t[i + 1]);
            }
        }
        if x == k@ {
            assert(t[p].0@ == x);
        }
    }
    assert forall|x: K::V| #[trigger] map_of(t).contains_key(x) implies map_of(t)[x] == map_of(
        s,
    ).insert(k@, v)[x] by {
        let i = choose|i: int| 0 <= i < t.len() && #[trigger] t[i].0@ == x;
        if i < p {
            assert(s[i] == t[i]);
            K::lemma_key_lt_irreflexive(k@);
        } else if i > p {
            assert(s[i - 1] == t[i]);
            K::lemma_key_lt_irreflexive(k@);
        }
    }
    assert(map_of(t) =~= map_of(s).insert(k@, v));
}

/// Replacing the value of an entry of sorted entries.
proof fn lemma_update_at<K: MapKey, V>(s: Seq<(K, V)>, p: int, k: K, v: V)
    requires
        sorted_keys(s),
        0 <= p < s.len(),
        s[p].0@ == k@,
    ensures
        sorted_keys(s.update(p, (k, v))),
        map_of(s.update(p, (k, v))) == map_of(s).insert(k@, v),
{
    let t = s.update(p, (k, v));
    assert forall|i: int, j: int| 0 <= i < j < t.len() implies K::key_lt(
        #[trigger] t[i].0@,
        #[trigger] t[j].0@,
    ) by {
        assert(s[i].0@ == t[i].0@ && s[j].0@ == t[j].0@);
    }
    lemma_map_of_dom(s);
    lemma_map_of_dom(t);
    lemma_map_of_index(s);
    lemma_map_of_index(t);
    assert forall|x: K::V| #[trigger] map_of(t).contains_key(x) <==> map_of(s).insert(
        k@,
        v,
    ).contains_key(x) by {
        if has_key(t, x) {
            let i = choose|i: int| 0 <= i < t.len() && #[trigger] t[i].0@ == x;
            assert(s[i].0@ == x);
        }
        if has_key(s, x) {
            let i = choose|i: int| 0 <= i < s.len() && #[trigger] s[i].0@ == x;
            assert(t[i].0@ == x);
        }
    }
    assert forall|x: K::V| #[trigger] map_of(t).contains_key(x) implies map_of(t)[x] == map_of(
        s,
    ).insert(k@, v)[x] by {
        let i = choose|i: int| 0 <= i < t.len() && #[trigger] t[i].0@ == x;
        if i != p {
            assert(s[i] == t[i]);
            lemma_sorted_distinct(s, i, p);
        }
    }
    assert(map_of(t) =~= map_of(s).insert(k@, v));
}

/// Removing an entry of sorted entries.
proof fn lemma_remove_at<K: MapKey, V>(s: Seq<(K, V)>, p: int)
    requires
        sorted_keys(s),
        0 <= p < s.len(),
    ensures
        sorted_keys(s.remove(p)),
        map_of(s.remove(p)) == map_of(s).remove(s[p].0@),
{
    let t = s.remove(p);
    assert forall|i: int, j: int| 0 <= i < j < t.len() implies K::key_lt(
        #[trigger] t[i].0@,
        #[trigger] t[j].0@,
    ) by {
        if j < p {
            assert(t[i] == s[i] && t[j] == s[j]);
        } else if i < p {
            assert(t[i] == s[i] && t[j] == s[j + 1]);
        } else {
            assert(t[i] == s[i + 1] && t[j] == s[j + 1]);
        }
    }
    lemma_map_of_dom(s);
    lemma_map_of_dom(t);
    lemma_map_of_index(s);
    lemma_map_of_index(t);
    assert forall|x: K::V| #[trigger] map_of(t).contains_key(x) <==> map_of(s).remove(
        s[p].0@,
    ).contains_key(x) by {
        if has_key(t, x) {
            let i = choose|i: int| 0 <= i < t.len() && #[trigger] t[i].0@ == x;
            if i < p {
                assert(s[i] == t[i]);
                lemma_sorted_distinct(s, i, p);
            } else {
                assert(s[i + 1] == t[i]);
                lemma_sorted_distinct(s, i + 1, p);
            }
        }
        if has_key(s, x) && x != s[p].0@ {
            let i = choose|i: int| 0 <= i < s.len() && #[trigger] s[i].0@ == x;
            if i < p {
                assert(s[i] == t[i]);
            } else {
                assert(s[i] == t[i - 1]);
            }
        }
    }
    assert forall|x: K::V| #[trigger] map_of(t).contains_key(x) implies map_of(t)[x] == map_of(
        s,
    ).remove(s[p].0@)[x] by {
        let i = choose|i: int| 0 <= i < t.len() && #[trigger] t[i].0@ == x;
        if i < p {
            assert(s[i] == t[i]);
        } else {
            assert(s[i + 1] == t[i]);
        }
    }
    assert(map_of(t) =~= map_of(s).remove(s[p].0@));
}

/// A map ordered by its keys, kept as a sequence of entries whose keys strictly increase.
pub struct OrdMap<K: MapKey, V> {
    entries: Vec<(K, V)>,
}

impl<K: MapKey, V> View for OrdMap<K, V> {
    type V = Map<K::V, V>;

    open spec fn view(&self) -> Map<K::V, V> {
        map_of(self.seq())
    }
}

impl<K: MapKey, V> OrdMap<K, V> {
    #[verifier::type_invariant]
    pub closed spec fn inv(self) -> bool {
        sorted_keys(self.entries@)
    }

    /// The entries, in increasing order of their keys.
    pub closed spec fn seq(self) -> Seq<(K, V)> {
        self.entries@
    }

    /// What the invariant gives: sorted entries, and a map that agrees with them.
    pub proof fn lemma_inv(self)
        requires
            self.inv(),
        ensures
            sorted_keys(self.seq()),
            self@.dom().finite(),
            self@.len() == self.seq().len(),
            forall|k: K::V| #[trigger] self@.contains_key(k) <==> has_key(self.seq(), k),
            forall|i: int|
                0 <= i < self.seq().len() ==> self@[#[trigger] self.seq()[i].0@]
                    == self.seq()[i].1,
            forall|i: int|
                0 <= i < self.seq().len() ==> self@.contains_key(#[trigger] self.seq()[i].0@),
    {
        lemma_map_of_dom(self.seq());
        lemma_map_of_index(self.seq());
        lemma_map_of_len(self.seq());
    }

    /// The map has finitely many keys.
    pub proof fn lemma_finite(self)
        ensures
            self@.dom().finite(),
    {
        lemma_map_of_dom(self.seq());
    }

    /// The entries are smaller than the map, for definitions by recursion.
    pub proof fn lemma_seq_decreases(self)
        ensures
            decreases_to!(self => self.seq()),
    {
        assert(decreases_to!(self => self.entries));
        assert(decreases_to!(self.entries => self.entries@));
    }

    /// An entry's value is smaller than the map, for definitions by recursion.
    pub proof fn lemma_value_decreases(self, i: int)
        requires
            0 <= i < self.seq().len(),
        ensures
            decreases_to!(self => self.seq()[i].1),
    {
        assert(decreases_to!(self => self.entries));
        assert(decreases_to!(self.entries => self.entries@));
        assert(decreases_to!(self.entries@ => self.entries@[i]));
        assert(decreases_to!(self.entries@[i] => self.entries@[i].1));
    }

    pub fn new() -> (r: Self)
        ensures
            r@ == Map::<K::V, V>::empty(),
            r.seq().len() == 0,
    {
        OrdMap { entries: Vec::new() }
    }

    pub fn len(&self) -> (r: usize)
        ensures
            r == self.seq().len(),
            r == self@.len(),
    {
        proof {
            use_type_invariant(self);
            self.lemma_inv();
        }
        self.entries.len()
    }

    pub fn is_empty(&self) -> (r: bool)
        ensures
            r == (self.seq().len() == 0),
            r == (self@ == Map::<K::V, V>::empty()),
    {
        proof {
            use_type_invariant(self);
            self.lemma_inv();
            if self.seq().len() > 0 {
                assert(self@.contains_key(self.seq()[0].0@));
            } else {
                assert(self@ =~= Map::<K::V, V>::empty());
            }
        }
        self.entries.len() == 0
    }

    /// Where `k` stands: `Ok` with its index, or `Err` with the index it would be inserted at.
    fn find(&self, k: &K) -> (r: Result<usize, usize>)
        ensures
            match r {
                Ok(i) => i < self.seq().len() && self.seq()[i as int].0@ == k@,
                Err(p) => p <= self.seq().len() && (forall|j: int|
                    0 <= j < p ==> K::key_lt(#[trigger] self.seq()[j].0@, k@)) && (forall|j: int|
                    p <= j < self.seq().len() ==> K::key_lt(k@, #[trigger] self.seq()[j].0@)),
            },
    {
        proof {
            use_type_invariant(self);
        }
        let mut i: usize = 0;
        while i < self.entries.len()
            invariant
                sorted_keys(self.entries@),
                i <= self.entries.len(),
                forall|j: int| 0 <= j < i ==> K::key_lt(#[trigger] self.entries@[j].0@, k@),
            decreases self.entries.len() - i,
        {
            let o = self.entries[i].0.compare_key(k);
            match o {
                KeyOrder::Less => {
                    i = i + 1;
                },
                KeyOrder::Equal => {
                    return Ok(i);
                },
                KeyOrder::Greater => {
                    proof {
                        assert forall|j: int| i <= j < self.entries@.len() implies K::key_lt(
                            k@,
                            #[trigger] self.entries@[j].0@,
                        ) by {
                            if j > i {
                                K::lemma_key_lt_transitive(
                                    k@,
                                    self.entries@[i as int].0@,
                                    self.entries@[j].0@,
                                );
                            }
                        }
                    }
                    return Err(i);
                },
            }
        }
        Err(i)
    }

    pub fn get(&self, k: &K) -> (r: Option<&V>)
        ensures
            match r {
                Some(v) => self@.contains_key(k@) && *v == self@[k@],
                None => !self@.contains_key(k@),
            },
    {
        proof {
            use_type_invariant(self);
            self.lemma_inv();
        }
        match self.find(k) {
            Ok(i) => Some(&self.entries[i].1),
            Err(p) => {
                proof {
                    if self@.contains_key(k@) {
                        let j = choose|j: int|
                            0 <= j < self.seq().len() && #[trigger] self.seq()[j].0@ == k@;
                        K::lemma_key_lt_irreflexive(k@);
                        if j < p {
                            assert(K::key_lt(self.seq()[j].0@, k@));
                        } else {
                            assert(K::key_lt(k@, self.seq()[j].0@));
                        }
                    }
                }
                None
            },
        }
    }

    pub fn contains_key(&self, k: &K) -> (r: bool)
        ensures
            r == self@.contains_key(k@),
    {
        self.get(k).is_some()
    }

    /// Inserts `v` at `k`, returning the value that was there.
    pub fn insert(&mut self, k: K, v: V) -> (r: Option<V>)
        ensures
            final(self)@ == old(self)@.insert(k@, v),
            r == (if old(self)@.contains_key(k@) {
                Some(old(self)@[k@])
            } else {
                None
            }),
    {
        proof {
            use_type_invariant(&*self);
            self.lemma_inv();
        }
        match self.find(&k) {
            Ok(i) => {
                let ghost s = self.entries@;
                proof {
                    lemma_update_at(s, i as int, k, v);
                }
                let mut entries = Vec::new();
                std::mem::swap(&mut entries, &mut self.entries);
                let (_, old_v) = entries.remove(i);
                entries.insert(i, (k, v));
                proof {
                    assert(entries@ =~= s.update(i as int, (k, v)));
                }
                self.entries = entries;
                Some(old_v)
            },
            Err(p) => {
                let ghost s = self.entries@;
                proof {
                    lemma_insert_at(s, p as int, k, v);
                    if old(self)@.contains_key(k@) {
                        let j = choose|j: int| 0 <= j < s.len() && #[trigger] s[j].0@ == k@;
                        K::lemma_key_lt_irreflexive(k@);
                        if j < p {
                            assert(K::key_lt(s[j].0@, k@));
                        } else {
                            assert(K::key_lt(k@, s[j].0@));
                        }
                    }
                }
                let mut entries = Vec::new();
                std::mem::swap(&mut entries, &mut self.entries);
                entries.insert(p, (k, v));
                self.entries = entries;
                None
            },
        }
    }

    /// Removes the entry at `k`, returning its value.
    pub fn remove(&mut self, k: &K) -> (r: Option<V>)
        ensures
            final(self)@ == old(self)@.remove(k@),
            r == (if old(self)@.contains_key(k@) {
                Some(old(self)@[k@])
            } else {
                None
            }),
    {
        proof {
            use_type_invariant(&*self);
            self.lemma_inv();
        }
        match self.find(k) {
            Ok(i) => {
                let ghost s = self.entries@;
                proof {
                    lemma_remove_at(s, i as int);
                }
                let mut entries = Vec::new();
                std::mem::swap(&mut entries, &mut self.entries);
                let (_, old_v) = entries.remove(i);
                self.entries = entries;
                Some(old_v)
            },
            Err(p) => {
                proof {
                    if old(self)@.contains_key(k@) {
                        let j = choose|j: int|
                            0 <= j < self.seq().len() && #[trigger] self.seq()[j].0@ == k@;
                        K::lemma_key_lt_irreflexive(k@);
                        if j < p {
                            assert(K::key_lt(self.seq()[j].0@, k@));
                        } else {
                            assert(K::key_lt(k@, self.seq()[j].0@));
                        }
                    }
                    assert(self@ =~= old(self)@.remove(k@));
                }
                None
            },
        }
    }

    /// The entry at position `i` in key order.
    pub fn entry_at(&self, i: usize) -> (r: &(K, V))
        requires
            i < self.seq().len(),
        ensures
            *r == self.seq()[i as int],
    {
        &self.entries[i]
    }

    /// Removes and returns the entry with the greatest key.
    pub fn pop_last(&mut self) -> (r: Option<(K, V)>)
        ensures
            old(self).seq().len() == 0 ==> r is None && final(self).seq() == old(self).seq(),
            old(self).seq().len() > 0 ==> r == Some(old(self).seq().last()) && final(self).seq()
                == old(self).seq().drop_last(),
            old(self).seq().len() > 0 ==> old(self)@.contains_key(old(self).seq().last().0@)
                && old(self)@[old(self).seq().last().0@] == old(self).seq().last().1
                && final(self)@ == old(self)@.remove(old(self).seq().last().0@),
    {
        proof {
            use_type_invariant(&*self);
        }
        let mut entries = Vec::new();
        std::mem::swap(&mut entries, &mut self.entries);
        let r = entries.pop();
        proof {
            let s = old(self).seq();
            if s.len() > 0 {
                lemma_remove_at(s, s.len() - 1);
                assert(s.remove(s.len() - 1) =~= s.drop_last());
                lemma_map_of_index(s);
                assert forall|i: int, j: int| 0 <= i < j < entries@.len() implies K::key_lt(
                    #[trigger] entries@[i].0@,
                    #[trigger] entries@[j].0@,
                ) by {
                    assert(entries@[i] == s[i] && entries@[j] == s[j]);
                }
            }
        }
        self.entries = entries;
        r
    }

    /// The entries, in increasing order of their keys.
    pub fn into_entries(self) -> (r: Vec<(K, V)>)
        ensures
            r@ == self.seq(),
    {
        self.entries
    }
}

} // verus!
