use crate::json::lemma_sorted_drop_first;
use crate::ordmap::{has_key, lemma_sorted_distinct, sorted_keys, OrdMap};
use crate::patch::{simple_apply, simple_diff, SameValue, SimplePatch};
use crate::serde::{Id, IdMap};
use crate::text::{lemma_seq_lt_irreflexive, lemma_seq_lt_transitive, seq_lt};
use crate::vector::{vector_clone, vector_get, vector_items, vector_len, vector_new, vector_push_back};
use vstd::prelude::*;

verus! {

/// The properties under a channel or a property, keyed by name.
pub enum Properties {
    Empty,
    Entries(OrdMap<String, Value>),
}

/// A property: its typed value and its own sub-properties.
pub struct Value {
    pub value: TypedValue,
    pub props: Properties,
}

/// A typed xfconf value; a double is kept as the bits of its IEEE 754 encoding.
pub enum TypedValue {
    Bool(bool),
    Int(i32),
    Uint(u32),
    Double(u64),
    String(String),
    Array(Vec<Value>),
    Empty,
}

/// An xfconf channel.
pub struct Channel {
    pub name: String,
    pub props: Properties,
}

/// What a typed value denotes.
pub enum TV {
    Bool(bool),
    Int(i32),
    Uint(u32),
    Double(u64),
    String(Seq<char>),
    Array(Seq<VV>),
    Empty,
}

/// What a property denotes: its value, and the function from a name to its sub-property.
pub struct VV {
    pub value: TV,
    pub props: spec_fn(Seq<char>) -> Option<VV>,
}

/// Whether the bits encode a NaN: all exponent bits set and a nonzero fraction.
pub open spec fn is_nan_bits(a: u64) -> bool {
    a & 0x7ff0_0000_0000_0000u64 == 0x7ff0_0000_0000_0000u64 && a & 0x000f_ffff_ffff_ffffu64 != 0
}

/// Whether the bits encode a zero, of either sign.
pub open spec fn is_zero_bits(a: u64) -> bool {
    a & 0x7fff_ffff_ffff_ffffu64 == 0
}

/// Whether two doubles, given by their bits, are equal as `f64 ==` says: two zeros are, whatever
/// their signs; otherwise the bits must match, and a NaN equals nothing.
pub open spec fn double_same(a: u64, b: u64) -> bool {
    (is_zero_bits(a) && is_zero_bits(b)) || (a == b && !is_nan_bits(a))
}

/// Whether two typed values are equal as the derived `==` of their types says: doubles by
/// `f64 ==`, arrays item by item.
pub open spec fn tv_same(a: TV, b: TV) -> bool
    decreases a,
{
    match (a, b) {
        (TV::Bool(x), TV::Bool(y)) => x == y,
        (TV::Int(x), TV::Int(y)) => x == y,
        (TV::Uint(x), TV::Uint(y)) => x == y,
        (TV::Double(x), TV::Double(y)) => double_same(x, y),
        (TV::String(x), TV::String(y)) => x == y,
        (TV::Array(x), TV::Array(y)) => seq_vv_same(x, y),
        (TV::Empty, TV::Empty) => true,
        _ => false,
    }
}

/// Whether two arrays are equal: of one length, and equal item by item.
pub open spec fn seq_vv_same(x: Seq<VV>, y: Seq<VV>) -> bool
    decreases x,
{
    if x.len() == 0 {
        y.len() == 0
    } else {
        y.len() > 0 && vv_same(x[0], y[0]) && seq_vv_same(x.drop_first(), y.drop_first())
    }
}

/// Whether two properties are equal: their values as `tv_same` says, and the same
/// sub-properties.
pub open spec fn vv_same(a: VV, b: VV) -> bool
    decreases a,
{
    tv_same(a.value, b.value) && a.props == b.props
}

/// The sub-property of `v` that `path` names, if there is one.
pub open spec fn node_at(v: VV, path: Seq<Seq<char>>) -> Option<VV>
    decreases path.len(),
{
    if path.len() == 0 {
        Some(v)
    } else {
        match (v.props)(path[0]) {
            Some(c) => node_at(c, path.drop_first()),
            None => None,
        }
    }
}

/// The property holds no NaN double: its value and each sub-property's value equals itself.
pub open spec fn vv_no_nan(v: VV) -> bool {
    forall|path: Seq<Seq<char>>|
        (#[trigger] node_at(v, path)) is Some ==> tv_same(node_at(v, path)->0.value, node_at(v, path)->0.value)
}

proof fn lemma_no_nan_child(v: VV, k: Seq<char>)
    requires
        vv_no_nan(v),
        (v.props)(k) is Some,
    ensures
        vv_no_nan((v.props)(k)->0),
{
    let c = (v.props)(k)->0;
    assert forall|p: Seq<Seq<char>>| (#[trigger] node_at(c, p)) is Some implies tv_same(
        node_at(c, p)->0.value,
        node_at(c, p)->0.value,
    ) by {
        let q = seq![k] + p;
        assert(q[0] == k);
        assert(q.drop_first() =~= p);
        assert(node_at(v, q) == node_at(c, p));
    }
}

/// A typed value that equals itself has an empty change from itself.
proof fn lemma_tv_diff_self(t: TV)
    requires
        tv_same(t, t),
    ensures
        tvpatch_is_empty(tv_diff(t, t)),
{
}

/// `double_same` on two doubles' bits.
pub fn double_bits_same(a: u64, b: u64) -> (r: bool)
    ensures
        r == double_same(a, b),
{
    let a_zero = a & 0x7fff_ffff_ffff_ffffu64 == 0;
    let b_zero = b & 0x7fff_ffff_ffff_ffffu64 == 0;
    let a_nan = a & 0x7ff0_0000_0000_0000u64 == 0x7ff0_0000_0000_0000u64 && a & 0x000f_ffff_ffff_ffffu64 != 0;
    (a_zero && b_zero) || (a == b && !a_nan)
}

pub open spec fn value_view(v: Value) -> VV
    decreases v,
{
    VV { value: tv_view(v.value), props: props_view(v.props) }
}

pub open spec fn tv_view(t: TypedValue) -> TV
    decreases t,
{
    match t {
        TypedValue::Bool(b) => TV::Bool(b),
        TypedValue::Int(n) => TV::Int(n),
        TypedValue::Uint(n) => TV::Uint(n),
        TypedValue::Double(d) => TV::Double(d),
        TypedValue::String(s) => TV::String(s@),
        TypedValue::Array(a) => TV::Array(values_view(a@)),
        TypedValue::Empty => TV::Empty,
    }
}

pub open spec fn values_view(s: Seq<Value>) -> Seq<VV>
    decreases s,
{
    if s.len() == 0 {
        seq![]
    } else {
        seq![value_view(s[0])] + values_view(s.drop_first())
    }
}

pub open spec fn props_view(p: Properties) -> spec_fn(Seq<char>) -> Option<VV>
    decreases p,
{
    match p {
        Properties::Empty => |k: Seq<char>| None,
        Properties::Entries(m) => {
            proof {
                m.lemma_seq_decreases();
            }
            value_members(m.seq())
        },
    }
}

/// The sub-properties given by entries.
pub open spec fn value_members(s: Seq<(String, Value)>) -> spec_fn(Seq<char>) -> Option<VV>
    decreases s,
{
    |k: Seq<char>|
        if s.len() == 0 {
            None
        } else if k == s[0].0@ {
            Some(value_view(s[0].1))
        } else {
            value_members(s.drop_first())(k)
        }
}

pub open spec fn lift_values(m: Map<Seq<char>, Value>) -> spec_fn(Seq<char>) -> Option<VV> {
    |k: Seq<char>|
        if m.contains_key(k) {
            Some(value_view(m[k]))
        } else {
            None
        }
}

/// The view of a sequence of values holds each value's view at its position.
pub proof fn lemma_values_view(s: Seq<Value>)
    ensures
        values_view(s).len() == s.len(),
        forall|i: int| 0 <= i < s.len() ==> #[trigger] values_view(s)[i] == value_view(s[i]),
    decreases s.len(),
{
    if s.len() > 0 {
        lemma_values_view(s.drop_first());
        assert forall|i: int| 0 <= i < s.len() implies #[trigger] values_view(s)[i] == value_view(
            s[i],
        ) by {
            if i > 0 {
                assert(s.drop_first()[i - 1] == s[i]);
            }
        }
    }
}

/// The sub-properties of sorted entries: each entry's key gives its value, other keys nothing.
pub proof fn lemma_value_members(s: Seq<(String, Value)>)
    requires
        sorted_keys(s),
    ensures
        forall|i: int|
            0 <= i < s.len() ==> value_members(s)(#[trigger] s[i].0@) == Some(value_view(s[i].1)),
        forall|k: Seq<char>| !has_key(s, k) ==> #[trigger] value_members(s)(k) is None,
    decreases s.len(),
{
    if s.len() > 0 {
        let t = s.drop_first();
        lemma_sorted_drop_first(s);
        lemma_value_members(t);
        assert forall|i: int| 0 <= i < s.len() implies value_members(s)(#[trigger] s[i].0@) == Some(
            value_view(s[i].1),
        ) by {
            if i > 0 {
                lemma_sorted_distinct(s, 0, i);
                assert(t[i - 1] == s[i]);
            }
        }
        assert forall|k: Seq<char>| !has_key(s, k) implies #[trigger] value_members(s)(k) is None by {
            assert(s[0].0@ != k);
            if has_key(t, k) {
                let j = choose|j: int| 0 <= j < t.len() && #[trigger] t[j].0@ == k;
                assert(s[j + 1].0@ == k);
            }
        }
    }
}

/// The sub-properties of a map of properties are those of its entries.
pub proof fn lemma_value_members_map(m: OrdMap<String, Value>)
    requires
        m.inv(),
    ensures
        value_members(m.seq()) == lift_values(m@),
{
    m.lemma_inv();
    lemma_value_members(m.seq());
    assert forall|k: Seq<char>| #[trigger] value_members(m.seq())(k) == lift_values(m@)(k) by {
        if has_key(m.seq(), k) {
            let i = choose|i: int| 0 <= i < m.seq().len() && #[trigger] m.seq()[i].0@ == k;
            assert(m@[m.seq()[i].0@] == m.seq()[i].1);
        }
    }
    assert(value_members(m.seq()) =~= lift_values(m@));
}

/// Sorted entries with the same sub-properties have the same keys and values, in order.
pub proof fn lemma_value_members_eq(s1: Seq<(String, Value)>, s2: Seq<(String, Value)>)
    requires
        sorted_keys(s1),
        sorted_keys(s2),
        value_members(s1) == value_members(s2),
    ensures
        s1.len() == s2.len(),
        forall|i: int|
            0 <= i < s1.len() ==> (#[trigger] s1[i]).0@ == s2[i].0@ && value_view(s1[i].1)
                == value_view(s2[i].1),
    decreases s1.len(),
{
    lemma_value_members(s1);
    lemma_value_members(s2);
    if s1.len() == 0 && s2.len() > 0 {
        assert(value_members(s2)(s2[0].0@) is Some);
        assert(!has_key(s1, s2[0].0@));
    } else if s1.len() > 0 && s2.len() == 0 {
        assert(value_members(s1)(s1[0].0@) is Some);
        assert(!has_key(s2, s1[0].0@));
    } else if s1.len() > 0 && s2.len() > 0 {
        let k1 = s1[0].0@;
        let k2 = s2[0].0@;
        lemma_sorted_drop_first(s1);
        lemma_sorted_drop_first(s2);
        assert(k1 == k2) by {
            assert(value_members(s2)(k1) is Some);
            let j = choose|j: int| 0 <= j < s2.len() && #[trigger] s2[j].0@ == k1;
            assert(value_members(s1)(k2) is Some);
            let i = choose|i: int| 0 <= i < s1.len() && #[trigger] s1[i].0@ == k2;
            if k1 != k2 {
                assert(j > 0 && i > 0);
                assert(seq_lt(k2, k1));
                assert(seq_lt(k1, k2));
                lemma_seq_lt_transitive(k1, k2, k1);
                lemma_seq_lt_irreflexive(k1);
            }
        }
        let t1 = s1.drop_first();
        let t2 = s2.drop_first();
        lemma_value_members(t1);
        lemma_value_members(t2);
        assert forall|k: Seq<char>| #[trigger] value_members(t1)(k) == value_members(t2)(k) by {
            if k == k1 {
                if has_key(t1, k) {
                    let i = choose|i: int| 0 <= i < t1.len() && #[trigger] t1[i].0@ == k;
                    assert(s1[i + 1].0@ == k);
                    lemma_seq_lt_irreflexive(k);
                }
                if has_key(t2, k) {
                    let i = choose|i: int| 0 <= i < t2.len() && #[trigger] t2[i].0@ == k;
                    assert(s2[i + 1].0@ == k);
                    lemma_seq_lt_irreflexive(k);
                }
            } else {
                assert(value_members(s1)(k) == value_members(t1)(k));
                assert(value_members(s2)(k) == value_members(t2)(k));
            }
        }
        assert(value_members(t1) =~= value_members(t2));
        lemma_value_members_eq(t1, t2);
        assert(value_members(s1)(k1) == Some(value_view(s1[0].1)));
        assert(value_members(s2)(k2) == Some(value_view(s2[0].1)));
        assert forall|i: int| 0 <= i < s1.len() implies (#[trigger] s1[i]).0@ == s2[i].0@
            && value_view(s1[i].1) == value_view(s2[i].1) by {
            if i > 0 {
                assert(t1[i - 1] == s1[i]);
                assert(t2[i - 1] == s2[i]);
            }
        }
    }
}

/// Entries with the same keys and values, in order, have the same sub-properties.
pub proof fn lemma_value_members_same(s1: Seq<(String, Value)>, s2: Seq<(String, Value)>)
    requires
        s1.len() == s2.len(),
        forall|i: int|
            0 <= i < s1.len() ==> (#[trigger] s1[i]).0@ == s2[i].0@ && value_view(s1[i].1)
                == value_view(s2[i].1),
    ensures
        value_members(s1) == value_members(s2),
    decreases s1.len(),
{
    if s1.len() > 0 {
        let t1 = s1.drop_first();
        let t2 = s2.drop_first();
        assert forall|i: int| 0 <= i < t1.len() implies (#[trigger] t1[i]).0@ == t2[i].0@
            && value_view(t1[i].1) == value_view(t2[i].1) by {
            assert(t1[i] == s1[i + 1] && t2[i] == s2[i + 1]);
        }
        lemma_value_members_same(t1, t2);
        assert(s1[0].0@ == s2[0].0@);
        assert(value_members(s1) =~= value_members(s2));
    } else {
        assert(value_members(s1) =~= value_members(s2));
    }
}


/// The entries of a property map, in key order.
pub open spec fn props_seq(p: Properties) -> Seq<(String, Value)> {
    match p {
        Properties::Empty => Seq::empty(),
        Properties::Entries(m) => m.seq(),
    }
}

/// The map of a property map.
pub open spec fn props_map(p: Properties) -> Map<Seq<char>, Value> {
    match p {
        Properties::Empty => Map::empty(),
        Properties::Entries(m) => m@,
    }
}

/// The properties are those of their entries.
pub proof fn lemma_props_seq(p: Properties)
    ensures
        props_view(p) == value_members(props_seq(p)),
{
    match p {
        Properties::Empty => {
            assert(props_view(p) =~= value_members(props_seq(p)));
        },
        Properties::Entries(m) => {},
    }
}

impl Properties {
    pub fn new() -> (r: Self)
        ensures
            props_seq(r).len() == 0,
            props_map(r) == Map::<Seq<char>, Value>::empty(),
            props_view(r) == (|k: Seq<char>| None::<VV>),
    {
        Properties::Empty
    }

    /// The number of entries; also what the map's invariant gives.
    pub fn len(&self) -> (r: usize)
        ensures
            r == props_seq(*self).len(),
            sorted_keys(props_seq(*self)),
            props_view(*self) == value_members(props_seq(*self)),
            props_view(*self) == lift_values(props_map(*self)),
            props_map(*self).dom().finite(),
            props_map(*self).len() == r,
            forall|i: int|
                0 <= i < props_seq(*self).len() ==> props_map(*self).contains_key(
                    #[trigger] props_seq(*self)[i].0@,
                ) && props_map(*self)[props_seq(*self)[i].0@] == props_seq(*self)[i].1,
            forall|k: Seq<char>| #[trigger] props_map(*self).contains_key(k) <==> has_key(props_seq(*self), k),
    {
        proof {
            lemma_props_seq(*self);
        }
        match self {
            Properties::Empty => {
                proof {
                    assert(props_view(*self) =~= lift_values(props_map(*self)));
                }
                0
            },
            Properties::Entries(m) => {
                proof {
                    use_type_invariant(m);
                    m.lemma_inv();
                    lemma_value_members_map(*m);
                }
                m.len()
            },
        }
    }

    pub fn is_empty(&self) -> (r: bool)
        ensures
            r == (props_seq(*self).len() == 0),
            r == (props_map(*self) == Map::<Seq<char>, Value>::empty()),
    {
        let n = self.len();
        proof {
            if n > 0 {
                assert(props_map(*self).contains_key(props_seq(*self)[0].0@));
            } else {
                assert(props_map(*self) =~= Map::<Seq<char>, Value>::empty());
            }
        }
        n == 0
    }

    /// The entry at position `i` in key order.
    pub fn entry_at(&self, i: usize) -> (r: &(String, Value))
        requires
            i < props_seq(*self).len(),
        ensures
            *r == props_seq(*self)[i as int],
    {
        match self {
            Properties::Entries(m) => m.entry_at(i),
            Properties::Empty => vstd::pervasive::unreached(),
        }
    }

    /// Turns the properties into a map that can be changed.
    pub fn into_map(self) -> (r: OrdMap<String, Value>)
        ensures
            r@ == props_map(self),
            r.seq() == props_seq(self),
    {
        match self {
            Properties::Empty => OrdMap::new(),
            Properties::Entries(m) => m,
        }
    }
}

/// Whether two typed values are the same.
pub fn typed_value_same(a: &TypedValue, b: &TypedValue) -> (r: bool)
    ensures
        r == tv_same(tv_view(*a), tv_view(*b)),
    decreases *a,
{
    match a {
        TypedValue::Bool(x) => match b {
            TypedValue::Bool(y) => *x == *y,
            _ => false,
        },
        TypedValue::Int(x) => match b {
            TypedValue::Int(y) => *x == *y,
            _ => false,
        },
        TypedValue::Uint(x) => match b {
            TypedValue::Uint(y) => *x == *y,
            _ => false,
        },
        TypedValue::Double(x) => match b {
            TypedValue::Double(y) => double_bits_same(*x, *y),
            _ => false,
        },
        TypedValue::String(x) => match b {
            TypedValue::String(y) => crate::text::str_eq(x.as_str(), y.as_str()),
            _ => false,
        },
        TypedValue::Array(x) => match b {
            TypedValue::Array(y) => values_same(a, x, y),
            _ => false,
        },
        TypedValue::Empty => matches!(b, TypedValue::Empty),
    }
}

fn values_same(t: &TypedValue, x: &Vec<Value>, y: &Vec<Value>) -> (r: bool)
    requires
        *t == TypedValue::Array(*x),
    ensures
        r == seq_vv_same(values_view(x@), values_view(y@)),
    decreases *t, 0nat,
{
    proof {
        lemma_values_view(x@);
        lemma_values_view(y@);
        lemma_seq_vv_same(values_view(x@), values_view(y@));
    }
    if x.len() != y.len() {
        return false;
    }
    let mut i: usize = 0;
    while i < x.len()
        invariant
            *t == TypedValue::Array(*x),
            x.len() == y.len(),
            i <= x.len(),
            values_view(x@).len() == x.len(),
            values_view(y@).len() == y.len(),
            forall|j: int| 0 <= j < x.len() ==> #[trigger] values_view(x@)[j] == value_view(x@[j]),
            forall|j: int| 0 <= j < y.len() ==> #[trigger] values_view(y@)[j] == value_view(y@[j]),
            forall|j: int| 0 <= j < i ==> vv_same(value_view(x@[j]), value_view(y@[j])),
        decreases x.len() - i,
    {
        proof {
            let v = (*t)->Array_0;
            assert(v == *x);
            assert(decreases_to!(*t => (*t)->Array_0));
            assert(decreases_to!(v => v@));
            assert(decreases_to!(v@ => v@[i as int]));
        }
        let same = value_same(&x[i], &y[i]);
        assert(same == vv_same(value_view(x@[i as int]), value_view(y@[i as int])));
        assert(values_view(x@)[i as int] == value_view(x@[i as int]));
        assert(values_view(y@)[i as int] == value_view(y@[i as int]));
        if !same {
            proof {
                lemma_seq_vv_same(values_view(x@), values_view(y@));
                assert(!vv_same(values_view(x@)[i as int], values_view(y@)[i as int]));
            }
            return false;
        }
        i = i + 1;
    }
    true
}

/// Whether two properties are the same: their values as `typed_value_same` says, and the same
/// sub-properties.
pub fn value_same(a: &Value, b: &Value) -> (r: bool)
    ensures
        r == vv_same(value_view(*a), value_view(*b)),
    decreases *a,
{
    typed_value_same(&a.value, &b.value) && props_eq(a, &a.props, &b.props)
}

/// Whether two typed values have the same content.
fn typed_value_eq(a: &TypedValue, b: &TypedValue) -> (r: bool)
    ensures
        r == (tv_view(*a) == tv_view(*b)),
    decreases *a,
{
    match a {
        TypedValue::Bool(x) => match b {
            TypedValue::Bool(y) => *x == *y,
            _ => false,
        },
        TypedValue::Int(x) => match b {
            TypedValue::Int(y) => *x == *y,
            _ => false,
        },
        TypedValue::Uint(x) => match b {
            TypedValue::Uint(y) => *x == *y,
            _ => false,
        },
        TypedValue::Double(x) => match b {
            TypedValue::Double(y) => *x == *y,
            _ => false,
        },
        TypedValue::String(x) => match b {
            TypedValue::String(y) => crate::text::str_eq(x.as_str(), y.as_str()),
            _ => false,
        },
        TypedValue::Array(x) => match b {
            TypedValue::Array(y) => values_eq(a, x, y),
            _ => false,
        },
        TypedValue::Empty => matches!(b, TypedValue::Empty),
    }
}

fn values_eq(t: &TypedValue, x: &Vec<Value>, y: &Vec<Value>) -> (r: bool)
    requires
        *t == TypedValue::Array(*x),
    ensures
        r == (values_view(x@) == values_view(y@)),
    decreases *t, 0nat,
{
    proof {
        lemma_values_view(x@);
        lemma_values_view(y@);
    }
    if x.len() != y.len() {
        return false;
    }
    let mut i: usize = 0;
    while i < x.len()
        invariant
            *t == TypedValue::Array(*x),
            x.len() == y.len(),
            i <= x.len(),
            values_view(x@).len() == x.len(),
            values_view(y@).len() == y.len(),
            forall|j: int| 0 <= j < x.len() ==> #[trigger] values_view(x@)[j] == value_view(x@[j]),
            forall|j: int| 0 <= j < y.len() ==> #[trigger] values_view(y@)[j] == value_view(y@[j]),
            forall|j: int| 0 <= j < i ==> value_view(x@[j]) == value_view(y@[j]),
        decreases x.len() - i,
    {
        proof {
            let v = (*t)->Array_0;
            assert(v == *x);
            assert(decreases_to!(*t => (*t)->Array_0));
            assert(decreases_to!(v => v@));
            assert(decreases_to!(v@ => v@[i as int]));
        }
        if !value_eq(&x[i], &y[i]) {
            proof {
                assert(values_view(x@)[i as int] != values_view(y@)[i as int]);
            }
            return false;
        }
        i = i + 1;
    }
    proof {
        assert(values_view(x@) =~= values_view(y@));
    }
    true
}

/// Whether two properties have the same content.
fn value_eq(a: &Value, b: &Value) -> (r: bool)
    ensures
        r == (value_view(*a) == value_view(*b)),
    decreases *a,
{
    typed_value_eq(&a.value, &b.value) && props_eq(a, &a.props, &b.props)
}

/// Whether two property maps have the same content.
fn props_eq(v: &Value, p: &Properties, q: &Properties) -> (r: bool)
    requires
        v.props == *p,
    ensures
        r == (props_view(*p) == props_view(*q)),
    decreases *v, 0nat,
{
    let n = p.len();
    let m = q.len();
    if n != m {
        proof {
            if props_view(*p) == props_view(*q) {
                lemma_value_members_eq(props_seq(*p), props_seq(*q));
            }
        }
        return false;
    }
    let mut i: usize = 0;
    while i < n
        invariant
            v.props == *p,
            n == props_seq(*p).len(),
            n == props_seq(*q).len(),
            i <= n,
            sorted_keys(props_seq(*p)),
            sorted_keys(props_seq(*q)),
            props_view(*p) == value_members(props_seq(*p)),
            props_view(*q) == value_members(props_seq(*q)),
            forall|j: int|
                0 <= j < i ==> (#[trigger] props_seq(*p)[j]).0@ == props_seq(*q)[j].0@ && value_view(
                    props_seq(*p)[j].1,
                ) == value_view(props_seq(*q)[j].1),
        decreases n - i,
    {
        let ep = p.entry_at(i);
        let eq = q.entry_at(i);
        proof {
            match p {
                Properties::Entries(mp) => {
                    mp.lemma_value_decreases(i as int);
                    assert(decreases_to!(*v => v.props));
                    assert(decreases_to!(v.props => v.props->Entries_0));
                },
                Properties::Empty => {},
            }
        }
        let same_key = crate::text::str_eq(ep.0.as_str(), eq.0.as_str());
        if !same_key || !value_eq(&ep.1, &eq.1) {
            proof {
                if props_view(*p) == props_view(*q) {
                    lemma_value_members_eq(props_seq(*p), props_seq(*q));
                }
            }
            return false;
        }
        i = i + 1;
    }
    proof {
        lemma_value_members_same(props_seq(*p), props_seq(*q));
    }
    true
}

impl SameValue for Vec<Value> {
    type Model = Seq<VV>;

    open spec fn model(&self) -> Seq<VV> {
        values_view(self@)
    }

    open spec fn same_as(&self, other: &Self) -> bool {
        seq_vv_same(values_view(self@), values_view(other@))
    }

    fn same(&self, other: &Self) -> (r: bool) {
        proof {
            lemma_values_view(self@);
            lemma_values_view(other@);
            lemma_seq_vv_same(values_view(self@), values_view(other@));
        }
        if self.len() != other.len() {
            return false;
        }
        let mut i: usize = 0;
        while i < self.len()
            invariant
                self.len() == other.len(),
                i <= self.len(),
                values_view(self@).len() == self.len(),
                values_view(other@).len() == other.len(),
                forall|j: int| 0 <= j < self.len() ==> #[trigger] values_view(self@)[j] == value_view(self@[j]),
                forall|j: int| 0 <= j < other.len() ==> #[trigger] values_view(other@)[j] == value_view(other@[j]),
                forall|j: int| 0 <= j < i ==> vv_same(value_view(self@[j]), value_view(other@[j])),
            decreases self.len() - i,
        {
            if !value_same(&self[i], &other[i]) {
                proof {
                    lemma_seq_vv_same(values_view(self@), values_view(other@));
                    assert(!vv_same(values_view(self@)[i as int], values_view(other@)[i as int]));
                }
                return false;
            }
            i = i + 1;
        }
        true
    }
}


/// What a clear path denotes: the channel, the property names or name prefixes that lead to a
/// property, whether only changed values count, and the prefix of the keys to remove.
pub struct ClearPathV {
    pub channel: Seq<char>,
    pub parts: Seq<(Seq<char>, bool)>,
    pub value_changed: bool,
    pub prefix: Option<Seq<char>>,
}

/// Where a diff stands: the channel's name and its top property, if below one, and the names of
/// the properties below that.
pub struct DiffPathV {
    pub channel: Option<(Seq<char>, Seq<char>)>,
    pub props: Seq<Seq<char>>,
}

/// Whose properties are diffed: a channel's, by its name, or a property's, with whether its old
/// and new values are the same.
pub enum CtxV {
    Channel(Seq<char>),
    Value(bool),
}

/// A property name matches a part: it starts with the part if that is a prefix, else equals it.
pub open spec fn part_matches(prop: Seq<char>, part: (Seq<char>, bool)) -> bool {
    if part.1 {
        part.0.is_prefix_of(prop)
    } else {
        prop == part.0
    }
}

/// The keys that a clear path removes at a path, if it applies there: `Some(None)` for every key,
/// `Some(Some(p))` for the keys that start with `p`.
pub open spec fn clear_filter(cp: ClearPathV, path: DiffPathV, ctx: CtxV) -> Option<Option<Seq<char>>> {
    match path.channel {
        None => None,
        Some(c) => {
            let names = seq![c.1] + path.props;
            if c.0 != cp.channel || names.len() != cp.parts.len() || !(forall|i: int|
                0 <= i < names.len() ==> #[trigger] part_matches(names[i], cp.parts[i])) || (
            cp.value_changed && ctx == CtxV::Value(true)) {
                None
            } else {
                Some(cp.prefix)
            }
        },
    }
}

/// The filter of the first clear path that applies.
pub open spec fn first_filter(cps: Seq<ClearPathV>, path: DiffPathV, ctx: CtxV) -> Option<Option<Seq<char>>>
    decreases cps.len(),
{
    if cps.len() == 0 {
        None
    } else {
        match clear_filter(cps[0], path, ctx) {
            Some(f) => Some(f),
            None => first_filter(cps.drop_first(), path, ctx),
        }
    }
}

/// Whether a filter keeps `k` for removal.
pub open spec fn filter_keeps(f: Option<Option<Seq<char>>>, k: Seq<char>) -> bool {
    match f {
        None => false,
        Some(None) => true,
        Some(Some(p)) => p.is_prefix_of(k),
    }
}

/// The path of the property `k` below a path.
pub open spec fn child_path(path: DiffPathV, ctx: CtxV, k: Seq<char>) -> DiffPathV {
    match ctx {
        CtxV::Channel(name) => DiffPathV { channel: Some((name, k)), props: path.props },
        CtxV::Value(_) => DiffPathV { channel: path.channel, props: path.props.push(k) },
    }
}

/// What the change of a typed value denotes.
pub enum TVPatch {
    Bool(Option<bool>),
    Int(Option<i32>),
    Uint(Option<u32>),
    Double(Option<u64>),
    String(Option<Seq<char>>),
    Array(Option<Seq<VV>>),
    Empty,
    Changed(TV),
}

/// What the change of a property denotes.
pub struct VPatch {
    pub value: TVPatch,
    pub props: PPatch,
}

/// What the change of properties denotes: patches of kept properties, added properties, and the
/// keys removed.
pub struct PPatch {
    pub changed: spec_fn(Seq<char>) -> Option<VPatch>,
    pub added: spec_fn(Seq<char>) -> Option<VV>,
    pub removed: spec_fn(Seq<char>) -> bool,
}

pub open spec fn tv_diff(old: TV, new: TV) -> TVPatch {
    match (old, new) {
        (TV::Bool(a), TV::Bool(b)) => TVPatch::Bool(simple_diff(a, b)),
        (TV::Int(a), TV::Int(b)) => TVPatch::Int(simple_diff(a, b)),
        (TV::Uint(a), TV::Uint(b)) => TVPatch::Uint(simple_diff(a, b)),
        (TV::Double(a), TV::Double(b)) => TVPatch::Double(if double_same(a, b) {
            None
        } else {
            Some(b)
        }),
        (TV::String(a), TV::String(b)) => TVPatch::String(simple_diff(a, b)),
        (TV::Array(a), TV::Array(b)) => TVPatch::Array(if seq_vv_same(a, b) {
            None
        } else {
            Some(b)
        }),
        (TV::Empty, TV::Empty) => TVPatch::Empty,
        (_, n) => TVPatch::Changed(n),
    }
}

pub open spec fn tvpatch_is_empty(p: TVPatch) -> bool {
    match p {
        TVPatch::Bool(v) => v is None,
        TVPatch::Int(v) => v is None,
        TVPatch::Uint(v) => v is None,
        TVPatch::Double(v) => v is None,
        TVPatch::String(v) => v is None,
        TVPatch::Array(v) => v is None,
        TVPatch::Empty => true,
        TVPatch::Changed(_) => false,
    }
}

pub open spec fn ppatch_is_empty(p: PPatch) -> bool {
    forall|k: Seq<char>| #[trigger] (p.changed)(k) is None && (p.added)(k) is None && !(p.removed)(k)
}

pub open spec fn vpatch_is_empty(p: VPatch) -> bool {
    tvpatch_is_empty(p.value) && ppatch_is_empty(p.props)
}

/// The one-way difference of the properties of `old` and `new`: kept properties are diffed, new
/// ones added, and old ones that `new` lacks are removed where the first applying clear path says
/// so.
pub open spec fn props_diff(old: VV, new: VV, path: DiffPathV, ctx: CtxV, cps: Seq<ClearPathV>) -> PPatch
    decreases new, 0nat,
{
    PPatch {
        changed: |k: Seq<char>|
            match (new.props)(k) {
                Some(nv) => match (old.props)(k) {
                    Some(ov) => if vpatch_is_empty(value_diff(ov, nv, child_path(path, ctx, k), cps)) {
                        None
                    } else {
                        Some(value_diff(ov, nv, child_path(path, ctx, k), cps))
                    },
                    None => None,
                },
                None => None,
            },
        added: |k: Seq<char>|
            if (old.props)(k) is None {
                (new.props)(k)
            } else {
                None
            },
        removed: |k: Seq<char>|
            (old.props)(k) is Some && (new.props)(k) is None && filter_keeps(
                first_filter(cps, path, ctx),
                k,
            ),
    }
}

/// The one-way difference of a property at a path.
pub open spec fn value_diff(old: VV, new: VV, path: DiffPathV, cps: Seq<ClearPathV>) -> VPatch
    decreases new, 1nat,
{
    VPatch {
        value: tv_diff(old.value, new.value),
        props: props_diff(old, new, path, CtxV::Value(tv_same(old.value, new.value)), cps),
    }
}


/// One step of a clear path: a property name, or a prefix of property names.
pub struct ClearPathPart {
    pub prop: String,
    pub prefix: bool,
}

/// What a clear path says of the keys below the property it leads to.
pub struct ClearPathProps {
    pub value_changed: bool,
    pub prefix: Option<String>,
}

/// A pattern of properties whose sub-properties missing from the new configuration are removed.
pub struct ClearPath {
    pub channel: String,
    pub parts: Vec<ClearPathPart>,
    pub props: ClearPathProps,
}

pub open spec fn parts_view(s: Seq<ClearPathPart>) -> Seq<(Seq<char>, bool)> {
    s.map_values(|p: ClearPathPart| (p.prop@, p.prefix))
}

pub open spec fn opt_view(o: Option<String>) -> Option<Seq<char>> {
    match o {
        Some(s) => Some(s@),
        None => None,
    }
}

impl View for ClearPath {
    type V = ClearPathV;

    open spec fn view(&self) -> ClearPathV {
        ClearPathV {
            channel: self.channel@,
            parts: parts_view(self.parts@),
            value_changed: self.props.value_changed,
            prefix: opt_view(self.props.prefix),
        }
    }
}

pub open spec fn cps_view(s: Seq<ClearPath>) -> Seq<ClearPathV> {
    s.map_values(|c: ClearPath| c@)
}

/// Where a diff stands: the channel's name and its top property, if below one, and the names of
/// the properties below that.
pub struct DiffPath {
    pub channel: Option<(String, String)>,
    pub props: im::Vector<String>,
}

impl View for DiffPath {
    type V = DiffPathV;

    open spec fn view(&self) -> DiffPathV {
        DiffPathV {
            channel: match self.channel {
                Some(c) => Some((c.0@, c.1@)),
                None => None,
            },
            props: vector_items(self.props),
        }
    }
}

/// Whose properties are diffed: a channel's, by its name, or a property's, with whether its old
/// and new values are the same.
pub enum PropertiesCtx {
    Channel(String),
    Value(bool),
}

impl View for PropertiesCtx {
    type V = CtxV;

    open spec fn view(&self) -> CtxV {
        match self {
            PropertiesCtx::Channel(name) => CtxV::Channel(name@),
            PropertiesCtx::Value(same) => CtxV::Value(*same),
        }
    }
}

/// The keys a clear path removes: all of them, or those that start with a prefix.
pub struct KeyFilter {
    pub prefix: Option<String>,
}

impl KeyFilter {
    pub fn keeps(&self, key: &String) -> (r: bool)
        ensures
            r == filter_keeps(Some(opt_view(self.prefix)), key@),
    {
        match &self.prefix {
            Some(p) => crate::text::str_starts_with(key.as_str(), p.as_str()),
            None => true,
        }
    }
}

fn clone_opt_string(o: &Option<String>) -> (r: Option<String>)
    ensures
        opt_view(r) == opt_view(*o),
{
    match o {
        Some(s) => Some(s.clone()),
        None => None,
    }
}

impl DiffPath {
    /// The path at the root of a channel.
    pub fn root() -> (r: Self)
        ensures
            r@ == (DiffPathV { channel: None, props: Seq::empty() }),
    {
        DiffPath { channel: None, props: vector_new() }
    }

    /// The path of the top property `prop` of the channel `channel`.
    pub fn with_channel(&self, channel: String, prop: String) -> (r: Self)
        ensures
            r@ == (DiffPathV { channel: Some((channel@, prop@)), props: self@.props }),
    {
        DiffPath { channel: Some((channel, prop)), props: vector_clone(&self.props) }
    }

    /// The path of the property `prop` below this one.
    pub fn push(&self, prop: String) -> (r: Self)
        ensures
            r@ == (DiffPathV { channel: self@.channel, props: self@.props.push(prop@) }),
    {
        let channel = match &self.channel {
            Some(c) => Some((c.0.clone(), c.1.clone())),
            None => None,
        };
        let mut props = vector_clone(&self.props);
        vector_push_back(&mut props, prop);
        DiffPath { channel, props }
    }

    /// The path of the property `k` below this one, in the context `ctx`.
    pub fn child(&self, ctx: &PropertiesCtx, k: &String) -> (r: Self)
        ensures
            r@ == child_path(self@, ctx@, k@),
    {
        match ctx {
            PropertiesCtx::Channel(name) => self.with_channel(name.clone(), k.clone()),
            PropertiesCtx::Value(_) => self.push(k.clone()),
        }
    }
}

impl ClearPath {
    /// The keys this clear path removes below `path`, if it applies there.
    pub fn get_remove_keys_filter(&self, path: &DiffPath, ctx: &PropertiesCtx) -> (r: Option<KeyFilter>)
        ensures
            match r {
                Some(f) => clear_filter(self@, path@, ctx@) == Some(opt_view(f.prefix)),
                None => clear_filter(self@, path@, ctx@) is None,
            },
    {
        let (channel, prop) = match &path.channel {
            Some(c) => (&c.0, &c.1),
            None => return None,
        };
        if !crate::text::str_eq(channel.as_str(), self.channel.as_str()) {
            return None;
        }
        let n = vector_len(&path.props);
        proof {
            assert(parts_view(self.parts@).len() == self.parts@.len());
        }
        if n >= usize::MAX || n + 1 != self.parts.len() {
            proof {
                let names = seq![prop@] + path@.props;
                assert(path@.channel == Some((channel@, prop@)));
                assert(names.len() == n + 1);
                assert(self@.parts == parts_view(self.parts@));
                assert(self@.parts.len() == self.parts.len());
                assert(n + 1 != self.parts.len());
                assert(names.len() != self@.parts.len());
            }
            return None;
        }
        let ghost names = seq![prop@] + path@.props;
        let mut i: usize = 0;
        while i < self.parts.len()
            invariant
                path@.channel == Some((channel@, prop@)),
                channel@ == self.channel@,
                parts_view(self.parts@).len() == self.parts@.len(),
                n + 1 == self.parts.len(),
                n == vector_items(path.props).len(),
                names == seq![prop@] + vector_items(path.props),
                i <= self.parts.len(),
                forall|j: int| 0 <= j < i ==> #[trigger] part_matches(names[j], parts_view(self.parts@)[j]),
            decreases self.parts.len() - i,
        {
            let name = if i == 0 {
                prop
            } else {
                match vector_get(&path.props, i - 1) {
                    Some(s) => s,
                    None => return None,
                }
            };
            let part = &self.parts[i];
            let ok = if part.prefix {
                crate::text::str_starts_with(name.as_str(), part.prop.as_str())
            } else {
                crate::text::str_eq(name.as_str(), part.prop.as_str())
            };
            proof {
                assert(name@ == names[i as int]);
                assert(parts_view(self.parts@)[i as int] == (part.prop@, part.prefix));
            }
            if !ok {
                proof {
                    assert(!part_matches(names[i as int], parts_view(self.parts@)[i as int]));
                    assert(names.len() == parts_view(self.parts@).len());
                }
                return None;
            }
            i = i + 1;
        }
        if self.props.value_changed {
            if let PropertiesCtx::Value(same) = ctx {
                if *same {
                    return None;
                }
            }
        }
        Some(KeyFilter { prefix: clone_opt_string(&self.props.prefix) })
    }
}

/// The filter of the first clear path that applies at `path`.
pub fn find_remove_keys_filter(clear_paths: &Vec<ClearPath>, path: &DiffPath, ctx: &PropertiesCtx) -> (r: Option<KeyFilter>)
    ensures
        match r {
            Some(f) => first_filter(cps_view(clear_paths@), path@, ctx@) == Some(opt_view(f.prefix)),
            None => first_filter(cps_view(clear_paths@), path@, ctx@) is None,
        },
{
    let ghost all = cps_view(clear_paths@);
    let mut i: usize = 0;
    proof {
        assert(all.skip(0) =~= all);
    }
    while i < clear_paths.len()
        invariant
            all == cps_view(clear_paths@),
            i <= clear_paths.len(),
            first_filter(all, path@, ctx@) == first_filter(all.skip(i as int), path@, ctx@),
        decreases clear_paths.len() - i,
    {
        let f = clear_paths[i].get_remove_keys_filter(path, ctx);
        proof {
            assert(all.skip(i as int)[0] == clear_paths@[i as int]@);
            assert(all.skip(i as int).drop_first() =~= all.skip(i + 1));
        }
        if f.is_some() {
            return f;
        }
        i = i + 1;
    }
    None
}


/// The change of a typed value.
pub enum TypedValuePatch {
    Bool(SimplePatch<bool>),
    Int(SimplePatch<i32>),
    Uint(SimplePatch<u32>),
    Double(SimplePatch<u64>),
    String(SimplePatch<String>),
    Array(SimplePatch<Vec<Value>>),
    Empty,
    Changed(TypedValue),
}

/// The change of a property: of its value, and of its sub-properties.
pub struct ValuePatch {
    pub value: TypedValuePatch,
    pub props: PropertiesPatch,
}

/// The change of properties: patches of kept ones, added ones, and the keys removed.
pub struct PropertiesPatch {
    pub changed: Option<OrdMap<String, ValuePatch>>,
    pub added: OrdMap<String, Value>,
    pub removed: OrdMap<String, ()>,
}

pub open spec fn tvpatch_view(p: TypedValuePatch) -> TVPatch {
    match p {
        TypedValuePatch::Bool(s) => TVPatch::Bool(s.model()),
        TypedValuePatch::Int(s) => TVPatch::Int(s.model()),
        TypedValuePatch::Uint(s) => TVPatch::Uint(s.model()),
        TypedValuePatch::Double(s) => TVPatch::Double(s.model()),
        TypedValuePatch::String(s) => TVPatch::String(s.model()),
        TypedValuePatch::Array(s) => TVPatch::Array(s.model()),
        TypedValuePatch::Empty => TVPatch::Empty,
        TypedValuePatch::Changed(v) => TVPatch::Changed(tv_view(v)),
    }
}

pub open spec fn vpatch_view(p: ValuePatch) -> VPatch
    decreases p,
{
    VPatch { value: tvpatch_view(p.value), props: ppatch_view(p.props) }
}

pub open spec fn ppatch_view(p: PropertiesPatch) -> PPatch
    decreases p,
{
    PPatch {
        changed: match p.changed {
            Some(m) => {
                proof {
                    m.lemma_seq_decreases();
                }
                vpatch_members(m.seq())
            },
            None => |k: Seq<char>| None,
        },
        added: value_members(p.added.seq()),
        removed: |k: Seq<char>| p.removed@.contains_key(k),
    }
}

/// The patches given by entries.
pub open spec fn vpatch_members(s: Seq<(String, ValuePatch)>) -> spec_fn(Seq<char>) -> Option<VPatch>
    decreases s,
{
    |k: Seq<char>|
        if s.len() == 0 {
            None
        } else if k == s[0].0@ {
            Some(vpatch_view(s[0].1))
        } else {
            vpatch_members(s.drop_first())(k)
        }
}

pub open spec fn lift_vpatches(m: Map<Seq<char>, ValuePatch>) -> spec_fn(Seq<char>) -> Option<VPatch> {
    |k: Seq<char>|
        if m.contains_key(k) {
            Some(vpatch_view(m[k]))
        } else {
            None
        }
}

/// The patches of a sorted entry sequence are found by their keys, and no others.
pub proof fn lemma_vpatch_members(s: Seq<(String, ValuePatch)>)
    requires
        sorted_keys(s),
    ensures
        forall|i: int|
            0 <= i < s.len() ==> vpatch_members(s)(#[trigger] s[i].0@) == Some(vpatch_view(s[i].1)),
        forall|k: Seq<char>| !has_key(s, k) ==> #[trigger] vpatch_members(s)(k) is None,
    decreases s.len(),
{
    if s.len() > 0 {
        let t = s.drop_first();
        lemma_sorted_drop_first(s);
        lemma_vpatch_members(t);
        assert forall|i: int| 0 <= i < s.len() implies vpatch_members(s)(#[trigger] s[i].0@) == Some(
            vpatch_view(s[i].1),
        ) by {
            if i > 0 {
                lemma_sorted_distinct(s, 0, i);
                assert(t[i - 1] == s[i]);
            }
        }
        assert forall|k: Seq<char>| !has_key(s, k) implies #[trigger] vpatch_members(s)(k) is None by {
            assert(s[0].0@ != k);
            if has_key(t, k) {
                let j = choose|j: int| 0 <= j < t.len() && #[trigger] t[j].0@ == k;
                assert(s[j + 1].0@ == k);
            }
        }
    }
}

/// A key that the patches of entries give is the key of an entry whose patch it gives.
pub proof fn lemma_vpatch_members_find(s: Seq<(String, ValuePatch)>, k: Seq<char>) -> (i: int)
    requires
        vpatch_members(s)(k) is Some,
    ensures
        0 <= i < s.len(),
        s[i].0@ == k,
        vpatch_members(s)(k) == Some(vpatch_view(s[i].1)),
    decreases s.len(),
{
    if k == s[0].0@ {
        0
    } else {
        let j = lemma_vpatch_members_find(s.drop_first(), k);
        assert(s[j + 1] == s.drop_first()[j]);
        j + 1
    }
}

/// Two typed values that differ, the new one not empty, have a change that is not empty.
pub proof fn lemma_tv_diff_not_empty(a: TV, b: TV)
    requires
        !tv_same(a, b),
        !(b is Empty),
    ensures
        !tvpatch_is_empty(tv_diff(a, b)),
{
}

/// The patches of an ordered map's entries are those of the map.
pub proof fn lemma_vpatch_members_map(m: OrdMap<String, ValuePatch>)
    requires
        m.inv(),
    ensures
        vpatch_members(m.seq()) == lift_vpatches(m@),
{
    m.lemma_inv();
    lemma_vpatch_members(m.seq());
    assert forall|k: Seq<char>| #[trigger] vpatch_members(m.seq())(k) == lift_vpatches(m@)(k) by {
        if has_key(m.seq(), k) {
            let i = choose|i: int| 0 <= i < m.seq().len() && #[trigger] m.seq()[i].0@ == k;
            assert(m@[m.seq()[i].0@] == m.seq()[i].1);
        }
    }
    assert(vpatch_members(m.seq()) =~= lift_vpatches(m@));
}

impl TypedValuePatch {
    pub fn diff(old: TypedValue, new: TypedValue) -> (r: Self)
        ensures
            tvpatch_view(r) == tv_diff(tv_view(old), tv_view(new)),
    {
        match (old, new) {
            (TypedValue::Bool(o), TypedValue::Bool(n)) => TypedValuePatch::Bool(SimplePatch::diff(o, n)),
            (TypedValue::Int(o), TypedValue::Int(n)) => TypedValuePatch::Int(SimplePatch::diff(o, n)),
            (TypedValue::Uint(o), TypedValue::Uint(n)) => TypedValuePatch::Uint(SimplePatch::diff(o, n)),
            (TypedValue::Double(o), TypedValue::Double(n)) => TypedValuePatch::Double(
                SimplePatch::diff(o, n),
            ),
            (TypedValue::String(o), TypedValue::String(n)) => TypedValuePatch::String(
                SimplePatch::diff(o, n),
            ),
            (TypedValue::Array(o), TypedValue::Array(n)) => TypedValuePatch::Array(
                SimplePatch::diff(o, n),
            ),
            (TypedValue::Empty, TypedValue::Empty) => TypedValuePatch::Empty,
            (_, n) => TypedValuePatch::Changed(n),
        }
    }

    pub fn is_empty(&self) -> (r: bool)
        ensures
            r == tvpatch_is_empty(tvpatch_view(*self)),
    {
        match self {
            TypedValuePatch::Bool(p) => p.is_empty(),
            TypedValuePatch::Int(p) => p.is_empty(),
            TypedValuePatch::Uint(p) => p.is_empty(),
            TypedValuePatch::Double(p) => p.is_empty(),
            TypedValuePatch::String(p) => p.is_empty(),
            TypedValuePatch::Array(p) => p.is_empty(),
            TypedValuePatch::Empty => true,
            TypedValuePatch::Changed(_) => false,
        }
    }
}


impl ValuePatch {
    /// The one-way difference of a property at `path`.
    pub fn diff(old: Value, new: Value, path: &DiffPath, clear_paths: &Vec<ClearPath>) -> (r: Self)
        ensures
            vpatch_view(r) == value_diff(value_view(old), value_view(new), path@, cps_view(clear_paths@)),
        decreases new, 1nat,
    {
        let ghost ov = value_view(old);
        let ghost nv = value_view(new);
        let same = typed_value_same(&old.value, &new.value);
        let ghost g_new = new;
        let Value { value: old_value, props: old_props } = old;
        let Value { value: new_value, props: new_props } = new;
        proof {
            assert(decreases_to!(g_new => g_new.props));
        }
        let value = TypedValuePatch::diff(old_value, new_value);
        let props = PropertiesPatch::diff(
            old_props,
            new_props,
            path,
            PropertiesCtx::Value(same),
            clear_paths,
            Ghost(ov),
            Ghost(nv),
        );
        ValuePatch { value, props }
    }

    pub fn is_empty(&self) -> (r: bool)
        ensures
            r == vpatch_is_empty(vpatch_view(*self)),
    {
        self.value.is_empty() && self.props.is_empty()
    }
}

impl PropertiesPatch {
    /// The one-way difference of the properties `old` and `new` of `old_owner` and `new_owner`.
    pub fn diff(
        old: Properties,
        new: Properties,
        path: &DiffPath,
        ctx: PropertiesCtx,
        clear_paths: &Vec<ClearPath>,
        Ghost(old_owner): Ghost<VV>,
        Ghost(new_owner): Ghost<VV>,
    ) -> (r: Self)
        requires
            old_owner.props == props_view(old),
            new_owner.props == props_view(new),
        ensures
            ppatch_view(r) == props_diff(old_owner, new_owner, path@, ctx@, cps_view(clear_paths@)),
        decreases new, 0nat,
    {
        let ghost n0 = new;
        let ghost d = props_diff(old_owner, new_owner, path@, ctx@, cps_view(clear_paths@));
        let ghost cps = cps_view(clear_paths@);
        let _ = old.len();
        let _ = new.len();
        let ghost om = props_map(old);
        let ghost nm = props_map(new);
        let ghost ns = props_seq(new);
        let mut remaining = old.into_map();
        let mut pending = new.into_map();
        let mut changed: OrdMap<String, ValuePatch> = OrdMap::new();
        let mut added: OrdMap<String, Value> = OrdMap::new();
        proof {
            pending.lemma_finite();
        }
        while !pending.is_empty()
            invariant
                n0 == new,
                ns == props_seq(n0),
                nm == props_map(n0),
                old_owner.props == lift_values(om),
                new_owner.props == lift_values(nm),
                d == props_diff(old_owner, new_owner, path@, ctx@, cps),
                cps == cps_view(clear_paths@),
                pending.seq().len() <= ns.len(),
                pending.seq() == ns.subrange(0, pending.seq().len() as int),
                pending@.submap_of(nm),
                pending@.dom().finite(),
                remaining@ == om.remove_keys(nm.dom() - pending@.dom()),
                forall|k: Seq<char>|
                    #[trigger] changed@.contains_key(k) == ((nm.dom() - pending@.dom()).contains(k)
                        && (d.changed)(k) is Some),
                forall|k: Seq<char>|
                    #[trigger] changed@.contains_key(k) ==> (d.changed)(k) == Some(
                        vpatch_view(changed@[k]),
                    ),
                forall|k: Seq<char>|
                    #[trigger] added@.contains_key(k) == ((nm.dom() - pending@.dom()).contains(k)
                        && (d.added)(k) is Some),
                forall|k: Seq<char>|
                    #[trigger] added@.contains_key(k) ==> (d.added)(k) == Some(value_view(added@[k])),
            decreases pending.seq().len(),
        {
            let ghost prev_pending = pending;
            let ghost prev_remaining = remaining@;
            let (key, new_value) = pending.pop_last().unwrap();
            let ghost kv = key@;
            proof {
                pending.lemma_finite();
                let i = prev_pending.seq().len() - 1;
                assert(prev_pending.seq()[i] == ns[i]);
                assert(new_value == ns[i].1);
                match n0 {
                    Properties::Entries(m) => {
                        m.lemma_value_decreases(i);
                        assert(decreases_to!(n0 => n0->Entries_0));
                    },
                    Properties::Empty => {},
                }
                assert(pending.seq() =~= ns.subrange(0, pending.seq().len() as int));
                assert(prev_pending@.contains_key(kv) && prev_pending@[kv] == new_value);
                crate::maps::lemma_submap_at(prev_pending@, nm, kv);
                assert(pending@.dom() =~= prev_pending@.dom().remove(kv));
                assert(!(nm.dom() - prev_pending@.dom()).contains(kv));
                assert(prev_remaining.contains_key(kv) == om.contains_key(kv));
            }
            match remaining.remove(&key) {
                Some(old_value) => {
                    proof {
                        assert(old_value == om[kv]);
                        assert((old_owner.props)(kv) == Some(value_view(old_value)));
                        assert((new_owner.props)(kv) == Some(value_view(new_value)));
                    }
                    let child = path.child(&ctx, &key);
                    let patch = ValuePatch::diff(old_value, new_value, &child, clear_paths);
                    if !patch.is_empty() {
                        changed.insert(key, patch);
                    }
                },
                None => {
                    proof {
                        assert((old_owner.props)(kv) is None);
                    }
                    added.insert(key, new_value);
                },
            }
            proof {
                assert(remaining@ =~= om.remove_keys(nm.dom() - pending@.dom()));
            }
        }
        proof {
            assert(pending@ =~= Map::<Seq<char>, Value>::empty());
        }
        let filter = find_remove_keys_filter(clear_paths, path, &ctx);
        let mut removed: OrdMap<String, ()> = OrdMap::new();
        match filter {
            Some(f) => {
                let n = remaining.len();
                let mut i: usize = 0;
                proof {
                    use_type_invariant(&remaining);
                    remaining.lemma_inv();
                }
                while i < n
                    invariant
                        n == remaining.seq().len(),
                        i <= n,
                        sorted_keys(remaining.seq()),
                        forall|k: Seq<char>| #[trigger] remaining@.contains_key(k) <==> has_key(remaining.seq(), k),
                        forall|k: Seq<char>|
                            #[trigger] removed@.contains_key(k) == ((exists|j: int|
                                0 <= j < i && #[trigger] remaining.seq()[j].0@ == k) && filter_keeps(
                                Some(opt_view(f.prefix)),
                                k,
                            )),
                    decreases n - i,
                {
                    let e = remaining.entry_at(i);
                    if f.keeps(&e.0) {
                        let key = e.0.clone();
                        removed.insert(key, ());
                    }
                    proof {
                        assert forall|k: Seq<char>| #[trigger] removed@.contains_key(k) == ((exists|j: int|
                            0 <= j < i + 1 && #[trigger] remaining.seq()[j].0@ == k) && filter_keeps(
                            Some(opt_view(f.prefix)),
                            k,
                        )) by {
                            if k == e.0@ {
                                assert(remaining.seq()[i as int].0@ == k);
                            }
                        }
                    }
                    i = i + 1;
                }
                proof {
                    assert forall|k: Seq<char>| #[trigger] removed@.contains_key(k) == (d.removed)(k) by {
                        if remaining@.contains_key(k) {
                            assert(has_key(remaining.seq(), k));
                            let j = choose|j: int| 0 <= j < remaining.seq().len() && #[trigger] remaining.seq()[j].0@ == k;
                        }
                        if (exists|j: int| 0 <= j < n && #[trigger] remaining.seq()[j].0@ == k) {
                            assert(has_key(remaining.seq(), k));
                        }
                    }
                }
            },
            None => {
                proof {
                    assert forall|k: Seq<char>| #[trigger] removed@.contains_key(k) == (d.removed)(k) by {}
                }
            },
        }
        proof {
            use_type_invariant(&changed);
            use_type_invariant(&added);
            lemma_vpatch_members_map(changed);
            lemma_value_members_map(added);
            assert forall|k: Seq<char>| #[trigger] lift_vpatches(changed@)(k) == (d.changed)(k) by {
                if !nm.contains_key(k) {
                    assert((new_owner.props)(k) is None);
                }
            }
            assert forall|k: Seq<char>| #[trigger] lift_values(added@)(k) == (d.added)(k) by {
                if !nm.contains_key(k) {
                    assert((new_owner.props)(k) is None);
                }
            }
            assert(lift_vpatches(changed@) =~= d.changed);
            assert(lift_values(added@) =~= d.added);
            let rm = |k: Seq<char>| removed@.contains_key(k);
            assert(rm =~= d.removed);
        }
        PropertiesPatch { changed: Some(changed), added, removed }
    }

    pub fn is_empty(&self) -> (r: bool)
        ensures
            r == ppatch_is_empty(ppatch_view(*self)),
    {
        proof {
            use_type_invariant(&self.added);
            use_type_invariant(&self.removed);
            self.added.lemma_inv();
            self.removed.lemma_inv();
            lemma_value_members(self.added.seq());
        }
        let c = match &self.changed {
            Some(m) => {
                proof {
                    use_type_invariant(m);
                    m.lemma_inv();
                    lemma_vpatch_members(m.seq());
                }
                m.is_empty()
            },
            None => true,
        };
        let r = c && self.added.is_empty() && self.removed.is_empty();
        proof {
            let p = ppatch_view(*self);
            if let Some(m) = &self.changed {
                if m.seq().len() > 0 {
                    let k = m.seq()[0].0@;
                    assert((p.changed)(k) is Some);
                }
            }
            if self.added.seq().len() > 0 {
                let k = self.added.seq()[0].0@;
                assert((p.added)(k) is Some);
                assert(!((p.changed)(k) is None && (p.added)(k) is None && !(p.removed)(k)));
            }
            if self.removed.seq().len() > 0 {
                let k = self.removed.seq()[0].0@;
                assert(self.removed@.contains_key(k));
                assert((p.removed)(k));
                assert(!((p.changed)(k) is None && (p.added)(k) is None && !(p.removed)(k)));
            }
            if r {
                assert forall|k: Seq<char>| #[trigger] (p.changed)(k) is None && (p.added)(k) is None
                    && !(p.removed)(k) by {
                    if let Some(m) = &self.changed {
                        assert(!has_key(m.seq(), k));
                    }
                    assert(!has_key(self.added.seq(), k));
                    assert(!self.removed@.contains_key(k));
                }
            }
        }
        r
    }
}


/// What a channel denotes.
pub struct ChannelV {
    pub name: Seq<char>,
    pub props: spec_fn(Seq<char>) -> Option<VV>,
}

pub open spec fn channel_view(c: Channel) -> ChannelV {
    ChannelV { name: c.name@, props: props_view(c.props) }
}

/// A channel seen as the owner of its properties.
pub open spec fn channel_owner(c: ChannelV) -> VV {
    VV { value: TV::Empty, props: c.props }
}

/// What the change of a channel denotes.
pub struct ChPatchV {
    pub name: Option<Seq<char>>,
    pub props: PPatch,
}

pub open spec fn channel_diff(old: ChannelV, new: ChannelV, cps: Seq<ClearPathV>) -> ChPatchV {
    ChPatchV {
        name: simple_diff(old.name, new.name),
        props: props_diff(
            channel_owner(old),
            channel_owner(new),
            DiffPathV { channel: None, props: Seq::empty() },
            CtxV::Channel(new.name),
            cps,
        ),
    }
}

pub open spec fn chpatch_is_empty(p: ChPatchV) -> bool {
    p.name is None && ppatch_is_empty(p.props)
}

impl Id for Channel {
    type Id = String;

    open spec fn spec_id(&self) -> Seq<char> {
        self.name@
    }

    fn id(&self) -> (r: &String) {
        &self.name
    }
}

/// The channels, keyed by name.
pub struct Channels(pub IdMap<Channel>);

impl Channels {
    pub fn is_empty(&self) -> (r: bool)
        ensures
            r == (self.0.0@ == Map::<Seq<char>, Channel>::empty()),
    {
        self.0.is_empty()
    }
}

/// The channels of `s`, in order, whose keys `old` lacks.
pub open spec fn added_channels(s: Seq<(String, Channel)>, old: Map<Seq<char>, Channel>) -> Seq<ChannelV>
    decreases s.len(),
{
    if s.len() == 0 {
        Seq::empty()
    } else if old.contains_key(s[0].0@) {
        added_channels(s.drop_first(), old)
    } else {
        seq![channel_view(s[0].1)] + added_channels(s.drop_first(), old)
    }
}

/// What the change of the channels denotes.
pub struct ChannelsPatchV {
    pub changed: spec_fn(Seq<char>) -> Option<ChPatchV>,
    pub added: Seq<ChannelV>,
}

/// The one-way difference of channels: channels in both are diffed, new ones added in key order.
pub open spec fn channels_diff(
    old: Map<Seq<char>, Channel>,
    new: OrdMap<String, Channel>,
    cps: Seq<ClearPathV>,
) -> ChannelsPatchV {
    ChannelsPatchV {
        changed: |k: Seq<char>|
            if old.contains_key(k) && new@.contains_key(k) && !chpatch_is_empty(
                channel_diff(channel_view(old[k]), channel_view(new@[k]), cps),
            ) {
                Some(channel_diff(channel_view(old[k]), channel_view(new@[k]), cps))
            } else {
                None
            },
        added: added_channels(new.seq(), old),
    }
}

/// The change of a channel.
pub struct ChannelPatch {
    pub name: SimplePatch<String>,
    pub props: PropertiesPatch,
}

pub open spec fn chpatch_view(p: ChannelPatch) -> ChPatchV {
    ChPatchV { name: p.name.model(), props: ppatch_view(p.props) }
}

impl ChannelPatch {
    pub fn diff(old: Channel, new: Channel, clear_paths: &Vec<ClearPath>) -> (r: Self)
        ensures
            chpatch_view(r) == channel_diff(channel_view(old), channel_view(new), cps_view(clear_paths@)),
    {
        let ghost ov = channel_owner(channel_view(old));
        let ghost nv = channel_owner(channel_view(new));
        let path = DiffPath::root();
        let ctx = PropertiesCtx::Channel(new.name.clone());
        let Channel { name: old_name, props: old_props } = old;
        let Channel { name: new_name, props: new_props } = new;
        let props = PropertiesPatch::diff(
            old_props,
            new_props,
            &path,
            ctx,
            clear_paths,
            Ghost(ov),
            Ghost(nv),
        );
        ChannelPatch { name: SimplePatch::diff(old_name, new_name), props }
    }

    pub fn is_empty(&self) -> (r: bool)
        ensures
            r == chpatch_is_empty(chpatch_view(*self)),
    {
        self.name.is_empty() && self.props.is_empty()
    }
}

/// The change of the channels: patches of kept channels, and added channels in key order.
pub struct ChannelsPatch {
    pub changed: OrdMap<String, ChannelPatch>,
    pub added: Vec<Channel>,
}

pub open spec fn chpatches_view(m: Map<Seq<char>, ChannelPatch>) -> spec_fn(Seq<char>) -> Option<ChPatchV> {
    |k: Seq<char>|
        if m.contains_key(k) {
            Some(chpatch_view(m[k]))
        } else {
            None
        }
}

pub open spec fn channels_patch_view(p: ChannelsPatch) -> ChannelsPatchV {
    ChannelsPatchV {
        changed: chpatches_view(p.changed@),
        added: p.added@.map_values(|c: Channel| channel_view(c)),
    }
}

pub open spec fn channels_patch_is_empty(p: ChannelsPatchV) -> bool {
    (forall|k: Seq<char>| #[trigger] (p.changed)(k) is None) && p.added.len() == 0
}

impl ChannelsPatch {
    #[verifier::spinoff_prover]
    pub fn diff(old: Channels, new: Channels, clear_paths: &Vec<ClearPath>) -> (r: Self)
        ensures
            channels_patch_view(r) == channels_diff(old.0.0@, new.0.0, cps_view(clear_paths@)),
    {
        let ghost o0 = old.0.0@;
        let ghost n0 = new.0.0;
        let ghost full = channels_diff(o0, n0, cps_view(clear_paths@));
        let ghost ns = n0.seq();
        let mut remaining = old.0.0;
        let mut pending = new.0.0;
        let mut changed: OrdMap<String, ChannelPatch> = OrdMap::new();
        let mut added: Vec<Channel> = Vec::new();
        proof {
            pending.lemma_finite();
            assert(ns.subrange(ns.len() as int, ns.len() as int) =~= Seq::<(String, Channel)>::empty());
            assert(added@.map_values(|c: Channel| channel_view(c)) =~= Seq::<ChannelV>::empty());
        }
        while !pending.is_empty()
            invariant
                full == channels_diff(o0, n0, cps_view(clear_paths@)),
                ns == n0.seq(),
                pending.seq().len() <= ns.len(),
                pending.seq() == ns.subrange(0, pending.seq().len() as int),
                pending@.submap_of(n0@),
                pending@.dom().finite(),
                remaining@ == o0.remove_keys(n0@.dom() - pending@.dom()),
                forall|k: Seq<char>|
                    #[trigger] changed@.contains_key(k) == ((n0@.dom() - pending@.dom()).contains(k)
                        && (full.changed)(k) is Some),
                forall|k: Seq<char>|
                    #[trigger] changed@.contains_key(k) ==> (full.changed)(k) == Some(
                        chpatch_view(changed@[k]),
                    ),
                added@.map_values(|c: Channel| channel_view(c)) == added_channels(
                    ns.subrange(pending.seq().len() as int, ns.len() as int),
                    o0,
                ),
            decreases pending.seq().len(),
        {
            let ghost prev_pending = pending;
            let ghost prev_remaining = remaining@;
            let ghost prev_added = added@;
            let (key, new_value) = pending.pop_last().unwrap();
            let ghost kv = key@;
            let ghost i = prev_pending.seq().len() - 1;
            proof {
                pending.lemma_finite();
                assert(prev_pending.seq()[i] == ns[i]);
                assert(pending.seq() =~= ns.subrange(0, pending.seq().len() as int));
                assert(prev_pending@.contains_key(kv) && prev_pending@[kv] == new_value);
                crate::maps::lemma_submap_at(prev_pending@, n0@, kv);
                assert(pending@.dom() =~= prev_pending@.dom().remove(kv));
                assert(pending@ =~= prev_pending@.remove(kv));
                assert(pending@.submap_of(n0@));
                assert(!(n0@.dom() - prev_pending@.dom()).contains(kv));
                assert(prev_remaining.contains_key(kv) == o0.contains_key(kv));
                let rest = ns.subrange(i + 1, ns.len() as int);
                assert(ns.subrange(i, ns.len() as int).drop_first() =~= rest);
                assert(ns.subrange(i, ns.len() as int)[0] == (key, new_value));
            }
            match remaining.remove(&key) {
                Some(old_value) => {
                    proof {
                        assert(old_value == o0[kv]);
                    }
                    let patch = ChannelPatch::diff(old_value, new_value, clear_paths);
                    if !patch.is_empty() {
                        changed.insert(key, patch);
                    }
                },
                None => {
                    added.insert(0, new_value);
                    proof {
                        assert(added@.map_values(|c: Channel| channel_view(c)) =~= seq![channel_view(
                            new_value,
                        )] + prev_added.map_values(|c: Channel| channel_view(c)));
                    }
                },
            }
            proof {
                assert(remaining@ =~= o0.remove_keys(n0@.dom() - pending@.dom()));
            }
        }
        proof {
            assert(pending@ =~= Map::<Seq<char>, Channel>::empty());
            assert(ns.subrange(0, ns.len() as int) =~= ns);
            assert forall|k: Seq<char>| #[trigger] chpatches_view(changed@)(k) == (full.changed)(k) by {}
            assert(chpatches_view(changed@) =~= full.changed);
        }
        ChannelsPatch { changed, added }
    }

    pub fn is_empty(&self) -> (r: bool)
        ensures
            r == channels_patch_is_empty(channels_patch_view(*self)),
    {
        proof {
            use_type_invariant(&self.changed);
            self.changed.lemma_inv();
        }
        let r = self.changed.is_empty() && self.added.len() == 0;
        proof {
            let p = channels_patch_view(*self);
            if self.changed.seq().len() > 0 {
                assert((p.changed)(self.changed.seq()[0].0@) is Some);
            }
            if r {
                assert forall|k: Seq<char>| #[trigger] (p.changed)(k) is None by {
                    assert(!self.changed@.contains_key(k));
                }
            }
        }
        r
    }
}

/// The xfconf configuration: channels, and the clear paths that apply to a diff towards it.
pub struct Xfconf {
    pub channels: Channels,
    pub clear_paths: Vec<ClearPath>,
}

impl Xfconf {
    pub fn is_empty(&self) -> (r: bool)
        ensures
            r == (self.channels.0.0@ == Map::<Seq<char>, Channel>::empty()),
    {
        self.channels.is_empty()
    }
}

/// The change of the xfconf configuration.
pub struct XfconfPatch {
    pub channels: ChannelsPatch,
}

/// The name of the panel's channel.
pub open spec fn panel_channel() -> Seq<char> {
    "xfce4-panel"@
}

/// Whether a change of channels changes or adds the panel's channel.
pub open spec fn panel_changed(p: ChannelsPatchV) -> bool {
    (p.changed)(panel_channel()) is Some || exists|i: int|
        0 <= i < p.added.len() && #[trigger] p.added[i].name == panel_channel()
}

proof fn lemma_added_channels_names(s: Seq<(String, Channel)>, old: Map<Seq<char>, Channel>, x: Seq<char>)
    ensures
        (exists|j: int|
            0 <= j < added_channels(s, old).len() && #[trigger] added_channels(s, old)[j].name == x) <==> (exists|
            i: int,
        | 0 <= i < s.len() && !old.contains_key(#[trigger] s[i].0@) && s[i].1.name@ == x),
    decreases s.len(),
{
    if s.len() > 0 {
        let t = s.drop_first();
        lemma_added_channels_names(t, old, x);
        let a = added_channels(s, old);
        let b = added_channels(t, old);
        if exists|j: int| 0 <= j < a.len() && #[trigger] a[j].name == x {
            let j = choose|j: int| 0 <= j < a.len() && #[trigger] a[j].name == x;
            if old.contains_key(s[0].0@) {
                assert(a == b);
                assert(b[j].name == x);
                let i = choose|i: int| 0 <= i < t.len() && !old.contains_key(#[trigger] t[i].0@) && t[i].1.name@ == x;
                assert(t[i] == s[i + 1]);
            } else if j > 0 {
                assert(a[j] == b[j - 1]);
                let i = choose|i: int| 0 <= i < t.len() && !old.contains_key(#[trigger] t[i].0@) && t[i].1.name@ == x;
                assert(t[i] == s[i + 1]);
            } else {
                assert(a[0] == channel_view(s[0].1));
                assert(!old.contains_key(s[0].0@));
            }
        }
        if exists|i: int| 0 <= i < s.len() && !old.contains_key(#[trigger] s[i].0@) && s[i].1.name@ == x {
            let i = choose|i: int| 0 <= i < s.len() && !old.contains_key(#[trigger] s[i].0@) && s[i].1.name@ == x;
            if i == 0 {
                assert(a[0] == channel_view(s[0].1));
                assert(a[0].name == x);
            } else {
                assert(t[i - 1] == s[i]);
                assert(!old.contains_key(t[i - 1].0@));
                let j = choose|j: int| 0 <= j < b.len() && #[trigger] b[j].name == x;
                if old.contains_key(s[0].0@) {
                    assert(a == b);
                    assert(a[j].name == x);
                } else {
                    assert(a[j + 1] == b[j]);
                }
            }
        }
    }
}

/// A diff changes or adds the panel's channel exactly when the new channels have it and either
/// the old ones lack it or its change from the old one is not empty; channels are keyed by their
/// names.
pub proof fn lemma_panel_changed(old: Map<Seq<char>, Channel>, new: OrdMap<String, Channel>, cps: Seq<ClearPathV>)
    requires
        new.inv(),
        forall|k: Seq<char>| #[trigger] new@.contains_key(k) ==> new@[k].name@ == k,
    ensures
        panel_changed(channels_diff(old, new, cps)) <==> new@.contains_key(panel_channel()) && (!old.contains_key(
            panel_channel(),
        ) || !chpatch_is_empty(
            channel_diff(channel_view(old[panel_channel()]), channel_view(new@[panel_channel()]), cps),
        )),
{
    let pc = panel_channel();
    let s = new.seq();
    new.lemma_inv();
    lemma_added_channels_names(s, old, pc);
    let d = channels_diff(old, new, cps);
    let added_pc = exists|j: int| 0 <= j < d.added.len() && #[trigger] d.added[j].name == pc;
    let listed = exists|i: int| 0 <= i < s.len() && !old.contains_key(#[trigger] s[i].0@) && s[i].1.name@ == pc;
    assert(d.added == added_channels(s, old));
    assert(added_pc == listed);
    if listed {
        let i = choose|i: int| 0 <= i < s.len() && !old.contains_key(#[trigger] s[i].0@) && s[i].1.name@ == pc;
        assert(new@.contains_key(s[i].0@));
        assert(new@[s[i].0@] == s[i].1);
        assert(s[i].0@ == pc);
        assert(new@.contains_key(pc) && !old.contains_key(pc));
    }
    if new@.contains_key(pc) && !old.contains_key(pc) {
        assert(has_key(s, pc));
        let i = choose|i: int| 0 <= i < s.len() && #[trigger] s[i].0@ == pc;
        assert(new@[s[i].0@] == s[i].1);
        assert(!old.contains_key(s[i].0@) && s[i].1.name@ == pc);
        assert(listed);
    }
    assert(panel_changed(d) == ((d.changed)(pc) is Some || added_pc));
}

/// `panel_changed` of a patch's view reads the names of the added channels.
proof fn lemma_panel_changed_view(p: ChannelsPatch)
    ensures
        panel_changed(channels_patch_view(p)) == ((channels_patch_view(p).changed)(panel_channel()) is Some
            || exists|i: int| 0 <= i < p.added@.len() && #[trigger] p.added@[i].name@ == panel_channel()),
{
    let v = channels_patch_view(p);
    if exists|i: int| 0 <= i < p.added@.len() && #[trigger] p.added@[i].name@ == panel_channel() {
        let i = choose|i: int| 0 <= i < p.added@.len() && #[trigger] p.added@[i].name@ == panel_channel();
        assert(v.added[i] == channel_view(p.added@[i]));
        assert(v.added[i].name == panel_channel());
    }
    if exists|i: int| 0 <= i < v.added.len() && #[trigger] v.added[i].name == panel_channel() {
        let i = choose|i: int| 0 <= i < v.added.len() && #[trigger] v.added[i].name == panel_channel();
        assert(v.added[i] == channel_view(p.added@[i]));
        assert(p.added@[i].name@ == panel_channel());
    }
}

impl XfconfPatch {
    /// The one-way difference from `old` to `new`, with the clear paths of `new`.
    pub fn diff(old: Xfconf, new: Xfconf) -> (r: Self)
        ensures
            channels_patch_view(r.channels) == channels_diff(
                old.channels.0.0@,
                new.channels.0.0,
                cps_view(new.clear_paths@),
            ),
    {
        let Xfconf { channels: new_channels, clear_paths } = new;
        XfconfPatch { channels: ChannelsPatch::diff(old.channels, new_channels, &clear_paths) }
    }

    pub fn is_empty(&self) -> (r: bool)
        ensures
            r == channels_patch_is_empty(channels_patch_view(self.channels)),
    {
        self.channels.is_empty()
    }

    /// Whether the patch changes or adds the panel's channel.
    pub fn has_panel_changes(&self) -> (r: bool)
        ensures
            r == ((channels_patch_view(self.channels).changed)(panel_channel()) is Some || exists|i: int|
                0 <= i < self.channels.added@.len() && #[trigger] self.channels.added@[i].name@
                    == panel_channel()),
            r == panel_changed(channels_patch_view(self.channels)),
    {
        let mut found = false;
        let n = self.channels.changed.len();
        let mut i: usize = 0;
        proof {
            lemma_panel_changed_view(self.channels);
            use_type_invariant(&self.channels.changed);
            self.channels.changed.lemma_inv();
        }
        while i < n
            invariant
                n == self.channels.changed.seq().len(),
                i <= n,
                forall|k: Seq<char>| #[trigger] self.channels.changed@.contains_key(k) <==> has_key(self.channels.changed.seq(), k),
                found == exists|j: int| 0 <= j < i && #[trigger] self.channels.changed.seq()[j].0@ == panel_channel(),
            decreases n - i,
        {
            let e = self.channels.changed.entry_at(i);
            if crate::text::str_eq(e.0.as_str(), "xfce4-panel") {
                found = true;
            }
            i = i + 1;
        }
        if found {
            return true;
        }
        let mut j: usize = 0;
        while j < self.channels.added.len()
            invariant
                j <= self.channels.added@.len(),
                !found,
                !self.channels.changed@.contains_key(panel_channel()),
                forall|m: int| 0 <= m < j ==> self.channels.added@[m].name@ != panel_channel(),
            decreases self.channels.added.len() - j,
        {
            if crate::text::str_eq(self.channels.added[j].name.as_str(), "xfce4-panel") {
                proof {
                    lemma_panel_changed_view(self.channels);
                }
                return true;
            }
            j = j + 1;
        }
        false
    }
}


/// A value of an array property.
pub enum ArrayItem {
    Bool(bool),
    Int(i32),
    Uint(u32),
    Double(u64),
    String(String),
}

/// Why an array cannot be set.
pub enum ArrayItemError {
    ArrayInArray,
    EmptyInArray,
}

/// A value to set a property to.
pub enum SetValue {
    Bool(bool),
    Int(i32),
    Uint(u32),
    Double(u64),
    String(String),
    Array(Vec<ArrayItem>),
}

/// A step of applying a patch: set a property, remove (reset) it, or stop with an error.
pub enum XfconfStep {
    SetProperty { channel: String, property: String, value: SetValue },
    ResetProperty { channel: String, property: String },
    Fail { channel: String, property: String, error: ArrayItemError },
}

/// What an array item denotes.
pub enum ItemV {
    Bool(bool),
    Int(i32),
    Uint(u32),
    Double(u64),
    String(Seq<char>),
}

/// What a value to set denotes.
pub enum SetV {
    Bool(bool),
    Int(i32),
    Uint(u32),
    Double(u64),
    String(Seq<char>),
    Array(Seq<ItemV>),
}

/// What a step denotes.
pub enum StepV {
    Assign(Seq<char>, Seq<char>, SetV),
    Reset(Seq<char>, Seq<char>),
    Fail(Seq<char>, Seq<char>, ArrayItemError),
}

pub open spec fn item_view(i: ArrayItem) -> ItemV {
    match i {
        ArrayItem::Bool(b) => ItemV::Bool(b),
        ArrayItem::Int(n) => ItemV::Int(n),
        ArrayItem::Uint(n) => ItemV::Uint(n),
        ArrayItem::Double(d) => ItemV::Double(d),
        ArrayItem::String(s) => ItemV::String(s@),
    }
}

pub open spec fn set_view(v: SetValue) -> SetV {
    match v {
        SetValue::Bool(b) => SetV::Bool(b),
        SetValue::Int(n) => SetV::Int(n),
        SetValue::Uint(n) => SetV::Uint(n),
        SetValue::Double(d) => SetV::Double(d),
        SetValue::String(s) => SetV::String(s@),
        SetValue::Array(a) => SetV::Array(a@.map_values(|i: ArrayItem| item_view(i))),
    }
}

pub open spec fn step_view(s: XfconfStep) -> StepV {
    match s {
        XfconfStep::SetProperty { channel, property, value } => StepV::Assign(channel@, property@, set_view(value)),
        XfconfStep::ResetProperty { channel, property } => StepV::Reset(channel@, property@),
        XfconfStep::Fail { channel, property, error } => StepV::Fail(channel@, property@, error),
    }
}

pub open spec fn steps_view(s: Seq<XfconfStep>) -> Seq<StepV> {
    s.map_values(|x: XfconfStep| step_view(x))
}

/// The property name of a path below a channel: each name preceded by a slash.
pub open spec fn prop_string(path: Seq<Seq<char>>) -> Seq<char>
    decreases path.len(),
{
    if path.len() == 0 {
        Seq::empty()
    } else {
        prop_string(path.drop_last()) + seq!['/'] + path.last()
    }
}

/// The array item that a value stands for, if it can be one.
pub open spec fn item_of(v: Value) -> Result<ItemV, ArrayItemError> {
    match v.value {
        TypedValue::Bool(b) => Ok(ItemV::Bool(b)),
        TypedValue::Int(n) => Ok(ItemV::Int(n)),
        TypedValue::Uint(n) => Ok(ItemV::Uint(n)),
        TypedValue::Double(d) => Ok(ItemV::Double(d)),
        TypedValue::String(x) => Ok(ItemV::String(x@)),
        TypedValue::Array(_) => Err(ArrayItemError::ArrayInArray),
        TypedValue::Empty => Err(ArrayItemError::EmptyInArray),
    }
}

/// The array items of values, or the error of the first value that cannot be one.
pub open spec fn array_items(s: Seq<Value>) -> Result<Seq<ItemV>, ArrayItemError>
    decreases s.len(),
{
    if s.len() == 0 {
        Ok(Seq::empty())
    } else {
        match item_of(s[0]) {
            Err(e) => Err(e),
            Ok(i) => match array_items(s.drop_first()) {
                Err(e) => Err(e),
                Ok(rest) => Ok(seq![i] + rest),
            },
        }
    }
}

proof fn lemma_array_items_ok(s: Seq<Value>, items: Seq<ItemV>)
    requires
        items.len() == s.len(),
        forall|j: int| 0 <= j < s.len() ==> item_of(#[trigger] s[j]) == Ok::<ItemV, ArrayItemError>(items[j]),
    ensures
        array_items(s) == Ok::<Seq<ItemV>, ArrayItemError>(items),
    decreases s.len(),
{
    if s.len() > 0 {
        assert forall|j: int| 0 <= j < s.drop_first().len() implies item_of(#[trigger] s.drop_first()[j])
            == Ok::<ItemV, ArrayItemError>(items.drop_first()[j]) by {
            assert(s.drop_first()[j] == s[j + 1]);
        }
        lemma_array_items_ok(s.drop_first(), items.drop_first());
        assert(item_of(s[0]) == Ok::<ItemV, ArrayItemError>(items[0]));
        assert(items =~= seq![items[0]] + items.drop_first());
    } else {
        assert(items =~= Seq::<ItemV>::empty());
    }
}

proof fn lemma_array_items_err(s: Seq<Value>, i: int, e: ArrayItemError)
    requires
        0 <= i < s.len(),
        forall|j: int| 0 <= j < i ==> item_of(#[trigger] s[j]) is Ok,
        item_of(s[i]) == Err::<ItemV, ArrayItemError>(e),
    ensures
        array_items(s) == Err::<Seq<ItemV>, ArrayItemError>(e),
    decreases i,
{
    if i > 0 {
        assert(item_of(s[0]) is Ok);
        assert forall|j: int| 0 <= j < i - 1 implies item_of(#[trigger] s.drop_first()[j]) is Ok by {
            assert(s.drop_first()[j] == s[j + 1]);
        }
        assert(s.drop_first()[i - 1] == s[i]);
        lemma_array_items_err(s.drop_first(), i - 1, e);
    }
}

/// The step that sets an array.
pub open spec fn array_step(ch: Seq<char>, prop: Seq<char>, a: Seq<Value>) -> StepV {
    match array_items(a) {
        Ok(items) => StepV::Assign(ch, prop, SetV::Array(items)),
        Err(e) => StepV::Fail(ch, prop, e),
    }
}

/// The steps that set a typed value: none for an empty one.
pub open spec fn tv_steps(t: TypedValue, ch: Seq<char>, prop: Seq<char>) -> Seq<StepV> {
    match t {
        TypedValue::Bool(b) => seq![StepV::Assign(ch, prop, SetV::Bool(b))],
        TypedValue::Int(n) => seq![StepV::Assign(ch, prop, SetV::Int(n))],
        TypedValue::Uint(n) => seq![StepV::Assign(ch, prop, SetV::Uint(n))],
        TypedValue::Double(d) => seq![StepV::Assign(ch, prop, SetV::Double(d))],
        TypedValue::String(s) => seq![StepV::Assign(ch, prop, SetV::String(s@))],
        TypedValue::Array(a) => seq![array_step(ch, prop, a@)],
        TypedValue::Empty => Seq::empty(),
    }
}

/// The steps that set a property and then its sub-properties, in key order.
pub open spec fn value_steps(v: Value, ch: Seq<char>, path: Seq<Seq<char>>) -> Seq<StepV>
    decreases v, 1nat,
{
    tv_steps(v.value, ch, prop_string(path)) + props_steps(v.props, ch, path)
}

pub open spec fn props_steps(p: Properties, ch: Seq<char>, path: Seq<Seq<char>>) -> Seq<StepV>
    decreases p, 1nat,
{
    match p {
        Properties::Empty => Seq::empty(),
        Properties::Entries(m) => {
            proof {
                m.lemma_seq_decreases();
            }
            entries_steps(m.seq(), ch, path)
        },
    }
}

pub open spec fn entries_steps(s: Seq<(String, Value)>, ch: Seq<char>, path: Seq<Seq<char>>) -> Seq<StepV>
    decreases s, 0nat,
{
    if s.len() == 0 {
        Seq::empty()
    } else {
        value_steps(s[0].1, ch, path.push(s[0].0@)) + entries_steps(s.drop_first(), ch, path)
    }
}

/// The steps that apply the change of a typed value.
pub open spec fn tvpatch_steps(p: TypedValuePatch, ch: Seq<char>, prop: Seq<char>) -> Seq<StepV> {
    match p {
        TypedValuePatch::Bool(s) => match s.value {
            Some(b) => seq![StepV::Assign(ch, prop, SetV::Bool(b))],
            None => Seq::empty(),
        },
        TypedValuePatch::Int(s) => match s.value {
            Some(n) => seq![StepV::Assign(ch, prop, SetV::Int(n))],
            None => Seq::empty(),
        },
        TypedValuePatch::Uint(s) => match s.value {
            Some(n) => seq![StepV::Assign(ch, prop, SetV::Uint(n))],
            None => Seq::empty(),
        },
        TypedValuePatch::Double(s) => match s.value {
            Some(d) => seq![StepV::Assign(ch, prop, SetV::Double(d))],
            None => Seq::empty(),
        },
        TypedValuePatch::String(s) => match s.value {
            Some(x) => seq![StepV::Assign(ch, prop, SetV::String(x@))],
            None => Seq::empty(),
        },
        TypedValuePatch::Array(s) => match s.value {
            Some(a) => seq![array_step(ch, prop, a@)],
            None => Seq::empty(),
        },
        TypedValuePatch::Empty => Seq::empty(),
        TypedValuePatch::Changed(t) => tv_steps(t, ch, prop),
    }
}

/// Arrays of values with the same content give the same array items.
proof fn lemma_array_items_view(x: Seq<Value>, y: Seq<Value>)
    requires
        values_view(x) == values_view(y),
    ensures
        array_items(x) == array_items(y),
    decreases x.len(),
{
    lemma_values_view(x);
    lemma_values_view(y);
    if x.len() > 0 {
        assert(value_view(x[0]) == values_view(x)[0]);
        assert(value_view(y[0]) == values_view(y)[0]);
        assert(tv_view(x[0].value) == tv_view(y[0].value));
        assert(item_of(x[0]) == item_of(y[0]));
        lemma_values_view(x.drop_first());
        lemma_values_view(y.drop_first());
        assert(values_view(x).drop_first() =~= values_view(x.drop_first()));
        assert(values_view(y).drop_first() =~= values_view(y.drop_first()));
        lemma_array_items_view(x.drop_first(), y.drop_first());
    }
}

/// Planning the change of a typed value from `old` to `new` (a patch that the diff made) sets the
/// property once to `new`'s value, unless the two are equal, when it does nothing; an array is set
/// to its items, or stops with the error of an item that cannot be one.
pub proof fn lemma_tvpatch_steps_set_new(
    old: TypedValue,
    new: TypedValue,
    p: TypedValuePatch,
    ch: Seq<char>,
    prop: Seq<char>,
)
    requires
        tvpatch_view(p) == tv_diff(tv_view(old), tv_view(new)),
        !(new is Empty),
    ensures
        tv_same(tv_view(old), tv_view(new)) ==> tvpatch_steps(p, ch, prop) == Seq::<StepV>::empty(),
        !tv_same(tv_view(old), tv_view(new)) ==> tvpatch_steps(p, ch, prop) == match new {
            TypedValue::Bool(b) => seq![StepV::Assign(ch, prop, SetV::Bool(b))],
            TypedValue::Int(n) => seq![StepV::Assign(ch, prop, SetV::Int(n))],
            TypedValue::Uint(n) => seq![StepV::Assign(ch, prop, SetV::Uint(n))],
            TypedValue::Double(d) => seq![StepV::Assign(ch, prop, SetV::Double(d))],
            TypedValue::String(x) => seq![StepV::Assign(ch, prop, SetV::String(x@))],
            TypedValue::Array(a) => seq![
                match array_items(a@) {
                    Ok(items) => StepV::Assign(ch, prop, SetV::Array(items)),
                    Err(e) => StepV::Fail(ch, prop, e),
                },
            ],
            TypedValue::Empty => Seq::<StepV>::empty(),
        },
{
    match p {
        TypedValuePatch::Array(sp) => {
            match (old, new) {
                (TypedValue::Array(oa), TypedValue::Array(na)) => {
                    if let Some(a) = sp.value {
                        assert(values_view(a@) == values_view(na@));
                        lemma_array_items_view(a@, na@);
                    }
                },
                _ => {},
            }
        },
        TypedValuePatch::Changed(t) => {
            match (t, new) {
                (TypedValue::Array(ta), TypedValue::Array(na)) => {
                    lemma_array_items_view(ta@, na@);
                },
                _ => {},
            }
        },
        _ => {},
    }
}

/// The steps that apply the change of a property: of its value, then of its sub-properties.
pub open spec fn vpatch_steps(p: ValuePatch, ch: Seq<char>, path: Seq<Seq<char>>) -> Seq<StepV>
    decreases p, 1nat,
{
    tvpatch_steps(p.value, ch, prop_string(path)) + ppatch_steps(p.props, ch, path)
}

/// The steps that apply the change of properties: changed ones, then added ones, then removed
/// ones, each in key order.
pub open spec fn ppatch_steps(p: PropertiesPatch, ch: Seq<char>, path: Seq<Seq<char>>) -> Seq<StepV>
    decreases p, 1nat,
{
    let changed = match p.changed {
        Some(m) => {
            proof {
                m.lemma_seq_decreases();
            }
            changed_steps(m.seq(), ch, path)
        },
        None => Seq::empty(),
    };
    changed + entries_steps(p.added.seq(), ch, path) + removed_steps(p.removed.seq(), ch, path)
}

/// Planning the change of a property whose value changed from `old` to a scalar `new` starts by
/// setting the property, at its path, to `new`'s value.
pub proof fn lemma_vpatch_steps_set_new(
    old: TypedValue,
    new: TypedValue,
    p: ValuePatch,
    ch: Seq<char>,
    path: Seq<Seq<char>>,
)
    requires
        tvpatch_view(p.value) == tv_diff(tv_view(old), tv_view(new)),
        !(new is Empty),
        !(new is Array),
        !tv_same(tv_view(old), tv_view(new)),
    ensures
        vpatch_steps(p, ch, path).len() >= 1,
        vpatch_steps(p, ch, path)[0] == StepV::Assign(
            ch,
            prop_string(path),
            match new {
                TypedValue::Bool(b) => SetV::Bool(b),
                TypedValue::Int(n) => SetV::Int(n),
                TypedValue::Uint(n) => SetV::Uint(n),
                TypedValue::Double(d) => SetV::Double(d),
                TypedValue::String(x) => SetV::String(x@),
                _ => SetV::Bool(false),
            },
        ),
{
    lemma_tvpatch_steps_set_new(old, new, p.value, ch, prop_string(path));
}

pub open spec fn changed_steps(s: Seq<(String, ValuePatch)>, ch: Seq<char>, path: Seq<Seq<char>>) -> Seq<StepV>
    decreases s, 0nat,
{
    if s.len() == 0 {
        Seq::empty()
    } else {
        vpatch_steps(s[0].1, ch, path.push(s[0].0@)) + changed_steps(s.drop_first(), ch, path)
    }
}

pub open spec fn removed_steps(s: Seq<(String, ())>, ch: Seq<char>, path: Seq<Seq<char>>) -> Seq<StepV>
    decreases s.len(),
{
    if s.len() == 0 {
        Seq::empty()
    } else {
        seq![StepV::Reset(ch, prop_string(path.push(s[0].0@)))] + removed_steps(s.drop_first(), ch, path)
    }
}


/// Where a patch is applied: a channel and the names of the properties leading down.
pub struct ApplyPath {
    pub channel: String,
    pub props: im::Vector<String>,
}

impl ApplyPath {
    pub fn new(channel: String) -> (r: Self)
        ensures
            r.channel@ == channel@,
            vector_items(r.props) == Seq::<Seq<char>>::empty(),
    {
        ApplyPath { channel, props: vector_new() }
    }

    /// The path of the property `prop` below this one.
    pub fn push(&self, prop: String) -> (r: Self)
        ensures
            r.channel@ == self.channel@,
            vector_items(r.props) == vector_items(self.props).push(prop@),
    {
        let mut props = vector_clone(&self.props);
        vector_push_back(&mut props, prop);
        ApplyPath { channel: self.channel.clone(), props }
    }

    /// The channel and the property name: each name preceded by a slash.
    pub fn channel_property(&self) -> (r: (String, String))
        ensures
            r.0@ == self.channel@,
            r.1@ == prop_string(vector_items(self.props)),
    {
        let ghost items = vector_items(self.props);
        let n = vector_len(&self.props);
        let mut property = String::new();
        let mut i: usize = 0;
        proof {
            reveal_strlit("/");
            assert(items.take(0) =~= Seq::<Seq<char>>::empty());
        }
        while i < n
            invariant
                items == vector_items(self.props),
                n == items.len(),
                i <= n,
                property@ == prop_string(items.take(i as int)),
                "/"@ == seq!['/'],
            decreases n - i,
        {
            match vector_get(&self.props, i) {
                Some(name) => {
                    property.append("/");
                    property.append(name.as_str());
                    proof {
                        assert(items.take(i + 1).drop_last() =~= items.take(i as int));
                        assert(items.take(i + 1).last() == items[i as int]);
                    }
                },
                None => {},
            }
            i = i + 1;
        }
        proof {
            assert(items.take(n as int) =~= items);
        }
        (self.channel.clone(), property)
    }
}

fn item_of_value(v: &Value) -> (r: Result<ArrayItem, ArrayItemError>)
    ensures
        match r {
            Ok(i) => item_of(*v) == Ok::<ItemV, ArrayItemError>(item_view(i)),
            Err(e) => item_of(*v) == Err::<ItemV, ArrayItemError>(e),
        },
{
    match &v.value {
        TypedValue::Bool(b) => Ok(ArrayItem::Bool(*b)),
        TypedValue::Int(n) => Ok(ArrayItem::Int(*n)),
        TypedValue::Uint(n) => Ok(ArrayItem::Uint(*n)),
        TypedValue::Double(d) => Ok(ArrayItem::Double(*d)),
        TypedValue::String(x) => Ok(ArrayItem::String(x.clone())),
        TypedValue::Array(_) => Err(ArrayItemError::ArrayInArray),
        TypedValue::Empty => Err(ArrayItemError::EmptyInArray),
    }
}

/// The array items of values, or the error of the first value that cannot be one.
pub fn array_items_of(values: &Vec<Value>) -> (r: Result<Vec<ArrayItem>, ArrayItemError>)
    ensures
        match r {
            Ok(items) => array_items(values@) == Ok::<Seq<ItemV>, ArrayItemError>(
                items@.map_values(|i: ArrayItem| item_view(i)),
            ),
            Err(e) => array_items(values@) == Err::<Seq<ItemV>, ArrayItemError>(e),
        },
{
    let mut items: Vec<ArrayItem> = Vec::new();
    let mut i: usize = 0;
    while i < values.len()
        invariant
            i <= values.len(),
            items.len() == i,
            forall|j: int|
                0 <= j < i ==> item_of(#[trigger] values@[j]) == Ok::<ItemV, ArrayItemError>(
                    item_view(items@[j]),
                ),
        decreases values.len() - i,
    {
        match item_of_value(&values[i]) {
            Ok(item) => {
                items.push(item);
            },
            Err(e) => {
                proof {
                    lemma_array_items_err(values@, i as int, e);
                }
                return Err(e);
            },
        }
        i = i + 1;
    }
    proof {
        let iv = items@.map_values(|i: ArrayItem| item_view(i));
        assert forall|j: int| 0 <= j < values@.len() implies item_of(#[trigger] values@[j]) == Ok::<
            ItemV,
            ArrayItemError,
        >(iv[j]) by {}
        lemma_array_items_ok(values@, iv);
    }
    Ok(items)
}

fn array_step_of(path: &ApplyPath, values: &Vec<Value>) -> (r: XfconfStep)
    ensures
        step_view(r) == array_step(path.channel@, prop_string(vector_items(path.props)), values@),
{
    let (channel, property) = path.channel_property();
    match array_items_of(values) {
        Ok(items) => XfconfStep::SetProperty { channel, property, value: SetValue::Array(items) },
        Err(error) => XfconfStep::Fail { channel, property, error },
    }
}

fn set_step(path: &ApplyPath, value: SetValue) -> (r: XfconfStep)
    ensures
        step_view(r) == StepV::Assign(path.channel@, prop_string(vector_items(path.props)), set_view(value)),
{
    let (channel, property) = path.channel_property();
    XfconfStep::SetProperty { channel, property, value }
}

impl TypedValue {
    /// Appends the steps that set this value at `path`.
    pub fn push_steps(&self, path: &ApplyPath, steps: &mut Vec<XfconfStep>)
        ensures
            steps_view(final(steps)@) == steps_view(old(steps)@) + tv_steps(
                *self,
                path.channel@,
                prop_string(vector_items(path.props)),
            ),
    {
        let ghost before = steps@;
        match self {
            TypedValue::Bool(b) => steps.push(set_step(path, SetValue::Bool(*b))),
            TypedValue::Int(n) => steps.push(set_step(path, SetValue::Int(*n))),
            TypedValue::Uint(n) => steps.push(set_step(path, SetValue::Uint(*n))),
            TypedValue::Double(d) => steps.push(set_step(path, SetValue::Double(*d))),
            TypedValue::String(x) => steps.push(set_step(path, SetValue::String(x.clone()))),
            TypedValue::Array(a) => steps.push(array_step_of(path, a)),
            TypedValue::Empty => {},
        }
        proof {
            assert(steps_view(steps@) =~= steps_view(before) + tv_steps(
                *self,
                path.channel@,
                prop_string(vector_items(path.props)),
            ));
        }
    }
}

impl Value {
    /// Appends the steps that set this property and then its sub-properties.
    pub fn push_steps(&self, path: &ApplyPath, steps: &mut Vec<XfconfStep>)
        ensures
            steps_view(final(steps)@) == steps_view(old(steps)@) + value_steps(
                *self,
                path.channel@,
                vector_items(path.props),
            ),
        decreases *self, 1nat,
    {
        let ghost before = steps@;
        self.value.push_steps(path, steps);
        let ghost mid = steps@;
        proof {
            assert(decreases_to!(*self => self.props));
        }
        self.props.push_steps(path, steps);
        proof {
            assert(steps_view(steps@) =~= steps_view(before) + value_steps(
                *self,
                path.channel@,
                vector_items(path.props),
            ));
        }
    }
}

impl Properties {
    /// Appends the steps that set each property, in key order.
    pub fn push_steps(&self, path: &ApplyPath, steps: &mut Vec<XfconfStep>)
        ensures
            steps_view(final(steps)@) == steps_view(old(steps)@) + props_steps(
                *self,
                path.channel@,
                vector_items(path.props),
            ),
        decreases *self, 0nat,
    {
        match self {
            Properties::Empty => {
                proof {
                    assert(steps_view(steps@) + props_steps(*self, path.channel@, vector_items(path.props))
                        =~= steps_view(steps@));
                }
            },
            Properties::Entries(m) => {
                proof {
                    assert(decreases_to!(*self => (*self)->Entries_0));
                }
                push_map_steps(m, path, steps);
            },
        }
    }
}

/// Appends the steps that set each property of a map, in key order.
fn push_map_steps(m: &OrdMap<String, Value>, path: &ApplyPath, steps: &mut Vec<XfconfStep>)
    ensures
        steps_view(final(steps)@) == steps_view(old(steps)@) + entries_steps(
            m.seq(),
            path.channel@,
            vector_items(path.props),
        ),
    decreases *m, 1nat,
{
    let ghost ch = path.channel@;
    let ghost base = vector_items(path.props);
    let ghost before = steps@;
    let ghost s = m.seq();
    let n = m.len();
    let mut i: usize = 0;
    proof {
        assert(s.skip(0) =~= s);
    }
    while i < n
        invariant
            n == s.len(),
            s == m.seq(),
            i <= n,
            ch == path.channel@,
            base == vector_items(path.props),
            steps_view(before) + entries_steps(s, ch, base) == steps_view(steps@) + entries_steps(
                s.skip(i as int),
                ch,
                base,
            ),
        decreases n - i,
    {
        let e = m.entry_at(i);
        let child = path.push(e.0.clone());
        proof {
            m.lemma_value_decreases(i as int);
            assert(s.skip(i as int)[0] == s[i as int]);
            assert(s.skip(i as int).drop_first() =~= s.skip(i + 1));
        }
        let ghost prev = steps@;
        e.1.push_steps(&child, steps);
        proof {
            assert(steps_view(prev) + value_steps(e.1, ch, base.push(e.0@)) + entries_steps(
                s.skip(i + 1),
                ch,
                base,
            ) == steps_view(prev) + entries_steps(s.skip(i as int), ch, base));
        }
        i = i + 1;
    }
    proof {
        assert(s.skip(n as int) =~= Seq::<(String, Value)>::empty());
        assert(steps_view(steps@) =~= steps_view(before) + entries_steps(s, ch, base));
    }
}


impl TypedValuePatch {
    /// Appends the steps that apply this change at `path`.
    pub fn push_steps(&self, path: &ApplyPath, steps: &mut Vec<XfconfStep>)
        ensures
            steps_view(final(steps)@) == steps_view(old(steps)@) + tvpatch_steps(
                *self,
                path.channel@,
                prop_string(vector_items(path.props)),
            ),
    {
        let ghost before = steps@;
        match self {
            TypedValuePatch::Bool(p) => if let Some(b) = &p.value {
                steps.push(set_step(path, SetValue::Bool(*b)));
            },
            TypedValuePatch::Int(p) => if let Some(n) = &p.value {
                steps.push(set_step(path, SetValue::Int(*n)));
            },
            TypedValuePatch::Uint(p) => if let Some(n) = &p.value {
                steps.push(set_step(path, SetValue::Uint(*n)));
            },
            TypedValuePatch::Double(p) => if let Some(d) = &p.value {
                steps.push(set_step(path, SetValue::Double(*d)));
            },
            TypedValuePatch::String(p) => if let Some(x) = &p.value {
                steps.push(set_step(path, SetValue::String(x.clone())));
            },
            TypedValuePatch::Array(p) => if let Some(a) = &p.value {
                steps.push(array_step_of(path, a));
            },
            TypedValuePatch::Empty => {},
            TypedValuePatch::Changed(t) => {
                t.push_steps(path, steps);
            },
        }
        proof {
            assert(steps_view(steps@) =~= steps_view(before) + tvpatch_steps(
                *self,
                path.channel@,
                prop_string(vector_items(path.props)),
            ));
        }
    }
}

impl ValuePatch {
    /// Appends the steps that apply this change: of the value, then of the sub-properties.
    pub fn push_steps(&self, path: &ApplyPath, steps: &mut Vec<XfconfStep>)
        ensures
            steps_view(final(steps)@) == steps_view(old(steps)@) + vpatch_steps(
                *self,
                path.channel@,
                vector_items(path.props),
            ),
        decreases *self, 1nat,
    {
        let ghost before = steps@;
        self.value.push_steps(path, steps);
        proof {
            assert(decreases_to!(*self => self.props));
        }
        self.props.push_steps(path, steps);
        proof {
            assert(steps_view(steps@) =~= steps_view(before) + vpatch_steps(
                *self,
                path.channel@,
                vector_items(path.props),
            ));
        }
    }
}

impl PropertiesPatch {
    /// Appends the steps that apply this change: changed, added, then removed properties.
    pub fn push_steps(&self, path: &ApplyPath, steps: &mut Vec<XfconfStep>)
        ensures
            steps_view(final(steps)@) == steps_view(old(steps)@) + ppatch_steps(
                *self,
                path.channel@,
                vector_items(path.props),
            ),
        decreases *self, 0nat,
    {
        let ghost ch = path.channel@;
        let ghost base = vector_items(path.props);
        let ghost before = steps@;
        match &self.changed {
            Some(m) => {
                let ghost s = m.seq();
                let n = m.len();
                let mut i: usize = 0;
                proof {
                    assert(s.skip(0) =~= s);
                }
                while i < n
                    invariant
                        self.changed == Some(*m),
                        n == s.len(),
                        s == m.seq(),
                        i <= n,
                        ch == path.channel@,
                        base == vector_items(path.props),
                        steps_view(before) + changed_steps(s, ch, base) == steps_view(steps@)
                            + changed_steps(s.skip(i as int), ch, base),
                    decreases n - i,
                {
                    let e = m.entry_at(i);
                    let child = path.push(e.0.clone());
                    proof {
                        m.lemma_value_decreases(i as int);
                        assert(decreases_to!(*self => self.changed));
                        assert(decreases_to!(self.changed => self.changed->0));
                        assert(s.skip(i as int)[0] == s[i as int]);
                        assert(s.skip(i as int).drop_first() =~= s.skip(i + 1));
                    }
                    let ghost prev = steps@;
                    e.1.push_steps(&child, steps);
                    proof {
                        assert(steps_view(prev) + vpatch_steps(e.1, ch, base.push(e.0@))
                            + changed_steps(s.skip(i + 1), ch, base) == steps_view(prev)
                            + changed_steps(s.skip(i as int), ch, base));
                    }
                    i = i + 1;
                }
                proof {
                    assert(s.skip(n as int) =~= Seq::<(String, ValuePatch)>::empty());
                }
            },
            None => {},
        }
        let ghost after_changed = steps@;
        push_map_steps(&self.added, path, steps);
        let ghost after_added = steps@;
        let ghost rs = self.removed.seq();
        let n = self.removed.len();
        let mut i: usize = 0;
        proof {
            assert(rs.skip(0) =~= rs);
            assert(steps_view(steps@) + removed_steps(rs, ch, base) == steps_view(steps@)
                + removed_steps(rs.skip(0), ch, base));
        }
        while i < n
            invariant
                n == rs.len(),
                rs == self.removed.seq(),
                i <= n,
                ch == path.channel@,
                base == vector_items(path.props),
                steps_view(after_added) + removed_steps(rs, ch, base) == steps_view(steps@)
                    + removed_steps(rs.skip(i as int), ch, base),
            decreases n - i,
        {
            let e = self.removed.entry_at(i);
            let child = path.push(e.0.clone());
            let (channel, property) = child.channel_property();
            proof {
                assert(rs.skip(i as int)[0] == rs[i as int]);
                assert(rs.skip(i as int).drop_first() =~= rs.skip(i + 1));
            }
            let ghost prev = steps@;
            steps.push(XfconfStep::ResetProperty { channel, property });
            proof {
                assert(steps_view(steps@) =~= steps_view(prev) + seq![StepV::Reset(ch, prop_string(base.push(e.0@)))]);
            }
            i = i + 1;
        }
        proof {
            assert(rs.skip(n as int) =~= Seq::<(String, ())>::empty());
            let changed = match &self.changed {
                Some(m) => changed_steps(m.seq(), ch, base),
                None => Seq::empty(),
            };
            assert(steps_view(after_changed) =~= steps_view(before) + changed);
            assert(steps_view(steps@) =~= steps_view(before) + changed + entries_steps(
                self.added.seq(),
                ch,
                base,
            ) + removed_steps(rs, ch, base));
        }
    }
}

/// The steps that apply the change of a channel.
pub open spec fn chpatch_steps(p: ChannelPatch, name: Seq<char>) -> Seq<StepV> {
    ppatch_steps(p.props, name, Seq::empty())
}

/// The steps that set a new channel.
pub open spec fn channel_steps(c: Channel) -> Seq<StepV> {
    props_steps(c.props, c.name@, Seq::empty())
}

pub open spec fn changed_channels_steps(s: Seq<(String, ChannelPatch)>) -> Seq<StepV>
    decreases s.len(),
{
    if s.len() == 0 {
        Seq::empty()
    } else {
        chpatch_steps(s[0].1, s[0].0@) + changed_channels_steps(s.drop_first())
    }
}

pub open spec fn added_channels_steps(s: Seq<Channel>) -> Seq<StepV>
    decreases s.len(),
{
    if s.len() == 0 {
        Seq::empty()
    } else {
        channel_steps(s[0]) + added_channels_steps(s.drop_first())
    }
}

/// The steps that apply a patch of the xfconf configuration: changed channels in key order, then
/// added channels.
pub open spec fn xfconf_steps(p: XfconfPatch) -> Seq<StepV> {
    changed_channels_steps(p.channels.changed.seq()) + added_channels_steps(p.channels.added@)
}

/// The value that sets a scalar typed value; none for an array or an empty value.
pub open spec fn scalar_set(t: TV) -> Option<SetV> {
    match t {
        TV::Bool(b) => Some(SetV::Bool(b)),
        TV::Int(n) => Some(SetV::Int(n)),
        TV::Uint(n) => Some(SetV::Uint(n)),
        TV::Double(d) => Some(SetV::Double(d)),
        TV::String(x) => Some(SetV::String(x)),
        _ => None,
    }
}

/// A typed value changed from `a` to a scalar `b` that differs is set to `b`.
proof fn lemma_tvpatch_steps_scalar(a: TV, b: TV, p: TypedValuePatch, ch: Seq<char>, prop: Seq<char>)
    requires
        tvpatch_view(p) == tv_diff(a, b),
        !tv_same(a, b),
        scalar_set(b) is Some,
    ensures
        tvpatch_steps(p, ch, prop) == seq![StepV::Assign(ch, prop, scalar_set(b)->0)],
{
}

/// A step planned for one changed property is planned for the properties.
proof fn lemma_changed_steps_has(s: Seq<(String, ValuePatch)>, ch: Seq<char>, path: Seq<Seq<char>>, i: int, x: StepV)
    requires
        0 <= i < s.len(),
        vpatch_steps(s[i].1, ch, path.push(s[i].0@)).contains(x),
    ensures
        changed_steps(s, ch, path).contains(x),
    decreases s.len(),
{
    let a = vpatch_steps(s[0].1, ch, path.push(s[0].0@));
    let b = changed_steps(s.drop_first(), ch, path);
    assert(changed_steps(s, ch, path) == a + b);
    if i == 0 {
        let j = choose|j: int| 0 <= j < a.len() && a[j] == x;
        assert((a + b)[j] == x);
    } else {
        assert(s.drop_first()[i - 1] == s[i]);
        lemma_changed_steps_has(s.drop_first(), ch, path, i - 1, x);
        let j = choose|j: int| 0 <= j < b.len() && b[j] == x;
        assert((a + b)[a.len() + j] == x);
    }
}

/// A step planned for one changed channel is planned for the channels.
proof fn lemma_changed_channels_steps_has(s: Seq<(String, ChannelPatch)>, i: int, x: StepV)
    requires
        0 <= i < s.len(),
        chpatch_steps(s[i].1, s[i].0@).contains(x),
    ensures
        changed_channels_steps(s).contains(x),
    decreases s.len(),
{
    let a = chpatch_steps(s[0].1, s[0].0@);
    let b = changed_channels_steps(s.drop_first());
    assert(changed_channels_steps(s) == a + b);
    if i == 0 {
        let j = choose|j: int| 0 <= j < a.len() && a[j] == x;
        assert((a + b)[j] == x);
    } else {
        assert(s.drop_first()[i - 1] == s[i]);
        lemma_changed_channels_steps_has(s.drop_first(), i - 1, x);
        let j = choose|j: int| 0 <= j < b.len() && b[j] == x;
        assert((a + b)[a.len() + j] == x);
    }
}

/// Planning the change of the channels from `old` to `new` (a patch that the diff made, under any
/// clear paths) sets every top-level property whose scalar value changes, in a channel kept in
/// both, to its new value in that channel, at its path (a slash and the property's name).
pub proof fn lemma_plan_sets_changed_property(
    old: Map<Seq<char>, Channel>,
    new: OrdMap<String, Channel>,
    cps: Seq<ClearPathV>,
    p: XfconfPatch,
    k: Seq<char>,
    prop: Seq<char>,
    ov: VV,
    nv: VV,
)
    requires
        channels_patch_view(p.channels) == channels_diff(old, new, cps),
        old.contains_key(k),
        new@.contains_key(k),
        props_view(old[k].props)(prop) == Some(ov),
        props_view(new@[k].props)(prop) == Some(nv),
        !tv_same(ov.value, nv.value),
        scalar_set(nv.value) is Some,
    ensures
        xfconf_steps(p).contains(StepV::Assign(k, prop_string(seq![prop]), scalar_set(nv.value)->0)),
{
    let x = StepV::Assign(k, prop_string(seq![prop]), scalar_set(nv.value)->0);
    let d = channel_diff(channel_view(old[k]), channel_view(new@[k]), cps);
    let vd = (d.props.changed)(prop);
    lemma_tv_diff_not_empty(ov.value, nv.value);
    assert(vd is Some);
    assert(!ppatch_is_empty(d.props));
    assert(!chpatch_is_empty(d));
    assert((channels_diff(old, new, cps).changed)(k) == Some(d));
    assert(p.channels.changed@.contains_key(k));
    let cp = p.channels.changed@[k];
    assert(chpatch_view(cp) == d);
    assert(ppatch_view(cp.props) == d.props);
    match cp.props.changed {
        Some(m) => {
            let i = lemma_vpatch_members_find(m.seq(), prop);
            let vp = m.seq()[i].1;
            assert(vpatch_view(vp) == vd->0);
            let path = Seq::<Seq<char>>::empty().push(prop);
            assert(path =~= seq![prop]);
            lemma_tvpatch_steps_scalar(ov.value, nv.value, vp.value, k, prop_string(path));
            let c1 = tvpatch_steps(vp.value, k, prop_string(path));
            let c2 = ppatch_steps(vp.props, k, path);
            assert(vpatch_steps(vp, k, path) == c1 + c2);
            assert((c1 + c2)[0] == x);
            lemma_changed_steps_has(m.seq(), k, Seq::empty(), i, x);
            let e1 = changed_steps(m.seq(), k, Seq::empty());
            let e2 = entries_steps(cp.props.added.seq(), k, Seq::empty());
            let e3 = removed_steps(cp.props.removed.seq(), k, Seq::empty());
            let h = choose|h: int| 0 <= h < e1.len() && e1[h] == x;
            assert((e1 + e2 + e3)[h] == x);
            let j = crate::ordmap::lemma_map_of_entry(p.channels.changed.seq(), k);
            lemma_changed_channels_steps_has(p.channels.changed.seq(), j, x);
            let f1 = changed_channels_steps(p.channels.changed.seq());
            let f2 = added_channels_steps(p.channels.added@);
            let g = choose|g: int| 0 <= g < f1.len() && f1[g] == x;
            assert((f1 + f2)[g] == x);
        },
        None => {},
    }
}

/// A key that the sub-properties of entries give is the key of an entry whose value it gives.
pub proof fn lemma_value_members_find(s: Seq<(String, Value)>, k: Seq<char>) -> (i: int)
    requires
        value_members(s)(k) is Some,
    ensures
        0 <= i < s.len(),
        s[i].0@ == k,
        value_members(s)(k) == Some(value_view(s[i].1)),
    decreases s.len(),
{
    if k == s[0].0@ {
        0
    } else {
        let j = lemma_value_members_find(s.drop_first(), k);
        assert(s[j + 1] == s.drop_first()[j]);
        j + 1
    }
}

/// A step planned for one added property is planned for the added properties.
proof fn lemma_entries_steps_has(s: Seq<(String, Value)>, ch: Seq<char>, path: Seq<Seq<char>>, i: int, x: StepV)
    requires
        0 <= i < s.len(),
        value_steps(s[i].1, ch, path.push(s[i].0@)).contains(x),
    ensures
        entries_steps(s, ch, path).contains(x),
    decreases s.len(),
{
    let a = value_steps(s[0].1, ch, path.push(s[0].0@));
    let b = entries_steps(s.drop_first(), ch, path);
    assert(entries_steps(s, ch, path) == a + b);
    if i == 0 {
        let j = choose|j: int| 0 <= j < a.len() && a[j] == x;
        assert((a + b)[j] == x);
    } else {
        assert(s.drop_first()[i - 1] == s[i]);
        lemma_entries_steps_has(s.drop_first(), ch, path, i - 1, x);
        let j = choose|j: int| 0 <= j < b.len() && b[j] == x;
        assert((a + b)[a.len() + j] == x);
    }
}

/// Each removed property's reset is a step of the plan of the removed properties.
proof fn lemma_removed_steps_has(s: Seq<(String, ())>, ch: Seq<char>, path: Seq<Seq<char>>, i: int)
    requires
        0 <= i < s.len(),
    ensures
        removed_steps(s, ch, path).contains(StepV::Reset(ch, prop_string(path.push(s[i].0@)))),
    decreases s.len(),
{
    let x = StepV::Reset(ch, prop_string(path.push(s[i].0@)));
    let a = seq![StepV::Reset(ch, prop_string(path.push(s[0].0@)))];
    let b = removed_steps(s.drop_first(), ch, path);
    assert(removed_steps(s, ch, path) == a + b);
    if i == 0 {
        assert((a + b)[0] == x);
    } else {
        assert(s.drop_first()[i - 1] == s[i]);
        lemma_removed_steps_has(s.drop_first(), ch, path, i - 1);
        let j = choose|j: int| 0 <= j < b.len() && b[j] == x;
        assert((a + b)[a.len() + j] == x);
    }
}

/// A step planned for the properties of a changed channel is planned for the whole patch.
proof fn lemma_xfconf_steps_from_channel(p: XfconfPatch, k: Seq<char>, x: StepV)
    requires
        p.channels.changed@.contains_key(k),
        ppatch_steps(p.channels.changed@[k].props, k, Seq::empty()).contains(x),
    ensures
        xfconf_steps(p).contains(x),
{
    let j = crate::ordmap::lemma_map_of_entry(p.channels.changed.seq(), k);
    lemma_changed_channels_steps_has(p.channels.changed.seq(), j, x);
    let f1 = changed_channels_steps(p.channels.changed.seq());
    let f2 = added_channels_steps(p.channels.added@);
    let g = choose|g: int| 0 <= g < f1.len() && f1[g] == x;
    assert((f1 + f2)[g] == x);
}

/// Planning the change of the channels from `old` to `new` (a patch that the diff made) resets
/// every top-level property that `new` drops from a channel kept in both, where the clear paths
/// let it go, at its path.
pub proof fn lemma_plan_resets_removed_property(
    old: Map<Seq<char>, Channel>,
    new: OrdMap<String, Channel>,
    cps: Seq<ClearPathV>,
    p: XfconfPatch,
    k: Seq<char>,
    prop: Seq<char>,
)
    requires
        channels_patch_view(p.channels) == channels_diff(old, new, cps),
        old.contains_key(k),
        new@.contains_key(k),
        props_view(old[k].props)(prop) is Some,
        props_view(new@[k].props)(prop) is None,
        filter_keeps(
            first_filter(cps, DiffPathV { channel: None, props: Seq::empty() }, CtxV::Channel(new@[k].name@)),
            prop,
        ),
    ensures
        xfconf_steps(p).contains(StepV::Reset(k, prop_string(seq![prop]))),
{
    let x = StepV::Reset(k, prop_string(seq![prop]));
    let d = channel_diff(channel_view(old[k]), channel_view(new@[k]), cps);
    assert((d.props.removed)(prop));
    assert(!((d.props.changed)(prop) is None && (d.props.added)(prop) is None && !(d.props.removed)(prop)));
    assert(!ppatch_is_empty(d.props));
    assert(!chpatch_is_empty(d));
    assert((channels_diff(old, new, cps).changed)(k) == Some(d));
    assert(p.channels.changed@.contains_key(k));
    let cp = p.channels.changed@[k];
    assert(chpatch_view(cp) == d);
    assert(ppatch_view(cp.props) == d.props);
    assert(cp.props.removed@.contains_key(prop));
    let i = crate::ordmap::lemma_map_of_entry(cp.props.removed.seq(), prop);
    lemma_removed_steps_has(cp.props.removed.seq(), k, Seq::empty(), i);
    assert(Seq::<Seq<char>>::empty().push(prop) =~= seq![prop]);
    let e1 = match cp.props.changed {
        Some(m) => changed_steps(m.seq(), k, Seq::empty()),
        None => Seq::empty(),
    };
    let e2 = entries_steps(cp.props.added.seq(), k, Seq::empty());
    let e3 = removed_steps(cp.props.removed.seq(), k, Seq::empty());
    assert(ppatch_steps(cp.props, k, Seq::empty()) == e1 + e2 + e3);
    let h = choose|h: int| 0 <= h < e3.len() && e3[h] == x;
    assert((e1 + e2 + e3)[e1.len() + e2.len() + h] == x);
    lemma_xfconf_steps_from_channel(p, k, x);
}

/// Planning the change of the channels from `old` to `new` (a patch that the diff made) sets
/// every top-level property with a scalar value that `new` adds to a channel kept in both, at its
/// path.
pub proof fn lemma_plan_sets_added_property(
    old: Map<Seq<char>, Channel>,
    new: OrdMap<String, Channel>,
    cps: Seq<ClearPathV>,
    p: XfconfPatch,
    k: Seq<char>,
    prop: Seq<char>,
    nv: VV,
)
    requires
        channels_patch_view(p.channels) == channels_diff(old, new, cps),
        old.contains_key(k),
        new@.contains_key(k),
        props_view(old[k].props)(prop) is None,
        props_view(new@[k].props)(prop) == Some(nv),
        scalar_set(nv.value) is Some,
    ensures
        xfconf_steps(p).contains(StepV::Assign(k, prop_string(seq![prop]), scalar_set(nv.value)->0)),
{
    let x = StepV::Assign(k, prop_string(seq![prop]), scalar_set(nv.value)->0);
    let d = channel_diff(channel_view(old[k]), channel_view(new@[k]), cps);
    assert((d.props.added)(prop) == Some(nv));
    assert(!((d.props.changed)(prop) is None && (d.props.added)(prop) is None && !(d.props.removed)(prop)));
    assert(!ppatch_is_empty(d.props));
    assert(!chpatch_is_empty(d));
    assert((channels_diff(old, new, cps).changed)(k) == Some(d));
    assert(p.channels.changed@.contains_key(k));
    let cp = p.channels.changed@[k];
    assert(chpatch_view(cp) == d);
    assert(ppatch_view(cp.props) == d.props);
    let i = lemma_value_members_find(cp.props.added.seq(), prop);
    let v = cp.props.added.seq()[i].1;
    assert(value_view(v) == nv);
    let path = Seq::<Seq<char>>::empty().push(prop);
    assert(path =~= seq![prop]);
    let a = tv_steps(v.value, k, prop_string(path));
    let b = props_steps(v.props, k, path);
    assert(value_steps(v, k, path) == a + b);
    assert(a[0] == x);
    assert((a + b)[0] == x);
    lemma_entries_steps_has(cp.props.added.seq(), k, Seq::empty(), i, x);
    let e1 = match cp.props.changed {
        Some(m) => changed_steps(m.seq(), k, Seq::empty()),
        None => Seq::empty(),
    };
    let e2 = entries_steps(cp.props.added.seq(), k, Seq::empty());
    let e3 = removed_steps(cp.props.removed.seq(), k, Seq::empty());
    assert(ppatch_steps(cp.props, k, Seq::empty()) == e1 + e2 + e3);
    let h = choose|h: int| 0 <= h < e2.len() && e2[h] == x;
    assert((e1 + e2 + e3)[e1.len() + h] == x);
    lemma_xfconf_steps_from_channel(p, k, x);
}

/// A channel of `s` whose key `old` lacks is among the added channels.
proof fn lemma_added_channels_has(s: Seq<(String, Channel)>, old: Map<Seq<char>, Channel>, j: int) -> (i: int)
    requires
        0 <= j < s.len(),
        !old.contains_key(s[j].0@),
    ensures
        0 <= i < added_channels(s, old).len(),
        added_channels(s, old)[i] == channel_view(s[j].1),
    decreases s.len(),
{
    let t = s.drop_first();
    if j == 0 {
        0
    } else {
        assert(t[j - 1] == s[j]);
        let i = lemma_added_channels_has(t, old, j - 1);
        if old.contains_key(s[0].0@) {
            i
        } else {
            assert(added_channels(s, old) == seq![channel_view(s[0].1)] + added_channels(t, old));
            i + 1
        }
    }
}

/// A step planned for one added channel is planned for the added channels.
proof fn lemma_added_channels_steps_has(s: Seq<Channel>, i: int, x: StepV)
    requires
        0 <= i < s.len(),
        channel_steps(s[i]).contains(x),
    ensures
        added_channels_steps(s).contains(x),
    decreases s.len(),
{
    let a = channel_steps(s[0]);
    let b = added_channels_steps(s.drop_first());
    assert(added_channels_steps(s) == a + b);
    if i == 0 {
        let j = choose|j: int| 0 <= j < a.len() && a[j] == x;
        assert((a + b)[j] == x);
    } else {
        assert(s.drop_first()[i - 1] == s[i]);
        lemma_added_channels_steps_has(s.drop_first(), i - 1, x);
        let j = choose|j: int| 0 <= j < b.len() && b[j] == x;
        assert((a + b)[a.len() + j] == x);
    }
}

/// Planning the change of the channels from `old` to `new` (a patch that the diff made) sets, in
/// every channel that only `new` has, each top-level property with a scalar value, at its path.
pub proof fn lemma_plan_sets_new_channel_property(
    old: Map<Seq<char>, Channel>,
    new: OrdMap<String, Channel>,
    cps: Seq<ClearPathV>,
    p: XfconfPatch,
    k: Seq<char>,
    prop: Seq<char>,
    nv: VV,
)
    requires
        channels_patch_view(p.channels) == channels_diff(old, new, cps),
        !old.contains_key(k),
        new@.contains_key(k),
        props_view(new@[k].props)(prop) == Some(nv),
        scalar_set(nv.value) is Some,
    ensures
        xfconf_steps(p).contains(
            StepV::Assign(new@[k].name@, prop_string(seq![prop]), scalar_set(nv.value)->0),
        ),
{
    let name = new@[k].name@;
    let x = StepV::Assign(name, prop_string(seq![prop]), scalar_set(nv.value)->0);
    let j = crate::ordmap::lemma_map_of_entry(new.seq(), k);
    let i = lemma_added_channels_has(new.seq(), old, j);
    let added = p.channels.added@;
    assert(added.map_values(|c: Channel| channel_view(c)) == added_channels(new.seq(), old));
    assert(channel_view(added[i]) == added.map_values(|c: Channel| channel_view(c))[i]);
    let c = added[i];
    assert(channel_view(c) == channel_view(new@[k]));
    assert(c.name@ == name);
    assert(props_view(c.props)(prop) == Some(nv));
    match c.props {
        Properties::Entries(m) => {
            let t = lemma_value_members_find(m.seq(), prop);
            let v = m.seq()[t].1;
            assert(value_view(v) == nv);
            let path = Seq::<Seq<char>>::empty().push(prop);
            assert(path =~= seq![prop]);
            let a = tv_steps(v.value, name, prop_string(path));
            let b = props_steps(v.props, name, path);
            assert(value_steps(v, name, path) == a + b);
            assert(a[0] == x);
            assert((a + b)[0] == x);
            lemma_entries_steps_has(m.seq(), name, Seq::empty(), t, x);
            assert(channel_steps(c) == entries_steps(m.seq(), name, Seq::empty()));
            lemma_added_channels_steps_has(added, i, x);
            let f1 = changed_channels_steps(p.channels.changed.seq());
            let f2 = added_channels_steps(added);
            let g = choose|g: int| 0 <= g < f2.len() && f2[g] == x;
            assert((f1 + f2)[f1.len() + g] == x);
        },
        Properties::Empty => {},
    }
}

impl XfconfPatch {
    /// The steps that apply the patch, in the order they are taken; applying stops at a failing
    /// step.
    pub fn plan(&self) -> (r: Vec<XfconfStep>)
        ensures
            steps_view(r@) == xfconf_steps(*self),
    {
        let mut steps: Vec<XfconfStep> = Vec::new();
        let ghost cs = self.channels.changed.seq();
        let n = self.channels.changed.len();
        let mut i: usize = 0;
        proof {
            assert(cs.skip(0) =~= cs);
            assert(steps_view(steps@) =~= Seq::<StepV>::empty());
        }
        while i < n
            invariant
                n == cs.len(),
                cs == self.channels.changed.seq(),
                i <= n,
                changed_channels_steps(cs) == steps_view(steps@) + changed_channels_steps(cs.skip(i as int)),
            decreases n - i,
        {
            let e = self.channels.changed.entry_at(i);
            let path = ApplyPath::new(e.0.clone());
            proof {
                assert(cs.skip(i as int)[0] == cs[i as int]);
                assert(cs.skip(i as int).drop_first() =~= cs.skip(i + 1));
            }
            let ghost prev = steps@;
            e.1.props.push_steps(&path, &mut steps);
            proof {
                assert(steps_view(steps@) == steps_view(prev) + chpatch_steps(e.1, e.0@));
            }
            i = i + 1;
        }
        let ghost after_changed = steps@;
        let ghost ads = self.channels.added@;
        let mut j: usize = 0;
        proof {
            assert(cs.skip(n as int) =~= Seq::<(String, ChannelPatch)>::empty());
            assert(ads.skip(0) =~= ads);
        }
        while j < self.channels.added.len()
            invariant
                ads == self.channels.added@,
                j <= ads.len(),
                steps_view(after_changed) + added_channels_steps(ads) == steps_view(steps@)
                    + added_channels_steps(ads.skip(j as int)),
            decreases ads.len() - j,
        {
            let c = &self.channels.added[j];
            let path = ApplyPath::new(c.name.clone());
            proof {
                assert(ads.skip(j as int)[0] == ads[j as int]);
                assert(ads.skip(j as int).drop_first() =~= ads.skip(j + 1));
            }
            let ghost prev = steps@;
            c.props.push_steps(&path, &mut steps);
            j = j + 1;
        }
        proof {
            assert(ads.skip(ads.len() as int) =~= Seq::<Channel>::empty());
        }
        steps
    }
}


/// The properties with `value` stored at the property reached by the names `parts`: missing
/// properties on the way are created with an empty value, and a property already at the end
/// keeps its sub-properties.
pub open spec fn insert_path(
    props: spec_fn(Seq<char>) -> Option<VV>,
    parts: Seq<Seq<char>>,
    value: TV,
) -> spec_fn(Seq<char>) -> Option<VV>
    decreases parts.len(),
{
    if parts.len() == 0 {
        props
    } else {
        let k = parts[0];
        let node = if parts.len() == 1 {
            match props(k) {
                Some(v) => VV { value: value, props: v.props },
                None => VV { value: value, props: |q: Seq<char>| None },
            }
        } else {
            let child = match props(k) {
                Some(v) => v,
                None => VV { value: TV::Empty, props: |q: Seq<char>| None },
            };
            VV { value: child.value, props: insert_path(child.props, parts.drop_first(), value) }
        };
        |q: Seq<char>|
            if q == k {
                Some(node)
            } else {
                props(q)
            }
    }
}

/// The property names of a flattened property path: the pieces after the first slash-separated
/// one.
pub open spec fn path_parts(path: Seq<char>) -> Seq<Seq<char>> {
    crate::text::split_char(path, '/').drop_first()
}

/// The properties that flattened (path, value) pairs build, in order.
pub open spec fn flattened_props(s: Seq<(Seq<char>, TV)>) -> spec_fn(Seq<char>) -> Option<VV>
    decreases s.len(),
{
    if s.len() == 0 {
        |q: Seq<char>| None
    } else {
        insert_path(flattened_props(s.drop_last()), path_parts(s.last().0), s.last().1)
    }
}

/// The property that `path` names among the properties `f`, if there is one.
pub open spec fn props_node(f: spec_fn(Seq<char>) -> Option<VV>, path: Seq<Seq<char>>) -> Option<VV>
    decreases path.len(),
{
    if path.len() == 0 {
        None
    } else {
        match f(path[0]) {
            None => None,
            Some(c) => if path.len() == 1 {
                Some(c)
            } else {
                props_node(c.props, path.drop_first())
            },
        }
    }
}

proof fn lemma_insert_path_node(
    f: spec_fn(Seq<char>) -> Option<VV>,
    parts: Seq<Seq<char>>,
    v: TV,
    path: Seq<Seq<char>>,
)
    requires
        parts.len() > 0,
        path.len() > 0,
    ensures
        (props_node(insert_path(f, parts, v), path) is Some) == (props_node(f, path) is Some
            || path.is_prefix_of(parts)),
        props_node(insert_path(f, parts, v), path) is Some ==> props_node(insert_path(f, parts, v), path)->0.value
            == (if path == parts {
            v
        } else if props_node(f, path) is Some {
            props_node(f, path)->0.value
        } else {
            TV::Empty
        }),
    decreases parts.len(),
{
    let k = parts[0];
    let ins = insert_path(f, parts, v);
    if path[0] != k {
        assert(ins(path[0]) == f(path[0]));
        assert(!path.is_prefix_of(parts));
        assert(path != parts);
    } else if parts.len() == 1 {
        if path.len() == 1 {
            assert(path =~= parts);
            assert(path.is_prefix_of(parts));
        } else {
            assert(!path.is_prefix_of(parts));
            assert(path != parts);
            match f(k) {
                Some(c) => {},
                None => {
                    assert(props_node(|q: Seq<char>| None::<VV>, path.drop_first()) is None);
                },
            }
        }
    } else {
        let child = match f(k) {
            Some(c) => c,
            None => VV { value: TV::Empty, props: |q: Seq<char>| None },
        };
        if path.len() == 1 {
            assert(path.is_prefix_of(parts));
            assert(path != parts);
        } else {
            let pt = path.drop_first();
            let rest = parts.drop_first();
            lemma_insert_path_node(child.props, rest, v, pt);
            assert(props_node(ins, path) == props_node(insert_path(child.props, rest, v), pt));
            assert(path.is_prefix_of(parts) == pt.is_prefix_of(rest)) by {
                if path.is_prefix_of(parts) {
                    assert forall|i: int| 0 <= i < pt.len() implies pt[i] == rest[i] by {
                        assert(path[i + 1] == parts[i + 1]);
                    }
                }
                if pt.is_prefix_of(rest) {
                    assert forall|i: int| 0 <= i < path.len() implies path[i] == parts[i] by {
                        if i > 0 {
                            assert(pt[i - 1] == rest[i - 1]);
                        }
                    }
                }
            }
            assert((path == parts) == (pt == rest)) by {
                if pt == rest {
                    assert(path =~= parts);
                }
            }
            match f(k) {
                Some(c) => {
                    assert(props_node(f, path) == props_node(c.props, pt));
                },
                None => {
                    assert(props_node(|q: Seq<char>| None::<VV>, pt) is None);
                    assert(props_node(f, path) is None);
                },
            }
        }
    }
}

/// The properties that flattened (path, value) pairs build, where each path names a property and
/// no two name the same one, are exactly those the paths name and the properties on their way:
/// one that a path names holds that path's value, one on the way only an empty value. So they
/// do not depend on the order of the pairs.
pub proof fn lemma_flattened_nodes(s: Seq<(Seq<char>, TV)>, path: Seq<Seq<char>>)
    requires
        path.len() > 0,
        forall|i: int| 0 <= i < s.len() ==> flat_path_ok(#[trigger] s[i].0),
        forall|i: int, j: int|
            0 <= i < j < s.len() ==> path_parts(#[trigger] s[i].0) != path_parts(#[trigger] s[j].0),
    ensures
        (props_node(flattened_props(s), path) is Some) == (exists|i: int|
            0 <= i < s.len() && path.is_prefix_of(path_parts(#[trigger] s[i].0))),
        forall|i: int|
            0 <= i < s.len() && path_parts(#[trigger] s[i].0) == path ==> props_node(flattened_props(s), path)
                == Some(props_node(flattened_props(s), path)->0) && props_node(flattened_props(s), path)->0.value
                == s[i].1,
        props_node(flattened_props(s), path) is Some && (forall|i: int|
            0 <= i < s.len() ==> path_parts(#[trigger] s[i].0) != path) ==> props_node(
            flattened_props(s),
            path,
        )->0.value == TV::Empty,
    decreases s.len(),
{
    if s.len() > 0 {
        let t = s.drop_last();
        let last = s.last();
        let lp = path_parts(last.0);
        assert forall|i: int| 0 <= i < t.len() implies flat_path_ok(#[trigger] t[i].0) by {
            assert(t[i] == s[i]);
        }
        assert forall|i: int, j: int| 0 <= i < j < t.len() implies path_parts(#[trigger] t[i].0) != path_parts(
            #[trigger] t[j].0,
        ) by {
            assert(t[i] == s[i] && t[j] == s[j]);
        }
        lemma_flattened_nodes(t, path);
        assert(flat_path_ok(s[s.len() - 1].0));
        lemma_split_has_char(last.0, '/');
        assert(lp.len() > 0);
        lemma_insert_path_node(flattened_props(t), lp, last.1, path);
        let r = flattened_props(s);
        assert(r == insert_path(flattened_props(t), lp, last.1));
        assert((exists|i: int| 0 <= i < s.len() && path.is_prefix_of(path_parts(#[trigger] s[i].0))) == ((exists|
            i: int,
        | 0 <= i < t.len() && path.is_prefix_of(path_parts(#[trigger] t[i].0))) || path.is_prefix_of(lp))) by {
            if exists|i: int| 0 <= i < s.len() && path.is_prefix_of(path_parts(#[trigger] s[i].0)) {
                let i = choose|i: int| 0 <= i < s.len() && path.is_prefix_of(path_parts(#[trigger] s[i].0));
                if i < t.len() {
                    assert(t[i] == s[i]);
                }
            }
            if exists|i: int| 0 <= i < t.len() && path.is_prefix_of(path_parts(#[trigger] t[i].0)) {
                let i = choose|i: int| 0 <= i < t.len() && path.is_prefix_of(path_parts(#[trigger] t[i].0));
                assert(t[i] == s[i]);
            }
            if path.is_prefix_of(lp) {
                assert(path.is_prefix_of(path_parts(s[s.len() - 1].0)));
            }
        }
        assert forall|i: int| 0 <= i < s.len() && path_parts(#[trigger] s[i].0) == path implies props_node(r, path)
            == Some(props_node(r, path)->0) && props_node(r, path)->0.value == s[i].1 by {
            assert(path.is_prefix_of(path)) by {
                assert(path.subrange(0, path.len() as int) =~= path);
            }
            if i < t.len() {
                assert(t[i] == s[i]);
                assert(path_parts(s[i].0) != path_parts(s[s.len() - 1].0));
                assert(path != lp);
            } else {
                assert(path == lp);
            }
        }
        if props_node(r, path) is Some && (forall|i: int| 0 <= i < s.len() ==> path_parts(#[trigger] s[i].0) != path) {
            assert(path_parts(s[s.len() - 1].0) != path);
            assert forall|i: int| 0 <= i < t.len() implies path_parts(#[trigger] t[i].0) != path by {
                assert(t[i] == s[i]);
            }
        }
    }
}

pub open spec fn flat_view(s: Seq<(String, TypedValue)>) -> Seq<(Seq<char>, TV)> {
    s.map_values(|e: (String, TypedValue)| (e.0@, tv_view(e.1)))
}

/// A flattened path holds a slash.
pub open spec fn flat_path_ok(path: Seq<char>) -> bool {
    crate::text::has_char(path, '/')
}

proof fn lemma_split_has_char(s: Seq<char>, c: char)
    ensures
        crate::text::has_char(s, c) <==> crate::text::split_char(s, c).len() >= 2,
        crate::text::split_char(s, c).len() >= 1,
    decreases s.len(),
{
    crate::text::lemma_char_pos(s, c);
    if crate::text::char_pos(s, c) < s.len() {
        lemma_split_has_char(s.skip(crate::text::char_pos(s, c) + 1), c);
    }
}

/// Stores `value` at the property reached by `parts[from..]`.
fn insert_flattened(props: &mut Properties, parts: &Vec<String>, from: usize, value: TypedValue)
    requires
        from < parts.len(),
    ensures
        props_view(*final(props)) == insert_path(
            props_view(*old(props)),
            parts@.map_values(|x: String| x@).skip(from as int),
            tv_view(value),
        ),
    decreases parts.len() - from,
{
    let ghost pv = parts@.map_values(|x: String| x@);
    let ghost old_view = props_view(*props);
    let _ = props.len();
    let mut tmp = Properties::Empty;
    std::mem::swap(&mut tmp, props);
    let ghost m0 = props_map(tmp);
    let mut m = tmp.into_map();
    let key = parts[from].clone();
    let ghost k = key@;
    let existing = m.remove(&key);
    proof {
        assert(pv.skip(from as int)[0] == k);
        assert(old_view == lift_values(m0));
    }
    let node = if from + 1 == parts.len() {
        match existing {
            Some(v) => Value { value, props: v.props },
            None => Value { value, props: Properties::Empty },
        }
    } else {
        let mut child = match existing {
            Some(v) => v,
            None => Value { value: TypedValue::Empty, props: Properties::Empty },
        };
        let ghost child_view = value_view(child);
        insert_flattened(&mut child.props, parts, from + 1, value);
        proof {
            assert(pv.skip(from as int).drop_first() =~= pv.skip(from + 1));
            if existing is None {
                assert(child_view.props =~= (|q: Seq<char>| None::<VV>));
            }
        }
        child
    };
    let ghost node_view = value_view(node);
    m.insert(key, node);
    proof {
        use_type_invariant(&m);
        lemma_value_members_map(m);
        let expected = insert_path(old_view, pv.skip(from as int), tv_view(value));
        if from + 1 == parts.len() {
            assert(pv.skip(from as int).len() == 1);
            if existing is None {
                assert(props_view(Properties::Empty) =~= (|q: Seq<char>| None::<VV>));
            }
        }
        assert forall|q: Seq<char>| #[trigger] lift_values(m@)(q) == expected(q) by {}
        assert(lift_values(m@) =~= expected);
    }
    *props = Properties::Entries(m);
}

impl Properties {
    /// The properties that flattened (path, value) pairs build, in order; each path holds a slash
    /// and names the properties after its first slash-separated piece.
    pub fn from_flattened(flattened: Vec<(String, TypedValue)>) -> (r: Self)
        requires
            forall|i: int| 0 <= i < flattened@.len() ==> flat_path_ok(#[trigger] flattened@[i].0@),
        ensures
            props_view(r) == flattened_props(flat_view(flattened@)),
    {
        let ghost all = flat_view(flattened@);
        let mut props = Properties::Empty;
        let mut flattened = flattened;
        let mut rest: Vec<(String, TypedValue)> = Vec::new();
        let ghost whole = flattened@;
        let n = flattened.len();
        let mut i: usize = 0;
        proof {
            assert(props_view(props) =~= flattened_props(flat_view(whole.take(0))));
            assert(flattened@ =~= whole.skip(0));
        }
        while i < n
            invariant
                n == whole.len(),
                i <= n,
                all == flat_view(whole),
                forall|j: int| 0 <= j < whole.len() ==> flat_path_ok(#[trigger] whole[j].0@),
                flattened@ == whole.skip(i as int),
                props_view(props) == flattened_props(flat_view(whole.take(i as int))),
            decreases n - i,
        {
            let (path, value) = flattened.remove(0);
            proof {
                assert(whole[i as int] == (path, value));
                assert(flattened@ =~= whole.skip(i + 1));
                lemma_split_has_char(path@, '/');
            }
            let parts = crate::text::split_str(path.as_str(), '/');
            let ghost pv = parts@.map_values(|x: String| x@);
            proof {
                assert(pv == crate::text::split_char(path@, '/'));
                assert(pv.skip(1) =~= path_parts(path@));
                let t = flat_view(whole.take(i + 1));
                assert(t.drop_last() =~= flat_view(whole.take(i as int)));
                assert(t.last() == (path@, tv_view(value)));
            }
            insert_flattened(&mut props, &parts, 1, value);
            i = i + 1;
        }
        proof {
            assert(whole.take(n as int) =~= whole);
        }
        props
    }
}


/// Why a clear path cannot be read.
pub enum ClearPathError {
    MissingStar,
    MissingRootProp,
}

/// A step of a clear path read from text: a name, or a prefix when it ends with `*`.
pub open spec fn part_of(p: Seq<char>) -> (Seq<char>, bool) {
    if p.len() > 0 && p.last() == '*' {
        (p.drop_last(), true)
    } else {
        (p, false)
    }
}

/// The final step of a clear path read from text, without its `~` mark.
pub open spec fn final_body(p: Seq<char>) -> Seq<char> {
    if p.len() > 0 && p[0] == '~' {
        p.drop_first()
    } else {
        p
    }
}

/// A clear path read from text: `channel.part.part.[~][prefix]*`, where a part ending with `*`
/// matches names that start with it, `~` restricts removal to properties whose value changed,
/// and the keys that start with `prefix` (all keys if it is empty) are removed.
pub open spec fn parse_clear_path(input: Seq<char>) -> Result<ClearPathV, ClearPathError> {
    let pieces = crate::text::split_char(input, '.');
    let rest = pieces.drop_first();
    if rest.len() == 0 {
        Err(ClearPathError::MissingRootProp)
    } else {
        let body = final_body(rest.last());
        if !(body.len() > 0 && body.last() == '*') {
            Err(ClearPathError::MissingStar)
        } else if rest.len() == 1 {
            Err(ClearPathError::MissingRootProp)
        } else {
            Ok(
                ClearPathV {
                    channel: pieces[0],
                    parts: rest.drop_last().map_values(|p: Seq<char>| part_of(p)),
                    value_changed: rest.last().len() > 0 && rest.last()[0] == '~',
                    prefix: if body.drop_last().len() == 0 {
                        None
                    } else {
                        Some(body.drop_last())
                    },
                },
            )
        }
    }
}

/// The text of one part of a clear path: its name, and `*` if it is a prefix.
pub open spec fn part_text(part: (Seq<char>, bool)) -> Seq<char> {
    part.0 + (if part.1 {
        seq!['*']
    } else {
        Seq::empty()
    })
}

/// The text of the parts of a clear path, each followed by a dot.
pub open spec fn parts_text(parts: Seq<(Seq<char>, bool)>) -> Seq<char>
    decreases parts.len(),
{
    if parts.len() == 0 {
        Seq::empty()
    } else {
        part_text(parts[0]) + seq!['.'] + parts_text(parts.drop_first())
    }
}

proof fn lemma_parts_text_push(parts: Seq<(Seq<char>, bool)>, i: int)
    requires
        0 <= i < parts.len(),
    ensures
        parts_text(parts.take(i + 1)) == parts_text(parts.take(i)) + part_text(parts[i]) + seq!['.'],
    decreases i,
{
    if i == 0 {
        assert(parts.take(1).drop_first() =~= Seq::<(Seq<char>, bool)>::empty());
        assert(parts_text(parts.take(1).drop_first()) =~= Seq::<char>::empty());
        assert(parts.take(1)[0] == parts[0]);
        assert(parts_text(parts.take(0)) =~= Seq::<char>::empty());
        assert(parts_text(parts.take(1)) =~= part_text(parts[0]) + seq!['.']);
    } else {
        let t = parts.drop_first();
        lemma_parts_text_push(t, i - 1);
        assert(parts.take(i + 1).drop_first() =~= t.take(i));
        assert(parts.take(i).drop_first() =~= t.take(i - 1));
        assert(t[i - 1] == parts[i]);
        assert(parts.take(i + 1)[0] == parts[0]);
        assert(parts.take(i)[0] == parts[0]);
        assert(parts_text(parts.take(i + 1)) =~= parts_text(parts.take(i)) + part_text(parts[i]) + seq![
            '.',
        ]);
    }
}

/// Pieces joined by `c`.
pub open spec fn join_char(ps: Seq<Seq<char>>, c: char) -> Seq<char>
    decreases ps.len(),
{
    if ps.len() == 0 {
        Seq::empty()
    } else if ps.len() == 1 {
        ps[0]
    } else {
        ps[0] + seq![c] + join_char(ps.drop_first(), c)
    }
}

/// Joining the pieces of a split gives the text back.
pub proof fn lemma_join_split(s: Seq<char>, c: char)
    ensures
        join_char(crate::text::split_char(s, c), c) == s,
        crate::text::split_char(s, c).len() >= 1,
    decreases s.len(),
{
    crate::text::lemma_char_pos(s, c);
    let p = crate::text::char_pos(s, c);
    if p < s.len() {
        let rest = s.skip(p + 1);
        lemma_join_split(rest, c);
        let sp = crate::text::split_char(s, c);
        assert(sp.drop_first() =~= crate::text::split_char(rest, c));
        assert(s =~= s.take(p) + seq![c] + rest);
    }
}

proof fn lemma_join_parts(mids: Seq<Seq<char>>, last: Seq<char>)
    ensures
        join_char(mids.push(last), '.') == parts_text(mids.map_values(|p: Seq<char>| part_of(p)))
            + last,
    decreases mids.len(),
{
    let parts = mids.map_values(|p: Seq<char>| part_of(p));
    if mids.len() == 0 {
        assert(parts_text(parts) =~= Seq::<char>::empty());
        assert(mids.push(last) =~= seq![last]);
        assert(parts_text(parts) + last =~= last);
    } else {
        let t = mids.drop_first();
        lemma_join_parts(t, last);
        assert(mids.push(last).drop_first() =~= t.push(last));
        assert(parts.drop_first() =~= t.map_values(|p: Seq<char>| part_of(p)));
        let m = mids[0];
        assert(part_text(part_of(m)) =~= m);
        assert(join_char(mids.push(last), '.') =~= parts_text(parts) + last);
    }
}

/// The text of a clear path.
pub open spec fn clear_path_text(cp: ClearPathV) -> Seq<char> {
    cp.channel + seq!['.'] + parts_text(cp.parts) + (if cp.value_changed {
        seq!['~']
    } else {
        Seq::empty()
    }) + (match cp.prefix {
        Some(p) => p,
        None => Seq::empty(),
    }) + seq!['*']
}


/// A clear path read from text is written back as the same text.
pub proof fn lemma_clear_path_text_parse(input: Seq<char>)
    requires
        parse_clear_path(input) is Ok,
    ensures
        clear_path_text(parse_clear_path(input)->Ok_0) == input,
{
    let pieces = crate::text::split_char(input, '.');
    lemma_join_split(input, '.');
    let rest = pieces.drop_first();
    let mids = rest.drop_last();
    let last = rest.last();
    let cp = parse_clear_path(input)->Ok_0;
    lemma_join_parts(mids, last);
    assert(rest =~= mids.push(last));
    assert(join_char(pieces, '.') =~= pieces[0] + seq!['.'] + join_char(rest, '.'));
    let body = final_body(last);
    let tail = (if cp.value_changed {
        seq!['~']
    } else {
        Seq::empty()
    }) + (match cp.prefix {
        Some(p) => p,
        None => Seq::empty(),
    }) + seq!['*'];
    if cp.value_changed {
        assert(last =~= seq!['~'] + body);
    } else {
        assert(last == body);
    }
    assert(body =~= body.drop_last() + seq!['*']);
    assert(tail =~= last);
    assert(clear_path_text(cp) =~= pieces[0] + seq!['.'] + parts_text(cp.parts) + tail);
}


fn part_from_text(p: &String) -> (r: ClearPathPart)
    ensures
        (r.prop@, r.prefix) == part_of(p@),
{
    let c = crate::text::chars_of(p.as_str());
    let n = c.len();
    if n > 0 && c[n - 1] == '*' {
        let prop = crate::text::slice_string(p.as_str(), 0, n - 1);
        proof {
            assert(prop@ =~= p@.drop_last());
        }
        ClearPathPart { prop, prefix: true }
    } else {
        ClearPathPart { prop: p.clone(), prefix: false }
    }
}

impl ClearPath {
    /// Reads a clear path from its text; see `parse_clear_path`.
    pub fn parse(input: &str) -> (r: Result<ClearPath, ClearPathError>)
        ensures
            match r {
                Ok(cp) => parse_clear_path(input@) == Ok::<ClearPathV, ClearPathError>(cp@),
                Err(e) => parse_clear_path(input@) == Err::<ClearPathV, ClearPathError>(e),
            },
    {
        let pieces = crate::text::split_str(input, '.');
        let ghost ps = pieces@.map_values(|x: String| x@);
        proof {
            lemma_join_split(input@, '.');
        }
        let n = pieces.len();
        if n < 2 {
            return Err(ClearPathError::MissingRootProp);
        }
        let last = &pieces[n - 1];
        let lc = crate::text::chars_of(last.as_str());
        let m = lc.len();
        let value_changed = m > 0 && lc[0] == '~';
        let from: usize = if value_changed {
            1
        } else {
            0
        };
        let ghost rest = ps.drop_first();
        proof {
            assert(rest.last() == last@);
            let body = final_body(last@);
            if value_changed {
                assert(body =~= lc@.subrange(1, m as int));
            } else {
                assert(body =~= lc@.subrange(0, m as int));
            }
        }
        if !(m > from && lc[m - 1] == '*') {
            return Err(ClearPathError::MissingStar);
        }
        if n == 2 {
            return Err(ClearPathError::MissingRootProp);
        }
        let prefix = if m - 1 == from {
            None
        } else {
            Some(crate::text::slice_string(last.as_str(), from, m - 1))
        };
        proof {
            let body = final_body(last@);
            assert(body.drop_last() =~= lc@.subrange(from as int, m - 1));
        }
        let mut parts: Vec<ClearPathPart> = Vec::new();
        let mut i: usize = 1;
        while i < n - 1
            invariant
                n == pieces.len(),
                n >= 3,
                ps == pieces@.map_values(|x: String| x@),
                1 <= i <= n - 1,
                parts.len() == i - 1,
                forall|j: int| 0 <= j < i - 1 ==> (#[trigger] parts@[j].prop@, parts@[j].prefix) == part_of(
                    ps[j + 1],
                ),
            decreases n - 1 - i,
        {
            let part = part_from_text(&pieces[i]);
            parts.push(part);
            i = i + 1;
        }
        let cp = ClearPath {
            channel: pieces[0].clone(),
            parts,
            props: ClearPathProps { value_changed, prefix },
        };
        proof {
            let expected = parse_clear_path(input@)->Ok_0;
            assert(parts_view(cp.parts@) =~= rest.drop_last().map_values(|p: Seq<char>| part_of(p)));
            assert(cp@ == expected);
        }
        Ok(cp)
    }

    /// The text of the clear path; see `clear_path_text`.
    pub fn to_text(&self) -> (r: String)
        ensures
            r@ == clear_path_text(self@),
    {
        proof {
            reveal_strlit(".");
            reveal_strlit("*");
            reveal_strlit("~");
        }
        let ghost pv = parts_view(self.parts@);
        let mut r = self.channel.clone();
        r.append(".");
        let ghost start = r@;
        let mut i: usize = 0;
        proof {
            assert(pv.take(0) =~= Seq::<(Seq<char>, bool)>::empty());
            assert(r@ =~= start + parts_text(pv.take(0)));
        }
        while i < self.parts.len()
            invariant
                pv == parts_view(self.parts@),
                pv.len() == self.parts@.len(),
                i <= self.parts.len(),
                r@ == start + parts_text(pv.take(i as int)),
                "."@ == seq!['.'],
                "*"@ == seq!['*'],
            decreases self.parts.len() - i,
        {
            let part = &self.parts[i];
            r.append(part.prop.as_str());
            if part.prefix {
                r.append("*");
            }
            r.append(".");
            proof {
                lemma_parts_text_push(pv, i as int);
                assert(pv[i as int] == (part.prop@, part.prefix));
                assert(r@ =~= start + parts_text(pv.take(i + 1)));
            }
            i = i + 1;
        }
        proof {
            assert(pv.take(self.parts.len() as int) =~= pv);
        }
        if self.props.value_changed {
            r.append("~");
        }
        if let Some(p) = &self.props.prefix {
            r.append(p.as_str());
        }
        r.append("*");
        proof {
            assert(r@ =~= clear_path_text(self@));
        }
        r
    }
}


/// The patches of kept properties, the added properties and the removed keys never share a key.
pub proof fn lemma_props_diff_disjoint(old: VV, new: VV, path: DiffPathV, ctx: CtxV, cps: Seq<ClearPathV>, k: Seq<char>)
    ensures
        ({
            let d = props_diff(old, new, path, ctx, cps);
            &&& (d.changed)(k) is Some ==> (d.added)(k) is None && !(d.removed)(k)
            &&& (d.added)(k) is Some ==> !(d.removed)(k)
        }),
{
}

/// Without clear paths, a diff removes nothing.
pub proof fn lemma_props_diff_no_clear_paths(old: VV, new: VV, path: DiffPathV, ctx: CtxV, k: Seq<char>)
    ensures
        !(props_diff(old, new, path, ctx, Seq::empty()).removed)(k),
{
}

/// The difference of properties from themselves is empty, where they hold no NaN double.
pub proof fn lemma_props_diff_self(v: VV, path: DiffPathV, ctx: CtxV, cps: Seq<ClearPathV>)
    requires
        vv_no_nan(v),
    ensures
        ppatch_is_empty(props_diff(v, v, path, ctx, cps)),
    decreases v, 0nat,
{
    let d = props_diff(v, v, path, ctx, cps);
    assert forall|k: Seq<char>| #[trigger] (d.changed)(k) is None && (d.added)(k) is None && !(d.removed)(k) by {
        if (v.props)(k) is Some {
            lemma_no_nan_child(v, k);
            lemma_value_diff_self((v.props)(k)->0, child_path(path, ctx, k), cps);
        }
    }
}

/// The difference of a property from itself is empty, where it holds no NaN double.
pub proof fn lemma_value_diff_self(v: VV, path: DiffPathV, cps: Seq<ClearPathV>)
    requires
        vv_no_nan(v),
    ensures
        vpatch_is_empty(value_diff(v, v, path, cps)),
    decreases v, 1nat,
{
    assert(node_at(v, Seq::empty()) == Some(v));
    assert(tv_same(v.value, v.value));
    lemma_tv_diff_self(v.value);
    lemma_props_diff_self(v, path, CtxV::Value(true), cps);
}

proof fn lemma_added_channels_none(s: Seq<(String, Channel)>, m: Map<Seq<char>, Channel>)
    requires
        forall|i: int| 0 <= i < s.len() ==> m.contains_key(#[trigger] s[i].0@),
    ensures
        added_channels(s, m).len() == 0,
    decreases s.len(),
{
    if s.len() > 0 {
        assert(m.contains_key(s[0].0@));
        assert forall|i: int| 0 <= i < s.drop_first().len() implies m.contains_key(#[trigger] s.drop_first()[i].0@) by {
            assert(s.drop_first()[i] == s[i + 1]);
        }
        lemma_added_channels_none(s.drop_first(), m);
    }
}

/// Diffing channels against the same channels gives an empty patch, where they hold no NaN
/// double.
pub proof fn lemma_channels_diff_self(old: Map<Seq<char>, Channel>, new: OrdMap<String, Channel>, cps: Seq<ClearPathV>)
    requires
        new.inv(),
        new@ == old,
        forall|k: Seq<char>| #[trigger] old.contains_key(k) ==> vv_no_nan(channel_owner(channel_view(old[k]))),
    ensures
        channels_patch_is_empty(channels_diff(old, new, cps)),
{
    new.lemma_inv();
    let d = channels_diff(old, new, cps);
    assert forall|k: Seq<char>| #[trigger] (d.changed)(k) is None by {
        if old.contains_key(k) {
            let c = channel_view(old[k]);
            lemma_props_diff_self(
                channel_owner(c),
                DiffPathV { channel: None, props: Seq::empty() },
                CtxV::Channel(c.name),
                cps,
            );
        }
    }
    lemma_added_channels_none(new.seq(), old);
}


/// An xfconf method that setting a property calls.
pub enum XfconfMethod {
    ResetProperty,
    SetProperty,
}

/// The calls that set a property, once it is known whether the property exists: an existing one
/// is reset, with its sub-properties, before it is set.
pub fn set_calls(exists: bool) -> (r: Vec<XfconfMethod>)
    ensures
        r@ == (if exists {
            seq![XfconfMethod::ResetProperty, XfconfMethod::SetProperty]
        } else {
            seq![XfconfMethod::SetProperty]
        }),
{
    let mut r = Vec::new();
    if exists {
        r.push(XfconfMethod::ResetProperty);
    }
    r.push(XfconfMethod::SetProperty);
    proof {
        if exists {
            assert(r@ =~= seq![XfconfMethod::ResetProperty, XfconfMethod::SetProperty]);
        } else {
            assert(r@ =~= seq![XfconfMethod::SetProperty]);
        }
    }
    r
}


/// Two arrays are equal exactly when they have one length and are equal item by item.
pub proof fn lemma_seq_vv_same(a: Seq<VV>, b: Seq<VV>)
    ensures
        seq_vv_same(a, b) <==> (a.len() == b.len() && forall|i: int|
            0 <= i < a.len() ==> #[trigger] vv_same(a[i], b[i])),
    decreases a.len(),
{
    if a.len() > 0 && b.len() > 0 {
        let ta = a.drop_first();
        let tb = b.drop_first();
        lemma_seq_vv_same(ta, tb);
        if a.len() == b.len() && forall|i: int| 0 <= i < a.len() ==> #[trigger] vv_same(a[i], b[i]) {
            assert(vv_same(a[0], b[0]));
            assert forall|i: int| 0 <= i < ta.len() implies #[trigger] vv_same(ta[i], tb[i]) by {
                assert(ta[i] == a[i + 1] && tb[i] == b[i + 1]);
                assert(vv_same(a[i + 1], b[i + 1]));
            }
        }
        if seq_vv_same(a, b) {
            assert forall|i: int| 0 <= i < a.len() implies #[trigger] vv_same(a[i], b[i]) by {
                if i > 0 {
                    assert(ta[i - 1] == a[i] && tb[i - 1] == b[i]);
                    assert(vv_same(ta[i - 1], tb[i - 1]));
                }
            }
        }
    }
}

} // verus!
