use crate::ordmap::{has_key, lemma_sorted_distinct, sorted_keys, MapKey, OrdMap};
use crate::text::{lemma_seq_lt_irreflexive, lemma_seq_lt_total, lemma_seq_lt_transitive, seq_lt};
use crate::patch::{simple_apply, simple_diff, SameValue, SimplePatch};
use vstd::prelude::*;

verus! {

/// A JSON number, as the text that denotes it.
#[derive(Debug, Clone, PartialEq, Eq)]
pub struct JsonNumber {
    pub repr: String,
}

/// A JSON value; object members are kept in key order.
pub enum JsonValue {
    Null,
    Bool(bool),
    Number(JsonNumber),
    String(String),
    Array(Vec<JsonValue>),
    Object(OrdMap<String, JsonValue>),
}

/// What a JSON value denotes: objects as the function from a key to its member, if any.
pub enum JsonV {
    Null,
    Bool(bool),
    Number(Seq<char>),
    String(Seq<char>),
    Array(Seq<JsonV>),
    Object(spec_fn(Seq<char>) -> Option<JsonV>),
}

pub open spec fn json_view(v: JsonValue) -> JsonV
    decreases v,
{
    match v {
        JsonValue::Null => JsonV::Null,
        JsonValue::Bool(b) => JsonV::Bool(b),
        JsonValue::Number(n) => JsonV::Number(n.repr@),
        JsonValue::String(s) => JsonV::String(s@),
        JsonValue::Array(a) => JsonV::Array(json_seq_view(a@)),
        JsonValue::Object(m) => {
            proof {
                m.lemma_seq_decreases();
            }
            JsonV::Object(json_members(m.seq()))
        },
    }
}

pub open spec fn json_seq_view(s: Seq<JsonValue>) -> Seq<JsonV>
    decreases s,
{
    if s.len() == 0 {
        seq![]
    } else {
        seq![json_view(s[0])] + json_seq_view(s.drop_first())
    }
}

/// The members of an object given by its entries.
pub open spec fn json_members(s: Seq<(String, JsonValue)>) -> spec_fn(Seq<char>) -> Option<JsonV>
    decreases s,
{
    |k: Seq<char>|
        if s.len() == 0 {
            None
        } else if k == s[0].0@ {
            Some(json_view(s[0].1))
        } else {
            json_members(s.drop_first())(k)
        }
}

/// The view of a sequence of JSON values holds each value's view at its position.
pub proof fn lemma_json_seq_view(s: Seq<JsonValue>)
    ensures
        json_seq_view(s).len() == s.len(),
        forall|i: int| 0 <= i < s.len() ==> #[trigger] json_seq_view(s)[i] == json_view(s[i]),
    decreases s.len(),
{
    if s.len() > 0 {
        lemma_json_seq_view(s.drop_first());
        assert forall|i: int| 0 <= i < s.len() implies #[trigger] json_seq_view(s)[i] == json_view(
            s[i],
        ) by {
            if i > 0 {
                assert(s.drop_first()[i - 1] == s[i]);
            }
        }
    }
}

/// A sequence sorted by key stays sorted without its first entry, whose key is below all others.
pub proof fn lemma_sorted_drop_first<V>(s: Seq<(String, V)>)
    requires
        sorted_keys(s),
        s.len() > 0,
    ensures
        sorted_keys(s.drop_first()),
        forall|i: int| 0 < i < s.len() ==> seq_lt(s[0].0@, #[trigger] s[i].0@),
{
    let t = s.drop_first();
    assert forall|i: int, j: int| 0 <= i < j < t.len() implies <String as MapKey>::key_lt(
        #[trigger] t[i].0@,
        #[trigger] t[j].0@,
    ) by {
        assert(t[i] == s[i + 1] && t[j] == s[j + 1]);
    }
    assert forall|i: int| 0 < i < s.len() implies seq_lt(s[0].0@, #[trigger] s[i].0@) by {
        assert(<String as MapKey>::key_lt(s[0].0@, s[i].0@));
    }
}

/// The members of sorted entries: each entry's key gives its value, other keys nothing.
pub proof fn lemma_json_members(s: Seq<(String, JsonValue)>)
    requires
        sorted_keys(s),
    ensures
        forall|i: int|
            0 <= i < s.len() ==> json_members(s)(#[trigger] s[i].0@) == Some(json_view(s[i].1)),
        forall|k: Seq<char>| !has_key(s, k) ==> #[trigger] json_members(s)(k) is None,
    decreases s.len(),
{
    if s.len() > 0 {
        let t = s.drop_first();
        lemma_sorted_drop_first(s);
        lemma_json_members(t);
        assert forall|i: int| 0 <= i < s.len() implies json_members(s)(#[trigger] s[i].0@) == Some(
            json_view(s[i].1),
        ) by {
            if i > 0 {
                lemma_sorted_distinct(s, 0, i);
                assert(t[i - 1] == s[i]);
            }
        }
        assert forall|k: Seq<char>| !has_key(s, k) implies #[trigger] json_members(s)(k) is None by {
            assert(s[0].0@ != k);
            if has_key(t, k) {
                let j = choose|j: int| 0 <= j < t.len() && #[trigger] t[j].0@ == k;
                assert(s[j + 1].0@ == k);
            }
        }
    }
}

/// Sorted entries with the same members have the same keys and values, in the same order.
pub proof fn lemma_json_members_eq(s1: Seq<(String, JsonValue)>, s2: Seq<(String, JsonValue)>)
    requires
        sorted_keys(s1),
        sorted_keys(s2),
        json_members(s1) == json_members(s2),
    ensures
        s1.len() == s2.len(),
        forall|i: int|
            0 <= i < s1.len() ==> (#[trigger] s1[i]).0@ == s2[i].0@ && json_view(s1[i].1)
                == json_view(s2[i].1),
    decreases s1.len(),
{
    lemma_json_members(s1);
    lemma_json_members(s2);
    if s1.len() == 0 && s2.len() > 0 {
        assert(json_members(s2)(s2[0].0@) is Some);
        assert(!has_key(s1, s2[0].0@));
        assert(json_members(s1)(s2[0].0@) is None);
    } else if s1.len() > 0 && s2.len() == 0 {
        assert(json_members(s1)(s1[0].0@) is Some);
        assert(!has_key(s2, s1[0].0@));
        assert(json_members(s2)(s1[0].0@) is None);
    } else if s1.len() > 0 && s2.len() > 0 {
        let k1 = s1[0].0@;
        let k2 = s2[0].0@;
        lemma_sorted_drop_first(s1);
        lemma_sorted_drop_first(s2);
        // the smallest keys agree
        assert(k1 == k2) by {
            assert(json_members(s2)(k1) is Some);
            let j = choose|j: int| 0 <= j < s2.len() && #[trigger] s2[j].0@ == k1;
            assert(json_members(s1)(k2) is Some);
            let i = choose|i: int| 0 <= i < s1.len() && #[trigger] s1[i].0@ == k2;
            if k1 != k2 {
                assert(j > 0 && i > 0);
                assert(seq_lt(k2, k1));
                assert(seq_lt(k1, k2));
                lemma_seq_lt_transitive(k1, k2, k1);
                lemma_seq_lt_irreflexive(k1);
            }
        }
        let t1 = s1.drop_first();
        let t2 = s2.drop_first();
        lemma_json_members(t1);
        lemma_json_members(t2);
        assert forall|k: Seq<char>| #[trigger] json_members(t1)(k) == json_members(t2)(k) by {
            if k == k1 {
                if has_key(t1, k) {
                    let i = choose|i: int| 0 <= i < t1.len() && #[trigger] t1[i].0@ == k;
                    assert(s1[i + 1].0@ == k);
                    lemma_seq_lt_irreflexive(k);
                }
                if has_key(t2, k) {
                    let i = choose|i: int| 0 <= i < t2.len() && #[trigger] t2[i].0@ == k;
                    assert(s2[i + 1].0@ == k);
                    lemma_seq_lt_irreflexive(k);
                }
            } else {
                assert(json_members(s1)(k) == json_members(t1)(k));
                assert(json_members(s2)(k) == json_members(t2)(k));
            }
        }
        assert(json_members(t1) =~= json_members(t2));
        lemma_json_members_eq(t1, t2);
        assert(json_members(s1)(k1) == Some(json_view(s1[0].1)));
        assert(json_members(s2)(k2) == Some(json_view(s2[0].1)));
        assert forall|i: int| 0 <= i < s1.len() implies (#[trigger] s1[i]).0@ == s2[i].0@
            && json_view(s1[i].1) == json_view(s2[i].1) by {
            if i > 0 {
                assert(t1[i - 1] == s1[i]);
                assert(t2[i - 1] == s2[i]);
            }
        }
    }
}

/// Sorted entries with the same keys and values, in order, have the same members.
pub proof fn lemma_json_members_same(s1: Seq<(String, JsonValue)>, s2: Seq<(String, JsonValue)>)
    requires
        s1.len() == s2.len(),
        forall|i: int|
            0 <= i < s1.len() ==> (#[trigger] s1[i]).0@ == s2[i].0@ && json_view(s1[i].1)
                == json_view(s2[i].1),
    ensures
        json_members(s1) == json_members(s2),
    decreases s1.len(),
{
    if s1.len() > 0 {
        let t1 = s1.drop_first();
        let t2 = s2.drop_first();
        assert forall|i: int| 0 <= i < t1.len() implies (#[trigger] t1[i]).0@ == t2[i].0@
            && json_view(t1[i].1) == json_view(t2[i].1) by {
            assert(t1[i] == s1[i + 1] && t2[i] == s2[i + 1]);
        }
        lemma_json_members_same(t1, t2);
        assert(s1[0].0@ == s2[0].0@);
        assert(json_members(s1) =~= json_members(s2));
    } else {
        assert(json_members(s1) =~= json_members(s2));
    }
}


/// Whether a number's text is the text of a zero double, as `serde_json` prints one.
pub open spec fn zero_text(t: Seq<char>) -> bool {
    t == seq!['0', '.', '0'] || t == seq!['-', '0', '.', '0']
}

/// Whether two numbers, by the texts `serde_json` prints for them, are equal as `serde_json`'s
/// `Number` compares them: the same text, or two zero doubles whatever their signs.
pub open spec fn number_same(a: Seq<char>, b: Seq<char>) -> bool {
    a == b || (zero_text(a) && zero_text(b))
}

/// `zero_text` of a text.
fn is_zero_text(t: &str) -> (r: bool)
    ensures
        r == zero_text(t@),
{
    proof {
        reveal_strlit("0.0");
        reveal_strlit("-0.0");
        assert("0.0"@ == seq!['0', '.', '0']);
        assert("-0.0"@ == seq!['-', '0', '.', '0']);
    }
    crate::text::str_eq(t, "0.0") || crate::text::str_eq(t, "-0.0")
}

impl SameValue for JsonNumber {
    type Model = Seq<char>;

    open spec fn model(&self) -> Seq<char> {
        self.repr@
    }

    open spec fn same_as(&self, other: &Self) -> bool {
        number_same(self.repr@, other.repr@)
    }

    fn same(&self, other: &Self) -> (r: bool) {
        crate::text::str_eq(self.repr.as_str(), other.repr.as_str()) || (is_zero_text(self.repr.as_str())
            && is_zero_text(other.repr.as_str()))
    }
}

impl SameValue for Vec<JsonValue> {
    type Model = Seq<JsonV>;

    open spec fn model(&self) -> Seq<JsonV> {
        json_seq_view(self@)
    }

    open spec fn same_as(&self, other: &Self) -> bool {
        json_seq_view(self@) == json_seq_view(other@)
    }

    fn same(&self, other: &Self) -> (r: bool) {
        proof {
            lemma_json_seq_view(self@);
            lemma_json_seq_view(other@);
        }
        if self.len() != other.len() {
            return false;
        }
        let mut i: usize = 0;
        while i < self.len()
            invariant
                self.len() == other.len(),
                i <= self.len(),
                json_seq_view(self@).len() == self.len(),
                json_seq_view(other@).len() == other.len(),
                forall|j: int| 0 <= j < self.len() ==> #[trigger] json_seq_view(self@)[j] == json_view(self@[j]),
                forall|j: int| 0 <= j < other.len() ==> #[trigger] json_seq_view(other@)[j] == json_view(other@[j]),
                forall|j: int| 0 <= j < i ==> json_view(self@[j]) == json_view(other@[j]),
            decreases self.len() - i,
        {
            if !json_eq(&self[i], &other[i]) {
                proof {
                    assert(json_seq_view(self@)[i as int] != json_seq_view(other@)[i as int]);
                }
                return false;
            }
            i = i + 1;
        }
        proof {
            assert(json_seq_view(self@) =~= json_seq_view(other@));
        }
        true
    }
}

/// What a patch of a JSON value denotes; an object patch maps each key to the change of its
/// member and to the member it adds.
pub enum PatchV {
    Null,
    Bool(Option<bool>),
    Number(Option<Seq<char>>),
    String(Option<Seq<char>>),
    Array(Option<Seq<JsonV>>),
    Object(spec_fn(Seq<char>) -> Option<PatchV>, spec_fn(Seq<char>) -> Option<JsonV>),
    Changed(JsonV),
}

/// A patch that changes nothing.
pub open spec fn patch_is_empty(p: PatchV) -> bool {
    match p {
        PatchV::Null => true,
        PatchV::Bool(v) => v is None,
        PatchV::Number(v) => v is None,
        PatchV::String(v) => v is None,
        PatchV::Array(v) => v is None,
        PatchV::Object(c, a) => forall|k: Seq<char>| #[trigger] c(k) is None && a(k) is None,
        PatchV::Changed(_) => false,
    }
}

/// The one-way difference from `old` to `new`: members that `new` lacks are kept.
pub open spec fn json_diff(old: JsonV, new: JsonV) -> PatchV
    decreases new,
{
    match new {
        JsonV::Null => match old {
            JsonV::Null => PatchV::Null,
            _ => PatchV::Changed(new),
        },
        JsonV::Bool(b) => match old {
            JsonV::Bool(a) => PatchV::Bool(simple_diff(a, b)),
            _ => PatchV::Changed(new),
        },
        JsonV::Number(b) => match old {
            JsonV::Number(a) => PatchV::Number(if number_same(a, b) {
                None
            } else {
                Some(b)
            }),
            _ => PatchV::Changed(new),
        },
        JsonV::String(b) => match old {
            JsonV::String(a) => PatchV::String(simple_diff(a, b)),
            _ => PatchV::Changed(new),
        },
        JsonV::Array(b) => match old {
            JsonV::Array(a) => PatchV::Array(simple_diff(a, b)),
            _ => PatchV::Changed(new),
        },
        JsonV::Object(n) => match old {
            JsonV::Object(o) => PatchV::Object(
                |k: Seq<char>|
                    match n(k) {
                        Some(nv) => match o(k) {
                            Some(ov) => if patch_is_empty(json_diff(ov, nv)) {
                                None
                            } else {
                                Some(json_diff(ov, nv))
                            },
                            None => None,
                        },
                        None => None,
                    },
                |k: Seq<char>|
                    if o(k) is None {
                        n(k)
                    } else {
                        None
                    },
            ),
            _ => PatchV::Changed(new),
        },
    }
}

/// `new` laid over `old`: objects are merged member by member, anything else is replaced.
pub open spec fn json_merge(old: JsonV, new: JsonV) -> JsonV
    decreases new,
{
    match new {
        JsonV::Number(b) => match old {
            JsonV::Number(a) => if number_same(a, b) {
                old
            } else {
                new
            },
            _ => new,
        },
        JsonV::Object(n) => match old {
            JsonV::Object(o) => JsonV::Object(
                |k: Seq<char>|
                    match n(k) {
                        Some(nv) => match o(k) {
                            Some(ov) => Some(json_merge(ov, nv)),
                            None => Some(nv),
                        },
                        None => o(k),
                    },
            ),
            _ => new,
        },
        _ => new,
    }
}

/// The patch was made for a value of the shape of `old`.
pub open spec fn patch_fits(p: PatchV, old: JsonV) -> bool
    decreases p,
{
    match p {
        PatchV::Null => old is Null,
        PatchV::Bool(_) => old is Bool,
        PatchV::Number(_) => old is Number,
        PatchV::String(_) => old is String,
        PatchV::Array(_) => old is Array,
        PatchV::Object(c, a) => match old {
            JsonV::Object(o) => forall|k: Seq<char>|
                #[trigger] c(k) is Some && o(k) is Some ==> patch_fits(c(k)->0, o(k)->0),
            _ => false,
        },
        PatchV::Changed(_) => true,
    }
}

/// `old` with the patch applied.
pub open spec fn json_apply(p: PatchV, old: JsonV) -> JsonV
    decreases p,
{
    match p {
        PatchV::Bool(v) => match old {
            JsonV::Bool(b) => JsonV::Bool(simple_apply(v, b)),
            _ => old,
        },
        PatchV::Number(v) => match old {
            JsonV::Number(b) => JsonV::Number(simple_apply(v, b)),
            _ => old,
        },
        PatchV::String(v) => match old {
            JsonV::String(b) => JsonV::String(simple_apply(v, b)),
            _ => old,
        },
        PatchV::Array(v) => match old {
            JsonV::Array(b) => JsonV::Array(simple_apply(v, b)),
            _ => old,
        },
        PatchV::Object(c, a) => match old {
            JsonV::Object(o) => JsonV::Object(
                |k: Seq<char>|
                    match a(k) {
                        Some(v) => Some(v),
                        None => match c(k) {
                            Some(pk) => match o(k) {
                                Some(ok) => Some(json_apply(pk, ok)),
                                None => None,
                            },
                            None => o(k),
                        },
                    },
            ),
            _ => old,
        },
        PatchV::Changed(v) => v,
        PatchV::Null => old,
    }
}


/// A patch is empty exactly when laying `new` over `old` leaves `old` as it was.
pub proof fn lemma_json_diff_empty(old: JsonV, new: JsonV)
    ensures
        patch_is_empty(json_diff(old, new)) <==> json_merge(old, new) == old,
    decreases new,
{
    match new {
        JsonV::Object(n) => match old {
            JsonV::Object(o) => {
                let merged = json_merge(old, new)->Object_0;
                let c = json_diff(old, new)->Object_0;
                let a = json_diff(old, new)->Object_1;
                assert forall|k: Seq<char>| #[trigger] n(k) is Some && o(k) is Some implies (
                patch_is_empty(json_diff(o(k)->0, n(k)->0)) <==> json_merge(o(k)->0, n(k)->0) == o(
                    k,
                )->0) by {
                    assert(decreases_to!(new => n));
                    lemma_json_diff_empty(o(k)->0, n(k)->0);
                }
                if patch_is_empty(json_diff(old, new)) {
                    assert forall|k: Seq<char>| #[trigger] merged(k) == o(k) by {
                        assert(c(k) is None && a(k) is None);
                        if n(k) is Some {
                            assert(o(k) is Some);
                        }
                    }
                    assert(merged =~= o);
                }
                if json_merge(old, new) == old {
                    assert(merged == o);
                    assert forall|k: Seq<char>| #[trigger] c(k) is None && a(k) is None by {
                        assert(merged(k) == o(k));
                        if n(k) is Some {
                            assert(o(k) is Some);
                        }
                    }
                }
            },
            _ => {},
        },
        _ => {},
    }
}

/// Laying a value over itself changes nothing.
pub proof fn lemma_json_merge_self(x: JsonV)
    ensures
        json_merge(x, x) == x,
    decreases x,
{
    match x {
        JsonV::Object(o) => {
            let merged = json_merge(x, x)->Object_0;
            assert forall|k: Seq<char>| #[trigger] merged(k) == o(k) by {
                if o(k) is Some {
                    assert(decreases_to!(x => o));
                    lemma_json_merge_self(o(k)->0);
                }
            }
            assert(merged =~= o);
        },
        _ => {},
    }
}

/// The difference of a value from itself is empty.
pub proof fn lemma_json_diff_self(x: JsonV)
    ensures
        patch_is_empty(json_diff(x, x)),
{
    lemma_json_merge_self(x);
    lemma_json_diff_empty(x, x);
}

/// The difference of `old` and `new` fits `old`, and applying it to `old` gives `new` laid over
/// `old`.
pub proof fn lemma_json_apply_diff(old: JsonV, new: JsonV)
    ensures
        patch_fits(json_diff(old, new), old),
        json_apply(json_diff(old, new), old) == json_merge(old, new),
    decreases new,
{
    match new {
        JsonV::Object(n) => match old {
            JsonV::Object(o) => {
                let merged = json_merge(old, new)->Object_0;
                let applied = json_apply(json_diff(old, new), old)->Object_0;
                let c = json_diff(old, new)->Object_0;
                let a = json_diff(old, new)->Object_1;
                assert forall|k: Seq<char>| #[trigger] n(k) is Some && o(k) is Some implies patch_fits(
                    json_diff(o(k)->0, n(k)->0),
                    o(k)->0,
                ) && json_apply(json_diff(o(k)->0, n(k)->0), o(k)->0) == json_merge(
                    o(k)->0,
                    n(k)->0,
                ) && (patch_is_empty(json_diff(o(k)->0, n(k)->0)) <==> json_merge(
                    o(k)->0,
                    n(k)->0,
                ) == o(k)->0) by {
                    assert(decreases_to!(new => n));
                    lemma_json_apply_diff(o(k)->0, n(k)->0);
                    lemma_json_diff_empty(o(k)->0, n(k)->0);
                }
                assert forall|k: Seq<char>| #[trigger] c(k) is Some && o(k) is Some implies patch_fits(
                    c(k)->0,
                    o(k)->0,
                ) by {
                    assert(n(k) is Some);
                }
                assert forall|k: Seq<char>| #[trigger] applied(k) == merged(k) by {
                    if n(k) is Some && o(k) is Some {
                        assert(a(k) is None);
                    }
                }
                assert(applied =~= merged);
            },
            _ => {},
        },
        _ => {},
    }
}


/// The change of a JSON value.
pub enum ValuePatch {
    Null,
    Bool(SimplePatch<bool>),
    Number(SimplePatch<JsonNumber>),
    String(SimplePatch<String>),
    Array(SimplePatch<Vec<JsonValue>>),
    Object(ObjectPatch),
    Changed(JsonValue),
}

/// The change of an object: patches of members it keeps, and members it gains.
pub struct ObjectPatch {
    pub changed: OrdMap<String, ValuePatch>,
    pub added: OrdMap<String, JsonValue>,
}

pub open spec fn patch_view(p: ValuePatch) -> PatchV
    decreases p,
{
    match p {
        ValuePatch::Null => PatchV::Null,
        ValuePatch::Bool(s) => PatchV::Bool(s.model()),
        ValuePatch::Number(s) => PatchV::Number(s.model()),
        ValuePatch::String(s) => PatchV::String(s.model()),
        ValuePatch::Array(s) => PatchV::Array(s.model()),
        ValuePatch::Object(op) => {
            proof {
                op.changed.lemma_seq_decreases();
            }
            PatchV::Object(patch_members(op.changed.seq()), json_members(op.added.seq()))
        },
        ValuePatch::Changed(v) => PatchV::Changed(json_view(v)),
    }
}

/// The member patches given by entries.
pub open spec fn patch_members(s: Seq<(String, ValuePatch)>) -> spec_fn(Seq<char>) -> Option<PatchV>
    decreases s,
{
    |k: Seq<char>|
        if s.len() == 0 {
            None
        } else if k == s[0].0@ {
            Some(patch_view(s[0].1))
        } else {
            patch_members(s.drop_first())(k)
        }
}

/// The members that a map of values gives.
pub open spec fn lift_json(m: Map<Seq<char>, JsonValue>) -> spec_fn(Seq<char>) -> Option<JsonV> {
    |k: Seq<char>|
        if m.contains_key(k) {
            Some(json_view(m[k]))
        } else {
            None
        }
}

/// The member patches that a map of patches gives.
pub open spec fn lift_patch(m: Map<Seq<char>, ValuePatch>) -> spec_fn(Seq<char>) -> Option<PatchV> {
    |k: Seq<char>|
        if m.contains_key(k) {
            Some(patch_view(m[k]))
        } else {
            None
        }
}

/// The member patches of sorted entries: each entry's key gives its patch, other keys nothing.
pub proof fn lemma_patch_members(s: Seq<(String, ValuePatch)>)
    requires
        sorted_keys(s),
    ensures
        forall|i: int|
            0 <= i < s.len() ==> patch_members(s)(#[trigger] s[i].0@) == Some(patch_view(s[i].1)),
        forall|k: Seq<char>| !has_key(s, k) ==> #[trigger] patch_members(s)(k) is None,
    decreases s.len(),
{
    if s.len() > 0 {
        let t = s.drop_first();
        lemma_sorted_drop_first(s);
        lemma_patch_members(t);
        assert forall|i: int| 0 <= i < s.len() implies patch_members(s)(#[trigger] s[i].0@) == Some(
            patch_view(s[i].1),
        ) by {
            if i > 0 {
                lemma_sorted_distinct(s, 0, i);
                assert(t[i - 1] == s[i]);
            }
        }
        assert forall|k: Seq<char>| !has_key(s, k) implies #[trigger] patch_members(s)(k) is None by {
            assert(s[0].0@ != k);
            if has_key(t, k) {
                let j = choose|j: int| 0 <= j < t.len() && #[trigger] t[j].0@ == k;
                assert(s[j + 1].0@ == k);
            }
        }
    }
}

/// The members of an object are those of its map.
pub proof fn lemma_json_members_map(m: OrdMap<String, JsonValue>)
    requires
        m.inv(),
    ensures
        json_members(m.seq()) == lift_json(m@),
{
    m.lemma_inv();
    lemma_json_members(m.seq());
    assert forall|k: Seq<char>| #[trigger] json_members(m.seq())(k) == lift_json(m@)(k) by {
        if has_key(m.seq(), k) {
            let i = choose|i: int| 0 <= i < m.seq().len() && #[trigger] m.seq()[i].0@ == k;
            assert(m@[m.seq()[i].0@] == m.seq()[i].1);
        }
    }
    assert(json_members(m.seq()) =~= lift_json(m@));
}

/// The member patches of an object patch are those of its map.
pub proof fn lemma_patch_members_map(m: OrdMap<String, ValuePatch>)
    requires
        m.inv(),
    ensures
        patch_members(m.seq()) == lift_patch(m@),
{
    m.lemma_inv();
    lemma_patch_members(m.seq());
    assert forall|k: Seq<char>| #[trigger] patch_members(m.seq())(k) == lift_patch(m@)(k) by {
        if has_key(m.seq(), k) {
            let i = choose|i: int| 0 <= i < m.seq().len() && #[trigger] m.seq()[i].0@ == k;
            assert(m@[m.seq()[i].0@] == m.seq()[i].1);
        }
    }
    assert(patch_members(m.seq()) =~= lift_patch(m@));
}


impl ValuePatch {
    /// The one-way difference from `old` to `new`.
    pub fn diff(old: JsonValue, new: JsonValue) -> (r: Self)
        ensures
            patch_view(r) == json_diff(json_view(old), json_view(new)),
        decreases new,
    {
        let ghost g_new = new;
        match (old, new) {
            (JsonValue::Null, JsonValue::Null) => ValuePatch::Null,
            (JsonValue::Bool(o), JsonValue::Bool(n)) => ValuePatch::Bool(SimplePatch::diff(o, n)),
            (JsonValue::Number(o), JsonValue::Number(n)) => ValuePatch::Number(
                SimplePatch::diff(o, n),
            ),
            (JsonValue::String(o), JsonValue::String(n)) => ValuePatch::String(
                SimplePatch::diff(o, n),
            ),
            (JsonValue::Array(o), JsonValue::Array(n)) => ValuePatch::Array(
                SimplePatch::diff(o, n),
            ),
            (JsonValue::Object(o), JsonValue::Object(n)) => {
                proof {
                    assert(g_new == JsonValue::Object(n));
                    assert(decreases_to!(g_new => g_new->Object_0));
                }
                ValuePatch::Object(ObjectPatch::diff(o, n))
            },
            (_, new) => ValuePatch::Changed(new),
        }
    }

    /// Whether the patch changes nothing.
    pub fn is_empty(&self) -> (r: bool)
        ensures
            r == patch_is_empty(patch_view(*self)),
    {
        match self {
            ValuePatch::Null => true,
            ValuePatch::Bool(p) => p.is_empty(),
            ValuePatch::Number(p) => p.is_empty(),
            ValuePatch::String(p) => p.is_empty(),
            ValuePatch::Array(p) => p.is_empty(),
            ValuePatch::Object(p) => p.is_empty(),
            ValuePatch::Changed(_) => false,
        }
    }
}

impl ObjectPatch {
    /// The member-wise difference from `old` to `new`; members that `new` lacks are kept.
    pub fn diff(old: OrdMap<String, JsonValue>, new: OrdMap<String, JsonValue>) -> (r: Self)
        ensures
            patch_view(ValuePatch::Object(r)) == json_diff(
                JsonV::Object(json_members(old.seq())),
                JsonV::Object(json_members(new.seq())),
            ),
        decreases new,
    {
        let ghost n0 = new;
        let ghost o0 = old;
        proof {
            use_type_invariant(&old);
            use_type_invariant(&new);
            lemma_json_members_map(old);
            lemma_json_members_map(new);
        }
        let ghost d = json_diff(JsonV::Object(lift_json(o0@)), JsonV::Object(lift_json(n0@)));
        let ghost c = d->Object_0;
        let ghost a = d->Object_1;
        let mut remaining = old;
        let mut pending = new;
        let mut changed: OrdMap<String, ValuePatch> = OrdMap::new();
        let mut added: OrdMap<String, JsonValue> = OrdMap::new();
        proof {
            pending.lemma_finite();
        }
        while !pending.is_empty()
            invariant
                d == json_diff(JsonV::Object(lift_json(o0@)), JsonV::Object(lift_json(n0@))),
                c == d->Object_0,
                a == d->Object_1,
                n0 == new,
                pending.seq() == n0.seq().subrange(0, pending.seq().len() as int),
                pending.seq().len() <= n0.seq().len(),
                pending@.submap_of(n0@),
                pending@.dom().finite(),
                remaining@ == o0@.remove_keys(n0@.dom() - pending@.dom()),
                forall|k: Seq<char>|
                    #[trigger] changed@.contains_key(k) == ((n0@.dom() - pending@.dom()).contains(k)
                        && c(k) is Some),
                forall|k: Seq<char>|
                    #[trigger] changed@.contains_key(k) ==> c(k) == Some(patch_view(changed@[k])),
                forall|k: Seq<char>|
                    #[trigger] added@.contains_key(k) == ((n0@.dom() - pending@.dom()).contains(k)
                        && a(k) is Some),
                forall|k: Seq<char>|
                    #[trigger] added@.contains_key(k) ==> a(k) == Some(json_view(added@[k])),
            decreases pending.seq().len(),
        {
            let ghost prev_new = pending;
            let ghost prev_old = remaining@;
            let ghost prev_changed = changed@;
            let ghost prev_added = added@;
            let (key, new_value) = pending.pop_last().unwrap();
            let ghost kv = key@;
            proof {
                pending.lemma_finite();
                let i = prev_new.seq().len() - 1;
                assert(prev_new.seq()[i] == n0.seq()[i]);
                n0.lemma_value_decreases(i);
                assert(new_value == n0.seq()[i].1);
                assert(decreases_to!(n0 => new_value));
                assert(pending.seq() =~= n0.seq().subrange(0, pending.seq().len() as int));
                assert(n0@.contains_key(kv) && n0@[kv] == new_value);
                assert(pending@.dom() =~= prev_new@.dom().remove(kv));
                assert(!(n0@.dom() - prev_new@.dom()).contains(kv));
                assert(prev_old.contains_key(kv) == o0@.contains_key(kv));
            }
            match remaining.remove(&key) {
                Some(old_value) => {
                    proof {
                        assert(old_value == o0@[kv]);
                    }
                    let patch = ValuePatch::diff(old_value, new_value);
                    proof {
                        assert(lift_json(o0@)(kv) == Some(json_view(old_value)));
                        assert(lift_json(n0@)(kv) == Some(json_view(new_value)));
                    }
                    if !patch.is_empty() {
                        changed.insert(key, patch);
                    }
                },
                None => {
                    proof {
                        assert(lift_json(o0@)(kv) is None);
                    }
                    added.insert(key, new_value);
                },
            }
            proof {
                assert(remaining@ =~= o0@.remove_keys(n0@.dom() - pending@.dom()));
            }
        }
        proof {
            use_type_invariant(&changed);
            use_type_invariant(&added);
            lemma_patch_members_map(changed);
            lemma_json_members_map(added);
            assert(pending@ =~= Map::<Seq<char>, JsonValue>::empty());
            assert forall|k: Seq<char>| #[trigger] lift_patch(changed@)(k) == c(k) by {
                if !n0@.contains_key(k) {
                    assert(lift_json(n0@)(k) is None);
                }
            }
            assert forall|k: Seq<char>| #[trigger] lift_json(added@)(k) == a(k) by {
                if !n0@.contains_key(k) {
                    assert(lift_json(n0@)(k) is None);
                }
            }
            assert(lift_patch(changed@) =~= c);
            assert(lift_json(added@) =~= a);
        }
        ObjectPatch { changed, added }
    }

    pub fn is_empty(&self) -> (r: bool)
        ensures
            r == patch_is_empty(patch_view(ValuePatch::Object(*self))),
    {
        proof {
            use_type_invariant(&self.changed);
            use_type_invariant(&self.added);
            self.changed.lemma_inv();
            self.added.lemma_inv();
            lemma_patch_members(self.changed.seq());
            lemma_json_members(self.added.seq());
        }
        let r = self.changed.is_empty() && self.added.is_empty();
        proof {
            let c = patch_members(self.changed.seq());
            let a = json_members(self.added.seq());
            assert(patch_view(ValuePatch::Object(*self)) == PatchV::Object(c, a));
            if self.changed.seq().len() > 0 {
                assert(c(self.changed.seq()[0].0@) is Some);
            }
            if self.added.seq().len() > 0 {
                let k = self.added.seq()[0].0@;
                assert(a(k) is Some);
                assert(!(c(k) is None && a(k) is None));
            }
            if r {
                assert forall|k: Seq<char>| #[trigger] c(k) is None && a(k) is None by {
                    assert(!has_key(self.changed.seq(), k));
                    assert(!has_key(self.added.seq(), k));
                }
            }
        }
        r
    }
}



/// The members of `o` with the member patches of `c` applied to those it has.
pub open spec fn apply_changed_members(
    c: spec_fn(Seq<char>) -> Option<PatchV>,
    o: spec_fn(Seq<char>) -> Option<JsonV>,
) -> spec_fn(Seq<char>) -> Option<JsonV> {
    |k: Seq<char>|
        match c(k) {
            Some(pk) => match o(k) {
                Some(ok) => Some(json_apply(pk, ok)),
                None => None,
            },
            None => o(k),
        }
}

impl ValuePatch {
    /// Whether the patch was made for a value of the shape of `target`.
    pub fn fits(&self, target: &JsonValue) -> (r: bool)
        ensures
            r == patch_fits(patch_view(*self), json_view(*target)),
        decreases self,
    {
        match self {
            ValuePatch::Null => matches!(target, JsonValue::Null),
            ValuePatch::Bool(_) => matches!(target, JsonValue::Bool(_)),
            ValuePatch::Number(_) => matches!(target, JsonValue::Number(_)),
            ValuePatch::String(_) => matches!(target, JsonValue::String(_)),
            ValuePatch::Array(_) => matches!(target, JsonValue::Array(_)),
            ValuePatch::Object(p) => match target {
                JsonValue::Object(m) => {
                    proof {
                        assert(decreases_to!(*self => (*self)->Object_0));
                    }
                    p.fits(m)
                },
                _ => false,
            },
            ValuePatch::Changed(_) => true,
        }
    }

    /// Applies the patch to `target`, which must have the shape it was made for.
    pub fn apply_to_old(self, target: &mut JsonValue)
        requires
            patch_fits(patch_view(self), json_view(*old(target))),
        ensures
            json_view(*final(target)) == json_apply(patch_view(self), json_view(*old(target))),
        decreases self,
    {
        let ghost s0 = self;
        match self {
            ValuePatch::Null => {},
            ValuePatch::Bool(p) => match target {
                JsonValue::Bool(b) => p.apply_to_old(b),
                _ => {},
            },
            ValuePatch::Number(p) => match target {
                JsonValue::Number(b) => p.apply_to_old(b),
                _ => {},
            },
            ValuePatch::String(p) => match target {
                JsonValue::String(b) => p.apply_to_old(b),
                _ => {},
            },
            ValuePatch::Array(p) => match target {
                JsonValue::Array(b) => p.apply_to_old(b),
                _ => {},
            },
            ValuePatch::Object(p) => match target {
                JsonValue::Object(m) => {
                    proof {
                        assert(s0 == ValuePatch::Object(p));
                        assert(decreases_to!(s0 => s0->Object_0));
                    }
                    p.apply_to_old(m)
                },
                _ => {},
            },
            ValuePatch::Changed(v) => {
                *target = v;
            },
        }
    }
}

impl ObjectPatch {
    /// Whether each member patch fits the member of `target` that it changes.
    pub fn fits(&self, target: &OrdMap<String, JsonValue>) -> (r: bool)
        ensures
            r == patch_fits(
                patch_view(ValuePatch::Object(*self)),
                JsonV::Object(json_members(target.seq())),
            ),
        decreases self,
    {
        proof {
            use_type_invariant(&self.changed);
            use_type_invariant(target);
            self.changed.lemma_inv();
            lemma_patch_members(self.changed.seq());
            lemma_json_members_map(*target);
        }
        let ghost c = patch_members(self.changed.seq());
        let ghost o = json_members(target.seq());
        let n = self.changed.len();
        let mut i: usize = 0;
        while i < n
            invariant
                n == self.changed.seq().len(),
                i <= n,
                c == patch_members(self.changed.seq()),
                o == lift_json(target@),
                o == json_members(target.seq()),
                forall|j: int|
                    0 <= j < self.changed.seq().len() ==> c(#[trigger] self.changed.seq()[j].0@)
                        == Some(patch_view(self.changed.seq()[j].1)),
                forall|j: int|
                    0 <= j < i ==> (o(#[trigger] self.changed.seq()[j].0@) is Some ==> patch_fits(
                        patch_view(self.changed.seq()[j].1),
                        o(self.changed.seq()[j].0@)->0,
                    )),
            decreases n - i,
        {
            let entry = self.changed.entry_at(i);
            proof {
                self.changed.lemma_value_decreases(i as int);
                assert(decreases_to!(*self => self.changed));
            }
            match target.get(&entry.0) {
                Some(v) => {
                    if !entry.1.fits(v) {
                        proof {
                            let k = entry.0@;
                            assert(c(k) is Some && o(k) is Some);
                            assert(c(k)->0 == patch_view(entry.1));
                            assert(o(k)->0 == json_view(*v));
                            assert(patch_view(ValuePatch::Object(*self)) == PatchV::Object(
                                c,
                                json_members(self.added.seq()),
                            ));
                        }
                        return false;
                    }
                },
                None => {},
            }
            i = i + 1;
        }
        proof {
            assert forall|k: Seq<char>| #[trigger] c(k) is Some && o(k) is Some implies patch_fits(
                c(k)->0,
                o(k)->0,
            ) by {
                assert(has_key(self.changed.seq(), k));
                let j = choose|j: int| 0 <= j < self.changed.seq().len() && #[trigger] self.changed.seq()[j].0@ == k;
            }
            assert(patch_view(ValuePatch::Object(*self)) == PatchV::Object(
                c,
                json_members(self.added.seq()),
            ));
        }
        true
    }

    /// Applies the member patches to the members `target` has, then adds the added members.
    pub fn apply_to_old(self, target: &mut OrdMap<String, JsonValue>)
        requires
            patch_fits(
                patch_view(ValuePatch::Object(self)),
                JsonV::Object(json_members(old(target).seq())),
            ),
        ensures
            JsonV::Object(json_members(final(target).seq())) == json_apply(
                patch_view(ValuePatch::Object(self)),
                JsonV::Object(json_members(old(target).seq())),
            ),
        decreases self,
    {
        let ghost s0 = self;
        let ghost t0 = target@;
        proof {
            use_type_invariant(&self.changed);
            use_type_invariant(&self.added);
            use_type_invariant(&*target);
            lemma_patch_members_map(self.changed);
            lemma_json_members_map(self.added);
            lemma_json_members_map(*target);
        }
        let ghost cm = self.changed@;
        let ghost am = self.added@;
        let ghost c = lift_patch(cm);
        let ghost a = lift_json(am);
        let ghost o = lift_json(t0);
        let ghost phase1 = apply_changed_members(c, o);
        let ObjectPatch { changed, added } = self;
        let mut changed = changed;
        let mut added = added;
        proof {
            changed.lemma_finite();
        }
        while !changed.is_empty()
            invariant
                s0 == self,
                phase1 == apply_changed_members(c, o),
                s0.changed@ == cm,
                c == lift_patch(cm),
                o == lift_json(t0),
                patch_fits(PatchV::Object(c, a), JsonV::Object(o)),
                changed.seq().len() <= s0.changed.seq().len(),
                changed.seq() == s0.changed.seq().subrange(0, changed.seq().len() as int),
                changed@.submap_of(cm),
                changed@.dom().finite(),
                target@.dom() == t0.dom(),
                forall|k: Seq<char>|
                    #[trigger] lift_json(target@)(k) == if (cm.dom() - changed@.dom()).contains(k) {
                        phase1(k)
                    } else {
                        o(k)
                    },
            decreases changed.seq().len(),
        {
            let ghost prev = changed;
            let ghost prev_t = target@;
            let (key, patch) = changed.pop_last().unwrap();
            let ghost kv = key@;
            proof {
                changed.lemma_finite();
                let i = prev.seq().len() - 1;
                assert(prev.seq()[i] == s0.changed.seq()[i]);
                s0.changed.lemma_value_decreases(i);
                assert(patch == s0.changed.seq()[i].1);
                assert(decreases_to!(s0 => s0.changed));
                assert(changed.seq() =~= s0.changed.seq().subrange(0, changed.seq().len() as int));
                assert(cm.contains_key(kv) && cm[kv] == patch);
                assert(changed@.dom() =~= prev@.dom().remove(kv));
                assert(lift_json(prev_t)(kv) == o(kv));
                assert(c(kv) == Some(patch_view(patch)));
            }
            match target.remove(&key) {
                Some(mut value) => {
                    proof {
                        assert(o(kv) == Some(json_view(value)));
                        assert(c(kv) is Some && o(kv) is Some);
                    }
                    let ghost ov = value;
                    patch.apply_to_old(&mut value);
                    target.insert(key, value);
                    proof {
                        assert(target@.dom() =~= t0.dom());
                        assert(lift_json(target@)(kv) == Some(json_apply(patch_view(patch), json_view(ov))));
                        assert(phase1(kv) == Some(json_apply(patch_view(patch), json_view(ov))));
                        assert forall|k: Seq<char>| #[trigger] lift_json(target@)(k) == if (cm.dom()
                            - changed@.dom()).contains(k) {
                            phase1(k)
                        } else {
                            o(k)
                        } by {
                            if k != kv {
                                assert(lift_json(target@)(k) == lift_json(prev_t)(k));
                                assert((cm.dom() - changed@.dom()).contains(k) == (cm.dom()
                                    - prev@.dom()).contains(k));
                            }
                        }
                    }
                },
                None => {
                    proof {
                        assert(o(kv) is None);
                        assert(target@ =~= prev_t);
                        assert(phase1(kv) is None);
                        assert forall|k: Seq<char>| #[trigger] lift_json(target@)(k) == if (cm.dom()
                            - changed@.dom()).contains(k) {
                            phase1(k)
                        } else {
                            o(k)
                        } by {
                            if k != kv {
                                assert(lift_json(target@)(k) == lift_json(prev_t)(k));
                                assert((cm.dom() - changed@.dom()).contains(k) == (cm.dom()
                                    - prev@.dom()).contains(k));
                            }
                        }
                    }
                },
            }
        }
        proof {
            assert(changed@ =~= Map::<Seq<char>, ValuePatch>::empty());
            assert forall|k: Seq<char>| #[trigger] lift_json(target@)(k) == phase1(k) by {
                if !cm.contains_key(k) {
                    assert(c(k) is None);
                }
            }
            added.lemma_finite();
        }
        while !added.is_empty()
            invariant
                a == lift_json(am),
                phase1 == apply_changed_members(c, o),
                added@.submap_of(am),
                added@.dom().finite(),
                forall|k: Seq<char>|
                    #[trigger] lift_json(target@)(k) == if (am.dom() - added@.dom()).contains(k) {
                        a(k)
                    } else {
                        phase1(k)
                    },
            decreases added@.len(),
        {
            let ghost prev = added@;
            let ghost prev_t = target@;
            let (key, value) = added.pop_last().unwrap();
            let ghost kv = key@;
            proof {
                added.lemma_finite();
                assert(added@.dom() =~= prev.dom().remove(kv));
                assert(prev.contains_key(kv) && prev[kv] == value);
                crate::maps::lemma_submap_at(prev, am, kv);
            }
            target.insert(key, value);
            proof {
                assert forall|k: Seq<char>| #[trigger] lift_json(target@)(k) == if (am.dom()
                    - added@.dom()).contains(k) {
                    a(k)
                } else {
                    phase1(k)
                } by {
                    if k != kv {
                        assert(lift_json(target@)(k) == lift_json(prev_t)(k));
                    }
                }
            }
        }
        proof {
            use_type_invariant(&*target);
            lemma_json_members_map(*target);
            assert(added@ =~= Map::<Seq<char>, JsonValue>::empty());
            let applied = json_apply(PatchV::Object(c, a), JsonV::Object(o))->Object_0;
            assert forall|k: Seq<char>| #[trigger] lift_json(target@)(k) == applied(k) by {
                if !am.contains_key(k) {
                    assert(a(k) is None);
                }
            }
            assert(lift_json(target@) =~= applied);
        }
    }
}


/// A JSON document.
pub struct Json(pub JsonValue);

/// The change of a JSON document.
pub struct JsonPatch {
    pub value: ValuePatch,
}

impl JsonPatch {
    /// The one-way difference from `old` to `new`: members that `new` lacks are kept.
    pub fn diff(old: Json, new: Json) -> (r: Self)
        ensures
            patch_view(r.value) == json_diff(json_view(old.0), json_view(new.0)),
    {
        JsonPatch { value: ValuePatch::diff(old.0, new.0) }
    }

    pub fn is_empty(&self) -> (r: bool)
        ensures
            r == patch_is_empty(patch_view(self.value)),
    {
        self.value.is_empty()
    }

    /// Whether the patch was made for a document of the shape of `target`.
    pub fn fits(&self, target: &Json) -> (r: bool)
        ensures
            r == patch_fits(patch_view(self.value), json_view(target.0)),
    {
        self.value.fits(&target.0)
    }

    /// Applies the patch to `target`, which must have the shape it was made for.
    pub fn apply_to_old(self, target: &mut Json)
        requires
            patch_fits(patch_view(self.value), json_view(old(target).0)),
        ensures
            json_view(final(target).0) == json_apply(patch_view(self.value), json_view(old(target).0)),
    {
        self.value.apply_to_old(&mut target.0);
    }
}

/// Whether two JSON values are the same value.
pub fn json_eq(a: &JsonValue, b: &JsonValue) -> (r: bool)
    ensures
        r == (json_view(*a) == json_view(*b)),
    decreases *a,
{
    match a {
        JsonValue::Null => matches!(b, JsonValue::Null),
        JsonValue::Bool(x) => match b {
            JsonValue::Bool(y) => *x == *y,
            _ => false,
        },
        JsonValue::Number(x) => match b {
            JsonValue::Number(y) => crate::text::str_eq(x.repr.as_str(), y.repr.as_str()),
            _ => false,
        },
        JsonValue::String(x) => match b {
            JsonValue::String(y) => crate::text::str_eq(x.as_str(), y.as_str()),
            _ => false,
        },
        JsonValue::Array(x) => match b {
            JsonValue::Array(y) => json_seq_eq(a, x, y),
            _ => false,
        },
        JsonValue::Object(x) => match b {
            JsonValue::Object(y) => json_object_eq(a, x, y),
            _ => false,
        },
    }
}

fn json_seq_eq(a: &JsonValue, x: &Vec<JsonValue>, y: &Vec<JsonValue>) -> (r: bool)
    requires
        *a == JsonValue::Array(*x),
    ensures
        r == (json_seq_view(x@) == json_seq_view(y@)),
    decreases *a, 0nat,
{
    proof {
        lemma_json_seq_view(x@);
        lemma_json_seq_view(y@);
    }
    if x.len() != y.len() {
        return false;
    }
    let mut i: usize = 0;
    while i < x.len()
        invariant
            *a == JsonValue::Array(*x),
            x.len() == y.len(),
            i <= x.len(),
            json_seq_view(x@).len() == x.len(),
            json_seq_view(y@).len() == y.len(),
            forall|j: int| 0 <= j < x.len() ==> #[trigger] json_seq_view(x@)[j] == json_view(x@[j]),
            forall|j: int| 0 <= j < y.len() ==> #[trigger] json_seq_view(y@)[j] == json_view(y@[j]),
            forall|j: int| 0 <= j < i ==> json_view(x@[j]) == json_view(y@[j]),
        decreases x.len() - i,
    {
        proof {
            let v = (*a)->Array_0;
            assert(v == *x);
            assert(decreases_to!(*a => (*a)->Array_0));
            assert(decreases_to!(v => v@));
            assert(decreases_to!(v@ => v@[i as int]));
        }
        if !json_eq(&x[i], &y[i]) {
            proof {
                assert(json_seq_view(x@)[i as int] != json_seq_view(y@)[i as int]);
            }
            return false;
        }
        i = i + 1;
    }
    proof {
        assert(json_seq_view(x@) =~= json_seq_view(y@));
    }
    true
}

fn json_object_eq(a: &JsonValue, x: &OrdMap<String, JsonValue>, y: &OrdMap<String, JsonValue>) -> (r: bool)
    requires
        *a == JsonValue::Object(*x),
    ensures
        r == (json_members(x.seq()) == json_members(y.seq())),
    decreases *a, 0nat,
{
    proof {
        use_type_invariant(x);
        use_type_invariant(y);
        x.lemma_inv();
        y.lemma_inv();
    }
    let n = x.len();
    if n != y.len() {
        proof {
            if json_members(x.seq()) == json_members(y.seq()) {
                lemma_json_members_eq(x.seq(), y.seq());
            }
        }
        return false;
    }
    let mut i: usize = 0;
    while i < n
        invariant
            *a == JsonValue::Object(*x),
            n == x.seq().len(),
            n == y.seq().len(),
            i <= n,
            sorted_keys(x.seq()),
            sorted_keys(y.seq()),
            forall|j: int|
                0 <= j < i ==> (#[trigger] x.seq()[j]).0@ == y.seq()[j].0@ && json_view(
                    x.seq()[j].1,
                ) == json_view(y.seq()[j].1),
        decreases n - i,
    {
        let ex = x.entry_at(i);
        let ey = y.entry_at(i);
        proof {
            x.lemma_value_decreases(i as int);
            assert(decreases_to!(*a => (*a)->0));
        }
        let same_key = crate::text::str_eq(ex.0.as_str(), ey.0.as_str());
        if !same_key || !json_eq(&ex.1, &ey.1) {
            proof {
                if json_members(x.seq()) == json_members(y.seq()) {
                    lemma_json_members_eq(x.seq(), y.seq());
                }
            }
            return false;
        }
        i = i + 1;
    }
    proof {
        lemma_json_members_same(x.seq(), y.seq());
    }
    true
}

} // verus!
