use crate::channel::{
    array_items, channel_doc_view, channel_events, channel_tag, entries_events, items_events, name_key, no_attrs,
    make_value, no_props, props_events, property_tag, read_channel, read_channel_document,
    read_props, scan_attrs, typed_value, int_text, lemma_int_text_parse,
    type_key, type_text, typed_attrs, value_events, value_key, value_text, values_events,
    version_key, with_prop, AttrTextV, AttrVal, Attrs, Channel, ChannelDocV, ErrV, OutV,
    PropsRead, XmlAttribute, XmlEvent,
};
use crate::json::lemma_sorted_drop_first;
use crate::ordmap::{has_key, lemma_sorted_distinct, sorted_keys, OrdMap};
use crate::panel::{decimal, lemma_parse_decimal_text};
use crate::xfconf::{
    lemma_values_view, tv_view, TV,
    lemma_value_members, props_seq, props_view, value_members, value_view, values_view, Properties,
    TypedValue, Value, VV,
};
use vstd::prelude::*;

verus! {

/// An event as a reader gives it for what a writer wrote: the declaration, a start tag with its
/// attributes, or an end tag; an empty tag is read as a start tag and an end tag.
pub enum InV {
    Decl,
    Start(Seq<u8>, Seq<(Seq<u8>, AttrTextV)>),
    End(Seq<u8>),
}

pub open spec fn read_back(o: OutV) -> Seq<InV> {
    match o {
        OutV::Decl => seq![InV::Decl],
        OutV::Empty { name, attributes } => seq![InV::Start(name, attributes), InV::End(name)],
        OutV::Start { name, attributes } => seq![InV::Start(name, attributes)],
        OutV::End { name } => seq![InV::End(name)],
    }
}

/// The events a reader gives for written events, in order.
pub open spec fn read_back_all(s: Seq<OutV>) -> Seq<InV>
    decreases s.len(),
{
    if s.len() == 0 {
        Seq::empty()
    } else {
        read_back(s[0]) + read_back_all(s.drop_first())
    }
}

/// A read attribute is the written one: same key, and its text decoded back, or, for a double,
/// read as the same bits.
pub open spec fn attr_is(a: Result<XmlAttribute, String>, w: (Seq<u8>, AttrTextV)) -> bool {
    match a {
        Err(_) => false,
        Ok(x) => x.key@ == w.0 && match w.1 {
            AttrTextV::Text(t) => match x.value {
                Ok(v) => v@ == t,
                Err(_) => false,
            },
            AttrTextV::Double(d) => x.value is Ok && x.double == Some(d),
        },
    }
}

pub open spec fn xml_version() -> Seq<u8> {
    seq![49u8, 46, 48]
}

pub open spec fn utf8_name() -> Seq<u8> {
    seq![85u8, 84, 70, 45, 56]
}

/// A read event is the one that `i` describes.
pub open spec fn event_is(e: XmlEvent, i: InV) -> bool {
    match (e, i) {
        (XmlEvent::Decl { version, encoding, .. }, InV::Decl) => match (version, encoding) {
            (Ok(v), Some(Ok(enc))) => v@ == xml_version() && enc@ == utf8_name(),
            _ => false,
        },
        (XmlEvent::Start { name: n, attributes }, InV::Start(name, attrs)) => {
            &&& n@ == name
            &&& attributes@.len() == attrs.len()
            &&& forall|j: int| 0 <= j < attrs.len() ==> attr_is(attributes@[j], #[trigger] attrs[j])
        },
        (XmlEvent::End { name: n }, InV::End(name)) => n@ == name,
        _ => false,
    }
}

/// The events from `pos` on are those that `ins` describes.
pub open spec fn events_are(evs: Seq<XmlEvent>, pos: int, ins: Seq<InV>) -> bool {
    &&& 0 <= pos
    &&& pos + ins.len() <= evs.len()
    &&& forall|j: int| 0 <= j < ins.len() ==> event_is(evs[pos + j], #[trigger] ins[j])
}

/// Every property map of a value holds the map's invariant.
pub open spec fn value_wf(v: Value) -> bool
    decreases v,
{
    tv_wf(v.value) && props_wf(v.props)
}

pub open spec fn tv_wf(t: TypedValue) -> bool
    decreases t,
{
    match t {
        TypedValue::Array(a) => values_wf(a@),
        _ => true,
    }
}

pub open spec fn values_wf(s: Seq<Value>) -> bool
    decreases s,
{
    s.len() == 0 || (value_wf(s[0]) && values_wf(s.drop_first()))
}

pub open spec fn props_wf(p: Properties) -> bool
    decreases p,
{
    match p {
        Properties::Empty => true,
        Properties::Entries(m) => {
            proof {
                m.lemma_seq_decreases();
            }
            m.inv() && entries_wf(m.seq())
        },
    }
}

pub open spec fn entries_wf(s: Seq<(String, Value)>) -> bool
    decreases s,
{
    s.len() == 0 || (value_wf(s[0].1) && entries_wf(s.drop_first()))
}

/// The number of values in a value, its items and its properties, counted with their own.
pub open spec fn value_size(v: Value) -> nat
    decreases v,
{
    1 + tv_size(v.value) + props_size(v.props)
}

pub open spec fn tv_size(t: TypedValue) -> nat
    decreases t,
{
    match t {
        TypedValue::Array(a) => values_size(a@),
        _ => 0,
    }
}

pub open spec fn values_size(s: Seq<Value>) -> nat
    decreases s,
{
    if s.len() == 0 {
        0
    } else {
        value_size(s[0]) + values_size(s.drop_first())
    }
}

pub open spec fn props_size(p: Properties) -> nat
    decreases p,
{
    match p {
        Properties::Empty => 0,
        Properties::Entries(m) => {
            proof {
                m.lemma_seq_decreases();
            }
            entries_size(m.seq())
        },
    }
}

pub open spec fn entries_size(s: Seq<(String, Value)>) -> nat
    decreases s,
{
    if s.len() == 0 {
        0
    } else {
        value_size(s[0].1) + entries_size(s.drop_first())
    }
}

/// `props` with each entry of `s` put in, in order.
pub open spec fn with_entries(props: spec_fn(Seq<char>) -> Option<VV>, s: Seq<(String, Value)>) -> spec_fn(
    Seq<char>,
) -> Option<VV>
    decreases s.len(),
{
    if s.len() == 0 {
        props
    } else {
        with_entries(with_prop(props, s[0].0@, value_view(s[0].1)), s.drop_first())
    }
}

/// The value attribute as read fits the typed value it was written for.
pub open spec fn value_attr_fits(a: Option<AttrVal>, t: TypedValue) -> bool {
    match value_text(t) {
        None => a is None,
        Some(AttrTextV::Text(s)) => match a {
            Some(x) => x.0 == s,
            None => false,
        },
        Some(AttrTextV::Double(d)) => match a {
            Some(x) => x.1 == Some(d),
            None => false,
        },
    }
}

/// The attributes written for a property (with its name) or an array item.
pub open spec fn written_attrs(with_name: bool, name: Seq<char>, t: TypedValue) -> Seq<(Seq<u8>, AttrTextV)> {
    if with_name {
        seq![(name_key(), AttrTextV::Text(name))] + typed_attrs(t)
    } else {
        typed_attrs(t)
    }
}

proof fn lemma_read_back_all_append(a: Seq<OutV>, b: Seq<OutV>)
    ensures
        read_back_all(a + b) == read_back_all(a) + read_back_all(b),
    decreases a.len(),
{
    if a.len() == 0 {
        assert(a + b =~= b);
        assert(read_back_all(a) + read_back_all(b) =~= read_back_all(b));
    } else {
        assert((a + b).drop_first() =~= a.drop_first() + b);
        lemma_read_back_all_append(a.drop_first(), b);
        assert(read_back_all(a + b) =~= read_back(a[0]) + (read_back_all(a.drop_first()) + read_back_all(b)));
    }
}

proof fn lemma_read_back_one(o: OutV)
    ensures
        read_back_all(seq![o]) == read_back(o),
{
    let s = seq![o];
    assert(s.drop_first() =~= Seq::<OutV>::empty());
    assert(read_back_all(s.drop_first()) == Seq::<InV>::empty());
    assert(read_back_all(s) =~= read_back(o));
}

proof fn lemma_events_are_split(evs: Seq<XmlEvent>, pos: int, a: Seq<InV>, b: Seq<InV>)
    requires
        events_are(evs, pos, a + b),
    ensures
        events_are(evs, pos, a),
        events_are(evs, pos + a.len(), b),
{
    assert forall|j: int| 0 <= j < a.len() implies event_is(evs[pos + j], #[trigger] a[j]) by {
        assert((a + b)[j] == a[j]);
    }
    assert forall|j: int| 0 <= j < b.len() implies event_is(evs[pos + a.len() + j], #[trigger] b[j]) by {
        assert((a + b)[a.len() + j] == b[j]);
        assert(pos + (a.len() + j) == pos + a.len() + j);
    }
}

/// What a reader gives for a written value: its start tag, what it gives for the value's items
/// and properties, and its end tag.
proof fn lemma_value_events_read_back(v: Value, tag: Seq<u8>, attrs: Seq<(Seq<u8>, AttrTextV)>)
    ensures
        read_back_all(value_events(v, tag, attrs)) == seq![InV::Start(tag, attrs + typed_attrs(v.value))]
            + read_back_all(items_events(v.value) + props_events(v.props)) + seq![InV::End(tag)],
{
    let all = attrs + typed_attrs(v.value);
    let inner = items_events(v.value) + props_events(v.props);
    if props_seq(v.props).len() == 0 && array_items(v.value).len() == 0 {
        assert(items_events(v.value) =~= Seq::<OutV>::empty()) by {
            match v.value {
                TypedValue::Array(a) => {
                    assert(a@.len() == 0);
                },
                _ => {},
            }
        }
        assert(props_events(v.props) =~= Seq::<OutV>::empty()) by {
            match v.props {
                Properties::Entries(m) => {
                    assert(m.seq().len() == 0);
                },
                Properties::Empty => {},
            }
        }
        assert(inner =~= Seq::<OutV>::empty());
        let e = seq![OutV::Empty { name: tag, attributes: all }];
        assert(value_events(v, tag, attrs) == e);
        lemma_read_back_one(OutV::Empty { name: tag, attributes: all });
        assert(read_back_all(Seq::<OutV>::empty()) == Seq::<InV>::empty());
        assert(read_back_all(e) =~= seq![InV::Start(tag, all), InV::End(tag)]);
        assert(read_back_all(value_events(v, tag, attrs)) =~= seq![InV::Start(tag, all)]
            + read_back_all(inner) + seq![InV::End(tag)]);
    } else {
        let st = seq![OutV::Start { name: tag, attributes: all }];
        let en = seq![OutV::End { name: tag }];
        assert(value_events(v, tag, attrs) =~= st + inner + en);
        lemma_read_back_all_append(st + inner, en);
        lemma_read_back_all_append(st, inner);
        lemma_read_back_one(OutV::Start { name: tag, attributes: all });
        lemma_read_back_one(OutV::End { name: tag });
    }
}

proof fn lemma_keys_differ()
    ensures
        name_key() != type_key(),
        name_key() != value_key(),
        type_key() != value_key(),
        name_key() != version_key(),
        property_tag() != value_key(),
{
    assert(name_key()[0] != type_key()[0]);
    assert(name_key().len() != value_key().len());
    assert(type_key().len() != value_key().len());
    assert(name_key().len() != version_key().len());
    assert(property_tag().len() != value_key().len());
}

/// Reading the type and value attributes written for `t`, after `acc`.
proof fn lemma_scan_typed(
    attrs: Seq<Result<XmlAttribute, String>>,
    with_name: bool,
    t: TypedValue,
    acc: Attrs,
)
    requires
        acc.value is None,
        attrs.len() == typed_attrs(t).len(),
        forall|j: int| 0 <= j < attrs.len() ==> attr_is(attrs[j], #[trigger] typed_attrs(t)[j]),
    ensures
        ({
            let r = scan_attrs(attrs, with_name, type_key(), true, acc);
            &&& r is Ok
            &&& r->Ok_0.name == acc.name
            &&& r->Ok_0.kind == Some(type_text(t))
            &&& value_attr_fits(r->Ok_0.value, t)
        }),
{
    lemma_keys_differ();
    let w = typed_attrs(t);
    assert(w[0] == (type_key(), AttrTextV::Text(type_text(t))));
    assert(attr_is(attrs[0], w[0]));
    let x = attrs[0]->Ok_0;
    let acc1 = Attrs { kind: Some(type_text(t)), ..acc };
    let rest = attrs.drop_first();
    assert(scan_attrs(attrs, with_name, type_key(), true, acc) == scan_attrs(
        rest,
        with_name,
        type_key(),
        true,
        acc1,
    ));
    match value_text(t) {
        None => {
            assert(w.len() == 1);
            assert(scan_attrs(rest, with_name, type_key(), true, acc1) == Ok::<Attrs, ErrV>(acc1));
        },
        Some(vt) => {
            assert(w.len() == 2);
            assert(w[1] == (value_key(), vt));
            assert(attr_is(attrs[1], w[1]));
            assert(rest[0] == attrs[1]);
            let y = attrs[1]->Ok_0;
            let acc2 = Attrs { value: Some((y.value->Ok_0@, y.double)), ..acc1 };
            assert(scan_attrs(rest, with_name, type_key(), true, acc1) == scan_attrs(
                rest.drop_first(),
                with_name,
                type_key(),
                true,
                acc2,
            ));
            assert(rest.drop_first().len() == 0);
            assert(scan_attrs(rest.drop_first(), with_name, type_key(), true, acc2) == Ok::<Attrs, ErrV>(acc2));
        },
    }
}

/// Reading the attributes written for a property (with its name) or an array item.
proof fn lemma_scan_written(
    attrs: Seq<Result<XmlAttribute, String>>,
    with_name: bool,
    name: Seq<char>,
    t: TypedValue,
)
    requires
        attrs.len() == written_attrs(with_name, name, t).len(),
        forall|j: int|
            0 <= j < attrs.len() ==> attr_is(attrs[j], #[trigger] written_attrs(with_name, name, t)[j]),
    ensures
        ({
            let r = scan_attrs(attrs, with_name, type_key(), true, no_attrs());
            &&& r is Ok
            &&& r->Ok_0.name == (if with_name {
                Some(name)
            } else {
                None::<Seq<char>>
            })
            &&& r->Ok_0.kind == Some(type_text(t))
            &&& value_attr_fits(r->Ok_0.value, t)
        }),
{
    lemma_keys_differ();
    let w = written_attrs(with_name, name, t);
    if with_name {
        assert(w[0] == (name_key(), AttrTextV::Text(name)));
        assert(attr_is(attrs[0], w[0]));
        let acc1 = Attrs { name: Some(name), ..no_attrs() };
        let rest = attrs.drop_first();
        assert(scan_attrs(attrs, with_name, type_key(), true, no_attrs()) == scan_attrs(
            rest,
            with_name,
            type_key(),
            true,
            acc1,
        ));
        assert forall|j: int| 0 <= j < rest.len() implies attr_is(rest[j], #[trigger] typed_attrs(t)[j]) by {
            assert(rest[j] == attrs[j + 1]);
            assert(w[j + 1] == typed_attrs(t)[j]);
        }
        lemma_scan_typed(rest, with_name, t, acc1);
    } else {
        assert(w == typed_attrs(t));
        lemma_scan_typed(attrs, with_name, t, no_attrs());
    }
}

/// Entries with increasing keys, put in in order, add their values to what `props` has.
proof fn lemma_with_entries(props: spec_fn(Seq<char>) -> Option<VV>, s: Seq<(String, Value)>)
    requires
        sorted_keys(s),
    ensures
        with_entries(props, s) == (|k: Seq<char>|
            if value_members(s)(k) is Some {
                value_members(s)(k)
            } else {
                props(k)
            }),
    decreases s.len(),
{
    let goal = |k: Seq<char>|
        if value_members(s)(k) is Some {
            value_members(s)(k)
        } else {
            props(k)
        };
    if s.len() == 0 {
        assert(with_entries(props, s) =~= goal);
    } else {
        let k0 = s[0].0@;
        let t = s.drop_first();
        let p1 = with_prop(props, k0, value_view(s[0].1));
        lemma_sorted_drop_first(s);
        lemma_with_entries(p1, t);
        lemma_value_members(t);
        assert(!has_key(t, k0)) by {
            if has_key(t, k0) {
                let j = choose|j: int| 0 <= j < t.len() && #[trigger] t[j].0@ == k0;
                assert(t[j] == s[j + 1]);
                lemma_sorted_distinct(s, 0, j + 1);
            }
        }
        assert forall|k: Seq<char>| #[trigger] with_entries(props, s)(k) == goal(k) by {
            if k == k0 {
                assert(value_members(t)(k0) is None);
            }
        }
        assert(with_entries(props, s) =~= goal);
    }
}

/// The properties read from the entries of a property map are the map's properties.
proof fn lemma_read_props_view(p: Properties)
    requires
        props_wf(p),
    ensures
        with_entries(no_props(), props_seq(p)) == props_view(p),
{
    match p {
        Properties::Empty => {
            assert(with_entries(no_props(), props_seq(p)) =~= props_view(p));
        },
        Properties::Entries(m) => {
            m.lemma_inv();
            lemma_with_entries(no_props(), m.seq());
            assert(with_entries(no_props(), m.seq()) =~= value_members(m.seq()));
        },
    }
}

/// The typed value read from the type and value attributes written for `t` is `t`'s.
proof fn lemma_typed_value_read(t: TypedValue, a: Option<AttrVal>)
    requires
        value_attr_fits(a, t),
    ensures
        typed_value(type_text(t), a, values_view(array_items(t))) == Ok::<TV, ErrV>(tv_view(t)),
{
    let k = type_text(t);
    assert(seq!['b', 'o', 'o', 'l'] != seq!['u', 'i', 'n', 't']) by {
        assert(seq!['b', 'o', 'o', 'l'][0] != seq!['u', 'i', 'n', 't'][0]);
    }
    assert(seq!['d', 'o', 'u', 'b', 'l', 'e'] != seq!['s', 't', 'r', 'i', 'n', 'g']) by {
        assert(seq!['d', 'o', 'u', 'b', 'l', 'e'][0] != seq!['s', 't', 'r', 'i', 'n', 'g'][0]);
    }
    assert(seq!['a', 'r', 'r', 'a', 'y'] != seq!['e', 'm', 'p', 't', 'y']) by {
        assert(seq!['a', 'r', 'r', 'a', 'y'][0] != seq!['e', 'm', 'p', 't', 'y'][0]);
    }
    assert(seq!['t', 'r', 'u', 'e'] != seq!['f', 'a', 'l', 's', 'e']);
    match t {
        TypedValue::Int(n) => {
            lemma_int_text_parse(n);
        },
        TypedValue::Uint(n) => {
            lemma_parse_decimal_text(n as nat);
        },
        _ => {},
    }
}

/// Reading the events written for the items and properties of `v`, then its end tag, from
/// `pos` gives `v`, given the type and value attributes written for it.
proof fn lemma_make_value_read(
    evs: Seq<XmlEvent>,
    pos: int,
    parent: Seq<u8>,
    tag: Seq<u8>,
    v: Value,
    a: Attrs,
)
    requires
        value_wf(v),
        a.kind == Some(type_text(v.value)),
        value_attr_fits(a.value, v.value),
        events_are(
            evs,
            pos,
            read_back_all(items_events(v.value) + props_events(v.props)) + seq![InV::End(tag)],
        ),
    ensures
        make_value(evs, pos, parent, tag, a.kind, a.value) == Ok::<(VV, int), ErrV>(
            (value_view(v), pos + read_back_all(items_events(v.value) + props_events(v.props)).len() + 1),
        ),
    decreases value_size(v), 0nat,
{
    let items = array_items(v.value);
    let entries = props_seq(v.props);
    assert(items_events(v.value) == values_events(items)) by {
        match v.value {
            TypedValue::Array(x) => {},
            _ => {
                assert(values_events(items) =~= Seq::<OutV>::empty());
            },
        }
    }
    assert(props_events(v.props) == crate::channel::entries_events(entries)) by {
        match v.props {
            Properties::Entries(m) => {},
            Properties::Empty => {
                assert(crate::channel::entries_events(entries) =~= Seq::<OutV>::empty());
            },
        }
    }
    assert(values_wf(items) && tv_size(v.value) == values_size(items)) by {
        match v.value {
            TypedValue::Array(x) => {},
            _ => {},
        }
    }
    assert(entries_wf(entries) && sorted_keys(entries) && props_size(v.props) == entries_size(entries)) by {
        match v.props {
            Properties::Entries(m) => {
                m.lemma_inv();
            },
            Properties::Empty => {},
        }
    }
    let inner = read_back_all(items_events(v.value) + props_events(v.props));
    lemma_read_body(evs, pos, tag, Seq::empty(), no_props(), items, entries);
    lemma_typed_value_read(v.value, a.value);
    lemma_read_props_view(v.props);
    lemma_values_view(items);
    assert(Seq::<VV>::empty() + values_view(items) =~= values_view(items));
    let k = type_text(v.value);
    if k != seq!['a', 'r', 'r', 'a', 'y'] {
        match v.value {
            TypedValue::Array(x) => {},
            _ => {
                assert(items.len() == 0);
            },
        }
    }
}

/// Reading the events written for array items and properties, then the end tag of `parent`,
/// from `pos` adds the items to `vacc` and the properties to `pacc`.
proof fn lemma_read_body(
    evs: Seq<XmlEvent>,
    pos: int,
    parent: Seq<u8>,
    vacc: Seq<VV>,
    pacc: spec_fn(Seq<char>) -> Option<VV>,
    items: Seq<Value>,
    entries: Seq<(String, Value)>,
)
    requires
        values_wf(items),
        entries_wf(entries),
        sorted_keys(entries),
        forall|i: int| 0 <= i < entries.len() ==> pacc(#[trigger] entries[i].0@) is None,
        events_are(
            evs,
            pos,
            read_back_all(values_events(items) + crate::channel::entries_events(entries)) + seq![
                InV::End(parent),
            ],
        ),
    ensures
        read_props(evs, pos, parent, vacc, pacc) == Ok::<PropsRead, ErrV>(
            PropsRead {
                values: vacc + values_view(items),
                props: with_entries(pacc, entries),
                next: pos + read_back_all(values_events(items) + crate::channel::entries_events(entries)).len()
                    + 1,
            },
        ),
    decreases values_size(items) + entries_size(entries), 1nat,
{
    lemma_keys_differ();
    let body = read_back_all(values_events(items) + crate::channel::entries_events(entries));
    if items.len() > 0 {
        let x = items[0];
        let rest = items.drop_first();
        let xe = value_events(x, value_key(), Seq::empty());
        let re = values_events(rest) + crate::channel::entries_events(entries);
        assert(values_events(items) + crate::channel::entries_events(entries) =~= xe + re);
        lemma_read_back_all_append(xe, re);
        lemma_value_events_read_back(x, value_key(), Seq::empty());
        let inner = read_back_all(items_events(x.value) + props_events(x.props));
        let attrs = Seq::<(Seq<u8>, AttrTextV)>::empty() + typed_attrs(x.value);
        let xr = read_back_all(xe);
        let rr = read_back_all(re);
        assert(xr == seq![InV::Start(value_key(), attrs)] + inner + seq![InV::End(value_key())]);
        assert(body + seq![InV::End(parent)] =~= seq![InV::Start(value_key(), attrs)] + (inner + seq![
            InV::End(value_key()),
        ]) + (rr + seq![InV::End(parent)]));
        lemma_events_are_split(
            evs,
            pos,
            seq![InV::Start(value_key(), attrs)] + (inner + seq![InV::End(value_key())]),
            rr + seq![InV::End(parent)],
        );
        lemma_events_are_split(evs, pos, seq![InV::Start(value_key(), attrs)], inner + seq![InV::End(value_key())]);
        assert(event_is(evs[pos], InV::Start(value_key(), attrs))) by {
            assert(seq![InV::Start(value_key(), attrs)][0] == InV::Start(value_key(), attrs));
        }
        let e = evs[pos];
        let attributes = e->Start_attributes;
        assert(attrs =~= written_attrs(false, Seq::empty(), x.value));
        lemma_scan_written(attributes@, false, Seq::empty(), x.value);
        let a = scan_attrs(attributes@, false, type_key(), true, crate::channel::no_attrs())->Ok_0;
        assert(value_wf(x) && values_wf(rest));
        assert(value_size(x) + values_size(rest) == values_size(items));
        lemma_make_value_read(evs, pos + 1, parent, value_key(), x, a);
        let next = pos + 1 + inner.len() + 1;
        assert(xr.len() == inner.len() + 2);
        lemma_read_body(evs, next, parent, vacc.push(value_view(x)), pacc, rest, entries);
        lemma_values_view(items);
        lemma_values_view(rest);
        assert(vacc.push(value_view(x)) + values_view(rest) =~= vacc + values_view(items));
        assert(body.len() == xr.len() + rr.len());
    } else if entries.len() > 0 {
        let key = entries[0].0@;
        let x = entries[0].1;
        let rest = entries.drop_first();
        let named = seq![(name_key(), AttrTextV::Text(key))];
        let xe = value_events(x, property_tag(), named);
        let re = crate::channel::entries_events(rest);
        assert(values_events(items) =~= Seq::<OutV>::empty());
        assert(values_events(items) + crate::channel::entries_events(entries) =~= xe + re);
        lemma_read_back_all_append(xe, re);
        lemma_value_events_read_back(x, property_tag(), named);
        let inner = read_back_all(items_events(x.value) + props_events(x.props));
        let attrs = named + typed_attrs(x.value);
        let xr = read_back_all(xe);
        let rr = read_back_all(re);
        assert(body + seq![InV::End(parent)] =~= seq![InV::Start(property_tag(), attrs)] + (inner + seq![
            InV::End(property_tag()),
        ]) + (rr + seq![InV::End(parent)]));
        lemma_events_are_split(
            evs,
            pos,
            seq![InV::Start(property_tag(), attrs)] + (inner + seq![InV::End(property_tag())]),
            rr + seq![InV::End(parent)],
        );
        lemma_events_are_split(
            evs,
            pos,
            seq![InV::Start(property_tag(), attrs)],
            inner + seq![InV::End(property_tag())],
        );
        assert(event_is(evs[pos], InV::Start(property_tag(), attrs))) by {
            assert(seq![InV::Start(property_tag(), attrs)][0] == InV::Start(property_tag(), attrs));
        }
        let e = evs[pos];
        let attributes = e->Start_attributes;
        assert(attrs =~= written_attrs(true, key, x.value));
        lemma_scan_written(attributes@, true, key, x.value);
        let a = scan_attrs(attributes@, true, type_key(), true, crate::channel::no_attrs())->Ok_0;
        lemma_sorted_drop_first(entries);
        assert(value_wf(x) && entries_wf(rest));
        assert(value_size(x) + entries_size(rest) == entries_size(entries));
        lemma_make_value_read(evs, pos + 1, parent, property_tag(), x, a);
        let next = pos + 1 + inner.len() + 1;
        let p1 = with_prop(pacc, key, value_view(x));
        assert(pacc(entries[0].0@) is None);
        assert forall|i: int| 0 <= i < rest.len() implies p1(#[trigger] rest[i].0@) is None by {
            assert(rest[i] == entries[i + 1]);
            lemma_sorted_distinct(entries, 0, i + 1);
            assert(pacc(entries[i + 1].0@) is None);
        }
        lemma_read_body(evs, next, parent, vacc, p1, items, rest);
        assert(values_events(items) + re =~= re);
        assert(body.len() == xr.len() + rr.len());
    } else {
        assert(values_events(items) + crate::channel::entries_events(entries) =~= Seq::<OutV>::empty());
        assert(read_back_all(Seq::<OutV>::empty()) == Seq::<InV>::empty());
        assert(body + seq![InV::End(parent)] =~= seq![InV::End(parent)]);
        assert(event_is(evs[pos], InV::End(parent))) by {
            assert(seq![InV::End(parent)][0] == InV::End(parent));
        }
        lemma_values_view(items);
        assert(vacc + values_view(items) =~= vacc);
    }
}

/// A written channel document reads back as the channel: where the events a reader gives are
/// those that the writer's events read as (each attribute's text decoded back, a double's text
/// parsed back to the same bits, an empty tag as a start and an end tag), reading them gives the
/// channel's name, version and properties.
pub proof fn lemma_read_written_channel(evs: Seq<XmlEvent>, c: Channel)
    requires
        props_wf(c.props),
        events_are(evs, 0, read_back_all(channel_events(c))),
    ensures
        read_channel_document(evs) == Ok::<ChannelDocV, ErrV>(channel_doc_view(c)),
{
    lemma_keys_differ();
    let attrs = seq![
        (name_key(), AttrTextV::Text(c.name@)),
        (version_key(), AttrTextV::Text(c.version@)),
    ];
    let entries = props_seq(c.props);
    let inner = read_back_all(props_events(c.props));
    let expected = seq![InV::Decl, InV::Start(channel_tag(), attrs)] + inner + seq![InV::End(channel_tag())];
    let d = seq![OutV::Decl];
    lemma_read_back_one(OutV::Decl);
    if entries.len() == 0 {
        let em = seq![OutV::Empty { name: channel_tag(), attributes: attrs }];
        assert(channel_events(c) == d + em);
        lemma_read_back_all_append(d, em);
        lemma_read_back_one(OutV::Empty { name: channel_tag(), attributes: attrs });
        assert(props_events(c.props) =~= Seq::<OutV>::empty()) by {
            match c.props {
                Properties::Entries(m) => {
                    assert(m.seq().len() == 0);
                },
                Properties::Empty => {},
            }
        }
        assert(read_back_all(Seq::<OutV>::empty()) == Seq::<InV>::empty());
        assert(read_back_all(channel_events(c)) =~= expected);
    } else {
        let st = seq![OutV::Start { name: channel_tag(), attributes: attrs }];
        let en = seq![OutV::End { name: channel_tag() }];
        let pe = props_events(c.props);
        assert(channel_events(c) =~= d + st + pe + en);
        lemma_read_back_all_append(d + st + pe, en);
        lemma_read_back_all_append(d + st, pe);
        lemma_read_back_all_append(d, st);
        lemma_read_back_one(OutV::Start { name: channel_tag(), attributes: attrs });
        lemma_read_back_one(OutV::End { name: channel_tag() });
        assert(read_back_all(channel_events(c)) =~= expected);
    }
    assert(expected =~= seq![InV::Decl] + (seq![InV::Start(channel_tag(), attrs)] + (inner + seq![
        InV::End(channel_tag()),
    ])));
    lemma_events_are_split(evs, 0, seq![InV::Decl], seq![InV::Start(channel_tag(), attrs)] + (inner + seq![
        InV::End(channel_tag()),
    ]));
    lemma_events_are_split(evs, 1, seq![InV::Start(channel_tag(), attrs)], inner + seq![InV::End(channel_tag())]);
    assert(event_is(evs[0], InV::Decl)) by {
        assert(seq![InV::Decl][0] == InV::Decl);
    }
    assert(event_is(evs[1], InV::Start(channel_tag(), attrs))) by {
        assert(seq![InV::Start(channel_tag(), attrs)][0] == InV::Start(channel_tag(), attrs));
    }
    let attributes = evs[1]->Start_attributes@;
    assert(attr_is(attributes[0], attrs[0]));
    assert(attr_is(attributes[1], attrs[1]));
    let acc1 = Attrs { name: Some(c.name@), ..no_attrs() };
    let acc2 = Attrs { kind: Some(c.version@), ..acc1 };
    assert(attributes.drop_first()[0] == attributes[1]);
    assert(attributes.drop_first().drop_first().len() == 0);
    assert(scan_attrs(attributes.drop_first().drop_first(), true, version_key(), false, acc2) == Ok::<
        Attrs,
        ErrV,
    >(acc2));
    assert(scan_attrs(attributes.drop_first(), true, version_key(), false, acc1) == scan_attrs(
        attributes.drop_first().drop_first(),
        true,
        version_key(),
        false,
        acc2,
    ));
    assert(scan_attrs(attributes, true, version_key(), false, no_attrs()) == scan_attrs(
        attributes.drop_first(),
        true,
        version_key(),
        false,
        acc1,
    ));
    let items = Seq::<Value>::empty();
    assert(values_events(items) =~= Seq::<OutV>::empty());
    assert(values_events(items) + crate::channel::entries_events(entries) =~= props_events(c.props)) by {
        match c.props {
            Properties::Entries(m) => {},
            Properties::Empty => {
                assert(crate::channel::entries_events(entries) =~= Seq::<OutV>::empty());
            },
        }
    }
    assert(entries_wf(entries) && sorted_keys(entries)) by {
        match c.props {
            Properties::Entries(m) => {
                m.lemma_inv();
            },
            Properties::Empty => {},
        }
    }
    assert(values_wf(items));
    lemma_read_body(evs, 2, channel_tag(), Seq::empty(), no_props(), items, entries);
    lemma_read_props_view(c.props);
    lemma_values_view(items);
    assert(Seq::<VV>::empty() + values_view(items) =~= Seq::<VV>::empty());
}

} // verus!
