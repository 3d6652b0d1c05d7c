use crate::ordmap::OrdMap;
use crate::patch::{simple_diff, SimplePatch};
use crate::serde::{Id, IdMap};
use crate::panel::{decimal, decimal_text, lemma_decimal_digits, lemma_parse_decimal_text, parse_decimal, parse_i32, parse_i32_text, parse_u32};
use crate::text::str_eq;
use crate::vector::vector_items;
use crate::xfconf::{
    channel_diff, channel_owner, chpatch_is_empty, cps_view, panel_channel, parts_view, ppatch_view,
    prop_string, ApplyPath, ChPatchV, ChannelV, ClearPath, ClearPathPart, ClearPathProps, ClearPathV,
    DiffPath, PropertiesCtx, PropertiesPatch, TypedValuePatch, ValuePatch,
    lemma_value_members_map, lemma_values_view, lift_values, props_seq, props_view, tv_view, value_view, values_view,
    Properties, TypedValue, Value, TV, VV,
};
use vstd::prelude::*;

verus! {

/// An attribute of a start tag: its key, its decoded value (or the decoder's message), and the
/// value read as a double, by its bits, if it is one.
pub struct XmlAttribute {
    pub key: Vec<u8>,
    pub value: Result<String, String>,
    pub double: Option<u64>,
}

/// An event of an XML reader; a reader's failure is the last event it gives.
pub enum XmlEvent {
    Decl { version: Result<Vec<u8>, String>, encoding: Option<Result<Vec<u8>, String>>, description: String },
    Start { name: Vec<u8>, attributes: Vec<Result<XmlAttribute, String>> },
    End { name: Vec<u8> },
    Other { description: String },
    Failure { message: String },
}

/// Why a channel document was refused.
pub enum ChannelXmlError {
    Xml(String),
    EndOfEvents,
    ExpectedDecl(String),
    UnexpectedVersion(Vec<u8>),
    MissingEncoding,
    UnexpectedEncoding(Vec<u8>),
    ExpectedTagStart(String),
    ExpectedChannelTag,
    UnexpectedAttribute(Vec<u8>),
    MissingName,
    MissingVersion,
    MissingType,
    MissingValue,
    BadBool,
    BadInt,
    BadUint,
    BadDouble,
    UnexpectedValueType(String),
    UnexpectedValueTags(Vec<u8>),
    DuplicateProperty(String),
    UnexpectedTag(Vec<u8>),
    ExpectedEnd(Vec<u8>),
    UnexpectedEvent(String),
}

/// What a refusal denotes.
pub enum ErrV {
    Xml(Seq<char>),
    EndOfEvents,
    ExpectedDecl(Seq<char>),
    UnexpectedVersion(Seq<u8>),
    MissingEncoding,
    UnexpectedEncoding(Seq<u8>),
    ExpectedTagStart(Seq<char>),
    ExpectedChannelTag,
    UnexpectedAttribute(Seq<u8>),
    MissingName,
    MissingVersion,
    MissingType,
    MissingValue,
    BadBool,
    BadInt,
    BadUint,
    BadDouble,
    UnexpectedValueType(Seq<char>),
    UnexpectedValueTags(Seq<u8>),
    DuplicateProperty(Seq<char>),
    UnexpectedTag(Seq<u8>),
    ExpectedEnd(Seq<u8>),
    UnexpectedEvent(Seq<char>),
}

pub open spec fn err_view(e: ChannelXmlError) -> ErrV {
    match e {
        ChannelXmlError::Xml(m) => ErrV::Xml(m@),
        ChannelXmlError::EndOfEvents => ErrV::EndOfEvents,
        ChannelXmlError::ExpectedDecl(m) => ErrV::ExpectedDecl(m@),
        ChannelXmlError::UnexpectedVersion(v) => ErrV::UnexpectedVersion(v@),
        ChannelXmlError::MissingEncoding => ErrV::MissingEncoding,
        ChannelXmlError::UnexpectedEncoding(v) => ErrV::UnexpectedEncoding(v@),
        ChannelXmlError::ExpectedTagStart(m) => ErrV::ExpectedTagStart(m@),
        ChannelXmlError::ExpectedChannelTag => ErrV::ExpectedChannelTag,
        ChannelXmlError::UnexpectedAttribute(k) => ErrV::UnexpectedAttribute(k@),
        ChannelXmlError::MissingName => ErrV::MissingName,
        ChannelXmlError::MissingVersion => ErrV::MissingVersion,
        ChannelXmlError::MissingType => ErrV::MissingType,
        ChannelXmlError::MissingValue => ErrV::MissingValue,
        ChannelXmlError::BadBool => ErrV::BadBool,
        ChannelXmlError::BadInt => ErrV::BadInt,
        ChannelXmlError::BadUint => ErrV::BadUint,
        ChannelXmlError::BadDouble => ErrV::BadDouble,
        ChannelXmlError::UnexpectedValueType(t) => ErrV::UnexpectedValueType(t@),
        ChannelXmlError::UnexpectedValueTags(t) => ErrV::UnexpectedValueTags(t@),
        ChannelXmlError::DuplicateProperty(n) => ErrV::DuplicateProperty(n@),
        ChannelXmlError::UnexpectedTag(t) => ErrV::UnexpectedTag(t@),
        ChannelXmlError::ExpectedEnd(t) => ErrV::ExpectedEnd(t@),
        ChannelXmlError::UnexpectedEvent(m) => ErrV::UnexpectedEvent(m@),
    }
}

/// An attribute's decoded value and its double, if it is one.
pub type AttrVal = (Seq<char>, Option<u64>);

/// The attributes found on a tag, by slot: the name, the type (or the version of a channel), and
/// the value.
pub struct Attrs {
    pub name: Option<Seq<char>>,
    pub kind: Option<Seq<char>>,
    pub value: Option<AttrVal>,
}

pub open spec fn no_attrs() -> Attrs {
    Attrs { name: None, kind: None, value: None }
}

pub open spec fn name_key() -> Seq<u8> {
    seq![110u8, 97, 109, 101]
}

pub open spec fn type_key() -> Seq<u8> {
    seq![116u8, 121, 112, 101]
}

pub open spec fn value_key() -> Seq<u8> {
    seq![118u8, 97, 108, 117, 101]
}

pub open spec fn version_key() -> Seq<u8> {
    seq![118u8, 101, 114, 115, 105, 111, 110]
}

pub open spec fn channel_tag() -> Seq<u8> {
    seq![99u8, 104, 97, 110, 110, 101, 108]
}

pub open spec fn property_tag() -> Seq<u8> {
    seq![112u8, 114, 111, 112, 101, 114, 116, 121]
}

/// Reads the attributes of a tag in order: a failed one stops with the reader's message, and a
/// key that is not the name key (where `with_name`), the kind key `kb` or the value key (where
/// `with_value`) stops as unexpected. A later attribute of a key replaces an earlier one.
pub open spec fn scan_attrs(
    attrs: Seq<Result<XmlAttribute, String>>,
    with_name: bool,
    kb: Seq<u8>,
    with_value: bool,
    acc: Attrs,
) -> Result<Attrs, ErrV>
    decreases attrs.len(),
{
    if attrs.len() == 0 {
        Ok(acc)
    } else {
        match attrs[0] {
            Err(m) => Err(ErrV::Xml(m@)),
            Ok(a) => if with_name && a.key@ == name_key() {
                match a.value {
                    Err(m) => Err(ErrV::Xml(m@)),
                    Ok(v) => scan_attrs(
                        attrs.drop_first(),
                        with_name,
                        kb,
                        with_value,
                        Attrs { name: Some(v@), ..acc },
                    ),
                }
            } else if a.key@ == kb {
                match a.value {
                    Err(m) => Err(ErrV::Xml(m@)),
                    Ok(v) => scan_attrs(
                        attrs.drop_first(),
                        with_name,
                        kb,
                        with_value,
                        Attrs { kind: Some(v@), ..acc },
                    ),
                }
            } else if with_value && a.key@ == value_key() {
                match a.value {
                    Err(m) => Err(ErrV::Xml(m@)),
                    Ok(v) => scan_attrs(
                        attrs.drop_first(),
                        with_name,
                        kb,
                        with_value,
                        Attrs { value: Some((v@, a.double)), ..acc },
                    ),
                }
            } else {
                Err(ErrV::UnexpectedAttribute(a.key@))
            },
        }
    }
}

/// How an error message names an event that was not the one expected.
pub open spec fn event_description(e: XmlEvent) -> Seq<char> {
    match e {
        XmlEvent::Decl { description, .. } => description@,
        XmlEvent::Start { .. } => seq!['S', 't', 'a', 'r', 't'],
        XmlEvent::End { .. } => seq!['E', 'n', 'd'],
        XmlEvent::Other { description } => description@,
        XmlEvent::Failure { message } => message@,
    }
}

/// The props and values read up to a closing tag, and the position after it.
pub struct PropsRead {
    pub values: Seq<VV>,
    pub props: spec_fn(Seq<char>) -> Option<VV>,
    pub next: int,
}

/// No properties.
pub open spec fn no_props() -> spec_fn(Seq<char>) -> Option<VV> {
    |k: Seq<char>| None
}

/// The properties `props` with `v` at the name `n`.
pub open spec fn with_prop(
    props: spec_fn(Seq<char>) -> Option<VV>,
    n: Seq<char>,
    v: VV,
) -> spec_fn(Seq<char>) -> Option<VV> {
    |k: Seq<char>|
        if k == n {
            Some(v)
        } else {
            props(k)
        }
}

/// Reads the property and value tags from `pos` up to the end tag of `parent`.
pub open spec fn read_props(
    evs: Seq<XmlEvent>,
    pos: int,
    parent: Seq<u8>,
    values: Seq<VV>,
    props: spec_fn(Seq<char>) -> Option<VV>,
) -> Result<PropsRead, ErrV>
    decreases evs.len() - pos, 0nat,
{
    if pos < 0 || pos >= evs.len() {
        Err(ErrV::EndOfEvents)
    } else {
        match evs[pos] {
            XmlEvent::Start { name, attributes } => if name@ == property_tag() {
                match scan_attrs(attributes@, true, type_key(), true, no_attrs()) {
                    Err(e) => Err(e),
                    Ok(a) => match a.name {
                        None => Err(ErrV::MissingName),
                        Some(n) => match make_value(evs, pos + 1, parent, property_tag(), a.kind, a.value) {
                            Err(e) => Err(e),
                            Ok((v, next)) => if props(n) is Some {
                                Err(ErrV::DuplicateProperty(n))
                            } else if next <= pos || next > evs.len() {
                                Err(ErrV::EndOfEvents)
                            } else {
                                read_props(evs, next, parent, values, with_prop(props, n, v))
                            },
                        },
                    },
                }
            } else if name@ == value_key() {
                match scan_attrs(attributes@, false, type_key(), true, no_attrs()) {
                    Err(e) => Err(e),
                    Ok(a) => match make_value(evs, pos + 1, parent, value_key(), a.kind, a.value) {
                        Err(e) => Err(e),
                        Ok((v, next)) => if next <= pos || next > evs.len() {
                            Err(ErrV::EndOfEvents)
                        } else {
                            read_props(evs, next, parent, values.push(v), props)
                        },
                    },
                }
            } else {
                Err(ErrV::UnexpectedTag(name@))
            },
            XmlEvent::End { name } => if name@ == parent {
                Ok(PropsRead { values, props, next: pos + 1 })
            } else {
                Err(ErrV::ExpectedEnd(parent))
            },
            XmlEvent::Failure { message } => Err(ErrV::Xml(message@)),
            e => Err(ErrV::UnexpectedEvent(event_description(e))),
        }
    }
}

/// The typed value that a type name and value attribute denote, taking `values` for an array.
pub open spec fn typed_value(kind: Seq<char>, value: Option<AttrVal>, values: Seq<VV>) -> Result<TV, ErrV> {
    if kind == seq!['b', 'o', 'o', 'l'] {
        match value {
            None => Err(ErrV::MissingValue),
            Some(v) => if v.0 == seq!['t', 'r', 'u', 'e'] {
                Ok(TV::Bool(true))
            } else if v.0 == seq!['f', 'a', 'l', 's', 'e'] {
                Ok(TV::Bool(false))
            } else {
                Err(ErrV::BadBool)
            },
        }
    } else if kind == seq!['i', 'n', 't'] {
        match value {
            None => Err(ErrV::MissingValue),
            Some(v) => match parse_i32_text(v.0) {
                Some(n) => Ok(TV::Int(n)),
                None => Err(ErrV::BadInt),
            },
        }
    } else if kind == seq!['u', 'i', 'n', 't'] {
        match value {
            None => Err(ErrV::MissingValue),
            Some(v) => match parse_decimal(v.0) {
                Some(n) => if n <= u32::MAX {
                    Ok(TV::Uint(n as u32))
                } else {
                    Err(ErrV::BadUint)
                },
                None => Err(ErrV::BadUint),
            },
        }
    } else if kind == seq!['d', 'o', 'u', 'b', 'l', 'e'] {
        match value {
            None => Err(ErrV::MissingValue),
            Some(v) => match v.1 {
                Some(d) => Ok(TV::Double(d)),
                None => Err(ErrV::BadDouble),
            },
        }
    } else if kind == seq!['s', 't', 'r', 'i', 'n', 'g'] {
        match value {
            None => Err(ErrV::MissingValue),
            Some(v) => Ok(TV::String(v.0)),
        }
    } else if kind == seq!['a', 'r', 'r', 'a', 'y'] {
        Ok(TV::Array(values))
    } else if kind == seq!['e', 'm', 'p', 't', 'y'] {
        Ok(TV::Empty)
    } else {
        Err(ErrV::UnexpectedValueType(kind))
    }
}

/// Reads a property's or value's sub-tags from `pos`, then makes its value of the given type;
/// value tags are allowed only in an array.
pub open spec fn make_value(
    evs: Seq<XmlEvent>,
    pos: int,
    parent: Seq<u8>,
    for_tag: Seq<u8>,
    kind: Option<Seq<char>>,
    value: Option<AttrVal>,
) -> Result<(VV, int), ErrV>
    decreases evs.len() - pos, 1nat,
{
    if pos < 0 || pos > evs.len() {
        Err(ErrV::EndOfEvents)
    } else {
        match read_props(evs, pos, for_tag, Seq::empty(), no_props()) {
            Err(e) => Err(e),
            Ok(sub) => match kind {
                None => Err(ErrV::MissingType),
                Some(k) => match typed_value(k, value, sub.values) {
                    Err(e) => Err(e),
                    Ok(t) => if k != seq!['a', 'r', 'r', 'a', 'y'] && sub.values.len() > 0 {
                        Err(ErrV::UnexpectedValueTags(parent))
                    } else {
                        Ok((VV { value: t, props: sub.props }, sub.next))
                    },
                },
            },
        }
    }
}

/// What a channel document denotes: its name, its version, and its properties.
pub struct ChannelDocV {
    pub name: Seq<char>,
    pub version: Seq<char>,
    pub props: spec_fn(Seq<char>) -> Option<VV>,
}

/// Reads the channel tag at `pos` and its properties.
pub open spec fn read_channel(evs: Seq<XmlEvent>, pos: int) -> Result<ChannelDocV, ErrV> {
    if pos < 0 || pos >= evs.len() {
        Err(ErrV::EndOfEvents)
    } else {
        match evs[pos] {
            XmlEvent::Start { name, attributes } => if name@ != channel_tag() {
                Err(ErrV::ExpectedChannelTag)
            } else {
                match scan_attrs(attributes@, true, version_key(), false, no_attrs()) {
                    Err(e) => Err(e),
                    Ok(a) => match (a.name, a.kind) {
                        (None, _) => Err(ErrV::MissingName),
                        (Some(_), None) => Err(ErrV::MissingVersion),
                        (Some(n), Some(v)) => match read_props(evs, pos + 1, channel_tag(), Seq::empty(), no_props()) {
                            Err(e) => Err(e),
                            Ok(r) => if r.values.len() > 0 {
                                Err(ErrV::UnexpectedValueTags(channel_tag()))
                            } else {
                                Ok(ChannelDocV { name: n, version: v, props: r.props })
                            },
                        },
                    },
                }
            },
            XmlEvent::Failure { message } => Err(ErrV::Xml(message@)),
            e => Err(ErrV::ExpectedTagStart(event_description(e))),
        }
    }
}

/// What the events of a channel document denote: an XML declaration of version 1.0 in UTF-8,
/// then the channel.
pub open spec fn read_channel_document(evs: Seq<XmlEvent>) -> Result<ChannelDocV, ErrV> {
    if evs.len() == 0 {
        Err(ErrV::EndOfEvents)
    } else {
        match evs[0] {
            XmlEvent::Decl { version, encoding, description } => match version {
                Err(m) => Err(ErrV::Xml(m@)),
                Ok(v) => if v@ != seq![49u8, 46, 48] {
                    Err(ErrV::UnexpectedVersion(v@))
                } else {
                    match encoding {
                        None => Err(ErrV::MissingEncoding),
                        Some(Err(m)) => Err(ErrV::Xml(m@)),
                        Some(Ok(e)) => if e@ != seq![85u8, 84, 70, 45, 56] {
                            Err(ErrV::UnexpectedEncoding(e@))
                        } else {
                            read_channel(evs, 1)
                        },
                    }
                },
            },
            XmlEvent::Failure { message } => Err(ErrV::Xml(message@)),
            e => Err(ErrV::ExpectedDecl(event_description(e))),
        }
    }
}

/// The attributes found on a tag, as read.
pub struct TagAttrs {
    pub name: Option<String>,
    pub kind: Option<String>,
    pub value: Option<(String, Option<u64>)>,
}

pub open spec fn opt_text(o: Option<String>) -> Option<Seq<char>> {
    match o {
        Some(s) => Some(s@),
        None => None,
    }
}

pub open spec fn opt_attr_val(o: Option<(String, Option<u64>)>) -> Option<AttrVal> {
    match o {
        Some((s, d)) => Some((s@, d)),
        None => None,
    }
}

pub open spec fn tag_attrs_view(a: TagAttrs) -> Attrs {
    Attrs { name: opt_text(a.name), kind: opt_text(a.kind), value: opt_attr_val(a.value) }
}

/// Whether two byte strings are equal.
fn bytes_eq(a: &Vec<u8>, b: &Vec<u8>) -> (r: bool)
    ensures
        r == (a@ == b@),
{
    if a.len() != b.len() {
        return false;
    }
    let mut i: usize = 0;
    while i < a.len()
        invariant
            i <= a.len(),
            a.len() == b.len(),
            forall|j: int| 0 <= j < i ==> a@[j] == b@[j],
        decreases a.len() - i,
    {
        if a[i] != b[i] {
            return false;
        }
        i += 1;
    }
    proof {
        assert(a@ =~= b@);
    }
    true
}

/// A copy of a byte string.
fn bytes_copy(a: &Vec<u8>) -> (r: Vec<u8>)
    ensures
        r@ == a@,
{
    let mut r: Vec<u8> = Vec::new();
    let mut i: usize = 0;
    while i < a.len()
        invariant
            i <= a.len(),
            r@ == a@.take(i as int),
        decreases a.len() - i,
    {
        r.push(a[i]);
        i += 1;
        proof {
            assert(r@ =~= a@.take(i as int));
        }
    }
    proof {
        assert(a@.take(a.len() as int) =~= a@);
    }
    r
}

fn name_key_bytes() -> (r: Vec<u8>)
    ensures
        r@ == name_key(),
{
    let r: Vec<u8> = vec![110u8, 97, 109, 101];
    proof {
        assert(r@ =~= name_key());
    }
    r
}

fn type_key_bytes() -> (r: Vec<u8>)
    ensures
        r@ == type_key(),
{
    let r: Vec<u8> = vec![116u8, 121, 112, 101];
    proof {
        assert(r@ =~= type_key());
    }
    r
}

fn value_key_bytes() -> (r: Vec<u8>)
    ensures
        r@ == value_key(),
{
    let r: Vec<u8> = vec![118u8, 97, 108, 117, 101];
    proof {
        assert(r@ =~= value_key());
    }
    r
}

fn version_key_bytes() -> (r: Vec<u8>)
    ensures
        r@ == version_key(),
{
    let r: Vec<u8> = vec![118u8, 101, 114, 115, 105, 111, 110];
    proof {
        assert(r@ =~= version_key());
    }
    r
}

fn channel_tag_bytes() -> (r: Vec<u8>)
    ensures
        r@ == channel_tag(),
{
    let r: Vec<u8> = vec![99u8, 104, 97, 110, 110, 101, 108];
    proof {
        assert(r@ =~= channel_tag());
    }
    r
}

fn property_tag_bytes() -> (r: Vec<u8>)
    ensures
        r@ == property_tag(),
{
    let r: Vec<u8> = vec![112u8, 114, 111, 112, 101, 114, 116, 121];
    proof {
        assert(r@ =~= property_tag());
    }
    r
}

/// Reads the attributes of a tag, as `scan_attrs` says.
pub fn scan_attributes(
    attrs: &Vec<Result<XmlAttribute, String>>,
    with_name: bool,
    kb: &Vec<u8>,
    with_value: bool,
) -> (r: Result<TagAttrs, ChannelXmlError>)
    ensures
        match r {
            Ok(a) => scan_attrs(attrs@, with_name, kb@, with_value, no_attrs()) == Ok::<Attrs, ErrV>(
                tag_attrs_view(a),
            ),
            Err(e) => scan_attrs(attrs@, with_name, kb@, with_value, no_attrs()) == Err::<
                Attrs,
                ErrV,
            >(err_view(e)),
        },
{
    let name_k = name_key_bytes();
    let value_k = value_key_bytes();
    let mut acc = TagAttrs { name: None, kind: None, value: None };
    let mut i: usize = 0;
    proof {
        assert(attrs@.skip(0) =~= attrs@);
        assert(tag_attrs_view(acc) == no_attrs());
    }
    while i < attrs.len()
        invariant
            i <= attrs.len(),
            name_k@ == name_key(),
            value_k@ == value_key(),
            scan_attrs(attrs@, with_name, kb@, with_value, no_attrs()) == scan_attrs(
                attrs@.skip(i as int),
                with_name,
                kb@,
                with_value,
                tag_attrs_view(acc),
            ),
        decreases attrs.len() - i,
    {
        proof {
            assert(attrs@.skip(i as int).drop_first() =~= attrs@.skip(i + 1));
            assert(attrs@.skip(i as int)[0] == attrs@[i as int]);
        }
        match &attrs[i] {
            Err(m) => {
                return Err(ChannelXmlError::Xml(m.clone()));
            },
            Ok(a) => {
                if with_name && bytes_eq(&a.key, &name_k) {
                    match &a.value {
                        Err(m) => {
                            return Err(ChannelXmlError::Xml(m.clone()));
                        },
                        Ok(v) => {
                            acc.name = Some(v.clone());
                        },
                    }
                } else if bytes_eq(&a.key, kb) {
                    match &a.value {
                        Err(m) => {
                            return Err(ChannelXmlError::Xml(m.clone()));
                        },
                        Ok(v) => {
                            acc.kind = Some(v.clone());
                        },
                    }
                } else if with_value && bytes_eq(&a.key, &value_k) {
                    match &a.value {
                        Err(m) => {
                            return Err(ChannelXmlError::Xml(m.clone()));
                        },
                        Ok(v) => {
                            acc.value = Some((v.clone(), a.double));
                        },
                    }
                } else {
                    return Err(ChannelXmlError::UnexpectedAttribute(bytes_copy(&a.key)));
                }
            },
        }
        i += 1;
    }
    proof {
        assert(attrs@.skip(i as int).len() == 0);
    }
    Ok(acc)
}

/// The typed value that a type name and value attribute denote, as `typed_value` says.
pub fn typed_value_of(
    kind: &String,
    value: Option<(String, Option<u64>)>,
    values: Vec<Value>,
) -> (r: Result<TypedValue, ChannelXmlError>)
    ensures
        match r {
            Ok(t) => typed_value(kind@, opt_attr_val(value), values_view(values@)) == Ok::<TV, ErrV>(
                tv_view(t),
            ),
            Err(e) => typed_value(kind@, opt_attr_val(value), values_view(values@)) == Err::<
                TV,
                ErrV,
            >(err_view(e)),
        },
{
    proof {
        reveal_strlit("bool");
        reveal_strlit("int");
        reveal_strlit("uint");
        reveal_strlit("double");
        reveal_strlit("string");
        reveal_strlit("array");
        reveal_strlit("empty");
        reveal_strlit("true");
        reveal_strlit("false");
        assert("bool"@ == seq!['b', 'o', 'o', 'l']);
        assert("array"@ == seq!['a', 'r', 'r', 'a', 'y']);
        assert("true"@ == seq!['t', 'r', 'u', 'e']);
        assert("uint"@ == seq!['u', 'i', 'n', 't']);
        assert("int"@ == seq!['i', 'n', 't']);
        assert("double"@ == seq!['d', 'o', 'u', 'b', 'l', 'e']);
        assert("string"@ == seq!['s', 't', 'r', 'i', 'n', 'g']);
        assert("empty"@ == seq!['e', 'm', 'p', 't', 'y']);
        assert("false"@ == seq!['f', 'a', 'l', 's', 'e']);
    }
    let k = kind.as_str();
    if str_eq(k, "bool") {
        match value {
            None => Err(ChannelXmlError::MissingValue),
            Some((v, _)) => if str_eq(v.as_str(), "true") {
                Ok(TypedValue::Bool(true))
            } else if str_eq(v.as_str(), "false") {
                Ok(TypedValue::Bool(false))
            } else {
                Err(ChannelXmlError::BadBool)
            },
        }
    } else if str_eq(k, "int") {
        match value {
            None => Err(ChannelXmlError::MissingValue),
            Some((v, _)) => match parse_i32(v.as_str()) {
                Some(n) => Ok(TypedValue::Int(n)),
                None => Err(ChannelXmlError::BadInt),
            },
        }
    } else if str_eq(k, "uint") {
        match value {
            None => Err(ChannelXmlError::MissingValue),
            Some((v, _)) => match parse_u32(v.as_str()) {
                Some(n) => Ok(TypedValue::Uint(n)),
                None => Err(ChannelXmlError::BadUint),
            },
        }
    } else if str_eq(k, "double") {
        match value {
            None => Err(ChannelXmlError::MissingValue),
            Some((_, d)) => match d {
                Some(bits) => Ok(TypedValue::Double(bits)),
                None => Err(ChannelXmlError::BadDouble),
            },
        }
    } else if str_eq(k, "string") {
        match value {
            None => Err(ChannelXmlError::MissingValue),
            Some((v, _)) => Ok(TypedValue::String(v)),
        }
    } else if str_eq(k, "array") {
        Ok(TypedValue::Array(values))
    } else if str_eq(k, "empty") {
        Ok(TypedValue::Empty)
    } else {
        Err(ChannelXmlError::UnexpectedValueType(kind.clone()))
    }
}

proof fn lemma_values_view_push(s: Seq<Value>, v: Value)
    ensures
        values_view(s.push(v)) == values_view(s).push(value_view(v)),
{
    lemma_values_view(s);
    lemma_values_view(s.push(v));
    assert(values_view(s.push(v)) =~= values_view(s).push(value_view(v)));
}

proof fn lemma_lift_values_insert(m: Map<Seq<char>, Value>, n: Seq<char>, v: Value)
    ensures
        lift_values(m.insert(n, v)) == with_prop(lift_values(m), n, value_view(v)),
{
    let f = with_prop(lift_values(m), n, value_view(v));
    assert forall|k: Seq<char>| #[trigger] lift_values(m.insert(n, v))(k) == f(k) by {}
    assert(lift_values(m.insert(n, v)) =~= f);
}

/// Reads the property and value tags from `pos` up to the end tag of `parent`, as `read_props`
/// says: the values in order, the properties, and the position after the end tag.
pub fn read_props_from(
    evs: &Vec<XmlEvent>,
    pos: usize,
    parent: &Vec<u8>,
) -> (r: Result<(Vec<Value>, Properties, usize), ChannelXmlError>)
    requires
        pos <= evs@.len(),
    ensures
        match r {
            Ok((vals, props, next)) => read_props(evs@, pos as int, parent@, Seq::empty(), no_props())
                == Ok::<PropsRead, ErrV>(
                PropsRead { values: values_view(vals@), props: props_view(props), next: next as int },
            ),
            Err(e) => read_props(evs@, pos as int, parent@, Seq::empty(), no_props()) == Err::<
                PropsRead,
                ErrV,
            >(err_view(e)),
        },
    decreases evs@.len() - pos, 0nat,
{
    let ghost start = read_props(evs@, pos as int, parent@, Seq::empty(), no_props());
    let prop_tag = property_tag_bytes();
    let value_tag = value_key_bytes();
    let type_k = type_key_bytes();
    let mut values: Vec<Value> = Vec::new();
    let mut props: OrdMap<String, Value> = OrdMap::new();
    let mut i: usize = pos;
    proof {
        assert(values_view(values@) =~= Seq::<VV>::empty());
        assert(lift_values(props@) =~= no_props());
    }
    loop
        invariant
            pos <= i <= evs@.len(),
            prop_tag@ == property_tag(),
            value_tag@ == value_key(),
            type_k@ == type_key(),
            start == read_props(evs@, pos as int, parent@, Seq::empty(), no_props()),
            start == read_props(evs@, i as int, parent@, values_view(values@), lift_values(props@)),
        decreases evs@.len() - i,
    {
        if i >= evs.len() {
            return Err(ChannelXmlError::EndOfEvents);
        }
        match &evs[i] {
            XmlEvent::Start { name, attributes } => {
                if bytes_eq(name, &prop_tag) {
                    let a = match scan_attributes(attributes, true, &type_k, true) {
                        Ok(a) => a,
                        Err(e) => {
                            return Err(e);
                        },
                    };
                    let TagAttrs { name: n, kind, value } = a;
                    let n = match n {
                        Some(n) => n,
                        None => {
                            return Err(ChannelXmlError::MissingName);
                        },
                    };
                    let (v, next) = match make_value_at(evs, i + 1, parent, &prop_tag, kind, value) {
                        Ok(t) => t,
                        Err(e) => {
                            return Err(e);
                        },
                    };
                    if props.contains_key(&n) {
                        return Err(ChannelXmlError::DuplicateProperty(n));
                    }
                    if next <= i || next > evs.len() {
                        return Err(ChannelXmlError::EndOfEvents);
                    }
                    proof {
                        lemma_lift_values_insert(props@, n@, v);
                    }
                    props.insert(n, v);
                    i = next;
                } else if bytes_eq(name, &value_tag) {
                    let a = match scan_attributes(attributes, false, &type_k, true) {
                        Ok(a) => a,
                        Err(e) => {
                            return Err(e);
                        },
                    };
                    let TagAttrs { name: _, kind, value } = a;
                    let (v, next) = match make_value_at(evs, i + 1, parent, &value_tag, kind, value) {
                        Ok(t) => t,
                        Err(e) => {
                            return Err(e);
                        },
                    };
                    if next <= i || next > evs.len() {
                        return Err(ChannelXmlError::EndOfEvents);
                    }
                    proof {
                        lemma_values_view_push(values@, v);
                    }
                    values.push(v);
                    i = next;
                } else {
                    return Err(ChannelXmlError::UnexpectedTag(bytes_copy(name)));
                }
            },
            XmlEvent::End { name } => {
                if bytes_eq(name, parent) {
                    proof {
                        use_type_invariant(&props);
                        lemma_value_members_map(props);
                    }
                    return Ok((values, Properties::Entries(props), i + 1));
                } else {
                    return Err(ChannelXmlError::ExpectedEnd(bytes_copy(parent)));
                }
            },
            XmlEvent::Failure { message } => {
                return Err(ChannelXmlError::Xml(message.clone()));
            },
            XmlEvent::Decl { description, .. } => {
                return Err(ChannelXmlError::UnexpectedEvent(description.clone()));
            },
            XmlEvent::Other { description } => {
                return Err(ChannelXmlError::UnexpectedEvent(description.clone()));
            },
        }
    }
}

/// Reads a property's or value's sub-tags from `pos`, then makes its value, as `make_value`
/// says.
pub fn make_value_at(
    evs: &Vec<XmlEvent>,
    pos: usize,
    parent: &Vec<u8>,
    for_tag: &Vec<u8>,
    kind: Option<String>,
    value: Option<(String, Option<u64>)>,
) -> (r: Result<(Value, usize), ChannelXmlError>)
    requires
        pos <= evs@.len(),
    ensures
        match r {
            Ok((v, next)) => make_value(evs@, pos as int, parent@, for_tag@, opt_text(kind), opt_attr_val(value))
                == Ok::<(VV, int), ErrV>((value_view(v), next as int)),
            Err(e) => make_value(evs@, pos as int, parent@, for_tag@, opt_text(kind), opt_attr_val(value))
                == Err::<(VV, int), ErrV>(err_view(e)),
        },
    decreases evs@.len() - pos, 1nat,
{
    let (sub_values, sub_props, next) = match read_props_from(evs, pos, for_tag) {
        Ok(t) => t,
        Err(e) => {
            return Err(e);
        },
    };
    let k = match kind {
        Some(k) => k,
        None => {
            return Err(ChannelXmlError::MissingType);
        },
    };
    let n_sub = sub_values.len();
    proof {
        lemma_values_view(sub_values@);
        reveal_strlit("array");
        assert("array"@ == seq!['a', 'r', 'r', 'a', 'y']);
    }
    let t = match typed_value_of(&k, value, sub_values) {
        Ok(t) => t,
        Err(e) => {
            return Err(e);
        },
    };
    if !str_eq(k.as_str(), "array") && n_sub > 0 {
        return Err(ChannelXmlError::UnexpectedValueTags(bytes_copy(parent)));
    }
    Ok((Value { value: t, props: sub_props }, next))
}

/// A channel as its XML document holds it: its name, its version, and its properties.
pub struct Channel {
    pub name: String,
    pub version: String,
    pub props: Properties,
}

pub open spec fn channel_doc_view(c: Channel) -> ChannelDocV {
    ChannelDocV { name: c.name@, version: c.version@, props: props_view(c.props) }
}

/// Reads the channel tag at `pos` and its properties, as `read_channel` says.
fn read_channel_at(evs: &Vec<XmlEvent>, pos: usize) -> (r: Result<Channel, ChannelXmlError>)
    requires
        pos <= evs@.len(),
    ensures
        match r {
            Ok(c) => read_channel(evs@, pos as int) == Ok::<ChannelDocV, ErrV>(channel_doc_view(c)),
            Err(e) => read_channel(evs@, pos as int) == Err::<ChannelDocV, ErrV>(err_view(e)),
        },
{
    if pos >= evs.len() {
        return Err(ChannelXmlError::EndOfEvents);
    }
    match &evs[pos] {
        XmlEvent::Start { name, attributes } => {
            let channel_t = channel_tag_bytes();
            if !bytes_eq(name, &channel_t) {
                return Err(ChannelXmlError::ExpectedChannelTag);
            }
            let version_k = version_key_bytes();
            let a = match scan_attributes(attributes, true, &version_k, false) {
                Ok(a) => a,
                Err(e) => {
                    return Err(e);
                },
            };
            let TagAttrs { name: n, kind: v, value: _ } = a;
            let n = match n {
                Some(n) => n,
                None => {
                    return Err(ChannelXmlError::MissingName);
                },
            };
            let v = match v {
                Some(v) => v,
                None => {
                    return Err(ChannelXmlError::MissingVersion);
                },
            };
            let (values, props, _) = match read_props_from(evs, pos + 1, &channel_t) {
                Ok(t) => t,
                Err(e) => {
                    return Err(e);
                },
            };
            proof {
                lemma_values_view(values@);
            }
            if values.len() > 0 {
                return Err(ChannelXmlError::UnexpectedValueTags(channel_t));
            }
            Ok(Channel { name: n, version: v, props })
        },
        XmlEvent::Failure { message } => Err(ChannelXmlError::Xml(message.clone())),
        XmlEvent::Decl { description, .. } => Err(ChannelXmlError::ExpectedTagStart(description.clone())),
        XmlEvent::End { .. } => {
            proof {
                reveal_strlit("End");
                assert("End"@ == seq!['E', 'n', 'd']);
            }
            Err(ChannelXmlError::ExpectedTagStart("End".to_string()))
        },
        XmlEvent::Other { description } => Err(ChannelXmlError::ExpectedTagStart(description.clone())),
    }
}

fn utf8_name_bytes() -> (r: Vec<u8>)
    ensures
        r@ == seq![85u8, 84, 70, 45, 56],
{
    let r: Vec<u8> = vec![85u8, 84, 70, 45, 56];
    proof {
        assert(r@ =~= seq![85u8, 84, 70, 45, 56]);
    }
    r
}

fn xml_version_bytes() -> (r: Vec<u8>)
    ensures
        r@ == seq![49u8, 46, 48],
{
    let r: Vec<u8> = vec![49u8, 46, 48];
    proof {
        assert(r@ =~= seq![49u8, 46, 48]);
    }
    r
}

impl Channel {
    /// Reads a channel from the events of its XML document, as `read_channel_document` says.
    pub fn read_xml(events: &Vec<XmlEvent>) -> (r: Result<Channel, ChannelXmlError>)
        ensures
            match r {
                Ok(c) => read_channel_document(events@) == Ok::<ChannelDocV, ErrV>(channel_doc_view(c)),
                Err(e) => read_channel_document(events@) == Err::<ChannelDocV, ErrV>(err_view(e)),
            },
    {
        if events.len() == 0 {
            return Err(ChannelXmlError::EndOfEvents);
        }
        match &events[0] {
            XmlEvent::Decl { version, encoding, description: _ } => {
                let v = match version {
                    Err(m) => {
                        return Err(ChannelXmlError::Xml(m.clone()));
                    },
                    Ok(v) => v,
                };
                if !bytes_eq(v, &xml_version_bytes()) {
                    return Err(ChannelXmlError::UnexpectedVersion(bytes_copy(v)));
                }
                match encoding {
                    None => Err(ChannelXmlError::MissingEncoding),
                    Some(Err(m)) => Err(ChannelXmlError::Xml(m.clone())),
                    Some(Ok(e)) => if !bytes_eq(e, &utf8_name_bytes()) {
                        Err(ChannelXmlError::UnexpectedEncoding(bytes_copy(e)))
                    } else {
                        read_channel_at(events, 1)
                    },
                }
            },
            XmlEvent::Failure { message } => Err(ChannelXmlError::Xml(message.clone())),
            XmlEvent::Start { .. } => {
                proof {
                    reveal_strlit("Start");
                    assert("Start"@ == seq!['S', 't', 'a', 'r', 't']);
                }
                Err(ChannelXmlError::ExpectedDecl("Start".to_string()))
            },
            XmlEvent::End { .. } => {
                proof {
                    reveal_strlit("End");
                    assert("End"@ == seq!['E', 'n', 'd']);
                }
                Err(ChannelXmlError::ExpectedDecl("End".to_string()))
            },
            XmlEvent::Other { description } => Err(ChannelXmlError::ExpectedDecl(description.clone())),
        }
    }
}

/// An attribute value as written: text, or a double by its bits, which the writer formats.
pub enum AttrText {
    Text(String),
    Double(u64),
}

/// An event of an XML writer; the declaration is that of version 1.0 in UTF-8.
pub enum XmlOut {
    Decl,
    Empty { name: Vec<u8>, attributes: Vec<(Vec<u8>, AttrText)> },
    Start { name: Vec<u8>, attributes: Vec<(Vec<u8>, AttrText)> },
    End { name: Vec<u8> },
}

/// What an attribute value denotes.
pub enum AttrTextV {
    Text(Seq<char>),
    Double(u64),
}

/// What a written event denotes.
pub enum OutV {
    Decl,
    Empty { name: Seq<u8>, attributes: Seq<(Seq<u8>, AttrTextV)> },
    Start { name: Seq<u8>, attributes: Seq<(Seq<u8>, AttrTextV)> },
    End { name: Seq<u8> },
}

pub open spec fn attr_text_view(a: AttrText) -> AttrTextV {
    match a {
        AttrText::Text(s) => AttrTextV::Text(s@),
        AttrText::Double(d) => AttrTextV::Double(d),
    }
}

pub open spec fn attrs_view(s: Seq<(Vec<u8>, AttrText)>) -> Seq<(Seq<u8>, AttrTextV)> {
    s.map_values(|a: (Vec<u8>, AttrText)| (a.0@, attr_text_view(a.1)))
}

pub open spec fn out_view(e: XmlOut) -> OutV {
    match e {
        XmlOut::Decl => OutV::Decl,
        XmlOut::Empty { name, attributes } => OutV::Empty { name: name@, attributes: attrs_view(attributes@) },
        XmlOut::Start { name, attributes } => OutV::Start { name: name@, attributes: attrs_view(attributes@) },
        XmlOut::End { name } => OutV::End { name: name@ },
    }
}

pub open spec fn outs_view(s: Seq<XmlOut>) -> Seq<OutV> {
    s.map_values(|e: XmlOut| out_view(e))
}

/// The name of a value's type.
pub open spec fn type_text(t: TypedValue) -> Seq<char> {
    match t {
        TypedValue::Bool(_) => seq!['b', 'o', 'o', 'l'],
        TypedValue::Int(_) => seq!['i', 'n', 't'],
        TypedValue::Uint(_) => seq!['u', 'i', 'n', 't'],
        TypedValue::Double(_) => seq!['d', 'o', 'u', 'b', 'l', 'e'],
        TypedValue::String(_) => seq!['s', 't', 'r', 'i', 'n', 'g'],
        TypedValue::Array(_) => seq!['a', 'r', 'r', 'a', 'y'],
        TypedValue::Empty => seq!['e', 'm', 'p', 't', 'y'],
    }
}

/// The decimal text of an `i32`, with a minus sign where it is negative.
pub open spec fn int_text(n: i32) -> Seq<char> {
    if n < 0 {
        seq!['-'] + decimal((0 - n) as nat)
    } else {
        decimal(n as nat)
    }
}

/// The value attribute of a typed value; an array and the empty value have none.
pub open spec fn value_text(t: TypedValue) -> Option<AttrTextV> {
    match t {
        TypedValue::Bool(b) => Some(
            AttrTextV::Text(
                if b {
                    seq!['t', 'r', 'u', 'e']
                } else {
                    seq!['f', 'a', 'l', 's', 'e']
                },
            ),
        ),
        TypedValue::Int(n) => Some(AttrTextV::Text(int_text(n))),
        TypedValue::Uint(n) => Some(AttrTextV::Text(decimal(n as nat))),
        TypedValue::Double(d) => Some(AttrTextV::Double(d)),
        TypedValue::String(s) => Some(AttrTextV::Text(s@)),
        TypedValue::Array(_) => None,
        TypedValue::Empty => None,
    }
}

/// The type and value attributes of a typed value.
pub open spec fn typed_attrs(t: TypedValue) -> Seq<(Seq<u8>, AttrTextV)> {
    seq![(type_key(), AttrTextV::Text(type_text(t)))] + match value_text(t) {
        Some(a) => seq![(value_key(), a)],
        None => Seq::empty(),
    }
}

/// The items of an array value; other values have none.
pub open spec fn array_items(t: TypedValue) -> Seq<Value> {
    match t {
        TypedValue::Array(a) => a@,
        _ => Seq::empty(),
    }
}

/// The events that write a value under the tag `tag` with the attributes `attrs` first: one empty
/// tag where it has no items and no properties, else a start tag, its items as value tags, its
/// properties in key order, and an end tag.
pub open spec fn value_events(v: Value, tag: Seq<u8>, attrs: Seq<(Seq<u8>, AttrTextV)>) -> Seq<OutV>
    decreases v,
{
    let all = attrs + typed_attrs(v.value);
    if props_seq(v.props).len() == 0 && array_items(v.value).len() == 0 {
        seq![OutV::Empty { name: tag, attributes: all }]
    } else {
        seq![OutV::Start { name: tag, attributes: all }] + items_events(v.value) + props_events(v.props)
            + seq![OutV::End { name: tag }]
    }
}

pub open spec fn items_events(t: TypedValue) -> Seq<OutV>
    decreases t,
{
    match t {
        TypedValue::Array(a) => values_events(a@),
        _ => Seq::empty(),
    }
}

pub open spec fn values_events(s: Seq<Value>) -> Seq<OutV>
    decreases s,
{
    if s.len() == 0 {
        Seq::empty()
    } else {
        value_events(s[0], value_key(), Seq::empty()) + values_events(s.drop_first())
    }
}

pub open spec fn props_events(p: Properties) -> Seq<OutV>
    decreases p,
{
    match p {
        Properties::Empty => Seq::empty(),
        Properties::Entries(m) => {
            proof {
                m.lemma_seq_decreases();
            }
            entries_events(m.seq())
        },
    }
}

pub open spec fn entries_events(s: Seq<(String, Value)>) -> Seq<OutV>
    decreases s,
{
    if s.len() == 0 {
        Seq::empty()
    } else {
        value_events(s[0].1, property_tag(), seq![(name_key(), AttrTextV::Text(s[0].0@))])
            + entries_events(s.drop_first())
    }
}

/// The events that write a channel document: the declaration, then the channel tag with its name
/// and version, empty where it has no properties.
pub open spec fn channel_events(c: Channel) -> Seq<OutV> {
    let attrs = seq![
        (name_key(), AttrTextV::Text(c.name@)),
        (version_key(), AttrTextV::Text(c.version@)),
    ];
    seq![OutV::Decl] + if props_seq(c.props).len() == 0 {
        seq![OutV::Empty { name: channel_tag(), attributes: attrs }]
    } else {
        seq![OutV::Start { name: channel_tag(), attributes: attrs }] + props_events(c.props) + seq![
            OutV::End { name: channel_tag() },
        ]
    }
}

/// The decimal text of an `i32`.
pub fn int_text_of(n: i32) -> (r: String)
    ensures
        r@ == int_text(n),
{
    if n < 0 {
        let m: i64 = 0i64 - (n as i64);
        let mut r = String::new();
        r.append("-");
        let d = decimal_text(m as u64);
        r.append(d.as_str());
        proof {
            reveal_strlit("-");
            assert("-"@ == seq!['-']);
            assert(r@ =~= int_text(n));
        }
        r
    } else {
        decimal_text(n as u64)
    }
}

fn text_of(s: &str) -> (r: AttrText)
    ensures
        attr_text_view(r) == AttrTextV::Text(s@),
{
    AttrText::Text(s.to_string())
}

/// The type and value attributes of a typed value, as `typed_attrs` says.
pub fn typed_attributes(t: &TypedValue) -> (r: Vec<(Vec<u8>, AttrText)>)
    ensures
        attrs_view(r@) == typed_attrs(*t),
{
    proof {
        reveal_strlit("bool");
        reveal_strlit("int");
        reveal_strlit("uint");
        reveal_strlit("double");
        reveal_strlit("string");
        reveal_strlit("array");
        reveal_strlit("empty");
        reveal_strlit("true");
        reveal_strlit("false");
        assert("bool"@ == seq!['b', 'o', 'o', 'l']);
        assert("int"@ == seq!['i', 'n', 't']);
        assert("uint"@ == seq!['u', 'i', 'n', 't']);
        assert("double"@ == seq!['d', 'o', 'u', 'b', 'l', 'e']);
        assert("string"@ == seq!['s', 't', 'r', 'i', 'n', 'g']);
        assert("array"@ == seq!['a', 'r', 'r', 'a', 'y']);
        assert("empty"@ == seq!['e', 'm', 'p', 't', 'y']);
        assert("true"@ == seq!['t', 'r', 'u', 'e']);
        assert("false"@ == seq!['f', 'a', 'l', 's', 'e']);
    }
    let kind_text = match t {
        TypedValue::Bool(_) => text_of("bool"),
        TypedValue::Int(_) => text_of("int"),
        TypedValue::Uint(_) => text_of("uint"),
        TypedValue::Double(_) => text_of("double"),
        TypedValue::String(_) => text_of("string"),
        TypedValue::Array(_) => text_of("array"),
        TypedValue::Empty => text_of("empty"),
    };
    let mut r: Vec<(Vec<u8>, AttrText)> = Vec::new();
    r.push((type_key_bytes(), kind_text));
    let value: Option<AttrText> = match t {
        TypedValue::Bool(b) => if *b {
            Some(text_of("true"))
        } else {
            Some(text_of("false"))
        },
        TypedValue::Int(n) => Some(AttrText::Text(int_text_of(*n))),
        TypedValue::Uint(n) => Some(AttrText::Text(decimal_text(*n as u64))),
        TypedValue::Double(d) => Some(AttrText::Double(*d)),
        TypedValue::String(s) => Some(AttrText::Text(s.clone())),
        TypedValue::Array(_) => None,
        TypedValue::Empty => None,
    };
    match value {
        Some(a) => {
            r.push((value_key_bytes(), a));
        },
        None => {},
    }
    proof {
        assert(attrs_view(r@) =~= typed_attrs(*t));
    }
    r
}

proof fn lemma_outs_push(s: Seq<XmlOut>, e: XmlOut)
    ensures
        outs_view(s.push(e)) == outs_view(s).push(out_view(e)),
{
    assert(outs_view(s.push(e)) =~= outs_view(s).push(out_view(e)));
}

proof fn lemma_attrs_append(a: Seq<(Vec<u8>, AttrText)>, b: Seq<(Vec<u8>, AttrText)>)
    ensures
        attrs_view(a + b) == attrs_view(a) + attrs_view(b),
{
    assert(attrs_view(a + b) =~= attrs_view(a) + attrs_view(b));
}

/// Appends the events that write `v`, as `value_events` says.
pub fn push_value_events(v: &Value, tag: Vec<u8>, attrs: Vec<(Vec<u8>, AttrText)>, out: &mut Vec<XmlOut>)
    ensures
        outs_view(final(out)@) == outs_view(old(out)@) + value_events(*v, tag@, attrs_view(attrs@)),
    decreases *v, 1nat,
{
    let ghost out0 = outs_view(out@);
    let mut all = attrs;
    let mut typed = typed_attributes(&v.value);
    proof {
        lemma_attrs_append(all@, typed@);
    }
    all.append(&mut typed);
    let n_items: usize = match &v.value {
        TypedValue::Array(a) => a.len(),
        _ => 0,
    };
    let n_props = v.props.len();
    if n_props == 0 && n_items == 0 {
        proof {
            lemma_outs_push(out@, XmlOut::Empty { name: tag, attributes: all });
        }
        out.push(XmlOut::Empty { name: tag, attributes: all });
    } else {
        let end_tag = bytes_copy(&tag);
        proof {
            lemma_outs_push(out@, XmlOut::Start { name: tag, attributes: all });
        }
        out.push(XmlOut::Start { name: tag, attributes: all });
        let ghost out1 = outs_view(out@);
        push_items_events(v, out);
        let ghost out2 = outs_view(out@);
        push_props_events(&v.props, out);
        let ghost out3 = outs_view(out@);
        proof {
            lemma_outs_push(out@, XmlOut::End { name: end_tag });
        }
        out.push(XmlOut::End { name: end_tag });
        proof {
            assert(outs_view(out@) =~= out0 + value_events(*v, tag@, attrs_view(attrs@)));
        }
    }
}

/// Appends the events that write the items of `v`, if it is an array.
fn push_items_events(v: &Value, out: &mut Vec<XmlOut>)
    ensures
        outs_view(final(out)@) == outs_view(old(out)@) + items_events(v.value),
    decreases *v, 0nat,
{
    match &v.value {
        TypedValue::Array(a) => {
            let ghost out0 = outs_view(out@);
            let mut i: usize = 0;
            proof {
                assert(a@.skip(0) =~= a@);
                assert(outs_view(out@) + values_events(a@) =~= out0 + values_events(a@.skip(0)));
            }
            while i < a.len()
                invariant
                    v.value == TypedValue::Array(*a),
                    i <= a.len(),
                    outs_view(out@) + values_events(a@.skip(i as int)) == out0 + values_events(a@),
                decreases a.len() - i,
            {
                proof {
                    assert(decreases_to!(*v => v.value));
                    assert(decreases_to!(v.value => v.value->Array_0));
                    assert(decreases_to!(v.value->Array_0 => v.value->Array_0@));
                    assert(decreases_to!(v.value->Array_0@ => a@[i as int]));
                    assert(a@.skip(i as int).drop_first() =~= a@.skip(i + 1));
                    assert(a@.skip(i as int)[0] == a@[i as int]);
                }
                let ghost before = outs_view(out@);
                push_value_events(&a[i], value_key_bytes(), Vec::new(), out);
                proof {
                    let x = value_events(a@[i as int], value_key(), attrs_view(Seq::empty()));
                    assert(attrs_view(Seq::<(Vec<u8>, AttrText)>::empty()) =~= Seq::empty());
                    assert(outs_view(out@) + values_events(a@.skip(i + 1)) =~= before + (x
                        + values_events(a@.skip(i + 1))));
                }
                i += 1;
            }
            proof {
                assert(a@.skip(i as int).len() == 0);
                assert(outs_view(out@) =~= outs_view(out@) + values_events(a@.skip(i as int)));
            }
        },
        _ => {
            proof {
                assert(outs_view(out@) =~= outs_view(out@) + items_events(v.value));
            }
        },
    }
}

/// Appends the events that write properties, in key order.
fn push_props_events(p: &Properties, out: &mut Vec<XmlOut>)
    ensures
        outs_view(final(out)@) == outs_view(old(out)@) + props_events(*p),
    decreases *p, 0nat,
{
    match p {
        Properties::Entries(m) => {
            let ghost out0 = outs_view(out@);
            let ghost s = m.seq();
            let n = m.len();
            let mut i: usize = 0;
            proof {
                assert(s.skip(0) =~= s);
                assert(outs_view(out@) + entries_events(s) =~= out0 + entries_events(s.skip(0)));
            }
            while i < n
                invariant
                    *p == Properties::Entries(*m),
                    s == m.seq(),
                    n == s.len(),
                    i <= n,
                    outs_view(out@) + entries_events(s.skip(i as int)) == out0 + entries_events(s),
                decreases n - i,
            {
                let e = m.entry_at(i);
                proof {
                    m.lemma_value_decreases(i as int);
                    assert(decreases_to!(*p => p->Entries_0));
                    assert(s.skip(i as int).drop_first() =~= s.skip(i + 1));
                    assert(s.skip(i as int)[0] == s[i as int]);
                }
                let ghost before = outs_view(out@);
                let mut attrs: Vec<(Vec<u8>, AttrText)> = Vec::new();
                attrs.push((name_key_bytes(), AttrText::Text(e.0.clone())));
                proof {
                    assert(attrs_view(attrs@) =~= seq![(name_key(), AttrTextV::Text(s[i as int].0@))]);
                }
                push_value_events(&e.1, property_tag_bytes(), attrs, out);
                proof {
                    let x = value_events(
                        s[i as int].1,
                        property_tag(),
                        seq![(name_key(), AttrTextV::Text(s[i as int].0@))],
                    );
                    assert(outs_view(out@) + entries_events(s.skip(i + 1)) =~= before + (x
                        + entries_events(s.skip(i + 1))));
                }
                i += 1;
            }
            proof {
                assert(s.skip(i as int).len() == 0);
                assert(outs_view(out@) =~= outs_view(out@) + entries_events(s.skip(i as int)));
            }
        },
        Properties::Empty => {
            proof {
                assert(outs_view(out@) =~= outs_view(out@) + props_events(*p));
            }
        },
    }
}

impl Channel {
    /// The events that write this channel's XML document, as `channel_events` says.
    pub fn write_xml(&self) -> (r: Vec<XmlOut>)
        ensures
            outs_view(r@) == channel_events(*self),
    {
        let mut out: Vec<XmlOut> = Vec::new();
        out.push(XmlOut::Decl);
        let mut attrs: Vec<(Vec<u8>, AttrText)> = Vec::new();
        attrs.push((name_key_bytes(), AttrText::Text(self.name.clone())));
        attrs.push((version_key_bytes(), AttrText::Text(self.version.clone())));
        let ghost a = seq![
            (name_key(), AttrTextV::Text(self.name@)),
            (version_key(), AttrTextV::Text(self.version@)),
        ];
        proof {
            assert(attrs_view(attrs@) =~= a);
            assert(outs_view(out@) =~= seq![OutV::Decl]);
        }
        if self.props.len() == 0 {
            out.push(XmlOut::Empty { name: channel_tag_bytes(), attributes: attrs });
            proof {
                assert(outs_view(out@) =~= seq![OutV::Decl, OutV::Empty { name: channel_tag(), attributes: a }]);
                assert(outs_view(out@) =~= channel_events(*self));
            }
        } else {
            out.push(XmlOut::Start { name: channel_tag_bytes(), attributes: attrs });
            proof {
                assert(outs_view(out@) =~= seq![OutV::Decl, OutV::Start { name: channel_tag(), attributes: a }]);
            }
            push_props_events(&self.props, &mut out);
            let ghost mid = outs_view(out@);
            out.push(XmlOut::End { name: channel_tag_bytes() });
            proof {
                assert(outs_view(out@) =~= mid.push(OutV::End { name: channel_tag() }));
                assert(outs_view(out@) =~= channel_events(*self));
            }
        }
        out
    }
}

/// What applies channel changes; it holds no state.
pub struct ChannelsApplier {}

impl ChannelsApplier {
    /// A new applier; making one never fails.
    pub fn new() -> (r: Result<ChannelsApplier, ChannelXmlError>)
        ensures
            r is Ok,
    {
        Ok(ChannelsApplier {})
    }
}

impl Id for Channel {
    type Id = String;

    open spec fn spec_id(&self) -> Seq<char> {
        self.name@
    }

    fn id(&self) -> (r: &String) {
        &self.name
    }
}

/// The channels of channel documents, by name.
pub struct Channels(pub IdMap<Channel>);

/// The clear paths that a diff of channel documents follows: the panel's `panels` and `plugins`
/// properties lose the entries the new documents lack, and so does a plugin whose value (its
/// kind) changes.
pub open spec fn panel_cps() -> Seq<ClearPathV> {
    seq![
        ClearPathV {
            channel: panel_channel(),
            parts: seq![("panels"@, false)],
            value_changed: false,
            prefix: None,
        },
        ClearPathV {
            channel: panel_channel(),
            parts: seq![("plugins"@, false)],
            value_changed: false,
            prefix: None,
        },
        ClearPathV {
            channel: panel_channel(),
            parts: seq![("plugins"@, false), (""@, true)],
            value_changed: true,
            prefix: None,
        },
    ]
}

fn part(prop: &str, prefix: bool) -> (r: ClearPathPart)
    ensures
        r.prop@ == prop@,
        r.prefix == prefix,
{
    ClearPathPart { prop: prop.to_string(), prefix }
}

/// The clear paths that `panel_cps` denotes.
pub fn panel_clear_paths() -> (r: Vec<ClearPath>)
    ensures
        cps_view(r@) == panel_cps(),
{
    let panel = "xfce4-panel";
    let mut r: Vec<ClearPath> = Vec::new();
    let mut parts: Vec<ClearPathPart> = Vec::new();
    parts.push(part("panels", false));
    proof {
        assert(parts_view(parts@) =~= seq![("panels"@, false)]);
    }
    r.push(
        ClearPath {
            channel: panel.to_string(),
            parts,
            props: ClearPathProps { value_changed: false, prefix: None },
        },
    );
    let mut parts: Vec<ClearPathPart> = Vec::new();
    parts.push(part("plugins", false));
    proof {
        assert(parts_view(parts@) =~= seq![("plugins"@, false)]);
    }
    r.push(
        ClearPath {
            channel: panel.to_string(),
            parts,
            props: ClearPathProps { value_changed: false, prefix: None },
        },
    );
    let mut parts: Vec<ClearPathPart> = Vec::new();
    parts.push(part("plugins", false));
    parts.push(part("", true));
    proof {
        assert(parts_view(parts@) =~= seq![("plugins"@, false), (""@, true)]);
    }
    r.push(
        ClearPath {
            channel: panel.to_string(),
            parts,
            props: ClearPathProps { value_changed: true, prefix: None },
        },
    );
    proof {
        assert(cps_view(r@) =~= panel_cps());
    }
    r
}

/// The channel part of a channel document: its name and its properties.
pub open spec fn doc_channel_view(c: Channel) -> ChannelV {
    ChannelV { name: c.name@, props: props_view(c.props) }
}

/// What the change of a channel document denotes: the change of its name and properties, and
/// of its version.
pub struct DocPatchV {
    pub channel: ChPatchV,
    pub version: Option<Seq<char>>,
}

/// The one-way difference of two channel documents, following `panel_cps`.
pub open spec fn doc_diff(old: Channel, new: Channel) -> DocPatchV {
    DocPatchV {
        channel: channel_diff(doc_channel_view(old), doc_channel_view(new), panel_cps()),
        version: simple_diff(old.version@, new.version@),
    }
}

pub open spec fn doc_patch_is_empty(p: DocPatchV) -> bool {
    chpatch_is_empty(p.channel) && p.version is None
}

/// The change of a channel document.
pub struct ChannelPatch {
    pub name: SimplePatch<String>,
    pub version: SimplePatch<String>,
    pub props: PropertiesPatch,
}

pub open spec fn doc_patch_view(p: ChannelPatch) -> DocPatchV {
    DocPatchV {
        channel: ChPatchV { name: p.name.model(), props: ppatch_view(p.props) },
        version: p.version.model(),
    }
}

impl ChannelPatch {
    pub fn diff(old: Channel, new: Channel) -> (r: Self)
        ensures
            doc_patch_view(r) == doc_diff(old, new),
    {
        let ghost ov = channel_owner(doc_channel_view(old));
        let ghost nv = channel_owner(doc_channel_view(new));
        let path = DiffPath::root();
        let ctx = PropertiesCtx::Channel(new.name.clone());
        let clear_paths = panel_clear_paths();
        let Channel { name: old_name, version: old_version, props: old_props } = old;
        let Channel { name: new_name, version: new_version, props: new_props } = new;
        let props = PropertiesPatch::diff(
            old_props,
            new_props,
            &path,
            ctx,
            &clear_paths,
            Ghost(ov),
            Ghost(nv),
        );
        ChannelPatch {
            name: SimplePatch::diff(old_name, new_name),
            version: SimplePatch::diff(old_version, new_version),
            props,
        }
    }

    pub fn is_empty(&self) -> (r: bool)
        ensures
            r == doc_patch_is_empty(doc_patch_view(*self)),
    {
        self.name.is_empty() && self.version.is_empty() && self.props.is_empty()
    }
}

/// The documents of `s`, in order, whose keys `old` lacks.
pub open spec fn added_docs(s: Seq<(String, Channel)>, old: Map<Seq<char>, Channel>) -> Seq<ChannelDocV>
    decreases s.len(),
{
    if s.len() == 0 {
        Seq::empty()
    } else if old.contains_key(s[0].0@) {
        added_docs(s.drop_first(), old)
    } else {
        seq![channel_doc_view(s[0].1)] + added_docs(s.drop_first(), old)
    }
}

/// What the change of channel documents denotes.
pub struct DocsPatchV {
    pub changed: spec_fn(Seq<char>) -> Option<DocPatchV>,
    pub added: Seq<ChannelDocV>,
}

/// The one-way difference of channel documents: documents in both are diffed, new ones added in
/// key order.
pub open spec fn docs_diff(old: Map<Seq<char>, Channel>, new: OrdMap<String, Channel>) -> DocsPatchV {
    DocsPatchV {
        changed: |k: Seq<char>|
            if old.contains_key(k) && new@.contains_key(k) && !doc_patch_is_empty(
                doc_diff(old[k], new@[k]),
            ) {
                Some(doc_diff(old[k], new@[k]))
            } else {
                None
            },
        added: added_docs(new.seq(), old),
    }
}

/// The change of channel documents: patches of kept documents, and added documents in key order.
pub struct ChannelsPatch {
    pub changed: OrdMap<String, ChannelPatch>,
    pub added: Vec<Channel>,
}

pub open spec fn doc_patches_view(m: Map<Seq<char>, ChannelPatch>) -> spec_fn(Seq<char>) -> Option<DocPatchV> {
    |k: Seq<char>|
        if m.contains_key(k) {
            Some(doc_patch_view(m[k]))
        } else {
            None
        }
}

pub open spec fn docs_patch_view(p: ChannelsPatch) -> DocsPatchV {
    DocsPatchV {
        changed: doc_patches_view(p.changed@),
        added: p.added@.map_values(|c: Channel| channel_doc_view(c)),
    }
}

pub open spec fn docs_patch_is_empty(p: DocsPatchV) -> bool {
    (forall|k: Seq<char>| #[trigger] (p.changed)(k) is None) && p.added.len() == 0
}

impl ChannelsPatch {
    /// The change from `old` to `new`: documents in both are diffed, new ones added in key order.
    #[verifier::spinoff_prover]
    pub fn diff(old: Channels, new: Channels) -> (r: Self)
        ensures
            docs_patch_view(r) == docs_diff(old.0.0@, new.0.0),
    {
        let ghost o0 = old.0.0@;
        let ghost n0 = new.0.0;
        let ghost full = docs_diff(o0, n0);
        let ghost ns = n0.seq();
        let mut remaining = old.0.0;
        let mut pending = new.0.0;
        let mut changed: OrdMap<String, ChannelPatch> = OrdMap::new();
        let mut added: Vec<Channel> = Vec::new();
        proof {
            pending.lemma_finite();
            assert(ns.subrange(ns.len() as int, ns.len() as int) =~= Seq::<(String, Channel)>::empty());
            assert(added@.map_values(|c: Channel| channel_doc_view(c)) =~= Seq::<ChannelDocV>::empty());
        }
        while !pending.is_empty()
            invariant
                full == docs_diff(o0, n0),
                ns == n0.seq(),
                pending.seq().len() <= ns.len(),
                pending.seq() == ns.subrange(0, pending.seq().len() as int),
                pending@.submap_of(n0@),
                pending@.dom().finite(),
                remaining@ == o0.remove_keys(n0@.dom() - pending@.dom()),
                forall|k: Seq<char>|
                    #[trigger] changed@.contains_key(k) == ((n0@.dom() - pending@.dom()).contains(k)
                        && (full.changed)(k) is Some),
                forall|k: Seq<char>|
                    #[trigger] changed@.contains_key(k) ==> (full.changed)(k) == Some(
                        doc_patch_view(changed@[k]),
                    ),
                added@.map_values(|c: Channel| channel_doc_view(c)) == added_docs(
                    ns.subrange(pending.seq().len() as int, ns.len() as int),
                    o0,
                ),
            decreases pending.seq().len(),
        {
            let ghost prev_pending = pending;
            let ghost prev_remaining = remaining@;
            let ghost prev_added = added@;
            let (key, new_value) = pending.pop_last().unwrap();
            let ghost kv = key@;
            let ghost i = prev_pending.seq().len() - 1;
            proof {
                pending.lemma_finite();
                assert(prev_pending.seq()[i] == ns[i]);
                assert(pending.seq() =~= ns.subrange(0, pending.seq().len() as int));
                assert(prev_pending@.contains_key(kv) && prev_pending@[kv] == new_value);
                crate::maps::lemma_submap_at(prev_pending@, n0@, kv);
                assert(pending@.dom() =~= prev_pending@.dom().remove(kv));
                assert(pending@ =~= prev_pending@.remove(kv));
                assert(pending@.submap_of(n0@));
                assert(!(n0@.dom() - prev_pending@.dom()).contains(kv));
                assert(prev_remaining.contains_key(kv) == o0.contains_key(kv));
                let rest = ns.subrange(i + 1, ns.len() as int);
                assert(ns.subrange(i, ns.len() as int).drop_first() =~= rest);
                assert(ns.subrange(i, ns.len() as int)[0] == (key, new_value));
            }
            match remaining.remove(&key) {
                Some(old_value) => {
                    proof {
                        assert(old_value == o0[kv]);
                    }
                    let patch = ChannelPatch::diff(old_value, new_value);
                    if !patch.is_empty() {
                        changed.insert(key, patch);
                    }
                },
                None => {
                    added.insert(0, new_value);
                    proof {
                        assert(added@.map_values(|c: Channel| channel_doc_view(c)) =~= seq![
                            channel_doc_view(new_value),
                        ] + prev_added.map_values(|c: Channel| channel_doc_view(c)));
                    }
                },
            }
            proof {
                assert(remaining@ =~= o0.remove_keys(n0@.dom() - pending@.dom()));
            }
        }
        proof {
            assert(pending@ =~= Map::<Seq<char>, Channel>::empty());
            assert(ns.subrange(0, ns.len() as int) =~= ns);
            assert forall|k: Seq<char>| #[trigger] doc_patches_view(changed@)(k) == (full.changed)(k) by {}
            assert(doc_patches_view(changed@) =~= full.changed);
        }
        ChannelsPatch { changed, added }
    }

    pub fn is_empty(&self) -> (r: bool)
        ensures
            r == docs_patch_is_empty(docs_patch_view(*self)),
    {
        proof {
            use_type_invariant(&self.changed);
            self.changed.lemma_inv();
        }
        let r = self.changed.is_empty() && self.added.len() == 0;
        proof {
            let p = docs_patch_view(*self);
            if self.changed.seq().len() > 0 {
                assert((p.changed)(self.changed.seq()[0].0@) is Some);
            }
            if r {
                assert forall|k: Seq<char>| #[trigger] (p.changed)(k) is None by {
                    assert(!self.changed@.contains_key(k));
                }
            }
        }
        r
    }
}

/// A value that a change sets: an array is lent, not copied.
pub enum ChangeValue<'a> {
    Bool(bool),
    Int(i32),
    Uint(u32),
    Double(u64),
    String(String),
    Array(&'a Vec<Value>),
}

/// A change that applying channel documents' changes makes: set a property to a value, or remove
/// it; the property is named by the channel followed by each property name after a slash.
pub enum ChannelChange<'a> {
    SetProperty { path: String, value: ChangeValue<'a> },
    RemoveProperty { path: String },
}

/// What a change denotes.
pub enum ChangeV {
    Assign(Seq<char>, TV),
    Remove(Seq<char>),
}

pub open spec fn change_value_view(v: ChangeValue) -> TV {
    match v {
        ChangeValue::Bool(b) => TV::Bool(b),
        ChangeValue::Int(n) => TV::Int(n),
        ChangeValue::Uint(n) => TV::Uint(n),
        ChangeValue::Double(d) => TV::Double(d),
        ChangeValue::String(s) => TV::String(s@),
        ChangeValue::Array(a) => TV::Array(values_view(a@)),
    }
}

pub open spec fn change_view(c: ChannelChange) -> ChangeV {
    match c {
        ChannelChange::SetProperty { path, value } => ChangeV::Assign(path@, change_value_view(value)),
        ChannelChange::RemoveProperty { path } => ChangeV::Remove(path@),
    }
}

pub open spec fn changes_view(s: Seq<ChannelChange>) -> Seq<ChangeV> {
    s.map_values(|c: ChannelChange| change_view(c))
}

/// The text that names a property: the channel, then each name after a slash.
pub open spec fn path_text(ch: Seq<char>, path: Seq<Seq<char>>) -> Seq<char> {
    ch + prop_string(path)
}

/// The change that sets a typed value; none for an empty one.
pub open spec fn tv_changes(t: TypedValue, at: Seq<char>) -> Seq<ChangeV> {
    match t {
        TypedValue::Empty => Seq::empty(),
        _ => seq![ChangeV::Assign(at, tv_view(t))],
    }
}

/// The changes that set a property and then its sub-properties, in key order.
pub open spec fn value_changes(v: Value, ch: Seq<char>, path: Seq<Seq<char>>) -> Seq<ChangeV>
    decreases v, 1nat,
{
    tv_changes(v.value, path_text(ch, path)) + props_changes(v.props, ch, path)
}

pub open spec fn props_changes(p: Properties, ch: Seq<char>, path: Seq<Seq<char>>) -> Seq<ChangeV>
    decreases p, 1nat,
{
    match p {
        Properties::Empty => Seq::empty(),
        Properties::Entries(m) => {
            proof {
                m.lemma_seq_decreases();
            }
            entries_changes(m.seq(), ch, path)
        },
    }
}

pub open spec fn entries_changes(s: Seq<(String, Value)>, ch: Seq<char>, path: Seq<Seq<char>>) -> Seq<ChangeV>
    decreases s, 0nat,
{
    if s.len() == 0 {
        Seq::empty()
    } else {
        value_changes(s[0].1, ch, path.push(s[0].0@)) + entries_changes(s.drop_first(), ch, path)
    }
}

/// The change that the change of a typed value makes, if any.
pub open spec fn tvpatch_changes(p: TypedValuePatch, at: Seq<char>) -> Seq<ChangeV> {
    match p {
        TypedValuePatch::Bool(s) => match s.value {
            Some(b) => seq![ChangeV::Assign(at, TV::Bool(b))],
            None => Seq::empty(),
        },
        TypedValuePatch::Int(s) => match s.value {
            Some(n) => seq![ChangeV::Assign(at, TV::Int(n))],
            None => Seq::empty(),
        },
        TypedValuePatch::Uint(s) => match s.value {
            Some(n) => seq![ChangeV::Assign(at, TV::Uint(n))],
            None => Seq::empty(),
        },
        TypedValuePatch::Double(s) => match s.value {
            Some(d) => seq![ChangeV::Assign(at, TV::Double(d))],
            None => Seq::empty(),
        },
        TypedValuePatch::String(s) => match s.value {
            Some(x) => seq![ChangeV::Assign(at, TV::String(x@))],
            None => Seq::empty(),
        },
        TypedValuePatch::Array(s) => match s.value {
            Some(a) => seq![ChangeV::Assign(at, TV::Array(values_view(a@)))],
            None => Seq::empty(),
        },
        TypedValuePatch::Empty => Seq::empty(),
        TypedValuePatch::Changed(t) => tv_changes(t, at),
    }
}

/// Listing the change of a typed value from `old` to `new` (a patch that the diff made) assigns
/// `new`'s value at the property once, unless the two are equal, when it lists nothing.
pub proof fn lemma_tvpatch_changes_assign_new(old: TypedValue, new: TypedValue, p: TypedValuePatch, at: Seq<char>)
    requires
        crate::xfconf::tvpatch_view(p) == crate::xfconf::tv_diff(tv_view(old), tv_view(new)),
        !(new is Empty),
    ensures
        crate::xfconf::tv_same(tv_view(old), tv_view(new)) ==> tvpatch_changes(p, at) == Seq::<ChangeV>::empty(),
        !crate::xfconf::tv_same(tv_view(old), tv_view(new)) ==> tvpatch_changes(p, at) == seq![
            ChangeV::Assign(at, tv_view(new)),
        ],
{
}

/// Listing the change of a property whose value changed from `old` to `new` starts with the
/// assignment of `new`'s value at the property's path.
pub proof fn lemma_vpatch_changes_assign_new(
    old: TypedValue,
    new: TypedValue,
    p: ValuePatch,
    ch: Seq<char>,
    path: Seq<Seq<char>>,
)
    requires
        crate::xfconf::tvpatch_view(p.value) == crate::xfconf::tv_diff(tv_view(old), tv_view(new)),
        !(new is Empty),
        !crate::xfconf::tv_same(tv_view(old), tv_view(new)),
    ensures
        vpatch_changes(p, ch, path).len() >= 1,
        vpatch_changes(p, ch, path)[0] == ChangeV::Assign(path_text(ch, path), tv_view(new)),
{
    lemma_tvpatch_changes_assign_new(old, new, p.value, path_text(ch, path));
}

/// The changes that the change of a property makes: of its value, then of its sub-properties.
pub open spec fn vpatch_changes(p: ValuePatch, ch: Seq<char>, path: Seq<Seq<char>>) -> Seq<ChangeV>
    decreases p, 1nat,
{
    tvpatch_changes(p.value, path_text(ch, path)) + ppatch_changes(p.props, ch, path)
}

/// The changes that the change of properties makes: changed ones, then added ones, then removed
/// ones, each in key order.
pub open spec fn ppatch_changes(p: PropertiesPatch, ch: Seq<char>, path: Seq<Seq<char>>) -> Seq<ChangeV>
    decreases p, 1nat,
{
    let changed = match p.changed {
        Some(m) => {
            proof {
                m.lemma_seq_decreases();
            }
            changed_changes(m.seq(), ch, path)
        },
        None => Seq::empty(),
    };
    changed + entries_changes(p.added.seq(), ch, path) + removed_changes(p.removed.seq(), ch, path)
}

pub open spec fn changed_changes(s: Seq<(String, ValuePatch)>, ch: Seq<char>, path: Seq<Seq<char>>) -> Seq<ChangeV>
    decreases s, 0nat,
{
    if s.len() == 0 {
        Seq::empty()
    } else {
        vpatch_changes(s[0].1, ch, path.push(s[0].0@)) + changed_changes(s.drop_first(), ch, path)
    }
}

pub open spec fn removed_changes(s: Seq<(String, ())>, ch: Seq<char>, path: Seq<Seq<char>>) -> Seq<ChangeV>
    decreases s.len(),
{
    if s.len() == 0 {
        Seq::empty()
    } else {
        seq![ChangeV::Remove(path_text(ch, path.push(s[0].0@)))] + removed_changes(
            s.drop_first(),
            ch,
            path,
        )
    }
}

pub open spec fn changed_docs_changes(s: Seq<(String, ChannelPatch)>) -> Seq<ChangeV>
    decreases s.len(),
{
    if s.len() == 0 {
        Seq::empty()
    } else {
        ppatch_changes(s[0].1.props, s[0].0@, Seq::empty()) + changed_docs_changes(s.drop_first())
    }
}

pub open spec fn added_docs_changes(s: Seq<Channel>) -> Seq<ChangeV>
    decreases s.len(),
{
    if s.len() == 0 {
        Seq::empty()
    } else {
        props_changes(s[0].props, s[0].name@, Seq::empty()) + added_docs_changes(s.drop_first())
    }
}

/// The changes that applying a change of channel documents makes: changed documents in key
/// order, then added documents.
pub open spec fn docs_changes(p: ChannelsPatch) -> Seq<ChangeV> {
    changed_docs_changes(p.changed.seq()) + added_docs_changes(p.added@)
}

/// A typed value changed from `a` to a value `b` that differs and is not empty is assigned `b`.
proof fn lemma_tvpatch_changes_assign(a: TV, b: TV, p: TypedValuePatch, at: Seq<char>)
    requires
        crate::xfconf::tvpatch_view(p) == crate::xfconf::tv_diff(a, b),
        !crate::xfconf::tv_same(a, b),
        !(b is Empty),
    ensures
        tvpatch_changes(p, at) == seq![ChangeV::Assign(at, b)],
{
}

/// A change listed for one changed property is listed for the properties.
proof fn lemma_changed_changes_has(s: Seq<(String, ValuePatch)>, ch: Seq<char>, path: Seq<Seq<char>>, i: int, x: ChangeV)
    requires
        0 <= i < s.len(),
        vpatch_changes(s[i].1, ch, path.push(s[i].0@)).contains(x),
    ensures
        changed_changes(s, ch, path).contains(x),
    decreases s.len(),
{
    let a = vpatch_changes(s[0].1, ch, path.push(s[0].0@));
    let b = changed_changes(s.drop_first(), ch, path);
    assert(changed_changes(s, ch, path) == a + b);
    if i == 0 {
        let j = choose|j: int| 0 <= j < a.len() && a[j] == x;
        assert((a + b)[j] == x);
    } else {
        assert(s.drop_first()[i - 1] == s[i]);
        lemma_changed_changes_has(s.drop_first(), ch, path, i - 1, x);
        let j = choose|j: int| 0 <= j < b.len() && b[j] == x;
        assert((a + b)[a.len() + j] == x);
    }
}

/// A change listed for one changed document is listed for the documents.
proof fn lemma_changed_docs_changes_has(s: Seq<(String, ChannelPatch)>, i: int, x: ChangeV)
    requires
        0 <= i < s.len(),
        ppatch_changes(s[i].1.props, s[i].0@, Seq::empty()).contains(x),
    ensures
        changed_docs_changes(s).contains(x),
    decreases s.len(),
{
    let a = ppatch_changes(s[0].1.props, s[0].0@, Seq::empty());
    let b = changed_docs_changes(s.drop_first());
    assert(changed_docs_changes(s) == a + b);
    if i == 0 {
        let j = choose|j: int| 0 <= j < a.len() && a[j] == x;
        assert((a + b)[j] == x);
    } else {
        assert(s.drop_first()[i - 1] == s[i]);
        lemma_changed_docs_changes_has(s.drop_first(), i - 1, x);
        let j = choose|j: int| 0 <= j < b.len() && b[j] == x;
        assert((a + b)[a.len() + j] == x);
    }
}

/// Applying the change of channel documents from `old` to `new` (a change that the diff made)
/// assigns every top-level property whose typed value changes, in a document kept in both, its
/// new value at its path (the document's name, a slash and the property's name).
pub proof fn lemma_plan_assigns_changed_property(
    old: Map<Seq<char>, Channel>,
    new: OrdMap<String, Channel>,
    p: ChannelsPatch,
    k: Seq<char>,
    prop: Seq<char>,
    ov: VV,
    nv: VV,
)
    requires
        docs_patch_view(p) == docs_diff(old, new),
        old.contains_key(k),
        new@.contains_key(k),
        props_view(old[k].props)(prop) == Some(ov),
        props_view(new@[k].props)(prop) == Some(nv),
        !crate::xfconf::tv_same(ov.value, nv.value),
        !(nv.value is Empty),
    ensures
        docs_changes(p).contains(ChangeV::Assign(path_text(k, seq![prop]), nv.value)),
{
    let x = ChangeV::Assign(path_text(k, seq![prop]), nv.value);
    let d = doc_diff(old[k], new@[k]);
    let vd = (d.channel.props.changed)(prop);
    crate::xfconf::lemma_tv_diff_not_empty(ov.value, nv.value);
    assert(vd is Some);
    assert(!crate::xfconf::ppatch_is_empty(d.channel.props));
    assert(!doc_patch_is_empty(d));
    assert((docs_diff(old, new).changed)(k) == Some(d));
    assert(p.changed@.contains_key(k));
    let cp = p.changed@[k];
    assert(doc_patch_view(cp) == d);
    assert(ppatch_view(cp.props) == d.channel.props);
    match cp.props.changed {
        Some(m) => {
            let i = crate::xfconf::lemma_vpatch_members_find(m.seq(), prop);
            let vp = m.seq()[i].1;
            assert(crate::xfconf::vpatch_view(vp) == vd->0);
            let path = Seq::<Seq<char>>::empty().push(prop);
            assert(path =~= seq![prop]);
            lemma_tvpatch_changes_assign(ov.value, nv.value, vp.value, path_text(k, path));
            let c1 = tvpatch_changes(vp.value, path_text(k, path));
            let c2 = ppatch_changes(vp.props, k, path);
            assert(vpatch_changes(vp, k, path) == c1 + c2);
            assert((c1 + c2)[0] == x);
            lemma_changed_changes_has(m.seq(), k, Seq::empty(), i, x);
            let e1 = changed_changes(m.seq(), k, Seq::empty());
            let e2 = entries_changes(cp.props.added.seq(), k, Seq::empty());
            let e3 = removed_changes(cp.props.removed.seq(), k, Seq::empty());
            let h = choose|h: int| 0 <= h < e1.len() && e1[h] == x;
            assert((e1 + e2 + e3)[h] == x);
            let j = crate::ordmap::lemma_map_of_entry(p.changed.seq(), k);
            lemma_changed_docs_changes_has(p.changed.seq(), j, x);
            let f1 = changed_docs_changes(p.changed.seq());
            let f2 = added_docs_changes(p.added@);
            let g = choose|g: int| 0 <= g < f1.len() && f1[g] == x;
            assert((f1 + f2)[g] == x);
        },
        None => {},
    }
}

/// A change listed for one added property is listed for the added properties.
proof fn lemma_entries_changes_has(s: Seq<(String, Value)>, ch: Seq<char>, path: Seq<Seq<char>>, i: int, x: ChangeV)
    requires
        0 <= i < s.len(),
        value_changes(s[i].1, ch, path.push(s[i].0@)).contains(x),
    ensures
        entries_changes(s, ch, path).contains(x),
    decreases s.len(),
{
    let a = value_changes(s[0].1, ch, path.push(s[0].0@));
    let b = entries_changes(s.drop_first(), ch, path);
    assert(entries_changes(s, ch, path) == a + b);
    if i == 0 {
        let j = choose|j: int| 0 <= j < a.len() && a[j] == x;
        assert((a + b)[j] == x);
    } else {
        assert(s.drop_first()[i - 1] == s[i]);
        lemma_entries_changes_has(s.drop_first(), ch, path, i - 1, x);
        let j = choose|j: int| 0 <= j < b.len() && b[j] == x;
        assert((a + b)[a.len() + j] == x);
    }
}

/// Each removed property's removal is listed for the removed properties.
proof fn lemma_removed_changes_has(s: Seq<(String, ())>, ch: Seq<char>, path: Seq<Seq<char>>, i: int)
    requires
        0 <= i < s.len(),
    ensures
        removed_changes(s, ch, path).contains(ChangeV::Remove(path_text(ch, path.push(s[i].0@)))),
    decreases s.len(),
{
    let x = ChangeV::Remove(path_text(ch, path.push(s[i].0@)));
    let a = seq![ChangeV::Remove(path_text(ch, path.push(s[0].0@)))];
    let b = removed_changes(s.drop_first(), ch, path);
    assert(removed_changes(s, ch, path) == a + b);
    if i == 0 {
        assert((a + b)[0] == x);
    } else {
        assert(s.drop_first()[i - 1] == s[i]);
        lemma_removed_changes_has(s.drop_first(), ch, path, i - 1);
        let j = choose|j: int| 0 <= j < b.len() && b[j] == x;
        assert((a + b)[a.len() + j] == x);
    }
}

/// A change listed for the properties of a changed document is listed for the whole patch.
proof fn lemma_docs_changes_from_doc(p: ChannelsPatch, k: Seq<char>, x: ChangeV)
    requires
        p.changed@.contains_key(k),
        ppatch_changes(p.changed@[k].props, k, Seq::empty()).contains(x),
    ensures
        docs_changes(p).contains(x),
{
    let j = crate::ordmap::lemma_map_of_entry(p.changed.seq(), k);
    lemma_changed_docs_changes_has(p.changed.seq(), j, x);
    let f1 = changed_docs_changes(p.changed.seq());
    let f2 = added_docs_changes(p.added@);
    let g = choose|g: int| 0 <= g < f1.len() && f1[g] == x;
    assert((f1 + f2)[g] == x);
}

/// Applying the change of channel documents from `old` to `new` (a change that the diff made)
/// removes every top-level property that `new` drops from a document kept in both, where the
/// panel's clear paths let it go, at its path.
pub proof fn lemma_plan_removes_dropped_property(
    old: Map<Seq<char>, Channel>,
    new: OrdMap<String, Channel>,
    p: ChannelsPatch,
    k: Seq<char>,
    prop: Seq<char>,
)
    requires
        docs_patch_view(p) == docs_diff(old, new),
        old.contains_key(k),
        new@.contains_key(k),
        props_view(old[k].props)(prop) is Some,
        props_view(new@[k].props)(prop) is None,
        crate::xfconf::filter_keeps(
            crate::xfconf::first_filter(
                panel_cps(),
                crate::xfconf::DiffPathV { channel: None, props: Seq::empty() },
                crate::xfconf::CtxV::Channel(new@[k].name@),
            ),
            prop,
        ),
    ensures
        docs_changes(p).contains(ChangeV::Remove(path_text(k, seq![prop]))),
{
    let x = ChangeV::Remove(path_text(k, seq![prop]));
    let d = doc_diff(old[k], new@[k]);
    let pp = d.channel.props;
    assert((pp.removed)(prop));
    assert(!((pp.changed)(prop) is None && (pp.added)(prop) is None && !(pp.removed)(prop)));
    assert(!crate::xfconf::ppatch_is_empty(pp));
    assert(!doc_patch_is_empty(d));
    assert((docs_diff(old, new).changed)(k) == Some(d));
    assert(p.changed@.contains_key(k));
    let cp = p.changed@[k];
    assert(doc_patch_view(cp) == d);
    assert(ppatch_view(cp.props) == pp);
    assert(cp.props.removed@.contains_key(prop));
    let i = crate::ordmap::lemma_map_of_entry(cp.props.removed.seq(), prop);
    lemma_removed_changes_has(cp.props.removed.seq(), k, Seq::empty(), i);
    assert(Seq::<Seq<char>>::empty().push(prop) =~= seq![prop]);
    let e1 = match cp.props.changed {
        Some(m) => changed_changes(m.seq(), k, Seq::empty()),
        None => Seq::empty(),
    };
    let e2 = entries_changes(cp.props.added.seq(), k, Seq::empty());
    let e3 = removed_changes(cp.props.removed.seq(), k, Seq::empty());
    assert(ppatch_changes(cp.props, k, Seq::empty()) == e1 + e2 + e3);
    let h = choose|h: int| 0 <= h < e3.len() && e3[h] == x;
    assert((e1 + e2 + e3)[e1.len() + e2.len() + h] == x);
    lemma_docs_changes_from_doc(p, k, x);
}

/// Applying the change of channel documents from `old` to `new` (a change that the diff made)
/// assigns every top-level property that `new` adds to a document kept in both its value, at its
/// path.
pub proof fn lemma_plan_assigns_added_property(
    old: Map<Seq<char>, Channel>,
    new: OrdMap<String, Channel>,
    p: ChannelsPatch,
    k: Seq<char>,
    prop: Seq<char>,
    nv: VV,
)
    requires
        docs_patch_view(p) == docs_diff(old, new),
        old.contains_key(k),
        new@.contains_key(k),
        props_view(old[k].props)(prop) is None,
        props_view(new@[k].props)(prop) == Some(nv),
        !(nv.value is Empty),
    ensures
        docs_changes(p).contains(ChangeV::Assign(path_text(k, seq![prop]), nv.value)),
{
    let x = ChangeV::Assign(path_text(k, seq![prop]), nv.value);
    let d = doc_diff(old[k], new@[k]);
    let pp = d.channel.props;
    assert((pp.added)(prop) == Some(nv));
    assert(!((pp.changed)(prop) is None && (pp.added)(prop) is None && !(pp.removed)(prop)));
    assert(!crate::xfconf::ppatch_is_empty(pp));
    assert(!doc_patch_is_empty(d));
    assert((docs_diff(old, new).changed)(k) == Some(d));
    assert(p.changed@.contains_key(k));
    let cp = p.changed@[k];
    assert(doc_patch_view(cp) == d);
    assert(ppatch_view(cp.props) == pp);
    let i = crate::xfconf::lemma_value_members_find(cp.props.added.seq(), prop);
    let v = cp.props.added.seq()[i].1;
    assert(value_view(v) == nv);
    let path = Seq::<Seq<char>>::empty().push(prop);
    assert(path =~= seq![prop]);
    let a = tv_changes(v.value, path_text(k, path));
    let b = props_changes(v.props, k, path);
    assert(value_changes(v, k, path) == a + b);
    assert(a[0] == x);
    assert((a + b)[0] == x);
    lemma_entries_changes_has(cp.props.added.seq(), k, Seq::empty(), i, x);
    let e1 = match cp.props.changed {
        Some(m) => changed_changes(m.seq(), k, Seq::empty()),
        None => Seq::empty(),
    };
    let e2 = entries_changes(cp.props.added.seq(), k, Seq::empty());
    let e3 = removed_changes(cp.props.removed.seq(), k, Seq::empty());
    assert(ppatch_changes(cp.props, k, Seq::empty()) == e1 + e2 + e3);
    let h = choose|h: int| 0 <= h < e2.len() && e2[h] == x;
    assert((e1 + e2 + e3)[e1.len() + h] == x);
    lemma_docs_changes_from_doc(p, k, x);
}

/// A document of `s` whose key `old` lacks is among the added documents.
proof fn lemma_added_docs_has(s: Seq<(String, Channel)>, old: Map<Seq<char>, Channel>, j: int) -> (i: int)
    requires
        0 <= j < s.len(),
        !old.contains_key(s[j].0@),
    ensures
        0 <= i < added_docs(s, old).len(),
        added_docs(s, old)[i] == channel_doc_view(s[j].1),
    decreases s.len(),
{
    let t = s.drop_first();
    if j == 0 {
        0
    } else {
        assert(t[j - 1] == s[j]);
        let i = lemma_added_docs_has(t, old, j - 1);
        if old.contains_key(s[0].0@) {
            i
        } else {
            assert(added_docs(s, old) == seq![channel_doc_view(s[0].1)] + added_docs(t, old));
            i + 1
        }
    }
}

/// A change listed for one added document is listed for the added documents.
proof fn lemma_added_docs_changes_has(s: Seq<Channel>, i: int, x: ChangeV)
    requires
        0 <= i < s.len(),
        props_changes(s[i].props, s[i].name@, Seq::empty()).contains(x),
    ensures
        added_docs_changes(s).contains(x),
    decreases s.len(),
{
    let a = props_changes(s[0].props, s[0].name@, Seq::empty());
    let b = added_docs_changes(s.drop_first());
    assert(added_docs_changes(s) == a + b);
    if i == 0 {
        let j = choose|j: int| 0 <= j < a.len() && a[j] == x;
        assert((a + b)[j] == x);
    } else {
        assert(s.drop_first()[i - 1] == s[i]);
        lemma_added_docs_changes_has(s.drop_first(), i - 1, x);
        let j = choose|j: int| 0 <= j < b.len() && b[j] == x;
        assert((a + b)[a.len() + j] == x);
    }
}

/// Applying the change of channel documents from `old` to `new` (a change that the diff made)
/// assigns, in every document that only `new` has, each top-level property its value, at its
/// path.
pub proof fn lemma_plan_assigns_new_doc_property(
    old: Map<Seq<char>, Channel>,
    new: OrdMap<String, Channel>,
    p: ChannelsPatch,
    k: Seq<char>,
    prop: Seq<char>,
    nv: VV,
)
    requires
        docs_patch_view(p) == docs_diff(old, new),
        !old.contains_key(k),
        new@.contains_key(k),
        props_view(new@[k].props)(prop) == Some(nv),
        !(nv.value is Empty),
    ensures
        docs_changes(p).contains(ChangeV::Assign(path_text(new@[k].name@, seq![prop]), nv.value)),
{
    let name = new@[k].name@;
    let x = ChangeV::Assign(path_text(name, seq![prop]), nv.value);
    let j = crate::ordmap::lemma_map_of_entry(new.seq(), k);
    let i = lemma_added_docs_has(new.seq(), old, j);
    let added = p.added@;
    assert(added.map_values(|c: Channel| channel_doc_view(c)) == added_docs(new.seq(), old));
    assert(channel_doc_view(added[i]) == added.map_values(|c: Channel| channel_doc_view(c))[i]);
    let c = added[i];
    assert(channel_doc_view(c) == channel_doc_view(new@[k]));
    assert(c.name@ == name);
    assert(props_view(c.props)(prop) == Some(nv));
    match c.props {
        Properties::Entries(m) => {
            let t = crate::xfconf::lemma_value_members_find(m.seq(), prop);
            let v = m.seq()[t].1;
            assert(value_view(v) == nv);
            let path = Seq::<Seq<char>>::empty().push(prop);
            assert(path =~= seq![prop]);
            let a = tv_changes(v.value, path_text(name, path));
            let b = props_changes(v.props, name, path);
            assert(value_changes(v, name, path) == a + b);
            assert(a[0] == x);
            assert((a + b)[0] == x);
            lemma_entries_changes_has(m.seq(), name, Seq::empty(), t, x);
            assert(props_changes(c.props, name, Seq::empty()) == entries_changes(m.seq(), name, Seq::empty()));
            lemma_added_docs_changes_has(added, i, x);
            let f1 = changed_docs_changes(p.changed.seq());
            let f2 = added_docs_changes(added);
            let g = choose|g: int| 0 <= g < f2.len() && f2[g] == x;
            assert((f1 + f2)[f1.len() + g] == x);
        },
        Properties::Empty => {},
    }
}

fn path_string(path: &ApplyPath) -> (r: String)
    ensures
        r@ == path_text(path.channel@, vector_items(path.props)),
{
    let (channel, property) = path.channel_property();
    let mut r = channel;
    r.append(property.as_str());
    r
}

fn push_tv_changes<'a>(t: &'a TypedValue, path: &ApplyPath, out: &mut Vec<ChannelChange<'a>>)
    ensures
        changes_view(final(out)@) == changes_view(old(out)@) + tv_changes(
            *t,
            path_text(path.channel@, vector_items(path.props)),
        ),
{
    let ghost before = out@;
    let value = match t {
        TypedValue::Bool(b) => Some(ChangeValue::Bool(*b)),
        TypedValue::Int(n) => Some(ChangeValue::Int(*n)),
        TypedValue::Uint(n) => Some(ChangeValue::Uint(*n)),
        TypedValue::Double(d) => Some(ChangeValue::Double(*d)),
        TypedValue::String(x) => Some(ChangeValue::String(x.clone())),
        TypedValue::Array(a) => Some(ChangeValue::Array(a)),
        TypedValue::Empty => None,
    };
    match value {
        Some(value) => {
            out.push(ChannelChange::SetProperty { path: path_string(path), value });
        },
        None => {},
    }
    proof {
        assert(changes_view(out@) =~= changes_view(before) + tv_changes(
            *t,
            path_text(path.channel@, vector_items(path.props)),
        ));
    }
}

fn push_value_changes<'a>(v: &'a Value, path: &ApplyPath, out: &mut Vec<ChannelChange<'a>>)
    ensures
        changes_view(final(out)@) == changes_view(old(out)@) + value_changes(
            *v,
            path.channel@,
            vector_items(path.props),
        ),
    decreases *v, 1nat,
{
    let ghost before = out@;
    push_tv_changes(&v.value, path, out);
    proof {
        assert(decreases_to!(*v => v.props));
    }
    push_props_changes(&v.props, path, out);
    proof {
        assert(changes_view(out@) =~= changes_view(before) + value_changes(
            *v,
            path.channel@,
            vector_items(path.props),
        ));
    }
}

fn push_props_changes<'a>(p: &'a Properties, path: &ApplyPath, out: &mut Vec<ChannelChange<'a>>)
    ensures
        changes_view(final(out)@) == changes_view(old(out)@) + props_changes(
            *p,
            path.channel@,
            vector_items(path.props),
        ),
    decreases *p, 0nat,
{
    match p {
        Properties::Empty => {
            proof {
                assert(changes_view(out@) + props_changes(*p, path.channel@, vector_items(path.props))
                    =~= changes_view(out@));
            }
        },
        Properties::Entries(m) => {
            proof {
                assert(decreases_to!(*p => (*p)->Entries_0));
            }
            push_map_changes(m, path, out);
        },
    }
}

fn push_map_changes<'a>(m: &'a OrdMap<String, Value>, path: &ApplyPath, out: &mut Vec<ChannelChange<'a>>)
    ensures
        changes_view(final(out)@) == changes_view(old(out)@) + entries_changes(
            m.seq(),
            path.channel@,
            vector_items(path.props),
        ),
    decreases *m, 1nat,
{
    let ghost ch = path.channel@;
    let ghost base = vector_items(path.props);
    let ghost before = out@;
    let ghost s = m.seq();
    let n = m.len();
    let mut i: usize = 0;
    proof {
        assert(s.skip(0) =~= s);
    }
    while i < n
        invariant
            n == s.len(),
            s == m.seq(),
            i <= n,
            ch == path.channel@,
            base == vector_items(path.props),
            changes_view(before) + entries_changes(s, ch, base) == changes_view(out@) + entries_changes(
                s.skip(i as int),
                ch,
                base,
            ),
        decreases n - i,
    {
        let e = m.entry_at(i);
        let child = path.push(e.0.clone());
        proof {
            m.lemma_value_decreases(i as int);
            assert(s.skip(i as int)[0] == s[i as int]);
            assert(s.skip(i as int).drop_first() =~= s.skip(i + 1));
        }
        let ghost prev = out@;
        push_value_changes(&e.1, &child, out);
        proof {
            assert(changes_view(prev) + value_changes(e.1, ch, base.push(e.0@)) + entries_changes(
                s.skip(i + 1),
                ch,
                base,
            ) == changes_view(prev) + entries_changes(s.skip(i as int), ch, base));
        }
        i = i + 1;
    }
    proof {
        assert(s.skip(n as int) =~= Seq::<(String, Value)>::empty());
        assert(changes_view(out@) =~= changes_view(before) + entries_changes(s, ch, base));
    }
}

fn push_tvpatch_changes<'a>(p: &'a TypedValuePatch, path: &ApplyPath, out: &mut Vec<ChannelChange<'a>>)
    ensures
        changes_view(final(out)@) == changes_view(old(out)@) + tvpatch_changes(
            *p,
            path_text(path.channel@, vector_items(path.props)),
        ),
{
    let ghost before = out@;
    let value = match p {
        TypedValuePatch::Bool(s) => match &s.value {
            Some(b) => Some(ChangeValue::Bool(*b)),
            None => None,
        },
        TypedValuePatch::Int(s) => match &s.value {
            Some(n) => Some(ChangeValue::Int(*n)),
            None => None,
        },
        TypedValuePatch::Uint(s) => match &s.value {
            Some(n) => Some(ChangeValue::Uint(*n)),
            None => None,
        },
        TypedValuePatch::Double(s) => match &s.value {
            Some(d) => Some(ChangeValue::Double(*d)),
            None => None,
        },
        TypedValuePatch::String(s) => match &s.value {
            Some(x) => Some(ChangeValue::String(x.clone())),
            None => None,
        },
        TypedValuePatch::Array(s) => match &s.value {
            Some(a) => Some(ChangeValue::Array(a)),
            None => None,
        },
        TypedValuePatch::Empty => None,
        TypedValuePatch::Changed(_) => None,
    };
    match value {
        Some(value) => {
            out.push(ChannelChange::SetProperty { path: path_string(path), value });
        },
        None => {
            match p {
                TypedValuePatch::Changed(t) => {
                    push_tv_changes(t, path, out);
                },
                _ => {},
            }
        },
    }
    proof {
        assert(changes_view(out@) =~= changes_view(before) + tvpatch_changes(
            *p,
            path_text(path.channel@, vector_items(path.props)),
        ));
    }
}

fn push_vpatch_changes<'a>(p: &'a ValuePatch, path: &ApplyPath, out: &mut Vec<ChannelChange<'a>>)
    ensures
        changes_view(final(out)@) == changes_view(old(out)@) + vpatch_changes(
            *p,
            path.channel@,
            vector_items(path.props),
        ),
    decreases *p, 1nat,
{
    let ghost before = out@;
    push_tvpatch_changes(&p.value, path, out);
    proof {
        assert(decreases_to!(*p => p.props));
    }
    push_ppatch_changes(&p.props, path, out);
    proof {
        assert(changes_view(out@) =~= changes_view(before) + vpatch_changes(
            *p,
            path.channel@,
            vector_items(path.props),
        ));
    }
}

fn push_ppatch_changes<'a>(p: &'a PropertiesPatch, path: &ApplyPath, out: &mut Vec<ChannelChange<'a>>)
    ensures
        changes_view(final(out)@) == changes_view(old(out)@) + ppatch_changes(
            *p,
            path.channel@,
            vector_items(path.props),
        ),
    decreases *p, 0nat,
{
    let ghost ch = path.channel@;
    let ghost base = vector_items(path.props);
    let ghost before = out@;
    match &p.changed {
        Some(m) => {
            let ghost s = m.seq();
            let n = m.len();
            let mut i: usize = 0;
            proof {
                assert(s.skip(0) =~= s);
            }
            while i < n
                invariant
                    p.changed == Some(*m),
                    n == s.len(),
                    s == m.seq(),
                    i <= n,
                    ch == path.channel@,
                    base == vector_items(path.props),
                    changes_view(before) + changed_changes(s, ch, base) == changes_view(out@)
                        + changed_changes(s.skip(i as int), ch, base),
                decreases n - i,
            {
                let e = m.entry_at(i);
                let child = path.push(e.0.clone());
                proof {
                    m.lemma_value_decreases(i as int);
                    assert(decreases_to!(*p => p.changed));
                    assert(decreases_to!(p.changed => p.changed->0));
                    assert(s.skip(i as int)[0] == s[i as int]);
                    assert(s.skip(i as int).drop_first() =~= s.skip(i + 1));
                }
                let ghost prev = out@;
                push_vpatch_changes(&e.1, &child, out);
                proof {
                    assert(changes_view(prev) + vpatch_changes(e.1, ch, base.push(e.0@)) + changed_changes(
                        s.skip(i + 1),
                        ch,
                        base,
                    ) == changes_view(prev) + changed_changes(s.skip(i as int), ch, base));
                }
                i = i + 1;
            }
            proof {
                assert(s.skip(n as int) =~= Seq::<(String, ValuePatch)>::empty());
            }
        },
        None => {},
    }
    let ghost after_changed = out@;
    push_map_changes(&p.added, path, out);
    let ghost after_added = out@;
    let ghost rs = p.removed.seq();
    let n = p.removed.len();
    let mut i: usize = 0;
    proof {
        assert(rs.skip(0) =~= rs);
    }
    while i < n
        invariant
            n == rs.len(),
            rs == p.removed.seq(),
            i <= n,
            ch == path.channel@,
            base == vector_items(path.props),
            changes_view(after_added) + removed_changes(rs, ch, base) == changes_view(out@)
                + removed_changes(rs.skip(i as int), ch, base),
        decreases n - i,
    {
        let e = p.removed.entry_at(i);
        let child = path.push(e.0.clone());
        proof {
            assert(rs.skip(i as int)[0] == rs[i as int]);
            assert(rs.skip(i as int).drop_first() =~= rs.skip(i + 1));
        }
        let ghost prev = out@;
        out.push(ChannelChange::RemoveProperty { path: path_string(&child) });
        proof {
            assert(changes_view(out@) =~= changes_view(prev) + seq![
                ChangeV::Remove(path_text(ch, base.push(e.0@))),
            ]);
        }
        i = i + 1;
    }
    proof {
        assert(rs.skip(n as int) =~= Seq::<(String, ())>::empty());
        let changed = match &p.changed {
            Some(m) => changed_changes(m.seq(), ch, base),
            None => Seq::empty(),
        };
        assert(changes_view(after_changed) =~= changes_view(before) + changed);
        assert(changes_view(out@) =~= changes_view(before) + changed + entries_changes(
            p.added.seq(),
            ch,
            base,
        ) + removed_changes(rs, ch, base));
    }
}

impl ChannelsPatch {
    /// The changes that applying this change makes, in the order they are made: the changed
    /// documents in key order, then the added ones.
    pub fn plan(&self) -> (r: Vec<ChannelChange<'_>>)
        ensures
            changes_view(r@) == docs_changes(*self),
    {
        let mut out: Vec<ChannelChange<'_>> = Vec::new();
        let ghost cs = self.changed.seq();
        let n = self.changed.len();
        let mut i: usize = 0;
        proof {
            assert(cs.skip(0) =~= cs);
            assert(changes_view(out@) =~= Seq::<ChangeV>::empty());
        }
        while i < n
            invariant
                n == cs.len(),
                cs == self.changed.seq(),
                i <= n,
                changed_docs_changes(cs) == changes_view(out@) + changed_docs_changes(cs.skip(i as int)),
            decreases n - i,
        {
            let e = self.changed.entry_at(i);
            let path = ApplyPath::new(e.0.clone());
            proof {
                assert(cs.skip(i as int)[0] == cs[i as int]);
                assert(cs.skip(i as int).drop_first() =~= cs.skip(i + 1));
                assert(vector_items(path.props) =~= Seq::<Seq<char>>::empty());
            }
            let ghost prev = out@;
            push_ppatch_changes(&e.1.props, &path, &mut out);
            proof {
                assert(changes_view(out@) == changes_view(prev) + ppatch_changes(e.1.props, e.0@, Seq::empty()));
            }
            i = i + 1;
        }
        proof {
            assert(cs.skip(n as int) =~= Seq::<(String, ChannelPatch)>::empty());
        }
        let ghost after_changed = out@;
        let m = self.added.len();
        let mut j: usize = 0;
        let ghost ads = self.added@;
        proof {
            assert(ads.skip(0) =~= ads);
        }
        while j < m
            invariant
                m == ads.len(),
                ads == self.added@,
                j <= m,
                changes_view(after_changed) + added_docs_changes(ads) == changes_view(out@)
                    + added_docs_changes(ads.skip(j as int)),
            decreases m - j,
        {
            let c = &self.added[j];
            let path = ApplyPath::new(c.name.clone());
            proof {
                assert(ads.skip(j as int)[0] == ads[j as int]);
                assert(ads.skip(j as int).drop_first() =~= ads.skip(j + 1));
                assert(vector_items(path.props) =~= Seq::<Seq<char>>::empty());
            }
            push_props_changes(&c.props, &path, &mut out);
            j = j + 1;
        }
        proof {
            assert(ads.skip(m as int) =~= Seq::<Channel>::empty());
            assert(changes_view(out@) =~= docs_changes(*self));
        }
        out
    }
}

/// The decimal text of an `i32` reads back as that number.
pub proof fn lemma_int_text_parse(n: i32)
    ensures
        parse_i32_text(int_text(n)) == Some(n),
{
    if n < 0 {
        let m: nat = (0 - n) as nat;
        lemma_decimal_digits(m);
        lemma_parse_decimal_text(m);
        let s = int_text(n);
        assert(s.drop_first() =~= decimal(m));
        assert(s[0] == '-');
    } else {
        lemma_decimal_digits(n as nat);
        lemma_parse_decimal_text(n as nat);
    }
}

} // verus!
