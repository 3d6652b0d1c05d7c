use quick_xml::events::attributes::Attribute;
use quick_xml::events::{BytesDecl, BytesEnd, BytesStart, Event};
use quick_xml::{Reader, Writer};
use std::borrow::Cow;
use std::io::Write;
use xfce_config::channel::{
    AttrText, Channel, ChannelXmlError, ChannelsApplier, XmlAttribute, XmlEvent, XmlOut,
};
use xfce_config::ordmap::OrdMap;
use xfce_config::xfconf::{Properties, TypedValue, Value};

/// The events a quick-xml reader gives for a document, with empty elements expanded and text
/// trimmed, up to its end or its first failure.
fn events_of(xml: &str) -> Vec<XmlEvent> {
    let mut reader = Reader::from_reader(xml.as_bytes());
    reader.expand_empty_elements(true);
    reader.trim_text(true);
    let mut buf = Vec::new();
    let mut out = Vec::new();
    loop {
        match reader.read_event(&mut buf) {
            Err(e) => {
                out.push(XmlEvent::Failure { message: e.to_string() });
                break;
            }
            Ok(Event::Eof) => {
                out.push(XmlEvent::Other { description: "Eof".to_string() });
                break;
            }
            Ok(Event::Decl(d)) => {
                let version = d.version().map(|v| v.into_owned()).map_err(|e| e.to_string());
                let encoding = d
                    .encoding()
                    .map(|r| r.map(|v| v.into_owned()).map_err(|e| e.to_string()));
                let description = format!("{:?}", Event::Decl(d.clone()));
                out.push(XmlEvent::Decl { version, encoding, description });
            }
            Ok(Event::Start(t)) => {
                let attributes = t
                    .attributes()
                    .map(|a| {
                        a.map_err(|e| e.to_string()).map(|a| {
                            let value =
                                a.unescape_and_decode_value(&reader).map_err(|e| e.to_string());
                            let double = value
                                .as_ref()
                                .ok()
                                .and_then(|v| v.parse::<f64>().ok())
                                .map(f64::to_bits);
                            XmlAttribute { key: a.key.to_vec(), value, double }
                        })
                    })
                    .collect();
                out.push(XmlEvent::Start { name: t.name().to_vec(), attributes });
            }
            Ok(Event::End(t)) => out.push(XmlEvent::End { name: t.name().to_vec() }),
            Ok(other) => out.push(XmlEvent::Other { description: format!("{:?}", other) }),
        }
        buf.clear();
    }
    out
}

/// Writes the events with a quick-xml writer indenting by four spaces, then a newline.
fn render(events: Vec<XmlOut>) -> String {
    let mut writer = Writer::new_with_indent(Vec::new(), b' ', 4);
    let start_of = |name: Vec<u8>, attributes: Vec<(Vec<u8>, AttrText)>| {
        let mut tag = BytesStart::owned_name(name);
        for (key, value) in attributes {
            let value = match value {
                AttrText::Text(s) => s.into_bytes(),
                AttrText::Double(bits) => f64::from_bits(bits).to_string().into_bytes(),
            };
            tag.push_attribute(Attribute { key: &key, value: Cow::Owned(value) });
        }
        tag
    };
    for e in events {
        match e {
            XmlOut::Decl => writer
                .write_event(Event::Decl(BytesDecl::new(b"1.0", Some(b"UTF-8"), None)))
                .unwrap(),
            XmlOut::Empty { name, attributes } => {
                writer.write_event(Event::Empty(start_of(name, attributes))).unwrap()
            }
            XmlOut::Start { name, attributes } => {
                writer.write_event(Event::Start(start_of(name, attributes))).unwrap()
            }
            XmlOut::End { name } => writer.write_event(Event::End(BytesEnd::owned(name))).unwrap(),
        }
    }
    writer.inner().write_all(b"\n").unwrap();
    String::from_utf8(writer.into_inner()).unwrap()
}

fn value(t: TypedValue) -> Value {
    Value { value: t, props: Properties::Empty }
}

fn props(entries: Vec<(&str, Value)>) -> Properties {
    let mut m = OrdMap::new();
    for (k, v) in entries {
        m.insert(k.to_string(), v);
    }
    Properties::Entries(m)
}

const PANEL_XML: &str = r#"<?xml version="1.0" encoding="UTF-8"?>
<channel name="panel" version="1.0">
    <property name="bar" type="empty">
        <property name="baz" type="string" value="qux"/>
    </property>
    <property name="foo" type="array">
        <value type="bool" value="true"/>
        <value type="bool" value="false"/>
    </property>
</channel>
"#;

#[test]
fn read_xml() {
    let channel = Channel::read_xml(&events_of(PANEL_XML)).ok().unwrap();
    assert_eq!(channel.name, "panel");
    assert_eq!(channel.version, "1.0");
    assert_eq!(channel.props.len(), 2);
    let (k, bar) = channel.props.entry_at(0);
    assert_eq!(k, "bar");
    assert!(matches!(bar.value, TypedValue::Empty));
    assert_eq!(bar.props.len(), 1);
    let (k, baz) = bar.props.entry_at(0);
    assert_eq!(k, "baz");
    assert!(matches!(&baz.value, TypedValue::String(s) if s == "qux"));
    assert_eq!(baz.props.len(), 0);
    let (k, foo) = channel.props.entry_at(1);
    assert_eq!(k, "foo");
    assert_eq!(foo.props.len(), 0);
    match &foo.value {
        TypedValue::Array(items) => {
            assert_eq!(items.len(), 2);
            assert!(matches!(items[0].value, TypedValue::Bool(true)));
            assert_eq!(items[0].props.len(), 0);
            assert!(matches!(items[1].value, TypedValue::Bool(false)));
            assert_eq!(items[1].props.len(), 0);
        }
        _ => panic!("foo is not an array"),
    }
}

#[test]
fn write_xml() {
    let channel = Channel {
        name: "panel".to_string(),
        version: "1.0".to_string(),
        props: props(vec![
            (
                "foo",
                value(TypedValue::Array(vec![
                    value(TypedValue::Bool(true)),
                    value(TypedValue::Bool(false)),
                ])),
            ),
            (
                "bar",
                Value {
                    value: TypedValue::Empty,
                    props: props(vec![("baz", value(TypedValue::String("qux".to_string())))]),
                },
            ),
        ]),
    };
    assert_eq!(render(channel.write_xml()), PANEL_XML);
}

#[test]
fn write_then_read_gives_the_channel_back() {
    let channel = Channel {
        name: "ch".to_string(),
        version: "1.0".to_string(),
        props: props(vec![
            ("i", value(TypedValue::Int(-42))),
            ("u", value(TypedValue::Uint(4000000000))),
            ("d", value(TypedValue::Double(2.5f64.to_bits()))),
        ]),
    };
    let back = Channel::read_xml(&events_of(&render(channel.write_xml()))).ok().unwrap();
    assert_eq!(back.name, "ch");
    assert_eq!(back.props.len(), 3);
    assert!(matches!(back.props.entry_at(0).1.value, TypedValue::Double(b) if b == 2.5f64.to_bits()));
    assert!(matches!(back.props.entry_at(1).1.value, TypedValue::Int(-42)));
    assert!(matches!(back.props.entry_at(2).1.value, TypedValue::Uint(4000000000)));
}

#[test]
fn empty_channel_is_one_empty_tag() {
    let channel =
        Channel { name: "c".to_string(), version: "2".to_string(), props: Properties::Empty };
    assert_eq!(
        render(channel.write_xml()),
        "<?xml version=\"1.0\" encoding=\"UTF-8\"?>\n<channel name=\"c\" version=\"2\"/>\n"
    );
}

fn read_err(xml: &str) -> ChannelXmlError {
    match Channel::read_xml(&events_of(xml)) {
        Ok(_) => panic!("expected an error"),
        Err(e) => e,
    }
}

#[test]
fn read_xml_refusals() {
    let decl = "<?xml version=\"1.0\" encoding=\"UTF-8\"?>\n";
    assert!(matches!(read_err("<channel/>"), ChannelXmlError::ExpectedDecl(_)));
    assert!(matches!(
        read_err("<?xml version=\"1.1\" encoding=\"UTF-8\"?><channel/>"),
        ChannelXmlError::UnexpectedVersion(v) if v == b"1.1".to_vec()
    ));
    assert!(matches!(
        read_err("<?xml version=\"1.0\"?><channel/>"),
        ChannelXmlError::MissingEncoding
    ));
    assert!(matches!(
        read_err("<?xml version=\"1.0\" encoding=\"latin1\"?><channel/>"),
        ChannelXmlError::UnexpectedEncoding(e) if e == b"latin1".to_vec()
    ));
    assert!(matches!(
        read_err(&format!("{}<chan name=\"a\" version=\"1\"/>", decl)),
        ChannelXmlError::ExpectedChannelTag
    ));
    assert!(matches!(
        read_err(&format!("{}<channel version=\"1\"/>", decl)),
        ChannelXmlError::MissingName
    ));
    assert!(matches!(
        read_err(&format!("{}<channel name=\"a\"/>", decl)),
        ChannelXmlError::MissingVersion
    ));
    assert!(matches!(
        read_err(&format!("{}<channel name=\"a\" version=\"1\" x=\"y\"/>", decl)),
        ChannelXmlError::UnexpectedAttribute(k) if k == b"x".to_vec()
    ));
    let with = |body: &str| format!("{}<channel name=\"a\" version=\"1\">{}</channel>", decl, body);
    assert!(matches!(
        read_err(&with("<property name=\"p\" type=\"int\" value=\"x\"/>")),
        ChannelXmlError::BadInt
    ));
    assert!(matches!(
        read_err(&with("<property name=\"p\" type=\"uint\" value=\"-1\"/>")),
        ChannelXmlError::BadUint
    ));
    assert!(matches!(
        read_err(&with("<property name=\"p\" type=\"bool\" value=\"yes\"/>")),
        ChannelXmlError::BadBool
    ));
    assert!(matches!(
        read_err(&with("<property name=\"p\" type=\"double\" value=\"z\"/>")),
        ChannelXmlError::BadDouble
    ));
    assert!(matches!(
        read_err(&with("<property name=\"p\" type=\"int\"/>")),
        ChannelXmlError::MissingValue
    ));
    assert!(matches!(
        read_err(&with("<property name=\"p\" value=\"1\"/>")),
        ChannelXmlError::MissingType
    ));
    assert!(matches!(
        read_err(&with("<property name=\"p\" type=\"thing\"/>")),
        ChannelXmlError::UnexpectedValueType(t) if t == "thing"
    ));
    assert!(matches!(
        read_err(&with("<property name=\"p\" type=\"empty\"/><property name=\"p\" type=\"empty\"/>")),
        ChannelXmlError::DuplicateProperty(n) if n == "p"
    ));
    assert!(matches!(
        read_err(&with("<property name=\"p\" type=\"empty\"><value type=\"int\" value=\"1\"/></property>")),
        ChannelXmlError::UnexpectedValueTags(t) if t == b"channel".to_vec()
    ));
    assert!(matches!(
        read_err(&with("<value type=\"int\" value=\"1\"/>")),
        ChannelXmlError::UnexpectedValueTags(t) if t == b"channel".to_vec()
    ));
    assert!(matches!(read_err(&with("<other/>")), ChannelXmlError::UnexpectedTag(t) if t == b"other".to_vec()));
    assert!(matches!(read_err(&with("text")), ChannelXmlError::UnexpectedEvent(_)));
    assert!(matches!(
        read_err(&format!("{}<channel name=\"a\" version=\"1\">", decl)),
        ChannelXmlError::UnexpectedEvent(_)
    ));
}

#[test]
fn read_xml_parses_numbers_as_std_does() {
    let decl = "<?xml version=\"1.0\" encoding=\"UTF-8\"?>\n";
    let doc = format!(
        "{}<channel name=\"a\" version=\"1\"><property name=\"i\" type=\"int\" value=\"+7\"/><property name=\"u\" type=\"uint\" value=\"4294967295\"/></channel>",
        decl
    );
    let c = Channel::read_xml(&events_of(&doc)).ok().unwrap();
    assert!(matches!(c.props.entry_at(0).1.value, TypedValue::Int(7)));
    assert!(matches!(c.props.entry_at(1).1.value, TypedValue::Uint(4294967295)));
    let too_big = format!(
        "{}<channel name=\"a\" version=\"1\"><property name=\"u\" type=\"uint\" value=\"4294967296\"/></channel>",
        decl
    );
    assert!(matches!(
        Channel::read_xml(&events_of(&too_big)),
        Err(ChannelXmlError::BadUint)
    ));
}

#[test]
fn applier_is_made() {
    assert!(ChannelsApplier::new().is_ok());
}

use xfce_config::channel::{ChangeValue, ChannelChange, ChannelPatch, Channels, ChannelsPatch};
use xfce_config::serde::IdMap;

fn doc(name: &str, version: &str, p: Properties) -> Channel {
    Channel { name: name.to_string(), version: version.to_string(), props: p }
}

fn panel_doc(plugin_kind: &str, with_extra: bool) -> Channel {
    let mut plugin_props = vec![("size", value(TypedValue::Uint(16)))];
    if with_extra {
        plugin_props.push(("extra", value(TypedValue::Bool(true))));
    }
    let plugin = Value {
        value: TypedValue::String(plugin_kind.to_string()),
        props: props(plugin_props),
    };
    let mut panels = vec![("dark-mode", value(TypedValue::Bool(true)))];
    if with_extra {
        panels.push(("panel-2", value(TypedValue::Empty)));
    }
    doc(
        "xfce4-panel",
        "1.0",
        props(vec![
            ("plugins", Value { value: TypedValue::Empty, props: props(vec![("plugin-1", plugin)]) }),
            ("panels", Value { value: TypedValue::Empty, props: props(panels) }),
        ]),
    )
}

fn plan_text(patch: &ChannelsPatch) -> Vec<String> {
    patch
        .plan()
        .into_iter()
        .map(|c| match c {
            ChannelChange::SetProperty { path, value } => {
                let v = match value {
                    ChangeValue::Bool(b) => b.to_string(),
                    ChangeValue::Int(n) => n.to_string(),
                    ChangeValue::Uint(n) => n.to_string(),
                    ChangeValue::Double(d) => f64::from_bits(d).to_string(),
                    ChangeValue::String(s) => s,
                    ChangeValue::Array(a) => format!("array of {}", a.len()),
                };
                format!("set {} to {}", path, v)
            }
            ChannelChange::RemoveProperty { path } => format!("remove {}", path),
        })
        .collect()
}

#[test]
fn channel_docs_diff_clears_panel_entries() {
    let old = Channels(IdMap::from_items(vec![panel_doc("clock", true)]));
    let new = Channels(IdMap::from_items(vec![panel_doc("clock", false)]));
    let patch = ChannelsPatch::diff(old, new);
    assert!(!patch.is_empty());
    assert_eq!(
        plan_text(&patch),
        vec!["remove xfce4-panel/panels/panel-2".to_string()]
    );
}

#[test]
fn channel_docs_diff_replaces_plugin_of_new_kind() {
    let old = Channels(IdMap::from_items(vec![panel_doc("clock", true)]));
    let new = Channels(IdMap::from_items(vec![panel_doc("launcher", false)]));
    let patch = ChannelsPatch::diff(old, new);
    assert_eq!(
        plan_text(&patch),
        vec![
            "remove xfce4-panel/panels/panel-2".to_string(),
            "set xfce4-panel/plugins/plugin-1 to launcher".to_string(),
            "remove xfce4-panel/plugins/plugin-1/extra".to_string(),
        ]
    );
}

#[test]
fn channel_docs_diff_keeps_extra_props_elsewhere_and_adds_docs() {
    let old = Channels(IdMap::from_items(vec![doc(
        "other",
        "1.0",
        props(vec![("a", value(TypedValue::Int(1))), ("b", value(TypedValue::Int(2)))]),
    )]));
    let new = Channels(IdMap::from_items(vec![
        doc("other", "2.0", props(vec![("a", value(TypedValue::Int(3)))])),
        doc("fresh", "1.0", props(vec![("x", value(TypedValue::String("y".to_string())))])),
    ]));
    let patch = ChannelsPatch::diff(old, new);
    assert_eq!(patch.added.len(), 1);
    assert_eq!(patch.changed.len(), 1);
    assert_eq!(plan_text(&patch), vec!["set other/a to 3".to_string(), "set fresh/x to y".to_string()]);
    let same = ChannelsPatch::diff(
        Channels(IdMap::from_items(vec![panel_doc("clock", true)])),
        Channels(IdMap::from_items(vec![panel_doc("clock", true)])),
    );
    assert!(same.is_empty());
    assert!(same.plan().is_empty());
}

#[test]
fn channel_doc_version_change_is_a_change() {
    let p = ChannelPatch::diff(doc("c", "1.0", Properties::Empty), doc("c", "1.1", Properties::Empty));
    assert!(!p.is_empty());
    assert_eq!(p.version.value, Some("1.1".to_string()));
    assert!(p.name.value.is_none());
}
