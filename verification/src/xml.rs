//! The XML events the rule-file readers consume, as `quick-xml` reports them.
//!
//! The reading of a document is named by an uninterpreted function of its
//! text: the events up to the first error, and that error's message. Every
//! reader in this crate is a verified function of that event sequence.

use vstd::prelude::*;
use crate::dict::{lossy_utf8, utf8_lossy};
use crate::regex::opt_view;
use crate::text::{chars_to_string, lit, str_chars, string_chars};
use quick_xml::events::Event;

verus! {

#[verifier::external_type_specification]
#[verifier::external_body]
pub struct ExXmlEvent<'a>(quick_xml::events::Event<'a>);

/// One event of a document: tag names are local names; attributes are
/// `(local name, raw value)` pairs, malformed ones left out.
pub enum XmlEvent {
    Start(Vec<u8>, Vec<(Vec<u8>, Vec<u8>)>),
    Empty(Vec<u8>, Vec<(Vec<u8>, Vec<u8>)>),
    End(Vec<u8>),
    /// Escaped character data.
    Text(Vec<u8>),
    /// A general reference `&name;`, with the character it denotes when it is
    /// a valid character reference.
    Ref(Vec<u8>, Option<char>),
    /// Comments, declarations, CDATA and the like.
    Other,
}

/// An event as bytes and characters.
pub enum XmlEventV {
    Start(Seq<u8>, Seq<(Seq<u8>, Seq<u8>)>),
    Empty(Seq<u8>, Seq<(Seq<u8>, Seq<u8>)>),
    End(Seq<u8>),
    Text(Seq<u8>),
    Ref(Seq<u8>, Option<char>),
    Other,
}

pub open spec fn attrs_view(a: Seq<(Vec<u8>, Vec<u8>)>) -> Seq<(Seq<u8>, Seq<u8>)> {
    a.map_values(|p: (Vec<u8>, Vec<u8>)| (p.0@, p.1@))
}

pub open spec fn event_view(e: XmlEvent) -> XmlEventV {
    match e {
        XmlEvent::Start(n, a) => XmlEventV::Start(n@, attrs_view(a@)),
        XmlEvent::Empty(n, a) => XmlEventV::Empty(n@, attrs_view(a@)),
        XmlEvent::End(n) => XmlEventV::End(n@),
        XmlEvent::Text(t) => XmlEventV::Text(t@),
        XmlEvent::Ref(n, c) => XmlEventV::Ref(n@, c),
        XmlEvent::Other => XmlEventV::Other,
    }
}

pub open spec fn events_view(v: Seq<XmlEvent>) -> Seq<XmlEventV> {
    v.map_values(|e: XmlEvent| event_view(e))
}

/// What `quick_xml::Reader::from_str` (text not trimmed) reads from a
/// document: the events before `Eof` or before the first error, and, if there
/// is one, the error's text together with the reader's error position.
pub uninterp spec fn xml_events(xml: Seq<char>) -> (Seq<XmlEventV>, Option<(Seq<char>, int)>);

/// `quick_xml::escape::unescape`: `None` when the text holds a malformed or
/// unknown escape.
pub uninterp spec fn xml_unescaped(raw: Seq<char>) -> Option<Seq<char>>;

/// Reads a whole document with `quick_xml::Reader` (`read_event` until `Eof`
/// or the first error); the result is the named reading of the text.
#[verifier::external_body]
pub(crate) fn read_events(xml: &str) -> (r: (Vec<XmlEvent>, Option<(String, u64)>))
    ensures
        (events_view(r.0@), error_view(r.1)) == xml_events(xml@),
{
    let mut reader = quick_xml::Reader::from_str(xml);
    reader.config_mut().trim_text(false);
    let mut out = Vec::new();
    loop {
        match reader.read_event() {
            Ok(quick_xml::events::Event::Eof) => return (out, None),
            Ok(ev) => out.push(convert_event(ev)),
            Err(e) => return (out, Some((e.to_string(), reader.error_position()))),
        }
    }
}

/// View of a reading error: its text and position.
pub open spec fn error_view(e: Option<(String, u64)>) -> Option<(Seq<char>, int)> {
    match e {
        Some((m, p)) => Some((m@, p as int)),
        None => None,
    }
}

/// The message the rule-file readers give for a reading error.
pub open spec fn xml_error_text(e: Option<(Seq<char>, int)>) -> Option<Seq<char>> {
    match e {
        Some((m, _)) => Some("XML error: "@ + m),
        None => None,
    }
}

pub fn error_text(e: &Option<(String, u64)>) -> (r: Option<String>)
    ensures
        opt_view(r) == xml_error_text(error_view(*e)),
{
    match e {
        Some((m, _)) => {
            let mut c = lit("XML error: ");
            let mc = string_chars(m);
            crate::text::append_chars(&mut c, &mc);
            Some(chars_to_string(&c))
        },
        None => None,
    }
}

#[verifier::external_type_specification]
#[verifier::external_body]
pub struct ExBytesStart<'a>(quick_xml::events::BytesStart<'a>);

/// The local name of an opening tag and its well-formed attributes as
/// `(local name, raw value)`; the result is covered by the contract of
/// [`read_events`].
#[verifier::external_body]
fn start_parts(e: &quick_xml::events::BytesStart<'_>) -> (Vec<u8>, Vec<(Vec<u8>, Vec<u8>)>) {
    let attrs = e.attributes().flatten();
    let attrs = attrs.map(|a| (a.key.local_name().as_ref().to_vec(), a.value.to_vec()));
    (e.local_name().as_ref().to_vec(), attrs.collect())
}

/// Turns one `quick_xml` event into an [`XmlEvent`], field by field; the
/// result is covered by the contract of [`read_events`].
#[verifier::external_body]
fn convert_event(ev: quick_xml::events::Event<'_>) -> XmlEvent {
    match ev {
        Event::Start(e) => { let (n, a) = start_parts(&e); XmlEvent::Start(n, a) },
        Event::Empty(e) => { let (n, a) = start_parts(&e); XmlEvent::Empty(n, a) },
        Event::End(e) => XmlEvent::End(e.local_name().as_ref().to_vec()),
        Event::Text(t) => XmlEvent::Text(t.to_vec()),
        Event::GeneralRef(r) => XmlEvent::Ref(r.to_vec(), r.resolve_char_ref().ok().flatten()),
        _ => XmlEvent::Other,
    }
}

/// Wraps `quick_xml::escape::unescape`; the result is the named unescaping.
#[verifier::external_body]
pub(crate) fn unescape_chars(raw: &[char]) -> (r: Option<Vec<char>>)
    ensures
        match r {
            Some(v) => xml_unescaped(raw@) == Some(v@),
            None => xml_unescaped(raw@) is None,
        },
{
    let s: String = raw.iter().collect();
    quick_xml::escape::unescape(&s).ok().map(|c| c.chars().collect())
}

/// The characters of a byte string, decoded leniently.
pub open spec fn lossy(b: Seq<u8>) -> Seq<char> {
    lossy_utf8(b)
}

pub fn lossy_chars(b: &Vec<u8>) -> (r: Vec<char>)
    ensures
        r@ == lossy(b@),
{
    let s = utf8_lossy(b.as_slice());
    string_chars(&s)
}

/// The value of the first attribute named `key`.
pub open spec fn attr_spec(attrs: Seq<(Seq<u8>, Seq<u8>)>, key: Seq<char>) -> Option<Seq<char>>
    decreases attrs.len(),
{
    if attrs.len() == 0 {
        None
    } else if lossy(attrs[0].0) == key {
        Some(lossy(attrs[0].1))
    } else {
        attr_spec(attrs.drop_first(), key)
    }
}

/// The value of the first attribute named `key`.
pub fn attr(attrs: &Vec<(Vec<u8>, Vec<u8>)>, key: &str) -> (r: Option<Vec<char>>)
    ensures
        match r {
            Some(v) => attr_spec(attrs_view(attrs@), key@) == Some(v@),
            None => attr_spec(attrs_view(attrs@), key@) is None,
        },
{
    let k = str_chars(key);
    let ghost av = attrs_view(attrs@);
    let mut i: usize = 0;
    assert(av.skip(0) =~= av);
    while i < attrs.len()
        invariant
            i <= attrs@.len(),
            av == attrs_view(attrs@),
            k@ == key@,
            attr_spec(av, key@) == attr_spec(av.skip(i as int), key@),
        decreases attrs.len() - i,
    {
        assert(av.skip(i as int)[0] == (attrs@[i as int].0@, attrs@[i as int].1@));
        assert(av.skip(i as int).drop_first() =~= av.skip(i + 1));
        let name = lossy_chars(&attrs[i].0);
        if crate::text::chars_eq(&name, &k) {
            return Some(lossy_chars(&attrs[i].1));
        }
        i += 1;
    }
    None
}

/// The value of a `yes`/`no` attribute: whether it is exactly `yes`.
pub open spec fn attr_yes(attrs: Seq<(Seq<u8>, Seq<u8>)>, key: Seq<char>) -> bool {
    attr_spec(attrs, key) == Some("yes"@)
}

pub fn attr_is_yes(attrs: &Vec<(Vec<u8>, Vec<u8>)>, key: &str) -> (r: bool)
    ensures
        r == attr_yes(attrs_view(attrs@), key@),
{
    match attr(attrs, key) {
        Some(v) => crate::text::chars_eq(&v, &lit("yes")),
        None => false,
    }
}

/// The text of a character-data event: decoded, then unescaped (the raw text
/// when it cannot be unescaped).
pub open spec fn text_of(raw: Seq<u8>) -> Seq<char> {
    match xml_unescaped(lossy(raw)) {
        Some(u) => u,
        None => lossy(raw),
    }
}

pub fn text_chars(raw: &Vec<u8>) -> (r: Vec<char>)
    ensures
        r@ == text_of(raw@),
{
    let l = lossy_chars(raw);
    match unescape_chars(&l) {
        Some(u) => u,
        None => l,
    }
}

/// The text a reference stands for: a character reference, or one of the
/// five predefined entities; other references stand for nothing.
pub open spec fn ref_text(name: Seq<u8>, ch: Option<char>) -> Option<Seq<char>> {
    match ch {
        Some(c) => Some(seq![c]),
        None => {
            let n = lossy(name);
            if n == "quot"@ {
                Some("\""@)
            } else if n == "amp"@ {
                Some("&"@)
            } else if n == "apos"@ {
                Some("'"@)
            } else if n == "lt"@ {
                Some("<"@)
            } else if n == "gt"@ {
                Some(">"@)
            } else {
                None
            }
        },
    }
}

pub fn ref_chars(name: &Vec<u8>, ch: Option<char>) -> (r: Option<Vec<char>>)
    ensures
        match r {
            Some(v) => ref_text(name@, ch) == Some(v@),
            None => ref_text(name@, ch) is None,
        },
{
    match ch {
        Some(c) => {
            let mut v: Vec<char> = Vec::new();
            v.push(c);
            assert(v@ =~= seq![c]);
            Some(v)
        },
        None => {
            let n = lossy_chars(name);
            if crate::text::chars_eq(&n, &lit("quot")) {
                Some(lit("\""))
            } else if crate::text::chars_eq(&n, &lit("amp")) {
                Some(lit("&"))
            } else if crate::text::chars_eq(&n, &lit("apos")) {
                Some(lit("'"))
            } else if crate::text::chars_eq(&n, &lit("lt")) {
                Some(lit("<"))
            } else if crate::text::chars_eq(&n, &lit("gt")) {
                Some(lit(">"))
            } else {
                None
            }
        },
    }
}

/// Whether a tag's local name is `name`.
#[verifier::opaque]
pub open spec fn is_tag(n: Seq<u8>, name: Seq<char>) -> bool {
    lossy(n) == name
}

pub fn tag_is(n: &Vec<u8>, name: &str) -> (r: bool)
    ensures
        r == is_tag(n@, name@),
{
    proof {
        reveal(is_tag);
    }
    crate::text::chars_eq(&lossy_chars(n), &str_chars(name))
}

/// `push_unique`: adds `s` unless already listed.
pub open spec fn note(list: Seq<Seq<char>>, s: Seq<char>) -> Seq<Seq<char>> {
    if list.contains(s) {
        list
    } else {
        list.push(s)
    }
}

pub open spec fn string_views(v: Seq<String>) -> Seq<Seq<char>> {
    v.map_values(|s: String| s@)
}

/// Adds `s` to `list` unless it is already there.
pub fn push_unique(list: &mut Vec<String>, s: &str)
    ensures
        string_views(final(list)@) == note(string_views(old(list)@), s@),
{
    let ghost lv = string_views(list@);
    let sc = str_chars(s);
    let mut i: usize = 0;
    while i < list.len()
        invariant
            i <= list@.len(),
            lv == string_views(list@),
            sc@ == s@,
            forall|k: int| 0 <= k < i ==> lv[k] != s@,
        decreases list.len() - i,
    {
        if crate::text::chars_eq(&string_chars(&list[i]), &sc) {
            assert(lv[i as int] == s@);
            assert(lv.contains(s@));
            return;
        }
        i += 1;
    }
    assert(!lv.contains(s@));
    list.push(s.to_owned());
    assert(string_views(list@) =~= lv.push(s@));
}

} // verus!
