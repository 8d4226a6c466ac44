//! Trusted interface to quick_xml's indenting XML event writer.
//!
//! The writer is modelled by three names: the bytes it has produced, its
//! current nesting level, and whether a line break is pending before the
//! next tag. Each wrapper states, over those names, exactly what
//! `Writer::write_event` appends for the event it writes, as quick_xml
//! renders it: a pending break is a newline plus four spaces of
//! indentation per level, tags are `<name k="v"...>`, `<name .../>` or
//! `</name>`, and attribute bytes are taken as-is.

use vstd::prelude::*;

use quick_xml::events::{BytesEnd, BytesStart, Event};
use quick_xml::Writer;

verus! {

#[verifier::external_type_specification]
#[verifier::external_body]
#[verifier::reject_recursive_types(W)]
pub struct ExWriter<W>(Writer<W>);

/// The bytes the writer has produced so far.
pub uninterp spec fn writer_bytes(w: Writer<Vec<u8>>) -> Seq<u8>;

/// How many elements are open: the writer's current indent level.
pub uninterp spec fn writer_level(w: Writer<Vec<u8>>) -> nat;

/// Whether a line break and indentation are pending before the next tag.
pub uninterp spec fn writer_break(w: Writer<Vec<u8>>) -> bool;

/// Every byte is ASCII.
pub open spec fn ascii_all(s: Seq<u8>) -> bool {
    forall|i: int| 0 <= i < s.len() ==> (#[trigger] s[i]) < 128
}

/// `n` space characters.
pub open spec fn spaces(n: nat) -> Seq<u8> {
    Seq::new(n, |i: int| ' ' as u8)
}

/// The newline plus indentation written before a tag when a break is
/// pending, and nothing otherwise.
pub open spec fn break_bytes(level: nat, brk: bool) -> Seq<u8> {
    if brk {
        seq!['\n' as u8] + spaces(4 * level)
    } else {
        Seq::empty()
    }
}

/// Attributes as rendered into a tag: ` key="value"` for each pair.
pub open spec fn attrs_bytes(attrs: Seq<(Seq<u8>, Seq<u8>)>) -> Seq<u8>
    decreases attrs.len(),
{
    if attrs.len() == 0 {
        Seq::empty()
    } else {
        attrs_bytes(attrs.drop_last()) + seq![' ' as u8] + attrs.last().0 + seq![
            '=' as u8,
            '"' as u8,
        ] + attrs.last().1 + seq!['"' as u8]
    }
}

/// The view of an attribute list.
pub open spec fn attrs_view(attrs: Seq<(Vec<u8>, Vec<u8>)>) -> Seq<(Seq<u8>, Seq<u8>)> {
    attrs.map_values(|p: (Vec<u8>, Vec<u8>)| (p.0@, p.1@))
}

/// `<name k="v"...>`
pub open spec fn open_tag_bytes(name: Seq<u8>, attrs: Seq<(Seq<u8>, Seq<u8>)>) -> Seq<u8> {
    seq!['<' as u8] + name + attrs_bytes(attrs) + seq!['>' as u8]
}

/// `<name k="v".../>`
pub open spec fn empty_tag_bytes(name: Seq<u8>, attrs: Seq<(Seq<u8>, Seq<u8>)>) -> Seq<u8> {
    seq!['<' as u8] + name + attrs_bytes(attrs) + seq!['/' as u8, '>' as u8]
}

/// `</name>`
pub open spec fn close_tag_bytes(name: Seq<u8>) -> Seq<u8> {
    seq!['<' as u8, '/' as u8] + name + seq!['>' as u8]
}

/// Relies on quick_xml's `Writer::new_with_indent`: a fresh writer over an
/// empty buffer, indenting with four space characters per level; nothing
/// written yet and no line break pending.
#[verifier::external_body]
pub(crate) fn xml_writer_new() -> (w: Writer<Vec<u8>>)
    ensures
        writer_bytes(w) == Seq::<u8>::empty(),
        writer_level(w) == 0,
        writer_break(w) == false,
{
    Writer::new_with_indent(Vec::new(), 32, 4)
}

/// Relies on quick_xml's `Writer::write_event` with `Event::Start`, and on
/// `BytesStart::new` / `push_attribute` with raw byte attribute pairs,
/// which are stored without any transformation: appends any pending break,
/// then `<name k="v"...>`, raises the level, and leaves a break pending.
/// Writing into a `Vec<u8>` buffer cannot fail.
#[verifier::external_body]
pub(crate) fn xml_write_start(
    w: &mut Writer<Vec<u8>>,
    name: &[u8],
    attrs: &Vec<(Vec<u8>, Vec<u8>)>,
)
    requires
        ascii_all(name@),
        writer_level(*old(w)) < 1000,
    ensures
        writer_bytes(*final(w)) == writer_bytes(*old(w)) + break_bytes(
            writer_level(*old(w)),
            writer_break(*old(w)),
        ) + open_tag_bytes(name@, attrs_view(attrs@)),
        writer_level(*final(w)) == writer_level(*old(w)) + 1,
        writer_break(*final(w)) == true,
{
    let mut e = BytesStart::new(core::str::from_utf8(name).unwrap());
    e.extend_attributes(attrs.iter().map(|p| (p.0.as_slice(), p.1.as_slice())));
    w.write_event(Event::Start(e)).unwrap();
}

/// Relies on quick_xml's `Writer::write_event` with `Event::Empty`, and on
/// `BytesStart::new` / `push_attribute` with raw byte attribute pairs,
/// which are stored without any transformation: appends any pending break,
/// then `<name k="v".../>`, keeps the level, and leaves a break pending.
/// Writing into a `Vec<u8>` buffer cannot fail.
#[verifier::external_body]
pub(crate) fn xml_write_empty(
    w: &mut Writer<Vec<u8>>,
    name: &[u8],
    attrs: &Vec<(Vec<u8>, Vec<u8>)>,
)
    requires
        ascii_all(name@),
    ensures
        writer_bytes(*final(w)) == writer_bytes(*old(w)) + break_bytes(
            writer_level(*old(w)),
            writer_break(*old(w)),
        ) + empty_tag_bytes(name@, attrs_view(attrs@)),
        writer_level(*final(w)) == writer_level(*old(w)),
        writer_break(*final(w)) == true,
{
    let mut e = BytesStart::new(core::str::from_utf8(name).unwrap());
    e.extend_attributes(attrs.iter().map(|p| (p.0.as_slice(), p.1.as_slice())));
    w.write_event(Event::Empty(e)).unwrap();
}

/// Relies on quick_xml's `Writer::write_event` with `Event::End` and on
/// `BytesEnd::new`: lowers the level first, appends any pending break at
/// the lowered level, then `</name>`, and leaves a break pending. Writing
/// into a `Vec<u8>` buffer cannot fail.
#[verifier::external_body]
pub(crate) fn xml_write_end(w: &mut Writer<Vec<u8>>, name: &[u8])
    requires
        ascii_all(name@),
        writer_level(*old(w)) >= 1,
    ensures
        writer_bytes(*final(w)) == writer_bytes(*old(w)) + break_bytes(
            (writer_level(*old(w)) - 1) as nat,
            writer_break(*old(w)),
        ) + close_tag_bytes(name@),
        writer_level(*final(w)) == writer_level(*old(w)) - 1,
        writer_break(*final(w)) == true,
{
    w.write_event(Event::End(BytesEnd::new(core::str::from_utf8(name).unwrap()))).unwrap();
}

/// Relies on quick_xml's `Writer::into_inner`: hands back the underlying
/// buffer, exactly the bytes written so far.
#[verifier::external_body]
pub(crate) fn xml_into_bytes(w: Writer<Vec<u8>>) -> (out: Vec<u8>)
    ensures
        out@ == writer_bytes(w),
{
    w.into_inner()
}

} // verus!
