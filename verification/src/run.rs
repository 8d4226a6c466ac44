//! The full conversion: LCOV trace text in, Checkstyle XML bytes out.

use vstd::prelude::*;

use crate::emit::{checkstyle_xml, convert_to_checkstyle_format, lit_checkstyle, lit_version,
    lit_version_value};
use crate::parse::{all_ok, fold_lines, is_brda, is_da, is_sf, parse_lcov, step, ParseError};
use crate::report::{report_wf, RecordModel};
use crate::text::lines_of;

verus! {

/// Parses LCOV text and renders the Checkstyle document. Succeeds exactly
/// when every `DA:`/`BRDA:` line has well-formed required numeric fields;
/// the output is a function of the input text alone, so the same text
/// always yields byte-identical output, wherever it was read from.
pub fn lcov_to_checkstyle(data: &[u8]) -> (r: Result<Vec<u8>, ParseError>)
    ensures
        r is Ok <==> all_ok(lines_of(data@)),
        r is Ok ==> r->Ok_0@ == checkstyle_xml(fold_lines(lines_of(data@)).files),
        r is Ok ==> report_wf(fold_lines(lines_of(data@)).files),
{
    match parse_lcov(data) {
        Ok(report) => Ok(convert_to_checkstyle_format(report)),
        Err(e) => Err(e),
    }
}

/// The document for an empty report: `<checkstyle version="4.3">`, a
/// newline, `</checkstyle>`.
pub open spec fn empty_doc_bytes() -> Seq<u8> {
    seq![
        '<' as u8, 'c' as u8, 'h' as u8, 'e' as u8, 'c' as u8, 'k' as u8, 's' as u8, 't' as u8,
        'y' as u8, 'l' as u8, 'e' as u8, ' ' as u8, 'v' as u8, 'e' as u8, 'r' as u8, 's' as u8,
        'i' as u8, 'o' as u8, 'n' as u8, '=' as u8, '"' as u8, '4' as u8, '.' as u8, '3' as u8,
        '"' as u8, '>' as u8, '\n' as u8, '<' as u8, '/' as u8, 'c' as u8, 'h' as u8, 'e' as u8,
        'c' as u8, 'k' as u8, 's' as u8, 't' as u8, 'y' as u8, 'l' as u8, 'e' as u8, '>' as u8,
    ]
}

/// The document built over an empty report is exactly
/// `<checkstyle version="4.3">` followed by a newline and `</checkstyle>`.
#[verifier::rlimit(100)]
pub proof fn lemma_empty_doc()
    ensures
        checkstyle_xml(Seq::<(Seq<u8>, RecordModel)>::empty()) == empty_doc_bytes(),
{
    reveal_with_fuel(crate::xml::attrs_bytes, 3);
    let e = Seq::<(Seq<u8>, RecordModel)>::empty();
    assert(crate::emit::files_blocks(e) == Seq::<u8>::empty());
    assert(seq![(lit_version(), lit_version_value())].drop_last() =~= Seq::<
        (Seq<u8>, Seq<u8>),
    >::empty());
    let attrs = crate::xml::attrs_bytes(seq![(lit_version(), lit_version_value())]);
    assert(seq![(lit_version(), lit_version_value())].last() == (
        lit_version(),
        lit_version_value(),
    ));
    assert(attrs =~= seq![' ' as u8] + lit_version() + seq!['=' as u8, '"' as u8]
        + lit_version_value() + seq!['"' as u8]);
    assert(attrs =~= seq![
        ' ' as u8, 'v' as u8, 'e' as u8, 'r' as u8, 's' as u8, 'i' as u8, 'o' as u8, 'n' as u8,
        '=' as u8, '"' as u8, '4' as u8, '.' as u8, '3' as u8, '"' as u8,
    ]);
    let open = crate::xml::open_tag_bytes(
        lit_checkstyle(),
        seq![(lit_version(), lit_version_value())],
    );
    assert(open =~= empty_doc_bytes().take(26));
    assert(crate::xml::spaces(0) =~= Seq::<u8>::empty());
    assert(crate::xml::break_bytes(0, true) =~= seq!['\n' as u8]);
    assert(crate::xml::close_tag_bytes(lit_checkstyle()) =~= empty_doc_bytes().skip(27));
    assert(checkstyle_xml(e) =~= empty_doc_bytes());
}

/// On input with no `SF:`, `DA:` or `BRDA:` line, parsing accepts, the
/// report is empty, and the document is exactly
/// `<checkstyle version="4.3">` followed by a newline and `</checkstyle>`.
pub proof fn lemma_no_directives_empty_output(lines: Seq<Seq<u8>>)
    requires
        forall|i: int|
            0 <= i < lines.len() ==> !is_sf(#[trigger] lines[i]) && !is_da(lines[i]) && !is_brda(
                lines[i],
            ),
    ensures
        all_ok(lines),
        fold_lines(lines).files == Seq::<(Seq<u8>, RecordModel)>::empty(),
        checkstyle_xml(fold_lines(lines).files) == empty_doc_bytes(),
    decreases lines.len(),
{
    if lines.len() == 0 {
    } else {
        assert(forall|i: int|
            0 <= i < lines.len() - 1 ==> #[trigger] lines.drop_last()[i] == lines[i]);
        lemma_no_directives_empty_output(lines.drop_last());
        assert(step(fold_lines(lines.drop_last()), lines.last()) == fold_lines(
            lines.drop_last(),
        ));
    }
    assert(all_ok(lines));
    lemma_empty_doc();
}

} // verus!
