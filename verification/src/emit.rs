//! The Checkstyle emitter: renders a [`CoverageReport`] as an indented
//! XML document, byte for byte.

use vstd::prelude::*;

use crate::group::{
    group_consecutive_lines, group_spec, groups_view, groups_wf, lemma_group_spec_wf,
};
use crate::report::{CoverageRecord, CoverageReport, RecordModel};
use crate::xml::{
    ascii_all, attrs_view, break_bytes, close_tag_bytes, empty_tag_bytes, open_tag_bytes,
    writer_break, writer_bytes, writer_level, xml_into_bytes, xml_write_empty, xml_write_end,
    xml_write_start, xml_writer_new,
};

verus! {

/// The bytes of `checkstyle`.
pub open spec fn lit_checkstyle() -> Seq<u8> {
    seq!['c' as u8, 'h' as u8, 'e' as u8, 'c' as u8, 'k' as u8, 's' as u8, 't' as u8, 'y' as u8, 'l' as u8, 'e' as u8]
}

pub fn lv_checkstyle() -> (v: Vec<u8>)
    ensures
        v@ == lit_checkstyle(),
{
    let mut v: Vec<u8> = Vec::new();
    v.push('c' as u8);
    v.push('h' as u8);
    v.push('e' as u8);
    v.push('c' as u8);
    v.push('k' as u8);
    v.push('s' as u8);
    v.push('t' as u8);
    v.push('y' as u8);
    v.push('l' as u8);
    v.push('e' as u8);
    proof {
        assert(v@ =~= lit_checkstyle());
    }
    v
}

/// The bytes of `file`.
pub open spec fn lit_file() -> Seq<u8> {
    seq!['f' as u8, 'i' as u8, 'l' as u8, 'e' as u8]
}

pub fn lv_file() -> (v: Vec<u8>)
    ensures
        v@ == lit_file(),
{
    let mut v: Vec<u8> = Vec::new();
    v.push('f' as u8);
    v.push('i' as u8);
    v.push('l' as u8);
    v.push('e' as u8);
    proof {
        assert(v@ =~= lit_file());
    }
    v
}

/// The bytes of `error`.
pub open spec fn lit_error() -> Seq<u8> {
    seq!['e' as u8, 'r' as u8, 'r' as u8, 'o' as u8, 'r' as u8]
}

pub fn lv_error() -> (v: Vec<u8>)
    ensures
        v@ == lit_error(),
{
    let mut v: Vec<u8> = Vec::new();
    v.push('e' as u8);
    v.push('r' as u8);
    v.push('r' as u8);
    v.push('o' as u8);
    v.push('r' as u8);
    proof {
        assert(v@ =~= lit_error());
    }
    v
}

/// The bytes of `version`.
pub open spec fn lit_version() -> Seq<u8> {
    seq!['v' as u8, 'e' as u8, 'r' as u8, 's' as u8, 'i' as u8, 'o' as u8, 'n' as u8]
}

pub fn lv_version() -> (v: Vec<u8>)
    ensures
        v@ == lit_version(),
{
    let mut v: Vec<u8> = Vec::new();
    v.push('v' as u8);
    v.push('e' as u8);
    v.push('r' as u8);
    v.push('s' as u8);
    v.push('i' as u8);
    v.push('o' as u8);
    v.push('n' as u8);
    proof {
        assert(v@ =~= lit_version());
    }
    v
}

/// The bytes of `name`.
pub open spec fn lit_name() -> Seq<u8> {
    seq!['n' as u8, 'a' as u8, 'm' as u8, 'e' as u8]
}

pub fn lv_name() -> (v: Vec<u8>)
    ensures
        v@ == lit_name(),
{
    let mut v: Vec<u8> = Vec::new();
    v.push('n' as u8);
    v.push('a' as u8);
    v.push('m' as u8);
    v.push('e' as u8);
    proof {
        assert(v@ =~= lit_name());
    }
    v
}

/// The bytes of `line`.
pub open spec fn lit_line() -> Seq<u8> {
    seq!['l' as u8, 'i' as u8, 'n' as u8, 'e' as u8]
}

pub fn lv_line() -> (v: Vec<u8>)
    ensures
        v@ == lit_line(),
{
    let mut v: Vec<u8> = Vec::new();
    v.push('l' as u8);
    v.push('i' as u8);
    v.push('n' as u8);
    v.push('e' as u8);
    proof {
        assert(v@ =~= lit_line());
    }
    v
}

/// The bytes of `severity`.
pub open spec fn lit_severity() -> Seq<u8> {
    seq!['s' as u8, 'e' as u8, 'v' as u8, 'e' as u8, 'r' as u8, 'i' as u8, 't' as u8, 'y' as u8]
}

pub fn lv_severity() -> (v: Vec<u8>)
    ensures
        v@ == lit_severity(),
{
    let mut v: Vec<u8> = Vec::new();
    v.push('s' as u8);
    v.push('e' as u8);
    v.push('v' as u8);
    v.push('e' as u8);
    v.push('r' as u8);
    v.push('i' as u8);
    v.push('t' as u8);
    v.push('y' as u8);
    proof {
        assert(v@ =~= lit_severity());
    }
    v
}

/// The bytes of `message`.
pub open spec fn lit_message() -> Seq<u8> {
    seq!['m' as u8, 'e' as u8, 's' as u8, 's' as u8, 'a' as u8, 'g' as u8, 'e' as u8]
}

pub fn lv_message() -> (v: Vec<u8>)
    ensures
        v@ == lit_message(),
{
    let mut v: Vec<u8> = Vec::new();
    v.push('m' as u8);
    v.push('e' as u8);
    v.push('s' as u8);
    v.push('s' as u8);
    v.push('a' as u8);
    v.push('g' as u8);
    v.push('e' as u8);
    proof {
        assert(v@ =~= lit_message());
    }
    v
}

/// The bytes of `source`.
pub open spec fn lit_source() -> Seq<u8> {
    seq!['s' as u8, 'o' as u8, 'u' as u8, 'r' as u8, 'c' as u8, 'e' as u8]
}

pub fn lv_source() -> (v: Vec<u8>)
    ensures
        v@ == lit_source(),
{
    let mut v: Vec<u8> = Vec::new();
    v.push('s' as u8);
    v.push('o' as u8);
    v.push('u' as u8);
    v.push('r' as u8);
    v.push('c' as u8);
    v.push('e' as u8);
    proof {
        assert(v@ =~= lit_source());
    }
    v
}

/// The bytes of `4.3`.
pub open spec fn lit_version_value() -> Seq<u8> {
    seq!['4' as u8, '.' as u8, '3' as u8]
}

pub fn lv_version_value() -> (v: Vec<u8>)
    ensures
        v@ == lit_version_value(),
{
    let mut v: Vec<u8> = Vec::new();
    v.push('4' as u8);
    v.push('.' as u8);
    v.push('3' as u8);
    proof {
        assert(v@ =~= lit_version_value());
    }
    v
}

/// The bytes of `warning`.
pub open spec fn lit_warning() -> Seq<u8> {
    seq!['w' as u8, 'a' as u8, 'r' as u8, 'n' as u8, 'i' as u8, 'n' as u8, 'g' as u8]
}

pub fn lv_warning() -> (v: Vec<u8>)
    ensures
        v@ == lit_warning(),
{
    let mut v: Vec<u8> = Vec::new();
    v.push('w' as u8);
    v.push('a' as u8);
    v.push('r' as u8);
    v.push('n' as u8);
    v.push('i' as u8);
    v.push('n' as u8);
    v.push('g' as u8);
    proof {
        assert(v@ =~= lit_warning());
    }
    v
}

/// The bytes of `coverage`.
pub open spec fn lit_coverage() -> Seq<u8> {
    seq!['c' as u8, 'o' as u8, 'v' as u8, 'e' as u8, 'r' as u8, 'a' as u8, 'g' as u8, 'e' as u8]
}

pub fn lv_coverage() -> (v: Vec<u8>)
    ensures
        v@ == lit_coverage(),
{
    let mut v: Vec<u8> = Vec::new();
    v.push('c' as u8);
    v.push('o' as u8);
    v.push('v' as u8);
    v.push('e' as u8);
    v.push('r' as u8);
    v.push('a' as u8);
    v.push('g' as u8);
    v.push('e' as u8);
    proof {
        assert(v@ =~= lit_coverage());
    }
    v
}

/// The bytes of `Line `.
pub open spec fn lit_line_sp() -> Seq<u8> {
    seq!['L' as u8, 'i' as u8, 'n' as u8, 'e' as u8, ' ' as u8]
}

pub fn lv_line_sp() -> (v: Vec<u8>)
    ensures
        v@ == lit_line_sp(),
{
    let mut v: Vec<u8> = Vec::new();
    v.push('L' as u8);
    v.push('i' as u8);
    v.push('n' as u8);
    v.push('e' as u8);
    v.push(' ' as u8);
    proof {
        assert(v@ =~= lit_line_sp());
    }
    v
}

/// The bytes of `Lines `.
pub open spec fn lit_lines_sp() -> Seq<u8> {
    seq!['L' as u8, 'i' as u8, 'n' as u8, 'e' as u8, 's' as u8, ' ' as u8]
}

pub fn lv_lines_sp() -> (v: Vec<u8>)
    ensures
        v@ == lit_lines_sp(),
{
    let mut v: Vec<u8> = Vec::new();
    v.push('L' as u8);
    v.push('i' as u8);
    v.push('n' as u8);
    v.push('e' as u8);
    v.push('s' as u8);
    v.push(' ' as u8);
    proof {
        assert(v@ =~= lit_lines_sp());
    }
    v
}

/// The bytes of `-`.
pub open spec fn lit_dash() -> Seq<u8> {
    seq!['-' as u8]
}

pub fn lv_dash() -> (v: Vec<u8>)
    ensures
        v@ == lit_dash(),
{
    let mut v: Vec<u8> = Vec::new();
    v.push('-' as u8);
    proof {
        assert(v@ =~= lit_dash());
    }
    v
}

/// The bytes of ` is not covered`.
pub open spec fn lit_is_not_covered() -> Seq<u8> {
    seq![' ' as u8, 'i' as u8, 's' as u8, ' ' as u8, 'n' as u8, 'o' as u8, 't' as u8, ' ' as u8, 'c' as u8, 'o' as u8, 'v' as u8, 'e' as u8, 'r' as u8, 'e' as u8, 'd' as u8]
}

pub fn lv_is_not_covered() -> (v: Vec<u8>)
    ensures
        v@ == lit_is_not_covered(),
{
    let mut v: Vec<u8> = Vec::new();
    v.push(' ' as u8);
    v.push('i' as u8);
    v.push('s' as u8);
    v.push(' ' as u8);
    v.push('n' as u8);
    v.push('o' as u8);
    v.push('t' as u8);
    v.push(' ' as u8);
    v.push('c' as u8);
    v.push('o' as u8);
    v.push('v' as u8);
    v.push('e' as u8);
    v.push('r' as u8);
    v.push('e' as u8);
    v.push('d' as u8);
    proof {
        assert(v@ =~= lit_is_not_covered());
    }
    v
}

/// The bytes of ` are not covered`.
pub open spec fn lit_are_not_covered() -> Seq<u8> {
    seq![' ' as u8, 'a' as u8, 'r' as u8, 'e' as u8, ' ' as u8, 'n' as u8, 'o' as u8, 't' as u8, ' ' as u8, 'c' as u8, 'o' as u8, 'v' as u8, 'e' as u8, 'r' as u8, 'e' as u8, 'd' as u8]
}

pub fn lv_are_not_covered() -> (v: Vec<u8>)
    ensures
        v@ == lit_are_not_covered(),
{
    let mut v: Vec<u8> = Vec::new();
    v.push(' ' as u8);
    v.push('a' as u8);
    v.push('r' as u8);
    v.push('e' as u8);
    v.push(' ' as u8);
    v.push('n' as u8);
    v.push('o' as u8);
    v.push('t' as u8);
    v.push(' ' as u8);
    v.push('c' as u8);
    v.push('o' as u8);
    v.push('v' as u8);
    v.push('e' as u8);
    v.push('r' as u8);
    v.push('e' as u8);
    v.push('d' as u8);
    proof {
        assert(v@ =~= lit_are_not_covered());
    }
    v
}

/// The bytes of ` has `.
pub open spec fn lit_has_sp() -> Seq<u8> {
    seq![' ' as u8, 'h' as u8, 'a' as u8, 's' as u8, ' ' as u8]
}

pub fn lv_has_sp() -> (v: Vec<u8>)
    ensures
        v@ == lit_has_sp(),
{
    let mut v: Vec<u8> = Vec::new();
    v.push(' ' as u8);
    v.push('h' as u8);
    v.push('a' as u8);
    v.push('s' as u8);
    v.push(' ' as u8);
    proof {
        assert(v@ =~= lit_has_sp());
    }
    v
}

/// The bytes of ` uncovered branches`.
pub open spec fn lit_uncovered_branches() -> Seq<u8> {
    seq![' ' as u8, 'u' as u8, 'n' as u8, 'c' as u8, 'o' as u8, 'v' as u8, 'e' as u8, 'r' as u8, 'e' as u8, 'd' as u8, ' ' as u8, 'b' as u8, 'r' as u8, 'a' as u8, 'n' as u8, 'c' as u8, 'h' as u8, 'e' as u8, 's' as u8]
}

pub fn lv_uncovered_branches() -> (v: Vec<u8>)
    ensures
        v@ == lit_uncovered_branches(),
{
    let mut v: Vec<u8> = Vec::new();
    v.push(' ' as u8);
    v.push('u' as u8);
    v.push('n' as u8);
    v.push('c' as u8);
    v.push('o' as u8);
    v.push('v' as u8);
    v.push('e' as u8);
    v.push('r' as u8);
    v.push('e' as u8);
    v.push('d' as u8);
    v.push(' ' as u8);
    v.push('b' as u8);
    v.push('r' as u8);
    v.push('a' as u8);
    v.push('n' as u8);
    v.push('c' as u8);
    v.push('h' as u8);
    v.push('e' as u8);
    v.push('s' as u8);
    proof {
        assert(v@ =~= lit_uncovered_branches());
    }
    v
}

/// The bytes of `&lt;`.
pub open spec fn lit_esc_lt() -> Seq<u8> {
    seq!['&' as u8, 'l' as u8, 't' as u8, ';' as u8]
}

pub fn lv_esc_lt() -> (v: Vec<u8>)
    ensures
        v@ == lit_esc_lt(),
{
    let mut v: Vec<u8> = Vec::new();
    v.push('&' as u8);
    v.push('l' as u8);
    v.push('t' as u8);
    v.push(';' as u8);
    proof {
        assert(v@ =~= lit_esc_lt());
    }
    v
}

/// The bytes of `&gt;`.
pub open spec fn lit_esc_gt() -> Seq<u8> {
    seq!['&' as u8, 'g' as u8, 't' as u8, ';' as u8]
}

pub fn lv_esc_gt() -> (v: Vec<u8>)
    ensures
        v@ == lit_esc_gt(),
{
    let mut v: Vec<u8> = Vec::new();
    v.push('&' as u8);
    v.push('g' as u8);
    v.push('t' as u8);
    v.push(';' as u8);
    proof {
        assert(v@ =~= lit_esc_gt());
    }
    v
}

/// The bytes of `&apos;`.
pub open spec fn lit_esc_apos() -> Seq<u8> {
    seq!['&' as u8, 'a' as u8, 'p' as u8, 'o' as u8, 's' as u8, ';' as u8]
}

pub fn lv_esc_apos() -> (v: Vec<u8>)
    ensures
        v@ == lit_esc_apos(),
{
    let mut v: Vec<u8> = Vec::new();
    v.push('&' as u8);
    v.push('a' as u8);
    v.push('p' as u8);
    v.push('o' as u8);
    v.push('s' as u8);
    v.push(';' as u8);
    proof {
        assert(v@ =~= lit_esc_apos());
    }
    v
}

/// The bytes of `&amp;`.
pub open spec fn lit_esc_amp() -> Seq<u8> {
    seq!['&' as u8, 'a' as u8, 'm' as u8, 'p' as u8, ';' as u8]
}

pub fn lv_esc_amp() -> (v: Vec<u8>)
    ensures
        v@ == lit_esc_amp(),
{
    let mut v: Vec<u8> = Vec::new();
    v.push('&' as u8);
    v.push('a' as u8);
    v.push('m' as u8);
    v.push('p' as u8);
    v.push(';' as u8);
    proof {
        assert(v@ =~= lit_esc_amp());
    }
    v
}

/// The bytes of `&quot;`.
pub open spec fn lit_esc_quot() -> Seq<u8> {
    seq!['&' as u8, 'q' as u8, 'u' as u8, 'o' as u8, 't' as u8, ';' as u8]
}

pub fn lv_esc_quot() -> (v: Vec<u8>)
    ensures
        v@ == lit_esc_quot(),
{
    let mut v: Vec<u8> = Vec::new();
    v.push('&' as u8);
    v.push('q' as u8);
    v.push('u' as u8);
    v.push('o' as u8);
    v.push('t' as u8);
    v.push(';' as u8);
    proof {
        assert(v@ =~= lit_esc_quot());
    }
    v
}

pub proof fn lemma_lit_checkstyle_ascii()
    ensures
        ascii_all(lit_checkstyle()),
{
    assert forall|i: int| 0 <= i < lit_checkstyle().len() implies (#[trigger] lit_checkstyle()[i])
        < 128 by {}
}

pub proof fn lemma_lit_file_ascii()
    ensures
        ascii_all(lit_file()),
{
    assert forall|i: int| 0 <= i < lit_file().len() implies (#[trigger] lit_file()[i]) < 128 by {}
}

pub proof fn lemma_lit_error_ascii()
    ensures
        ascii_all(lit_error()),
{
    assert forall|i: int| 0 <= i < lit_error().len() implies (#[trigger] lit_error()[i]) < 128 by {}
}

/// Decimal digits of `n`, most significant first.
pub open spec fn dec_bytes(n: int) -> Seq<u8>
    decreases n,
{
    if n < 10 {
        seq![(48 + n) as u8]
    } else {
        dec_bytes(n / 10) + seq![(48 + n % 10) as u8]
    }
}

/// Decimal rendering of a `u32`.
pub fn u32_to_dec(n: u32) -> (v: Vec<u8>)
    ensures
        v@ == dec_bytes(n as int),
    decreases n,
{
    if n < 10 {
        let mut v: Vec<u8> = Vec::new();
        v.push((48 + n) as u8);
        proof {
            assert(v@ =~= dec_bytes(n as int));
        }
        v
    } else {
        let mut v = u32_to_dec(n / 10);
        v.push((48 + n % 10) as u8);
        proof {
            assert(v@ =~= dec_bytes(n as int));
        }
        v
    }
}

/// Decimal rendering of a `usize`.
pub fn usize_to_dec(n: usize) -> (v: Vec<u8>)
    ensures
        v@ == dec_bytes(n as int),
    decreases n,
{
    if n < 10 {
        let mut v: Vec<u8> = Vec::new();
        v.push((48 + n % 10) as u8);
        proof {
            assert(v@ =~= dec_bytes(n as int));
        }
        v
    } else {
        let mut v = usize_to_dec(n / 10);
        v.push((48 + n % 10) as u8);
        proof {
            assert(v@ =~= dec_bytes(n as int));
        }
        v
    }
}

/// How many branch tuples at one line denote "never executed": the filter
/// `taken == -1`, recomputed at emission time.
pub open spec fn count_uncovered(entries: Seq<(u32, u32, i32)>) -> int
    decreases entries.len(),
{
    if entries.len() == 0 {
        0
    } else {
        count_uncovered(entries.drop_last()) + if entries.last().2 == -1 {
            1int
        } else {
            0int
        }
    }
}

fn count_uncovered_entries(entries: &Vec<(u32, u32, i32)>) -> (c: usize)
    ensures
        c as int == count_uncovered(entries@),
{
    let mut c: usize = 0;
    let mut k: usize = 0;
    proof {
        assert(entries@.take(0) =~= Seq::<(u32, u32, i32)>::empty());
    }
    while k < entries.len()
        invariant
            0 <= k <= entries@.len(),
            c <= k,
            c as int == count_uncovered(entries@.take(k as int)),
        decreases entries@.len() - k,
    {
        proof {
            assert(entries@.take(k + 1).drop_last() =~= entries@.take(k as int));
            assert(entries@.take(k + 1).last() == entries@[k as int]);
        }
        if entries[k].2 == -1 {
            c = c + 1;
        }
        k = k + 1;
    }
    proof {
        assert(entries@.take(entries@.len() as int) =~= entries@);
    }
    c
}

/// Appends `src` to `dst`.
pub fn push_all(dst: &mut Vec<u8>, src: &[u8])
    ensures
        final(dst)@ == old(dst)@ + src@,
{
    let mut k: usize = 0;
    proof {
        assert(old(dst)@ + src@.take(0) =~= old(dst)@);
    }
    while k < src.len()
        invariant
            0 <= k <= src@.len(),
            dst@ == old(dst)@ + src@.take(k as int),
        decreases src@.len() - k,
    {
        dst.push(src[k]);
        proof {
            assert(old(dst)@ + src@.take(k + 1) =~= (old(dst)@ + src@.take(k as int)).push(
                src@[k as int],
            ));
        }
        k = k + 1;
    }
    proof {
        assert(src@.take(src@.len() as int) =~= src@);
    }
}

/// One byte as quick_xml's attribute escaping renders it.
pub open spec fn escape_byte(b: u8) -> Seq<u8> {
    if b == '<' as u8 {
        lit_esc_lt()
    } else if b == '>' as u8 {
        lit_esc_gt()
    } else if b == '\'' as u8 {
        lit_esc_apos()
    } else if b == '&' as u8 {
        lit_esc_amp()
    } else if b == '"' as u8 {
        lit_esc_quot()
    } else {
        seq![b]
    }
}

/// An attribute value with `<`, `>`, `'`, `&` and `"` replaced by their
/// XML entities, every other byte kept.
pub open spec fn escape_bytes(s: Seq<u8>) -> Seq<u8>
    decreases s.len(),
{
    if s.len() == 0 {
        Seq::empty()
    } else {
        escape_bytes(s.drop_last()) + escape_byte(s.last())
    }
}

/// Escapes an attribute value as quick_xml's string-attribute conversion
/// would.
pub fn escape_attr_value(s: &[u8]) -> (r: Vec<u8>)
    ensures
        r@ == escape_bytes(s@),
{
    let mut r: Vec<u8> = Vec::new();
    let mut k: usize = 0;
    proof {
        assert(escape_bytes(s@.take(0)) =~= Seq::<u8>::empty());
    }
    while k < s.len()
        invariant
            0 <= k <= s@.len(),
            r@ == escape_bytes(s@.take(k as int)),
        decreases s@.len() - k,
    {
        proof {
            assert(s@.take(k + 1).drop_last() =~= s@.take(k as int));
            assert(s@.take(k + 1).last() == s@[k as int]);
        }
        let ghost r0 = r@;
        let b = s[k];
        if b == '<' as u8 {
            let e = lv_esc_lt();
            push_all(&mut r, e.as_slice());
        } else if b == '>' as u8 {
            let e = lv_esc_gt();
            push_all(&mut r, e.as_slice());
        } else if b == '\'' as u8 {
            let e = lv_esc_apos();
            push_all(&mut r, e.as_slice());
        } else if b == '&' as u8 {
            let e = lv_esc_amp();
            push_all(&mut r, e.as_slice());
        } else if b == '"' as u8 {
            let e = lv_esc_quot();
            push_all(&mut r, e.as_slice());
        } else {
            r.push(b);
            proof {
                assert(r@ =~= r0 + seq![b]);
            }
        }
        k = k + 1;
    }
    proof {
        assert(s@.take(s@.len() as int) =~= s@);
    }
    r
}

/// `Line {n} is not covered`
pub open spec fn single_line_msg(n: u32) -> Seq<u8> {
    lit_line_sp() + dec_bytes(n as int) + lit_is_not_covered()
}

/// `Lines {a}-{b} are not covered`
pub open spec fn multi_line_msg(a: u32, b: u32) -> Seq<u8> {
    lit_lines_sp() + dec_bytes(a as int) + lit_dash() + dec_bytes(b as int)
        + lit_are_not_covered()
}

/// `Line {n} has {cnt} uncovered branches`
pub open spec fn branch_msg(n: u32, cnt: int) -> Seq<u8> {
    lit_line_sp() + dec_bytes(n as int) + lit_has_sp() + dec_bytes(cnt)
        + lit_uncovered_branches()
}

/// The four attributes of an `error` element, in order.
pub open spec fn error_attrs(line_n: u32, msg: Seq<u8>) -> Seq<(Seq<u8>, Seq<u8>)> {
    seq![
        (lit_line(), dec_bytes(line_n as int)),
        (lit_severity(), lit_warning()),
        (lit_message(), msg),
        (lit_source(), lit_coverage()),
    ]
}

/// One `error` element at nesting depth two, preceded by its line break
/// and indentation.
pub open spec fn error_elem(line_n: u32, msg: Seq<u8>) -> Seq<u8> {
    break_bytes(2, true) + empty_tag_bytes(lit_error(), error_attrs(line_n, msg))
}

/// The `error` element for one group of consecutive uncovered lines: the
/// `line` attribute is the run's last line, the message names the single
/// line or the range.
pub open spec fn group_error_elem(g: Seq<u32>) -> Seq<u8> {
    if g.len() > 1 {
        error_elem(g.last(), multi_line_msg(g[0], g.last()))
    } else {
        error_elem(g.last(), single_line_msg(g[0]))
    }
}

pub open spec fn group_errors(gs: Seq<Seq<u32>>) -> Seq<u8>
    decreases gs.len(),
{
    if gs.len() == 0 {
        Seq::empty()
    } else {
        group_errors(gs.drop_last()) + group_error_elem(gs.last())
    }
}

/// The `error` element for one line's branch list, or nothing when no
/// tuple there denotes an unexecuted branch.
pub open spec fn branch_error_elem(b: (u32, Seq<(u32, u32, i32)>)) -> Seq<u8> {
    if count_uncovered(b.1) > 0 {
        error_elem(b.0, branch_msg(b.0, count_uncovered(b.1)))
    } else {
        Seq::empty()
    }
}

pub open spec fn branch_errors(bs: Seq<(u32, Seq<(u32, u32, i32)>)>) -> Seq<u8>
    decreases bs.len(),
{
    if bs.len() == 0 {
        Seq::empty()
    } else {
        branch_errors(bs.drop_last()) + branch_error_elem(bs.last())
    }
}

/// One `file` element with its line-group errors, then its branch errors,
/// framed by breaks at nesting depth one.
pub open spec fn file_block(path: Seq<u8>, rec: RecordModel) -> Seq<u8> {
    break_bytes(1, true) + open_tag_bytes(lit_file(), seq![(lit_name(), escape_bytes(path))])
        + group_errors(group_spec(rec.lines)) + branch_errors(rec.branches) + break_bytes(1, true)
        + close_tag_bytes(lit_file())
}

pub open spec fn files_blocks(files: Seq<(Seq<u8>, RecordModel)>) -> Seq<u8>
    decreases files.len(),
{
    if files.len() == 0 {
        Seq::empty()
    } else {
        files_blocks(files.drop_last()) + file_block(files.last().0, files.last().1)
    }
}

/// The whole document: the `checkstyle` root element around one block per
/// file, in report order.
pub open spec fn checkstyle_xml(files: Seq<(Seq<u8>, RecordModel)>) -> Seq<u8> {
    open_tag_bytes(lit_checkstyle(), seq![(lit_version(), lit_version_value())]) + files_blocks(
        files,
    ) + break_bytes(0, true) + close_tag_bytes(lit_checkstyle())
}

/// Writes one `error` element: any pending break, then the four fixed
/// attributes with the given line number and message.
fn emit_error(w: &mut quick_xml::Writer<Vec<u8>>, line_n: u32, msg: Vec<u8>)
    requires
        writer_level(*old(w)) == 2,
        writer_break(*old(w)) == true,
    ensures
        writer_bytes(*final(w)) == writer_bytes(*old(w)) + error_elem(line_n, msg@),
        writer_level(*final(w)) == 2,
        writer_break(*final(w)) == true,
{
    let ghost msg_spec = msg@;
    let line_attr = u32_to_dec(line_n);
    let mut eattrs: Vec<(Vec<u8>, Vec<u8>)> = Vec::new();
    eattrs.push((lv_line(), line_attr));
    eattrs.push((lv_severity(), lv_warning()));
    eattrs.push((lv_message(), msg));
    eattrs.push((lv_source(), lv_coverage()));
    let name_error = lv_error();
    proof {
        lemma_lit_error_ascii();
        assert(attrs_view(eattrs@) =~= error_attrs(line_n, msg_spec));
    }
    xml_write_empty(w, name_error.as_slice(), &eattrs);
}

/// Builds the message for one group of consecutive uncovered lines.
fn group_message(first_line: u32, last_line: u32, multi: bool) -> (msg: Vec<u8>)
    ensures
        multi ==> msg@ == multi_line_msg(first_line, last_line),
        !multi ==> msg@ == single_line_msg(first_line),
{
    if multi {
        let mut msg = lv_lines_sp();
        let d1 = u32_to_dec(first_line);
        push_all(&mut msg, d1.as_slice());
        let dd = lv_dash();
        push_all(&mut msg, dd.as_slice());
        let d2 = u32_to_dec(last_line);
        push_all(&mut msg, d2.as_slice());
        let t = lv_are_not_covered();
        push_all(&mut msg, t.as_slice());
        proof {
            assert(msg@ =~= multi_line_msg(first_line, last_line));
        }
        msg
    } else {
        let mut msg = lv_line_sp();
        let d1 = u32_to_dec(first_line);
        push_all(&mut msg, d1.as_slice());
        let t = lv_is_not_covered();
        push_all(&mut msg, t.as_slice());
        proof {
            assert(msg@ =~= single_line_msg(first_line));
        }
        msg
    }
}

/// Builds the message for one line with uncovered branches.
fn branch_message(line_n: u32, c: usize) -> (msg: Vec<u8>)
    ensures
        msg@ == branch_msg(line_n, c as int),
{
    let mut msg = lv_line_sp();
    let d1 = u32_to_dec(line_n);
    push_all(&mut msg, d1.as_slice());
    let t1 = lv_has_sp();
    push_all(&mut msg, t1.as_slice());
    let d2 = usize_to_dec(c);
    push_all(&mut msg, d2.as_slice());
    let t2 = lv_uncovered_branches();
    push_all(&mut msg, t2.as_slice());
    proof {
        assert(msg@ =~= branch_msg(line_n, c as int));
    }
    msg
}

/// Writes one `file` element with all its `error` children.
fn emit_file(w: &mut quick_xml::Writer<Vec<u8>>, path: &Vec<u8>, rec: &CoverageRecord)
    requires
        writer_level(*old(w)) == 1,
        writer_break(*old(w)) == true,
    ensures
        writer_bytes(*final(w)) == writer_bytes(*old(w)) + file_block(path@, rec@),
        writer_level(*final(w)) == 1,
        writer_break(*final(w)) == true,
{
    let name_file = lv_file();
    let esc = escape_attr_value(path.as_slice());
    let mut file_attrs: Vec<(Vec<u8>, Vec<u8>)> = Vec::new();
    file_attrs.push((lv_name(), esc));
    proof {
        lemma_lit_file_ascii();
        assert(attrs_view(file_attrs@) =~= seq![(lit_name(), escape_bytes(path@))]);
    }
    xml_write_start(w, name_file.as_slice(), &file_attrs);
    let ghost head = writer_bytes(*w);
    let groups = group_consecutive_lines(&rec.lines);
    let ghost gspec = group_spec(rec.lines@);
    proof {
        lemma_group_spec_wf(rec.lines@);
        assert(head + group_errors(gspec.take(0)) =~= head);
    }
    let mut j: usize = 0;
    while j < groups.len()
        invariant
            0 <= j <= groups@.len(),
            groups_view(groups@) == gspec,
            groups_wf(gspec),
            gspec.len() == groups@.len(),
            writer_bytes(*w) == head + group_errors(gspec.take(j as int)),
            writer_level(*w) == 2,
            writer_break(*w) == true,
        decreases groups@.len() - j,
    {
        let g = &groups[j];
        proof {
            assert(gspec[j as int] == g@);
            assert(gspec[j as int].len() > 0);
        }
        let last_line = g[g.len() - 1];
        let first_line = g[0];
        let msg = group_message(first_line, last_line, g.len() > 1);
        proof {
            assert(g@.last() == last_line);
        }
        emit_error(w, last_line, msg);
        proof {
            assert(gspec.take(j + 1).drop_last() =~= gspec.take(j as int));
            assert(gspec.take(j + 1).last() == gspec[j as int]);
            assert(group_error_elem(gspec[j as int]) == error_elem(
                last_line,
                if gspec[j as int].len() > 1 {
                    multi_line_msg(first_line, last_line)
                } else {
                    single_line_msg(first_line)
                },
            ));
            assert(writer_bytes(*w) =~= head + group_errors(gspec.take(j + 1)));
        }
        j = j + 1;
    }
    proof {
        assert(gspec.take(gspec.len() as int) =~= gspec);
    }
    let ghost bm = crate::report::branches_model(rec.branches@);
    let ghost head2 = head + group_errors(gspec);
    proof {
        assert(writer_bytes(*w) =~= head2);
        assert(head2 + branch_errors(bm.take(0)) =~= head2);
    }
    let mut k: usize = 0;
    while k < rec.branches.len()
        invariant
            0 <= k <= rec.branches@.len(),
            bm == crate::report::branches_model(rec.branches@),
            bm.len() == rec.branches@.len(),
            writer_bytes(*w) == head2 + branch_errors(bm.take(k as int)),
            writer_level(*w) == 2,
            writer_break(*w) == true,
        decreases rec.branches@.len() - k,
    {
        let b = &rec.branches[k];
        proof {
            assert(bm[k as int] == (b.0, b.1@));
            assert(bm.take(k + 1).drop_last() =~= bm.take(k as int));
            assert(bm.take(k + 1).last() == bm[k as int]);
        }
        let c = count_uncovered_entries(&b.1);
        if c > 0 {
            let msg = branch_message(b.0, c);
            emit_error(w, b.0, msg);
            proof {
                assert(branch_error_elem(bm[k as int]) == error_elem(
                    b.0,
                    branch_msg(b.0, c as int),
                ));
                assert(writer_bytes(*w) =~= head2 + branch_errors(bm.take(k + 1)));
            }
        } else {
            proof {
                assert(branch_error_elem(bm[k as int]) =~= Seq::<u8>::empty());
                assert(writer_bytes(*w) =~= head2 + branch_errors(bm.take(k + 1)));
            }
        }
        k = k + 1;
    }
    proof {
        assert(bm.take(bm.len() as int) =~= bm);
    }
    xml_write_end(w, name_file.as_slice());
    proof {
        assert(writer_bytes(*w) =~= writer_bytes(*old(w)) + file_block(path@, rec@));
    }
}

/// Renders a coverage report as the Checkstyle XML document, byte for
/// byte: one `file` element per record in report order, each with one
/// `error` per group of consecutive uncovered lines followed by one
/// `error` per line with uncovered branches. The output is a function of
/// the report alone, so emitting twice yields identical bytes.
pub fn convert_to_checkstyle_format(uncovered_files: CoverageReport) -> (out: Vec<u8>)
    ensures
        out@ == checkstyle_xml(uncovered_files@),
{
    let ghost fm = uncovered_files@;
    let mut w = xml_writer_new();
    let name_checkstyle = lv_checkstyle();
    let mut root_attrs: Vec<(Vec<u8>, Vec<u8>)> = Vec::new();
    root_attrs.push((lv_version(), lv_version_value()));
    proof {
        lemma_lit_checkstyle_ascii();
        assert(attrs_view(root_attrs@) =~= seq![(lit_version(), lit_version_value())]);
    }
    xml_write_start(&mut w, name_checkstyle.as_slice(), &root_attrs);
    let ghost root_open = open_tag_bytes(
        lit_checkstyle(),
        seq![(lit_version(), lit_version_value())],
    );
    proof {
        assert(break_bytes(0, false) =~= Seq::<u8>::empty());
        assert(writer_bytes(w) =~= root_open);
        assert(root_open + files_blocks(fm.take(0)) =~= root_open);
    }
    let mut i: usize = 0;
    while i < uncovered_files.files.len()
        invariant
            0 <= i <= uncovered_files.files@.len(),
            fm == uncovered_files@,
            fm.len() == uncovered_files.files@.len(),
            writer_bytes(w) == root_open + files_blocks(fm.take(i as int)),
            writer_level(w) == 1,
            writer_break(w) == true,
            name_checkstyle@ == lit_checkstyle(),
        decreases uncovered_files.files@.len() - i,
    {
        let pair = &uncovered_files.files[i];
        proof {
            assert(fm[i as int] == (pair.0@, pair.1@));
        }
        emit_file(&mut w, &pair.0, &pair.1);
        proof {
            assert(fm.take(i + 1).drop_last() =~= fm.take(i as int));
            assert(fm.take(i + 1).last() == fm[i as int]);
            assert(files_blocks(fm.take(i + 1)) == files_blocks(fm.take(i as int)) + file_block(
                fm[i as int].0,
                fm[i as int].1,
            ));
            assert(writer_bytes(w) =~= root_open + files_blocks(fm.take(i + 1)));
        }
        i = i + 1;
    }
    proof {
        assert(fm.take(fm.len() as int) =~= fm);
        lemma_lit_checkstyle_ascii();
    }
    xml_write_end(&mut w, name_checkstyle.as_slice());
    proof {
        assert(writer_bytes(w) =~= checkstyle_xml(fm));
    }
    xml_into_bytes(w)
}

} // verus!
