//! Byte-level text utilities: line splitting, comma splitting, whitespace
//! trimming and decimal number parsing, each with an exact specification.

use vstd::prelude::*;

verus! {

/// ASCII whitespace: the single-byte members of Unicode's White_Space set.
pub open spec fn is_ascii_space(b: u8) -> bool {
    b == 32 || b == 9 || b == 10 || b == 13 || b == 11 || b == 12
}

pub open spec fn is_digit(b: u8) -> bool {
    '0' as u8 <= b <= '9' as u8
}

/// Index of the first occurrence of `t` in `s`, or `s.len()` if absent.
pub open spec fn find_byte(s: Seq<u8>, t: u8) -> int
    decreases s.len(),
{
    if s.len() == 0 {
        0
    } else if s[0] == t {
        0
    } else {
        1 + find_byte(s.drop_first(), t)
    }
}

pub proof fn lemma_find_byte(s: Seq<u8>, t: u8)
    ensures
        0 <= find_byte(s, t) <= s.len(),
        find_byte(s, t) < s.len() ==> s[find_byte(s, t)] == t,
        forall|k: int| 0 <= k < find_byte(s, t) ==> s[k] != t,
    decreases s.len(),
{
    if s.len() > 0 && s[0] != t {
        lemma_find_byte(s.drop_first(), t);
        assert forall|k: int| 0 <= k < find_byte(s, t) implies s[k] != t by {
            if k > 0 {
                assert(s.drop_first()[k - 1] == s[k]);
            }
        }
    }
}

pub proof fn lemma_find_byte_is(s: Seq<u8>, t: u8, i: int)
    requires
        0 <= i <= s.len(),
        forall|k: int| 0 <= k < i ==> s[k] != t,
        i < s.len() ==> s[i] == t,
    ensures
        find_byte(s, t) == i,
    decreases i,
{
    if i > 0 {
        lemma_find_byte_is(s.drop_first(), t, i - 1);
    }
}

/// The byte length of the UTF-8 encoding of the Unicode White_Space
/// character that `s` starts with, or 0 if `s` starts with none: the ASCII
/// whitespace, and U+0085, U+00A0, U+1680, U+2000..U+200A, U+2028, U+2029,
/// U+202F, U+205F, U+3000.
pub open spec fn ws_start_len(s: Seq<u8>) -> int {
    if s.len() >= 1 && is_ascii_space(s[0]) {
        1
    } else if s.len() >= 2 && s[0] == 0xC2 && (s[1] == 0x85 || s[1] == 0xA0) {
        2
    } else if s.len() >= 3 && s[0] == 0xE1 && s[1] == 0x9A && s[2] == 0x80 {
        3
    } else if s.len() >= 3 && s[0] == 0xE2 && s[1] == 0x80 && (0x80 <= s[2] <= 0x8A || s[2]
        == 0xA8 || s[2] == 0xA9 || s[2] == 0xAF) {
        3
    } else if s.len() >= 3 && s[0] == 0xE2 && s[1] == 0x81 && s[2] == 0x9F {
        3
    } else if s.len() >= 3 && s[0] == 0xE3 && s[1] == 0x80 && s[2] == 0x80 {
        3
    } else {
        0
    }
}

/// The byte length of the UTF-8 encoding of the Unicode White_Space
/// character that `s` ends with, or 0 if `s` ends with none.
pub open spec fn ws_end_len(s: Seq<u8>) -> int {
    let n = s.len() as int;
    if n >= 1 && is_ascii_space(s[n - 1]) {
        1
    } else if n >= 2 && s[n - 2] == 0xC2 && (s[n - 1] == 0x85 || s[n - 1] == 0xA0) {
        2
    } else if n >= 3 && s[n - 3] == 0xE1 && s[n - 2] == 0x9A && s[n - 1] == 0x80 {
        3
    } else if n >= 3 && s[n - 3] == 0xE2 && s[n - 2] == 0x80 && (0x80 <= s[n - 1] <= 0x8A || s[n
        - 1] == 0xA8 || s[n - 1] == 0xA9 || s[n - 1] == 0xAF) {
        3
    } else if n >= 3 && s[n - 3] == 0xE2 && s[n - 2] == 0x81 && s[n - 1] == 0x9F {
        3
    } else if n >= 3 && s[n - 3] == 0xE3 && s[n - 2] == 0x80 && s[n - 1] == 0x80 {
        3
    } else {
        0
    }
}

/// Leading Unicode whitespace removed, one encoded character at a time.
pub open spec fn trim_start(s: Seq<u8>) -> Seq<u8>
    decreases s.len(),
{
    let n = ws_start_len(s);
    if n > 0 {
        trim_start(s.skip(n))
    } else {
        s
    }
}

/// Trailing Unicode whitespace removed, one encoded character at a time.
pub open spec fn trim_end(s: Seq<u8>) -> Seq<u8>
    decreases s.len(),
{
    let n = ws_end_len(s);
    if n > 0 {
        trim_end(s.take(s.len() - n))
    } else {
        s
    }
}

/// Both ends trimmed of Unicode whitespace, as `str::trim` trims.
pub open spec fn spec_trim(s: Seq<u8>) -> Seq<u8> {
    trim_end(trim_start(s))
}

fn is_ascii_space_byte(b: u8) -> (r: bool)
    ensures
        r == is_ascii_space(b),
{
    b == 32 || b == 9 || b == 10 || b == 13 || b == 11 || b == 12
}

/// Length of the whitespace character encoded at position `lo`, or 0.
fn ws_len_at(s: &[u8], lo: usize) -> (n: usize)
    requires
        lo <= s@.len(),
    ensures
        n as int == ws_start_len(s@.skip(lo as int)),
        n <= s@.len() - lo,
{
    let len = s.len();
    proof {
        let t = s@.skip(lo as int);
        if t.len() >= 1 {
            assert(t[0] == s@[lo as int]);
        }
        if t.len() >= 2 {
            assert(t[1] == s@[lo + 1]);
        }
        if t.len() >= 3 {
            assert(t[2] == s@[lo + 2]);
        }
    }
    if len - lo >= 1 && is_ascii_space_byte(s[lo]) {
        1
    } else if len - lo >= 2 && s[lo] == 0xC2 && (s[lo + 1] == 0x85 || s[lo + 1] == 0xA0) {
        2
    } else if len - lo >= 3 && s[lo] == 0xE1 && s[lo + 1] == 0x9A && s[lo + 2] == 0x80 {
        3
    } else if len - lo >= 3 && s[lo] == 0xE2 && s[lo + 1] == 0x80 && (0x80 <= s[lo + 2] && s[lo
        + 2] <= 0x8A || s[lo + 2] == 0xA8 || s[lo + 2] == 0xA9 || s[lo + 2] == 0xAF) {
        3
    } else if len - lo >= 3 && s[lo] == 0xE2 && s[lo + 1] == 0x81 && s[lo + 2] == 0x9F {
        3
    } else if len - lo >= 3 && s[lo] == 0xE3 && s[lo + 1] == 0x80 && s[lo + 2] == 0x80 {
        3
    } else {
        0
    }
}

/// Length of the whitespace character whose encoding ends at `hi` within
/// `s[lo..hi]`, or 0.
fn ws_len_ending(s: &[u8], lo: usize, hi: usize) -> (n: usize)
    requires
        lo <= hi <= s@.len(),
    ensures
        n as int == ws_end_len(s@.subrange(lo as int, hi as int)),
        n <= hi - lo,
{
    let m = hi - lo;
    proof {
        let t = s@.subrange(lo as int, hi as int);
        if t.len() >= 1 {
            assert(t[t.len() - 1] == s@[hi - 1]);
        }
        if t.len() >= 2 {
            assert(t[t.len() - 2] == s@[hi - 2]);
        }
        if t.len() >= 3 {
            assert(t[t.len() - 3] == s@[hi - 3]);
        }
    }
    if m >= 1 && is_ascii_space_byte(s[hi - 1]) {
        1
    } else if m >= 2 && s[hi - 2] == 0xC2 && (s[hi - 1] == 0x85 || s[hi - 1] == 0xA0) {
        2
    } else if m >= 3 && s[hi - 3] == 0xE1 && s[hi - 2] == 0x9A && s[hi - 1] == 0x80 {
        3
    } else if m >= 3 && s[hi - 3] == 0xE2 && s[hi - 2] == 0x80 && (0x80 <= s[hi - 1] && s[hi - 1]
        <= 0x8A || s[hi - 1] == 0xA8 || s[hi - 1] == 0xA9 || s[hi - 1] == 0xAF) {
        3
    } else if m >= 3 && s[hi - 3] == 0xE2 && s[hi - 2] == 0x81 && s[hi - 1] == 0x9F {
        3
    } else if m >= 3 && s[hi - 3] == 0xE3 && s[hi - 2] == 0x80 && s[hi - 1] == 0x80 {
        3
    } else {
        0
    }
}

/// Copy of `s` with leading and trailing Unicode whitespace removed.
pub fn trim_bytes(s: &[u8]) -> (t: Vec<u8>)
    ensures
        t@ == spec_trim(s@),
{
    let slen = s.len();
    let mut lo: usize = 0;
    let mut n = ws_len_at(s, lo);
    proof {
        assert(s@.skip(0) =~= s@);
    }
    while n > 0
        invariant
            slen == s@.len(),
            lo <= s@.len(),
            trim_start(s@) == trim_start(s@.skip(lo as int)),
            n as int == ws_start_len(s@.skip(lo as int)),
            n <= s@.len() - lo,
        decreases s@.len() - lo,
    {
        proof {
            assert(s@.skip(lo as int).skip(n as int) =~= s@.skip(lo + n));
        }
        lo = lo + n;
        n = ws_len_at(s, lo);
    }
    proof {
        assert(trim_start(s@.skip(lo as int)) == s@.skip(lo as int));
        assert(s@.skip(lo as int) =~= s@.subrange(lo as int, s@.len() as int));
    }
    let mut hi: usize = s.len();
    let mut m = ws_len_ending(s, lo, hi);
    while m > 0
        invariant
            lo <= hi <= s@.len(),
            trim_end(s@.skip(lo as int)) == trim_end(s@.subrange(lo as int, hi as int)),
            m as int == ws_end_len(s@.subrange(lo as int, hi as int)),
            m <= hi - lo,
        decreases hi,
    {
        proof {
            assert(s@.subrange(lo as int, hi as int).take(hi - lo - m) =~= s@.subrange(
                lo as int,
                hi - m,
            ));
        }
        hi = hi - m;
        m = ws_len_ending(s, lo, hi);
    }
    proof {
        assert(trim_end(s@.subrange(lo as int, hi as int)) == s@.subrange(lo as int, hi as int));
    }
    vstd::slice::slice_to_vec(vstd::slice::slice_subrange(s, lo, hi))
}

/// The view of a vector of byte vectors.
pub open spec fn fields_view(parts: Seq<Vec<u8>>) -> Seq<Seq<u8>> {
    parts.map_values(|v: Vec<u8>| v@)
}

#[via_fn]
proof fn split_commas_decreases(s: Seq<u8>) {
    lemma_find_byte(s, ',' as u8);
}

/// `s` split at every comma; always at least one field, empty fields kept.
pub open spec fn split_commas(s: Seq<u8>) -> Seq<Seq<u8>>
    decreases s.len(),
    via split_commas_decreases
{
    let i = find_byte(s, ',' as u8);
    if i >= s.len() {
        seq![s]
    } else {
        seq![s.take(i)] + split_commas(s.skip(i + 1))
    }
}

/// Splits `s` at every comma, like `str::split(',')`.
pub fn split_fields(s: &[u8]) -> (parts: Vec<Vec<u8>>)
    ensures
        fields_view(parts@) == split_commas(s@),
        parts@.len() >= 1,
{
    let mut parts: Vec<Vec<u8>> = Vec::new();
    let mut start: usize = 0;
    let mut finished = false;
    proof {
        assert(s@.skip(0) =~= s@);
        assert(fields_view(parts@) + split_commas(s@) =~= split_commas(s@));
    }
    while !finished
        invariant
            start <= s@.len(),
            !finished ==> split_commas(s@) == fields_view(parts@) + split_commas(
                s@.skip(start as int),
            ),
            finished ==> fields_view(parts@) == split_commas(s@) && parts@.len() >= 1,
        decreases (if finished {
            0int
        } else {
            s@.len() - start + 1
        }),
    {
        let ghost rest = s@.skip(start as int);
        let mut j: usize = start;
        while j < s.len() && s[j] != ',' as u8
            invariant
                start <= j <= s@.len(),
                forall|k: int| start <= k < j ==> s@[k] != ',' as u8,
            decreases s@.len() - j,
        {
            j = j + 1;
        }
        proof {
            assert forall|k: int| 0 <= k < j - start implies rest[k] != ',' as u8 by {
                assert(rest[k] == s@[start + k]);
            }
            if (j as int) < s@.len() {
                assert(rest[j - start] == s@[j as int]);
            }
            lemma_find_byte_is(rest, ',' as u8, j - start);
        }
        let seg: Vec<u8> = vstd::slice::slice_to_vec(vstd::slice::slice_subrange(s, start, j));
        proof {
            assert(seg@ =~= rest.take(j - start));
        }
        parts.push(seg);
        if j == s.len() {
            proof {
                assert(rest.take(j - start) =~= rest);
                assert(split_commas(rest) == seq![rest]);
                assert(fields_view(parts@) =~= fields_view(parts@.drop_last()) + seq![rest]);
            }
            finished = true;
        } else {
            proof {
                assert(split_commas(rest) == seq![rest.take(j - start)] + split_commas(
                    rest.skip(j - start + 1),
                ));
                assert(rest.skip(j - start + 1) =~= s@.skip(j + 1));
                assert(fields_view(parts@) =~= fields_view(parts@.drop_last()) + seq![rest.take(
                    j - start,
                )]);
            }
            start = j + 1;
        }
    }
    parts
}

/// One trailing carriage return removed, as `BufRead::lines` does for a
/// newline-terminated line.
pub open spec fn strip_one_cr(s: Seq<u8>) -> Seq<u8> {
    if s.len() > 0 && s.last() == 13 {
        s.drop_last()
    } else {
        s
    }
}

#[via_fn]
proof fn lines_of_decreases(d: Seq<u8>) {
    lemma_find_byte(d, 10);
}

/// `d` split into lines at `\n`, each newline-terminated line stripped of
/// one trailing `\r`; a final unterminated line is kept as-is, and a
/// trailing newline yields no extra empty line.
pub open spec fn lines_of(d: Seq<u8>) -> Seq<Seq<u8>>
    decreases d.len(),
    via lines_of_decreases
{
    if d.len() == 0 {
        seq![]
    } else {
        let i = find_byte(d, 10);
        if i >= d.len() {
            seq![d]
        } else {
            seq![strip_one_cr(d.take(i))] + lines_of(d.skip(i + 1))
        }
    }
}

/// Value of a digit string, most significant digit first.
pub open spec fn dec_value(s: Seq<u8>) -> int
    decreases s.len(),
{
    if s.len() == 0 {
        0
    } else {
        dec_value(s.drop_last()) * 10 + (s.last() - 48)
    }
}

pub open spec fn all_digits(s: Seq<u8>) -> bool {
    forall|i: int| 0 <= i < s.len() ==> is_digit(#[trigger] s[i])
}

pub proof fn lemma_dec_value_nonneg(s: Seq<u8>)
    requires
        all_digits(s),
    ensures
        dec_value(s) >= 0,
    decreases s.len(),
{
    if s.len() > 0 {
        assert(all_digits(s.drop_last())) by {
            assert(forall|i: int|
                0 <= i < s.len() - 1 ==> #[trigger] s.drop_last()[i] == s[i]);
        }
        lemma_dec_value_nonneg(s.drop_last());
    }
}

/// Extending a digit string on the right can only grow its value.
pub proof fn lemma_dec_value_take(s: Seq<u8>, k: int)
    requires
        all_digits(s),
        0 <= k <= s.len(),
    ensures
        dec_value(s.take(k)) <= dec_value(s),
    decreases s.len(),
{
    if k == s.len() {
        assert(s.take(k) =~= s);
    } else if s.len() > 0 {
        assert(all_digits(s.drop_last())) by {
            assert(forall|i: int|
                0 <= i < s.len() - 1 ==> #[trigger] s.drop_last()[i] == s[i]);
        }
        assert(s.drop_last().take(k) =~= s.take(k));
        lemma_dec_value_take(s.drop_last(), k);
        lemma_dec_value_nonneg(s.drop_last());
    }
}

/// An optional leading `+` removed: the sign `u32::from_str` accepts.
pub open spec fn strip_plus(s: Seq<u8>) -> Seq<u8> {
    if s.len() > 0 && s[0] == '+' as u8 {
        s.drop_first()
    } else {
        s
    }
}

/// `s` is a decimal string `u32::from_str` accepts: an optional `+`, then
/// one or more digits, with a value that fits in 32 bits.
pub open spec fn is_u32_str(s: Seq<u8>) -> bool {
    let d = strip_plus(s);
    d.len() > 0 && all_digits(d) && dec_value(d) <= u32::MAX
}

pub open spec fn u32_str_value(s: Seq<u8>) -> int {
    dec_value(strip_plus(s))
}

/// Parses an unsigned 32-bit decimal, exactly as `str::parse::<u32>` does.
pub fn parse_u32(s: &[u8]) -> (r: Option<u32>)
    ensures
        r is Some <==> is_u32_str(s@),
        r is Some ==> r->Some_0 as int == u32_str_value(s@),
{
    let mut i: usize = 0;
    if s.len() > 0 && s[0] == '+' as u8 {
        i = 1;
    }
    let ghost digits = s@.skip(i as int);
    proof {
        assert(digits =~= strip_plus(s@));
    }
    if i == s.len() {
        return None;
    }
    let mut val: u32 = 0;
    let mut j: usize = i;
    while j < s.len()
        invariant
            i <= j <= s@.len(),
            i <= s@.len(),
            digits == s@.skip(i as int),
            digits == strip_plus(s@),
            all_digits(digits.take(j - i)),
            val as int == dec_value(digits.take(j - i)),
        decreases s@.len() - j,
    {
        let b = s[j];
        proof {
            assert(digits[j - i] == s@[j as int]);
        }
        if b < 48 || b > 57 {
            return None;
        }
        let d: u32 = (b - 48) as u32;
        proof {
            assert(digits.take(j - i + 1) =~= digits.take(j - i).push(b));
            assert(digits.take(j - i + 1).drop_last() =~= digits.take(j - i));
            assert(dec_value(digits.take(j - i + 1)) == (val as int) * 10 + d);
            assert(all_digits(digits.take(j - i + 1))) by {
                assert(forall|k: int|
                    0 <= k < j - i ==> #[trigger] digits.take(j - i + 1)[k] == digits.take(
                        j - i,
                    )[k]);
            }
        }
        if val > 429496729 || (val == 429496729 && d > 5) {
            proof {
                assert(dec_value(digits.take(j - i + 1)) > u32::MAX);
                assert(!is_u32_str(s@)) by {
                    if all_digits(digits) {
                        lemma_dec_value_take(digits, j - i + 1);
                        assert(dec_value(digits) > u32::MAX);
                    }
                }
            }
            return None;
        }
        val = val * 10 + d;
        j = j + 1;
    }
    proof {
        assert(digits.take(j - i) =~= digits);
    }
    Some(val)
}

/// `s` is a valid non-negative decimal integer: an optional `+`, then one
/// or more digits, with no bound on the value.
pub open spec fn is_nonneg_int_str(s: Seq<u8>) -> bool {
    let d = strip_plus(s);
    d.len() > 0 && all_digits(d)
}

/// The branch `taken` field denotes "never executed": anything that is not
/// a valid non-negative integer (such as the conventional `-` marker) is
/// read as `-1`, and only `-1` entries are recorded.
pub open spec fn taken_uncovered(s: Seq<u8>) -> bool {
    !is_nonneg_int_str(s)
}

/// Decides [`taken_uncovered`] for a raw `taken` field.
pub fn taken_uncovered_bytes(s: &[u8]) -> (r: bool)
    ensures
        r == taken_uncovered(s@),
{
    let mut i: usize = 0;
    if s.len() > 0 && s[0] == '+' as u8 {
        i = 1;
    }
    let ghost digits = s@.skip(i as int);
    proof {
        assert(digits =~= strip_plus(s@));
    }
    if i == s.len() {
        return true;
    }
    let mut j: usize = i;
    while j < s.len()
        invariant
            i <= j <= s@.len(),
            i <= s@.len(),
            digits == s@.skip(i as int),
            digits == strip_plus(s@),
            all_digits(digits.take(j - i)),
        decreases s@.len() - j,
    {
        let b = s[j];
        proof {
            assert(digits[j - i] == s@[j as int]);
        }
        if b < 48 || b > 57 {
            proof {
                assert(!all_digits(digits)) by {
                    assert(digits[j - i] == b);
                }
            }
            return true;
        }
        proof {
            assert(digits.take(j - i + 1) =~= digits.take(j - i).push(b));
            assert(all_digits(digits.take(j - i + 1))) by {
                assert(forall|k: int|
                    0 <= k < j - i ==> #[trigger] digits.take(j - i + 1)[k] == digits.take(
                        j - i,
                    )[k]);
            }
        }
        j = j + 1;
    }
    proof {
        assert(digits.take(j - i) =~= digits);
    }
    false
}

} // verus!
