//! Text helpers: Unicode character classes over UTF-8 byte strings,
//! substring replacement and HTML-aware word counting.
//!
//! The engine carries text as UTF-8 bytes. Character-class decisions
//! (whitespace, alphanumeric, control) are made on the decoded Unicode
//! character; bytes that do not decode are treated as ordinary word
//! content.

use vstd::prelude::*;

verus! {

/// The ASCII-lowercased image of a byte: `A`..`Z` map to `a`..`z`, all other
/// bytes are unchanged.
pub open spec fn lower_byte(b: u8) -> u8 {
    if 65 <= b <= 90 {
        (b + 32) as u8
    } else {
        b
    }
}

/// Runtime ASCII lowercasing of one byte, matching `lower_byte`.
pub fn to_lower_byte(b: u8) -> (r: u8)
    ensures
        r == lower_byte(b),
{
    if 65 <= b && b <= 90 {
        b + 32
    } else {
        b
    }
}

/// Two bytes are equal up to ASCII case.
pub open spec fn eq_ignore_case(a: u8, b: u8) -> bool {
    lower_byte(a) == lower_byte(b)
}

/// The ASCII-lowercased image of a byte string.
pub open spec fn lower_bytes(s: Seq<u8>) -> Seq<u8> {
    s.map_values(|b: u8| lower_byte(b))
}

/// ASCII-lowercases a byte string.
pub fn to_lower_bytes(s: &[u8]) -> (r: Vec<u8>)
    ensures
        r@ == lower_bytes(s@),
{
    let mut out: Vec<u8> = Vec::new();
    let mut i: usize = 0;
    while i < s.len()
        invariant
            i <= s@.len(),
            out@ =~= lower_bytes(s@.take(i as int)),
        decreases s@.len() - i,
    {
        out.push(to_lower_byte(s[i]));
        i = i + 1;
        proof {
            assert(s@.take(i as int).drop_last() =~= s@.take(i - 1));
            assert(lower_bytes(s@.take(i as int)) =~= lower_bytes(s@.take(i - 1)).push(
                lower_byte(s@[i - 1]),
            ));
        }
    }
    proof {
        assert(s@.take(s@.len() as int) =~= s@);
    }
    out
}

/// `pat` occurs in `s` at position `i`, compared byte for byte; when `ci` is
/// set the comparison ignores ASCII case.
pub open spec fn occurs_at(s: Seq<u8>, pat: Seq<u8>, ci: bool, i: int) -> bool {
    &&& 0 <= i
    &&& i + pat.len() <= s.len()
    &&& forall|k: int|
        0 <= k < pat.len() ==> if ci {
            eq_ignore_case(s[i + k], pat[k])
        } else {
            s[i + k] == pat[k]
        }
}

/// The result of replacing every non-overlapping, leftmost-first occurrence
/// of `pat` in `s` with `rep`, scanning once from the left. This is the
/// behaviour of `str::replace` for a literal pattern.
pub open spec fn replace_spec(s: Seq<u8>, pat: Seq<u8>, rep: Seq<u8>, ci: bool) -> Seq<u8>
    decreases s.len(),
{
    if pat.len() == 0 || s.len() == 0 {
        s
    } else if occurs_at(s, pat, ci, 0) {
        rep + replace_spec(s.skip(pat.len() as int), pat, rep, ci)
    } else {
        seq![s[0]] + replace_spec(s.skip(1), pat, rep, ci)
    }
}

/// Does `pat` occur in `s` at position `i`? Runtime test for `occurs_at`.
fn occurs_at_exec(s: &[u8], pat: &[u8], ci: bool, i: usize) -> (r: bool)
    requires
        i + pat@.len() <= s@.len(),
    ensures
        r == occurs_at(s@, pat@, ci, i as int),
{
    let n = s.len();
    let mut k: usize = 0;
    while k < pat.len()
        invariant
            k <= pat@.len(),
            i + pat@.len() <= s@.len(),
            n == s@.len(),
            forall|j: int|
                0 <= j < k ==> if ci {
                    eq_ignore_case(s@[i + j], pat@[j])
                } else {
                    s@[i + j] == pat@[j]
                },
        decreases pat@.len() - k,
    {
        let matches: bool = if ci {
            to_lower_byte(s[i + k]) == to_lower_byte(pat[k])
        } else {
            s[i + k] == pat[k]
        };
        if !matches {
            return false;
        }
        k = k + 1;
    }
    true
}

/// Replaces every leftmost, non-overlapping occurrence of `pat` in `s` with
/// `rep`; `ci` selects ASCII-case-insensitive matching.
pub fn replace_sub(s: &[u8], pat: &[u8], rep: &[u8], ci: bool) -> (r: Vec<u8>)
    ensures
        r@ == replace_spec(s@, pat@, rep@, ci),
{
    let mut out: Vec<u8> = Vec::new();
    let mut i: usize = 0;
    if pat.len() == 0 {
        let mut j: usize = 0;
        while j < s.len()
            invariant
                j <= s@.len(),
                out@ =~= s@.take(j as int),
            decreases s@.len() - j,
        {
            out.push(s[j]);
            j = j + 1;
        }
        proof {
            assert(s@.take(s@.len() as int) =~= s@);
        }
        return out;
    }
    proof {
        assert(s@.skip(0) =~= s@);
        assert(out@ + replace_spec(s@, pat@, rep@, ci) =~= replace_spec(s@, pat@, rep@, ci));
    }
    while i < s.len()
        invariant
            pat@.len() > 0,
            i <= s@.len(),
            out@ + replace_spec(s@.skip(i as int), pat@, rep@, ci) == replace_spec(
                s@,
                pat@,
                rep@,
                ci,
            ),
        decreases s@.len() - i,
    {
        let ghost rest = s@.skip(i as int);
        if pat.len() <= s.len() - i && occurs_at_exec(s, pat, ci, i) {
            proof {
                assert(occurs_at(rest, pat@, ci, 0)) by {
                    assert(forall|k: int| 0 <= k < pat@.len() ==> rest[k] == s@[i + k]);
                }
                assert(rest.skip(pat@.len() as int) =~= s@.skip(i + pat@.len()));
            }
            let ghost out_snap = out@;
            let mut k: usize = 0;
            while k < rep.len()
                invariant
                    k <= rep@.len(),
                    out@ =~= out_snap + rep@.take(k as int),
                decreases rep@.len() - k,
            {
                out.push(rep[k]);
                k = k + 1;
            }
            proof {
                assert(rep@.take(rep@.len() as int) =~= rep@);
            }
            i = i + pat.len();
            proof {
                assert(out@ + replace_spec(s@.skip(i as int), pat@, rep@, ci) =~= out_snap + (rep@
                    + replace_spec(s@.skip(i as int), pat@, rep@, ci)));
            }
        } else {
            proof {
                assert(!occurs_at(rest, pat@, ci, 0)) by {
                    if occurs_at(rest, pat@, ci, 0) {
                        assert(forall|k: int| 0 <= k < pat@.len() ==> s@[i + k] == rest[k]);
                        assert(occurs_at(s@, pat@, ci, i as int));
                    }
                }
                assert(rest.skip(1) =~= s@.skip(i + 1));
                assert(rest[0] == s@[i as int]);
            }
            let ghost out_snap = out@;
            out.push(s[i]);
            i = i + 1;
            proof {
                assert(out@ + replace_spec(s@.skip(i as int), pat@, rep@, ci) =~= out_snap + (seq![
                    s@[i - 1],
                ] + replace_spec(s@.skip(i as int), pat@, rep@, ci)));
            }
        }
    }
    proof {
        assert(s@.skip(s@.len() as int) =~= Seq::<u8>::empty());
        assert(out@ + Seq::<u8>::empty() =~= out@);
    }
    out
}

/// Whether a Unicode scalar value is alphanumeric, as `char::is_alphanumeric`
/// decides it. The full table takes pages, so the result is named.
pub uninterp spec fn alnum_of(cp: u32) -> bool;

/// Whether a Unicode scalar value is whitespace, as `char::is_whitespace`
/// decides it.
pub uninterp spec fn ws_of(cp: u32) -> bool;

/// Whether a Unicode scalar value is a control character, as
/// `char::is_control` decides it.
pub uninterp spec fn control_of(cp: u32) -> bool;

/// Relies on `char::from_u32`: `Some` exactly for values outside the
/// surrogate range and at most `0x10FFFF`, and the character converts back
/// to the given value.
#[verifier::external_body]
pub(crate) fn char_from_u32(v: u32) -> (r: Option<char>)
    ensures
        r is Some <==> (v < 0xD800 || (0xE000 <= v && v <= 0x10FFFF)),
        r matches Some(c) ==> c as u32 == v,
{
    char::from_u32(v)
}

/// Relies on `char::is_alphanumeric`; on the ASCII range the documentation
/// pins it to letters and digits.
#[verifier::external_body]
pub(crate) fn char_is_alphanumeric(c: char) -> (r: bool)
    ensures
        r == alnum_of(c as u32),
        (c as u32) < 128 ==> r == (48 <= c as u32 <= 57 || 65 <= c as u32 <= 90 || 97 <= c as u32
            <= 122),
{
    c.is_alphanumeric()
}

/// Relies on `char::is_whitespace`; on the ASCII range the documentation
/// pins it to space and the five control whitespace characters.
#[verifier::external_body]
pub(crate) fn char_is_whitespace(c: char) -> (r: bool)
    ensures
        r == ws_of(c as u32),
        (c as u32) < 128 ==> r == (c as u32 == 32 || (9 <= c as u32 && c as u32 <= 13)),
{
    c.is_whitespace()
}

/// Relies on `char::is_control`; on the ASCII range the documentation pins
/// it to the C0 range and delete.
#[verifier::external_body]
pub(crate) fn char_is_control(c: char) -> (r: bool)
    ensures
        r == control_of(c as u32),
        (c as u32) < 128 ==> r == ((c as u32) < 32 || c as u32 == 127),
{
    c.is_control()
}

/// The Unicode scalar whose UTF-8 encoding begins at position `i` of `s`,
/// if the bytes there are a well-formed encoding.
pub open spec fn scalar_starting_at(s: Seq<u8>, i: int) -> Option<u32> {
    if 0 <= i < s.len() && vstd::utf8::valid_first_scalar(s.skip(i)) {
        Some(vstd::utf8::decode_first_scalar(s.skip(i)))
    } else {
        None
    }
}

/// The byte length of the scalar starting at `i` (meaningful when one does).
pub open spec fn scalar_len_at(s: Seq<u8>, i: int) -> int {
    vstd::utf8::length_of_first_scalar(s.skip(i))
}

/// A scalar's encoding occupies exactly the `l` bytes ending at `i`.
pub open spec fn ends_with_scalar(s: Seq<u8>, i: int, l: int) -> bool {
    &&& 1 <= l <= 4
    &&& 0 <= i - l
    &&& i <= s.len()
    &&& scalar_starting_at(s, i - l) is Some
    &&& scalar_len_at(s, i - l) == l
}

/// The Unicode scalar whose UTF-8 encoding ends at position `i` of `s`, if
/// the bytes just before `i` are a well-formed encoding. In well-formed
/// text at most one width fits, since continuation bytes are never leading
/// bytes.
pub open spec fn scalar_ending_at(s: Seq<u8>, i: int) -> Option<u32> {
    if ends_with_scalar(s, i, 1) {
        scalar_starting_at(s, i - 1)
    } else if ends_with_scalar(s, i, 2) {
        scalar_starting_at(s, i - 2)
    } else if ends_with_scalar(s, i, 3) {
        scalar_starting_at(s, i - 3)
    } else if ends_with_scalar(s, i, 4) {
        scalar_starting_at(s, i - 4)
    } else {
        None
    }
}

/// Decodes the scalar starting at position `i`, returning it with its byte
/// length.
pub fn decode_scalar_forward(s: &[u8], i: usize) -> (r: Option<(u32, usize)>)
    ensures
        (match r {
            Option::Some((cp, l)) => scalar_starting_at(s@, i as int) == Some(cp) && 1 <= l <= 4
                && l as int == scalar_len_at(s@, i as int) && i + l <= s@.len(),
            Option::None => scalar_starting_at(s@, i as int) is None,
        }),
{
    let n = s.len();
    if i >= n {
        return None;
    }
    let ghost tail = s@.skip(i as int);
    proof {
        assert(tail.len() == s@.len() - i);
        assert(forall|k: int| 0 <= k < tail.len() ==> tail[k] == s@[i + k]);
    }
    let b0 = s[i];
    if b0 <= 0x7f {
        proof {
            assert(vstd::utf8::is_leading_byte_width_1(tail[0]));
            assert(vstd::utf8::valid_first_scalar(tail));
            assert((b0 & 0x7f) == b0) by (bit_vector)
                requires
                    b0 <= 0x7f,
            ;
            assert(vstd::utf8::decode_first_scalar(tail) == b0 as u32);
        }
        Some((b0 as u32, 1))
    } else if 0xc0 <= b0 && b0 <= 0xdf {
        if i + 1 >= n || !(0x80 <= s[i + 1] && s[i + 1] <= 0xbf) {
            proof {
                assert(!vstd::utf8::valid_leading_and_continuation_bytes_first_codepoint(tail));
            }
            return None;
        }
        let b1 = s[i + 1];
        let cp: u32 = (((b0 & 0x1f) as u32) << 6) | ((b1 & 0x3f) as u32);
        proof {
            assert(cp == vstd::utf8::codepoint_width_2(tail[0], tail[1]));
            assert(cp == vstd::utf8::decode_first_codepoint(tail));
        }
        if cp < 0x80 {
            proof {
                assert(!vstd::utf8::not_overlong_encoding(
                    vstd::utf8::decode_first_codepoint(tail),
                    vstd::utf8::length_of_first_codepoint(tail),
                ));
            }
            return None;
        }
        proof {
            assert(cp <= 0x7FF) by (bit_vector)
                requires
                    cp == (((b0 & 0x1f) as u32) << 6) | ((b1 & 0x3f) as u32),
            ;
            assert(vstd::utf8::valid_first_scalar(tail));
        }
        Some((cp, 2))
    } else if 0xe0 <= b0 && b0 <= 0xef {
        if n - i < 3 || !(0x80 <= s[i + 1] && s[i + 1] <= 0xbf) || !(0x80 <= s[i + 2] && s[i + 2]
            <= 0xbf) {
            proof {
                assert(!vstd::utf8::valid_leading_and_continuation_bytes_first_codepoint(tail));
            }
            return None;
        }
        let b1 = s[i + 1];
        let b2 = s[i + 2];
        let cp: u32 = (((b0 & 0x0f) as u32) << 12) | (((b1 & 0x3f) as u32) << 6) | ((b2
            & 0x3f) as u32);
        proof {
            assert(cp == vstd::utf8::codepoint_width_3(tail[0], tail[1], tail[2]));
            assert(cp == vstd::utf8::decode_first_codepoint(tail));
        }
        if cp < 0x800 {
            proof {
                assert(!vstd::utf8::not_overlong_encoding(
                    vstd::utf8::decode_first_codepoint(tail),
                    vstd::utf8::length_of_first_codepoint(tail),
                ));
            }
            return None;
        }
        if 0xd800 <= cp && cp <= 0xdfff {
            proof {
                assert(!vstd::utf8::not_surrogate(vstd::utf8::decode_first_codepoint(tail)));
            }
            return None;
        }
        proof {
            assert(cp <= 0xFFFF) by (bit_vector)
                requires
                    cp == (((b0 & 0x0f) as u32) << 12) | (((b1 & 0x3f) as u32) << 6) | ((b2
                        & 0x3f) as u32),
            ;
            assert(vstd::utf8::valid_first_scalar(tail));
        }
        Some((cp, 3))
    } else if 0xf0 <= b0 && b0 <= 0xf7 {
        if n - i < 4 || !(0x80 <= s[i + 1] && s[i + 1] <= 0xbf) || !(0x80 <= s[i + 2] && s[i + 2]
            <= 0xbf) || !(0x80 <= s[i + 3] && s[i + 3] <= 0xbf) {
            proof {
                assert(!vstd::utf8::valid_leading_and_continuation_bytes_first_codepoint(tail));
            }
            return None;
        }
        let b1 = s[i + 1];
        let b2 = s[i + 2];
        let b3 = s[i + 3];
        let cp: u32 = (((b0 & 0x07) as u32) << 18) | (((b1 & 0x3f) as u32) << 12) | (((b2
            & 0x3f) as u32) << 6) | ((b3 & 0x3f) as u32);
        proof {
            assert(cp == vstd::utf8::codepoint_width_4(tail[0], tail[1], tail[2], tail[3]));
            assert(cp == vstd::utf8::decode_first_codepoint(tail));
        }
        if cp < 0x10000 || cp > 0x10ffff {
            proof {
                assert(!vstd::utf8::not_overlong_encoding(
                    vstd::utf8::decode_first_codepoint(tail),
                    vstd::utf8::length_of_first_codepoint(tail),
                ));
            }
            return None;
        }
        proof {
            assert(vstd::utf8::valid_first_scalar(tail));
        }
        Some((cp, 4))
    } else {
        proof {
            assert(vstd::utf8::is_continuation_byte(tail[0]) || tail[0] > 0xf7);
            assert(!vstd::utf8::valid_leading_and_continuation_bytes_first_codepoint(tail));
        }
        None
    }
}

/// Decodes the scalar whose encoding ends at position `i`, trying the four
/// possible widths from the shortest.
pub fn decode_scalar_backward(s: &[u8], i: usize) -> (r: Option<u32>)
    requires
        i <= s@.len(),
    ensures
        (match r {
            Option::Some(cp) => scalar_ending_at(s@, i as int) == Some(cp),
            Option::None => scalar_ending_at(s@, i as int) is None,
        }),
{
    if i >= 1 {
        match decode_scalar_forward(s, i - 1) {
            Option::Some((cp, l)) if l == 1 => {
                return Some(cp);
            },
            _ => {},
        }
    }
    proof {
        assert(!ends_with_scalar(s@, i as int, 1));
    }
    if i >= 2 {
        match decode_scalar_forward(s, i - 2) {
            Option::Some((cp, l)) if l == 2 => {
                return Some(cp);
            },
            _ => {},
        }
    }
    proof {
        assert(!ends_with_scalar(s@, i as int, 2));
    }
    if i >= 3 {
        match decode_scalar_forward(s, i - 3) {
            Option::Some((cp, l)) if l == 3 => {
                return Some(cp);
            },
            _ => {},
        }
    }
    proof {
        assert(!ends_with_scalar(s@, i as int, 3));
    }
    if i >= 4 {
        match decode_scalar_forward(s, i - 4) {
            Option::Some((cp, l)) if l == 4 => {
                return Some(cp);
            },
            _ => {},
        }
    }
    proof {
        assert(!ends_with_scalar(s@, i as int, 4));
    }
    None
}

/// A decoded scalar is always a valid character value: outside the
/// surrogate range and at most the greatest code point.
pub proof fn lemma_scalar_valid_char(s: Seq<u8>, i: int)
    requires
        scalar_starting_at(s, i) is Some,
    ensures
        ({
            let cp = scalar_starting_at(s, i)->0;
            cp < 0xD800 || (0xE000 <= cp && cp <= 0x10FFFF)
        }),
{
    let tail = s.skip(i);
    let cp = vstd::utf8::decode_first_codepoint(tail);
    if vstd::utf8::is_leading_byte_width_1(tail[0]) {
        let b0 = tail[0];
        assert(cp == (b0 & 0x7F) as u32);
        assert((b0 & 0x7F) < 0x80) by (bit_vector);
    } else if vstd::utf8::is_leading_byte_width_2(tail[0]) {
        let b0 = tail[0];
        let b1 = tail[1];
        assert(((((b0 & 0x1f) as u32) << 6) | ((b1 & 0x3f) as u32)) <= 0x7FF) by (bit_vector);
    } else if vstd::utf8::is_leading_byte_width_3(tail[0]) {
        let b0 = tail[0];
        let b1 = tail[1];
        let b2 = tail[2];
        assert(((((b0 & 0x0f) as u32) << 12) | (((b1 & 0x3f) as u32) << 6) | ((b2
            & 0x3f) as u32)) <= 0xFFFF) by (bit_vector);
    } else {
        assert(vstd::utf8::not_overlong_encoding(cp, 4));
    }
    assert(vstd::utf8::not_surrogate(cp));
}

/// The scalar ending at `i`, when one does, is likewise a valid character
/// value.
pub proof fn lemma_scalar_before_valid_char(s: Seq<u8>, i: int)
    requires
        scalar_ending_at(s, i) is Some,
    ensures
        ({
            let cp = scalar_ending_at(s, i)->0;
            cp < 0xD800 || (0xE000 <= cp && cp <= 0x10FFFF)
        }),
{
    if ends_with_scalar(s, i, 1) {
        lemma_scalar_valid_char(s, i - 1);
    } else if ends_with_scalar(s, i, 2) {
        lemma_scalar_valid_char(s, i - 2);
    } else if ends_with_scalar(s, i, 3) {
        lemma_scalar_valid_char(s, i - 3);
    } else {
        lemma_scalar_valid_char(s, i - 4);
    }
}

/// The character starting at `i` is whitespace (malformed bytes are not).
pub open spec fn ws_at(s: Seq<u8>, i: int) -> bool {
    match scalar_starting_at(s, i) {
        Option::Some(cp) => ws_of(cp),
        Option::None => false,
    }
}

/// The character ending at `i` is whitespace (malformed bytes are not).
pub open spec fn ws_before(s: Seq<u8>, i: int) -> bool {
    match scalar_ending_at(s, i) {
        Option::Some(cp) => ws_of(cp),
        Option::None => false,
    }
}

/// Tests whether the character starting at `i` is whitespace.
pub fn ws_at_exec(s: &[u8], i: usize) -> (r: bool)
    requires
        i < s@.len(),
    ensures
        r == ws_at(s@, i as int),
{
    match decode_scalar_forward(s, i) {
        Option::Some((cp, _)) => {
            proof {
                lemma_scalar_valid_char(s@, i as int);
            }
            match char_from_u32(cp) {
                Option::Some(c) => char_is_whitespace(c),
                Option::None => {
                    proof {
                        assert(false);
                    }
                    false
                },
            }
        },
        Option::None => false,
    }
}

/// Tests whether the character ending at `i` is whitespace.
pub fn ws_before_exec(s: &[u8], i: usize) -> (r: bool)
    requires
        i <= s@.len(),
    ensures
        r == ws_before(s@, i as int),
{
    match decode_scalar_backward(s, i) {
        Option::Some(cp) => {
            proof {
                lemma_scalar_before_valid_char(s@, i as int);
            }
            match char_from_u32(cp) {
                Option::Some(c) => char_is_whitespace(c),
                Option::None => {
                    proof {
                        assert(false);
                    }
                    false
                },
            }
        },
        Option::None => false,
    }
}

/// The character starting at `i` is a word constituent: alphanumeric or
/// the underscore (malformed bytes are not).
pub open spec fn word_char_at(s: Seq<u8>, i: int) -> bool {
    match scalar_starting_at(s, i) {
        Option::Some(cp) => alnum_of(cp) || cp == 95,
        Option::None => false,
    }
}

/// The character ending at `i` is a word constituent.
pub open spec fn word_char_before(s: Seq<u8>, i: int) -> bool {
    match scalar_ending_at(s, i) {
        Option::Some(cp) => alnum_of(cp) || cp == 95,
        Option::None => false,
    }
}

/// Tests whether the character starting at `i` is a word constituent.
pub fn word_char_at_exec(s: &[u8], i: usize) -> (r: bool)
    requires
        i < s@.len(),
    ensures
        r == word_char_at(s@, i as int),
{
    match decode_scalar_forward(s, i) {
        Option::Some((cp, _)) => {
            proof {
                lemma_scalar_valid_char(s@, i as int);
            }
            match char_from_u32(cp) {
                Option::Some(c) => char_is_alphanumeric(c) || cp == 95,
                Option::None => {
                    proof {
                        assert(false);
                    }
                    false
                },
            }
        },
        Option::None => false,
    }
}

/// Tests whether the character ending at `i` is a word constituent.
pub fn word_char_before_exec(s: &[u8], i: usize) -> (r: bool)
    requires
        i <= s@.len(),
    ensures
        r == word_char_before(s@, i as int),
{
    match decode_scalar_backward(s, i) {
        Option::Some(cp) => {
            proof {
                lemma_scalar_before_valid_char(s@, i as int);
            }
            match char_from_u32(cp) {
                Option::Some(c) => char_is_alphanumeric(c) || cp == 95,
                Option::None => {
                    proof {
                        assert(false);
                    }
                    false
                },
            }
        },
        Option::None => false,
    }
}

/// The character starting at `i` is a control character (malformed bytes
/// are not).
pub open spec fn control_at(s: Seq<u8>, i: int) -> bool {
    match scalar_starting_at(s, i) {
        Option::Some(cp) => control_of(cp),
        Option::None => false,
    }
}

/// Tests whether the character starting at `i` is a control character.
pub fn control_at_exec(s: &[u8], i: usize) -> (r: bool)
    requires
        i < s@.len(),
    ensures
        r == control_at(s@, i as int),
{
    match decode_scalar_forward(s, i) {
        Option::Some((cp, _)) => {
            proof {
                lemma_scalar_valid_char(s@, i as int);
            }
            match char_from_u32(cp) {
                Option::Some(c) => char_is_control(c),
                Option::None => {
                    proof {
                        assert(false);
                    }
                    false
                },
            }
        },
        Option::None => false,
    }
}

/// Tests whether a byte is a UTF-8 continuation byte.
pub fn cont_byte(b: u8) -> (r: bool)
    ensures
        r == vstd::utf8::is_continuation_byte(b),
{
    0x80 <= b && b <= 0xbf
}

/// Position `i` starts a word of `s`: it begins a unit (it is not a
/// continuation byte), the character there is not whitespace (a malformed
/// unit counts as word content), and the character just before it — where
/// there is one — is whitespace.
pub open spec fn word_start_at(s: Seq<u8>, i: int) -> bool {
    &&& 0 <= i < s.len()
    &&& !vstd::utf8::is_continuation_byte(s[i])
    &&& !ws_at(s, i)
    &&& (i == 0 || ws_before(s, i))
}

/// The word-start positions of `s` at or after position `i`, in ascending
/// order.
pub open spec fn word_starts_from(s: Seq<u8>, i: int) -> Seq<int>
    decreases s.len() - i,
{
    if i < 0 || i >= s.len() {
        Seq::empty()
    } else if word_start_at(s, i) {
        seq![i] + word_starts_from(s, i + 1)
    } else {
        word_starts_from(s, i + 1)
    }
}

/// The positions of all word starts of `s`, in ascending order.
pub open spec fn word_starts(s: Seq<u8>) -> Seq<int> {
    word_starts_from(s, 0)
}

/// The number of words of `s`: maximal runs of non-whitespace characters.
pub open spec fn word_count(s: Seq<u8>) -> nat {
    word_starts(s).len()
}

/// The collected start positions lie in `[i, len)` and ascend strictly.
pub proof fn lemma_word_starts_from_props(s: Seq<u8>, i: int)
    ensures
        forall|k: int|
            0 <= k < word_starts_from(s, i).len() ==> i <= #[trigger] word_starts_from(s, i)[k]
                < s.len(),
        forall|k: int, l: int|
            0 <= k < l < word_starts_from(s, i).len() ==> word_starts_from(s, i)[k]
                < word_starts_from(s, i)[l],
    decreases s.len() - i,
{
    if 0 <= i < s.len() {
        lemma_word_starts_from_props(s, i + 1);
        let rest = word_starts_from(s, i + 1);
        let cur = word_starts_from(s, i);
        if word_start_at(s, i) {
            assert(cur == seq![i] + rest);
            assert forall|k: int| 0 <= k < cur.len() implies i <= #[trigger] cur[k] < s.len() by {
                if k == 0 {
                    assert(cur[0] == i);
                } else {
                    assert(cur[k] == rest[k - 1]);
                }
            }
            assert forall|k: int, l: int| 0 <= k < l < cur.len() implies cur[k] < cur[l] by {
                assert(cur[l] == rest[l - 1]);
                if k == 0 {
                    assert(i + 1 <= rest[l - 1]);
                } else {
                    assert(cur[k] == rest[k - 1]);
                }
            }
        } else {
            assert(cur == rest);
        }
    }
}

/// Counts the words of a byte string: maximal runs of characters that are
/// not Unicode whitespace.
pub fn count_word_runs(s: &[u8]) -> (r: usize)
    ensures
        r == word_count(s@) || (r == usize::MAX && word_count(s@) > usize::MAX),
{
    let n = s.len();
    let mut count: usize = 0;
    let mut i: usize = 0;
    while i < n
        invariant
            i <= n,
            n == s@.len(),
            word_starts_from(s@, i as int).len() <= word_starts(s@).len(),
            ({
                let done = word_starts(s@).len() - word_starts_from(s@, i as int).len();
                count == done || (count == usize::MAX && done > usize::MAX)
            }),
        decreases n - i,
    {
        let starts_here: bool = !cont_byte(s[i]) && !ws_at_exec(s, i) && (i == 0 || ws_before_exec(
            s,
            i,
        ));
        proof {
            assert(starts_here == word_start_at(s@, i as int));
            if starts_here {
                assert(word_starts_from(s@, i as int) == seq![i as int] + word_starts_from(
                    s@,
                    i + 1,
                ));
            } else {
                assert(word_starts_from(s@, i as int) == word_starts_from(s@, i + 1));
            }
        }
        if starts_here {
            if count < usize::MAX {
                count = count + 1;
            }
        }
        i = i + 1;
    }
    proof {
        assert(word_starts_from(s@, n as int) =~= Seq::<int>::empty());
    }
    count
}

/// The index of the first `>` byte of `s`, or `-1` if none occurs.
pub open spec fn first_gt(s: Seq<u8>) -> int
    decreases s.len(),
{
    if s.len() == 0 {
        -1
    } else if s[0] == 62 {
        0
    } else if first_gt(s.skip(1)) < 0 {
        -1
    } else {
        first_gt(s.skip(1)) + 1
    }
}

proof fn lemma_first_gt(s: Seq<u8>)
    ensures
        first_gt(s) < 0 ==> forall|k: int| 0 <= k < s.len() ==> s[k] != 62,
        first_gt(s) >= 0 ==> first_gt(s) < s.len() && s[first_gt(s)] == 62 && forall|k: int|
            0 <= k < first_gt(s) ==> s[k] != 62,
    decreases s.len(),
{
    if s.len() > 0 && s[0] != 62 {
        lemma_first_gt(s.skip(1));
        assert(forall|k: int| 1 <= k < s.len() ==> s[k] == s.skip(1)[k - 1]);
    }
}

/// The result of replacing every HTML tag of `s` — a `<`, a possibly empty
/// run of bytes other than `>`, then a `>` — with a single space, scanning
/// once from the left. A trailing `<` with no closing `>` is left as it is.
pub open spec fn strip_tags_spec(s: Seq<u8>) -> Seq<u8>
    decreases s.len(),
{
    if s.len() == 0 {
        Seq::empty()
    } else if s[0] == 60 {
        if 1 <= first_gt(s) < s.len() {
            seq![32u8] + strip_tags_spec(s.skip(first_gt(s) + 1))
        } else {
            s
        }
    } else {
        seq![s[0]] + strip_tags_spec(s.skip(1))
    }
}

/// Replaces every complete HTML tag of `s` with a single space, as
/// `strip_tags_spec` describes.
pub fn strip_tags(s: &[u8]) -> (r: Vec<u8>)
    ensures
        r@ == strip_tags_spec(s@),
{
    let mut out: Vec<u8> = Vec::new();
    let mut i: usize = 0;
    proof {
        assert(s@.skip(0) =~= s@);
        assert(out@ + strip_tags_spec(s@) =~= strip_tags_spec(s@));
    }
    while i < s.len()
        invariant
            i <= s@.len(),
            out@ + strip_tags_spec(s@.skip(i as int)) == strip_tags_spec(s@),
        decreases s@.len() - i,
    {
        let ghost rest = s@.skip(i as int);
        let ghost out_snap = out@;
        if s[i] == 60 {
            // scan for the closing '>'
            let mut j: usize = i + 1;
            while j < s.len() && s[j] != 62
                invariant
                    i < j <= s@.len(),
                    forall|k: int| i < k < j ==> s@[k] != 62,
                decreases s@.len() - j,
            {
                j = j + 1;
            }
            proof {
                lemma_first_gt(rest);
                assert(forall|k: int| 0 <= k < rest.len() ==> rest[k] == s@[i + k]);
            }
            if j < s.len() {
                // tag spans i..=j
                proof {
                    assert(rest[j - i] == 62);
                    assert(forall|k: int| 1 <= k < j - i ==> rest[k] != 62);
                    assert(rest[0] == 60);
                    assert(first_gt(rest) == j - i) by {
                        if first_gt(rest) < 0 {
                        } else if first_gt(rest) < j - i {
                        } else if first_gt(rest) > j - i {
                        }
                    }
                    assert(rest.skip(first_gt(rest) + 1) =~= s@.skip(j + 1));
                }
                out.push(32);
                i = j + 1;
                proof {
                    assert(out@ + strip_tags_spec(s@.skip(i as int)) =~= out_snap + (seq![32u8]
                        + strip_tags_spec(s@.skip(i as int))));
                }
            } else {
                // no closing '>': the rest is kept unchanged
                proof {
                    assert(forall|k: int| 0 <= k < rest.len() ==> rest[k] != 62);
                    assert(first_gt(rest) < 0) by {
                        if first_gt(rest) >= 0 {
                            assert(rest[first_gt(rest)] == 62);
                        }
                    }
                }
                let ghost i0 = i as int;
                let mut k: usize = i;
                proof {
                    assert(s@.subrange(i0, i0) =~= Seq::<u8>::empty());
                    assert(out@ =~= out_snap + s@.subrange(i0, i0));
                }
                while k < s.len()
                    invariant
                        0 <= i0 <= k <= s@.len(),
                        out@ =~= out_snap + s@.subrange(i0, k as int),
                    decreases s@.len() - k,
                {
                    out.push(s[k]);
                    k = k + 1;
                    proof {
                        assert(s@.subrange(i0, k as int) =~= s@.subrange(i0, k - 1).push(
                            s@[k - 1],
                        ));
                    }
                }
                proof {
                    assert(s@.subrange(i0, s@.len() as int) =~= rest);
                    assert(strip_tags_spec(rest) == rest);
                    assert(s@.skip(s@.len() as int) =~= Seq::<u8>::empty());
                    assert((out_snap + rest) + Seq::<u8>::empty() =~= out_snap + rest);
                }
                i = s.len();
            }
        } else {
            proof {
                assert(rest[0] == s@[i as int]);
                assert(rest.skip(1) =~= s@.skip(i + 1));
            }
            out.push(s[i]);
            i = i + 1;
            proof {
                assert(out@ + strip_tags_spec(s@.skip(i as int)) =~= out_snap + (seq![s@[i - 1]]
                    + strip_tags_spec(s@.skip(i as int))));
            }
        }
    }
    proof {
        assert(s@.skip(s@.len() as int) =~= Seq::<u8>::empty());
        assert(out@ + Seq::<u8>::empty() =~= out@);
    }
    out
}

/// The closing block-level HTML tags that are turned into spaces before
/// generic tag stripping, so that adjacent blocks stay separate words.
pub open spec fn block_tag(j: int) -> Seq<u8> {
    if j == 0 {
        seq![60u8, 47, 112, 62]  // </p>
    } else if j == 1 {
        seq![60u8, 47, 100, 105, 118, 62]  // </div>
    } else if j == 2 {
        seq![60u8, 47, 104, 49, 62]  // </h1>
    } else if j == 3 {
        seq![60u8, 47, 104, 50, 62]  // </h2>
    } else if j == 4 {
        seq![60u8, 47, 104, 51, 62]  // </h3>
    } else if j == 5 {
        seq![60u8, 47, 104, 52, 62]  // </h4>
    } else if j == 6 {
        seq![60u8, 47, 104, 53, 62]  // </h5>
    } else if j == 7 {
        seq![60u8, 47, 104, 54, 62]  // </h6>
    } else if j == 8 {
        seq![60u8, 47, 108, 105, 62]  // </li>
    } else if j == 9 {
        seq![60u8, 47, 116, 114, 62]  // </tr>
    } else {
        seq![60u8, 47, 98, 114, 62]  // </br>
    }
}

/// Builds the block tag with index `j` as a byte string.
fn block_tag_exec(j: usize) -> (r: Vec<u8>)
    requires
        j <= 10,
    ensures
        r@ == block_tag(j as int),
{
    let mut v: Vec<u8> = Vec::new();
    v.push(60);
    v.push(47);
    if j == 0 {
        v.push(112);
    } else if j == 1 {
        v.push(100);
        v.push(105);
        v.push(118);
    } else if j == 2 {
        v.push(104);
        v.push(49);
    } else if j == 3 {
        v.push(104);
        v.push(50);
    } else if j == 4 {
        v.push(104);
        v.push(51);
    } else if j == 5 {
        v.push(104);
        v.push(52);
    } else if j == 6 {
        v.push(104);
        v.push(53);
    } else if j == 7 {
        v.push(104);
        v.push(54);
    } else if j == 8 {
        v.push(108);
        v.push(105);
    } else if j == 9 {
        v.push(116);
        v.push(114);
    } else {
        v.push(98);
        v.push(114);
    }
    v.push(62);
    proof {
        assert(v@ =~= block_tag(j as int));
    }
    v
}

/// `s` after the closing block tags with indices below `j` have been replaced
/// by spaces, one tag kind at a time, case-insensitively.
pub open spec fn blocks_to_spaces(s: Seq<u8>, j: int) -> Seq<u8>
    decreases j,
{
    if j <= 0 {
        s
    } else {
        replace_spec(blocks_to_spaces(s, j - 1), block_tag(j - 1), seq![32u8], true)
    }
}

/// The plain text of an HTML fragment for word counting: closing block tags
/// become spaces, remaining tags become spaces, and the entities `&nbsp;`,
/// `&lt;`, `&gt;`, `&amp;` are decoded (a non-breaking space counts as a
/// separator).
pub open spec fn html_text(s: Seq<u8>) -> Seq<u8> {
    let blocks = blocks_to_spaces(s, 11);
    let stripped = strip_tags_spec(blocks);
    let d1 = replace_spec(stripped, seq![38u8, 110, 98, 115, 112, 59], seq![32u8], false);
    let d2 = replace_spec(d1, seq![38u8, 108, 116, 59], seq![60u8], false);
    let d3 = replace_spec(d2, seq![38u8, 103, 116, 59], seq![62u8], false);
    replace_spec(d3, seq![38u8, 97, 109, 112, 59], seq![38u8], false)
}

/// Counts the words of an HTML chapter fragment: tags are treated as word
/// separators and common entities are decoded first, as `html_text`
/// describes.
pub fn count_words(content: &[u8]) -> (r: u32)
    ensures
        word_count(html_text(content@)) <= u32::MAX ==> r == word_count(html_text(content@)),
{
    let mut cur: Vec<u8> = {
        let mut c: Vec<u8> = Vec::new();
        let mut i: usize = 0;
        while i < content.len()
            invariant
                i <= content@.len(),
                c@ =~= content@.take(i as int),
            decreases content@.len() - i,
        {
            c.push(content[i]);
            i = i + 1;
        }
        proof {
            assert(content@.take(content@.len() as int) =~= content@);
        }
        c
    };
    let mut j: usize = 0;
    while j < 11
        invariant
            j <= 11,
            cur@ == blocks_to_spaces(content@, j as int),
        decreases 11 - j,
    {
        let pat = block_tag_exec(j);
        let mut space: Vec<u8> = Vec::new();
        space.push(32);
        proof {
            assert(space@ =~= seq![32u8]);
        }
        cur = replace_sub(cur.as_slice(), pat.as_slice(), space.as_slice(), true);
        j = j + 1;
    }
    let stripped = strip_tags(cur.as_slice());

    let mut nbsp: Vec<u8> = Vec::new();
    nbsp.push(38);
    nbsp.push(110);
    nbsp.push(98);
    nbsp.push(115);
    nbsp.push(112);
    nbsp.push(59);
    let mut lt: Vec<u8> = Vec::new();
    lt.push(38);
    lt.push(108);
    lt.push(116);
    lt.push(59);
    let mut gt: Vec<u8> = Vec::new();
    gt.push(38);
    gt.push(103);
    gt.push(116);
    gt.push(59);
    let mut amp: Vec<u8> = Vec::new();
    amp.push(38);
    amp.push(97);
    amp.push(109);
    amp.push(112);
    amp.push(59);
    let mut space: Vec<u8> = Vec::new();
    space.push(32);
    let mut ltc: Vec<u8> = Vec::new();
    ltc.push(60);
    let mut gtc: Vec<u8> = Vec::new();
    gtc.push(62);
    let mut ampc: Vec<u8> = Vec::new();
    ampc.push(38);
    proof {
        assert(nbsp@ =~= seq![38u8, 110, 98, 115, 112, 59]);
        assert(lt@ =~= seq![38u8, 108, 116, 59]);
        assert(gt@ =~= seq![38u8, 103, 116, 59]);
        assert(amp@ =~= seq![38u8, 97, 109, 112, 59]);
        assert(space@ =~= seq![32u8]);
        assert(ltc@ =~= seq![60u8]);
        assert(gtc@ =~= seq![62u8]);
        assert(ampc@ =~= seq![38u8]);
    }
    let d1 = replace_sub(stripped.as_slice(), nbsp.as_slice(), space.as_slice(), false);
    let d2 = replace_sub(d1.as_slice(), lt.as_slice(), ltc.as_slice(), false);
    let d3 = replace_sub(d2.as_slice(), gt.as_slice(), gtc.as_slice(), false);
    let d4 = replace_sub(d3.as_slice(), amp.as_slice(), ampc.as_slice(), false);
    let n = count_word_runs(d4.as_slice());
    if n > u32::MAX as usize {
        u32::MAX
    } else {
        n as u32
    }
}

} // verus!
