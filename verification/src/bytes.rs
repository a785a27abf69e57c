//! Byte-level helpers shared by the packet codec and the option
//! handling: scanning for string terminators, ASCII case folding,
//! UTF-8 validity, and unsigned decimal strings.

use vstd::prelude::*;

verus! {

/// The string terminator on the wire.
pub const NUL: u8 = 0;

/// ASCII `+`, an optional sign in front of a decimal value.
pub const PLUS: u8 = 43;

/// ASCII `0`.
pub const DIGIT_ZERO: u8 = 48;

/// ASCII `9`.
pub const DIGIT_NINE: u8 = 57;

/// The position of the first NUL byte at or after `from`, if any.
pub open spec fn find_nul(s: Seq<u8>, from: int) -> Option<int>
    decreases s.len() - from,
{
    if from < 0 || from >= s.len() {
        None
    } else if s[from] == NUL {
        Some(from)
    } else {
        find_nul(s, from + 1)
    }
}

/// What `find_nul` returns: the first NUL at or after `from`.
pub proof fn lemma_find_nul_bounds(s: Seq<u8>, from: int)
    requires
        0 <= from <= s.len(),
    ensures
        match find_nul(s, from) {
            Some(i) => from <= i < s.len() && s[i] == NUL && (forall|k: int|
                from <= k < i ==> s[k] != NUL),
            None => forall|k: int| from <= k < s.len() ==> s[k] != NUL,
        },
    decreases s.len() - from,
{
    if from < s.len() && s[from] != NUL {
        lemma_find_nul_bounds(s, from + 1);
    }
}

/// If `i` is a NUL preceded by no NUL from `from` on, `find_nul` finds
/// exactly `i`.
pub proof fn lemma_find_nul_found(s: Seq<u8>, from: int, i: int)
    requires
        0 <= from <= i < s.len(),
        s[i] == NUL,
        forall|k: int| from <= k < i ==> s[k] != NUL,
    ensures
        find_nul(s, from) == Some(i),
    decreases i - from,
{
    if from < i {
        lemma_find_nul_found(s, from + 1, i);
    }
}

/// The position of the first NUL byte at or after `from`, or `None`.
pub fn find_nul_exec(s: &[u8], from: usize) -> (r: Option<usize>)
    requires
        from <= s@.len(),
    ensures
        match r {
            Some(i) => find_nul(s@, from as int) == Some(i as int) && from <= i < s@.len(),
            None => find_nul(s@, from as int) is None,
        },
{
    let mut k: usize = from;
    while k < s.len()
        invariant
            from <= k <= s@.len(),
            find_nul(s@, from as int) == find_nul(s@, k as int),
        decreases s@.len() - k,
    {
        if *vstd::slice::slice_index_get(s, k) == NUL {
            return Some(k);
        }
        k += 1;
    }
    None
}

/// ASCII lower-casing of a single byte.
pub open spec fn lower(b: u8) -> u8 {
    if 65 <= b <= 90 {
        (b + 32) as u8
    } else {
        b
    }
}

/// ASCII lower-casing of a byte string.
pub open spec fn lower_seq(s: Seq<u8>) -> Seq<u8> {
    s.map_values(|b: u8| lower(b))
}

/// ASCII lower-casing of a single byte.
pub fn lower_exec(b: u8) -> (r: u8)
    ensures
        r == lower(b),
{
    if 65 <= b && b <= 90 {
        b + 32
    } else {
        b
    }
}

/// Whether `s` equals `t` up to ASCII case, where `t` is already lower
/// case.
pub fn eq_ignore_case(s: &[u8], t: &[u8]) -> (r: bool)
    ensures
        r == (lower_seq(s@) == t@),
{
    if s.len() != t.len() {
        proof {
            assert(lower_seq(s@).len() == s@.len());
        }
        return false;
    }
    let mut i: usize = 0;
    while i < s.len()
        invariant
            i <= s@.len(),
            s@.len() == t@.len(),
            forall|k: int| 0 <= k < i ==> lower(s@[k]) == t@[k],
        decreases s@.len() - i,
    {
        let sb = *vstd::slice::slice_index_get(s, i);
        let tb = *vstd::slice::slice_index_get(t, i);
        if lower_exec(sb) != tb {
            proof {
                assert(lower_seq(s@)[i as int] != t@[i as int]);
            }
            return false;
        }
        i += 1;
    }
    proof {
        assert(lower_seq(s@) =~= t@);
    }
    true
}

/// Whether `b` is a UTF-8 continuation byte.
pub open spec fn is_cont(b: u8) -> bool {
    0x80 <= b <= 0xBF
}

/// Whether the bytes of `s` from `pos` on are well-formed UTF-8.
///
/// This follows the shortest-form encoding of RFC 3629: overlong
/// encodings, surrogates and values above U+10FFFF are rejected.
pub open spec fn utf8_from(s: Seq<u8>, pos: int) -> bool
    decreases s.len() - pos,
{
    if pos < 0 {
        false
    } else if pos >= s.len() {
        true
    } else {
        let b0 = s[pos];
        if b0 < 0x80 {
            utf8_from(s, pos + 1)
        } else if 0xC2 <= b0 <= 0xDF {
            pos + 2 <= s.len() && is_cont(s[pos + 1]) && utf8_from(s, pos + 2)
        } else if b0 == 0xE0 {
            pos + 3 <= s.len() && 0xA0 <= s[pos + 1] <= 0xBF && is_cont(s[pos + 2]) && utf8_from(
                s,
                pos + 3,
            )
        } else if b0 == 0xED {
            pos + 3 <= s.len() && 0x80 <= s[pos + 1] <= 0x9F && is_cont(s[pos + 2]) && utf8_from(
                s,
                pos + 3,
            )
        } else if 0xE1 <= b0 <= 0xEF {
            pos + 3 <= s.len() && is_cont(s[pos + 1]) && is_cont(s[pos + 2]) && utf8_from(
                s,
                pos + 3,
            )
        } else if b0 == 0xF0 {
            pos + 4 <= s.len() && 0x90 <= s[pos + 1] <= 0xBF && is_cont(s[pos + 2]) && is_cont(
                s[pos + 3],
            ) && utf8_from(s, pos + 4)
        } else if 0xF1 <= b0 <= 0xF3 {
            pos + 4 <= s.len() && is_cont(s[pos + 1]) && is_cont(s[pos + 2]) && is_cont(s[pos + 3])
                && utf8_from(s, pos + 4)
        } else if b0 == 0xF4 {
            pos + 4 <= s.len() && 0x80 <= s[pos + 1] <= 0x8F && is_cont(s[pos + 2]) && is_cont(
                s[pos + 3],
            ) && utf8_from(s, pos + 4)
        } else {
            false
        }
    }
}

/// Whether `s` is well-formed UTF-8.
pub open spec fn is_utf8(s: Seq<u8>) -> bool {
    utf8_from(s, 0)
}

/// Whether the byte string is well-formed UTF-8.
pub fn validate_utf8(s: &[u8]) -> (r: bool)
    ensures
        r == is_utf8(s@),
{
    let n = s.len();
    let mut pos: usize = 0;
    while pos < n
        invariant
            pos <= n,
            n == s@.len(),
            is_utf8(s@) == utf8_from(s@, pos as int),
        decreases n - pos,
    {
        let b0 = *vstd::slice::slice_index_get(s, pos);
        if b0 < 0x80 {
            pos += 1;
        } else if 0xC2 <= b0 && b0 <= 0xDF {
            if n - pos < 2 || !is_cont_exec(*vstd::slice::slice_index_get(s, pos + 1)) {
                return false;
            }
            pos += 2;
        } else if b0 == 0xE0 {
            if n - pos < 3 {
                return false;
            }
            let b1 = *vstd::slice::slice_index_get(s, pos + 1);
            let b2 = *vstd::slice::slice_index_get(s, pos + 2);
            if !(0xA0 <= b1 && b1 <= 0xBF) || !is_cont_exec(b2) {
                return false;
            }
            pos += 3;
        } else if b0 == 0xED {
            if n - pos < 3 {
                return false;
            }
            let b1 = *vstd::slice::slice_index_get(s, pos + 1);
            let b2 = *vstd::slice::slice_index_get(s, pos + 2);
            if !(0x80 <= b1 && b1 <= 0x9F) || !is_cont_exec(b2) {
                return false;
            }
            pos += 3;
        } else if 0xE1 <= b0 && b0 <= 0xEF {
            if n - pos < 3 {
                return false;
            }
            let b1 = *vstd::slice::slice_index_get(s, pos + 1);
            let b2 = *vstd::slice::slice_index_get(s, pos + 2);
            if !is_cont_exec(b1) || !is_cont_exec(b2) {
                return false;
            }
            pos += 3;
        } else if b0 == 0xF0 {
            if n - pos < 4 {
                return false;
            }
            let b1 = *vstd::slice::slice_index_get(s, pos + 1);
            let b2 = *vstd::slice::slice_index_get(s, pos + 2);
            let b3 = *vstd::slice::slice_index_get(s, pos + 3);
            if !(0x90 <= b1 && b1 <= 0xBF) || !is_cont_exec(b2) || !is_cont_exec(b3) {
                return false;
            }
            pos += 4;
        } else if 0xF1 <= b0 && b0 <= 0xF3 {
            if n - pos < 4 {
                return false;
            }
            let b1 = *vstd::slice::slice_index_get(s, pos + 1);
            let b2 = *vstd::slice::slice_index_get(s, pos + 2);
            let b3 = *vstd::slice::slice_index_get(s, pos + 3);
            if !is_cont_exec(b1) || !is_cont_exec(b2) || !is_cont_exec(b3) {
                return false;
            }
            pos += 4;
        } else if b0 == 0xF4 {
            if n - pos < 4 {
                return false;
            }
            let b1 = *vstd::slice::slice_index_get(s, pos + 1);
            let b2 = *vstd::slice::slice_index_get(s, pos + 2);
            let b3 = *vstd::slice::slice_index_get(s, pos + 3);
            if !(0x80 <= b1 && b1 <= 0x8F) || !is_cont_exec(b2) || !is_cont_exec(b3) {
                return false;
            }
            pos += 4;
        } else {
            return false;
        }
    }
    true
}

/// Whether `b` is a UTF-8 continuation byte.
fn is_cont_exec(b: u8) -> (r: bool)
    ensures
        r == is_cont(b),
{
    0x80 <= b && b <= 0xBF
}

/// Whether `b` is an ASCII decimal digit.
pub open spec fn is_digit(b: u8) -> bool {
    DIGIT_ZERO <= b <= DIGIT_NINE
}

/// Whether every byte of `s` is an ASCII decimal digit.
pub open spec fn all_digits(s: Seq<u8>) -> bool {
    forall|i: int| 0 <= i < s.len() ==> is_digit(#[trigger] s[i])
}

/// The numeric value of a digit string, most significant digit first.
pub open spec fn dec_value(s: Seq<u8>) -> int
    decreases s.len(),
{
    if s.len() == 0 {
        0
    } else {
        dec_value(s.drop_last()) * 10 + (s.last() - DIGIT_ZERO)
    }
}

/// The digits of a decimal string: everything after an optional
/// leading `+`.
pub open spec fn digit_part(s: Seq<u8>) -> Seq<u8> {
    if s.len() > 0 && s[0] == PLUS {
        s.skip(1)
    } else {
        s
    }
}

/// What parsing an unsigned 16-bit decimal value accepts: an optional
/// leading `+`, then at least one digit, denoting a value below 2^16.
pub open spec fn spec_parse_u16(s: Seq<u8>) -> Option<u16> {
    let digits = digit_part(s);
    if digits.len() > 0 && all_digits(digits) && dec_value(digits) <= 0xFFFF {
        Some(dec_value(digits) as u16)
    } else {
        None
    }
}

/// Parses an unsigned 16-bit decimal value as `str::parse::<u16>` does:
/// an optional `+` sign, then decimal digits; anything else, or a value
/// that does not fit, is rejected.
pub fn parse_u16(s: &[u8]) -> (r: Option<u16>)
    ensures
        r == spec_parse_u16(s@),
{
    let n = s.len();
    let start: usize = if n > 0 && *vstd::slice::slice_index_get(s, 0) == PLUS {
        1
    } else {
        0
    };
    let ghost digits = s@.subrange(start as int, n as int);
    proof {
        if start == 1 {
            assert(digits =~= s@.skip(1));
        } else {
            assert(digits =~= s@);
        }
    }
    if start == n {
        return None;
    }
    let mut acc: u32 = 0;
    let mut over: bool = false;
    let mut i: usize = start;
    while i < n
        invariant
            start <= i <= n,
            start < n,
            n == s@.len(),
            digits == s@.subrange(start as int, n as int),
            digits == digit_part(s@),
            forall|k: int| start <= k < i ==> is_digit(#[trigger] s@[k]),
            acc <= 0xFFFF,
            !over ==> acc == dec_value(s@.subrange(start as int, i as int)),
            over ==> dec_value(s@.subrange(start as int, i as int)) > 0xFFFF,
        decreases n - i,
    {
        let b = *vstd::slice::slice_index_get(s, i);
        if !(DIGIT_ZERO <= b && b <= DIGIT_NINE) {
            proof {
                assert(digits[i - start] == s@[i as int]);
                assert(!is_digit(digits[i - start]));
                assert(!all_digits(digits));
            }
            return None;
        }
        let ghost prefix = s@.subrange(start as int, i as int);
        let ghost prefix1 = s@.subrange(start as int, i + 1);
        proof {
            assert(prefix1.drop_last() =~= prefix);
            assert(prefix1.last() == s@[i as int]);
        }
        let d = (b - DIGIT_ZERO) as u32;
        if over {
            proof {
                assert(dec_value(prefix1) == dec_value(prefix) * 10 + (s@[i as int] - DIGIT_ZERO));
                assert(dec_value(prefix) * 10 > 0xFFFF * 10) by (nonlinear_arith)
                    requires
                        dec_value(prefix) > 0xFFFF,
                ;
            }
        } else {
            let next = acc * 10 + d;
            if next > 0xFFFF {
                over = true;
            } else {
                acc = next;
            }
        }
        i += 1;
    }
    proof {
        assert(digits.len() > 0);
        assert(all_digits(digits)) by {
            assert(forall|k: int|
                0 <= k < digits.len() ==> digits[k] == #[trigger] s@[start + k]);
        }
    }
    if over {
        None
    } else {
        Some(acc as u16)
    }
}

/// The decimal representation of a non-negative value, without leading
/// zeros (`0` for zero).
pub open spec fn dec_repr(x: int) -> Seq<u8>
    recommends
        x >= 0,
    decreases x,
{
    if x < 10 {
        seq![(x + DIGIT_ZERO) as u8]
    } else {
        dec_repr(x / 10).push((x % 10 + DIGIT_ZERO) as u8)
    }
}

/// Renders an unsigned 16-bit value in decimal.
pub fn render_u16(x: u16) -> (r: Vec<u8>)
    ensures
        r@ == dec_repr(x as int),
{
    let mut low_digits: Vec<u8> = Vec::new();
    let mut cur: u16 = x;
    while cur >= 10
        invariant
            dec_repr(x as int) == dec_repr(cur as int) + low_digits@.reverse(),
        decreases cur,
    {
        let d = (cur % 10) as u8 + DIGIT_ZERO;
        let ghost pre = low_digits@;
        low_digits.push(d);
        cur = cur / 10;
        proof {
            assert(low_digits@.reverse() =~= seq![d] + pre.reverse());
            assert(dec_repr(x as int) == dec_repr(cur as int) + low_digits@.reverse());
        }
    }
    let mut out: Vec<u8> = Vec::new();
    out.push(cur as u8 + DIGIT_ZERO);
    proof {
        assert(dec_repr(cur as int) == seq![(cur + DIGIT_ZERO) as u8]);
        assert(out@ =~= dec_repr(cur as int));
    }
    let m = low_digits.len();
    let mut k: usize = 0;
    while k < m
        invariant
            k <= m,
            m == low_digits@.len(),
            out@ == dec_repr(cur as int) + low_digits@.reverse().subrange(0, k as int),
            dec_repr(x as int) == dec_repr(cur as int) + low_digits@.reverse(),
        decreases m - k,
    {
        out.push(low_digits[m - 1 - k]);
        proof {
            assert(low_digits@.reverse()[k as int] == low_digits@[m - 1 - k]);
            assert(out@ =~= dec_repr(cur as int) + low_digits@.reverse().subrange(0, k + 1));
        }
        k += 1;
    }
    proof {
        assert(low_digits@.reverse().subrange(0, m as int) =~= low_digits@.reverse());
    }
    out
}


/// Copies a byte vector.
pub fn clone_bytes(v: &Vec<u8>) -> (r: Vec<u8>)
    ensures
        r@ == v@,
{
    let r = v.clone();
    proof {
        assert(r@ =~= v@);
    }
    r
}

} // verus!
