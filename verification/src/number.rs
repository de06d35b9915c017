use vstd::prelude::*;

verus! {

/// `b` is an ASCII decimal digit.
pub open spec fn is_digit(b: u8) -> bool {
    0x30 <= b <= 0x39
}

/// `b` is `+` or `-`.
pub open spec fn is_sign(b: u8) -> bool {
    b == 0x2B || b == 0x2D
}

/// `b` with an ASCII capital letter turned into its small letter.
pub open spec fn ascii_lower(b: u8) -> u8 {
    if 0x41 <= b <= 0x5A {
        (b + 0x20) as u8
    } else {
        b
    }
}

/// The index of the first byte at or after `i` that is not a decimal digit
/// (the length if there is none).
pub open spec fn digits_end(s: Seq<u8>, i: int) -> int
    decreases s.len() - i,
{
    if i < 0 || i >= s.len() || !is_digit(s[i]) {
        i
    } else {
        digits_end(s, i + 1)
    }
}

/// `s` from `i` on is an exponent: `e` or `E`, an optional sign, then one or
/// more digits up to the end.
pub open spec fn exponent_from(s: Seq<u8>, i: int) -> bool {
    &&& 0 <= i < s.len()
    &&& ascii_lower(s[i]) == 0x65
    &&& {
        let d = if i + 1 < s.len() && is_sign(s[i + 1]) {
            i + 2
        } else {
            i + 1
        };
        d < s.len() && digits_end(s, d) == s.len()
    }
}

/// `s` from `i` on is a decimal number: digits, optionally a `.` and more
/// digits, with at least one digit in all, then optionally an exponent.
pub open spec fn decimal_from(s: Seq<u8>, i: int) -> bool {
    let a = digits_end(s, i);
    let dot = a < s.len() && s[a] == 0x2E;
    let b = if dot {
        digits_end(s, a + 1)
    } else {
        a
    };
    let count = if dot {
        (a - i) + (b - a - 1)
    } else {
        a - i
    };
    count > 0 && (b == s.len() || exponent_from(s, b))
}

/// `s` from `i` on spells `w` (small letters), ignoring ASCII case.
pub open spec fn spells_from(s: Seq<u8>, i: int, w: Seq<u8>) -> bool {
    &&& s.len() - i == w.len()
    &&& forall|k: int| 0 <= k < w.len() ==> ascii_lower(#[trigger] s[i + k]) == w[k]
}

/// `inf` in small letters.
pub open spec fn inf_word() -> Seq<u8> {
    seq![0x69u8, 0x6E, 0x66]
}

/// `infinity` in small letters.
pub open spec fn infinity_word() -> Seq<u8> {
    seq![0x69u8, 0x6E, 0x66, 0x69, 0x6E, 0x69, 0x74, 0x79]
}

/// `nan` in small letters.
pub open spec fn nan_word() -> Seq<u8> {
    seq![0x6Eu8, 0x61, 0x6E]
}

/// `s` is the text of a floating-point number as Rust's `f32::from_str`
/// reads it: an optional sign, then `inf`, `infinity` or `nan` in any case,
/// or a decimal number (`Digit+`, `Digit+ . Digit*` or `Digit* . Digit+`)
/// with an optional exponent (`e` or `E`, an optional sign, `Digit+`).
pub open spec fn is_float_text(s: Seq<u8>) -> bool {
    let i = if s.len() > 0 && is_sign(s[0]) {
        1int
    } else {
        0int
    };
    ||| spells_from(s, i, inf_word())
    ||| spells_from(s, i, infinity_word())
    ||| spells_from(s, i, nan_word())
    ||| decimal_from(s, i)
}

fn lower_byte(b: u8) -> (r: u8)
    ensures
        r == ascii_lower(b),
{
    if 0x41 <= b && b <= 0x5A {
        b + 0x20
    } else {
        b
    }
}

/// The index of the first byte at or after `i` that is not a decimal digit.
fn skip_digits(s: &[u8], i: usize) -> (r: usize)
    requires
        i <= s@.len(),
    ensures
        r as int == digits_end(s@, i as int),
        i <= r <= s@.len(),
    decreases s@.len() - i,
{
    if i >= s.len() || !(0x30 <= s[i] && s[i] <= 0x39) {
        i
    } else {
        skip_digits(s, i + 1)
    }
}

/// Whether `s` from `i` on spells `w`, ignoring ASCII case.
fn spells(s: &[u8], i: usize, w: &[u8]) -> (r: bool)
    requires
        i <= s@.len(),
    ensures
        r == spells_from(s@, i as int, w@),
{
    if s.len() - i != w.len() {
        return false;
    }
    let mut k: usize = 0;
    while k < w.len()
        invariant
            i <= s@.len(),
            s@.len() - i == w@.len(),
            0 <= k <= w@.len(),
            forall|m: int| 0 <= m < k ==> ascii_lower(#[trigger] s@[i + m]) == w@[m],
        decreases w@.len() - k,
    {
        assert(i + k < s.len());
        if lower_byte(s[i + k]) != w[k] {
            return false;
        }
        k = k + 1;
    }
    true
}

/// Whether `s` from `i` on is an exponent.
fn exponent_at(s: &[u8], i: usize) -> (r: bool)
    requires
        i <= s@.len(),
    ensures
        r == exponent_from(s@, i as int),
{
    if i >= s.len() || lower_byte(s[i]) != 0x65 {
        return false;
    }
    let d = if i + 1 < s.len() && (s[i + 1] == 0x2B || s[i + 1] == 0x2D) {
        i + 2
    } else {
        i + 1
    };
    d < s.len() && skip_digits(s, d) == s.len()
}

/// Whether `s` is the text of a floating-point number as `f32::from_str`
/// reads it (see [`is_float_text`]).
pub fn float_text(s: &[u8]) -> (r: bool)
    ensures
        r == is_float_text(s@),
{
    let i: usize = if s.len() > 0 && (s[0] == 0x2B || s[0] == 0x2D) {
        1
    } else {
        0
    };
    let inf: [u8; 3] = [0x69, 0x6E, 0x66];
    let infinity: [u8; 8] = [0x69, 0x6E, 0x66, 0x69, 0x6E, 0x69, 0x74, 0x79];
    let nan: [u8; 3] = [0x6E, 0x61, 0x6E];
    assert(inf@ =~= inf_word());
    assert(infinity@ =~= infinity_word());
    assert(nan@ =~= nan_word());
    if spells(s, i, inf.as_slice()) || spells(s, i, infinity.as_slice()) || spells(s, i, nan.as_slice()) {
        return true;
    }
    let a = skip_digits(s, i);
    let dot = a < s.len() && s[a] == 0x2E;
    let b = if dot {
        skip_digits(s, a + 1)
    } else {
        a
    };
    let count: usize = if dot {
        (a - i) + (b - a - 1)
    } else {
        a - i
    };
    count > 0 && (b == s.len() || exponent_at(s, b))
}

} // verus!
