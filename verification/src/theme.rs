//! Colour values of the themes, read from `RRGGBB` hex text.
use vstd::prelude::*;
use vstd::string::StrSliceExecFns;

verus! {

/// The value of hex digit `c` (either case), if it is one.
pub open spec fn hex_value(c: char) -> Option<int> {
    let v = c as int;
    if 48 <= v <= 57 {
        Some(v - 48)
    } else if 65 <= v <= 70 {
        Some(v - 55)
    } else if 97 <= v <= 102 {
        Some(v - 87)
    } else {
        None
    }
}

/// Number of leading `#` characters of `s`.
pub open spec fn hashes(s: Seq<char>) -> nat
    decreases s.len(),
{
    if s.len() > 0 && s[0] == '#' {
        1 + hashes(s.drop_first())
    } else {
        0
    }
}

/// `s`, after its leading `#` characters, starts with six hex digits.
pub open spec fn hex_ok(s: Seq<char>) -> bool {
    let k = hashes(s);
    &&& k + 6 <= s.len()
    &&& forall|j: int| k <= j < k + 6 ==> #[trigger] hex_value(s[j]) is Some
}

/// The byte written by the two hex digits at `j` and `j + 1`.
pub open spec fn hex_byte(s: Seq<char>, j: int) -> int {
    hex_value(s[j])->0 * 16 + hex_value(s[j + 1])->0
}

/// The value of the hex digit `c`.
fn digit_value(c: char) -> (v: u8)
    requires
        hex_value(c) is Some,
    ensures
        v == hex_value(c)->0,
{
    let code = c as u32;
    if code <= 57 {
        (code - 48) as u8
    } else if code <= 70 {
        (code - 55) as u8
    } else {
        (code - 87) as u8
    }
}

/// The red, green and blue bytes of hex text such as `1E1E2E` or `#1E1E2E`.
pub fn hex_rgb(s: &str) -> (rgb: (u8, u8, u8))
    requires
        hex_ok(s@),
    ensures
        rgb.0 == hex_byte(s@, hashes(s@) as int),
        rgb.1 == hex_byte(s@, hashes(s@) as int + 2),
        rgb.2 == hex_byte(s@, hashes(s@) as int + 4),
{
    let n = s.unicode_len();
    let mut k: usize = 0;
    proof {
        assert(s@.subrange(0, n as int) =~= s@);
    }
    while k < n && s.get_char(k) == '#'
        invariant
            k <= n,
            n == s@.len(),
            hex_ok(s@),
            k <= hashes(s@),
            hashes(s@) == k + hashes(s@.subrange(k as int, n as int)),
            forall|j: int| 0 <= j < k ==> s@[j] == '#',
        decreases n - k,
    {
        proof {
            let rest = s@.subrange(k as int, n as int);
            assert(rest[0] == '#');
            assert(rest.drop_first() =~= s@.subrange(k + 1, n as int));
        }
        k = k + 1;
    }
    proof {
        if k < n {
            let rest = s@.subrange(k as int, n as int);
            assert(rest[0] != '#');
        } else {
            assert(s@.subrange(k as int, n as int).len() == 0);
        }
        assert(hashes(s@) == k);
    }
    let r1 = digit_value(s.get_char(k));
    let r2 = digit_value(s.get_char(k + 1));
    let g1 = digit_value(s.get_char(k + 2));
    let g2 = digit_value(s.get_char(k + 3));
    let b1 = digit_value(s.get_char(k + 4));
    let b2 = digit_value(s.get_char(k + 5));
    (r1 * 16 + r2, g1 * 16 + g2, b1 * 16 + b2)
}

} // verus!
