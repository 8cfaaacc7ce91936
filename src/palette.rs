use vstd::prelude::*;
use vstd::string::*;

verus! {

/// Value of a hexadecimal digit, either case.
pub open spec fn hex_val(c: char) -> int {
    if '0' <= c <= '9' {
        c as int - '0' as int
    } else if 'a' <= c <= 'f' {
        c as int - 'a' as int + 10
    } else {
        c as int - 'A' as int + 10
    }
}

pub open spec fn is_hex_digit(c: char) -> bool {
    ('0' <= c <= '9') || ('a' <= c <= 'f') || ('A' <= c <= 'F')
}

/// The colour's digits start at `k`: `k` leading `#`s, then six
/// hexadecimal digits (anything may follow them).
pub open spec fn digits_at(s: Seq<char>, k: int) -> bool {
    &&& 0 <= k
    &&& k + 6 <= s.len()
    &&& forall|i: int| 0 <= i < k ==> #[trigger] s[i] == '#'
    &&& forall|i: int| k <= i < k + 6 ==> is_hex_digit(#[trigger] s[i])
}

/// Leading `#`s, then six hexadecimal digits.
pub open spec fn is_hex_color(s: Seq<char>) -> bool {
    exists|k: int| digits_at(s, k)
}

/// The byte written by the two digits at `i` and `i + 1`.
pub open spec fn hex_byte(s: Seq<char>, i: int) -> u8 {
    (hex_val(s[i]) * 16 + hex_val(s[i + 1])) as u8
}

fn digit_value(c: char) -> (r: u8)
    requires
        is_hex_digit(c),
    ensures
        r as int == hex_val(c),
        r < 16,
{
    if '0' <= c && c <= '9' {
        (c as u32 - '0' as u32) as u8
    } else if 'a' <= c && c <= 'f' {
        (c as u32 - 'a' as u32 + 10) as u8
    } else {
        (c as u32 - 'A' as u32 + 10) as u8
    }
}

fn byte_at(hex: &str, i: usize) -> (r: u8)
    requires
        i + 1 < hex@.len(),
        hex@.len() <= usize::MAX,
        is_hex_digit(hex@[i as int]),
        is_hex_digit(hex@[i + 1]),
    ensures
        r == hex_byte(hex@, i as int),
{
    let hi = digit_value(hex.get_char(i));
    let lo = digit_value(hex.get_char(i + 1));
    hi * 16 + lo
}

/// Reads `#rrggbb` as an opaque colour: leading `#`s are skipped and the
/// first six digits after them are read.
pub fn hex_to_rgb(hex: &str) -> (r: [u8; 4])
    requires
        is_hex_color(hex@),
    ensures
        forall|k: int| digits_at(hex@, k) ==>
            r@ == seq![hex_byte(hex@, k), hex_byte(hex@, k + 2), hex_byte(hex@, k + 4), 255u8],
{
    let ghost w = choose|k: int| digits_at(hex@, k);
    let len = hex.unicode_len();
    let mut k: usize = 0;
    while k < len && hex.get_char(k) == '#'
        invariant
            len == hex@.len(),
            digits_at(hex@, w),
            k <= w,
            forall|i: int| 0 <= i < k ==> #[trigger] hex@[i] == '#',
        decreases len - k,
    {
        proof {
            if k == w {
                assert(is_hex_digit(hex@[w]));
            }
        }
        k = k + 1;
    }
    proof {
        if k < w {
            assert(hex@[k as int] == '#');
        }
        assert(k == w);
        assert forall|j: int| digits_at(hex@, j) implies j == w by {
            if j < w {
                assert(hex@[j] == '#');
                assert(is_hex_digit(hex@[j]));
            } else if j > w {
                assert(hex@[w] == '#');
                assert(is_hex_digit(hex@[w]));
            }
        }
    }
    let r: [u8; 4] = [byte_at(hex, k), byte_at(hex, k + 2), byte_at(hex, k + 4), 255];
    assert(r@ =~= seq![hex_byte(hex@, w), hex_byte(hex@, w + 2), hex_byte(hex@, w + 4), 255u8]);
    r
}

} // verus!
