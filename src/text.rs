//! ASCII decimal fields: reading fixed-width digit fields and rendering
//! zero-padded decimal numbers.

use vstd::prelude::*;

verus! {

/// ASCII code of the digit `0`.
pub const ASCII_ZERO: u8 = 48;

/// ASCII code of the digit `9`.
pub const ASCII_NINE: u8 = 57;

pub open spec fn is_digit(b: u8) -> bool {
    ASCII_ZERO <= b && b <= ASCII_NINE
}

/// Every byte of `s` is an ASCII digit.
pub open spec fn all_digits(s: Seq<u8>) -> bool {
    forall|i: int| 0 <= i < s.len() ==> is_digit(#[trigger] s[i])
}

/// The value of a two-digit decimal field at `at`, or `None` where either
/// byte is not an ASCII digit.
pub open spec fn two_digit_field(s: Seq<u8>, at: int) -> Option<u8> {
    if is_digit(s[at]) && is_digit(s[at + 1]) {
        Some((10 * (s[at] - ASCII_ZERO) + (s[at + 1] - ASCII_ZERO)) as u8)
    } else {
        None
    }
}

/// The shortest decimal rendering of `n` in ASCII digits.
pub open spec fn decimal(n: nat) -> Seq<u8>
    decreases n,
{
    if n < 10 {
        seq![(ASCII_ZERO + n) as u8]
    } else {
        decimal(n / 10).push((ASCII_ZERO + n % 10) as u8)
    }
}

/// The decimal rendering of `n`, left-padded with `0` to at least `width` bytes.
pub open spec fn zero_padded(n: nat, width: nat) -> Seq<u8> {
    let d = decimal(n);
    if d.len() < width {
        Seq::new((width - d.len()) as nat, |_i: int| ASCII_ZERO) + d
    } else {
        d
    }
}

/// Reads the two-digit decimal field of `s` at `at`.
pub fn parse_two_digits(s: &[u8], at: usize) -> (r: Option<u8>)
    requires
        at + 2 <= s@.len(),
    ensures
        r == two_digit_field(s@, at as int),
{
    let hi = s[at];
    let lo = s[at + 1];
    if ASCII_ZERO <= hi && hi <= ASCII_NINE && ASCII_ZERO <= lo && lo <= ASCII_NINE {
        Some(10 * (hi - ASCII_ZERO) + (lo - ASCII_ZERO))
    } else {
        None
    }
}

/// Whether the `len` bytes of `s` from `start` are all ASCII digits.
pub fn are_digits(s: &[u8], start: usize, len: usize) -> (r: bool)
    requires
        start + len <= s@.len(),
    ensures
        r == all_digits(s@.subrange(start as int, start + len)),
{
    let mut i: usize = 0;
    let n: usize = s.len();
    while i < len
        invariant
            start + len <= s@.len(),
            n == s@.len(),
            i <= len,
            forall|k: int| 0 <= k < i ==> is_digit(#[trigger] s@[start + k]),
        decreases len - i,
    {
        let b = s[start + i];
        if b < ASCII_ZERO || b > ASCII_NINE {
            assert(!is_digit(s@.subrange(start as int, start + len)[i as int]));
            return false;
        }
        i = i + 1;
    }
    assert forall|k: int| 0 <= k < len implies is_digit(
        #[trigger] s@.subrange(start as int, start + len)[k],
    ) by {
        assert(s@.subrange(start as int, start + len)[k] == s@[start + k]);
    }
    true
}

/// The shortest decimal rendering of `n`.
pub fn decimal_bytes(n: u64) -> (r: Vec<u8>)
    ensures
        r@ == decimal(n as nat),
    decreases n,
{
    if n < 10 {
        vec![ASCII_ZERO + n as u8]
    } else {
        let mut r = decimal_bytes(n / 10);
        r.push(ASCII_ZERO + (n % 10) as u8);
        r
    }
}

/// Appends the decimal rendering of `n`, left-padded with `0` to `width` bytes.
pub fn push_zero_padded(out: &mut Vec<u8>, n: u64, width: usize)
    ensures
        final(out)@ == old(out)@ + zero_padded(n as nat, width as nat),
{
    let mut digits = decimal_bytes(n);
    let ghost d = digits@;
    let ghost start = out@;
    let mut k: usize = digits.len();
    while k < width
        invariant
            d.len() <= k,
            k <= width || k == d.len(),
            out@ == start + Seq::new((k - d.len()) as nat, |_i: int| ASCII_ZERO),
        decreases width - k,
    {
        out.push(ASCII_ZERO);
        k = k + 1;
        assert(out@ =~= start + Seq::new((k - d.len()) as nat, |_i: int| ASCII_ZERO));
    }
    out.append(&mut digits);
    assert(out@ =~= start + zero_padded(n as nat, width as nat));
}

} // verus!
