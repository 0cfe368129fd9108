//! Decimal and list rendering used by the error messages.

pub mod laws;

use vstd::prelude::*;
use vstd::string::*;

verus! {

/// One decimal digit as text.
pub open spec fn digit_text(d: nat) -> Seq<char> {
    if d == 0 {
        "0"@
    } else if d == 1 {
        "1"@
    } else if d == 2 {
        "2"@
    } else if d == 3 {
        "3"@
    } else if d == 4 {
        "4"@
    } else if d == 5 {
        "5"@
    } else if d == 6 {
        "6"@
    } else if d == 7 {
        "7"@
    } else if d == 8 {
        "8"@
    } else {
        "9"@
    }
}

/// A natural number in base ten without leading zeros.
pub open spec fn nat_text(n: nat) -> Seq<char>
    decreases n,
{
    if n < 10 {
        digit_text(n)
    } else {
        nat_text(n / 10) + digit_text(n % 10)
    }
}

/// An integer in base ten, with a leading `-` when negative.
pub open spec fn int_text(i: int) -> Seq<char> {
    if i < 0 {
        "-"@ + nat_text((-i) as nat)
    } else {
        nat_text(i as nat)
    }
}

/// The comma-separated elements of a list, without brackets.
pub open spec fn items_text(s: Seq<int>) -> Seq<char>
    decreases s.len(),
{
    if s.len() == 0 {
        ""@
    } else if s.len() == 1 {
        int_text(s[0])
    } else {
        items_text(s.drop_last()) + ", "@ + int_text(s.last())
    }
}

/// A list as `[a, b, c]`.
pub open spec fn list_text(s: Seq<int>) -> Seq<char> {
    "["@ + items_text(s) + "]"@
}

/// The elements of an unsigned list as mathematical integers.
pub open spec fn ints(s: Seq<usize>) -> Seq<int> {
    Seq::new(s.len(), |i: int| s[i] as int)
}

/// The elements of a signed list as mathematical integers.
pub open spec fn signed_ints(s: Seq<i64>) -> Seq<int> {
    Seq::new(s.len(), |i: int| s[i] as int)
}

/// A dimension list as `[a, b, c]`.
pub open spec fn dims_text(s: Seq<usize>) -> Seq<char> {
    list_text(ints(s))
}

fn digit(d: u64) -> (r: &'static str)
    requires
        d < 10,
    ensures
        r@ == digit_text(d as nat),
{
    if d == 0 {
        "0"
    } else if d == 1 {
        "1"
    } else if d == 2 {
        "2"
    } else if d == 3 {
        "3"
    } else if d == 4 {
        "4"
    } else if d == 5 {
        "5"
    } else if d == 6 {
        "6"
    } else if d == 7 {
        "7"
    } else if d == 8 {
        "8"
    } else {
        "9"
    }
}

/// Renders an unsigned 64-bit number in base ten.
pub fn u64_string(n: u64) -> (r: String)
    ensures
        r@ == nat_text(n as nat),
    decreases n,
{
    if n < 10 {
        digit(n).to_string()
    } else {
        let mut s = u64_string(n / 10);
        s.append(digit(n % 10));
        s
    }
}

/// Renders a length or index in base ten.
pub fn usize_string(n: usize) -> (r: String)
    ensures
        r@ == nat_text(n as nat),
{
    u64_string(n as u64)
}

/// Renders a signed 64-bit number in base ten.
pub fn i64_string(n: i64) -> (r: String)
    ensures
        r@ == int_text(n as int),
{
    if n >= 0 {
        return u64_string(n as u64);
    }
    let magnitude: u64 = if n == i64::MIN {
        9_223_372_036_854_775_808
    } else {
        (0 - n) as u64
    };
    let mut s = "-".to_string();
    s.append(u64_string(magnitude).as_str());
    s
}

/// Renders an unsigned list as `[a, b, c]`.
pub fn dims_string(dims: &[usize]) -> (r: String)
    ensures
        r@ == dims_text(dims@),
{
    let mut body = String::new();
    let mut i: usize = 0;
    proof {
        reveal_strlit("");
    }
    while i < dims.len()
        invariant
            0 <= i <= dims.len(),
            body@ == items_text(ints(dims@.take(i as int))),
        decreases dims.len() - i,
    {
        proof {
            let next = ints(dims@.take(i + 1));
            assert(next.drop_last() =~= ints(dims@.take(i as int)));
            assert(next.last() == dims@[i as int] as int);
            reveal_strlit("");
            assert(i == 0 ==> ""@ + int_text(next[0]) =~= int_text(next[0]));
        }
        if i > 0 {
            body.append(", ");
        }
        body.append(usize_string(dims[i]).as_str());
        i = i + 1;
    }
    assert(dims@.take(i as int) =~= dims@);
    let mut out = "[".to_string();
    out.append(body.as_str());
    out.append("]");
    out
}

/// Renders a signed list as `[a, b, c]`.
pub fn signed_dims_string(dims: &[i64]) -> (r: String)
    ensures
        r@ == list_text(signed_ints(dims@)),
{
    let mut body = String::new();
    let mut i: usize = 0;
    proof {
        reveal_strlit("");
    }
    while i < dims.len()
        invariant
            0 <= i <= dims.len(),
            body@ == items_text(signed_ints(dims@.take(i as int))),
        decreases dims.len() - i,
    {
        proof {
            let next = signed_ints(dims@.take(i + 1));
            assert(next.drop_last() =~= signed_ints(dims@.take(i as int)));
            assert(next.last() == dims@[i as int] as int);
            reveal_strlit("");
            assert(i == 0 ==> ""@ + int_text(next[0]) =~= int_text(next[0]));
        }
        if i > 0 {
            body.append(", ");
        }
        body.append(i64_string(dims[i]).as_str());
        i = i + 1;
    }
    assert(dims@.take(i as int) =~= dims@);
    let mut out = "[".to_string();
    out.append(body.as_str());
    out.append("]");
    out
}

/// One hexadecimal digit as text.
pub open spec fn hex_digit_text(d: nat) -> Seq<char> {
    if d < 10 {
        digit_text(d)
    } else if d == 10 {
        "a"@
    } else if d == 11 {
        "b"@
    } else if d == 12 {
        "c"@
    } else if d == 13 {
        "d"@
    } else if d == 14 {
        "e"@
    } else {
        "f"@
    }
}

/// The last `k` hexadecimal digits of `n`.
pub open spec fn hex_digits(n: nat, k: nat) -> Seq<char>
    decreases k,
{
    if k == 0 {
        ""@
    } else {
        hex_digits(n / 16, (k - 1) as nat) + hex_digit_text(n % 16)
    }
}

/// A 32-bit number as `0x` and eight hexadecimal digits.
pub open spec fn hex_text(n: u32) -> Seq<char> {
    "0x"@ + hex_digits(n as nat, 8)
}

fn hex_digit(d: u32) -> (r: &'static str)
    requires
        d < 16,
    ensures
        r@ == hex_digit_text(d as nat),
{
    if d < 10 {
        digit(d as u64)
    } else if d == 10 {
        "a"
    } else if d == 11 {
        "b"
    } else if d == 12 {
        "c"
    } else if d == 13 {
        "d"
    } else if d == 14 {
        "e"
    } else {
        "f"
    }
}

fn hex_tail(n: u32, k: u32) -> (r: String)
    ensures
        r@ == hex_digits(n as nat, k as nat),
    decreases k,
{
    if k == 0 {
        return "".to_string();
    }
    let mut s = hex_tail(n / 16, k - 1);
    s.append(hex_digit(n % 16));
    s
}

/// Renders a 32-bit number as `0x` and eight hexadecimal digits.
pub fn hex_string(n: u32) -> (r: String)
    ensures
        r@ == hex_text(n),
{
    join2("0x", hex_tail(n, 8).as_str())
}

/// Whether two texts are equal.
pub fn same_text(a: &str, b: &str) -> (r: bool)
    ensures
        r == (a@ == b@),
{
    a.to_string() == b.to_string()
}

/// A quoted and escaped text.
pub uninterp spec fn debug_text(s: Seq<char>) -> Seq<char>;

/// `format!("{:?}", s)`: the text in double quotes, escaped by the rules of
/// `str`'s `Debug` implementation. The rules are not spelled out here; the
/// quoted text is named [`debug_text`] and depends on the text alone.
#[verifier::external_body]
pub(crate) fn debug_string(s: &str) -> (r: String)
    ensures
        r@ == debug_text(s@),
{
    format!("{:?}", s)
}

/// `a` followed by `b`.
pub fn join2(a: &str, b: &str) -> (r: String)
    ensures
        r@ == a@ + b@,
{
    let mut s = a.to_string();
    s.append(b);
    s
}

/// `a`, `b` and `c`, one after the other.
pub fn join3(a: &str, b: &str, c: &str) -> (r: String)
    ensures
        r@ == a@ + b@ + c@,
{
    let mut s = join2(a, b);
    s.append(c);
    s
}

/// `a`, `b`, `c` and `d`, one after the other.
pub fn join4(a: &str, b: &str, c: &str, d: &str) -> (r: String)
    ensures
        r@ == a@ + b@ + c@ + d@,
{
    let mut s = join3(a, b, c);
    s.append(d);
    s
}

/// `a`, `b`, `c`, `d` and `e`, one after the other.
pub fn join5(a: &str, b: &str, c: &str, d: &str, e: &str) -> (r: String)
    ensures
        r@ == a@ + b@ + c@ + d@ + e@,
{
    let mut s = join4(a, b, c, d);
    s.append(e);
    s
}

} // verus!
