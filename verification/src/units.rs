//! Byte counts as shown to the user: `B` below a kibibyte, then one decimal
//! of the largest of KiB, MiB and GiB that the count reaches.
use crate::text::{decimal, decimal_digits, digit_char, push_chars};
use vstd::prelude::*;

verus! {

/// Two to the power `e`.
pub open spec fn two_to(e: nat) -> nat
    decreases e,
{
    if e == 0 {
        1
    } else {
        2 * two_to((e - 1) as nat)
    }
}

/// How many binary digits `n` has.
pub open spec fn bit_length(n: nat) -> nat
    decreases n,
{
    if n == 0 {
        0
    } else {
        1 + bit_length(n / 2)
    }
}

/// `x / d` rounded to the nearest integer, a tie going to the even one.
pub open spec fn round_half_even(x: nat, d: nat) -> nat
    recommends
        d > 0,
{
    let q = x / d;
    let r = x % d;
    if 2 * r > d || (2 * r == d && q % 2 == 1) {
        q + 1
    } else {
        q
    }
}

/// The value of `n` as a double: `n` itself when it fits in 53 bits, else
/// `n` rounded to 53 significant bits, a tie going to the even one.
pub open spec fn as_double(n: nat) -> nat {
    if bit_length(n) <= 53 {
        n
    } else {
        let s = (bit_length(n) - 53) as nat;
        round_half_even(n, two_to(s)) * two_to(s)
    }
}

/// `n / unit` with one decimal, as a number of tenths: the count taken as a
/// double, divided, and rounded to the nearest tenth, a tie going to the even one.
pub open spec fn tenths(n: nat, unit: nat) -> nat {
    round_half_even(as_double(n) * 10, unit)
}

/// `t` tenths written with one decimal.
pub open spec fn one_decimal(t: nat) -> Seq<char> {
    decimal(t / 10) + seq!['.', digit_char(t % 10)]
}

pub const KIB: u64 = 1024;
pub const MIB: u64 = 1048576;
pub const GIB: u64 = 1073741824;

/// How `size` bytes are shown.
pub open spec fn size_text(size: u64) -> Seq<char> {
    if size >= GIB {
        one_decimal(tenths(size as nat, GIB as nat)) + " GiB"@
    } else if size >= MIB {
        one_decimal(tenths(size as nat, MIB as nat)) + " MiB"@
    } else if size >= KIB {
        one_decimal(tenths(size as nat, KIB as nat)) + " KiB"@
    } else {
        decimal(size as nat) + " B"@
    }
}

fn round_half_even_exec(x: u128, d: u128) -> (r: u128)
    requires
        0 < d <= u64::MAX,
        x / d < u128::MAX,
    ensures
        r == round_half_even(x as nat, d as nat),
{
    let q = x / d;
    let rem = x % d;
    assert(rem < d);
    let twice = rem as u128 * 2;
    if twice > d || (twice == d && q % 2 == 1) {
        q + 1
    } else {
        q
    }
}

proof fn lemma_two_to_grows(e: nat)
    ensures
        two_to(e) >= 1,
        two_to(e + 1) == 2 * two_to(e),
    decreases e,
{
    if e > 0 {
        lemma_two_to_grows((e - 1) as nat);
    }
}

proof fn lemma_bit_length_bound(n: nat, b: nat)
    requires
        n < two_to(b),
    ensures
        bit_length(n) <= b,
    decreases b,
{
    if b > 0 && n > 0 {
        lemma_two_to_grows((b - 1) as nat);
        lemma_bit_length_bound(n / 2, (b - 1) as nat);
    }
}

proof fn lemma_two_to_64()
    ensures
        two_to(64) == 18446744073709551616,
        two_to(11) == 2048,
{
    reveal_with_fuel(two_to, 65);
}

/// How many binary digits `n` has.
fn bit_length_exec(n: u64) -> (r: u32)
    ensures
        r == bit_length(n as nat),
        r <= 64,
{
    let mut m = n;
    let mut count: u32 = 0;
    proof {
        lemma_two_to_64();
        lemma_bit_length_bound(n as nat, 64);
    }
    while m > 0
        invariant
            count + bit_length(m as nat) == bit_length(n as nat),
            bit_length(n as nat) <= 64,
        decreases m,
    {
        m = m / 2;
        count = count + 1;
    }
    count
}

/// Two to the power `e`.
fn two_to_exec(e: u32) -> (r: u128)
    requires
        e <= 11,
    ensures
        r == two_to(e as nat),
        1 <= r <= 2048,
{
    let mut p: u128 = 1;
    let mut i: u32 = 0;
    while i < e
        invariant
            i <= e <= 11,
            p == two_to(i as nat),
            1 <= p <= 2048,
        decreases e - i,
    {
        proof {
            lemma_two_to_grows(i as nat);
            lemma_two_small(i as nat);
        }
        p = p * 2;
        i = i + 1;
    }
    p
}

proof fn lemma_two_small(i: nat)
    requires
        i < 11,
    ensures
        2 * two_to(i) <= 2048,
{
    reveal_with_fuel(two_to, 12);
}

/// The value of `n` as a double, as an integer.
fn as_double_exec(n: u64) -> (r: u128)
    ensures
        r == as_double(n as nat),
        r <= n + 2048,
{
    let bits = bit_length_exec(n);
    if bits <= 53 {
        return n as u128;
    }
    let s = bits - 53;
    let unit = two_to_exec(s);
    let x = n as u128;
    let q = round_half_even_exec(x, unit);
    proof {
        let qq = x as nat / unit as nat;
        assert(qq * (unit as nat) <= x as nat) by (nonlinear_arith)
            requires
                qq == x as nat / unit as nat,
                unit >= 1,
        ;
        assert(q <= qq + 1);
        assert(q * unit <= qq * unit + unit) by (nonlinear_arith)
            requires
                q <= qq + 1,
                unit >= 1,
        ;
    }
    q * unit
}

/// How `size` bytes are shown: `B` below a kibibyte, then one decimal of
/// KiB, MiB or GiB, as a double divided by the unit is printed.
pub fn bytes(size: u64) -> (r: String)
    ensures
        r@ == size_text(size),
{
    if size < KIB {
        let mut r = String::new();
        push_chars(&mut r, &decimal_digits(size as u128));
        push_chars(&mut r, &crate::text::chars_of(" B"));
        return r;
    }
    let (unit, name) = if size >= GIB {
        (GIB, " GiB")
    } else if size >= MIB {
        (MIB, " MiB")
    } else {
        (KIB, " KiB")
    };
    let v = as_double_exec(size);
    let x = v * 10;
    let t = round_half_even_exec(x, unit as u128);
    let mut r = String::new();
    push_chars(&mut r, &decimal_digits(t / 10));
    let mut frac: Vec<char> = Vec::new();
    frac.push('.');
    let d = decimal_digits(t % 10);
    assert(d@ == seq![digit_char((t % 10) as nat)]);
    push_chars(&mut r, &frac);
    push_chars(&mut r, &d);
    push_chars(&mut r, &crate::text::chars_of(name));
    proof {
        reveal_strlit(" GiB");
        reveal_strlit(" MiB");
        reveal_strlit(" KiB");
        assert(frac@ + d@ =~= seq!['.', digit_char((t % 10) as nat)]);
    }
    r
}

} // verus!
