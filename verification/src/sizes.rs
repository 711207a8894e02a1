//! Human-readable byte counts.
//!
//! The command line prints sizes as a binary64 (`f64`) quotient with a fixed
//! number of decimals. The text is computed here exactly, in integers: the byte
//! count is rounded to the nearest binary64 value (ties to even), divided by the
//! unit (a power of two, so exactly), and rounded half to even at the last
//! printed decimal, as the standard library's fixed-precision formatting does.
use vstd::arithmetic::power2::{
    lemma2_to64, lemma2_to64_rest, lemma_pow2_adds, lemma_pow2_pos, lemma_pow2_strictly_increases,
    lemma_pow2_unfold, pow2,
};
use vstd::prelude::*;

use crate::text::{decimal, digit_char, digit_of, push_decimal, string_of};

verus! {

broadcast use vstd::seq_lib::group_seq_properties;

/// The number of binary digits of `n`.
pub open spec fn bit_len(n: nat) -> nat
    decreases n,
{
    if n == 0 {
        0
    } else {
        1 + bit_len(n / 2)
    }
}

pub proof fn lemma_bit_len(n: nat)
    ensures
        n < pow2(bit_len(n)),
        n > 0 ==> pow2((bit_len(n) - 1) as nat) <= n,
    decreases n,
{
    if n > 0 {
        lemma_bit_len(n / 2);
        lemma_pow2_unfold(bit_len(n));
        if n / 2 > 0 {
            lemma_pow2_unfold((bit_len(n) - 1) as nat);
        } else {
            lemma2_to64();
        }
    } else {
        lemma2_to64();
    }
}

/// `a / d` rounded to the nearest integer, ties to even.
pub open spec fn div_round_even(a: nat, d: nat) -> nat {
    let q = a / d;
    let r = a % d;
    if 2 * r > d || (2 * r == d && q % 2 == 1) {
        q + 1
    } else {
        q
    }
}

/// The binary64 value nearest to `n` (ties to an even significand), which for
/// an integer is again an integer.
pub open spec fn to_binary64(n: nat) -> nat {
    if bit_len(n) <= 53 {
        n
    } else {
        let s = (bit_len(n) - 53) as nat;
        div_round_even(n, pow2(s)) * pow2(s)
    }
}

/// The two digits of a number below one hundred.
pub open spec fn two_digits(n: nat) -> Seq<char> {
    seq![digit_char(n / 10), digit_char(n % 10)]
}

/// `v / 2^k` with two decimals.
pub open spec fn fixed2(v: nat, k: nat) -> Seq<char> {
    let h = div_round_even(v * 100, pow2(k));
    decimal(h / 100) + seq!['.'] + two_digits(h % 100)
}

/// `v / 2^k` with one decimal.
pub open spec fn fixed1(v: nat, k: nat) -> Seq<char> {
    let h = div_round_even(v * 10, pow2(k));
    decimal(h / 10) + seq!['.', digit_char(h % 10)]
}

/// The text of [`format_size`]: bytes below one KB, otherwise KB, MB or GB
/// with two decimals.
pub open spec fn size_text(bytes: nat) -> Seq<char> {
    if bytes >= pow2(30) {
        fixed2(to_binary64(bytes), 30) + seq![' ', 'G', 'B']
    } else if bytes >= pow2(20) {
        fixed2(to_binary64(bytes), 20) + seq![' ', 'M', 'B']
    } else if bytes >= pow2(10) {
        fixed2(to_binary64(bytes), 10) + seq![' ', 'K', 'B']
    } else {
        decimal(bytes) + seq![' ', 'b', 'y', 't', 'e', 's']
    }
}

/// The text of [`format_file_size`]: `B` below 1024, otherwise KiB or MiB
/// with one decimal.
pub open spec fn file_size_text(bytes: nat) -> Seq<char> {
    if bytes < pow2(10) {
        decimal(bytes) + seq![' ', 'B']
    } else if bytes < pow2(20) {
        fixed1(to_binary64(bytes), 10) + seq![' ', 'K', 'i', 'B']
    } else {
        fixed1(to_binary64(bytes), 20) + seq![' ', 'M', 'i', 'B']
    }
}

proof fn lemma_pow2_120()
    ensures
        pow2(120) == 0x100_0000_0000_0000_0000_0000_0000_0000u128,
{
    lemma2_to64();
    lemma2_to64_rest();
    lemma_pow2_adds(64, 56);
}

/// `2^e`.
fn pow2_exec(e: u32) -> (r: u128)
    requires
        e <= 120,
    ensures
        r == pow2(e as nat),
{
    let mut r: u128 = 1;
    let mut i: u32 = 0;
    proof {
        lemma2_to64();
        lemma_pow2_120();
    }
    while i < e
        invariant
            i <= e,
            e <= 120,
            r == pow2(i as nat),
            pow2(120) == 0x100_0000_0000_0000_0000_0000_0000_0000u128,
        decreases e - i,
    {
        proof {
            lemma_pow2_unfold((i + 1) as nat);
            if i < 120 {
                lemma_pow2_strictly_increases(i as nat, 120);
            }
        }
        r = r * 2;
        i = i + 1;
    }
    r
}

fn bit_length(n: u64) -> (r: u32)
    ensures
        r == bit_len(n as nat),
        r <= 64,
{
    let mut t = n;
    let mut bl: u32 = 0;
    proof {
        lemma_bit_len(n as nat);
        lemma2_to64();
        if bit_len(n as nat) > 65 {
            lemma_pow2_strictly_increases(64, (bit_len(n as nat) - 1) as nat);
        }
    }
    while t > 0
        invariant
            bl + bit_len(t as nat) == bit_len(n as nat),
            bit_len(n as nat) <= 64,
        decreases t,
    {
        t = t / 2;
        bl = bl + 1;
    }
    bl
}

/// `a / d` rounded to the nearest integer, ties to even.
fn div_round_even_exec(a: u128, d: u128) -> (r: u128)
    requires
        d > 0,
        a < 0x8000_0000_0000_0000_0000_0000_0000_0000u128,
    ensures
        r == div_round_even(a as nat, d as nat),
{
    let q = a / d;
    let rem = a % d;
    if rem > d - rem || (rem == d - rem && q % 2 == 1) {
        q + 1
    } else {
        q
    }
}

/// The binary64 value nearest to `n`.
fn binary64_of(n: u64) -> (r: u128)
    ensures
        r == to_binary64(n as nat),
        r <= 0x1_0000_0000_0000_0000u128,
{
    let bl = bit_length(n);
    if bl <= 53 {
        return n as u128;
    }
    let s = bl - 53;
    let p = pow2_exec(s);
    proof {
        lemma_bit_len(n as nat);
        lemma_pow2_adds(53, s as nat);
        lemma_pow2_pos(s as nat);
        lemma2_to64();
        lemma2_to64_rest();
        assert((n as nat) < pow2(53) * pow2(s as nat));
        assert((n as nat) / pow2(s as nat) < pow2(53)) by (nonlinear_arith)
            requires
                (n as nat) < pow2(53) * pow2(s as nat),
                pow2(s as nat) > 0,
        ;
        assert(pow2(s as nat) <= pow2(11)) by {
            if s < 11 {
                lemma_pow2_strictly_increases(s as nat, 11);
            }
        }
    }
    let q = div_round_even_exec(n as u128, p);
    assert(q <= pow2(53));
    assert(q * p <= 0x1_0000_0000_0000_0000u128) by (nonlinear_arith)
        requires
            q <= 0x20_0000_0000_0000u128,
            p <= 0x800u128,
    ;
    q * p
}

fn push_two_digits(out: &mut Vec<char>, n: u128)
    requires
        n < 100,
    ensures
        final(out)@ == old(out)@ + two_digits(n as nat),
{
    out.push(digit_of((n / 10) as u8));
    out.push(digit_of((n % 10) as u8));
}

/// `v / 2^k` with two decimals, appended to `out`.
fn push_fixed2(out: &mut Vec<char>, v: u128, k: u32)
    requires
        v <= 0x1_0000_0000_0000_0000u128,
        k <= 120,
    ensures
        final(out)@ == old(out)@ + fixed2(v as nat, k as nat),
{
    let d = pow2_exec(k);
    proof {
        lemma_pow2_pos(k as nat);
    }
    let h = div_round_even_exec(v * 100, d);
    push_decimal(out, h / 100);
    out.push('.');
    push_two_digits(out, h % 100);
}

/// `v / 2^k` with one decimal, appended to `out`.
fn push_fixed1(out: &mut Vec<char>, v: u128, k: u32)
    requires
        v <= 0x1_0000_0000_0000_0000u128,
        k <= 120,
    ensures
        final(out)@ == old(out)@ + fixed1(v as nat, k as nat),
{
    let d = pow2_exec(k);
    proof {
        lemma_pow2_pos(k as nat);
    }
    let h = div_round_even_exec(v * 10, d);
    push_decimal(out, h / 10);
    out.push('.');
    out.push(digit_of((h % 10) as u8));
}

/// Formats a byte count with binary units: `<n> bytes` below 1024, otherwise
/// KB, MB or GB with two decimals.
pub fn format_size(bytes: u64) -> (r: String)
    ensures
        r@ == size_text(bytes as nat),
{
    proof {
        lemma2_to64();
    }
    let mut out: Vec<char> = Vec::new();
    if bytes >= 0x4000_0000 {
        push_fixed2(&mut out, binary64_of(bytes), 30);
        out.push(' ');
        out.push('G');
        out.push('B');
    } else if bytes >= 0x10_0000 {
        push_fixed2(&mut out, binary64_of(bytes), 20);
        out.push(' ');
        out.push('M');
        out.push('B');
    } else if bytes >= 0x400 {
        push_fixed2(&mut out, binary64_of(bytes), 10);
        out.push(' ');
        out.push('K');
        out.push('B');
    } else {
        push_decimal(&mut out, bytes as u128);
        out.push(' ');
        out.push('b');
        out.push('y');
        out.push('t');
        out.push('e');
        out.push('s');
    }
    assert(out@ =~= size_text(bytes as nat));
    string_of(&out)
}

/// Formats a file size for the device listing: `<n> B` below 1024, otherwise
/// KiB or MiB with one decimal.
pub fn format_file_size(bytes: u64) -> (r: String)
    ensures
        r@ == file_size_text(bytes as nat),
{
    proof {
        lemma2_to64();
    }
    let mut out: Vec<char> = Vec::new();
    if bytes < 0x400 {
        push_decimal(&mut out, bytes as u128);
        out.push(' ');
        out.push('B');
    } else if bytes < 0x10_0000 {
        push_fixed1(&mut out, binary64_of(bytes), 10);
        out.push(' ');
        out.push('K');
        out.push('i');
        out.push('B');
    } else {
        push_fixed1(&mut out, binary64_of(bytes), 20);
        out.push(' ');
        out.push('M');
        out.push('i');
        out.push('B');
    }
    assert(out@ =~= file_size_text(bytes as nat));
    string_of(&out)
}

} // verus!
