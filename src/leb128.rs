//! Little-endian base-128 varints: their encoding, their decoding, and the
//! write side of the wire (a growable byte buffer).
use vstd::prelude::*;

verus! {

/// `128` raised to `k`.
pub open spec fn pow128(k: nat) -> nat
    decreases k,
{
    if k == 0 {
        1
    } else {
        128 * pow128((k - 1) as nat)
    }
}

/// The low seven bits of a varint byte.
pub open spec fn digit(b: u8) -> nat {
    (b % 128) as nat
}

/// The varint encoding of `n`: seven bits per byte, low bits first, the high
/// bit set on every byte but the last.
pub open spec fn leb128(n: nat) -> Seq<u8>
    decreases n,
{
    if n < 128 {
        seq![n as u8]
    } else {
        seq![(n % 128 + 128) as u8] + leb128(n / 128)
    }
}

/// The length of the varint at the start of `s`: the position after its first
/// byte with a clear high bit, or `None` when `s` holds no such byte.
pub open spec fn leb_end(s: Seq<u8>) -> Option<nat>
    decreases s.len(),
{
    if s.len() == 0 {
        None
    } else if s[0] < 128 {
        Some(1)
    } else {
        match leb_end(s.skip(1)) {
            Some(n) => Some(n + 1),
            None => None,
        }
    }
}

/// The number that the first `k` bytes of `s` spell as varint digits.
pub open spec fn leb_digits(s: Seq<u8>, k: nat) -> nat
    decreases k,
{
    if k == 0 {
        0
    } else {
        leb_digits(s, (k - 1) as nat) + digit(s[k - 1]) * pow128((k - 1) as nat)
    }
}

/// The varint at the start of `s`: its value and its length in bytes.
pub open spec fn leb_parse(s: Seq<u8>) -> Option<(nat, nat)> {
    match leb_end(s) {
        Some(n) => Some((leb_digits(s, n), n)),
        None => None,
    }
}

/// The number of bytes in the encoding of `n`: the least `k >= 1` with `n < 128^k`.
pub open spec fn is_leb_width(n: nat, k: nat) -> bool {
    &&& k >= 1
    &&& n < pow128(k)
    &&& (k == 1 || pow128((k - 1) as nat) <= n)
}

proof fn lemma_leb_digits_cons(b: u8, t: Seq<u8>, k: nat)
    requires
        k <= t.len(),
    ensures
        leb_digits(seq![b] + t, k + 1) == digit(b) + 128 * leb_digits(t, k),
    decreases k,
{
    let s = seq![b] + t;
    if k == 0 {
        assert(s[0] == b);
        assert(leb_digits(s, 0) == 0);
        assert(leb_digits(t, 0) == 0);
        assert(pow128(0) == 1);
        assert(leb_digits(s, 1) == leb_digits(s, 0) + digit(s[0]) * pow128(0));
    } else {
        lemma_leb_digits_cons(b, t, (k - 1) as nat);
        assert(s[k as int] == t[k - 1]);
        assert(pow128(k) == 128 * pow128((k - 1) as nat));
        assert(leb_digits(s, k) == digit(b) + 128 * leb_digits(t, (k - 1) as nat));
        let x = digit(t[k - 1]);
        let p = pow128((k - 1) as nat);
        assert(leb_digits(s, k + 1) == leb_digits(s, k) + x * pow128(k));
        assert(leb_digits(t, k) == leb_digits(t, (k - 1) as nat) + x * p);
        assert(x * (128 * p) == 128 * (x * p)) by (nonlinear_arith);
    }
}

proof fn lemma_leb_digits_prefix(s: Seq<u8>, t: Seq<u8>, k: nat)
    requires
        k <= s.len(),
    ensures
        leb_digits(s + t, k) == leb_digits(s, k),
    decreases k,
{
    if k > 0 {
        lemma_leb_digits_prefix(s, t, (k - 1) as nat);
        assert((s + t)[k - 1] == s[k - 1]);
    }
}

/// Reading a varint back from its encoding, whatever follows it, gives the
/// number and the length of the encoding; that length is the least `k >= 1`
/// with `n < 128^k`.
#[verifier::spinoff_prover]
pub proof fn lemma_leb128_round_trip(n: nat, rest: Seq<u8>)
    ensures
        leb_parse(leb128(n) + rest) == Some((n, leb128(n).len())),
        is_leb_width(n, leb128(n).len()),
    decreases n,
{
    let e = leb128(n);
    let s = e + rest;
    if n < 128 {
        assert(s[0] == n as u8);
        assert(leb_end(s) == Some(1nat));
        assert(s[0] % 128 == n);
        assert(leb_digits(s, 0) == 0);
        assert(leb_digits(s, 1) == digit(s[0]) * pow128(0));
    } else {
        let t = leb128(n / 128);
        lemma_leb128_round_trip(n / 128, rest);
        let b = (n % 128 + 128) as u8;
        assert(e == seq![b] + t);
        assert(s == seq![b] + (t + rest));
        assert(s.skip(1) == t + rest);
        assert(leb_end(s) == Some(t.len() + 1));
        lemma_leb_digits_cons(b, t + rest, t.len());
        assert(digit(b) == n % 128);
        assert(n == n % 128 + 128 * (n / 128));
        let k = t.len();
        assert(pow128(k + 1) == 128 * pow128(k));
        assert(pow128(k) == 128 * pow128((k - 1) as nat));
        assert(n / 128 < pow128(k) ==> n < pow128(k + 1)) by (nonlinear_arith)
            requires
                n == n % 128 + 128 * (n / 128),
                n % 128 < 128,
                pow128(k + 1) == 128 * pow128(k),
        ;
        if k == 1 {
            assert(128 <= n);
        } else {
            assert(pow128((k - 1) as nat) <= n / 128 ==> pow128(k) <= n) by (nonlinear_arith)
                requires
                    n == n % 128 + 128 * (n / 128),
                    pow128(k) == 128 * pow128((k - 1) as nat),
            ;
        }
        assert(pow128(1) == 128 * pow128(0));
        assert(leb_end(t + rest) == Some(k));
        assert(leb_digits(t + rest, k) == n / 128);
        assert(leb_digits(s, k + 1) == n);
        assert(e.len() == k + 1);
    }
}

proof fn lemma_leb_end_scan(s: Seq<u8>, i: nat)
    requires
        i <= s.len(),
        forall|j: int| 0 <= j < i ==> s[j] >= 128,
    ensures
        i < s.len() && s[i as int] < 128 ==> leb_end(s) == Some(i + 1),
        i == s.len() ==> leb_end(s) is None,
    decreases i,
{
    if i > 0 {
        let t = s.skip(1);
        assert forall|j: int| 0 <= j < i - 1 implies t[j] >= 128 by {
            assert(t[j] == s[j + 1]);
        }
        lemma_leb_end_scan(t, (i - 1) as nat);
        if i < s.len() {
            assert(t[i - 1] == s[i as int]);
        }
    }
}

/// A varint found at the start of `s` lies within `s`.
pub proof fn lemma_leb_parse_len(s: Seq<u8>)
    ensures
        leb_end(s) matches Some(n) ==> 1 <= n <= s.len(),
    decreases s.len(),
{
    if s.len() > 0 && s[0] >= 128 {
        lemma_leb_parse_len(s.skip(1));
    }
}

/// A varint found in `s` is found the same when more bytes follow.
pub proof fn lemma_leb_parse_prefix(s: Seq<u8>, t: Seq<u8>)
    ensures
        leb_parse(s) is Some ==> leb_parse(s + t) == leb_parse(s),
    decreases s.len(),
{
    if s.len() > 0 {
        assert((s + t)[0] == s[0]);
        if s[0] >= 128 {
            assert((s + t).skip(1) =~= s.skip(1) + t);
            lemma_leb_parse_prefix(s.skip(1), t);
            lemma_leb_end_prefix(s, t);
        } else {
            lemma_leb_end_prefix(s, t);
        }
    }
}

proof fn lemma_leb_end_prefix(s: Seq<u8>, t: Seq<u8>)
    ensures
        leb_end(s) matches Some(n) ==> leb_end(s + t) == Some(n) && n <= s.len() && leb_digits(
            s + t,
            n,
        ) == leb_digits(s, n),
    decreases s.len(),
{
    lemma_leb_parse_len(s);
    if s.len() > 0 {
        assert((s + t)[0] == s[0]);
        if s[0] >= 128 {
            assert((s + t).skip(1) =~= s.skip(1) + t);
            lemma_leb_end_prefix(s.skip(1), t);
        }
        if leb_end(s) is Some {
            lemma_leb_digits_prefix(s, t, leb_end(s)->Some_0);
        }
    }
}

proof fn lemma_mod_step(p: int, q: int, d: int, m: int)
    requires
        m > 0,
        d >= 0,
        p >= 0,
        q >= 0,
    ensures
        (p % m + d * (q % m)) % m == (p + d * q) % m,
{
    vstd::arithmetic::div_mod::lemma_mul_mod_noop_right(d, q, m);
    vstd::arithmetic::div_mod::lemma_add_mod_noop(p % m, d * (q % m), m);
    vstd::arithmetic::div_mod::lemma_mod_twice(p, m);
    vstd::arithmetic::div_mod::lemma_add_mod_noop(p, d * q, m);
}

/// The write side of the wire: a sink that bytes are appended to.
pub trait WriteRowBinary {
    /// Everything written so far.
    spec fn written(&self) -> Seq<u8>;

    /// Appends one byte.
    fn write_u8(&mut self, value: u8)
        ensures
            final(self).written() == old(self).written().push(value),
    ;

    /// Appends the varint encoding of `value`.
    fn write_leb128(&mut self, value: u64)
        ensures
            final(self).written() == old(self).written() + leb128(value as nat),
    ;
}

impl WriteRowBinary for Vec<u8> {
    open spec fn written(&self) -> Seq<u8> {
        self@
    }

    fn write_u8(&mut self, value: u8) {
        self.push(value);
    }

    fn write_leb128(&mut self, value: u64) {
        let mut v: u64 = value;
        while v >= 128
            invariant
                self@ + leb128(v as nat) == old(self)@ + leb128(value as nat),
            decreases v,
        {
            let ghost before = self@;
            self.push((v % 128 + 128) as u8);
            proof {
                assert(leb128(v as nat) == seq![(v % 128 + 128) as u8] + leb128((v / 128) as nat));
                assert(self@ + leb128((v / 128) as nat) == before + leb128(v as nat));
            }
            v = v / 128;
        }
        let ghost before = self@;
        self.push(v as u8);
        assert(self@ == before + leb128(v as nat));
    }
}

/// Reads the varint at the start of `s[start..]`: `None` when the bytes end
/// before its last byte, else its value (modulo `2^64`) and its length.
pub fn parse_leb128(s: &[u8], start: usize) -> (r: Option<(u64, usize)>)
    requires
        start <= s@.len(),
    ensures
        match leb_parse(s@.skip(start as int)) {
            None => r is None,
            Some((v, n)) => r == Some(((v % 0x1_0000_0000_0000_0000) as u64, n as usize)),
        },
{
    let ghost t = s@.skip(start as int);
    let mut acc: u64 = 0;
    let mut pw: u64 = 1;
    let mut i: usize = 0;
    let len = s.len();
    while start + i < len
        invariant
            start <= len,
            len == s@.len(),
            t == s@.skip(start as int),
            i <= t.len(),
            forall|j: int| 0 <= j < i ==> t[j] >= 128,
            acc == leb_digits(t, i as nat) % 0x1_0000_0000_0000_0000,
            pw == pow128(i as nat) % 0x1_0000_0000_0000_0000,
        decreases len - start - i,
    {
        let b = s[start + i];
        assert(b == t[i as int]);
        let d: u64 = (b % 128) as u64;
        assert((d as u128) * (pw as u128) <= 127 * 0xffff_ffff_ffff_ffff) by (nonlinear_arith)
            requires
                d < 128,
                pw <= 0xffff_ffff_ffff_ffff,
        ;
        let sum: u128 = acc as u128 + (d as u128) * (pw as u128);
        let next: u64 = (sum % 0x1_0000_0000_0000_0000) as u64;
        proof {
            lemma_mod_step(
                leb_digits(t, i as nat) as int,
                pow128(i as nat) as int,
                d as int,
                0x1_0000_0000_0000_0000,
            );
            assert(leb_digits(t, (i + 1) as nat) == leb_digits(t, i as nat) + d * pow128(i as nat));
        }
        if b < 128 {
            proof {
                lemma_leb_end_scan(t, i as nat);
            }
            return Some((next, i + 1));
        }
        proof {
            lemma_mod_step(0, pow128(i as nat) as int, 128, 0x1_0000_0000_0000_0000);
            assert(pow128((i + 1) as nat) == 128 * pow128(i as nat));
        }
        acc = next;
        pw = ((pw as u128 * 128) % 0x1_0000_0000_0000_0000) as u64;
        i = i + 1;
    }
    proof {
        lemma_leb_end_scan(t, i as nat);
    }
    None
}

} // verus!
