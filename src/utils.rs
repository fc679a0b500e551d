//! Big-endian integer conversions used by the wire format, and the ids
//! made of a random number and a clock reading.

use vstd::prelude::*;
use vstd::arithmetic::div_mod::{lemma_div_denominator, lemma_mod_breakdown};

verus! {

/// `256` raised to the power `k`.
pub open spec fn pow256(k: nat) -> nat
    decreases k,
{
    if k == 0 {
        1
    } else {
        256 * pow256((k - 1) as nat)
    }
}

/// The number that `s` writes in base 256, most significant byte first.
pub open spec fn be_value(s: Seq<u8>) -> nat
    decreases s.len(),
{
    if s.len() == 0 {
        0
    } else {
        be_value(s.drop_last()) * 256 + s.last() as nat
    }
}

/// Byte `i`, counted from the most significant one, of the `k`-byte
/// big-endian form of `n`.
pub open spec fn be_byte(n: nat, k: nat, i: int) -> u8 {
    ((n / pow256((k - 1 - i) as nat)) % 256) as u8
}

/// The `k`-byte big-endian form of `n`: its `k` low-order bytes.
pub open spec fn be_bytes(n: nat, k: nat) -> Seq<u8> {
    Seq::new(k, |i: int| be_byte(n, k, i))
}

pub proof fn lemma_pow256_pos(k: nat)
    ensures
        pow256(k) > 0,
    decreases k,
{
    if k > 0 {
        lemma_pow256_pos((k - 1) as nat);
    }
}

pub proof fn lemma_pow256_mono(a: nat, b: nat)
    requires
        a <= b,
    ensures
        pow256(a) <= pow256(b),
    decreases b,
{
    if a < b {
        lemma_pow256_mono(a, (b - 1) as nat);
        lemma_pow256_pos((b - 1) as nat);
    }
}

pub proof fn lemma_pow256_values()
    ensures
        pow256(8) == 0x1_0000_0000_0000_0000,
        pow256(12) == 0x1_0000_0000_0000_0000_0000_0000,
{
    reveal_with_fuel(pow256, 13);
}

/// A number written in `k` bytes is below `256^k`.
pub proof fn lemma_be_value_bound(s: Seq<u8>)
    ensures
        be_value(s) < pow256(s.len()),
    decreases s.len(),
{
    if s.len() > 0 {
        lemma_be_value_bound(s.drop_last());
    }
}

/// Reading back the `k`-byte big-endian form of `n` gives `n` modulo `256^k`.
pub proof fn lemma_be_round_trip(n: nat, k: nat)
    ensures
        be_value(be_bytes(n, k)) == n % pow256(k),
    decreases k,
{
    if k > 0 {
        let km = (k - 1) as nat;
        let s = be_bytes(n, k);
        let t = be_bytes(n / 256, km);
        assert forall|i: int| 0 <= i < km implies #[trigger] s.drop_last()[i] == t[i] by {
            lemma_pow256_pos((km - 1 - i) as nat);
            lemma_div_denominator(n as int, 256, pow256((km - 1 - i) as nat) as int);
            assert(pow256((k - 1 - i) as nat) == 256 * pow256((km - 1 - i) as nat));
        }
        assert(s.drop_last() =~= t);
        lemma_be_round_trip(n / 256, km);
        lemma_pow256_pos(km);
        lemma_mod_breakdown(n as int, 256, pow256(km) as int);
        assert(pow256(0) == 1);
        assert((k - 1 - (k - 1)) as nat == 0);
        assert(s.last() == be_byte(n, k, k - 1));
        assert(n / pow256(0) == n);
        assert(s.last() == (n % 256) as u8);
        assert(be_value(s) == be_value(t) * 256 + n % 256);
        assert(pow256(k) == 256 * pow256(km));
    } else {
        assert(be_bytes(n, k) =~= Seq::<u8>::empty());
        assert(pow256(0) == 1);
    }
}

/// Reads the first `len` bytes of `bin` as a big-endian number.
fn read_be(bin: &[u8], len: usize) -> (r: u128)
    requires
        len <= 12,
        len <= bin@.len(),
    ensures
        r as nat == be_value(bin@.subrange(0, len as int)),
{
    let mut out: u128 = 0;
    let mut i: usize = 0;
    while i < len
        invariant
            i <= len,
            len <= 12,
            len <= bin@.len(),
            out as nat == be_value(bin@.subrange(0, i as int)),
        decreases len - i,
    {
        proof {
            lemma_be_value_bound(bin@.subrange(0, i as int));
            lemma_pow256_mono((i + 1) as nat, 12);
            lemma_pow256_values();
            assert(bin@.subrange(0, i as int + 1).drop_last() =~= bin@.subrange(0, i as int));
        }
        out = out * 256 + bin[i] as u128;
        i += 1;
    }
    out
}

/// Writes the `N` low-order bytes of `num`, most significant first.
fn write_be<const N: usize>(num: u128) -> (r: [u8; N])
    ensures
        r@ == be_bytes(num as nat, N as nat),
{
    let mut out: [u8; N] = [0; N];
    let mut n: u128 = num;
    let mut i: usize = N;
    assert(pow256(0) == 1);
    assert(num as nat / 1 == num as nat);
    while i > 0
        invariant
            i <= N,
            out@.len() == N,
            n as nat == num as nat / pow256((N - i) as nat),
            forall|j: int| i <= j < N ==> out@[j] == be_byte(num as nat, N as nat, j),
        decreases i,
    {
        i -= 1;
        out[i] = (n % 256) as u8;
        proof {
            lemma_pow256_pos((N - 1 - i) as nat);
            lemma_div_denominator(num as int, pow256((N - 1 - i) as nat) as int, 256);
            assert(pow256((N - i) as nat) == 256 * pow256((N - 1 - i) as nat));
        }
        n = n / 256;
    }
    assert(out@ =~= be_bytes(num as nat, N as nat));
    out
}

/// Convert a 12-byte id to `u128`.
pub fn bid_to_u128(bid: &[u8]) -> (r: u128)
    requires
        bid@.len() >= 12,
    ensures
        r as nat == be_value(bid@.subrange(0, 12)),
{
    read_be(bid, 12)
}

/// Convert `u128` to a 12-byte id: its twelve low-order bytes, big-endian.
pub fn u128_to_bytes(num: u128) -> (r: [u8; 12])
    ensures
        r@ == be_bytes(num as nat, 12),
{
    write_be::<12>(num)
}

/// Convert `u64` to its eight big-endian bytes.
pub fn u64_to_bytes(num: u64) -> (r: [u8; 8])
    ensures
        r@ == be_bytes(num as nat, 8),
{
    write_be::<8>(num as u128)
}

/// Convert the first eight bytes of `bin`, big-endian, to `u64`.
pub fn bytes_to_u64(bin: &[u8]) -> (r: u64)
    requires
        bin@.len() >= 8,
    ensures
        r as nat == be_value(bin@.subrange(0, 8)),
{
    let v = read_be(bin, 8);
    proof {
        lemma_be_value_bound(bin@.subrange(0, 8));
        lemma_pow256_values();
    }
    v as u64
}

/// `64` raised to the power `k`.
pub open spec fn pow64(k: nat) -> nat
    decreases k,
{
    if k == 0 {
        1
    } else {
        64 * pow64((k - 1) as nat)
    }
}

/// The character that stands for the 6-bit value `v` in a connection id:
/// `a`-`z`, `A`-`Z`, `0`-`9`, `-`, `_`.
pub open spec fn id_char(v: nat) -> char {
    if v < 26 {
        (97 + v) as u8 as char
    } else if v < 52 {
        (39 + v) as u8 as char
    } else if v < 62 {
        (v - 4) as u8 as char
    } else if v == 62 {
        '-'
    } else {
        '_'
    }
}

/// The characters for the `k` low-order 6-bit groups of `v`, lowest first.
pub open spec fn id_digits(v: nat, k: nat) -> Seq<char> {
    Seq::new(k, |i: int| id_char((v / pow64(i as nat)) % 64))
}

/// The connection id made of the random number `rd` and the clock reading `ns`.
pub open spec fn uid_text(rd: u64, ns: u32) -> Seq<char> {
    id_digits(rd as nat, 7) + id_digits(ns as nat, 5)
}

/// The numeric id made of the random number `rd` and the clock reading `ns`.
pub open spec fn nid_value(rd: u64, ns: u32) -> nat {
    (rd as nat % 0x1_0000_0000) * 0x1_0000_0000 + ns as nat
}

/// The 12-byte id made of the clock reading `ns` and the random number `rd`.
pub open spec fn bid_bytes(ns: u32, rd: u64) -> Seq<u8> {
    be_bytes(ns as nat, 4) + be_bytes(rd as nat, 8)
}

proof fn lemma_pow64_pos(k: nat)
    ensures
        pow64(k) > 0,
    decreases k,
{
    if k > 0 {
        lemma_pow64_pos((k - 1) as nat);
    }
}

/// Relies on `String::push`: appends one character.
#[verifier::external_body]
fn push_char(s: &mut String, c: char)
    ensures
        final(s)@ == old(s)@.push(c),
{
    s.push(c)
}

fn id_char_of(v: u64) -> (c: char)
    requires
        v < 64,
    ensures
        c == id_char(v as nat),
{
    if v < 26 {
        (97 + v as u8) as char
    } else if v < 52 {
        (39 + v as u8) as char
    } else if v < 62 {
        (v as u8 - 4) as char
    } else if v == 62 {
        '-'
    } else {
        '_'
    }
}

/// Appends the characters for the `k` low-order 6-bit groups of `v`.
fn push_id_digits(out: &mut String, v: u64, k: usize)
    ensures
        final(out)@ == old(out)@ + id_digits(v as nat, k as nat),
{
    let mut n: u64 = v;
    let mut i: usize = 0;
    assert(pow64(0) == 1);
    while i < k
        invariant
            i <= k,
            n as nat == v as nat / pow64(i as nat),
            out@ == old(out)@ + id_digits(v as nat, i as nat),
        decreases k - i,
    {
        let c = id_char_of(n % 64);
        push_char(out, c);
        proof {
            lemma_pow64_pos(i as nat);
            lemma_div_denominator(v as int, pow64(i as nat) as int, 64);
            assert(pow64((i + 1) as nat) == 64 * pow64(i as nat));
            assert(out@ =~= old(out)@ + id_digits(v as nat, (i + 1) as nat));
        }
        n = n / 64;
        i += 1;
    }
}

/// The connection id made of the random number `rd` and the clock reading
/// `ns`: seven characters from `rd`, then five from `ns`, each standing for
/// six bits, lowest bits first.
pub fn uid_from(rd: u64, ns: u32) -> (r: String)
    ensures
        r@ == uid_text(rd, ns),
{
    let mut output = String::new();
    push_id_digits(&mut output, rd, 7);
    push_id_digits(&mut output, ns as u64, 5);
    output
}

/// The numeric id made of the random number `rd` and the clock reading
/// `ns`: the low 32 bits of `rd` above the 32 bits of `ns`.
pub fn nid_from(rd: u64, ns: u32) -> (r: u64)
    ensures
        r as nat == nid_value(rd, ns),
{
    (rd % 0x1_0000_0000) * 0x1_0000_0000 + ns as u64
}

/// The 12-byte id made of the clock reading `ns` (four bytes) and the
/// random number `rd` (eight bytes), big-endian.
pub fn bid_from(ns: u32, rd: u64) -> (r: [u8; 12])
    ensures
        r@ == bid_bytes(ns, rd),
{
    let time_part = write_be::<4>(ns as u128);
    let rand_part = write_be::<8>(rd as u128);
    let mut out: [u8; 12] = [0; 12];
    let mut i: usize = 0;
    while i < 12
        invariant
            i <= 12,
            out@.len() == 12,
            time_part@ == be_bytes(ns as nat, 4),
            rand_part@ == be_bytes(rd as nat, 8),
            forall|j: int| 0 <= j < i ==> out@[j] == bid_bytes(ns, rd)[j],
        decreases 12 - i,
    {
        if i < 4 {
            out[i] = time_part[i];
        } else {
            out[i] = rand_part[i - 4];
        }
        i += 1;
    }
    assert(out@ =~= bid_bytes(ns, rd));
    out
}

} // verus!
