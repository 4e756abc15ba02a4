//! Fixed-width little-endian integers, as the SCALE codec writes them.
use vstd::prelude::*;
use vstd::arithmetic::power::pow;

verus! {

/// The `width` little-endian bytes of `v` (its low bytes when it does not fit).
pub open spec fn le_bytes(v: nat, width: nat) -> Seq<u8>
    decreases width,
{
    if width == 0 {
        Seq::empty()
    } else {
        seq![(v % 256) as u8] + le_bytes(v / 256, (width - 1) as nat)
    }
}

/// The number that the little-endian bytes `s` stand for.
pub open spec fn le_value(s: Seq<u8>) -> nat
    decreases s.len(),
{
    if s.len() == 0 {
        0
    } else {
        s[0] as nat + 256 * le_value(s.drop_first())
    }
}

pub proof fn lemma_le_bytes_len(v: nat, width: nat)
    ensures
        le_bytes(v, width).len() == width,
    decreases width,
{
    if width > 0 {
        lemma_le_bytes_len(v / 256, (width - 1) as nat);
    }
}

/// Reading back the bytes written for a number that fits gives the number.
pub proof fn lemma_le_round_trip(v: nat, width: nat)
    requires
        v < pow(256, width),
    ensures
        le_value(le_bytes(v, width)) == v,
    decreases width,
{
    if width == 0 {
        vstd::arithmetic::power::lemma_pow0(256);
    } else {
        vstd::arithmetic::power::lemma_pow_adds(256, 1, (width - 1) as nat);
        vstd::arithmetic::power::lemma_pow1(256);
        let p = pow(256, (width - 1) as nat);
        assert(v / 256 < p) by (nonlinear_arith)
            requires v < 256 * p;
        lemma_le_round_trip(v / 256, (width - 1) as nat);
        let s = le_bytes(v, width);
        assert(s.drop_first() =~= le_bytes(v / 256, (width - 1) as nat));
        assert(v == v % 256 + 256 * (v / 256)) by (nonlinear_arith);
    }
}

/// A number is at most as large as its byte count allows.
pub proof fn lemma_le_value_bound(s: Seq<u8>)
    ensures
        le_value(s) < pow(256, s.len()),
    decreases s.len(),
{
    vstd::arithmetic::power::lemma_pow0(256);
    if s.len() > 0 {
        lemma_le_value_bound(s.drop_first());
        vstd::arithmetic::power::lemma_pow_adds(256, 1, (s.len() - 1) as nat);
        vstd::arithmetic::power::lemma_pow1(256);
        let p = pow(256, (s.len() - 1) as nat);
        let x = le_value(s.drop_first());
        let b = s[0] as nat;
        assert(b + 256 * x < 256 * p) by (nonlinear_arith)
            requires b < 256, x < p;
    }
}

/// The `width` little-endian bytes of `v`.
pub fn encode_uint(v: u64, width: usize) -> (r: Vec<u8>)
    requires
        width <= 8,
    ensures
        r@ == le_bytes(v as nat, width as nat),
{
    let mut r: Vec<u8> = Vec::new();
    let mut x: u64 = v;
    let mut i: usize = 0;
    while i < width
        invariant
            0 <= i <= width,
            le_bytes(v as nat, width as nat) == r@ + le_bytes(x as nat, (width - i) as nat),
        decreases width - i,
    {
        let ghost before = r@;
        r.push((x % 256) as u8);
        assert(le_bytes(x as nat, (width - i) as nat)
            == seq![(x % 256) as u8] + le_bytes((x / 256) as nat, (width - i - 1) as nat));
        assert(before + le_bytes(x as nat, (width - i) as nat)
            =~= r@ + le_bytes((x / 256) as nat, (width - i - 1) as nat));
        x = x / 256;
        i = i + 1;
    }
    assert(r@ + le_bytes(x as nat, 0) =~= r@);
    r
}

/// The number held in the first `width` bytes of `b`, little-endian; `None` when
/// `b` is shorter.
pub fn decode_uint(b: &[u8], width: usize) -> (r: Option<u64>)
    requires
        width <= 8,
    ensures
        match r {
            Some(v) => width <= b@.len() && v as nat == le_value(b@.subrange(0, width as int)),
            None => b@.len() < width,
        },
{
    if b.len() < width {
        return None;
    }
    let ghost s = b@.subrange(0, width as int);
    let mut acc: u64 = 0;
    let mut i: usize = width;
    proof {
        vstd::arithmetic::power::lemma_pow0(256);
        assert(s.subrange(width as int, width as int) =~= Seq::<u8>::empty());
    }
    while i > 0
        invariant
            0 <= i <= width <= 8,
            width <= b@.len(),
            s == b@.subrange(0, width as int),
            acc as nat == le_value(s.subrange(i as int, width as int)),
            (acc as nat) < pow(256, (width - i) as nat),
        decreases i,
    {
        let ghost tail = s.subrange(i as int, width as int);
        i = i - 1;
        proof {
            assert(s.subrange(i as int, width as int).drop_first() =~= tail);
            vstd::arithmetic::power::lemma_pow_adds(256, 1, (width - i - 1) as nat);
            vstd::arithmetic::power::lemma_pow1(256);
            vstd::arithmetic::power::lemma_pow_increases(256, (width - i) as nat, 8);
            reveal(pow);
            reveal_with_fuel(pow, 9);
            assert(pow(256, 8) == 0x1_0000_0000_0000_0000);
            let p = pow(256, (width - i - 1) as nat);
            let b0 = b@[i as int] as nat;
            assert(b0 + 256 * (acc as nat) < 256 * p) by (nonlinear_arith)
                requires b0 < 256, acc < p;
        }
        acc = b[i] as u64 + 256 * acc;
    }
    assert(s.subrange(0, width as int) =~= s);
    Some(acc)
}

} // verus!
