//! The on-disk shape of fixed-width integers: little-endian byte strings.
//!
//! `le_bytes` and `le_value` are the mathematical encoding and decoding;
//! `le_encode` and `le_decode` are the executable counterparts, proved
//! against them.  Every primitive codec reduces to these.

use vstd::prelude::*;

verus! {

/// 256 raised to `n`: the number of values `n` bytes can hold.
pub open spec fn pow256(n: nat) -> nat
    decreases n,
{
    if n == 0 {
        1
    } else {
        256 * pow256((n - 1) as nat)
    }
}

/// The value a little-endian byte string stands for.
pub open spec fn le_value(s: Seq<u8>) -> nat
    decreases s.len(),
{
    if s.len() == 0 {
        0
    } else {
        s[0] as nat + 256 * le_value(s.drop_first())
    }
}

/// The `n`-byte little-endian encoding of `v` (its low `n` bytes).
pub open spec fn le_bytes(v: nat, n: nat) -> Seq<u8>
    decreases n,
{
    if n == 0 {
        Seq::empty()
    } else {
        seq![(v % 256) as u8] + le_bytes(v / 256, (n - 1) as nat)
    }
}

pub proof fn lemma_pow256_monotone(m: nat, n: nat)
    requires
        m <= n,
    ensures
        pow256(m) <= pow256(n),
    decreases n,
{
    if m < n {
        lemma_pow256_monotone(m, (n - 1) as nat);
        assert(pow256(n) == 256 * pow256((n - 1) as nat));
    }
}

pub proof fn lemma_pow256_pos(n: nat)
    ensures
        pow256(n) >= 1,
    decreases n,
{
    if n > 0 {
        lemma_pow256_pos((n - 1) as nat);
    }
}

/// The encoding is exactly `n` bytes long.
pub proof fn lemma_le_bytes_len(v: nat, n: nat)
    ensures
        le_bytes(v, n).len() == n,
    decreases n,
{
    if n > 0 {
        lemma_le_bytes_len(v / 256, (n - 1) as nat);
    }
}

/// Decoding the encoding of a value small enough for `n` bytes gives it back.
pub proof fn lemma_le_value_of_le_bytes(v: nat, n: nat)
    requires
        v < pow256(n),
    ensures
        le_value(le_bytes(v, n)) == v,
    decreases n,
{
    if n > 0 {
        assert(v / 256 < pow256((n - 1) as nat)) by {
            assert(v < 256 * pow256((n - 1) as nat));
        }
        lemma_le_value_of_le_bytes(v / 256, (n - 1) as nat);
        let head = seq![(v % 256) as u8];
        let rest = le_bytes(v / 256, (n - 1) as nat);
        assert((head + rest).drop_first() =~= rest);
        assert((head + rest)[0] == (v % 256) as u8);
        assert(v % 256 + 256 * (v / 256) == v);
    }
}

/// A byte string stands for a value small enough for its length.
pub proof fn lemma_le_value_bound(s: Seq<u8>)
    ensures
        le_value(s) < pow256(s.len()),
    decreases s.len(),
{
    if s.len() > 0 {
        lemma_le_value_bound(s.drop_first());
        assert(pow256(s.len()) == 256 * pow256((s.len() - 1) as nat));
    }
}

/// Encoding the value a byte string stands for gives the byte string back.
pub proof fn lemma_le_bytes_of_le_value(s: Seq<u8>)
    ensures
        le_bytes(le_value(s), s.len()) == s,
    decreases s.len(),
{
    if s.len() > 0 {
        let rest = s.drop_first();
        lemma_le_bytes_of_le_value(rest);
        let v = le_value(s);
        assert(v == s[0] + 256 * le_value(rest));
        assert(v % 256 == s[0] as nat && v / 256 == le_value(rest)) by {
            vstd::arithmetic::div_mod::lemma_fundamental_div_mod_converse(
                v as int,
                256,
                le_value(rest) as int,
                s[0] as int,
            );
        }
        assert(le_bytes(v, s.len()) =~= s);
    }
}

/// Two encodings of the same length that spell the same bytes encode the
/// same value.
pub proof fn lemma_le_bytes_injective(a: nat, b: nat, n: nat)
    requires
        a < pow256(n),
        b < pow256(n),
        le_bytes(a, n) == le_bytes(b, n),
    ensures
        a == b,
{
    lemma_le_value_of_le_bytes(a, n);
    lemma_le_value_of_le_bytes(b, n);
}

/// Emit the `width`-byte little-endian encoding of `v`.
pub fn le_encode(v: u128, width: usize) -> (out: Vec<u8>)
    requires
        width <= 16,
        (v as nat) < pow256(width as nat),
    ensures
        out@ == le_bytes(v as nat, width as nat),
        out@.len() == width,
{
    let mut out: Vec<u8> = Vec::new();
    let mut x: u128 = v;
    let mut i: usize = 0;
    proof {
        assert(le_bytes(v as nat, width as nat) =~= out@ + le_bytes(v as nat, width as nat));
    }
    while i < width
        invariant
            i <= width,
            width <= 16,
            out@.len() == i,
            (x as nat) < pow256((width - i) as nat),
            le_bytes(v as nat, width as nat) == out@ + le_bytes(x as nat, (width - i) as nat),
        decreases width - i,
    {
        let b: u8 = (x % 256) as u8;
        proof {
            let w: nat = (width - i) as nat;
            assert(le_bytes(x as nat, w) == seq![b] + le_bytes(x as nat / 256, (w - 1) as nat));
            assert(out@ + le_bytes(x as nat, w) =~= (out@ + seq![b]) + le_bytes(
                x as nat / 256,
                (w - 1) as nat,
            ));
            assert(out@.push(b) =~= out@ + seq![b]);
            assert((x as nat) / 256 < pow256((w - 1) as nat)) by {
                assert((x as nat) < 256 * pow256((w - 1) as nat));
            }
        }
        out.push(b);
        x = x / 256;
        i = i + 1;
    }
    proof {
        assert(le_bytes(x as nat, 0).len() == 0);
        assert(out@ + le_bytes(x as nat, 0) =~= out@);
    }
    out
}

/// Read back the value a little-endian byte string stands for.
pub fn le_decode(bytes: &Vec<u8>) -> (v: u128)
    requires
        bytes@.len() <= 16,
    ensures
        v as nat == le_value(bytes@),
{
    let len = bytes.len();
    let mut acc: u128 = 0;
    let mut i: usize = len;
    proof {
        assert(bytes@.skip(len as int) =~= Seq::<u8>::empty());
    }
    while i > 0
        invariant
            i <= len,
            len == bytes@.len() <= 16,
            acc as nat == le_value(bytes@.skip(i as int)),
            (acc as nat) < pow256((len - i) as nat),
        decreases i,
    {
        let b: u8 = bytes[i - 1];
        proof {
            let tail = bytes@.skip(i as int);
            let cur = bytes@.skip(i as int - 1);
            assert(cur.drop_first() =~= tail);
            assert(cur[0] == b);
            assert(le_value(cur) == b as nat + 256 * le_value(tail));
            lemma_pow256_monotone((len - i) as nat, 15);
            assert(pow256(16) == 256 * pow256(15));
            assert((acc as nat) * 256 + (b as nat) < 256 * pow256(15));
            assert(pow256(16) == 0x100000000000000000000000000000000) by {
                reveal_with_fuel(pow256, 17);
            }
            assert(pow256((len - i + 1) as nat) == 256 * pow256((len - i) as nat));
        }
        acc = acc * 256 + (b as u128);
        i = i - 1;
    }
    proof {
        assert(bytes@.skip(0) =~= bytes@);
    }
    acc
}

} // verus!
