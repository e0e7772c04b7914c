//! The primitive codec set and the `Persist` contract.
//!
//! A `Persist` type owns a deterministic, self-delimiting binary encoding:
//! `enc` is the mathematical byte string of a value, `decodes` says whether
//! a stream begins with a well-formed record of the type, and `dec_len`
//! how many bytes that record occupies.  `read` and `write` are the
//! executable codec, proved against those specifications, and the two
//! lemmas every implementation must supply make decoding unambiguous: an
//! encoding determines its own length in any stream, and equal encodings
//! come from equal values.

use vstd::prelude::*;
use vstd::string::StrSliceExecFns;
use vstd::utf8::{encode_utf8, encode_utf8_decode_utf8, encode_utf8_valid_utf8, valid_utf8};

use crate::channel::{ByteSink, ByteSource, MemSink, MemSource, PersistReader, PersistWriter};
use crate::error::{is_read_error, is_write_error, PersistError};
use crate::wire::{
    le_bytes, le_decode, le_encode, le_value, lemma_le_bytes_injective, lemma_le_bytes_len,
    lemma_le_bytes_of_le_value, lemma_le_value_bound, lemma_le_value_of_le_bytes, pow256,
};

verus! {

/// Convenient handle on the byte counts of the fixed widths.
pub proof fn lemma_pow256_widths()
    ensures
        pow256(1) == 0x100,
        pow256(2) == 0x10000,
        pow256(4) == 0x1_0000_0000,
        pow256(8) == 0x1_0000_0000_0000_0000,
        pow256(16) == 0x1_0000_0000_0000_0000_0000_0000_0000_0000,
{
    reveal_with_fuel(pow256, 17);
}

/// Read exactly `width` little-endian bytes and return the value they
/// stand for.
pub fn read_le_uint<R: ByteSource>(r: &mut PersistReader<R>, width: usize) -> (res: Result<
    u128,
    PersistError,
>)
    requires
        1 <= width <= 16,
    ensures
        match res {
            Ok(v) => {
                &&& old(r).avail().len() >= width
                &&& v as nat == le_value(old(r).avail().take(width as int))
                &&& (v as nat) < pow256(width as nat)
                &&& le_bytes(v as nat, width as nat) == old(r).avail().take(width as int)
                &&& final(r).avail() == old(r).avail().skip(width as int)
            },
            Err(e) => {
                &&& e == PersistError::UnexpectedEof
                &&& old(r).progresses() ==> old(r).avail().len() < width
            },
        },
        final(r).progresses() == old(r).progresses(),
{
    match r.read(width) {
        Ok(bytes) => {
            proof {
                lemma_le_value_bound(bytes@);
                lemma_le_bytes_of_le_value(bytes@);
            }
            Ok(le_decode(&bytes))
        },
        Err(e) => Err(e),
    }
}

/// Write the `width`-byte little-endian encoding of `v`.
pub fn write_le_uint<W: ByteSink>(w: &mut PersistWriter<W>, v: u128, width: usize) -> (res: Result<
    (),
    PersistError,
>)
    requires
        1 <= width <= 16,
        (v as nat) < pow256(width as nat),
    ensures
        match res {
            Ok(()) => final(w).sent() == old(w).sent() + le_bytes(v as nat, width as nat),
            Err(e) => {
                &&& e == PersistError::WriteZero
                &&& !old(w).accepts()
                &&& exists|k: int|
                    0 <= k < width && final(w).sent() == old(w).sent() + le_bytes(
                        v as nat,
                        width as nat,
                    ).take(k)
            },
        },
        final(w).accepts() == old(w).accepts(),
{
    let bytes = le_encode(v, width);
    w.write(&bytes)
}

/// A persisted value: its encoding is deterministic and self-delimiting,
/// and the executable codec is faithful to it.
pub trait Persist: Sized + DeepView {
    /// The byte string this value is persisted as.
    spec fn enc(&self) -> Seq<u8>;

    /// Whether the value can be persisted at all (a length that must be
    /// narrowed to 32 bits may not fit).
    spec fn encodable(&self) -> bool;

    /// Whether a stream begins with a well-formed record of this type.
    spec fn decodes(stream: Seq<u8>) -> bool;

    /// How many bytes the record at the front of the stream occupies,
    /// when one decodes.
    spec fn dec_len(stream: Seq<u8>) -> nat;

    /// An encoding placed at the front of any stream decodes, and
    /// delimits itself: the record occupies exactly the encoding.
    proof fn lemma_enc_decodes(&self, tail: Seq<u8>)
        requires
            self.encodable(),
        ensures
            Self::decodes(self.enc() + tail),
            Self::dec_len(self.enc() + tail) == self.enc().len(),
    ;

    /// Equal encodings come from equal values: decoding is unambiguous.
    proof fn lemma_enc_injective(a: &Self, b: &Self)
        requires
            a.encodable(),
            b.encodable(),
            a.enc() == b.enc(),
        ensures
            a.deep_view() == b.deep_view(),
    ;

    /// Decode one value from the front of the stream.  On success the
    /// value read is encodable and its encoding is exactly the consumed
    /// prefix; on failure, a stream that guarantees progress did not hold
    /// a well-formed record.
    fn read<R: ByteSource>(r: &mut PersistReader<R>) -> (res: Result<Self, PersistError>)
        ensures
            match res {
                Ok(v) => {
                    &&& v.encodable()
                    &&& v.enc().len() <= old(r).avail().len()
                    &&& v.enc() == old(r).avail().take(v.enc().len() as int)
                    &&& final(r).avail() == old(r).avail().skip(v.enc().len() as int)
                },
                Err(e) => {
                    &&& old(r).progresses() ==> !Self::decodes(old(r).avail())
                    &&& is_read_error(e)
                },
            },
            final(r).progresses() == old(r).progresses(),
    ;

    /// Append this value's encoding to the stream.  Failure means the
    /// sink stalled (`WriteZero`) or the value cannot be persisted
    /// (`IndexTooLarge`), and even then the sink holds at most a prefix
    /// of the encoding: nothing foreign is ever written.
    fn write<W: ByteSink>(&self, w: &mut PersistWriter<W>) -> (res: Result<(), PersistError>)
        ensures
            match res {
                Ok(()) => {
                    &&& self.encodable()
                    &&& final(w).sent() == old(w).sent() + self.enc()
                },
                Err(e) => {
                    &&& !old(w).accepts() || !self.encodable()
                    &&& is_write_error(e)
                    &&& e == PersistError::WriteZero ==> !old(w).accepts()
                    &&& e == PersistError::IndexTooLarge ==> !self.encodable()
                    &&& exists|k: int|
                        0 <= k <= self.enc().len() && final(w).sent() == old(w).sent()
                            + self.enc().take(k)
                },
            },
            final(w).accepts() == old(w).accepts(),
    ;
}

/// The unsigned value a signed one is persisted as: its two's complement
/// with respect to `p`, the count of values of the width.
pub open spec fn signed_to_unsigned(v: int, p: nat) -> nat {
    if v >= 0 {
        v as nat
    } else {
        (v + p) as nat
    }
}

/// The signed value an unsigned one stands for: the inverse of
/// `signed_to_unsigned`.
pub open spec fn unsigned_to_signed(u: nat, p: nat) -> int {
    if 2 * u < p {
        u as int
    } else {
        u - p
    }
}

impl Persist for u8 {
    open spec fn enc(&self) -> Seq<u8> {
        le_bytes(*self as nat, 1)
    }

    open spec fn encodable(&self) -> bool {
        true
    }

    open spec fn decodes(stream: Seq<u8>) -> bool {
        stream.len() >= 1
    }

    open spec fn dec_len(stream: Seq<u8>) -> nat {
        1
    }

    proof fn lemma_enc_decodes(&self, tail: Seq<u8>) {
        lemma_le_bytes_len(*self as nat, 1);
    }

    proof fn lemma_enc_injective(a: &Self, b: &Self) {
        lemma_pow256_widths();
        lemma_le_bytes_injective(*a as nat, *b as nat, 1);
    }

    fn read<R: ByteSource>(r: &mut PersistReader<R>) -> (res: Result<Self, PersistError>) {
        match read_le_uint(r, 1) {
            Ok(v) => {
                proof {
                    lemma_pow256_widths();
                    lemma_le_bytes_len(v as nat, 1);
                }
                Ok(v as u8)
            },
            Err(e) => Err(e),
        }
    }

    fn write<W: ByteSink>(&self, w: &mut PersistWriter<W>) -> (res: Result<(), PersistError>) {
        let ghost pre = *w;
        proof {
            lemma_pow256_widths();
        }
        let res = write_le_uint(w, *self as u128, 1);
        proof {
            lemma_le_bytes_len(*self as nat, 1);
            if res is Err {
                let k = choose|k: int|
                    0 <= k < 1 && w.sent() == pre.sent() + #[trigger] le_bytes(
                        (*self as u128) as nat,
                        1,
                    ).take(k);
                assert(w.sent() == pre.sent() + self.enc().take(k));
            }
        }
        res
    }
}

impl Persist for u16 {
    open spec fn enc(&self) -> Seq<u8> {
        le_bytes(*self as nat, 2)
    }

    open spec fn encodable(&self) -> bool {
        true
    }

    open spec fn decodes(stream: Seq<u8>) -> bool {
        stream.len() >= 2
    }

    open spec fn dec_len(stream: Seq<u8>) -> nat {
        2
    }

    proof fn lemma_enc_decodes(&self, tail: Seq<u8>) {
        lemma_le_bytes_len(*self as nat, 2);
    }

    proof fn lemma_enc_injective(a: &Self, b: &Self) {
        lemma_pow256_widths();
        lemma_le_bytes_injective(*a as nat, *b as nat, 2);
    }

    fn read<R: ByteSource>(r: &mut PersistReader<R>) -> (res: Result<Self, PersistError>) {
        match read_le_uint(r, 2) {
            Ok(v) => {
                proof {
                    lemma_pow256_widths();
                    lemma_le_bytes_len(v as nat, 2);
                }
                Ok(v as u16)
            },
            Err(e) => Err(e),
        }
    }

    fn write<W: ByteSink>(&self, w: &mut PersistWriter<W>) -> (res: Result<(), PersistError>) {
        let ghost pre = *w;
        proof {
            lemma_pow256_widths();
        }
        let res = write_le_uint(w, *self as u128, 2);
        proof {
            lemma_le_bytes_len(*self as nat, 2);
            if res is Err {
                let k = choose|k: int|
                    0 <= k < 2 && w.sent() == pre.sent() + #[trigger] le_bytes(
                        (*self as u128) as nat,
                        2,
                    ).take(k);
                assert(w.sent() == pre.sent() + self.enc().take(k));
            }
        }
        res
    }
}

impl Persist for u32 {
    open spec fn enc(&self) -> Seq<u8> {
        le_bytes(*self as nat, 4)
    }

    open spec fn encodable(&self) -> bool {
        true
    }

    open spec fn decodes(stream: Seq<u8>) -> bool {
        stream.len() >= 4
    }

    open spec fn dec_len(stream: Seq<u8>) -> nat {
        4
    }

    proof fn lemma_enc_decodes(&self, tail: Seq<u8>) {
        lemma_le_bytes_len(*self as nat, 4);
    }

    proof fn lemma_enc_injective(a: &Self, b: &Self) {
        lemma_pow256_widths();
        lemma_le_bytes_injective(*a as nat, *b as nat, 4);
    }

    fn read<R: ByteSource>(r: &mut PersistReader<R>) -> (res: Result<Self, PersistError>) {
        match read_le_uint(r, 4) {
            Ok(v) => {
                proof {
                    lemma_pow256_widths();
                    lemma_le_bytes_len(v as nat, 4);
                }
                Ok(v as u32)
            },
            Err(e) => Err(e),
        }
    }

    fn write<W: ByteSink>(&self, w: &mut PersistWriter<W>) -> (res: Result<(), PersistError>) {
        let ghost pre = *w;
        proof {
            lemma_pow256_widths();
        }
        let res = write_le_uint(w, *self as u128, 4);
        proof {
            lemma_le_bytes_len(*self as nat, 4);
            if res is Err {
                let k = choose|k: int|
                    0 <= k < 4 && w.sent() == pre.sent() + #[trigger] le_bytes(
                        (*self as u128) as nat,
                        4,
                    ).take(k);
                assert(w.sent() == pre.sent() + self.enc().take(k));
            }
        }
        res
    }
}

impl Persist for u64 {
    open spec fn enc(&self) -> Seq<u8> {
        le_bytes(*self as nat, 8)
    }

    open spec fn encodable(&self) -> bool {
        true
    }

    open spec fn decodes(stream: Seq<u8>) -> bool {
        stream.len() >= 8
    }

    open spec fn dec_len(stream: Seq<u8>) -> nat {
        8
    }

    proof fn lemma_enc_decodes(&self, tail: Seq<u8>) {
        lemma_le_bytes_len(*self as nat, 8);
    }

    proof fn lemma_enc_injective(a: &Self, b: &Self) {
        lemma_pow256_widths();
        lemma_le_bytes_injective(*a as nat, *b as nat, 8);
    }

    fn read<R: ByteSource>(r: &mut PersistReader<R>) -> (res: Result<Self, PersistError>) {
        match read_le_uint(r, 8) {
            Ok(v) => {
                proof {
                    lemma_pow256_widths();
                    lemma_le_bytes_len(v as nat, 8);
                }
                Ok(v as u64)
            },
            Err(e) => Err(e),
        }
    }

    fn write<W: ByteSink>(&self, w: &mut PersistWriter<W>) -> (res: Result<(), PersistError>) {
        let ghost pre = *w;
        proof {
            lemma_pow256_widths();
        }
        let res = write_le_uint(w, *self as u128, 8);
        proof {
            lemma_le_bytes_len(*self as nat, 8);
            if res is Err {
                let k = choose|k: int|
                    0 <= k < 8 && w.sent() == pre.sent() + #[trigger] le_bytes(
                        (*self as u128) as nat,
                        8,
                    ).take(k);
                assert(w.sent() == pre.sent() + self.enc().take(k));
            }
        }
        res
    }
}

impl Persist for u128 {
    open spec fn enc(&self) -> Seq<u8> {
        le_bytes(*self as nat, 16)
    }

    open spec fn encodable(&self) -> bool {
        true
    }

    open spec fn decodes(stream: Seq<u8>) -> bool {
        stream.len() >= 16
    }

    open spec fn dec_len(stream: Seq<u8>) -> nat {
        16
    }

    proof fn lemma_enc_decodes(&self, tail: Seq<u8>) {
        lemma_le_bytes_len(*self as nat, 16);
    }

    proof fn lemma_enc_injective(a: &Self, b: &Self) {
        lemma_pow256_widths();
        lemma_le_bytes_injective(*a as nat, *b as nat, 16);
    }

    fn read<R: ByteSource>(r: &mut PersistReader<R>) -> (res: Result<Self, PersistError>) {
        match read_le_uint(r, 16) {
            Ok(v) => {
                proof {
                    lemma_pow256_widths();
                    lemma_le_bytes_len(v as nat, 16);
                }
                Ok(v)
            },
            Err(e) => Err(e),
        }
    }

    fn write<W: ByteSink>(&self, w: &mut PersistWriter<W>) -> (res: Result<(), PersistError>) {
        let ghost pre = *w;
        proof {
            lemma_pow256_widths();
        }
        let res = write_le_uint(w, *self, 16);
        proof {
            lemma_le_bytes_len(*self as nat, 16);
            if res is Err {
                let k = choose|k: int|
                    0 <= k < 16 && w.sent() == pre.sent() + #[trigger] le_bytes(
                        (*self) as nat,
                        16,
                    ).take(k);
                assert(w.sent() == pre.sent() + self.enc().take(k));
            }
        }
        res
    }
}

impl Persist for i8 {
    open spec fn enc(&self) -> Seq<u8> {
        le_bytes(signed_to_unsigned(*self as int, pow256(1)), 1)
    }

    open spec fn encodable(&self) -> bool {
        true
    }

    open spec fn decodes(stream: Seq<u8>) -> bool {
        stream.len() >= 1
    }

    open spec fn dec_len(stream: Seq<u8>) -> nat {
        1
    }

    proof fn lemma_enc_decodes(&self, tail: Seq<u8>) {
        lemma_le_bytes_len(signed_to_unsigned(*self as int, pow256(1)), 1);
    }

    proof fn lemma_enc_injective(a: &Self, b: &Self) {
        lemma_pow256_widths();
        lemma_le_bytes_injective(
            signed_to_unsigned(*a as int, pow256(1)),
            signed_to_unsigned(*b as int, pow256(1)),
            1,
        );
    }

    fn read<R: ByteSource>(r: &mut PersistReader<R>) -> (res: Result<Self, PersistError>) {
        match <u8 as Persist>::read(r) {
            Ok(n) => {
                let v: i8 = if n <= 0x7f {
                    n as i8
                } else {
                    -((u8::MAX - n) as i8) - 1
                };
                proof {
                    lemma_pow256_widths();
                    assert(signed_to_unsigned(v as int, pow256(1)) == n as nat);
                }
                Ok(v)
            },
            Err(e) => Err(e),
        }
    }

    fn write<W: ByteSink>(&self, w: &mut PersistWriter<W>) -> (res: Result<(), PersistError>) {
        let n: u8 = if *self >= 0 {
            *self as u8
        } else {
            u8::MAX - ((-(*self + 1)) as u8)
        };
        proof {
            lemma_pow256_widths();
            assert(signed_to_unsigned(*self as int, pow256(1)) == n as nat);
        }
        let ghost pre = *w;
        let res = <u8 as Persist>::write(&n, w);
        proof {
            assert(n.enc() == self.enc());
            if res is Err {
                let k = choose|k: int|
                    0 <= k <= n.enc().len() && w.sent() == pre.sent() + #[trigger] n.enc().take(
                        k,
                    );
                assert(w.sent() == pre.sent() + self.enc().take(k));
            }
        }
        res
    }
}

impl Persist for i16 {
    open spec fn enc(&self) -> Seq<u8> {
        le_bytes(signed_to_unsigned(*self as int, pow256(2)), 2)
    }

    open spec fn encodable(&self) -> bool {
        true
    }

    open spec fn decodes(stream: Seq<u8>) -> bool {
        stream.len() >= 2
    }

    open spec fn dec_len(stream: Seq<u8>) -> nat {
        2
    }

    proof fn lemma_enc_decodes(&self, tail: Seq<u8>) {
        lemma_le_bytes_len(signed_to_unsigned(*self as int, pow256(2)), 2);
    }

    proof fn lemma_enc_injective(a: &Self, b: &Self) {
        lemma_pow256_widths();
        lemma_le_bytes_injective(
            signed_to_unsigned(*a as int, pow256(2)),
            signed_to_unsigned(*b as int, pow256(2)),
            2,
        );
    }

    fn read<R: ByteSource>(r: &mut PersistReader<R>) -> (res: Result<Self, PersistError>) {
        match <u16 as Persist>::read(r) {
            Ok(n) => {
                let v: i16 = if n <= 0x7fff {
                    n as i16
                } else {
                    -((u16::MAX - n) as i16) - 1
                };
                proof {
                    lemma_pow256_widths();
                    assert(signed_to_unsigned(v as int, pow256(2)) == n as nat);
                }
                Ok(v)
            },
            Err(e) => Err(e),
        }
    }

    fn write<W: ByteSink>(&self, w: &mut PersistWriter<W>) -> (res: Result<(), PersistError>) {
        let n: u16 = if *self >= 0 {
            *self as u16
        } else {
            u16::MAX - ((-(*self + 1)) as u16)
        };
        proof {
            lemma_pow256_widths();
            assert(signed_to_unsigned(*self as int, pow256(2)) == n as nat);
        }
        let ghost pre = *w;
        let res = <u16 as Persist>::write(&n, w);
        proof {
            assert(n.enc() == self.enc());
            if res is Err {
                let k = choose|k: int|
                    0 <= k <= n.enc().len() && w.sent() == pre.sent() + #[trigger] n.enc().take(
                        k,
                    );
                assert(w.sent() == pre.sent() + self.enc().take(k));
            }
        }
        res
    }
}

impl Persist for i32 {
    open spec fn enc(&self) -> Seq<u8> {
        le_bytes(signed_to_unsigned(*self as int, pow256(4)), 4)
    }

    open spec fn encodable(&self) -> bool {
        true
    }

    open spec fn decodes(stream: Seq<u8>) -> bool {
        stream.len() >= 4
    }

    open spec fn dec_len(stream: Seq<u8>) -> nat {
        4
    }

    proof fn lemma_enc_decodes(&self, tail: Seq<u8>) {
        lemma_le_bytes_len(signed_to_unsigned(*self as int, pow256(4)), 4);
    }

    proof fn lemma_enc_injective(a: &Self, b: &Self) {
        lemma_pow256_widths();
        lemma_le_bytes_injective(
            signed_to_unsigned(*a as int, pow256(4)),
            signed_to_unsigned(*b as int, pow256(4)),
            4,
        );
    }

    fn read<R: ByteSource>(r: &mut PersistReader<R>) -> (res: Result<Self, PersistError>) {
        match <u32 as Persist>::read(r) {
            Ok(n) => {
                let v: i32 = if n <= 0x7fff_ffff {
                    n as i32
                } else {
                    -((u32::MAX - n) as i32) - 1
                };
                proof {
                    lemma_pow256_widths();
                    assert(signed_to_unsigned(v as int, pow256(4)) == n as nat);
                }
                Ok(v)
            },
            Err(e) => Err(e),
        }
    }

    fn write<W: ByteSink>(&self, w: &mut PersistWriter<W>) -> (res: Result<(), PersistError>) {
        let n: u32 = if *self >= 0 {
            *self as u32
        } else {
            u32::MAX - ((-(*self + 1)) as u32)
        };
        proof {
            lemma_pow256_widths();
            assert(signed_to_unsigned(*self as int, pow256(4)) == n as nat);
        }
        let ghost pre = *w;
        let res = <u32 as Persist>::write(&n, w);
        proof {
            assert(n.enc() == self.enc());
            if res is Err {
                let k = choose|k: int|
                    0 <= k <= n.enc().len() && w.sent() == pre.sent() + #[trigger] n.enc().take(
                        k,
                    );
                assert(w.sent() == pre.sent() + self.enc().take(k));
            }
        }
        res
    }
}

impl Persist for i64 {
    open spec fn enc(&self) -> Seq<u8> {
        le_bytes(signed_to_unsigned(*self as int, pow256(8)), 8)
    }

    open spec fn encodable(&self) -> bool {
        true
    }

    open spec fn decodes(stream: Seq<u8>) -> bool {
        stream.len() >= 8
    }

    open spec fn dec_len(stream: Seq<u8>) -> nat {
        8
    }

    proof fn lemma_enc_decodes(&self, tail: Seq<u8>) {
        lemma_le_bytes_len(signed_to_unsigned(*self as int, pow256(8)), 8);
    }

    proof fn lemma_enc_injective(a: &Self, b: &Self) {
        lemma_pow256_widths();
        lemma_le_bytes_injective(
            signed_to_unsigned(*a as int, pow256(8)),
            signed_to_unsigned(*b as int, pow256(8)),
            8,
        );
    }

    fn read<R: ByteSource>(r: &mut PersistReader<R>) -> (res: Result<Self, PersistError>) {
        match <u64 as Persist>::read(r) {
            Ok(n) => {
                let v: i64 = if n <= 0x7fff_ffff_ffff_ffff {
                    n as i64
                } else {
                    -((u64::MAX - n) as i64) - 1
                };
                proof {
                    lemma_pow256_widths();
                    assert(signed_to_unsigned(v as int, pow256(8)) == n as nat);
                }
                Ok(v)
            },
            Err(e) => Err(e),
        }
    }

    fn write<W: ByteSink>(&self, w: &mut PersistWriter<W>) -> (res: Result<(), PersistError>) {
        let n: u64 = if *self >= 0 {
            *self as u64
        } else {
            u64::MAX - ((-(*self + 1)) as u64)
        };
        proof {
            lemma_pow256_widths();
            assert(signed_to_unsigned(*self as int, pow256(8)) == n as nat);
        }
        let ghost pre = *w;
        let res = <u64 as Persist>::write(&n, w);
        proof {
            assert(n.enc() == self.enc());
            if res is Err {
                let k = choose|k: int|
                    0 <= k <= n.enc().len() && w.sent() == pre.sent() + #[trigger] n.enc().take(
                        k,
                    );
                assert(w.sent() == pre.sent() + self.enc().take(k));
            }
        }
        res
    }
}

impl Persist for i128 {
    open spec fn enc(&self) -> Seq<u8> {
        le_bytes(signed_to_unsigned(*self as int, pow256(16)), 16)
    }

    open spec fn encodable(&self) -> bool {
        true
    }

    open spec fn decodes(stream: Seq<u8>) -> bool {
        stream.len() >= 16
    }

    open spec fn dec_len(stream: Seq<u8>) -> nat {
        16
    }

    proof fn lemma_enc_decodes(&self, tail: Seq<u8>) {
        lemma_le_bytes_len(signed_to_unsigned(*self as int, pow256(16)), 16);
    }

    proof fn lemma_enc_injective(a: &Self, b: &Self) {
        lemma_pow256_widths();
        lemma_le_bytes_injective(
            signed_to_unsigned(*a as int, pow256(16)),
            signed_to_unsigned(*b as int, pow256(16)),
            16,
        );
    }

    fn read<R: ByteSource>(r: &mut PersistReader<R>) -> (res: Result<Self, PersistError>) {
        match <u128 as Persist>::read(r) {
            Ok(n) => {
                let v: i128 = if n <= 0x7fff_ffff_ffff_ffff_ffff_ffff_ffff_ffff {
                    n as i128
                } else {
                    -((u128::MAX - n) as i128) - 1
                };
                proof {
                    lemma_pow256_widths();
                    assert(signed_to_unsigned(v as int, pow256(16)) == n as nat);
                }
                Ok(v)
            },
            Err(e) => Err(e),
        }
    }

    fn write<W: ByteSink>(&self, w: &mut PersistWriter<W>) -> (res: Result<(), PersistError>) {
        let n: u128 = if *self >= 0 {
            *self as u128
        } else {
            u128::MAX - ((-(*self + 1)) as u128)
        };
        proof {
            lemma_pow256_widths();
            assert(signed_to_unsigned(*self as int, pow256(16)) == n as nat);
        }
        let ghost pre = *w;
        let res = <u128 as Persist>::write(&n, w);
        proof {
            assert(n.enc() == self.enc());
            if res is Err {
                let k = choose|k: int|
                    0 <= k <= n.enc().len() && w.sent() == pre.sent() + #[trigger] n.enc().take(
                        k,
                    );
                assert(w.sent() == pre.sent() + self.enc().take(k));
            }
        }
        res
    }
}

// Platform-width values are always narrowed to 4 bytes on disk so that
// save files read identically across 32-bit and 64-bit builds.
impl Persist for usize {
    open spec fn enc(&self) -> Seq<u8> {
        le_bytes(*self as nat, 4)
    }

    open spec fn encodable(&self) -> bool {
        *self <= u32::MAX
    }

    open spec fn decodes(stream: Seq<u8>) -> bool {
        stream.len() >= 4 && le_value(stream.take(4)) <= usize::MAX as nat
    }

    open spec fn dec_len(stream: Seq<u8>) -> nat {
        4
    }

    proof fn lemma_enc_decodes(&self, tail: Seq<u8>) {
        lemma_pow256_widths();
        lemma_le_bytes_len(*self as nat, 4);
        assert((self.enc() + tail).take(4) =~= self.enc());
        lemma_le_value_of_le_bytes(*self as nat, 4);
    }

    proof fn lemma_enc_injective(a: &Self, b: &Self) {
        lemma_pow256_widths();
        lemma_le_bytes_injective(*a as nat, *b as nat, 4);
    }

    fn read<R: ByteSource>(r: &mut PersistReader<R>) -> (res: Result<Self, PersistError>) {
        match <u32 as Persist>::read(r) {
            Ok(n) => {
                // A stored 32-bit index always fits a host width of 32
                // bits or more; only narrower targets would reject here.
                Ok(n as usize)
            },
            Err(e) => Err(e),
        }
    }

    fn write<W: ByteSink>(&self, w: &mut PersistWriter<W>) -> (res: Result<(), PersistError>)
        ensures
            res matches Err(e) && e == PersistError::IndexTooLarge ==> final(w).sent() == old(
                w,
            ).sent(),
    {
        let ghost pre = *w;
        if *self > u32::MAX as usize {
            // the range error is raised before a single byte is written
            proof {
                assert(self.enc().take(0) =~= Seq::<u8>::empty());
                assert(w.sent() + self.enc().take(0) =~= w.sent());
            }
            return Err(PersistError::IndexTooLarge);
        }
        let n: u32 = *self as u32;
        let res = <u32 as Persist>::write(&n, w);
        proof {
            assert(n.enc() == self.enc());
            if res is Err {
                let k = choose|k: int|
                    0 <= k <= n.enc().len() && w.sent() == pre.sent() + #[trigger] n.enc().take(
                        k,
                    );
                assert(w.sent() == pre.sent() + self.enc().take(k));
            }
        }
        res
    }
}

// `isize` mirrors `usize`: persisted as its 32-bit counterpart.
impl Persist for isize {
    open spec fn enc(&self) -> Seq<u8> {
        le_bytes(signed_to_unsigned(*self as int, pow256(4)), 4)
    }

    open spec fn encodable(&self) -> bool {
        -0x8000_0000 <= *self as int <= 0x7fff_ffff
    }

    open spec fn decodes(stream: Seq<u8>) -> bool {
        &&& stream.len() >= 4
        &&& isize::MIN as int <= unsigned_to_signed(le_value(stream.take(4)), pow256(4))
        &&& unsigned_to_signed(le_value(stream.take(4)), pow256(4)) <= isize::MAX as int
    }

    open spec fn dec_len(stream: Seq<u8>) -> nat {
        4
    }

    proof fn lemma_enc_decodes(&self, tail: Seq<u8>) {
        lemma_pow256_widths();
        lemma_le_bytes_len(signed_to_unsigned(*self as int, pow256(4)), 4);
        assert((self.enc() + tail).take(4) =~= self.enc());
        lemma_le_value_of_le_bytes(signed_to_unsigned(*self as int, pow256(4)), 4);
    }

    proof fn lemma_enc_injective(a: &Self, b: &Self) {
        lemma_pow256_widths();
        lemma_le_bytes_injective(
            signed_to_unsigned(*a as int, pow256(4)),
            signed_to_unsigned(*b as int, pow256(4)),
            4,
        );
    }

    fn read<R: ByteSource>(r: &mut PersistReader<R>) -> (res: Result<Self, PersistError>) {
        match <i32 as Persist>::read(r) {
            Ok(n) => {
                // A stored 32-bit index always fits a host width of 32
                // bits or more; only narrower targets would reject here.
                proof {
                    lemma_pow256_widths();
                }
                Ok(n as isize)
            },
            Err(e) => Err(e),
        }
    }

    fn write<W: ByteSink>(&self, w: &mut PersistWriter<W>) -> (res: Result<(), PersistError>)
        ensures
            res matches Err(e) && e == PersistError::IndexTooLarge ==> final(w).sent() == old(
                w,
            ).sent(),
    {
        let ghost pre = *w;
        if *self > i32::MAX as isize || *self < i32::MIN as isize {
            // the range error is raised before a single byte is written
            proof {
                assert(self.enc().take(0) =~= Seq::<u8>::empty());
                assert(w.sent() + self.enc().take(0) =~= w.sent());
            }
            return Err(PersistError::IndexTooLarge);
        }
        let n: i32 = *self as i32;
        let res = <i32 as Persist>::write(&n, w);
        proof {
            assert(n.enc() == self.enc());
            if res is Err {
                let k = choose|k: int|
                    0 <= k <= n.enc().len() && w.sent() == pre.sent() + #[trigger] n.enc().take(
                        k,
                    );
                assert(w.sent() == pre.sent() + self.enc().take(k));
            }
        }
        res
    }
}

/// Relies on `String::from_utf8`: it succeeds exactly when the input is
/// valid UTF-8, and the returned string's UTF-8 bytes are the input bytes.
#[verifier::external_body]
fn bytes_to_string(bytes: Vec<u8>) -> (res: Option<String>)
    ensures
        match res {
            Some(s) => valid_utf8(bytes@) && encode_utf8(s@) == bytes@,
            None => !valid_utf8(bytes@),
        },
{
    String::from_utf8(bytes).ok()
}

// Strings are persisted as a 4-byte length prefix followed by their UTF-8
// bytes; decoding fails on anything that is not valid UTF-8.
impl Persist for String {
    open spec fn enc(&self) -> Seq<u8> {
        le_bytes(encode_utf8(self@).len(), 4) + encode_utf8(self@)
    }

    open spec fn encodable(&self) -> bool {
        encode_utf8(self@).len() <= u32::MAX
    }

    open spec fn decodes(stream: Seq<u8>) -> bool {
        &&& stream.len() >= 4
        &&& le_value(stream.take(4)) <= usize::MAX as nat
        &&& 4 + le_value(stream.take(4)) <= stream.len()
        &&& valid_utf8(stream.subrange(4, 4 + le_value(stream.take(4)) as int))
    }

    open spec fn dec_len(stream: Seq<u8>) -> nat {
        4 + le_value(stream.take(4))
    }

    proof fn lemma_enc_decodes(&self, tail: Seq<u8>) {
        let u = encode_utf8(self@);
        let s = self.enc() + tail;
        lemma_pow256_widths();
        lemma_le_bytes_len(u.len(), 4);
        assert(s.take(4) =~= le_bytes(u.len(), 4));
        lemma_le_value_of_le_bytes(u.len(), 4);
        assert(s.subrange(4, 4 + u.len() as int) =~= u);
        encode_utf8_valid_utf8(self@);
    }

    proof fn lemma_enc_injective(a: &Self, b: &Self) {
        let ua = encode_utf8(a@);
        let ub = encode_utf8(b@);
        lemma_pow256_widths();
        lemma_le_bytes_len(ua.len(), 4);
        lemma_le_bytes_len(ub.len(), 4);
        assert(a.enc().take(4) =~= le_bytes(ua.len(), 4));
        assert(b.enc().take(4) =~= le_bytes(ub.len(), 4));
        lemma_le_bytes_injective(ua.len(), ub.len(), 4);
        assert(ua =~= a.enc().skip(4));
        assert(ub =~= b.enc().skip(4));
        encode_utf8_decode_utf8(a@);
        encode_utf8_decode_utf8(b@);
    }

    fn read<R: ByteSource>(r: &mut PersistReader<R>) -> (res: Result<Self, PersistError>)
        ensures
            ({
                &&& old(r).progresses()
                &&& old(r).avail().len() >= 4
                &&& le_value(old(r).avail().take(4)) <= usize::MAX as nat
                &&& le_value(old(r).avail().take(4)) + 4 <= old(r).avail().len()
                &&& res is Err
            }) ==> ({
                &&& res == Result::<String, PersistError>::Err(PersistError::InvalidUtf8)
                &&& final(r).avail() == old(r).avail().skip(
                    4 + le_value(old(r).avail().take(4)) as int,
                )
            }),
    {
        let ghost pre = *r;
        let len = match <usize as Persist>::read(r) {
            Ok(l) => l,
            Err(e) => {
                return Err(e);
            },
        };
        proof {
            lemma_pow256_widths();
            lemma_le_bytes_len(len as nat, 4);
            lemma_le_value_of_le_bytes(len as nat, 4);
        }
        let bytes = match r.read(len) {
            Ok(b) => b,
            Err(e) => {
                return Err(e);
            },
        };
        proof {
            assert(bytes@ =~= pre.avail().subrange(4, 4 + len as int));
        }
        match bytes_to_string(bytes) {
            Some(s) => {
                proof {
                    assert(s.enc() =~= pre.avail().take(4 + len as int));
                    assert(r.avail() =~= pre.avail().skip(4 + len as int));
                }
                Ok(s)
            },
            None => {
                proof {
                    assert(r.avail() =~= pre.avail().skip(4 + len as int));
                }
                Err(PersistError::InvalidUtf8)
            },
        }
    }

    fn write<W: ByteSink>(&self, w: &mut PersistWriter<W>) -> (res: Result<(), PersistError>)
        ensures
            res matches Err(e) && e == PersistError::IndexTooLarge ==> final(w).sent() == old(
                w,
            ).sent(),
    {
        let ghost pre = *w;
        let bytes = self.as_str().as_bytes_vec();
        if bytes.len() > u32::MAX as usize {
            // the range error is raised before a single byte is written
            proof {
                assert(self.enc().take(0) =~= Seq::<u8>::empty());
                assert(w.sent() + self.enc().take(0) =~= w.sent());
            }
            return Err(PersistError::IndexTooLarge);
        }
        let len: usize = bytes.len();
        proof {
            lemma_pow256_widths();
            lemma_le_bytes_len(len as nat, 4);
        }
        match write_le_uint(w, len as u128, 4) {
            Ok(()) => {},
            Err(e) => {
                proof {
                    let k = choose|k: int|
                        0 <= k < 4 && w.sent() == pre.sent() + #[trigger] le_bytes(
                            (len as u128) as nat,
                            4,
                        ).take(k);
                    assert(self.enc().take(k) =~= le_bytes(len as nat, 4).take(k));
                    assert(w.sent() == pre.sent() + self.enc().take(k));
                }
                return Err(e);
            },
        }
        match w.write(&bytes) {
            Ok(()) => {
                proof {
                    assert(w.sent() =~= pre.sent() + self.enc());
                }
                Ok(())
            },
            Err(e) => {
                proof {
                    let ghost mid = pre.sent() + le_bytes(len as nat, 4);
                    let k = choose|k: int|
                        0 <= k < bytes@.len() && w.sent() == mid + #[trigger] bytes@.take(k);
                    assert(self.enc().take(4 + k) =~= le_bytes(len as nat, 4) + bytes@.take(k));
                    assert(w.sent() == pre.sent() + self.enc().take(4 + k));
                }
                Err(e)
            },
        }
    }
}

/// The concatenation of the encodings of a sequence of values, in order.
pub open spec fn seq_enc<T: Persist>(s: Seq<T>) -> Seq<u8>
    decreases s.len(),
{
    if s.len() == 0 {
        Seq::empty()
    } else {
        s[0].enc() + seq_enc(s.drop_first())
    }
}

/// Every element of the sequence can be persisted.
pub open spec fn seq_encodable<T: Persist>(s: Seq<T>) -> bool {
    forall|i: int| 0 <= i < s.len() ==> (#[trigger] s[i]).encodable()
}

/// The stream begins with `n` consecutive well-formed records of `T`.
pub open spec fn elems_decode<T: Persist>(stream: Seq<u8>, n: nat) -> bool
    decreases n,
{
    n == 0 || (T::decodes(stream) && elems_decode::<T>(
        stream.skip(T::dec_len(stream) as int),
        (n - 1) as nat,
    ))
}

/// How many bytes `n` consecutive records of `T` at the front of the
/// stream occupy.
pub open spec fn elems_len<T: Persist>(stream: Seq<u8>, n: nat) -> nat
    decreases n,
{
    if n == 0 {
        0
    } else {
        T::dec_len(stream) + elems_len::<T>(stream.skip(T::dec_len(stream) as int), (n - 1) as nat)
    }
}

/// Appending a value to a sequence appends its encoding.
pub proof fn lemma_seq_enc_push<T: Persist>(s: Seq<T>, v: T)
    ensures
        seq_enc(s.push(v)) == seq_enc(s) + v.enc(),
    decreases s.len(),
{
    let single = s.push(v);
    if s.len() == 0 {
        assert(single[0] == v);
        assert(single.drop_first() =~= Seq::<T>::empty());
        assert(seq_enc(single.drop_first()) =~= Seq::<u8>::empty());
        assert(seq_enc(single) =~= v.enc() + seq_enc(single.drop_first()));
        assert(seq_enc(s) =~= Seq::<u8>::empty());
        assert(seq_enc(single) =~= seq_enc(s) + v.enc());
    } else {
        assert(single[0] == s[0]);
        assert(single.drop_first() =~= s.drop_first().push(v));
        lemma_seq_enc_push(s.drop_first(), v);
        assert(seq_enc(single) =~= seq_enc(s) + v.enc());
    }
}

/// The encoding of a sequence splits at any index: the elements before
/// it, then the elements from it on.
pub proof fn lemma_seq_enc_split<T: Persist>(s: Seq<T>, i: int)
    requires
        0 <= i <= s.len(),
    ensures
        seq_enc(s) == seq_enc(s.take(i)) + seq_enc(s.skip(i)),
    decreases i,
{
    if i == 0 {
        assert(s.take(0) =~= Seq::<T>::empty());
        assert(seq_enc(s.take(0)) =~= Seq::<u8>::empty());
        assert(s.skip(0) =~= s);
        assert(seq_enc(s.take(0)) + seq_enc(s.skip(0)) =~= seq_enc(s));
    } else {
        let rest = s.drop_first();
        lemma_seq_enc_split(rest, i - 1);
        assert(s.take(i)[0] == s[0]);
        assert(s.take(i).drop_first() =~= rest.take(i - 1));
        assert(rest.skip(i - 1) =~= s.skip(i));
        assert(seq_enc(s.take(i)) == s[0].enc() + seq_enc(s.take(i).drop_first()));
        assert(seq_enc(s) == s[0].enc() + seq_enc(rest));
        assert(seq_enc(s.take(i)) + seq_enc(s.skip(i)) =~= seq_enc(s));
    }
}

/// The encodings of a sequence of encodable values decode, element after
/// element, and occupy exactly their own bytes.
pub proof fn lemma_seq_enc_decodes<T: Persist>(s: Seq<T>, tail: Seq<u8>)
    requires
        seq_encodable(s),
    ensures
        elems_decode::<T>(seq_enc(s) + tail, s.len()),
        elems_len::<T>(seq_enc(s) + tail, s.len()) == seq_enc(s).len(),
    decreases s.len(),
{
    if s.len() == 0 {
        assert(seq_enc(s).len() == 0);
    } else {
        let head = s[0];
        let rest = s.drop_first();
        let stream = seq_enc(s) + tail;
        assert(seq_enc(s) == head.enc() + seq_enc(rest));
        assert(stream =~= head.enc() + (seq_enc(rest) + tail));
        head.lemma_enc_decodes(seq_enc(rest) + tail);
        assert(stream.skip(head.enc().len() as int) =~= seq_enc(rest) + tail);
        assert forall|i: int| 0 <= i < rest.len() implies (#[trigger] rest[i]).encodable() by {
            assert(rest[i] == s[i + 1]);
        }
        lemma_seq_enc_decodes(rest, tail);
    }
}

/// Sequences of equal length whose encodings concatenate to the same
/// bytes hold the same data, element for element.
pub proof fn lemma_seq_enc_injective<T: Persist>(a: Seq<T>, b: Seq<T>)
    requires
        seq_encodable(a),
        seq_encodable(b),
        a.len() == b.len(),
        seq_enc(a) == seq_enc(b),
    ensures
        forall|i: int|
            0 <= i < a.len() ==> #[trigger] a[i].deep_view() == b[i].deep_view(),
    decreases a.len(),
{
    if a.len() > 0 {
        let ha = a[0];
        let hb = b[0];
        let ra = a.drop_first();
        let rb = b.drop_first();
        let s = seq_enc(a);
        assert(s == ha.enc() + seq_enc(ra));
        assert(seq_enc(b) == hb.enc() + seq_enc(rb));
        ha.lemma_enc_decodes(seq_enc(ra));
        hb.lemma_enc_decodes(seq_enc(rb));
        assert(ha.enc().len() == T::dec_len(s) == hb.enc().len());
        assert(ha.enc() =~= s.take(ha.enc().len() as int));
        assert(hb.enc() =~= s.take(hb.enc().len() as int));
        T::lemma_enc_injective(&ha, &hb);
        assert(seq_enc(ra) =~= s.skip(ha.enc().len() as int));
        assert(seq_enc(rb) =~= s.skip(hb.enc().len() as int));
        assert forall|i: int| 0 <= i < ra.len() implies (#[trigger] ra[i]).encodable() by {
            assert(ra[i] == a[i + 1]);
        }
        assert forall|i: int| 0 <= i < rb.len() implies (#[trigger] rb[i]).encodable() by {
            assert(rb[i] == b[i + 1]);
        }
        lemma_seq_enc_injective(ra, rb);
        assert forall|i: int|
            0 <= i < a.len() implies #[trigger] a[i].deep_view() == b[i].deep_view() by {
            if i > 0 {
                assert(a[i] == ra[i - 1]);
                assert(b[i] == rb[i - 1]);
                assert(ra[i - 1].deep_view() == rb[i - 1].deep_view());
            }
        }
    }
}

// Sequences are persisted as a 4-byte length prefix followed by each
// element's encoding, in order.
impl<T: Persist> Persist for Vec<T> {
    open spec fn enc(&self) -> Seq<u8> {
        le_bytes(self@.len(), 4) + seq_enc(self@)
    }

    open spec fn encodable(&self) -> bool {
        self@.len() <= u32::MAX && seq_encodable(self@)
    }

    open spec fn decodes(stream: Seq<u8>) -> bool {
        &&& stream.len() >= 4
        &&& le_value(stream.take(4)) <= usize::MAX as nat
        &&& elems_decode::<T>(stream.skip(4), le_value(stream.take(4)))
    }

    open spec fn dec_len(stream: Seq<u8>) -> nat {
        4 + elems_len::<T>(stream.skip(4), le_value(stream.take(4)))
    }

    proof fn lemma_enc_decodes(&self, tail: Seq<u8>) {
        let n = self@.len();
        let body = seq_enc(self@);
        let s = self.enc() + tail;
        lemma_pow256_widths();
        lemma_le_bytes_len(n, 4);
        assert(s.take(4) =~= le_bytes(n, 4));
        lemma_le_value_of_le_bytes(n, 4);
        assert(s.skip(4) =~= body + tail);
        lemma_seq_enc_decodes(self@, tail);
    }

    proof fn lemma_enc_injective(a: &Self, b: &Self) {
        lemma_pow256_widths();
        lemma_le_bytes_len(a@.len(), 4);
        lemma_le_bytes_len(b@.len(), 4);
        assert(a.enc().take(4) =~= le_bytes(a@.len(), 4));
        assert(b.enc().take(4) =~= le_bytes(b@.len(), 4));
        lemma_le_bytes_injective(a@.len(), b@.len(), 4);
        assert(seq_enc(a@) =~= a.enc().skip(4));
        assert(seq_enc(b@) =~= b.enc().skip(4));
        lemma_seq_enc_injective(a@, b@);
        assert(a.deep_view() =~= b.deep_view());
    }

    #[verifier::loop_isolation(false)]
    fn read<R: ByteSource>(r: &mut PersistReader<R>) -> (res: Result<Self, PersistError>) {
        let ghost pre = *r;
        let len = match <usize as Persist>::read(r) {
            Ok(l) => l,
            Err(e) => {
                return Err(e);
            },
        };
        proof {
            lemma_pow256_widths();
            lemma_le_bytes_len(len as nat, 4);
            lemma_le_value_of_le_bytes(len as nat, 4);
        }
        let mut out: Vec<T> = Vec::with_capacity(len);
        let mut k: usize = 0;
        proof {
            assert(seq_enc(out@) =~= pre.avail().skip(4).take(0));
            assert(r.avail() =~= pre.avail().skip(4int + 0));
        }
        while k < len
            invariant
                k <= len,
                out@.len() == k,
                seq_encodable(out@),
                4 + seq_enc(out@).len() <= pre.avail().len(),
                seq_enc(out@) == pre.avail().skip(4).take(seq_enc(out@).len() as int),
                r.avail() == pre.avail().skip(4 + seq_enc(out@).len() as int),
                r.progresses() == pre.progresses(),
                elems_decode::<T>(pre.avail().skip(4), len as nat) ==> elems_decode::<T>(
                    r.avail(),
                    (len - k) as nat,
                ),
            decreases len - k,
        {
            let ghost cur = r.avail();
            let v = match T::read(r) {
                Ok(v) => v,
                Err(e) => {
                    proof {
                        if pre.progresses() && elems_decode::<T>(
                            pre.avail().skip(4),
                            len as nat,
                        ) {
                            assert(elems_decode::<T>(cur, (len - k) as nat));
                            assert(T::decodes(cur));
                        }
                    }
                    return Err(e);
                },
            };
            proof {
                let l0 = seq_enc(out@).len() as int;
                let lv = v.enc().len() as int;
                lemma_seq_enc_push(out@, v);
                assert(seq_enc(out@.push(v)) =~= pre.avail().skip(4).take(l0 + lv));
                assert(r.avail() =~= pre.avail().skip(4 + (l0 + lv)));
                if elems_decode::<T>(pre.avail().skip(4), len as nat) {
                    assert(elems_decode::<T>(cur, (len - k) as nat));
                    assert(cur =~= v.enc() + cur.skip(lv));
                    v.lemma_enc_decodes(cur.skip(lv));
                    assert(T::dec_len(cur) == lv);
                    assert(elems_decode::<T>(r.avail(), (len - (k + 1)) as nat));
                }
                assert forall|i: int|
                    0 <= i < out@.push(v).len() implies (#[trigger] out@.push(v)[i]).encodable() by {
                    if i < out@.len() {
                        assert(out@.push(v)[i] == out@[i]);
                    } else {
                        assert(out@.push(v)[i] == v);
                    }
                }
            }
            out.push(v);
            k = k + 1;
        }
        proof {
            let l = seq_enc(out@).len() as int;
            assert(out.enc() =~= pre.avail().take(4 + l));
            assert(out.enc().len() == 4 + l);
            assert(r.avail() =~= pre.avail().skip(4 + l));
        }
        Ok(out)
    }

    #[verifier::loop_isolation(false)]
    fn write<W: ByteSink>(&self, w: &mut PersistWriter<W>) -> (res: Result<(), PersistError>) {
        let ghost pre = *w;
        let len: usize = self.len();
        if len > u32::MAX as usize {
            // the range error is raised before a single byte is written
            proof {
                assert(self.enc().take(0) =~= Seq::<u8>::empty());
                assert(w.sent() + self.enc().take(0) =~= w.sent());
            }
            return Err(PersistError::IndexTooLarge);
        }
        proof {
            lemma_pow256_widths();
            lemma_le_bytes_len(len as nat, 4);
        }
        match write_le_uint(w, len as u128, 4) {
            Ok(()) => {},
            Err(e) => {
                proof {
                    let k = choose|k: int|
                        0 <= k < 4 && w.sent() == pre.sent() + #[trigger] le_bytes(
                            (len as u128) as nat,
                            4,
                        ).take(k);
                    assert(self.enc().take(k) =~= le_bytes(len as nat, 4).take(k));
                    assert(w.sent() == pre.sent() + self.enc().take(k));
                }
                return Err(e);
            },
        }
        proof {
            assert(self@.take(0) =~= Seq::<T>::empty());
            assert(seq_enc(self@.take(0)) =~= Seq::<u8>::empty());
            assert(w.sent() =~= pre.sent() + le_bytes(len as nat, 4) + seq_enc(self@.take(0)));
        }
        let mut k: usize = 0;
        while k < len
            invariant
                k <= len,
                seq_encodable(self@.take(k as int)),
                w.sent() == pre.sent() + le_bytes(len as nat, 4) + seq_enc(self@.take(k as int)),
                w.accepts() == pre.accepts(),
            decreases len - k,
        {
            let ghost sent0 = w.sent();
            match self[k].write(w) {
                Ok(()) => {},
                Err(e) => {
                    proof {
                        if e == PersistError::IndexTooLarge {
                            assert(!self@[k as int].encodable());
                        }
                        let elem = self@[k as int];
                        let j = choose|j: int|
                            0 <= j <= elem.enc().len() && w.sent() == sent0
                                + #[trigger] elem.enc().take(j);
                        lemma_seq_enc_split(self@, k as int);
                        assert(self@.skip(k as int)[0] == elem);
                        assert(seq_enc(self@.skip(k as int)) == elem.enc() + seq_enc(
                            self@.skip(k as int).drop_first(),
                        ));
                        assert(self.enc() =~= le_bytes(len as nat, 4) + seq_enc(
                            self@.take(k as int),
                        ) + elem.enc() + seq_enc(self@.skip(k as int).drop_first()));
                        let kk = 4 + seq_enc(self@.take(k as int)).len() as int + j;
                        assert(w.sent() =~= pre.sent() + self.enc().take(kk));
                    }
                    return Err(e);
                },
            }
            proof {
                lemma_seq_enc_push(self@.take(k as int), self@[k as int]);
                assert(self@.take(k + 1) =~= self@.take(k as int).push(self@[k as int]));
                assert(w.sent() =~= pre.sent() + le_bytes(len as nat, 4) + seq_enc(
                    self@.take(k + 1),
                ));
                assert forall|i: int|
                    0 <= i < k + 1 implies (#[trigger] self@.take(k + 1)[i]).encodable() by {
                    if i < k {
                        assert(self@.take(k + 1)[i] == self@.take(k as int)[i]);
                    } else {
                        assert(self@.take(k + 1)[i] == self@[k as int]);
                    }
                }
            }
            k = k + 1;
        }
        proof {
            assert(self@.take(len as int) =~= self@);
            assert(seq_encodable(self@));
            assert(w.sent() =~= pre.sent() + self.enc());
        }
        Ok(())
    }
}

/// Law: decoding is the inverse of encoding.  If a stream begins with the
/// encoding of `x`, the only value a conforming decoder can return is `x`
/// itself: any `v` whose encoding is the prefix the decoder consumed
/// carries the same data as `x`, and consumed exactly `x`'s bytes.
pub proof fn lemma_round_trip<T: Persist>(x: &T, v: &T, tail: Seq<u8>)
    requires
        x.encodable(),
        v.encodable(),
        v.enc().len() <= x.enc().len() + tail.len(),
        v.enc() == (x.enc() + tail).take(v.enc().len() as int),
    ensures
        v.deep_view() == x.deep_view(),
        v.enc() == x.enc(),
{
    let s = x.enc() + tail;
    x.lemma_enc_decodes(tail);
    assert(s =~= v.enc() + s.skip(v.enc().len() as int));
    v.lemma_enc_decodes(s.skip(v.enc().len() as int));
    assert(v.enc().len() == T::dec_len(s) == x.enc().len());
    assert(v.enc() =~= x.enc());
    T::lemma_enc_injective(v, x);
}

/// Encode a value into a fresh byte buffer: exactly its encoding.
pub fn encode_value<T: Persist>(value: &T) -> (res: Result<Vec<u8>, PersistError>)
    ensures
        match res {
            Ok(out) => value.encodable() && out@ == value.enc(),
            Err(e) => !value.encodable() && is_write_error(e),
        },
{
    let sink = MemSink::new(usize::MAX);
    let mut w = PersistWriter::new(sink);
    match value.write(&mut w) {
        Ok(()) => {
            let sink = w.into_sink();
            Ok(sink.into_bytes())
        },
        Err(e) => Err(e),
    }
}

/// Decode a value from the front of a byte buffer.  Bytes after the
/// record are left alone, as a stream reader would leave them unread.
pub fn decode_value<T: Persist>(bytes: Vec<u8>) -> (res: Result<T, PersistError>)
    ensures
        match res {
            Ok(v) => {
                &&& v.encodable()
                &&& v.enc().len() <= bytes@.len()
                &&& v.enc() == bytes@.take(v.enc().len() as int)
            },
            Err(e) => !T::decodes(bytes@) && is_read_error(e),
        },
{
    let src = MemSource::new(bytes, usize::MAX);
    let mut r = PersistReader::new(src);
    T::read(&mut r)
}

/// Law, executably: decoding the encoding of any encodable value gives
/// the value back.
pub fn round_trip<T: Persist>(x: &T) -> (res: Result<T, PersistError>)
    ensures
        match res {
            Ok(v) => v.deep_view() == x.deep_view() && v.enc() == x.enc(),
            Err(e) => !x.encodable() && is_write_error(e),
        },
{
    let bytes = match encode_value(x) {
        Ok(b) => b,
        Err(e) => {
            return Err(e);
        },
    };
    match decode_value::<T>(bytes) {
        Ok(v) => {
            proof {
                assert(x.enc() + Seq::<u8>::empty() =~= x.enc());
                lemma_round_trip(x, &v, Seq::empty());
            }
            Ok(v)
        },
        Err(e) => {
            proof {
                x.lemma_enc_decodes(Seq::empty());
                assert(x.enc() + Seq::<u8>::empty() =~= x.enc());
            }
            Err(e)
        },
    }
}

} // verus!
