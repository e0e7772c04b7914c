//! The versioned persistence protocol and the keyboard preference record.
//!
//! Every persisted aggregate is written behind a 2-byte version tag: the
//! writer always emits the current version, the reader dispatches on the
//! tag to the decoder registered for that exact version, and an unknown
//! tag is rejected before any payload byte is touched.  The keyboard
//! preference record is the one aggregate persisted today: four key
//! identifiers in up-down-left-right order, stored as a fixed array —
//! each element's 4-byte encoding concatenated, with no length prefix.

use vstd::prelude::*;

use crate::channel::{ByteSink, ByteSource, PersistReader, PersistWriter};
use crate::codec::{lemma_pow256_widths, Persist};
use crate::error::PersistError;
use crate::wire::{
    le_bytes, le_value, lemma_le_bytes_injective, lemma_le_bytes_len, lemma_le_value_of_le_bytes,
};

verus! {

/// The version under which keyboard preferences are currently written.
/// Every version from zero up to this one must keep a working decoder
/// registered in `InputKeyboardPref::read_record` indefinitely.
pub const INPUT_KEYBOARD_PREF_VERSION: u16 = 0;

/// A 4-byte platform key identifier, persisted verbatim.
#[derive(Clone, Copy, Debug, PartialEq, Eq, Structural)]
pub struct KeyId(pub u32);

impl DeepView for KeyId {
    type V = KeyId;

    open spec fn deep_view(&self) -> KeyId {
        *self
    }
}

impl Persist for KeyId {
    open spec fn enc(&self) -> Seq<u8> {
        le_bytes(self.0 as nat, 4)
    }

    open spec fn encodable(&self) -> bool {
        true
    }

    open spec fn decodes(stream: Seq<u8>) -> bool {
        stream.len() >= 4
    }

    open spec fn dec_len(stream: Seq<u8>) -> nat {
        4
    }

    proof fn lemma_enc_decodes(&self, tail: Seq<u8>) {
        lemma_le_bytes_len(self.0 as nat, 4);
    }

    proof fn lemma_enc_injective(a: &Self, b: &Self) {
        lemma_pow256_widths();
        lemma_le_bytes_injective(a.0 as nat, b.0 as nat, 4);
    }

    fn read<R: ByteSource>(r: &mut PersistReader<R>) -> (res: Result<Self, PersistError>) {
        match <u32 as Persist>::read(r) {
            Ok(code) => Ok(KeyId(code)),
            Err(e) => Err(e),
        }
    }

    fn write<W: ByteSink>(&self, w: &mut PersistWriter<W>) -> (res: Result<(), PersistError>) {
        let ghost pre = *w;
        let res = <u32 as Persist>::write(&self.0, w);
        proof {
            assert(self.0.enc() == self.enc());
            if res is Err {
                let k = choose|k: int|
                    0 <= k <= self.0.enc().len() && w.sent() == pre.sent()
                        + #[trigger] self.0.enc().take(k);
                assert(w.sent() == pre.sent() + self.enc().take(k));
            }
        }
        res
    }
}

/// The key codes of the compiled-in default bindings: the letters
/// W, S, A and D.
pub const KEY_CODE_W: u32 = 0x77;

pub const KEY_CODE_S: u32 = 0x73;

pub const KEY_CODE_A: u32 = 0x61;

pub const KEY_CODE_D: u32 = 0x64;

/// The persisted keyboard preference: one key identifier for each of the
/// four movement directions.
#[derive(Clone, Copy, Debug, PartialEq, Eq, Structural)]
pub struct InputKeyboardPref {
    pub up: KeyId,
    pub down: KeyId,
    pub left: KeyId,
    pub right: KeyId,
}

impl DeepView for InputKeyboardPref {
    type V = InputKeyboardPref;

    open spec fn deep_view(&self) -> InputKeyboardPref {
        *self
    }
}

/// The compiled-in default bindings: W up, S down, A left, D right.
pub open spec fn default_keyboard_pref() -> InputKeyboardPref {
    InputKeyboardPref {
        up: KeyId(KEY_CODE_W),
        down: KeyId(KEY_CODE_S),
        left: KeyId(KEY_CODE_A),
        right: KeyId(KEY_CODE_D),
    }
}

impl Default for InputKeyboardPref {
    fn default() -> (d: Self)
        ensures
            d == default_keyboard_pref(),
    {
        InputKeyboardPref {
            up: KeyId(KEY_CODE_W),
            down: KeyId(KEY_CODE_S),
            left: KeyId(KEY_CODE_A),
            right: KeyId(KEY_CODE_D),
        }
    }
}

impl InputKeyboardPref {
    /// The version-0 payload: the four key encodings concatenated, in
    /// order, with no length prefix (the count is part of the type).
    pub open spec fn payload_enc(&self) -> Seq<u8> {
        self.up.enc() + self.down.enc() + self.left.enc() + self.right.enc()
    }

    /// Read a tagged record: the version tag, then the payload decoded by
    /// the decoder registered for that version.  A tag above the current
    /// version fails as unsupported, with the payload left unread.
    pub fn read_record<R: ByteSource>(r: &mut PersistReader<R>) -> (res: Result<
        Self,
        PersistError,
    >)
        ensures
            match res {
                Ok(v) => {
                    &&& v.enc().len() == 18
                    &&& old(r).avail().len() >= 18
                    &&& v.enc() == old(r).avail().take(18)
                    &&& final(r).avail() == old(r).avail().skip(18)
                },
                Err(e) => {
                    &&& old(r).progresses() ==> !Self::decodes(old(r).avail())
                    &&& match e {
                        PersistError::UnsupportedVersion(ver) => {
                            &&& old(r).avail().len() >= 2
                            &&& le_value(old(r).avail().take(2)) == ver as nat
                            &&& ver != INPUT_KEYBOARD_PREF_VERSION
                            &&& final(r).avail() == old(r).avail().skip(2)
                        },
                        PersistError::UnexpectedEof => old(r).progresses() ==> (old(
                            r,
                        ).avail().len() < 2 || (le_value(old(r).avail().take(2))
                            == INPUT_KEYBOARD_PREF_VERSION as nat && old(r).avail().len() < 18)),
                        _ => false,
                    }
                },
            },
            final(r).progresses() == old(r).progresses(),
    {
        let ghost pre = *r;
        let tag_wide = match crate::codec::read_le_uint(r, 2) {
            Ok(t) => t,
            Err(e) => {
                return Err(e);
            },
        };
        proof {
            lemma_pow256_widths();
        }
        let tag: u16 = tag_wide as u16;
        // The registry of historical decoders: one arm for every version
        // ever written.  Only version zero exists so far.
        match tag {
            0 => Self::read_versioned(r, Ghost(pre)),
            ver => Err(PersistError::UnsupportedVersion(ver)),
        }
    }

    /// The version-0 decoder: the four keys, in up-down-left-right order.
    fn read_versioned<R: ByteSource>(r: &mut PersistReader<R>, Ghost(pre): Ghost<
        PersistReader<R>,
    >) -> (res: Result<Self, PersistError>)
        requires
            pre.avail().len() >= 2,
            pre.avail().take(2) == le_bytes(0, 2),
            old(r).avail() == pre.avail().skip(2),
            old(r).progresses() == pre.progresses(),
        ensures
            match res {
                Ok(v) => {
                    &&& v.enc().len() == 18
                    &&& pre.avail().len() >= 18
                    &&& v.enc() == pre.avail().take(18)
                    &&& final(r).avail() == pre.avail().skip(18)
                    &&& v.payload_enc() == old(r).avail().take(16)
                    &&& final(r).avail() == old(r).avail().skip(16)
                },
                Err(e) => {
                    &&& e == PersistError::UnexpectedEof
                    &&& pre.progresses() ==> pre.avail().len() < 18
                },
            },
            final(r).progresses() == old(r).progresses(),
    {
        let up = match Self::read_key(r) {
            Ok(k) => k,
            Err(e) => {
                return Err(e);
            },
        };
        let down = match Self::read_key(r) {
            Ok(k) => k,
            Err(e) => {
                return Err(e);
            },
        };
        let left = match Self::read_key(r) {
            Ok(k) => k,
            Err(e) => {
                return Err(e);
            },
        };
        let right = match Self::read_key(r) {
            Ok(k) => k,
            Err(e) => {
                return Err(e);
            },
        };
        let v = InputKeyboardPref { up, down, left, right };
        proof {
            assert(v.enc() =~= pre.avail().take(18));
            assert(r.avail() =~= pre.avail().skip(18));
            assert(v.payload_enc() =~= pre.avail().skip(2).take(16));
            assert(r.avail() =~= pre.avail().skip(2).skip(16));
        }
        Ok(v)
    }

    /// Read one 4-byte key identifier.
    fn read_key<R: ByteSource>(r: &mut PersistReader<R>) -> (res: Result<KeyId, PersistError>)
        ensures
            match res {
                Ok(k) => {
                    &&& k.enc().len() == 4
                    &&& old(r).avail().len() >= 4
                    &&& k.enc() == old(r).avail().take(4)
                    &&& final(r).avail() == old(r).avail().skip(4)
                },
                Err(e) => {
                    &&& e == PersistError::UnexpectedEof
                    &&& old(r).progresses() ==> old(r).avail().len() < 4
                },
            },
            final(r).progresses() == old(r).progresses(),
    {
        match crate::codec::read_le_uint(r, 4) {
            Ok(code) => {
                proof {
                    lemma_pow256_widths();
                    lemma_le_bytes_len(code as nat, 4);
                }
                Ok(KeyId(code as u32))
            },
            Err(e) => Err(e),
        }
    }

    /// Write a tagged record: always the current version's tag, then the
    /// current version's payload.
    pub fn write_record<W: ByteSink>(&self, w: &mut PersistWriter<W>) -> (res: Result<
        (),
        PersistError,
    >)
        ensures
            match res {
                Ok(()) => final(w).sent() == old(w).sent() + self.enc(),
                Err(e) => {
                    &&& e == PersistError::WriteZero
                    &&& !old(w).accepts()
                    &&& exists|k: int|
                        0 <= k <= 18 && final(w).sent() == old(w).sent() + self.enc().take(k)
                },
            },
            final(w).accepts() == old(w).accepts(),
    {
        let ghost pre = *w;
        let tag: u16 = INPUT_KEYBOARD_PREF_VERSION;
        match <u16 as Persist>::write(&tag, w) {
            Ok(()) => {},
            Err(e) => {
                proof {
                    lemma_le_bytes_len(tag as nat, 2);
                    let k = choose|k: int|
                        0 <= k <= tag.enc().len() && w.sent() == pre.sent()
                            + #[trigger] tag.enc().take(k);
                    assert(self.enc().take(k) =~= tag.enc().take(k));
                    assert(w.sent() == pre.sent() + self.enc().take(k));
                }
                return Err(e);
            },
        }
        self.write_versioned(w, Ghost(pre))
    }

    /// Write one 4-byte key identifier.
    fn write_key<W: ByteSink>(w: &mut PersistWriter<W>, key: KeyId) -> (res: Result<
        (),
        PersistError,
    >)
        ensures
            match res {
                Ok(()) => final(w).sent() == old(w).sent() + key.enc(),
                Err(e) => {
                    &&& e == PersistError::WriteZero
                    &&& !old(w).accepts()
                    &&& exists|j: int|
                        0 <= j < 4 && final(w).sent() == old(w).sent() + key.enc().take(j)
                },
            },
            final(w).accepts() == old(w).accepts(),
    {
        let ghost pre = *w;
        proof {
            lemma_pow256_widths();
            lemma_le_bytes_len(key.0 as nat, 4);
        }
        let res = crate::codec::write_le_uint(w, key.0 as u128, 4);
        proof {
            if res is Err {
                let j = choose|j: int|
                    0 <= j < 4 && w.sent() == pre.sent() + #[trigger] le_bytes(
                        (key.0 as u128) as nat,
                        4,
                    ).take(j);
                assert(w.sent() == pre.sent() + key.enc().take(j));
            }
        }
        res
    }

    /// The version-0 encoder: the four keys, in up-down-left-right order —
    /// a fixed-size array on disk, each element's encoding concatenated,
    /// with no length prefix.
    fn write_versioned<W: ByteSink>(&self, w: &mut PersistWriter<W>, Ghost(pre): Ghost<
        PersistWriter<W>,
    >) -> (res: Result<(), PersistError>)
        requires
            old(w).sent() == pre.sent() + le_bytes(INPUT_KEYBOARD_PREF_VERSION as nat, 2),
            old(w).accepts() == pre.accepts(),
        ensures
            match res {
                Ok(()) => {
                    &&& final(w).sent() == pre.sent() + self.enc()
                    &&& final(w).sent() == old(w).sent() + self.payload_enc()
                },
                Err(e) => {
                    &&& e == PersistError::WriteZero
                    &&& !pre.accepts()
                    &&& exists|k: int|
                        0 <= k <= 18 && final(w).sent() == pre.sent() + self.enc().take(k)
                },
            },
            final(w).accepts() == pre.accepts(),
    {
        proof {
            lemma_le_bytes_len(INPUT_KEYBOARD_PREF_VERSION as nat, 2);
            lemma_le_bytes_len(self.up.0 as nat, 4);
            lemma_le_bytes_len(self.down.0 as nat, 4);
            lemma_le_bytes_len(self.left.0 as nat, 4);
            lemma_le_bytes_len(self.right.0 as nat, 4);
        }
        match Self::write_key(w, self.up) {
            Ok(()) => {},
            Err(e) => {
                proof {
                    let j = choose|j: int|
                        0 <= j < 4 && w.sent() == (pre.sent() + le_bytes(
                            INPUT_KEYBOARD_PREF_VERSION as nat,
                            2,
                        )) + #[trigger] self.up.enc().take(j);
                    assert(w.sent() =~= pre.sent() + self.enc().take(2 + j));
                }
                return Err(e);
            },
        }
        match Self::write_key(w, self.down) {
            Ok(()) => {},
            Err(e) => {
                proof {
                    let j = choose|j: int|
                        0 <= j < 4 && w.sent() == (pre.sent() + le_bytes(
                            INPUT_KEYBOARD_PREF_VERSION as nat,
                            2,
                        ) + self.up.enc()) + #[trigger] self.down.enc().take(j);
                    assert(w.sent() =~= pre.sent() + self.enc().take(6 + j));
                }
                return Err(e);
            },
        }
        match Self::write_key(w, self.left) {
            Ok(()) => {},
            Err(e) => {
                proof {
                    let j = choose|j: int|
                        0 <= j < 4 && w.sent() == (pre.sent() + le_bytes(
                            INPUT_KEYBOARD_PREF_VERSION as nat,
                            2,
                        ) + self.up.enc() + self.down.enc()) + #[trigger] self.left.enc().take(j);
                    assert(w.sent() =~= pre.sent() + self.enc().take(10 + j));
                }
                return Err(e);
            },
        }
        match Self::write_key(w, self.right) {
            Ok(()) => {},
            Err(e) => {
                proof {
                    let j = choose|j: int|
                        0 <= j < 4 && w.sent() == (pre.sent() + le_bytes(
                            INPUT_KEYBOARD_PREF_VERSION as nat,
                            2,
                        ) + self.up.enc() + self.down.enc() + self.left.enc())
                            + #[trigger] self.right.enc().take(j);
                    assert(w.sent() =~= pre.sent() + self.enc().take(14 + j));
                }
                return Err(e);
            },
        }
        proof {
            assert(w.sent() =~= pre.sent() + self.enc());
            assert(w.sent() =~= (pre.sent() + le_bytes(INPUT_KEYBOARD_PREF_VERSION as nat, 2))
                + self.payload_enc());
        }
        Ok(())
    }
}

/// Law: the payload alone determines the record.  Two preferences whose
/// version-0 payloads spell the same bytes hold the same four keys, so
/// decoding a payload can reproduce only the record that wrote it.
pub proof fn lemma_payload_injective(a: InputKeyboardPref, b: InputKeyboardPref)
    requires
        a.payload_enc() == b.payload_enc(),
    ensures
        a == b,
{
    lemma_pow256_widths();
    lemma_le_bytes_len(a.up.0 as nat, 4);
    lemma_le_bytes_len(a.down.0 as nat, 4);
    lemma_le_bytes_len(a.left.0 as nat, 4);
    lemma_le_bytes_len(a.right.0 as nat, 4);
    lemma_le_bytes_len(b.up.0 as nat, 4);
    lemma_le_bytes_len(b.down.0 as nat, 4);
    lemma_le_bytes_len(b.left.0 as nat, 4);
    lemma_le_bytes_len(b.right.0 as nat, 4);
    assert(a.up.enc() =~= a.payload_enc().subrange(0, 4));
    assert(a.down.enc() =~= a.payload_enc().subrange(4, 8));
    assert(a.left.enc() =~= a.payload_enc().subrange(8, 12));
    assert(a.right.enc() =~= a.payload_enc().subrange(12, 16));
    assert(b.up.enc() =~= b.payload_enc().subrange(0, 4));
    assert(b.down.enc() =~= b.payload_enc().subrange(4, 8));
    assert(b.left.enc() =~= b.payload_enc().subrange(8, 12));
    assert(b.right.enc() =~= b.payload_enc().subrange(12, 16));
    lemma_le_bytes_injective(a.up.0 as nat, b.up.0 as nat, 4);
    lemma_le_bytes_injective(a.down.0 as nat, b.down.0 as nat, 4);
    lemma_le_bytes_injective(a.left.0 as nat, b.left.0 as nat, 4);
    lemma_le_bytes_injective(a.right.0 as nat, b.right.0 as nat, 4);
}

/// Law: every persisted record leads with the current version tag, so a
/// reader always knows which historical decoder the payload belongs to.
pub proof fn lemma_record_leads_with_current_tag(p: InputKeyboardPref)
    ensures
        p.enc().len() >= 2,
        p.enc().take(2) == le_bytes(INPUT_KEYBOARD_PREF_VERSION as nat, 2),
        le_value(p.enc().take(2)) == INPUT_KEYBOARD_PREF_VERSION as nat,
{
    lemma_pow256_widths();
    lemma_le_bytes_len(INPUT_KEYBOARD_PREF_VERSION as nat, 2);
    assert(p.enc().take(2) =~= le_bytes(INPUT_KEYBOARD_PREF_VERSION as nat, 2));
    lemma_le_value_of_le_bytes(INPUT_KEYBOARD_PREF_VERSION as nat, 2);
}

// The record is persisted behind its version tag: tag, then payload.
impl Persist for InputKeyboardPref {
    open spec fn enc(&self) -> Seq<u8> {
        le_bytes(INPUT_KEYBOARD_PREF_VERSION as nat, 2) + self.payload_enc()
    }

    open spec fn encodable(&self) -> bool {
        true
    }

    open spec fn decodes(stream: Seq<u8>) -> bool {
        &&& stream.len() >= 18
        &&& le_value(stream.take(2)) == INPUT_KEYBOARD_PREF_VERSION as nat
    }

    open spec fn dec_len(stream: Seq<u8>) -> nat {
        18
    }

    proof fn lemma_enc_decodes(&self, tail: Seq<u8>) {
        lemma_pow256_widths();
        lemma_le_bytes_len(INPUT_KEYBOARD_PREF_VERSION as nat, 2);
        lemma_le_bytes_len(self.up.0 as nat, 4);
        lemma_le_bytes_len(self.down.0 as nat, 4);
        lemma_le_bytes_len(self.left.0 as nat, 4);
        lemma_le_bytes_len(self.right.0 as nat, 4);
        let s = self.enc() + tail;
        assert(s.take(2) =~= le_bytes(INPUT_KEYBOARD_PREF_VERSION as nat, 2));
        lemma_le_value_of_le_bytes(INPUT_KEYBOARD_PREF_VERSION as nat, 2);
    }

    proof fn lemma_enc_injective(a: &Self, b: &Self) {
        lemma_pow256_widths();
        lemma_le_bytes_len(a.up.0 as nat, 4);
        lemma_le_bytes_len(a.down.0 as nat, 4);
        lemma_le_bytes_len(a.left.0 as nat, 4);
        lemma_le_bytes_len(a.right.0 as nat, 4);
        lemma_le_bytes_len(b.up.0 as nat, 4);
        lemma_le_bytes_len(b.down.0 as nat, 4);
        lemma_le_bytes_len(b.left.0 as nat, 4);
        lemma_le_bytes_len(b.right.0 as nat, 4);
        lemma_le_bytes_len(INPUT_KEYBOARD_PREF_VERSION as nat, 2);
        assert(a.up.enc() =~= a.enc().subrange(2, 6));
        assert(a.down.enc() =~= a.enc().subrange(6, 10));
        assert(a.left.enc() =~= a.enc().subrange(10, 14));
        assert(a.right.enc() =~= a.enc().subrange(14, 18));
        assert(b.up.enc() =~= b.enc().subrange(2, 6));
        assert(b.down.enc() =~= b.enc().subrange(6, 10));
        assert(b.left.enc() =~= b.enc().subrange(10, 14));
        assert(b.right.enc() =~= b.enc().subrange(14, 18));
        lemma_le_bytes_injective(a.up.0 as nat, b.up.0 as nat, 4);
        lemma_le_bytes_injective(a.down.0 as nat, b.down.0 as nat, 4);
        lemma_le_bytes_injective(a.left.0 as nat, b.left.0 as nat, 4);
        lemma_le_bytes_injective(a.right.0 as nat, b.right.0 as nat, 4);
    }

    fn read<R: ByteSource>(r: &mut PersistReader<R>) -> (res: Result<Self, PersistError>) {
        let ghost pre = *r;
        match Self::read_record(r) {
            Ok(v) => Ok(v),
            Err(e) => {
                proof {
                    if pre.progresses() {
                        if let PersistError::UnsupportedVersion(ver) = e {
                            assert(le_value(pre.avail().take(2)) == ver as nat);
                            assert(!Self::decodes(pre.avail()));
                        }
                    }
                }
                Err(e)
            },
        }
    }

    fn write<W: ByteSink>(&self, w: &mut PersistWriter<W>) -> (res: Result<(), PersistError>) {
        let ghost pre = *w;
        let res = self.write_record(w);
        proof {
            lemma_le_bytes_len(INPUT_KEYBOARD_PREF_VERSION as nat, 2);
            lemma_le_bytes_len(self.up.0 as nat, 4);
            lemma_le_bytes_len(self.down.0 as nat, 4);
            lemma_le_bytes_len(self.left.0 as nat, 4);
            lemma_le_bytes_len(self.right.0 as nat, 4);
            if res is Err {
                let k = choose|k: int|
                    0 <= k <= 18 && w.sent() == pre.sent() + #[trigger] self.enc().take(k);
                assert(self.enc().len() == 18);
                assert(w.sent() == pre.sent() + self.enc().take(k));
            }
        }
        res
    }
}

} // verus!
