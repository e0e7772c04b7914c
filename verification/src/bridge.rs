//! The structural bridge: framing for payloads produced by an external
//! schema-driven serializer.
//!
//! Types without a hand-written codec are turned into bytes by such a
//! serializer outside this library.  Here the bytes are buffered and
//! framed: on the way out a length prefix followed by the buffered
//! payload, on the way in the prefix is read and exactly that many bytes
//! are handed back as an owned buffer.  A decode failure inside the
//! external serializer is then the surrounding application's to report as
//! invalid data.

use vstd::prelude::*;

use crate::channel::{ByteSink, ByteSource, PersistReader, PersistWriter};
use crate::codec::Persist;
use crate::error::{is_read_error, is_write_error, PersistError};
use crate::wire::{le_bytes, le_value, lemma_le_bytes_len, lemma_le_value_of_le_bytes};

verus! {

/// The frame a bridged payload is persisted as: a 4-byte length prefix,
/// then the payload bytes.
pub open spec fn blob_enc(payload: Seq<u8>) -> Seq<u8> {
    le_bytes(payload.len(), 4) + payload
}

/// Whether a stream begins with a well-formed bridged frame.
pub open spec fn blob_decodes(stream: Seq<u8>) -> bool {
    &&& stream.len() >= 4
    &&& le_value(stream.take(4)) <= usize::MAX as nat
    &&& 4 + le_value(stream.take(4)) <= stream.len()
}

/// An in-memory sink for an external serializer's output: the emitted
/// bytes are buffered, then framed and written in one piece.
pub struct PersistSerializer {
    buffer: Vec<u8>,
}

impl PersistSerializer {
    /// The serializer output buffered so far.
    pub closed spec fn buffered(&self) -> Seq<u8> {
        self.buffer@
    }

    pub fn new() -> (s: PersistSerializer)
        ensures
            s.buffered() == Seq::<u8>::empty(),
    {
        PersistSerializer { buffer: Vec::new() }
    }

    /// Accept a run of serializer output.
    #[verifier::loop_isolation(false)]
    pub fn try_extend(&mut self, data: &Vec<u8>)
        ensures
            final(self).buffered() == old(self).buffered() + data@,
    {
        let mut i: usize = 0;
        proof {
            assert(self.buffer@ =~= old(self).buffer@ + data@.take(0));
        }
        while i < data.len()
            invariant
                i <= data@.len(),
                self.buffer@ == old(self).buffer@ + data@.take(i as int),
            decreases data@.len() - i,
        {
            let b = data[i];
            proof {
                assert((old(self).buffer@ + data@.take(i as int)).push(b) =~= old(self).buffer@
                    + data@.take(i + 1));
            }
            self.buffer.push(b);
            i = i + 1;
        }
        proof {
            assert(old(self).buffer@ + data@.take(data@.len() as int) =~= old(self).buffer@
                + data@);
        }
    }

    /// Accept one byte of serializer output.
    pub fn try_push(&mut self, data: u8)
        ensures
            final(self).buffered() == old(self).buffered().push(data),
    {
        self.buffer.push(data);
    }

    /// Frame the buffered payload and write it through the channel: the
    /// length prefix, then the bytes.
    pub fn finalize<W: ByteSink>(self, w: &mut PersistWriter<W>) -> (res: Result<
        (),
        PersistError,
    >)
        ensures
            match res {
                Ok(()) => {
                    &&& self.buffered().len() <= u32::MAX
                    &&& final(w).sent() == old(w).sent() + blob_enc(self.buffered())
                },
                Err(e) => {
                    &&& is_write_error(e)
                    &&& !old(w).accepts() || self.buffered().len() > u32::MAX
                    &&& e == PersistError::WriteZero ==> !old(w).accepts()
                    &&& e == PersistError::IndexTooLarge ==> self.buffered().len() > u32::MAX
                        && final(w).sent() == old(w).sent()
                },
            },
            final(w).accepts() == old(w).accepts(),
    {
        let ghost pre = *w;
        if self.buffer.len() > u32::MAX as usize {
            // the range error is raised before a single byte is written
            return Err(PersistError::IndexTooLarge);
        }
        let len: usize = self.buffer.len();
        proof {
            crate::codec::lemma_pow256_widths();
        }
        match crate::codec::write_le_uint(w, len as u128, 4) {
            Ok(()) => {},
            Err(e) => {
                return Err(e);
            },
        }
        match w.write(&self.buffer) {
            Ok(()) => {
                proof {
                    assert(w.sent() =~= pre.sent() + blob_enc(self.buffered()));
                }
                Ok(())
            },
            Err(e) => Err(e),
        }
    }
}

impl<W: ByteSink> PersistWriter<W> {
    /// Frame and send an externally-serialized payload in one step.
    pub fn ser(&mut self, payload: &Vec<u8>) -> (res: Result<(), PersistError>)
        ensures
            match res {
                Ok(()) => {
                    &&& payload@.len() <= u32::MAX
                    &&& final(self).sent() == old(self).sent() + blob_enc(payload@)
                },
                Err(e) => {
                    &&& is_write_error(e)
                    &&& !old(self).accepts() || payload@.len() > u32::MAX
                    &&& e == PersistError::WriteZero ==> !old(self).accepts()
                    &&& e == PersistError::IndexTooLarge ==> payload@.len() > u32::MAX
                        && final(self).sent() == old(self).sent()
                },
            },
            final(self).accepts() == old(self).accepts(),
    {
        let mut s = PersistSerializer::new();
        s.try_extend(payload);
        proof {
            assert(s.buffered() =~= payload@);
        }
        s.finalize(self)
    }
}

impl<R: ByteSource> PersistReader<R> {
    /// Read one bridged frame: the length prefix, then exactly that many
    /// payload bytes, handed back as an owned buffer for the external
    /// serializer to decode.
    pub fn de(&mut self) -> (res: Result<Vec<u8>, PersistError>)
        ensures
            match res {
                Ok(buf) => {
                    &&& buf@.len() <= u32::MAX
                    &&& 4 + buf@.len() <= old(self).avail().len()
                    &&& blob_enc(buf@) == old(self).avail().take(4 + buf@.len() as int)
                    &&& final(self).avail() == old(self).avail().skip(4 + buf@.len() as int)
                },
                Err(e) => {
                    &&& old(self).progresses() ==> !blob_decodes(old(self).avail())
                    &&& is_read_error(e)
                },
            },
            final(self).progresses() == old(self).progresses(),
    {
        let ghost pre = *self;
        let len = match <usize as Persist>::read(self) {
            Ok(l) => l,
            Err(e) => {
                return Err(e);
            },
        };
        proof {
            crate::codec::lemma_pow256_widths();
            lemma_le_bytes_len(len as nat, 4);
            lemma_le_value_of_le_bytes(len as nat, 4);
        }
        match self.read(len) {
            Ok(buf) => {
                proof {
                    assert(blob_enc(buf@) =~= pre.avail().take(4 + buf@.len() as int));
                    assert(self.avail() =~= pre.avail().skip(4 + buf@.len() as int));
                }
                Ok(buf)
            },
            Err(e) => Err(e),
        }
    }
}

} // verus!
