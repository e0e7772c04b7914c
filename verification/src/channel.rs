//! The transfer channel: exclusive wrappers around a byte source or sink
//! that turn possibly-partial transports into all-or-nothing transfers.
//!
//! A `ByteSource` hands out some prefix of the bytes it still holds on each
//! `pull`; a `ByteSink` accepts some prefix of what it is offered on each
//! `push`.  A transport that guarantees progress (`progresses`, `accepts`)
//! never hands back an empty chunk while work remains; one that does not may
//! stall at any point.  `PersistReader::read` and `PersistWriter::write`
//! loop over those partial operations until the request is complete, and
//! report zero progress as an end-of-stream or write-exhausted error, so
//! callers only ever see "fully transferred" or "failed".

use vstd::prelude::*;

use crate::error::PersistError;

verus! {

/// A byte source that delivers its bytes in order, possibly a few at a time.
pub trait ByteSource: Sized {
    /// The bytes this source will still deliver, in order.
    spec fn avail(&self) -> Seq<u8>;

    /// Whether the source is guaranteed to make progress: a pull for at
    /// least one byte, while bytes remain, hands back at least one byte.
    spec fn progresses(&self) -> bool;

    /// Deliver up to `want` of the next bytes.  An empty result from a
    /// source that `progresses` means the source is exhausted.
    fn pull(&mut self, want: usize) -> (out: Vec<u8>)
        ensures
            out@.len() <= want,
            out@ == old(self).avail().take(out@.len() as int),
            final(self).avail() == old(self).avail().skip(out@.len() as int),
            final(self).progresses() == old(self).progresses(),
            old(self).progresses() && want > 0 && old(self).avail().len() > 0 ==> out@.len() > 0,
            out@.len() <= old(self).avail().len(),
    ;
}

/// A byte sink that accepts bytes in order, possibly a few at a time.
pub trait ByteSink: Sized {
    /// The bytes this sink has accepted so far, in order.
    spec fn sent(&self) -> Seq<u8>;

    /// Whether the sink is guaranteed to make progress: a push of at least
    /// one byte is never answered with zero bytes accepted.
    spec fn accepts(&self) -> bool;

    /// Accept up to `data.len() - from` bytes of `data`, starting at
    /// `from`.  Zero bytes accepted by a sink that `accepts` cannot happen.
    fn push(&mut self, data: &Vec<u8>, from: usize) -> (n: usize)
        requires
            from <= data@.len(),
        ensures
            n <= data@.len() - from,
            final(self).sent() == old(self).sent() + data@.subrange(from as int, from + n),
            final(self).accepts() == old(self).accepts(),
            old(self).accepts() && from < data@.len() ==> n > 0,
    ;
}

/// An in-memory byte source: a buffer delivered at most `chunk` bytes per
/// pull.  A `chunk` of zero models a transport that stalls without
/// delivering anything.
pub struct MemSource {
    data: Vec<u8>,
    pos: usize,
    chunk: usize,
}

impl MemSource {
    pub fn new(data: Vec<u8>, chunk: usize) -> (s: MemSource)
        ensures
            s.avail() == data@,
            s.progresses() == (chunk > 0),
    {
        let s = MemSource { data, pos: 0, chunk };
        proof {
            assert(s.avail() =~= s.data@);
        }
        s
    }
}

impl ByteSource for MemSource {
    closed spec fn avail(&self) -> Seq<u8> {
        if self.pos <= self.data@.len() {
            self.data@.skip(self.pos as int)
        } else {
            Seq::empty()
        }
    }

    closed spec fn progresses(&self) -> bool {
        self.chunk > 0
    }

    #[verifier::loop_isolation(false)]
    fn pull(&mut self, want: usize) -> (out: Vec<u8>) {
        let ghost pre = *self;
        let mut out: Vec<u8> = Vec::new();
        if self.pos >= self.data.len() {
            proof {
                assert(out@ =~= pre.avail().take(0));
                assert(self.avail() =~= pre.avail().skip(0));
            }
            return out;
        }
        let mut n: usize = want;
        if n > self.chunk {
            n = self.chunk;
        }
        let rem = self.data.len() - self.pos;
        if n > rem {
            n = rem;
        }
        let mut i: usize = 0;
        while i < n
            invariant
                i <= n,
                *self == pre,
                pre.pos + n <= pre.data@.len(),
                out@ =~= pre.data@.subrange(pre.pos as int, pre.pos + i),
            decreases n - i,
        {
            let b = self.data[self.pos + i];
            out.push(b);
            i = i + 1;
        }
        proof {
            assert(out@ =~= pre.avail().take(n as int));
        }
        self.pos = self.pos + n;
        proof {
            assert(self.avail() =~= pre.avail().skip(n as int));
        }
        out
    }
}

/// An in-memory byte sink: accepts at most `chunk` bytes per push.  A
/// `chunk` of zero models a transport that stalls without accepting
/// anything.
pub struct MemSink {
    buffer: Vec<u8>,
    chunk: usize,
}

impl MemSink {
    pub fn new(chunk: usize) -> (s: MemSink)
        ensures
            s.sent() == Seq::<u8>::empty(),
            s.accepts() == (chunk > 0),
    {
        let s = MemSink { buffer: Vec::new(), chunk };
        s
    }

    /// Surrender the accepted bytes.
    pub fn into_bytes(self) -> (out: Vec<u8>)
        ensures
            out@ == self.sent(),
    {
        self.buffer
    }

    /// Read the accepted bytes without consuming the sink.
    pub fn bytes(&self) -> (out: &Vec<u8>)
        ensures
            out@ == self.sent(),
    {
        &self.buffer
    }
}

impl ByteSink for MemSink {
    closed spec fn sent(&self) -> Seq<u8> {
        self.buffer@
    }

    closed spec fn accepts(&self) -> bool {
        self.chunk > 0
    }

    #[verifier::loop_isolation(false)]
    fn push(&mut self, data: &Vec<u8>, from: usize) -> (n: usize) {
        let ghost pre = *self;
        let mut n: usize = data.len() - from;
        if n > self.chunk {
            n = self.chunk;
        }
        let mut i: usize = 0;
        while i < n
            invariant
                i <= n,
                from + n <= data@.len(),
                self.chunk == pre.chunk,
                self.buffer@ =~= pre.buffer@ + data@.subrange(from as int, from + i),
            decreases n - i,
        {
            let b = data[from + i];
            self.buffer.push(b);
            i = i + 1;
        }
        n
    }
}

/// The read half of the transfer channel: wraps a byte source and
/// guarantees complete reads.
pub struct PersistReader<R: ByteSource> {
    src: R,
}

impl<R: ByteSource> PersistReader<R> {
    /// The bytes still to be delivered through this reader.
    pub closed spec fn avail(&self) -> Seq<u8> {
        self.src.avail()
    }

    /// Whether the underlying source is guaranteed to make progress.
    pub closed spec fn progresses(&self) -> bool {
        self.src.progresses()
    }

    pub fn new(src: R) -> (r: PersistReader<R>)
        ensures
            r.avail() == src.avail(),
            r.progresses() == src.progresses(),
    {
        PersistReader { src }
    }

    /// Read exactly `n` bytes, looping over partial pulls.  A pull that
    /// makes zero progress before the request is complete is reported as an
    /// unexpected end of stream; no partial success is ever visible.
    #[verifier::loop_isolation(false)]
    pub fn read(&mut self, n: usize) -> (res: Result<Vec<u8>, PersistError>)
        ensures
            match res {
                Ok(out) => {
                    &&& out@.len() == n
                    &&& n <= old(self).avail().len()
                    &&& out@ == old(self).avail().take(n as int)
                    &&& final(self).avail() == old(self).avail().skip(n as int)
                },
                Err(e) => {
                    &&& e == PersistError::UnexpectedEof
                    &&& old(self).progresses() ==> old(self).avail().len() < n
                },
            },
            final(self).progresses() == old(self).progresses(),
    {
        let ghost pre = *self;
        let mut out: Vec<u8> = Vec::new();
        proof {
            assert(out@ =~= pre.avail().take(0));
        }
        while out.len() < n
            invariant
                out@.len() <= n,
                out@.len() <= pre.avail().len(),
                out@ == pre.avail().take(out@.len() as int),
                self.src.avail() == pre.avail().skip(out@.len() as int),
                self.src.progresses() == pre.progresses(),
            decreases n - out@.len(),
        {
            let want = n - out.len();
            let ghost k = out@.len() as int;
            let ghost src_avail = self.src.avail();
            let mut got = self.src.pull(want);
            if got.len() == 0 {
                proof {
                    if pre.progresses() {
                        assert(src_avail.len() == 0);
                        assert(pre.avail().len() == k);
                    }
                }
                return Err(PersistError::UnexpectedEof);
            }
            proof {
                let g = got@.len() as int;
                assert(got@ == src_avail.take(g));
                assert(out@ + got@ =~= pre.avail().take(k + g));
                assert(self.src.avail() =~= pre.avail().skip(k + g));
            }
            out.append(&mut got);
        }
        Ok(out)
    }
}

/// The write half of the transfer channel: wraps a byte sink and
/// guarantees complete writes.
pub struct PersistWriter<W: ByteSink> {
    sink: W,
}

impl<W: ByteSink> PersistWriter<W> {
    /// The bytes this writer has pushed into the sink so far.
    pub closed spec fn sent(&self) -> Seq<u8> {
        self.sink.sent()
    }

    /// Whether the underlying sink is guaranteed to make progress.
    pub closed spec fn accepts(&self) -> bool {
        self.sink.accepts()
    }

    pub fn new(sink: W) -> (w: PersistWriter<W>)
        ensures
            w.sent() == sink.sent(),
            w.accepts() == sink.accepts(),
    {
        PersistWriter { sink }
    }

    /// Surrender the sink.
    pub fn into_sink(self) -> (sink: W)
        ensures
            sink.sent() == self.sent(),
            sink.accepts() == self.accepts(),
    {
        self.sink
    }

    /// Write all of `bytes`, looping over partial pushes.  A push that
    /// makes zero progress before every byte is consumed is reported as a
    /// write-exhausted error; no partial success is ever visible.
    #[verifier::loop_isolation(false)]
    pub fn write(&mut self, bytes: &Vec<u8>) -> (res: Result<(), PersistError>)
        ensures
            match res {
                Ok(()) => final(self).sent() == old(self).sent() + bytes@,
                Err(e) => {
                    &&& e == PersistError::WriteZero
                    &&& !old(self).accepts()
                    &&& exists|k: int|
                        0 <= k < bytes@.len() && final(self).sent() == old(self).sent()
                            + bytes@.take(k)
                },
            },
            final(self).accepts() == old(self).accepts(),
    {
        let ghost pre = *self;
        let mut from: usize = 0;
        proof {
            assert(pre.sent() + bytes@.take(0) =~= pre.sent());
        }
        while from < bytes.len()
            invariant
                from <= bytes@.len(),
                self.sink.sent() == pre.sent() + bytes@.take(from as int),
                self.sink.accepts() == pre.accepts(),
            decreases bytes@.len() - from,
        {
            let n = self.sink.push(bytes, from);
            if n == 0 {
                proof {
                    assert(self.sink.sent() == pre.sent() + bytes@.take(from as int));
                }
                return Err(PersistError::WriteZero);
            }
            proof {
                assert((pre.sent() + bytes@.take(from as int)) + bytes@.subrange(
                    from as int,
                    from + n,
                ) =~= pre.sent() + bytes@.take(from + n));
            }
            from = from + n;
        }
        proof {
            assert(pre.sent() + bytes@.take(bytes@.len() as int) =~= pre.sent() + bytes@);
        }
        Ok(())
    }
}

} // verus!
