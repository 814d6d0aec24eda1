//! Fan-out of one input stream to several output sinks. The copy model
//! makes short writes explicit: a sink accepts only up to its own per-call
//! cap, and the copier retries until every byte is written, so no sink ever
//! loses bytes.

use vstd::prelude::*;

verus! {

/// An in-memory byte stream. Read as a source, it yields the bytes from
/// `pos` on; written as a sink, it appends at most `cap` bytes per call (a
/// short write), as an OS pipe or file may.
pub struct Stream {
    pub data: Vec<u8>,
    /// Read cursor: everything before it has been consumed.
    pub pos: usize,
    /// Most bytes one write call accepts; at least 1.
    pub cap: usize,
}

impl Stream {
    /// A source holding `data`, not yet read.
    pub fn source(data: Vec<u8>) -> (r: Stream)
        ensures
            r.data@ == data@,
            r.pos == 0,
            r.cap == 1,
    {
        Stream { data, pos: 0, cap: 1 }
    }

    /// An empty sink that accepts at most `cap` bytes per write call.
    pub fn sink(cap: usize) -> (r: Stream)
        requires
            cap >= 1,
        ensures
            r.data@ == Seq::<u8>::empty(),
            r.pos == 0,
            r.cap == cap,
    {
        let data: Vec<u8> = Vec::new();
        Stream { data, pos: 0, cap }
    }

    /// One write call: appends the bytes `buf[from..to]`, but no more than
    /// `cap` of them, and reports how many it took.
    pub fn write(&mut self, buf: &Vec<u8>, from: usize, to: usize) -> (w: usize)
        requires
            from <= to <= buf@.len(),
            old(self).cap >= 1,
            old(self).data@.len() + (to - from) <= usize::MAX,
        ensures
            final(self).cap == old(self).cap,
            final(self).pos == old(self).pos,
            w == if to - from < old(self).cap {
                to - from
            } else {
                old(self).cap as int
            },
            final(self).data@ == old(self).data@ + buf@.subrange(from as int, from + w),
    {
        let w = if to - from < self.cap {
            to - from
        } else {
            self.cap
        };
        let mut j: usize = 0;
        while j < w
            invariant
                w <= to - from,
                from <= to <= buf@.len(),
                j <= w,
                self.cap == old(self).cap,
                self.pos == old(self).pos,
                self.data@ =~= old(self).data@ + buf@.subrange(from as int, from + j),
            decreases w - j,
        {
            self.data.push(buf[from + j]);
            proof {
                assert(self.data@ =~= old(self).data@ + buf@.subrange(from as int, from + j + 1));
            }
            j = j + 1;
        }
        w
    }
}

/// A fan-out copier: an optional input source (absent means the process's
/// own standard input, which only the surrounding program can supply) and an
/// ordered list of owned output sinks.
pub struct TeeItem {
    pub source: Option<Stream>,
    pub sinks: Vec<Stream>,
}

impl TeeItem {
    /// Whether every sink can take at least one byte per call.
    pub open spec fn sinks_ok(self) -> bool {
        forall|i: int| 0 <= i < self.sinks@.len() ==> (#[trigger] self.sinks@[i]).cap >= 1
    }

    /// A tee over the given source and sinks.
    pub fn new(source: Option<Stream>, sinks: Vec<Stream>) -> (r: TeeItem)
        ensures
            r.source == source,
            r.sinks == sinks,
    {
        TeeItem { source, sinks }
    }

    /// Copy every remaining source byte to every sink, retrying each short
    /// write until the full run is written: with an input of N bytes each
    /// sink receives exactly those N bytes, byte for byte. An extra sink
    /// (the live terminal in the original pipeline) may be handed in; it is
    /// appended to the sink list and copied to like the others.
    pub fn write_to_all(&mut self, extra: Option<Stream>)
        requires
            old(self).source is Some,
            old(self).source->0.pos <= old(self).source->0.data@.len(),
            old(self).sinks_ok(),
            (extra is Some ==> extra->0.cap >= 1),
            (forall|i: int|
                0 <= i < old(self).sinks@.len() ==> (#[trigger] old(self).sinks@[i]).data@.len()
                    + old(self).source->0.data@.len() <= usize::MAX),
            (extra is Some ==> extra->0.data@.len() + old(self).source->0.data@.len()
                <= usize::MAX),
        ensures
            final(self).source is Some,
            ({
                let src = old(self).source->0;
                let copied = src.data@.subrange(src.pos as int, src.data@.len() as int);
                let before = if extra is Some {
                    old(self).sinks@ + seq![extra->0]
                } else {
                    old(self).sinks@
                };
                &&& final(self).source->0.data@ == src.data@
                &&& final(self).source->0.pos == src.data@.len()
                &&& final(self).sinks@.len() == before.len()
                &&& forall|i: int|
                    0 <= i < before.len() ==> (#[trigger] final(self).sinks@[i]).data@ == before[
                        i
                    ].data@ + copied && final(self).sinks@[i].cap == before[i].cap
            }),
    {
        let ghost src0 = old(self).source->0;
        match extra {
            Some(s) => {
                self.sinks.push(s);
            },
            None => {},
        }
        let ghost before = self.sinks@;
        // copy the source buffer out once, so sinks can be written freely
        let mut buf: Vec<u8> = Vec::new();
        let n = self.source.as_ref().unwrap().data.len();
        let pos0 = self.source.as_ref().unwrap().pos;
        let mut t: usize = 0;
        while t < n
            invariant
                t <= n,
                self.source is Some,
                self.source == old(self).source,
                n == src0.data@.len(),
                src0 == old(self).source->0,
                buf@ =~= src0.data@.subrange(0, t as int),
            decreases n - t,
        {
            let b = self.source.as_ref().unwrap().data[t];
            buf.push(b);
            proof {
                assert(buf@ =~= src0.data@.subrange(0, t + 1));
            }
            t = t + 1;
        }
        proof {
            assert(buf@ =~= src0.data@);
        }
        let ghost copied = src0.data@.subrange(src0.pos as int, src0.data@.len() as int);
        let mut done: Vec<Stream> = Vec::new();
        while self.sinks.len() > 0
            invariant
                self.source is Some,
                self.source == old(self).source,
                src0 == old(self).source->0,
                pos0 == src0.pos,
                pos0 <= n,
                n == src0.data@.len(),
                buf@ == src0.data@,
                copied == src0.data@.subrange(pos0 as int, n as int),
                done@.len() + self.sinks@.len() == before.len(),
                forall|i: int|
                    0 <= i < before.len() ==> (#[trigger] before[i]).cap >= 1 && before[
                        i
                    ].data@.len() + (n - pos0) <= usize::MAX,
                forall|i: int|
                    0 <= i < done@.len() ==> (#[trigger] done@[i]).data@ == before[i].data@
                        + copied && done@[i].cap == before[i].cap,
                forall|i: int|
                    0 <= i < self.sinks@.len() ==> #[trigger] self.sinks@[i] == before[i
                        + done@.len()],
            decreases self.sinks@.len(),
        {
            let mut sink = self.sinks.remove(0);
            let ghost kk = done@.len() as int;
            let mut total: usize = pos0;
            while total < n
                invariant
                    pos0 <= total <= n,
                    n == src0.data@.len(),
                    buf@ == src0.data@,
                    sink.cap == before[kk].cap,
                    sink.cap >= 1,
                    before[kk].data@.len() + (n - pos0) <= usize::MAX,
                    sink.data@ == before[kk].data@ + src0.data@.subrange(
                        pos0 as int,
                        total as int,
                    ),
                decreases n - total,
            {
                let w = sink.write(&buf, total, n);
                proof {
                    assert(before[kk].data@ + src0.data@.subrange(pos0 as int, total as int)
                        + src0.data@.subrange(total as int, total + w) =~= before[kk].data@
                        + src0.data@.subrange(pos0 as int, total + w));
                }
                total = total + w;
            }
            proof {
                assert(sink.data@ =~= before[kk].data@ + copied);
            }
            done.push(sink);
        }
        self.sinks = done;
        let source = self.source.as_mut().unwrap();
        source.pos = n;
    }

    /// The source's buffer, for the copy loop.
    fn source_data_ref(&self) -> (r: &Vec<u8>)
        requires
            self.source is Some,
        ensures
            r@ == self.source->0.data@,
    {
        &self.source.as_ref().unwrap().data
    }
}

} // verus!
