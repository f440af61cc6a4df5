use std::collections::VecDeque;

use vstd::prelude::*;

verus! {

/// Size of the buffer that a copy reads into at a time.
pub const CHUNK_SIZE: usize = 8192;

/// What a sink or a source reports when an operation fails.
#[derive(Clone, Copy, Debug, PartialEq, Eq, Structural)]
pub enum IoError {
    /// A sink accepted no bytes although some were still to be written.
    WriteZero,
    /// A failure reported by the underlying device, with its own code.
    Failed(i32),
}

/// A destination for bytes.
///
/// `accepted` is everything the sink has taken in so far, in order; `flushed`
/// says that all of it has reached the final destination; `reliable` says
/// that every write takes the whole buffer and no operation fails.
///
/// The generic code of this crate is verified for every implementation that
/// meets the method contracts over its own definitions of these. The
/// implementations here for `Vec<u8>` and `VecDeque<u8>` are verified.
/// The defaults exist so that code outside Verus can implement the trait;
/// such an implementation does not meet the contracts (with the default
/// empty `accepted`, a `write` that takes a byte already breaks them), so
/// nothing proved here holds of it.
pub trait Sink {
    closed spec fn accepted(&self) -> Seq<u8> {
        Seq::empty()
    }

    closed spec fn flushed(&self) -> bool {
        true
    }

    closed spec fn reliable(&self) -> bool {
        false
    }

    /// Takes some prefix of `buf`, possibly all of it, and says how long it was.
    /// On failure nothing is taken.
    fn write(&mut self, buf: &[u8]) -> (r: Result<usize, IoError>)
        ensures
            match r {
                Ok(n) => {
                    &&& n <= buf@.len()
                    &&& final(self).accepted() == old(self).accepted() + buf@.subrange(0, n as int)
                },
                Err(_) => final(self).accepted() == old(self).accepted(),
            },
            old(self).reliable() ==> r == Ok::<usize, IoError>(buf@.len() as usize),
            final(self).reliable() == old(self).reliable(),
    ;

    /// Pushes buffered bytes to their destination; nothing new is accepted.
    fn flush(&mut self) -> (r: Result<(), IoError>)
        ensures
            final(self).accepted() == old(self).accepted(),
            r is Ok ==> final(self).flushed(),
            old(self).reliable() ==> r is Ok,
            final(self).reliable() == old(self).reliable(),
    ;
}

/// An origin of bytes; `remaining` is what it has still to give, and
/// `reliable` says that no read fails.
///
/// As with [`Sink`], the defaults are for code outside Verus. An
/// implementation that keeps them is treated by every proof as an empty
/// source, which it is not once a read gives a byte, so nothing proved here
/// holds of it. The implementation for `&[u8]` is verified.
pub trait Source {
    closed spec fn remaining(&self) -> Seq<u8> {
        Seq::empty()
    }

    closed spec fn reliable(&self) -> bool {
        false
    }

    /// Fills a prefix of `buf` with the next bytes and says how many. Zero on
    /// a non-empty buffer means the source is exhausted. On failure nothing
    /// is consumed.
    fn read(&mut self, buf: &mut [u8]) -> (r: Result<usize, IoError>)
        ensures
            final(buf)@.len() == old(buf)@.len(),
            match r {
                Ok(n) => {
                    &&& n <= old(buf)@.len()
                    &&& n <= old(self).remaining().len()
                    &&& final(buf)@.subrange(0, n as int) == old(self).remaining().subrange(0, n as int)
                    &&& final(self).remaining() == old(self).remaining().subrange(
                        n as int,
                        old(self).remaining().len() as int,
                    )
                    &&& (n == 0 ==> old(buf)@.len() == 0 || old(self).remaining().len() == 0)
                },
                Err(_) => final(self).remaining() == old(self).remaining(),
            },
            old(self).reliable() ==> r is Ok,
            final(self).reliable() == old(self).reliable(),
    ;
}

/// An in-memory sink: bytes are appended and are at once in place.
impl Sink for Vec<u8> {
    open spec fn accepted(&self) -> Seq<u8> {
        self@
    }

    open spec fn flushed(&self) -> bool {
        true
    }

    open spec fn reliable(&self) -> bool {
        true
    }

    fn write(&mut self, buf: &[u8]) -> (r: Result<usize, IoError>) {
        self.extend_from_slice(buf);
        proof {
            assert(buf@.subrange(0, buf@.len() as int) =~= buf@);
        }
        Ok(buf.len())
    }

    fn flush(&mut self) -> (r: Result<(), IoError>) {
        Ok(())
    }
}

/// An in-memory sink that appends at the back of a double-ended queue.
impl Sink for VecDeque<u8> {
    open spec fn accepted(&self) -> Seq<u8> {
        self@
    }

    open spec fn flushed(&self) -> bool {
        true
    }

    open spec fn reliable(&self) -> bool {
        true
    }

    fn write(&mut self, buf: &[u8]) -> (r: Result<usize, IoError>) {
        let mut i: usize = 0;
        while i < buf.len()
            invariant
                i <= buf@.len(),
                self@ == old(self)@ + buf@.subrange(0, i as int),
            decreases buf@.len() - i,
        {
            self.push_back(buf[i]);
            proof {
                assert(buf@.subrange(0, i as int).push(buf@[i as int]) =~= buf@.subrange(0, i + 1));
            }
            i = i + 1;
        }
        Ok(buf.len())
    }

    fn flush(&mut self) -> (r: Result<(), IoError>) {
        Ok(())
    }
}

/// A byte slice read from its front: each read moves the slice past what it gave.
impl<'b> Source for &'b [u8] {
    open spec fn remaining(&self) -> Seq<u8> {
        (**self)@
    }

    open spec fn reliable(&self) -> bool {
        true
    }

    fn read(&mut self, buf: &mut [u8]) -> (r: Result<usize, IoError>) {
        let data: &'b [u8] = *self;
        let n: usize = if buf.len() < data.len() { buf.len() } else { data.len() };
        let mut i: usize = 0;
        while i < n
            invariant
                n <= buf@.len(),
                n <= data@.len(),
                i <= n,
                buf@.len() == old(buf)@.len(),
                forall|k: int| 0 <= k < i ==> buf@[k] == data@[k],
            decreases n - i,
        {
            buf[i] = data[i];
            i = i + 1;
        }
        *self = &data[n..data.len()];
        proof {
            assert(buf@.subrange(0, n as int) =~= data@.subrange(0, n as int));
        }
        Ok(n)
    }
}

/// What each of the borrowed sinks has accepted, in order.
pub open spec fn accepted_all<'a, S: Sink + ?Sized>(ws: Seq<&'a mut S>) -> Seq<Seq<u8>> {
    ws.map_values(|w: &'a mut S| (*w).accepted())
}

/// Whether each of the borrowed sinks is reliable, in order.
pub open spec fn reliable_all<'a, S: Sink + ?Sized>(ws: Seq<&'a mut S>) -> Seq<bool> {
    ws.map_values(|w: &'a mut S| (*w).reliable())
}

/// Whether each of the borrowed sinks has flushed, in order.
pub open spec fn flushed_all<'a, S: Sink + ?Sized>(ws: Seq<&'a mut S>) -> Seq<bool> {
    ws.map_values(|w: &'a mut S| (*w).flushed())
}

/// Working through the borrow at `i` of a list of sinks changes what the list
/// says of its sinks only at `i`.
pub proof fn lemma_one_sink_changed<'a, S: Sink + ?Sized>(
    prev: Seq<&'a mut S>,
    next: Seq<&'a mut S>,
    i: int,
)
    requires
        0 <= i < prev.len(),
        next == prev.update(i, next[i]),
    ensures
        accepted_all(next) == accepted_all(prev).update(i, (*next[i]).accepted()),
        reliable_all(next) == reliable_all(prev).update(i, (*next[i]).reliable()),
        flushed_all(next) == flushed_all(prev).update(i, (*next[i]).flushed()),
        accepted_all(prev)[i] == (*prev[i]).accepted(),
        reliable_all(prev)[i] == (*prev[i]).reliable(),
        flushed_all(prev)[i] == (*prev[i]).flushed(),
{
    assert(accepted_all(next) =~= accepted_all(prev).update(i, (*next[i]).accepted()));
    assert(reliable_all(next) =~= reliable_all(prev).update(i, (*next[i]).reliable()));
    assert(flushed_all(next) =~= flushed_all(prev).update(i, (*next[i]).flushed()));
}

/// What a source gave between a state where `before` was left and one where
/// `after` is: the front of `before` that `after` no longer holds.
pub open spec fn read_so_far(before: Seq<u8>, after: Seq<u8>) -> Seq<u8> {
    before.subrange(0, before.len() - after.len())
}

/// Whether a source went from having `before` left to having `after` left by
/// giving up a front part: `after` is a suffix of `before`.
pub open spec fn gave_prefix(before: Seq<u8>, after: Seq<u8>) -> bool {
    &&& after.len() <= before.len()
    &&& before == read_so_far(before, after) + after
}

/// Whether `after` is `before` followed by a prefix of `buf`.
pub open spec fn took_prefix(before: Seq<u8>, after: Seq<u8>, buf: Seq<u8>) -> bool {
    exists|n: int| 0 <= n <= buf.len() && after == before + buf.subrange(0, n)
}

/// A prefix of `src` no longer than `cut` is a prefix of `src`'s first `cut` bytes.
pub proof fn lemma_prefix_within(before: Seq<u8>, after: Seq<u8>, src: Seq<u8>, cut: int)
    requires
        took_prefix(before, after, src),
        after.len() <= before.len() + cut,
        0 <= cut <= src.len(),
    ensures
        took_prefix(before, after, src.subrange(0, cut)),
{
    let t = choose|t: int| 0 <= t <= src.len() && after == before + src.subrange(0, t);
    assert(src.subrange(0, cut).subrange(0, t) =~= src.subrange(0, t));
}

/// What a complete write makes of one reply of the sink, when `off` of the
/// `len` bytes are already written: a reply of no bytes is `WriteZero`, a reply
/// of `n` bytes moves the offset on by `n`, and an error is passed on as it came.
pub fn next_offset(off: usize, len: usize, reply: Result<usize, IoError>) -> (r: Result<
    usize,
    IoError,
>)
    requires
        off < len,
        reply is Ok ==> off + reply->Ok_0 <= len,
    ensures
        match reply {
            Ok(n) => if n == 0 {
                r == Err::<usize, IoError>(IoError::WriteZero)
            } else {
                r == Ok::<usize, IoError>((off + n) as usize)
            },
            Err(e) => r == Err::<usize, IoError>(e),
        },
{
    match reply {
        Ok(n) => if n == 0 {
            Err(IoError::WriteZero)
        } else {
            Ok(off + n)
        },
        Err(e) => Err(e),
    }
}

/// Writes the whole of `buf` to `sink`, calling `write` on what is left until
/// every byte is taken; each reply is handled as `next_offset` says.
pub fn write_all<S: Sink + ?Sized>(sink: &mut S, buf: &[u8]) -> (r: Result<(), IoError>)
    ensures
        r is Ok ==> final(sink).accepted() == old(sink).accepted() + buf@,
        r is Err ==> exists|n: int|
            0 <= n < buf@.len() && final(sink).accepted() == old(sink).accepted()
                + buf@.subrange(0, n),
        old(sink).reliable() ==> r is Ok,
        final(sink).reliable() == old(sink).reliable(),
{
    let mut off: usize = 0;
    while off < buf.len()
        invariant
            off <= buf@.len(),
            sink.accepted() == old(sink).accepted() + buf@.subrange(0, off as int),
            sink.reliable() == old(sink).reliable(),
        decreases buf@.len() - off,
    {
        let rest: &[u8] = &buf[off..buf.len()];
        let ghost before = sink.accepted();
        let reply = sink.write(rest);
        proof {
            if reply is Ok {
                let n = reply->Ok_0;
                assert(buf@.subrange(0, off as int) + rest@.subrange(0, n as int)
                    =~= buf@.subrange(0, off + n));
            }
        }
        match next_offset(off, buf.len(), reply) {
            Ok(next) => {
                off = next;
            },
            Err(e) => {
                proof {
                    if reply is Ok {
                        assert(rest@.subrange(0, 0) =~= Seq::<u8>::empty());
                        assert(before + Seq::<u8>::empty() =~= before);
                    }
                }
                return Err(e);
            },
        }
    }
    proof {
        assert(buf@.subrange(0, off as int) =~= buf@);
    }
    Ok(())
}

/// Copies everything that `reader` has left into `writer`, a chunk at a time,
/// and says how many bytes that was. The first failed read or write ends it.
pub fn copy<R: Source + ?Sized, W: Sink + ?Sized>(reader: &mut R, writer: &mut W) -> (r: Result<
    u64,
    IoError,
>)
    requires
        old(reader).remaining().len() <= u64::MAX,
    ensures
        match r {
            Ok(total) => {
                &&& total == old(reader).remaining().len()
                &&& final(reader).remaining().len() == 0
                &&& final(writer).accepted() == old(writer).accepted() + old(reader).remaining()
            },
            Err(_) => took_prefix(
                old(writer).accepted(),
                final(writer).accepted(),
                old(reader).remaining(),
            ),
        },
        gave_prefix(old(reader).remaining(), final(reader).remaining()),
        r is Err ==> took_prefix(
            old(writer).accepted(),
            final(writer).accepted(),
            read_so_far(old(reader).remaining(), final(reader).remaining()),
        ),
        r is Err && old(writer).reliable() ==> final(writer).accepted() == old(writer).accepted()
            + read_so_far(old(reader).remaining(), final(reader).remaining()),
        old(reader).reliable() && old(writer).reliable() ==> r is Ok,
        old(reader).reliable() && old(reader).remaining().len() == 0 ==> r == Ok::<u64, IoError>(0),
        final(writer).reliable() == old(writer).reliable(),
{
    let ghost src = reader.remaining();
    let mut chunk: Vec<u8> = vec![0u8; CHUNK_SIZE];
    let mut total: u64 = 0;
    loop
        invariant
            chunk@.len() == CHUNK_SIZE,
            src == old(reader).remaining(),
            src.len() <= u64::MAX,
            total <= src.len(),
            reader.remaining() == src.subrange(total as int, src.len() as int),
            writer.accepted() == old(writer).accepted() + src.subrange(0, total as int),
            reader.reliable() == old(reader).reliable(),
            writer.reliable() == old(writer).reliable(),
        decreases reader.remaining().len(),
    {
        let got = reader.read(chunk.as_mut_slice());
        let n: usize = match got {
            Ok(n) => n,
            Err(e) => {
                proof {
                    let got_so_far = read_so_far(src, reader.remaining());
                    assert(got_so_far =~= src.subrange(0, total as int));
                    assert(src =~= got_so_far + reader.remaining());
                    assert(took_prefix(old(writer).accepted(), writer.accepted(), src)) by {
                        assert(0 <= total <= src.len());
                    }
                    assert(took_prefix(old(writer).accepted(), writer.accepted(), got_so_far)) by {
                        assert(got_so_far.subrange(0, total as int) =~= got_so_far);
                    }
                }
                return Err(e);
            },
        };
        if n == 0 {
            proof {
                assert(src.subrange(0, total as int) =~= src);
                assert(read_so_far(src, reader.remaining()) =~= src);
                assert(src =~= src + reader.remaining());
            }
            return Ok(total);
        }
        let ghost before = writer.accepted();
        let piece: &[u8] = &chunk.as_slice()[0..n];
        assert(piece@ =~= src.subrange(total as int, total + n));
        let res = write_all(writer, piece);
        match res {
            Ok(()) => {},
            Err(e) => {
                proof {
                    let k = choose|k: int|
                        0 <= k < piece@.len() && writer.accepted() == before + piece@.subrange(0, k);
                    assert(src.subrange(0, total as int) + piece@.subrange(0, k)
                        =~= src.subrange(0, total + k));
                    assert(took_prefix(old(writer).accepted(), writer.accepted(), src)) by {
                        assert(writer.accepted() == old(writer).accepted() + src.subrange(0, total + k));
                    }
                    let got_so_far = read_so_far(src, reader.remaining());
                    assert(reader.remaining() =~= src.subrange(total + n, src.len() as int));
                    assert(got_so_far =~= src.subrange(0, total + n));
                    assert(src =~= got_so_far + reader.remaining());
                    assert(took_prefix(old(writer).accepted(), writer.accepted(), got_so_far)) by {
                        assert(got_so_far.subrange(0, total + k) =~= src.subrange(0, total + k));
                    }
                }
                return Err(e);
            },
        }
        proof {
            assert(src.subrange(0, total as int) + piece@ =~= src.subrange(0, total + n));
            assert(reader.remaining() =~= src.subrange(total + n, src.len() as int));
        }
        total = total + n as u64;
    }
}

} // verus!
