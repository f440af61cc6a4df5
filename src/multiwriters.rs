use vstd::prelude::*;

use crate::stream::{accepted_all, gave_prefix, lemma_prefix_within, read_so_far, flushed_all, lemma_one_sink_changed, reliable_all, took_prefix, write_all, IoError, Sink, Source, CHUNK_SIZE};

verus! {

/// Each sink of `after` is the same sink of `before` with `buf` appended.
pub open spec fn all_received(before: Seq<Seq<u8>>, after: Seq<Seq<u8>>, buf: Seq<u8>) -> bool {
    &&& after.len() == before.len()
    &&& forall|j: int| 0 <= j < before.len() ==> #[trigger] after[j] == before[j] + buf
}

/// A fan-out of `buf` that stopped at sink `k`: the sinks before it took all of
/// `buf`, sink `k` took less than all of it, and the sinks after it took nothing.
pub open spec fn stopped_at(before: Seq<Seq<u8>>, after: Seq<Seq<u8>>, buf: Seq<u8>, k: int) -> bool {
    &&& 0 <= k < before.len()
    &&& after.len() == before.len()
    &&& forall|j: int| 0 <= j < k ==> #[trigger] after[j] == before[j] + buf
    &&& exists|n: int| 0 <= n < buf.len() && after[k] == before[k] + buf.subrange(0, n)
    &&& forall|j: int| k < j < before.len() ==> #[trigger] after[j] == before[j]
}

/// What a fan-out write of `buf` may have done, given its result.
pub open spec fn write_outcome(
    before: Seq<Seq<u8>>,
    after: Seq<Seq<u8>>,
    buf: Seq<u8>,
    r: Result<usize, IoError>,
) -> bool {
    match r {
        Ok(n) => n == buf.len() && all_received(before, after, buf),
        Err(_) => exists|k: int| stopped_at(before, after, buf, k),
    }
}

/// What a fan-out copy of `src` may have done, given its result: on success every
/// sink took all of `src`; on failure every sink took some prefix of it, and no
/// sink took more than one before it.
pub open spec fn copy_outcome(
    before: Seq<Seq<u8>>,
    after: Seq<Seq<u8>>,
    src: Seq<u8>,
    r: Result<u64, IoError>,
) -> bool {
    &&& after.len() == before.len()
    &&& match r {
        Ok(total) => total == src.len() && all_received(before, after, src),
        Err(_) => {
            &&& forall|j: int|
                0 <= j < before.len() ==> took_prefix(before[j], #[trigger] after[j], src)
            &&& forall|i: int, j: int|
                0 <= i < j < before.len() ==> #[trigger] after[i].len() - before[i].len()
                    >= #[trigger] after[j].len() - before[j].len()
        },
    }
}

/// A writer over no sinks takes every write whole: it reports the buffer's
/// length and nothing changes.
pub proof fn lemma_no_sinks_write(
    before: Seq<Seq<u8>>,
    after: Seq<Seq<u8>>,
    buf: Seq<u8>,
    r: Result<usize, IoError>,
)
    requires
        before.len() == 0,
        write_outcome(before, after, buf, r),
    ensures
        r == Ok::<usize, IoError>(buf.len() as usize),
        after == before,
{
    assert(after =~= before);
}

/// A fan-out copy of an empty source changes no sink and, when it succeeds,
/// reports zero.
pub proof fn lemma_fan_out_empty_source(
    before: Seq<Seq<u8>>,
    after: Seq<Seq<u8>>,
    r: Result<u64, IoError>,
)
    requires
        copy_outcome(before, after, Seq::empty(), r),
    ensures
        after == before,
        r is Ok ==> r == Ok::<u64, IoError>(0),
{
    let e = Seq::<u8>::empty();
    assert forall|j: int| 0 <= j < before.len() implies #[trigger] after[j] == before[j] by {
        if r is Err {
            let k = choose|k: int| 0 <= k <= e.len() && after[j] == before[j] + e.subrange(0, k);
            assert(before[j] + e.subrange(0, k) =~= before[j]);
        } else {
            assert(before[j] + e =~= before[j]);
        }
    }
    assert(after =~= before);
}

/// A flush that stopped at sink `k`: the sinks before it are flushed and the
/// sinks after it are as they were.
pub open spec fn flush_stopped_at(before: Seq<bool>, after: Seq<bool>, k: int) -> bool {
    &&& 0 <= k < before.len()
    &&& after.len() == before.len()
    &&& forall|j: int| 0 <= j < k ==> #[trigger] after[j]
    &&& forall|j: int| k < j < before.len() ==> #[trigger] after[j] == before[j]
}

/// What a flush of every sink may have done, given its result.
pub open spec fn flush_outcome(before: Seq<bool>, after: Seq<bool>, r: Result<(), IoError>) -> bool {
    &&& after.len() == before.len()
    &&& match r {
        Ok(_) => forall|j: int| 0 <= j < before.len() ==> #[trigger] after[j],
        Err(_) => exists|k: int| flush_stopped_at(before, after, k),
    }
}

/// A single writer over many sinks: every write goes to each of them in turn.
///
/// Each write is a complete write on every sink, so the writer reports either
/// the whole buffer or an error, never a part. The first sink to fail stops
/// the write; the sinks before it have the bytes and the ones after do not.
pub struct MultiWriter<'a, S: Sink + ?Sized> {
    /// The sinks, in the order every write visits them.
    pub writers: Vec<&'a mut S>,
}

impl<'a, S: Sink + ?Sized> MultiWriter<'a, S> {
    /// What each sink has accepted, in the writer's order.
    pub open spec fn contents(&self) -> Seq<Seq<u8>> {
        accepted_all(self.writers@)
    }

    /// Whether each sink is reliable, in the writer's order.
    pub open spec fn reliable_sinks(&self) -> Seq<bool> {
        reliable_all(self.writers@)
    }

    /// Whether each sink has flushed, in the writer's order.
    pub open spec fn flush_states(&self) -> Seq<bool> {
        flushed_all(self.writers@)
    }

    /// A writer over `writers`, in that order; the list may be empty.
    pub fn new(writers: Vec<&'a mut S>) -> (r: Self)
        ensures
            r.writers == writers,
            r.contents() == accepted_all(writers@),
            r.flush_states() == flushed_all(writers@),
            r.reliable_sinks() == reliable_all(writers@),
    {
        MultiWriter { writers }
    }

    /// Writes all of `buf` to each sink in order and reports its whole length.
    pub fn write(&mut self, buf: &[u8]) -> (r: Result<usize, IoError>)
        ensures
            write_outcome(old(self).contents(), final(self).contents(), buf@, r),
            final(self).writers@.len() == old(self).writers@.len(),
            forall|j: int| 0 <= j < old(self).writers@.len() ==> (*final(#[trigger] final(self).writers@[j])).accepted() == (*final(old(self).writers@[j])).accepted(),
            final(self).reliable_sinks() == old(self).reliable_sinks(),
            (forall|j: int| 0 <= j < old(self).reliable_sinks().len() ==> #[trigger] old(self).reliable_sinks()[j]) ==> r is Ok,
    {
        let ghost before = self.contents();
        let mut i: usize = 0;
        while i < self.writers.len()
            invariant
                self.writers@.len() == before.len(),
                before == old(self).contents(),
                self.reliable_sinks() == old(self).reliable_sinks(),
                self.writers@.len() == old(self).writers@.len(),
                forall|j: int| 0 <= j < old(self).writers@.len() ==> (*final(#[trigger] self.writers@[j])).accepted() == (*final(old(self).writers@[j])).accepted(),
                i <= before.len(),
                forall|j: int| 0 <= j < i ==> #[trigger] self.contents()[j] == before[j] + buf@,
                forall|j: int| i <= j < before.len() ==> #[trigger] self.contents()[j] == before[j],
            decreases before.len() - i,
        {
            let ghost prev = self.writers@;
            let ghost prev_c = self.contents();
            let w: &mut &'a mut S = &mut self.writers[i];
            let res = write_all(&mut **w, buf);
            proof {
                lemma_one_sink_changed(prev, self.writers@, i as int);
            }
            match res {
                Ok(()) => {
                    proof {
                        assert(self.contents()[i as int] == prev_c[i as int] + buf@);
                        assert(prev_c[i as int] == before[i as int]);
                    }
                },
                Err(e) => {
                    proof {
                        assert(stopped_at(before, self.contents(), buf@, i as int));
                    }
                    return Err(e);
                },
            }
            i = i + 1;
        }
        Ok(buf.len())
    }

    /// Writes all of `buf` to each sink in order, as `write` does.
    pub fn write_all(&mut self, buf: &[u8]) -> (r: Result<(), IoError>)
        ensures
            r is Ok ==> all_received(old(self).contents(), final(self).contents(), buf@),
            r is Err ==> exists|k: int| stopped_at(old(self).contents(), final(self).contents(), buf@, k),
            final(self).writers@.len() == old(self).writers@.len(),
            forall|j: int| 0 <= j < old(self).writers@.len() ==> (*final(#[trigger] final(self).writers@[j])).accepted() == (*final(old(self).writers@[j])).accepted(),
            final(self).reliable_sinks() == old(self).reliable_sinks(),
            (forall|j: int| 0 <= j < old(self).reliable_sinks().len() ==> #[trigger] old(self).reliable_sinks()[j]) ==> r is Ok,
    {
        match self.write(buf) {
            Ok(_) => Ok(()),
            Err(e) => Err(e),
        }
    }

    /// Flushes each sink in order and stops at the first that fails; the sinks
    /// after it are left as they were.
    pub fn flush(&mut self) -> (r: Result<(), IoError>)
        ensures
            final(self).contents() == old(self).contents(),
            flush_outcome(old(self).flush_states(), final(self).flush_states(), r),
            final(self).writers@.len() == old(self).writers@.len(),
            forall|j: int| 0 <= j < old(self).writers@.len() ==> (*final(#[trigger] final(self).writers@[j])).accepted() == (*final(old(self).writers@[j])).accepted(),
            final(self).reliable_sinks() == old(self).reliable_sinks(),
            (forall|j: int| 0 <= j < old(self).reliable_sinks().len() ==> #[trigger] old(self).reliable_sinks()[j]) ==> r is Ok,
    {
        let ghost before = self.flush_states();
        let mut i: usize = 0;
        while i < self.writers.len()
            invariant
                self.writers@.len() == before.len(),
                before == old(self).flush_states(),
                self.writers@.len() == old(self).writers@.len(),
                forall|j: int| 0 <= j < old(self).writers@.len() ==> (*final(#[trigger] self.writers@[j])).accepted() == (*final(old(self).writers@[j])).accepted(),
                self.reliable_sinks() == old(self).reliable_sinks(),
                self.contents() == old(self).contents(),
                i <= before.len(),
                forall|j: int| 0 <= j < i ==> #[trigger] self.flush_states()[j],
                forall|j: int| i <= j < before.len() ==> #[trigger] self.flush_states()[j] == before[j],
            decreases before.len() - i,
        {
            let ghost contents = self.contents();
            let ghost prev = self.writers@;
            let ghost prev_r = self.reliable_sinks();
            let ghost prev_f = self.flush_states();
            let w: &mut &'a mut S = &mut self.writers[i];
            let res = (**w).flush();
            proof {
                lemma_one_sink_changed(prev, self.writers@, i as int);
                assert(self.flush_states() == prev_f.update(i as int, self.flush_states()[i as int]));
                assert(self.reliable_sinks() =~= prev_r);
                assert(self.contents() =~= contents);
            }
            match res {
                Ok(()) => {},
                Err(e) => {
                    proof {
                        assert(flush_stopped_at(before, self.flush_states(), i as int));
                    }
                    return Err(e);
                },
            }
            i = i + 1;
        }
        Ok(())
    }

    /// Copies everything that `reader` has left into every sink, a chunk at a
    /// time, and says how many bytes that was.
    pub fn copy<R: Source + ?Sized>(&mut self, reader: &mut R) -> (r: Result<u64, IoError>)
        requires
            old(reader).remaining().len() <= u64::MAX,
        ensures
            copy_outcome(old(self).contents(), final(self).contents(), old(reader).remaining(), r),
            final(self).writers@.len() == old(self).writers@.len(),
            forall|j: int| 0 <= j < old(self).writers@.len() ==> (*final(#[trigger] final(self).writers@[j])).accepted() == (*final(old(self).writers@[j])).accepted(),
            r is Ok ==> final(reader).remaining().len() == 0,
            gave_prefix(old(reader).remaining(), final(reader).remaining()),
            r is Err ==> forall|j: int|
                0 <= j < old(self).contents().len() ==> took_prefix(
                    old(self).contents()[j],
                    #[trigger] final(self).contents()[j],
                    read_so_far(old(reader).remaining(), final(reader).remaining()),
                ),
            r is Err && (forall|j: int| 0 <= j < old(self).reliable_sinks().len() ==> #[trigger] old(self).reliable_sinks()[j]) ==> all_received(
                old(self).contents(),
                final(self).contents(),
                read_so_far(old(reader).remaining(), final(reader).remaining()),
            ),
            final(self).reliable_sinks() == old(self).reliable_sinks(),
            old(reader).reliable() && old(reader).remaining().len() == 0 ==> r == Ok::<u64, IoError>(0),
            old(reader).reliable() && (forall|j: int| 0 <= j < old(self).reliable_sinks().len() ==> #[trigger] old(self).reliable_sinks()[j]) ==> r is Ok,
    {
        let ghost src = reader.remaining();
        let ghost before = self.contents();
        let mut chunk: Vec<u8> = vec![0u8; CHUNK_SIZE];
        let mut total: u64 = 0;
        loop
            invariant
                chunk@.len() == CHUNK_SIZE,
                src == old(reader).remaining(),
                before == old(self).contents(),
                self.writers@.len() == old(self).writers@.len(),
                forall|j: int| 0 <= j < old(self).writers@.len() ==> (*final(#[trigger] self.writers@[j])).accepted() == (*final(old(self).writers@[j])).accepted(),
                self.reliable_sinks() == old(self).reliable_sinks(),
                reader.reliable() == old(reader).reliable(),
                src.len() <= u64::MAX,
                total <= src.len(),
                reader.remaining() == src.subrange(total as int, src.len() as int),
                all_received(before, self.contents(), src.subrange(0, total as int)),
            decreases reader.remaining().len(),
        {
            let got = reader.read(chunk.as_mut_slice());
            let n: usize = match got {
                Ok(n) => n,
                Err(e) => {
                    proof {
                        assert forall|j: int| 0 <= j < before.len() implies took_prefix(
                            before[j],
                            #[trigger] self.contents()[j],
                            src,
                        ) by {
                            assert(self.contents()[j] == before[j] + src.subrange(0, total as int));
                        }
                        assert forall|i: int, j: int| 0 <= i < j < before.len() implies
                            #[trigger] self.contents()[i].len() - before[i].len()
                            >= #[trigger] self.contents()[j].len() - before[j].len() by {
                            assert(self.contents()[i] == before[i] + src.subrange(0, total as int));
                            assert(self.contents()[j] == before[j] + src.subrange(0, total as int));
                        }
                        let got_so_far = read_so_far(src, reader.remaining());
                        assert(got_so_far =~= src.subrange(0, total as int));
                        assert(src =~= got_so_far + reader.remaining());
                        assert forall|j: int| 0 <= j < before.len() implies took_prefix(
                            before[j],
                            #[trigger] self.contents()[j],
                            got_so_far,
                        ) by {
                            assert(self.contents()[j] == before[j] + src.subrange(0, total as int));
                            lemma_prefix_within(before[j], self.contents()[j], src, total as int);
                        }
                    }
                    return Err(e);
                },
            };
            if n == 0 {
                proof {
                    assert(src.subrange(0, total as int) =~= src);
                }
                return Ok(total);
            }
            let ghost mid = self.contents();
            let piece: &[u8] = &chunk.as_slice()[0..n];
            assert(piece@ =~= src.subrange(total as int, total + n));
            let res = self.write(piece);
            proof {
                assert(src.subrange(0, total as int) + piece@ =~= src.subrange(0, total + n));
            }
            match res {
                Ok(_) => {},
                Err(e) => {
                    proof {
                        let k = choose|k: int| stopped_at(mid, self.contents(), piece@, k);
                        let m = choose|m: int|
                            0 <= m < piece@.len() && self.contents()[k] == mid[k]
                                + piece@.subrange(0, m);
                        assert forall|j: int| 0 <= j < before.len() implies #[trigger] self.contents()[j].len()
                            == before[j].len() + (if j < k { total + n } else if j == k { total + m } else { total as int }) by {
                            assert(mid[j] == before[j] + src.subrange(0, total as int));
                            if j < k {
                                assert(self.contents()[j] == mid[j] + piece@);
                            } else if j == k {
                            } else {
                                assert(self.contents()[j] == mid[j]);
                            }
                        }
                        assert forall|i: int, j: int| 0 <= i < j < before.len() implies
                            #[trigger] self.contents()[i].len() - before[i].len()
                            >= #[trigger] self.contents()[j].len() - before[j].len() by {
                            assert(self.contents()[i].len() == before[i].len() + (if i < k { total + n } else if i == k { total + m } else { total as int }));
                            assert(self.contents()[j].len() == before[j].len() + (if j < k { total + n } else if j == k { total + m } else { total as int }));
                        }
                        let got_so_far = read_so_far(src, reader.remaining());
                        assert(reader.remaining() =~= src.subrange(total + n, src.len() as int));
                        assert(got_so_far =~= src.subrange(0, total + n));
                        assert(src =~= got_so_far + reader.remaining());
                        assert forall|j: int| 0 <= j < before.len() implies took_prefix(
                            before[j],
                            #[trigger] self.contents()[j],
                            src,
                        ) by {
                            if j < k {
                                assert(self.contents()[j] == before[j] + src.subrange(0, total + n));
                            } else if j == k {
                                let m = choose|m: int|
                                    0 <= m < piece@.len() && self.contents()[k] == mid[k]
                                        + piece@.subrange(0, m);
                                assert(src.subrange(0, total as int) + piece@.subrange(0, m)
                                    =~= src.subrange(0, total + m));
                                assert(self.contents()[j] == before[j] + src.subrange(0, total + m));
                            } else {
                                assert(self.contents()[j] == before[j] + src.subrange(0, total as int));
                            }
                        }
                        assert forall|j: int| 0 <= j < before.len() implies took_prefix(
                            before[j],
                            #[trigger] self.contents()[j],
                            got_so_far,
                        ) by {
                            assert(self.contents()[j].len() == before[j].len() + (if j < k { total + n } else if j == k { total + m } else { total as int }));
                            lemma_prefix_within(before[j], self.contents()[j], src, total + n);
                        }
                    }
                    return Err(e);
                },
            }
            proof {
                assert forall|j: int| 0 <= j < before.len() implies #[trigger] self.contents()[j]
                    == before[j] + src.subrange(0, total + n) by {
                    assert(self.contents()[j] == mid[j] + piece@);
                }
                assert(reader.remaining() =~= src.subrange(total + n, src.len() as int));
            }
            total = total + n as u64;
        }
    }
}

/// Copies everything that `reader` has left into each of `writers`, and says
/// how many bytes that was. On success every sink ends with its old contents
/// followed by the whole source; on failure each holds a prefix of it, and no
/// sink gained more than one before it.
pub fn copy_into_many<'a, R: Source + ?Sized, S: Sink + ?Sized>(
    reader: &mut R,
    writers: Vec<&'a mut S>,
) -> (r: Result<u64, IoError>)
    requires
        old(reader).remaining().len() <= u64::MAX,
    ensures
        r is Ok ==> r == Ok::<u64, IoError>(old(reader).remaining().len() as u64),
        r is Ok ==> final(reader).remaining().len() == 0,
        r is Ok ==> forall|j: int|
            0 <= j < writers@.len() ==> (*final(#[trigger] writers@[j])).accepted() == (
            *writers@[j]).accepted() + old(reader).remaining(),
        r is Err ==> forall|j: int|
            0 <= j < writers@.len() ==> took_prefix(
                (*writers@[j]).accepted(),
                (*final(#[trigger] writers@[j])).accepted(),
                old(reader).remaining(),
            ),
        gave_prefix(old(reader).remaining(), final(reader).remaining()),
        r is Err ==> forall|j: int|
            0 <= j < writers@.len() ==> took_prefix(
                (*writers@[j]).accepted(),
                (*final(#[trigger] writers@[j])).accepted(),
                read_so_far(old(reader).remaining(), final(reader).remaining()),
            ),
        r is Err && (forall|j: int| 0 <= j < writers@.len() ==> (*#[trigger] writers@[j]).reliable())
            ==> forall|j: int|
            0 <= j < writers@.len() ==> (*final(#[trigger] writers@[j])).accepted() == (
            *writers@[j]).accepted() + read_so_far(old(reader).remaining(), final(reader).remaining()),
        r is Err ==> forall|i: int, j: int|
            0 <= i < j < writers@.len() ==> (*final(#[trigger] writers@[i])).accepted().len()
                - (*writers@[i]).accepted().len() >= (*final(#[trigger] writers@[j])).accepted().len()
                - (*writers@[j]).accepted().len(),
        old(reader).reliable() && old(reader).remaining().len() == 0 ==> r == Ok::<u64, IoError>(0),
        old(reader).reliable() && (forall|j: int|
            0 <= j < writers@.len() ==> (*#[trigger] writers@[j]).reliable()) ==> r is Ok,
{
    let ghost given = writers@;
    let mut multi_writer = MultiWriter::new(writers);
    let ghost start = multi_writer.contents();
    let r = multi_writer.copy(reader);
    proof {
        assert(has_resolved(multi_writer));
        assert forall|j: int| 0 <= j < given.len() implies (*final(#[trigger] given[j])).accepted()
            == multi_writer.contents()[j] && start[j] == (*given[j]).accepted() by {
            assert(has_resolved(multi_writer.writers@[j]));
            assert((*multi_writer.writers@[j]).accepted() == (*final(multi_writer.writers@[j])).accepted());
            assert((*final(multi_writer.writers@[j])).accepted() == (*final(given[j])).accepted());
        }
    }
    r
}

} // verus!
