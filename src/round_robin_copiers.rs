use vstd::arithmetic::div_mod::{lemma_add_mod_noop, lemma_mod_twice};
use vstd::prelude::*;

use crate::stream::{
    accepted_all, copy, gave_prefix, lemma_one_sink_changed, read_so_far, reliable_all, took_prefix,
    IoError, Sink, Source,
};

verus! {

/// The cursor after one copy over `n` sinks that started at `c`.
pub open spec fn next_cursor(c: nat, n: nat) -> nat {
    (c + 1) % n
}

/// What one round-robin copy of `src` into sink `c` may have done, given its
/// result: only sink `c` changed, by all of `src` on success and by some prefix
/// of it on failure.
pub open spec fn dealt_outcome(
    before: Seq<Seq<u8>>,
    after: Seq<Seq<u8>>,
    c: nat,
    src: Seq<u8>,
    r: Result<u64, IoError>,
) -> bool {
    &&& c < before.len()
    &&& after.len() == before.len()
    &&& forall|j: int| 0 <= j < before.len() && j != c ==> #[trigger] after[j] == before[j]
    &&& match r {
        Ok(total) => total == src.len() && after[c as int] == before[c as int] + src,
        Err(_) => took_prefix(before[c as int], after[c as int], src),
    }
}

/// The concatenation, in order, of each `srcs[i]` whose `i` falls on sink `j`
/// when `srcs` are dealt out to `n` sinks from the first.
pub open spec fn dealt_to(n: nat, srcs: Seq<Seq<u8>>, j: int) -> Seq<u8>
    decreases srcs.len(),
{
    if srcs.len() == 0 {
        Seq::empty()
    } else {
        let rest = dealt_to(n, srcs.drop_last(), j);
        if (srcs.len() - 1) % (n as int) == j {
            rest + srcs.last()
        } else {
            rest
        }
    }
}

/// Whether `states` and `cursors` trace successful round-robin copies of
/// `srcs` over `n` sinks: each step is one copy that returned `Ok`.
pub open spec fn copies_traced(
    n: nat,
    srcs: Seq<Seq<u8>>,
    states: Seq<Seq<Seq<u8>>>,
    cursors: Seq<nat>,
) -> bool {
    &&& states.len() == srcs.len() + 1
    &&& cursors.len() == srcs.len() + 1
    &&& forall|i: int|
        0 <= i < srcs.len() ==> {
            &&& dealt_outcome(
                #[trigger] states[i],
                states[i + 1],
                cursors[i],
                srcs[i],
                Ok(srcs[i].len() as u64),
            )
            &&& cursors[i + 1] == next_cursor(cursors[i], n)
        }
}

/// Round-robin cycling: when successive copies of `srcs` all succeed on a
/// copier over `n` sinks whose cursor starts at the first sink, sink `j` gains
/// exactly the sources whose position is `j` modulo `n`, in call order, and the
/// cursor ends at the number of copies modulo `n`.
pub proof fn lemma_round_robin_cycling(
    n: nat,
    srcs: Seq<Seq<u8>>,
    states: Seq<Seq<Seq<u8>>>,
    cursors: Seq<nat>,
)
    requires
        n > 0,
        states.len() > 0,
        states[0].len() == n,
        cursors.len() > 0,
        cursors[0] == 0,
        copies_traced(n, srcs, states, cursors),
        forall|i: int| 0 <= i < srcs.len() ==> #[trigger] srcs[i].len() <= u64::MAX,
    ensures
        cursors.last() == srcs.len() % n,
        states.last().len() == n,
        forall|j: int| 0 <= j < n ==> #[trigger] states.last()[j] == states[0][j] + dealt_to(n, srcs, j),
    decreases srcs.len(),
{
    let m = srcs.len();
    if m == 0 {
        assert forall|j: int| 0 <= j < n implies #[trigger] states.last()[j] == states[0][j]
            + dealt_to(n, srcs, j) by {
            assert(states[0][j] + Seq::<u8>::empty() =~= states[0][j]);
        }
    } else {
        let k = m - 1;
        let p_srcs = srcs.drop_last();
        let p_states = states.drop_last();
        let p_cursors = cursors.drop_last();
        assert forall|i: int| 0 <= i < p_srcs.len() implies {
            &&& dealt_outcome(
                #[trigger] p_states[i],
                p_states[i + 1],
                p_cursors[i],
                p_srcs[i],
                Ok(p_srcs[i].len() as u64),
            )
            &&& p_cursors[i + 1] == next_cursor(p_cursors[i], n)
        } by {
            assert(p_states[i] == states[i]);
        }
        lemma_round_robin_cycling(n, p_srcs, p_states, p_cursors);
        assert(p_states.last() == states[k]);
        assert(dealt_outcome(states[k], states[k + 1], cursors[k], srcs[k], Ok(srcs[k].len() as u64)));
        let c = cursors[k];
        assert(c == k % (n as int));
        lemma_add_mod_noop(k, 1, n as int);
        lemma_add_mod_noop(k % (n as int), 1, n as int);
        lemma_mod_twice(k, n as int);
        assert(cursors.last() == m % n);
        assert forall|j: int| 0 <= j < n implies #[trigger] states.last()[j] == states[0][j]
            + dealt_to(n, srcs, j) by {
            assert(srcs.last() == srcs[k]);
            if j == c {
                assert(states[0][j] + dealt_to(n, p_srcs, j) + srcs[k] =~= states[0][j] + (dealt_to(
                    n,
                    p_srcs,
                    j,
                ) + srcs[k]));
            }
        }
    }
}

/// A copy of an empty source changes no sink and, when it succeeds, reports zero.
pub proof fn lemma_dealt_empty_source(
    before: Seq<Seq<u8>>,
    after: Seq<Seq<u8>>,
    c: nat,
    r: Result<u64, IoError>,
)
    requires
        dealt_outcome(before, after, c, Seq::empty(), r),
    ensures
        after == before,
        r is Ok ==> r == Ok::<u64, IoError>(0),
{
    let e = Seq::<u8>::empty();
    if r is Err {
        let k = choose|k: int| 0 <= k <= e.len() && after[c as int] == before[c as int] + e.subrange(0, k);
        assert(before[c as int] + e.subrange(0, k) =~= before[c as int]);
    } else {
        assert(before[c as int] + e =~= before[c as int]);
    }
    assert(after =~= before);
}

/// Hands each copy to one sink of a fixed pool, taking the sinks in turn.
///
/// The cursor moves on by one after every copy, whether it succeeded or not.
pub struct RoundRobinCopier<'a, S: Sink + ?Sized> {
    /// The pool of sinks, in the order the cursor visits them.
    pub writers: Vec<&'a mut S>,
    /// The index of the sink the next copy goes to; `wf` keeps it in the pool.
    pub current: usize,
}

impl<'a, S: Sink + ?Sized> RoundRobinCopier<'a, S> {
    /// What each sink has accepted, in pool order.
    pub open spec fn contents(&self) -> Seq<Seq<u8>> {
        accepted_all(self.writers@)
    }

    /// Whether each sink is reliable, in pool order.
    pub open spec fn reliable_sinks(&self) -> Seq<bool> {
        reliable_all(self.writers@)
    }

    /// The index of the sink that the next copy goes to.
    pub open spec fn cursor(&self) -> nat {
        self.current as nat
    }

    /// The pool is not empty and the cursor points into it.
    pub open spec fn wf(&self) -> bool {
        &&& self.writers@.len() > 0
        &&& self.current < self.writers@.len()
    }

    /// A copier over `writers`, starting at the first; the pool may not be empty.
    pub fn new(writers: Vec<&'a mut S>) -> (r: Self)
        requires
            writers@.len() > 0,
        ensures
            r.writers == writers,
            r.wf(),
            r.cursor() == 0,
            r.contents() == accepted_all(writers@),
            r.contents().len() == writers@.len(),
            r.reliable_sinks() == reliable_all(writers@),
    {
        let current: usize = 0;
        RoundRobinCopier { writers, current }
    }

    /// Copies everything that `reader` has left into the sink under the cursor,
    /// moves the cursor on, and says how many bytes were copied.
    pub fn copy<R: Source + ?Sized>(&mut self, reader: &mut R) -> (r: Result<u64, IoError>)
        requires
            old(self).wf(),
            old(reader).remaining().len() <= u64::MAX,
        ensures
            final(self).wf(),
            final(self).cursor() == next_cursor(old(self).cursor(), old(self).contents().len()),
            dealt_outcome(
                old(self).contents(),
                final(self).contents(),
                old(self).cursor(),
                old(reader).remaining(),
                r,
            ),
            r is Ok ==> final(reader).remaining().len() == 0,
            gave_prefix(old(reader).remaining(), final(reader).remaining()),
            r is Err ==> took_prefix(
                old(self).contents()[old(self).cursor() as int],
                final(self).contents()[old(self).cursor() as int],
                read_so_far(old(reader).remaining(), final(reader).remaining()),
            ),
            r is Err && old(self).reliable_sinks()[old(self).cursor() as int] ==> final(self).contents()[old(
                self,
            ).cursor() as int] == old(self).contents()[old(self).cursor() as int] + read_so_far(
                old(reader).remaining(),
                final(reader).remaining(),
            ),
            final(self).reliable_sinks() == old(self).reliable_sinks(),
            final(self).writers@.len() == old(self).writers@.len(),
            forall|j: int| 0 <= j < old(self).writers@.len() ==> (*final(#[trigger] final(self).writers@[j])).accepted() == (*final(old(self).writers@[j])).accepted(),
            old(reader).reliable() && old(self).reliable_sinks()[old(self).cursor() as int] ==> r is Ok,
            old(reader).reliable() && old(reader).remaining().len() == 0 ==> r == Ok::<u64, IoError>(0)
                && final(self).contents() == old(self).contents(),
    {
        let index: usize = self.current;
        let n: usize = self.writers.len();
        self.current = (index + 1) % n;
        let ghost prev = self.writers@;
        let w: &mut &'a mut S = &mut self.writers[index];
        let res = copy(reader, &mut **w);
        proof {
            lemma_one_sink_changed(prev, self.writers@, index as int);
        }
        res
    }
}

} // verus!
