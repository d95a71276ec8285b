//! The abstract state of a reorder buffer and the effect of each operation on it.

use crate::sequence_buffer::SequencedPacket;
use vstd::prelude::*;

verus! {

/// What a reorder buffer holds, seen from outside: the smallest sequence number
/// not yet released, and the packets waiting, keyed by sequence number.
pub struct BufferModel {
    pub next_expected: u64,
    pub held: Map<u64, SequencedPacket>,
}

impl BufferModel {
    /// A buffer before any packet arrived.
    pub open spec fn fresh() -> BufferModel {
        BufferModel { next_expected: 0, held: Map::empty() }
    }

    /// Finitely many packets are held, each under its own sequence number, and
    /// none of them lies before the next expected number.
    pub open spec fn wf(self) -> bool {
        &&& self.held.dom().finite()
        &&& forall|k: u64| #[trigger]
            self.held.contains_key(k) ==> k >= self.next_expected && self.held[k].sequence_number
                == k
    }

    /// A pushed packet is kept iff it is not stale and its number is not held yet.
    pub open spec fn accepts(self, p: SequencedPacket) -> bool {
        p.sequence_number >= self.next_expected && !self.held.contains_key(p.sequence_number)
    }

    pub open spec fn after_push(self, p: SequencedPacket) -> BufferModel {
        if self.accepts(p) {
            BufferModel {
                next_expected: self.next_expected,
                held: self.held.insert(p.sequence_number, p),
            }
        } else {
            self
        }
    }

    /// The packet with the next expected number has arrived.
    pub open spec fn ready(self) -> bool {
        self.held.contains_key(self.next_expected)
    }

    /// What a poll hands out.
    pub open spec fn released(self) -> Option<SequencedPacket> {
        if self.ready() {
            Some(self.held[self.next_expected])
        } else {
            None
        }
    }

    pub open spec fn after_poll(self) -> BufferModel {
        if self.ready() {
            BufferModel {
                next_expected: (self.next_expected + 1) as u64,
                held: self.held.remove(self.next_expected),
            }
        } else {
            self
        }
    }

    /// Only the packet released last may be handed back.
    pub open spec fn can_repush(self, p: SequencedPacket) -> bool {
        p.sequence_number + 1 == self.next_expected
    }

    pub open spec fn after_repush(self, p: SequencedPacket) -> BufferModel {
        BufferModel {
            next_expected: p.sequence_number,
            held: self.held.insert(p.sequence_number, p),
        }
    }
}

/// One call on a buffer, as seen by the model.
pub enum Step {
    Push(SequencedPacket),
    Poll,
}

/// The state after `steps`, started from `m`, and the packets released on the way.
pub open spec fn run(m: BufferModel, steps: Seq<Step>) -> (BufferModel, Seq<SequencedPacket>)
    decreases steps.len(),
{
    if steps.len() == 0 {
        (m, Seq::empty())
    } else {
        let (before, out) = run(m, steps.drop_last());
        match steps.last() {
            Step::Push(p) => (before.after_push(p), out),
            Step::Poll => (
                before.after_poll(),
                match before.released() {
                    Some(p) => out.push(p),
                    None => out,
                },
            ),
        }
    }
}

/// `n` polls in a row.
pub open spec fn polls(n: nat) -> Seq<Step> {
    Seq::new(n, |i: int| Step::Poll)
}

/// Every operation keeps a well-formed buffer well formed.
pub proof fn lemma_steps_keep_wf(m: BufferModel, p: SequencedPacket)
    requires
        m.wf(),
    ensures
        m.after_push(p).wf(),
        m.next_expected < u64::MAX ==> m.after_poll().wf(),
        m.can_repush(p) ==> m.after_repush(p).wf(),
        m.released() matches Some(q) ==> q.sequence_number == m.next_expected,
{
}

/// Whatever is pushed and polled, and in whatever order, the packets released
/// carry the consecutive sequence numbers that follow the starting point, and
/// the next expected number counts them.
pub proof fn lemma_released_in_order(m: BufferModel, steps: Seq<Step>)
    requires
        m.wf(),
        m.next_expected + steps.len() < u64::MAX,
    ensures
        run(m, steps).0.wf(),
        run(m, steps).1.len() <= steps.len(),
        run(m, steps).0.next_expected == m.next_expected + run(m, steps).1.len(),
        forall|i: int|
            0 <= i < run(m, steps).1.len() ==> (#[trigger] run(m, steps).1[i]).sequence_number
                == m.next_expected + i,
    decreases steps.len(),
{
    if steps.len() > 0 {
        lemma_released_in_order(m, steps.drop_last());
        let (before, out) = run(m, steps.drop_last());
        match steps.last() {
            Step::Push(p) => lemma_steps_keep_wf(before, p),
            Step::Poll => {
                if let Some(p) = before.released() {
                    lemma_steps_keep_wf(before, p);
                }
            },
        }
    }
}

/// From a fresh buffer, the packets released are numbered 0, 1, 2, ... in turn.
pub proof fn lemma_fresh_released_in_order(steps: Seq<Step>)
    requires
        steps.len() < u64::MAX,
    ensures
        forall|i: int|
            0 <= i < run(BufferModel::fresh(), steps).1.len() ==> (#[trigger] run(
                BufferModel::fresh(),
                steps,
            ).1[i]).sequence_number == i,
{
    lemma_released_in_order(BufferModel::fresh(), steps);
}

/// Where exactly the numbers from the next expected one up to `n` further are
/// held, `n` polls release those packets in order and leave the buffer empty, and
/// the poll after them releases nothing.
pub proof fn lemma_drain(m: BufferModel, n: nat)
    requires
        m.wf(),
        m.next_expected + n < u64::MAX,
        forall|k: u64| m.held.contains_key(k) <==> m.next_expected <= k < m.next_expected + n,
    ensures
        run(m, polls(n)).1.len() == n,
        forall|i: int|
            0 <= i < n ==> #[trigger] run(m, polls(n)).1[i] == m.held[(m.next_expected + i) as u64],
        run(m, polls(n)).0.next_expected == m.next_expected + n,
        run(m, polls(n)).0.held.is_empty(),
        run(m, polls(n)).0.released() is None,
{
    lemma_drain_prefix(m, n, n);
    assert(run(m, polls(n)).0.held.dom() =~= Set::empty());
}

proof fn lemma_drain_prefix(m: BufferModel, n: nat, j: nat)
    requires
        m.wf(),
        j <= n,
        m.next_expected + n < u64::MAX,
        forall|k: u64| m.held.contains_key(k) <==> m.next_expected <= k < m.next_expected + n,
    ensures
        run(m, polls(j)).1.len() == j,
        forall|i: int|
            0 <= i < j ==> #[trigger] run(m, polls(j)).1[i] == m.held[(m.next_expected + i) as u64],
        run(m, polls(j)).0.next_expected == m.next_expected + j,
        forall|k: u64|
            run(m, polls(j)).0.held.contains_key(k) <==> m.next_expected + j <= k < m.next_expected
                + n,
        forall|k: u64| #[trigger]
            run(m, polls(j)).0.held.contains_key(k) ==> run(m, polls(j)).0.held[k] == m.held[k],
    decreases j,
{
    if j > 0 {
        lemma_drain_prefix(m, n, (j - 1) as nat);
        assert(polls(j).drop_last() =~= polls((j - 1) as nat));
    }
}

/// While the next expected packet is missing and is not pushed, polls release
/// nothing and the buffer stays at that number, however many later packets arrive.
pub proof fn lemma_gap_blocks(m: BufferModel, steps: Seq<Step>)
    requires
        m.wf(),
        !m.ready(),
        forall|i: int|
            0 <= i < steps.len() ==> (#[trigger] steps[i] matches Step::Push(p)
                ==> p.sequence_number != m.next_expected),
    ensures
        run(m, steps).1.len() == 0,
        run(m, steps).0.next_expected == m.next_expected,
        !run(m, steps).0.ready(),
    decreases steps.len(),
{
    if steps.len() > 0 {
        assert forall|i: int| 0 <= i < steps.drop_last().len() implies (
        #[trigger] steps.drop_last()[i] matches Step::Push(p) ==> p.sequence_number
            != m.next_expected) by {
            assert(steps.drop_last()[i] == steps[i]);
        }
        lemma_gap_blocks(m, steps.drop_last());
        assert(steps.last() == steps[steps.len() - 1]);
    }
}

/// A push whose number is already held changes nothing: the packet pushed first
/// stays the one that will be released.
pub proof fn lemma_duplicate_dropped(m: BufferModel, p: SequencedPacket)
    requires
        m.held.contains_key(p.sequence_number),
    ensures
        m.after_push(p) == m,
        m.after_push(p).held[p.sequence_number] == m.held[p.sequence_number],
{
}

/// A push whose number was already released changes nothing.
pub proof fn lemma_stale_dropped(m: BufferModel, p: SequencedPacket)
    requires
        p.sequence_number < m.next_expected,
    ensures
        m.after_push(p) == m,
{
}

/// Handing back a packet just released restores the buffer as it was before the
/// poll, so the next poll releases that same packet again.
pub proof fn lemma_repush_round_trip(m: BufferModel)
    requires
        m.wf(),
        m.ready(),
        m.next_expected < u64::MAX,
    ensures
        m.after_poll().can_repush(m.released().unwrap()),
        m.after_poll().after_repush(m.released().unwrap()) == m,
        m.after_poll().after_repush(m.released().unwrap()).released() == m.released(),
        m.after_poll().after_repush(m.released().unwrap()).after_poll().next_expected
            == m.next_expected + 1,
{
    let p = m.released().unwrap();
    assert(m.after_poll().after_repush(p).held =~= m.held);
}

/// After a poll, a hand-back and a second poll, the buffer is where the first poll
/// left it: later copies of the released number are dropped, and later packets
/// come out as they would have without the hand-back.
pub proof fn lemma_after_round_trip(m: BufferModel, q: SequencedPacket)
    requires
        m.wf(),
        m.ready(),
        m.next_expected < u64::MAX,
        q.sequence_number == m.next_expected,
    ensures
        m.after_poll().after_repush(m.released().unwrap()).after_poll() == m.after_poll(),
        m.after_poll().after_push(q) == m.after_poll(),
{
    lemma_repush_round_trip(m);
}

/// The sequence numbers of the packets pushed in `steps`.
pub open spec fn pushed(steps: Seq<Step>) -> Set<u64>
    decreases steps.len(),
{
    if steps.len() == 0 {
        Set::empty()
    } else {
        match steps.last() {
            Step::Push(p) => pushed(steps.drop_last()).insert(p.sequence_number),
            Step::Poll => pushed(steps.drop_last()),
        }
    }
}

/// Running two lists of steps one after the other is running them joined.
pub proof fn lemma_run_concat(m: BufferModel, a: Seq<Step>, b: Seq<Step>)
    ensures
        run(m, a + b).0 == run(run(m, a).0, b).0,
        run(m, a + b).1 == run(m, a).1 + run(run(m, a).0, b).1,
    decreases b.len(),
{
    if b.len() == 0 {
        assert(a + b =~= a);
        assert(run(m, a).1 + Seq::<SequencedPacket>::empty() =~= run(m, a).1);
    } else {
        assert((a + b).drop_last() =~= a + b.drop_last());
        assert((a + b).last() == b.last());
        lemma_run_concat(m, a, b.drop_last());
        let out_a = run(m, a).1;
        let out_b = run(run(m, a).0, b.drop_last()).1;
        if let Some(p) = run(run(m, a).0, b.drop_last()).0.released() {
            assert((out_a + out_b).push(p) =~= out_a + out_b.push(p));
        }
    }
}

/// Each number pushed is still held or already released, and each number held or
/// released was held at the start or pushed.
proof fn lemma_pushed_accounted(m: BufferModel, steps: Seq<Step>)
    requires
        m.wf(),
        m.next_expected + steps.len() < u64::MAX,
    ensures
        forall|k: u64|
            #![trigger run(m, steps).0.held.contains_key(k)]
            #![trigger pushed(steps).contains(k)]
            (run(m, steps).0.held.contains_key(k) || k < run(m, steps).0.next_expected) <==> (
            m.held.contains_key(k) || k < m.next_expected || pushed(steps).contains(k)),
    decreases steps.len(),
{
    if steps.len() > 0 {
        lemma_pushed_accounted(m, steps.drop_last());
        lemma_released_in_order(m, steps.drop_last());
    }
}

/// Where the packets pushed are numbered exactly 0 up to `n`, whatever their order
/// and however polls were interleaved, enough further polls release all of them,
/// numbered 0, 1, 2, ... in turn, and a poll after that releases nothing.
pub proof fn lemma_every_pushed_packet_released(steps: Seq<Step>, n: u64)
    requires
        steps.len() + n < u64::MAX,
        forall|k: u64| pushed(steps).contains(k) <==> k < n,
    ensures
        ({
            let all = steps + polls((n - run(BufferModel::fresh(), steps).1.len()) as nat);
            &&& run(BufferModel::fresh(), all).1.len() == n
            &&& forall|i: int|
                0 <= i < n ==> (#[trigger] run(BufferModel::fresh(), all).1[i]).sequence_number
                    == i
            &&& run(BufferModel::fresh(), all).0.released() is None
        }),
{
    let m0 = BufferModel::fresh();
    lemma_released_in_order(m0, steps);
    lemma_pushed_accounted(m0, steps);
    let (m, out) = run(m0, steps);
    assert(m.next_expected <= n) by {
        if m.next_expected > n {
            assert(pushed(steps).contains(n));
        }
    }
    let rest = (n - m.next_expected) as nat;
    assert forall|k: u64| m.held.contains_key(k) <==> m.next_expected <= k < m.next_expected
        + rest by {
        if m.held.contains_key(k) {
            assert(k >= m.next_expected);
        }
    }
    lemma_drain(m, rest);
    lemma_run_concat(m0, steps, polls(rest));
    let all = steps + polls(rest);
    assert forall|i: int| 0 <= i < n implies (#[trigger] run(m0, all).1[i]).sequence_number
        == i by {
        if i >= out.len() {
            let j = i - out.len();
            assert(run(m0, all).1[i] == run(m, polls(rest)).1[j]);
            assert(run(m, polls(rest)).1[j] == m.held[(m.next_expected + j) as u64]);
            assert(m.held.contains_key(i as u64));
        } else {
            assert(run(m0, all).1[i] == out[i]);
        }
    }
}

} // verus!
