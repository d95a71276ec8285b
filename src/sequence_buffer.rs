use crate::model::BufferModel;
use std::collections::HashSet;
use vstd::prelude::*;

verus! {

broadcast use vstd::std_specs::hash::group_hash_axioms;

/// A chunk of stream data together with its position in the stream.
#[derive(Debug, PartialEq, Eq, Clone)]
pub struct SequencedPacket {
    pub data: Vec<u8>,
    pub sequence_number: u64,
    pub last_data: bool,
}

impl SequencedPacket {
    pub fn new(data: Vec<u8>, sequence_number: u64, last_data: bool) -> (r: SequencedPacket)
        ensures
            r.data == data,
            r.sequence_number == sequence_number,
            r.last_data == last_data,
    {
        SequencedPacket { data, sequence_number, last_data }
    }

    /// Builds a packet from the parts of a transmit request. A request without a
    /// sequence number is placed at position 0.
    pub fn from_transmit(data: Vec<u8>, sequence_number: Option<u64>, last_data: bool) -> (r:
        SequencedPacket)
        ensures
            r.data == data,
            r.sequence_number == (match sequence_number {
                Some(n) => n,
                None => 0,
            }),
            r.last_data == last_data,
    {
        let n: u64 = match sequence_number {
            Some(n) => n,
            None => 0,
        };
        SequencedPacket::new(data, n, last_data)
    }
}

/// The packets of `s`, keyed by sequence number; a later entry overrides an earlier one.
pub closed spec fn held_of(s: Seq<SequencedPacket>) -> Map<u64, SequencedPacket>
    decreases s.len(),
{
    if s.len() == 0 {
        Map::empty()
    } else {
        held_of(s.drop_last()).insert(s.last().sequence_number, s.last())
    }
}

/// Sequence numbers strictly decrease along `s`: the smallest one is last.
pub open spec fn descending(s: Seq<SequencedPacket>) -> bool {
    forall|i: int, j: int|
        0 <= i < j < s.len() ==> #[trigger] s[i].sequence_number > #[trigger] s[j].sequence_number
}

proof fn lemma_held_of(s: Seq<SequencedPacket>)
    requires
        descending(s),
    ensures
        held_of(s).dom().finite(),
        held_of(s).dom().len() == s.len(),
        forall|k: u64|
            held_of(s).contains_key(k) <==> exists|i: int|
                0 <= i < s.len() && (#[trigger] s[i]).sequence_number == k,
        forall|i: int| 0 <= i < s.len() ==> held_of(s)[(#[trigger] s[i]).sequence_number] == s[i],
    decreases s.len(),
{
    if s.len() > 0 {
        let d = s.drop_last();
        assert(descending(d));
        lemma_held_of(d);
        let l = s.last();
        assert(!held_of(d).contains_key(l.sequence_number)) by {
            if held_of(d).contains_key(l.sequence_number) {
                let i = choose|i: int| 0 <= i < d.len() && d[i].sequence_number == l.sequence_number;
                assert(s[i] == d[i]);
            }
        }
        assert forall|k: u64|
            held_of(s).contains_key(k) <==> exists|i: int|
                0 <= i < s.len() && (#[trigger] s[i]).sequence_number == k by {
            if held_of(d).contains_key(k) {
                let i = choose|i: int| 0 <= i < d.len() && d[i].sequence_number == k;
                assert(s[i] == d[i]);
            }
            if exists|i: int| 0 <= i < s.len() && (#[trigger] s[i]).sequence_number == k {
                let i = choose|i: int| 0 <= i < s.len() && (#[trigger] s[i]).sequence_number == k;
                if i < s.len() - 1 {
                    assert(d[i] == s[i]);
                }
            }
        }
        assert forall|i: int| 0 <= i < s.len() implies held_of(s)[(
        #[trigger] s[i]).sequence_number] == s[i] by {
            if i < s.len() - 1 {
                assert(d[i] == s[i]);
            }
        }
    }
}

/// Inserting a packet whose number is not in `s` adds exactly that entry.
proof fn lemma_held_of_insert(s: Seq<SequencedPacket>, i: int, p: SequencedPacket)
    requires
        0 <= i <= s.len(),
        forall|j: int| 0 <= j < s.len() ==> (#[trigger] s[j]).sequence_number != p.sequence_number,
    ensures
        held_of(s.insert(i, p)) == held_of(s).insert(p.sequence_number, p),
    decreases s.len(),
{
    let t = s.insert(i, p);
    if i == s.len() {
        assert(t.drop_last() =~= s);
    } else {
        let d = s.drop_last();
        assert(t.drop_last() =~= d.insert(i, p));
        assert forall|j: int| 0 <= j < d.len() implies (#[trigger] d[j]).sequence_number
            != p.sequence_number by {
            assert(d[j] == s[j]);
        }
        lemma_held_of_insert(d, i, p);
        assert(t.last() == s.last());
        assert(s.last() == s[s.len() - 1]);
        assert(held_of(t) =~= held_of(s).insert(p.sequence_number, p));
    }
}

/// A reorder buffer: packets go in in any order and come out in sequence order,
/// each number once.
pub struct SequenceBuffer {
    buffer: Vec<SequencedPacket>,
    next_expected_sequence_number: u64,
    seen_sequence_numbers: HashSet<u64>,
}

impl View for SequenceBuffer {
    type V = BufferModel;

    closed spec fn view(&self) -> BufferModel {
        BufferModel {
            next_expected: self.next_expected_sequence_number,
            held: held_of(self.buffer@),
        }
    }
}

impl SequenceBuffer {
    /// The buffer keeps its packets ordered with the smallest number last, all of
    /// them at or after the next expected number, and `seen_sequence_numbers`
    /// holds exactly their numbers.
    pub closed spec fn wf(&self) -> bool {
        &&& descending(self.buffer@)
        &&& forall|i: int|
            0 <= i < self.buffer@.len() ==> (#[trigger] self.buffer@[i]).sequence_number
                >= self.next_expected_sequence_number
        &&& self.seen_sequence_numbers@ == held_of(self.buffer@).dom()
    }

    proof fn lemma_wf_model(&self)
        requires
            self.wf(),
        ensures
            self@.wf(),
            self@.held.dom().len() == self.buffer@.len(),
    {
        lemma_held_of(self.buffer@);
        assert forall|k: u64| #[trigger] self@.held.contains_key(k) implies k >= self@.next_expected
            && self@.held[k].sequence_number == k by {
            let i = choose|i: int|
                0 <= i < self.buffer@.len() && (#[trigger] self.buffer@[i]).sequence_number == k;
        }
    }

    pub fn new() -> (r: SequenceBuffer)
        ensures
            r.wf(),
            r@ == BufferModel::fresh(),
    {
        let r = SequenceBuffer {
            buffer: Vec::new(),
            next_expected_sequence_number: 0,
            seen_sequence_numbers: HashSet::new(),
        };
        assert(r@.held =~= Map::empty());
        r
    }

    /// Keeps `packet` unless its number was already released or is already held;
    /// a packet that is not kept is dropped.
    pub fn push(&mut self, packet: SequencedPacket)
        requires
            old(self).wf(),
        ensures
            final(self).wf(),
            final(self)@ == old(self)@.after_push(packet),
    {
        proof {
            lemma_held_of(self.buffer@);
        }
        let seq = packet.sequence_number;
        if seq >= self.next_expected_sequence_number && !self.seen_sequence_numbers.contains(&seq) {
            let mut i: usize = 0;
            while i < self.buffer.len() && self.buffer[i].sequence_number > seq
                invariant
                    0 <= i <= self.buffer@.len(),
                    forall|j: int| 0 <= j < i ==> (#[trigger] self.buffer@[j]).sequence_number > seq,
                decreases self.buffer@.len() - i,
            {
                i = i + 1;
            }
            let ghost s = self.buffer@;
            assert forall|j: int| 0 <= j < s.len() implies (#[trigger] s[j]).sequence_number
                != seq by {
                if s[j].sequence_number == seq {
                    assert(held_of(s).contains_key(seq));
                }
            }
            self.buffer.insert(i, packet);
            self.seen_sequence_numbers.insert(seq);
            proof {
                lemma_held_of_insert(s, i as int, packet);
                let t = self.buffer@;
                assert forall|a: int, b: int|
                    0 <= a < b < t.len() implies #[trigger] t[a].sequence_number > #[trigger] t[b].sequence_number by {
                    if b < i {
                        assert(t[a] == s[a] && t[b] == s[b]);
                    } else if b == i {
                        assert(t[a] == s[a]);
                    } else if a < i {
                        assert(t[a] == s[a] && t[b] == s[b - 1]);
                    } else if a == i {
                        assert(t[b] == s[b - 1]);
                        assert(s[b - 1].sequence_number <= s[i as int].sequence_number);
                    } else {
                        assert(t[a] == s[a - 1] && t[b] == s[b - 1]);
                    }
                }
                assert forall|j: int| 0 <= j < t.len() implies (#[trigger] t[j]).sequence_number
                    >= self.next_expected_sequence_number by {
                    if j < i {
                        assert(t[j] == s[j]);
                    } else if j > i {
                        assert(t[j] == s[j - 1]);
                    }
                }
                assert(self.seen_sequence_numbers@ =~= held_of(t).dom());
            }
        }
    }

    /// Hands out the packet with the next expected number if it has arrived, and
    /// moves on to the number after it; otherwise hands out nothing and changes
    /// nothing.
    pub fn poll(&mut self) -> (r: Option<SequencedPacket>)
        requires
            old(self).wf(),
            old(self)@.next_expected < u64::MAX,
        ensures
            final(self).wf(),
            r == old(self)@.released(),
            final(self)@ == old(self)@.after_poll(),
    {
        proof {
            lemma_held_of(self.buffer@);
        }
        let n = self.buffer.len();
        if n == 0 {
            return None;
        }
        let ghost s = self.buffer@;
        let seq = self.buffer[n - 1].sequence_number;
        if seq == self.next_expected_sequence_number {
            self.next_expected_sequence_number = self.next_expected_sequence_number + 1;
            let packet = self.buffer.pop().unwrap();
            self.seen_sequence_numbers.remove(&seq);
            proof {
                let d = self.buffer@;
                assert(d =~= s.drop_last());
                assert(descending(d));
                lemma_held_of(d);
                assert(!held_of(d).contains_key(seq)) by {
                    if held_of(d).contains_key(seq) {
                        let i = choose|i: int| 0 <= i < d.len() && d[i].sequence_number == seq;
                        assert(s[i] == d[i]);
                    }
                }
                assert(held_of(d) =~= held_of(s).remove(seq));
                assert(self.seen_sequence_numbers@ =~= held_of(d).dom());
                assert forall|j: int| 0 <= j < d.len() implies (#[trigger] d[j]).sequence_number
                    >= self.next_expected_sequence_number by {
                    assert(s[j] == d[j]);
                }
            }
            Some(packet)
        } else {
            proof {
                assert(!held_of(s).contains_key(self.next_expected_sequence_number)) by {
                    if held_of(s).contains_key(self.next_expected_sequence_number) {
                        let i = choose|i: int|
                            0 <= i < s.len() && s[i].sequence_number == self.next_expected_sequence_number;
                        if i < n - 1 {
                            assert(s[i].sequence_number > s[n - 1].sequence_number);
                        }
                    }
                }
            }
            None
        }
    }

    /// Hands back the packet released last, so that the next poll releases it again.
    pub fn repush(&mut self, packet: SequencedPacket)
        requires
            old(self).wf(),
            old(self)@.can_repush(packet),
        ensures
            final(self).wf(),
            final(self)@ == old(self)@.after_repush(packet),
    {
        proof {
            lemma_held_of(self.buffer@);
        }
        let ghost s = self.buffer@;
        let seq = packet.sequence_number;
        self.next_expected_sequence_number = seq;
        self.buffer.push(packet);
        self.seen_sequence_numbers.insert(seq);
        proof {
            let t = self.buffer@;
            assert(t.drop_last() =~= s);
            assert forall|a: int, b: int|
                0 <= a < b < t.len() implies #[trigger] t[a].sequence_number > #[trigger] t[b].sequence_number by {
                assert(t[a] == s[a]);
                if b < s.len() {
                    assert(t[b] == s[b]);
                }
            }
            assert forall|j: int| 0 <= j < t.len() implies (#[trigger] t[j]).sequence_number
                >= self.next_expected_sequence_number by {
                if j < s.len() {
                    assert(t[j] == s[j]);
                }
            }
            assert(self.seen_sequence_numbers@ =~= held_of(t).dom());
        }
    }

    pub fn next_expected(&self) -> (r: u64)
        ensures
            r == self@.next_expected,
    {
        self.next_expected_sequence_number
    }

    /// The number of packets held.
    pub fn len(&self) -> (r: usize)
        requires
            self.wf(),
        ensures
            r == self@.held.dom().len(),
    {
        proof {
            self.lemma_wf_model();
        }
        self.buffer.len()
    }
}

} // verus!
