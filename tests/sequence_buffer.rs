use sub_lib::sequence_buffer::{SequenceBuffer, SequencedPacket};

#[test]
fn uses_zero_when_creating_sequenced_packet_from_transmit_data_msg_with_no_sequence_number() {
    let result = SequencedPacket::from_transmit(vec![1, 4, 5, 9], None, true);

    assert_eq!(result.sequence_number, 0)
}

#[test]
fn can_create_sequenced_packet_from_transmit_data_msg() {
    let result = SequencedPacket::from_transmit(vec![1, 4, 5, 9], Some(1), true);

    assert_eq!(result.data, vec![1, 4, 5, 9]);
    assert_eq!(result.sequence_number, 1);
    assert_eq!(result.last_data, true);

    let result = SequencedPacket::from_transmit(vec![4, 2, 5, 67], Some(4), false);

    assert_eq!(result.data, vec![4, 2, 5, 67]);
    assert_eq!(result.sequence_number, 4);
    assert_eq!(result.last_data, false);
}

#[test]
fn sequence_buffer_reorders_out_of_order_sequenced_packets() {
    let a = SequencedPacket::new(vec![1, 23, 6, 5], 0, false);
    let b = SequencedPacket::new(vec![5, 9, 1, 2, 5], 1, false);
    let c = SequencedPacket::new(vec![1, 1, 1, 1, 0], 2, false);
    let d = SequencedPacket::new(vec![32, 41, 0, 5, 1, 2, 6], 3, false);
    let e = SequencedPacket::new(vec![], 4, false);

    let mut subject = SequenceBuffer::new();

    subject.push(b.clone());
    subject.push(d.clone());
    subject.push(a.clone());
    subject.push(e.clone());
    subject.push(c.clone());

    assert_eq!(subject.poll(), Some(a));
    assert_eq!(subject.poll(), Some(b));
    assert_eq!(subject.poll(), Some(c));
    assert_eq!(subject.poll(), Some(d));
    assert_eq!(subject.poll(), Some(e));
    assert_eq!(subject.poll(), None);
}

#[test]
fn sequence_buffer_returns_none_while_waiting_for_next_ordered_sequenced_packet() {
    let a = SequencedPacket::new(vec![1, 23, 6, 5], 0, false);
    let b = SequencedPacket::new(vec![5, 9, 1, 2, 5], 1, false);
    let c = SequencedPacket::new(vec![1, 1, 1, 1, 0], 2, false);
    let d = SequencedPacket::new(vec![32, 41, 0, 5, 1, 2, 6], 3, false);
    let e = SequencedPacket::new(vec![], 4, false);

    let mut subject = SequenceBuffer::new();

    subject.push(b.clone());
    assert_eq!(subject.poll(), None);
    subject.push(d.clone());
    assert_eq!(subject.poll(), None);
    subject.push(a.clone());
    assert_eq!(subject.poll(), Some(a));
    assert_eq!(subject.poll(), Some(b));
    assert_eq!(subject.poll(), None);
    subject.push(e.clone());
    assert_eq!(subject.poll(), None);
    subject.push(c.clone());
    assert_eq!(subject.poll(), Some(c));
    assert_eq!(subject.poll(), Some(d));
    assert_eq!(subject.poll(), Some(e));
    assert_eq!(subject.poll(), None);
}

#[test]
fn sequence_buffer_ignores_packets_with_duplicate_sequence_numbers() {
    let a = SequencedPacket::new(vec![1, 23, 6, 5], 0, false);
    let b = SequencedPacket::new(vec![5, 9, 1, 2, 5], 1, false);
    let b_dup = SequencedPacket::new(vec![6, 8, 2, 3, 6], 1, false);
    let c = SequencedPacket::new(vec![1, 1, 1, 1, 0], 2, false);
    let d = SequencedPacket::new(vec![32, 41, 0, 5, 1, 2, 6], 3, false);
    let e = SequencedPacket::new(vec![], 4, false);

    let mut subject = SequenceBuffer::new();

    subject.push(b.clone());
    assert_eq!(subject.poll(), None);
    subject.push(d.clone());
    assert_eq!(subject.poll(), None);
    subject.push(b_dup.clone());
    assert_eq!(subject.poll(), None);
    subject.push(a.clone());
    assert_eq!(subject.poll(), Some(a));
    assert_eq!(subject.poll(), Some(b));
    assert_eq!(subject.poll(), None);
    subject.push(e.clone());
    assert_eq!(subject.poll(), None);
    subject.push(c.clone());
    assert_eq!(subject.poll(), Some(c));
    assert_eq!(subject.poll(), Some(d));
    assert_eq!(subject.poll(), Some(e));
    assert_eq!(subject.poll(), None);
}

#[test]
fn sequence_buffer_ignores_delayed_duplicate_sequence_number() {
    let a = SequencedPacket::new(vec![1, 23, 6, 5], 0, false);
    let b = SequencedPacket::new(vec![5, 9, 1, 2, 5], 1, false);
    let b_dup = SequencedPacket::new(vec![6, 8, 2, 3, 6], 1, false);
    let c = SequencedPacket::new(vec![1, 1, 1, 1, 0], 2, false);
    let d = SequencedPacket::new(vec![32, 41, 0, 5, 1, 2, 6], 3, false);
    let e = SequencedPacket::new(vec![], 4, false);

    let mut subject = SequenceBuffer::new();

    subject.push(b.clone());
    assert_eq!(subject.poll(), None);
    subject.push(d.clone());
    assert_eq!(subject.poll(), None);
    subject.push(a.clone());
    assert_eq!(subject.poll(), Some(a));
    assert_eq!(subject.poll(), Some(b));
    assert_eq!(subject.poll(), None);
    subject.push(e.clone());
    assert_eq!(subject.poll(), None);
    subject.push(c.clone());
    assert_eq!(subject.poll(), Some(c));
    assert_eq!(subject.poll(), Some(d));
    subject.push(b_dup.clone());
    assert_eq!(subject.poll(), Some(e));
    assert_eq!(subject.poll(), None);
}

#[test]
fn sequence_buffer_can_re_add_a_popped_packet() {
    let mut subject = SequenceBuffer::new();
    let a = SequencedPacket::new(vec![1, 23, 6, 5], 1, false);
    let b = SequencedPacket::new(vec![5, 9, 1, 2, 5], 2, false);
    let c = SequencedPacket::new(vec![5, 9, 1, 2, 5], 0, false);

    subject.push(a);
    subject.push(b);
    subject.push(c.clone());

    let thing_we_pushed_back = subject.poll().unwrap();
    assert_eq!(thing_we_pushed_back, c);
    subject.repush(thing_we_pushed_back.clone());
    assert_eq!(subject.poll().unwrap(), thing_we_pushed_back);
}

#[test]
fn repush_does_not_interfere_with_ignoring_duplicate_sequence_numbers() {
    let mut subject = SequenceBuffer::new();

    let a = SequencedPacket::new(vec![4, 5, 6], 0, false);
    let b = SequencedPacket::new(vec![89], 1, false);
    let b_imposter = SequencedPacket::new(vec![254, 5, 7], 1, false);
    let c = SequencedPacket::new(vec![89], 2, false);

    subject.push(a.clone());
    subject.push(b.clone());

    assert_eq!(subject.poll(), Some(a));
    assert_eq!(subject.poll(), Some(b.clone()));

    subject.repush(b.clone());

    subject.push(b_imposter);

    assert_eq!(subject.poll(), Some(b));
    assert_eq!(subject.poll(), None);

    subject.push(c.clone());
    assert_eq!(subject.poll(), Some(c));
}
