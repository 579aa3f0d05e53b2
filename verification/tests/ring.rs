//! The ring buffer and its waiting strategies.
use matching_engine::disruptor::ring::{valid_capacity, RingBuffer};
use matching_engine::disruptor::sequence::Sequence;
use matching_engine::disruptor::wait::{BusySpinStrategy, Pause, WaitStrategy, YieldingStrategy};

#[test]
fn only_powers_of_two_are_capacities() {
    assert!(!valid_capacity(0));
    assert!(valid_capacity(1));
    assert!(!valid_capacity(7));
    assert!(valid_capacity(8));
    assert!(!valid_capacity(12));
}

#[test]
fn single_producer_single_consumer_roundtrip() {
    let mut ring: RingBuffer<u64> = RingBuffer::new(8);
    let consumer = ring.add_gating(Sequence::new(-1));
    let strategy = YieldingStrategy;
    let mut cur = -1i64;
    let mut my_seq = -1i64;
    let mut next = 0u64;
    let mut collected = Vec::new();
    while collected.len() < 100 {
        // The producer fills the ring as far as it may.
        while next < 100 {
            match ring.try_next_seq(cur) {
                Some(seq) => {
                    cur = seq;
                    *ring.slot_mut(seq) = next * 10;
                    ring.publish(seq);
                    next += 1;
                }
                None => break,
            }
        }
        // The consumer takes all that is there.
        let avail = strategy.wait_for(my_seq + 1, ring.cursor());
        for s in (my_seq + 1)..=avail {
            collected.push(*ring.slot(s));
        }
        my_seq = avail;
        ring.advance(consumer, avail);
    }
    assert_eq!(collected.len(), 100);
    for (i, v) in collected.iter().enumerate() {
        assert_eq!(*v, (i as u64) * 10);
    }
}

#[test]
fn backpressure_blocks_producer_until_consumer_catches_up() {
    let mut ring: RingBuffer<u64> = RingBuffer::new(4);
    let consumer = ring.add_gating(Sequence::new(-1));

    // Fill the ring without advancing the consumer.
    let mut cur = -1i64;
    for i in 0..4u64 {
        let seq = ring.next_seq(cur);
        cur = seq;
        *ring.slot_mut(seq) = i;
        ring.publish(seq);
    }

    // A fifth slot cannot be claimed before the consumer moves on.
    assert_eq!(ring.try_next_seq(cur), None);
    ring.advance(consumer, 0);
    assert_eq!(ring.try_next_seq(cur), Some(4));
}

#[test]
fn the_slowest_consumer_holds_the_producer_back() {
    let mut ring: RingBuffer<u8> = RingBuffer::new(2);
    let fast = ring.add_gating(Sequence::new(-1));
    let slow = ring.add_gating(Sequence::new(-1));
    assert_eq!(ring.capacity(), 2);
    ring.publish(1);
    ring.advance(fast, 1);
    assert_eq!(ring.try_next_seq(1), None);
    ring.advance(slow, 0);
    assert_eq!(ring.try_next_seq(1), Some(2));
}

#[test]
fn busy_spin_strategy_returns_immediately_when_satisfied() {
    let seq = Sequence::new(5);
    let strategy = BusySpinStrategy;
    let available = strategy.wait_for(3, &seq);
    assert_eq!(available, 5);
}

#[test]
fn yielding_strategy_returns_immediately_when_satisfied() {
    let seq = Sequence::new(5);
    let strategy = YieldingStrategy;
    let available = strategy.wait_for(3, &seq);
    assert_eq!(available, 5);
}

#[test]
fn strategies_pause_while_the_target_is_ahead() {
    let seq = Sequence::new(5);
    assert_eq!(BusySpinStrategy.poll(6, &seq), None);
    assert_eq!(YieldingStrategy.poll(6, &seq), None);
    assert!(matches!(BusySpinStrategy.pause(), Pause::Spin));
    assert!(matches!(YieldingStrategy.pause(), Pause::Yield));
}

#[test]
fn sequences_change_only_from_the_expected_value() {
    let mut seq = Sequence::new(5);
    assert_eq!(seq.compare_exchange(4, 9), Err(5));
    assert_eq!(seq.get(), 5);
    assert_eq!(seq.compare_exchange(5, 9), Ok(5));
    assert_eq!(seq.get(), 9);
    seq.set(-1);
    assert_eq!(seq.get(), -1);
}
