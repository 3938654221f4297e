use wt_tools::communication::WebRTCModule;
use wt_tools::inbound::{AudioReceiver, Delivery, QUEUE_CAPACITY};

#[test]
fn frames_come_out_in_the_order_in_which_they_went_in() {
    let mut receiver = AudioReceiver::new("all", vec![1, 2]);
    assert_eq!(receiver.group(), "all");
    assert_eq!(receiver.deliver(true, 1, vec![10]), Delivery::Queued);
    assert_eq!(receiver.deliver(true, 2, vec![20, 21]), Delivery::Queued);
    assert_eq!(receiver.deliver(true, 1, vec![]), Delivery::Queued);
    assert_eq!(receiver.len(), 3);
    assert_eq!(receiver.next(), Some(vec![10]));
    assert_eq!(receiver.next(), Some(vec![20, 21]));
    assert_eq!(receiver.next(), Some(vec![]));
    assert_eq!(receiver.next(), None);
    assert_eq!(receiver.len(), 0);
}

#[test]
fn only_subscribed_channels_feed_a_receiver() {
    let mut receiver = AudioReceiver::new("all", vec![1]);
    assert!(receiver.is_fed_by(1));
    assert!(!receiver.is_fed_by(2));
    assert_eq!(receiver.deliver(true, 2, vec![1]), Delivery::NotSubscribed);
    assert_eq!(receiver.len(), 0);
}

#[test]
fn a_closed_gate_drops_the_frame() {
    let mut receiver = AudioReceiver::new("all", vec![1]);
    assert_eq!(receiver.deliver(false, 1, vec![1]), Delivery::GateClosed);
    assert_eq!(receiver.len(), 0);
    assert_eq!(receiver.deliver(true, 1, vec![2]), Delivery::Queued);
    assert_eq!(receiver.deliver(false, 1, vec![3]), Delivery::GateClosed);
    assert_eq!(receiver.next(), Some(vec![2]));
    assert_eq!(receiver.next(), None);
}

#[test]
fn a_full_queue_drops_the_newest_frame() {
    assert_eq!(QUEUE_CAPACITY, 100);
    let mut receiver = AudioReceiver::new("all", vec![1]);
    for i in 0..100u8 {
        assert_eq!(receiver.deliver(true, 1, vec![i]), Delivery::Queued);
    }
    assert_eq!(receiver.deliver(true, 1, vec![100]), Delivery::Overflow);
    assert_eq!(receiver.len(), 100);
    assert_eq!(receiver.next(), Some(vec![0]));
    assert_eq!(receiver.deliver(true, 1, vec![101]), Delivery::Queued);
    for i in 1..100u8 {
        assert_eq!(receiver.next(), Some(vec![i]));
    }
    assert_eq!(receiver.next(), Some(vec![101]));
    assert_eq!(receiver.next(), None);
}

#[test]
fn a_cancelled_receiver_takes_nothing() {
    let mut receiver = AudioReceiver::new("all", vec![1]);
    assert_eq!(receiver.deliver(true, 1, vec![1]), Delivery::Queued);
    receiver.cancel();
    assert!(receiver.is_cancelled());
    assert_eq!(receiver.next(), None);
    assert_eq!(receiver.deliver(true, 1, vec![2]), Delivery::Cancelled);
    assert_eq!(receiver.len(), 0);
}

#[test]
fn a_receiver_is_fed_by_the_channels_of_the_group_at_the_time_of_the_call() {
    let mut client = WebRTCModule::new();
    client.join_group("all", 1);
    let mut early = client.receive_audio("all");
    client.join_group("all", 2);
    let mut late = client.receive_audio("all");
    assert_eq!(client.deliver_audio(&mut early, 1, vec![1]), Delivery::Queued);
    assert_eq!(client.deliver_audio(&mut early, 2, vec![2]), Delivery::NotSubscribed);
    assert_eq!(client.deliver_audio(&mut late, 2, vec![2]), Delivery::Queued);
    assert_eq!(early.next(), Some(vec![1]));
    assert_eq!(early.next(), None);
    assert_eq!(late.next(), Some(vec![2]));
}

#[test]
fn the_receiving_gate_is_read_at_delivery() {
    let mut client = WebRTCModule::new();
    client.join_group("all", 1);
    let mut receiver = client.receive_audio("all");
    assert!(client.is_receiving());
    assert_eq!(client.deliver_audio(&mut receiver, 1, vec![1]), Delivery::Queued);
    client.stop_receiving_audio();
    assert!(!client.is_receiving());
    assert_eq!(client.deliver_audio(&mut receiver, 1, vec![2]), Delivery::GateClosed);
    client.resume_receiving_audio();
    assert_eq!(client.deliver_audio(&mut receiver, 1, vec![3]), Delivery::Queued);
    assert_eq!(receiver.next(), Some(vec![1]));
    assert_eq!(receiver.next(), Some(vec![3]));
    assert_eq!(receiver.next(), None);
}
