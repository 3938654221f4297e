use wt_tools::websocket::{Outbound, WebSocketStream};

fn s(text: &str) -> String {
    text.to_string()
}

fn names(list: &[&str]) -> Vec<String> {
    list.iter().map(|n| n.to_string()).collect()
}

fn out(sink: u64, frame: &str) -> Outbound {
    Outbound { sink, frame: s(frame) }
}

#[test]
fn a_new_hub_knows_nobody() {
    let hub = WebSocketStream::new();
    assert_eq!(hub.get_peer_list(), Vec::<String>::new());
    assert_eq!(hub.sink_of("A"), None);
    assert_eq!(hub.relay_message("A", "A:offer:B:sdp"), vec![]);
}

#[test]
fn the_first_peer_is_answered_with_itself() {
    let mut hub = WebSocketStream::new();
    assert_eq!(hub.handle_message(1, "register:A:all"), vec![out(1, "A")]);
    assert_eq!(hub.get_peer_list(), names(&["A"]));
    assert_eq!(hub.sink_of("A"), Some(1));
}

#[test]
fn the_second_peer_learns_of_the_first_and_the_first_of_the_second() {
    let mut hub = WebSocketStream::new();
    hub.handle_message(1, "register:A:all");
    let written = hub.handle_message(2, "register:B:all,ops");
    assert_eq!(written, vec![out(2, "A,B"), out(1, "new_peer:B:all,ops")]);
    let list: Vec<&str> = written[0].frame.split(',').collect();
    assert!(list.contains(&"A"));
    assert!(written.contains(&out(1, "new_peer:B:all,ops")));
}

#[test]
fn a_newcomer_is_announced_to_every_other_peer() {
    let mut hub = WebSocketStream::new();
    hub.handle_message(1, "register:A:all");
    hub.handle_message(2, "register:B:all");
    let written = hub.handle_message(3, "register:C:x");
    assert_eq!(written, vec![out(3, "A,B,C"), out(1, "new_peer:C:x"), out(2, "new_peer:C:x")]);
}

#[test]
fn registering_again_evicts_the_earlier_connection() {
    let mut hub = WebSocketStream::new();
    hub.handle_message(1, "register:A:all");
    hub.handle_message(9, "register:A:all");
    assert_eq!(hub.get_peer_list(), names(&["A"]));
    assert_eq!(hub.sink_of("A"), Some(9));
    assert_eq!(hub.relay_message("A", "A:answer:B:sdp"), vec![out(9, "A:answer:B:sdp")]);
}

#[test]
fn registering_again_keeps_the_place_in_the_list() {
    let mut hub = WebSocketStream::new();
    hub.register("A", 1);
    hub.register("B", 2);
    hub.register("A", 3);
    assert_eq!(hub.get_peer_list(), names(&["A", "B"]));
    assert_eq!(hub.sink_of("A"), Some(3));
    assert_eq!(hub.sink_of("B"), Some(2));
}

#[test]
fn a_frame_of_four_fields_goes_to_the_peer_in_its_first_field() {
    let mut hub = WebSocketStream::new();
    hub.register("A", 1);
    hub.register("B", 2);
    assert_eq!(hub.handle_message(1, "B:offer:A:v=0"), vec![out(2, "B:offer:A:v=0")]);
    assert_eq!(
        hub.handle_message(1, "B:offer:A:v=0:all,ops"),
        vec![out(2, "B:offer:A:v=0:all,ops")]
    );
    assert_eq!(hub.handle_message(2, "A:anything:at:all"), vec![out(1, "A:anything:at:all")]);
    assert_eq!(hub.handle_message(2, "B:note:to:self"), vec![out(2, "B:note:to:self")]);
}

#[test]
fn frames_for_nobody_are_dropped() {
    let mut hub = WebSocketStream::new();
    hub.register("A", 1);
    assert_eq!(hub.handle_message(1, "C:offer:A:v=0"), vec![]);
    assert_eq!(hub.handle_message(1, "A:offer:B"), vec![]);
    assert_eq!(hub.handle_message(1, "group_update:A:x"), vec![]);
    assert_eq!(hub.handle_message(1, ""), vec![]);
    assert_eq!(hub.handle_message(1, "register:A"), vec![]);
    assert_eq!(hub.get_peer_list(), names(&["A"]));
}

#[test]
fn a_dropped_connection_leaves_the_directory() {
    let mut hub = WebSocketStream::new();
    hub.register("A", 1);
    hub.register("B", 2);
    hub.register("C", 1);
    hub.disconnect(1);
    assert_eq!(hub.get_peer_list(), names(&["B"]));
    assert_eq!(hub.sink_of("A"), None);
    assert_eq!(hub.handle_message(2, "A:offer:B:v=0"), vec![]);
}

#[test]
fn an_evicted_connection_that_drops_takes_nobody_along() {
    let mut hub = WebSocketStream::new();
    hub.register("A", 1);
    hub.register("A", 2);
    hub.disconnect(1);
    assert_eq!(hub.get_peer_list(), names(&["A"]));
    assert_eq!(hub.sink_of("A"), Some(2));
}

#[test]
fn a_registration_with_an_odd_group_text_is_passed_on_as_it_is() {
    let mut hub = WebSocketStream::new();
    hub.register("A", 1);
    assert_eq!(
        hub.handle_message(2, "register:B:x:y,,z"),
        vec![out(2, "A,B"), out(1, "new_peer:B:x:y,,z")]
    );
}
