use wt_tools::discovery::{
    broadcast_names, host_name, room_name, service_name, WEBRTC_SERVICE, WEBSOCKET_SERVICE,
};

#[test]
fn a_room_is_named_after_itself_and_its_creator() {
    assert_eq!(service_name("lobby", "ann"), "lobby_by_ann");
    assert_eq!(service_name("Lobby", "Ann"), "Lobby_by_Ann");
    assert_eq!(service_name("", ""), "_by_");
    assert_eq!(host_name("ann"), "ann.local.");
}

#[test]
fn a_new_room_is_announced_in_lower_case() {
    assert_eq!(
        broadcast_names("Lobby One", "ANN"),
        ("lobby one_by_ann".to_string(), "ann.local.".to_string())
    );
    assert_eq!(broadcast_names("ÄÖ", "Ü"), ("äö_by_ü".to_string(), "ü.local.".to_string()));
}

#[test]
fn the_service_types_are_those_of_the_two_transports() {
    assert_eq!(WEBRTC_SERVICE, "_webrtc._udp.local.");
    assert_eq!(WEBSOCKET_SERVICE, "_ws._tcp.local.");
}

#[test]
fn the_room_is_the_last_segment_of_the_address() {
    assert_eq!(room_name("ws://10.0.0.1:8080/lobby"), "lobby");
    assert_eq!(room_name("ws://10.0.0.1:8080"), "10.0.0.1:8080");
    assert_eq!(room_name("ws://10.0.0.1:8080/"), "");
    assert_eq!(room_name("lobby"), "lobby");
    assert_eq!(room_name(""), "");
}
