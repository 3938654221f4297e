use wt_tools::communication::{
    ClientState, CodecError, Destination, FormattedAudio, SignalAction, SignalEvent, WebRTCModule,
};
use wt_tools::session::{Channel, NegotiationState, Role};

fn s(text: &str) -> String {
    text.to_string()
}

fn names(list: &[&str]) -> Vec<String> {
    list.iter().map(|n| n.to_string()).collect()
}

fn channel(group: &str, handle: u64) -> Channel {
    Channel { group: s(group), handle, active: true }
}

fn frame(text: &str) -> SignalEvent {
    SignalEvent::Frame(s(text))
}

fn send(text: &str) -> SignalAction {
    SignalAction::SendFrame(s(text))
}

fn running(id: &str, groups: &[&str], peers: &str) -> WebRTCModule {
    let mut client = WebRTCModule::new();
    client.begin(id, &names(groups));
    client.handle_event(&SignalEvent::Connected);
    client.handle_event(&frame(peers));
    client
}

#[test]
fn a_new_client_is_disconnected_with_open_gates() {
    let client = WebRTCModule::new();
    assert_eq!(client.state(), ClientState::Disconnected);
    assert!(client.is_sending());
    assert!(client.is_receiving());
    assert_eq!(client.peers(), Vec::<String>::new());
    assert_eq!(Destination, Destination);
}

#[test]
fn registration_goes_out_when_the_relay_is_connected() {
    let mut client = WebRTCModule::new();
    assert_eq!(client.handle_event(&SignalEvent::Connected), vec![]);
    assert_eq!(client.state(), ClientState::Disconnected);
    client.begin("me", &names(&["all", "ops"]));
    assert_eq!(client.state(), ClientState::Connecting);
    assert_eq!(client.handle_event(&SignalEvent::Connected), vec![send("register:me:all,ops")]);
    assert_eq!(client.state(), ClientState::Registered);
    assert_eq!(client.handle_event(&SignalEvent::Connected), vec![]);
}

#[test]
fn begin_is_taken_once() {
    let mut client = WebRTCModule::new();
    client.begin("me", &names(&["all"]));
    client.begin("you", &names(&["ops"]));
    assert_eq!(client.handle_event(&SignalEvent::Connected), vec![send("register:me:all")]);
}

#[test]
fn the_first_frame_is_the_list_of_peers_to_call() {
    let mut client = WebRTCModule::new();
    client.begin("me", &names(&["all", "ops"]));
    client.handle_event(&SignalEvent::Connected);
    let actions = client.handle_event(&frame("a,b"));
    assert_eq!(
        actions,
        vec![
            SignalAction::OpenSession {
                peer_id: s("a"),
                role: Role::Initiator,
                channels: vec![channel("all", 0), channel("ops", 1)],
            },
            SignalAction::CreateOffer { peer_id: s("a") },
            SignalAction::OpenSession {
                peer_id: s("b"),
                role: Role::Initiator,
                channels: vec![channel("all", 2), channel("ops", 3)],
            },
            SignalAction::CreateOffer { peer_id: s("b") },
        ]
    );
    assert_eq!(client.state(), ClientState::Running);
    assert_eq!(client.peers(), names(&["a", "b"]));
    assert_eq!(client.session_state("a"), Some(NegotiationState::Created));
    assert_eq!(client.group_channels("all"), vec![0, 2]);
    assert_eq!(client.group_channels("ops"), vec![1, 3]);
}

#[test]
fn the_local_offer_goes_out_with_the_groups_of_the_session() {
    let mut client = running("me", &["all", "ops"], "a");
    let actions =
        client.handle_event(&SignalEvent::LocalOffer { peer_id: s("a"), sdp: s("offer-sdp") });
    assert_eq!(actions, vec![send("a:offer:me:offer-sdp:all,ops")]);
    assert_eq!(client.session_state("a"), Some(NegotiationState::OfferSent));
    let again =
        client.handle_event(&SignalEvent::LocalOffer { peer_id: s("a"), sdp: s("offer-sdp") });
    assert_eq!(again, vec![]);
    let nobody =
        client.handle_event(&SignalEvent::LocalOffer { peer_id: s("z"), sdp: s("offer-sdp") });
    assert_eq!(nobody, vec![]);
}

#[test]
fn an_answer_connects_the_initiator() {
    let mut client = running("me", &["all"], "a");
    client.handle_event(&SignalEvent::LocalOffer { peer_id: s("a"), sdp: s("offer-sdp") });
    let actions = client.handle_event(&frame("me:answer:a:answer-sdp"));
    assert_eq!(
        actions,
        vec![SignalAction::ApplyRemoteAnswer { peer_id: s("a"), sdp: s("answer-sdp") }]
    );
    assert_eq!(client.session_state("a"), Some(NegotiationState::Connected));
    assert_eq!(client.handle_event(&frame("me:answer:a:answer-sdp")), vec![]);
    assert_eq!(client.session_state("a"), Some(NegotiationState::Connected));
    assert_eq!(client.handle_event(&frame("me:answer:nobody:answer-sdp")), vec![]);
}

#[test]
fn candidates_that_came_early_follow_the_answer() {
    let mut client = running("me", &["all"], "a");
    client.handle_event(&SignalEvent::LocalOffer { peer_id: s("a"), sdp: s("offer-sdp") });
    assert_eq!(client.handle_event(&frame("me:candidate:a:c1")), vec![]);
    assert_eq!(client.handle_event(&frame("me:candidate:a:c2")), vec![]);
    assert_eq!(client.handle_event(&frame("me:candidate:a:c3")), vec![]);
    assert_eq!(client.pending_candidates("a"), names(&["c1", "c2", "c3"]));
    let actions = client.handle_event(&frame("me:answer:a:answer-sdp"));
    assert_eq!(
        actions,
        vec![
            SignalAction::ApplyRemoteAnswer { peer_id: s("a"), sdp: s("answer-sdp") },
            SignalAction::AddCandidate { peer_id: s("a"), candidate: s("c1") },
            SignalAction::AddCandidate { peer_id: s("a"), candidate: s("c2") },
            SignalAction::AddCandidate { peer_id: s("a"), candidate: s("c3") },
        ]
    );
    assert_eq!(client.pending_candidates("a"), Vec::<String>::new());
    assert_eq!(
        client.handle_event(&frame("me:candidate:a:c4")),
        vec![SignalAction::AddCandidate { peer_id: s("a"), candidate: s("c4") }]
    );
    assert_eq!(client.handle_event(&frame("me:candidate:nobody:c5")), vec![]);
}

#[test]
fn an_offer_is_answered_by_a_responder_session() {
    let mut client = running("me", &["all"], "me");
    let actions = client.handle_event(&frame("me:offer:b:offer-sdp:ops,all"));
    assert_eq!(
        actions,
        vec![
            SignalAction::OpenSession {
                peer_id: s("b"),
                role: Role::Responder,
                channels: vec![channel("ops", 1), channel("all", 2)],
            },
            SignalAction::ApplyRemoteOffer { peer_id: s("b"), sdp: s("offer-sdp") },
            SignalAction::CreateAnswer { peer_id: s("b") },
        ]
    );
    assert_eq!(client.session_state("b"), Some(NegotiationState::OfferReceived));
    let sent =
        client.handle_event(&SignalEvent::LocalAnswer { peer_id: s("b"), sdp: s("answer-sdp") });
    assert_eq!(sent, vec![send("b:answer:me:answer-sdp")]);
    assert_eq!(client.session_state("b"), Some(NegotiationState::Connected));
    assert_eq!(
        client.handle_event(&frame("me:candidate:b:c1")),
        vec![SignalAction::AddCandidate { peer_id: s("b"), candidate: s("c1") }]
    );
}

#[test]
fn an_offer_without_groups_opens_a_session_without_channels() {
    let mut client = running("me", &["all"], "me");
    let actions = client.handle_event(&frame("me:offer:b:offer-sdp"));
    assert_eq!(
        actions,
        vec![
            SignalAction::OpenSession { peer_id: s("b"), role: Role::Responder, channels: vec![] },
            SignalAction::ApplyRemoteOffer { peer_id: s("b"), sdp: s("offer-sdp") },
            SignalAction::CreateAnswer { peer_id: s("b") },
        ]
    );
    assert_eq!(client.session_channels("b"), vec![]);
}

#[test]
fn two_clients_connect_through_their_actions() {
    let mut alice = running("alice", &["all"], "alice");
    let mut bob = running("bob", &["all"], "alice,bob");
    assert_eq!(bob.session_state("alice"), Some(NegotiationState::Created));
    let offer =
        bob.handle_event(&SignalEvent::LocalOffer { peer_id: s("alice"), sdp: s("offer-sdp") });
    assert_eq!(offer, vec![send("alice:offer:bob:offer-sdp:all")]);
    let asked = alice.handle_event(&frame("alice:offer:bob:offer-sdp:all"));
    assert_eq!(asked.len(), 3);
    let answer =
        alice.handle_event(&SignalEvent::LocalAnswer { peer_id: s("bob"), sdp: s("answer-sdp") });
    assert_eq!(answer, vec![send("bob:answer:alice:answer-sdp")]);
    bob.handle_event(&frame("bob:answer:alice:answer-sdp"));
    assert_eq!(alice.session_state("bob"), Some(NegotiationState::Connected));
    assert_eq!(bob.session_state("alice"), Some(NegotiationState::Connected));
}

#[test]
fn a_new_peer_is_called_with_its_own_groups() {
    let mut client = running("me", &["all"], "me");
    let actions = client.handle_event(&frame("new_peer:c:x,y"));
    assert_eq!(
        actions,
        vec![
            SignalAction::OpenSession {
                peer_id: s("c"),
                role: Role::Initiator,
                channels: vec![channel("x", 1), channel("y", 2)],
            },
            SignalAction::CreateOffer { peer_id: s("c") },
        ]
    );
    assert_eq!(client.groups_of("c"), Some(names(&["x", "y"])));
    assert_eq!(client.groups_of("d"), None);
    assert_eq!(client.group_channels("x"), vec![1]);
}

#[test]
fn a_second_session_with_a_peer_replaces_the_first() {
    let mut client = running("me", &["all"], "b");
    assert_eq!(client.group_channels("all"), vec![0]);
    let actions = client.handle_event(&frame("me:offer:b:offer-sdp:all"));
    assert_eq!(
        actions,
        vec![
            SignalAction::CloseSession { peer_id: s("b") },
            SignalAction::OpenSession {
                peer_id: s("b"),
                role: Role::Responder,
                channels: vec![channel("all", 1)],
            },
            SignalAction::ApplyRemoteOffer { peer_id: s("b"), sdp: s("offer-sdp") },
            SignalAction::CreateAnswer { peer_id: s("b") },
        ]
    );
    assert_eq!(client.peers(), names(&["b"]));
    assert_eq!(client.group_channels("all"), vec![1]);
}

#[test]
fn a_group_update_changes_channels_without_negotiation() {
    let mut client = running("me", &["a", "b"], "p");
    client.handle_event(&SignalEvent::LocalOffer { peer_id: s("p"), sdp: s("o") });
    let actions = client.handle_event(&frame("group_update:p:b,c"));
    assert_eq!(
        actions,
        vec![SignalAction::OpenChannels { peer_id: s("p"), channels: vec![channel("c", 2)] }]
    );
    assert_eq!(client.session_state("p"), Some(NegotiationState::OfferSent));
    assert_eq!(client.group_channels("a"), Vec::<u64>::new());
    assert_eq!(client.group_channels("b"), vec![1]);
    assert_eq!(client.group_channels("c"), vec![2]);
    assert_eq!(client.groups_of("p"), Some(names(&["b", "c"])));
    assert_eq!(
        client.session_channels("p"),
        vec![
            Channel { group: s("a"), handle: 0, active: false },
            channel("b", 1),
            channel("c", 2),
        ]
    );
    let actions = client.handle_event(&frame("group_update:p:b,c"));
    assert_eq!(actions, vec![SignalAction::CloseChannels { peer_id: s("p"), handles: vec![0] }]);
    assert_eq!(client.session_channels("p"), vec![channel("b", 1), channel("c", 2)]);
    assert_eq!(client.handle_event(&frame("group_update:q:z")), vec![]);
    assert_eq!(client.groups_of("q"), Some(names(&["z"])));
}

#[test]
fn frames_that_are_no_messages_are_ignored() {
    let mut client = running("me", &["all"], "a");
    for raw in ["", "hello", "register:x:y", "a:b:c", "me:hangup:a:now"] {
        assert_eq!(client.handle_event(&frame(raw)), vec![]);
    }
    assert_eq!(client.peers(), names(&["a"]));
    assert_eq!(client.state(), ClientState::Running);
}

#[test]
fn frames_before_registration_are_ignored() {
    let mut client = WebRTCModule::new();
    assert_eq!(client.handle_event(&frame("a,b")), vec![]);
    client.begin("me", &names(&["all"]));
    assert_eq!(client.handle_event(&frame("a,b")), vec![]);
    assert_eq!(client.peers(), Vec::<String>::new());
}

#[test]
fn a_local_candidate_goes_out_while_the_session_stands() {
    let mut client = running("me", &["all"], "a");
    assert_eq!(
        client.handle_event(&SignalEvent::LocalCandidate {
            peer_id: s("a"),
            candidate: s("udp 10.0.0.1:5000"),
        }),
        vec![send("a:candidate:me:udp 10.0.0.1:5000")]
    );
    assert_eq!(
        client.handle_event(&SignalEvent::LocalCandidate { peer_id: s("z"), candidate: s("c") }),
        vec![]
    );
}

#[test]
fn a_closed_transport_takes_its_channels_out_of_every_group() {
    let mut client = running("me", &["all", "ops"], "a,b");
    assert_eq!(client.group_channels("all"), vec![0, 2]);
    assert_eq!(client.handle_event(&SignalEvent::TransportClosed { peer_id: s("a") }), vec![]);
    assert_eq!(client.peers(), names(&["b"]));
    assert_eq!(client.session_state("a"), None);
    assert_eq!(client.group_channels("all"), vec![2]);
    assert_eq!(client.group_channels("ops"), vec![3]);
    assert_eq!(client.handle_event(&SignalEvent::TransportClosed { peer_id: s("a") }), vec![]);
}

#[test]
fn the_interrupt_closes_every_session() {
    let mut client = running("me", &["all"], "a,b");
    client.join_group("all", 77);
    let actions = client.handle_event(&SignalEvent::Interrupt);
    assert_eq!(
        actions,
        vec![
            SignalAction::CloseSession { peer_id: s("a") },
            SignalAction::CloseSession { peer_id: s("b") },
        ]
    );
    assert_eq!(client.state(), ClientState::ShuttingDown);
    assert_eq!(client.peers(), Vec::<String>::new());
    assert_eq!(client.group_channels("all"), vec![77]);
    assert_eq!(client.handle_event(&frame("new_peer:c:all")), vec![]);
    assert_eq!(client.handle_event(&SignalEvent::Connected), vec![]);
}

#[test]
fn audio_goes_to_the_channels_of_the_group() {
    let mut client = WebRTCModule::new();
    client.join_group("all", 1);
    client.join_group("all", 2);
    client.join_group("ops", 3);
    let audio: FormattedAudio = Ok(vec![1, 2, 3]);
    assert_eq!(client.send_audio(&audio, "all"), vec![1, 2]);
    assert_eq!(client.send_audio(&audio, "ops"), vec![3]);
    assert_eq!(client.send_audio(&audio, "none"), Vec::<u64>::new());
    client.leave_group("all", 1);
    assert_eq!(client.send_audio(&audio, "all"), vec![2]);
}

#[test]
fn a_failed_frame_goes_nowhere() {
    let mut client = WebRTCModule::new();
    client.join_group("all", 1);
    let audio: FormattedAudio = Err(CodecError);
    assert_eq!(client.send_audio(&audio, "all"), Vec::<u64>::new());
}

#[test]
fn a_closed_sending_gate_drops_the_payload_without_failing() {
    let mut client = WebRTCModule::new();
    client.join_group("all", 1);
    let audio: FormattedAudio = Ok(vec![9]);
    client.stop_sending_audio();
    assert!(!client.is_sending());
    assert_eq!(client.send_audio(&audio, "all"), Vec::<u64>::new());
    assert_eq!(client.group_channels("all"), vec![1]);
    client.resume_sending_audio();
    assert!(client.is_sending());
    assert_eq!(client.send_audio(&audio, "all"), vec![1]);
    assert!(client.is_receiving());
}

#[test]
fn the_gates_are_independent() {
    let mut client = WebRTCModule::new();
    client.stop_receiving_audio();
    assert!(client.is_sending());
    assert!(!client.is_receiving());
    client.stop_sending_audio();
    client.resume_receiving_audio();
    assert!(!client.is_sending());
    assert!(client.is_receiving());
}

#[test]
fn a_change_of_the_users_groups_is_noted_and_framed() {
    let mut client = WebRTCModule::new();
    assert_eq!(client.update_user_groups("me", &names(&["a", "b"])), "group_update:me:a,b");
    assert_eq!(client.groups_of("me"), Some(names(&["a", "b"])));
    assert_eq!(client.update_user_groups("me", &names(&["c"])), "group_update:me:c");
    assert_eq!(client.groups_of("me"), Some(names(&["c"])));
}

#[test]
fn the_loop_is_the_events_taken_one_by_one() {
    let events = vec![
        SignalEvent::Connected,
        frame("a"),
        SignalEvent::LocalOffer { peer_id: s("a"), sdp: s("o") },
        frame("me:candidate:a:c1"),
        frame("me:answer:a:ans"),
        SignalEvent::Interrupt,
    ];
    let mut looped = WebRTCModule::new();
    let all = looped.signaling_loop("me", &names(&["all"]), &events);
    let mut stepped = WebRTCModule::new();
    stepped.begin("me", &names(&["all"]));
    let mut one_by_one = Vec::new();
    for e in &events {
        one_by_one.extend(stepped.handle_event(e));
    }
    assert_eq!(all, one_by_one);
    assert_eq!(
        all,
        vec![
            send("register:me:all"),
            SignalAction::OpenSession {
                peer_id: s("a"),
                role: Role::Initiator,
                channels: vec![channel("all", 0)],
            },
            SignalAction::CreateOffer { peer_id: s("a") },
            send("a:offer:me:o:all"),
            SignalAction::ApplyRemoteAnswer { peer_id: s("a"), sdp: s("ans") },
            SignalAction::AddCandidate { peer_id: s("a"), candidate: s("c1") },
            SignalAction::CloseSession { peer_id: s("a") },
        ]
    );
    assert_eq!(looped.state(), ClientState::ShuttingDown);
}
