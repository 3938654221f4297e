use wt_tools::session::{
    any_has_group, names_group, CandidateStep, Channel, GroupChange, NegotiationError,
    NegotiationState, PeerSession, Role,
};

fn s(text: &str) -> String {
    text.to_string()
}

fn names(list: &[&str]) -> Vec<String> {
    list.iter().map(|n| n.to_string()).collect()
}

fn channel(group: &str, handle: u64, active: bool) -> Channel {
    Channel { group: s(group), handle, active }
}

#[test]
fn a_fresh_session_opens_one_channel_per_group() {
    let session = PeerSession::new("bob", Role::Initiator, &names(&["all", "ops"]), 10);
    assert_eq!(session.peer_id(), "bob");
    assert_eq!(session.role(), Role::Initiator);
    assert_eq!(session.state(), NegotiationState::Created);
    assert_eq!(session.local_description(), None);
    assert_eq!(session.remote_description(), None);
    assert_eq!(session.pending_candidates(), Vec::<String>::new());
    assert_eq!(session.channels(), vec![channel("all", 10, true), channel("ops", 11, true)]);
    assert_eq!(session.handles(), vec![10, 11]);
    assert_eq!(session.groups(), names(&["all", "ops"]));
    assert!(session.is_with("bob"));
    assert!(!session.is_with("bobby"));
}

#[test]
fn a_group_named_twice_gets_one_channel() {
    let session = PeerSession::new("bob", Role::Responder, &names(&["a", "b", "a", "c", "b"]), 0);
    assert_eq!(
        session.channels(),
        vec![channel("a", 0, true), channel("b", 1, true), channel("c", 2, true)]
    );
}

#[test]
fn a_session_without_groups_has_no_channel() {
    let session = PeerSession::new("bob", Role::Responder, &vec![], u64::MAX);
    assert_eq!(session.channels(), vec![]);
}

#[test]
fn offer_and_answer_connect_both_sides() {
    let mut initiator = PeerSession::new("bob", Role::Initiator, &names(&["all"]), 0);
    let mut responder = PeerSession::new("alice", Role::Responder, &names(&["all"]), 0);

    assert_eq!(initiator.set_local_offer(s("offer-sdp")), Ok(()));
    assert_eq!(initiator.state(), NegotiationState::OfferSent);
    assert_eq!(initiator.local_description(), Some(s("offer-sdp")));

    let offer = initiator.local_description().unwrap();
    assert_eq!(responder.apply_remote_offer(offer), Ok(vec![]));
    assert_eq!(responder.state(), NegotiationState::OfferReceived);
    assert_eq!(responder.remote_description(), Some(s("offer-sdp")));

    assert_eq!(responder.set_local_answer(s("answer-sdp")), Ok(()));
    assert_eq!(responder.state(), NegotiationState::AnswerSent);
    assert_eq!(responder.mark_answer_sent(), Ok(()));
    assert_eq!(responder.state(), NegotiationState::Connected);

    let answer = responder.local_description().unwrap();
    assert_eq!(initiator.apply_remote_answer(answer), Ok(vec![]));
    assert_eq!(initiator.state(), NegotiationState::Connected);
    assert_eq!(initiator.remote_description(), Some(s("answer-sdp")));
}

#[test]
fn three_early_candidates_are_applied_in_order_of_arrival() {
    let mut responder = PeerSession::new("alice", Role::Responder, &names(&["all"]), 0);
    assert_eq!(responder.add_remote_candidate(s("c1")), CandidateStep::Buffered);
    assert_eq!(responder.add_remote_candidate(s("c2")), CandidateStep::Buffered);
    assert_eq!(responder.add_remote_candidate(s("c3")), CandidateStep::Buffered);
    assert_eq!(responder.pending_candidates(), names(&["c1", "c2", "c3"]));
    assert_eq!(responder.apply_remote_offer(s("offer-sdp")), Ok(names(&["c1", "c2", "c3"])));
    assert_eq!(responder.pending_candidates(), Vec::<String>::new());
    assert_eq!(responder.add_remote_candidate(s("c4")), CandidateStep::Apply(s("c4")));
    assert_eq!(responder.pending_candidates(), Vec::<String>::new());
}

#[test]
fn early_candidates_of_an_initiator_wait_for_the_answer() {
    let mut initiator = PeerSession::new("bob", Role::Initiator, &names(&["all"]), 0);
    assert_eq!(initiator.add_remote_candidate(s("c1")), CandidateStep::Buffered);
    assert_eq!(initiator.set_local_offer(s("offer-sdp")), Ok(()));
    assert_eq!(initiator.add_remote_candidate(s("c2")), CandidateStep::Buffered);
    assert_eq!(initiator.apply_remote_answer(s("answer-sdp")), Ok(names(&["c1", "c2"])));
    assert_eq!(initiator.add_remote_candidate(s("c3")), CandidateStep::Apply(s("c3")));
}

#[test]
fn a_second_remote_description_changes_nothing() {
    let mut responder = PeerSession::new("alice", Role::Responder, &names(&["all"]), 0);
    assert_eq!(responder.apply_remote_offer(s("offer-sdp")), Ok(vec![]));
    assert_eq!(
        responder.apply_remote_offer(s("offer-sdp")),
        Err(NegotiationError::DuplicateRemoteDescription)
    );
    assert_eq!(responder.state(), NegotiationState::OfferReceived);
    assert_eq!(responder.remote_description(), Some(s("offer-sdp")));
    assert_eq!(
        responder.apply_remote_offer(s("another")),
        Err(NegotiationError::DuplicateRemoteDescription)
    );
    assert_eq!(responder.remote_description(), Some(s("offer-sdp")));

    let mut initiator = PeerSession::new("bob", Role::Initiator, &names(&["all"]), 0);
    assert_eq!(initiator.set_local_offer(s("offer-sdp")), Ok(()));
    assert_eq!(initiator.apply_remote_answer(s("answer-sdp")), Ok(vec![]));
    assert_eq!(
        initiator.apply_remote_answer(s("answer-sdp")),
        Err(NegotiationError::DuplicateRemoteDescription)
    );
    assert_eq!(initiator.state(), NegotiationState::Connected);
}

#[test]
fn steps_out_of_state_are_refused() {
    let mut initiator = PeerSession::new("bob", Role::Initiator, &names(&["all"]), 0);
    assert_eq!(initiator.apply_remote_offer(s("o")), Err(NegotiationError::OutOfState));
    assert_eq!(initiator.apply_remote_answer(s("a")), Err(NegotiationError::OutOfState));
    assert_eq!(initiator.set_local_answer(s("a")), Err(NegotiationError::OutOfState));
    assert_eq!(initiator.mark_answer_sent(), Err(NegotiationError::OutOfState));
    assert_eq!(initiator.state(), NegotiationState::Created);
    assert_eq!(initiator.set_local_offer(s("o")), Ok(()));
    assert_eq!(initiator.set_local_offer(s("o")), Err(NegotiationError::OutOfState));
    assert_eq!(initiator.state(), NegotiationState::OfferSent);

    let mut responder = PeerSession::new("alice", Role::Responder, &names(&["all"]), 0);
    assert_eq!(responder.set_local_offer(s("o")), Err(NegotiationError::OutOfState));
    assert_eq!(responder.set_local_answer(s("a")), Err(NegotiationError::OutOfState));
    assert_eq!(responder.apply_remote_answer(s("a")), Err(NegotiationError::OutOfState));
    assert_eq!(responder.state(), NegotiationState::Created);
    assert_eq!(responder.local_description(), None);
}

#[test]
fn closing_hands_out_every_handle_and_empties_the_session() {
    let mut session = PeerSession::new("bob", Role::Initiator, &names(&["a", "b"]), 5);
    assert_eq!(session.add_remote_candidate(s("c1")), CandidateStep::Buffered);
    assert_eq!(session.close(), vec![5, 6]);
    assert_eq!(session.state(), NegotiationState::Closed);
    assert_eq!(session.channels(), vec![]);
    assert_eq!(session.pending_candidates(), Vec::<String>::new());
    assert_eq!(session.add_remote_candidate(s("c2")), CandidateStep::Dropped);
    assert_eq!(session.pending_candidates(), Vec::<String>::new());
    assert_eq!(session.close(), Vec::<u64>::new());
}

#[test]
fn a_change_of_groups_opens_deactivates_and_retires() {
    let mut session = PeerSession::new("bob", Role::Initiator, &names(&["a", "b", "c"]), 0);
    let change = session.update_groups(&names(&["b", "d"]), 3);
    assert_eq!(
        change,
        GroupChange {
            opened: vec![channel("d", 3, true)],
            deactivated: vec![0, 2],
            retired: vec![],
        }
    );
    assert_eq!(
        session.channels(),
        vec![
            channel("a", 0, false),
            channel("b", 1, true),
            channel("c", 2, false),
            channel("d", 3, true),
        ]
    );
    assert_eq!(session.groups(), names(&["b", "d"]));

    let change = session.update_groups(&names(&["a", "b", "d"]), 4);
    assert_eq!(
        change,
        GroupChange { opened: vec![channel("a", 4, true)], deactivated: vec![], retired: vec![0, 2] }
    );
    assert_eq!(
        session.channels(),
        vec![channel("b", 1, true), channel("d", 3, true), channel("a", 4, true)]
    );
}

#[test]
fn a_change_of_groups_leaves_the_negotiation_alone() {
    let mut session = PeerSession::new("bob", Role::Initiator, &names(&["a"]), 0);
    assert_eq!(session.set_local_offer(s("o")), Ok(()));
    assert_eq!(session.add_remote_candidate(s("c1")), CandidateStep::Buffered);
    session.update_groups(&names(&["b"]), 1);
    assert_eq!(session.state(), NegotiationState::OfferSent);
    assert_eq!(session.local_description(), Some(s("o")));
    assert_eq!(session.pending_candidates(), names(&["c1"]));
}

#[test]
fn a_closed_session_takes_no_groups() {
    let mut session = PeerSession::new("bob", Role::Initiator, &names(&["a"]), 0);
    session.close();
    let change = session.update_groups(&names(&["b"]), 1);
    assert_eq!(change, GroupChange { opened: vec![], deactivated: vec![], retired: vec![] });
    assert_eq!(session.channels(), vec![]);
}

#[test]
fn group_lookups_compare_names() {
    let channels = vec![channel("a", 0, true), channel("b", 1, false)];
    assert!(any_has_group(&channels, "a"));
    assert!(any_has_group(&channels, "b"));
    assert!(!any_has_group(&channels, "c"));
    assert!(names_group(&names(&["x", "y"]), "y"));
    assert!(!names_group(&names(&["x", "y"]), "z"));
    assert_eq!(channels[0].duplicate(), channels[0]);
}
