//! What holds of the client at all times, and what its steps keep.

use crate::communication::{
    handles_below, peer_of, session_with, with_channels, without_channels, without_sessions,
    ClientState, ClientView, EventView,
};
use crate::inbound::{Delivery, ReceiverView};
use crate::router::{ChannelHandle, RouterView};
use crate::seqs::{distinct_by, lemma_first_where, lemma_first_where_is};
use crate::session::{
    handle_of, has_handle, is_active, lemma_fresh_channels_handles, lemma_kept_channels,
    lemma_kept_channels_distinct, restricted_to, ChannelView, NegotiationState, Role, SessionView,
};
use crate::text::split;
use crate::wire::{decode_spec, list_sep, MessageView};
use vstd::prelude::*;

verus! {

impl ClientView {
    /// With the sending gate closed a payload goes nowhere. Once it is
    /// open again, payloads go where they went before. Closing and opening
    /// it leave the memberships alone.
    pub proof fn lemma_sending_gate(self, group: Seq<char>)
        ensures
            self.stop_sending().send_targets(true, group) == Seq::<ChannelHandle>::empty(),
            self.stop_sending().resume_sending().send_targets(true, group) == self.router.targets(
                group,
            ),
            self.stop_sending().resume_sending() == self.resume_sending(),
            self.stop_sending().router == self.router,
    {
    }

    /// With the receiving gate closed, a delivered frame is dropped and
    /// nothing is queued. Once it is open again, frames are queued as if it
    /// had never been closed.
    pub proof fn lemma_receiving_gate(
        self,
        receiver: ReceiverView,
        channel: ChannelHandle,
        frame: Seq<u8>,
    )
        ensures
            receiver.deliver(self.stop_receiving().receiving, channel, frame) == receiver,
            receiver.delivery(self.stop_receiving().receiving, channel) != Delivery::Queued,
            receiver.deliver(self.stop_receiving().resume_receiving().receiving, channel, frame)
                == receiver.deliver(true, channel, frame),
    {
    }
}

/// Taking channels out of every group keeps the table free of duplicates.
pub proof fn lemma_without_channels_wf(router: RouterView, handles: Seq<ChannelHandle>)
    requires
        router.wf(),
    ensures
        without_channels(router, handles).wf(),
    decreases handles.len(),
{
    if handles.len() > 0 {
        lemma_without_channels_wf(router, handles.drop_last());
        without_channels(router, handles.drop_last()).lemma_remove_channel(handles.last());
    }
}

/// Joining channels to their groups keeps the table free of duplicates.
pub proof fn lemma_with_channels_wf(router: RouterView, channels: Seq<ChannelView>)
    requires
        router.wf(),
    ensures
        with_channels(router, channels).wf(),
    decreases channels.len(),
{
    if channels.len() > 0 {
        lemma_with_channels_wf(router, channels.drop_last());
        with_channels(router, channels.drop_last()).lemma_join(
            channels.last().group,
            channels.last().handle,
        );
    }
}

/// A channel that was taken out of every group is in no group, and the
/// channels that were not taken out are where they were.
pub proof fn lemma_without_channels(router: RouterView, handles: Seq<ChannelHandle>)
    ensures
        forall|g: Seq<char>, c: ChannelHandle|
            #[trigger] without_channels(router, handles).is_member(g, c) <==> router.is_member(g, c)
                && !handles.contains(c),
    decreases handles.len(),
{
    if handles.len() == 0 {
    } else {
        let before = without_channels(router, handles.drop_last());
        lemma_without_channels(router, handles.drop_last());
        before.lemma_remove_channel(handles.last());
        assert forall|g: Seq<char>, c: ChannelHandle|
            #[trigger] without_channels(router, handles).is_member(g, c) <==> router.is_member(
                g,
                c,
            ) && !handles.contains(c) by {
            assert(before.remove_channel(handles.last()).is_member(g, c) <==> before.is_member(
                g,
                c,
            ) && c != handles.last());
            assert(before.is_member(g, c) <==> router.is_member(g, c)
                && !handles.drop_last().contains(c));
            if handles.contains(c) && c != handles.last() {
                let i = choose|i: int| 0 <= i < handles.len() && handles[i] == c;
                assert(handles.drop_last()[i] == c);
            }
            if handles.drop_last().contains(c) {
                let i = choose|i: int|
                    0 <= i < handles.drop_last().len() && handles.drop_last()[i] == c;
                assert(handles[i] == c);
            }
            if c == handles.last() {
                assert(handles[handles.len() - 1] == c);
            }
        }
    }
}

impl ClientView {
    /// When a session closes, its channels are in no group any more, and
    /// the channels of the other sessions are where they were.
    pub proof fn lemma_closed_session_leaves_every_group(self, peer_id: Seq<char>)
        requires
            self.has_session(peer_id),
        ensures
            forall|g: Seq<char>, c: ChannelHandle|
                #[trigger] self.drop_session(peer_id).router.is_member(g, c)
                    <==> self.router.is_member(g, c) && !self.session(peer_id).handles().contains(
                    c,
                ),
    {
        lemma_without_channels(self.router, self.session(peer_id).handles());
    }
}

/// Taking the channels of sessions out of every group keeps the table free
/// of duplicates.
pub proof fn lemma_without_sessions_wf(router: RouterView, sessions: Seq<SessionView>)
    requires
        router.wf(),
    ensures
        without_sessions(router, sessions).wf(),
    decreases sessions.len(),
{
    if sessions.len() > 0 {
        lemma_without_sessions_wf(router, sessions.drop_last());
        lemma_without_channels_wf(
            without_sessions(router, sessions.drop_last()),
            sessions.last().handles(),
        );
    }
}

impl ClientView {
    /// Replacing the session of a peer by one with the same peer and the
    /// same channels keeps the client well-formed.
    pub proof fn lemma_with_session_wf(self, peer_id: Seq<char>, next: SessionView)
        requires
            self.wf(),
            self.has_session(peer_id),
            next.peer_id == peer_id,
            next.channels == self.session(peer_id).channels,
            next.wf(),
            next.state != NegotiationState::Closed,
        ensures
            self.with_session(peer_id, next).wf(),
    {
        let p = self.session_position(peer_id);
        lemma_first_where(self.sessions, session_with(peer_id));
        let after = self.with_session(peer_id, next);
        assert forall|i: int, j: int|
            0 <= i < after.sessions.len() && 0 <= j < after.sessions.len() && i
                != j implies peer_of()(after.sessions[i]) != peer_of()(after.sessions[j]) by {
            assert(peer_of()(after.sessions[i]) == peer_of()(self.sessions[i]));
            assert(peer_of()(after.sessions[j]) == peer_of()(self.sessions[j]));
        }
        assert forall|i: int| 0 <= i < after.sessions.len() implies {
            &&& handles_below((#[trigger] after.sessions[i]).channels, after.next_handle as int)
            &&& distinct_by(after.sessions[i].channels, handle_of())
            &&& after.sessions[i].wf()
            &&& after.sessions[i].state != NegotiationState::Closed
        } by {
            assert(after.sessions[i].channels == self.sessions[i].channels);
            if i != p {
                assert(after.sessions[i] == self.sessions[i]);
            }
        }
        assert forall|i: int, j: int, h: ChannelHandle|
            0 <= i < after.sessions.len() && 0 <= j < after.sessions.len() && i != j
                && #[trigger] has_handle(after.sessions[i].channels, h) implies !#[trigger] has_handle(
            after.sessions[j].channels,
            h,
        ) by {
            assert(after.sessions[i].channels == self.sessions[i].channels);
            assert(after.sessions[j].channels == self.sessions[j].channels);
        }
    }

    /// Closing the session of a peer keeps the client well-formed and
    /// leaves the peer without a session.
    pub proof fn lemma_drop_session_wf(self, peer_id: Seq<char>)
        requires
            self.wf(),
        ensures
            self.drop_session(peer_id).wf(),
            !self.drop_session(peer_id).has_session(peer_id),
            self.drop_session(peer_id).next_handle == self.next_handle,
    {
        let p = self.session_position(peer_id);
        lemma_first_where(self.sessions, session_with(peer_id));
        let after = self.drop_session(peer_id);
        if self.has_session(peer_id) {
            lemma_without_channels_wf(self.router, self.session(peer_id).handles());
            assert forall|i: int, j: int|
                0 <= i < after.sessions.len() && 0 <= j < after.sessions.len() && i
                    != j implies peer_of()(after.sessions[i]) != peer_of()(after.sessions[j]) by {
                let a = if i < p {
                    i
                } else {
                    i + 1
                };
                let b = if j < p {
                    j
                } else {
                    j + 1
                };
                assert(after.sessions[i] == self.sessions[a]);
                assert(after.sessions[j] == self.sessions[b]);
                assert(peer_of()(self.sessions[a]) != peer_of()(self.sessions[b]));
            }
            assert forall|i: int| 0 <= i < after.sessions.len() implies {
                &&& handles_below((#[trigger] after.sessions[i]).channels, after.next_handle as int)
                &&& after.sessions[i].wf()
                &&& after.sessions[i].state != NegotiationState::Closed
            } by {
                let a = if i < p {
                    i
                } else {
                    i + 1
                };
                assert(after.sessions[i] == self.sessions[a]);
            }
            assert forall|j: int| 0 <= j < after.sessions.len() implies !session_with(peer_id)(
                #[trigger] after.sessions[j],
            ) by {
                let b = if j < p {
                    j
                } else {
                    j + 1
                };
                assert(after.sessions[j] == self.sessions[b]);
                assert(peer_of()(self.sessions[b]) != peer_of()(self.sessions[p]));
            }
            lemma_first_where_is(
                after.sessions,
                session_with(peer_id),
                after.sessions.len() as int,
            );
        }
    }

    /// Opening a session keeps the client well-formed, and the new session
    /// is the session of its peer.
    pub proof fn lemma_start_session_wf(self, peer_id: Seq<char>, role: Role, groups: Seq<Seq<char>>)
        requires
            self.wf(),
        ensures
            self.start_session(peer_id, role, groups).0.wf(),
            self.can_open(groups) ==> {
                &&& self.start_session(peer_id, role, groups).0.has_session(peer_id)
                &&& self.start_session(peer_id, role, groups).0.session(peer_id)
                    == SessionView::created(peer_id, role, groups, self.next_handle)
            },
    {
        if self.can_open(groups) {
            let cleared = self.drop_session(peer_id);
            self.lemma_drop_session_wf(peer_id);
            let session = SessionView::created(peer_id, role, groups, self.next_handle);
            let after = self.start_session(peer_id, role, groups).0;
            lemma_fresh_channels_handles(Seq::empty(), groups, self.next_handle);
            lemma_with_channels_wf(cleared.router, session.channels);
            lemma_first_where(cleared.sessions, session_with(peer_id));
            assert forall|j: int| 0 <= j < cleared.sessions.len() implies !session_with(peer_id)(
                #[trigger] after.sessions[j],
            ) by {
                assert(after.sessions[j] == cleared.sessions[j]);
            }
            lemma_first_where_is(
                after.sessions,
                session_with(peer_id),
                cleared.sessions.len() as int,
            );
            assert forall|i: int, j: int|
                0 <= i < after.sessions.len() && 0 <= j < after.sessions.len() && i
                    != j implies peer_of()(after.sessions[i]) != peer_of()(after.sessions[j]) by {
                if i < cleared.sessions.len() {
                    assert(after.sessions[i] == cleared.sessions[i]);
                    assert(!session_with(peer_id)(cleared.sessions[i]));
                }
                if j < cleared.sessions.len() {
                    assert(after.sessions[j] == cleared.sessions[j]);
                    assert(!session_with(peer_id)(cleared.sessions[j]));
                }
                if i < cleared.sessions.len() && j < cleared.sessions.len() {
                    assert(peer_of()(cleared.sessions[i]) != peer_of()(cleared.sessions[j]));
                }
            }
            assert forall|i: int| 0 <= i < after.sessions.len() implies {
                &&& handles_below((#[trigger] after.sessions[i]).channels, after.next_handle as int)
                &&& after.sessions[i].wf()
                &&& after.sessions[i].state != NegotiationState::Closed
            } by {
                if i < cleared.sessions.len() {
                    assert(after.sessions[i] == cleared.sessions[i]);
                    assert(handles_below(cleared.sessions[i].channels, self.next_handle as int));
                }
            }
        }
    }

    /// Calling a peer keeps the client well-formed and its own groups as
    /// they are.
    pub proof fn lemma_initiate_wf(self, peer_id: Seq<char>, groups: Seq<Seq<char>>)
        requires
            self.wf(),
        ensures
            self.initiate(peer_id, groups).0.wf(),
            self.initiate(peer_id, groups).0.initial_groups == self.initial_groups,
    {
        self.lemma_start_session_wf(peer_id, Role::Initiator, groups);
    }

    /// Calling the peers of the room keeps the client well-formed.
    pub proof fn lemma_bootstrap_wf(self, peers: Seq<Seq<char>>)
        requires
            self.wf(),
        ensures
            self.bootstrap(peers).0.wf(),
            self.bootstrap(peers).0.initial_groups == self.initial_groups,
            self.bootstrap(peers).0.state == self.state,
        decreases peers.len(),
    {
        if peers.len() > 0 {
            self.lemma_bootstrap_wf(peers.drop_last());
            let before = self.bootstrap(peers.drop_last()).0;
            before.lemma_initiate_wf(peers.last(), before.initial_groups);
        }
    }

    /// A change of a peer's groups keeps the client well-formed.
    pub proof fn lemma_on_group_update_wf(self, peer_id: Seq<char>, groups: Seq<Seq<char>>)
        requires
            self.wf(),
        ensures
            self.on_group_update(peer_id, groups).0.wf(),
    {
        let after = self.on_group_update(peer_id, groups).0;
        if self.has_session(peer_id) && self.can_open(groups) {
            let p = self.session_position(peer_id);
            lemma_first_where(self.sessions, session_with(peer_id));
            let session = self.session(peer_id);
            let change = session.group_change(groups, self.next_handle);
            let next = session.update_groups(groups, self.next_handle);
            let kept = session.kept_channels(groups);
            let opened = change.opened;
            lemma_without_channels_wf(self.router, change.deactivated);
            lemma_with_channels_wf(without_channels(self.router, change.deactivated), opened);
            assert forall|i: int, j: int|
                0 <= i < after.sessions.len() && 0 <= j < after.sessions.len() && i
                    != j implies peer_of()(after.sessions[i]) != peer_of()(after.sessions[j]) by {
                assert(peer_of()(after.sessions[i]) == peer_of()(self.sessions[i]));
                assert(peer_of()(after.sessions[j]) == peer_of()(self.sessions[j]));
            }
            assert(handles_below(session.channels, self.next_handle as int));
            assert(distinct_by(session.channels, handle_of()));
            assert(session.wf() && session.state != NegotiationState::Closed);
            assert(next.channels == kept + opened);
            lemma_fresh_channels_handles(kept, groups, self.next_handle);
            lemma_kept_channels_distinct(session.channels, groups);
            assert(kept == session.channels.filter(is_active()).map_values(restricted_to(groups)));
            assert forall|k: int| 0 <= k < kept.len() implies (#[trigger] kept[k]).handle
                < self.next_handle by {
                lemma_kept_channels(session.channels, groups, k);
            }
            assert forall|h: ChannelHandle| has_handle(kept, h) implies has_handle(
                session.channels,
                h,
            ) by {
                let k = choose|k: int| 0 <= k < kept.len() && (#[trigger] kept[k]).handle == h;
                lemma_kept_channels(session.channels, groups, k);
            }
            assert(handles_below(next.channels, after.next_handle as int)) by {
                assert forall|k: int| 0 <= k < next.channels.len() implies (
                #[trigger] next.channels[k]).handle < after.next_handle by {
                    if k < kept.len() {
                        assert(next.channels[k] == kept[k]);
                    } else {
                        assert(next.channels[k] == opened[k - kept.len()]);
                    }
                }
            }
            assert(distinct_by(next.channels, handle_of())) by {
                assert forall|a: int, b: int|
                    0 <= a < next.channels.len() && 0 <= b < next.channels.len() && a
                        != b implies handle_of()(next.channels[a]) != handle_of()(
                    next.channels[b],
                ) by {
                    if a < kept.len() {
                        assert(next.channels[a] == kept[a]);
                    } else {
                        assert(next.channels[a] == opened[a - kept.len()]);
                    }
                    if b < kept.len() {
                        assert(next.channels[b] == kept[b]);
                    } else {
                        assert(next.channels[b] == opened[b - kept.len()]);
                    }
                    if a < kept.len() && b < kept.len() {
                        assert(handle_of()(kept[a]) != handle_of()(kept[b]));
                    }
                }
            }
            assert(after.sessions_wf()) by {
                assert forall|i: int| 0 <= i < after.sessions.len() implies {
                    &&& handles_below(
                        (#[trigger] after.sessions[i]).channels,
                        after.next_handle as int,
                    )
                    &&& distinct_by(after.sessions[i].channels, handle_of())
                    &&& after.sessions[i].wf()
                    &&& after.sessions[i].state != NegotiationState::Closed
                } by {
                    if i != p {
                        assert(after.sessions[i] == self.sessions[i]);
                        assert(handles_below(self.sessions[i].channels, self.next_handle as int));
                    }
                }
            }
            assert(after.handles_apart()) by {
                assert forall|i: int, j: int, h: ChannelHandle|
                    0 <= i < after.sessions.len() && 0 <= j < after.sessions.len() && i != j
                        && #[trigger] has_handle(
                        after.sessions[i].channels,
                        h,
                    ) implies !#[trigger] has_handle(after.sessions[j].channels, h) by {
                    if has_handle(after.sessions[j].channels, h) {
                        // One of the two is the changed session, or none is.
                        let q = if i == p {
                            j
                        } else {
                            i
                        };
                        if i == p || j == p {
                            assert(after.sessions[q] == self.sessions[q]);
                            assert(has_handle(self.sessions[q].channels, h));
                            assert(handles_below(
                                self.sessions[q].channels,
                                self.next_handle as int,
                            ));
                            let w = choose|w: int|
                                0 <= w < self.sessions[q].channels.len() && (
                                #[trigger] self.sessions[q].channels[w]).handle == h;
                            assert(h < self.next_handle);
                            let k = choose|k: int|
                                0 <= k < next.channels.len() && (#[trigger] next.channels[k]).handle
                                    == h;
                            if k < kept.len() {
                                assert(next.channels[k] == kept[k]);
                                assert(has_handle(kept, h));
                                assert(has_handle(self.sessions[p].channels, h));
                                assert(!has_handle(self.sessions[q].channels, h));
                            } else {
                                assert(next.channels[k] == opened[k - kept.len()]);
                            }
                        } else {
                            assert(after.sessions[i] == self.sessions[i]);
                            assert(after.sessions[j] == self.sessions[j]);
                        }
                    }
                }
            }
        }
    }

    /// A message from the relay keeps the client well-formed and in its
    /// state.
    pub proof fn lemma_dispatch_wf(self, m: MessageView)
        requires
            self.wf(),
        ensures
            self.dispatch(m).0.wf(),
            self.dispatch(m).0.state == self.state,
    {
        match m {
            MessageView::NewPeer { peer_id, groups } => {
                self.record_groups(peer_id, groups).lemma_initiate_wf(peer_id, groups);
            },
            MessageView::Offer { to, from, sdp, groups } => {
                self.lemma_start_session_wf(from, Role::Responder, groups);
                if self.can_open(groups) {
                    let next = self.start_session(from, Role::Responder, groups).0;
                    lemma_first_where(next.sessions, session_with(from));
                    if next.session(from).remote_offer(sdp) is Ok {
                        next.lemma_with_session_wf(
                            from,
                            next.session(from).remote_offer(sdp)->Ok_0,
                        );
                    }
                }
            },
            MessageView::Answer { to, from, sdp } => {
                if self.has_session(from) {
                    lemma_first_where(self.sessions, session_with(from));
                    if self.session(from).remote_answer(sdp) is Ok {
                        self.lemma_with_session_wf(from, self.session(from).remote_answer(sdp)->Ok_0);
                    }
                }
            },
            MessageView::Candidate { to, from, candidate } => {
                if self.has_session(from) {
                    lemma_first_where(self.sessions, session_with(from));
                    self.lemma_with_session_wf(from, self.session(from).remote_candidate(candidate));
                }
            },
            MessageView::GroupUpdate { peer_id, groups } => {
                self.lemma_on_group_update_wf(peer_id, groups);
            },
            _ => {},
        }
    }

    /// A step keeps the client well-formed.
    pub proof fn lemma_step_wf(self, e: EventView)
        requires
            self.wf(),
        ensures
            self.step(e).0.wf(),
    {
        match e {
            EventView::Connected => {},
            EventView::Frame(text) => {
                if self.state == ClientState::Registered {
                    self.lemma_bootstrap_wf(split(text, list_sep()));
                } else if self.state == ClientState::Running {
                    self.lemma_dispatch_wf(decode_spec(text));
                }
            },
            EventView::LocalOffer { peer_id, sdp } => {
                if self.has_session(peer_id) {
                    lemma_first_where(self.sessions, session_with(peer_id));
                    if self.session(peer_id).local_offer(sdp) is Ok {
                        self.lemma_with_session_wf(
                            peer_id,
                            self.session(peer_id).local_offer(sdp)->Ok_0,
                        );
                    }
                }
            },
            EventView::LocalAnswer { peer_id, sdp } => {
                if self.has_session(peer_id) {
                    lemma_first_where(self.sessions, session_with(peer_id));
                    if self.session(peer_id).local_answer(sdp) is Ok {
                        let session = self.session(peer_id).local_answer(sdp)->Ok_0;
                        self.lemma_with_session_wf(peer_id, session.settled(session.answer_sent()));
                    }
                }
            },
            EventView::LocalCandidate { peer_id, candidate } => {},
            EventView::TransportClosed { peer_id } => {
                self.lemma_drop_session_wf(peer_id);
            },
            EventView::Interrupt => {
                lemma_without_sessions_wf(self.router, self.sessions);
            },
        }
    }

    /// A run keeps the client well-formed.
    pub proof fn lemma_run_wf(self, events: Seq<EventView>)
        requires
            self.wf(),
        ensures
            self.run(events).0.wf(),
        decreases events.len(),
    {
        if events.len() > 0 {
            self.lemma_run_wf(events.drop_last());
            self.run(events.drop_last()).0.lemma_step_wf(events.last());
        }
    }

    /// A fresh client is well-formed, and so is whatever becomes of it
    /// when it begins and takes events.
    pub proof fn lemma_always_wf(
        peer_id: Seq<char>,
        groups: Seq<Seq<char>>,
        events: Seq<EventView>,
    )
        ensures
            ClientView::fresh().wf(),
            ClientView::fresh().begin(peer_id, groups).run(events).0.wf(),
    {
        ClientView::fresh().begin(peer_id, groups).lemma_run_wf(events);
    }
}

} // verus!
