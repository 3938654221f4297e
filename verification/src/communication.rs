//! The signaling client: the state that one participant keeps about the
//! room, and what it decides on each event.
//!
//! The client does no I/O. Whoever runs it connects to the relay, owns the
//! peer transports and calls [`WebRTCModule::handle_event`] with what
//! happens; the client answers with the [`SignalAction`]s to perform, in
//! order.
//!
//! ```text
//! Disconnected --begin--> Connecting --Connected--> Registered
//!              --first frame (peer list)--> Running --Interrupt--> ShuttingDown
//! ```

use crate::inbound::{AudioReceiver, Delivery, ReceiverView};
use crate::router::{ChannelHandle, GroupRouter, RouterView};
use crate::seqs::{distinct_by, first_where, lemma_first_where, lemma_first_where_is};
use crate::session::{
    handle_of, has_handle, lemma_fresh_channels_len, CandidateStep, Channel, ChannelView,
    GroupChange, NegotiationState, PeerSession, Role, SessionView,
};
use crate::text::{same_text, split, split_text};
use crate::wire::{
    decode, decode_spec, encode, encode_spec, list_sep, MessageView, SignalMessage,
};
use vstd::prelude::*;

verus! {

/// Marks the far end of an audio path.
#[derive(Debug, Clone, Copy, PartialEq, Eq)]
pub struct Destination;

/// The audio codec could not convert a frame.
#[derive(Debug, Clone, Copy, PartialEq, Eq)]
pub struct CodecError;

/// An encoded audio frame, or the failure to encode one.
pub type FormattedAudio = Result<Vec<u8>, CodecError>;

/// How far the client has come.
#[derive(Debug, Clone, Copy, PartialEq, Eq, Structural)]
pub enum ClientState {
    Disconnected,
    Connecting,
    Registered,
    Running,
    ShuttingDown,
}

/// Something that happened outside the client.
#[derive(Debug, Clone, PartialEq, Eq)]
pub enum SignalEvent {
    /// The connection to the relay stands.
    Connected,
    /// A text frame came from the relay.
    Frame(String),
    /// The transport built the offer for a peer and set it as local
    /// description.
    LocalOffer { peer_id: String, sdp: String },
    /// The transport built the answer for a peer and set it as local
    /// description.
    LocalAnswer { peer_id: String, sdp: String },
    /// The transport found a local candidate for a peer.
    LocalCandidate { peer_id: String, candidate: String },
    /// The transport to a peer closed or failed.
    TransportClosed { peer_id: String },
    /// The interrupt signal came.
    Interrupt,
}

/// A [`SignalEvent`] as a mathematical value.
pub enum EventView {
    Connected,
    Frame(Seq<char>),
    LocalOffer { peer_id: Seq<char>, sdp: Seq<char> },
    LocalAnswer { peer_id: Seq<char>, sdp: Seq<char> },
    LocalCandidate { peer_id: Seq<char>, candidate: Seq<char> },
    TransportClosed { peer_id: Seq<char> },
    Interrupt,
}

impl View for SignalEvent {
    type V = EventView;

    open spec fn view(&self) -> EventView {
        match self {
            SignalEvent::Connected => EventView::Connected,
            SignalEvent::Frame(text) => EventView::Frame(text@),
            SignalEvent::LocalOffer { peer_id, sdp } => EventView::LocalOffer {
                peer_id: peer_id@,
                sdp: sdp@,
            },
            SignalEvent::LocalAnswer { peer_id, sdp } => EventView::LocalAnswer {
                peer_id: peer_id@,
                sdp: sdp@,
            },
            SignalEvent::LocalCandidate { peer_id, candidate } => EventView::LocalCandidate {
                peer_id: peer_id@,
                candidate: candidate@,
            },
            SignalEvent::TransportClosed { peer_id } => EventView::TransportClosed {
                peer_id: peer_id@,
            },
            SignalEvent::Interrupt => EventView::Interrupt,
        }
    }
}

impl DeepView for SignalEvent {
    type V = EventView;

    open spec fn deep_view(&self) -> EventView {
        self@
    }
}

/// Something for the runner of the client to do.
#[derive(Debug, Clone, PartialEq, Eq)]
pub enum SignalAction {
    /// Write a text frame to the relay.
    SendFrame(String),
    /// Create the transport to a peer and open on it one ordered, reliable
    /// data channel for each of `channels`.
    OpenSession { peer_id: String, role: Role, channels: Vec<Channel> },
    /// Build the offer, set it as local description and report it as
    /// [`SignalEvent::LocalOffer`].
    CreateOffer { peer_id: String },
    /// Set the peer's offer as remote description.
    ApplyRemoteOffer { peer_id: String, sdp: String },
    /// Build the answer, set it as local description and report it as
    /// [`SignalEvent::LocalAnswer`].
    CreateAnswer { peer_id: String },
    /// Set the peer's answer as remote description.
    ApplyRemoteAnswer { peer_id: String, sdp: String },
    /// Hand a remote candidate to the transport.
    AddCandidate { peer_id: String, candidate: String },
    /// Open further data channels on the transport to a peer.
    OpenChannels { peer_id: String, channels: Vec<Channel> },
    /// Close data channels that have gone out of use.
    CloseChannels { peer_id: String, handles: Vec<ChannelHandle> },
    /// Tear the transport to a peer down.
    CloseSession { peer_id: String },
}

/// A [`SignalAction`] as a mathematical value.
pub enum ActionView {
    SendFrame(Seq<char>),
    OpenSession { peer_id: Seq<char>, role: Role, channels: Seq<ChannelView> },
    CreateOffer { peer_id: Seq<char> },
    ApplyRemoteOffer { peer_id: Seq<char>, sdp: Seq<char> },
    CreateAnswer { peer_id: Seq<char> },
    ApplyRemoteAnswer { peer_id: Seq<char>, sdp: Seq<char> },
    AddCandidate { peer_id: Seq<char>, candidate: Seq<char> },
    OpenChannels { peer_id: Seq<char>, channels: Seq<ChannelView> },
    CloseChannels { peer_id: Seq<char>, handles: Seq<ChannelHandle> },
    CloseSession { peer_id: Seq<char> },
}

impl View for SignalAction {
    type V = ActionView;

    open spec fn view(&self) -> ActionView {
        match self {
            SignalAction::SendFrame(text) => ActionView::SendFrame(text@),
            SignalAction::OpenSession { peer_id, role, channels } => ActionView::OpenSession {
                peer_id: peer_id@,
                role: *role,
                channels: channels.deep_view(),
            },
            SignalAction::CreateOffer { peer_id } => ActionView::CreateOffer { peer_id: peer_id@ },
            SignalAction::ApplyRemoteOffer { peer_id, sdp } => ActionView::ApplyRemoteOffer {
                peer_id: peer_id@,
                sdp: sdp@,
            },
            SignalAction::CreateAnswer { peer_id } => ActionView::CreateAnswer {
                peer_id: peer_id@,
            },
            SignalAction::ApplyRemoteAnswer { peer_id, sdp } => ActionView::ApplyRemoteAnswer {
                peer_id: peer_id@,
                sdp: sdp@,
            },
            SignalAction::AddCandidate { peer_id, candidate } => ActionView::AddCandidate {
                peer_id: peer_id@,
                candidate: candidate@,
            },
            SignalAction::OpenChannels { peer_id, channels } => ActionView::OpenChannels {
                peer_id: peer_id@,
                channels: channels.deep_view(),
            },
            SignalAction::CloseChannels { peer_id, handles } => ActionView::CloseChannels {
                peer_id: peer_id@,
                handles: handles@,
            },
            SignalAction::CloseSession { peer_id } => ActionView::CloseSession {
                peer_id: peer_id@,
            },
        }
    }
}

impl DeepView for SignalAction {
    type V = ActionView;

    open spec fn deep_view(&self) -> ActionView {
        self@
    }
}

/// The groups that a peer is known to be in.
#[derive(Debug)]
pub struct PeerGroups {
    pub peer_id: String,
    pub groups: Vec<String>,
}

/// A [`PeerGroups`] as a mathematical value.
pub struct PeerGroupsView {
    pub peer_id: Seq<char>,
    pub groups: Seq<Seq<char>>,
}

impl View for PeerGroups {
    type V = PeerGroupsView;

    open spec fn view(&self) -> PeerGroupsView {
        PeerGroupsView { peer_id: self.peer_id@, groups: self.groups.deep_view() }
    }
}

impl DeepView for PeerGroups {
    type V = PeerGroupsView;

    open spec fn deep_view(&self) -> PeerGroupsView {
        self@
    }
}

/// Holds of the session with `peer_id`.
pub open spec fn session_with(peer_id: Seq<char>) -> spec_fn(SessionView) -> bool {
    |s: SessionView| s.peer_id == peer_id
}

/// Holds of the groups noted for `peer_id`.
pub open spec fn groups_with(peer_id: Seq<char>) -> spec_fn(PeerGroupsView) -> bool {
    |g: PeerGroupsView| g.peer_id == peer_id
}

/// The table after each of `handles` left every group.
pub open spec fn without_channels(router: RouterView, handles: Seq<ChannelHandle>) -> RouterView
    decreases handles.len(),
{
    if handles.len() == 0 {
        router
    } else {
        without_channels(router, handles.drop_last()).remove_channel(handles.last())
    }
}

/// The table after each of `channels` joined its group.
pub open spec fn with_channels(router: RouterView, channels: Seq<ChannelView>) -> RouterView
    decreases channels.len(),
{
    if channels.len() == 0 {
        router
    } else {
        with_channels(router, channels.drop_last()).join(
            channels.last().group,
            channels.last().handle,
        )
    }
}

/// The table after the channels of each of `sessions` left every group.
pub open spec fn without_sessions(router: RouterView, sessions: Seq<SessionView>) -> RouterView
    decreases sessions.len(),
{
    if sessions.len() == 0 {
        router
    } else {
        without_channels(without_sessions(router, sessions.drop_last()), sessions.last().handles())
    }
}

/// The request to close a session.
pub open spec fn closing_of() -> spec_fn(SessionView) -> ActionView {
    |s: SessionView| ActionView::CloseSession { peer_id: s.peer_id }
}

/// The request to hand a candidate to the transport of `peer_id`.
pub open spec fn adding_for(peer_id: Seq<char>) -> spec_fn(Seq<char>) -> ActionView {
    |candidate: Seq<char>| ActionView::AddCandidate { peer_id, candidate }
}

/// The client as a mathematical value.
pub struct ClientView {
    pub state: ClientState,
    pub self_id: Seq<char>,
    pub initial_groups: Seq<Seq<char>>,
    /// The sessions, one per peer id at most, in the order of their
    /// creation.
    pub sessions: Seq<SessionView>,
    pub router: RouterView,
    pub peer_groups: Seq<PeerGroupsView>,
    pub sending: bool,
    pub receiving: bool,
    /// The handle that the next channel gets.
    pub next_handle: ChannelHandle,
}

impl ClientView {
    /// A client that has not begun: no session, no channel, both gates
    /// open.
    pub open spec fn fresh() -> ClientView {
        ClientView {
            state: ClientState::Disconnected,
            self_id: Seq::empty(),
            initial_groups: Seq::empty(),
            sessions: Seq::empty(),
            router: RouterView::empty(),
            peer_groups: Seq::empty(),
            sending: true,
            receiving: true,
            next_handle: 0,
        }
    }

    /// Where the session with `peer_id` stands, or the number of sessions
    /// when there is none.
    pub open spec fn session_position(self, peer_id: Seq<char>) -> int {
        first_where(self.sessions, session_with(peer_id))
    }

    /// Whether there is a session with `peer_id`.
    pub open spec fn has_session(self, peer_id: Seq<char>) -> bool {
        self.session_position(peer_id) < self.sessions.len()
    }

    /// The session with `peer_id`; meaningful where there is one.
    pub open spec fn session(self, peer_id: Seq<char>) -> SessionView {
        self.sessions[self.session_position(peer_id)]
    }

    /// The client with the session of `peer_id` replaced by `next`.
    pub open spec fn with_session(self, peer_id: Seq<char>, next: SessionView) -> ClientView {
        ClientView {
            sessions: self.sessions.update(self.session_position(peer_id), next),
            ..self
        }
    }

    /// The groups last heard of for `peer_id`.
    pub open spec fn groups_of(self, peer_id: Seq<char>) -> Option<Seq<Seq<char>>> {
        let p = first_where(self.peer_groups, groups_with(peer_id));
        if p < self.peer_groups.len() {
            Some(self.peer_groups[p].groups)
        } else {
            None
        }
    }

    /// The client after it heard that `peer_id` is in `groups`.
    pub open spec fn record_groups(self, peer_id: Seq<char>, groups: Seq<Seq<char>>) -> ClientView {
        let p = first_where(self.peer_groups, groups_with(peer_id));
        let entry = PeerGroupsView { peer_id, groups };
        if p < self.peer_groups.len() {
            ClientView { peer_groups: self.peer_groups.update(p, entry), ..self }
        } else {
            ClientView { peer_groups: self.peer_groups.push(entry), ..self }
        }
    }

    /// Whether handles are left for channels of `groups`.
    pub open spec fn can_open(self, groups: Seq<Seq<char>>) -> bool {
        self.next_handle + groups.len() <= u64::MAX
    }

    /// The client after the session with `peer_id`, if there is one, was
    /// closed: the session is gone and its channels have left every group.
    pub open spec fn drop_session(self, peer_id: Seq<char>) -> ClientView {
        if self.has_session(peer_id) {
            ClientView {
                sessions: self.sessions.remove(self.session_position(peer_id)),
                router: without_channels(self.router, self.session(peer_id).handles()),
                ..self
            }
        } else {
            self
        }
    }

    /// Opens a session with `peer_id`, in place of the one that there may
    /// be. Its channels join their groups. Nothing happens when the handles
    /// have run out.
    pub open spec fn start_session(self, peer_id: Seq<char>, role: Role, groups: Seq<Seq<char>>) -> (
        ClientView,
        Seq<ActionView>,
    ) {
        if !self.can_open(groups) {
            (self, Seq::empty())
        } else {
            let cleared = self.drop_session(peer_id);
            let session = SessionView::created(peer_id, role, groups, self.next_handle);
            let closing = if self.has_session(peer_id) {
                seq![ActionView::CloseSession { peer_id }]
            } else {
                Seq::empty()
            };
            (
                ClientView {
                    sessions: cleared.sessions.push(session),
                    router: with_channels(cleared.router, session.channels),
                    next_handle: (self.next_handle + session.channels.len()) as ChannelHandle,
                    ..cleared
                },
                closing.push(
                    ActionView::OpenSession { peer_id, role, channels: session.channels },
                ),
            )
        }
    }

    /// Opens a session with `peer_id` as initiator and asks for its offer.
    pub open spec fn initiate(self, peer_id: Seq<char>, groups: Seq<Seq<char>>) -> (
        ClientView,
        Seq<ActionView>,
    ) {
        let (next, actions) = self.start_session(peer_id, Role::Initiator, groups);
        if self.can_open(groups) {
            (next, actions.push(ActionView::CreateOffer { peer_id }))
        } else {
            (self, Seq::empty())
        }
    }

    /// Opens a session as initiator with each of `peers`, in order, for the
    /// client's own groups.
    pub open spec fn bootstrap(self, peers: Seq<Seq<char>>) -> (ClientView, Seq<ActionView>)
        decreases peers.len(),
    {
        if peers.len() == 0 {
            (self, Seq::empty())
        } else {
            let (before, done) = self.bootstrap(peers.drop_last());
            let (after, more) = before.initiate(peers.last(), before.initial_groups);
            (after, done + more)
        }
    }

    /// An offer came from `from`: a session is opened as responder, the
    /// offer is applied and the answer asked for.
    pub open spec fn on_offer(self, from: Seq<char>, sdp: Seq<char>, groups: Seq<Seq<char>>) -> (
        ClientView,
        Seq<ActionView>,
    ) {
        let (next, actions) = self.start_session(from, Role::Responder, groups);
        if !self.can_open(groups) {
            (self, Seq::empty())
        } else {
            match next.session(from).remote_offer(sdp) {
                Ok(session) => (
                    next.with_session(from, session),
                    actions.push(ActionView::ApplyRemoteOffer { peer_id: from, sdp }).push(
                        ActionView::CreateAnswer { peer_id: from },
                    ),
                ),
                Err(_) => (next, actions),
            }
        }
    }

    /// An answer came from `from`: the session applies it, and the
    /// candidates that waited follow it to the transport, oldest first. An
    /// answer that the session does not admit changes nothing.
    pub open spec fn on_answer(self, from: Seq<char>, sdp: Seq<char>) -> (
        ClientView,
        Seq<ActionView>,
    ) {
        if !self.has_session(from) {
            (self, Seq::empty())
        } else {
            match self.session(from).remote_answer(sdp) {
                Ok(session) => (
                    self.with_session(from, session),
                    seq![ActionView::ApplyRemoteAnswer { peer_id: from, sdp }]
                        + self.session(from).pending.map_values(adding_for(from)),
                ),
                Err(_) => (self, Seq::empty()),
            }
        }
    }

    /// A candidate came from `from`: the session keeps it, or it goes to
    /// the transport at once.
    pub open spec fn on_candidate(self, from: Seq<char>, candidate: Seq<char>) -> (
        ClientView,
        Seq<ActionView>,
    ) {
        if !self.has_session(from) {
            (self, Seq::empty())
        } else {
            let session = self.session(from);
            (
                self.with_session(from, session.remote_candidate(candidate)),
                if session.candidate_step(candidate) is Apply {
                    seq![ActionView::AddCandidate { peer_id: from, candidate }]
                } else {
                    Seq::empty()
                },
            )
        }
    }

    /// `peer_id` changed its groups to `groups`: the table of groups notes
    /// it, and the session with the peer, if there is one and handles are
    /// left, changes its channels. No description is exchanged.
    pub open spec fn on_group_update(self, peer_id: Seq<char>, groups: Seq<Seq<char>>) -> (
        ClientView,
        Seq<ActionView>,
    ) {
        let noted = self.record_groups(peer_id, groups);
        if !self.has_session(peer_id) || !self.can_open(groups) {
            (noted, Seq::empty())
        } else {
            let session = self.session(peer_id);
            let change = session.group_change(groups, self.next_handle);
            let opening = if change.opened.len() > 0 {
                seq![ActionView::OpenChannels { peer_id, channels: change.opened }]
            } else {
                Seq::empty()
            };
            let closing = if change.retired.len() > 0 {
                seq![ActionView::CloseChannels { peer_id, handles: change.retired }]
            } else {
                Seq::empty()
            };
            (
                ClientView {
                    sessions: self.sessions.update(
                        self.session_position(peer_id),
                        session.update_groups(groups, self.next_handle),
                    ),
                    router: with_channels(
                        without_channels(self.router, change.deactivated),
                        change.opened,
                    ),
                    next_handle: (self.next_handle + change.opened.len()) as ChannelHandle,
                    ..noted
                },
                opening + closing,
            )
        }
    }

    /// What a running client does with a message from the relay.
    pub open spec fn dispatch(self, m: MessageView) -> (ClientView, Seq<ActionView>) {
        match m {
            MessageView::NewPeer { peer_id, groups } => self.record_groups(
                peer_id,
                groups,
            ).initiate(peer_id, groups),
            MessageView::Offer { to, from, sdp, groups } => self.on_offer(from, sdp, groups),
            MessageView::Answer { to, from, sdp } => self.on_answer(from, sdp),
            MessageView::Candidate { to, from, candidate } => self.on_candidate(from, candidate),
            MessageView::GroupUpdate { peer_id, groups } => self.on_group_update(peer_id, groups),
            MessageView::Register { .. } | MessageView::Unrecognized => (self, Seq::empty()),
        }
    }

    /// What the client does with a frame from the relay: the first one
    /// after registration is the list of the peers in the room, the later
    /// ones are messages.
    pub open spec fn on_frame(self, text: Seq<char>) -> (ClientView, Seq<ActionView>) {
        if self.state == ClientState::Registered {
            let (next, actions) = self.bootstrap(split(text, list_sep()));
            (ClientView { state: ClientState::Running, ..next }, actions)
        } else if self.state == ClientState::Running {
            self.dispatch(decode_spec(text))
        } else {
            (self, Seq::empty())
        }
    }

    /// The transport built the offer for `peer_id`: it goes out, with the
    /// groups of the session.
    pub open spec fn on_local_offer(self, peer_id: Seq<char>, sdp: Seq<char>) -> (
        ClientView,
        Seq<ActionView>,
    ) {
        if !self.has_session(peer_id) {
            (self, Seq::empty())
        } else {
            match self.session(peer_id).local_offer(sdp) {
                Ok(session) => (
                    self.with_session(peer_id, session),
                    seq![
                        ActionView::SendFrame(
                            encode_spec(
                                MessageView::Offer {
                                    to: peer_id,
                                    from: self.self_id,
                                    sdp,
                                    groups: session.groups(),
                                },
                            ),
                        ),
                    ],
                ),
                Err(_) => (self, Seq::empty()),
            }
        }
    }

    /// The transport built the answer for `peer_id`: it goes out, and the
    /// session is connected.
    pub open spec fn on_local_answer(self, peer_id: Seq<char>, sdp: Seq<char>) -> (
        ClientView,
        Seq<ActionView>,
    ) {
        if !self.has_session(peer_id) {
            (self, Seq::empty())
        } else {
            match self.session(peer_id).local_answer(sdp) {
                Ok(session) => (
                    self.with_session(peer_id, session.settled(session.answer_sent())),
                    seq![
                        ActionView::SendFrame(
                            encode_spec(
                                MessageView::Answer { to: peer_id, from: self.self_id, sdp },
                            ),
                        ),
                    ],
                ),
                Err(_) => (self, Seq::empty()),
            }
        }
    }

    /// The transport found a candidate for `peer_id`: it goes out while
    /// there is a session with the peer.
    pub open spec fn on_local_candidate(self, peer_id: Seq<char>, candidate: Seq<char>) -> Seq<
        ActionView,
    > {
        if self.has_session(peer_id) {
            seq![
                ActionView::SendFrame(
                    encode_spec(
                        MessageView::Candidate { to: peer_id, from: self.self_id, candidate },
                    ),
                ),
            ]
        } else {
            Seq::empty()
        }
    }

    /// The client after the interrupt: every session is closed, their
    /// channels have left every group.
    pub open spec fn shut_down(self) -> (ClientView, Seq<ActionView>) {
        (
            ClientView {
                state: ClientState::ShuttingDown,
                sessions: Seq::empty(),
                router: without_sessions(self.router, self.sessions),
                ..self
            },
            self.sessions.map_values(closing_of()),
        )
    }

    /// The client after `begin`: a client that is disconnected takes the
    /// id and the groups and waits for the connection.
    pub open spec fn begin(self, peer_id: Seq<char>, groups: Seq<Seq<char>>) -> ClientView {
        if self.state == ClientState::Disconnected {
            ClientView {
                state: ClientState::Connecting,
                self_id: peer_id,
                initial_groups: groups,
                ..self
            }
        } else {
            self
        }
    }

    /// One step of the client: the state after the event, and what is to
    /// be done, in order.
    pub open spec fn step(self, e: EventView) -> (ClientView, Seq<ActionView>) {
        match e {
            EventView::Connected => if self.state == ClientState::Connecting {
                (
                    ClientView { state: ClientState::Registered, ..self },
                    seq![
                        ActionView::SendFrame(
                            encode_spec(
                                MessageView::Register {
                                    peer_id: self.self_id,
                                    groups: self.initial_groups,
                                },
                            ),
                        ),
                    ],
                )
            } else {
                (self, Seq::empty())
            },
            EventView::Frame(text) => self.on_frame(text),
            EventView::LocalOffer { peer_id, sdp } => self.on_local_offer(peer_id, sdp),
            EventView::LocalAnswer { peer_id, sdp } => self.on_local_answer(peer_id, sdp),
            EventView::LocalCandidate { peer_id, candidate } => (
                self,
                self.on_local_candidate(peer_id, candidate),
            ),
            EventView::TransportClosed { peer_id } => (self.drop_session(peer_id), Seq::empty()),
            EventView::Interrupt => self.shut_down(),
        }
    }

    /// The ids of the peers that the client has a session with, in the
    /// order in which the sessions were opened.
    pub open spec fn peers(self) -> Seq<Seq<char>> {
        self.sessions.map_values(peer_of())
    }

    /// The steps for `events`, one after another.
    pub open spec fn run(self, events: Seq<EventView>) -> (ClientView, Seq<ActionView>)
        decreases events.len(),
    {
        if events.len() == 0 {
            (self, Seq::empty())
        } else {
            let (before, done) = self.run(events.drop_last());
            let (after, more) = before.step(events.last());
            (after, done + more)
        }
    }

    /// The client with the sending gate closed.
    pub open spec fn stop_sending(self) -> ClientView {
        ClientView { sending: false, ..self }
    }

    /// The client with the sending gate open.
    pub open spec fn resume_sending(self) -> ClientView {
        ClientView { sending: true, ..self }
    }

    /// The client with the receiving gate closed.
    pub open spec fn stop_receiving(self) -> ClientView {
        ClientView { receiving: false, ..self }
    }

    /// The client with the receiving gate open.
    pub open spec fn resume_receiving(self) -> ClientView {
        ClientView { receiving: true, ..self }
    }

    /// Where a payload for `group` goes: to the channels of the group while
    /// the sending gate is open and the payload is a frame, else nowhere.
    pub open spec fn send_targets(self, is_frame: bool, group: Seq<char>) -> Seq<ChannelHandle> {
        if self.sending && is_frame {
            self.router.targets(group)
        } else {
            Seq::empty()
        }
    }
}

/// The peer of a session.
pub open spec fn peer_of() -> spec_fn(SessionView) -> Seq<char> {
    |s: SessionView| s.peer_id
}

/// Every channel of `channels` has a handle below `bound`.
pub open spec fn handles_below(channels: Seq<ChannelView>, bound: int) -> bool {
    forall|k: int| 0 <= k < channels.len() ==> (#[trigger] channels[k]).handle < bound
}

impl ClientView {
    /// Every session is well-formed and not closed, and its channels have
    /// handles of their own, below the next one to be given out.
    pub open spec fn sessions_wf(self) -> bool {
        forall|i: int|
            0 <= i < self.sessions.len() ==> {
                &&& handles_below((#[trigger] self.sessions[i]).channels, self.next_handle as int)
                &&& distinct_by(self.sessions[i].channels, handle_of())
                &&& self.sessions[i].wf()
                &&& self.sessions[i].state != NegotiationState::Closed
            }
    }

    /// No handle is the handle of channels of two sessions.
    pub open spec fn handles_apart(self) -> bool {
        forall|i: int, j: int, h: ChannelHandle|
            0 <= i < self.sessions.len() && 0 <= j < self.sessions.len() && i != j
                && #[trigger] has_handle(self.sessions[i].channels, h) ==> !#[trigger] has_handle(
                self.sessions[j].channels,
                h,
            )
    }

    /// What holds of a client at all times: no peer has two sessions, no
    /// membership is recorded twice, every session is well-formed and not
    /// closed, and every channel of a session has a handle of its own, below
    /// the next one to be given out.
    pub open spec fn wf(self) -> bool {
        &&& distinct_by(self.sessions, peer_of())
        &&& self.router.wf()
        &&& self.sessions_wf()
        &&& self.handles_apart()
    }
}

fn copy_names(names: &Vec<String>) -> (out: Vec<String>)
    ensures
        out.deep_view() == names.deep_view(),
{
    let n: usize = names.len();
    let mut out: Vec<String> = Vec::new();
    let mut i: usize = 0;
    while i < n
        invariant
            i <= n,
            n == names.len(),
            out.deep_view() == names.deep_view().take(i as int),
        decreases n - i,
    {
        let ghost before = out.deep_view();
        out.push(names[i].clone());
        assert(out.deep_view() =~= before.push(names[i as int]@));
        assert(names.deep_view().take(i + 1) =~= before.push(names[i as int]@));
        i += 1;
    }
    assert(names.deep_view().take(n as int) =~= names.deep_view());
    out
}

/// Takes each of `handles` out of every group.
fn leave_all(router: &mut GroupRouter, handles: &Vec<ChannelHandle>)
    ensures
        final(router)@ == without_channels(old(router)@, handles@),
{
    let n: usize = handles.len();
    let mut i: usize = 0;
    while i < n
        invariant
            i <= n,
            n == handles.len(),
            router@ == without_channels(old(router)@, handles@.take(i as int)),
        decreases n - i,
    {
        proof {
            assert(handles@.take(i + 1).drop_last() =~= handles@.take(i as int));
        }
        router.remove_channel(handles[i]);
        i += 1;
    }
    assert(handles@.take(n as int) =~= handles@);
}

/// Joins each of `channels` to its group.
fn join_all(router: &mut GroupRouter, channels: &Vec<Channel>)
    ensures
        final(router)@ == with_channels(old(router)@, channels.deep_view()),
{
    let ghost all = channels.deep_view();
    let n: usize = channels.len();
    let mut i: usize = 0;
    while i < n
        invariant
            i <= n,
            n == channels.len(),
            all == channels.deep_view(),
            router@ == with_channels(old(router)@, all.take(i as int)),
        decreases n - i,
    {
        proof {
            assert(all.take(i + 1).drop_last() =~= all.take(i as int));
            assert(all.take(i + 1).last() == channels[i as int]@);
        }
        router.join(channels[i].group.as_str(), channels[i].handle);
        i += 1;
    }
    assert(all.take(n as int) =~= all);
}

/// The signaling client.
#[derive(Debug)]
pub struct WebRTCModule {
    state: ClientState,
    self_id: String,
    initial_groups: Vec<String>,
    sessions: Vec<PeerSession>,
    router: GroupRouter,
    peer_groups: Vec<PeerGroups>,
    audio_sending_active: bool,
    audio_receiving_active: bool,
    next_handle: ChannelHandle,
}

impl View for WebRTCModule {
    type V = ClientView;

    closed spec fn view(&self) -> ClientView {
        ClientView {
            state: self.state,
            self_id: self.self_id@,
            initial_groups: self.initial_groups.deep_view(),
            sessions: self.sessions.deep_view(),
            router: self.router@,
            peer_groups: self.peer_groups.deep_view(),
            sending: self.audio_sending_active,
            receiving: self.audio_receiving_active,
            next_handle: self.next_handle,
        }
    }
}

impl WebRTCModule {
    /// A client that has not begun: no session, no channel, both gates
    /// open.
    pub fn new() -> (m: Self)
        ensures
            m@ == ClientView::fresh(),
            m@.wf(),
    {
        let m = WebRTCModule {
            state: ClientState::Disconnected,
            self_id: String::new(),
            initial_groups: Vec::new(),
            sessions: Vec::new(),
            router: GroupRouter::new(),
            peer_groups: Vec::new(),
            audio_sending_active: true,
            audio_receiving_active: true,
            next_handle: 0,
        };
        assert(m.initial_groups.deep_view() =~= Seq::<Seq<char>>::empty());
        assert(m.sessions.deep_view() =~= Seq::<SessionView>::empty());
        assert(m.peer_groups.deep_view() =~= Seq::<PeerGroupsView>::empty());
        m
    }

    /// How far the client has come.
    pub fn state(&self) -> (st: ClientState)
        ensures
            st == self@.state,
    {
        self.state
    }

    /// Whether the sending gate is open.
    pub fn is_sending(&self) -> (b: bool)
        ensures
            b == self@.sending,
    {
        self.audio_sending_active
    }

    /// Whether the receiving gate is open.
    pub fn is_receiving(&self) -> (b: bool)
        ensures
            b == self@.receiving,
    {
        self.audio_receiving_active
    }

    /// Closes the sending gate. Nothing else changes.
    pub fn stop_sending_audio(&mut self)
        ensures
            final(self)@ == old(self)@.stop_sending(),
            old(self)@.wf() ==> final(self)@.wf(),
    {
        self.audio_sending_active = false;
    }

    /// Opens the sending gate. Nothing else changes.
    pub fn resume_sending_audio(&mut self)
        ensures
            final(self)@ == old(self)@.resume_sending(),
            old(self)@.wf() ==> final(self)@.wf(),
    {
        self.audio_sending_active = true;
    }

    /// Closes the receiving gate. Nothing else changes.
    pub fn stop_receiving_audio(&mut self)
        ensures
            final(self)@ == old(self)@.stop_receiving(),
            old(self)@.wf() ==> final(self)@.wf(),
    {
        self.audio_receiving_active = false;
    }

    /// Opens the receiving gate. Nothing else changes.
    pub fn resume_receiving_audio(&mut self)
        ensures
            final(self)@ == old(self)@.resume_receiving(),
            old(self)@.wf() ==> final(self)@.wf(),
    {
        self.audio_receiving_active = true;
    }

    /// Joins `data_channel` to `group`.
    pub fn join_group(&mut self, group: &str, data_channel: ChannelHandle)
        ensures
            final(self)@ == (ClientView {
                router: old(self)@.router.join(group@, data_channel),
                ..old(self)@
            }),
            old(self)@.wf() ==> final(self)@.wf(),
    {
        proof {
            self@.router.lemma_join(group@, data_channel);
        }
        self.router.join(group, data_channel);
    }

    /// Takes `data_channel` out of `group`. Only the handle decides which
    /// channel leaves.
    pub fn leave_group(&mut self, group: &str, data_channel: ChannelHandle)
        ensures
            final(self)@ == (ClientView {
                router: old(self)@.router.leave(group@, data_channel),
                ..old(self)@
            }),
            old(self)@.wf() ==> final(self)@.wf(),
    {
        proof {
            self@.router.lemma_leave(group@, data_channel);
        }
        self.router.leave(group, data_channel);
    }

    /// The channels that `audio_data` is to be written to: those joined to
    /// `group`, each once. With the sending gate closed, or with no frame
    /// to send, there is none, and that is no failure.
    pub fn send_audio(&self, audio_data: &FormattedAudio, group: &str) -> (targets: Vec<
        ChannelHandle,
    >)
        ensures
            targets@ == self@.send_targets(audio_data is Ok, group@),
            targets@.no_duplicates(),
            forall|c: ChannelHandle|
                targets@.contains(c) <==> self@.sending && audio_data is Ok
                    && self@.router.is_member(group@, c),
    {
        if !self.audio_sending_active || audio_data.is_err() {
            return Vec::new();
        }
        self.router.targets(group)
    }

    /// The state of the session with `peer_id`, if there is one.
    pub fn session_state(&self, peer_id: &str) -> (st: Option<NegotiationState>)
        ensures
            st == if self@.has_session(peer_id@) {
                Some(self@.session(peer_id@).state)
            } else {
                None
            },
    {
        let i = self.find_session(peer_id);
        if i < self.sessions.len() {
            Some(self.sessions[i].state())
        } else {
            None
        }
    }

    /// The channels of the session with `peer_id`; none when there is no
    /// session.
    pub fn session_channels(&self, peer_id: &str) -> (channels: Vec<Channel>)
        ensures
            channels.deep_view() == if self@.has_session(peer_id@) {
                self@.session(peer_id@).channels
            } else {
                Seq::empty()
            },
    {
        let i = self.find_session(peer_id);
        if i < self.sessions.len() {
            self.sessions[i].channels()
        } else {
            let none: Vec<Channel> = Vec::new();
            assert(none.deep_view() =~= Seq::<ChannelView>::empty());
            none
        }
    }

    /// The candidates that wait in the session with `peer_id`, oldest
    /// first; none when there is no session.
    pub fn pending_candidates(&self, peer_id: &str) -> (candidates: Vec<String>)
        ensures
            candidates.deep_view() == if self@.has_session(peer_id@) {
                self@.session(peer_id@).pending
            } else {
                Seq::empty()
            },
    {
        let i = self.find_session(peer_id);
        if i < self.sessions.len() {
            self.sessions[i].pending_candidates()
        } else {
            let none: Vec<String> = Vec::new();
            assert(none.deep_view() =~= Seq::<Seq<char>>::empty());
            none
        }
    }

    /// The ids of the peers that the client has a session with, in the
    /// order in which the sessions were opened.
    pub fn peers(&self) -> (ids: Vec<String>)
        ensures
            ids.deep_view() == self@.peers(),
    {
        let ghost all = self.sessions.deep_view();
        let n: usize = self.sessions.len();
        let mut ids: Vec<String> = Vec::new();
        let mut i: usize = 0;
        assert(ids.deep_view() =~= all.take(0).map_values(peer_of()));
        while i < n
            invariant
                i <= n,
                n == self.sessions.len(),
                all == self.sessions.deep_view(),
                ids.deep_view() == all.take(i as int).map_values(peer_of()),
            decreases n - i,
        {
            let ghost before = ids.deep_view();
            let id = self.sessions[i].peer_id();
            ids.push(id);
            assert(ids.deep_view() =~= before.push(id@));
            assert(all.take(i + 1).map_values(peer_of()) =~= before.push(id@));
            i += 1;
        }
        assert(all.take(n as int) =~= all);
        ids
    }

    /// The channels that are joined to `group`, whatever the gates say.
    pub fn group_channels(&self, group: &str) -> (channels: Vec<ChannelHandle>)
        ensures
            channels@ == self@.router.targets(group@),
    {
        self.router.targets(group)
    }

    /// Makes the consumer's end for the audio of `group`. It is fed by the
    /// channels that are in the group now; a channel that joins later does
    /// not feed it.
    pub fn receive_audio(&self, group: &str) -> (receiver: AudioReceiver)
        ensures
            receiver@ == ReceiverView::subscribed(group@, self@.router.targets(group@)),
    {
        AudioReceiver::new(group, self.router.targets(group))
    }

    /// Hands a frame that `channel` delivered to `receiver`. The receiving
    /// gate is read now: while it is closed the frame is dropped, not
    /// kept.
    pub fn deliver_audio(
        &self,
        receiver: &mut AudioReceiver,
        channel: ChannelHandle,
        frame: Vec<u8>,
    ) -> (d: Delivery)
        ensures
            d == old(receiver)@.delivery(self@.receiving, channel),
            final(receiver)@ == old(receiver)@.deliver(self@.receiving, channel, frame@),
    {
        receiver.deliver(self.audio_receiving_active, channel, frame)
    }

    fn find_session(&self, peer_id: &str) -> (i: usize)
        ensures
            i == self@.session_position(peer_id@),
            i <= self.sessions.len(),
    {
        let n: usize = self.sessions.len();
        let mut i: usize = 0;
        while i < n
            invariant
                i <= n,
                n == self.sessions.len(),
                forall|j: int|
                    0 <= j < i ==> !session_with(peer_id@)(#[trigger] self.sessions.deep_view()[j]),
            ensures
                i <= n,
                forall|j: int|
                    0 <= j < i ==> !session_with(peer_id@)(#[trigger] self.sessions.deep_view()[j]),
                i < n ==> session_with(peer_id@)(self.sessions.deep_view()[i as int]),
            decreases n - i,
        {
            if self.sessions[i].is_with(peer_id) {
                break ;
            }
            i += 1;
        }
        proof {
            lemma_first_where_is(self.sessions.deep_view(), session_with(peer_id@), i as int);
        }
        i
    }

    fn record_groups(&mut self, peer_id: &str, groups: &Vec<String>)
        ensures
            final(self)@ == old(self)@.record_groups(peer_id@, groups.deep_view()),
    {
        let n: usize = self.peer_groups.len();
        let mut i: usize = 0;
        while i < n
            invariant
                i <= n,
                n == self.peer_groups.len(),
                forall|j: int|
                    0 <= j < i ==> !groups_with(peer_id@)(
                        #[trigger] self.peer_groups.deep_view()[j],
                    ),
            ensures
                i <= n,
                forall|j: int|
                    0 <= j < i ==> !groups_with(peer_id@)(
                        #[trigger] self.peer_groups.deep_view()[j],
                    ),
                i < n ==> groups_with(peer_id@)(self.peer_groups.deep_view()[i as int]),
            decreases n - i,
        {
            if same_text(self.peer_groups[i].peer_id.as_str(), peer_id) {
                break ;
            }
            i += 1;
        }
        proof {
            lemma_first_where_is(self.peer_groups.deep_view(), groups_with(peer_id@), i as int);
        }
        let ghost before = self.peer_groups.deep_view();
        let entry = PeerGroups { peer_id: peer_id.to_owned(), groups: copy_names(groups) };
        if i < n {
            self.peer_groups.set(i, entry);
            assert(self.peer_groups.deep_view() =~= before.update(i as int, entry@));
        } else {
            self.peer_groups.push(entry);
            assert(self.peer_groups.deep_view() =~= before.push(entry@));
        }
    }

    /// The groups last heard of for `peer_id`.
    pub fn groups_of(&self, peer_id: &str) -> (groups: Option<Vec<String>>)
        ensures
            groups.deep_view() == self@.groups_of(peer_id@),
    {
        let n: usize = self.peer_groups.len();
        let mut i: usize = 0;
        while i < n
            invariant
                i <= n,
                n == self.peer_groups.len(),
                forall|j: int|
                    0 <= j < i ==> !groups_with(peer_id@)(
                        #[trigger] self.peer_groups.deep_view()[j],
                    ),
            ensures
                i <= n,
                forall|j: int|
                    0 <= j < i ==> !groups_with(peer_id@)(
                        #[trigger] self.peer_groups.deep_view()[j],
                    ),
                i < n ==> groups_with(peer_id@)(self.peer_groups.deep_view()[i as int]),
            decreases n - i,
        {
            if same_text(self.peer_groups[i].peer_id.as_str(), peer_id) {
                break ;
            }
            i += 1;
        }
        proof {
            lemma_first_where_is(self.peer_groups.deep_view(), groups_with(peer_id@), i as int);
        }
        if i < n {
            Some(copy_names(&self.peer_groups[i].groups))
        } else {
            None
        }
    }

    fn drop_session(&mut self, peer_id: &str) -> (found: bool)
        ensures
            found == old(self)@.has_session(peer_id@),
            final(self)@ == old(self)@.drop_session(peer_id@),
    {
        let i = self.find_session(peer_id);
        if i < self.sessions.len() {
            let ghost before = self.sessions.deep_view();
            let mut session = self.sessions.remove(i);
            assert(self.sessions.deep_view() =~= before.remove(i as int));
            let handles = session.close();
            leave_all(&mut self.router, &handles);
            true
        } else {
            false
        }
    }

    fn can_open(&self, groups: &Vec<String>) -> (b: bool)
        ensures
            b == self@.can_open(groups.deep_view()),
    {
        groups.len() as u64 <= u64::MAX - self.next_handle
    }

    fn start_session(&mut self, peer_id: &str, role: Role, groups: &Vec<String>) -> (out: Vec<
        SignalAction,
    >)
        ensures
            (final(self)@, out.deep_view()) == old(self)@.start_session(
                peer_id@,
                role,
                groups.deep_view(),
            ),
    {
        let mut out: Vec<SignalAction> = Vec::new();
        assert(out.deep_view() =~= Seq::<ActionView>::empty());
        if !self.can_open(groups) {
            return out;
        }
        if self.drop_session(peer_id) {
            emit(&mut out, SignalAction::CloseSession { peer_id: peer_id.to_owned() });
        }
        let session = PeerSession::new(peer_id, role, groups, self.next_handle);
        let channels = session.channels();
        proof {
            lemma_fresh_channels_len(Seq::empty(), groups.deep_view(), self.next_handle);
        }
        join_all(&mut self.router, &channels);
        self.next_handle = self.next_handle + channels.len() as u64;
        let ghost before = self.sessions.deep_view();
        self.sessions.push(session);
        assert(self.sessions.deep_view() =~= before.push(session@));
        emit(&mut out, SignalAction::OpenSession { peer_id: peer_id.to_owned(), role, channels });
        out
    }

    fn initiate(&mut self, peer_id: &str, groups: &Vec<String>) -> (out: Vec<SignalAction>)
        ensures
            (final(self)@, out.deep_view()) == old(self)@.initiate(peer_id@, groups.deep_view()),
    {
        let able = self.can_open(groups);
        let mut out = self.start_session(peer_id, Role::Initiator, groups);
        if able {
            emit(&mut out, SignalAction::CreateOffer { peer_id: peer_id.to_owned() });
        }
        out
    }

    fn bootstrap(&mut self, peers: &Vec<String>) -> (out: Vec<SignalAction>)
        ensures
            (final(self)@, out.deep_view()) == old(self)@.bootstrap(peers.deep_view()),
    {
        let ghost all = peers.deep_view();
        let n: usize = peers.len();
        let mut out: Vec<SignalAction> = Vec::new();
        let mut i: usize = 0;
        assert(out.deep_view() =~= Seq::<ActionView>::empty());
        while i < n
            invariant
                i <= n,
                n == peers.len(),
                all == peers.deep_view(),
                (self@, out.deep_view()) == old(self)@.bootstrap(all.take(i as int)),
            decreases n - i,
        {
            proof {
                assert(all.take(i + 1).drop_last() =~= all.take(i as int));
                assert(all.take(i + 1).last() == peers[i as int]@);
            }
            let groups = copy_names(&self.initial_groups);
            let mut more = self.initiate(peers[i].as_str(), &groups);
            let ghost done = out.deep_view();
            let ghost added = more.deep_view();
            out.append(&mut more);
            assert(out.deep_view() =~= done + added);
            i += 1;
        }
        assert(all.take(n as int) =~= all);
        out
    }

    fn on_offer(&mut self, from: &str, sdp: &str, groups: &Vec<String>) -> (out: Vec<SignalAction>)
        ensures
            (final(self)@, out.deep_view()) == old(self)@.on_offer(
                from@,
                sdp@,
                groups.deep_view(),
            ),
    {
        let able = self.can_open(groups);
        let mut out = self.start_session(from, Role::Responder, groups);
        if !able {
            return out;
        }
        let i = self.find_session(from);
        proof {
            lemma_first_where(self.sessions.deep_view(), session_with(from@));
            assert(session_with(from@)(self.sessions.deep_view()[self.sessions.len() - 1]));
        }
        let ghost before = self.sessions.deep_view();
        match self.sessions[i].apply_remote_offer(sdp.to_owned()) {
            Ok(_) => {
                assert(self.sessions.deep_view() =~= before.update(
                    i as int,
                    self.sessions[i as int]@,
                ));
                emit(
                    &mut out,
                    SignalAction::ApplyRemoteOffer { peer_id: from.to_owned(), sdp: sdp.to_owned() },
                );
                emit(&mut out, SignalAction::CreateAnswer { peer_id: from.to_owned() });
            },
            Err(_) => {
                assert(self.sessions.deep_view() =~= before);
            },
        }
        out
    }

    fn on_answer(&mut self, from: &str, sdp: &str) -> (out: Vec<SignalAction>)
        ensures
            (final(self)@, out.deep_view()) == old(self)@.on_answer(from@, sdp@),
    {
        let mut out: Vec<SignalAction> = Vec::new();
        assert(out.deep_view() =~= Seq::<ActionView>::empty());
        let i = self.find_session(from);
        if i >= self.sessions.len() {
            return out;
        }
        let ghost before = self.sessions.deep_view();
        match self.sessions[i].apply_remote_answer(sdp.to_owned()) {
            Ok(flushed) => {
                assert(self.sessions.deep_view() =~= before.update(
                    i as int,
                    self.sessions[i as int]@,
                ));
                emit(
                    &mut out,
                    SignalAction::ApplyRemoteAnswer {
                        peer_id: from.to_owned(),
                        sdp: sdp.to_owned(),
                    },
                );
                let ghost all = flushed.deep_view();
                let ghost head = out.deep_view();
                let n: usize = flushed.len();
                let mut k: usize = 0;
                assert(out.deep_view() =~= head + all.take(0).map_values(adding_for(from@)));
                while k < n
                    invariant
                        k <= n,
                        n == flushed.len(),
                        all == flushed.deep_view(),
                        out.deep_view() == head + all.take(k as int).map_values(adding_for(from@)),
                    decreases n - k,
                {
                    let ghost done = out.deep_view();
                    emit(
                        &mut out,
                        SignalAction::AddCandidate {
                            peer_id: from.to_owned(),
                            candidate: flushed[k].clone(),
                        },
                    );
                    assert(head + all.take(k + 1).map_values(adding_for(from@)) =~= done.push(
                        adding_for(from@)(flushed[k as int]@),
                    ));
                    k += 1;
                }
                assert(all.take(n as int) =~= all);
            },
            Err(_) => {
                assert(self.sessions.deep_view() =~= before);
            },
        }
        out
    }

    fn on_candidate(&mut self, from: &str, candidate: &str) -> (out: Vec<SignalAction>)
        ensures
            (final(self)@, out.deep_view()) == old(self)@.on_candidate(from@, candidate@),
    {
        let mut out: Vec<SignalAction> = Vec::new();
        assert(out.deep_view() =~= Seq::<ActionView>::empty());
        let i = self.find_session(from);
        if i >= self.sessions.len() {
            return out;
        }
        let ghost before = self.sessions.deep_view();
        let step = self.sessions[i].add_remote_candidate(candidate.to_owned());
        assert(self.sessions.deep_view() =~= before.update(i as int, self.sessions[i as int]@));
        match step {
            CandidateStep::Apply(c) => {
                emit(&mut out, SignalAction::AddCandidate { peer_id: from.to_owned(), candidate: c });
            },
            _ => {},
        }
        out
    }

    fn on_group_update(&mut self, peer_id: &str, groups: &Vec<String>) -> (out: Vec<SignalAction>)
        ensures
            (final(self)@, out.deep_view()) == old(self)@.on_group_update(
                peer_id@,
                groups.deep_view(),
            ),
    {
        let mut out: Vec<SignalAction> = Vec::new();
        assert(out.deep_view() =~= Seq::<ActionView>::empty());
        self.record_groups(peer_id, groups);
        let i = self.find_session(peer_id);
        if i >= self.sessions.len() || !self.can_open(groups) {
            return out;
        }
        let ghost before = self.sessions.deep_view();
        let change = self.sessions[i].update_groups(groups, self.next_handle);
        proof {
            assert(self.sessions.deep_view() =~= before.update(
                i as int,
                self.sessions[i as int]@,
            ));
            if before[i as int].state != NegotiationState::Closed {
                lemma_fresh_channels_len(
                    before[i as int].kept_channels(groups.deep_view()),
                    groups.deep_view(),
                    self.next_handle,
                );
            }
        }
        leave_all(&mut self.router, &change.deactivated);
        join_all(&mut self.router, &change.opened);
        self.next_handle = self.next_handle + change.opened.len() as u64;
        let GroupChange { opened, deactivated, retired } = change;
        if opened.len() > 0 {
            emit(
                &mut out,
                SignalAction::OpenChannels { peer_id: peer_id.to_owned(), channels: opened },
            );
        }
        if retired.len() > 0 {
            emit(
                &mut out,
                SignalAction::CloseChannels { peer_id: peer_id.to_owned(), handles: retired },
            );
        }
        assert(out.deep_view() =~= (if opened.len() > 0 {
            seq![ActionView::OpenChannels { peer_id: peer_id@, channels: opened.deep_view() }]
        } else {
            Seq::empty()
        }) + (if retired.len() > 0 {
            seq![ActionView::CloseChannels { peer_id: peer_id@, handles: retired@ }]
        } else {
            Seq::empty()
        }));
        out
    }

    fn dispatch(&mut self, m: &SignalMessage) -> (out: Vec<SignalAction>)
        ensures
            (final(self)@, out.deep_view()) == old(self)@.dispatch(m@),
    {
        match m {
            SignalMessage::NewPeer { peer_id, groups } => {
                self.record_groups(peer_id.as_str(), groups);
                self.initiate(peer_id.as_str(), groups)
            },
            SignalMessage::Offer { to, from, sdp, groups } => self.on_offer(
                from.as_str(),
                sdp.as_str(),
                groups,
            ),
            SignalMessage::Answer { to, from, sdp } => self.on_answer(from.as_str(), sdp.as_str()),
            SignalMessage::Candidate { to, from, candidate } => self.on_candidate(
                from.as_str(),
                candidate.as_str(),
            ),
            SignalMessage::GroupUpdate { peer_id, groups } => self.on_group_update(
                peer_id.as_str(),
                groups,
            ),
            _ => {
                let out: Vec<SignalAction> = Vec::new();
                assert(out.deep_view() =~= Seq::<ActionView>::empty());
                out
            },
        }
    }

    fn on_frame(&mut self, text: &str) -> (out: Vec<SignalAction>)
        ensures
            (final(self)@, out.deep_view()) == old(self)@.on_frame(text@),
    {
        if self.state == ClientState::Registered {
            let peers = split_text(text, ',');
            let out = self.bootstrap(&peers);
            self.state = ClientState::Running;
            out
        } else if self.state == ClientState::Running {
            let m = decode(text);
            self.dispatch(&m)
        } else {
            let out: Vec<SignalAction> = Vec::new();
            assert(out.deep_view() =~= Seq::<ActionView>::empty());
            out
        }
    }

    fn on_local_offer(&mut self, peer_id: &str, sdp: &str) -> (out: Vec<SignalAction>)
        ensures
            (final(self)@, out.deep_view()) == old(self)@.on_local_offer(peer_id@, sdp@),
    {
        let mut out: Vec<SignalAction> = Vec::new();
        assert(out.deep_view() =~= Seq::<ActionView>::empty());
        let i = self.find_session(peer_id);
        if i >= self.sessions.len() {
            return out;
        }
        let ghost before = self.sessions.deep_view();
        match self.sessions[i].set_local_offer(sdp.to_owned()) {
            Ok(_) => {
                assert(self.sessions.deep_view() =~= before.update(
                    i as int,
                    self.sessions[i as int]@,
                ));
                let offer = SignalMessage::Offer {
                    to: peer_id.to_owned(),
                    from: self.self_id.clone(),
                    sdp: sdp.to_owned(),
                    groups: self.sessions[i].groups(),
                };
                emit(&mut out, SignalAction::SendFrame(encode(&offer)));
            },
            Err(_) => {
                assert(self.sessions.deep_view() =~= before);
            },
        }
        out
    }

    fn on_local_answer(&mut self, peer_id: &str, sdp: &str) -> (out: Vec<SignalAction>)
        ensures
            (final(self)@, out.deep_view()) == old(self)@.on_local_answer(peer_id@, sdp@),
    {
        let mut out: Vec<SignalAction> = Vec::new();
        assert(out.deep_view() =~= Seq::<ActionView>::empty());
        let i = self.find_session(peer_id);
        if i >= self.sessions.len() {
            return out;
        }
        let ghost before = self.sessions.deep_view();
        match self.sessions[i].set_local_answer(sdp.to_owned()) {
            Ok(_) => {
                let _ = self.sessions[i].mark_answer_sent();
                assert(self.sessions.deep_view() =~= before.update(
                    i as int,
                    self.sessions[i as int]@,
                ));
                let answer = SignalMessage::Answer {
                    to: peer_id.to_owned(),
                    from: self.self_id.clone(),
                    sdp: sdp.to_owned(),
                };
                emit(&mut out, SignalAction::SendFrame(encode(&answer)));
            },
            Err(_) => {
                assert(self.sessions.deep_view() =~= before);
            },
        }
        out
    }

    fn on_local_candidate(&self, peer_id: &str, candidate: &str) -> (out: Vec<SignalAction>)
        ensures
            out.deep_view() == self@.on_local_candidate(peer_id@, candidate@),
    {
        let mut out: Vec<SignalAction> = Vec::new();
        assert(out.deep_view() =~= Seq::<ActionView>::empty());
        if self.find_session(peer_id) < self.sessions.len() {
            let message = SignalMessage::Candidate {
                to: peer_id.to_owned(),
                from: self.self_id.clone(),
                candidate: candidate.to_owned(),
            };
            emit(&mut out, SignalAction::SendFrame(encode(&message)));
        }
        out
    }

    fn shut_down(&mut self) -> (out: Vec<SignalAction>)
        ensures
            (final(self)@, out.deep_view()) == old(self)@.shut_down(),
    {
        let ghost all = self.sessions.deep_view();
        let n: usize = self.sessions.len();
        let mut out: Vec<SignalAction> = Vec::new();
        let mut i: usize = 0;
        assert(out.deep_view() =~= all.take(0).map_values(closing_of()));
        while i < n
            invariant
                i <= n,
                n == self.sessions.len(),
                all == self.sessions.deep_view(),
                self@ == (ClientView {
                    router: without_sessions(old(self)@.router, all.take(i as int)),
                    ..old(self)@
                }),
                out.deep_view() == all.take(i as int).map_values(closing_of()),
            decreases n - i,
        {
            proof {
                assert(all.take(i + 1).drop_last() =~= all.take(i as int));
                assert(all.take(i + 1).last() == self.sessions[i as int]@);
            }
            let handles = self.sessions[i].handles();
            leave_all(&mut self.router, &handles);
            let ghost done = out.deep_view();
            emit(&mut out, SignalAction::CloseSession { peer_id: self.sessions[i].peer_id() });
            assert(all.take(i + 1).map_values(closing_of()) =~= done.push(
                closing_of()(self.sessions[i as int]@),
            ));
            i += 1;
        }
        assert(all.take(n as int) =~= all);
        self.sessions = Vec::new();
        self.state = ClientState::ShuttingDown;
        assert(self.sessions.deep_view() =~= Seq::<SessionView>::empty());
        out
    }

    /// Takes the client's id and groups. A client that is disconnected
    /// waits for the connection from now on; any other is left as it is.
    pub fn begin(&mut self, peer_id: &str, initial_groups: &Vec<String>)
        ensures
            final(self)@ == old(self)@.begin(peer_id@, initial_groups.deep_view()),
            old(self)@.wf() ==> final(self)@.wf(),
    {
        if self.state == ClientState::Disconnected {
            self.state = ClientState::Connecting;
            self.self_id = peer_id.to_owned();
            self.initial_groups = copy_names(initial_groups);
        }
    }

    /// Takes one event and says what is to be done, in order. An event
    /// that the state does not admit, a frame that is no message, a step
    /// that a session refuses: each changes nothing and asks for nothing.
    pub fn handle_event(&mut self, event: &SignalEvent) -> (out: Vec<SignalAction>)
        ensures
            (final(self)@, out.deep_view()) == old(self)@.step(event@),
            old(self)@.wf() ==> final(self)@.wf(),
    {
        proof {
            if self@.wf() {
                self@.lemma_step_wf(event@);
            }
        }
        match event {
            SignalEvent::Connected => {
                let mut out: Vec<SignalAction> = Vec::new();
                assert(out.deep_view() =~= Seq::<ActionView>::empty());
                if self.state == ClientState::Connecting {
                    self.state = ClientState::Registered;
                    let register = SignalMessage::Register {
                        peer_id: self.self_id.clone(),
                        groups: copy_names(&self.initial_groups),
                    };
                    emit(&mut out, SignalAction::SendFrame(encode(&register)));
                }
                out
            },
            SignalEvent::Frame(text) => self.on_frame(text.as_str()),
            SignalEvent::LocalOffer { peer_id, sdp } => self.on_local_offer(
                peer_id.as_str(),
                sdp.as_str(),
            ),
            SignalEvent::LocalAnswer { peer_id, sdp } => self.on_local_answer(
                peer_id.as_str(),
                sdp.as_str(),
            ),
            SignalEvent::LocalCandidate { peer_id, candidate } => self.on_local_candidate(
                peer_id.as_str(),
                candidate.as_str(),
            ),
            SignalEvent::TransportClosed { peer_id } => {
                self.drop_session(peer_id.as_str());
                let out: Vec<SignalAction> = Vec::new();
                assert(out.deep_view() =~= Seq::<ActionView>::empty());
                out
            },
            SignalEvent::Interrupt => self.shut_down(),
        }
    }

    /// Runs the client over `events`: it begins as `peer_id` with
    /// `initial_groups` and takes the events in order. What is to be done
    /// comes back in the order in which it was asked for.
    pub fn signaling_loop(
        &mut self,
        peer_id: &str,
        initial_groups: &Vec<String>,
        events: &Vec<SignalEvent>,
    ) -> (out: Vec<SignalAction>)
        ensures
            (final(self)@, out.deep_view()) == old(self)@.begin(
                peer_id@,
                initial_groups.deep_view(),
            ).run(events.deep_view()),
            old(self)@.wf() ==> final(self)@.wf(),
    {
        self.begin(peer_id, initial_groups);
        let ghost start = self@;
        proof {
            if start.wf() {
                start.lemma_run_wf(events.deep_view());
            }
        }
        let ghost all = events.deep_view();
        let n: usize = events.len();
        let mut out: Vec<SignalAction> = Vec::new();
        let mut i: usize = 0;
        assert(out.deep_view() =~= Seq::<ActionView>::empty());
        while i < n
            invariant
                i <= n,
                n == events.len(),
                all == events.deep_view(),
                (self@, out.deep_view()) == start.run(all.take(i as int)),
            decreases n - i,
        {
            proof {
                assert(all.take(i + 1).drop_last() =~= all.take(i as int));
                assert(all.take(i + 1).last() == events[i as int]@);
            }
            let mut more = self.handle_event(&events[i]);
            let ghost done = out.deep_view();
            let ghost added = more.deep_view();
            out.append(&mut more);
            assert(out.deep_view() =~= done + added);
            i += 1;
        }
        assert(all.take(n as int) =~= all);
        out
    }

    /// Notes that `peer_id` is in `new_groups` from now on and hands out the
    /// frame that tells the room.
    pub fn update_user_groups(&mut self, peer_id: &str, new_groups: &Vec<String>) -> (frame: String)
        ensures
            final(self)@ == old(self)@.record_groups(peer_id@, new_groups.deep_view()),
            frame@ == encode_spec(
                MessageView::GroupUpdate { peer_id: peer_id@, groups: new_groups.deep_view() },
            ),
            old(self)@.wf() ==> final(self)@.wf(),
    {
        self.record_groups(peer_id, new_groups);
        let message = SignalMessage::GroupUpdate {
            peer_id: peer_id.to_owned(),
            groups: copy_names(new_groups),
        };
        encode(&message)
    }
}

fn emit(out: &mut Vec<SignalAction>, action: SignalAction)
    ensures
        final(out).deep_view() == old(out).deep_view().push(action@),
{
    let ghost before = out.deep_view();
    out.push(action);
    assert(out.deep_view() =~= before.push(action@));
}

} // verus!
