//! One peer session: the negotiation with one remote peer and the data
//! channels that it opened, one per group.
//!
//! ```text
//! initiator:  Created --local offer--> OfferSent --remote answer--> Connected
//! responder:  Created --remote offer--> OfferReceived --local answer--> AnswerSent
//!                     --answer sent--> Connected
//! any state:  --close--> Closed
//! ```
//!
//! Descriptions and candidates are opaque texts. A step that the state does
//! not admit changes nothing and is reported as a [`NegotiationError`].

use crate::router::ChannelHandle;
use crate::seqs::{distinct_by, lemma_filter_distinct_by, lemma_filter_holds};
use crate::text::same_text;
use vstd::prelude::*;

verus! {

/// Which side of the negotiation a session is on.
#[derive(Debug, Clone, Copy, PartialEq, Eq, Structural)]
pub enum Role {
    Initiator,
    Responder,
}

/// How far the negotiation with the peer has come.
#[derive(Debug, Clone, Copy, PartialEq, Eq, Structural)]
pub enum NegotiationState {
    Created,
    OfferSent,
    OfferReceived,
    AnswerSent,
    Connected,
    Closed,
}

/// Why a step was not taken. The session is as it was before.
#[derive(Debug, Clone, Copy, PartialEq, Eq, Structural)]
pub enum NegotiationError {
    /// A remote description has been applied already.
    DuplicateRemoteDescription,
    /// The session's role or state does not admit the step.
    OutOfState,
}

/// A data channel of a session.
#[derive(Debug, Clone, PartialEq, Eq)]
pub struct Channel {
    pub group: String,
    pub handle: ChannelHandle,
    /// Cleared when the group was taken away from the peer; such a channel
    /// is dropped at the next change of the peer's groups.
    pub active: bool,
}

/// A [`Channel`] as a mathematical value.
pub struct ChannelView {
    pub group: Seq<char>,
    pub handle: ChannelHandle,
    pub active: bool,
}

impl View for Channel {
    type V = ChannelView;

    open spec fn view(&self) -> ChannelView {
        ChannelView { group: self.group@, handle: self.handle, active: self.active }
    }
}

impl DeepView for Channel {
    type V = ChannelView;

    open spec fn deep_view(&self) -> ChannelView {
        self@
    }
}

impl Channel {
    /// A copy of the channel.
    pub fn duplicate(&self) -> (c: Channel)
        ensures
            c@ == self@,
    {
        Channel { group: self.group.clone(), handle: self.handle, active: self.active }
    }
}

/// What to do with a remote candidate.
#[derive(Debug, PartialEq, Eq)]
pub enum CandidateStep {
    /// No remote description yet: the session keeps the candidate.
    Buffered,
    /// Hand the candidate to the transport now.
    Apply(String),
    /// The session is closed: the candidate is dropped.
    Dropped,
}

/// A [`CandidateStep`] as a mathematical value.
pub enum CandidateStepView {
    Buffered,
    Apply(Seq<char>),
    Dropped,
}

impl View for CandidateStep {
    type V = CandidateStepView;

    open spec fn view(&self) -> CandidateStepView {
        match self {
            CandidateStep::Buffered => CandidateStepView::Buffered,
            CandidateStep::Apply(c) => CandidateStepView::Apply(c@),
            CandidateStep::Dropped => CandidateStepView::Dropped,
        }
    }
}

/// What a change of a peer's groups did to its channels.
#[derive(Debug, Clone, PartialEq, Eq)]
pub struct GroupChange {
    /// Channels opened for groups that the peer had not.
    pub opened: Vec<Channel>,
    /// Channels of groups that were taken away: they stay open and unused.
    pub deactivated: Vec<ChannelHandle>,
    /// Channels that were unused before: they are dropped.
    pub retired: Vec<ChannelHandle>,
}

/// A [`GroupChange`] as a mathematical value.
pub struct GroupChangeView {
    pub opened: Seq<ChannelView>,
    pub deactivated: Seq<ChannelHandle>,
    pub retired: Seq<ChannelHandle>,
}

impl View for GroupChange {
    type V = GroupChangeView;

    open spec fn view(&self) -> GroupChangeView {
        GroupChangeView {
            opened: self.opened.deep_view(),
            deactivated: self.deactivated@,
            retired: self.retired@,
        }
    }
}

/// Holds of the channels that are in use.
pub open spec fn is_active() -> spec_fn(ChannelView) -> bool {
    |c: ChannelView| c.active
}

/// Holds of the channels that are out of use.
pub open spec fn is_inactive() -> spec_fn(ChannelView) -> bool {
    |c: ChannelView| !c.active
}

/// The handle of a channel.
pub open spec fn handle_of() -> spec_fn(ChannelView) -> ChannelHandle {
    |c: ChannelView| c.handle
}

/// The group of a channel.
pub open spec fn group_of() -> spec_fn(ChannelView) -> Seq<char> {
    |c: ChannelView| c.group
}

/// Keeps a channel active exactly if its group is among `groups`.
pub open spec fn restricted_to(groups: Seq<Seq<char>>) -> spec_fn(ChannelView) -> ChannelView {
    |c: ChannelView| ChannelView { group: c.group, handle: c.handle, active: groups.contains(c.group) }
}

/// Holds of the channels whose group is not among `groups`.
pub open spec fn outside_of(groups: Seq<Seq<char>>) -> spec_fn(ChannelView) -> bool {
    |c: ChannelView| !groups.contains(c.group)
}

/// Whether one of `channels` is the channel of `group`.
pub open spec fn has_group(channels: Seq<ChannelView>, group: Seq<char>) -> bool {
    exists|i: int| 0 <= i < channels.len() && (#[trigger] channels[i]).group == group
}

/// The channels to open for `groups`: one for each group that has no
/// channel among `existing`, in the order of the list, a group that is
/// named twice counted once. The handles count up from `first`.
pub open spec fn fresh_channels(
    existing: Seq<ChannelView>,
    groups: Seq<Seq<char>>,
    first: ChannelHandle,
) -> Seq<ChannelView>
    decreases groups.len(),
{
    if groups.len() == 0 {
        Seq::empty()
    } else {
        let before = fresh_channels(existing, groups.drop_last(), first);
        let group = groups.last();
        if has_group(existing, group) || has_group(before, group) {
            before
        } else {
            before.push(
                ChannelView { group, handle: (first + before.len()) as ChannelHandle, active: true },
            )
        }
    }
}

/// There are no more fresh channels than groups.
pub proof fn lemma_fresh_channels_len(
    existing: Seq<ChannelView>,
    groups: Seq<Seq<char>>,
    first: ChannelHandle,
)
    ensures
        fresh_channels(existing, groups, first).len() <= groups.len(),
    decreases groups.len(),
{
    if groups.len() > 0 {
        lemma_fresh_channels_len(existing, groups.drop_last(), first);
    }
}

/// Fresh channels are in use and carry the handles from `first` on, one
/// after another.
pub proof fn lemma_fresh_channels_handles(
    existing: Seq<ChannelView>,
    groups: Seq<Seq<char>>,
    first: ChannelHandle,
)
    requires
        first + groups.len() <= u64::MAX,
    ensures
        fresh_channels(existing, groups, first).len() <= groups.len(),
        forall|k: int|
            0 <= k < fresh_channels(existing, groups, first).len() ==> {
                &&& (#[trigger] fresh_channels(existing, groups, first)[k]).handle == first + k
                &&& fresh_channels(existing, groups, first)[k].active
                &&& groups.contains(fresh_channels(existing, groups, first)[k].group)
            },
    decreases groups.len(),
{
    if groups.len() > 0 {
        let before = fresh_channels(existing, groups.drop_last(), first);
        lemma_fresh_channels_handles(existing, groups.drop_last(), first);
        let all = fresh_channels(existing, groups, first);
        assert forall|k: int| 0 <= k < all.len() implies {
            &&& (#[trigger] all[k]).handle == first + k
            &&& all[k].active
            &&& groups.contains(all[k].group)
        } by {
            if k < before.len() {
                assert(all[k] == before[k]);
                let g = before[k].group;
                let j = choose|j: int| 0 <= j < groups.drop_last().len() && groups.drop_last()[j] == g;
                assert(groups[j] == g);
            } else {
                assert(groups[groups.len() - 1] == all[k].group);
            }
        }
    }
}

/// The channels that stay at a change of groups are channels that were
/// there, with their handles.
pub proof fn lemma_kept_channels(channels: Seq<ChannelView>, groups: Seq<Seq<char>>, k: int)
    requires
        0 <= k < channels.filter(is_active()).map_values(restricted_to(groups)).len(),
    ensures
        exists|i: int|
            0 <= i < channels.len() && (#[trigger] channels[i]).handle == channels.filter(
                is_active(),
            ).map_values(restricted_to(groups))[k].handle && channels[i].group == channels.filter(
                is_active(),
            ).map_values(restricted_to(groups))[k].group,
{
    let live = channels.filter(is_active());
    lemma_filter_holds(channels, is_active(), live[k]);
    assert(live.contains(live[k]));
    let i = choose|i: int| 0 <= i < channels.len() && channels[i] == live[k];
    assert(channels[i].handle == live.map_values(restricted_to(groups))[k].handle);
}

/// Whether one of `channels` has the handle `handle`.
pub open spec fn has_handle(channels: Seq<ChannelView>, handle: ChannelHandle) -> bool {
    exists|k: int| 0 <= k < channels.len() && (#[trigger] channels[k]).handle == handle
}

/// The channels that stay at a change of groups keep their handles apart,
/// and bring no handle that was not there.
pub proof fn lemma_kept_channels_distinct(channels: Seq<ChannelView>, groups: Seq<Seq<char>>)
    requires
        distinct_by(channels, handle_of()),
    ensures
        distinct_by(
            channels.filter(is_active()).map_values(restricted_to(groups)),
            handle_of(),
        ),
        forall|h: ChannelHandle|
            has_handle(channels.filter(is_active()).map_values(restricted_to(groups)), h)
                ==> has_handle(channels, h),
{
    let live = channels.filter(is_active());
    let kept = live.map_values(restricted_to(groups));
    lemma_filter_distinct_by(channels, handle_of(), is_active());
    assert forall|i: int, j: int|
        0 <= i < kept.len() && 0 <= j < kept.len() && i != j implies handle_of()(kept[i])
        != handle_of()(kept[j]) by {
        assert(handle_of()(kept[i]) == handle_of()(live[i]));
        assert(handle_of()(kept[j]) == handle_of()(live[j]));
    }
    assert forall|h: ChannelHandle| has_handle(kept, h) implies has_handle(channels, h) by {
        let k = choose|k: int| 0 <= k < kept.len() && (#[trigger] kept[k]).handle == h;
        lemma_kept_channels(channels, groups, k);
    }
}

/// A session as a mathematical value.
pub struct SessionView {
    pub peer_id: Seq<char>,
    pub role: Role,
    pub state: NegotiationState,
    pub local_description: Option<Seq<char>>,
    pub remote_description: Option<Seq<char>>,
    /// The candidates that wait for the remote description, oldest first.
    pub pending: Seq<Seq<char>>,
    pub channels: Seq<ChannelView>,
}

impl SessionView {
    /// A fresh session with one active channel per group.
    pub open spec fn created(
        peer_id: Seq<char>,
        role: Role,
        groups: Seq<Seq<char>>,
        first: ChannelHandle,
    ) -> SessionView {
        SessionView {
            peer_id,
            role,
            state: NegotiationState::Created,
            local_description: None,
            remote_description: None,
            pending: Seq::empty(),
            channels: fresh_channels(Seq::empty(), groups, first),
        }
    }

    /// The initiator has built its offer and set it as local description.
    pub open spec fn local_offer(self, sdp: Seq<char>) -> Result<SessionView, NegotiationError> {
        if self.role == Role::Initiator && self.state == NegotiationState::Created {
            Ok(
                SessionView {
                    state: NegotiationState::OfferSent,
                    local_description: Some(sdp),
                    ..self
                },
            )
        } else {
            Err(NegotiationError::OutOfState)
        }
    }

    /// The responder applies the offer that it received. The candidates
    /// that waited leave the buffer.
    pub open spec fn remote_offer(self, sdp: Seq<char>) -> Result<SessionView, NegotiationError> {
        if self.remote_description is Some {
            Err(NegotiationError::DuplicateRemoteDescription)
        } else if self.role == Role::Responder && self.state == NegotiationState::Created {
            Ok(
                SessionView {
                    state: NegotiationState::OfferReceived,
                    remote_description: Some(sdp),
                    pending: Seq::empty(),
                    ..self
                },
            )
        } else {
            Err(NegotiationError::OutOfState)
        }
    }

    /// The responder has built its answer and set it as local description.
    pub open spec fn local_answer(self, sdp: Seq<char>) -> Result<SessionView, NegotiationError> {
        if self.role == Role::Responder && self.state == NegotiationState::OfferReceived {
            Ok(
                SessionView {
                    state: NegotiationState::AnswerSent,
                    local_description: Some(sdp),
                    ..self
                },
            )
        } else {
            Err(NegotiationError::OutOfState)
        }
    }

    /// The responder's answer has gone out.
    pub open spec fn answer_sent(self) -> Result<SessionView, NegotiationError> {
        if self.state == NegotiationState::AnswerSent {
            Ok(SessionView { state: NegotiationState::Connected, ..self })
        } else {
            Err(NegotiationError::OutOfState)
        }
    }

    /// The initiator applies the answer that it received. The candidates
    /// that waited leave the buffer.
    pub open spec fn remote_answer(self, sdp: Seq<char>) -> Result<SessionView, NegotiationError> {
        if self.remote_description is Some {
            Err(NegotiationError::DuplicateRemoteDescription)
        } else if self.role == Role::Initiator && self.state == NegotiationState::OfferSent {
            Ok(
                SessionView {
                    state: NegotiationState::Connected,
                    remote_description: Some(sdp),
                    pending: Seq::empty(),
                    ..self
                },
            )
        } else {
            Err(NegotiationError::OutOfState)
        }
    }

    /// What becomes of a remote candidate.
    pub open spec fn candidate_step(self, candidate: Seq<char>) -> CandidateStepView {
        if self.state == NegotiationState::Closed {
            CandidateStepView::Dropped
        } else if self.remote_description is None {
            CandidateStepView::Buffered
        } else {
            CandidateStepView::Apply(candidate)
        }
    }

    /// The session after a remote candidate came in.
    pub open spec fn remote_candidate(self, candidate: Seq<char>) -> SessionView {
        if self.candidate_step(candidate) is Buffered {
            SessionView { pending: self.pending.push(candidate), ..self }
        } else {
            self
        }
    }

    /// The handles of all channels, first to last.
    pub open spec fn handles(self) -> Seq<ChannelHandle> {
        self.channels.map_values(handle_of())
    }

    /// The groups that the session has a channel in use for.
    pub open spec fn groups(self) -> Seq<Seq<char>> {
        self.channels.filter(is_active()).map_values(group_of())
    }

    /// The closed session: no channel, nothing buffered.
    pub open spec fn closed(self) -> SessionView {
        SessionView {
            state: NegotiationState::Closed,
            pending: Seq::empty(),
            channels: Seq::empty(),
            ..self
        }
    }

    /// The channels that stay when the peer's groups become `groups`: the
    /// active ones, each active from now on only if its group is listed.
    pub open spec fn kept_channels(self, groups: Seq<Seq<char>>) -> Seq<ChannelView> {
        self.channels.filter(is_active()).map_values(restricted_to(groups))
    }

    /// What a change of the peer's groups to `groups` does: a channel is
    /// opened for each group that has none, the active channels of groups
    /// that are not listed go out of use, and the channels that were out of
    /// use are dropped. A closed session is left alone.
    pub open spec fn group_change(
        self,
        groups: Seq<Seq<char>>,
        first: ChannelHandle,
    ) -> GroupChangeView {
        if self.state == NegotiationState::Closed {
            GroupChangeView { opened: Seq::empty(), deactivated: Seq::empty(), retired: Seq::empty() }
        } else {
            GroupChangeView {
                opened: fresh_channels(self.kept_channels(groups), groups, first),
                deactivated: self.channels.filter(is_active()).filter(
                    outside_of(groups),
                ).map_values(handle_of()),
                retired: self.channels.filter(is_inactive()).map_values(handle_of()),
            }
        }
    }

    /// The session after the peer's groups became `groups`.
    pub open spec fn update_groups(self, groups: Seq<Seq<char>>, first: ChannelHandle) -> SessionView {
        if self.state == NegotiationState::Closed {
            self
        } else {
            SessionView {
                channels: self.kept_channels(groups) + self.group_change(groups, first).opened,
                ..self
            }
        }
    }
}

impl SessionView {
    /// What holds of a session at all times: its descriptions are those
    /// that its state tells of, nothing waits once the remote description
    /// is there, and a closed session has no channel.
    pub open spec fn wf(self) -> bool {
        &&& self.remote_description is Some ==> self.pending.len() == 0
        &&& match self.state {
            NegotiationState::Created => self.local_description is None
                && self.remote_description is None,
            NegotiationState::OfferSent => self.role == Role::Initiator
                && self.local_description is Some && self.remote_description is None,
            NegotiationState::OfferReceived => self.role == Role::Responder
                && self.local_description is None && self.remote_description is Some,
            NegotiationState::AnswerSent => self.role == Role::Responder
                && self.local_description is Some && self.remote_description is Some,
            NegotiationState::Connected => self.local_description is Some
                && self.remote_description is Some,
            NegotiationState::Closed => self.pending.len() == 0 && self.channels.len() == 0,
        }
    }

    /// A fresh session is well-formed, and every step keeps a session so,
    /// taken or refused.
    pub proof fn lemma_steps_keep_wf(
        self,
        sdp: Seq<char>,
        groups: Seq<Seq<char>>,
        first: ChannelHandle,
    )
        requires
            self.wf(),
        ensures
            SessionView::created(self.peer_id, self.role, groups, first).wf(),
            self.settled(self.local_offer(sdp)).wf(),
            self.settled(self.remote_offer(sdp)).wf(),
            self.settled(self.local_answer(sdp)).wf(),
            self.settled(self.answer_sent()).wf(),
            self.settled(self.remote_answer(sdp)).wf(),
            self.remote_candidate(sdp).wf(),
            self.update_groups(groups, first).wf(),
            self.closed().wf(),
    {
    }

    /// The session after the remote candidates `candidates` came in, in
    /// that order.
    pub open spec fn remote_candidates(self, candidates: Seq<Seq<char>>) -> SessionView
        decreases candidates.len(),
    {
        if candidates.len() == 0 {
            self
        } else {
            self.remote_candidates(candidates.drop_last()).remote_candidate(candidates.last())
        }
    }

    /// Two fresh sessions that exchange an offer and its answer both end
    /// connected: the initiator sets its offer and the responder applies
    /// it, the responder sets and sends its answer and the initiator
    /// applies it.
    pub proof fn lemma_handshake_connects(
        initiator: SessionView,
        responder: SessionView,
        offer: Seq<char>,
        answer: Seq<char>,
    )
        requires
            initiator.role == Role::Initiator,
            responder.role == Role::Responder,
            initiator.state == NegotiationState::Created,
            responder.state == NegotiationState::Created,
            initiator.wf(),
            responder.wf(),
        ensures
            initiator.local_offer(offer) is Ok,
            responder.remote_offer(offer) is Ok,
            responder.remote_offer(offer)->Ok_0.local_answer(answer) is Ok,
            responder.remote_offer(offer)->Ok_0.local_answer(answer)->Ok_0.answer_sent() is Ok,
            responder.remote_offer(offer)->Ok_0.local_answer(answer)->Ok_0.answer_sent()->Ok_0.state
                == NegotiationState::Connected,
            initiator.local_offer(offer)->Ok_0.remote_answer(answer) is Ok,
            initiator.local_offer(offer)->Ok_0.remote_answer(answer)->Ok_0.state
                == NegotiationState::Connected,
    {
    }

    /// Candidates that come in while there is no remote description wait in
    /// the order of their arrival, behind those that waited already, and
    /// change nothing else.
    pub proof fn lemma_candidates_wait_in_order(self, candidates: Seq<Seq<char>>)
        requires
            self.remote_description is None,
            self.state != NegotiationState::Closed,
        ensures
            self.remote_candidates(candidates) == (SessionView {
                pending: self.pending + candidates,
                ..self
            }),
        decreases candidates.len(),
    {
        if candidates.len() == 0 {
            assert(self.pending + candidates =~= self.pending);
        } else {
            self.lemma_candidates_wait_in_order(candidates.drop_last());
            assert((self.pending + candidates.drop_last()).push(candidates.last())
                =~= self.pending + candidates);
        }
    }

    /// The session after a step: what the step made of it, or the session
    /// as it was where the step was refused.
    pub open spec fn settled(self, step: Result<SessionView, NegotiationError>) -> SessionView {
        match step {
            Ok(next) => next,
            Err(_) => self,
        }
    }

    /// Applying a remote description a second time changes nothing: the
    /// session is as it was after the first time, and the second time is
    /// refused, as a duplicate where the first time was taken.
    pub proof fn lemma_remote_description_once(self, sdp: Seq<char>)
        ensures
            self.settled(self.remote_offer(sdp)).remote_offer(sdp) is Err,
            self.settled(self.remote_answer(sdp)).remote_answer(sdp) is Err,
            self.settled(self.remote_offer(sdp)).settled(
                self.settled(self.remote_offer(sdp)).remote_offer(sdp),
            ) == self.settled(self.remote_offer(sdp)),
            self.settled(self.remote_answer(sdp)).settled(
                self.settled(self.remote_answer(sdp)).remote_answer(sdp),
            ) == self.settled(self.remote_answer(sdp)),
            self.remote_offer(sdp) matches Ok(next) ==> next.remote_offer(sdp) == Err::<
                SessionView,
                NegotiationError,
            >(NegotiationError::DuplicateRemoteDescription),
            self.remote_answer(sdp) matches Ok(next) ==> next.remote_answer(sdp) == Err::<
                SessionView,
                NegotiationError,
            >(NegotiationError::DuplicateRemoteDescription),
    {
    }

    /// Once a remote description is there, every further one is refused as
    /// a duplicate, the same or another, offer or answer.
    pub proof fn lemma_remote_description_stays(self, sdp: Seq<char>)
        requires
            self.remote_description is Some,
        ensures
            self.remote_offer(sdp) == Err::<SessionView, NegotiationError>(
                NegotiationError::DuplicateRemoteDescription,
            ),
            self.remote_answer(sdp) == Err::<SessionView, NegotiationError>(
                NegotiationError::DuplicateRemoteDescription,
            ),
    {
    }
}

/// Whether one of `channels` is the channel of `group`.
pub fn any_has_group(channels: &Vec<Channel>, group: &str) -> (b: bool)
    ensures
        b == has_group(channels.deep_view(), group@),
{
    let n: usize = channels.len();
    let mut i: usize = 0;
    while i < n
        invariant
            i <= n,
            n == channels.len(),
            forall|j: int| 0 <= j < i ==> channels.deep_view()[j].group != group@,
        decreases n - i,
    {
        if same_text(channels[i].group.as_str(), group) {
            assert(channels.deep_view()[i as int].group == group@);
            return true;
        }
        i += 1;
    }
    false
}

/// Whether `group` is one of `groups`.
pub fn names_group(groups: &Vec<String>, group: &str) -> (b: bool)
    ensures
        b == groups.deep_view().contains(group@),
{
    let n: usize = groups.len();
    let mut i: usize = 0;
    while i < n
        invariant
            i <= n,
            n == groups.len(),
            forall|j: int| 0 <= j < i ==> groups.deep_view()[j] != group@,
        decreases n - i,
    {
        if same_text(groups[i].as_str(), group) {
            assert(groups.deep_view()[i as int] == group@);
            return true;
        }
        i += 1;
    }
    false
}

fn open_fresh(
    existing: &Vec<Channel>,
    groups: &Vec<String>,
    first: ChannelHandle,
) -> (out: Vec<Channel>)
    requires
        first + groups.len() <= u64::MAX,
    ensures
        out.deep_view() == fresh_channels(existing.deep_view(), groups.deep_view(), first),
{
    let ghost all = groups.deep_view();
    let ghost known = existing.deep_view();
    let n: usize = groups.len();
    let mut out: Vec<Channel> = Vec::new();
    let mut i: usize = 0;
    assert(out.deep_view() =~= fresh_channels(known, all.take(0), first));
    while i < n
        invariant
            i <= n,
            n == groups.len(),
            first + n <= u64::MAX,
            all == groups.deep_view(),
            known == existing.deep_view(),
            out.len() <= i,
            out.deep_view() == fresh_channels(known, all.take(i as int), first),
        decreases n - i,
    {
        let group = &groups[i];
        proof {
            assert(all.take(i + 1).drop_last() =~= all.take(i as int));
            assert(all.take(i + 1).last() == group@);
        }
        if !any_has_group(existing, group.as_str()) && !any_has_group(&out, group.as_str()) {
            let ghost before = out.deep_view();
            let handle: ChannelHandle = first + out.len() as u64;
            out.push(Channel { group: group.clone(), handle, active: true });
            assert(out.deep_view() =~= before.push(
                ChannelView { group: group@, handle, active: true },
            ));
        }
        i += 1;
    }
    assert(all.take(n as int) =~= all);
    out
}

/// A peer session.
#[derive(Debug)]
pub struct PeerSession {
    peer_id: String,
    role: Role,
    state: NegotiationState,
    local_description: Option<String>,
    remote_description: Option<String>,
    pending: Vec<String>,
    channels: Vec<Channel>,
}

impl View for PeerSession {
    type V = SessionView;

    closed spec fn view(&self) -> SessionView {
        SessionView {
            peer_id: self.peer_id@,
            role: self.role,
            state: self.state,
            local_description: self.local_description.deep_view(),
            remote_description: self.remote_description.deep_view(),
            pending: self.pending.deep_view(),
            channels: self.channels.deep_view(),
        }
    }
}

impl DeepView for PeerSession {
    type V = SessionView;

    open spec fn deep_view(&self) -> SessionView {
        self@
    }
}

fn copy_texts(texts: &Vec<String>) -> (out: Vec<String>)
    ensures
        out.deep_view() == texts.deep_view(),
{
    let n: usize = texts.len();
    let mut out: Vec<String> = Vec::new();
    let mut i: usize = 0;
    while i < n
        invariant
            i <= n,
            n == texts.len(),
            out.deep_view() == texts.deep_view().take(i as int),
        decreases n - i,
    {
        let ghost before = out.deep_view();
        out.push(texts[i].clone());
        assert(out.deep_view() =~= before.push(texts[i as int]@));
        assert(texts.deep_view().take(i + 1) =~= before.push(texts[i as int]@));
        i += 1;
    }
    assert(texts.deep_view().take(n as int) =~= texts.deep_view());
    out
}

fn copy_channels(channels: &Vec<Channel>) -> (out: Vec<Channel>)
    ensures
        out.deep_view() == channels.deep_view(),
{
    let n: usize = channels.len();
    let mut out: Vec<Channel> = Vec::new();
    let mut i: usize = 0;
    while i < n
        invariant
            i <= n,
            n == channels.len(),
            out.deep_view() == channels.deep_view().take(i as int),
        decreases n - i,
    {
        let ghost before = out.deep_view();
        out.push(channels[i].duplicate());
        assert(out.deep_view() =~= before.push(channels[i as int]@));
        assert(channels.deep_view().take(i + 1) =~= before.push(channels[i as int]@));
        i += 1;
    }
    assert(channels.deep_view().take(n as int) =~= channels.deep_view());
    out
}

fn copy_text_option(text: &Option<String>) -> (out: Option<String>)
    ensures
        out.deep_view() == text.deep_view(),
{
    match text {
        Some(t) => Some(t.clone()),
        None => None,
    }
}

impl PeerSession {
    /// A fresh session with `peer_id`, which opens one ordered, reliable
    /// channel per group of `groups`. The channels get the handles from
    /// `first_handle` on.
    pub fn new(
        peer_id: &str,
        role: Role,
        groups: &Vec<String>,
        first_handle: ChannelHandle,
    ) -> (s: Self)
        requires
            first_handle + groups.len() <= u64::MAX,
        ensures
            s@ == SessionView::created(peer_id@, role, groups.deep_view(), first_handle),
            s@.wf(),
    {
        let none: Vec<Channel> = Vec::new();
        assert(none.deep_view() =~= Seq::<ChannelView>::empty());
        let channels = open_fresh(&none, groups, first_handle);
        let s = PeerSession {
            peer_id: peer_id.to_owned(),
            role,
            state: NegotiationState::Created,
            local_description: None,
            remote_description: None,
            pending: Vec::new(),
            channels,
        };
        assert(s.pending.deep_view() =~= Seq::<Seq<char>>::empty());
        s
    }

    /// The id of the remote peer.
    pub fn peer_id(&self) -> (id: String)
        ensures
            id@ == self@.peer_id,
    {
        self.peer_id.clone()
    }

    /// Whether this is the session with `peer_id`.
    pub fn is_with(&self, peer_id: &str) -> (b: bool)
        ensures
            b == (self@.peer_id == peer_id@),
    {
        same_text(self.peer_id.as_str(), peer_id)
    }

    /// The side that this session is on.
    pub fn role(&self) -> (r: Role)
        ensures
            r == self@.role,
    {
        self.role
    }

    /// How far the negotiation has come.
    pub fn state(&self) -> (st: NegotiationState)
        ensures
            st == self@.state,
    {
        self.state
    }

    /// The description that was set as local, if one was.
    pub fn local_description(&self) -> (d: Option<String>)
        ensures
            d.deep_view() == self@.local_description,
    {
        copy_text_option(&self.local_description)
    }

    /// The description that was applied as remote, if one was.
    pub fn remote_description(&self) -> (d: Option<String>)
        ensures
            d.deep_view() == self@.remote_description,
    {
        copy_text_option(&self.remote_description)
    }

    /// The candidates that wait for the remote description, oldest first.
    pub fn pending_candidates(&self) -> (c: Vec<String>)
        ensures
            c.deep_view() == self@.pending,
    {
        copy_texts(&self.pending)
    }

    /// The channels of the session, first to last.
    pub fn channels(&self) -> (c: Vec<Channel>)
        ensures
            c.deep_view() == self@.channels,
    {
        copy_channels(&self.channels)
    }

    /// The handles of all channels, first to last.
    pub fn handles(&self) -> (handles: Vec<ChannelHandle>)
        ensures
            handles@ == self@.handles(),
    {
        let n: usize = self.channels.len();
        let mut handles: Vec<ChannelHandle> = Vec::new();
        let mut i: usize = 0;
        while i < n
            invariant
                i <= n,
                n == self.channels.len(),
                handles@ == self.channels.deep_view().take(i as int).map_values(handle_of()),
            decreases n - i,
        {
            handles.push(self.channels[i].handle);
            assert(self.channels.deep_view().take(i + 1).map_values(handle_of())
                =~= self.channels.deep_view().take(i as int).map_values(handle_of()).push(
                self.channels[i as int].handle,
            ));
            i += 1;
        }
        assert(self.channels.deep_view().take(n as int) =~= self.channels.deep_view());
        handles
    }

    /// The groups that the session has a channel in use for.
    pub fn groups(&self) -> (g: Vec<String>)
        ensures
            g.deep_view() == self@.groups(),
    {
        let ghost all = self.channels.deep_view();
        let n: usize = self.channels.len();
        let mut g: Vec<String> = Vec::new();
        let mut i: usize = 0;
        assert(g.deep_view() =~= all.take(0).filter(is_active()).map_values(group_of()));
        while i < n
            invariant
                i <= n,
                n == self.channels.len(),
                all == self.channels.deep_view(),
                g.deep_view() == all.take(i as int).filter(is_active()).map_values(group_of()),
            decreases n - i,
        {
            let c = &self.channels[i];
            let ghost live = all.take(i as int).filter(is_active());
            proof {
                reveal(Seq::filter);
                assert(all.take(i + 1).drop_last() =~= all.take(i as int));
                assert(all.take(i + 1).last() == c@);
            }
            if c.active {
                let ghost before = g.deep_view();
                g.push(c.group.clone());
                assert(g.deep_view() =~= before.push(c.group@));
                assert(live.push(c@).map_values(group_of()) =~= before.push(c.group@));
            }
            i += 1;
        }
        assert(all.take(n as int) =~= all);
        g
    }

    /// Records the offer that the transport built and set as local
    /// description. Only an initiator that has just been created takes it.
    pub fn set_local_offer(&mut self, sdp: String) -> (r: Result<(), NegotiationError>)
        ensures
            (match old(self)@.local_offer(sdp@) {
                Ok(next) => r is Ok && final(self)@ == next,
                Err(e) => r == Err::<(), NegotiationError>(e) && final(self)@ == old(self)@,
            }),
            old(self)@.wf() ==> final(self)@.wf(),
    {
        if self.role == Role::Initiator && self.state == NegotiationState::Created {
            self.state = NegotiationState::OfferSent;
            self.local_description = Some(sdp);
            Ok(())
        } else {
            Err(NegotiationError::OutOfState)
        }
    }

    /// Applies the remote offer. On success the candidates that waited are
    /// handed out, oldest first, to be applied now. A second remote
    /// description, the same or another, is refused.
    pub fn apply_remote_offer(&mut self, sdp: String) -> (r: Result<Vec<String>, NegotiationError>)
        ensures
            (match old(self)@.remote_offer(sdp@) {
                Ok(next) => r matches Ok(flushed) && flushed.deep_view() == old(self)@.pending
                    && final(self)@ == next,
                Err(e) => r == Err::<Vec<String>, NegotiationError>(e) && final(self)@ == old(
                    self,
                )@,
            }),
            old(self)@.wf() ==> final(self)@.wf(),
    {
        if self.remote_description.is_some() {
            Err(NegotiationError::DuplicateRemoteDescription)
        } else if self.role == Role::Responder && self.state == NegotiationState::Created {
            let mut flushed: Vec<String> = Vec::new();
            std::mem::swap(&mut flushed, &mut self.pending);
            self.state = NegotiationState::OfferReceived;
            self.remote_description = Some(sdp);
            assert(self.pending.deep_view() =~= Seq::<Seq<char>>::empty());
            Ok(flushed)
        } else {
            Err(NegotiationError::OutOfState)
        }
    }

    /// Records the answer that the transport built and set as local
    /// description. Only a responder that has applied the offer takes it.
    pub fn set_local_answer(&mut self, sdp: String) -> (r: Result<(), NegotiationError>)
        ensures
            (match old(self)@.local_answer(sdp@) {
                Ok(next) => r is Ok && final(self)@ == next,
                Err(e) => r == Err::<(), NegotiationError>(e) && final(self)@ == old(self)@,
            }),
            old(self)@.wf() ==> final(self)@.wf(),
    {
        if self.role == Role::Responder && self.state == NegotiationState::OfferReceived {
            self.state = NegotiationState::AnswerSent;
            self.local_description = Some(sdp);
            Ok(())
        } else {
            Err(NegotiationError::OutOfState)
        }
    }

    /// Notes that the answer has been sent: the responder is connected.
    pub fn mark_answer_sent(&mut self) -> (r: Result<(), NegotiationError>)
        ensures
            (match old(self)@.answer_sent() {
                Ok(next) => r is Ok && final(self)@ == next,
                Err(e) => r == Err::<(), NegotiationError>(e) && final(self)@ == old(self)@,
            }),
            old(self)@.wf() ==> final(self)@.wf(),
    {
        if self.state == NegotiationState::AnswerSent {
            self.state = NegotiationState::Connected;
            Ok(())
        } else {
            Err(NegotiationError::OutOfState)
        }
    }

    /// Applies the remote answer: the initiator is connected. On success
    /// the candidates that waited are handed out, oldest first, to be
    /// applied now. A second remote description, the same or another, is
    /// refused.
    pub fn apply_remote_answer(
        &mut self,
        sdp: String,
    ) -> (r: Result<Vec<String>, NegotiationError>)
        ensures
            (match old(self)@.remote_answer(sdp@) {
                Ok(next) => r matches Ok(flushed) && flushed.deep_view() == old(self)@.pending
                    && final(self)@ == next,
                Err(e) => r == Err::<Vec<String>, NegotiationError>(e) && final(self)@ == old(
                    self,
                )@,
            }),
            old(self)@.wf() ==> final(self)@.wf(),
    {
        if self.remote_description.is_some() {
            Err(NegotiationError::DuplicateRemoteDescription)
        } else if self.role == Role::Initiator && self.state == NegotiationState::OfferSent {
            let mut flushed: Vec<String> = Vec::new();
            std::mem::swap(&mut flushed, &mut self.pending);
            self.state = NegotiationState::Connected;
            self.remote_description = Some(sdp);
            assert(self.pending.deep_view() =~= Seq::<Seq<char>>::empty());
            Ok(flushed)
        } else {
            Err(NegotiationError::OutOfState)
        }
    }

    /// Takes a remote candidate: kept while there is no remote description,
    /// handed back to be applied at once when there is one.
    pub fn add_remote_candidate(&mut self, candidate: String) -> (step: CandidateStep)
        ensures
            step@ == old(self)@.candidate_step(candidate@),
            final(self)@ == old(self)@.remote_candidate(candidate@),
            old(self)@.wf() ==> final(self)@.wf(),
    {
        if self.state == NegotiationState::Closed {
            CandidateStep::Dropped
        } else if self.remote_description.is_none() {
            let ghost before = self.pending.deep_view();
            self.pending.push(candidate);
            assert(self.pending.deep_view() =~= before.push(candidate@));
            CandidateStep::Buffered
        } else {
            CandidateStep::Apply(candidate)
        }
    }

    /// Closes the session and hands out the handles of its channels, which
    /// are to leave every group.
    pub fn close(&mut self) -> (handles: Vec<ChannelHandle>)
        ensures
            handles@ == old(self)@.handles(),
            final(self)@ == old(self)@.closed(),
            old(self)@.wf() ==> final(self)@.wf(),
    {
        let handles = self.handles();
        self.state = NegotiationState::Closed;
        self.pending = Vec::new();
        self.channels = Vec::new();
        assert(self.pending.deep_view() =~= Seq::<Seq<char>>::empty());
        assert(self.channels.deep_view() =~= Seq::<ChannelView>::empty());
        handles
    }

    /// Makes `groups` the peer's groups without touching the negotiation.
    /// A channel is opened for each listed group that has none, with
    /// handles from `first_handle` on; the channel of a group that is no
    /// longer listed stays open, out of use; channels that were out of use
    /// already are dropped.
    pub fn update_groups(&mut self, groups: &Vec<String>, first_handle: ChannelHandle) -> (change:
        GroupChange)
        requires
            first_handle + groups.len() <= u64::MAX,
        ensures
            change@ == old(self)@.group_change(groups.deep_view(), first_handle),
            final(self)@ == old(self)@.update_groups(groups.deep_view(), first_handle),
            old(self)@.wf() ==> final(self)@.wf(),
    {
        let mut deactivated: Vec<ChannelHandle> = Vec::new();
        let mut retired: Vec<ChannelHandle> = Vec::new();
        if self.state == NegotiationState::Closed {
            let opened: Vec<Channel> = Vec::new();
            assert(opened.deep_view() =~= Seq::<ChannelView>::empty());
            return GroupChange { opened, deactivated, retired };
        }
        let ghost all = self.channels.deep_view();
        let ghost listed = groups.deep_view();
        let n: usize = self.channels.len();
        let mut kept: Vec<Channel> = Vec::new();
        let mut i: usize = 0;
        proof {
            assert(all.take(0).filter(is_active()) =~= Seq::<ChannelView>::empty());
            assert(all.take(0).filter(is_inactive()) =~= Seq::<ChannelView>::empty());
            assert(Seq::<ChannelView>::empty().filter(outside_of(listed)) =~= Seq::<
                ChannelView,
            >::empty());
            assert(kept.deep_view() =~= Seq::<ChannelView>::empty().map_values(
                restricted_to(listed),
            ));
            assert(deactivated@ =~= Seq::<ChannelView>::empty().map_values(handle_of()));
            assert(retired@ =~= Seq::<ChannelView>::empty().map_values(handle_of()));
        }
        while i < n
            invariant
                i <= n,
                n == self.channels.len(),
                all == self.channels.deep_view(),
                listed == groups.deep_view(),
                kept.deep_view() == all.take(i as int).filter(is_active()).map_values(
                    restricted_to(listed),
                ),
                deactivated@ == all.take(i as int).filter(is_active()).filter(
                    outside_of(listed),
                ).map_values(handle_of()),
                retired@ == all.take(i as int).filter(is_inactive()).map_values(handle_of()),
            decreases n - i,
        {
            let c = &self.channels[i];
            let ghost live = all.take(i as int).filter(is_active());
            let ghost idle = all.take(i as int).filter(is_inactive());
            proof {
                reveal(Seq::filter);
                assert(all.take(i + 1).drop_last() =~= all.take(i as int));
                assert(all.take(i + 1).last() == c@);
            }
            if c.active {
                let stays = names_group(groups, c.group.as_str());
                let ghost before = kept.deep_view();
                kept.push(Channel { group: c.group.clone(), handle: c.handle, active: stays });
                proof {
                    assert(kept.deep_view() =~= before.push(restricted_to(listed)(c@)));
                    assert(live.push(c@).map_values(restricted_to(listed)) =~= before.push(
                        restricted_to(listed)(c@),
                    ));
                    assert(live.push(c@).drop_last() =~= live);
                    assert(live.push(c@).last() == c@);
                }
                if !stays {
                    deactivated.push(c.handle);
                    assert(live.filter(outside_of(listed)).push(c@).map_values(handle_of())
                        =~= live.filter(outside_of(listed)).map_values(handle_of()).push(
                        c.handle,
                    ));
                }
            } else {
                retired.push(c.handle);
                assert(idle.push(c@).map_values(handle_of()) =~= idle.map_values(
                    handle_of(),
                ).push(c.handle));
            }
            i += 1;
        }
        assert(all.take(n as int) =~= all);
        let opened = open_fresh(&kept, groups, first_handle);
        let mut added = copy_channels(&opened);
        let ghost kept_view = kept.deep_view();
        let ghost opened_view = opened.deep_view();
        kept.append(&mut added);
        assert(kept.deep_view() =~= kept_view + opened_view);
        self.channels = kept;
        GroupChange { opened, deactivated, retired }
    }
}

} // verus!
