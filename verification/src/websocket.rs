//! The signaling relay hub: a directory from peer id to the connection that
//! registered it, and the routing of frames between connections.
//!
//! The hub reads only the envelope of a frame. A registration puts the
//! sender into the directory, in place of whoever held the id before,
//! answers with the list of all registered ids and tells every other peer
//! of the newcomer. Any other frame of four fields goes, as it is, to the
//! peer that its first field names, if that peer is registered; what is
//! left is dropped.

use crate::seqs::{
    distinct_by, first_where, lemma_filter_at_most_one, lemma_filter_distinct_by,
    lemma_filter_holds, lemma_first_where, lemma_first_where_is,
};
use crate::text::{
    join, join_text, lemma_join_split, lemma_join_with_char, same_text, split_at_most,
    split_text_at_most,
};
use crate::wire::{
    decode, decode_groups, decode_spec, encode, encode_spec, field_sep, kw_new_peer, list_sep,
    MessageView, SignalMessage,
};
use vstd::prelude::*;

verus! {

/// The identity of a connection's outbound sink.
pub type SinkId = u64;

/// One line of the directory.
#[derive(Debug)]
pub struct DirectoryEntry {
    pub peer_id: String,
    pub sink: SinkId,
}

/// A [`DirectoryEntry`] as a mathematical value.
pub struct EntryView {
    pub peer_id: Seq<char>,
    pub sink: SinkId,
}

impl View for DirectoryEntry {
    type V = EntryView;

    open spec fn view(&self) -> EntryView {
        EntryView { peer_id: self.peer_id@, sink: self.sink }
    }
}

impl DeepView for DirectoryEntry {
    type V = EntryView;

    open spec fn deep_view(&self) -> EntryView {
        self@
    }
}

/// A frame to write to a sink.
#[derive(Debug, Clone, PartialEq, Eq)]
pub struct Outbound {
    pub sink: SinkId,
    pub frame: String,
}

/// An [`Outbound`] as a mathematical value.
pub struct OutboundView {
    pub sink: SinkId,
    pub frame: Seq<char>,
}

impl View for Outbound {
    type V = OutboundView;

    open spec fn view(&self) -> OutboundView {
        OutboundView { sink: self.sink, frame: self.frame@ }
    }
}

impl DeepView for Outbound {
    type V = OutboundView;

    open spec fn deep_view(&self) -> OutboundView {
        self@
    }
}

/// Holds of the entry of `peer_id`.
pub open spec fn has_id(peer_id: Seq<char>) -> spec_fn(EntryView) -> bool {
    |e: EntryView| e.peer_id == peer_id
}

/// Holds of the entries of all peers but `peer_id`.
pub open spec fn other_id(peer_id: Seq<char>) -> spec_fn(EntryView) -> bool {
    |e: EntryView| e.peer_id != peer_id
}

/// Holds of the entries that other connections than that of `sink` made.
pub open spec fn not_on(sink: SinkId) -> spec_fn(EntryView) -> bool {
    |e: EntryView| e.sink != sink
}

/// The peer id of an entry.
pub open spec fn id_of() -> spec_fn(EntryView) -> Seq<char> {
    |e: EntryView| e.peer_id
}

/// `frame` for the sink of an entry.
pub open spec fn framed_for(frame: Seq<char>) -> spec_fn(EntryView) -> OutboundView {
    |e: EntryView| OutboundView { sink: e.sink, frame }
}

/// The directory as a mathematical value: its entries, in the order in
/// which their ids were first registered.
pub struct HubView {
    pub entries: Seq<EntryView>,
}

impl HubView {
    /// The directory with nobody in it.
    pub open spec fn empty() -> HubView {
        HubView { entries: Seq::empty() }
    }

    /// No peer id has two entries.
    pub open spec fn wf(self) -> bool {
        distinct_by(self.entries, id_of())
    }

    /// Where the entry of `peer_id` stands, or the number of entries when
    /// there is none.
    pub open spec fn position(self, peer_id: Seq<char>) -> int {
        first_where(self.entries, has_id(peer_id))
    }

    /// Whether `peer_id` has an entry.
    pub open spec fn is_registered(self, peer_id: Seq<char>) -> bool {
        self.position(peer_id) < self.entries.len()
    }

    /// The sink that frames for `peer_id` go to.
    pub open spec fn sink_of(self, peer_id: Seq<char>) -> Option<SinkId> {
        if self.is_registered(peer_id) {
            Some(self.entries[self.position(peer_id)].sink)
        } else {
            None
        }
    }

    /// How many entries `peer_id` has.
    pub open spec fn entries_of(self, peer_id: Seq<char>) -> nat {
        self.entries.filter(has_id(peer_id)).len()
    }

    /// The directory after `peer_id` registered on `sink`: its entry names
    /// `sink`, whatever it named before.
    pub open spec fn register(self, peer_id: Seq<char>, sink: SinkId) -> HubView {
        let entry = EntryView { peer_id, sink };
        if self.is_registered(peer_id) {
            HubView { entries: self.entries.update(self.position(peer_id), entry) }
        } else {
            HubView { entries: self.entries.push(entry) }
        }
    }

    /// The directory after the connection of `sink` dropped.
    pub open spec fn disconnect(self, sink: SinkId) -> HubView {
        HubView { entries: self.entries.filter(not_on(sink)) }
    }

    /// The registered ids, in directory order.
    pub open spec fn peer_ids(self) -> Seq<Seq<char>> {
        self.entries.map_values(id_of())
    }

    /// Where `frame` goes when it is addressed to `target`.
    pub open spec fn relay(self, target: Seq<char>, frame: Seq<char>) -> Seq<OutboundView> {
        match self.sink_of(target) {
            Some(sink) => seq![OutboundView { sink, frame }],
            None => Seq::empty(),
        }
    }

    /// `frame` for every registered peer but `peer_id`.
    pub open spec fn announce(self, peer_id: Seq<char>, frame: Seq<char>) -> Seq<OutboundView> {
        self.entries.filter(other_id(peer_id)).map_values(framed_for(frame))
    }

    /// What the hub does with the frame `raw` that came in on the
    /// connection of `sink`: the directory afterwards, and the frames to
    /// write, in order.
    pub open spec fn handle(self, sink: SinkId, raw: Seq<char>) -> (HubView, Seq<OutboundView>) {
        let four = split_at_most(raw, field_sep(), 4);
        match decode_spec(raw) {
            MessageView::Register { peer_id, groups } => {
                let next = self.register(peer_id, sink);
                let reply = OutboundView { sink, frame: join(next.peer_ids(), list_sep()) };
                let notice = encode_spec(MessageView::NewPeer { peer_id, groups });
                (next, seq![reply] + next.announce(peer_id, notice))
            },
            _ => if four.len() == 4 {
                (self, self.relay(four[0], raw))
            } else {
                (self, Seq::empty())
            },
        }
    }

    /// Registering keeps ids unique and makes the entry name the sink.
    pub proof fn lemma_register(self, peer_id: Seq<char>, sink: SinkId)
        requires
            self.wf(),
        ensures
            self.register(peer_id, sink).wf(),
            self.register(peer_id, sink).sink_of(peer_id) == Some(sink),
            self.register(peer_id, sink).position(peer_id) == self.position(peer_id),
            forall|other: Seq<char>|
                other != peer_id ==> self.register(peer_id, sink).sink_of(other) == self.sink_of(
                    other,
                ),
    {
        let next = self.register(peer_id, sink);
        let p = self.position(peer_id);
        lemma_first_where(self.entries, has_id(peer_id));
        assert forall|j: int| 0 <= j < p implies !has_id(peer_id)(#[trigger] next.entries[j]) by {
            assert(next.entries[j] == self.entries[j]);
        }
        lemma_first_where_is(next.entries, has_id(peer_id), p);
        assert forall|other: Seq<char>| other != peer_id implies next.sink_of(other)
            == self.sink_of(other) by {
            let q = self.position(other);
            lemma_first_where(self.entries, has_id(other));
            assert forall|j: int| 0 <= j < q implies !has_id(other)(#[trigger] next.entries[j]) by {
                if j < self.entries.len() && j != p {
                    assert(next.entries[j] == self.entries[j]);
                }
            }
            if q < self.entries.len() {
                assert(q != p || !self.is_registered(peer_id));
                assert(next.entries[q] == self.entries[q]);
                lemma_first_where_is(next.entries, has_id(other), q);
            } else {
                lemma_first_where_is(next.entries, has_id(other), next.entries.len() as int);
            }
        }
        assert forall|i: int, j: int|
            0 <= i < next.entries.len() && 0 <= j < next.entries.len() && i != j implies id_of()(
            next.entries[i],
        ) != id_of()(next.entries[j]) by {
            if self.is_registered(peer_id) {
                assert(id_of()(next.entries[i]) == id_of()(self.entries[i]));
                assert(id_of()(next.entries[j]) == id_of()(self.entries[j]));
            } else {
                if i < self.entries.len() {
                    assert(!has_id(peer_id)(self.entries[i]));
                }
                if j < self.entries.len() {
                    assert(!has_id(peer_id)(self.entries[j]));
                }
                if i < self.entries.len() && j < self.entries.len() {
                    assert(id_of()(self.entries[i]) != id_of()(self.entries[j]));
                }
            }
        }
    }

    /// A drop keeps ids unique.
    pub proof fn lemma_disconnect(self, sink: SinkId)
        requires
            self.wf(),
        ensures
            self.disconnect(sink).wf(),
    {
        lemma_filter_distinct_by(self.entries, id_of(), not_on(sink));
    }
}

impl HubView {
    /// Where ids are unique, a peer id has one entry when it is registered
    /// and none when it is not.
    pub proof fn lemma_one_entry(self, peer_id: Seq<char>)
        requires
            self.wf(),
        ensures
            self.entries_of(peer_id) == if self.is_registered(peer_id) {
                1nat
            } else {
                0nat
            },
    {
        lemma_filter_at_most_one(self.entries, id_of(), has_id(peer_id), peer_id);
    }

    /// A peer that registers twice has one entry, and the entry names the
    /// later connection.
    pub proof fn lemma_register_twice(self, peer_id: Seq<char>, first: SinkId, second: SinkId)
        requires
            self.wf(),
        ensures
            self.register(peer_id, first).register(peer_id, second).wf(),
            self.register(peer_id, first).register(peer_id, second).entries_of(peer_id) == 1,
            self.register(peer_id, first).register(peer_id, second).sink_of(peer_id) == Some(
                second,
            ),
    {
        let once = self.register(peer_id, first);
        self.lemma_register(peer_id, first);
        once.lemma_register(peer_id, second);
        once.register(peer_id, second).lemma_one_entry(peer_id);
    }

    /// A newcomer is announced with the text of its groups as it wrote it.
    pub proof fn lemma_announcement_keeps_group_text(peer_id: Seq<char>, text: Seq<char>)
        ensures
            encode_spec(MessageView::NewPeer { peer_id, groups: decode_groups(text) }) == join(
                seq![kw_new_peer(), peer_id, text],
                field_sep(),
            ),
    {
        lemma_join_split(text, list_sep());
    }

    /// When `a` registers and then `b`, another peer, `b` is answered with
    /// a list that names `a` and `b`, and `a` is told of `b`.
    pub proof fn lemma_newcomer_is_announced(
        self,
        frame_a: Seq<char>,
        sink_a: SinkId,
        frame_b: Seq<char>,
        sink_b: SinkId,
    )
        requires
            self.wf(),
            decode_spec(frame_a) is Register,
            decode_spec(frame_b) is Register,
            decode_spec(frame_a)->Register_peer_id != decode_spec(frame_b)->Register_peer_id,
        ensures
            ({
                let a = decode_spec(frame_a)->Register_peer_id;
                let b = decode_spec(frame_b)->Register_peer_id;
                let groups_b = decode_spec(frame_b)->Register_groups;
                let first = self.handle(sink_a, frame_a);
                let second = first.0.handle(sink_b, frame_b);
                &&& second.0.peer_ids().contains(a)
                &&& second.0.peer_ids().contains(b)
                &&& second.1.len() >= 1
                &&& second.1[0] == (OutboundView {
                    sink: sink_b,
                    frame: join(second.0.peer_ids(), list_sep()),
                })
                &&& second.1.contains(
                    OutboundView {
                        sink: sink_a,
                        frame: encode_spec(MessageView::NewPeer { peer_id: b, groups: groups_b }),
                    },
                )
            }),
    {
        let a = decode_spec(frame_a)->Register_peer_id;
        let b = decode_spec(frame_b)->Register_peer_id;
        let groups_b = decode_spec(frame_b)->Register_groups;
        let h1 = self.register(a, sink_a);
        let h2 = h1.register(b, sink_b);
        self.lemma_register(a, sink_a);
        h1.lemma_register(b, sink_b);
        let first = self.handle(sink_a, frame_a);
        assert(first.0 == h1);
        let second = h1.handle(sink_b, frame_b);
        assert(second.0 == h2);
        let notice = encode_spec(MessageView::NewPeer { peer_id: b, groups: groups_b });
        lemma_first_where(h2.entries, has_id(a));
        lemma_first_where(h2.entries, has_id(b));
        let pa = h2.position(a);
        let pb = h2.position(b);
        assert(h2.sink_of(a) == Some(sink_a));
        assert(h2.sink_of(b) == Some(sink_b));
        let entry_a = h2.entries[pa];
        assert(entry_a == (EntryView { peer_id: a, sink: sink_a }));
        assert(h2.peer_ids()[pa] == a);
        assert(h2.peer_ids()[pb] == b);
        let others = h2.entries.filter(other_id(b));
        assert(h2.entries.contains(entry_a));
        lemma_filter_holds(h2.entries, other_id(b), entry_a);
        let k = choose|k: int| 0 <= k < others.len() && others[k] == entry_a;
        let told = h2.announce(b, notice);
        assert(told[k] == (OutboundView { sink: sink_a, frame: notice }));
        let out = second.1;
        assert(out == seq![
            OutboundView { sink: sink_b, frame: join(h2.peer_ids(), list_sep()) },
        ] + told);
        assert(out[k + 1] == told[k]);
    }
}

/// The relay hub's directory.
#[derive(Debug)]
pub struct WebSocketStream {
    peers: Vec<DirectoryEntry>,
}

impl View for WebSocketStream {
    type V = HubView;

    closed spec fn view(&self) -> HubView {
        HubView { entries: self.peers.deep_view() }
    }
}

impl WebSocketStream {
    #[verifier::type_invariant]
    spec fn inv(self) -> bool {
        self@.wf()
    }

    /// A hub with nobody registered.
    pub fn new() -> (hub: Self)
        ensures
            hub@ == HubView::empty(),
    {
        let hub = WebSocketStream { peers: Vec::new() };
        assert(hub.peers.deep_view() =~= Seq::<EntryView>::empty());
        hub
    }

    fn find(&self, peer_id: &str) -> (i: usize)
        ensures
            i == self@.position(peer_id@),
            i <= self.peers.len(),
            self@.wf(),
    {
        proof {
            use_type_invariant(&*self);
        }
        let n: usize = self.peers.len();
        let mut i: usize = 0;
        while i < n
            invariant
                i <= n,
                n == self.peers.len(),
                forall|j: int| 0 <= j < i ==> !has_id(peer_id@)(#[trigger] self.peers.deep_view()[j]),
            ensures
                i <= n,
                forall|j: int| 0 <= j < i ==> !has_id(peer_id@)(#[trigger] self.peers.deep_view()[j]),
                i < n ==> has_id(peer_id@)(self.peers.deep_view()[i as int]),
            decreases n - i,
        {
            if same_text(self.peers[i].peer_id.as_str(), peer_id) {
                break ;
            }
            i += 1;
        }
        proof {
            lemma_first_where_is(self.peers.deep_view(), has_id(peer_id@), i as int);
        }
        i
    }

    /// Puts `peer_id` into the directory with `sink`. Whoever held the id
    /// before is replaced.
    pub fn register(&mut self, peer_id: &str, sink: SinkId)
        ensures
            final(self)@ == old(self)@.register(peer_id@, sink),
            final(self)@.wf(),
            final(self)@.sink_of(peer_id@) == Some(sink),
    {
        let i = self.find(peer_id);
        proof {
            self@.lemma_register(peer_id@, sink);
        }
        let ghost before = self.peers.deep_view();
        let entry = DirectoryEntry { peer_id: peer_id.to_owned(), sink };
        let mut peers: Vec<DirectoryEntry> = Vec::new();
        std::mem::swap(&mut peers, &mut self.peers);
        if i < peers.len() {
            peers.set(i, entry);
            assert(peers.deep_view() =~= before.update(i as int, entry@));
        } else {
            peers.push(entry);
            assert(peers.deep_view() =~= before.push(entry@));
        }
        self.peers = peers;
    }

    /// Takes out of the directory what the connection of `sink` registered.
    pub fn disconnect(&mut self, sink: SinkId)
        ensures
            final(self)@ == old(self)@.disconnect(sink),
            final(self)@.wf(),
    {
        proof {
            use_type_invariant(&*self);
            self@.lemma_disconnect(sink);
        }
        let ghost all = self.peers.deep_view();
        let n: usize = self.peers.len();
        let mut kept: Vec<DirectoryEntry> = Vec::new();
        let mut i: usize = 0;
        assert(all.take(0).filter(not_on(sink)) =~= kept.deep_view());
        while i < n
            invariant
                i <= n,
                n == self.peers.len(),
                all == self.peers.deep_view(),
                kept.deep_view() == all.take(i as int).filter(not_on(sink)),
            decreases n - i,
        {
            let e = &self.peers[i];
            proof {
                reveal(Seq::filter);
                assert(all.take(i + 1).drop_last() =~= all.take(i as int));
                assert(all.take(i + 1).last() == e@);
            }
            if e.sink != sink {
                let ghost before = kept.deep_view();
                kept.push(DirectoryEntry { peer_id: e.peer_id.clone(), sink: e.sink });
                assert(kept.deep_view() =~= before.push(e@));
            }
            i += 1;
        }
        assert(all.take(n as int) =~= all);
        self.peers = kept;
    }

    /// The sink that frames for `peer_id` go to, if the peer is registered.
    pub fn sink_of(&self, peer_id: &str) -> (sink: Option<SinkId>)
        ensures
            sink == self@.sink_of(peer_id@),
    {
        let i = self.find(peer_id);
        if i < self.peers.len() {
            Some(self.peers[i].sink)
        } else {
            None
        }
    }

    /// The ids of all registered peers, in directory order.
    pub fn get_peer_list(&self) -> (ids: Vec<String>)
        ensures
            ids.deep_view() == self@.peer_ids(),
    {
        let ghost all = self.peers.deep_view();
        let n: usize = self.peers.len();
        let mut ids: Vec<String> = Vec::new();
        let mut i: usize = 0;
        assert(ids.deep_view() =~= all.take(0).map_values(id_of()));
        while i < n
            invariant
                i <= n,
                n == self.peers.len(),
                all == self.peers.deep_view(),
                ids.deep_view() == all.take(i as int).map_values(id_of()),
            decreases n - i,
        {
            let ghost before = ids.deep_view();
            ids.push(self.peers[i].peer_id.clone());
            assert(ids.deep_view() =~= before.push(self.peers[i as int].peer_id@));
            assert(all.take(i + 1).map_values(id_of()) =~= before.push(
                self.peers[i as int].peer_id@,
            ));
            i += 1;
        }
        assert(all.take(n as int) =~= all);
        ids
    }

    /// Where `message_content` goes when it is addressed to
    /// `target_peer_id`: to that peer's sink, as it is, or nowhere when the
    /// peer is not registered.
    pub fn relay_message(&self, target_peer_id: &str, message_content: &str) -> (out: Vec<Outbound>)
        ensures
            out.deep_view() == self@.relay(target_peer_id@, message_content@),
    {
        let mut out: Vec<Outbound> = Vec::new();
        match self.sink_of(target_peer_id) {
            Some(sink) => {
                out.push(Outbound { sink, frame: message_content.to_owned() });
                assert(out.deep_view() =~= seq![
                    OutboundView { sink, frame: message_content@ },
                ]);
            },
            None => {
                assert(out.deep_view() =~= Seq::<OutboundView>::empty());
            },
        }
        out
    }

    fn announce(&self, peer_id: &str, frame: &str) -> (out: Vec<Outbound>)
        ensures
            out.deep_view() == self@.announce(peer_id@, frame@),
    {
        let ghost all = self.peers.deep_view();
        let ghost others = other_id(peer_id@);
        let n: usize = self.peers.len();
        let mut out: Vec<Outbound> = Vec::new();
        let mut i: usize = 0;
        assert(out.deep_view() =~= all.take(0).filter(others).map_values(framed_for(frame@)));
        while i < n
            invariant
                i <= n,
                n == self.peers.len(),
                all == self.peers.deep_view(),
                others == other_id(peer_id@),
                out.deep_view() == all.take(i as int).filter(others).map_values(framed_for(frame@)),
            decreases n - i,
        {
            let e = &self.peers[i];
            let ghost picked = all.take(i as int).filter(others);
            proof {
                reveal(Seq::filter);
                assert(all.take(i + 1).drop_last() =~= all.take(i as int));
                assert(all.take(i + 1).last() == e@);
            }
            if !same_text(e.peer_id.as_str(), peer_id) {
                let ghost before = out.deep_view();
                out.push(Outbound { sink: e.sink, frame: frame.to_owned() });
                assert(out.deep_view() =~= before.push(framed_for(frame@)(e@)));
                assert(picked.push(e@).map_values(framed_for(frame@)) =~= before.push(
                    framed_for(frame@)(e@),
                ));
            }
            i += 1;
        }
        assert(all.take(n as int) =~= all);
        out
    }

    /// Handles one text frame that came in on the connection of `sink`, and
    /// says which frames to write to which sinks, in order. No frame makes
    /// the hub fail.
    pub fn handle_message(&mut self, sink: SinkId, raw: &str) -> (out: Vec<Outbound>)
        ensures
            (final(self)@, out.deep_view()) == old(self)@.handle(sink, raw@),
            final(self)@.wf(),
    {
        proof {
            use_type_invariant(&*self);
        }
        match decode(raw) {
            SignalMessage::Register { peer_id, groups } => {
                self.register(peer_id.as_str(), sink);
                let ids = self.get_peer_list();
                proof {
                    reveal_strlit(",");
                    assert(","@ =~= seq![list_sep()]);
                    lemma_join_with_char(ids.deep_view(), list_sep());
                }
                let reply = Outbound { sink, frame: join_text(&ids, ",") };
                let notice = encode(&SignalMessage::NewPeer { peer_id: peer_id.clone(), groups });
                let mut notices = self.announce(peer_id.as_str(), notice.as_str());
                let mut out: Vec<Outbound> = Vec::new();
                out.push(reply);
                let ghost head = out.deep_view();
                let ghost tail = notices.deep_view();
                out.append(&mut notices);
                assert(out.deep_view() =~= head + tail);
                assert(head =~= seq![reply@]);
                out
            },
            _ => {
                let four = split_text_at_most(raw, ':', 4);
                if four.len() == 4 {
                    self.relay_message(four[0].as_str(), raw)
                } else {
                    let out: Vec<Outbound> = Vec::new();
                    assert(out.deep_view() =~= Seq::<OutboundView>::empty());
                    out
                }
            },
        }
    }
}

} // verus!
