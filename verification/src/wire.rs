//! The signaling wire format: one text frame per message, fields separated
//! by `:`, group lists joined by `,`.
//!
//! ```text
//! register:<peer_id>:<groups>
//! new_peer:<peer_id>:<groups>
//! group_update:<peer_id>:<groups>
//! <to>:offer:<from>:<sdp>[:<groups>]
//! <to>:answer:<from>:<sdp>
//! <to>:candidate:<from>:<candidate>
//! ```
//!
//! A frame is read from the left; its last field keeps the rest of the text.
//! What is none of the above decodes to [`SignalMessage::Unrecognized`].

use crate::text::{
    all_free_of, join, join_text, lemma_join_with_char, lemma_split_at_most_join,
    lemma_split_at_most_prefix, lemma_split_join, same_text, split, split_at_most, split_text,
    split_text_at_most,
};
use vstd::prelude::*;

verus! {

/// A signaling message.
#[derive(Debug, Clone, PartialEq, Eq)]
pub enum SignalMessage {
    Register { peer_id: String, groups: Vec<String> },
    NewPeer { peer_id: String, groups: Vec<String> },
    Offer { to: String, from: String, sdp: String, groups: Vec<String> },
    Answer { to: String, from: String, sdp: String },
    Candidate { to: String, from: String, candidate: String },
    GroupUpdate { peer_id: String, groups: Vec<String> },
    Unrecognized,
}

/// A signaling message as a mathematical value.
pub enum MessageView {
    Register { peer_id: Seq<char>, groups: Seq<Seq<char>> },
    NewPeer { peer_id: Seq<char>, groups: Seq<Seq<char>> },
    Offer { to: Seq<char>, from: Seq<char>, sdp: Seq<char>, groups: Seq<Seq<char>> },
    Answer { to: Seq<char>, from: Seq<char>, sdp: Seq<char> },
    Candidate { to: Seq<char>, from: Seq<char>, candidate: Seq<char> },
    GroupUpdate { peer_id: Seq<char>, groups: Seq<Seq<char>> },
    Unrecognized,
}

impl View for SignalMessage {
    type V = MessageView;

    open spec fn view(&self) -> MessageView {
        match self {
            SignalMessage::Register { peer_id, groups } => MessageView::Register {
                peer_id: peer_id@,
                groups: groups.deep_view(),
            },
            SignalMessage::NewPeer { peer_id, groups } => MessageView::NewPeer {
                peer_id: peer_id@,
                groups: groups.deep_view(),
            },
            SignalMessage::Offer { to, from, sdp, groups } => MessageView::Offer {
                to: to@,
                from: from@,
                sdp: sdp@,
                groups: groups.deep_view(),
            },
            SignalMessage::Answer { to, from, sdp } => MessageView::Answer {
                to: to@,
                from: from@,
                sdp: sdp@,
            },
            SignalMessage::Candidate { to, from, candidate } => MessageView::Candidate {
                to: to@,
                from: from@,
                candidate: candidate@,
            },
            SignalMessage::GroupUpdate { peer_id, groups } => MessageView::GroupUpdate {
                peer_id: peer_id@,
                groups: groups.deep_view(),
            },
            SignalMessage::Unrecognized => MessageView::Unrecognized,
        }
    }
}

/// The field delimiter.
pub open spec fn field_sep() -> char {
    ':'
}

/// The delimiter inside a group list.
pub open spec fn list_sep() -> char {
    ','
}

/// The word that opens a registration.
pub open spec fn kw_register() -> Seq<char> {
    "register"@
}

/// The word that opens the announcement of a peer.
pub open spec fn kw_new_peer() -> Seq<char> {
    "new_peer"@
}

/// The word that opens a change of groups.
pub open spec fn kw_group_update() -> Seq<char> {
    "group_update"@
}

/// The word that marks an offer.
pub open spec fn kw_offer() -> Seq<char> {
    "offer"@
}

/// The word that marks an answer.
pub open spec fn kw_answer() -> Seq<char> {
    "answer"@
}

/// The word that marks a candidate.
pub open spec fn kw_candidate() -> Seq<char> {
    "candidate"@
}

/// A word that opens a frame without an addressee.
pub open spec fn is_reserved(word: Seq<char>) -> bool {
    word == kw_register() || word == kw_new_peer() || word == kw_group_update()
}

/// The text of a group list.
pub open spec fn encode_groups(groups: Seq<Seq<char>>) -> Seq<char> {
    join(groups, list_sep())
}

/// The group list that a text holds. The empty text holds one group, the
/// one with the empty name.
pub open spec fn decode_groups(text: Seq<char>) -> Seq<Seq<char>> {
    split(text, list_sep())
}

/// The frame of a message.
pub open spec fn encode_spec(m: MessageView) -> Seq<char> {
    match m {
        MessageView::Register { peer_id, groups } => join(
            seq![kw_register(), peer_id, encode_groups(groups)],
            field_sep(),
        ),
        MessageView::NewPeer { peer_id, groups } => join(
            seq![kw_new_peer(), peer_id, encode_groups(groups)],
            field_sep(),
        ),
        MessageView::GroupUpdate { peer_id, groups } => join(
            seq![kw_group_update(), peer_id, encode_groups(groups)],
            field_sep(),
        ),
        MessageView::Offer { to, from, sdp, groups } => if groups.len() == 0 {
            join(seq![to, kw_offer(), from, sdp], field_sep())
        } else {
            join(seq![to, kw_offer(), from, sdp, encode_groups(groups)], field_sep())
        },
        MessageView::Answer { to, from, sdp } => join(
            seq![to, kw_answer(), from, sdp],
            field_sep(),
        ),
        MessageView::Candidate { to, from, candidate } => join(
            seq![to, kw_candidate(), from, candidate],
            field_sep(),
        ),
        MessageView::Unrecognized => Seq::empty(),
    }
}

/// The message that a frame holds.
pub open spec fn decode_spec(raw: Seq<char>) -> MessageView {
    let three = split_at_most(raw, field_sep(), 3);
    let four = split_at_most(raw, field_sep(), 4);
    let five = split_at_most(raw, field_sep(), 5);
    if three.len() == 3 && three[0] == kw_register() {
        MessageView::Register { peer_id: three[1], groups: decode_groups(three[2]) }
    } else if three.len() == 3 && three[0] == kw_new_peer() {
        MessageView::NewPeer { peer_id: three[1], groups: decode_groups(three[2]) }
    } else if three.len() == 3 && three[0] == kw_group_update() {
        MessageView::GroupUpdate { peer_id: three[1], groups: decode_groups(three[2]) }
    } else if four.len() == 4 && four[1] == kw_offer() {
        MessageView::Offer {
            to: five[0],
            from: five[2],
            sdp: five[3],
            groups: if five.len() == 5 {
                decode_groups(five[4])
            } else {
                Seq::empty()
            },
        }
    } else if four.len() == 4 && four[1] == kw_answer() {
        MessageView::Answer { to: four[0], from: four[2], sdp: four[3] }
    } else if four.len() == 4 && four[1] == kw_candidate() {
        MessageView::Candidate { to: four[0], from: four[2], candidate: four[3] }
    } else {
        MessageView::Unrecognized
    }
}

/// The messages that survive the wire: the fields before the last hold no
/// `:`, no group name holds a `,`, a group list that is always written
/// names at least one group, and an addressee is not a reserved word.
pub open spec fn wire_safe(m: MessageView) -> bool {
    match m {
        MessageView::Register { peer_id, groups }
        | MessageView::NewPeer { peer_id, groups }
        | MessageView::GroupUpdate { peer_id, groups } => {
            &&& !peer_id.contains(field_sep())
            &&& groups.len() >= 1
            &&& all_free_of(groups, list_sep())
        },
        MessageView::Offer { to, from, sdp, groups } => {
            &&& !to.contains(field_sep())
            &&& !from.contains(field_sep())
            &&& !sdp.contains(field_sep())
            &&& !is_reserved(to)
            &&& all_free_of(groups, list_sep())
        },
        MessageView::Answer { to, from, sdp } => {
            &&& !to.contains(field_sep())
            &&& !from.contains(field_sep())
            &&& !is_reserved(to)
        },
        MessageView::Candidate { to, from, candidate } => {
            &&& !to.contains(field_sep())
            &&& !from.contains(field_sep())
            &&& !is_reserved(to)
        },
        MessageView::Unrecognized => true,
    }
}

/// The keywords hold no field delimiter and differ from one another.
pub proof fn lemma_keywords()
    ensures
        !kw_register().contains(field_sep()),
        !kw_new_peer().contains(field_sep()),
        !kw_group_update().contains(field_sep()),
        !kw_offer().contains(field_sep()),
        !kw_answer().contains(field_sep()),
        !kw_candidate().contains(field_sep()),
        kw_register() != kw_new_peer(),
        kw_register() != kw_group_update(),
        kw_new_peer() != kw_group_update(),
        kw_offer() != kw_answer(),
        kw_offer() != kw_candidate(),
        kw_answer() != kw_candidate(),
{
    reveal_strlit("register");
    reveal_strlit("new_peer");
    reveal_strlit("group_update");
    reveal_strlit("offer");
    reveal_strlit("answer");
    reveal_strlit("candidate");
    assert(kw_register()[0] != kw_new_peer()[0]);
    assert(kw_offer().len() == 5 && kw_answer().len() == 6 && kw_candidate().len() == 9);
}

/// Decoding the frame of a message that survives the wire gives the
/// message back.
pub proof fn lemma_decode_encode(m: MessageView)
    requires
        wire_safe(m),
    ensures
        decode_spec(encode_spec(m)) == m,
{
    lemma_keywords();
    let raw = encode_spec(m);
    let sep = field_sep();
    match m {
        MessageView::Register { peer_id, groups } => {
            lemma_round_trip_keyed(kw_register(), peer_id, groups);
        },
        MessageView::NewPeer { peer_id, groups } => {
            lemma_round_trip_keyed(kw_new_peer(), peer_id, groups);
        },
        MessageView::GroupUpdate { peer_id, groups } => {
            lemma_round_trip_keyed(kw_group_update(), peer_id, groups);
        },
        MessageView::Offer { to, from, sdp, groups } => {
            if groups.len() == 0 {
                let parts = seq![to, kw_offer(), from, sdp];
                assert(all_free_of(parts, sep));
                assert(all_free_of(parts.drop_last(), sep));
                lemma_split_at_most_join(parts, sep, 5);
                lemma_split_at_most_prefix(raw, sep, 4, 5);
                lemma_split_at_most_prefix(raw, sep, 3, 5);
                assert(groups =~= Seq::<Seq<char>>::empty());
            } else {
                let parts = seq![to, kw_offer(), from, sdp, encode_groups(groups)];
                assert(all_free_of(parts.drop_last(), sep));
                lemma_split_at_most_join(parts, sep, 5);
                lemma_split_at_most_prefix(raw, sep, 4, 5);
                lemma_split_at_most_prefix(raw, sep, 3, 5);
                lemma_split_join(groups, list_sep());
            }
        },
        MessageView::Answer { to, from, sdp } => {
            lemma_round_trip_addressed(to, kw_answer(), from, sdp);
        },
        MessageView::Candidate { to, from, candidate } => {
            lemma_round_trip_addressed(to, kw_candidate(), from, candidate);
        },
        MessageView::Unrecognized => {
            assert(split_at_most(raw, sep, 3) == seq![raw]);
            assert(split_at_most(raw, sep, 4) == seq![raw]);
        },
    }
}

proof fn lemma_round_trip_keyed(word: Seq<char>, peer_id: Seq<char>, groups: Seq<Seq<char>>)
    requires
        !word.contains(field_sep()),
        !peer_id.contains(field_sep()),
        groups.len() >= 1,
        all_free_of(groups, list_sep()),
    ensures
        split_at_most(
            join(seq![word, peer_id, encode_groups(groups)], field_sep()),
            field_sep(),
            3,
        ) == seq![word, peer_id, encode_groups(groups)],
        decode_groups(encode_groups(groups)) == groups,
{
    let parts = seq![word, peer_id, encode_groups(groups)];
    assert(all_free_of(parts.drop_last(), field_sep()));
    lemma_split_at_most_join(parts, field_sep(), 3);
    lemma_split_join(groups, list_sep());
}

proof fn lemma_round_trip_addressed(
    to: Seq<char>,
    word: Seq<char>,
    from: Seq<char>,
    body: Seq<char>,
)
    requires
        !to.contains(field_sep()),
        !word.contains(field_sep()),
        !from.contains(field_sep()),
    ensures
        split_at_most(join(seq![to, word, from, body], field_sep()), field_sep(), 4) == seq![
            to,
            word,
            from,
            body,
        ],
        split_at_most(join(seq![to, word, from, body], field_sep()), field_sep(), 3).len() == 3,
        split_at_most(join(seq![to, word, from, body], field_sep()), field_sep(), 3)[0] == to,
{
    let parts = seq![to, word, from, body];
    let raw = join(parts, field_sep());
    assert(all_free_of(parts.drop_last(), field_sep()));
    lemma_split_at_most_join(parts, field_sep(), 4);
    lemma_split_at_most_prefix(raw, field_sep(), 3, 4);
}

/// Writes a group list: the names with `,` between them.
pub fn encode_group_list(groups: &Vec<String>) -> (out: String)
    ensures
        out@ == encode_groups(groups.deep_view()),
{
    proof {
        reveal_strlit(",");
        assert(","@ =~= seq![list_sep()]);
        lemma_join_with_char(groups.deep_view(), list_sep());
    }
    join_text(groups, ",")
}

/// Reads a group list: the text cut at every `,`.
pub fn decode_group_list(text: &str) -> (out: Vec<String>)
    ensures
        out.deep_view() == decode_groups(text@),
{
    split_text(text, ',')
}

fn frame_of(fields: &Vec<String>) -> (out: String)
    ensures
        out@ == join(fields.deep_view(), field_sep()),
{
    proof {
        reveal_strlit(":");
        assert(":"@ =~= seq![field_sep()]);
        lemma_join_with_char(fields.deep_view(), field_sep());
    }
    join_text(fields, ":")
}

fn keyed_frame(word: &str, peer_id: &String, groups: &Vec<String>) -> (out: String)
    ensures
        out@ == join(seq![word@, peer_id@, encode_groups(groups.deep_view())], field_sep()),
{
    let mut fields: Vec<String> = Vec::new();
    fields.push(word.to_owned());
    fields.push(peer_id.clone());
    fields.push(encode_group_list(groups));
    assert(fields.deep_view() =~= seq![word@, peer_id@, encode_groups(groups.deep_view())]);
    frame_of(&fields)
}

fn addressed_fields(to: &String, word: &str, from: &String, body: &String) -> (fields: Vec<
    String,
>)
    ensures
        fields.deep_view() == seq![to@, word@, from@, body@],
{
    let mut fields: Vec<String> = Vec::new();
    fields.push(to.clone());
    fields.push(word.to_owned());
    fields.push(from.clone());
    fields.push(body.clone());
    assert(fields.deep_view() =~= seq![to@, word@, from@, body@]);
    fields
}

/// Writes the frame of a message.
pub fn encode(m: &SignalMessage) -> (out: String)
    ensures
        out@ == encode_spec(m@),
{
    match m {
        SignalMessage::Register { peer_id, groups } => keyed_frame("register", peer_id, groups),
        SignalMessage::NewPeer { peer_id, groups } => keyed_frame("new_peer", peer_id, groups),
        SignalMessage::GroupUpdate { peer_id, groups } => keyed_frame(
            "group_update",
            peer_id,
            groups,
        ),
        SignalMessage::Offer { to, from, sdp, groups } => {
            let mut fields = addressed_fields(to, "offer", from, sdp);
            if groups.len() > 0 {
                let ghost before = fields.deep_view();
                fields.push(encode_group_list(groups));
                assert(fields.deep_view() =~= before.push(encode_groups(groups.deep_view())));
                assert(fields.deep_view() =~= seq![
                    to@,
                    kw_offer(),
                    from@,
                    sdp@,
                    encode_groups(groups.deep_view()),
                ]);
            }
            frame_of(&fields)
        },
        SignalMessage::Answer { to, from, sdp } => {
            let fields = addressed_fields(to, "answer", from, sdp);
            frame_of(&fields)
        },
        SignalMessage::Candidate { to, from, candidate } => {
            let fields = addressed_fields(to, "candidate", from, candidate);
            frame_of(&fields)
        },
        SignalMessage::Unrecognized => String::new(),
    }
}

/// Reads a frame. A frame that is no message of the protocol is
/// [`SignalMessage::Unrecognized`]; no frame is an error.
pub fn decode(raw: &str) -> (m: SignalMessage)
    ensures
        m@ == decode_spec(raw@),
{
    let three = split_text_at_most(raw, ':', 3);
    if three.len() == 3 {
        if same_text(three[0].as_str(), "register") {
            return SignalMessage::Register {
                peer_id: three[1].clone(),
                groups: decode_group_list(three[2].as_str()),
            };
        }
        if same_text(three[0].as_str(), "new_peer") {
            return SignalMessage::NewPeer {
                peer_id: three[1].clone(),
                groups: decode_group_list(three[2].as_str()),
            };
        }
        if same_text(three[0].as_str(), "group_update") {
            return SignalMessage::GroupUpdate {
                peer_id: three[1].clone(),
                groups: decode_group_list(three[2].as_str()),
            };
        }
    }
    let four = split_text_at_most(raw, ':', 4);
    if four.len() != 4 {
        return SignalMessage::Unrecognized;
    }
    if same_text(four[1].as_str(), "offer") {
        let five = split_text_at_most(raw, ':', 5);
        proof {
            lemma_split_at_most_prefix(raw@, field_sep(), 4, 5);
        }
        let groups = if five.len() == 5 {
            decode_group_list(five[4].as_str())
        } else {
            Vec::new()
        };
        assert(five.len() != 5 ==> groups.deep_view() =~= Seq::<Seq<char>>::empty());
        SignalMessage::Offer {
            to: five[0].clone(),
            from: five[2].clone(),
            sdp: five[3].clone(),
            groups,
        }
    } else if same_text(four[1].as_str(), "answer") {
        SignalMessage::Answer {
            to: four[0].clone(),
            from: four[2].clone(),
            sdp: four[3].clone(),
        }
    } else if same_text(four[1].as_str(), "candidate") {
        SignalMessage::Candidate {
            to: four[0].clone(),
            from: four[2].clone(),
            candidate: four[3].clone(),
        }
    } else {
        SignalMessage::Unrecognized
    }
}

} // verus!
