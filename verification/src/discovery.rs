//! The names under which a room is announced on the local network, and the
//! room that a relay address names.

use crate::text::{lemma_split_at_most_len, split, split_text};
use vstd::prelude::*;

verus! {

/// The service type of the peer transport.
pub const WEBRTC_SERVICE: &'static str = "_webrtc._udp.local.";

/// The service type of the relay.
pub const WEBSOCKET_SERVICE: &'static str = "_ws._tcp.local.";

/// `text` in lower case, as `str::to_lowercase` gives it.
pub uninterp spec fn lowercase(text: Seq<char>) -> Seq<char>;

/// Calls `str::to_lowercase`. What comes back depends on `text` alone;
/// nothing more is claimed.
#[verifier::external_body]
fn lower(text: &str) -> (out: String)
    ensures
        out@ == lowercase(text@),
{
    text.to_lowercase()
}

/// The instance name of a room: `<room>_by_<creator>`.
pub open spec fn service_name_of(room_name: Seq<char>, creator: Seq<char>) -> Seq<char> {
    room_name + "_by_"@ + creator
}

/// The host name of a device: `<device>.local.`.
pub open spec fn host_name_of(device: Seq<char>) -> Seq<char> {
    device + ".local."@
}

/// The instance name of the room `room_name` that `creator` made, both
/// written as they are.
pub fn service_name(room_name: &str, creator: &str) -> (name: String)
    ensures
        name@ == service_name_of(room_name@, creator@),
{
    let mut name = room_name.to_owned();
    name.append("_by_");
    name.append(creator);
    name
}

/// The host name of `device`, written as it is.
pub fn host_name(device: &str) -> (name: String)
    ensures
        name@ == host_name_of(device@),
{
    let mut name = device.to_owned();
    name.append(".local.");
    name
}

/// The names under which a new room is announced: instance and host name,
/// both in lower case.
pub fn broadcast_names(room_name: &str, creator: &str) -> (names: (String, String))
    ensures
        names.0@ == service_name_of(lowercase(room_name@), lowercase(creator@)),
        names.1@ == host_name_of(lowercase(creator@)),
{
    let room = lower(room_name);
    let device = lower(creator);
    (service_name(room.as_str(), device.as_str()), host_name(device.as_str()))
}

/// The room that a relay address names: what follows its last `/`, the
/// whole address where it has none.
pub open spec fn room_name_of(url: Seq<char>) -> Seq<char> {
    split(url, '/').last()
}

/// The room that the relay address `ws_url` names.
pub fn room_name(ws_url: &str) -> (name: String)
    ensures
        name@ == room_name_of(ws_url@),
{
    let parts = split_text(ws_url, '/');
    proof {
        lemma_split_at_most_len(ws_url@, '/', ws_url@.len() + 1);
    }
    parts[parts.len() - 1].clone()
}

} // verus!
