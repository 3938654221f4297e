use wt_tools::text::{chars_of, join_text, same_text, split_text, split_text_at_most};
use wt_tools::wire::{decode, decode_group_list, encode, encode_group_list, SignalMessage};

fn s(text: &str) -> String {
    text.to_string()
}

fn names(list: &[&str]) -> Vec<String> {
    list.iter().map(|n| n.to_string()).collect()
}

#[test]
fn split_cuts_at_every_delimiter() {
    assert_eq!(split_text("a,b,c", ','), names(&["a", "b", "c"]));
    assert_eq!(split_text("a,,c", ','), names(&["a", "", "c"]));
    assert_eq!(split_text(",a,", ','), names(&["", "a", ""]));
}

#[test]
fn split_of_a_text_without_delimiter_is_one_field() {
    assert_eq!(split_text("abc", ','), names(&["abc"]));
    assert_eq!(split_text("", ','), names(&[""]));
}

#[test]
fn split_under_a_limit_leaves_the_rest_in_the_last_field() {
    assert_eq!(split_text_at_most("a:b:c:d", ':', 3), names(&["a", "b", "c:d"]));
    assert_eq!(split_text_at_most("a:b", ':', 3), names(&["a", "b"]));
    assert_eq!(split_text_at_most("a:b:c", ':', 1), names(&["a:b:c"]));
    assert_eq!(split_text_at_most("a:b:c", ':', 0), names(&["a:b:c"]));
    assert_eq!(split_text_at_most("a:b:", ':', 3), names(&["a", "b", ""]));
}

#[test]
fn split_counts_characters_not_bytes() {
    assert_eq!(split_text("grün:blau:weiß", ':'), names(&["grün", "blau", "weiß"]));
    assert_eq!(split_text_at_most("é:ü:ß:ö", ':', 2), names(&["é", "ü:ß:ö"]));
}

#[test]
fn join_puts_the_separator_between_fields() {
    assert_eq!(join_text(&names(&["a", "b", "c"]), ","), "a,b,c");
    assert_eq!(join_text(&names(&["a"]), ","), "a");
    assert_eq!(join_text(&names(&[]), ","), "");
    assert_eq!(join_text(&names(&["", ""]), ":"), ":");
    assert_eq!(join_text(&names(&["a", "b", "c"]), " and "), "a and b and c");
    assert_eq!(join_text(&names(&["a", "b"]), ""), "ab");
}

#[test]
fn join_undoes_split() {
    for text in ["", "a", "a,b", ",", "a,,b,", "no delimiter here"] {
        assert_eq!(join_text(&split_text(text, ','), ","), text);
    }
}

#[test]
fn the_characters_of_a_text_come_in_order() {
    assert_eq!(chars_of("aß:c"), vec!['a', 'ß', ':', 'c']);
    assert_eq!(chars_of(""), Vec::<char>::new());
}

#[test]
fn same_text_compares_characters() {
    assert!(same_text("offer", "offer"));
    assert!(!same_text("offer", "offers"));
    assert!(!same_text("offer", "Offer"));
    assert!(same_text("", ""));
}

#[test]
fn group_list_is_comma_joined() {
    assert_eq!(encode_group_list(&names(&["all", "ops"])), "all,ops");
    assert_eq!(decode_group_list("all,ops"), names(&["all", "ops"]));
    assert_eq!(decode_group_list(""), names(&[""]));
}

#[test]
fn register_frame_is_written_field_by_field() {
    let m = SignalMessage::Register { peer_id: s("alice"), groups: names(&["all", "ops"]) };
    assert_eq!(encode(&m), "register:alice:all,ops");
}

#[test]
fn register_frame_is_read_back() {
    let m = decode("register:alice:all,ops");
    assert_eq!(m, SignalMessage::Register { peer_id: s("alice"), groups: names(&["all", "ops"]) });
}

#[test]
fn every_kind_has_its_frame() {
    assert_eq!(
        encode(&SignalMessage::NewPeer { peer_id: s("bob"), groups: names(&["all"]) }),
        "new_peer:bob:all"
    );
    assert_eq!(
        encode(&SignalMessage::GroupUpdate { peer_id: s("bob"), groups: names(&["a", "b"]) }),
        "group_update:bob:a,b"
    );
    assert_eq!(
        encode(&SignalMessage::Offer {
            to: s("bob"),
            from: s("alice"),
            sdp: s("v=0"),
            groups: names(&["all", "ops"]),
        }),
        "bob:offer:alice:v=0:all,ops"
    );
    assert_eq!(
        encode(&SignalMessage::Offer { to: s("bob"), from: s("alice"), sdp: s("v=0"), groups: vec![] }),
        "bob:offer:alice:v=0"
    );
    assert_eq!(
        encode(&SignalMessage::Answer { to: s("alice"), from: s("bob"), sdp: s("v=0") }),
        "alice:answer:bob:v=0"
    );
    assert_eq!(
        encode(&SignalMessage::Candidate { to: s("alice"), from: s("bob"), candidate: s("udp 1 2") }),
        "alice:candidate:bob:udp 1 2"
    );
    assert_eq!(encode(&SignalMessage::Unrecognized), "");
}

#[test]
fn every_kind_survives_the_wire() {
    let messages = vec![
        SignalMessage::Register { peer_id: s("alice"), groups: names(&["all", "ops"]) },
        SignalMessage::Register { peer_id: s(""), groups: names(&[""]) },
        SignalMessage::NewPeer { peer_id: s("bob"), groups: names(&["all"]) },
        SignalMessage::GroupUpdate { peer_id: s("bob"), groups: names(&["a", "b", "c"]) },
        SignalMessage::Offer {
            to: s("bob"),
            from: s("alice"),
            sdp: s("v=0"),
            groups: names(&["all", "ops"]),
        },
        SignalMessage::Offer { to: s("bob"), from: s("alice"), sdp: s("v=0"), groups: vec![] },
        SignalMessage::Offer { to: s("bob"), from: s("alice"), sdp: s(""), groups: names(&[""]) },
        SignalMessage::Answer { to: s("alice"), from: s("bob"), sdp: s("v=0 o=- 1") },
        SignalMessage::Answer { to: s("alice"), from: s("bob"), sdp: s("a:b:c") },
        SignalMessage::Candidate {
            to: s("alice"),
            from: s("bob"),
            candidate: s("udp host 10.0.0.1:5000"),
        },
        SignalMessage::Unrecognized,
    ];
    for m in messages {
        assert_eq!(decode(&encode(&m)), m);
    }
}

#[test]
fn an_empty_group_list_does_not_survive_a_keyed_frame() {
    let m = SignalMessage::Register { peer_id: s("alice"), groups: vec![] };
    assert_eq!(encode(&m), "register:alice:");
    assert_eq!(
        decode("register:alice:"),
        SignalMessage::Register { peer_id: s("alice"), groups: names(&[""]) }
    );
}

#[test]
fn an_addressee_named_like_a_keyword_is_read_as_the_keyword() {
    let m = SignalMessage::Answer { to: s("register"), from: s("bob"), sdp: s("v=0") };
    assert_eq!(encode(&m), "register:answer:bob:v=0");
    assert_eq!(
        decode("register:answer:bob:v=0"),
        SignalMessage::Register { peer_id: s("answer"), groups: names(&["bob:v=0"]) }
    );
}

#[test]
fn the_last_field_keeps_the_rest_of_the_frame() {
    assert_eq!(
        decode("alice:candidate:bob:candidate:1 1 UDP 2 10.0.0.1 5000 typ host"),
        SignalMessage::Candidate {
            to: s("alice"),
            from: s("bob"),
            candidate: s("candidate:1 1 UDP 2 10.0.0.1 5000 typ host"),
        }
    );
    assert_eq!(
        decode("register:alice:a:b,c"),
        SignalMessage::Register { peer_id: s("alice"), groups: names(&["a:b", "c"]) }
    );
    assert_eq!(
        decode("bob:offer:alice:v=0:g1,g2:x"),
        SignalMessage::Offer {
            to: s("bob"),
            from: s("alice"),
            sdp: s("v=0"),
            groups: names(&["g1", "g2:x"]),
        }
    );
}

#[test]
fn an_offer_without_group_field_has_no_groups() {
    assert_eq!(
        decode("bob:offer:alice:v=0"),
        SignalMessage::Offer { to: s("bob"), from: s("alice"), sdp: s("v=0"), groups: vec![] }
    );
    assert_eq!(
        decode("bob:offer:alice:v=0:"),
        SignalMessage::Offer { to: s("bob"), from: s("alice"), sdp: s("v=0"), groups: names(&[""]) }
    );
}

#[test]
fn malformed_frames_are_unrecognized() {
    for raw in [
        "",
        ":",
        "hello",
        "register",
        "register:alice",
        "new_peer:bob",
        "group_update:",
        "bob:offer:alice",
        "bob:answer",
        "bob:hangup:alice:now",
        "offer:bob:alice:v=0",
        "REGISTER:alice:all",
        "bob:offer",
        "a:b:c",
        "::::",
    ] {
        assert_eq!(decode(raw), SignalMessage::Unrecognized, "frame {:?}", raw);
    }
}

#[test]
fn frames_with_empty_fields_are_still_messages() {
    assert_eq!(
        decode("register::"),
        SignalMessage::Register { peer_id: s(""), groups: names(&[""]) }
    );
    assert_eq!(
        decode(":answer::"),
        SignalMessage::Answer { to: s(""), from: s(""), sdp: s("") }
    );
}
