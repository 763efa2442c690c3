use i3bar_river::block::{Align, Block, JsonHeader, MinWidth};
use i3bar_river::i3bar_protocol::{Event, Malformed, Protocol, ProtocolError};
use i3bar_river::pointer_btn::PointerBtn;
use i3bar_river::status_feed::StatusFeed;

fn texts(blocks: &[Block]) -> Vec<String> {
    blocks.iter().map(|b| b.full_text.clone()).collect()
}

#[test]
fn snapshot_replaces_previous_one() {
    let mut p = Protocol::new();
    let rem = p.process_new_bytes(b"{\"version\":1}\n[").unwrap();
    assert!(rem.is_empty());
    let rem = p
        .process_new_bytes(b",[{\"full_text\":\"a\"}],[{\"full_text\":\"b\"}]")
        .unwrap();
    assert!(rem.is_empty());
    let blocks = p.get_blocks().unwrap();
    assert_eq!(texts(&blocks), vec!["b".to_string()]);
    assert!(p.get_blocks().is_none());
}

#[test]
fn unsupported_version_is_rejected() {
    let mut p = Protocol::new();
    assert_eq!(
        p.process_new_bytes(b"{\"version\":2}").unwrap_err(),
        ProtocolError::UnsupportedProtocolVersion { version: 2 }
    );
}

#[test]
fn missing_bracket_is_rejected() {
    let mut p = Protocol::new();
    assert_eq!(
        p.process_new_bytes(b"{\"version\":1}\nxyz").unwrap_err(),
        ProtocolError::MalformedProtocol {
            reason: Malformed::ExpectedBracket { got: b'x' }
        }
    );
}

#[test]
fn header_stays_read_after_an_error() {
    let mut p = Protocol::new();
    assert!(p
        .process_new_bytes(b"{\"version\":1,\"click_events\":true}\nxyz")
        .is_err());
    assert!(p.supports_clicks());
    let mut p = Protocol::new();
    assert!(p
        .process_new_bytes(b"{\"version\":1,\"click_events\":true}\n[[oops")
        .is_err());
    assert!(p.supports_clicks());
    assert!(p.get_blocks().is_none());
}

#[test]
fn invalid_json_in_array_is_rejected() {
    let mut p = Protocol::new();
    p.process_new_bytes(b"{\"version\":1}\n[").unwrap();
    assert_eq!(
        p.process_new_bytes(b"[{\"full_text\": oops}]").unwrap_err(),
        ProtocolError::MalformedProtocol {
            reason: Malformed::InvalidJson
        }
    );
}

#[test]
fn unknown_block_field_is_rejected() {
    let mut p = Protocol::new();
    p.process_new_bytes(b"{\"version\":1}\n[").unwrap();
    assert!(p
        .process_new_bytes(b"[{\"full_text\":\"a\",\"urgent\":true}]")
        .is_err());
}

#[test]
fn block_without_full_text_is_rejected() {
    let mut p = Protocol::new();
    p.process_new_bytes(b"{\"version\":1}\n[").unwrap();
    assert!(p.process_new_bytes(b"[{\"name\":\"a\"}]").is_err());
}

#[test]
fn block_fields_are_read() {
    let mut p = Protocol::new();
    p.process_new_bytes(b"{\"version\":1,\"click_events\":true}\n[").unwrap();
    assert!(p.supports_clicks());
    p.process_new_bytes(
        b"[{\"full_text\":\"x\",\"short_text\":\"y\",\"min_width\":30,\"align\":\"center\",\
\"name\":\"n\",\"instance\":null,\"separator\":false,\"separator_block_width\":3,\
\"markup\":\"pango\",\"color\":\"#ff0000\"},{\"full_text\":\"z\",\"min_width\":\"wide\"}],",
    )
    .unwrap();
    let blocks = p.get_blocks().unwrap();
    assert_eq!(blocks.len(), 2);
    let b = &blocks[0];
    assert_eq!(b.full_text, "x");
    assert_eq!(b.short_text.as_deref(), Some("y"));
    assert!(matches!(b.min_width, Some(MinWidth::Pixels(30))));
    assert_eq!(b.align, Align::Center);
    assert_eq!(b.name.as_deref(), Some("n"));
    assert_eq!(b.instance, None);
    assert!(!b.separator);
    assert_eq!(b.separator_block_width, 3);
    assert_eq!(b.markup.as_deref(), Some("pango"));
    assert_eq!(b.color.as_deref(), Some("#ff0000"));
    let c = &blocks[1];
    assert!(matches!(&c.min_width, Some(MinWidth::Text(t)) if t == "wide"));
    assert!(c.separator);
    assert_eq!(c.separator_block_width, 9);
    assert_eq!(c.align, Align::Left);
}

#[test]
fn out_of_range_width_is_rejected() {
    let mut p = Protocol::new();
    p.process_new_bytes(b"{\"version\":1}\n[").unwrap();
    assert!(p
        .process_new_bytes(b"[{\"full_text\":\"a\",\"separator_block_width\":256}]")
        .is_err());
}

#[test]
fn empty_and_partial_reads_wait_in_unknown_state() {
    let mut p = Protocol::new();
    assert_eq!(p.process_new_bytes(b"").unwrap(), b"");
    assert_eq!(p.process_new_bytes(b"{\"vers").unwrap(), b"{\"vers");
    p.process_new_bytes(b"{\"version\":1,\"click_events\":true}").unwrap();
    assert!(p.supports_clicks());
}

#[test]
fn header_without_clicks() {
    let mut p = Protocol::new();
    assert!(!p.supports_clicks());
    p.process_new_bytes(b"{\"version\":1}").unwrap();
    assert!(!p.supports_clicks());
    assert!(p.get_blocks().is_none());
}

#[test]
fn header_is_read_exactly() {
    let h = <JsonHeader as i3bar_river::json::FromJson>::from_json(
        b"{\"version\":1,\"stop_signal\":10,\"cont_signal\":12,\"click_events\":true}",
    )
    .unwrap();
    assert_eq!(
        h,
        JsonHeader { version: 1, stop_signal: 10, cont_signal: 12, click_events: true }
    );
    assert!(<JsonHeader as i3bar_river::json::FromJson>::from_json(b"{\"version\":1,\"x\":1}").is_none());
}

#[test]
fn plain_text_keeps_latest_line() {
    let mut p = Protocol::new();
    let rem = p.process_new_bytes(b"hello\nworld\npart").unwrap();
    assert_eq!(rem, b"part");
    let blocks = p.get_blocks().unwrap();
    assert_eq!(texts(&blocks), vec!["world".to_string()]);
    assert!(blocks[0].separator);
    assert_eq!(blocks[0].separator_block_width, 9);
    assert!(p.get_blocks().is_none());
}

#[test]
fn plain_text_invalid_utf8_is_replaced() {
    let mut p = Protocol::new();
    p.process_new_bytes(b"a\xffb\n").unwrap();
    assert_eq!(texts(&p.get_blocks().unwrap()), vec!["a\u{fffd}b".to_string()]);
}

#[test]
fn chunked_feed_matches_whole_feed() {
    let bytes: &[u8] = b"{\"version\":1}\n[\n[{\"full_text\":\"one\"}],\n[{\"full_text\":\"two\"},{\"full_text\":\"three\"}],\n";
    let mut whole = StatusFeed::new();
    whole.push_bytes(bytes).unwrap();
    let expected = texts(&whole.take_blocks().unwrap());
    assert_eq!(expected, vec!["two".to_string(), "three".to_string()]);
    for cut in 0..bytes.len() {
        let mut feed = StatusFeed::new();
        feed.push_bytes(&bytes[..cut]).unwrap();
        feed.push_bytes(&bytes[cut..]).unwrap();
        assert_eq!(texts(&feed.take_blocks().unwrap()), expected, "cut at {}", cut);
    }
}

#[test]
fn chunked_plain_text_matches_whole() {
    let bytes: &[u8] = b"first line\nsecond line\nthird";
    let mut whole = StatusFeed::new();
    whole.push_bytes(bytes).unwrap();
    let expected = texts(&whole.take_blocks().unwrap());
    assert_eq!(expected, vec!["second line".to_string()]);
    for cut in 1..bytes.len() {
        let mut feed = StatusFeed::new();
        feed.push_bytes(&bytes[..cut]).unwrap();
        feed.push_bytes(&bytes[cut..]).unwrap();
        assert_eq!(texts(&feed.take_blocks().unwrap()), expected);
    }
}

#[test]
fn receive_returns_new_blocks_once() {
    let mut feed = StatusFeed::new();
    assert!(feed.receive(b"{\"version\":1,\"click_events\":true}\n[").unwrap().is_none());
    assert!(feed.supports_clicks());
    let got = feed.receive(b"[{\"full_text\":\"a\"}]").unwrap().unwrap();
    assert_eq!(texts(&got), vec!["a".to_string()]);
    assert!(feed.receive(b",[{\"full_text\"").unwrap().is_none());
    let got = feed.receive(b":\"b\"}]").unwrap().unwrap();
    assert_eq!(texts(&got), vec!["b".to_string()]);
}

#[test]
fn event_carries_block_identity() {
    let mut b = Block::with_text("x".to_string());
    b.name = Some("cpu".to_string());
    b.instance = Some("0".to_string());
    let e = Event::for_block(&b, PointerBtn::Right);
    assert_eq!(e.name.as_deref(), Some("cpu"));
    assert_eq!(e.instance.as_deref(), Some("0"));
    assert_eq!(e.button.protocol_code(), 3);
}
