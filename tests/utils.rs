use i3bar_river::lines_buffer::LineAssembler;
use i3bar_river::i3bar_protocol::last_line;
use i3bar_river::json::{de_first_json, de_last_json, trim_ascii_start};

#[test]
fn streaming_json() {
    let s = b",[2]\n, [3], [4, 3],[32][3] ";
    assert_eq!(
        de_first_json::<Vec<u8>>(s).unwrap(),
        (Some(vec![2]), &b"\n, [3], [4, 3],[32][3] "[..])
    );
    assert_eq!(
        de_last_json::<Vec<u8>>(s).unwrap(),
        (Some(vec![3]), &b""[..])
    );

    let s = b",[2]\n, [3], [4, 3],[32][3] [2, 4";
    assert_eq!(
        de_last_json::<Vec<u8>>(s).unwrap(),
        (Some(vec![3]), &b"[2, 4"[..])
    );

    let s = b",[2]\n, [3], [4, 3],[32] invalid";
    assert_eq!(
        de_first_json::<Vec<u8>>(s).unwrap(),
        (Some(vec![2]), &b"\n, [3], [4, 3],[32] invalid"[..])
    );
    assert!(de_last_json::<Vec<u8>>(s).is_err());
}

#[test]
fn test_last_line() {
    let s = b"hello";
    assert_eq!(last_line(s), None);

    let s = b"hello\n";
    assert_eq!(last_line(s), Some((&b"hello"[..], &b""[..])));

    let s = b"hello\nworld";
    assert_eq!(last_line(s), Some((&b"hello"[..], &b"world"[..])));

    let s = b"hello\nworld\n";
    assert_eq!(last_line(s), Some((&b"world"[..], &b""[..])));

    let s = b"hello\nworld\n...";
    assert_eq!(last_line(s), Some((&b"world"[..], &b"..."[..])));
}

#[test]
fn test_trim_start() {
    let s = b" ";
    assert_eq!(trim_ascii_start(s), b"");

    let s = b"hello";
    assert_eq!(trim_ascii_start(s), b"hello");

    let s = b"\t \nhello";
    assert_eq!(trim_ascii_start(s), b"hello");

    let s = b" \t \nhello\n";
    assert_eq!(trim_ascii_start(s), b"hello\n");
}

#[test]
fn first_json_of_incomplete_value_keeps_it() {
    let s = b" ,\n[1, 2";
    assert_eq!(de_first_json::<Vec<u8>>(s).unwrap(), (None, &b"[1, 2"[..]));
}

#[test]
fn first_json_of_wrong_type_is_an_error() {
    assert!(de_first_json::<Vec<u8>>(b"[300]").is_err());
    assert!(de_first_json::<Vec<u8>>(b"{\"a\":1}").is_err());
}

#[test]
fn lines_are_assembled_across_pieces() {
    let mut a = LineAssembler::new();
    assert_eq!(a.take_line(b"hel"), (None, 3));
    assert_eq!(a.take_line(b"lo\nwor"), (Some("hello".to_string()), 3));
    // the caller keeps the unused "wor" and offers it again
    assert_eq!(a.take_line(b"world\n"), (Some("world".to_string()), 6));
    assert_eq!(a.take_line(b"\n"), (Some(String::new()), 1));
    assert_eq!(a.take_line(b"\xff\n"), (Some("\u{fffd}".to_string()), 2));
}
