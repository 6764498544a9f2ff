use lidar_guard::text::{join_lines, split_message, split_on};

fn parts(v: Vec<Vec<u8>>) -> Vec<String> {
    v.into_iter().map(|p| String::from_utf8(p).unwrap()).collect()
}

#[test]
fn split_on_matches_str_split() {
    for (text, sep) in [
        ("a b c", " "),
        ("", " "),
        (" a  b ", " "),
        ("1 2 3ZZ4 5 6ZZ", "ZZ"),
        ("aZZZb", "ZZ"),
        ("ZZZZ", "ZZ"),
        ("x|y|z|w", "|"),
        ("no separator", "|"),
    ] {
        let expected: Vec<String> = text.split(sep).map(|s| s.to_string()).collect();
        assert_eq!(parts(split_on(text.as_bytes(), sep.as_bytes())), expected);
    }
}

#[test]
fn split_message_reads_three_fields() {
    let (lidar, pose, hash) = split_message(b"1 2 3ZZ4 5 6|0 0 0 0 0 0|abcdef");
    assert_eq!(lidar, b"1 2 3ZZ4 5 6".to_vec());
    assert_eq!(pose, b"0 0 0 0 0 0".to_vec());
    assert_eq!(hash, b"abcdef".to_vec());
}

#[test]
fn split_message_joins_extra_pieces_into_hash() {
    let (lidar, pose, hash) = split_message(b"a|b|c|d||e");
    assert_eq!(lidar, b"a".to_vec());
    assert_eq!(pose, b"b".to_vec());
    assert_eq!(hash, b"cde".to_vec());
}

#[test]
fn split_message_missing_fields_are_empty() {
    assert_eq!(split_message(b"only"), (b"only".to_vec(), vec![], vec![]));
    assert_eq!(split_message(b"one|two"), (b"one".to_vec(), b"two".to_vec(), vec![]));
    assert_eq!(split_message(b""), (vec![], vec![], vec![]));
}

#[test]
fn message_roundtrip_of_bar_free_fields() {
    let (lidar, pose, hash) = (b"1 2 3ZZ".to_vec(), b"9 8 7 6 5 4".to_vec(), b"00ff".to_vec());
    let mut message = lidar.clone();
    message.push(b'|');
    message.extend_from_slice(&pose);
    message.push(b'|');
    message.extend_from_slice(&hash);
    assert_eq!(split_message(&message), (lidar, pose, hash));
}

#[test]
fn join_lines_drops_line_ends() {
    assert_eq!(join_lines(b"ab\ncd\r\nef", b""), b"abcdef".to_vec());
    assert_eq!(join_lines(b"ab\n", b""), b"ab".to_vec());
    assert_eq!(join_lines(b"", b""), Vec::<u8>::new());
    assert_eq!(join_lines(b"x\r", b""), b"x\r".to_vec());
}

#[test]
fn join_lines_with_marker_matches_bufread_lines() {
    for raw in ["a\nb\n", "a\r\n\r\nb", "\n\n", "tail", "", "x\ry\n"] {
        let expected: String = std::io::BufRead::lines(raw.as_bytes())
            .map(|l| l.unwrap() + "/n")
            .collect();
        assert_eq!(join_lines(raw.as_bytes(), b"/n"), expected.into_bytes());
    }
}

#[test]
fn joined_lines_hold_no_line_feed() {
    for raw in ["a\nb\r\nc\n", "\n\n\n", "x\r\ny", ""] {
        assert!(!join_lines(raw.as_bytes(), b"").contains(&b'\n'));
        assert!(!join_lines(raw.as_bytes(), b"/n").contains(&b'\n'));
    }
}
