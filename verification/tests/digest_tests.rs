use lidar_guard::text::split_message;
use lidar_guard::digest::{bytes_equal, check_integrity, digest_hex, digest_matches, payload_of, say_something};

const ABC_BLAKE2B: &str = "ba80a53f981c4d0d6a2797b69f12f6e94c212f14685ac4b74b12bb6fdbffa2d17d87c5392aab792dc252d5de4533cc9518d38aa8dbf1925ab92386edd4009923";

#[test]
fn say_something_hashes_known_vector() {
    let mut hash = [0u8; 64];
    say_something(b"abc", &mut hash);
    assert_eq!(digest_hex(&hash), ABC_BLAKE2B.as_bytes().to_vec());
}

#[test]
fn say_something_overwrites_previous_hash() {
    let mut hash = [7u8; 64];
    say_something(b"", &mut hash);
    let mut again = [0u8; 64];
    say_something(b"", &mut again);
    assert_eq!(hash, again);
    assert_ne!(hash, [7u8; 64]);
}

#[test]
fn digest_hex_is_lowercase_two_digits_per_byte() {
    let mut digest = [0u8; 64];
    digest[0] = 0x0f;
    digest[1] = 0xa0;
    digest[63] = 0xff;
    let text = digest_hex(&digest);
    assert_eq!(text.len(), 128);
    assert_eq!(&text[0..4], b"0fa0");
    assert_eq!(&text[126..128], b"ff");
    assert!(text.iter().all(|c| c.is_ascii_digit() || (b'a'..=b'f').contains(c)));
}

#[test]
fn digest_matches_accepts_own_hex_only() {
    let mut digest = [0u8; 64];
    say_something(b"abc", &mut digest);
    assert!(digest_matches(&digest, ABC_BLAKE2B.as_bytes()));
    let upper = ABC_BLAKE2B.to_uppercase();
    assert!(!digest_matches(&digest, upper.as_bytes()));
    assert!(!digest_matches(&digest, &ABC_BLAKE2B.as_bytes()[..126]));
}

#[test]
fn bytes_equal_compares_length_and_content() {
    assert!(bytes_equal(b"", b""));
    assert!(bytes_equal(b"lidar", b"lidar"));
    assert!(!bytes_equal(b"lidar", b"lidaR"));
    assert!(!bytes_equal(b"lidar", b"lida"));
}

#[test]
fn payload_is_points_then_pose() {
    assert_eq!(payload_of(b"1 2 3", b"4 5 6"), b"1 2 34 5 6".to_vec());
    assert_eq!(payload_of(b"", b""), Vec::<u8>::new());
}

#[test]
fn untampered_scan_is_accepted() {
    let lidar = b"1.0 2.0 3.0ZZ4.0 5.0 6.0";
    let pose = b"0 0 0 0 0 0";
    let payload = payload_of(lidar, pose);
    let mut digest = [0u8; 64];
    say_something(&payload, &mut digest);
    let claimed = digest_hex(&digest);
    assert!(check_integrity(lidar, pose, &claimed));
}

#[test]
fn tampered_scan_is_refused() {
    let lidar = b"1.0 2.0 3.0";
    let pose = b"0 0 0 0 0 0";
    let mut digest = [0u8; 64];
    say_something(&payload_of(lidar, pose), &mut digest);
    let claimed = digest_hex(&digest);
    assert!(!check_integrity(b"1.0 2.0 3.5", pose, &claimed));
    assert!(!check_integrity(lidar, b"0 0 0 0 0 1", &claimed));
    assert!(!check_integrity(lidar, pose, b""));
}

#[test]
fn abc_split_between_points_and_pose_matches_vector() {
    assert!(check_integrity(b"ab", b"c", ABC_BLAKE2B.as_bytes()));
}

#[test]
fn sent_message_is_read_back_and_accepted() {
    let lidar = b"1 2 3ZZ4 5 6".to_vec();
    let pose = b"0 0 0 90 0 0".to_vec();
    let mut digest = [0u8; 64];
    say_something(&payload_of(&lidar, &pose), &mut digest);
    let claimed = digest_hex(&digest);
    let mut message = lidar.clone();
    message.push(b'|');
    message.extend_from_slice(&pose);
    message.push(b'|');
    message.extend_from_slice(&claimed);
    let (l, p, h) = split_message(&message);
    assert_eq!((l.clone(), p.clone(), h.clone()), (lidar, pose, claimed));
    assert!(check_integrity(&l, &p, &h));
}
