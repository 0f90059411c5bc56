use q3huff::protocol::{is_out_of_band, out_of_band, parse_challenge};

#[test]
fn out_of_band_prefixes_four_ff_bytes() {
    assert_eq!(out_of_band(b"getchallenge")[..4], [0xFF, 0xFF, 0xFF, 0xFF]);
    assert_eq!(&out_of_band(b"getchallenge")[4..], b"getchallenge");
    assert_eq!(out_of_band(b""), vec![0xFF, 0xFF, 0xFF, 0xFF]);
}

#[test]
fn out_of_band_packets_are_recognised() {
    assert!(is_out_of_band(&[0xFF, 0xFF, 0xFF, 0xFF, b'x']));
    assert!(is_out_of_band(&[0xFF, 0xFF, 0xFF, 0xFF]));
    assert!(!is_out_of_band(&[0xFF, 0xFF, 0xFF]));
    assert!(!is_out_of_band(&[0xFF, 0xFF, 0xFE, 0xFF, 0x00]));
}

#[test]
fn challenge_number_is_read() {
    assert_eq!(parse_challenge(b"challengeResponse 1234567"), Some(1234567));
    assert_eq!(parse_challenge(b"challengeResponse -42 84 0"), Some(-42));
    assert_eq!(parse_challenge(b"challengeResponse\t\n+7\n"), Some(7));
    assert_eq!(parse_challenge(b"challengeResponse 2147483647"), Some(i32::MAX));
    assert_eq!(parse_challenge(b"challengeResponse -2147483648"), Some(i32::MIN));
}

#[test]
fn challenge_refuses_other_text() {
    assert_eq!(parse_challenge(b"print\nbanned"), None);
    assert_eq!(parse_challenge(b"challengeResponse"), None);
    assert_eq!(parse_challenge(b"challengeResponse   "), None);
    assert_eq!(parse_challenge(b"challengeResponse 12a"), None);
    assert_eq!(parse_challenge(b"challengeResponse -"), None);
    assert_eq!(parse_challenge(b"challengeResponse 2147483648"), None);
    assert_eq!(parse_challenge(b"challengeResponse 99999999999999"), None);
}
