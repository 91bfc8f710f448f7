use github_hosts::dns::parse_dns_host;
use github_hosts::hostgen::{gen, parse_line, to_256};

#[test]
fn test_gen() {
    to_256(b"\x06github\x0cgithubassets\x03com\x00");
    assert_eq!(
        gen("github.githubassets.com", "185.199.108.154"),
        Some((
            to_256(b"\x06github\x0cgithubassets\x03com\x00"),
            [185, 199, 108, 154]
        ))
    )
}

#[test]
fn gen_simple_host() {
    let (key, addr) = gen("google.com", "1.2.3.4").unwrap();
    assert_eq!(key, to_256(b"\x06google\x03com\x00"));
    assert_eq!(addr, [1, 2, 3, 4]);
}

#[test]
fn gen_single_label() {
    let (key, addr) = gen("localhost", "127.0.0.1").unwrap();
    assert_eq!(key, to_256(b"\x09localhost\x00"));
    assert_eq!(addr, [127, 0, 0, 1]);
}

#[test]
fn gen_empty_labels_are_kept() {
    // split on '.' keeps empty fields: each gets a zero length byte
    let (key, _) = gen("a..b", "9.8.7.6").unwrap();
    assert_eq!(key, to_256(b"\x01a\x00\x01b\x00"));
}

#[test]
fn gen_ip_wrong_part_count() {
    assert_eq!(gen("example.com", "1.2.3"), None);
    assert_eq!(gen("example.com", "1.2.3.4.5"), None);
    assert_eq!(gen("example.com", "1.2.3.4."), None);
}

#[test]
fn gen_ip_part_too_large() {
    assert_eq!(gen("example.com", "1.2.3.256"), None);
    assert_eq!(gen("example.com", "999.2.3.4"), None);
}

#[test]
fn gen_ip_part_not_decimal() {
    assert_eq!(gen("example.com", "1.2.3.x"), None);
    assert_eq!(gen("example.com", "1.2..4"), None);
    assert_eq!(gen("example.com", "1.2.3.+4"), None);
}

#[test]
fn gen_ip_leading_zeros_ok() {
    let (_, addr) = gen("example.com", "001.002.003.004").unwrap();
    assert_eq!(addr, [1, 2, 3, 4]);
}

#[test]
fn gen_label_too_long() {
    // a label longer than 255 bytes cannot carry its length byte
    let label = "a".repeat(256);
    assert_eq!(gen(&label, "1.2.3.4"), None);
}

#[test]
fn gen_name_too_long_for_key() {
    // four 63-byte labels encode to 257 bytes, one over the key size
    let host = format!(
        "{}.{}.{}.{}",
        "a".repeat(63),
        "b".repeat(63),
        "c".repeat(63),
        "d".repeat(63)
    );
    assert_eq!(gen(&host, "1.2.3.4"), None);
}

#[test]
fn gen_name_exactly_at_key_size() {
    // 64 + 64 + 64 + 63 + 1 = 256 encoded bytes, exactly the key
    let host = format!(
        "{}.{}.{}.{}",
        "a".repeat(63),
        "b".repeat(63),
        "c".repeat(63),
        "d".repeat(62)
    );
    let (key, _) = gen(&host, "1.2.3.4").unwrap();
    assert_eq!(key[0], 63);
    assert_eq!(key[255], 0);
    let mut wire = Vec::new();
    for part in host.split('.') {
        wire.push(part.len() as u8);
        wire.extend(part.as_bytes());
    }
    wire.push(0);
    assert_eq!(wire.len(), 256);
    assert_eq!(key, to_256(&wire));
}

#[test]
fn to_256_pads_and_cuts() {
    let short = to_256(b"ab");
    assert_eq!(short[0], b'a');
    assert_eq!(short[1], b'b');
    assert_eq!(short[2], 0);
    assert_eq!(short[255], 0);
    let long: Vec<u8> = (0..300u32).map(|i| (i % 251) as u8).collect();
    let cut = to_256(&long);
    for i in 0..256 {
        assert_eq!(cut[i], long[i]);
    }
}

#[test]
fn round_trip_encoded_name_decodes_to_its_length() {
    // encode a hostname by the label scheme, then decode it from a buffer
    let (key, _) = gen("github.githubassets.com", "185.199.108.154").unwrap();
    let encoded_len = 1 + 6 + 1 + 12 + 1 + 3 + 1; // length bytes, labels, zero
    let mut buf: Vec<u8> = key[..encoded_len].to_vec();
    buf.push(0xab); // a byte after the name, as in a real message
    assert_eq!(parse_dns_host(&buf, 0), Some(encoded_len));
}

#[test]
fn round_trip_single_label() {
    let (key, _) = gen("localhost", "127.0.0.1").unwrap();
    let mut buf: Vec<u8> = key[..11].to_vec();
    buf.extend(&[0, 1]);
    assert_eq!(parse_dns_host(&buf, 0), Some(11));
}

#[test]
fn decoder_pointer_is_two_bytes() {
    let buf = vec![0xc0u8, 0x0c, 0xff, 0xff];
    assert_eq!(parse_dns_host(&buf, 0), Some(2));
}

#[test]
fn decoder_needs_two_bytes() {
    let buf = vec![0u8];
    assert_eq!(parse_dns_host(&buf, 0), None);
}

#[test]
fn decoder_truncated_label_runs_out() {
    // length byte says 5 but only 2 label bytes follow
    let buf = vec![5u8, b'a', b'b'];
    assert_eq!(parse_dns_host(&buf, 0), None);
}

#[test]
fn decoder_stops_at_label_bound() {
    // five one-byte labels: the bound is spent before the closing zero
    let buf = vec![1, b'a', 1, b'b', 1, b'c', 1, b'd', 1, b'e', 0];
    assert_eq!(parse_dns_host(&buf, 0), Some(10));
}

#[test]
fn parse_line_entry() {
    assert_eq!(
        parse_line("185.199.108.154 github.githubassets.com"),
        gen("github.githubassets.com", "185.199.108.154")
    );
}

#[test]
fn parse_line_comment_and_blank() {
    assert_eq!(parse_line("# 1.2.3.4 example.com"), None);
    assert_eq!(parse_line(""), None);
    assert_eq!(parse_line("   "), None);
}

#[test]
fn parse_line_single_token() {
    assert_eq!(parse_line("1.2.3.4"), None);
    assert_eq!(parse_line("1.2.3.4   "), None);
}

#[test]
fn parse_line_extra_spacing_and_tokens() {
    assert_eq!(
        parse_line("  1.2.3.4    example.com  trailing junk"),
        gen("example.com", "1.2.3.4")
    );
}

#[test]
fn parse_line_bad_address() {
    assert_eq!(parse_line("1.2.3 example.com"), None);
}
