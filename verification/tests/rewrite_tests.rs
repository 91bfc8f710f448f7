use github_hosts::dns::parse_dns_header;
use github_hosts::hostgen::{gen, to_256};
use github_hosts::packet::{read_u16_be, read_u8, write_u8};
use github_hosts::rewrite::{github_hosts, try_github_hosts, XDP_PASS};
use github_hosts::table::HostTable;

// One Ethernet + IPv4 + UDP + DNS frame. The UDP checksum field starts as
// given so tests can watch what the rewriter does to it.
fn build_frame(
    ethertype: u16,
    proto: u8,
    sport: u16,
    qcount: u16,
    acount: u16,
    qname_wire: &[u8],
    answers: &[u8],
    checksum: u16,
) -> Vec<u8> {
    let mut p = vec![0u8; 12];
    p.extend(&ethertype.to_be_bytes());
    let mut ip = [0u8; 20];
    ip[0] = 0x45;
    ip[9] = proto;
    p.extend(&ip);
    p.extend(&sport.to_be_bytes()); // UDP source port
    p.extend(&53u16.to_be_bytes()); // UDP destination port
    p.extend(&0u16.to_be_bytes()); // UDP length (unused by the rewriter)
    p.extend(&checksum.to_be_bytes());
    p.extend(&[0xab, 0xcd, 0x81, 0x80]); // DNS id, flags
    p.extend(&qcount.to_be_bytes());
    p.extend(&acount.to_be_bytes());
    p.extend(&[0, 0, 0, 0]); // nscount, arcount
    p.extend(qname_wire);
    p.extend(&[0, 1, 0, 1]); // question type A, class IN
    p.extend(answers);
    p
}

fn a_record(rdata: [u8; 4]) -> Vec<u8> {
    let mut r = vec![0xc0, 0x0c]; // name: compression pointer to the question
    r.extend(&[0, 1, 0, 1]); // type A, class IN
    r.extend(&[0, 0, 0, 60]); // TTL
    r.extend(&[0, 4]); // data length
    r.extend(&rdata);
    r
}

fn cname_record(target_wire: &[u8]) -> Vec<u8> {
    let mut r = vec![0xc0, 0x0c];
    r.extend(&[0, 5, 0, 1]); // type CNAME, class IN
    r.extend(&[0, 0, 0, 60]);
    r.extend(&(target_wire.len() as u16).to_be_bytes());
    r.extend(target_wire);
    r
}

fn assets_table() -> HostTable {
    let mut t = HostTable::new();
    let (k, v) = gen("github.githubassets.com", "185.199.108.154").unwrap();
    t.insert(k, v).unwrap();
    t
}

const QNAME: &[u8] = b"\x06github\x0cgithubassets\x03com\x00";

#[test]
fn rewrites_matching_a_record() {
    let table = assets_table();
    let input = build_frame(0x0800, 17, 53, 1, 1, QNAME, &a_record([1, 1, 1, 1]), 0);
    let mut p = input.clone();
    let disposition = github_hosts(&mut p, &table);
    assert_eq!(disposition, XDP_PASS);
    assert_eq!(p.len(), input.len());
    // the answer's 4 data bytes are at the end of the frame
    let w = input.len() - 4;
    assert_eq!(&p[w..], &[185, 199, 108, 154]);
    // and nothing else moved
    for i in 0..w {
        assert_eq!(p[i], input[i], "byte {} changed", i);
    }
}

#[test]
fn rewrite_clears_nonzero_checksum() {
    let table = assets_table();
    let input = build_frame(0x0800, 17, 53, 1, 1, QNAME, &a_record([1, 1, 1, 1]), 0xbeef);
    let mut p = input.clone();
    github_hosts(&mut p, &table);
    assert_eq!(&p[40..42], &[0, 0]);
    let w = input.len() - 4;
    assert_eq!(&p[w..], &[185, 199, 108, 154]);
    for i in 0..input.len() {
        if i == 40 || i == 41 || i >= w {
            continue;
        }
        assert_eq!(p[i], input[i], "byte {} changed", i);
    }
}

#[test]
fn unmatched_question_passes_unmodified() {
    let table = assets_table();
    let input = build_frame(
        0x0800,
        17,
        53,
        1,
        1,
        b"\x07example\x03com\x00",
        &a_record([1, 1, 1, 1]),
        0xbeef,
    );
    let mut p = input.clone();
    let disposition = github_hosts(&mut p, &table);
    assert_eq!(disposition, XDP_PASS);
    assert_eq!(p, input);
}

#[test]
fn zero_answer_count_passes_unmodified() {
    let table = assets_table();
    let input = build_frame(0x0800, 17, 53, 1, 0, QNAME, &[], 0xbeef);
    let mut p = input.clone();
    assert_eq!(github_hosts(&mut p, &table), XDP_PASS);
    assert_eq!(p, input);
}

#[test]
fn cname_only_answer_passes_unmodified() {
    let table = assets_table();
    let input = build_frame(
        0x0800,
        17,
        53,
        1,
        1,
        QNAME,
        &cname_record(b"\x05other\x03com\x00"),
        0xbeef,
    );
    let mut p = input.clone();
    assert_eq!(github_hosts(&mut p, &table), XDP_PASS);
    assert_eq!(p, input);
}

#[test]
fn cname_then_a_record_rewrites_the_a() {
    let table = assets_table();
    let mut answers = cname_record(b"\x05other\x03com\x00");
    answers.extend(&a_record([9, 9, 9, 9]));
    let input = build_frame(0x0800, 17, 53, 1, 2, QNAME, &answers, 0);
    let mut p = input.clone();
    assert_eq!(github_hosts(&mut p, &table), XDP_PASS);
    let w = input.len() - 4;
    assert_eq!(&p[w..], &[185, 199, 108, 154]);
    for i in 0..w {
        assert_eq!(p[i], input[i]);
    }
}

#[test]
fn non_ipv4_passes_unmodified() {
    let table = assets_table();
    let input = build_frame(0x86dd, 17, 53, 1, 1, QNAME, &a_record([1, 1, 1, 1]), 0xbeef);
    let mut p = input.clone();
    assert_eq!(github_hosts(&mut p, &table), XDP_PASS);
    assert_eq!(p, input);
}

#[test]
fn non_udp_passes_unmodified() {
    let table = assets_table();
    let input = build_frame(0x0800, 6, 53, 1, 1, QNAME, &a_record([1, 1, 1, 1]), 0xbeef);
    let mut p = input.clone();
    assert_eq!(github_hosts(&mut p, &table), XDP_PASS);
    assert_eq!(p, input);
}

#[test]
fn wrong_source_port_passes_unmodified() {
    let table = assets_table();
    let input = build_frame(0x0800, 17, 54, 1, 1, QNAME, &a_record([1, 1, 1, 1]), 0xbeef);
    let mut p = input.clone();
    assert_eq!(github_hosts(&mut p, &table), XDP_PASS);
    assert_eq!(p, input);
}

#[test]
fn two_questions_pass_unmodified() {
    let table = assets_table();
    let input = build_frame(0x0800, 17, 53, 2, 1, QNAME, &a_record([1, 1, 1, 1]), 0xbeef);
    let mut p = input.clone();
    assert_eq!(github_hosts(&mut p, &table), XDP_PASS);
    assert_eq!(p, input);
}

#[test]
fn truncated_frame_passes_unmodified() {
    let table = assets_table();
    let full = build_frame(0x0800, 17, 53, 1, 1, QNAME, &a_record([1, 1, 1, 1]), 0xbeef);
    for cut in [0, 10, 14, 33, 41, 53, 54, 60, full.len() - 1] {
        let input: Vec<u8> = full[..cut].to_vec();
        let mut p = input.clone();
        assert_eq!(github_hosts(&mut p, &table), XDP_PASS);
        assert_eq!(p, input, "cut at {}", cut);
    }
}

#[test]
fn rewrite_twice_is_a_no_op() {
    let table = assets_table();
    let input = build_frame(0x0800, 17, 53, 1, 1, QNAME, &a_record([1, 1, 1, 1]), 0xbeef);
    let mut once = input.clone();
    github_hosts(&mut once, &table);
    let mut twice = once.clone();
    assert_eq!(github_hosts(&mut twice, &table), XDP_PASS);
    assert_eq!(twice, once);
}

#[test]
fn try_variant_reports_pass() {
    let table = assets_table();
    let mut p = build_frame(0x0800, 17, 53, 1, 1, QNAME, &a_record([1, 1, 1, 1]), 0);
    assert_eq!(try_github_hosts(&mut p, &table), Ok(XDP_PASS));
}

#[test]
fn name_at_copy_bound_is_matched_whole() {
    // four labels of 63, 63, 63 and 61 bytes encode to exactly 255 bytes
    let host = format!(
        "{}.{}.{}.{}",
        "a".repeat(63),
        "b".repeat(63),
        "c".repeat(63),
        "d".repeat(61)
    );
    let (key, val) = gen(&host, "10.11.12.13").unwrap();
    let mut table = HostTable::new();
    table.insert(key, val).unwrap();
    let mut wire = Vec::new();
    for part in host.split('.') {
        wire.push(part.len() as u8);
        wire.extend(part.as_bytes());
    }
    wire.push(0);
    assert_eq!(wire.len(), 255);
    let input = build_frame(0x0800, 17, 53, 1, 1, &wire, &a_record([1, 1, 1, 1]), 0);
    let mut p = input.clone();
    assert_eq!(github_hosts(&mut p, &table), XDP_PASS);
    let w = input.len() - 4;
    assert_eq!(&p[w..], &[10, 11, 12, 13]);
}

#[test]
fn name_past_copy_bound_is_cut_at_255() {
    // four labels of 63 bytes encode to 257 bytes: the key keeps only 255
    let mut wire = Vec::new();
    for part in ["a", "b", "c", "d"] {
        wire.push(63u8);
        wire.extend(part.repeat(63).as_bytes());
    }
    wire.push(0);
    assert_eq!(wire.len(), 257);
    let key = to_256(&wire[..255]);
    let mut table = HostTable::new();
    table.insert(key, [7, 7, 7, 7]).unwrap();
    let input = build_frame(0x0800, 17, 53, 1, 1, &wire, &a_record([1, 1, 1, 1]), 0);
    let mut p = input.clone();
    assert_eq!(github_hosts(&mut p, &table), XDP_PASS);
    let w = input.len() - 4;
    assert_eq!(&p[w..], &[7, 7, 7, 7]);
}

#[test]
fn oversized_record_data_passes_unmodified() {
    let table = assets_table();
    let mut answers = vec![0xc0, 0x0c]; // name pointer
    answers.extend(&[0, 16, 0, 1]); // type TXT, class IN
    answers.extend(&[0, 0, 0, 60]); // TTL
    answers.extend(&300u16.to_be_bytes()); // data length over the 255 bound
    answers.extend(vec![0u8; 300]);
    answers.extend(&a_record([1, 1, 1, 1]));
    let input = build_frame(0x0800, 17, 53, 1, 2, QNAME, &answers, 0xbeef);
    let mut p = input.clone();
    assert_eq!(github_hosts(&mut p, &table), XDP_PASS);
    assert_eq!(p, input);
}

#[test]
fn a_record_past_scan_bound_passes_unmodified() {
    let table = assets_table();
    let mut answers = Vec::new();
    for _ in 0..20 {
        answers.extend(&cname_record(b"\x05other\x03com\x00"));
    }
    answers.extend(&a_record([1, 1, 1, 1])); // the 21st record
    let input = build_frame(0x0800, 17, 53, 1, 21, QNAME, &answers, 0xbeef);
    let mut p = input.clone();
    assert_eq!(github_hosts(&mut p, &table), XDP_PASS);
    assert_eq!(p, input);
}

#[test]
fn a_record_at_scan_bound_is_rewritten() {
    let table = assets_table();
    let mut answers = Vec::new();
    for _ in 0..19 {
        answers.extend(&cname_record(b"\x05other\x03com\x00"));
    }
    answers.extend(&a_record([1, 1, 1, 1])); // the 20th record
    let input = build_frame(0x0800, 17, 53, 1, 20, QNAME, &answers, 0);
    let mut p = input.clone();
    assert_eq!(github_hosts(&mut p, &table), XDP_PASS);
    let w = input.len() - 4;
    assert_eq!(&p[w..], &[185, 199, 108, 154]);
}

#[test]
fn compressed_question_name_misses_the_table() {
    // a question name that is itself a pointer makes a 2-byte key, which the
    // table of full names does not hold
    let table = assets_table();
    let input = build_frame(
        0x0800,
        17,
        53,
        1,
        1,
        &[0xc0, 0x0c],
        &a_record([1, 1, 1, 1]),
        0xbeef,
    );
    let mut p = input.clone();
    assert_eq!(github_hosts(&mut p, &table), XDP_PASS);
    assert_eq!(p, input);
}

#[test]
fn empty_table_passes_everything_unmodified() {
    let table = HostTable::new();
    let input = build_frame(0x0800, 17, 53, 1, 1, QNAME, &a_record([1, 1, 1, 1]), 0xbeef);
    let mut p = input.clone();
    assert_eq!(github_hosts(&mut p, &table), XDP_PASS);
    assert_eq!(p, input);
}

#[test]
fn table_insert_get_update() {
    let mut t = HostTable::new();
    assert_eq!(t.len(), 0);
    let (k1, v1) = gen("one.test", "1.1.1.1").unwrap();
    let (k2, v2) = gen("two.test", "2.2.2.2").unwrap();
    t.insert(k1, v1).unwrap();
    t.insert(k2, v2).unwrap();
    assert_eq!(t.len(), 2);
    assert_eq!(t.get(&k1), Some([1, 1, 1, 1]));
    assert_eq!(t.get(&k2), Some([2, 2, 2, 2]));
    let (k3, _) = gen("three.test", "3.3.3.3").unwrap();
    assert_eq!(t.get(&k3), None);
    t.insert(k1, [4, 4, 4, 4]).unwrap();
    assert_eq!(t.len(), 2);
    assert_eq!(t.get(&k1), Some([4, 4, 4, 4]));
}

#[test]
fn table_padding_matters() {
    // keys differing only past the closing zero byte are distinct
    let mut t = HostTable::new();
    let (k, v) = gen("pad.test", "5.5.5.5").unwrap();
    let mut other = k;
    other[255] = 1;
    t.insert(k, v).unwrap();
    assert_eq!(t.get(&other), None);
}

#[test]
fn table_capacity_is_256() {
    let mut t = HostTable::new();
    for i in 0..256u32 {
        let host = format!("h{}.test", i);
        let (k, _) = gen(&host, "1.2.3.4").unwrap();
        t.insert(k, [0, 0, 0, (i % 256) as u8]).unwrap();
    }
    assert_eq!(t.len(), 256);
    let (k, v) = gen("overflow.test", "6.6.6.6").unwrap();
    assert_eq!(t.insert(k, v), Err(()));
    // updating an existing key still succeeds at capacity
    let (k0, _) = gen("h0.test", "1.2.3.4").unwrap();
    assert_eq!(t.insert(k0, [9, 9, 9, 9]), Ok(()));
    assert_eq!(t.get(&k0), Some([9, 9, 9, 9]));
}

#[test]
fn accessor_bounds() {
    let mut p = vec![1u8, 2, 3];
    assert_eq!(read_u8(&p, 0), Some(1));
    assert_eq!(read_u8(&p, 2), Some(3));
    assert_eq!(read_u8(&p, 3), None);
    assert_eq!(read_u16_be(&p, 0), Some(0x0102));
    assert_eq!(read_u16_be(&p, 1), Some(0x0203));
    assert_eq!(read_u16_be(&p, 2), None);
    assert!(write_u8(&mut p, 1, 9));
    assert_eq!(p, vec![1, 9, 3]);
    assert!(!write_u8(&mut p, 3, 9));
    assert_eq!(p, vec![1, 9, 3]);
}

#[test]
fn dns_header_fields() {
    let frame = build_frame(0x0800, 17, 53, 1, 2, QNAME, &[], 0);
    let h = parse_dns_header(&frame, 42).unwrap();
    assert_eq!(h.trans_id, 0xabcd);
    assert_eq!(h.flags, 0x8180);
    assert_eq!(u16::from_be_bytes(h.qcount), 1);
    assert_eq!(u16::from_be_bytes(h.acount), 2);
    assert_eq!(u16::from_be_bytes(h.nscount), 0);
    assert_eq!(u16::from_be_bytes(h.arcount), 0);
    assert!(parse_dns_header(&frame[..50].to_vec(), 42).is_none());
}
