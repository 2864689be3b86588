use bebasin::error::ParseError;
use bebasin::hosts::Hosts;
use bebasin::error::{push_decimal, GenericError, IoFault, ZipFault};
use bebasin::parser::{parse_hosts_from_str, HostsParser};
use bebasin::roundtrip::is_neutral_header;
use bebasin::syntax::{is_host_name, is_ip, is_ipv4, is_ipv6, read_line, Fault, Line};
use bebasin::writer::render_hosts;

fn names(hosts: &Hosts, ip: &[u8]) -> Vec<Vec<u8>> {
    let i = hosts.position(ip);
    assert!(i < hosts.len());
    hosts.names_at(i).clone()
}

#[test]
fn parses_a_single_statement() {
    let hosts = parse_hosts_from_str("127.0.0.1 localhost\n").unwrap();
    assert_eq!(hosts.len(), 1);
    assert_eq!(hosts.ip_at(0).as_slice(), b"127.0.0.1");
    assert_eq!(names(&hosts, b"127.0.0.1"), vec![b"localhost".to_vec()]);
}

#[test]
fn ignores_blank_lines_and_comments() {
    let text = "# a comment\n\n   \t\n127.0.0.1 localhost # trailing\n#0.0.0.0 off\n";
    let hosts = parse_hosts_from_str(text).unwrap();
    assert_eq!(hosts.len(), 1);
    assert!(hosts.contains(b"127.0.0.1", b"localhost"));
    assert!(!hosts.contains(b"127.0.0.1", b"trailing"));
    assert!(!hosts.contains(b"0.0.0.0", b"off"));
}

#[test]
fn accepts_tabs_carriage_returns_and_a_missing_last_line_feed() {
    let hosts = parse_hosts_from_str("10.0.0.1\thost-a\thost_b\r\n::1 ip6-localhost").unwrap();
    assert_eq!(hosts.len(), 2);
    assert_eq!(names(&hosts, b"10.0.0.1"), vec![b"host-a".to_vec(), b"host_b".to_vec()]);
    assert_eq!(names(&hosts, b"::1"), vec![b"ip6-localhost".to_vec()]);
}

#[test]
fn empty_text_gives_the_empty_set() {
    let hosts = parse_hosts_from_str("").unwrap();
    assert_eq!(hosts.len(), 0);
    assert_eq!(hosts, Hosts::new());
}

#[test]
fn later_statements_only_add_names() {
    let hosts = parse_hosts_from_str("1.2.3.4 a b\n5.6.7.8 x\n1.2.3.4 b c\n").unwrap();
    assert_eq!(hosts.len(), 2);
    assert_eq!(hosts.ip_at(0).as_slice(), b"1.2.3.4");
    assert_eq!(hosts.ip_at(1).as_slice(), b"5.6.7.8");
    assert_eq!(names(&hosts, b"1.2.3.4"), vec![b"a".to_vec(), b"b".to_vec(), b"c".to_vec()]);
}

#[test]
fn duplicate_names_in_one_statement_collapse() {
    let hosts = parse_hosts_from_str("1.2.3.4 a a b a\n").unwrap();
    assert_eq!(names(&hosts, b"1.2.3.4"), vec![b"a".to_vec(), b"b".to_vec()]);
}

#[test]
fn statement_order_does_not_change_the_names_of_an_address() {
    let ab = parse_hosts_from_str("9.9.9.9 a b\n9.9.9.9 c d\n").unwrap();
    let ba = parse_hosts_from_str("9.9.9.9 c d\n9.9.9.9 a b\n").unwrap();
    assert_eq!(ab.len(), 1);
    assert_eq!(ba.len(), 1);
    for name in [&b"a"[..], b"b", b"c", b"d"] {
        assert!(ab.contains(b"9.9.9.9", name));
        assert!(ba.contains(b"9.9.9.9", name));
    }
    assert_eq!(names(&ab, b"9.9.9.9").len(), 4);
    assert_eq!(names(&ba, b"9.9.9.9").len(), 4);
}

#[test]
fn a_malformed_line_fails_the_whole_text() {
    let r = parse_hosts_from_str("1.2.3.4 a b\nnot-an-ip x\n");
    assert_eq!(r, Err(ParseError { line: 2, token: 0, fault: Fault::InvalidAddress }));
}

#[test]
fn the_first_malformed_line_is_reported() {
    let r = HostsParser::parse(b"# fine\n1.2.3.4\n1.2.3.4 ok bad! \nzzz\n");
    assert_eq!(r, Err(ParseError { line: 2, token: 1, fault: Fault::MissingHostName }));
    let r = HostsParser::parse(b"1.2.3.4 ok bad! more\n");
    assert_eq!(r, Err(ParseError { line: 1, token: 2, fault: Fault::InvalidHostName }));
}

#[test]
fn reads_single_lines() {
    assert_eq!(read_line(b""), Line::Blank);
    assert_eq!(read_line(b"  # only a comment"), Line::Blank);
    assert_eq!(
        read_line(b" 1.1.1.1  one.example   two "),
        Line::Statement {
            ip: b"1.1.1.1".to_vec(),
            names: vec![b"one.example".to_vec(), b"two".to_vec()],
        }
    );
    assert_eq!(
        read_line(b"1.1.1 one"),
        Line::Malformed { token: 0, fault: Fault::InvalidAddress }
    );
}

#[test]
fn ip_syntax() {
    assert!(is_ipv4(b"0.0.0.0"));
    assert!(is_ipv4(b"255.255.255.255"));
    assert!(is_ipv4(b"999.1.1.1"));
    assert!(!is_ipv4(b"1.2.3"));
    assert!(!is_ipv4(b"1.2.3.4.5"));
    assert!(!is_ipv4(b"1..3.4"));
    assert!(!is_ipv4(b"1234.1.1.1"));
    assert!(!is_ipv4(b"a.b.c.d"));
    assert!(is_ipv6(b"::1"));
    assert!(is_ipv6(b"fe80::1%lo0"));
    assert!(is_ipv6(b"ff02::2"));
    assert!(is_ipv6(b"2001:db8:0:0:0:0:0:1"));
    assert!(is_ipv6(b"::ffff:192.168.0.1"));
    assert!(!is_ipv6(b":1"));
    assert!(!is_ipv6(b"12345::1"));
    assert!(!is_ipv6(b"g::1"));
    assert!(!is_ipv6(b"::1%"));
    assert!(!is_ipv6(b"1:2:3:4:5:6:7:8:9:a"));
    assert!(is_ip(b"127.0.0.1"));
    assert!(is_ip(b"::1"));
    assert!(!is_ip(b"not-an-ip"));
    assert!(!is_ip(b""));
}

#[test]
fn host_name_syntax() {
    assert!(is_host_name(b"localhost"));
    assert!(is_host_name(b"ads.example.com"));
    assert!(is_host_name(b"a_b-c.D9"));
    assert!(!is_host_name(b""));
    assert!(!is_host_name(b"bad!"));
    assert!(!is_host_name("h\u{e9}te".as_bytes()));
}

#[test]
fn renders_header_and_one_line_per_address() {
    let hosts = parse_hosts_from_str("1.2.3.4 a b\n5.6.7.8 x\n1.2.3.4 c\n").unwrap();
    let text = render_hosts(&hosts, b"# head\n");
    assert_eq!(text, b"# head\n1.2.3.4 a b c\n5.6.7.8 x\n".to_vec());
    assert_eq!(render_hosts(&Hosts::new(), b"# head\n"), b"# head\n".to_vec());
    assert_eq!(render_hosts(&hosts, b""), b"1.2.3.4 a b c\n5.6.7.8 x\n".to_vec());
}

#[test]
fn what_was_written_reads_back() {
    let hosts = parse_hosts_from_str(
        "127.0.0.1 localhost\n::1 localhost ip6-localhost\n0.0.0.0 ads.example.com t.example.com\n",
    )
    .unwrap();
    let text = render_hosts(&hosts, b"# generated\n#\n\n");
    let again = HostsParser::parse(&text).unwrap();
    assert_eq!(again, hosts);
    assert_eq!(render_hosts(&again, b"# generated\n#\n\n"), text);
}

#[test]
fn append_merges_by_address() {
    let mut block = parse_hosts_from_str("0.0.0.0 ads.example.com\n127.0.0.1 lo\n").unwrap();
    let user = parse_hosts_from_str("127.0.0.1 localhost lo\n10.0.0.1 nas\n").unwrap();
    block.append(&user);
    assert_eq!(
        render_hosts(&block, b""),
        b"0.0.0.0 ads.example.com\n127.0.0.1 lo localhost\n10.0.0.1 nas\n".to_vec()
    );
}

#[test]
fn add_records_names() {
    let mut hosts = Hosts::new();
    hosts.add(b"1.1.1.1", &vec![b"one".to_vec()]);
    hosts.add(b"1.1.1.1", &vec![b"one".to_vec(), b"uno".to_vec()]);
    assert_eq!(hosts.len(), 1);
    assert_eq!(hosts.position(b"1.1.1.1"), 0);
    assert_eq!(hosts.position(b"2.2.2.2"), 1);
    assert_eq!(names(&hosts, b"1.1.1.1"), vec![b"one".to_vec(), b"uno".to_vec()]);
}

#[test]
fn neutral_headers() {
    assert!(is_neutral_header(b""));
    assert!(is_neutral_header(b"# one\n"));
    assert!(is_neutral_header(b"# one\n\n  # two\n \t\n"));
    assert!(!is_neutral_header(b"# no line feed"));
    assert!(!is_neutral_header(b"127.0.0.1 localhost\n"));
    assert!(!is_neutral_header(b"# one\nbroken\n"));
}

#[test]
fn numbers_in_decimal() {
    for n in [0usize, 7, 10, 99, 100, 1234, 4294967295] {
        let mut out = String::from("n=");
        push_decimal(&mut out, n);
        assert_eq!(out, format!("n={}", n));
    }
}

#[test]
fn error_messages() {
    let e = ParseError { line: 12, token: 3, fault: Fault::InvalidHostName };
    assert_eq!(e.to_string(), "line 12, word 3: invalid host name");
    assert_eq!(
        GenericError::ParseError(ParseError { line: 2, token: 0, fault: Fault::InvalidAddress })
            .to_string(),
        "ParseError: line 2, word 0: invalid address"
    );
    assert_eq!(
        GenericError::ParseError(ParseError { line: 1, token: 1, fault: Fault::MissingHostName })
            .to_string(),
        "ParseError: line 1, word 1: missing host name"
    );
    assert_eq!(GenericError::IOError(IoFault::NotFound).to_string(), "IOError: file not found");
    assert_eq!(
        GenericError::IOError(IoFault::InvalidData).to_string(),
        "IOError: file is not valid UTF-8"
    );
    assert_eq!(
        GenericError::IOError(IoFault::Other("denied".to_string())).to_string(),
        "IOError: denied"
    );
    assert_eq!(
        GenericError::ZipError(ZipFault::FileNotFound).to_string(),
        "ZipError: specified file not found in archive"
    );
    assert_eq!(GenericError::ZipError(ZipFault::Io).to_string(), "ZipError: entry cannot be read");
    assert_eq!(GenericError::NixError("EPERM".to_string()).to_string(), "NixError: EPERM");
    assert_eq!(GenericError::NetworkError("down".to_string()).to_string(), "NetworkError: down");
    assert_eq!(GenericError::JsonError("eof".to_string()).to_string(), "JsonError: eof");
    assert_eq!(GenericError::IntegrityError.to_string(), "IntegrityError: download corrupt");
    assert_eq!(GenericError::Other("x".to_string()).to_string(), "OtherError: x");
    assert_eq!(GenericError::NoAsset.to_string(), "OtherError: no artifact for this platform");
    assert_eq!(GenericError::UnexpectedEvent.to_string(), "OtherError: unexpected event");
}
