use libdns::catalog::Catalog;
use libdns::config::{GeneralConfig, Record, RecordType};
use libdns::message::{decode_query, MAX_UDP_PAYLOAD};
use libdns::name::Name;
use libdns::record::ResourceRecord;
use libdns::server::{RunConfig, Server};
use libdns::zone::{Answer, Authority, ConfigError};

fn query_bytes(id: u16, name: &str, qtype: u16) -> Vec<u8> {
    let mut b = vec![(id >> 8) as u8, id as u8, 0x01, 0x00, 0, 1, 0, 0, 0, 0, 0, 0];
    for label in name.split('.') {
        b.push(label.len() as u8);
        b.extend_from_slice(label.as_bytes());
    }
    b.push(0);
    b.extend_from_slice(&qtype.to_be_bytes());
    b.extend_from_slice(&1u16.to_be_bytes());
    b
}

fn rcode(resp: &[u8]) -> u8 {
    resp[3] & 0x0f
}

fn ancount(resp: &[u8]) -> u16 {
    u16::from_be_bytes([resp[6], resp[7]])
}

fn a_record(name: &str, addr: &str, ttl: u64) -> Record {
    Record::new(RecordType::A, name.to_string(), addr.to_string(), ttl)
}

fn server_with(zones: Vec<(&str, Vec<Record>)>) -> Server {
    let zones = zones.into_iter().map(|(z, r)| (z.to_string(), r)).collect();
    Server::new(&RunConfig::new(GeneralConfig::new(None, None), zones)).unwrap()
}

#[test]
fn dns_it_works() {
    let server = Server::new(&RunConfig::new(GeneralConfig::new(None, None), vec![]));
    assert!(server.is_ok());
    assert_eq!(server.unwrap().read_catalog().len(), 0);
}

#[test]
fn can_resolve_records() {
    let configured_record = a_record("www.et.internal", "123.123.123.123", 60);
    let server = Server::new(&RunConfig::new(
        GeneralConfig::new(None, Some("127.0.0.1:0".to_string())),
        vec![("et.internal".to_string(), vec![configured_record.clone()])],
    ))
    .unwrap();
    let resp = server.lookup(&query_bytes(7, "www.et.internal", 1));
    assert_eq!(ancount(&resp), 1);
    let expected: ResourceRecord = configured_record.to_resource_record(&Name::parse("et.internal").unwrap()).unwrap();
    // The answer follows the echoed question.
    let qlen = 17 + 4;
    let ans = &resp[12 + qlen..];
    let mut want = vec![3u8];
    want.extend_from_slice(b"www");
    want.push(2);
    want.extend_from_slice(b"et");
    want.push(8);
    want.extend_from_slice(b"internal");
    want.push(0);
    want.extend_from_slice(&[0, 1, 0, 1, 0, 0, 0, 60, 0, 4]);
    want.extend_from_slice(&expected.rdata);
    assert_eq!(ans, &want[..]);
}

#[test]
fn scenario_single_zone() {
    let server = server_with(vec![("et.internal", vec![a_record("www.et.internal", "123.123.123.123", 60)])]);
    let resp = server.lookup(&query_bytes(1, "www.et.internal", 1));
    assert_eq!(rcode(&resp), 0);
    assert_eq!(ancount(&resp), 1);
    assert_eq!(&resp[resp.len() - 4..], &[123, 123, 123, 123]);
    assert_eq!(&resp[resp.len() - 10..resp.len() - 6], &[0, 0, 0, 60]);

    let missing = server.lookup(&query_bytes(2, "missing.et.internal", 1));
    assert_eq!(rcode(&missing), 3);
    assert_eq!(ancount(&missing), 0);

    let mx = server.lookup(&query_bytes(3, "www.et.internal", 15));
    assert_eq!(rcode(&mx), 0);
    assert_eq!(ancount(&mx), 0);
}

#[test]
fn scenario_two_zones() {
    let server = server_with(vec![
        ("et.internal", vec![a_record("www.et.internal", "123.123.123.123", 60)]),
        ("et.top", vec![a_record("et.top", "100.100.100.100", 61)]),
    ]);
    let cat = server.read_catalog();
    assert_eq!(cat.find_authority(&Name::parse("a.b.et.top").unwrap()), Some(1));
    assert_eq!(cat.find_authority(&Name::parse("et.top").unwrap()), Some(1));
    assert_eq!(cat.find_authority(&Name::parse("www.et.internal").unwrap()), Some(0));
    let resp = server.lookup(&query_bytes(4, "et.top", 1));
    assert_eq!(ancount(&resp), 1);
    assert_eq!(&resp[resp.len() - 4..], &[100, 100, 100, 100]);
    let other = server.lookup(&query_bytes(5, "www.et.top", 1));
    assert_eq!(rcode(&other), 3);
}

#[test]
fn uncovered_name_is_refused() {
    let server = server_with(vec![("et.internal", vec![a_record("www.et.internal", "1.2.3.4", 60)])]);
    assert!(server.read_catalog().find_authority(&Name::parse("example.com").unwrap()).is_none());
    let resp = server.lookup(&query_bytes(9, "example.com", 1));
    assert_eq!(rcode(&resp), 5);
    assert_eq!(ancount(&resp), 0);
    assert_eq!(resp[2] & 0x04, 0);
}

#[test]
fn most_specific_zone_wins() {
    let server = server_with(vec![
        ("internal", vec![a_record("www.et.internal", "1.1.1.1", 60)]),
        ("et.internal", vec![a_record("www.et.internal", "2.2.2.2", 60)]),
    ]);
    let cat = server.read_catalog();
    assert_eq!(cat.find_authority(&Name::parse("www.et.internal").unwrap()), Some(1));
    assert_eq!(cat.find_authority(&Name::parse("x.internal").unwrap()), Some(0));
    let resp = server.lookup(&query_bytes(1, "www.et.internal", 1));
    assert_eq!(&resp[resp.len() - 4..], &[2, 2, 2, 2]);
}

#[test]
fn lookup_ignores_case() {
    let server = server_with(vec![("et.internal", vec![a_record("WWW.et.internal", "1.2.3.4", 60)])]);
    let resp = server.lookup(&query_bytes(1, "www.ET.internal", 1));
    assert_eq!(rcode(&resp), 0);
    assert_eq!(ancount(&resp), 1);
}

#[test]
fn empty_non_terminal_is_no_data() {
    let server = server_with(vec![("et.internal", vec![a_record("a.b.et.internal", "1.2.3.4", 60)])]);
    let resp = server.lookup(&query_bytes(1, "b.et.internal", 1));
    assert_eq!(rcode(&resp), 0);
    assert_eq!(ancount(&resp), 0);
}

#[test]
fn response_round_trip_keeps_id_and_question() {
    let server = server_with(vec![("et.internal", vec![a_record("www.et.internal", "1.2.3.4", 60)])]);
    let resp = server.lookup(&query_bytes(0xbeef, "www.et.internal", 1));
    let q = decode_query(&resp).unwrap();
    assert_eq!(q.id, 0xbeef);
    assert!(q.name.equals(&Name::parse("www.et.internal").unwrap()));
    assert_eq!(q.qtype, 1);
    assert_eq!(q.qclass, 1);
    assert_eq!(q.flags & 0x8000, 0x8000);
}

#[test]
fn malformed_query_gets_format_error() {
    let server = server_with(vec![]);
    let resp = server.lookup(&[0x12, 0x34, 0x01]);
    assert_eq!(resp, vec![0x12, 0x34, 0x80, 0x01, 0, 0, 0, 0, 0, 0, 0, 0]);
    let empty = server.lookup(&[]);
    assert_eq!(empty, vec![0, 0, 0x80, 0x01, 0, 0, 0, 0, 0, 0, 0, 0]);
    let mut truncated = query_bytes(1, "www.et.internal", 1);
    truncated.truncate(truncated.len() - 2);
    assert_eq!(rcode(&server.lookup(&truncated)), 1);
    assert!(decode_query(&truncated).is_err());
}

#[test]
fn oversized_answer_is_truncated() {
    let records: Vec<Record> = (0..40).map(|i| a_record("www.et.internal", &format!("10.0.0.{}", i), 60)).collect();
    let server = server_with(vec![("et.internal", records)]);
    let resp = server.lookup(&query_bytes(1, "www.et.internal", 1));
    assert!(resp.len() <= MAX_UDP_PAYLOAD);
    assert_eq!(resp[2] & 0x02, 0x02);
    // 12 header bytes, 21 question bytes, 31 bytes per answer.
    assert_eq!(ancount(&resp), 15);
    assert_eq!(resp.len(), 12 + 21 + 15 * 31);
}

#[test]
fn identical_records_are_merged() {
    let server = server_with(vec![(
        "et.internal",
        vec![
            a_record("www.et.internal", "1.2.3.4", 60),
            a_record("www.et.internal", "1.2.3.4", 90),
            a_record("www.et.internal", "5.6.7.8", 60),
        ],
    )]);
    let resp = server.lookup(&query_bytes(1, "www.et.internal", 1));
    assert_eq!(ancount(&resp), 2);
    assert_eq!(&resp[33 + 21..33 + 25], &[0, 0, 0, 90]);
}

#[test]
fn duplicate_zone_is_refused() {
    let config = RunConfig::new(
        GeneralConfig::new(None, None),
        vec![("et.internal".to_string(), vec![]), ("ET.internal".to_string(), vec![])],
    );
    assert_eq!(Server::new(&config).unwrap_err(), ConfigError::DuplicateZone);
}

#[test]
fn record_outside_zone_is_refused() {
    let config = RunConfig::new(
        GeneralConfig::new(None, None),
        vec![(
            "et.internal".to_string(),
            vec![a_record("www.et.internal", "1.2.3.4", 60), a_record("www.et.top.", "1.2.3.4", 60)],
        )],
    );
    assert_eq!(Server::new(&config).unwrap_err(), ConfigError::OutsideZone(1));
}

#[test]
fn zone_answer_outcomes() {
    let mut z = Authority::new(&Name::parse("et.internal").unwrap()).unwrap();
    let rec = a_record("www.et.internal", "1.2.3.4", 60).to_resource_record(&Name::parse("et.internal").unwrap()).unwrap();
    assert!(z.load(vec![rec]).is_ok());
    assert_eq!(z.len(), 1);
    match z.answer(&Name::parse("www.et.internal").unwrap(), 1, 1) {
        Answer::Answered(v) => assert_eq!(v.len(), 1),
        _ => panic!("expected an answer"),
    }
    assert!(matches!(z.answer(&Name::parse("www.et.internal").unwrap(), 28, 1), Answer::NoData));
    assert!(matches!(z.answer(&Name::parse("nope.et.internal").unwrap(), 1, 1), Answer::NameError));
}

#[test]
fn catalog_upsert_contains_remove() {
    let mut cat = Catalog::new();
    let apex = Name::parse("et.internal").unwrap();
    assert!(cat.register(Authority::new(&apex).unwrap()).is_ok());
    assert_eq!(cat.register(Authority::new(&apex).unwrap()), Err(ConfigError::DuplicateZone));
    cat.upsert(Authority::new(&apex).unwrap());
    assert_eq!(cat.len(), 1);
    assert!(cat.contains(&Name::parse("ET.INTERNAL").unwrap()));
    assert!(cat.remove(&apex).is_some());
    assert!(!cat.contains(&apex));
    assert!(cat.remove(&apex).is_none());
}

#[test]
fn invalid_zone_apex_is_refused() {
    let config = RunConfig::new(
        GeneralConfig::new(None, None),
        vec![(format!("{}.internal", "z".repeat(64)), vec![])],
    );
    assert_eq!(Server::new(&config).unwrap_err(), ConfigError::InvalidName);
}

#[test]
fn invalid_address_is_refused_at_load() {
    let config = RunConfig::new(
        GeneralConfig::new(None, None),
        vec![("et.internal".to_string(), vec![a_record("www.et.internal", "999.1.1.1", 60)])],
    );
    assert_eq!(Server::new(&config).unwrap_err(), ConfigError::InvalidValue);
}

#[test]
fn server_contains_and_remove() {
    let mut server = server_with(vec![("et.internal", vec![])]);
    let apex = Name::parse("ET.internal").unwrap();
    assert!(server.contains(&apex));
    assert!(server.remove(&apex).is_some());
    assert!(!server.contains(&apex));
    let resp = server.lookup(&query_bytes(1, "www.et.internal", 1));
    assert_eq!(rcode(&resp), 5);
    server.upsert(Authority::new(&apex).unwrap());
    assert!(server.contains(&apex));
    let resp = server.lookup(&query_bytes(1, "www.et.internal", 1));
    assert_eq!(rcode(&resp), 3);
}

#[test]
fn sample_config_with_relative_names_loads() {
    let server = server_with(vec![
        ("et.internal", vec![a_record("www", "123.123.123.123", 60)]),
        ("et.top", vec![a_record("@", "100.100.100.100", 61)]),
    ]);
    let resp = server.lookup(&query_bytes(1, "www.et.internal", 1));
    assert_eq!(ancount(&resp), 1);
    assert_eq!(&resp[resp.len() - 4..], &[123, 123, 123, 123]);
    let top = server.lookup(&query_bytes(2, "et.top", 1));
    assert_eq!(ancount(&top), 1);
    assert_eq!(&top[top.len() - 10..top.len() - 6], &[0, 0, 0, 61]);
}

#[test]
fn absolute_name_outside_zone_is_refused() {
    let config = RunConfig::new(
        GeneralConfig::new(None, None),
        vec![("et.internal".to_string(), vec![a_record("www.example.com.", "1.2.3.4", 60)])],
    );
    assert_eq!(Server::new(&config).unwrap_err(), ConfigError::OutsideZone(0));
}

#[test]
fn non_address_records_are_not_loaded() {
    let mut z = Authority::new(&Name::parse("et.internal").unwrap()).unwrap();
    let mut rec = a_record("www.et.internal", "1.2.3.4", 60).to_resource_record(&Name::parse("et.internal").unwrap()).unwrap();
    rec.rtype = 5;
    assert_eq!(z.load(vec![rec]).unwrap_err(), ConfigError::UnsupportedType);
    assert_eq!(z.len(), 0);
}

#[test]
fn unsupported_type_in_config_is_refused() {
    let config = RunConfig::new(
        GeneralConfig::new(None, None),
        vec![("et.internal".to_string(), vec![Record::new(RecordType::CNAME, "a".to_string(), "b.et.internal".to_string(), 60)])],
    );
    assert_eq!(Server::new(&config).unwrap_err(), ConfigError::UnsupportedType);
}

fn edns_query_bytes(id: u16, name: &str, qtype: u16, size: u16) -> Vec<u8> {
    let mut b = query_bytes(id, name, qtype);
    b[11] = 1;
    b.push(0);
    b.extend_from_slice(&41u16.to_be_bytes());
    b.extend_from_slice(&size.to_be_bytes());
    b.extend_from_slice(&[0, 0, 0, 0, 0, 0]);
    b
}

fn forty_records() -> Server {
    let records: Vec<Record> = (0..40).map(|i| a_record("www.et.internal", &format!("10.0.0.{}", i), 60)).collect();
    server_with(vec![("et.internal", records)])
}

#[test]
fn edns_size_allows_larger_response() {
    let server = forty_records();
    let resp = server.lookup(&edns_query_bytes(1, "www.et.internal", 1, 4096));
    assert_eq!(ancount(&resp), 40);
    assert_eq!(resp[2] & 0x02, 0);
    // One additional record: the OPT record at the end.
    assert_eq!(u16::from_be_bytes([resp[10], resp[11]]), 1);
    assert_eq!(&resp[resp.len() - 11..], &[0, 0, 41, 0x10, 0, 0, 0, 0, 0, 0, 0]);
    assert_eq!(resp.len(), 12 + 21 + 40 * 31 + 11);
}

#[test]
fn edns_size_still_truncates() {
    let server = forty_records();
    let resp = server.lookup(&edns_query_bytes(1, "www.et.internal", 1, 1232));
    assert!(resp.len() <= 1232);
    assert_eq!(resp[2] & 0x02, 0x02);
    // (1232 - 12 - 21 - 11) / 31 answers fit.
    assert_eq!(ancount(&resp), 38);
}

#[test]
fn edns_size_below_512_keeps_512() {
    let server = forty_records();
    let resp = server.lookup(&edns_query_bytes(1, "www.et.internal", 1, 100));
    assert!(resp.len() <= 512);
    assert_eq!(ancount(&resp), 15);
    let q = decode_query(&edns_query_bytes(7, "www.et.internal", 1, 100)).unwrap();
    assert_eq!(q.edns, Some(100));
    assert_eq!(decode_query(&query_bytes(7, "www.et.internal", 1)).unwrap().edns, None);
}
