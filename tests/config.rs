use libdns::config::{parse_ipv4, GeneralConfig, Record, RecordType};
use libdns::name::Name;
use libdns::record::{CLASS_IN, TYPE_A};
use libdns::server::RunConfig;
use libdns::zone::ConfigError;

fn sample_config() -> RunConfig {
    RunConfig::new(
        GeneralConfig::new(
            Some("127.0.0.1:5300".to_string()),
            Some("127.0.0.1:5353".to_string()),
        ),
        vec![
            (
                "et.internal".to_string(),
                vec![Record::new(
                    RecordType::A,
                    "www".to_string(),
                    "123.123.123.123".to_string(),
                    60,
                )],
            ),
            (
                "et.top".to_string(),
                vec![Record::new(
                    RecordType::A,
                    "@".to_string(),
                    "100.100.100.100".to_string(),
                    61,
                )],
            ),
        ],
    )
}

#[test]
fn config_it_works() {
    let config = sample_config();
    assert_eq!(
        config.general().listen_tcp().clone().unwrap(),
        "127.0.0.1:5300"
    );
    assert_eq!(
        config.general().listen_udp().clone().unwrap(),
        "127.0.0.1:5353"
    );
    assert_eq!(config.zones().len(), 2);

    let (domain, records) = config
        .zones()
        .iter()
        .find(|(d, _)| d == "et.internal")
        .expect("parse error");
    assert_eq!(domain, "et.internal");
    assert_eq!(records.len(), 1);
    let record = &records[0];
    assert_eq!(record.rr_type(), RecordType::A);
    assert_eq!(record.name(), "www");
    assert_eq!(record.value(), "123.123.123.123");
    assert_eq!(record.ttl_secs(), 60);

    let (domain, records) = config
        .zones()
        .iter()
        .find(|(d, _)| d == "et.top")
        .expect("parse error");
    assert_eq!(domain, "et.top");
    assert_eq!(records.len(), 1);
    let record = &records[0];
    assert_eq!(record.rr_type(), RecordType::A);
    assert_eq!(record.name(), "@");
    assert_eq!(record.value(), "100.100.100.100");
    assert_eq!(record.ttl_secs(), 61);
}

#[test]
fn general_config_defaults_to_no_listener() {
    let g = GeneralConfig::new(None, None);
    assert!(g.listen_tcp().is_none());
    assert!(g.listen_udp().is_none());
}

#[test]
fn name_parse_splits_labels() {
    let n = Name::parse("www.et.internal").unwrap();
    assert_eq!(
        n.labels,
        vec![b"www".to_vec(), b"et".to_vec(), b"internal".to_vec()]
    );
    let fq = Name::parse("www.et.internal.").unwrap();
    assert_eq!(fq.labels, n.labels);
}

#[test]
fn name_parse_refuses_long_label() {
    let long = format!("{}.com", "a".repeat(64));
    assert!(Name::parse(&long).is_none());
}

#[test]
fn name_below_apex() {
    let apex = Name::parse("et.internal").unwrap();
    assert!(Name::parse("www.et.internal").unwrap().is_at_or_below(&apex));
    assert!(Name::parse("et.internal").unwrap().is_at_or_below(&apex));
    assert!(!Name::parse("internal").unwrap().is_at_or_below(&apex));
    assert!(!Name::parse("www.et.top").unwrap().is_at_or_below(&apex));
}

#[test]
fn name_lowercase() {
    let n = Name::parse("WwW.Et.Internal").unwrap().to_lowercase();
    assert!(n.equals(&Name::parse("www.et.internal").unwrap()));
}

#[test]
fn ipv4_parsing() {
    assert_eq!(parse_ipv4(&"123.123.123.123".to_string()), Some([123, 123, 123, 123]));
    assert_eq!(parse_ipv4(&"0.10.255.7".to_string()), Some([0, 10, 255, 7]));
    assert_eq!(parse_ipv4(&"1.2.3".to_string()), None);
    assert_eq!(parse_ipv4(&"1.2.3.4.5".to_string()), None);
    assert_eq!(parse_ipv4(&"256.1.1.1".to_string()), None);
    assert_eq!(parse_ipv4(&"01.1.1.1".to_string()), None);
    assert_eq!(parse_ipv4(&"a.b.c.d".to_string()), None);
    assert_eq!(parse_ipv4(&"1..1.1".to_string()), None);
}

#[test]
fn record_converts_to_address_record() {
    let apex = Name::parse("et.internal").unwrap();
    let r = Record::new(RecordType::A, "www.et.internal".to_string(), "123.123.123.123".to_string(), 60);
    let rr = r.to_resource_record(&apex).unwrap();
    assert_eq!(rr.rtype, TYPE_A);
    assert_eq!(rr.class, CLASS_IN);
    assert_eq!(rr.ttl, 60);
    assert_eq!(rr.rdata, vec![123, 123, 123, 123]);
    assert!(rr.name.equals(&Name::parse("www.et.internal").unwrap()));
}

#[test]
fn record_ttl_beyond_32_bits_is_refused() {
    let apex = Name::parse("et").unwrap();
    let r = Record::new(RecordType::A, "x.et".to_string(), "1.2.3.4".to_string(), 1u64 << 32);
    assert_eq!(r.to_resource_record(&apex).unwrap_err(), ConfigError::InvalidValue);
    let max = Record::new(RecordType::A, "x.et".to_string(), "1.2.3.4".to_string(), u32::MAX as u64);
    assert_eq!(max.to_resource_record(&apex).unwrap().ttl, u32::MAX);
}

#[test]
fn relative_owner_names_resolve_against_apex() {
    let apex = Name::parse("et.internal").unwrap();
    let www = Record::new(RecordType::A, "www".to_string(), "1.2.3.4".to_string(), 60);
    assert!(www.to_resource_record(&apex).unwrap().name.equals(&Name::parse("www.et.internal").unwrap()));
    let at = Record::new(RecordType::A, "@".to_string(), "1.2.3.4".to_string(), 60);
    assert!(at.to_resource_record(&apex).unwrap().name.equals(&apex));
    let full = Record::new(RecordType::A, "www.example.com.".to_string(), "1.2.3.4".to_string(), 60);
    assert!(full.to_resource_record(&apex).unwrap().name.equals(&Name::parse("www.example.com").unwrap()));
}

#[test]
fn record_conversion_errors() {
    let bad_value = Record::new(RecordType::A, "www.et.internal".to_string(), "1.2.3".to_string(), 60);
    let apex = Name::parse("et.internal").unwrap();
    assert_eq!(bad_value.to_resource_record(&apex).unwrap_err(), ConfigError::InvalidValue);
    let mx = Record::new(RecordType::MX, "www.et.internal".to_string(), "mail.et.internal".to_string(), 60);
    assert_eq!(mx.to_resource_record(&apex).unwrap_err(), ConfigError::UnsupportedType);
    let bad_name = Record::new(RecordType::A, format!("{}.et", "b".repeat(70)), "1.2.3.4".to_string(), 60);
    assert_eq!(bad_name.to_resource_record(&apex).unwrap_err(), ConfigError::InvalidName);
}

#[test]
fn record_type_codes() {
    assert_eq!(RecordType::A.code(), 1);
    assert_eq!(RecordType::NS.code(), 2);
    assert_eq!(RecordType::CNAME.code(), 5);
    assert_eq!(RecordType::MX.code(), 15);
    assert_eq!(RecordType::TXT.code(), 16);
    assert_eq!(RecordType::AAAA.code(), 28);
}
