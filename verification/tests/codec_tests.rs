use shodan_pipeline::codec::{encode_ports, parse_nmap_ports};
use shodan_pipeline::models::{PortDetail, PortState};

#[test]
fn parses_a_scan_document() {
    let xml = "<?xml version=\"1.0\"?>\n<!DOCTYPE nmaprun>\n<!-- a scan -->\n<nmaprun><host><ports><port protocol=\"tcp\" portid=\"80\"><state state=\"open\" reason=\"syn-ack\"/><service name=\"http\" method=\"probed\"/></port><port protocol=\"tcp\" portid=\"443\"><state state=\"closed\"/></port></ports></host></nmaprun>";
    let recs = parse_nmap_ports(xml).unwrap();
    assert_eq!(recs.len(), 2);
    assert_eq!(recs[0].port, 80);
    assert!(recs[0].state == PortState::Open);
    assert_eq!(recs[0].service.as_deref(), Some("http"));
    assert_eq!(recs[1].port, 443);
    assert!(recs[1].state == PortState::Closed);
    assert!(recs[1].service.is_none());
}

#[test]
fn unrecognized_state_reads_unknown() {
    let xml = "<port portid=\"22\"><state state=\"open|filtered\"/></port>";
    let recs = parse_nmap_ports(xml).unwrap();
    assert_eq!(recs.len(), 1);
    assert!(recs[0].state == PortState::Unknown);
}

#[test]
fn missing_state_reads_unknown() {
    let xml = "<port portid=\"22\"></port>";
    let recs = parse_nmap_ports(xml).unwrap();
    assert_eq!(recs.len(), 1);
    assert!(recs[0].state == PortState::Unknown);
}

#[test]
fn bad_portid_drops_the_record() {
    let xml = "<port portid=\"nope\"><state state=\"open\"/></port>";
    let recs = parse_nmap_ports(xml).unwrap();
    assert_eq!(recs.len(), 0);
}

#[test]
fn truncated_document_fails_with_position() {
    let xml = "<port portid=\"80";
    let err = parse_nmap_ports(xml).unwrap_err();
    // The failure names the opening quote of the unterminated value.
    assert_eq!(err.pos, 13);
}

#[test]
fn unterminated_attribute_fails() {
    let xml = "<port portid=\"80\"><state state=\"open></port>";
    assert!(parse_nmap_ports(xml).is_err());
}

#[test]
fn round_trip_of_extracted_records() {
    let xml = "<nmaprun><port portid=\"80\"><state state=\"open\"/><service name=\"http\"/></port><port portid=\"8080\"><state state=\"filtered\"/></port></nmaprun>";
    let recs = parse_nmap_ports(xml).unwrap();
    let doc = encode_ports(&recs);
    let again = parse_nmap_ports(doc.as_str()).unwrap();
    assert_eq!(again.len(), recs.len());
    for k in 0..recs.len() {
        assert_eq!(again[k].port, recs[k].port);
        assert!(again[k].state == recs[k].state);
        assert_eq!(again[k].service, recs[k].service);
    }
}

#[test]
fn round_trip_with_quoted_service() {
    let records = vec![
        PortDetail { port: 21, state: PortState::Open, service: Some(String::from("ftp \"x\"")) },
        PortDetail { port: 65535, state: PortState::Unknown, service: None },
    ];
    let doc = encode_ports(&records);
    let again = parse_nmap_ports(doc.as_str()).unwrap();
    assert_eq!(again.len(), 2);
    assert_eq!(again[0].service.as_deref(), Some("ftp \"x\""));
    assert_eq!(again[1].port, 65535);
}
