use shodan_pipeline::rustscan::absorb_line_ports;

#[test]
fn protocol_lines_fold_into_sorted_unique_ports() {
    let mut ports: Vec<u16> = Vec::new();
    absorb_line_ports(&mut ports, "Open 10.0.0.1:80");
    assert!(ports.is_empty(), "a line without the arrow names no ports");
    absorb_line_ports(&mut ports, "10.0.0.1 -> 443, 80,nope,22");
    assert_eq!(ports, vec![22, 80, 443]);
    absorb_line_ports(&mut ports, "10.0.0.1 -> 80,8080");
    assert_eq!(ports, vec![22, 80, 443, 8080]);
}
