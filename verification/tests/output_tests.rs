use shodan_pipeline::models::{HostReport, PortDetail, PortState};
use shodan_pipeline::output::{
    count_open_after_filter, csv_rows, filter_ports, filter_report, host_detail_lines,
    is_interesting_host, render_markdown, summarize_counts,
};

fn port(n: u16, state: PortState, service: Option<&str>) -> PortDetail {
    PortDetail { port: n, state, service: service.map(String::from) }
}

#[test]
fn filters_hide_wrapped_and_closed() {
    let ports = vec![
        port(443, PortState::Open, Some("https")),
        port(80, PortState::Closed, Some("http")),
        port(22, PortState::Open, Some("tcpwrapped")),
    ];
    let kept = filter_ports(&ports, true, true);
    assert_eq!(kept.len(), 1);
    assert_eq!(kept[0].port, 443);
    let sorted_only = filter_ports(&ports, false, false);
    let nums: Vec<u16> = sorted_only.iter().map(|p| p.port).collect();
    assert_eq!(nums, vec![22, 80, 443]);
}

#[test]
fn open_counts_drive_interest() {
    let ports = vec![
        port(1, PortState::Open, None),
        port(2, PortState::Open, None),
        port(3, PortState::Filtered, None),
    ];
    assert_eq!(count_open_after_filter(&ports), 2);
    assert!(is_interesting_host(&ports, 2));
    assert!(!is_interesting_host(&ports, 3));
}

#[test]
fn summary_counts_each_state() {
    let reports = vec![
        HostReport {
            target: "a".into(),
            ip: "a".into(),
            ports: vec![
                port(1, PortState::Open, None),
                port(2, PortState::Closed, None),
                port(3, PortState::Filtered, None),
            ],
        },
        HostReport {
            target: "b".into(),
            ip: "b".into(),
            ports: vec![port(4, PortState::Open, None)],
        },
    ];
    let s = summarize_counts(&reports);
    assert_eq!(s.hosts, 2);
    assert_eq!(s.open_total, 2);
    assert_eq!(s.closed_total, 1);
    assert_eq!(s.filtered_total, 1);
}

#[test]
fn detail_lines_partition_known_services() {
    let filtered = vec![
        port(22, PortState::Open, Some("ssh")),
        port(80, PortState::Open, Some("unknown")),
        port(443, PortState::Open, None),
    ];
    let lines = host_detail_lines("10.0.0.1", "example.com", &filtered, 0, false);
    assert_eq!(lines[0], "10.0.0.1 (example.com)");
    assert_eq!(lines[1], "  conocidos: 22:ssh:open");
    assert_eq!(lines[2], "  otros(2): 80:unknown:open, 443::open");
    assert_eq!(lines.len(), 3);
}

#[test]
fn detail_lines_mark_interesting_hosts() {
    let filtered = vec![port(22, PortState::Open, Some("ssh"))];
    let lines = host_detail_lines("10.0.0.1", "t", &filtered, 1, true);
    assert!(lines[0].starts_with("\u{2605} "));
    let empty: Vec<PortDetail> = Vec::new();
    let bare = host_detail_lines("10.0.0.2", "t", &empty, 1, true);
    assert_eq!(bare[1], "  (sin puertos tras filtro)");
}

#[test]
fn detail_lines_cap_the_other_list() {
    let mut filtered = Vec::new();
    for k in 0..20u16 {
        filtered.push(port(1000 + k, PortState::Open, None));
    }
    let lines = host_detail_lines("h", "h", &filtered, 0, false);
    assert!(lines[1].starts_with("  otros(20): 1000::open, "));
    assert_eq!(lines[2], "  ... +5 m\u{e1}s");
}

#[test]
fn markdown_report_lists_filtered_ports() {
    let rep = HostReport {
        target: "example.com".into(),
        ip: "10.0.0.1".into(),
        ports: vec![
            port(80, PortState::Open, Some("http")),
            port(22, PortState::Closed, None),
        ],
    };
    let filtered = filter_report(&rep, true, true);
    let md = render_markdown(&vec![filtered]);
    assert!(md.starts_with("# Reporte de Escaneo\n\n"));
    assert!(md.contains("## 10.0.0.1 (example.com)"));
    assert!(md.contains("| 80 | open | http |"));
    assert!(!md.contains("| 22 |"));
    let none = render_markdown(&Vec::new());
    assert_eq!(none, "# Reporte de Escaneo\n\n");
}

#[test]
fn csv_rows_carry_header_and_fields() {
    let rep = HostReport {
        target: "example.com".into(),
        ip: "10.0.0.1".into(),
        ports: vec![port(80, PortState::Open, Some("http"))],
    };
    let rows = csv_rows(&vec![rep]);
    assert_eq!(rows[0], vec!["target", "ip", "port", "state", "service"]);
    assert_eq!(rows[1], vec!["example.com", "10.0.0.1", "80", "open", "http"]);
    assert_eq!(rows.len(), 2);
}
