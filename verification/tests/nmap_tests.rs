use shodan_pipeline::models::{HostReport, PortDetail, PortState};
use shodan_pipeline::nmap::{
    apply_confirmations, build_confirm_args, build_scan_args, fallback_args, normalize_nmap_extra,
    split_ports, truncate_diagnostic, wrapped_ports, NormalizeWarning,
};

#[test]
fn normalize_downgrades_syn_without_privilege() {
    let (flags, warnings) = normalize_nmap_extra("-sS -Pn", false);
    assert_eq!(flags, vec!["-sT".to_string(), "-Pn".to_string()]);
    assert_eq!(warnings, vec![NormalizeWarning::SynDowngraded]);
}

#[test]
fn normalize_strips_syn_only_flag_under_tcp_mode() {
    let (flags, warnings) = normalize_nmap_extra("-sT --defeat-rst-ratelimit -sS", true);
    assert_eq!(flags, vec!["-sT".to_string()]);
    assert_eq!(warnings, vec![NormalizeWarning::DefeatRstRemoved]);
}

#[test]
fn normalize_inserts_a_mode_flag() {
    let (with_root, w1) = normalize_nmap_extra("-Pn", true);
    assert_eq!(with_root, vec!["-sS".to_string(), "-Pn".to_string()]);
    assert!(w1.is_empty());
    let (without_root, w2) = normalize_nmap_extra("", false);
    assert_eq!(without_root, vec!["-sT".to_string()]);
    assert!(w2.is_empty());
}

#[test]
fn normalize_never_emits_both_modes() {
    for extra in ["", "-sS", "-sT", "-sS -sT", "-sT -sS -sS", "-Pn -sV"] {
        for root in [false, true] {
            let (flags, _) = normalize_nmap_extra(extra, root);
            let syn = flags.iter().any(|f| f == "-sS");
            let tcp = flags.iter().any(|f| f == "-sT");
            assert!(syn != tcp, "flags {flags:?} for {extra:?} root={root}");
        }
    }
}

#[test]
fn split_ports_sorts_and_dedups() {
    let v = split_ports("80,22,22-25,  443 ").unwrap();
    assert_eq!(v, vec![22, 23, 24, 25, 80, 443]);
}

#[test]
fn split_ports_skips_blanks_and_reversed_ranges() {
    let v = split_ports("8000-7000,,80").unwrap();
    assert_eq!(v, vec![80]);
    let empty = split_ports("").unwrap();
    assert!(empty.is_empty());
}

#[test]
fn split_ports_reports_the_offending_entry() {
    let e = split_ports("80,eighty,443").unwrap_err();
    assert_eq!(e.entry, 1);
    assert!(split_ports("70000").is_err());
    assert!(split_ports("10-x").is_err());
}

#[test]
fn scan_args_use_discovered_ports() {
    let ports = vec![22u16, 80u16];
    let (args, _) = build_scan_args("-Pn", false, None, &ports, "10.0.0.1", "out/10.0.0.1/scan.xml");
    assert_eq!(
        args,
        vec!["-sT", "-Pn", "-p", "22,80", "10.0.0.1", "-oX", "out/10.0.0.1/scan.xml"]
            .into_iter()
            .map(String::from)
            .collect::<Vec<_>>()
    );
}

#[test]
fn scan_args_prefer_fixed_ports_and_allow_none() {
    let none: Vec<u16> = Vec::new();
    let (fixed, _) = build_scan_args("", true, Some("1-1024"), &none, "h", "x.xml");
    assert_eq!(fixed[..3], ["-sS".to_string(), "-p".to_string(), "1-1024".to_string()]);
    let (default_set, _) = build_scan_args("", true, None, &none, "h", "x.xml");
    assert_eq!(default_set, vec!["-sS".to_string(), "h".to_string(), "-oX".to_string(), "x.xml".to_string()]);
}

#[test]
fn fallback_replaces_syn_once() {
    let args: Vec<String> = vec!["-sS", "-Pn", "-p", "80", "h"].into_iter().map(String::from).collect();
    let retry = fallback_args(&args).unwrap();
    assert_eq!(retry[0], "-sT");
    assert_eq!(&retry[1..], &args[1..]);
    let tcp_args: Vec<String> = vec!["-sT".to_string()];
    assert!(fallback_args(&tcp_args).is_none());
}

#[test]
fn diagnostics_are_capped() {
    let short = "all fine";
    assert_eq!(truncate_diagnostic(short), short);
    let long: String = std::iter::repeat('x').take(700).collect();
    let capped = truncate_diagnostic(&long);
    assert_eq!(capped.chars().count(), 600 + "...<truncado>".chars().count());
    assert!(capped.ends_with("...<truncado>"));
}

#[test]
fn wrapped_ports_are_reconfirmed_in_place() {
    let mut rep = HostReport {
        target: "t".to_string(),
        ip: "10.0.0.9".to_string(),
        ports: vec![
            PortDetail { port: 22, state: PortState::Open, service: Some("ssh".to_string()) },
            PortDetail { port: 80, state: PortState::Open, service: Some("tcpwrapped".to_string()) },
        ],
    };
    let wrapped = wrapped_ports(&rep);
    assert_eq!(wrapped, vec![80]);
    let probe = build_confirm_args(&wrapped, "10.0.0.9", false);
    assert_eq!(
        probe,
        vec!["-sT", "-Pn", "-p", "80", "10.0.0.9", "-oX", "-"]
            .into_iter()
            .map(String::from)
            .collect::<Vec<_>>()
    );
    let upds = vec![PortDetail {
        port: 80,
        state: PortState::Open,
        service: Some("http".to_string()),
    }];
    apply_confirmations(&mut rep, &wrapped, &upds);
    assert_eq!(rep.ports[1].service.as_deref(), Some("http"));
    assert_eq!(rep.ports[0].service.as_deref(), Some("ssh"));
}
