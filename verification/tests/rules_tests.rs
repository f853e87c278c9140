use shodan_pipeline::models::{HostReport, PortDetail, PortState};
use shodan_pipeline::rules::{
    dispatch_plan, prepare_command, render_command, rule_matches_exec, PreparedCommand, Rule,
    Rules,
};

fn host_with_port(ip: &str, port: u16, service: Option<&str>) -> HostReport {
    HostReport {
        target: ip.to_string(),
        ip: ip.to_string(),
        ports: vec![PortDetail {
            port,
            state: PortState::Open,
            service: service.map(String::from),
        }],
    }
}

#[test]
fn port_rule_renders_exactly_one_command() {
    let rules = Rules {
        rules: vec![Rule {
            name: "web".to_string(),
            ports: vec![80],
            service_regex: None,
            cmds: vec!["echo {ip}:{port}".to_string()],
        }],
    };
    let reports = vec![host_with_port("10.0.0.1", 80, None)];
    let plan = dispatch_plan(&rules, &reports);
    assert_eq!(plan.len(), 1);
    assert_eq!(plan[0].cmd_line, "echo 10.0.0.1:80");
    assert_eq!(plan[0].log_name, "web_80.log");
    assert_eq!(plan[0].ip, "10.0.0.1");
    assert_eq!(plan[0].rule_name, "web");
}

#[test]
fn service_pattern_matches_via_search() {
    let rule = Rule {
        name: "ssh".to_string(),
        ports: Vec::new(),
        service_regex: Some("ssh".to_string()),
        cmds: Vec::new(),
    };
    let yes = PortDetail { port: 2222, state: PortState::Open, service: Some("openssh".to_string()) };
    let no = PortDetail { port: 2222, state: PortState::Open, service: Some("telnet".to_string()) };
    let none = PortDetail { port: 2222, state: PortState::Open, service: None };
    assert!(rule_matches_exec(&rule, &yes));
    assert!(!rule_matches_exec(&rule, &no));
    assert!(!rule_matches_exec(&rule, &none));
}

#[test]
fn bad_pattern_matches_nothing() {
    let rule = Rule {
        name: "broken".to_string(),
        ports: Vec::new(),
        service_regex: Some("(".to_string()),
        cmds: Vec::new(),
    };
    let p = PortDetail { port: 80, state: PortState::Open, service: Some("http".to_string()) };
    assert!(!rule_matches_exec(&rule, &p));
}

#[test]
fn hosts_without_ports_are_skipped() {
    let rules = Rules {
        rules: vec![Rule {
            name: "any".to_string(),
            ports: vec![80],
            service_regex: None,
            cmds: vec!["echo hi".to_string()],
        }],
    };
    let bare = HostReport { target: "t".to_string(), ip: "1.2.3.4".to_string(), ports: Vec::new() };
    let plan = dispatch_plan(&rules, &vec![bare]);
    assert!(plan.is_empty());
}

#[test]
fn all_placeholders_are_substituted() {
    let line = render_command(
        "probe {target} at {ip} port {port} running {service}",
        "10.0.0.1",
        "example.com",
        443,
        &Some("https".to_string()),
    );
    assert_eq!(line, "probe example.com at 10.0.0.1 port 443 running https");
    let blank = render_command("{service}!", "h", "h", 1, &None);
    assert_eq!(blank, "!");
}

#[test]
fn command_lines_split_like_a_shell() {
    match prepare_command("echo 'a b' c").unwrap() {
        PreparedCommand::Run(bin, args) => {
            assert_eq!(bin, "echo");
            assert_eq!(args, vec!["a b".to_string(), "c".to_string()]);
        }
        PreparedCommand::Nothing => panic!("expected a command"),
    }
    match prepare_command("   ").unwrap() {
        PreparedCommand::Nothing => {}
        PreparedCommand::Run(..) => panic!("expected nothing to run"),
    }
    assert!(prepare_command("echo 'unterminated").is_err());
}
