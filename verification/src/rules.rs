//! The rule dispatcher's logic: declarative rules matched against
//! discovered ports and services, command templates rendered with the
//! host's values, and the per-host dispatch plan the surrounding binary
//! executes.

use vstd::prelude::*;
use crate::models::{HostRep, HostReport, PortDetail, PortRec, reports_view, ports_view};
use crate::text::{dec_str, replace_all, replace_all_chars, str_to_chars, chars_to_string};

verus! {

/// One declarative rule: a port set (empty meaning no port filter), an
/// optional service pattern, and the command templates to run on a match.
#[derive(Debug)]
pub struct Rule {
    pub name: String,
    pub ports: Vec<u16>,
    pub service_regex: Option<String>,
    pub cmds: Vec<String>,
}

/// Mathematical image of a [`Rule`].
pub ghost struct RuleV {
    pub name: Seq<char>,
    pub ports: Seq<u16>,
    pub service_regex: Option<Seq<char>>,
    pub cmds: Seq<Seq<char>>,
}

impl View for Rule {
    type V = RuleV;

    open spec fn view(&self) -> RuleV {
        RuleV {
            name: self.name@,
            ports: self.ports@,
            service_regex: match self.service_regex {
                Some(s) => Some(s@),
                None => None,
            },
            cmds: self.cmds.deep_view(),
        }
    }
}

/// The loaded rule set.
#[derive(Debug)]
pub struct Rules {
    pub rules: Vec<Rule>,
}

/// The images of a rule sequence.
pub open spec fn rules_view(s: Seq<Rule>) -> Seq<RuleV> {
    s.map_values(|r: Rule| r@)
}

/// A malformed rule document; the dispatcher is skipped, never failed.
#[derive(Clone, Copy, PartialEq, Eq, Debug, Structural)]
pub struct ConfigError {}

/// Whether a pattern compiles and matches somewhere in a text; the answer
/// depends on the pattern and the text alone.
pub uninterp spec fn regex_matches(pattern: Seq<char>, text: Seq<char>) -> bool;

/// Relies on regex::Regex::new and regex::Regex::is_match: compiling a
/// pattern and searching a text is deterministic in the two strings; a
/// pattern that does not compile matches nothing, as the dispatcher
/// treats it.
#[verifier::external_body]
fn regex_is_match(pattern: &str, text: &str) -> (r: bool)
    ensures
        r == regex_matches(pattern@, text@),
{
    match regex::Regex::new(pattern) {
        Ok(re) => re.is_match(text),
        Err(_) => false,
    }
}

/// Does a rule apply to a discovered port? Either the port number is in
/// the rule's non-empty port set, or the rule has a service pattern that
/// matches the port's service label.
pub open spec fn rule_matches(rule: RuleV, port: u16, service: Option<Seq<char>>) -> bool {
    let port_match = rule.ports.len() > 0 && rule.ports.contains(port);
    let service_match = match (rule.service_regex, service) {
        (Some(re), Some(sv)) => regex_matches(re, sv),
        _ => false,
    };
    port_match || service_match
}

/// Executable mirror of [`rule_matches`].
pub fn rule_matches_exec(rule: &Rule, p: &PortDetail) -> (r: bool)
    ensures
        r == rule_matches(rule@, p.port, p@.service),
{
    let mut port_match = false;
    if rule.ports.len() > 0 {
        let mut i: usize = 0;
        while i < rule.ports.len()
            invariant
                i <= rule.ports@.len(),
                !port_match ==> forall|j: int| 0 <= j < i ==> rule.ports@[j] != p.port,
                port_match ==> rule.ports@.contains(p.port),
            decreases rule.ports.len() - i,
        {
            if rule.ports[i] == p.port {
                assert(rule.ports@[i as int] == p.port);
                port_match = true;
            }
            i += 1;
        }
    }
    if port_match {
        return true;
    }
    match (&rule.service_regex, &p.service) {
        (Some(re), Some(sv)) => regex_is_match(re.as_str(), sv.as_str()),
        _ => false,
    }
}

/// A rendered command template: the four placeholders substituted, in
/// order, with the host's address, its original target text, the port
/// number and the service label (blank when none was identified).
pub open spec fn render_spec(
    tpl: Seq<char>,
    ip: Seq<char>,
    target: Seq<char>,
    port: u16,
    service: Option<Seq<char>>,
) -> Seq<char> {
    let svc = match service {
        Some(s) => s,
        None => Seq::empty(),
    };
    replace_all(
        replace_all(
            replace_all(replace_all(tpl, "{ip}"@, ip), "{target}"@, target),
            "{port}"@,
            dec_str(port as int),
        ),
        "{service}"@,
        svc,
    )
}

/// Renders one command template for one discovered port.
pub fn render_command(
    tpl: &str,
    ip: &str,
    target: &str,
    port: u16,
    service: &Option<String>,
) -> (r: String)
    ensures
        r@ == render_spec(
            tpl@,
            ip@,
            target@,
            port,
            match service {
                Some(s) => Some(s@),
                None => None,
            },
        ),
{
    let tplc = str_to_chars(tpl);
    let pat_ip = str_to_chars("{ip}");
    let pat_target = str_to_chars("{target}");
    let pat_port = str_to_chars("{port}");
    let pat_service = str_to_chars("{service}");
    proof {
        reveal_strlit("{ip}");
        reveal_strlit("{target}");
        reveal_strlit("{port}");
        reveal_strlit("{service}");
    }
    let s1 = replace_all_chars(&tplc, &pat_ip, &str_to_chars(ip));
    let s2 = replace_all_chars(&s1, &pat_target, &str_to_chars(target));
    let s3 = replace_all_chars(&s2, &pat_port, &crate::text::u64_to_chars(port as u64));
    let svc = match service {
        Some(s) => str_to_chars(s.as_str()),
        None => Vec::new(),
    };
    let s4 = replace_all_chars(&s3, &pat_service, &svc);
    chars_to_string(&s4)
}

/// One command the dispatcher will run: where it came from and the fully
/// rendered command line, with the log name that keeps per-host, per-rule,
/// per-port logs apart.
#[derive(Debug)]
pub struct DispatchCommand {
    pub ip: String,
    pub rule_name: String,
    pub port: u16,
    pub cmd_line: String,
    pub log_name: String,
}

/// Mathematical image of a [`DispatchCommand`].
pub ghost struct DispatchV {
    pub ip: Seq<char>,
    pub rule_name: Seq<char>,
    pub port: u16,
    pub cmd_line: Seq<char>,
    pub log_name: Seq<char>,
}

impl View for DispatchCommand {
    type V = DispatchV;

    open spec fn view(&self) -> DispatchV {
        DispatchV {
            ip: self.ip@,
            rule_name: self.rule_name@,
            port: self.port,
            cmd_line: self.cmd_line@,
            log_name: self.log_name@,
        }
    }
}

impl DeepView for DispatchCommand {
    type V = DispatchV;

    open spec fn deep_view(&self) -> DispatchV {
        self.view()
    }
}

/// The log artifact name for one rule on one port.
pub open spec fn log_name_spec(rule_name: Seq<char>, port: u16) -> Seq<char> {
    rule_name + "_"@ + dec_str(port as int) + ".log"@
}

/// The commands one rule contributes for one discovered port, in template
/// order; none when the rule does not match.
pub open spec fn rule_cmds_for_port(rule: RuleV, host: HostRep, rec: PortRec) -> Seq<DispatchV>
    decreases rule.cmds.len(),
{
    if !rule_matches(rule, rec.port, rec.service) {
        Seq::empty()
    } else {
        rule.cmds.map_values(
            |tpl: Seq<char>|
                DispatchV {
                    ip: host.ip,
                    rule_name: rule.name,
                    port: rec.port,
                    cmd_line: render_spec(tpl, host.ip, host.target, rec.port, rec.service),
                    log_name: log_name_spec(rule.name, rec.port),
                },
        )
    }
}

/// The commands all rules contribute for one discovered port, rule order.
pub open spec fn cmds_for_port(rules: Seq<RuleV>, host: HostRep, rec: PortRec) -> Seq<DispatchV>
    decreases rules.len(),
{
    if rules.len() == 0 {
        Seq::empty()
    } else {
        cmds_for_port(rules.drop_last(), host, rec) + rule_cmds_for_port(rules.last(), host, rec)
    }
}

/// The commands for one host: every port in document order, every rule in
/// rule order; a host without discovered ports contributes nothing.
pub open spec fn cmds_for_host(rules: Seq<RuleV>, host: HostRep) -> Seq<DispatchV>
    decreases host.ports.len(),
{
    if host.ports.len() == 0 {
        Seq::empty()
    } else {
        let shorter = HostRep { ports: host.ports.drop_last(), ..host };
        cmds_for_host(rules, shorter) + cmds_for_port(rules, host, host.ports.last())
    }
}

/// The full dispatch plan over a report collection, in report order.
pub open spec fn dispatch_plan_spec(rules: Seq<RuleV>, reports: Seq<HostRep>) -> Seq<DispatchV>
    decreases reports.len(),
{
    if reports.len() == 0 {
        Seq::empty()
    } else {
        dispatch_plan_spec(rules, reports.drop_last()) + cmds_for_host(rules, reports.last())
    }
}

/// The commands all rules contribute for one port of one host.
fn cmds_for_port_exec(rules: &Vec<Rule>, host: &HostReport, p: &PortDetail) -> (r: Vec<
    DispatchCommand,
>)
    ensures
        r.deep_view() == cmds_for_port(rules_view(rules@), host@, p@),
{
    let ghost grules = rules_view(rules@);
    let mut out: Vec<DispatchCommand> = Vec::new();
    let mut i: usize = 0;
    proof {
        assert(out.deep_view() =~= Seq::<DispatchV>::empty());
        assert(grules.subrange(0, 0) =~= Seq::<RuleV>::empty());
    }
    while i < rules.len()
        invariant
            i <= rules@.len(),
            grules == rules_view(rules@),
            grules.len() == rules@.len(),
            out.deep_view() == cmds_for_port(grules.subrange(0, i as int), host@, p@),
        decreases rules.len() - i,
    {
        let ghost pref = grules.subrange(0, i as int);
        let ghost prev = out.deep_view();
        proof {
            assert(grules.subrange(0, i + 1) =~= pref.push(grules[i as int]));
            assert(pref.push(grules[i as int]).drop_last() =~= pref);
            assert(pref.push(grules[i as int]).last() == grules[i as int]);
            assert(grules[i as int] == rules@[i as int]@);
        }
        let matched = rule_matches_exec(&rules[i], p);
        if matched {
            let ghost gcmds = rules@[i as int]@.cmds;
            let rule = &rules[i];
            proof {
                crate::text::lemma_strings_view(&rule.cmds);
            }
            let mut c: usize = 0;
            let ghost gport = p.port;
            while c < rule.cmds.len()
                invariant
                    c <= rule.cmds@.len(),
                    gcmds == rule.cmds.deep_view(),
                    gcmds.len() == rule.cmds@.len(),
                    forall|j: int|
                        0 <= j < rule.cmds@.len() ==> #[trigger] gcmds[j] == rule.cmds@[j]@,
                    rule_matches(rule@, p.port, p@.service),
                    rule@ == grules[i as int],
                    out.deep_view() == prev + rule_cmds_for_port(
                        grules[i as int],
                        host@,
                        p@,
                    ).subrange(0, c as int),
                decreases rule.cmds.len() - c,
            {
                let ghost body = rule_cmds_for_port(grules[i as int], host@, p@);
                let ghost prev2 = out.deep_view();
                let cmd_line = render_command(
                    rule.cmds[c].as_str(),
                    host.ip.as_str(),
                    host.target.as_str(),
                    p.port,
                    &p.service,
                );
                let mut log: Vec<char> = Vec::new();
                crate::text::extend_str(&mut log, rule.name.as_str());
                crate::text::extend_str(&mut log, "_");
                let pnum = crate::text::u64_to_chars(p.port as u64);
                crate::text::extend_chars(&mut log, &pnum);
                crate::text::extend_str(&mut log, ".log");
                let log_name = chars_to_string(&log);
                assert(log_name@ =~= log_name_spec(rule@.name, p.port));
                let dc = DispatchCommand {
                    ip: host.ip.clone(),
                    rule_name: rule.name.clone(),
                    port: p.port,
                    cmd_line,
                    log_name,
                };
                assert(dc@ == body[c as int]);
                out.push(dc);
                proof {
                    assert(out.deep_view() =~~= prev2.push(body[c as int]));
                    assert(prev2.push(body[c as int]) =~= prev + body.subrange(0, c + 1));
                }
                c += 1;
            }
            proof {
                let body = rule_cmds_for_port(grules[i as int], host@, p@);
                assert(body.subrange(0, body.len() as int) =~= body);
                assert(out.deep_view() == prev + body);
                assert(cmds_for_port(pref.push(grules[i as int]), host@, p@) == cmds_for_port(
                    pref,
                    host@,
                    p@,
                ) + body);
            }
        } else {
            proof {
                assert(rule_cmds_for_port(grules[i as int], host@, p@) =~= Seq::<
                    DispatchV,
                >::empty());
                assert(out.deep_view() + Seq::<DispatchV>::empty() =~= out.deep_view());
            }
        }
        i += 1;
    }
    assert(grules.subrange(0, grules.len() as int) =~= grules);
    out
}

/// The dispatcher's plan: for every host with discovered ports, every
/// port, every matching rule and every template of that rule, one rendered
/// command with its log artifact name.
pub fn dispatch_plan(rules: &Rules, reports: &Vec<HostReport>) -> (r: Vec<DispatchCommand>)
    ensures
        r.deep_view() == dispatch_plan_spec(rules_view(rules.rules@), reports_view(reports@)),
{
    let ghost grules = rules_view(rules.rules@);
    let ghost greps = reports_view(reports@);
    let mut out: Vec<DispatchCommand> = Vec::new();
    let mut h: usize = 0;
    proof {
        assert(out.deep_view() =~= Seq::<DispatchV>::empty());
        assert(greps.subrange(0, 0) =~= Seq::<HostRep>::empty());
    }
    while h < reports.len()
        invariant
            h <= reports@.len(),
            grules == rules_view(rules.rules@),
            greps == reports_view(reports@),
            greps.len() == reports@.len(),
            out.deep_view() == dispatch_plan_spec(grules, greps.subrange(0, h as int)),
        decreases reports.len() - h,
    {
        let ghost pref = greps.subrange(0, h as int);
        let ghost prev = out.deep_view();
        proof {
            assert(greps.subrange(0, h + 1) =~= pref.push(greps[h as int]));
            assert(pref.push(greps[h as int]).drop_last() =~= pref);
            assert(pref.push(greps[h as int]).last() == greps[h as int]);
            assert(greps[h as int] == reports@[h as int]@);
        }
        let host = &reports[h];
        let mut k: usize = 0;
        let ghost ghost_host = host@;
        proof {
            assert(cmds_for_host_prefix(grules, ghost_host, 0) =~= Seq::<DispatchV>::empty());
            assert(out.deep_view() + Seq::<DispatchV>::empty() =~= out.deep_view());
        }
        while k < host.ports.len()
            invariant
                k <= host.ports@.len(),
                ghost_host == host@,
                host@.ports.len() == host.ports@.len(),
                grules == rules_view(rules.rules@),
                out.deep_view() == prev + cmds_for_host_prefix(grules, ghost_host, k as int),
            decreases host.ports.len() - k,
        {
            let ghost prev2 = out.deep_view();
            let pcmds = cmds_for_port_exec(&rules.rules, host, &host.ports[k]);
            let ghost addition = pcmds.deep_view();
            proof {
                assert(host@.ports[k as int] == host.ports@[k as int]@);
            }
            let mut q: usize = 0;
            while q < pcmds.len()
                invariant
                    q <= pcmds@.len(),
                    addition == pcmds.deep_view(),
                    addition.len() == pcmds@.len(),
                    out.deep_view() == prev2 + addition.subrange(0, q as int),
                decreases pcmds.len() - q,
            {
                let ghost prev3 = out.deep_view();
                proof {
                    assert(addition[q as int] == pcmds@[q as int]@);
                }
                let item = clone_dispatch(&pcmds[q]);
                out.push(item);
                proof {
                    assert(out.deep_view() =~~= prev3.push(addition[q as int]));
                    assert(prev3.push(addition[q as int]) =~= prev2 + addition.subrange(
                        0,
                        q + 1,
                    ));
                }
                q += 1;
            }
            proof {
                assert(addition.subrange(0, addition.len() as int) =~= addition);
                assert(out.deep_view() == prev2 + addition);
                lemma_cmds_for_host_prefix_step(grules, ghost_host, k as int);
                lemma_cmds_for_port_host_irrelevant(
                    grules,
                    ghost_host,
                    HostRep { ports: ghost_host.ports.subrange(0, k + 1), ..ghost_host },
                    ghost_host.ports[k as int],
                );
                assert(prev + (cmds_for_host_prefix(grules, ghost_host, k as int) + addition)
                    =~= (prev + cmds_for_host_prefix(grules, ghost_host, k as int)) + addition);
            }
            k += 1;
        }
        proof {
            lemma_cmds_for_host_prefix_full(grules, ghost_host);
            assert(out.deep_view() == prev + cmds_for_host(grules, greps[h as int]));
        }
        h += 1;
    }
    assert(greps.subrange(0, greps.len() as int) =~= greps);
    out
}

/// The commands of the first `k` ports of a host.
pub open spec fn cmds_for_host_prefix(rules: Seq<RuleV>, host: HostRep, k: int) -> Seq<DispatchV> {
    cmds_for_host(rules, HostRep { ports: host.ports.subrange(0, k), ..host })
}

proof fn lemma_cmds_for_port_host_irrelevant(
    rules: Seq<RuleV>,
    h1: HostRep,
    h2: HostRep,
    rec: PortRec,
)
    requires
        h1.ip == h2.ip,
        h1.target == h2.target,
    ensures
        cmds_for_port(rules, h1, rec) == cmds_for_port(rules, h2, rec),
    decreases rules.len(),
{
    if rules.len() > 0 {
        lemma_cmds_for_port_host_irrelevant(rules.drop_last(), h1, h2, rec);
        assert(rule_cmds_for_port(rules.last(), h1, rec) =~= rule_cmds_for_port(
            rules.last(),
            h2,
            rec,
        ));
    }
}

proof fn lemma_cmds_for_host_prefix_step(rules: Seq<RuleV>, host: HostRep, k: int)
    requires
        0 <= k < host.ports.len(),
    ensures
        cmds_for_host_prefix(rules, host, k + 1) == cmds_for_host_prefix(rules, host, k)
            + cmds_for_port(rules, HostRep { ports: host.ports.subrange(0, k + 1), ..host },
            host.ports[k]),
{
    let hk1 = HostRep { ports: host.ports.subrange(0, k + 1), ..host };
    assert(hk1.ports.len() == k + 1);
    assert(hk1.ports.drop_last() =~= host.ports.subrange(0, k));
    assert(hk1.ports.last() == host.ports[k]);
    assert(cmds_for_host(rules, hk1) == cmds_for_host(
        rules,
        HostRep { ports: host.ports.subrange(0, k), ..host },
    ) + cmds_for_port(rules, hk1, host.ports[k]));
}

proof fn lemma_cmds_for_host_prefix_full(rules: Seq<RuleV>, host: HostRep)
    ensures
        cmds_for_host_prefix(rules, host, host.ports.len() as int) == cmds_for_host(rules, host),
{
    assert(host.ports.subrange(0, host.ports.len() as int) =~= host.ports);
    assert(HostRep { ports: host.ports.subrange(0, host.ports.len() as int), ..host } == host);
}

/// A copy of one planned command.
fn clone_dispatch(d: &DispatchCommand) -> (r: DispatchCommand)
    ensures
        r@ == d@,
{
    DispatchCommand {
        ip: d.ip.clone(),
        rule_name: d.rule_name.clone(),
        port: d.port,
        cmd_line: d.cmd_line.clone(),
        log_name: d.log_name.clone(),
    }
}

/// What POSIX-shell word splitting yields for a command line, when its
/// quotes are balanced; the answer depends on the line alone.
pub uninterp spec fn shell_split_of(s: Seq<char>) -> Option<Seq<Seq<char>>>;

/// Relies on shell_words::split: command lines are split into words as a
/// POSIX shell would, with quote removal; an unmatched quote is the one
/// failure; the result depends on the input alone.
#[verifier::external_body]
fn shell_split(line: &str) -> (r: Option<Vec<String>>)
    ensures
        match r {
            Some(v) => shell_split_of(line@) == Some(v.deep_view()),
            None => shell_split_of(line@) is None,
        },
{
    match shell_words::split(line) {
        Ok(v) => Some(v),
        Err(_) => None,
    }
}

/// A rendered command line prepared for execution.
pub enum PreparedCommand {
    /// The program and its arguments.
    Run(String, Vec<String>),
    /// The line splits into no words: nothing to run.
    Nothing,
}

/// A command line whose quoting cannot be parsed.
#[derive(Clone, Copy, PartialEq, Eq, Debug, Structural)]
pub struct CommandParseError {}

/// Splits a rendered command line into the program and its arguments, as
/// the shell would; a blank line means nothing is run; unbalanced quoting
/// is an error.
pub fn prepare_command(line: &str) -> (r: Result<PreparedCommand, CommandParseError>)
    ensures
        match shell_split_of(line@) {
            None => r is Err,
            Some(words) => {
                &&& r is Ok
                &&& words.len() == 0 ==> (r.unwrap() is Nothing)
                &&& words.len() > 0 ==> match r.unwrap() {
                    PreparedCommand::Run(bin, args) => bin@ == words[0] && args.deep_view()
                        == words.drop_first(),
                    PreparedCommand::Nothing => false,
                }
            },
        },
{
    let words = shell_split(line);
    match words {
        None => Err(CommandParseError {}),
        Some(mut v) => {
            if v.len() == 0 {
                return Ok(PreparedCommand::Nothing);
            }
            let ghost gwords = v.deep_view();
            let bin = v.remove(0);
            proof {
                assert(v.deep_view() =~~= gwords.drop_first());
                assert(bin@ == gwords[0]);
            }
            Ok(PreparedCommand::Run(bin, v))
        },
    }
}

} // verus!
