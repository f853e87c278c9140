//! Report post-processing: the visibility filters applied to scanned ports,
//! the open-port counts behind the "interesting host" notion, and the
//! aggregate summary counters.

use vstd::prelude::*;
use crate::models::{HostRep, HostReport, PortDetail, PortRec, PortState, ports_view, reports_view};
use crate::text::str_eq;
use vstd::multiset::Multiset;

verus! {

/// Does a record survive the visibility filters? `only_open` keeps open
/// ports only; `hide_tcpwrapped` drops ports whose service label is the
/// ambiguous `tcpwrapped`.
pub open spec fn keeps_port(rec: PortRec, hide_tcpwrapped: bool, only_open: bool) -> bool {
    (!only_open || rec.state == PortState::Open) && (!hide_tcpwrapped || rec.service != Some(
        "tcpwrapped"@,
    ))
}

/// The records surviving the visibility filters, in order.
pub open spec fn filter_kept(s: Seq<PortRec>, hide_tcpwrapped: bool, only_open: bool) -> Seq<
    PortRec,
> {
    s.filter(|rec: PortRec| keeps_port(rec, hide_tcpwrapped, only_open))
}

/// Sorted by ascending port number.
pub open spec fn sorted_by_port(s: Seq<PortRec>) -> bool {
    forall|i: int, j: int| 0 <= i < j < s.len() ==> #[trigger] s[i].port <= #[trigger] s[j].port
}

/// Is the record's service label the ambiguous `tcpwrapped`?
pub fn is_tcpwrapped(p: &PortDetail) -> (r: bool)
    ensures
        r == (p@.service == Some("tcpwrapped"@)),
{
    match &p.service {
        Some(s) => str_eq(s.as_str(), "tcpwrapped"),
        None => false,
    }
}

/// Executable mirror of [`keeps_port`].
pub fn keeps_port_exec(p: &PortDetail, hide_tcpwrapped: bool, only_open: bool) -> (r: bool)
    ensures
        r == keeps_port(p@, hide_tcpwrapped, only_open),
{
    let state_ok = !only_open || p.state == PortState::Open;
    let service_ok = !hide_tcpwrapped || !is_tcpwrapped(p);
    state_ok && service_ok
}

/// Applies the visibility filters and returns the surviving ports sorted by
/// port number. The result holds exactly the surviving records; ports that
/// share a number may appear in either order.
pub fn filter_ports(ports: &Vec<PortDetail>, hide_tcpwrapped: bool, only_open: bool) -> (r: Vec<
    PortDetail,
>)
    ensures
        ports_view(r@).to_multiset() == filter_kept(
            ports_view(ports@),
            hide_tcpwrapped,
            only_open,
        ).to_multiset(),
        sorted_by_port(ports_view(r@)),
{
    let mut kept: Vec<PortDetail> = Vec::new();
    let mut i: usize = 0;
    while i < ports.len()
        invariant
            i <= ports@.len(),
            ports_view(kept@) == filter_kept(
                ports_view(ports@.subrange(0, i as int)),
                hide_tcpwrapped,
                only_open,
            ),
        decreases ports.len() - i,
    {
        let ghost pref = ports@.subrange(0, i as int);
        let ghost prev = ports_view(kept@);
        let keep = keeps_port_exec(&ports[i], hide_tcpwrapped, only_open);
        if keep {
            kept.push(ports[i].clone());
        }
        proof {
            reveal(Seq::filter);
            assert(ports@.subrange(0, i + 1) =~= pref.push(ports@[i as int]));
            assert(ports_view(pref.push(ports@[i as int])) =~= ports_view(pref).push(
                ports@[i as int]@,
            ));
            assert(ports_view(pref).push(ports@[i as int]@).drop_last() =~= ports_view(pref));
            if keep {
                assert(ports_view(kept@) =~= prev.push(ports@[i as int]@));
            }
        }
        i += 1;
    }
    assert(ports@.subrange(0, ports@.len() as int) =~= ports@);
    sort_ports_by_number(kept)
}

/// Sorts records by ascending port number; the content is unchanged as a
/// multiset.
fn sort_ports_by_number(v: Vec<PortDetail>) -> (r: Vec<PortDetail>)
    ensures
        ports_view(r@).to_multiset() == ports_view(v@).to_multiset(),
        sorted_by_port(ports_view(r@)),
{
    broadcast use vstd::seq_lib::group_to_multiset_ensures;

    let mut rest = v;
    let mut out: Vec<PortDetail> = Vec::new();
    let ghost orig = ports_view(rest@);
    while rest.len() > 0
        invariant
            ports_view(out@).to_multiset().add(ports_view(rest@).to_multiset())
                == orig.to_multiset(),
            sorted_by_port(ports_view(out@)),
            forall|i: int, j: int|
                0 <= i < out@.len() && 0 <= j < rest@.len() ==> #[trigger] ports_view(
                    out@,
                )[i].port <= #[trigger] ports_view(rest@)[j].port,
        decreases rest.len(),
    {
        let mut m: usize = 0;
        let mut k: usize = 1;
        while k < rest.len()
            invariant
                m < k <= rest@.len(),
                rest@.len() > 0,
                forall|j: int|
                    0 <= j < k ==> ports_view(rest@)[m as int].port <= #[trigger] ports_view(
                        rest@,
                    )[j].port,
            decreases rest.len() - k,
        {
            if rest[k].port < rest[m].port {
                m = k;
            }
            k += 1;
        }
        let ghost rest_old = rest@;
        let ghost prev_rest = ports_view(rest@);
        let ghost prev_out = ports_view(out@);
        let x = rest.remove(m);
        out.push(x);
        proof {
            broadcast use vstd::multiset::group_multiset_axioms;

            assert(ports_view(out@) =~= prev_out.push(prev_rest[m as int]));
            rest_old.remove_ensures(m as int);
            prev_rest.remove_ensures(m as int);
            assert(ports_view(rest@) =~= prev_rest.remove(m as int)) by {
                assert(rest@ == rest_old.remove(m as int));
                assert(forall|j: int|
                    0 <= j < rest@.len() ==> #[trigger] ports_view(rest@)[j] == rest@[j]@);
            }
            assert(prev_rest.contains(prev_rest[m as int]));
            vstd::seq_lib::to_multiset_contains(prev_rest, prev_rest[m as int]);
            assert(prev_rest.to_multiset().count(prev_rest[m as int]) > 0);
            vstd::seq_lib::to_multiset_build(prev_out, prev_rest[m as int]);
            assert(ports_view(out@).to_multiset() == prev_out.to_multiset().insert(
                prev_rest[m as int],
            ));
            vstd::seq_lib::to_multiset_remove(prev_rest, m as int);
            assert(ports_view(rest@).to_multiset() == prev_rest.to_multiset().remove(
                prev_rest[m as int],
            ));
            assert(ports_view(out@).to_multiset().add(ports_view(rest@).to_multiset()) =~= orig
                .to_multiset());
            assert(forall|j: int|
                0 <= j < ports_view(rest@).len() ==> #[trigger] ports_view(rest@)[j] == (if j
                    < m as int {
                    prev_rest[j]
                } else {
                    prev_rest[j + 1]
                }));
        }
    }
    assert(ports_view(rest@).to_multiset() =~= Seq::<PortRec>::empty().to_multiset());
    assert(ports_view(out@).to_multiset().add(Multiset::<PortRec>::empty()) =~= ports_view(
        out@,
    ).to_multiset());
    out
}

/// How many records have the given state.
pub open spec fn count_matching(s: Seq<PortRec>, st: PortState) -> int
    decreases s.len(),
{
    if s.len() == 0 {
        0
    } else {
        count_matching(s.drop_last(), st) + if s.last().state == st {
            1int
        } else {
            0int
        }
    }
}

pub proof fn lemma_count_matching_bounds(s: Seq<PortRec>, st: PortState)
    ensures
        0 <= count_matching(s, st) <= s.len(),
    decreases s.len(),
{
    if s.len() > 0 {
        lemma_count_matching_bounds(s.drop_last(), st);
    }
}

/// Counts the records whose state is `Open`.
pub fn count_open_after_filter(ports: &Vec<PortDetail>) -> (r: usize)
    ensures
        r == count_matching(ports_view(ports@), PortState::Open),
{
    count_state(ports, PortState::Open)
}

/// Counts the records with the given state.
pub fn count_state(ports: &Vec<PortDetail>, st: PortState) -> (r: usize)
    ensures
        r == count_matching(ports_view(ports@), st),
{
    let mut n: usize = 0;
    let mut i: usize = 0;
    while i < ports.len()
        invariant
            i <= ports@.len(),
            n == count_matching(ports_view(ports@.subrange(0, i as int)), st),
            n <= i,
        decreases ports.len() - i,
    {
        let ghost pref = ports_view(ports@.subrange(0, i as int));
        proof {
            assert(ports_view(ports@.subrange(0, i + 1)) =~= pref.push(ports@[i as int]@));
            assert(pref.push(ports@[i as int]@).drop_last() =~= pref);
        }
        if ports[i].state == st {
            n += 1;
        }
        i += 1;
    }
    assert(ports@.subrange(0, ports@.len() as int) =~= ports@);
    n
}

/// A host is interesting when at least `min_open` of the given (already
/// filtered) ports are open.
pub fn is_interesting_host(ports: &Vec<PortDetail>, min_open: usize) -> (r: bool)
    ensures
        r == (count_matching(ports_view(ports@), PortState::Open) >= min_open),
{
    let n = count_open_after_filter(ports);
    n >= min_open
}

/// Aggregate counters over a report collection.
pub struct ScanSummary {
    pub hosts: usize,
    pub open_total: u64,
    pub closed_total: u64,
    pub filtered_total: u64,
}

/// The total number of records with the given state across all reports.
pub open spec fn total_matching(rs: Seq<HostRep>, st: PortState) -> int
    decreases rs.len(),
{
    if rs.len() == 0 {
        0
    } else {
        total_matching(rs.drop_last(), st) + count_matching(rs.last().ports, st)
    }
}

/// Counter value: exact up to the counter's width, then pinned at its
/// maximum.
pub open spec fn clamped(n: int) -> int {
    if n <= u64::MAX {
        n
    } else {
        u64::MAX as int
    }
}

proof fn lemma_total_matching_nonneg(rs: Seq<HostRep>, st: PortState)
    ensures
        total_matching(rs, st) >= 0,
    decreases rs.len(),
{
    if rs.len() > 0 {
        lemma_total_matching_nonneg(rs.drop_last(), st);
        lemma_count_matching_bounds(rs.last().ports, st);
    }
}

/// Totals the per-state port counts over all reports. Counters saturate at
/// their maximum instead of wrapping.
pub fn summarize_counts(reports: &Vec<HostReport>) -> (r: ScanSummary)
    ensures
        r.hosts == reports@.len(),
        r.open_total == clamped(total_matching(reports_view(reports@), PortState::Open)),
        r.closed_total == clamped(total_matching(reports_view(reports@), PortState::Closed)),
        r.filtered_total == clamped(total_matching(reports_view(reports@), PortState::Filtered)),
{
    let mut open_total: u64 = 0;
    let mut closed_total: u64 = 0;
    let mut filtered_total: u64 = 0;
    let mut i: usize = 0;
    while i < reports.len()
        invariant
            i <= reports@.len(),
            open_total == clamped(
                total_matching(reports_view(reports@.subrange(0, i as int)), PortState::Open),
            ),
            closed_total == clamped(
                total_matching(reports_view(reports@.subrange(0, i as int)), PortState::Closed),
            ),
            filtered_total == clamped(
                total_matching(reports_view(reports@.subrange(0, i as int)), PortState::Filtered),
            ),
        decreases reports.len() - i,
    {
        let ghost pref = reports_view(reports@.subrange(0, i as int));
        proof {
            assert(reports_view(reports@.subrange(0, i + 1)) =~= pref.push(reports@[i as int]@));
            assert(pref.push(reports@[i as int]@).drop_last() =~= pref);
            lemma_total_matching_nonneg(pref, PortState::Open);
            lemma_total_matching_nonneg(pref, PortState::Closed);
            lemma_total_matching_nonneg(pref, PortState::Filtered);
            lemma_count_matching_bounds(reports@[i as int]@.ports, PortState::Open);
            lemma_count_matching_bounds(reports@[i as int]@.ports, PortState::Closed);
            lemma_count_matching_bounds(reports@[i as int]@.ports, PortState::Filtered);
        }
        let open_here = count_state(&reports[i].ports, PortState::Open);
        let closed_here = count_state(&reports[i].ports, PortState::Closed);
        let filtered_here = count_state(&reports[i].ports, PortState::Filtered);
        open_total = saturating_add(open_total, open_here as u64);
        closed_total = saturating_add(closed_total, closed_here as u64);
        filtered_total = saturating_add(filtered_total, filtered_here as u64);
        i += 1;
    }
    assert(reports@.subrange(0, reports@.len() as int) =~= reports@);
    ScanSummary { hosts: reports.len(), open_total, closed_total, filtered_total }
}

/// Addition pinned at the counter maximum.
fn saturating_add(a: u64, b: u64) -> (r: u64)
    ensures
        r == clamped(a + b),
{
    if a <= u64::MAX - b {
        a + b
    } else {
        u64::MAX
    }
}


/// Is the service label a known identification (present and neither
/// `tcpwrapped` nor `unknown`)?
pub open spec fn known_service(rec: PortRec) -> bool {
    match rec.service {
        Some(s) => s != "tcpwrapped"@ && s != "unknown"@,
        None => false,
    }
}

/// The ports with a known service, in order.
pub open spec fn known_of(s: Seq<PortRec>) -> Seq<PortRec> {
    s.filter(|rec: PortRec| known_service(rec))
}

/// The remaining ports, in order.
pub open spec fn other_of(s: Seq<PortRec>) -> Seq<PortRec> {
    s.filter(|rec: PortRec| !known_service(rec))
}

/// Splits filtered ports into those with a known service and the rest,
/// both in input order.
pub fn partition_services(ports: &Vec<PortDetail>) -> (r: (Vec<PortDetail>, Vec<PortDetail>))
    ensures
        ports_view(r.0@) == known_of(ports_view(ports@)),
        ports_view(r.1@) == other_of(ports_view(ports@)),
{
    let mut known: Vec<PortDetail> = Vec::new();
    let mut other: Vec<PortDetail> = Vec::new();
    let mut i: usize = 0;
    proof {
        reveal(Seq::filter);
        assert(ports_view(ports@.subrange(0, 0)) =~= Seq::<PortRec>::empty());
        assert(ports_view(known@) =~= Seq::<PortRec>::empty());
        assert(ports_view(other@) =~= Seq::<PortRec>::empty());
    }
    while i < ports.len()
        invariant
            i <= ports@.len(),
            ports_view(known@) == known_of(ports_view(ports@.subrange(0, i as int))),
            ports_view(other@) == other_of(ports_view(ports@.subrange(0, i as int))),
        decreases ports.len() - i,
    {
        let ghost pref = ports_view(ports@.subrange(0, i as int));
        let ghost prev_known = ports_view(known@);
        let ghost prev_other = ports_view(other@);
        let is_known = match &ports[i].service {
            Some(sv) => !str_eq(sv.as_str(), "tcpwrapped") && !str_eq(sv.as_str(), "unknown"),
            None => false,
        };
        assert(is_known == known_service(ports@[i as int]@));
        if is_known {
            known.push(ports[i].clone());
        } else {
            other.push(ports[i].clone());
        }
        proof {
            reveal(Seq::filter);
            assert(ports_view(ports@.subrange(0, i + 1)) =~= pref.push(ports@[i as int]@));
            assert(pref.push(ports@[i as int]@).drop_last() =~= pref);
            if is_known {
                assert(ports_view(known@) =~= prev_known.push(ports@[i as int]@));
            } else {
                assert(ports_view(other@) =~= prev_other.push(ports@[i as int]@));
            }
        }
        i += 1;
    }
    assert(ports@.subrange(0, ports@.len() as int) =~= ports@);
    (known, other)
}

/// One port rendered as `port:service:state`; an absent service shows as
/// an empty field.
pub open spec fn entry_spec(rec: PortRec) -> Seq<char> {
    crate::text::dec_str(rec.port as int) + ":"@ + (match rec.service {
        Some(s) => s,
        None => Seq::<char>::empty(),
    }) + ":"@ + crate::codec::state_label(rec.state)
}

/// Renders one port entry.
pub fn render_port_entry(p: &PortDetail) -> (r: Vec<char>)
    ensures
        r@ == entry_spec(p@),
{
    let mut out: Vec<char> = Vec::new();
    let digits = crate::text::u64_to_chars(p.port as u64);
    crate::text::extend_chars(&mut out, &digits);
    crate::text::extend_str(&mut out, ":");
    match &p.service {
        Some(sv) => crate::text::extend_str(&mut out, sv.as_str()),
        None => {},
    }
    crate::text::extend_str(&mut out, ":");
    match p.state {
        PortState::Open => crate::text::extend_str(&mut out, "open"),
        PortState::Closed => crate::text::extend_str(&mut out, "closed"),
        PortState::Filtered => crate::text::extend_str(&mut out, "filtered"),
        PortState::Unknown => crate::text::extend_str(&mut out, "unknown"),
    }
    proof {
        assert(out@ =~= entry_spec(p@));
    }
    out
}

/// The comma-joined entries of a port list.
pub open spec fn entries_joined(s: Seq<PortRec>) -> Seq<char> {
    crate::text::join_sep(s.map_values(|rec: PortRec| entry_spec(rec)), ", "@)
}

/// Renders the comma-joined entries of a port list.
pub fn render_entries(ports: &Vec<PortDetail>) -> (r: Vec<char>)
    ensures
        r@ == entries_joined(ports_view(ports@)),
{
    let mut pieces: Vec<Vec<char>> = Vec::new();
    let mut i: usize = 0;
    proof {
        assert(pieces.deep_view() =~= ports_view(ports@.subrange(0, 0)).map_values(
            |rec: PortRec| entry_spec(rec),
        ));
    }
    while i < ports.len()
        invariant
            i <= ports@.len(),
            pieces.deep_view() == ports_view(ports@.subrange(0, i as int)).map_values(
                |rec: PortRec| entry_spec(rec),
            ),
        decreases ports.len() - i,
    {
        let ghost pref = ports_view(ports@.subrange(0, i as int));
        let ghost prev = pieces.deep_view();
        let piece = render_port_entry(&ports[i]);
        pieces.push(piece);
        proof {
            assert(pieces.deep_view() =~~= prev.push(entry_spec(ports@[i as int]@)));
            assert(ports_view(ports@.subrange(0, i + 1)) =~= pref.push(ports@[i as int]@));
            assert(pref.push(ports@[i as int]@).map_values(|rec: PortRec| entry_spec(rec))
                =~= pref.map_values(|rec: PortRec| entry_spec(rec)).push(
                entry_spec(ports@[i as int]@),
            ));
        }
        i += 1;
    }
    assert(ports@.subrange(0, ports@.len() as int) =~= ports@);
    crate::text::join_chars(&pieces, ", ")
}

/// The per-host detail block: a header naming the address and original
/// target (starred when interest marking is on and the open-port count
/// reaches the threshold), then either a no-ports note or up to two lines
/// listing the known-service ports and the first fifteen of the others.
pub open spec fn detail_lines_spec(
    ip: Seq<char>,
    target: Seq<char>,
    filtered: Seq<PortRec>,
    min_open: int,
    mark_interest: bool,
) -> Seq<Seq<char>> {
    let header = (if mark_interest && min_open > 0 && count_matching(filtered, PortState::Open)
        >= min_open {
        "\u{2605} "@
    } else {
        Seq::<char>::empty()
    }) + ip + " ("@ + target + ")"@;
    if filtered.len() == 0 {
        seq![header, "  (sin puertos tras filtro)"@]
    } else {
        let known = known_of(filtered);
        let other = other_of(filtered);
        let shown = if other.len() <= 15 {
            other
        } else {
            other.subrange(0, 15)
        };
        seq![header] + (if known.len() > 0 {
            seq!["  conocidos: "@ + entries_joined(known)]
        } else {
            Seq::<Seq<char>>::empty()
        }) + (if other.len() > 0 {
            seq![
                "  otros("@ + crate::text::dec_str(other.len() as int) + "): "@ + entries_joined(
                    shown,
                ),
            ] + (if other.len() > 15 {
                seq![
                    "  ... +"@ + crate::text::dec_str(other.len() - 15) + " m\u{e1}s"@,
                ]
            } else {
                Seq::<Seq<char>>::empty()
            })
        } else {
            Seq::<Seq<char>>::empty()
        })
    }
}

/// Renders one host's detail block over its already filtered ports.
pub fn host_detail_lines(
    ip: &str,
    target: &str,
    filtered: &Vec<PortDetail>,
    min_open: usize,
    mark_interest: bool,
) -> (r: Vec<String>)
    ensures
        r.deep_view() == detail_lines_spec(
            ip@,
            target@,
            ports_view(filtered@),
            min_open as int,
            mark_interest,
        ),
{
    let ghost gports = ports_view(filtered@);
    let mut header: Vec<char> = Vec::new();
    if mark_interest && min_open > 0 {
        let opens = count_open_after_filter(filtered);
        if opens >= min_open {
            crate::text::extend_str(&mut header, "\u{2605} ");
        }
    }
    crate::text::extend_str(&mut header, ip);
    crate::text::extend_str(&mut header, " (");
    crate::text::extend_str(&mut header, target);
    crate::text::extend_str(&mut header, ")");
    let ghost gheader = (if mark_interest && min_open > 0 && count_matching(
        gports,
        PortState::Open,
    ) >= min_open {
        "\u{2605} "@
    } else {
        Seq::<char>::empty()
    }) + ip@ + " ("@ + target@ + ")"@;
    assert(header@ =~= gheader);
    let mut out: Vec<String> = Vec::new();
    out.push(crate::text::chars_to_string(&header));
    if filtered.len() == 0 {
        out.push("  (sin puertos tras filtro)".to_owned());
        proof {
            assert(out.deep_view() =~~= seq![gheader, "  (sin puertos tras filtro)"@]);
        }
        return out;
    }
    let (known, other) = partition_services(filtered);
    if known.len() > 0 {
        let mut line: Vec<char> = Vec::new();
        crate::text::extend_str(&mut line, "  conocidos: ");
        let entries = render_entries(&known);
        crate::text::extend_chars(&mut line, &entries);
        assert(line@ =~= "  conocidos: "@ + entries_joined(known_of(gports)));
        out.push(crate::text::chars_to_string(&line));
    }
    if other.len() > 0 {
        let mut line: Vec<char> = Vec::new();
        crate::text::extend_str(&mut line, "  otros(");
        let count = crate::text::u64_to_chars(other.len() as u64);
        crate::text::extend_chars(&mut line, &count);
        crate::text::extend_str(&mut line, "): ");
        let head: Vec<PortDetail> = if other.len() > 15 {
            let mut h: Vec<PortDetail> = Vec::new();
            let mut k: usize = 0;
            while k < 15
                invariant
                    k <= 15,
                    other@.len() > 15,
                    h@.len() == k,
                    forall|j: int| 0 <= j < k ==> #[trigger] h@[j] == other@[j],
                decreases 15 - k,
            {
                h.push(other[k].clone());
                k += 1;
            }
            proof {
                assert(h@ =~= other@.subrange(0, 15));
                assert(ports_view(h@) =~= ports_view(other@).subrange(0, 15));
            }
            h
        } else {
            let mut h: Vec<PortDetail> = Vec::new();
            let mut k: usize = 0;
            while k < other.len()
                invariant
                    k <= other@.len(),
                    h@.len() == k,
                    forall|j: int| 0 <= j < k ==> #[trigger] h@[j] == other@[j],
                decreases other.len() - k,
            {
                h.push(other[k].clone());
                k += 1;
            }
            proof {
                assert(h@ =~= other@);
            }
            h
        };
        let entries = render_entries(&head);
        crate::text::extend_chars(&mut line, &entries);
        proof {
            let gshown = if other_of(gports).len() <= 15 {
                other_of(gports)
            } else {
                other_of(gports).subrange(0, 15)
            };
            assert(ports_view(head@) == gshown);
            assert(line@ =~= "  otros("@ + crate::text::dec_str(other_of(gports).len() as int)
                + "): "@ + entries_joined(gshown));
        }
        out.push(crate::text::chars_to_string(&line));
        if other.len() > 15 {
            let mut more: Vec<char> = Vec::new();
            crate::text::extend_str(&mut more, "  ... +");
            let extra = crate::text::u64_to_chars((other.len() - 15) as u64);
            crate::text::extend_chars(&mut more, &extra);
            crate::text::extend_str(&mut more, " m\u{e1}s");
            assert(more@ =~= "  ... +"@ + crate::text::dec_str(other_of(gports).len() - 15)
                + " m\u{e1}s"@);
            out.push(crate::text::chars_to_string(&more));
        }
    }
    proof {
        let known_part = if known_of(gports).len() > 0 {
            seq!["  conocidos: "@ + entries_joined(known_of(gports))]
        } else {
            Seq::<Seq<char>>::empty()
        };
        let gshown = if other_of(gports).len() <= 15 {
            other_of(gports)
        } else {
            other_of(gports).subrange(0, 15)
        };
        let other_part = if other_of(gports).len() > 0 {
            seq![
                "  otros("@ + crate::text::dec_str(other_of(gports).len() as int) + "): "@
                    + entries_joined(gshown),
            ] + (if other_of(gports).len() > 15 {
                seq![
                    "  ... +"@ + crate::text::dec_str(other_of(gports).len() - 15)
                        + " m\u{e1}s"@,
                ]
            } else {
                Seq::<Seq<char>>::empty()
            })
        } else {
            Seq::<Seq<char>>::empty()
        };
        assert(out.deep_view() =~~= seq![gheader] + known_part + other_part);
    }
    out
}


/// A report with the visibility filters applied to its ports.
pub fn filter_report(rep: &HostReport, hide_tcpwrapped: bool, only_open: bool) -> (r: HostReport)
    ensures
        r@.target == rep@.target,
        r@.ip == rep@.ip,
        r@.ports.to_multiset() == filter_kept(rep@.ports, hide_tcpwrapped, only_open).to_multiset(),
        sorted_by_port(r@.ports),
{
    let ports = filter_ports(&rep.ports, hide_tcpwrapped, only_open);
    HostReport { target: rep.target.clone(), ip: rep.ip.clone(), ports }
}

/// One table row of the structured report.
pub open spec fn md_row_spec(rec: PortRec) -> Seq<char> {
    "| "@ + crate::text::dec_str(rec.port as int) + " | "@ + crate::codec::state_label(rec.state)
        + " | "@ + (match rec.service {
        Some(s) => s,
        None => Seq::<char>::empty(),
    }) + " |\n"@
}

/// The table rows of one report's ports, in order.
pub open spec fn md_rows_spec(ports: Seq<PortRec>) -> Seq<char>
    decreases ports.len(),
{
    if ports.len() == 0 {
        Seq::empty()
    } else {
        md_rows_spec(ports.drop_last()) + md_row_spec(ports.last())
    }
}

/// One report's section of the structured report.
pub open spec fn md_host_spec(rep: HostRep) -> Seq<char> {
    "## "@ + rep.ip + " ("@ + rep.target + ")\n\n"@ + (if rep.ports.len() == 0 {
        "_Sin puertos tras filtro._\n\n"@
    } else {
        "| Puerto | Estado | Servicio |\n|-------:|--------|----------|\n"@ + md_rows_spec(
            rep.ports,
        ) + "\n"@
    })
}

/// The whole structured report over already filtered reports.
pub open spec fn markdown_spec(reports: Seq<HostRep>) -> Seq<char>
    decreases reports.len(),
{
    if reports.len() == 0 {
        "# Reporte de Escaneo\n\n"@
    } else {
        markdown_spec(reports.drop_last()) + md_host_spec(reports.last())
    }
}

/// Renders the structured report of already filtered reports.
pub fn render_markdown(reports: &Vec<HostReport>) -> (r: String)
    ensures
        r@ == markdown_spec(reports_view(reports@)),
{
    let ghost greps = reports_view(reports@);
    let mut md: Vec<char> = Vec::new();
    crate::text::extend_str(&mut md, "# Reporte de Escaneo\n\n");
    proof {
        assert(greps.subrange(0, 0) =~= Seq::<HostRep>::empty());
        assert(md@ =~= markdown_spec(greps.subrange(0, 0)));
    }
    let mut h: usize = 0;
    while h < reports.len()
        invariant
            h <= reports@.len(),
            greps == reports_view(reports@),
            greps.len() == reports@.len(),
            md@ == markdown_spec(greps.subrange(0, h as int)),
        decreases reports.len() - h,
    {
        let ghost pref = greps.subrange(0, h as int);
        let ghost prev = md@;
        let rep = &reports[h];
        assert(rep@ == greps[h as int]);
        crate::text::extend_str(&mut md, "## ");
        crate::text::extend_str(&mut md, rep.ip.as_str());
        crate::text::extend_str(&mut md, " (");
        crate::text::extend_str(&mut md, rep.target.as_str());
        crate::text::extend_str(&mut md, ")\n\n");
        if rep.ports.len() == 0 {
            crate::text::extend_str(&mut md, "_Sin puertos tras filtro._\n\n");
        } else {
            crate::text::extend_str(
                &mut md,
                "| Puerto | Estado | Servicio |\n|-------:|--------|----------|\n",
            );
            let ghost mid = md@;
            let mut k: usize = 0;
            proof {
                assert(md@ =~= mid + md_rows_spec(rep@.ports.subrange(0, 0)));
            }
            while k < rep.ports.len()
                invariant
                    k <= rep.ports@.len(),
                    rep@.ports.len() == rep.ports@.len(),
                    forall|j: int|
                        0 <= j < rep.ports@.len() ==> #[trigger] rep@.ports[j] == rep.ports@[j]@,
                    md@ == mid + md_rows_spec(rep@.ports.subrange(0, k as int)),
                decreases rep.ports.len() - k,
            {
                let ghost rows_pref = rep@.ports.subrange(0, k as int);
                let ghost prev2 = md@;
                let p = &rep.ports[k];
                crate::text::extend_str(&mut md, "| ");
                let digits = crate::text::u64_to_chars(p.port as u64);
                crate::text::extend_chars(&mut md, &digits);
                crate::text::extend_str(&mut md, " | ");
                match p.state {
                    PortState::Open => crate::text::extend_str(&mut md, "open"),
                    PortState::Closed => crate::text::extend_str(&mut md, "closed"),
                    PortState::Filtered => crate::text::extend_str(&mut md, "filtered"),
                    PortState::Unknown => crate::text::extend_str(&mut md, "unknown"),
                }
                crate::text::extend_str(&mut md, " | ");
                match &p.service {
                    Some(sv) => crate::text::extend_str(&mut md, sv.as_str()),
                    None => {},
                }
                crate::text::extend_str(&mut md, " |\n");
                proof {
                    assert(md@ =~= prev2 + md_row_spec(rep@.ports[k as int]));
                    assert(rep@.ports.subrange(0, k + 1) =~= rows_pref.push(
                        rep@.ports[k as int],
                    ));
                    assert(rows_pref.push(rep@.ports[k as int]).drop_last() =~= rows_pref);
                    assert(md@ =~= mid + md_rows_spec(rep@.ports.subrange(0, k + 1)));
                }
                k += 1;
            }
            assert(rep@.ports.subrange(0, rep@.ports.len() as int) =~= rep@.ports);
            crate::text::extend_str(&mut md, "\n");
        }
        proof {
            assert(md@ =~= prev + md_host_spec(greps[h as int]));
            assert(greps.subrange(0, h + 1) =~= pref.push(greps[h as int]));
            assert(pref.push(greps[h as int]).drop_last() =~= pref);
        }
        h += 1;
    }
    assert(greps.subrange(0, greps.len() as int) =~= greps);
    crate::text::chars_to_string(&md)
}

/// One tabular row: target, address, port, state, service.
pub open spec fn csv_row_spec(rep: HostRep, rec: PortRec) -> Seq<Seq<char>> {
    seq![
        rep.target,
        rep.ip,
        crate::text::dec_str(rec.port as int),
        crate::codec::state_label(rec.state),
        match rec.service {
            Some(s) => s,
            None => Seq::<char>::empty(),
        },
    ]
}

/// The rows of one report, in port order.
pub open spec fn csv_host_rows(rep: HostRep) -> Seq<Seq<Seq<char>>>
    decreases rep.ports.len(),
{
    if rep.ports.len() == 0 {
        Seq::empty()
    } else {
        csv_host_rows(HostRep { ports: rep.ports.drop_last(), ..rep }) + seq![
            csv_row_spec(rep, rep.ports.last()),
        ]
    }
}

/// The header and all reports' rows, in report order.
pub open spec fn csv_rows_spec(reports: Seq<HostRep>) -> Seq<Seq<Seq<char>>>
    decreases reports.len(),
{
    if reports.len() == 0 {
        seq![seq!["target"@, "ip"@, "port"@, "state"@, "service"@]]
    } else {
        csv_rows_spec(reports.drop_last()) + csv_host_rows(reports.last())
    }
}

/// The tabular export's rows over already filtered reports: the header,
/// then one row per report per port.
pub fn csv_rows(reports: &Vec<HostReport>) -> (r: Vec<Vec<String>>)
    ensures
        r.deep_view() == csv_rows_spec(reports_view(reports@)),
{
    let ghost greps = reports_view(reports@);
    let mut out: Vec<Vec<String>> = Vec::new();
    let mut header: Vec<String> = Vec::new();
    header.push("target".to_owned());
    header.push("ip".to_owned());
    header.push("port".to_owned());
    header.push("state".to_owned());
    header.push("service".to_owned());
    out.push(header);
    proof {
        assert(greps.subrange(0, 0) =~= Seq::<HostRep>::empty());
        assert(out.deep_view() =~~= csv_rows_spec(greps.subrange(0, 0)));
    }
    let mut h: usize = 0;
    while h < reports.len()
        invariant
            h <= reports@.len(),
            greps == reports_view(reports@),
            greps.len() == reports@.len(),
            out.deep_view() == csv_rows_spec(greps.subrange(0, h as int)),
        decreases reports.len() - h,
    {
        let ghost pref = greps.subrange(0, h as int);
        let ghost prev = out.deep_view();
        let rep = &reports[h];
        assert(rep@ == greps[h as int]);
        let ghost ghost_rep = rep@;
        let mut k: usize = 0;
        proof {
            assert(csv_host_rows_prefix(ghost_rep, 0) =~= Seq::<Seq<Seq<char>>>::empty());
            assert(out.deep_view() =~= prev + csv_host_rows_prefix(ghost_rep, 0));
        }
        while k < rep.ports.len()
            invariant
                k <= rep.ports@.len(),
                ghost_rep == rep@,
                rep@.ports.len() == rep.ports@.len(),
                forall|j: int|
                    0 <= j < rep.ports@.len() ==> #[trigger] rep@.ports[j] == rep.ports@[j]@,
                out.deep_view() == prev + csv_host_rows_prefix(ghost_rep, k as int),
            decreases rep.ports.len() - k,
        {
            let ghost prev2 = out.deep_view();
            let p = &rep.ports[k];
            let mut row: Vec<String> = Vec::new();
            row.push(rep.target.clone());
            row.push(rep.ip.clone());
            let digits = crate::text::u64_to_chars(p.port as u64);
            row.push(crate::text::chars_to_string(&digits));
            match p.state {
                PortState::Open => row.push("open".to_owned()),
                PortState::Closed => row.push("closed".to_owned()),
                PortState::Filtered => row.push("filtered".to_owned()),
                PortState::Unknown => row.push("unknown".to_owned()),
            }
            match &p.service {
                Some(sv) => row.push(sv.clone()),
                None => row.push("".to_owned()),
            }
            proof {
                reveal_strlit("");
                assert(row.deep_view() =~~= csv_row_spec(ghost_rep, rep@.ports[k as int]));
            }
            out.push(row);
            proof {
                assert(out.deep_view() =~~= prev2.push(
                    csv_row_spec(ghost_rep, rep@.ports[k as int]),
                ));
                lemma_csv_host_rows_prefix_step(ghost_rep, k as int);
                assert(prev2.push(csv_row_spec(ghost_rep, rep@.ports[k as int])) =~= prev
                    + csv_host_rows_prefix(ghost_rep, k + 1));
            }
            k += 1;
        }
        proof {
            lemma_csv_host_rows_prefix_full(ghost_rep);
            assert(out.deep_view() == prev + csv_host_rows(greps[h as int]));
            assert(greps.subrange(0, h + 1) =~= pref.push(greps[h as int]));
            assert(pref.push(greps[h as int]).drop_last() =~= pref);
        }
        h += 1;
    }
    assert(greps.subrange(0, greps.len() as int) =~= greps);
    out
}

/// The rows of the first `k` ports of a report.
pub open spec fn csv_host_rows_prefix(rep: HostRep, k: int) -> Seq<Seq<Seq<char>>> {
    csv_host_rows(HostRep { ports: rep.ports.subrange(0, k), ..rep })
}

proof fn lemma_csv_row_ports_irrelevant(r1: HostRep, r2: HostRep, rec: PortRec)
    requires
        r1.ip == r2.ip,
        r1.target == r2.target,
    ensures
        csv_row_spec(r1, rec) == csv_row_spec(r2, rec),
{
    assert(csv_row_spec(r1, rec) =~= csv_row_spec(r2, rec));
}

proof fn lemma_csv_host_rows_prefix_step(rep: HostRep, k: int)
    requires
        0 <= k < rep.ports.len(),
    ensures
        csv_host_rows_prefix(rep, k + 1) == csv_host_rows_prefix(rep, k) + seq![
            csv_row_spec(rep, rep.ports[k]),
        ],
{
    let hk1 = HostRep { ports: rep.ports.subrange(0, k + 1), ..rep };
    assert(hk1.ports.drop_last() =~= rep.ports.subrange(0, k));
    assert(hk1.ports.last() == rep.ports[k]);
    lemma_csv_row_ports_irrelevant(hk1, rep, rep.ports[k]);
}

proof fn lemma_csv_host_rows_prefix_full(rep: HostRep)
    ensures
        csv_host_rows_prefix(rep, rep.ports.len() as int) == csv_host_rows(rep),
{
    assert(rep.ports.subrange(0, rep.ports.len() as int) =~= rep.ports);
    assert(HostRep { ports: rep.ports.subrange(0, rep.ports.len() as int), ..rep } == rep);
}

} // verus!
