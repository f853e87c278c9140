//! The adaptive/hunt controller: the pipeline state threaded through scan
//! cycles, the batch selection, the "interesting host" bookkeeping and the
//! stop predicates of the three modes (hunt, adaptive, plain).

use vstd::prelude::*;
use crate::models::{HostRep, HostReport, PortState, reports_view};
use crate::output::count_matching;
use crate::text::{lex_lt, lemma_lex_trans, str_cmp3, str_eq};

verus! {

/// The views of a string sequence.
pub open spec fn strings_view(s: Seq<String>) -> Seq<Seq<char>> {
    s.map_values(|x: String| x@)
}

/// Strictly ascending in code-point order: sorted with no duplicates.
pub open spec fn sorted_unique_addrs(s: Seq<Seq<char>>) -> bool {
    forall|i: int, j: int| 0 <= i < j < s.len() ==> lex_lt(#[trigger] s[i], #[trigger] s[j])
}

/// Inserts an address into a sorted, duplicate-free pool.
pub(crate) fn insert_addr(pool: &mut Vec<String>, addr: String)
    requires
        sorted_unique_addrs(strings_view(old(pool)@)),
    ensures
        sorted_unique_addrs(strings_view(final(pool)@)),
        strings_view(final(pool)@).to_set() =~= strings_view(old(pool)@).to_set().insert(addr@),
{
    proof {
        crate::text::lemma_strings_view(pool);
    }
    let ghost prev = strings_view(pool@);
    let mut p: usize = 0;
    loop
        invariant_except_break
            p <= pool@.len(),
            pool@ == old(pool)@,
            prev == strings_view(pool@),
            prev.len() == pool@.len(),
            forall|j: int| 0 <= j < pool@.len() ==> #[trigger] prev[j] == pool@[j]@,
            sorted_unique_addrs(prev),
            forall|j: int| 0 <= j < p ==> lex_lt(#[trigger] prev[j], addr@),
        ensures
            p <= pool@.len(),
            pool@ == old(pool)@,
            prev == strings_view(pool@),
            prev.len() == pool@.len(),
            forall|j: int| 0 <= j < pool@.len() ==> #[trigger] prev[j] == pool@[j]@,
            forall|j: int| 0 <= j < p ==> lex_lt(#[trigger] prev[j], addr@),
            p < pool@.len() ==> (prev[p as int] == addr@ || lex_lt(addr@, prev[p as int])),
        decreases pool@.len() - p,
    {
        if p == pool.len() {
            break ;
        }
        let c = str_cmp3(pool[p].as_str(), addr.as_str());
        if c == 0 {
            break ;
        }
        if c == 1 {
            break ;
        }
        p += 1;
    }
    if p < pool.len() {
        let c = str_eq(pool[p].as_str(), addr.as_str());
        if c {
            assert(prev.to_set().contains(addr@)) by {
                assert(prev[p as int] == addr@);
            }
            assert(prev.to_set() =~= prev.to_set().insert(addr@));
            return ;
        }
    }
    assert(p < pool@.len() ==> lex_lt(addr@, prev[p as int]));
    let ghost before = pool@;
    pool.insert(p, addr);
    proof {
        before.insert_ensures(p as int, addr);
        crate::text::lemma_strings_view(pool);
        let now = strings_view(pool@);
        assert(now.len() == prev.len() + 1);
        assert(forall|j: int| 0 <= j < p ==> #[trigger] now[j] == prev[j]);
        assert(now[p as int] == addr@);
        assert(forall|j: int| p < j < now.len() ==> #[trigger] now[j] == prev[j - 1]);
        assert(sorted_unique_addrs(now)) by {
            assert forall|i: int, j: int| 0 <= i < j < now.len() implies lex_lt(
                #[trigger] now[i],
                #[trigger] now[j],
            ) by {
                if i < p && j < p {
                } else if j == p {
                    assert(lex_lt(prev[i], addr@));
                } else if i == p {
                    assert(now[j] == prev[j - 1]);
                    if j - 1 > p as int - 1 && p < prev.len() {
                        if j - 1 == p {
                        } else {
                            lemma_lex_trans(addr@, prev[p as int], prev[j - 1]);
                        }
                    }
                } else if i < p {
                    assert(now[j] == prev[j - 1]);
                    if p < prev.len() {
                        if j - 1 == p {
                            assert(lex_lt(prev[i], addr@));
                            lemma_lex_trans(prev[i], addr@, prev[p as int]);
                        } else {
                            assert(lex_lt(prev[i], prev[j - 1]));
                        }
                    } else {
                        assert(lex_lt(prev[i], prev[j - 1]));
                    }
                } else {
                    assert(now[i] == prev[i - 1] && now[j] == prev[j - 1]);
                }
            }
        }
        assert(now.to_set() =~= prev.to_set().insert(addr@)) by {
            assert forall|y: Seq<char>| now.to_set().contains(y) implies prev.to_set().insert(
                addr@,
            ).contains(y) by {
                let i = choose|i: int| 0 <= i < now.len() && #[trigger] now[i] == y;
                if i < p {
                    assert(prev[i] == y);
                } else if i > p {
                    assert(prev[i - 1] == y);
                }
            }
            assert forall|y: Seq<char>| prev.to_set().insert(addr@).contains(y) implies now
                .to_set().contains(y) by {
                if y == addr@ {
                    assert(now[p as int] == y);
                } else {
                    let i = choose|i: int| 0 <= i < prev.len() && #[trigger] prev[i] == y;
                    if i < p {
                        assert(now[i] == y);
                    } else {
                        assert(now[i + 1] == y);
                    }
                }
            }
        }
    }
}

/// The order is irreflexive.
proof fn lemma_lex_irrefl(a: Seq<char>)
    ensures
        !lex_lt(a, a),
    decreases a.len(),
{
    if a.len() > 0 {
        lemma_lex_irrefl(a.drop_first());
    }
}

/// A sorted duplicate-free list has as many elements as its content set.
pub proof fn lemma_sorted_unique_card(s: Seq<Seq<char>>)
    requires
        sorted_unique_addrs(s),
    ensures
        s.to_set().len() == s.len(),
        s.to_set().finite(),
{
    assert(s.no_duplicates()) by {
        assert forall|i: int, j: int|
            0 <= i < s.len() && 0 <= j < s.len() && i != j implies s[i] != s[j] by {
            if i < j {
                assert(lex_lt(s[i], s[j]));
                if s[i] == s[j] {
                    lemma_lex_irrefl(s[i]);
                }
            } else {
                assert(lex_lt(s[j], s[i]));
                if s[i] == s[j] {
                    lemma_lex_irrefl(s[i]);
                }
            }
        }
    }
    s.unique_seq_to_set();
    vstd::seq_lib::seq_to_set_is_finite(s);
}

/// Deduplicates a collected address list into a sorted unique pool;
/// insertion order is irrelevant to the result's content.
pub fn dedup_sort_addresses(addrs: Vec<String>) -> (r: Vec<String>)
    ensures
        sorted_unique_addrs(strings_view(r@)),
        strings_view(r@).to_set() == strings_view(addrs@).to_set(),
{
    let ghost src = strings_view(addrs@);
    proof {
        crate::text::lemma_strings_view(&addrs);
    }
    let mut pool: Vec<String> = Vec::new();
    let mut i: usize = 0;
    assert(strings_view(pool@).to_set() =~= src.subrange(0, 0).to_set()) by {
        assert(strings_view(pool@) =~= Seq::<Seq<char>>::empty());
        assert(src.subrange(0, 0) =~= Seq::<Seq<char>>::empty());
    }
    while i < addrs.len()
        invariant
            i <= addrs@.len(),
            src == strings_view(addrs@),
            src.len() == addrs@.len(),
            forall|j: int| 0 <= j < addrs@.len() ==> #[trigger] src[j] == addrs@[j]@,
            sorted_unique_addrs(strings_view(pool@)),
            strings_view(pool@).to_set() == src.subrange(0, i as int).to_set(),
        decreases addrs.len() - i,
    {
        let ghost before = strings_view(pool@).to_set();
        insert_addr(&mut pool, addrs[i].clone());
        proof {
            let pref = src.subrange(0, i as int);
            let pref1 = src.subrange(0, i + 1);
            assert(pref1 =~= pref.push(src[i as int]));
            assert(pref1.to_set() =~= pref.to_set().insert(src[i as int])) by {
                assert forall|y: Seq<char>| pref1.to_set().contains(y) implies pref
                    .to_set().insert(src[i as int]).contains(y) by {
                    let k = choose|k: int| 0 <= k < pref1.len() && #[trigger] pref1[k] == y;
                    if k < pref.len() {
                        assert(pref[k] == y);
                    }
                }
                assert forall|y: Seq<char>| pref.to_set().insert(src[i as int]).contains(
                    y,
                ) implies pref1.to_set().contains(y) by {
                    if y == src[i as int] {
                        assert(pref1[pref.len() as int] == y);
                    } else {
                        let k = choose|k: int| 0 <= k < pref.len() && #[trigger] pref[k] == y;
                        assert(pref1[k] == y);
                    }
                }
            }
        }
        i += 1;
    }
    assert(src.subrange(0, src.len() as int) =~= src);
    pool
}

/// Does any report carry this address?
pub open spec fn has_ip(rs: Seq<HostRep>, ip: Seq<char>) -> bool {
    exists|j: int| 0 <= j < rs.len() && #[trigger] rs[j].ip == ip
}

/// Is this address in the list?
pub open spec fn addrs_contain(addrs: Seq<Seq<char>>, ip: Seq<char>) -> bool {
    addrs.contains(ip)
}

/// Looks an address up among reports.
fn reports_have_ip(rs: &Vec<HostReport>, ip: &str) -> (r: bool)
    ensures
        r == has_ip(reports_view(rs@), ip@),
{
    let mut i: usize = 0;
    while i < rs.len()
        invariant
            i <= rs@.len(),
            forall|j: int| 0 <= j < i ==> reports_view(rs@)[j].ip != ip@,
        decreases rs.len() - i,
    {
        if str_eq(rs[i].ip.as_str(), ip) {
            assert(reports_view(rs@)[i as int].ip == ip@);
            return true;
        }
        assert(reports_view(rs@)[i as int].ip == rs@[i as int].ip@);
        i += 1;
    }
    false
}

/// Looks an address up in a plain list.
fn addrs_have(addrs: &Vec<String>, ip: &str) -> (r: bool)
    ensures
        r == addrs_contain(strings_view(addrs@), ip@),
{
    proof {
        crate::text::lemma_strings_view(addrs);
    }
    let mut i: usize = 0;
    while i < addrs.len()
        invariant
            i <= addrs@.len(),
            strings_view(addrs@).len() == addrs@.len(),
            forall|j: int|
                0 <= j < addrs@.len() ==> #[trigger] strings_view(addrs@)[j] == addrs@[j]@,
            forall|j: int| 0 <= j < i ==> strings_view(addrs@)[j] != ip@,
        decreases addrs.len() - i,
    {
        if str_eq(addrs[i].as_str(), ip) {
            assert(strings_view(addrs@)[i as int] == ip@);
            return true;
        }
        i += 1;
    }
    false
}

/// The batch bounds of one hunt cycle: from the cursor, at most
/// `batch_size` addresses, clipped to the pool's end.
pub fn hunt_batch_bounds(cursor: usize, batch_size: usize, pool_len: usize) -> (r: (usize, usize))
    requires
        cursor <= pool_len,
    ensures
        r.0 == cursor,
        r.1 == if cursor + batch_size <= pool_len {
            (cursor + batch_size) as int
        } else {
            pool_len as int
        },
{
    if batch_size <= pool_len - cursor {
        (cursor, cursor + batch_size)
    } else {
        (cursor, pool_len)
    }
}

/// The hunt controller's per-cycle state.
pub struct HuntState {
    /// How many more interesting hosts are needed.
    pub needed: usize,
    /// Every report produced so far, in cycle order, batch order.
    pub all_reports: Vec<HostReport>,
    /// The interesting hosts found so far, deduplicated by address.
    pub interesting: Vec<HostReport>,
}

/// One report absorbed into the hunt state.
pub open spec fn hunt_absorb_one(
    needed: int,
    all: Seq<HostRep>,
    interesting: Seq<HostRep>,
    rep: HostRep,
    min_open: int,
) -> (int, Seq<HostRep>, Seq<HostRep>) {
    let is_new = count_matching(rep.ports, PortState::Open) >= min_open && !has_ip(
        interesting,
        rep.ip,
    );
    (
        if is_new && needed > 0 {
            needed - 1
        } else {
            needed
        },
        all.push(rep),
        if is_new {
            interesting.push(rep)
        } else {
            interesting
        },
    )
}

/// A whole batch absorbed, in order.
pub open spec fn hunt_absorb_all(
    needed: int,
    all: Seq<HostRep>,
    interesting: Seq<HostRep>,
    reps: Seq<HostRep>,
    min_open: int,
) -> (int, Seq<HostRep>, Seq<HostRep>)
    decreases reps.len(),
{
    if reps.len() == 0 {
        (needed, all, interesting)
    } else {
        let step = hunt_absorb_one(needed, all, interesting, reps[0], min_open);
        hunt_absorb_all(step.0, step.1, step.2, reps.drop_first(), min_open)
    }
}

impl HuntState {
    /// Absorbs one batch of (already filtered) reports: a report whose
    /// open-port count reaches `min_open` and whose address is new to the
    /// interesting list joins it and decrements the needed count; every
    /// report is appended to the cumulative list.
    pub fn absorb_batch(&mut self, reports: Vec<HostReport>, min_open: usize)
        ensures
            ({
                let step = hunt_absorb_all(
                    old(self).needed as int,
                    reports_view(old(self).all_reports@),
                    reports_view(old(self).interesting@),
                    reports_view(reports@),
                    min_open as int,
                );
                &&& final(self).needed == step.0
                &&& reports_view(final(self).all_reports@) == step.1
                &&& reports_view(final(self).interesting@) == step.2
            }),
    {
        let ghost greps = reports_view(reports@);
        let ghost target = hunt_absorb_all(
            old(self).needed as int,
            reports_view(old(self).all_reports@),
            reports_view(old(self).interesting@),
            greps,
            min_open as int,
        );
        let mut reports = reports;
        let mut i: usize = 0;
        proof {
            assert(greps.subrange(0, greps.len() as int) =~= greps);
        }
        while i < reports.len()
            invariant
                i <= reports@.len(),
                greps.len() == reports@.len(),
                forall|j: int| 0 <= j < reports@.len() ==> #[trigger] greps[j] == reports@[j]@,
                target == hunt_absorb_all(
                    self.needed as int,
                    reports_view(self.all_reports@),
                    reports_view(self.interesting@),
                    greps.subrange(i as int, greps.len() as int),
                    min_open as int,
                ),
            decreases reports.len() - i,
        {
            let ghost rest = greps.subrange(i as int, greps.len() as int);
            proof {
                assert(rest[0] == greps[i as int]);
                assert(rest.drop_first() =~= greps.subrange(i + 1, greps.len() as int));
            }
            let ghost prev_all = reports_view(self.all_reports@);
            let ghost prev_int = reports_view(self.interesting@);
            let rep = reports[i].clone();
            assert(rep@ == greps[i as int]);
            let open_count = crate::output::count_open_after_filter(&rep.ports);
            let is_interesting = open_count >= min_open;
            let is_new = is_interesting && !reports_have_ip(&self.interesting, rep.ip.as_str());
            if is_new {
                self.interesting.push(rep.clone());
                if self.needed > 0 {
                    self.needed = self.needed - 1;
                }
                proof {
                    assert(reports_view(self.interesting@) =~= prev_int.push(greps[i as int]));
                }
            }
            self.all_reports.push(rep);
            proof {
                assert(reports_view(self.all_reports@) =~= prev_all.push(greps[i as int]));
            }
            i += 1;
        }
        assert(greps.subrange(greps.len() as int, greps.len() as int) =~= Seq::<HostRep>::empty());
    }
}

/// Why a hunt run stops, or that it goes on.
#[derive(Clone, Copy, PartialEq, Eq, Debug, Structural)]
pub enum HuntDecision {
    /// Enough interesting hosts were found.
    TargetReached,
    /// The pool is exhausted below the hard address limit.
    PoolExhausted,
    /// Scan the next batch.
    Continue,
}

/// The hunt stop predicate, checked after each batch: stop when the needed
/// count is met; stop when the pool is used up while under the hard
/// address limit; otherwise go on.
pub fn hunt_decision(needed: usize, cursor: usize, pool_len: usize, limit: usize) -> (r:
    HuntDecision)
    ensures
        r == (if needed == 0 {
            HuntDecision::TargetReached
        } else if cursor >= pool_len {
            HuntDecision::PoolExhausted
        } else {
            HuntDecision::Continue
        }),
{
    if needed == 0 {
        HuntDecision::TargetReached
    } else if cursor >= pool_len {
        HuntDecision::PoolExhausted
    } else {
        HuntDecision::Continue
    }
}

/// The adaptive controller's state across cycles.
pub struct AdaptiveState {
    /// The sorted, duplicate-free host pool.
    pub pool: Vec<String>,
    /// Addresses already scanned; a member never re-enters the work set.
    pub scanned: Vec<String>,
    /// How many interesting hosts have been seen.
    pub interesting_found: usize,
    /// Every report produced so far, in cycle order, batch order.
    pub reports: Vec<HostReport>,
}

impl AdaptiveState {
    /// The controller's invariant: every scanned address is in the pool.
    pub open spec fn wf(self) -> bool {
        forall|j: int|
            0 <= j < self.scanned@.len() ==> strings_view(self.pool@).contains(
                #[trigger] strings_view(self.scanned@)[j],
            )
    }

    /// A fresh state over a pool.
    pub fn new(pool: Vec<String>) -> (r: AdaptiveState)
        ensures
            r.wf(),
            r.pool@ == pool@,
            r.scanned@.len() == 0,
            r.interesting_found == 0,
            r.reports@.len() == 0,
    {
        AdaptiveState { pool, scanned: Vec::new(), interesting_found: 0, reports: Vec::new() }
    }

    /// The addresses not yet scanned, in pool order.
    pub fn remaining(&self) -> (r: Vec<String>)
        ensures
            strings_view(r@) == strings_view(self.pool@).filter(
                |a: Seq<char>| !strings_view(self.scanned@).contains(a),
            ),
    {
        proof {
            crate::text::lemma_strings_view(&self.pool);
        }
        let ghost gpool = strings_view(self.pool@);
        let mut out: Vec<String> = Vec::new();
        let mut i: usize = 0;
        proof {
            reveal(Seq::filter);
            assert(gpool.subrange(0, 0) =~= Seq::<Seq<char>>::empty());
            assert(strings_view(out@) =~= Seq::<Seq<char>>::empty());
        }
        while i < self.pool.len()
            invariant
                i <= self.pool@.len(),
                gpool == strings_view(self.pool@),
                gpool.len() == self.pool@.len(),
                forall|j: int| 0 <= j < self.pool@.len() ==> #[trigger] gpool[j] == self.pool@[j]@,
                strings_view(out@) == gpool.subrange(0, i as int).filter(
                    |a: Seq<char>| !strings_view(self.scanned@).contains(a),
                ),
            decreases self.pool.len() - i,
        {
            let ghost pref = gpool.subrange(0, i as int);
            let ghost prev = strings_view(out@);
            let in_scanned = addrs_have(&self.scanned, self.pool[i].as_str());
            if !in_scanned {
                out.push(self.pool[i].clone());
            }
            proof {
                reveal(Seq::filter);
                assert(gpool.subrange(0, i + 1) =~= pref.push(gpool[i as int]));
                assert(pref.push(gpool[i as int]).drop_last() =~= pref);
                if !in_scanned {
                    assert(strings_view(out@) =~= prev.push(gpool[i as int]));
                }
            }
            i += 1;
        }
        assert(gpool.subrange(0, gpool.len() as int) =~= gpool);
        out
    }

    /// Absorbs one batch of reports: counts each whose raw open-port count
    /// reaches `min_open` as interesting, marks its address scanned, and
    /// appends every report, in order.
    pub fn absorb_batch(&mut self, batch: Vec<HostReport>, min_open: usize)
        requires
            forall|j: int|
                0 <= j < batch@.len() ==> strings_view(old(self).pool@).contains(
                    #[trigger] reports_view(batch@)[j].ip,
                ),
            old(self).wf(),
            old(self).interesting_found + batch@.len() <= usize::MAX,
        ensures
            final(self).wf(),
            final(self).pool@ == old(self).pool@,
            reports_view(final(self).reports@) == reports_view(old(self).reports@)
                + reports_view(batch@),
            final(self).interesting_found == old(self).interesting_found + count_interesting(
                reports_view(batch@),
                min_open as int,
            ),
            strings_view(final(self).scanned@).to_set() == strings_view(
                old(self).scanned@,
            ).to_set().union(ips_of(reports_view(batch@)).to_set()),
    {
        let ghost gbatch = reports_view(batch@);
        let mut i: usize = 0;
        proof {
            assert(gbatch.subrange(0, 0) =~= Seq::<HostRep>::empty());
            assert(reports_view(self.reports@) + Seq::<HostRep>::empty() =~= reports_view(
                self.reports@,
            ));
            assert(count_interesting(gbatch.subrange(0, 0), min_open as int) == 0);
            assert(ips_of(gbatch.subrange(0, 0)) =~= Seq::<Seq<char>>::empty());
            assert(Seq::<Seq<char>>::empty().to_set() =~= Set::<Seq<char>>::empty());
            assert(strings_view(self.scanned@).to_set() =~= strings_view(
                self.scanned@,
            ).to_set().union(Set::<Seq<char>>::empty()));
        }
        while i < batch.len()
            invariant
                i <= batch@.len(),
                gbatch == reports_view(batch@),
                gbatch.len() == batch@.len(),
                forall|j: int| 0 <= j < batch@.len() ==> #[trigger] gbatch[j] == batch@[j]@,
                forall|j: int|
                    0 <= j < batch@.len() ==> strings_view(self.pool@).contains(
                        #[trigger] gbatch[j].ip,
                    ),
                self.wf(),
                self.pool@ == old(self).pool@,
                self.interesting_found == old(self).interesting_found + count_interesting(
                    gbatch.subrange(0, i as int),
                    min_open as int,
                ),
                old(self).interesting_found + gbatch.len() <= usize::MAX,
                reports_view(self.reports@) == reports_view(old(self).reports@) + gbatch.subrange(
                    0,
                    i as int,
                ),
                strings_view(self.scanned@).to_set() == strings_view(
                    old(self).scanned@,
                ).to_set().union(ips_of(gbatch.subrange(0, i as int)).to_set()),
            decreases batch.len() - i,
        {
            let ghost pref = gbatch.subrange(0, i as int);
            let ghost prev_scanned = strings_view(self.scanned@);
            let ghost prev_reports = reports_view(self.reports@);
            proof {
                lemma_count_interesting_bounds(pref, min_open as int);
                lemma_count_interesting_bounds(gbatch, min_open as int);
                lemma_count_interesting_prefix(gbatch, i as int, min_open as int);
            }
            let rep = batch[i].clone();
            assert(rep@ == gbatch[i as int]);
            let open_count = count_open_unfiltered(&rep.ports);
            if open_count >= min_open {
                self.interesting_found = self.interesting_found + 1;
            }
            let already = addrs_have(&self.scanned, rep.ip.as_str());
            if !already {
                let ghost sc = self.scanned@;
                self.scanned.push(rep.ip.clone());
                proof {
                    crate::text::lemma_strings_view(&self.scanned);
                    assert(strings_view(self.scanned@) =~= prev_scanned.push(
                        gbatch[i as int].ip,
                    ));
                }
            }
            self.reports.push(rep);
            proof {
                assert(reports_view(self.reports@) =~= prev_reports.push(gbatch[i as int]));
                assert(gbatch.subrange(0, i + 1) =~= pref.push(gbatch[i as int]));
                assert(pref.push(gbatch[i as int]).drop_last() =~= pref);
                assert(reports_view(old(self).reports@) + pref.push(gbatch[i as int])
                    =~= (reports_view(old(self).reports@) + pref).push(gbatch[i as int]));
                assert(ips_of(pref.push(gbatch[i as int])) =~= ips_of(pref).push(
                    gbatch[i as int].ip,
                ));
                crate::text::lemma_push_to_set_gen(ips_of(pref), gbatch[i as int].ip);
                if already {
                    assert(strings_view(self.scanned@).to_set().contains(gbatch[i as int].ip))
                        by {
                        let k = choose|k: int|
                            0 <= k < strings_view(self.scanned@).len() && #[trigger] strings_view(
                                self.scanned@,
                            )[k] == gbatch[i as int].ip;
                        assert(strings_view(self.scanned@)[k] == gbatch[i as int].ip);
                    }
                    assert(strings_view(self.scanned@).to_set() =~= strings_view(
                        old(self).scanned@,
                    ).to_set().union(ips_of(pref.push(gbatch[i as int])).to_set()));
                } else {
                    crate::text::lemma_push_to_set_gen(prev_scanned, gbatch[i as int].ip);
                    assert(strings_view(self.scanned@).to_set() =~= strings_view(
                        old(self).scanned@,
                    ).to_set().union(ips_of(pref.push(gbatch[i as int])).to_set()));
                }
                assert(self.wf()) by {
                    crate::text::lemma_strings_view(&self.scanned);
                }
            }
            i += 1;
        }
        assert(gbatch.subrange(0, gbatch.len() as int) =~= gbatch);
    }
}

/// The addresses of a report sequence, in order.
pub open spec fn ips_of(rs: Seq<HostRep>) -> Seq<Seq<char>> {
    rs.map_values(|r: HostRep| r.ip)
}

/// How many reports have at least `min_open` open ports, before filtering.
pub open spec fn count_interesting(rs: Seq<HostRep>, min_open: int) -> int
    decreases rs.len(),
{
    if rs.len() == 0 {
        0
    } else {
        count_interesting(rs.drop_last(), min_open) + if count_matching(
            rs.last().ports,
            PortState::Open,
        ) >= min_open {
            1int
        } else {
            0int
        }
    }
}

proof fn lemma_count_interesting_bounds(rs: Seq<HostRep>, min_open: int)
    ensures
        0 <= count_interesting(rs, min_open) <= rs.len(),
    decreases rs.len(),
{
    if rs.len() > 0 {
        lemma_count_interesting_bounds(rs.drop_last(), min_open);
    }
}

proof fn lemma_count_interesting_prefix(rs: Seq<HostRep>, i: int, min_open: int)
    requires
        0 <= i < rs.len(),
    ensures
        count_interesting(rs.subrange(0, i + 1), min_open) == count_interesting(
            rs.subrange(0, i),
            min_open,
        ) + if count_matching(rs[i].ports, PortState::Open) >= min_open {
            1int
        } else {
            0int
        },
{
    let t = rs.subrange(0, i + 1);
    assert(t.drop_last() =~= rs.subrange(0, i));
    assert(t.last() == rs[i]);
}

/// Counts open ports over the raw, unfiltered records of a report.
fn count_open_unfiltered(ports: &Vec<crate::models::PortDetail>) -> (r: usize)
    ensures
        r == count_matching(crate::models::ports_view(ports@), PortState::Open),
{
    crate::output::count_open_after_filter(ports)
}

/// What the adaptive controller does after a cycle.
#[derive(Clone, Copy, PartialEq, Eq, Debug, Structural)]
pub enum AdaptiveDecision {
    /// Enough interesting hosts: stop.
    TargetReached,
    /// The hard address limit is reached with the pool used up: stop.
    LimitReached,
    /// The pool is used up under the limit: ask the discovery collaborator
    /// for more addresses, with the given larger limit and extra pages.
    Expand { new_limit: usize, extra_pages: usize },
    /// Unscanned addresses remain: run another cycle.
    Rescan,
    /// Plain mode runs exactly one cycle.
    SingleCycleDone,
}

/// The number of extra result pages requested on each expansion.
pub const EXPANSION_PAGE_WINDOW: usize = 5;

/// The adaptive stop predicate, checked after each cycle. In plain mode
/// one cycle is always enough. In adaptive mode: stop once the interesting
/// target is met; when unscanned addresses remain, rescan; with the pool
/// exhausted, stop at the hard limit, else request an expansion by up to
/// five more addresses (capped at the limit) and five more pages.
pub fn adaptive_decision(
    adaptive: bool,
    interesting_found: usize,
    interesting_target: usize,
    scanned_len: usize,
    pool_len: usize,
    limit: usize,
) -> (r: AdaptiveDecision)
    requires
        scanned_len <= pool_len,
    ensures
        r == (if !adaptive {
            AdaptiveDecision::SingleCycleDone
        } else if interesting_found >= interesting_target {
            AdaptiveDecision::TargetReached
        } else if scanned_len < pool_len {
            AdaptiveDecision::Rescan
        } else if pool_len >= limit {
            AdaptiveDecision::LimitReached
        } else {
            AdaptiveDecision::Expand {
                new_limit: if pool_len + EXPANSION_PAGE_WINDOW <= limit {
                    (pool_len + EXPANSION_PAGE_WINDOW) as usize
                } else {
                    limit
                },
                extra_pages: EXPANSION_PAGE_WINDOW,
            }
        }),
{
    if !adaptive {
        AdaptiveDecision::SingleCycleDone
    } else if interesting_found >= interesting_target {
        AdaptiveDecision::TargetReached
    } else if scanned_len < pool_len {
        AdaptiveDecision::Rescan
    } else if pool_len >= limit {
        AdaptiveDecision::LimitReached
    } else {
        let new_limit = if limit - pool_len >= EXPANSION_PAGE_WINDOW {
            pool_len + EXPANSION_PAGE_WINDOW
        } else {
            limit
        };
        AdaptiveDecision::Expand { new_limit, extra_pages: EXPANSION_PAGE_WINDOW }
    }
}

/// Merges newly collected addresses into the pool, appending the unseen
/// ones in collection order; reports whether the pool grew.
pub fn merge_addresses(pool: &mut Vec<String>, add: Vec<String>) -> (grew: bool)
    ensures
        grew == (final(pool)@.len() > old(pool)@.len()),
        strings_view(final(pool)@).to_set() =~= strings_view(old(pool)@).to_set().union(
            strings_view(add@).to_set(),
        ),
        final(pool)@.len() >= old(pool)@.len(),
        forall|j: int| 0 <= j < old(pool)@.len() ==> final(pool)@[j] == old(pool)@[j],
{
    let ghost gadd = strings_view(add@);
    proof {
        crate::text::lemma_strings_view(&add);
        assert(gadd.subrange(0, 0) =~= Seq::<Seq<char>>::empty());
        assert(Seq::<Seq<char>>::empty().to_set() =~= Set::<Seq<char>>::empty());
        assert(strings_view(pool@).to_set() =~= strings_view(pool@).to_set().union(Set::<
            Seq<char>,
        >::empty()));
    }
    let base_len = pool.len();
    let mut i: usize = 0;
    while i < add.len()
        invariant
            i <= add@.len(),
            gadd == strings_view(add@),
            gadd.len() == add@.len(),
            forall|j: int| 0 <= j < add@.len() ==> #[trigger] gadd[j] == add@[j]@,
            base_len <= pool@.len(),
            base_len == old(pool)@.len(),
            forall|j: int| 0 <= j < base_len ==> pool@[j] == old(pool)@[j],
            strings_view(pool@).to_set() == strings_view(old(pool)@).to_set().union(
                gadd.subrange(0, i as int).to_set(),
            ),
        decreases add.len() - i,
    {
        let ghost pref = gadd.subrange(0, i as int);
        let ghost prev = strings_view(pool@);
        let present = addrs_have(pool, add[i].as_str());
        if !present {
            pool.push(add[i].clone());
            proof {
                crate::text::lemma_strings_view(pool);
                assert(strings_view(pool@) =~= prev.push(gadd[i as int]));
                crate::text::lemma_push_to_set_gen(prev, gadd[i as int]);
            }
        } else {
            proof {
                assert(prev.to_set().contains(gadd[i as int])) by {
                    let k = choose|k: int| 0 <= k < prev.len() && #[trigger] prev[k] == gadd[i as int];
                }
            }
        }
        proof {
            assert(gadd.subrange(0, i + 1) =~= pref.push(gadd[i as int]));
            crate::text::lemma_push_to_set_gen(pref, gadd[i as int]);
            assert(strings_view(pool@).to_set() =~= strings_view(old(pool)@).to_set().union(
                gadd.subrange(0, i + 1).to_set(),
            ));
        }
        i += 1;
    }
    assert(gadd.subrange(0, gadd.len() as int) =~= gadd);
    pool.len() > base_len
}

} // verus!
