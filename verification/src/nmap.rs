//! The service-scan stage's pure logic: normalization of extra scan flags
//! against the process's privilege level, port-list parsing, argument
//! assembly for one scan job, the privilege fallback retry, and the
//! reconfirmation of ambiguously wrapped ports.

use vstd::prelude::*;
use crate::models::{HostReport, PortDetail, PortRec, ports_view};
use crate::text::{
    chars_eq_str, chars_to_string, copy_range, dec_str, find_char, find_first, join_sep,
    parse_u16_spec, split_sep, split_ws, split_whitespace_chars, str_to_chars, trim_chars,
    trim_spec,
};

verus! {

/// Tokens with every occurrence of `from` replaced by `to`.
pub open spec fn replace_tok(s: Seq<Seq<char>>, from: Seq<char>, to: Seq<char>) -> Seq<Seq<char>> {
    s.map_values(
        |t: Seq<char>|
            if t == from {
                to
            } else {
                t
            },
    )
}

/// Tokens with every occurrence of `w` removed.
pub open spec fn drop_tok(s: Seq<Seq<char>>, w: Seq<char>) -> Seq<Seq<char>> {
    s.filter(|t: Seq<char>| t != w)
}

proof fn lemma_drop_tok_contains(s: Seq<Seq<char>>, w: Seq<char>, x: Seq<char>)
    ensures
        drop_tok(s, w).contains(x) <==> (s.contains(x) && x != w),
    decreases s.len(),
{
    reveal(Seq::filter);
    if s.len() == 0 {
    } else {
        lemma_drop_tok_contains(s.drop_last(), w, x);
        assert(s.contains(x) <==> (s.drop_last().contains(x) || s.last() == x)) by {
            if s.contains(x) {
                let i = choose|i: int| 0 <= i < s.len() && s[i] == x;
                if i < s.len() - 1 {
                    assert(s.drop_last()[i] == x);
                }
            }
            if s.drop_last().contains(x) {
                let i = choose|i: int| 0 <= i < s.drop_last().len() && s.drop_last()[i] == x;
                assert(s[i] == x);
            }
        }
        if x != w && s.last() == x {
            assert(drop_tok(s, w).contains(x)) by {
                assert(drop_tok(s, w).last() == x);
            }
        }
        if drop_tok(s, w).contains(x) {
            let i = choose|i: int| 0 <= i < drop_tok(s, w).len() && drop_tok(s, w)[i] == x;
            if s.last() != x || x == w {
                if x != w {
                    assert(drop_tok(s, w) == if s.last() != w {
                        drop_tok(s.drop_last(), w).push(s.last())
                    } else {
                        drop_tok(s.drop_last(), w)
                    });
                    if s.last() != w {
                        if i < drop_tok(s, w).len() - 1 {
                            assert(drop_tok(s.drop_last(), w)[i] == x);
                        }
                    }
                }
            }
        }
    }
}

/// The privilege-requiring scan-mode flag replaced by the unprivileged one
/// when privilege is absent.
pub open spec fn norm_step1(tokens: Seq<Seq<char>>, have_root: bool) -> Seq<Seq<char>> {
    if tokens.contains("-sS"@) && !have_root {
        replace_tok(tokens, "-sS"@, "-sT"@)
    } else {
        tokens
    }
}

/// Flags valid only under the privileged mode stripped once the
/// unprivileged mode flag is present.
pub open spec fn norm_step2(t1: Seq<Seq<char>>) -> Seq<Seq<char>> {
    if t1.contains("-sT"@) {
        drop_tok(t1, "--defeat-rst-ratelimit"@)
    } else {
        t1
    }
}

/// The two mode flags made mutually exclusive: the unprivileged one wins.
pub open spec fn norm_step3(t2: Seq<Seq<char>>) -> Seq<Seq<char>> {
    if t2.contains("-sT"@) {
        drop_tok(t2, "-sS"@)
    } else {
        t2
    }
}

/// A mode flag inserted when neither is present, privileged when available.
pub open spec fn norm_step4(t3: Seq<Seq<char>>, have_root: bool) -> Seq<Seq<char>> {
    if !t3.contains("-sT"@) && !t3.contains("-sS"@) {
        seq![if have_root { "-sS"@ } else { "-sT"@ }] + t3
    } else {
        t3
    }
}

/// The canonical flag list for a given token list and privilege state.
pub open spec fn normalize_spec(tokens: Seq<Seq<char>>, have_root: bool) -> Seq<Seq<char>> {
    norm_step4(norm_step3(norm_step2(norm_step1(tokens, have_root))), have_root)
}

/// Advisory conditions the normalizer reports alongside its result.
#[derive(Clone, Copy, PartialEq, Eq, Debug, Structural)]
pub enum NormalizeWarning {
    /// The privilege-requiring mode flag was replaced for lack of privilege.
    SynDowngraded,
    /// A flag valid only under the privileged mode was stripped.
    DefeatRstRemoved,
}

/// The warnings owed for a given token list and privilege state.
pub open spec fn normalize_warnings_spec(tokens: Seq<Seq<char>>, have_root: bool) -> Seq<
    NormalizeWarning,
> {
    let t1 = norm_step1(tokens, have_root);
    (if tokens.contains("-sS"@) && !have_root {
        seq![NormalizeWarning::SynDowngraded]
    } else {
        Seq::empty()
    }) + (if t1.contains("-sT"@) && t1.contains("--defeat-rst-ratelimit"@) {
        seq![NormalizeWarning::DefeatRstRemoved]
    } else {
        Seq::empty()
    })
}

/// Does the token list hold the given word?
fn tokens_contain(toks: &Vec<Vec<char>>, w: &str) -> (r: bool)
    ensures
        r == toks.deep_view().contains(w@),
{
    proof {
        crate::text::lemma_tokens_view(toks);
    }
    let mut i: usize = 0;
    while i < toks.len()
        invariant
            i <= toks@.len(),
            toks.deep_view().len() == toks@.len(),
            forall|j: int| 0 <= j < toks@.len() ==> #[trigger] toks.deep_view()[j] == toks@[j]@,
            forall|j: int| 0 <= j < i ==> toks.deep_view()[j] != w@,
        decreases toks.len() - i,
    {
        if chars_eq_str(&toks[i], w) {
            assert(toks.deep_view()[i as int] == w@);
            return true;
        }
        i += 1;
    }
    false
}

/// Copies the tokens, replacing every occurrence of `from` by `to`.
fn replace_token(toks: &Vec<Vec<char>>, from: &str, to: &str) -> (r: Vec<Vec<char>>)
    ensures
        r.deep_view() == replace_tok(toks.deep_view(), from@, to@),
{
    proof {
        crate::text::lemma_tokens_view(toks);
    }
    let mut out: Vec<Vec<char>> = Vec::new();
    let mut i: usize = 0;
    while i < toks.len()
        invariant
            i <= toks@.len(),
            toks.deep_view().len() == toks@.len(),
            forall|j: int| 0 <= j < toks@.len() ==> #[trigger] toks.deep_view()[j] == toks@[j]@,
            out.deep_view() == replace_tok(toks.deep_view(), from@, to@).subrange(0, i as int),
        decreases toks.len() - i,
    {
        let ghost pref = out.deep_view();
        if chars_eq_str(&toks[i], from) {
            out.push(str_to_chars(to));
        } else {
            let mut copy: Vec<char> = Vec::new();
            crate::text::extend_chars(&mut copy, &toks[i]);
            out.push(copy);
        }
        proof {
            assert(out.deep_view() =~~= pref.push(
                replace_tok(toks.deep_view(), from@, to@)[i as int],
            ));
            assert(out.deep_view() =~= replace_tok(toks.deep_view(), from@, to@).subrange(
                0,
                i + 1,
            ));
        }
        i += 1;
    }
    assert(replace_tok(toks.deep_view(), from@, to@).subrange(
        0,
        toks.deep_view().len() as int,
    ) =~= replace_tok(toks.deep_view(), from@, to@));
    out
}

/// Copies the tokens, removing every occurrence of `w`.
fn remove_token(toks: &Vec<Vec<char>>, w: &str) -> (r: Vec<Vec<char>>)
    ensures
        r.deep_view() == drop_tok(toks.deep_view(), w@),
{
    proof {
        crate::text::lemma_tokens_view(toks);
    }
    let mut out: Vec<Vec<char>> = Vec::new();
    let mut i: usize = 0;
    while i < toks.len()
        invariant
            i <= toks@.len(),
            toks.deep_view().len() == toks@.len(),
            forall|j: int| 0 <= j < toks@.len() ==> #[trigger] toks.deep_view()[j] == toks@[j]@,
            out.deep_view() == drop_tok(toks.deep_view().subrange(0, i as int), w@),
        decreases toks.len() - i,
    {
        let ghost pref = toks.deep_view().subrange(0, i as int);
        let ghost prev = out.deep_view();
        let keep = !chars_eq_str(&toks[i], w);
        if keep {
            let mut copy: Vec<char> = Vec::new();
            crate::text::extend_chars(&mut copy, &toks[i]);
            out.push(copy);
        }
        proof {
            reveal(Seq::filter);
            assert(toks.deep_view().subrange(0, i + 1) =~= pref.push(toks.deep_view()[i as int]));
            assert(pref.push(toks.deep_view()[i as int]).drop_last() =~= pref);
            assert(drop_tok(toks.deep_view().subrange(0, i + 1), w@) == if toks.deep_view()[i as int]
                != w@ {
                drop_tok(pref, w@).push(toks.deep_view()[i as int])
            } else {
                drop_tok(pref, w@)
            });
            if keep {
                assert(out.deep_view() =~~= prev.push(toks.deep_view()[i as int]));
            }
        }
        i += 1;
    }
    assert(toks.deep_view().subrange(0, toks.deep_view().len() as int) =~= toks.deep_view());
    out
}

/// Resolves a free-form extra-flags string against the privilege state into
/// a canonical, mutually consistent flag list, with the advisory warnings
/// the adjustments produced.
pub fn normalize_nmap_extra(extra: &str, have_root: bool) -> (r: (Vec<String>, Vec<
    NormalizeWarning,
>))
    ensures
        r.0.deep_view() == normalize_spec(split_ws(extra@), have_root),
        r.1@ == normalize_warnings_spec(split_ws(extra@), have_root),
{
    let chars = str_to_chars(extra);
    let toks = split_whitespace_chars(&chars);
    let ghost tokens = split_ws(extra@);
    assert(toks.deep_view() == tokens);
    let mut warnings: Vec<NormalizeWarning> = Vec::new();

    let has_syn = tokens_contain(&toks, "-sS");
    let t1 = if has_syn && !have_root {
        warnings.push(NormalizeWarning::SynDowngraded);
        replace_token(&toks, "-sS", "-sT")
    } else {
        toks
    };
    assert(t1.deep_view() == norm_step1(tokens, have_root));

    let has_tcp_1 = tokens_contain(&t1, "-sT");
    let has_defeat_1 = tokens_contain(&t1, "--defeat-rst-ratelimit");
    let t2 = if has_tcp_1 {
        if has_defeat_1 {
            warnings.push(NormalizeWarning::DefeatRstRemoved);
        }
        remove_token(&t1, "--defeat-rst-ratelimit")
    } else {
        t1
    };
    assert(t2.deep_view() == norm_step2(norm_step1(tokens, have_root)));

    let has_tcp_2 = tokens_contain(&t2, "-sT");
    let t3 = if has_tcp_2 {
        remove_token(&t2, "-sS")
    } else {
        t2
    };
    assert(t3.deep_view() == norm_step3(norm_step2(norm_step1(tokens, have_root))));

    let has_tcp_3 = tokens_contain(&t3, "-sT");
    let has_syn_3 = tokens_contain(&t3, "-sS");
    let t4 = if !has_tcp_3 && !has_syn_3 {
        proof {
            crate::text::lemma_tokens_view(&t3);
        }
        let ghost prev = t3.deep_view();
        let mut with_mode: Vec<Vec<char>> = Vec::new();
        if have_root {
            with_mode.push(str_to_chars("-sS"));
        } else {
            with_mode.push(str_to_chars("-sT"));
        }
        proof {
            assert(with_mode.deep_view() =~~= seq![if have_root { "-sS"@ } else { "-sT"@ }]
                + prev.subrange(0, 0));
        }
        let mut j: usize = 0;
        while j < t3.len()
            invariant
                j <= t3@.len(),
                prev == t3.deep_view(),
                prev.len() == t3@.len(),
                forall|q: int| 0 <= q < t3@.len() ==> #[trigger] prev[q] == t3@[q]@,
                with_mode.deep_view() == seq![if have_root { "-sS"@ } else { "-sT"@ }]
                    + prev.subrange(0, j as int),
            decreases t3.len() - j,
        {
            let mut copy: Vec<char> = Vec::new();
            crate::text::extend_chars(&mut copy, &t3[j]);
            with_mode.push(copy);
            proof {
                assert(with_mode.deep_view() =~~= (seq![
                    if have_root {
                        "-sS"@
                    } else {
                        "-sT"@
                    },
                ] + prev.subrange(0, j as int)).push(prev[j as int]));
                assert((seq![if have_root { "-sS"@ } else { "-sT"@ }] + prev.subrange(
                    0,
                    j as int,
                )).push(prev[j as int]) =~= seq![if have_root { "-sS"@ } else { "-sT"@ }]
                    + prev.subrange(0, j + 1));
            }
            j += 1;
        }
        assert(prev.subrange(0, prev.len() as int) =~= prev);
        with_mode
    } else {
        t3
    };
    assert(t4.deep_view() == normalize_spec(tokens, have_root));

    proof {
        crate::text::lemma_tokens_view(&t4);
    }
    let mut flags: Vec<String> = Vec::new();
    let mut k: usize = 0;
    while k < t4.len()
        invariant
            k <= t4@.len(),
            t4.deep_view().len() == t4@.len(),
            forall|q: int| 0 <= q < t4@.len() ==> #[trigger] t4.deep_view()[q] == t4@[q]@,
            flags.deep_view() == t4.deep_view().subrange(0, k as int),
        decreases t4.len() - k,
    {
        let ghost pref = flags.deep_view();
        flags.push(chars_to_string(&t4[k]));
        proof {
            assert(flags.deep_view() =~~= pref.push(t4.deep_view()[k as int]));
            assert(pref.push(t4.deep_view()[k as int]) =~= t4.deep_view().subrange(0, k + 1));
        }
        k += 1;
    }
    assert(t4.deep_view().subrange(0, t4.deep_view().len() as int) =~= t4.deep_view());
    assert(warnings@ == normalize_warnings_spec(tokens, have_root)) by {
        if has_syn && !have_root {
            if norm_step1(tokens, have_root).contains("-sT"@) && norm_step1(
                tokens,
                have_root,
            ).contains("--defeat-rst-ratelimit"@) {
                assert(warnings@ =~= seq![
                    NormalizeWarning::SynDowngraded,
                    NormalizeWarning::DefeatRstRemoved,
                ]);
                assert(normalize_warnings_spec(tokens, have_root) =~= seq![
                    NormalizeWarning::SynDowngraded,
                    NormalizeWarning::DefeatRstRemoved,
                ]);
            } else {
                assert(warnings@ =~= seq![NormalizeWarning::SynDowngraded]);
                assert(normalize_warnings_spec(tokens, have_root) =~= seq![
                    NormalizeWarning::SynDowngraded,
                ]);
            }
        } else {
            if norm_step1(tokens, have_root).contains("-sT"@) && norm_step1(
                tokens,
                have_root,
            ).contains("--defeat-rst-ratelimit"@) {
                assert(warnings@ =~= seq![NormalizeWarning::DefeatRstRemoved]);
                assert(normalize_warnings_spec(tokens, have_root) =~= seq![
                    NormalizeWarning::DefeatRstRemoved,
                ]);
            } else {
                assert(warnings@ =~= Seq::<NormalizeWarning>::empty());
                assert(normalize_warnings_spec(tokens, have_root) =~= Seq::<
                    NormalizeWarning,
                >::empty());
            }
        }
    }
    (flags, warnings)
}

/// The two scan-mode flags, as the normalizer emits them, are distinct
/// words, and both differ from the stripped rate-limit flag.
proof fn lemma_mode_flags_distinct()
    ensures
        "-sS"@ != "-sT"@,
        "-sS"@ != "--defeat-rst-ratelimit"@,
        "-sT"@ != "--defeat-rst-ratelimit"@,
{
    reveal_strlit("-sS");
    reveal_strlit("-sT");
    reveal_strlit("--defeat-rst-ratelimit");
    assert("-sS"@.len() == 3);
    assert("--defeat-rst-ratelimit"@.len() == 22);
    assert("-sS"@[2] == 'S' && "-sT"@[2] == 'T');
}

/// For every flag token list and either privilege state, the normalized
/// flag list holds exactly one of the two scan-mode flags: never both,
/// never neither.
pub proof fn lemma_normalize_exactly_one_mode(tokens: Seq<Seq<char>>, have_root: bool)
    ensures
        normalize_spec(tokens, have_root).contains("-sT"@) != normalize_spec(
            tokens,
            have_root,
        ).contains("-sS"@),
{
    lemma_mode_flags_distinct();
    let t1 = norm_step1(tokens, have_root);
    let t2 = norm_step2(t1);
    let t3 = norm_step3(t2);
    let r = norm_step4(t3, have_root);
    assert(t2.contains("-sT"@) == t1.contains("-sT"@)) by {
        if t1.contains("-sT"@) {
            lemma_drop_tok_contains(t1, "--defeat-rst-ratelimit"@, "-sT"@);
        }
    }
    if t2.contains("-sT"@) {
        lemma_drop_tok_contains(t2, "-sS"@, "-sT"@);
        lemma_drop_tok_contains(t2, "-sS"@, "-sS"@);
        assert(t3.contains("-sT"@));
        assert(!t3.contains("-sS"@));
        assert(r == t3);
    } else {
        assert(t3 == t2);
        if t3.contains("-sS"@) {
            assert(r == t3);
        } else {
            let mode = if have_root {
                "-sS"@
            } else {
                "-sT"@
            };
            assert(r == seq![mode] + t3);
            assert(r[0] == mode);
            assert(r.contains(mode));
            let other = if have_root {
                "-sT"@
            } else {
                "-sS"@
            };
            assert(!r.contains(other)) by {
                if r.contains(other) {
                    let i = choose|i: int| 0 <= i < r.len() && r[i] == other;
                    if i > 0 {
                        assert(t3[i - 1] == other);
                    }
                }
            }
        }
    }
}


/// Strictly increasing: sorted with no duplicates.
pub open spec fn sorted_unique(s: Seq<u16>) -> bool {
    forall|i: int, j: int| 0 <= i < j < s.len() ==> s[i] < s[j]
}

/// The ports `a..=b`, in order; empty when `a > b`.
pub open spec fn range_seq(a: int, b: int) -> Seq<u16>
    decreases b - a + 1,
{
    if a > b {
        Seq::empty()
    } else {
        seq![a as u16] + range_seq(a + 1, b)
    }
}

pub proof fn lemma_range_seq_contains(a: int, b: int, x: u16)
    requires
        0 <= a,
        b <= 65535,
    ensures
        range_seq(a, b).contains(x) <==> a <= x <= b,
    decreases b - a + 1,
{
    if a <= b {
        lemma_range_seq_contains(a + 1, b, x);
        let s = range_seq(a, b);
        assert(s == seq![a as u16] + range_seq(a + 1, b));
        assert(s[0] == a as u16);
        if a <= x <= b {
            if x == a {
                assert(s.contains(x));
            } else {
                let t = range_seq(a + 1, b);
                let i = choose|i: int| 0 <= i < t.len() && #[trigger] t[i] == x;
                assert(s[i + 1] == x);
            }
        }
        if s.contains(x) {
            let i = choose|i: int| 0 <= i < s.len() && s[i] == x;
            if i > 0 {
                assert(range_seq(a + 1, b)[i - 1] == x);
            }
        }
    }
}

proof fn lemma_range_seq_snoc(a: int, b: int)
    requires
        0 <= a <= b <= 65535,
    ensures
        range_seq(a, b) == range_seq(a, b - 1).push(b as u16),
    decreases b - a,
{
    if a == b {
        assert(range_seq(a + 1, b) =~= Seq::<u16>::empty());
        assert(range_seq(a, b) == seq![a as u16] + range_seq(a + 1, b));
        assert(range_seq(a, b) =~= seq![a as u16]);
        assert(range_seq(a, b - 1) =~= Seq::<u16>::empty());
        assert(range_seq(a, b - 1).push(b as u16) =~= seq![b as u16]);
    } else {
        lemma_range_seq_snoc(a + 1, b);
        assert(range_seq(a, b) == seq![a as u16] + range_seq(a + 1, b - 1).push(b as u16));
        assert(range_seq(a, b - 1) == seq![a as u16] + range_seq(a + 1, b - 1));
        assert(seq![a as u16] + range_seq(a + 1, b - 1).push(b as u16) =~= (seq![a as u16]
            + range_seq(a + 1, b - 1)).push(b as u16));
    }
}

proof fn lemma_push_to_set(s: Seq<u16>, x: u16)
    ensures
        s.push(x).to_set() =~= s.to_set().insert(x),
{
    assert forall|y: u16| s.push(x).to_set().contains(y) implies s.to_set().insert(x).contains(
        y,
    ) by {
        let i = choose|i: int| 0 <= i < s.push(x).len() && s.push(x)[i] == y;
        if i < s.len() {
            assert(s[i] == y);
        }
    }
    assert forall|y: u16| s.to_set().insert(x).contains(y) implies s.push(x).to_set().contains(
        y,
    ) by {
        if y == x {
            assert(s.push(x)[s.len() as int] == x);
        } else {
            let i = choose|i: int| 0 <= i < s.len() && s[i] == y;
            assert(s.push(x)[i] == y);
        }
    }
}

proof fn lemma_concat_to_set(a: Seq<u16>, b: Seq<u16>)
    ensures
        (a + b).to_set() =~= a.to_set().union(b.to_set()),
{
    assert forall|y: u16| (a + b).to_set().contains(y) implies a.to_set().union(
        b.to_set(),
    ).contains(y) by {
        let i = choose|i: int| 0 <= i < (a + b).len() && (a + b)[i] == y;
        if i < a.len() {
            assert(a[i] == y);
        } else {
            assert(b[i - a.len()] == y);
        }
    }
    assert forall|y: u16| a.to_set().union(b.to_set()).contains(y) implies (a
        + b).to_set().contains(y) by {
        if a.to_set().contains(y) {
            let i = choose|i: int| 0 <= i < a.len() && a[i] == y;
            assert((a + b)[i] == y);
        } else {
            let i = choose|i: int| 0 <= i < b.len() && b[i] == y;
            assert((a + b)[a.len() + i] == y);
        }
    }
}

/// Inserts `x` into a strictly sorted vector, keeping it strictly sorted;
/// a port already present is kept once.
pub(crate) fn insert_sorted_unique(v: &mut Vec<u16>, x: u16)
    requires
        sorted_unique(old(v)@),
    ensures
        sorted_unique(final(v)@),
        final(v)@.to_set() =~= old(v)@.to_set().insert(x),
{
    let mut p: usize = 0;
    while p < v.len() && v[p] < x
        invariant
            p <= v@.len(),
            v@ == old(v)@,
            sorted_unique(v@),
            forall|j: int| 0 <= j < p ==> v@[j] < x,
        decreases v.len() - p,
    {
        p += 1;
    }
    if p < v.len() && v[p] == x {
        assert(v@.to_set().contains(x)) by {
            assert(v@[p as int] == x);
        }
        assert(v@.to_set() =~= v@.to_set().insert(x));
        return ;
    }
    let ghost prev = v@;
    v.insert(p, x);
    proof {
        prev.insert_ensures(p as int, x);
        assert(sorted_unique(v@)) by {
            assert(forall|j: int| 0 <= j < p ==> v@[j] == prev[j] && v@[j] < x);
            assert(forall|j: int|
                p <= j < prev.len() ==> v@[j + 1] == prev[j] && #[trigger] prev[j] > x) by {
                if p < prev.len() {
                    assert(prev[p as int] > x);
                    assert(forall|j: int|
                        p < j < prev.len() ==> prev[p as int] < #[trigger] prev[j]);
                }
            }
            assert forall|i: int, j: int| 0 <= i < j < v@.len() implies v@[i] < v@[j] by {
                if i < p && j < p {
                } else if i < p && j == p {
                } else if i == p && j > p {
                    assert(v@[j] == prev[j - 1] && prev[j - 1] > x);
                } else if i < p && j > p {
                    assert(v@[i] == prev[i] && v@[j] == prev[j - 1]);
                    assert(prev[j - 1] > x);
                } else if i > p && j > p {
                    assert(v@[i] == prev[i - 1] && v@[j] == prev[j - 1]);
                }
            }
        }
        assert(v@.to_set() =~= prev.to_set().insert(x)) by {
            assert forall|y: u16| v@.to_set().contains(y) implies prev.to_set().insert(
                x,
            ).contains(y) by {
                let i = choose|i: int| 0 <= i < v@.len() && v@[i] == y;
                if i < p {
                    assert(prev[i] == y);
                } else if i == p {
                } else {
                    assert(prev[i - 1] == y);
                }
            }
            assert forall|y: u16| prev.to_set().insert(x).contains(y) implies v@
                .to_set().contains(y) by {
                if y == x {
                    assert(v@[p as int] == x);
                } else {
                    let i = choose|i: int| 0 <= i < prev.len() && prev[i] == y;
                    if i < p {
                        assert(v@[i] == y);
                    } else {
                        assert(v@[i + 1] == y);
                    }
                }
            }
        }
    }
}

/// The ports one comma-separated piece denotes: nothing for a blank piece,
/// a single port, or an ascending range (a reversed range denotes nothing);
/// a piece that does not parse denotes no port list at all.
pub open spec fn entry_ports(part: Seq<char>) -> Option<Seq<u16>> {
    let p = trim_spec(part);
    if p.len() == 0 {
        Some(Seq::empty())
    } else {
        match find_first(p, '-') {
            Some(k) => {
                let a = parse_u16_spec(trim_spec(p.subrange(0, k)));
                let b = parse_u16_spec(trim_spec(p.subrange(k + 1, p.len() as int)));
                if a is Some && b is Some {
                    if a.unwrap() <= b.unwrap() {
                        Some(range_seq(a.unwrap() as int, b.unwrap() as int))
                    } else {
                        Some(Seq::empty())
                    }
                } else {
                    None
                }
            },
            None => match parse_u16_spec(p) {
                Some(v) => Some(seq![v]),
                None => None,
            },
        }
    }
}

/// The concatenated port lists of the pieces from index `i` on; `None` as
/// soon as any piece fails to parse.
pub open spec fn items_from(parts: Seq<Seq<char>>, i: int) -> Option<Seq<u16>>
    decreases parts.len() - i,
{
    if i >= parts.len() {
        Some(Seq::empty())
    } else {
        match (entry_ports(parts[i]), items_from(parts, i + 1)) {
            (Some(h), Some(t)) => Some(h + t),
            _ => None,
        }
    }
}

/// The ports a comma-separated specification denotes.
pub open spec fn split_ports_spec(s: Seq<char>) -> Option<Seq<u16>> {
    items_from(split_sep(s, ','), 0)
}

/// A port specification piece that does not parse; `entry` is the index of
/// the first offending comma-separated piece.
#[derive(Clone, Copy, PartialEq, Eq, Debug, Structural)]
pub struct PortSpecError {
    pub entry: usize,
}

/// Adds the ports one piece denotes to a strictly sorted list.
fn add_entry(out: &mut Vec<u16>, part: &Vec<char>) -> (ok: bool)
    requires
        sorted_unique(old(out)@),
    ensures
        ok == (entry_ports(part@) is Some),
        sorted_unique(final(out)@),
        ok ==> final(out)@.to_set() =~= old(out)@.to_set().union(
            entry_ports(part@).unwrap().to_set(),
        ),
        !ok ==> final(out)@ == old(out)@,
{
    let p = trim_chars(part);
    if p.len() == 0 {
        proof {
            assert(Seq::<u16>::empty().to_set() =~= Set::<u16>::empty());
            assert(entry_ports(part@).unwrap().to_set() =~= Set::<u16>::empty());
            assert(out@.to_set() =~= out@.to_set().union(Set::<u16>::empty()));
        }
        return true;
    }
    let dash = find_char(&p, '-');
    match dash {
        Some(k) => {
            proof {
                crate::text::lemma_find_first_props(p@, '-');
            }
            let left = trim_chars(&copy_range(&p, 0, k));
            let right = trim_chars(&copy_range(&p, k + 1, p.len()));
            let a = crate::text::parse_u16_chars(&left);
            let b = crate::text::parse_u16_chars(&right);
            match (a, b) {
                (Some(av), Some(bv)) => {
                    if av > bv {
                        assert(entry_ports(part@).unwrap().to_set() =~= Set::<u16>::empty());
                        assert(out@.to_set() =~= out@.to_set().union(Set::<u16>::empty()));
                        true
                    } else {
                        let ghost base = out@.to_set();
                        let mut cur = av;
                        proof {
                            assert(range_seq(av as int, av as int - 1) =~= Seq::<u16>::empty());
                            assert(base =~= base.union(
                                range_seq(av as int, av as int - 1).to_set(),
                            ));
                        }
                        loop
                            invariant_except_break
                                av <= cur <= bv,
                                sorted_unique(out@),
                                out@.to_set() == base.union(
                                    range_seq(av as int, cur as int - 1).to_set(),
                                ),
                            ensures
                                sorted_unique(out@),
                                out@.to_set() == base.union(
                                    range_seq(av as int, bv as int).to_set(),
                                ),
                            decreases bv - cur,
                        {
                            insert_sorted_unique(out, cur);
                            proof {
                                lemma_range_seq_snoc(av as int, cur as int);
                                lemma_push_to_set(
                                    range_seq(av as int, cur as int - 1),
                                    cur,
                                );
                                assert(out@.to_set() =~= base.union(
                                    range_seq(av as int, cur as int).to_set(),
                                ));
                            }
                            if cur == bv {
                                break ;
                            }
                            cur += 1;
                        }
                        assert(out@.to_set() =~= base.union(
                            entry_ports(part@).unwrap().to_set(),
                        ));
                        true
                    }
                },
                _ => false,
            }
        },
        None => {
            let v = crate::text::parse_u16_chars(&p);
            match v {
                Some(port) => {
                    insert_sorted_unique(out, port);
                    assert(seq![port].to_set() =~= Set::<u16>::empty().insert(port)) by {
                        lemma_push_to_set(Seq::<u16>::empty(), port);
                        assert(Seq::<u16>::empty().push(port) =~= seq![port]);
                        assert(Seq::<u16>::empty().to_set() =~= Set::<u16>::empty());
                    }
                    assert(out@.to_set() =~= old(out)@.to_set().union(seq![port].to_set()));
                    true
                },
                None => false,
            }
        },
    }
}

/// Parses a comma-separated port specification such as `22,80,8000-8100`
/// into the strictly sorted list of the ports it denotes. Blank pieces and
/// reversed ranges denote nothing; a piece that is not a port number or a
/// range of port numbers is an error naming the first offending piece.
pub fn split_ports(s: &str) -> (r: Result<Vec<u16>, PortSpecError>)
    ensures
        match r {
            Ok(v) => {
                &&& split_ports_spec(s@) is Some
                &&& sorted_unique(v@)
                &&& v@.to_set() == split_ports_spec(s@).unwrap().to_set()
            },
            Err(e) => {
                &&& split_ports_spec(s@) is None
                &&& e.entry < split_sep(s@, ',').len()
                &&& entry_ports(split_sep(s@, ',')[e.entry as int]) is None
            },
        },
{
    let chars = str_to_chars(s);
    let parts = crate::text::split_at_char(&chars, ',');
    let ghost gparts = split_sep(s@, ',');
    assert(parts.deep_view() == gparts);
    proof {
        crate::text::lemma_tokens_view(&parts);
    }
    let mut out: Vec<u16> = Vec::new();
    let ghost mut acc: Seq<u16> = Seq::empty();
    let mut i: usize = 0;
    assert(out@.to_set() =~= acc.to_set());
    while i < parts.len()
        invariant
            i <= parts@.len(),
            gparts == parts.deep_view(),
            gparts.len() == parts@.len(),
            forall|j: int| 0 <= j < parts@.len() ==> #[trigger] gparts[j] == parts@[j]@,
            gparts == split_sep(s@, ','),
            sorted_unique(out@),
            out@.to_set() == acc.to_set(),
            match items_from(gparts, i as int) {
                Some(t) => items_from(gparts, 0) == Some(acc + t),
                None => items_from(gparts, 0) is None,
            },
        decreases parts.len() - i,
    {
        let ghost prev_acc = acc;
        let ok = add_entry(&mut out, &parts[i]);
        if !ok {
            proof {
                assert(gparts[i as int] == parts@[i as int]@);
                assert(entry_ports(gparts[i as int]) is None);
                assert(items_from(gparts, i as int) is None);
            }
            return Err(PortSpecError { entry: i });
        }
        proof {
            let h = entry_ports(gparts[i as int]).unwrap();
            acc = prev_acc + h;
            lemma_concat_to_set(prev_acc, h);
            assert(out@.to_set() =~= acc.to_set());
            match items_from(gparts, i + 1) {
                Some(t) => {
                    assert(items_from(gparts, i as int) == Some(h + t));
                    assert(prev_acc + (h + t) =~= (prev_acc + h) + t);
                },
                None => {
                    assert(items_from(gparts, i as int) is None);
                },
            }
        }
        i += 1;
    }
    assert(items_from(gparts, gparts.len() as int) == Some(Seq::<u16>::empty()));
    assert(acc + Seq::<u16>::empty() =~= acc);
    Ok(out)
}


/// The `-p` filter for one scan job: the fixed port list when one was
/// given, else the discovered ports, else nothing, so the external tool
/// applies its own default port set.
pub open spec fn ports_filter_args(fixed: Option<Seq<char>>, ports: Seq<u16>) -> Seq<Seq<char>> {
    match fixed {
        Some(fp) => seq!["-p"@, fp],
        None => if ports.len() > 0 {
            seq![
                "-p"@,
                join_sep(ports.map_values(|p: u16| dec_str(p as int)), ","@),
            ]
        } else {
            Seq::empty()
        },
    }
}

/// The full argument list of one service-scan invocation.
pub open spec fn scan_args_spec(
    tokens: Seq<Seq<char>>,
    have_root: bool,
    fixed: Option<Seq<char>>,
    ports: Seq<u16>,
    ip: Seq<char>,
    xml_path: Seq<char>,
) -> Seq<Seq<char>> {
    normalize_spec(tokens, have_root) + ports_filter_args(fixed, ports) + seq![
        ip,
        "-oX"@,
        xml_path,
    ]
}

/// Renders a port list as comma-separated decimal numbers.
pub fn render_port_list(ports: &Vec<u16>) -> (r: Vec<char>)
    ensures
        r@ == join_sep(ports@.map_values(|p: u16| dec_str(p as int)), ","@),
{
    let mut pieces: Vec<Vec<char>> = Vec::new();
    let mut i: usize = 0;
    while i < ports.len()
        invariant
            i <= ports@.len(),
            pieces.deep_view() == ports@.subrange(0, i as int).map_values(
                |p: u16| dec_str(p as int),
            ),
        decreases ports.len() - i,
    {
        let ghost pref = pieces.deep_view();
        pieces.push(crate::text::u64_to_chars(ports[i] as u64));
        proof {
            assert(pieces.deep_view() =~~= pref.push(dec_str(ports@[i as int] as int)));
            assert(pref.push(dec_str(ports@[i as int] as int)) =~= ports@.subrange(
                0,
                i + 1,
            ).map_values(|p: u16| dec_str(p as int)));
        }
        i += 1;
    }
    assert(ports@.subrange(0, ports@.len() as int) =~= ports@);
    crate::text::join_chars(&pieces, ",")
}

/// Assembles the argument list for one service-scan job: the normalized
/// extra flags, then the port filter, then the target address and the
/// result-document destination. Also returns the normalizer's warnings.
pub fn build_scan_args(
    extra: &str,
    have_root: bool,
    fixed_ports: Option<&str>,
    ports: &Vec<u16>,
    ip: &str,
    xml_path: &str,
) -> (r: (Vec<String>, Vec<NormalizeWarning>))
    ensures
        r.0.deep_view() == scan_args_spec(
            split_ws(extra@),
            have_root,
            match fixed_ports {
                Some(f) => Some(f@),
                None => None,
            },
            ports@,
            ip@,
            xml_path@,
        ),
        r.1@ == normalize_warnings_spec(split_ws(extra@), have_root),
{
    let (mut args, warnings) = normalize_nmap_extra(extra, have_root);
    let ghost flags = normalize_spec(split_ws(extra@), have_root);
    let ghost pfilter = ports_filter_args(
        match fixed_ports {
            Some(f) => Some(f@),
            None => None,
        },
        ports@,
    );
    match fixed_ports {
        Some(fp) => {
            let ghost before = args.deep_view();
            args.push("-p".to_owned());
            args.push(fp.to_owned());
            proof {
                assert(args.deep_view() =~~= before + seq!["-p"@, fp@]);
            }
        },
        None => {
            if ports.len() > 0 {
                let ghost before = args.deep_view();
                let list = render_port_list(ports);
                args.push("-p".to_owned());
                args.push(chars_to_string(&list));
                proof {
                    assert(args.deep_view() =~~= before + pfilter);
                }
            } else {
                assert(args.deep_view() =~= args.deep_view() + Seq::<Seq<char>>::empty());
            }
        },
    }
    assert(args.deep_view() == flags + pfilter);
    let ghost mid = args.deep_view();
    args.push(ip.to_owned());
    args.push("-oX".to_owned());
    args.push(xml_path.to_owned());
    proof {
        assert(args.deep_view() =~~= mid + seq![ip@, "-oX"@, xml_path@]);
        assert((flags + pfilter) + seq![ip@, "-oX"@, xml_path@] =~= flags + pfilter + seq![
            ip@,
            "-oX"@,
            xml_path@,
        ]);
    }
    (args, warnings)
}

/// Does the argument list hold the given word?
fn args_contain(args: &Vec<String>, w: &str) -> (r: bool)
    ensures
        r == args.deep_view().contains(w@),
{
    proof {
        crate::text::lemma_strings_view(args);
    }
    let mut i: usize = 0;
    while i < args.len()
        invariant
            i <= args@.len(),
            args.deep_view().len() == args@.len(),
            forall|j: int| 0 <= j < args@.len() ==> #[trigger] args.deep_view()[j] == args@[j]@,
            forall|j: int| 0 <= j < i ==> args.deep_view()[j] != w@,
        decreases args.len() - i,
    {
        if crate::text::str_eq(args[i].as_str(), w) {
            assert(args.deep_view()[i as int] == w@);
            return true;
        }
        i += 1;
    }
    false
}

/// The retry argument list after a privilege-mode failure: when the failed
/// arguments still name the privilege-requiring mode and not the free one,
/// the same list with that mode replaced; otherwise no retry is owed.
pub fn fallback_args(args: &Vec<String>) -> (r: Option<Vec<String>>)
    ensures
        match r {
            Some(v) => {
                &&& args.deep_view().contains("-sS"@)
                &&& !args.deep_view().contains("-sT"@)
                &&& v.deep_view() == replace_tok(args.deep_view(), "-sS"@, "-sT"@)
            },
            None => !(args.deep_view().contains("-sS"@) && !args.deep_view().contains("-sT"@)),
        },
{
    let has_syn = args_contain(args, "-sS");
    let has_tcp = args_contain(args, "-sT");
    if !(has_syn && !has_tcp) {
        return None;
    }
    proof {
        crate::text::lemma_strings_view(args);
    }
    let mut out: Vec<String> = Vec::new();
    let mut i: usize = 0;
    while i < args.len()
        invariant
            i <= args@.len(),
            args.deep_view().len() == args@.len(),
            forall|j: int| 0 <= j < args@.len() ==> #[trigger] args.deep_view()[j] == args@[j]@,
            out.deep_view() == replace_tok(args.deep_view(), "-sS"@, "-sT"@).subrange(
                0,
                i as int,
            ),
        decreases args.len() - i,
    {
        let ghost pref = out.deep_view();
        if crate::text::str_eq(args[i].as_str(), "-sS") {
            out.push("-sT".to_owned());
        } else {
            out.push(args[i].clone());
        }
        proof {
            assert(out.deep_view() =~~= pref.push(
                replace_tok(args.deep_view(), "-sS"@, "-sT"@)[i as int],
            ));
            assert(out.deep_view() =~= replace_tok(args.deep_view(), "-sS"@, "-sT"@).subrange(
                0,
                i + 1,
            ));
        }
        i += 1;
    }
    assert(replace_tok(args.deep_view(), "-sS"@, "-sT"@).subrange(
        0,
        args.deep_view().len() as int,
    ) =~= replace_tok(args.deep_view(), "-sS"@, "-sT"@));
    Some(out)
}

/// A diagnostic excerpt capped at 600 characters, with a marker appended
/// when something was cut.
pub open spec fn truncated_spec(s: Seq<char>) -> Seq<char> {
    if s.len() <= 600 {
        s
    } else {
        s.subrange(0, 600) + "...<truncado>"@
    }
}

/// Caps a diagnostic text at 600 characters.
pub fn truncate_diagnostic(s: &str) -> (r: String)
    ensures
        r@ == truncated_spec(s@),
{
    let n = s.unicode_len();
    if n <= 600 {
        return s.to_owned();
    }
    let chars = str_to_chars(s);
    let mut head = copy_range(&chars, 0, 600);
    crate::text::extend_str(&mut head, "...<truncado>");
    chars_to_string(&head)
}

/// The ports of a report whose service label is the ambiguous `tcpwrapped`.
pub open spec fn wrapped_of(ports: Seq<PortRec>) -> Seq<u16> {
    ports.filter(|p: PortRec| p.service == Some("tcpwrapped"@)).map_values(|p: PortRec| p.port)
}

/// Collects the ports of a report that need reconfirmation.
pub fn wrapped_ports(rep: &HostReport) -> (r: Vec<u16>)
    ensures
        r@ == wrapped_of(ports_view(rep.ports@)),
{
    let mut out: Vec<u16> = Vec::new();
    let mut i: usize = 0;
    while i < rep.ports.len()
        invariant
            i <= rep.ports@.len(),
            out@ == wrapped_of(ports_view(rep.ports@.subrange(0, i as int))),
        decreases rep.ports.len() - i,
    {
        let ghost pref = ports_view(rep.ports@.subrange(0, i as int));
        let wrapped = crate::output::is_tcpwrapped(&rep.ports[i]);
        if wrapped {
            out.push(rep.ports[i].port);
        }
        proof {
            reveal(Seq::filter);
            assert(ports_view(rep.ports@.subrange(0, i + 1)) =~= pref.push(
                rep.ports@[i as int]@,
            ));
            assert(pref.push(rep.ports@[i as int]@).drop_last() =~= pref);
            let q = pref.push(rep.ports@[i as int]@).filter(
                |p: PortRec| p.service == Some("tcpwrapped"@),
            );
            assert(wrapped_of(pref.push(rep.ports@[i as int]@)) =~= q.map_values(
                |p: PortRec| p.port,
            ));
            if wrapped {
                assert(out@ =~= wrapped_of(pref).push(rep.ports@[i as int]@.port));
            }
        }
        i += 1;
    }
    assert(rep.ports@.subrange(0, rep.ports@.len() as int) =~= rep.ports@);
    out
}

/// The argument list of one reconfirmation probe: the unprivileged mode
/// first, or the privileged one for the second attempt, over the wrapped
/// ports only, with the document written to standard output.
pub open spec fn confirm_args_spec(port_list: Seq<char>, ip: Seq<char>, syn: bool) -> Seq<
    Seq<char>,
> {
    seq![if syn { "-sS"@ } else { "-sT"@ }, "-Pn"@, "-p"@, port_list, ip, "-oX"@, "-"@]
}

/// Builds the argument list of one reconfirmation probe.
pub fn build_confirm_args(wrapped: &Vec<u16>, ip: &str, syn: bool) -> (r: Vec<String>)
    ensures
        r.deep_view() == confirm_args_spec(
            join_sep(wrapped@.map_values(|p: u16| dec_str(p as int)), ","@),
            ip@,
            syn,
        ),
{
    let list = render_port_list(wrapped);
    let mut out: Vec<String> = Vec::new();
    if syn {
        out.push("-sS".to_owned());
    } else {
        out.push("-sT".to_owned());
    }
    out.push("-Pn".to_owned());
    out.push("-p".to_owned());
    out.push(chars_to_string(&list));
    out.push(ip.to_owned());
    out.push("-oX".to_owned());
    out.push("-".to_owned());
    proof {
        assert(out.deep_view() =~~= confirm_args_spec(
            join_sep(wrapped@.map_values(|p: u16| dec_str(p as int)), ","@),
            ip@,
            syn,
        ));
    }
    out
}

/// The first index holding the given port number, if any.
pub open spec fn find_port(ports: Seq<PortRec>, port: u16) -> Option<int>
    decreases ports.len(),
{
    if ports.len() == 0 {
        None
    } else if ports[0].port == port {
        Some(0)
    } else {
        match find_port(ports.drop_first(), port) {
            Some(k) => Some(k + 1),
            None => None,
        }
    }
}

proof fn lemma_find_port_at(ports: Seq<PortRec>, port: u16, k: int)
    requires
        0 <= k <= ports.len(),
        forall|j: int| 0 <= j < k ==> ports[j].port != port,
        k == ports.len() || ports[k].port == port,
    ensures
        k == ports.len() ==> find_port(ports, port) is None,
        k < ports.len() ==> find_port(ports, port) == Some(k),
    decreases ports.len(),
{
    if ports.len() > 0 && k > 0 {
        let t = ports.drop_first();
        assert(forall|j: int| 0 <= j < k - 1 ==> t[j] == ports[j + 1]);
        lemma_find_port_at(t, port, k - 1);
    }
}

/// One reconfirmed record folded into the report: the first record with
/// the same port number, when that port was among the wrapped ones, takes
/// the reconfirmed state and service.
pub open spec fn update_one(ports: Seq<PortRec>, upd: PortRec, wrapped: Seq<u16>) -> Seq<PortRec> {
    if wrapped.contains(upd.port) {
        match find_port(ports, upd.port) {
            Some(i) => ports.update(
                i,
                PortRec { port: ports[i].port, state: upd.state, service: upd.service },
            ),
            None => ports,
        }
    } else {
        ports
    }
}

/// All reconfirmed records folded in, in order.
pub open spec fn apply_updates(ports: Seq<PortRec>, upds: Seq<PortRec>, wrapped: Seq<u16>) -> Seq<
    PortRec,
>
    decreases upds.len(),
{
    if upds.len() == 0 {
        ports
    } else {
        apply_updates(update_one(ports, upds[0], wrapped), upds.drop_first(), wrapped)
    }
}

/// Is the port in the list?
fn ports_contain(list: &Vec<u16>, port: u16) -> (r: bool)
    ensures
        r == list@.contains(port),
{
    let mut i: usize = 0;
    while i < list.len()
        invariant
            i <= list@.len(),
            forall|j: int| 0 <= j < i ==> list@[j] != port,
        decreases list.len() - i,
    {
        if list[i] == port {
            assert(list@[i as int] == port);
            return true;
        }
        i += 1;
    }
    false
}

/// Folds the reconfirmation results into a report: for each reconfirmed
/// record whose port was among the wrapped ones, the first record with
/// that port number takes the new state and service. The target, address
/// and port numbers are unchanged.
pub fn apply_confirmations(rep: &mut HostReport, wrapped: &Vec<u16>, upds: &Vec<PortDetail>)
    ensures
        final(rep).target@ == old(rep).target@,
        final(rep).ip@ == old(rep).ip@,
        ports_view(final(rep).ports@) == apply_updates(
            ports_view(old(rep).ports@),
            ports_view(upds@),
            wrapped@,
        ),
{
    let ghost orig = ports_view(old(rep).ports@);
    let ghost gupds = ports_view(upds@);
    let mut u: usize = 0;
    proof {
        assert(gupds.subrange(0, gupds.len() as int) =~= gupds);
    }
    while u < upds.len()
        invariant
            u <= upds@.len(),
            gupds == ports_view(upds@),
            gupds.len() == upds@.len(),
            rep.target@ == old(rep).target@,
            rep.ip@ == old(rep).ip@,
            apply_updates(orig, gupds, wrapped@) == apply_updates(
                ports_view(rep.ports@),
                gupds.subrange(u as int, gupds.len() as int),
                wrapped@,
            ),
        decreases upds.len() - u,
    {
        let ghost cur = ports_view(rep.ports@);
        let ghost rest = gupds.subrange(u as int, gupds.len() as int);
        proof {
            assert(rest[0] == gupds[u as int]);
            assert(gupds[u as int] == upds@[u as int]@);
            assert(rest.drop_first() =~= gupds.subrange(u + 1, gupds.len() as int));
        }
        let target_port = upds[u].port;
        let ghost gport = upds@[u as int]@.port;
        assert(target_port == gport);
        let in_wrapped = ports_contain(wrapped, target_port);
        if in_wrapped {
            let mut k: usize = 0;
            let mut found = false;
            loop
                invariant_except_break
                    k <= rep.ports@.len(),
                    cur == ports_view(rep.ports@),
                    cur.len() == rep.ports@.len(),
                    target_port == gport,
                    !found,
                    forall|j: int| 0 <= j < k ==> cur[j].port != gport,
                ensures
                    k <= rep.ports@.len(),
                    cur == ports_view(rep.ports@),
                    cur.len() == rep.ports@.len(),
                    forall|j: int| 0 <= j < k ==> cur[j].port != gport,
                    found ==> k < cur.len() && cur[k as int].port == gport,
                    !found ==> k == cur.len(),
                decreases rep.ports@.len() - k,
            {
                if k == rep.ports.len() {
                    break ;
                }
                if rep.ports[k].port == target_port {
                    assert(cur[k as int].port == gport);
                    found = true;
                    break ;
                }
                k += 1;
            }
            if found {
                proof {
                    lemma_find_port_at(cur, gport, k as int);
                }
                let new_state = upds[u].state;
                let new_service = match &upds[u].service {
                    Some(sv) => Some(sv.clone()),
                    None => None,
                };
                let keep_port = rep.ports[k].port;
                rep.ports[k] = PortDetail { port: keep_port, state: new_state, service: new_service };
                proof {
                    assert(ports_view(rep.ports@) =~= update_one(cur, gupds[u as int], wrapped@));
                }
            } else {
                proof {
                    lemma_find_port_at(cur, gport, rep.ports@.len() as int);
                    assert(ports_view(rep.ports@) == update_one(cur, gupds[u as int], wrapped@));
                }
            }
        } else {
            assert(ports_view(rep.ports@) == update_one(cur, gupds[u as int], wrapped@));
        }
        u += 1;
    }
    assert(gupds.subrange(gupds.len() as int, gupds.len() as int) =~= Seq::<PortRec>::empty());
}

} // verus!
