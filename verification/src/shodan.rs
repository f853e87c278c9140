//! The discovery-side logic: turning free-form keywords into a search
//! query, building the service's request URLs, and the page-collection
//! state machine with its rate-limit retry and address-set bookkeeping.

use vstd::prelude::*;
use crate::text::{
    chars_eq, chars_eq_str, chars_to_string, contains_char_from, is_ascii_alpha,
    is_ascii_alpha_char, lower_char, remove_char, remove_char_spec, split_at_char, split_sep,
    str_to_chars, to_lower_chars, to_upper_chars, trim_chars, trim_lead_char_spec,
    trim_leading_char, trim_spec, upper_char,
};

verus! {

/// ASCII-lowercased.
pub open spec fn lower_seq(s: Seq<char>) -> Seq<char> {
    s.map_values(|c: char| lower_char(c))
}

/// ASCII-uppercased.
pub open spec fn upper_seq(s: Seq<char>) -> Seq<char> {
    s.map_values(|c: char| upper_char(c))
}

/// One keyword cleaned: trimmed, quote characters removed, lowercased.
pub open spec fn clean_one(kw: Seq<char>) -> Seq<char> {
    lower_seq(remove_char_spec(remove_char_spec(trim_spec(kw), '"'), '\''))
}

/// The cleaned keywords: blank entries dropped, the rest cleaned, in order.
pub open spec fn clean_kws(parts: Seq<Seq<char>>) -> Seq<Seq<char>>
    decreases parts.len(),
{
    if parts.len() == 0 {
        Seq::empty()
    } else {
        let t = clean_kws(parts.drop_last());
        if trim_spec(parts.last()).len() > 0 {
            t.push(clean_one(parts.last()))
        } else {
            t
        }
    }
}

/// Consecutive duplicates collapsed.
pub open spec fn dedup_adj(s: Seq<Seq<char>>) -> Seq<Seq<char>>
    decreases s.len(),
{
    if s.len() == 0 {
        s
    } else {
        let d = dedup_adj(s.drop_last());
        if s.len() >= 2 && s[s.len() - 2] == s.last() {
            d
        } else {
            d.push(s.last())
        }
    }
}

/// The query term one cleaned keyword contributes, if any: a country
/// filter for the country aliases and for two-letter codes, a multi-view
/// substring search for a bare top-level domain, a hostname/certificate
/// search for a domain, a fixed municipal search for the municipal
/// aliases, and a free-text search for anything else. A keyword that is
/// only dots contributes nothing.
pub open spec fn term_of(kw: Seq<char>) -> Option<Seq<char>> {
    if kw == "chile"@ || kw == "cl"@ {
        Some("country:CL"@)
    } else if kw.len() >= 1 && kw[0] == '.' && !kw.subrange(1, kw.len() as int).contains('.') {
        Some(
            "(ssl:\""@ + kw + "\" OR http.title:\""@ + kw + "\" OR http.html:\""@ + kw + "\")"@,
        )
    } else if (kw.len() >= 1 && kw[0] == '.') || kw.contains('.') {
        let v = trim_lead_char_spec(kw, '.');
        if v.len() > 0 {
            Some(
                "(hostname:\""@ + v + "\" OR ssl.cert.subject.cn:\""@ + v
                    + "\" OR ssl.cert.issuer.cn:\""@ + v + "\")"@,
            )
        } else {
            None
        }
    } else if kw == "muni"@ || kw == "municipalidad"@ || kw == "municipio"@ || kw == "ilustre"@ {
        Some("(http.title:\"Municipalidad\" OR http.html:\"Municipalidad\" OR org:\"Municipalidad\")"@)
    } else if kw.len() == 2 && is_ascii_alpha(kw[0]) && is_ascii_alpha(kw[1]) {
        Some("country:"@ + upper_seq(kw))
    } else {
        Some(
            "(http.title:\""@ + kw + "\" OR http.html:\""@ + kw + "\" OR org:\""@ + kw
                + "\" OR product:\""@ + kw + "\")"@,
        )
    }
}

/// The terms the keywords contribute, in order.
pub open spec fn terms_of(kws: Seq<Seq<char>>) -> Seq<Seq<char>>
    decreases kws.len(),
{
    if kws.len() == 0 {
        Seq::empty()
    } else {
        let t = terms_of(kws.drop_last());
        match term_of(kws.last()) {
            Some(x) => t.push(x),
            None => t,
        }
    }
}

/// Later repetitions of a term dropped, keeping first occurrences.
pub open spec fn dedup_first(s: Seq<Seq<char>>) -> Seq<Seq<char>>
    decreases s.len(),
{
    if s.len() == 0 {
        s
    } else {
        let d = dedup_first(s.drop_last());
        if s.drop_last().contains(s.last()) {
            d
        } else {
            d.push(s.last())
        }
    }
}

/// The query built from a comma-separated keyword list: each keyword's
/// term, deduplicated, parenthesized and joined with ` AND `; a broad
/// country query when nothing remains.
pub open spec fn dork_spec(keywords: Seq<char>) -> Seq<char> {
    let kws = dedup_adj(clean_kws(split_sep(keywords, ',')));
    let terms = dedup_first(terms_of(kws));
    if terms.len() == 0 {
        "country:CL"@
    } else {
        crate::text::join_sep(terms.map_values(|t: Seq<char>| "("@ + t + ")"@), " AND "@)
    }
}

/// Cleans one raw keyword.
fn clean_one_exec(kw: &Vec<char>) -> (r: Vec<char>)
    ensures
        r@ == clean_one(kw@),
{
    let t = trim_chars(kw);
    let a = remove_char(&t, '"');
    let b = remove_char(&a, '\'');
    to_lower_chars(&b)
}

/// The executable mirror of [`term_of`].
fn term_of_exec(kw: &Vec<char>) -> (r: Option<Vec<char>>)
    ensures
        match r {
            Some(v) => term_of(kw@) == Some(v@),
            None => term_of(kw@) is None,
        },
{
    if chars_eq_str(kw, "chile") || chars_eq_str(kw, "cl") {
        return Some(str_to_chars("country:CL"));
    }
    if kw.len() >= 1 && kw[0] == '.' && !contains_char_from(kw, 1, '.') {
        let mut out: Vec<char> = Vec::new();
        crate::text::extend_str(&mut out, "(ssl:\"");
        crate::text::extend_chars(&mut out, kw);
        crate::text::extend_str(&mut out, "\" OR http.title:\"");
        crate::text::extend_chars(&mut out, kw);
        crate::text::extend_str(&mut out, "\" OR http.html:\"");
        crate::text::extend_chars(&mut out, kw);
        crate::text::extend_str(&mut out, "\")");
        proof {
            assert(out@ =~= "(ssl:\""@ + kw@ + "\" OR http.title:\""@ + kw@ + "\" OR http.html:\""@
                + kw@ + "\")"@);
        }
        return Some(out);
    }
    let starts_dot = kw.len() >= 1 && kw[0] == '.';
    let has_dot = contains_char_from(kw, 0, '.');
    assert(has_dot == kw@.contains('.')) by {
        assert(kw@.subrange(0, kw@.len() as int) =~= kw@);
    }
    if starts_dot || has_dot {
        let v = trim_leading_char(kw, '.');
        if v.len() > 0 {
            let mut out: Vec<char> = Vec::new();
            crate::text::extend_str(&mut out, "(hostname:\"");
            crate::text::extend_chars(&mut out, &v);
            crate::text::extend_str(&mut out, "\" OR ssl.cert.subject.cn:\"");
            crate::text::extend_chars(&mut out, &v);
            crate::text::extend_str(&mut out, "\" OR ssl.cert.issuer.cn:\"");
            crate::text::extend_chars(&mut out, &v);
            crate::text::extend_str(&mut out, "\")");
            proof {
                assert(out@ =~= "(hostname:\""@ + v@ + "\" OR ssl.cert.subject.cn:\""@ + v@
                    + "\" OR ssl.cert.issuer.cn:\""@ + v@ + "\")"@);
            }
            return Some(out);
        } else {
            return None;
        }
    }
    if chars_eq_str(kw, "muni") || chars_eq_str(kw, "municipalidad") || chars_eq_str(
        kw,
        "municipio",
    ) || chars_eq_str(kw, "ilustre") {
        return Some(
            str_to_chars(
                "(http.title:\"Municipalidad\" OR http.html:\"Municipalidad\" OR org:\"Municipalidad\")",
            ),
        );
    }
    if kw.len() == 2 && is_ascii_alpha_char(kw[0]) && is_ascii_alpha_char(kw[1]) {
        let mut out: Vec<char> = Vec::new();
        crate::text::extend_str(&mut out, "country:");
        let up = to_upper_chars(kw);
        crate::text::extend_chars(&mut out, &up);
        proof {
            assert(out@ =~= "country:"@ + upper_seq(kw@));
        }
        return Some(out);
    }
    let mut out: Vec<char> = Vec::new();
    crate::text::extend_str(&mut out, "(http.title:\"");
    crate::text::extend_chars(&mut out, kw);
    crate::text::extend_str(&mut out, "\" OR http.html:\"");
    crate::text::extend_chars(&mut out, kw);
    crate::text::extend_str(&mut out, "\" OR org:\"");
    crate::text::extend_chars(&mut out, kw);
    crate::text::extend_str(&mut out, "\" OR product:\"");
    crate::text::extend_chars(&mut out, kw);
    crate::text::extend_str(&mut out, "\")");
    proof {
        assert(out@ =~= "(http.title:\""@ + kw@ + "\" OR http.html:\""@ + kw@ + "\" OR org:\""@
            + kw@ + "\" OR product:\""@ + kw@ + "\")"@);
    }
    Some(out)
}

/// Builds the discovery query from a comma-separated keyword list.
pub fn build_dork_from_keywords(keywords_csv: &str) -> (r: String)
    ensures
        r@ == dork_spec(keywords_csv@),
{
    let chars = str_to_chars(keywords_csv);
    let parts = split_at_char(&chars, ',');
    let ghost gparts = split_sep(keywords_csv@, ',');
    assert(parts.deep_view() == gparts);
    proof {
        crate::text::lemma_tokens_view(&parts);
    }

    // Clean: trim, drop blanks, strip quotes, lowercase.
    let mut kws: Vec<Vec<char>> = Vec::new();
    let mut i: usize = 0;
    proof {
        assert(gparts.subrange(0, 0) =~= Seq::<Seq<char>>::empty());
        assert(kws.deep_view() =~= Seq::<Seq<char>>::empty());
        assert(clean_kws(Seq::<Seq<char>>::empty()) == Seq::<Seq<char>>::empty());
    }
    while i < parts.len()
        invariant
            i <= parts@.len(),
            gparts == parts.deep_view(),
            gparts.len() == parts@.len(),
            forall|j: int| 0 <= j < parts@.len() ==> #[trigger] gparts[j] == parts@[j]@,
            kws.deep_view() == clean_kws(gparts.subrange(0, i as int)),
        decreases parts.len() - i,
    {
        let ghost pref = gparts.subrange(0, i as int);
        let ghost prev = kws.deep_view();
        let t = trim_chars(&parts[i]);
        proof {
            assert(gparts.subrange(0, i + 1) =~= pref.push(gparts[i as int]));
            assert(pref.push(gparts[i as int]).drop_last() =~= pref);
            assert(pref.push(gparts[i as int]).last() == gparts[i as int]);
        }
        if t.len() > 0 {
            let c = clean_one_exec(&parts[i]);
            kws.push(c);
            proof {
                assert(kws.deep_view() =~~= prev.push(clean_one(gparts[i as int])));
            }
        }
        i += 1;
    }
    assert(gparts.subrange(0, gparts.len() as int) =~= gparts);
    let ghost gkws = clean_kws(gparts);
    assert(kws.deep_view() == gkws);

    // Collapse consecutive duplicates.
    let mut deduped: Vec<Vec<char>> = Vec::new();
    let mut k: usize = 0;
    proof {
        crate::text::lemma_tokens_view(&kws);
        assert(gkws.subrange(0, 0) =~= Seq::<Seq<char>>::empty());
        assert(deduped.deep_view() =~= Seq::<Seq<char>>::empty());
    }
    while k < kws.len()
        invariant
            k <= kws@.len(),
            gkws == kws.deep_view(),
            gkws.len() == kws@.len(),
            forall|j: int| 0 <= j < kws@.len() ==> #[trigger] gkws[j] == kws@[j]@,
            deduped.deep_view() == dedup_adj(gkws.subrange(0, k as int)),
        decreases kws.len() - k,
    {
        let ghost pref = gkws.subrange(0, k as int);
        let ghost prev = deduped.deep_view();
        proof {
            assert(gkws.subrange(0, k + 1) =~= pref.push(gkws[k as int]));
            assert(pref.push(gkws[k as int]).drop_last() =~= pref);
            assert(pref.push(gkws[k as int]).last() == gkws[k as int]);
            if k > 0 {
                assert(pref.push(gkws[k as int])[k - 1] == gkws[k - 1]);
            }
        }
        let same_as_prev = if k > 0 {
            chars_eq(&kws[k - 1], &kws[k])
        } else {
            false
        };
        if !same_as_prev {
            let mut copy: Vec<char> = Vec::new();
            crate::text::extend_chars(&mut copy, &kws[k]);
            deduped.push(copy);
            proof {
                assert(deduped.deep_view() =~~= prev.push(gkws[k as int]));
            }
        }
        k += 1;
    }
    assert(gkws.subrange(0, gkws.len() as int) =~= gkws);
    let ghost gdeduped = dedup_adj(gkws);
    assert(deduped.deep_view() == gdeduped);

    // Collect each keyword's term.
    let mut terms: Vec<Vec<char>> = Vec::new();
    let mut m: usize = 0;
    proof {
        crate::text::lemma_tokens_view(&deduped);
        assert(gdeduped.subrange(0, 0) =~= Seq::<Seq<char>>::empty());
        assert(terms.deep_view() =~= Seq::<Seq<char>>::empty());
    }
    while m < deduped.len()
        invariant
            m <= deduped@.len(),
            gdeduped == deduped.deep_view(),
            gdeduped.len() == deduped@.len(),
            forall|j: int| 0 <= j < deduped@.len() ==> #[trigger] gdeduped[j] == deduped@[j]@,
            terms.deep_view() == terms_of(gdeduped.subrange(0, m as int)),
        decreases deduped.len() - m,
    {
        let ghost pref = gdeduped.subrange(0, m as int);
        let ghost prev = terms.deep_view();
        proof {
            assert(gdeduped.subrange(0, m + 1) =~= pref.push(gdeduped[m as int]));
            assert(pref.push(gdeduped[m as int]).drop_last() =~= pref);
            assert(pref.push(gdeduped[m as int]).last() == gdeduped[m as int]);
        }
        match term_of_exec(&deduped[m]) {
            Some(t) => {
                terms.push(t);
                proof {
                    assert(terms.deep_view() =~~= prev.push(
                        term_of(gdeduped[m as int]).unwrap(),
                    ));
                }
            },
            None => {},
        }
        m += 1;
    }
    assert(gdeduped.subrange(0, gdeduped.len() as int) =~= gdeduped);
    let ghost gterms = terms_of(gdeduped);
    assert(terms.deep_view() == gterms);

    // Keep first occurrences only.
    let mut uniq: Vec<Vec<char>> = Vec::new();
    let mut u: usize = 0;
    proof {
        crate::text::lemma_tokens_view(&terms);
        assert(gterms.subrange(0, 0) =~= Seq::<Seq<char>>::empty());
        assert(uniq.deep_view() =~= Seq::<Seq<char>>::empty());
    }
    while u < terms.len()
        invariant
            u <= terms@.len(),
            gterms == terms.deep_view(),
            gterms.len() == terms@.len(),
            forall|j: int| 0 <= j < terms@.len() ==> #[trigger] gterms[j] == terms@[j]@,
            uniq.deep_view() == dedup_first(gterms.subrange(0, u as int)),
        decreases terms.len() - u,
    {
        let ghost pref = gterms.subrange(0, u as int);
        let ghost prev = uniq.deep_view();
        proof {
            assert(gterms.subrange(0, u + 1) =~= pref.push(gterms[u as int]));
            assert(pref.push(gterms[u as int]).drop_last() =~= pref);
            assert(pref.push(gterms[u as int]).last() == gterms[u as int]);
        }
        let mut seen = false;
        let mut q: usize = 0;
        while q < u
            invariant
                q <= u,
                u < terms@.len(),
                gterms.len() == terms@.len(),
                forall|j: int| 0 <= j < terms@.len() ==> #[trigger] gterms[j] == terms@[j]@,
                seen ==> gterms.subrange(0, u as int).contains(gterms[u as int]),
                !seen ==> forall|j: int| 0 <= j < q ==> gterms[j] != gterms[u as int],
            decreases u - q,
        {
            if !seen {
                if chars_eq(&terms[q], &terms[u]) {
                    assert(gterms.subrange(0, u as int)[q as int] == gterms[u as int]);
                    seen = true;
                }
            }
            q += 1;
        }
        proof {
            if !seen {
                if pref.contains(gterms[u as int]) {
                    let w = choose|w: int| 0 <= w < pref.len() && #[trigger] pref[w] == gterms[u as int];
                    assert(gterms[w] == gterms[u as int]);
                }
            }
        }
        if !seen {
            let mut copy: Vec<char> = Vec::new();
            crate::text::extend_chars(&mut copy, &terms[u]);
            uniq.push(copy);
            proof {
                assert(uniq.deep_view() =~~= prev.push(gterms[u as int]));
            }
        }
        u += 1;
    }
    assert(gterms.subrange(0, gterms.len() as int) =~= gterms);
    let ghost guniq = dedup_first(gterms);
    assert(uniq.deep_view() == guniq);

    if uniq.len() == 0 {
        let r = "country:CL".to_owned();
        return r;
    }

    // Parenthesize and join.
    let mut wrapped: Vec<Vec<char>> = Vec::new();
    let mut w: usize = 0;
    proof {
        crate::text::lemma_tokens_view(&uniq);
        assert(guniq.subrange(0, 0) =~= Seq::<Seq<char>>::empty());
        assert(wrapped.deep_view() =~= Seq::<Seq<char>>::empty());
        assert(Seq::<Seq<char>>::empty() =~= guniq.subrange(0, 0).map_values(
            |t: Seq<char>| "("@ + t + ")"@,
        ));
    }
    while w < uniq.len()
        invariant
            w <= uniq@.len(),
            guniq == uniq.deep_view(),
            guniq.len() == uniq@.len(),
            forall|j: int| 0 <= j < uniq@.len() ==> #[trigger] guniq[j] == uniq@[j]@,
            wrapped.deep_view() == guniq.subrange(0, w as int).map_values(
                |t: Seq<char>| "("@ + t + ")"@,
            ),
        decreases uniq.len() - w,
    {
        let ghost pref = guniq.subrange(0, w as int);
        let ghost prev = wrapped.deep_view();
        let mut piece: Vec<char> = Vec::new();
        crate::text::extend_str(&mut piece, "(");
        crate::text::extend_chars(&mut piece, &uniq[w]);
        crate::text::extend_str(&mut piece, ")");
        wrapped.push(piece);
        proof {
            assert(piece@ =~= "("@ + guniq[w as int] + ")"@);
            assert(wrapped.deep_view() =~~= prev.push("("@ + guniq[w as int] + ")"@));
            assert(guniq.subrange(0, w + 1) =~= pref.push(guniq[w as int]));
            assert(pref.push(guniq[w as int]).map_values(|t: Seq<char>| "("@ + t + ")"@)
                =~= pref.map_values(|t: Seq<char>| "("@ + t + ")"@).push(
                "("@ + guniq[w as int] + ")"@,
            ));
        }
        w += 1;
    }
    assert(guniq.subrange(0, guniq.len() as int) =~= guniq);
    let joined = crate::text::join_chars(&wrapped, " AND ");
    chars_to_string(&joined)
}


/// What `urlencoding`'s percent-encoding returns for a given text; the
/// result depends on the input alone.
pub uninterp spec fn url_encoded(s: Seq<char>) -> Seq<char>;

/// Relies on urlencoding::encode: percent-encodes every byte except ASCII
/// alphanumerics and `-`, `_`, `.`, `~`, deterministically in the input.
#[verifier::external_body]
fn url_encode(s: &str) -> (r: String)
    ensures
        r@ == url_encoded(s@),
        s@.len() == 0 ==> r@.len() == 0,
{
    urlencoding::encode(s).into_owned()
}

/// The address of the discovery service's count endpoint for a query.
pub open spec fn count_url_spec(key: Seq<char>, query: Seq<char>) -> Seq<char> {
    "https://api.shodan.io/shodan/host/count?key="@ + url_encoded(key) + "&query="@ + url_encoded(
        query,
    )
}

/// Builds the count-endpoint request address for the query precheck.
pub fn build_count_url(key: &str, query: &str) -> (r: String)
    ensures
        r@ == count_url_spec(key@, query@),
{
    let ek = url_encode(key);
    let eq = url_encode(query);
    let mut out: Vec<char> = Vec::new();
    crate::text::extend_str(&mut out, "https://api.shodan.io/shodan/host/count?key=");
    crate::text::extend_str(&mut out, ek.as_str());
    crate::text::extend_str(&mut out, "&query=");
    crate::text::extend_str(&mut out, eq.as_str());
    proof {
        assert(out@ =~= count_url_spec(key@, query@));
    }
    chars_to_string(&out)
}

/// The address of one search-result page.
pub open spec fn search_url_spec(key: Seq<char>, query: Seq<char>, page: int) -> Seq<char> {
    "https://api.shodan.io/shodan/host/search?key="@ + url_encoded(key) + "&query="@ + url_encoded(
        query,
    ) + "&page="@ + crate::text::dec_str(page) + "&minify=true"@
}

/// Builds the search-endpoint request address for one result page.
pub fn build_search_url(key: &str, query: &str, page: u64) -> (r: String)
    ensures
        r@ == search_url_spec(key@, query@, page as int),
{
    let ek = url_encode(key);
    let eq = url_encode(query);
    let pg = crate::text::u64_to_chars(page);
    let mut out: Vec<char> = Vec::new();
    crate::text::extend_str(&mut out, "https://api.shodan.io/shodan/host/search?key=");
    crate::text::extend_str(&mut out, ek.as_str());
    crate::text::extend_str(&mut out, "&query=");
    crate::text::extend_str(&mut out, eq.as_str());
    crate::text::extend_str(&mut out, "&page=");
    crate::text::extend_chars(&mut out, &pg);
    crate::text::extend_str(&mut out, "&minify=true");
    proof {
        assert(out@ =~= search_url_spec(key@, query@, page as int));
    }
    chars_to_string(&out)
}

/// The broad query substituted when the built query is rejected.
pub fn fallback_query() -> (r: String)
    ensures
        r@ == "country:CL"@,
{
    "country:CL".to_owned()
}

/// A discovery failure: the service rejected the query or the transport
/// failed, after the one permitted rate-limit retry.
#[derive(Clone, Copy, PartialEq, Eq, Debug, Structural)]
pub struct DiscoveryError {
    /// The HTTP status the service answered with, when it answered.
    pub status: Option<u16>,
}

/// The address set and continuation flag after one result page: every
/// listed address joins the set, in order, until the set reaches `limit`;
/// collection goes on only when neither the page was empty nor the limit
/// was reached.
pub open spec fn absorb_rec(
    ips: Set<Seq<char>>,
    new: Seq<Seq<char>>,
    limit: int,
) -> (Set<Seq<char>>, bool)
    decreases new.len(),
{
    if new.len() == 0 {
        (ips, true)
    } else {
        let s2 = ips.insert(new[0]);
        if s2.len() >= limit {
            (s2, false)
        } else {
            absorb_rec(s2, new.drop_first(), limit)
        }
    }
}

/// The page-absorption rule: an empty page stops collection at once.
pub open spec fn absorb_spec(
    ips: Set<Seq<char>>,
    new: Seq<Seq<char>>,
    limit: int,
) -> (Set<Seq<char>>, bool) {
    if new.len() == 0 {
        (ips, false)
    } else {
        absorb_rec(ips, new, limit)
    }
}

/// Absorbs one result page's addresses into the sorted unique address set,
/// stopping at the collection limit; reports whether to fetch more pages.
pub fn absorb_ips(ips: &mut Vec<String>, new: &Vec<String>, limit: usize) -> (more: bool)
    requires
        crate::controller::sorted_unique_addrs(crate::controller::strings_view(old(ips)@)),
    ensures
        crate::controller::sorted_unique_addrs(crate::controller::strings_view(final(ips)@)),
        ({
            let step = absorb_spec(
                crate::controller::strings_view(old(ips)@).to_set(),
                crate::controller::strings_view(new@),
                limit as int,
            );
            crate::controller::strings_view(final(ips)@).to_set() == step.0 && more == step.1
        }),
{
    let ghost gnew = crate::controller::strings_view(new@);
    proof {
        crate::text::lemma_strings_view(new);
    }
    if new.len() == 0 {
        assert(gnew.len() == 0);
        return false;
    }
    let ghost target = absorb_rec(
        crate::controller::strings_view(ips@).to_set(),
        gnew,
        limit as int,
    );
    let mut i: usize = 0;
    proof {
        assert(gnew.subrange(0, gnew.len() as int) =~= gnew);
    }
    while i < new.len()
        invariant
            i < gnew.len() || i == gnew.len(),
            i <= new@.len(),
            gnew == crate::controller::strings_view(new@),
            gnew.len() == new@.len(),
            forall|j: int| 0 <= j < new@.len() ==> #[trigger] gnew[j] == new@[j]@,
            gnew.len() > 0,
            crate::controller::sorted_unique_addrs(crate::controller::strings_view(ips@)),
            target == absorb_spec(
                crate::controller::strings_view(old(ips)@).to_set(),
                gnew,
                limit as int,
            ),
            target == absorb_rec(
                crate::controller::strings_view(ips@).to_set(),
                gnew.subrange(i as int, gnew.len() as int),
                limit as int,
            ),
        decreases new.len() - i,
    {
        let ghost rest = gnew.subrange(i as int, gnew.len() as int);
        let ghost cur = crate::controller::strings_view(ips@).to_set();
        proof {
            assert(rest[0] == gnew[i as int]);
            assert(rest.drop_first() =~= gnew.subrange(i + 1, gnew.len() as int));
        }
        crate::controller::insert_addr(ips, new[i].clone());
        proof {
            crate::controller::lemma_sorted_unique_card(crate::controller::strings_view(ips@));
        }
        if ips.len() >= limit {
            assert(crate::controller::strings_view(ips@).to_set() == target.0 && !target.1);
            return false;
        }
        i += 1;
    }
    assert(gnew.subrange(gnew.len() as int, gnew.len() as int) =~= Seq::<Seq<char>>::empty());
    true
}

/// The page-collection state of one discovery run.
pub struct CollectState {
    /// The next page to request, starting at one.
    pub page: usize,
    /// The last page that will be requested.
    pub max_pages: usize,
    /// The collection limit on addresses.
    pub limit: usize,
    /// Whether the current page has already been retried after a
    /// rate-limit answer.
    pub retried: bool,
    /// The addresses collected so far, sorted and duplicate-free.
    pub ips: Vec<String>,
}

/// What the collection loop does next.
#[derive(Clone, Copy, PartialEq, Eq, Debug, Structural)]
pub enum CollectAction {
    /// Request the current page.
    Request,
    /// Wait out the rate limit, then request the same page once more.
    RetryAfterBackoff,
    /// Give the current page up and move on.
    SkipPage,
    /// Collection is complete.
    Finished,
}

impl CollectState {
    /// A fresh run: pages are clamped to at least one and at most one
    /// hundred.
    pub fn begin(pages: usize, limit: usize) -> (r: CollectState)
        ensures
            r.page == 1,
            r.max_pages == (if pages < 1 {
                1int
            } else if pages > 100 {
                100int
            } else {
                pages as int
            }),
            r.limit == limit,
            r.retried == false,
            r.ips@.len() == 0,
            crate::controller::sorted_unique_addrs(crate::controller::strings_view(r.ips@)),
    {
        let max_pages = if pages < 1 {
            1
        } else if pages > 100 {
            100
        } else {
            pages
        };
        let r = CollectState { page: 1, max_pages, limit, retried: false, ips: Vec::new() };
        assert(crate::controller::strings_view(r.ips@) =~= Seq::<Seq<char>>::empty());
        r
    }

    /// Is another page owed? Collection ends when the page budget is spent
    /// or the limit is reached.
    pub fn next_action(&self) -> (r: CollectAction)
        ensures
            r == (if self.page > self.max_pages || self.ips@.len() >= self.limit {
                CollectAction::Finished
            } else {
                CollectAction::Request
            }),
    {
        if self.page > self.max_pages || self.ips.len() >= self.limit {
            CollectAction::Finished
        } else {
            CollectAction::Request
        }
    }

    /// A rate-limited answer: the first on a page asks for one backed-off
    /// retry; a second gives the page up.
    pub fn on_rate_limited(&mut self) -> (r: CollectAction)
        requires
            old(self).page < usize::MAX,
        ensures
            final(self).ips@ == old(self).ips@,
            final(self).max_pages == old(self).max_pages,
            final(self).limit == old(self).limit,
            old(self).retried == false ==> r == CollectAction::RetryAfterBackoff
                && final(self).retried == true && final(self).page == old(self).page,
            old(self).retried == true ==> r == CollectAction::SkipPage && final(self).retried
                == false && final(self).page == old(self).page + 1,
    {
        if !self.retried {
            self.retried = true;
            CollectAction::RetryAfterBackoff
        } else {
            self.retried = false;
            self.page = self.page + 1;
            CollectAction::SkipPage
        }
    }

    /// A successful page: its addresses are absorbed and the run moves to
    /// the next page; collection finishes early on an empty page or once
    /// the limit is reached.
    pub fn on_page(&mut self, addrs: &Vec<String>) -> (more: bool)
        requires
            crate::controller::sorted_unique_addrs(crate::controller::strings_view(old(self).ips@)),
            old(self).page < usize::MAX,
        ensures
            crate::controller::sorted_unique_addrs(crate::controller::strings_view(final(self).ips@)),
            final(self).page == old(self).page + 1,
            final(self).retried == false,
            final(self).max_pages == old(self).max_pages,
            final(self).limit == old(self).limit,
            ({
                let step = absorb_spec(
                    crate::controller::strings_view(old(self).ips@).to_set(),
                    crate::controller::strings_view(addrs@),
                    old(self).limit as int,
                );
                crate::controller::strings_view(final(self).ips@).to_set() == step.0 && more
                    == step.1
            }),
    {
        let limit = self.limit;
        let more = absorb_ips(&mut self.ips, addrs, limit);
        self.page = self.page + 1;
        self.retried = false;
        more
    }
}

} // verus!
