//! The scan-result codec: a streaming parser that turns one host's
//! scan-result document into port records, and the minimal synthetic
//! encoder whose output decodes back to the same records.
//!
//! The parser tracks a current-port context opened by a `port` element
//! and closed by its end tag, recording the last `state` and `service`
//! attributes seen inside; a missing state reads as unknown, a missing
//! service attribute leaves the service absent. Malformed markup fails
//! with the parse position.

use vstd::prelude::*;
use crate::models::{PortDetail, PortRec, PortState, ports_view};
use crate::text::{chars_eq_str, chars_to_string, copy_range, dec_str, is_space, str_to_chars};

verus! {

/// A malformed or truncated scan-result document, with the position (in
/// characters) where parsing failed.
#[derive(Clone, Copy, PartialEq, Eq, Debug, Structural)]
pub struct DecodeError {
    pub pos: usize,
}

/// The first position at or after `i` holding `c`; the length if none.
pub open spec fn scan_char(s: Seq<char>, i: int, c: char) -> int
    decreases s.len() - i,
{
    if i < 0 || i >= s.len() {
        s.len() as int
    } else if s[i] == c {
        i
    } else {
        scan_char(s, i + 1, c)
    }
}

pub proof fn lemma_scan_char_bounds(s: Seq<char>, i: int, c: char)
    requires
        0 <= i <= s.len(),
    ensures
        i <= scan_char(s, i, c) <= s.len(),
        scan_char(s, i, c) < s.len() ==> s[scan_char(s, i, c)] == c,
        forall|j: int| i <= j < scan_char(s, i, c) ==> s[j] != c,
    decreases s.len() - i,
{
    if i < s.len() && s[i] != c {
        lemma_scan_char_bounds(s, i + 1, c);
    }
}

pub proof fn lemma_scan_char_at(s: Seq<char>, i: int, c: char, k: int)
    requires
        0 <= i <= k <= s.len(),
        forall|j: int| i <= j < k ==> s[j] != c,
        k == s.len() || s[k] == c,
    ensures
        scan_char(s, i, c) == k,
    decreases k - i,
{
    if i < k {
        lemma_scan_char_at(s, i + 1, c, k);
    }
}

/// The first position at or after `i` holding a non-whitespace character.
pub open spec fn skip_spaces(s: Seq<char>, i: int) -> int
    decreases s.len() - i,
{
    if i < 0 || i >= s.len() {
        s.len() as int
    } else if is_space(s[i]) {
        skip_spaces(s, i + 1)
    } else {
        i
    }
}

pub proof fn lemma_skip_spaces_bounds(s: Seq<char>, i: int)
    requires
        0 <= i <= s.len(),
    ensures
        i <= skip_spaces(s, i) <= s.len(),
        skip_spaces(s, i) < s.len() ==> !is_space(s[skip_spaces(s, i)]),
    decreases s.len() - i,
{
    if i < s.len() && is_space(s[i]) {
        lemma_skip_spaces_bounds(s, i + 1);
    }
}

pub proof fn lemma_skip_spaces_at(s: Seq<char>, i: int, k: int)
    requires
        0 <= i <= k <= s.len(),
        forall|j: int| i <= j < k ==> is_space(s[j]),
        k == s.len() || !is_space(s[k]),
    ensures
        skip_spaces(s, i) == k,
    decreases k - i,
{
    if i < k {
        lemma_skip_spaces_at(s, i + 1, k);
    }
}

/// Is `c` one of the characters that end a name token inside a tag?
pub open spec fn is_tok_end(c: char) -> bool {
    is_space(c) || c == '/' || c == '>' || c == '='
}

/// Executable mirror of [`is_tok_end`].
fn is_tok_end_exec(c: char) -> (r: bool)
    ensures
        r == is_tok_end(c),
{
    crate::text::is_space_char(c) || c == '/' || c == '>' || c == '='
}

/// The first position at or after `i` ending a name token; the length if
/// none.
pub open spec fn scan_tok_end(s: Seq<char>, i: int) -> int
    decreases s.len() - i,
{
    if i < 0 || i >= s.len() {
        s.len() as int
    } else if is_tok_end(s[i]) {
        i
    } else {
        scan_tok_end(s, i + 1)
    }
}

pub proof fn lemma_scan_tok_end_bounds(s: Seq<char>, i: int)
    requires
        0 <= i <= s.len(),
    ensures
        i <= scan_tok_end(s, i) <= s.len(),
        scan_tok_end(s, i) < s.len() ==> is_tok_end(s[scan_tok_end(s, i)]),
    decreases s.len() - i,
{
    if i < s.len() && !is_tok_end(s[i]) {
        lemma_scan_tok_end_bounds(s, i + 1);
    }
}

pub proof fn lemma_scan_tok_end_at(s: Seq<char>, i: int, k: int)
    requires
        0 <= i <= k <= s.len(),
        forall|j: int| i <= j < k ==> !is_tok_end(s[j]),
        k == s.len() || is_tok_end(s[k]),
    ensures
        scan_tok_end(s, i) == k,
    decreases k - i,
{
    if i < k {
        lemma_scan_tok_end_at(s, i + 1, k);
    }
}

/// Does `?>` start at position `j`?
pub open spec fn is_pi_end(s: Seq<char>, j: int) -> bool {
    0 <= j && j + 2 <= s.len() && s[j] == '?' && s[j + 1] == '>'
}

/// The first position at or after `i` where `?>` starts; the length if
/// none.
pub open spec fn scan_pi_end(s: Seq<char>, i: int) -> int
    decreases s.len() - i,
{
    if i < 0 || i >= s.len() {
        s.len() as int
    } else if is_pi_end(s, i) {
        i
    } else {
        scan_pi_end(s, i + 1)
    }
}

pub proof fn lemma_scan_pi_end_bounds(s: Seq<char>, i: int)
    requires
        0 <= i <= s.len(),
    ensures
        i <= scan_pi_end(s, i) <= s.len(),
        scan_pi_end(s, i) < s.len() ==> is_pi_end(s, scan_pi_end(s, i)),
    decreases s.len() - i,
{
    if i < s.len() && !is_pi_end(s, i) {
        lemma_scan_pi_end_bounds(s, i + 1);
    }
}

pub proof fn lemma_scan_pi_end_at(s: Seq<char>, i: int, k: int)
    requires
        0 <= i <= k <= s.len(),
        forall|j: int| i <= j < k ==> !is_pi_end(s, j),
        k == s.len() || is_pi_end(s, k),
    ensures
        scan_pi_end(s, i) == k,
    decreases k - i,
{
    if i < k {
        lemma_scan_pi_end_at(s, i + 1, k);
    }
}

/// Does `-->` start at position `j`?
pub open spec fn is_cmt_end(s: Seq<char>, j: int) -> bool {
    0 <= j && j + 3 <= s.len() && s[j] == '-' && s[j + 1] == '-' && s[j + 2] == '>'
}

/// The first position at or after `i` where `-->` starts; the length if
/// none.
pub open spec fn scan_cmt_end(s: Seq<char>, i: int) -> int
    decreases s.len() - i,
{
    if i < 0 || i >= s.len() {
        s.len() as int
    } else if is_cmt_end(s, i) {
        i
    } else {
        scan_cmt_end(s, i + 1)
    }
}

pub proof fn lemma_scan_cmt_end_bounds(s: Seq<char>, i: int)
    requires
        0 <= i <= s.len(),
    ensures
        i <= scan_cmt_end(s, i) <= s.len(),
        scan_cmt_end(s, i) < s.len() ==> is_cmt_end(s, scan_cmt_end(s, i)),
    decreases s.len() - i,
{
    if i < s.len() && !is_cmt_end(s, i) {
        lemma_scan_cmt_end_bounds(s, i + 1);
    }
}

pub proof fn lemma_scan_cmt_end_at(s: Seq<char>, i: int, k: int)
    requires
        0 <= i <= k <= s.len(),
        forall|j: int| i <= j < k ==> !is_cmt_end(s, j),
        k == s.len() || is_cmt_end(s, k),
    ensures
        scan_cmt_end(s, i) == k,
    decreases k - i,
{
    if i < k {
        lemma_scan_cmt_end_at(s, i + 1, k);
    }
}


/// One parsed attribute: name and raw value (entities are not decoded).
pub ghost struct AttrV {
    pub name: Seq<char>,
    pub value: Seq<char>,
}

/// The outcome of reading a tag's attribute list.
pub ghost enum AttrsStep {
    /// The attributes in document order, whether the tag was
    /// self-closing, and the position after the closing `>`.
    Done { attrs: Seq<AttrV>, self_close: bool, next: int },
    /// Malformed markup at the given position.
    Fail { pos: int },
}

/// Reads attributes from position `i` to the tag's end. A name followed
/// by `=` must carry a quoted value; a bare name is skipped, as a
/// tolerant reader does.
pub open spec fn parse_attrs(s: Seq<char>, i: int, acc: Seq<AttrV>) -> AttrsStep
    decreases s.len() - i,
    via parse_attrs_decreases
{
    if i < 0 || i > s.len() {
        AttrsStep::Fail { pos: if i < 0 { 0 } else { s.len() as int } }
    } else {
        let j = skip_spaces(s, i);
        if j >= s.len() {
            AttrsStep::Fail { pos: j }
        } else if s[j] == '>' {
            AttrsStep::Done { attrs: acc, self_close: false, next: j + 1 }
        } else if s[j] == '/' {
            if j + 1 < s.len() && s[j + 1] == '>' {
                AttrsStep::Done { attrs: acc, self_close: true, next: j + 2 }
            } else {
                AttrsStep::Fail { pos: j }
            }
        } else {
            let e = scan_tok_end(s, j);
            if e >= s.len() {
                AttrsStep::Fail { pos: j }
            } else if s[e] == '=' {
                if e + 1 >= s.len() || (s[e + 1] != '"' && s[e + 1] != '\'') {
                    AttrsStep::Fail { pos: e }
                } else {
                    let q = s[e + 1];
                    let v = scan_char(s, e + 2, q);
                    if v >= s.len() {
                        AttrsStep::Fail { pos: e + 1 }
                    } else {
                        parse_attrs(
                            s,
                            v + 1,
                            acc.push(
                                AttrV {
                                    name: s.subrange(j, e),
                                    value: s.subrange(e + 2, v),
                                },
                            ),
                        )
                    }
                }
            } else {
                parse_attrs(s, e, acc)
            }
        }
    }
}

#[via_fn]
proof fn parse_attrs_decreases(s: Seq<char>, i: int, acc: Seq<AttrV>) {
    if 0 <= i <= s.len() {
        lemma_skip_spaces_bounds(s, i);
        let j = skip_spaces(s, i);
        if j < s.len() && s[j] != '>' && s[j] != '/' {
            lemma_scan_tok_end_bounds(s, j);
            let e = scan_tok_end(s, j);
            if e < s.len() && s[e] == '=' {
                if e + 1 < s.len() && (s[e + 1] == '"' || s[e + 1] == '\'') {
                    lemma_scan_char_bounds(s, e + 2, s[e + 1]);
                }
            } else {
                assert(e > j) by {
                    if e == j {
                        assert(is_tok_end(s[j]));
                        assert(!is_space(s[j]));
                    }
                }
            }
        }
    }
}

/// The attribute list never loses ground and ends within the document.
pub proof fn lemma_parse_attrs_bounds(s: Seq<char>, i: int, acc: Seq<AttrV>)
    requires
        0 <= i <= s.len(),
    ensures
        match parse_attrs(s, i, acc) {
            AttrsStep::Done { next, .. } => i < next && next <= s.len(),
            AttrsStep::Fail { pos } => 0 <= pos <= s.len(),
        },
    decreases s.len() - i,
{
    lemma_skip_spaces_bounds(s, i);
    let j = skip_spaces(s, i);
    if j < s.len() && s[j] != '>' && s[j] != '/' {
        lemma_scan_tok_end_bounds(s, j);
        let e = scan_tok_end(s, j);
        if e < s.len() {
            if s[e] == '=' {
                if e + 1 < s.len() && (s[e + 1] == '"' || s[e + 1] == '\'') {
                    let q = s[e + 1];
                    lemma_scan_char_bounds(s, e + 2, q);
                    let v = scan_char(s, e + 2, q);
                    if v < s.len() {
                        lemma_parse_attrs_bounds(
                            s,
                            v + 1,
                            acc.push(AttrV { name: s.subrange(j, e), value: s.subrange(e + 2, v) }),
                        );
                    }
                }
            } else {
                assert(e > j) by {
                    if e == j {
                        assert(is_tok_end(s[j]));
                        assert(!is_space(s[j]));
                    }
                }
                lemma_parse_attrs_bounds(s, e, acc);
            }
        }
    }
}

/// One parsed tag.
pub ghost enum TagStep {
    /// An opening (or self-closing) tag with its attributes.
    Open { name: Seq<char>, attrs: Seq<AttrV>, self_close: bool, next: int },
    /// A closing tag.
    Close { name: Seq<char>, next: int },
    /// Markup the record extractor ignores: a processing instruction, a
    /// comment or a declaration.
    Skip { next: int },
    /// Malformed markup at the given position.
    Fail { pos: int },
}

/// Reads one tag starting at the `<` at position `i`.
pub open spec fn parse_tag(s: Seq<char>, i: int) -> TagStep {
    if !(0 <= i && i < s.len() && s[i] == '<') {
        TagStep::Fail { pos: if 0 <= i <= s.len() { i } else { 0 } }
    } else if i + 1 >= s.len() {
        TagStep::Fail { pos: i }
    } else if s[i + 1] == '?' {
        let k = scan_pi_end(s, i + 2);
        if k >= s.len() {
            TagStep::Fail { pos: i }
        } else {
            TagStep::Skip { next: k + 2 }
        }
    } else if s[i + 1] == '!' {
        if i + 4 <= s.len() && s[i + 2] == '-' && s[i + 3] == '-' {
            let k = scan_cmt_end(s, i + 4);
            if k >= s.len() {
                TagStep::Fail { pos: i }
            } else {
                TagStep::Skip { next: k + 3 }
            }
        } else {
            let k = scan_char(s, i + 2, '>');
            if k >= s.len() {
                TagStep::Fail { pos: i }
            } else {
                TagStep::Skip { next: k + 1 }
            }
        }
    } else if s[i + 1] == '/' {
        let k = scan_char(s, i + 2, '>');
        if k >= s.len() {
            TagStep::Fail { pos: i }
        } else {
            TagStep::Close { name: s.subrange(i + 2, k), next: k + 1 }
        }
    } else {
        let e = scan_tok_end(s, i + 1);
        if e >= s.len() {
            TagStep::Fail { pos: i }
        } else {
            match parse_attrs(s, e, Seq::empty()) {
                AttrsStep::Done { attrs, self_close, next } => TagStep::Open {
                    name: s.subrange(i + 1, e),
                    attrs,
                    self_close,
                    next,
                },
                AttrsStep::Fail { pos } => TagStep::Fail { pos },
            }
        }
    }
}

/// A tag always advances and ends within the document.
pub proof fn lemma_parse_tag_bounds(s: Seq<char>, i: int)
    requires
        0 <= i < s.len(),
        s[i] == '<',
    ensures
        match parse_tag(s, i) {
            TagStep::Open { next, .. } => i < next && next <= s.len(),
            TagStep::Close { next, .. } => i < next && next <= s.len(),
            TagStep::Skip { next } => i < next && next <= s.len(),
            TagStep::Fail { pos } => 0 <= pos <= s.len(),
        },
{
    if i + 1 < s.len() {
        if s[i + 1] == '?' {
            lemma_scan_pi_end_bounds(s, i + 2);
        } else if s[i + 1] == '!' {
            if i + 4 <= s.len() && s[i + 2] == '-' && s[i + 3] == '-' {
                lemma_scan_cmt_end_bounds(s, i + 4);
            } else {
                lemma_scan_char_bounds(s, i + 2, '>');
            }
        } else if s[i + 1] == '/' {
            lemma_scan_char_bounds(s, i + 2, '>');
        } else {
            lemma_scan_tok_end_bounds(s, i + 1);
            let e = scan_tok_end(s, i + 1);
            if e < s.len() {
                lemma_parse_attrs_bounds(s, e, Seq::empty());
            }
        }
    }
}

/// The last value carried by an attribute of the given name, if any:
/// repeated attributes overwrite, as the record extractor reads them.
pub open spec fn attr_last(attrs: Seq<AttrV>, key: Seq<char>) -> Option<Seq<char>>
    decreases attrs.len(),
{
    if attrs.len() == 0 {
        None
    } else if attrs.last().name == key {
        Some(attrs.last().value)
    } else {
        attr_last(attrs.drop_last(), key)
    }
}

/// The port state a state label denotes; anything unrecognized reads as
/// unknown, and so does a missing label.
pub open spec fn state_of_label(lbl: Option<Seq<char>>) -> PortState {
    match lbl {
        None => PortState::Unknown,
        Some(t) => if t == "open"@ {
            PortState::Open
        } else if t == "closed"@ {
            PortState::Closed
        } else if t == "filtered"@ {
            PortState::Filtered
        } else {
            PortState::Unknown
        },
    }
}

/// The parser's current-port context.
pub ghost struct Ctx {
    pub port: Option<u16>,
    pub state: Option<Seq<char>>,
    pub service: Option<Seq<char>>,
}

/// The empty context, between port elements.
pub open spec fn ctx_none() -> Ctx {
    Ctx { port: None, state: None, service: None }
}

/// One tag folded into the context and the records collected so far.
pub open spec fn apply_tag(ctx: Ctx, acc: Seq<PortRec>, tag: TagStep) -> (Ctx, Seq<PortRec>) {
    match tag {
        TagStep::Open { name, attrs, self_close, .. } => {
            if name == "port"@ && !self_close {
                (
                    Ctx {
                        port: match attr_last(attrs, "portid"@) {
                            Some(v) => crate::text::parse_u16_spec(v),
                            None => None,
                        },
                        state: None,
                        service: None,
                    },
                    acc,
                )
            } else if name == "state"@ {
                (
                    match attr_last(attrs, "state"@) {
                        Some(v) => Ctx { state: Some(v), ..ctx },
                        None => ctx,
                    },
                    acc,
                )
            } else if name == "service"@ {
                (
                    match attr_last(attrs, "name"@) {
                        Some(v) => Ctx { service: Some(v), ..ctx },
                        None => ctx,
                    },
                    acc,
                )
            } else {
                (ctx, acc)
            }
        },
        TagStep::Close { name, .. } => {
            if name == "port"@ {
                match ctx.port {
                    Some(p) => (
                        ctx_none(),
                        acc.push(
                            PortRec {
                                port: p,
                                state: state_of_label(ctx.state),
                                service: ctx.service,
                            },
                        ),
                    ),
                    None => (ctx_none(), acc),
                }
            } else {
                (ctx, acc)
            }
        },
        _ => (ctx, acc),
    }
}

/// The whole document folded from position `i` on: text between tags is
/// skipped, each tag is applied in order, and the records collected when
/// the document ends are the result; a malformed tag fails with its
/// position. A port context left open at the end of the document is
/// dropped.
pub open spec fn parse_loop(s: Seq<char>, i: int, ctx: Ctx, acc: Seq<PortRec>) -> Result<
    Seq<PortRec>,
    int,
>
    decreases s.len() - i,
    via parse_loop_decreases
{
    if i < 0 || i > s.len() {
        Err(0)
    } else {
        let j = scan_char(s, i, '<');
        if j >= s.len() {
            Ok(acc)
        } else {
            match parse_tag(s, j) {
                TagStep::Fail { pos } => Err(pos),
                tag => {
                    let next = match tag {
                        TagStep::Open { next, .. } => next,
                        TagStep::Close { next, .. } => next,
                        TagStep::Skip { next } => next,
                        TagStep::Fail { pos } => pos,
                    };
                    let k = if next < j + 1 {
                        j + 1
                    } else if next > s.len() {
                        s.len() as int
                    } else {
                        next
                    };
                    let step = apply_tag(ctx, acc, tag);
                    parse_loop(s, k, step.0, step.1)
                },
            }
        }
    }
}

#[via_fn]
proof fn parse_loop_decreases(s: Seq<char>, i: int, ctx: Ctx, acc: Seq<PortRec>) {
    if 0 <= i <= s.len() {
        lemma_scan_char_bounds(s, i, '<');
    }
}

/// The records of a whole scan-result document.
pub open spec fn parse_doc(s: Seq<char>) -> Result<Seq<PortRec>, int> {
    parse_loop(s, 0, ctx_none(), Seq::empty())
}


/// One parsed attribute, executable form.
pub struct AttrE {
    pub name: Vec<char>,
    pub value: Vec<char>,
}

/// The images of an attribute list.
pub open spec fn attrs_view(s: Seq<AttrE>) -> Seq<AttrV> {
    s.map_values(|a: AttrE| AttrV { name: a.name@, value: a.value@ })
}

/// Finds the next `c` at or after `i`.
fn scan_char_exec(v: &Vec<char>, i: usize, c: char) -> (r: usize)
    requires
        i <= v@.len(),
    ensures
        r == scan_char(v@, i as int, c),
        i <= r <= v@.len(),
        r < v@.len() ==> v@[r as int] == c,
{
    let mut k = i;
    while k < v.len()
        invariant
            i <= k <= v@.len(),
            forall|j: int| i <= j < k ==> v@[j] != c,
        decreases v.len() - k,
    {
        if v[k] == c {
            proof {
                lemma_scan_char_at(v@, i as int, c, k as int);
            }
            return k;
        }
        k += 1;
    }
    proof {
        lemma_scan_char_at(v@, i as int, c, v@.len() as int);
    }
    v.len()
}

/// Finds the next non-whitespace character at or after `i`.
fn skip_spaces_exec(v: &Vec<char>, i: usize) -> (r: usize)
    requires
        i <= v@.len(),
    ensures
        r == skip_spaces(v@, i as int),
        i <= r <= v@.len(),
        r < v@.len() ==> !is_space(v@[r as int]),
{
    let mut k = i;
    while k < v.len()
        invariant
            i <= k <= v@.len(),
            forall|j: int| i <= j < k ==> is_space(v@[j]),
        decreases v.len() - k,
    {
        if !crate::text::is_space_char(v[k]) {
            proof {
                lemma_skip_spaces_at(v@, i as int, k as int);
            }
            return k;
        }
        k += 1;
    }
    proof {
        lemma_skip_spaces_at(v@, i as int, v@.len() as int);
    }
    v.len()
}

/// Finds the next token-ending character at or after `i`.
fn scan_tok_end_exec(v: &Vec<char>, i: usize) -> (r: usize)
    requires
        i <= v@.len(),
    ensures
        r == scan_tok_end(v@, i as int),
        i <= r <= v@.len(),
        r < v@.len() ==> is_tok_end(v@[r as int]),
{
    let mut k = i;
    while k < v.len()
        invariant
            i <= k <= v@.len(),
            forall|j: int| i <= j < k ==> !is_tok_end(v@[j]),
        decreases v.len() - k,
    {
        if is_tok_end_exec(v[k]) {
            proof {
                lemma_scan_tok_end_at(v@, i as int, k as int);
            }
            return k;
        }
        k += 1;
    }
    proof {
        lemma_scan_tok_end_at(v@, i as int, v@.len() as int);
    }
    v.len()
}

/// Finds the next `?>` at or after `i`.
fn scan_pi_end_exec(v: &Vec<char>, i: usize) -> (r: usize)
    requires
        i <= v@.len(),
    ensures
        r == scan_pi_end(v@, i as int),
        i <= r <= v@.len(),
        r < v@.len() ==> is_pi_end(v@, r as int),
{
    let mut k = i;
    while k < v.len()
        invariant
            i <= k <= v@.len(),
            forall|j: int| i <= j < k ==> !is_pi_end(v@, j),
        decreases v.len() - k,
    {
        if v[k] == '?' && v.len() >= 2 && k < v.len() - 1 && v[k + 1] == '>' {
            proof {
                lemma_scan_pi_end_at(v@, i as int, k as int);
            }
            return k;
        }
        assert(!is_pi_end(v@, k as int));
        k += 1;
    }
    proof {
        lemma_scan_pi_end_at(v@, i as int, v@.len() as int);
    }
    v.len()
}

/// Finds the next `-->` at or after `i`.
fn scan_cmt_end_exec(v: &Vec<char>, i: usize) -> (r: usize)
    requires
        i <= v@.len(),
    ensures
        r == scan_cmt_end(v@, i as int),
        i <= r <= v@.len(),
        r < v@.len() ==> is_cmt_end(v@, r as int),
{
    let mut k = i;
    while k < v.len()
        invariant
            i <= k <= v@.len(),
            forall|j: int| i <= j < k ==> !is_cmt_end(v@, j),
        decreases v.len() - k,
    {
        if v[k] == '-' && v.len() >= 3 && k < v.len() - 2 && v[k + 1] == '-' && v[k + 2] == '>' {
            proof {
                lemma_scan_cmt_end_at(v@, i as int, k as int);
            }
            return k;
        }
        assert(!is_cmt_end(v@, k as int));
        k += 1;
    }
    proof {
        lemma_scan_cmt_end_at(v@, i as int, v@.len() as int);
    }
    v.len()
}

/// Reads a tag's attribute list, mirroring [`parse_attrs`].
fn parse_attrs_exec(v: &Vec<char>, start: usize) -> (r: Result<(Vec<AttrE>, bool, usize), usize>)
    requires
        start <= v@.len(),
    ensures
        match r {
            Ok((attrs, self_close, next)) => parse_attrs(v@, start as int, Seq::empty())
                == (AttrsStep::Done {
                attrs: attrs_view(attrs@),
                self_close,
                next: next as int,
            }) && next <= v@.len(),
            Err(pos) => parse_attrs(v@, start as int, Seq::empty()) == (AttrsStep::Fail {
                pos: pos as int,
            }),
        },
{
    let mut acc: Vec<AttrE> = Vec::new();
    let mut i = start;
    proof {
        assert(attrs_view(acc@) =~= Seq::<AttrV>::empty());
    }
    loop
        invariant
            i <= v@.len(),
            parse_attrs(v@, start as int, Seq::empty()) == parse_attrs(
                v@,
                i as int,
                attrs_view(acc@),
            ),
        decreases v@.len() - i,
    {
        let ghost gacc = attrs_view(acc@);
        let j = skip_spaces_exec(v, i);
        if j >= v.len() {
            return Err(j);
        }
        let cj = v[j];
        if cj == '>' {
            return Ok((acc, false, j + 1));
        }
        if cj == '/' {
            if j + 1 < v.len() && v[j + 1] == '>' {
                return Ok((acc, true, j + 2));
            }
            return Err(j);
        }
        let e = scan_tok_end_exec(v, j);
        if e >= v.len() {
            return Err(j);
        }
        if v[e] == '=' {
            if e + 1 >= v.len() || (v[e + 1] != '"' && v[e + 1] != '\'') {
                return Err(e);
            }
            let q = v[e + 1];
            let w = scan_char_exec(v, e + 2, q);
            if w >= v.len() {
                return Err(e + 1);
            }
            let name = copy_range(v, j, e);
            let value = copy_range(v, e + 2, w);
            acc.push(AttrE { name, value });
            proof {
                assert(attrs_view(acc@) =~~= gacc.push(
                    AttrV { name: v@.subrange(j as int, e as int), value: v@.subrange(e + 2, w as int) },
                ));
            }
            i = w + 1;
        } else {
            i = e;
            proof {
                assert(e > j) by {
                    if e == j {
                        assert(is_tok_end(v@[j as int]));
                        assert(!is_space(v@[j as int]));
                    }
                }
            }
        }
    }
}


/// One parsed tag, executable form.
pub enum TagE {
    Open { name: Vec<char>, attrs: Vec<AttrE>, self_close: bool, next: usize },
    Close { name: Vec<char>, next: usize },
    SkipTo { next: usize },
    Fail { pos: usize },
}

/// Reads one tag starting at the `<` at position `i`, mirroring
/// [`parse_tag`].
fn next_tag(v: &Vec<char>, i: usize) -> (r: TagE)
    requires
        i < v@.len(),
        v@[i as int] == '<',
    ensures
        match r {
            TagE::Open { name, attrs, self_close, next } => parse_tag(v@, i as int)
                == (TagStep::Open {
                name: name@,
                attrs: attrs_view(attrs@),
                self_close,
                next: next as int,
            }) && i < next <= v@.len(),
            TagE::Close { name, next } => parse_tag(v@, i as int) == (TagStep::Close {
                name: name@,
                next: next as int,
            }) && i < next <= v@.len(),
            TagE::SkipTo { next } => parse_tag(v@, i as int) == (TagStep::Skip {
                next: next as int,
            }) && i < next <= v@.len(),
            TagE::Fail { pos } => parse_tag(v@, i as int) == (TagStep::Fail { pos: pos as int }),
        },
{
    let n = v.len();
    if i >= n - 1 {
        assert(i + 1 >= v@.len());
        return TagE::Fail { pos: i };
    }
    let c1 = v[i + 1];
    if c1 == '?' {
        let k = scan_pi_end_exec(v, i + 2);
        if k >= v.len() {
            return TagE::Fail { pos: i };
        }
        return TagE::SkipTo { next: k + 2 };
    }
    if c1 == '!' {
        if n >= 4 && i <= n - 4 && v[i + 2] == '-' && v[i + 3] == '-' {
            let k = scan_cmt_end_exec(v, i + 4);
            if k >= v.len() {
                return TagE::Fail { pos: i };
            }
            return TagE::SkipTo { next: k + 3 };
        }
        let k = scan_char_exec(v, i + 2, '>');
        if k >= v.len() {
            return TagE::Fail { pos: i };
        }
        return TagE::SkipTo { next: k + 1 };
    }
    if c1 == '/' {
        let k = scan_char_exec(v, i + 2, '>');
        if k >= v.len() {
            return TagE::Fail { pos: i };
        }
        let name = copy_range(v, i + 2, k);
        return TagE::Close { name, next: k + 1 };
    }
    let e = scan_tok_end_exec(v, i + 1);
    if e >= v.len() {
        return TagE::Fail { pos: i };
    }
    let name = copy_range(v, i + 1, e);
    match parse_attrs_exec(v, e) {
        Ok((attrs, self_close, next)) => {
            proof {
                lemma_parse_attrs_bounds(v@, e as int, Seq::empty());
            }
            TagE::Open { name, attrs, self_close, next }
        },
        Err(pos) => TagE::Fail { pos },
    }
}

/// The last value of the named attribute, copied out.
fn attr_last_exec(attrs: &Vec<AttrE>, key: &str) -> (r: Option<Vec<char>>)
    ensures
        match r {
            Some(val) => attr_last(attrs_view(attrs@), key@) == Some(val@),
            None => attr_last(attrs_view(attrs@), key@) is None,
        },
{
    let ghost gattrs = attrs_view(attrs@);
    let mut idx = attrs.len();
    proof {
        assert(gattrs.subrange(0, attrs@.len() as int) =~= gattrs);
    }
    while idx > 0
        invariant
            idx <= attrs@.len(),
            gattrs == attrs_view(attrs@),
            gattrs.len() == attrs@.len(),
            attr_last(gattrs, key@) == attr_last(gattrs.subrange(0, idx as int), key@),
        decreases idx,
    {
        let ghost pref = gattrs.subrange(0, idx as int);
        proof {
            assert(pref.last() == gattrs[idx - 1]);
            assert(gattrs[idx - 1] == (AttrV {
                name: attrs@[idx - 1].name@,
                value: attrs@[idx - 1].value@,
            }));
            assert(pref.drop_last() =~= gattrs.subrange(0, idx - 1));
        }
        if chars_eq_str(&attrs[idx - 1].name, key) {
            let mut val: Vec<char> = Vec::new();
            crate::text::extend_chars(&mut val, &attrs[idx - 1].value);
            return Some(val);
        }
        idx = idx - 1;
    }
    assert(gattrs.subrange(0, 0) =~= Seq::<AttrV>::empty());
    None
}

/// The port state an optional label denotes.
fn state_from_label(label: &Option<Vec<char>>) -> (st: PortState)
    ensures
        st == state_of_label(
            match label {
                Some(v) => Some(v@),
                None => None,
            },
        ),
{
    match label {
        None => PortState::Unknown,
        Some(v) => {
            if chars_eq_str(v, "open") {
                PortState::Open
            } else if chars_eq_str(v, "closed") {
                PortState::Closed
            } else if chars_eq_str(v, "filtered") {
                PortState::Filtered
            } else {
                PortState::Unknown
            }
        },
    }
}

/// The context the executable parser is in.
pub open spec fn ctx_of(
    port: Option<u16>,
    state: Option<Vec<char>>,
    service: Option<Vec<char>>,
) -> Ctx {
    Ctx {
        port,
        state: match state {
            Some(v) => Some(v@),
            None => None,
        },
        service: match service {
            Some(v) => Some(v@),
            None => None,
        },
    }
}

/// Decodes one host's scan-result document into its port records, in
/// document order. Malformed or truncated markup fails with the parse
/// position; text outside tags and unrelated tags are ignored.
pub fn parse_nmap_ports(xml: &str) -> (r: Result<Vec<PortDetail>, DecodeError>)
    ensures
        match r {
            Ok(recs) => parse_doc(xml@) == Ok::<Seq<PortRec>, int>(ports_view(recs@)),
            Err(e) => parse_doc(xml@) == Err::<Seq<PortRec>, int>(e.pos as int),
        },
{
    let v = str_to_chars(xml);
    let mut out: Vec<PortDetail> = Vec::new();
    let mut cur_port: Option<u16> = None;
    let mut cur_state: Option<Vec<char>> = None;
    let mut cur_service: Option<Vec<char>> = None;
    let mut i: usize = 0;
    proof {
        assert(ports_view(out@) =~= Seq::<PortRec>::empty());
        assert(ctx_of(cur_port, cur_state, cur_service) == ctx_none());
    }
    loop
        invariant
            i <= v@.len(),
            v@ == xml@,
            parse_doc(xml@) == parse_loop(
                v@,
                i as int,
                ctx_of(cur_port, cur_state, cur_service),
                ports_view(out@),
            ),
        decreases v@.len() - i,
    {
        let ghost ctx = ctx_of(cur_port, cur_state, cur_service);
        let ghost acc = ports_view(out@);
        let j = scan_char_exec(&v, i, '<');
        if j >= v.len() {
            return Ok(out);
        }
        let tag = next_tag(&v, j);
        match tag {
            TagE::Fail { pos } => {
                return Err(DecodeError { pos });
            },
            TagE::SkipTo { next } => {
                proof {
                    assert(apply_tag(ctx, acc, parse_tag(v@, j as int)) == (ctx, acc));
                }
                i = next;
            },
            TagE::Open { name, attrs, self_close, next } => {
                let ghost gtag = parse_tag(v@, j as int);
                if chars_eq_str(&name, "port") && !self_close {
                    let pid = attr_last_exec(&attrs, "portid");
                    cur_port = match pid {
                        Some(val) => crate::text::parse_u16_chars(&val),
                        None => None,
                    };
                    cur_state = None;
                    cur_service = None;
                } else if chars_eq_str(&name, "state") {
                    let st = attr_last_exec(&attrs, "state");
                    match st {
                        Some(val) => {
                            cur_state = Some(val);
                        },
                        None => {},
                    }
                } else if chars_eq_str(&name, "service") {
                    let sv = attr_last_exec(&attrs, "name");
                    match sv {
                        Some(val) => {
                            cur_service = Some(val);
                        },
                        None => {},
                    }
                }
                proof {
                    assert(apply_tag(ctx, acc, gtag) == (
                        ctx_of(cur_port, cur_state, cur_service),
                        acc,
                    ));
                }
                i = next;
            },
            TagE::Close { name, next } => {
                let ghost gtag = parse_tag(v@, j as int);
                if chars_eq_str(&name, "port") {
                    match cur_port {
                        Some(p) => {
                            let st = state_from_label(&cur_state);
                            let service = match &cur_service {
                                Some(val) => Some(chars_to_string(val)),
                                None => None,
                            };
                            let detail = PortDetail { port: p, state: st, service };
                            let ghost rec = PortRec {
                                port: p,
                                state: state_of_label(ctx.state),
                                service: ctx.service,
                            };
                            assert(detail@ == rec);
                            out.push(detail);
                            proof {
                                assert(ports_view(out@) =~= acc.push(rec));
                            }
                        },
                        None => {},
                    }
                    cur_port = None;
                    cur_state = None;
                    cur_service = None;
                }
                proof {
                    assert(apply_tag(ctx, acc, gtag) == (
                        ctx_of(cur_port, cur_state, cur_service),
                        ports_view(out@),
                    ));
                }
                i = next;
            },
        }
    }
}

/// The canonical label of a port state.
pub open spec fn state_label(st: PortState) -> Seq<char> {
    match st {
        PortState::Open => "open"@,
        PortState::Closed => "closed"@,
        PortState::Filtered => "filtered"@,
        PortState::Unknown => "unknown"@,
    }
}

/// The quote character that can safely delimit a value: double unless the
/// value itself holds one.
pub open spec fn quote_for(v: Seq<char>) -> char {
    if v.contains('"') {
        '\''
    } else {
        '"'
    }
}

/// A record the synthetic encoder can reproduce exactly: its service
/// label, if any, does not use both quote characters at once. Every
/// record the decoder extracts satisfies this.
pub open spec fn rec_encodable(rec: PortRec) -> bool {
    match rec.service {
        None => true,
        Some(v) => !(v.contains('"') && v.contains('\'')),
    }
}

/// The opening tag of one record's element.
pub open spec fn port_open_chunk(port: u16) -> Seq<char> {
    "<port portid=\""@ + dec_str(port as int) + "\">"@
}

/// The state element of one record.
pub open spec fn state_chunk(st: PortState) -> Seq<char> {
    "<state state=\""@ + state_label(st) + "\"/>"@
}

/// The service element of one record, when it has a service label.
pub open spec fn service_chunk(v: Seq<char>) -> Seq<char> {
    "<service name="@ + seq![quote_for(v)] + v + seq![quote_for(v)] + "/>"@
}

/// The minimal synthetic element for one record.
pub open spec fn encode_rec_spec(rec: PortRec) -> Seq<char> {
    port_open_chunk(rec.port) + state_chunk(rec.state) + (match rec.service {
        None => Seq::<char>::empty(),
        Some(v) => service_chunk(v),
    }) + "</port>"@
}

/// The minimal synthetic document for a record sequence.
pub open spec fn encode_doc_spec(recs: Seq<PortRec>) -> Seq<char>
    decreases recs.len(),
{
    if recs.len() == 0 {
        Seq::empty()
    } else {
        encode_doc_spec(recs.drop_last()) + encode_rec_spec(recs.last())
    }
}

/// Encodes records into the minimal synthetic document that decodes back
/// to them.
#[verifier::rlimit(60)]
pub fn encode_ports(records: &Vec<PortDetail>) -> (r: String)
    ensures
        r@ == encode_doc_spec(ports_view(records@)),
{
    let ghost grecs = ports_view(records@);
    let mut doc: Vec<char> = Vec::new();
    let mut i: usize = 0;
    proof {
        assert(grecs.subrange(0, 0) =~= Seq::<PortRec>::empty());
        assert(doc@ =~= encode_doc_spec(grecs.subrange(0, 0)));
    }
    while i < records.len()
        invariant
            i <= records@.len(),
            grecs == ports_view(records@),
            grecs.len() == records@.len(),
            doc@ == encode_doc_spec(grecs.subrange(0, i as int)),
        decreases records.len() - i,
    {
        let ghost pref = grecs.subrange(0, i as int);
        let ghost prev = doc@;
        let rec = &records[i];
        assert(rec@ == grecs[i as int]);
        crate::text::extend_str(&mut doc, "<port portid=\"");
        let digits = crate::text::u64_to_chars(rec.port as u64);
        crate::text::extend_chars(&mut doc, &digits);
        crate::text::extend_str(&mut doc, "\">");
        crate::text::extend_str(&mut doc, "<state state=\"");
        match rec.state {
            PortState::Open => crate::text::extend_str(&mut doc, "open"),
            PortState::Closed => crate::text::extend_str(&mut doc, "closed"),
            PortState::Filtered => crate::text::extend_str(&mut doc, "filtered"),
            PortState::Unknown => crate::text::extend_str(&mut doc, "unknown"),
        }
        crate::text::extend_str(&mut doc, "\"/>");
        match &rec.service {
            None => {},
            Some(sv) => {
                let svc = str_to_chars(sv.as_str());
                let has_dq = crate::text::contains_char(&svc, '"');
                let q: char = if has_dq {
                    '\''
                } else {
                    '"'
                };
                assert(q == quote_for(sv@));
                crate::text::extend_str(&mut doc, "<service name=");
                doc.push(q);
                crate::text::extend_chars(&mut doc, &svc);
                doc.push(q);
                crate::text::extend_str(&mut doc, "/>");
            },
        }
        crate::text::extend_str(&mut doc, "</port>");
        proof {
            assert(doc@ =~= prev + encode_rec_spec(grecs[i as int]));
            assert(grecs.subrange(0, i + 1) =~= pref.push(grecs[i as int]));
            assert(pref.push(grecs[i as int]).drop_last() =~= pref);
            assert(encode_doc_spec(pref.push(grecs[i as int])) == encode_doc_spec(pref)
                + encode_rec_spec(grecs[i as int]));
        }
        i += 1;
    }
    assert(grecs.subrange(0, grecs.len() as int) =~= grecs);
    chars_to_string(&doc)
}


/// An attribute whose value can be re-quoted.
pub open spec fn attr_safe(a: AttrV) -> bool {
    !(a.value.contains('"') && a.value.contains('\''))
}

/// A context whose pending service label can be re-quoted.
pub open spec fn ctx_safe(ctx: Ctx) -> bool {
    match ctx.service {
        None => true,
        Some(v) => !(v.contains('"') && v.contains('\'')),
    }
}

proof fn lemma_parse_attrs_safe(s: Seq<char>, i: int, acc: Seq<AttrV>)
    requires
        0 <= i <= s.len(),
        forall|j: int| 0 <= j < acc.len() ==> attr_safe(#[trigger] acc[j]),
    ensures
        match parse_attrs(s, i, acc) {
            AttrsStep::Done { attrs, .. } => forall|j: int|
                0 <= j < attrs.len() ==> attr_safe(#[trigger] attrs[j]),
            AttrsStep::Fail { .. } => true,
        },
    decreases s.len() - i,
{
    lemma_skip_spaces_bounds(s, i);
    let j = skip_spaces(s, i);
    if j < s.len() && s[j] != '>' && s[j] != '/' {
        lemma_scan_tok_end_bounds(s, j);
        let e = scan_tok_end(s, j);
        if e < s.len() {
            if s[e] == '=' {
                if e + 1 < s.len() && (s[e + 1] == '"' || s[e + 1] == '\'') {
                    let q = s[e + 1];
                    lemma_scan_char_bounds(s, e + 2, q);
                    let w = scan_char(s, e + 2, q);
                    if w < s.len() {
                        let a = AttrV { name: s.subrange(j, e), value: s.subrange(e + 2, w) };
                        assert(attr_safe(a)) by {
                            if a.value.contains(q) {
                                let m = choose|m: int|
                                    0 <= m < a.value.len() && #[trigger] a.value[m] == q;
                                assert(s[e + 2 + m] == q);
                            }
                        }
                        let acc2 = acc.push(a);
                        assert(forall|k: int|
                            0 <= k < acc2.len() ==> attr_safe(#[trigger] acc2[k]));
                        lemma_parse_attrs_safe(s, w + 1, acc2);
                    }
                }
            } else {
                assert(e > j) by {
                    if e == j {
                        assert(is_tok_end(s[j]));
                        assert(!is_space(s[j]));
                    }
                }
                lemma_parse_attrs_safe(s, e, acc);
            }
        }
    }
}

proof fn lemma_attr_last_safe(attrs: Seq<AttrV>, key: Seq<char>)
    requires
        forall|j: int| 0 <= j < attrs.len() ==> attr_safe(#[trigger] attrs[j]),
    ensures
        match attr_last(attrs, key) {
            Some(v) => !(v.contains('"') && v.contains('\'')),
            None => true,
        },
    decreases attrs.len(),
{
    if attrs.len() > 0 && attrs.last().name != key {
        assert(forall|j: int|
            0 <= j < attrs.len() - 1 ==> attrs.drop_last()[j] == #[trigger] attrs[j]);
        lemma_attr_last_safe(attrs.drop_last(), key);
    }
}

/// Every record the parser extracts can be re-encoded: its service label,
/// coming from a quoted attribute value, never holds both quotes.
pub proof fn lemma_parse_loop_encodable(s: Seq<char>, i: int, ctx: Ctx, acc: Seq<PortRec>)
    requires
        ctx_safe(ctx),
        forall|j: int| 0 <= j < acc.len() ==> rec_encodable(#[trigger] acc[j]),
    ensures
        match parse_loop(s, i, ctx, acc) {
            Ok(res) => forall|j: int| 0 <= j < res.len() ==> rec_encodable(#[trigger] res[j]),
            Err(_) => true,
        },
    decreases s.len() - i,
{
    if 0 <= i <= s.len() {
        lemma_scan_char_bounds(s, i, '<');
        let j = scan_char(s, i, '<');
        if j < s.len() {
            lemma_parse_tag_bounds(s, j);
            match parse_tag(s, j) {
                TagStep::Fail { .. } => {},
                tag => {
                    let next = match tag {
                        TagStep::Open { next, .. } => next,
                        TagStep::Close { next, .. } => next,
                        TagStep::Skip { next } => next,
                        TagStep::Fail { pos } => pos,
                    };
                    let k = if next < j + 1 {
                        j + 1
                    } else if next > s.len() {
                        s.len() as int
                    } else {
                        next
                    };
                    let step = apply_tag(ctx, acc, tag);
                    assert(ctx_safe(step.0) && forall|q: int|
                        0 <= q < step.1.len() ==> rec_encodable(#[trigger] step.1[q])) by {
                        match tag {
                            TagStep::Open { name, attrs, self_close, .. } => {
                                if name == "service"@ {
                                    if !(name == "port"@ && !self_close) {
                                        assert(forall|q: int|
                                            0 <= q < attrs.len() ==> attr_safe(
                                                #[trigger] attrs[q],
                                            )) by {
                                            lemma_tag_attrs_safe(s, j);
                                        }
                                        lemma_attr_last_safe(attrs, "name"@);
                                    }
                                }
                            },
                            TagStep::Close { name, .. } => {
                                if name == "port"@ {
                                    match ctx.port {
                                        Some(p) => {
                                            let rec = PortRec {
                                                port: p,
                                                state: state_of_label(ctx.state),
                                                service: ctx.service,
                                            };
                                            assert(rec_encodable(rec));
                                            assert(step.1 == acc.push(rec));
                                        },
                                        None => {},
                                    }
                                }
                            },
                            _ => {},
                        }
                    }
                    lemma_parse_loop_encodable(s, k, step.0, step.1);
                },
            }
        }
    }
}

proof fn lemma_tag_attrs_safe(s: Seq<char>, j: int)
    requires
        0 <= j < s.len(),
        s[j] == '<',
    ensures
        match parse_tag(s, j) {
            TagStep::Open { attrs, .. } => forall|q: int|
                0 <= q < attrs.len() ==> attr_safe(#[trigger] attrs[q]),
            _ => true,
        },
{
    if j + 1 < s.len() && s[j + 1] != '?' && s[j + 1] != '!' && s[j + 1] != '/' {
        lemma_scan_tok_end_bounds(s, j + 1);
        let e = scan_tok_end(s, j + 1);
        if e < s.len() {
            lemma_parse_attrs_safe(s, e, Seq::empty());
        }
    }
}

/// One well-formed tag advances the fold by exactly its application.
pub proof fn lemma_loop_tag(s: Seq<char>, i: int, ctx: Ctx, acc: Seq<PortRec>)
    requires
        0 <= i < s.len(),
        s[i] == '<',
        !(parse_tag(s, i) is Fail),
    ensures
        ({
            let tag = parse_tag(s, i);
            let next = match tag {
                TagStep::Open { next, .. } => next,
                TagStep::Close { next, .. } => next,
                TagStep::Skip { next } => next,
                TagStep::Fail { pos } => pos,
            };
            let step = apply_tag(ctx, acc, tag);
            parse_loop(s, i, ctx, acc) == parse_loop(s, next, step.0, step.1)
        }),
{
    lemma_scan_char_at(s, i, '<', i);
    lemma_parse_tag_bounds(s, i);
}


/// The decimal digits of a port number, as characters.
proof fn lemma_dec_str_digits(n: u16)
    ensures
        crate::text::all_digits(dec_str(n as int)),
        dec_str(n as int).len() >= 1,
{
    if n == 0 {
        assert(dec_str(0) == seq!['0']);
        assert(crate::text::is_digit('0'));
        assert(forall|m: int|
            0 <= m < seq!['0'].len() ==> crate::text::is_digit(#[trigger] seq!['0'][m]));
    } else {
        crate::text::lemma_dec_rec_digits(n as int);
    }
}

/// A digit is never a quote, an angle bracket or a tag delimiter.
proof fn lemma_digit_plain(c: char)
    requires
        crate::text::is_digit(c),
    ensures
        c != '"',
        c != '\'',
        c != '<',
        c != '>',
        !is_tok_end(c),
{
    assert(c as u32 >= '0' as u32 && c as u32 <= '9' as u32);
}

/// Reading the element that opens one record's port context.
proof fn lemma_tag_port_open(s: Seq<char>, p: int, port: u16)
    requires
        0 <= p,
        p + port_open_chunk(port).len() <= s.len(),
        forall|m: int|
            0 <= m < port_open_chunk(port).len() ==> #[trigger] s[p + m] == port_open_chunk(
                port,
            )[m],
    ensures
        parse_tag(s, p) == (TagStep::Open {
            name: "port"@,
            attrs: seq![AttrV { name: "portid"@, value: dec_str(port as int) }],
            self_close: false,
            next: p + port_open_chunk(port).len(),
        }),
{
    reveal_strlit("<port portid=\"");
    reveal_strlit("\">");
    reveal_strlit("port");
    reveal_strlit("portid");
    let ch = port_open_chunk(port);
    let d = dec_str(port as int);
    let dl = d.len() as int;
    lemma_dec_str_digits(port);
    let lit = "<port portid=\""@;
    let tail = "\">"@;
    assert(lit.len() == 14);
    assert(tail.len() == 2);
    assert(ch.len() == 16 + dl);
    assert(forall|m: int| 0 <= m < 14 ==> ch[m] == lit[m]);
    assert(forall|m: int| 0 <= m < dl ==> ch[14 + m] == d[m]);
    assert(ch[14 + dl] == tail[0] && ch[15 + dl] == tail[1]);
    assert(s[p] == '<') by {
        assert(s[p + 0] == port_open_chunk(port)[0]);
    }
    assert(s[p + 1] == 'p');
    // the tag name runs to the space
    assert(s[p + 2] == 'o' && s[p + 3] == 'r' && s[p + 4] == 't' && s[p + 5] == ' ');
    assert(scan_tok_end(s, p + 1) == p + 5) by {
        lemma_scan_tok_end_at(s, p + 1, p + 5);
    }
    assert(s.subrange(p + 1, p + 5) =~= "port"@);
    // attributes: skip the space, read `portid`
    assert(s[p + 6] == 'p' && s[p + 7] == 'o' && s[p + 8] == 'r' && s[p + 9] == 't' && s[p + 10]
        == 'i' && s[p + 11] == 'd' && s[p + 12] == '=' && s[p + 13] == '"');
    assert(skip_spaces(s, p + 5) == p + 6) by {
        lemma_skip_spaces_at(s, p + 5, p + 6);
    }
    assert(scan_tok_end(s, p + 6) == p + 12) by {
        lemma_scan_tok_end_at(s, p + 6, p + 12);
    }
    assert(s.subrange(p + 6, p + 12) =~= "portid"@);
    // the quoted digits
    assert forall|m: int| p + 14 <= m < p + 14 + dl implies s[m] == d[m - p - 14] by {
        assert(s[p + (m - p)] == port_open_chunk(port)[m - p]);
    }
    assert forall|m: int| p + 14 <= m < p + 14 + dl implies s[m] != '"' by {
        assert(crate::text::is_digit(d[m - p - 14]));
        lemma_digit_plain(d[m - p - 14]);
    }
    assert(s[p + 14 + dl] == '"') by {
        assert(s[p + (14 + dl)] == port_open_chunk(port)[14 + dl]);
    }
    assert(scan_char(s, p + 14, '"') == p + 14 + dl) by {
        lemma_scan_char_at(s, p + 14, '"', p + 14 + dl);
    }
    assert(s.subrange(p + 14, p + 14 + dl) =~= d);
    let attr = AttrV { name: s.subrange(p + 6, p + 12), value: s.subrange(p + 14, p + 14 + dl) };
    // after the closing quote comes `>`
    assert(s[p + 15 + dl] == '>') by {
        assert(s[p + (15 + dl)] == port_open_chunk(port)[15 + dl]);
    }
    assert(skip_spaces(s, p + 15 + dl) == p + 15 + dl) by {
        lemma_skip_spaces_at(s, p + 15 + dl, p + 15 + dl);
    }
    assert(parse_attrs(s, p + 15 + dl, seq![attr]) == (AttrsStep::Done {
        attrs: seq![attr],
        self_close: false,
        next: p + 16 + dl,
    }));
    assert(skip_spaces(s, p + 5) == p + 6);
    assert(parse_attrs(s, p + 5, Seq::<AttrV>::empty()) == parse_attrs(
        s,
        p + 15 + dl,
        Seq::<AttrV>::empty().push(attr),
    ));
    assert(Seq::<AttrV>::empty().push(attr) =~= seq![attr]);
    assert(parse_attrs(s, p + 5, Seq::<AttrV>::empty()) == (AttrsStep::Done {
        attrs: seq![attr],
        self_close: false,
        next: p + 16 + dl,
    }));
    assert(seq![attr] =~= seq![AttrV { name: "portid"@, value: d }]);
    assert(parse_tag(s, p) == (TagStep::Open {
        name: s.subrange(p + 1, p + 5),
        attrs: seq![attr],
        self_close: false,
        next: p + 16 + dl,
    }));
}


/// No state label holds a quote, and the labels are mutually distinct.
proof fn lemma_label_plain(st: PortState)
    ensures
        forall|m: int| 0 <= m < state_label(st).len() ==> #[trigger] state_label(st)[m] != '"',
        state_of_label(Some(state_label(st))) == st,
        4 <= state_label(st).len() <= 8,
{
    reveal_strlit("open");
    reveal_strlit("closed");
    reveal_strlit("filtered");
    reveal_strlit("unknown");
    let lbl = state_label(st);
    match st {
        PortState::Open => {
            assert(lbl[0] == 'o' && lbl[1] == 'p' && lbl[2] == 'e' && lbl[3] == 'n');
            assert(lbl.len() == 4);
        },
        PortState::Closed => {
            assert(lbl[0] == 'c' && lbl[1] == 'l' && lbl[2] == 'o' && lbl[3] == 's' && lbl[4]
                == 'e' && lbl[5] == 'd');
            assert(lbl.len() == 6);
            assert(lbl != "open"@);
        },
        PortState::Filtered => {
            assert(lbl[0] == 'f' && lbl[1] == 'i' && lbl[2] == 'l' && lbl[3] == 't' && lbl[4]
                == 'e' && lbl[5] == 'r' && lbl[6] == 'e' && lbl[7] == 'd');
            assert(lbl.len() == 8);
            assert(lbl != "open"@ && lbl != "closed"@);
        },
        PortState::Unknown => {
            assert(lbl[0] == 'u' && lbl[1] == 'n' && lbl[2] == 'k' && lbl[3] == 'n' && lbl[4]
                == 'o' && lbl[5] == 'w' && lbl[6] == 'n');
            assert(lbl.len() == 7);
            assert(lbl != "open"@ && lbl != "closed"@ && lbl != "filtered"@);
        },
    }
}

/// Reading the state element of one record.
proof fn lemma_tag_state(s: Seq<char>, p: int, st: PortState)
    requires
        0 <= p,
        p + state_chunk(st).len() <= s.len(),
        forall|m: int|
            0 <= m < state_chunk(st).len() ==> #[trigger] s[p + m] == state_chunk(st)[m],
    ensures
        parse_tag(s, p) == (TagStep::Open {
            name: "state"@,
            attrs: seq![AttrV { name: "state"@, value: state_label(st) }],
            self_close: true,
            next: p + state_chunk(st).len(),
        }),
{
    reveal_strlit("<state state=\"");
    reveal_strlit("\"/>");
    reveal_strlit("state");
    lemma_label_plain(st);
    let ch = state_chunk(st);
    let lbl = state_label(st);
    let ll = lbl.len() as int;
    let lit = "<state state=\""@;
    let tail = "\"/>"@;
    assert(lit.len() == 14);
    assert(tail.len() == 3);
    assert(ch.len() == 17 + ll);
    assert(forall|m: int| 0 <= m < 14 ==> ch[m] == lit[m]);
    assert(forall|m: int| 0 <= m < ll ==> ch[14 + m] == lbl[m]);
    assert(ch[14 + ll] == tail[0] && ch[15 + ll] == tail[1] && ch[16 + ll] == tail[2]);
    assert(s[p] == '<') by {
        assert(s[p + 0] == state_chunk(st)[0]);
    }
    assert(s[p + 1] == 's' && s[p + 2] == 't' && s[p + 3] == 'a' && s[p + 4] == 't' && s[p + 5]
        == 'e' && s[p + 6] == ' ');
    assert(scan_tok_end(s, p + 1) == p + 6) by {
        lemma_scan_tok_end_at(s, p + 1, p + 6);
    }
    assert(s.subrange(p + 1, p + 6) =~= "state"@);
    assert(s[p + 7] == 's' && s[p + 8] == 't' && s[p + 9] == 'a' && s[p + 10] == 't' && s[p + 11]
        == 'e' && s[p + 12] == '=' && s[p + 13] == '"');
    assert(skip_spaces(s, p + 6) == p + 7) by {
        lemma_skip_spaces_at(s, p + 6, p + 7);
    }
    assert(scan_tok_end(s, p + 7) == p + 12) by {
        lemma_scan_tok_end_at(s, p + 7, p + 12);
    }
    assert(s.subrange(p + 7, p + 12) =~= "state"@);
    assert forall|m: int| p + 14 <= m < p + 14 + ll implies s[m] == lbl[m - p - 14] by {
        assert(s[p + (m - p)] == state_chunk(st)[m - p]);
    }
    assert forall|m: int| p + 14 <= m < p + 14 + ll implies s[m] != '"' by {
        assert(lbl[m - p - 14] != '"');
    }
    assert(s[p + 14 + ll] == '"') by {
        assert(s[p + (14 + ll)] == state_chunk(st)[14 + ll]);
    }
    assert(scan_char(s, p + 14, '"') == p + 14 + ll) by {
        lemma_scan_char_at(s, p + 14, '"', p + 14 + ll);
    }
    assert(s.subrange(p + 14, p + 14 + ll) =~= lbl);
    let attr = AttrV { name: s.subrange(p + 7, p + 12), value: s.subrange(p + 14, p + 14 + ll) };
    assert(s[p + 15 + ll] == '/') by {
        assert(s[p + (15 + ll)] == state_chunk(st)[15 + ll]);
    }
    assert(s[p + 16 + ll] == '>') by {
        assert(s[p + (16 + ll)] == state_chunk(st)[16 + ll]);
    }
    assert(skip_spaces(s, p + 15 + ll) == p + 15 + ll) by {
        lemma_skip_spaces_at(s, p + 15 + ll, p + 15 + ll);
    }
    assert(parse_attrs(s, p + 15 + ll, seq![attr]) == (AttrsStep::Done {
        attrs: seq![attr],
        self_close: true,
        next: p + 17 + ll,
    }));
    assert(parse_attrs(s, p + 7, Seq::<AttrV>::empty()) == parse_attrs(
        s,
        p + 15 + ll,
        Seq::<AttrV>::empty().push(attr),
    ));
    assert(Seq::<AttrV>::empty().push(attr) =~= seq![attr]);
    assert(seq![attr] =~= seq![AttrV { name: "state"@, value: lbl }]);
    assert(parse_tag(s, p) == (TagStep::Open {
        name: s.subrange(p + 1, p + 6),
        attrs: seq![attr],
        self_close: true,
        next: p + 17 + ll,
    }));
}

/// Reading the service element of one record.
proof fn lemma_tag_service(s: Seq<char>, p: int, v: Seq<char>)
    requires
        0 <= p,
        p + service_chunk(v).len() <= s.len(),
        forall|m: int|
            0 <= m < service_chunk(v).len() ==> #[trigger] s[p + m] == service_chunk(v)[m],
        !(v.contains('"') && v.contains('\'')),
    ensures
        parse_tag(s, p) == (TagStep::Open {
            name: "service"@,
            attrs: seq![AttrV { name: "name"@, value: v }],
            self_close: true,
            next: p + service_chunk(v).len(),
        }),
{
    reveal_strlit("<service name=");
    reveal_strlit("/>");
    reveal_strlit("service");
    reveal_strlit("name");
    let ch = service_chunk(v);
    let q = quote_for(v);
    let vl = v.len() as int;
    let lit = "<service name="@;
    assert(lit.len() == 14);
    assert(ch.len() == 18 + vl);
    assert(forall|m: int| 0 <= m < 14 ==> ch[m] == lit[m]);
    assert(ch[14] == q);
    assert(forall|m: int| 0 <= m < vl ==> ch[15 + m] == v[m]);
    assert(ch[15 + vl] == q && ch[16 + vl] == ("/>"@)[0] && ch[17 + vl] == ("/>"@)[1]);
    assert(q == '"' || q == '\'');
    assert(!v.contains(q));
    assert(s[p] == '<') by {
        assert(s[p + 0] == service_chunk(v)[0]);
    }
    assert(s[p + 1] == 's' && s[p + 2] == 'e' && s[p + 3] == 'r' && s[p + 4] == 'v' && s[p + 5]
        == 'i' && s[p + 6] == 'c' && s[p + 7] == 'e' && s[p + 8] == ' ');
    assert(scan_tok_end(s, p + 1) == p + 8) by {
        lemma_scan_tok_end_at(s, p + 1, p + 8);
    }
    assert(s.subrange(p + 1, p + 8) =~= "service"@);
    assert(s[p + 9] == 'n' && s[p + 10] == 'a' && s[p + 11] == 'm' && s[p + 12] == 'e' && s[p
        + 13] == '=');
    assert(skip_spaces(s, p + 8) == p + 9) by {
        lemma_skip_spaces_at(s, p + 8, p + 9);
    }
    assert(scan_tok_end(s, p + 9) == p + 13) by {
        lemma_scan_tok_end_at(s, p + 9, p + 13);
    }
    assert(s.subrange(p + 9, p + 13) =~= "name"@);
    assert(s[p + 14] == q);
    assert forall|m: int| p + 15 <= m < p + 15 + vl implies s[m] == v[m - p - 15] by {
        assert(s[p + (m - p)] == service_chunk(v)[m - p]);
    }
    assert forall|m: int| p + 15 <= m < p + 15 + vl implies s[m] != q by {
        if s[m] == q {
            assert(v[m - p - 15] == q);
            assert(v.contains(q));
        }
    }
    assert(s[p + 15 + vl] == q) by {
        assert(s[p + (15 + vl)] == service_chunk(v)[15 + vl]);
    }
    assert(scan_char(s, p + 15, q) == p + 15 + vl) by {
        lemma_scan_char_at(s, p + 15, q, p + 15 + vl);
    }
    assert(s.subrange(p + 15, p + 15 + vl) =~= v);
    let attr = AttrV { name: s.subrange(p + 9, p + 13), value: s.subrange(p + 15, p + 15 + vl) };
    assert(s[p + 16 + vl] == '/') by {
        assert(s[p + (16 + vl)] == service_chunk(v)[16 + vl]);
    }
    assert(s[p + 17 + vl] == '>') by {
        assert(s[p + (17 + vl)] == service_chunk(v)[17 + vl]);
    }
    assert(skip_spaces(s, p + 16 + vl) == p + 16 + vl) by {
        lemma_skip_spaces_at(s, p + 16 + vl, p + 16 + vl);
    }
    assert(parse_attrs(s, p + 16 + vl, seq![attr]) == (AttrsStep::Done {
        attrs: seq![attr],
        self_close: true,
        next: p + 18 + vl,
    }));
    assert(parse_attrs(s, p + 9, Seq::<AttrV>::empty()) == parse_attrs(
        s,
        p + 16 + vl,
        Seq::<AttrV>::empty().push(attr),
    ));
    assert(Seq::<AttrV>::empty().push(attr) =~= seq![attr]);
    assert(seq![attr] =~= seq![AttrV { name: "name"@, value: v }]);
    assert(parse_tag(s, p) == (TagStep::Open {
        name: s.subrange(p + 1, p + 8),
        attrs: seq![attr],
        self_close: true,
        next: p + 18 + vl,
    }));
}

/// Reading the closing tag of one record's element.
proof fn lemma_tag_close(s: Seq<char>, p: int)
    requires
        0 <= p,
        p + 7 <= s.len(),
        forall|m: int| 0 <= m < 7 ==> #[trigger] s[p + m] == ("</port>"@)[m],
    ensures
        parse_tag(s, p) == (TagStep::Close { name: "port"@, next: p + 7 }),
{
    reveal_strlit("</port>");
    reveal_strlit("port");
    assert(("</port>"@).len() == 7);
    assert(s[p] == '<') by {
        assert(s[p + 0] == ("</port>"@)[0]);
    }
    assert(s[p + 1] == '/' && s[p + 2] == 'p' && s[p + 3] == 'o' && s[p + 4] == 'r' && s[p + 5]
        == 't' && s[p + 6] == '>');
    assert(scan_char(s, p + 2, '>') == p + 6) by {
        lemma_scan_char_at(s, p + 2, '>', p + 6);
    }
    assert(s.subrange(p + 2, p + 6) =~= "port"@);
}


/// One encoded record advances the fold by exactly that record.
proof fn lemma_record_step(s: Seq<char>, p: int, rec: PortRec, acc: Seq<PortRec>)
    requires
        0 <= p,
        p + encode_rec_spec(rec).len() <= s.len(),
        forall|m: int|
            0 <= m < encode_rec_spec(rec).len() ==> #[trigger] s[p + m] == encode_rec_spec(
                rec,
            )[m],
        rec_encodable(rec),
    ensures
        parse_loop(s, p, ctx_none(), acc) == parse_loop(
            s,
            p + encode_rec_spec(rec).len(),
            ctx_none(),
            acc.push(rec),
        ),
{
    reveal_strlit("<port portid=\"");
    reveal_strlit("<state state=\"");
    reveal_strlit("<service name=");
    reveal_strlit("</port>");
    reveal_strlit("port");
    reveal_strlit("state");
    reveal_strlit("service");
    reveal_strlit("portid");
    reveal_strlit("name");
    let e = encode_rec_spec(rec);
    let c1 = port_open_chunk(rec.port);
    let c2 = state_chunk(rec.state);
    let c3 = match rec.service {
        None => Seq::<char>::empty(),
        Some(v) => service_chunk(v),
    };
    let c4 = "</port>"@;
    let l1 = c1.len() as int;
    let l2 = c2.len() as int;
    let l3 = c3.len() as int;
    assert(c4.len() == 7);
    assert(e == c1 + c2 + c3 + c4);
    assert(e.len() == l1 + l2 + l3 + 7);
    let p1 = p + l1;
    let p2 = p1 + l2;
    let p3 = p2 + l3;
    assert(forall|m: int| 0 <= m < l1 ==> #[trigger] e[m] == c1[m]);
    assert(forall|m: int| 0 <= m < l2 ==> #[trigger] e[l1 + m] == c2[m]);
    assert(forall|m: int| 0 <= m < l3 ==> #[trigger] e[l1 + l2 + m] == c3[m]);
    assert(forall|m: int| 0 <= m < 7 ==> #[trigger] e[l1 + l2 + l3 + m] == c4[m]);

    assert forall|m: int| 0 <= m < l1 implies #[trigger] s[p + m] == c1[m] by {
        assert(s[p + m] == e[m]);
    }
    assert forall|m: int| 0 <= m < l2 implies #[trigger] s[p1 + m] == c2[m] by {
        assert(s[p + (l1 + m)] == e[l1 + m]);
    }
    assert forall|m: int| 0 <= m < l3 implies #[trigger] s[p2 + m] == c3[m] by {
        assert(s[p + (l1 + l2 + m)] == e[l1 + l2 + m]);
    }
    assert forall|m: int| 0 <= m < 7 implies #[trigger] s[p3 + m] == c4[m] by {
        assert(s[p + (l1 + l2 + l3 + m)] == e[l1 + l2 + l3 + m]);
    }

    // the opening port element
    lemma_tag_port_open(s, p, rec.port);
    let tag1 = parse_tag(s, p);
    assert(s[p] == '<') by {
        assert(s[p + 0] == c1[0]);
    }
    lemma_loop_tag(s, p, ctx_none(), acc);
    let step1 = apply_tag(ctx_none(), acc, tag1);
    crate::text::lemma_dec_str_roundtrip(rec.port);
    assert(attr_last(seq![AttrV { name: "portid"@, value: dec_str(rec.port as int) }], "portid"@)
        == Some(dec_str(rec.port as int)));
    assert(step1.0 == (Ctx { port: Some(rec.port), state: None, service: None }));
    assert(step1.1 == acc);
    assert(parse_loop(s, p, ctx_none(), acc) == parse_loop(s, p1, step1.0, acc));

    // the state element
    lemma_tag_state(s, p1, rec.state);
    lemma_label_plain(rec.state);
    let tag2 = parse_tag(s, p1);
    assert(s[p1] == '<') by {
        assert(s[p1 + 0] == c2[0]);
    }
    lemma_loop_tag(s, p1, step1.0, acc);
    let step2 = apply_tag(step1.0, acc, tag2);
    assert("state"@ != "port"@) by {
        assert(("state"@).len() == 5 && ("port"@).len() == 4);
    }
    assert(attr_last(seq![AttrV { name: "state"@, value: state_label(rec.state) }], "state"@)
        == Some(state_label(rec.state)));
    let ctx2 = Ctx { port: Some(rec.port), state: Some(state_label(rec.state)), service: None };
    assert(step2.0 == ctx2);
    assert(step2.1 == acc);
    assert(parse_loop(s, p1, step1.0, acc) == parse_loop(s, p2, ctx2, acc));

    // the service element, when the record has one
    let ctx3 = match rec.service {
        None => ctx2,
        Some(v) => Ctx {
            port: Some(rec.port),
            state: Some(state_label(rec.state)),
            service: Some(v),
        },
    };
    match rec.service {
        None => {
            assert(p3 == p2 && ctx3 == ctx2);
        },
        Some(v) => {
            lemma_tag_service(s, p2, v);
            let tag3 = parse_tag(s, p2);
            assert(s[p2] == '<') by {
                assert(s[p2 + 0] == c3[0]);
            }
            lemma_loop_tag(s, p2, ctx2, acc);
            let step3 = apply_tag(ctx2, acc, tag3);
            assert("service"@ != "port"@) by {
                assert(("service"@).len() == 7 && ("port"@).len() == 4);
            }
            assert("service"@ != "state"@) by {
                assert(("service"@).len() == 7 && ("state"@).len() == 5);
            }
            assert(attr_last(seq![AttrV { name: "name"@, value: v }], "name"@) == Some(v));
            assert(step3.0 == ctx3);
            assert(step3.1 == acc);
            assert(parse_loop(s, p2, ctx2, acc) == parse_loop(s, p3, ctx3, acc));
        },
    }

    // the closing tag pushes the record
    lemma_tag_close(s, p3);
    let tag4 = parse_tag(s, p3);
    assert(s[p3] == '<') by {
        assert(s[p3 + 0] == c4[0]);
    }
    lemma_loop_tag(s, p3, ctx3, acc);
    let step4 = apply_tag(ctx3, acc, tag4);
    let pushed = PortRec {
        port: rec.port,
        state: state_of_label(Some(state_label(rec.state))),
        service: ctx3.service,
    };
    assert(pushed == rec);
    assert(step4.0 == ctx_none());
    assert(step4.1 == acc.push(rec));
    assert(parse_loop(s, p3, ctx3, acc) == parse_loop(s, p3 + 7, ctx_none(), acc.push(rec)));
    assert(p3 + 7 == p + e.len());
}

/// The document from record `k` on.
pub open spec fn encode_from(recs: Seq<PortRec>, k: int) -> Seq<char>
    decreases recs.len() - k,
{
    if !(0 <= k < recs.len()) {
        Seq::empty()
    } else {
        encode_rec_spec(recs[k]) + encode_from(recs, k + 1)
    }
}

proof fn lemma_encode_doc_split(recs: Seq<PortRec>, k: int)
    requires
        0 <= k <= recs.len(),
    ensures
        encode_doc_spec(recs) == encode_doc_spec(recs.subrange(0, k)) + encode_from(recs, k),
    decreases recs.len() - k,
{
    if k == recs.len() {
        assert(recs.subrange(0, k) =~= recs);
        assert(encode_doc_spec(recs) + Seq::<char>::empty() =~= encode_doc_spec(recs));
    } else {
        lemma_encode_doc_split(recs, k + 1);
        assert(recs.subrange(0, k + 1).drop_last() =~= recs.subrange(0, k));
        assert(recs.subrange(0, k + 1).last() == recs[k]);
        assert(encode_doc_spec(recs.subrange(0, k + 1)) == encode_doc_spec(recs.subrange(0, k))
            + encode_rec_spec(recs[k]));
        assert((encode_doc_spec(recs.subrange(0, k)) + encode_rec_spec(recs[k])) + encode_from(
            recs,
            k + 1,
        ) =~= encode_doc_spec(recs.subrange(0, k)) + (encode_rec_spec(recs[k]) + encode_from(
            recs,
            k + 1,
        )));
    }
}

proof fn lemma_parse_encode_from(doc: Seq<char>, recs: Seq<PortRec>, k: int, acc: Seq<PortRec>)
    requires
        0 <= k <= recs.len(),
        forall|j: int| 0 <= j < recs.len() ==> rec_encodable(#[trigger] recs[j]),
        doc == encode_doc_spec(recs),
    ensures
        parse_loop(
            doc,
            encode_doc_spec(recs.subrange(0, k)).len() as int,
            ctx_none(),
            acc,
        ) == Ok::<Seq<PortRec>, int>(acc + recs.subrange(k, recs.len() as int)),
    decreases recs.len() - k,
{
    lemma_encode_doc_split(recs, k);
    let pos = encode_doc_spec(recs.subrange(0, k)).len() as int;
    if k == recs.len() {
        assert(encode_from(recs, k) =~= Seq::<char>::empty());
        assert(pos == doc.len());
        assert(scan_char(doc, pos, '<') == doc.len()) by {
            lemma_scan_char_at(doc, pos, '<', doc.len() as int);
        }
        assert(parse_loop(doc, pos, ctx_none(), acc) == Ok::<Seq<PortRec>, int>(acc));
        assert(recs.subrange(k, recs.len() as int) =~= Seq::<PortRec>::empty());
        assert(acc + Seq::<PortRec>::empty() =~= acc);
    } else {
        let chunk = encode_rec_spec(recs[k]);
        assert(encode_from(recs, k) == chunk + encode_from(recs, k + 1));
        assert(doc.len() == pos + chunk.len() + encode_from(recs, k + 1).len());
        assert forall|m: int| 0 <= m < chunk.len() implies #[trigger] doc[pos + m] == chunk[m] by {
            assert(doc[pos + m] == (encode_doc_spec(recs.subrange(0, k)) + encode_from(
                recs,
                k,
            ))[pos + m]);
            assert((chunk + encode_from(recs, k + 1))[m] == chunk[m]);
        }
        assert(rec_encodable(recs[k]));
        lemma_record_step(doc, pos, recs[k], acc);
        assert(encode_doc_spec(recs.subrange(0, k + 1)) == encode_doc_spec(recs.subrange(0, k))
            + chunk) by {
            assert(recs.subrange(0, k + 1).drop_last() =~= recs.subrange(0, k));
            assert(recs.subrange(0, k + 1).last() == recs[k]);
        }
        assert(encode_doc_spec(recs.subrange(0, k + 1)).len() as int == pos + chunk.len());
        lemma_parse_encode_from(doc, recs, k + 1, acc.push(recs[k]));
        assert(acc.push(recs[k]) + recs.subrange(k + 1, recs.len() as int) =~= acc
            + recs.subrange(k, recs.len() as int));
    }
}

/// Round-trip stability of the codec: re-encoding any encodable record
/// sequence into the minimal synthetic document and decoding it again
/// yields the same sequence.
pub proof fn lemma_encode_round_trip(recs: Seq<PortRec>)
    requires
        forall|j: int| 0 <= j < recs.len() ==> rec_encodable(#[trigger] recs[j]),
    ensures
        parse_doc(encode_doc_spec(recs)) == Ok::<Seq<PortRec>, int>(recs),
{
    lemma_parse_encode_from(encode_doc_spec(recs), recs, 0, Seq::empty());
    assert(recs.subrange(0, 0) =~= Seq::<PortRec>::empty());
    assert(encode_doc_spec(recs.subrange(0, 0)).len() == 0);
    assert(recs.subrange(0, recs.len() as int) =~= recs);
    assert(Seq::<PortRec>::empty() + recs =~= recs);
}

/// Round-trip stability over any valid document: decoding, re-encoding
/// the extracted records, and decoding again yields the same records.
pub proof fn lemma_codec_round_trip(doc: Seq<char>, recs: Seq<PortRec>)
    requires
        parse_doc(doc) == Ok::<Seq<PortRec>, int>(recs),
    ensures
        parse_doc(encode_doc_spec(recs)) == Ok::<Seq<PortRec>, int>(recs),
{
    assert(forall|j: int| 0 <= j < Seq::<PortRec>::empty().len() ==> rec_encodable(
        #[trigger] Seq::<PortRec>::empty()[j],
    ));
    lemma_parse_loop_encodable(doc, 0, ctx_none(), Seq::empty());
    assert(parse_loop(doc, 0, ctx_none(), Seq::empty()) == Ok::<Seq<PortRec>, int>(recs));
    assert forall|j: int| 0 <= j < recs.len() implies rec_encodable(#[trigger] recs[j]) by {
        let res = parse_loop(doc, 0, ctx_none(), Seq::<PortRec>::empty());
        assert(res == Ok::<Seq<PortRec>, int>(recs));
        match res {
            Ok(rr) => {
                assert(rr == recs);
                assert(rec_encodable(rr[j]));
            },
            Err(_) => {
                assert(false);
            },
        }
    }
    lemma_encode_round_trip(recs);
}

} // verus!
