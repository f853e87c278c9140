//! Character-level text helpers shared by the pipeline's parsers and
//! renderers. All logic works over `Vec<char>` / `Seq<char>`; the two
//! conversion functions bridge to `String` at the library boundary.

use vstd::prelude::*;
use vstd::string::*;

verus! {

/// Collects the characters of a `&str` into a vector, so the rest of the
/// library can index text directly.
pub fn str_to_chars(s: &str) -> (r: Vec<char>)
    ensures
        r@ == s@,
{
    let n = s.unicode_len();
    let mut v: Vec<char> = Vec::new();
    let mut i: usize = 0;
    while i < n
        invariant
            n == s@.len(),
            i <= n,
            v@ == s@.subrange(0, i as int),
        decreases n - i,
    {
        v.push(s.get_char(i));
        assert(v@ =~= s@.subrange(0, i + 1 as int));
        i += 1;
    }
    assert(v@ =~= s@);
    v
}

/// Relies on `String`'s `FromIterator<char>` implementation: collecting an
/// iterator of characters yields a string whose characters are exactly the
/// iterated ones, in order.
#[verifier::external_body]
pub(crate) fn chars_to_string(v: &Vec<char>) -> (r: String)
    ensures
        r@ == v@,
{
    v.iter().collect()
}

/// The whitespace characters recognized when tokenizing flag strings and
/// trimming list entries.
pub open spec fn is_space(c: char) -> bool {
    c == ' ' || c == '\t' || c == '\n' || c == '\r' || c == '\u{b}' || c == '\u{c}'
}

/// Executable mirror of [`is_space`].
pub fn is_space_char(c: char) -> (r: bool)
    ensures
        r == is_space(c),
{
    c == ' ' || c == '\t' || c == '\n' || c == '\r' || c == '\u{b}' || c == '\u{c}'
}

/// Whitespace tokenization: `cur` is the (possibly empty) token read so far.
pub open spec fn split_ws_rec(s: Seq<char>, cur: Seq<char>) -> Seq<Seq<char>>
    decreases s.len(),
{
    if s.len() == 0 {
        if cur.len() == 0 {
            Seq::empty()
        } else {
            seq![cur]
        }
    } else if is_space(s[0]) {
        if cur.len() == 0 {
            split_ws_rec(s.drop_first(), Seq::empty())
        } else {
            seq![cur] + split_ws_rec(s.drop_first(), Seq::empty())
        }
    } else {
        split_ws_rec(s.drop_first(), cur.push(s[0]))
    }
}

/// The maximal nonempty runs of non-whitespace characters of `s`, in order.
pub open spec fn split_ws(s: Seq<char>) -> Seq<Seq<char>> {
    split_ws_rec(s, Seq::empty())
}

/// Splits `s` into whitespace-separated tokens.
pub fn split_whitespace_chars(s: &Vec<char>) -> (r: Vec<Vec<char>>)
    ensures
        r.deep_view() == split_ws(s@),
{
    let mut out: Vec<Vec<char>> = Vec::new();
    let mut cur: Vec<char> = Vec::new();
    let mut i: usize = 0;
    proof {
        assert(s@.subrange(0, s@.len() as int) =~= s@);
        assert(out.deep_view() + split_ws_rec(s@, Seq::empty()) =~= split_ws_rec(
            s@,
            Seq::empty(),
        ));
    }
    while i < s.len()
        invariant
            i <= s.len(),
            split_ws(s@) == out.deep_view() + split_ws_rec(
                s@.subrange(i as int, s@.len() as int),
                cur@,
            ),
        decreases s.len() - i,
    {
        let ghost rest = s@.subrange(i as int, s@.len() as int);
        let ghost prev_out = out.deep_view();
        let ghost prev_cur = cur@;
        assert(rest[0] == s@[i as int]);
        assert(rest.drop_first() =~= s@.subrange(i + 1, s@.len() as int));
        let c = s[i];
        if is_space_char(c) {
            proof {
                if prev_cur.len() == 0 {
                    assert(prev_cur =~= Seq::<char>::empty());
                    assert(split_ws_rec(rest, prev_cur) == split_ws_rec(
                        rest.drop_first(),
                        Seq::empty(),
                    ));
                } else {
                    assert(split_ws_rec(rest, prev_cur) == seq![prev_cur] + split_ws_rec(
                        rest.drop_first(),
                        Seq::empty(),
                    ));
                }
            }
            if cur.len() > 0 {
                out.push(cur);
                cur = Vec::new();
                proof {
                    assert(out.deep_view() =~~= prev_out.push(prev_cur));
                    assert(prev_out.push(prev_cur) + split_ws_rec(rest.drop_first(), Seq::empty())
                        =~= prev_out + (seq![prev_cur] + split_ws_rec(
                        rest.drop_first(),
                        Seq::empty(),
                    )));
                }
            }
        } else {
            cur.push(c);
            proof {
                assert(split_ws_rec(rest, prev_cur) == split_ws_rec(
                    rest.drop_first(),
                    prev_cur.push(rest[0]),
                ));
                assert(cur@ == prev_cur.push(rest[0]));
            }
        }
        i += 1;
    }
    let ghost prev_out = out.deep_view();
    let ghost prev_cur = cur@;
    assert(s@.subrange(s@.len() as int, s@.len() as int) =~= Seq::<char>::empty());
    if cur.len() > 0 {
        out.push(cur);
        proof {
            assert(out.deep_view() =~~= prev_out.push(prev_cur));
            assert(prev_out + seq![prev_cur] =~= prev_out.push(prev_cur));
        }
    } else {
        assert(out.deep_view() + Seq::<Seq<char>>::empty() =~= out.deep_view());
    }
    out
}

/// Leading whitespace removed.
pub open spec fn trim_start_rec(s: Seq<char>) -> Seq<char>
    decreases s.len(),
{
    if s.len() == 0 {
        s
    } else if is_space(s[0]) {
        trim_start_rec(s.drop_first())
    } else {
        s
    }
}

/// Trailing whitespace removed.
pub open spec fn trim_end_rec(s: Seq<char>) -> Seq<char>
    decreases s.len(),
{
    if s.len() == 0 {
        s
    } else if is_space(s.last()) {
        trim_end_rec(s.drop_last())
    } else {
        s
    }
}

/// Leading and trailing whitespace removed.
pub open spec fn trim_spec(s: Seq<char>) -> Seq<char> {
    trim_end_rec(trim_start_rec(s))
}

proof fn lemma_trim_start_all_space(s: Seq<char>, k: int)
    requires
        0 <= k <= s.len(),
        forall|j: int| 0 <= j < k ==> is_space(s[j]),
        k == s.len() || !is_space(s[k]),
    ensures
        trim_start_rec(s) == s.subrange(k, s.len() as int),
    decreases k,
{
    if k == 0 {
        assert(s.subrange(0, s.len() as int) =~= s);
        if s.len() > 0 {
            assert(!is_space(s[0]));
        }
    } else {
        assert(is_space(s[0]));
        let t = s.drop_first();
        assert(forall|j: int| 0 <= j < k - 1 ==> t[j] == s[j + 1] && is_space(t[j]));
        lemma_trim_start_all_space(t, k - 1);
        assert(t.subrange(k - 1, t.len() as int) =~= s.subrange(k, s.len() as int));
    }
}

proof fn lemma_trim_end_all_space(s: Seq<char>, k: int)
    requires
        0 <= k <= s.len(),
        forall|j: int| k <= j < s.len() ==> is_space(s[j]),
        k == 0 || !is_space(s[k - 1]),
    ensures
        trim_end_rec(s) == s.subrange(0, k),
    decreases s.len() - k,
{
    if k == s.len() {
        assert(s.subrange(0, s.len() as int) =~= s);
        if s.len() > 0 {
            assert(!is_space(s.last()));
        }
    } else {
        assert(is_space(s.last()));
        let t = s.drop_last();
        lemma_trim_end_all_space(t, k);
        assert(t.subrange(0, k) =~= s.subrange(0, k));
    }
}

/// Copies `s` with leading and trailing whitespace removed.
pub fn trim_chars(s: &Vec<char>) -> (r: Vec<char>)
    ensures
        r@ == trim_spec(s@),
{
    let n = s.len();
    let mut a: usize = 0;
    while a < n && is_space_char(s[a])
        invariant
            n == s@.len(),
            a <= n,
            forall|j: int| 0 <= j < a ==> is_space(s@[j]),
        decreases n - a,
    {
        a += 1;
    }
    proof {
        lemma_trim_start_all_space(s@, a as int);
    }
    let ghost mid = s@.subrange(a as int, n as int);
    let mut b: usize = n;
    while b > a && is_space_char(s[b - 1])
        invariant
            n == s@.len(),
            a <= b <= n,
            forall|j: int| b <= j < n ==> is_space(s@[j]),
        decreases b,
    {
        b -= 1;
    }
    proof {
        assert(forall|j: int| b - a <= j < mid.len() ==> mid[j] == s@[j + a] && is_space(mid[j]));
        if b > a {
            assert(mid[b - a - 1] == s@[b - 1]);
        }
        lemma_trim_end_all_space(mid, b - a);
        assert(mid.subrange(0, b - a) =~= s@.subrange(a as int, b as int));
    }
    let mut out: Vec<char> = Vec::new();
    let mut i: usize = a;
    while i < b
        invariant
            a <= i <= b <= n,
            n == s@.len(),
            out@ == s@.subrange(a as int, i as int),
        decreases b - i,
    {
        out.push(s[i]);
        assert(out@ =~= s@.subrange(a as int, i + 1));
        i += 1;
    }
    out
}

/// Splitting at every occurrence of `sep`; empty pieces are kept, so the
/// result always has one more piece than `s` has separators.
pub open spec fn split_sep_rec(s: Seq<char>, sep: char, cur: Seq<char>) -> Seq<Seq<char>>
    decreases s.len(),
{
    if s.len() == 0 {
        seq![cur]
    } else if s[0] == sep {
        seq![cur] + split_sep_rec(s.drop_first(), sep, Seq::empty())
    } else {
        split_sep_rec(s.drop_first(), sep, cur.push(s[0]))
    }
}

/// The pieces of `s` between occurrences of `sep`, in order.
pub open spec fn split_sep(s: Seq<char>, sep: char) -> Seq<Seq<char>> {
    split_sep_rec(s, sep, Seq::empty())
}

/// Splits `s` at every occurrence of `sep`, keeping empty pieces.
pub fn split_at_char(s: &Vec<char>, sep: char) -> (r: Vec<Vec<char>>)
    ensures
        r.deep_view() == split_sep(s@, sep),
{
    let mut out: Vec<Vec<char>> = Vec::new();
    let mut cur: Vec<char> = Vec::new();
    let mut i: usize = 0;
    proof {
        assert(s@.subrange(0, s@.len() as int) =~= s@);
        assert(out.deep_view() + split_sep_rec(s@, sep, Seq::empty()) =~= split_sep_rec(
            s@,
            sep,
            Seq::empty(),
        ));
    }
    while i < s.len()
        invariant
            i <= s.len(),
            split_sep(s@, sep) == out.deep_view() + split_sep_rec(
                s@.subrange(i as int, s@.len() as int),
                sep,
                cur@,
            ),
        decreases s.len() - i,
    {
        let ghost rest = s@.subrange(i as int, s@.len() as int);
        let ghost prev_out = out.deep_view();
        let ghost prev_cur = cur@;
        assert(rest[0] == s@[i as int]);
        assert(rest.drop_first() =~= s@.subrange(i + 1, s@.len() as int));
        let c = s[i];
        if c == sep {
            out.push(cur);
            cur = Vec::new();
            proof {
                assert(out.deep_view() =~~= prev_out.push(prev_cur));
                assert(prev_out.push(prev_cur) + split_sep_rec(rest.drop_first(), sep, Seq::empty())
                    =~= prev_out + (seq![prev_cur] + split_sep_rec(
                    rest.drop_first(),
                    sep,
                    Seq::empty(),
                )));
            }
        } else {
            cur.push(c);
            proof {
                assert(split_sep_rec(rest, sep, prev_cur) == split_sep_rec(
                    rest.drop_first(),
                    sep,
                    prev_cur.push(rest[0]),
                ));
            }
        }
        i += 1;
    }
    let ghost prev_out = out.deep_view();
    let ghost prev_cur = cur@;
    assert(s@.subrange(s@.len() as int, s@.len() as int) =~= Seq::<char>::empty());
    out.push(cur);
    proof {
        assert(out.deep_view() =~~= prev_out.push(prev_cur));
        assert(prev_out + seq![prev_cur] =~= prev_out.push(prev_cur));
    }
    out
}

/// Decimal digit?
pub open spec fn is_digit(c: char) -> bool {
    '0' as u32 <= c as u32 && c as u32 <= '9' as u32
}

/// Numeric value of one digit.
pub open spec fn digit_val(c: char) -> int {
    c as u32 - '0' as u32
}

/// Every character is a decimal digit.
pub open spec fn all_digits(s: Seq<char>) -> bool {
    forall|i: int| 0 <= i < s.len() ==> is_digit(#[trigger] s[i])
}

/// The number denoted by a digit string, most significant digit first.
pub open spec fn digits_val(s: Seq<char>) -> int
    decreases s.len(),
{
    if s.len() == 0 {
        0
    } else {
        digits_val(s.drop_last()) * 10 + digit_val(s.last())
    }
}

pub proof fn lemma_digits_val_nonneg(s: Seq<char>)
    requires
        all_digits(s),
    ensures
        digits_val(s) >= 0,
    decreases s.len(),
{
    if s.len() > 0 {
        assert(all_digits(s.drop_last())) by {
            assert(forall|i: int| 0 <= i < s.len() - 1 ==> s.drop_last()[i] == #[trigger] s[i]);
            assert(forall|i: int| 0 <= i < s.drop_last().len() ==> is_digit(
                #[trigger] s.drop_last()[i],
            ));
        }
        lemma_digits_val_nonneg(s.drop_last());
        assert(is_digit(s[s.len() - 1]));
        assert(digit_val(s.last()) >= 0);
        assert(digits_val(s.drop_last()) * 10 >= 0);
    }
}

pub proof fn lemma_digits_val_prefix_le(s: Seq<char>, k: int)
    requires
        all_digits(s),
        0 <= k <= s.len(),
    ensures
        digits_val(s.subrange(0, k)) <= digits_val(s),
    decreases s.len() - k,
{
    if k == s.len() {
        assert(s.subrange(0, k) =~= s);
    } else {
        let t = s.subrange(0, k + 1);
        assert(all_digits(t)) by {
            assert(forall|i: int| 0 <= i < t.len() ==> t[i] == s[i]);
        }
        assert(t.drop_last() =~= s.subrange(0, k));
        lemma_digits_val_nonneg(s.subrange(0, k));
        assert(t.last() == s[k] && is_digit(s[k]));
        assert(digit_val(t.last()) >= 0);
        assert(digits_val(t) == digits_val(s.subrange(0, k)) * 10 + digit_val(t.last()));
        assert(digits_val(s.subrange(0, k)) <= digits_val(s.subrange(0, k)) * 10);
        lemma_digits_val_prefix_le(s, k + 1);
    }
}

/// The digits of a number string, a leading `+` sign dropped.
pub open spec fn u16_body(s: Seq<char>) -> Seq<char> {
    if s.len() > 0 && s[0] == '+' {
        s.drop_first()
    } else {
        s
    }
}

/// What `u16` parsing accepts: an optional leading `+`, then one or more
/// decimal digits denoting a value of at most 65535.
pub open spec fn parse_u16_spec(s: Seq<char>) -> Option<u16> {
    if u16_body(s).len() > 0 && all_digits(u16_body(s)) && digits_val(u16_body(s)) <= 65535 {
        Some(digits_val(u16_body(s)) as u16)
    } else {
        None
    }
}

/// Parses a decimal port number.
pub fn parse_u16_chars(s: &Vec<char>) -> (r: Option<u16>)
    ensures
        r == parse_u16_spec(s@),
{
    let start: usize = if s.len() > 0 && s[0] == '+' {
        1
    } else {
        0
    };
    let ghost body = u16_body(s@);
    proof {
        assert(body =~= s@.subrange(start as int, s@.len() as int));
    }
    if start == s.len() {
        assert(body.len() == 0);
        return None;
    }
    let mut i: usize = start;
    while i < s.len()
        invariant
            start <= i <= s@.len(),
            body == u16_body(s@),
            body == s@.subrange(start as int, s@.len() as int),
            forall|j: int| 0 <= j < i - start ==> is_digit(#[trigger] body[j]),
        decreases s.len() - i,
    {
        let c = s[i];
        let x = c as u32;
        if x < '0' as u32 || x > '9' as u32 {
            proof {
                assert(body[i - start] == c);
                assert(!is_digit(c));
                assert(!all_digits(body));
            }
            return None;
        }
        assert(body[i - start] == c && is_digit(c));
        i += 1;
    }
    assert(all_digits(body)) by {
        assert(forall|j: int| 0 <= j < body.len() ==> is_digit(#[trigger] body[j]));
    }
    let mut value: u32 = 0;
    let mut k: usize = start;
    assert(body.subrange(0, 0) =~= Seq::<char>::empty());
    while k < s.len()
        invariant
            start <= k <= s@.len(),
            body == u16_body(s@),
            body == s@.subrange(start as int, s@.len() as int),
            all_digits(body),
            start < s@.len(),
            value == digits_val(body.subrange(0, k - start)),
            value <= 65535,
        decreases s.len() - k,
    {
        let c = s[k];
        let x = c as u32;
        proof {
            assert(0 <= k - start < body.len());
            assert(body[k - start] == s@.subrange(start as int, s@.len() as int)[k - start]);
            assert(body[k - start] == s@[k as int]);
            assert(c == s@[k as int]);
            assert(is_digit(body[k - start]));
        }
        assert(body[k - start] == c && is_digit(c));
        let d = x - '0' as u32;
        let next = value * 10 + d;
        proof {
            assert(body.subrange(0, k - start + 1).drop_last() =~= body.subrange(0, k - start));
            assert(body.subrange(0, k - start + 1).last() == body[k - start]);
        }
        if next > 65535 {
            proof {
                lemma_digits_val_prefix_le(body, k + 1 - start);
            }
            return None;
        }
        value = next;
        k += 1;
    }
    assert(body.subrange(0, s@.len() - start) =~= body);
    Some(value as u16)
}

/// The character for one digit value.
pub open spec fn digit_char(d: int) -> char {
    (d + '0' as u32) as char
}

/// Decimal rendering of a nonnegative number; empty for zero.
pub open spec fn dec_rec(n: int) -> Seq<char>
    decreases n,
{
    if n <= 0 {
        Seq::empty()
    } else {
        dec_rec(n / 10).push(digit_char(n % 10))
    }
}

/// Decimal rendering of a nonnegative number.
pub open spec fn dec_str(n: int) -> Seq<char> {
    if n == 0 {
        seq!['0']
    } else {
        dec_rec(n)
    }
}

fn push_dec_rec(n: u64, out: &mut Vec<char>)
    ensures
        final(out)@ == old(out)@ + dec_rec(n as int),
    decreases n,
{
    if n == 0 {
        assert(old(out)@ + dec_rec(0) =~= old(out)@);
        return ;
    }
    push_dec_rec(n / 10, out);
    let d = (n % 10) as u32;
    out.push((('0' as u32 + d) as u8) as char);
    assert(out@ =~= old(out)@ + dec_rec(n as int));
}

/// Renders a number in decimal.
pub fn u64_to_chars(n: u64) -> (r: Vec<char>)
    ensures
        r@ == dec_str(n as int),
{
    if n == 0 {
        let mut v: Vec<char> = Vec::new();
        v.push('0');
        assert(v@ =~= seq!['0']);
        return v;
    }
    let mut v: Vec<char> = Vec::new();
    push_dec_rec(n, &mut v);
    assert(v@ =~= dec_rec(n as int));
    v
}

pub proof fn lemma_dec_rec_digits(n: int)
    requires
        n >= 0,
    ensures
        all_digits(dec_rec(n)),
        digits_val(dec_rec(n)) == n,
        n > 0 ==> dec_rec(n).len() > 0,
    decreases n,
{
    if n > 0 {
        lemma_dec_rec_digits(n / 10);
        let s = dec_rec(n);
        assert(s.drop_last() =~= dec_rec(n / 10));
        assert(is_digit(digit_char(n % 10)) && digit_val(digit_char(n % 10)) == n % 10);
    }
}

/// Decimal rendering parses back to the same value.
pub proof fn lemma_dec_str_roundtrip(n: u16)
    ensures
        parse_u16_spec(dec_str(n as int)) == Some(n),
{
    let s = dec_str(n as int);
    if n == 0 {
        assert(s == seq!['0']);
        assert(s[0] == '0');
        assert(!(s[0] == '+'));
        assert(all_digits(s));
        assert(s.drop_last() =~= Seq::<char>::empty());
        assert(digits_val(Seq::<char>::empty()) == 0);
        assert(s.last() == '0' && digit_val('0') == 0);
        assert(digits_val(s) == digits_val(s.drop_last()) * 10 + digit_val(s.last()));
        assert(digits_val(s) == 0);
    } else {
        lemma_dec_rec_digits(n as int);
        assert(s[0] != '+') by {
            assert(is_digit(s[0]));
        }
        assert(digits_val(s) == n);
    }
}

/// Lexicographic order on character sequences, by code point.
pub open spec fn lex_lt(a: Seq<char>, b: Seq<char>) -> bool
    decreases a.len(),
{
    if b.len() == 0 {
        false
    } else if a.len() == 0 {
        true
    } else if (a[0] as u32) < (b[0] as u32) {
        true
    } else if a[0] as u32 == b[0] as u32 {
        lex_lt(a.drop_first(), b.drop_first())
    } else {
        false
    }
}

/// The order is transitive.
pub proof fn lemma_lex_trans(a: Seq<char>, b: Seq<char>, c: Seq<char>)
    requires
        lex_lt(a, b),
        lex_lt(b, c),
    ensures
        lex_lt(a, c),
    decreases a.len(),
{
    if a.len() > 0 && b.len() > 0 && c.len() > 0 {
        if a[0] as u32 == b[0] as u32 && b[0] as u32 == c[0] as u32 {
            lemma_lex_trans(a.drop_first(), b.drop_first(), c.drop_first());
        }
    }
}

/// Three-way comparison of two strings: the first is smaller, the views
/// are equal, or the second is smaller.
pub fn str_cmp3(a: &str, b: &str) -> (r: i8)
    ensures
        r == -1 || r == 0 || r == 1,
        r == -1 ==> lex_lt(a@, b@),
        r == 0 ==> a@ == b@,
        r == 1 ==> lex_lt(b@, a@),
{
    let na = a.unicode_len();
    let nb = b.unicode_len();
    let mut i: usize = 0;
    proof {
        assert(a@.subrange(0, a@.len() as int) =~= a@);
        assert(b@.subrange(0, b@.len() as int) =~= b@);
    }
    loop
        invariant
            i <= na <= a@.len(),
            i <= nb <= b@.len(),
            na == a@.len(),
            nb == b@.len(),
            forall|j: int| 0 <= j < i ==> a@[j] == b@[j],
            lex_lt(a@, b@) == lex_lt(
                a@.subrange(i as int, a@.len() as int),
                b@.subrange(i as int, b@.len() as int),
            ),
            lex_lt(b@, a@) == lex_lt(
                b@.subrange(i as int, b@.len() as int),
                a@.subrange(i as int, a@.len() as int),
            ),
        decreases na - i,
    {
        let ghost ra = a@.subrange(i as int, a@.len() as int);
        let ghost rb = b@.subrange(i as int, b@.len() as int);
        if i == na && i == nb {
            assert(a@ =~= b@);
            return 0;
        }
        if i == nb {
            assert(rb.len() == 0 && ra.len() > 0);
            return 1;
        }
        if i == na {
            assert(ra.len() == 0 && rb.len() > 0);
            return -1;
        }
        assert(ra[0] == a@[i as int] && rb[0] == b@[i as int]);
        let ca = a.get_char(i);
        let cb = b.get_char(i);
        if (ca as u32) < (cb as u32) {
            return -1;
        }
        if (ca as u32) > (cb as u32) {
            return 1;
        }
        proof {
            assert(ra.drop_first() =~= a@.subrange(i + 1, a@.len() as int));
            assert(rb.drop_first() =~= b@.subrange(i + 1, b@.len() as int));
        }
        i += 1;
    }
}

/// A pushed element joins the content set.
pub proof fn lemma_push_to_set_gen<A>(s: Seq<A>, x: A)
    ensures
        s.push(x).to_set() =~= s.to_set().insert(x),
{
    assert forall|y: A| s.push(x).to_set().contains(y) implies s.to_set().insert(x).contains(
        y,
    ) by {
        let i = choose|i: int| 0 <= i < s.push(x).len() && #[trigger] s.push(x)[i] == y;
        if i < s.len() {
            assert(s[i] == y);
        }
    }
    assert forall|y: A| s.to_set().insert(x).contains(y) implies s.push(x).to_set().contains(
        y,
    ) by {
        if y == x {
            assert(s.push(x)[s.len() as int] == x);
        } else {
            let i = choose|i: int| 0 <= i < s.len() && #[trigger] s[i] == y;
            assert(s.push(x)[i] == y);
        }
    }
}

/// Compares two character vectors for equality.
pub fn chars_eq(a: &Vec<char>, b: &Vec<char>) -> (r: bool)
    ensures
        r == (a@ == b@),
{
    if a.len() != b.len() {
        assert(a@ != b@);
        return false;
    }
    let mut i: usize = 0;
    while i < a.len()
        invariant
            a@.len() == b@.len(),
            i <= a@.len(),
            forall|j: int| 0 <= j < i ==> a@[j] == b@[j],
        decreases a@.len() - i,
    {
        if a[i] != b[i] {
            return false;
        }
        i += 1;
    }
    assert(a@ =~= b@);
    true
}

/// Concatenation of `parts` with `sep` between consecutive pieces.
pub open spec fn join_sep(parts: Seq<Seq<char>>, sep: Seq<char>) -> Seq<char>
    decreases parts.len(),
{
    if parts.len() == 0 {
        Seq::empty()
    } else if parts.len() == 1 {
        parts[0]
    } else {
        parts[0] + sep + join_sep(parts.drop_first(), sep)
    }
}

pub proof fn lemma_join_push(parts: Seq<Seq<char>>, sep: Seq<char>, x: Seq<char>)
    ensures
        parts.len() == 0 ==> join_sep(parts.push(x), sep) == x,
        parts.len() > 0 ==> join_sep(parts.push(x), sep) == join_sep(parts, sep) + sep + x,
    decreases parts.len(),
{
    if parts.len() == 0 {
        assert(parts.push(x)[0] == x);
    } else {
        let p = parts.push(x);
        assert(p[0] == parts[0]);
        assert(p.drop_first() =~= parts.drop_first().push(x));
        lemma_join_push(parts.drop_first(), sep, x);
        if parts.len() == 1 {
            assert(parts.drop_first().len() == 0);
            assert(join_sep(p, sep) == parts[0] + sep + x);
            assert(join_sep(parts, sep) == parts[0]);
        }
    }
}

/// Appends every character of `src` to `dst`.
pub fn extend_chars(dst: &mut Vec<char>, src: &Vec<char>)
    ensures
        final(dst)@ == old(dst)@ + src@,
{
    let mut i: usize = 0;
    while i < src.len()
        invariant
            i <= src@.len(),
            dst@ == old(dst)@ + src@.subrange(0, i as int),
        decreases src.len() - i,
    {
        dst.push(src[i]);
        assert(dst@ =~= old(dst)@ + src@.subrange(0, i + 1));
        i += 1;
    }
    assert(dst@ =~= old(dst)@ + src@);
}

/// Appends every character of the string slice `src` to `dst`.
pub fn extend_str(dst: &mut Vec<char>, src: &str)
    ensures
        final(dst)@ == old(dst)@ + src@,
{
    let n = src.unicode_len();
    let mut i: usize = 0;
    while i < n
        invariant
            n == src@.len(),
            i <= n,
            dst@ == old(dst)@ + src@.subrange(0, i as int),
        decreases n - i,
    {
        dst.push(src.get_char(i));
        assert(dst@ =~= old(dst)@ + src@.subrange(0, i + 1));
        i += 1;
    }
    assert(dst@ =~= old(dst)@ + src@);
}

/// Joins the pieces with the given separator.
pub fn join_chars(parts: &Vec<Vec<char>>, sep: &str) -> (r: Vec<char>)
    ensures
        r@ == join_sep(parts.deep_view(), sep@),
{
    let mut out: Vec<char> = Vec::new();
    let mut i: usize = 0;
    while i < parts.len()
        invariant
            i <= parts@.len(),
            parts.deep_view().len() == parts@.len(),
            out@ == join_sep(parts.deep_view().subrange(0, i as int), sep@),
        decreases parts.len() - i,
    {
        let ghost pref = parts.deep_view().subrange(0, i as int);
        if i > 0 {
            extend_str(&mut out, sep);
        }
        extend_chars(&mut out, &parts[i]);
        proof {
            assert(parts.deep_view().subrange(0, i + 1) =~= pref.push(parts.deep_view()[i as int]));
            assert(parts.deep_view()[i as int] == parts@[i as int]@);
            lemma_join_push(pref, sep@, parts.deep_view()[i as int]);
            if i == 0 {
                assert(out@ =~= parts.deep_view()[0]);
            }
        }
        i += 1;
    }
    assert(parts.deep_view().subrange(0, parts.deep_view().len() as int) =~= parts.deep_view());
    out
}

/// ASCII letter?
pub open spec fn is_ascii_alpha(c: char) -> bool {
    ('a' as u32 <= c as u32 && c as u32 <= 'z' as u32) || ('A' as u32 <= c as u32 && c as u32
        <= 'Z' as u32)
}

/// Executable mirror of [`is_ascii_alpha`].
pub fn is_ascii_alpha_char(c: char) -> (r: bool)
    ensures
        r == is_ascii_alpha(c),
{
    let x = c as u32;
    ('a' as u32 <= x && x <= 'z' as u32) || ('A' as u32 <= x && x <= 'Z' as u32)
}

/// ASCII uppercase letters mapped to lowercase; all else unchanged.
pub open spec fn lower_char(c: char) -> char {
    if 'A' as u32 <= c as u32 && c as u32 <= 'Z' as u32 {
        (c as u32 + 32) as char
    } else {
        c
    }
}

/// ASCII lowercase letters mapped to uppercase; all else unchanged.
pub open spec fn upper_char(c: char) -> char {
    if 'a' as u32 <= c as u32 && c as u32 <= 'z' as u32 {
        (c as u32 - 32) as char
    } else {
        c
    }
}

/// Lowercases ASCII letters.
pub fn to_lower_chars(s: &Vec<char>) -> (r: Vec<char>)
    ensures
        r@ == s@.map_values(|c: char| lower_char(c)),
{
    let mut out: Vec<char> = Vec::new();
    let mut i: usize = 0;
    while i < s.len()
        invariant
            i <= s@.len(),
            out@ == s@.subrange(0, i as int).map_values(|c: char| lower_char(c)),
        decreases s.len() - i,
    {
        let c = s[i];
        let x = c as u32;
        if 'A' as u32 <= x && x <= 'Z' as u32 {
            out.push(((x + 32) as u8) as char);
        } else {
            out.push(c);
        }
        assert(out@ =~= s@.subrange(0, i + 1).map_values(|cc: char| lower_char(cc)));
        i += 1;
    }
    assert(s@.subrange(0, s@.len() as int) =~= s@);
    out
}

/// Uppercases ASCII letters.
pub fn to_upper_chars(s: &Vec<char>) -> (r: Vec<char>)
    ensures
        r@ == s@.map_values(|c: char| upper_char(c)),
{
    let mut out: Vec<char> = Vec::new();
    let mut i: usize = 0;
    while i < s.len()
        invariant
            i <= s@.len(),
            out@ == s@.subrange(0, i as int).map_values(|c: char| upper_char(c)),
        decreases s.len() - i,
    {
        let c = s[i];
        let x = c as u32;
        if 'a' as u32 <= x && x <= 'z' as u32 {
            out.push(((x - 32) as u8) as char);
        } else {
            out.push(c);
        }
        assert(out@ =~= s@.subrange(0, i + 1).map_values(|cc: char| upper_char(cc)));
        i += 1;
    }
    assert(s@.subrange(0, s@.len() as int) =~= s@);
    out
}

/// Does `c` occur in `s` at or after position `from`?
pub fn contains_char_from(s: &Vec<char>, from: usize, c: char) -> (r: bool)
    requires
        from <= s@.len(),
    ensures
        r == s@.subrange(from as int, s@.len() as int).contains(c),
{
    let mut i: usize = from;
    while i < s.len()
        invariant
            from <= i <= s@.len(),
            forall|j: int| from <= j < i ==> s@[j] != c,
        decreases s.len() - i,
    {
        if s[i] == c {
            assert(s@.subrange(from as int, s@.len() as int)[i - from] == c);
            return true;
        }
        i += 1;
    }
    assert(forall|j: int| 0 <= j < s@.len() - from ==> s@.subrange(
        from as int,
        s@.len() as int,
    )[j] == s@[j + from] && s@[j + from] != c);
    false
}

/// Does `c` occur in `s`?
pub fn contains_char(s: &Vec<char>, c: char) -> (r: bool)
    ensures
        r == s@.contains(c),
{
    let r = contains_char_from(s, 0, c);
    assert(s@.subrange(0, s@.len() as int) =~= s@);
    r
}

/// The characters of `s` that are not `c`, in order.
pub open spec fn remove_char_spec(s: Seq<char>, c: char) -> Seq<char> {
    s.filter(|x: char| x != c)
}

/// Copies `s`, dropping every occurrence of `c`.
pub fn remove_char(s: &Vec<char>, c: char) -> (r: Vec<char>)
    ensures
        r@ == remove_char_spec(s@, c),
{
    let mut out: Vec<char> = Vec::new();
    let mut i: usize = 0;
    while i < s.len()
        invariant
            i <= s@.len(),
            out@ == remove_char_spec(s@.subrange(0, i as int), c),
        decreases s.len() - i,
    {
        let ghost pref = s@.subrange(0, i as int);
        if s[i] != c {
            out.push(s[i]);
        }
        proof {
            reveal(Seq::filter);
            assert(s@.subrange(0, i + 1) =~= pref.push(s@[i as int]));
            assert(pref.push(s@[i as int]).drop_last() =~= pref);
            assert(pref.push(s@[i as int]).last() == s@[i as int]);
            assert(remove_char_spec(s@.subrange(0, i + 1), c) == if s@[i as int] != c {
                remove_char_spec(pref, c).push(s@[i as int])
            } else {
                remove_char_spec(pref, c)
            });
        }
        i += 1;
    }
    assert(s@.subrange(0, s@.len() as int) =~= s@);
    out
}

/// The index of the first occurrence of `c` in `s`, if any.
pub open spec fn find_first(s: Seq<char>, c: char) -> Option<int>
    decreases s.len(),
{
    if s.len() == 0 {
        None
    } else if s[0] == c {
        Some(0)
    } else {
        match find_first(s.drop_first(), c) {
            Some(k) => Some(k + 1),
            None => None,
        }
    }
}

pub proof fn lemma_find_first_at(s: Seq<char>, c: char, k: int)
    requires
        0 <= k <= s.len(),
        forall|j: int| 0 <= j < k ==> s[j] != c,
        k == s.len() || s[k] == c,
    ensures
        k == s.len() ==> find_first(s, c) is None,
        k < s.len() ==> find_first(s, c) == Some(k),
    decreases s.len(),
{
    if s.len() > 0 && k > 0 {
        let t = s.drop_first();
        assert(forall|j: int| 0 <= j < k - 1 ==> t[j] == s[j + 1] && t[j] != c);
        lemma_find_first_at(t, c, k - 1);
    }
}

/// What the first-occurrence index means.
pub proof fn lemma_find_first_props(s: Seq<char>, c: char)
    ensures
        match find_first(s, c) {
            Some(k) => 0 <= k < s.len() && s[k] == c && forall|j: int| 0 <= j < k ==> s[j] != c,
            None => !s.contains(c),
        },
    decreases s.len(),
{
    if s.len() > 0 && s[0] != c {
        lemma_find_first_props(s.drop_first(), c);
        let t = s.drop_first();
        match find_first(t, c) {
            Some(k) => {
                assert(forall|j: int| 0 <= j < k ==> t[j] == s[j + 1]);
                assert(find_first(s, c) == Some(k + 1));
                assert(s[k + 1] == t[k] && t[k] == c);
                assert forall|j: int| 0 <= j < k + 1 implies s[j] != c by {
                    if j > 0 {
                        assert(t[j - 1] == s[j] && t[j - 1] != c);
                    }
                }
            },
            None => {
                if s.contains(c) {
                    let i = choose|i: int| 0 <= i < s.len() && #[trigger] s[i] == c;
                    assert(t[i - 1] == c);
                }
            },
        }
    }
}

/// Finds the first occurrence of `c` in `v`.
pub fn find_char(v: &Vec<char>, c: char) -> (r: Option<usize>)
    ensures
        match r {
            Some(k) => find_first(v@, c) == Some(k as int),
            None => find_first(v@, c) is None,
        },
{
    let mut i: usize = 0;
    while i < v.len()
        invariant
            i <= v@.len(),
            forall|j: int| 0 <= j < i ==> v@[j] != c,
        decreases v.len() - i,
    {
        if v[i] == c {
            proof {
                lemma_find_first_at(v@, c, i as int);
            }
            return Some(i);
        }
        i += 1;
    }
    proof {
        lemma_find_first_at(v@, c, v@.len() as int);
    }
    None
}

/// Copies the characters of `v` between `a` and `b`.
pub fn copy_range(v: &Vec<char>, a: usize, b: usize) -> (r: Vec<char>)
    requires
        a <= b <= v@.len(),
    ensures
        r@ == v@.subrange(a as int, b as int),
{
    let mut out: Vec<char> = Vec::new();
    let mut i: usize = a;
    while i < b
        invariant
            a <= i <= b <= v@.len(),
            out@ == v@.subrange(a as int, i as int),
        decreases b - i,
    {
        out.push(v[i]);
        assert(out@ =~= v@.subrange(a as int, i + 1));
        i += 1;
    }
    out
}

/// The sequence with any leading run of `c` removed.
pub open spec fn trim_lead_char_spec(s: Seq<char>, c: char) -> Seq<char>
    decreases s.len(),
{
    if s.len() > 0 && s[0] == c {
        trim_lead_char_spec(s.drop_first(), c)
    } else {
        s
    }
}

proof fn lemma_trim_lead_char(s: Seq<char>, c: char, k: int)
    requires
        0 <= k <= s.len(),
        forall|j: int| 0 <= j < k ==> s[j] == c,
        k == s.len() || s[k] != c,
    ensures
        trim_lead_char_spec(s, c) == s.subrange(k, s.len() as int),
    decreases k,
{
    if k == 0 {
        assert(s.subrange(0, s.len() as int) =~= s);
    } else {
        let t = s.drop_first();
        lemma_trim_lead_char(t, c, k - 1);
        assert(t.subrange(k - 1, t.len() as int) =~= s.subrange(k, s.len() as int));
    }
}

/// Copies `s` with any leading run of `c` removed.
pub fn trim_leading_char(s: &Vec<char>, c: char) -> (r: Vec<char>)
    ensures
        r@ == trim_lead_char_spec(s@, c),
{
    let mut a: usize = 0;
    while a < s.len() && s[a] == c
        invariant
            a <= s@.len(),
            forall|j: int| 0 <= j < a ==> s@[j] == c,
        decreases s.len() - a,
    {
        a += 1;
    }
    proof {
        lemma_trim_lead_char(s@, c, a as int);
    }
    let mut out: Vec<char> = Vec::new();
    let mut i: usize = a;
    while i < s.len()
        invariant
            a <= i <= s@.len(),
            out@ == s@.subrange(a as int, i as int),
        decreases s.len() - i,
    {
        out.push(s[i]);
        assert(out@ =~= s@.subrange(a as int, i + 1));
        i += 1;
    }
    out
}

/// The deep view of a token vector agrees with the element views.
pub proof fn lemma_tokens_view(toks: &Vec<Vec<char>>)
    ensures
        toks.deep_view().len() == toks@.len(),
        forall|j: int| 0 <= j < toks@.len() ==> #[trigger] toks.deep_view()[j] == toks@[j]@,
{
    assert forall|j: int| 0 <= j < toks@.len() implies #[trigger] toks.deep_view()[j]
        == toks@[j]@ by {
        assert(toks.deep_view()[j] =~= toks@[j]@);
    }
}

/// The deep view of a string vector agrees with the element views.
pub proof fn lemma_strings_view(v: &Vec<String>)
    ensures
        v.deep_view().len() == v@.len(),
        forall|j: int| 0 <= j < v@.len() ==> #[trigger] v.deep_view()[j] == v@[j]@,
{
    assert forall|j: int| 0 <= j < v@.len() implies #[trigger] v.deep_view()[j] == v@[j]@ by {
        assert(v.deep_view()[j] == v@[j].deep_view());
    }
}

/// Compares two string slices by characters.
pub fn str_eq(a: &str, b: &str) -> (r: bool)
    ensures
        r == (a@ == b@),
{
    let n = a.unicode_len();
    if b.unicode_len() != n {
        assert(a@ != b@);
        return false;
    }
    let mut i: usize = 0;
    while i < n
        invariant
            n == a@.len(),
            b@.len() == n,
            i <= n,
            forall|j: int| 0 <= j < i ==> a@[j] == b@[j],
        decreases n - i,
    {
        if a.get_char(i) != b.get_char(i) {
            return false;
        }
        i += 1;
    }
    assert(a@ =~= b@);
    true
}

/// Compares a character vector against a string slice.
pub fn chars_eq_str(v: &Vec<char>, s: &str) -> (r: bool)
    ensures
        r == (v@ == s@),
{
    let n = s.unicode_len();
    if v.len() != n {
        assert(v@ != s@);
        return false;
    }
    let mut i: usize = 0;
    while i < n
        invariant
            n == s@.len(),
            v@.len() == n,
            i <= n,
            forall|j: int| 0 <= j < i ==> v@[j] == s@[j],
        decreases n - i,
    {
        if v[i] != s.get_char(i) {
            return false;
        }
        i += 1;
    }
    assert(v@ =~= s@);
    true
}

/// Does `pat` occur in `s` at position `k`?
pub open spec fn is_match_at(s: Seq<char>, pat: Seq<char>, k: int) -> bool {
    0 <= k && k + pat.len() <= s.len() && s.subrange(k, k + pat.len()) == pat
}

/// The first position where `pat` occurs in `s`, if any.
pub open spec fn find_sub(s: Seq<char>, pat: Seq<char>) -> Option<int>
    decreases s.len(),
{
    if pat.len() > s.len() {
        None
    } else if s.subrange(0, pat.len() as int) == pat {
        Some(0)
    } else if s.len() == 0 {
        None
    } else {
        match find_sub(s.drop_first(), pat) {
            Some(k) => Some(k + 1),
            None => None,
        }
    }
}

/// What the first-occurrence position means.
pub proof fn lemma_find_sub_props(s: Seq<char>, pat: Seq<char>)
    ensures
        match find_sub(s, pat) {
            Some(k) => is_match_at(s, pat, k) && forall|j: int|
                0 <= j < k ==> !is_match_at(s, pat, j),
            None => forall|j: int| !is_match_at(s, pat, j),
        },
    decreases s.len(),
{
    if pat.len() > s.len() {
        assert(forall|j: int| !is_match_at(s, pat, j));
    } else if s.subrange(0, pat.len() as int) == pat {
        assert(is_match_at(s, pat, 0));
    } else if s.len() == 0 {
        assert forall|j: int| !is_match_at(s, pat, j) by {
            if is_match_at(s, pat, j) {
                assert(j == 0);
            }
        }
    } else {
        lemma_find_sub_props(s.drop_first(), pat);
        let t = s.drop_first();
        assert forall|j: int| 1 <= j && j + pat.len() <= s.len() implies (is_match_at(s, pat, j)
            <==> is_match_at(t, pat, j - 1)) by {
            assert(t.subrange(j - 1, j - 1 + pat.len()) =~= s.subrange(j, j + pat.len()));
        }
        match find_sub(t, pat) {
            Some(k) => {
                assert(is_match_at(t, pat, k));
                assert(is_match_at(s, pat, k + 1));
                assert forall|j: int| 0 <= j < k + 1 implies !is_match_at(s, pat, j) by {
                    if j == 0 {
                        assert(!(s.subrange(0, pat.len() as int) == pat));
                    } else {
                        assert(!is_match_at(t, pat, j - 1));
                    }
                }
            },
            None => {
                assert forall|j: int| !is_match_at(s, pat, j) by {
                    if is_match_at(s, pat, j) {
                        if j == 0 {
                        } else {
                            assert(is_match_at(t, pat, j - 1));
                        }
                    }
                }
            },
        }
    }
}

proof fn lemma_find_sub_bounds(s: Seq<char>, pat: Seq<char>)
    ensures
        match find_sub(s, pat) {
            Some(k) => 0 <= k && k + pat.len() <= s.len(),
            None => true,
        },
    decreases s.len(),
{
    if pat.len() <= s.len() && !(s.subrange(0, pat.len() as int) == pat) && s.len() > 0 {
        lemma_find_sub_bounds(s.drop_first(), pat);
    }
}

/// `s` with every occurrence of `pat` replaced by `sub`, scanning left to
/// right without overlap; an empty pattern replaces nothing.
pub open spec fn replace_all(s: Seq<char>, pat: Seq<char>, sub: Seq<char>) -> Seq<char>
    decreases s.len(),
    via replace_all_decreases
{
    if pat.len() == 0 {
        s
    } else {
        match find_sub(s, pat) {
            None => s,
            Some(k) => s.subrange(0, k) + sub + replace_all(
                s.subrange(k + pat.len(), s.len() as int),
                pat,
                sub,
            ),
        }
    }
}

#[via_fn]
proof fn replace_all_decreases(s: Seq<char>, pat: Seq<char>, sub: Seq<char>) {
    lemma_find_sub_bounds(s, pat);
}

/// One unmatched character passes through unchanged.
pub proof fn lemma_replace_all_step(s: Seq<char>, pat: Seq<char>, sub: Seq<char>)
    requires
        pat.len() > 0,
        s.len() > 0,
        !is_match_at(s, pat, 0),
    ensures
        replace_all(s, pat, sub) == seq![s[0]] + replace_all(s.drop_first(), pat, sub),
{
    let t = s.drop_first();
    lemma_find_sub_props(s, pat);
    lemma_find_sub_props(t, pat);
    lemma_find_sub_bounds(s, pat);
    lemma_find_sub_bounds(t, pat);
    assert forall|j: int| 1 <= j && j + pat.len() <= s.len() implies (is_match_at(s, pat, j)
        <==> is_match_at(t, pat, j - 1)) by {
        assert(t.subrange(j - 1, j - 1 + pat.len()) =~= s.subrange(j, j + pat.len()));
    }
    match find_sub(s, pat) {
        None => {
            assert(find_sub(t, pat) is None) by {
                match find_sub(t, pat) {
                    Some(k) => {
                        assert(is_match_at(t, pat, k));
                        assert(is_match_at(s, pat, k + 1));
                    },
                    None => {},
                }
            }
            assert(seq![s[0]] + t =~= s);
        },
        Some(k) => {
            assert(k >= 1);
            assert(find_sub(t, pat) == Some(k - 1)) by {
                match find_sub(t, pat) {
                    Some(m) => {
                        assert(is_match_at(s, pat, m + 1));
                        assert(is_match_at(t, pat, k - 1));
                        if m < k - 1 {
                            assert(is_match_at(s, pat, m + 1) && m + 1 < k);
                        }
                        if m > k - 1 {
                            assert(!is_match_at(t, pat, k - 1));
                        }
                    },
                    None => {
                        assert(is_match_at(t, pat, k - 1));
                    },
                }
            }
            assert(s.subrange(0, k) =~= seq![s[0]] + t.subrange(0, k - 1));
            assert(s.subrange(k + pat.len(), s.len() as int) =~= t.subrange(
                k - 1 + pat.len(),
                t.len() as int,
            ));
            assert(replace_all(s, pat, sub) == s.subrange(0, k) + sub + replace_all(
                s.subrange(k + pat.len(), s.len() as int),
                pat,
                sub,
            ));
            assert(replace_all(t, pat, sub) == t.subrange(0, k - 1) + sub + replace_all(
                t.subrange(k - 1 + pat.len(), t.len() as int),
                pat,
                sub,
            ));
            assert((seq![s[0]] + t.subrange(0, k - 1)) + sub + replace_all(
                t.subrange(k - 1 + pat.len(), t.len() as int),
                pat,
                sub,
            ) =~= seq![s[0]] + (t.subrange(0, k - 1) + sub + replace_all(
                t.subrange(k - 1 + pat.len(), t.len() as int),
                pat,
                sub,
            )));
        },
    }
}

/// A match at the front is consumed whole.
pub proof fn lemma_replace_all_match(s: Seq<char>, pat: Seq<char>, sub: Seq<char>)
    requires
        pat.len() > 0,
        is_match_at(s, pat, 0),
    ensures
        replace_all(s, pat, sub) == sub + replace_all(
            s.subrange(pat.len() as int, s.len() as int),
            pat,
            sub,
        ),
{
    assert(find_sub(s, pat) == Some(0int)) by {
        lemma_find_sub_props(s, pat);
        match find_sub(s, pat) {
            Some(k) => {
                if k > 0 {
                    assert(!is_match_at(s, pat, 0));
                }
            },
            None => {
                assert(!is_match_at(s, pat, 0));
            },
        }
    }
    assert(s.subrange(0, 0) + sub + replace_all(
        s.subrange(pat.len() as int, s.len() as int),
        pat,
        sub,
    ) =~= sub + replace_all(s.subrange(pat.len() as int, s.len() as int), pat, sub));
}

/// Does `pat` occur in `v` at position `k`?
fn check_match_at(v: &Vec<char>, pat: &Vec<char>, k: usize) -> (r: bool)
    requires
        k <= v@.len(),
    ensures
        r == is_match_at(v@, pat@, k as int),
{
    if pat.len() > v.len() - k {
        assert(!is_match_at(v@, pat@, k as int));
        return false;
    }
    let n = v.len();
    let mut j: usize = 0;
    while j < pat.len()
        invariant
            j <= pat@.len(),
            n == v@.len(),
            k + pat@.len() <= v@.len(),
            k <= v@.len(),
            forall|q: int| 0 <= q < j ==> v@[k + q] == pat@[q],
        decreases pat.len() - j,
    {
        assert(k + j < n);
        let vc = v[k + j];
        if vc != pat[j] {
            assert(v@.subrange(k as int, k + pat@.len())[j as int] != pat@[j as int]);
            return false;
        }
        j += 1;
    }
    assert(v@.subrange(k as int, k + pat@.len()) =~= pat@);
    true
}

/// Replaces every occurrence of `pat` in `v` by `sub`, scanning left to
/// right without overlap.
pub fn replace_all_chars(v: &Vec<char>, pat: &Vec<char>, sub: &Vec<char>) -> (r: Vec<char>)
    requires
        pat@.len() > 0,
    ensures
        r@ == replace_all(v@, pat@, sub@),
{
    let mut out: Vec<char> = Vec::new();
    let mut i: usize = 0;
    proof {
        assert(v@.subrange(0, v@.len() as int) =~= v@);
        assert(out@ + replace_all(v@, pat@, sub@) =~= replace_all(v@, pat@, sub@));
    }
    while i < v.len()
        invariant
            i <= v@.len(),
            pat@.len() > 0,
            replace_all(v@, pat@, sub@) == out@ + replace_all(
                v@.subrange(i as int, v@.len() as int),
                pat@,
                sub@,
            ),
        decreases v.len() - i,
    {
        let ghost rest = v@.subrange(i as int, v@.len() as int);
        let ghost prev = out@;
        let matched = check_match_at(v, pat, i);
        proof {
            assert(is_match_at(v@, pat@, i as int) == is_match_at(rest, pat@, 0)) by {
                if i + pat@.len() <= v@.len() {
                    assert(rest.subrange(0, pat@.len() as int) =~= v@.subrange(
                        i as int,
                        i + pat@.len(),
                    ));
                }
            }
        }
        if matched {
            extend_chars(&mut out, sub);
            proof {
                lemma_replace_all_match(rest, pat@, sub@);
                assert(rest.subrange(pat@.len() as int, rest.len() as int) =~= v@.subrange(
                    i + pat@.len(),
                    v@.len() as int,
                ));
                assert(prev + (sub@ + replace_all(
                    v@.subrange(i + pat@.len(), v@.len() as int),
                    pat@,
                    sub@,
                )) =~= (prev + sub@) + replace_all(
                    v@.subrange(i + pat@.len(), v@.len() as int),
                    pat@,
                    sub@,
                ));
            }
            i += pat.len();
        } else {
            out.push(v[i]);
            proof {
                lemma_replace_all_step(rest, pat@, sub@);
                assert(rest[0] == v@[i as int]);
                assert(rest.drop_first() =~= v@.subrange(i + 1, v@.len() as int));
                assert(prev + (seq![v@[i as int]] + replace_all(
                    v@.subrange(i + 1, v@.len() as int),
                    pat@,
                    sub@,
                )) =~= prev.push(v@[i as int]) + replace_all(
                    v@.subrange(i + 1, v@.len() as int),
                    pat@,
                    sub@,
                ));
            }
            i += 1;
        }
    }
    proof {
        let rest = v@.subrange(v@.len() as int, v@.len() as int);
        assert(rest =~= Seq::<char>::empty());
        assert(pat@.len() > rest.len());
        assert(replace_all(rest, pat@, sub@) == rest);
        assert(out@ + rest =~= out@);
    }
    out
}

} // verus!
