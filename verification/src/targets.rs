//! Externally supplied target lists: the line-level parsing of a targets
//! file. Reading the file and resolving names to addresses stay with the
//! surrounding binary.

use vstd::prelude::*;
use crate::text::{split_sep, trim_spec, chars_to_string, split_at_char, str_to_chars, trim_chars};

verus! {

/// The non-blank lines of a targets file, trimmed, in order.
pub open spec fn target_lines_spec(text: Seq<char>) -> Seq<Seq<char>> {
    split_sep(text, '\n').map_values(|l: Seq<char>| trim_spec(l)).filter(
        |l: Seq<char>| l.len() > 0,
    )
}

/// Splits a targets file into its non-blank trimmed lines.
pub fn parse_target_lines(text: &str) -> (r: Vec<String>)
    ensures
        r.deep_view() == target_lines_spec(text@),
{
    let chars = str_to_chars(text);
    let lines = split_at_char(&chars, '\n');
    let ghost glines = split_sep(text@, '\n');
    assert(lines.deep_view() == glines);
    proof {
        crate::text::lemma_tokens_view(&lines);
    }
    let ghost trimmed = glines.map_values(|l: Seq<char>| trim_spec(l));
    let mut out: Vec<String> = Vec::new();
    let mut i: usize = 0;
    proof {
        reveal(Seq::filter);
        assert(trimmed.subrange(0, 0) =~= Seq::<Seq<char>>::empty());
        assert(out.deep_view() =~= trimmed.subrange(0, 0).filter(|l: Seq<char>| l.len() > 0));
    }
    while i < lines.len()
        invariant
            i <= lines@.len(),
            glines == lines.deep_view(),
            glines.len() == lines@.len(),
            forall|j: int| 0 <= j < lines@.len() ==> #[trigger] glines[j] == lines@[j]@,
            trimmed == glines.map_values(|l: Seq<char>| trim_spec(l)),
            trimmed.len() == glines.len(),
            out.deep_view() == trimmed.subrange(0, i as int).filter(|l: Seq<char>| l.len() > 0),
        decreases lines.len() - i,
    {
        let ghost pref = trimmed.subrange(0, i as int);
        let ghost prev = out.deep_view();
        let t = trim_chars(&lines[i]);
        assert(t@ == trimmed[i as int]);
        if t.len() > 0 {
            out.push(chars_to_string(&t));
        }
        proof {
            reveal(Seq::filter);
            assert(trimmed.subrange(0, i + 1) =~= pref.push(trimmed[i as int]));
            assert(pref.push(trimmed[i as int]).drop_last() =~= pref);
            if t@.len() > 0 {
                assert(out.deep_view() =~~= prev.push(trimmed[i as int]));
            }
        }
        i += 1;
    }
    assert(trimmed.subrange(0, trimmed.len() as int) =~= trimmed);
    out
}

} // verus!
