//! The port-discovery stage's line protocol: each output line may carry
//! `address -> port,port,...`; the ports of all lines are folded into one
//! sorted, duplicate-free list. Spawning the scanner and reading its
//! output stay with the surrounding binary.

use vstd::prelude::*;
use crate::text::{
    find_sub, parse_u16_spec, split_sep, trim_spec, parse_u16_chars, split_at_char, str_to_chars,
    trim_chars, copy_range,
};

verus! {

/// The ports one protocol line names: nothing without the arrow, else
/// every comma-separated piece after it that parses as a port number.
pub open spec fn line_ports(line: Seq<char>) -> Seq<u16> {
    match find_sub(line, "->"@) {
        None => Seq::empty(),
        Some(k) => pieces_ports(split_sep(line.subrange(k + 2, line.len() as int), ','), 0),
    }
}

/// The parseable pieces from index `i` on, in order.
pub open spec fn pieces_ports(pieces: Seq<Seq<char>>, i: int) -> Seq<u16>
    decreases pieces.len() - i,
{
    if !(0 <= i < pieces.len()) {
        Seq::empty()
    } else {
        match parse_u16_spec(trim_spec(pieces[i])) {
            Some(p) => seq![p] + pieces_ports(pieces, i + 1),
            None => pieces_ports(pieces, i + 1),
        }
    }
}

/// Folds the ports named by one protocol line into a sorted unique list.
pub fn absorb_line_ports(out: &mut Vec<u16>, line: &str)
    requires
        crate::nmap::sorted_unique(old(out)@),
    ensures
        crate::nmap::sorted_unique(final(out)@),
        final(out)@.to_set() =~= old(out)@.to_set().union(line_ports(line@).to_set()),
{
    let chars = str_to_chars(line);
    proof {
        reveal_strlit("->");
    }
    let arrow = find_arrow(&chars);
    match arrow {
        None => {
            assert(line_ports(line@).to_set() =~= Set::<u16>::empty()) by {
                assert(line_ports(line@) =~= Seq::<u16>::empty());
            }
            assert(out@.to_set() =~= out@.to_set().union(Set::<u16>::empty()));
        },
        Some(k) => {
            let n = chars.len();
            assert(k + 2 <= n);
            let rest = copy_range(&chars, k + 2, n);
            let pieces = split_at_char(&rest, ',');
            let ghost gpieces = split_sep(line@.subrange(k + 2, line@.len() as int), ',');
            assert(pieces.deep_view() == gpieces);
            proof {
                crate::text::lemma_tokens_view(&pieces);
            }
            let ghost mut acc: Seq<u16> = Seq::empty();
            let mut i: usize = 0;
            proof {
                assert(acc.to_set() =~= Set::<u16>::empty());
                assert(out@.to_set() =~= old(out)@.to_set().union(acc.to_set()));
            }
            while i < pieces.len()
                invariant
                    i <= pieces@.len(),
                    gpieces == pieces.deep_view(),
                    gpieces.len() == pieces@.len(),
                    forall|j: int| 0 <= j < pieces@.len() ==> #[trigger] gpieces[j] == pieces@[j]@,
                    crate::nmap::sorted_unique(out@),
                    out@.to_set() == old(out)@.to_set().union(acc.to_set()),
                    line_ports(line@) == acc + pieces_ports(gpieces, i as int),
                decreases pieces.len() - i,
            {
                let ghost prev_acc = acc;
                let t = trim_chars(&pieces[i]);
                let parsed = parse_u16_chars(&t);
                match parsed {
                    Some(p) => {
                        crate::nmap::insert_sorted_unique(out, p);
                        proof {
                            acc = prev_acc.push(p);
                            crate::text::lemma_push_to_set_gen(prev_acc, p);
                            assert(out@.to_set() =~= old(out)@.to_set().union(acc.to_set()));
                            assert(prev_acc + (seq![p] + pieces_ports(gpieces, i + 1)) =~= acc
                                + pieces_ports(gpieces, i + 1));
                        }
                    },
                    None => {
                        assert(prev_acc + pieces_ports(gpieces, i + 1) =~= acc + pieces_ports(
                            gpieces,
                            i + 1,
                        ));
                    },
                }
                i += 1;
            }
            proof {
                assert(pieces_ports(gpieces, gpieces.len() as int) =~= Seq::<u16>::empty());
                assert(acc + Seq::<u16>::empty() =~= acc);
                assert(line_ports(line@) == acc);
            }
        },
    }
}

/// Finds the arrow separator of one protocol line.
fn find_arrow(chars: &Vec<char>) -> (r: Option<usize>)
    ensures
        match r {
            Some(k) => find_sub(chars@, "->"@) == Some(k as int) && k + 2 <= chars@.len(),
            None => find_sub(chars@, "->"@) is None,
        },
{
    proof {
        reveal_strlit("->");
    }
    let mut k: usize = 0;
    while k < chars.len()
        invariant
            k <= chars@.len(),
            ("->"@).len() == 2,
            ("->"@)[0] == '-' && ("->"@)[1] == '>',
            forall|j: int| 0 <= j < k ==> !crate::text::is_match_at(chars@, "->"@, j),
        decreases chars.len() - k,
    {
        if chars[k] == '-' && chars.len() >= 2 && k < chars.len() - 1 && chars[k + 1] == '>' {
            proof {
                assert(chars@.subrange(k as int, k + 2) =~= "->"@);
                assert(crate::text::is_match_at(chars@, "->"@, k as int));
                crate::text::lemma_find_sub_props(chars@, "->"@);
                match find_sub(chars@, "->"@) {
                    Some(m) => {
                        if m < k as int {
                            assert(!crate::text::is_match_at(chars@, "->"@, m));
                        }
                        if m > k as int {
                            assert(!crate::text::is_match_at(chars@, "->"@, k as int));
                        }
                    },
                    None => {
                        assert(!crate::text::is_match_at(chars@, "->"@, k as int));
                    },
                }
            }
            return Some(k);
        }
        proof {
            if crate::text::is_match_at(chars@, "->"@, k as int) {
                assert(chars@.subrange(k as int, k + 2)[0] == chars@[k as int]);
                assert(chars@.subrange(k as int, k + 2)[1] == chars@[k + 1]);
            }
        }
        k += 1;
    }
    proof {
        crate::text::lemma_find_sub_props(chars@, "->"@);
        match find_sub(chars@, "->"@) {
            Some(m) => {
                assert(crate::text::is_match_at(chars@, "->"@, m));
                assert(false);
            },
            None => {},
        }
    }
    None
}

} // verus!
