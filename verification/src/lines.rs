use vstd::prelude::*;
use vstd::string::StrSliceExecFns;

use crate::model::lemma_spec_lines_weight;
use crate::model::lines_cont;
use crate::model::spec_lines;
use crate::model::weights_from;

verus! {

/// Splits the raw input into the grid of lines the scanner works on: at
/// `\n`, treating `\r\n` as a single line ending, with no line for a line
/// ending at the very end of the input.
pub(crate) fn split_lines(input: &str) -> (r: Vec<Vec<char>>)
    ensures
        r.deep_view() == spec_lines(input@),
        weights_from(r.deep_view(), 0) <= usize::MAX,
{
    let n = input.unicode_len();
    let mut out: Vec<Vec<char>> = Vec::new();
    let mut cur: Vec<char> = Vec::new();
    let mut i: usize = 0;
    proof {
        assert(input@.subrange(0, n as int) =~= input@);
        assert(out.deep_view() + lines_cont(cur@, input@) =~= lines_cont(cur@, input@));
    }
    while i < n
        invariant
            n == input@.len(),
            i <= n,
            spec_lines(input@) == out.deep_view() + lines_cont(
                cur@,
                input@.subrange(i as int, n as int),
            ),
        decreases n - i,
    {
        let ghost rest = input@.subrange(i as int, n as int);
        let ghost out0 = out.deep_view();
        let ghost cur0 = cur@;
        let c = input.get_char(i);
        proof {
            assert(rest[0] == c);
            assert(rest.drop_first() =~= input@.subrange(i + 1, n as int));
        }
        if c == '\n' {
            if cur.len() > 0 && cur[cur.len() - 1] == '\r' {
                cur.pop();
            }
            proof {
                assert(cur@ =~= crate::model::strip_cr(cur0));
            }
            out.push(cur);
            cur = Vec::new();
            proof {
                assert(out.deep_view() =~~= out0 + seq![crate::model::strip_cr(cur0)]);
                assert(out0 + (seq![crate::model::strip_cr(cur0)] + lines_cont(
                    cur@,
                    rest.drop_first(),
                )) =~~= out.deep_view() + lines_cont(cur@, rest.drop_first()));
            }
        } else {
            cur.push(c);
            proof {
                assert(cur@ == cur0.push(c));
            }
        }
        i = i + 1;
    }
    proof {
        assert(input@.subrange(n as int, n as int) =~= Seq::<char>::empty());
    }
    if cur.len() > 0 {
        proof {
            assert(lines_cont(cur@, Seq::<char>::empty()) =~= seq![cur@]);
        }
        let ghost out0 = out.deep_view();
        let ghost last = cur@;
        out.push(cur);
        proof {
            assert(out.deep_view() =~~= out0 + seq![last]);
        }
    } else {
        proof {
            assert(out.deep_view() + lines_cont(cur@, Seq::<char>::empty()) =~= out.deep_view());
        }
    }
    proof {
        lemma_spec_lines_weight(input@);
    }
    out
}

} // verus!
