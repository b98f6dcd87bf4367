//! Literal whole-substring replacement: the spec of leftmost, non-overlapping
//! replace-all over character sequences, and a verified executable form over
//! string slices.

use vstd::prelude::*;
use vstd::string::StrSliceExecFns;
use vstd::string::StringExecFns;

verus! {

/// Replaces every leftmost, non-overlapping occurrence of `from` in `t` by
/// `to`. An empty `from` matches nothing, so it leaves `t` unchanged.
pub open spec fn replace_all_spec(t: Seq<char>, from: Seq<char>, to: Seq<char>) -> Seq<char>
    decreases t.len(),
{
    if from.len() == 0 || t.len() < from.len() {
        t
    } else if t.take(from.len() as int) == from {
        to + replace_all_spec(t.skip(from.len() as int), from, to)
    } else {
        seq![t[0]] + replace_all_spec(t.drop_first(), from, to)
    }
}

/// Whether the characters of `t` starting at `pos` spell out `pat`.
fn str_eq_at(t: &str, pos: usize, pat: &str, pat_len: usize) -> (r: bool)
    requires
        pat_len == pat@.len(),
        pos + pat_len <= t@.len(),
        t@.len() <= usize::MAX,
    ensures
        r == (t@.subrange(pos as int, pos + pat@.len()) == pat@),
{
    let mut j: usize = 0;
    while j < pat_len
        invariant
            j <= pat_len,
            pat_len == pat@.len(),
            pos + pat_len <= t@.len(),
            t@.len() <= usize::MAX,
            forall|k: int| 0 <= k < j ==> t@[pos + k] == pat@[k],
        decreases pat_len - j,
    {
        if t.get_char(pos + j) != pat.get_char(j) {
            proof {
                assert(t@.subrange(pos as int, pos + pat@.len())[j as int] != pat@[j as int]);
            }
            return false;
        }
        j += 1;
    }
    proof {
        assert(t@.subrange(pos as int, pos + pat@.len()) =~= pat@);
    }
    true
}

/// Replaces every occurrence of `from` in `t` by `to`, leftmost first and
/// without overlap, exactly as `replace_all_spec` describes.
pub fn replace_all(t: &str, from: &str, to: &str) -> (out: String)
    ensures
        out@ == replace_all_spec(t@, from@, to@),
{
    let t_len = t.unicode_len();
    let from_len = from.unicode_len();
    if from_len == 0 {
        return t.to_owned();
    }
    let mut out = String::new();
    let mut pos: usize = 0;
    proof {
        assert(t@.skip(0) =~= t@);
    }
    while pos < t_len
        invariant
            pos <= t_len,
            t_len == t@.len(),
            from_len == from@.len(),
            from_len > 0,
            replace_all_spec(t@, from@, to@) == out@ + replace_all_spec(
                t@.skip(pos as int),
                from@,
                to@,
            ),
        decreases t_len - pos,
    {
        let ghost rest = t@.skip(pos as int);
        if from_len <= t_len - pos && str_eq_at(t, pos, from, from_len) {
            out.append(to);
            proof {
                assert(rest.take(from@.len() as int) =~= t@.subrange(
                    pos as int,
                    pos + from@.len(),
                ));
                assert(rest.skip(from@.len() as int) =~= t@.skip(pos + from_len));
            }
            pos += from_len;
        } else {
            let piece = t.substring_char(pos, pos + 1);
            out.append(piece);
            proof {
                assert(piece@ =~= seq![rest[0]]);
                if from_len <= t_len - pos {
                    assert(rest.take(from@.len() as int) =~= t@.subrange(
                        pos as int,
                        pos + from@.len(),
                    ));
                }
                assert(rest.drop_first() =~= t@.skip(pos + 1));
            }
            pos += 1;
        }
    }
    proof {
        assert(t@.skip(t_len as int) =~= Seq::<char>::empty());
    }
    out
}

} // verus!
