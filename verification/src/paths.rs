//! Path normalization: what happens to a raw input line before it reaches
//! the matcher and the trie.
//!
//! A line first loses its trailing slashes, then a leading prefix (the
//! working directory) if it starts with one, then its leading slashes; what
//! remains is split at slashes into its nonempty segments.

use vstd::prelude::*;
use vstd::string::StrSliceExecFns;

use crate::matcher::find_slash;

verus! {

/// `s` without its trailing slashes.
pub open spec fn trim_trailing_slashes(s: Seq<char>) -> Seq<char>
    decreases s.len(),
{
    if s.len() > 0 && s[s.len() - 1] == '/' {
        trim_trailing_slashes(s.take(s.len() - 1))
    } else {
        s
    }
}

/// `s` without its leading slashes.
pub open spec fn trim_leading_slashes(s: Seq<char>) -> Seq<char>
    decreases s.len(),
{
    if s.len() > 0 && s[0] == '/' {
        trim_leading_slashes(s.skip(1))
    } else {
        s
    }
}

/// Whether `pre` starts `s`.
pub open spec fn spec_is_prefix(pre: Seq<char>, s: Seq<char>) -> bool {
    s.len() >= pre.len() && s.take(pre.len() as int) == pre
}

/// `s` without the prefix `pre` when it starts with it, else `s` itself.
pub open spec fn strip_prefix_of(s: Seq<char>, pre: Seq<char>) -> Seq<char> {
    if spec_is_prefix(pre, s) {
        s.skip(pre.len() as int)
    } else {
        s
    }
}

/// A whole line normalized: trailing slashes trimmed, then the working
/// directory prefix stripped, then leading slashes trimmed.
pub open spec fn spec_normalize_path(line: Seq<char>, prefix: Seq<char>) -> Seq<char> {
    trim_leading_slashes(strip_prefix_of(trim_trailing_slashes(line), prefix))
}

/// The nonempty slash-delimited segments of `s` from `start` on.
pub open spec fn split_nonempty_from(s: Seq<char>, start: int) -> Seq<Seq<char>>
    decreases s.len() - start,
{
    let k = find_slash(s, start);
    if !(start <= k < s.len()) {
        if start < s.len() {
            seq![s.subrange(start, s.len() as int)]
        } else {
            Seq::empty()
        }
    } else {
        if k > start {
            seq![s.subrange(start, k)] + split_nonempty_from(s, k + 1)
        } else {
            split_nonempty_from(s, k + 1)
        }
    }
}

/// The nonempty slash-delimited segments of a whole path, in order.
pub open spec fn spec_split_path(s: Seq<char>) -> Seq<Seq<char>> {
    split_nonempty_from(s, 0)
}

proof fn lemma_trim_trailing(s: Seq<char>, e: int)
    requires
        0 <= e <= s.len(),
        forall|t: int| e <= t < s.len() ==> s[t] == '/',
        e > 0 ==> s[e - 1] != '/',
    ensures
        trim_trailing_slashes(s) == s.take(e),
    decreases s.len(),
{
    if e < s.len() {
        lemma_trim_trailing(s.take(s.len() - 1), e);
        assert(s.take(s.len() - 1).take(e) =~= s.take(e));
    } else {
        assert(s.take(e) =~= s);
    }
}

proof fn lemma_trim_leading(s: Seq<char>, lo: int)
    requires
        0 <= lo <= s.len(),
        forall|t: int| 0 <= t < lo ==> s[t] == '/',
        lo < s.len() ==> s[lo] != '/',
    ensures
        trim_leading_slashes(s) == s.skip(lo),
    decreases lo,
{
    if lo > 0 {
        lemma_trim_leading(s.skip(1), lo - 1);
        assert(s.skip(1).skip(lo - 1) =~= s.skip(lo));
    } else {
        assert(s.skip(0) =~= s);
    }
}

/// Normalizes one input line against the given working-directory prefix:
/// trailing slashes go, then the prefix if the line starts with it, then
/// leading slashes.
pub fn normalize_path(line: &str, prefix: &str) -> (r: String)
    ensures
        r@ == spec_normalize_path(line@, prefix@),
{
    let n = line.unicode_len();
    let pl = prefix.unicode_len();

    // Trailing slashes.
    let mut e = n;
    while e > 0 && line.get_char(e - 1) == '/'
        invariant
            e <= n,
            n == line@.len(),
            forall|t: int| e <= t < n ==> line@[t] == '/',
        decreases e,
    {
        e = e - 1;
    }
    proof {
        lemma_trim_trailing(line@, e as int);
    }
    let ghost t1 = line@.take(e as int);

    // The working-directory prefix, when the trimmed line starts with it.
    let mut lo: usize = 0;
    if pl <= e {
        let mut t: usize = 0;
        let mut all = true;
        while t < pl && all
            invariant
                t <= pl,
                pl <= e <= n,
                n == line@.len(),
                pl == prefix@.len(),
                t1 == line@.take(e as int),
                all ==> forall|u: int| 0 <= u < t ==> line@[u] == prefix@[u],
                !all ==> !spec_is_prefix(prefix@, t1),
            decreases pl - t + (if all {
                1int
            } else {
                0int
            }),
        {
            if line.get_char(t) != prefix.get_char(t) {
                proof {
                    assert(t1.take(pl as int)[t as int] == line@[t as int]);
                }
                all = false;
            } else {
                t = t + 1;
            }
        }
        if all {
            proof {
                assert(t1.take(pl as int) =~= prefix@);
            }
            lo = pl;
        }
    } else {
        proof {
            assert(!spec_is_prefix(prefix@, t1));
        }
    }
    let ghost lo0 = lo;
    let ghost t2 = strip_prefix_of(t1, prefix@);
    proof {
        assert(t2 =~= line@.subrange(lo0 as int, e as int));
    }

    // Leading slashes.
    while lo < e && line.get_char(lo) == '/'
        invariant
            lo0 <= lo <= e <= n,
            n == line@.len(),
            forall|u: int| lo0 <= u < lo ==> line@[u] == '/',
        decreases e - lo,
    {
        lo = lo + 1;
    }
    proof {
        assert(forall|u: int| 0 <= u < lo - lo0 ==> t2[u] == line@[lo0 + u]);
        lemma_trim_leading(t2, lo - lo0);
        assert(t2.skip(lo - lo0) =~= line@.subrange(lo as int, e as int));
    }
    let r = line.substring_char(lo, e).to_owned();
    r
}

/// The first `/` at or after `from`, as the spec `find_slash` sees it; the
/// length of the text stands for "none".
fn str_find_slash(s: &str, from: usize) -> (r: usize)
    requires
        from <= s@.len(),
    ensures
        from <= r <= s@.len(),
        r < s@.len() ==> find_slash(s@, from as int) == r as int,
        r == s@.len() ==> find_slash(s@, from as int) == -1,
    decreases s@.len() - from,
{
    if from == s.unicode_len() {
        from
    } else if s.get_char(from) == '/' {
        from
    } else {
        str_find_slash(s, from + 1)
    }
}

/// The nonempty segments of `s` from `start` on.
fn split_from(s: &str, start: usize) -> (segs: Vec<String>)
    requires
        start <= s@.len(),
    ensures
        segs.deep_view() == split_nonempty_from(s@, start as int),
    decreases s@.len() - start,
{
    let n = s.unicode_len();
    let hi = str_find_slash(s, start);
    if hi == n {
        if start < n {
            let mut out: Vec<String> = Vec::new();
            out.push(s.substring_char(start, n).to_owned());
            proof {
                assert(out.deep_view() =~= split_nonempty_from(s@, start as int));
            }
            out
        } else {
            let out: Vec<String> = Vec::new();
            proof {
                assert(out.deep_view() =~= split_nonempty_from(s@, start as int));
            }
            out
        }
    } else {
        let mut rest = split_from(s, hi + 1);
        if hi > start {
            let seg = s.substring_char(start, hi).to_owned();
            let ghost rest0 = rest.deep_view();
            let mut out: Vec<String> = Vec::new();
            out.push(seg);
            out.append(&mut rest);
            proof {
                assert(out.deep_view() =~= seq![s@.subrange(start as int, hi as int)] + rest0);
            }
            out
        } else {
            rest
        }
    }
}

/// Splits a normalized path at slashes into its nonempty segments, in
/// order: what the trie is fed with.
pub fn split_path(s: &str) -> (segs: Vec<String>)
    ensures
        segs.deep_view() == spec_split_path(s@),
{
    split_from(s, 0)
}

} // verus!
