//! Glob-or-substring pattern matching for exclude/include decisions.
//!
//! A pattern that holds one of `*`, `?` or `[` is treated as a glob: `*`
//! matches any run of characters, `?` any single character, and `[...]` a
//! bracket class of characters and ranges, negated by a leading `!`; the
//! closing bracket is the first `]` after at least one class character, so
//! `[]]` is the class holding `]`. A glob matches a path when it matches the
//! whole path or any single slash-delimited segment of it. A malformed glob
//! (an unterminated or empty class) and a pattern with no glob character
//! both fall back to plain substring containment.

use vstd::prelude::*;
use vstd::string::StrSliceExecFns;

verus! {

/// Whether a pattern is treated as a glob rather than a substring.
pub open spec fn is_glob_pattern(p: Seq<char>) -> bool {
    p.contains('*') || p.contains('?') || p.contains('[')
}

/// The position of the first `]` at or after `from`, or -1.
pub open spec fn find_close(s: Seq<char>, from: int) -> int
    decreases s.len() - from,
{
    if !(0 <= from < s.len()) {
        -1
    } else if s[from] == ']' {
        from
    } else {
        find_close(s, from + 1)
    }
}

/// Whether a bracket-class body contains a character: the body is read as
/// ranges `a-b` where a `-` stands between neighbours, and single characters
/// otherwise.
pub open spec fn class_contains(body: Seq<char>, c: char) -> bool
    decreases body.len(),
{
    if body.len() == 0 {
        false
    } else if body.len() >= 3 && body[1] == '-' {
        ((body[0] as u32) <= (c as u32) && (c as u32) <= (body[2] as u32)) || class_contains(
            body.skip(3),
            c,
        )
    } else {
        c == body[0] || class_contains(body.skip(1), c)
    }
}

/// Whether every bracket class from position `i` on is well formed: opened
/// classes carry at least one body character and a closing `]`.
pub open spec fn glob_valid_from(p: Seq<char>, i: int) -> bool
    decreases p.len() - i,
{
    if !(0 <= i < p.len()) {
        true
    } else if p[i] == '[' {
        let bs = if i + 1 < p.len() && p[i + 1] == '!' {
            i + 2
        } else {
            i + 1
        };
        let close = find_close(p, bs + 1);
        close >= bs + 1 && close < p.len() && glob_valid_from(p, close + 1)
    } else {
        glob_valid_from(p, i + 1)
    }
}

/// Whether a whole glob pattern is well formed.
pub open spec fn glob_valid(p: Seq<char>) -> bool {
    glob_valid_from(p, 0)
}

/// Whether the pattern from `i` on matches the text from `j` on.
pub open spec fn glob_match_from(p: Seq<char>, i: int, s: Seq<char>, j: int) -> bool
    decreases p.len() - i, s.len() - j,
{
    if !(0 <= i < p.len()) {
        j >= s.len()
    } else if p[i] == '*' {
        glob_match_from(p, i + 1, s, j) || (0 <= j < s.len() && glob_match_from(p, i, s, j + 1))
    } else if p[i] == '?' {
        0 <= j < s.len() && glob_match_from(p, i + 1, s, j + 1)
    } else if p[i] == '[' {
        let neg = i + 1 < p.len() && p[i + 1] == '!';
        let bs = if neg {
            i + 2
        } else {
            i + 1
        };
        let close = find_close(p, bs + 1);
        close >= bs + 1 && close < p.len() && 0 <= j < s.len() && (class_contains(
            p.subrange(bs, close),
            s[j],
        ) != neg) && glob_match_from(p, close + 1, s, j + 1)
    } else {
        0 <= j < s.len() && p[i] == s[j] && glob_match_from(p, i + 1, s, j + 1)
    }
}

/// Whether a well-formed glob pattern matches a whole text.
pub open spec fn glob_matches(p: Seq<char>, s: Seq<char>) -> bool {
    glob_match_from(p, 0, s, 0)
}

/// Whether `needle` occurs contiguously inside `hay`.
pub open spec fn contains_substring(hay: Seq<char>, needle: Seq<char>) -> bool {
    exists|k: int|
        0 <= k <= hay.len() - needle.len() && #[trigger] hay.subrange(k, k + needle.len())
            == needle
}

/// The position of the first `/` at or after `from`, or -1.
pub open spec fn find_slash(s: Seq<char>, from: int) -> int
    decreases s.len() - from,
{
    if !(0 <= from < s.len()) {
        -1
    } else if s[from] == '/' {
        from
    } else {
        find_slash(s, from + 1)
    }
}

/// The slash-delimited segments of `s` from position `start` on, empty
/// segments included.
pub open spec fn spec_segments_from(s: Seq<char>, start: int) -> Seq<Seq<char>>
    decreases s.len() - start,
{
    let k = find_slash(s, start);
    if !(start <= k < s.len()) {
        seq![s.subrange(start, s.len() as int)]
    } else {
        seq![s.subrange(start, k)] + spec_segments_from(s, k + 1)
    }
}

/// The slash-delimited segments of a whole path.
pub open spec fn spec_segments(s: Seq<char>) -> Seq<Seq<char>> {
    spec_segments_from(s, 0)
}

/// What one pattern means against one path: a well-formed glob matches the
/// whole path or any single segment of it; anything else is substring
/// containment.
pub open spec fn spec_match_one(path: Seq<char>, pat: Seq<char>) -> bool {
    if is_glob_pattern(pat) && glob_valid(pat) {
        glob_matches(pat, path) || (exists|g: int|
            0 <= g < spec_segments(path).len() && glob_matches(
                pat,
                #[trigger] spec_segments(path)[g],
            ))
    } else {
        contains_substring(path, pat)
    }
}

/// Whether some pattern of the collection matches the path.
pub open spec fn matches_any(pats: Seq<Seq<char>>, path: Seq<char>) -> bool {
    exists|k: int| 0 <= k < pats.len() && spec_match_one(path, #[trigger] pats[k])
}

/// The characters of a string slice, one by one.
fn to_chars(s: &str) -> (v: Vec<char>)
    ensures
        v@ == s@,
{
    let n = s.unicode_len();
    let mut v: Vec<char> = Vec::new();
    let mut i: usize = 0;
    while i < n
        invariant
            n == s@.len(),
            i <= n,
            v@ == s@.subrange(0, i as int),
        decreases n - i,
    {
        v.push(s.get_char(i));
        proof {
            assert(v@ =~= s@.subrange(0, i + 1));
        }
        i = i + 1;
    }
    proof {
        assert(v@ =~= s@);
    }
    v
}

/// Whether the pattern holds a glob character.
fn has_glob_meta(p: &Vec<char>) -> (r: bool)
    ensures
        r == is_glob_pattern(p@),
{
    let mut i: usize = 0;
    while i < p.len()
        invariant
            i <= p@.len(),
            forall|k: int| 0 <= k < i ==> p@[k] != '*' && p@[k] != '?' && p@[k] != '[',
        decreases p@.len() - i,
    {
        let c = p[i];
        if c == '*' || c == '?' || c == '[' {
            return true;
        }
        i = i + 1;
    }
    false
}

/// The first `]` at or after `from`, as the spec `find_close` sees it.
fn find_close_at(p: &Vec<char>, from: usize) -> (r: Option<usize>)
    ensures
        r is None ==> find_close(p@, from as int) == -1,
        r matches Some(k) ==> find_close(p@, from as int) == k as int && from <= k < p@.len(),
    decreases p@.len() - from,
{
    if from >= p.len() {
        None
    } else if p[from] == ']' {
        Some(from)
    } else {
        find_close_at(p, from + 1)
    }
}

/// Whether the class body `p[lo..hi]` contains `c`.
fn class_has(p: &Vec<char>, lo: usize, hi: usize, c: char) -> (r: bool)
    requires
        lo <= hi <= p@.len(),
    ensures
        r == class_contains(p@.subrange(lo as int, hi as int), c),
    decreases hi - lo,
{
    let ghost body = p@.subrange(lo as int, hi as int);
    if lo == hi {
        false
    } else if hi - lo >= 3 && p[lo + 1] == '-' {
        proof {
            assert(body[0] == p@[lo as int]);
            assert(body[1] == p@[lo + 1]);
            assert(body[2] == p@[lo + 2]);
            assert(body.skip(3) =~= p@.subrange(lo + 3, hi as int));
        }
        if (p[lo] as u32) <= (c as u32) && (c as u32) <= (p[lo + 2] as u32) {
            true
        } else {
            class_has(p, lo + 3, hi, c)
        }
    } else {
        proof {
            assert(body[0] == p@[lo as int]);
            assert(body.skip(1) =~= p@.subrange(lo + 1, hi as int));
        }
        if c == p[lo] {
            true
        } else {
            class_has(p, lo + 1, hi, c)
        }
    }
}

/// Whether every bracket class from `i` on is well formed.
fn glob_valid_at(p: &Vec<char>, i: usize) -> (r: bool)
    requires
        i <= p@.len(),
    ensures
        r == glob_valid_from(p@, i as int),
    decreases p@.len() - i,
{
    if i == p.len() {
        true
    } else if p[i] == '[' {
        let neg = i + 1 < p.len() && p[i + 1] == '!';
        let bs = if neg {
            i + 2
        } else {
            i + 1
        };
        let close_opt = if bs >= p.len() {
            None
        } else {
            find_close_at(p, bs + 1)
        };
        match close_opt {
            Option::None => false,
            Option::Some(close) => glob_valid_at(p, close + 1),
        }
    } else {
        glob_valid_at(p, i + 1)
    }
}

/// Whether the pattern from `i` on matches the text from `j` on.
fn glob_match_at(p: &Vec<char>, i: usize, s: &Vec<char>, j: usize) -> (r: bool)
    requires
        i <= p@.len(),
        j <= s@.len(),
    ensures
        r == glob_match_from(p@, i as int, s@, j as int),
    decreases p@.len() - i, s@.len() - j,
{
    if i == p.len() {
        j == s.len()
    } else {
        let c = p[i];
        if c == '*' {
            if glob_match_at(p, i + 1, s, j) {
                true
            } else if j < s.len() {
                glob_match_at(p, i, s, j + 1)
            } else {
                false
            }
        } else if c == '?' {
            if j < s.len() {
                glob_match_at(p, i + 1, s, j + 1)
            } else {
                false
            }
        } else if c == '[' {
            let neg = i + 1 < p.len() && p[i + 1] == '!';
            let bs = if neg {
                i + 2
            } else {
                i + 1
            };
            let close_opt = if bs >= p.len() {
                None
            } else {
                find_close_at(p, bs + 1)
            };
            match close_opt {
                Option::None => false,
                Option::Some(close) => {
                    if j < s.len() {
                        let inside = class_has(p, bs, close, s[j]);
                        if inside != neg {
                            glob_match_at(p, close + 1, s, j + 1)
                        } else {
                            false
                        }
                    } else {
                        false
                    }
                },
            }
        } else {
            if j < s.len() && c == s[j] {
                glob_match_at(p, i + 1, s, j + 1)
            } else {
                false
            }
        }
    }
}

/// Whether `needle` occurs contiguously inside `hay`.
fn contains_sub(hay: &Vec<char>, needle: &Vec<char>) -> (r: bool)
    ensures
        r == contains_substring(hay@, needle@),
{
    let hl = hay.len();
    let nl = needle.len();
    if nl > hl {
        return false;
    }
    let mut k: usize = 0;
    while k <= hl - nl
        invariant
            nl <= hl,
            hl == hay@.len(),
            nl == needle@.len(),
            k <= hl - nl + 1,
            forall|kk: int|
                0 <= kk < k ==> #[trigger] hay@.subrange(kk, kk + needle@.len()) != needle@,
        decreases hl - nl - k + 1,
    {
        let mut m: usize = 0;
        while m < nl && hay[k + m] == needle[m]
            invariant
                nl <= hl,
                hl == hay@.len(),
                nl == needle@.len(),
                k <= hl - nl,
                m <= nl,
                forall|mm: int| 0 <= mm < m ==> hay@[k + mm] == needle@[mm],
            decreases nl - m,
        {
            m = m + 1;
        }
        if m == nl {
            proof {
                assert(hay@.subrange(k as int, k + needle@.len()) =~= needle@);
            }
            return true;
        }
        proof {
            assert(hay@.subrange(k as int, k + needle@.len())[m as int] == hay@[k + m]);
            assert(hay@.subrange(k as int, k + needle@.len()) != needle@);
        }
        k = k + 1;
    }
    proof {
        assert forall|kk: int|
            0 <= kk <= hay@.len() - needle@.len() implies #[trigger] hay@.subrange(
            kk,
            kk + needle@.len(),
        ) != needle@ by {}
    }
    false
}

/// The first `/` at or after `from`, as the spec `find_slash` sees it;
/// the length of the text stands for "none".
fn find_slash_at(h: &Vec<char>, from: usize) -> (r: usize)
    requires
        from <= h@.len(),
    ensures
        from <= r <= h@.len(),
        r < h@.len() ==> find_slash(h@, from as int) == r as int,
        r == h@.len() ==> find_slash(h@, from as int) == -1,
    decreases h@.len() - from,
{
    if from == h.len() {
        from
    } else if h[from] == '/' {
        from
    } else {
        find_slash_at(h, from + 1)
    }
}

/// Whether the glob matches some segment of the path from `start` on.
fn any_segment_matches(p: &Vec<char>, h: &Vec<char>, start: usize) -> (r: bool)
    requires
        start <= h@.len(),
    ensures
        r == exists|g: int|
            0 <= g < spec_segments_from(h@, start as int).len() && glob_matches(
                p@,
                #[trigger] spec_segments_from(h@, start as int)[g],
            ),
    decreases h@.len() - start,
{
    let ghost segs = spec_segments_from(h@, start as int);
    let hi = find_slash_at(h, start);
    let mut seg: Vec<char> = Vec::new();
    let mut t: usize = start;
    while t < hi
        invariant
            start <= t <= hi <= h@.len(),
            seg@ == h@.subrange(start as int, t as int),
        decreases hi - t,
    {
        seg.push(h[t]);
        proof {
            assert(seg@ =~= h@.subrange(start as int, t + 1));
        }
        t = t + 1;
    }
    let m = glob_match_at(p, 0, &seg, 0);
    if hi == h.len() {
        proof {
            assert(segs =~= seq![h@.subrange(start as int, h@.len() as int)]);
            assert(segs[0] == seg@);
        }
        m
    } else {
        proof {
            assert(segs == seq![h@.subrange(start as int, hi as int)] + spec_segments_from(
                h@,
                hi + 1,
            ));
            assert(segs[0] == seg@);
        }
        if m {
            true
        } else {
            let r = any_segment_matches(p, h, hi + 1);
            proof {
                let rest = spec_segments_from(h@, hi + 1);
                assert(forall|g: int| 1 <= g < segs.len() ==> segs[g] == rest[g - 1]);
                if r {
                    let g0 = choose|g0: int|
                        0 <= g0 < rest.len() && glob_matches(p@, #[trigger] rest[g0]);
                    assert(segs[g0 + 1] == rest[g0]);
                } else {
                    assert forall|g: int|
                        0 <= g < segs.len() implies !glob_matches(p@, #[trigger] segs[g]) by {
                        if g > 0 {
                            assert(segs[g] == rest[g - 1]);
                        }
                    }
                }
            }
            r
        }
    }
}

/// Whether one pattern matches one path, as `spec_match_one` says.
pub fn match_one(path: &str, pattern: &str) -> (r: bool)
    ensures
        r == spec_match_one(path@, pattern@),
{
    let p = to_chars(pattern);
    let h = to_chars(path);
    if has_glob_meta(&p) && glob_valid_at(&p, 0) {
        if glob_match_at(&p, 0, &h, 0) {
            true
        } else {
            let r = any_segment_matches(&p, &h, 0);
            proof {
                let segs = spec_segments_from(h@, 0);
                assert(spec_segments(path@) == segs);
                if r {
                    let g0 = choose|g: int|
                        0 <= g < segs.len() && glob_matches(p@, #[trigger] segs[g]);
                    assert(glob_matches(pattern@, spec_segments(path@)[g0]));
                } else {
                    assert forall|g: int|
                        0 <= g < spec_segments(path@).len() implies !glob_matches(
                        pattern@,
                        #[trigger] spec_segments(path@)[g],
                    ) by {
                        assert(spec_segments(path@)[g] == segs[g]);
                    }
                }
            }
            r
        }
    } else {
        contains_sub(&h, &p)
    }
}

/// Evaluates paths against two ordered pattern collections: matches of the
/// exclude collection reject a path unless some include pattern matches it
/// too.
pub struct PathMatcher {
    /// Patterns whose match marks a path for exclusion.
    pub exclude_patterns: Vec<String>,
    /// Patterns whose match exempts a path from every exclude pattern.
    pub include_patterns: Vec<String>,
}

impl PathMatcher {
    /// A matcher over the two given pattern collections.
    pub fn new(exclude_patterns: Vec<String>, include_patterns: Vec<String>) -> (m: Self)
        ensures
            m.exclude_patterns == exclude_patterns,
            m.include_patterns == include_patterns,
    {
        PathMatcher { exclude_patterns, include_patterns }
    }

    /// Whether some pattern of the collection matches the path.
    fn matches_list(pats: &Vec<String>, path: &str) -> (r: bool)
        ensures
            r == matches_any(pats.deep_view(), path@),
    {
        let mut k: usize = 0;
        while k < pats.len()
            invariant
                k <= pats@.len(),
                pats.deep_view().len() == pats@.len(),
                forall|kk: int|
                    0 <= kk < k ==> !spec_match_one(path@, #[trigger] pats.deep_view()[kk]),
            decreases pats@.len() - k,
        {
            proof {
                assert(pats.deep_view()[k as int] == pats@[k as int]@);
            }
            if match_one(path, pats[k].as_str()) {
                return true;
            }
            k = k + 1;
        }
        false
    }

    /// Whether some exclude pattern matches the path.
    pub fn is_excluded(&self, path: &str) -> (r: bool)
        ensures
            r == matches_any(self.exclude_patterns.deep_view(), path@),
    {
        Self::matches_list(&self.exclude_patterns, path)
    }

    /// Whether some include pattern matches the path.
    pub fn is_included(&self, path: &str) -> (r: bool)
        ensures
            r == matches_any(self.include_patterns.deep_view(), path@),
    {
        Self::matches_list(&self.include_patterns, path)
    }

    /// The exclusion decision: a path is dropped exactly when some exclude
    /// pattern matches it and no include pattern does — one matching include
    /// pattern exempts a path from every exclude pattern.
    pub fn exclude(&self, path: &str) -> (r: bool)
        ensures
            r == (matches_any(self.exclude_patterns.deep_view(), path@) && !matches_any(
                self.include_patterns.deep_view(),
                path@,
            )),
    {
        if self.is_excluded(path) {
            !self.is_included(path)
        } else {
            false
        }
    }
}

} // verus!
