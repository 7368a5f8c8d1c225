//! Optional reordering of every node's children before rendering.
//!
//! Two orders are offered beyond insertion order: by name (ordinary
//! comparison of segment names by character value), and by type
//! (directories — children that are not leaves — first, then by extension
//! and then by name, where a name without a `.` counts as its own
//! extension). The extension of a name is what follows its last `.`.

use vstd::prelude::*;
use vstd::string::StrSliceExecFns;

use crate::trie::TreeNode;
use crate::trie::lemma_entries_view;
use crate::trie::trie_view;
use crate::trie::trie_wf;

verus! {

/// Which order the children are brought into.
#[derive(PartialEq, Eq, Structural, Debug, Copy, Clone)]
pub enum SortOrder {
    /// Alphabetical by segment name.
    Name,
    /// Directories first, then by extension, then by name.
    Type,
}

/// Three-way comparison of two character sequences by character value:
/// negative when `a` comes first, zero exactly on equal sequences.
pub open spec fn lex_cmp(a: Seq<char>, b: Seq<char>) -> int
    decreases a.len(),
{
    if a.len() == 0 && b.len() == 0 {
        0
    } else if a.len() == 0 {
        -1
    } else if b.len() == 0 {
        1
    } else if (a[0] as u32) < (b[0] as u32) {
        -1
    } else if (a[0] as u32) > (b[0] as u32) {
        1
    } else {
        lex_cmp(a.skip(1), b.skip(1))
    }
}

/// The position of the last `.` of a name, or -1.
pub open spec fn last_dot(s: Seq<char>) -> int
    decreases s.len(),
{
    if s.len() == 0 {
        -1
    } else if s[s.len() - 1] == '.' {
        s.len() - 1
    } else {
        last_dot(s.take(s.len() - 1))
    }
}

/// Where a name's extension begins: after the last `.`, or at the start
/// when there is none, so that such a name sorts by its whole text.
pub open spec fn ext_begin(s: Seq<char>) -> int {
    if last_dot(s) == -1 {
        0
    } else {
        last_dot(s) + 1
    }
}

/// The extension a name sorts by.
pub open spec fn ext_of(s: Seq<char>) -> Seq<char> {
    s.skip(ext_begin(s))
}

/// Whether the entry `a` may stand before `b` under the given order.
pub open spec fn entry_le(order: SortOrder, a: (String, TreeNode), b: (String, TreeNode)) -> bool {
    match order {
        SortOrder::Name => lex_cmp(a.0@, b.0@) <= 0,
        SortOrder::Type => {
            let ra: int = if a.1.is_leaf {
                1
            } else {
                0
            };
            let rb: int = if b.1.is_leaf {
                1
            } else {
                0
            };
            ra < rb || (ra == rb && (lex_cmp(ext_of(a.0@), ext_of(b.0@)) < 0 || (lex_cmp(
                ext_of(a.0@),
                ext_of(b.0@),
            ) == 0 && lex_cmp(a.0@, b.0@) <= 0)))
        },
    }
}

/// Whether a children list stands in the given order.
pub open spec fn sorted_entries(order: SortOrder, es: Seq<(String, TreeNode)>) -> bool {
    forall|k1: int, k2: int|
        0 <= k1 < k2 < es.len() ==> entry_le(order, #[trigger] es[k1], #[trigger] es[k2])
}

proof fn lemma_lex_cmp_zero_trans(a: Seq<char>, b: Seq<char>, c: Seq<char>)
    requires
        lex_cmp(a, b) == 0,
        lex_cmp(b, c) == 0,
    ensures
        lex_cmp(a, c) == 0,
    decreases a.len(),
{
    if a.len() > 0 {
        assert(b.len() > 0);
        assert(c.len() > 0);
        lemma_lex_cmp_zero_trans(a.skip(1), b.skip(1), c.skip(1));
    }
}

proof fn lemma_lex_cmp_antisym(a: Seq<char>, b: Seq<char>)
    ensures
        lex_cmp(b, a) == -lex_cmp(a, b),
    decreases a.len(),
{
    if a.len() > 0 && b.len() > 0 && (a[0] as u32) == (b[0] as u32) {
        lemma_lex_cmp_antisym(a.skip(1), b.skip(1));
    }
}

proof fn lemma_lex_cmp_trans(a: Seq<char>, b: Seq<char>, c: Seq<char>)
    requires
        lex_cmp(a, b) <= 0,
        lex_cmp(b, c) <= 0,
    ensures
        lex_cmp(a, c) <= 0,
        lex_cmp(a, b) < 0 || lex_cmp(b, c) < 0 ==> lex_cmp(a, c) < 0,
    decreases a.len(),
{
    if a.len() == 0 {
        if c.len() == 0 {
            assert(b.len() == 0);
        }
    } else {
        assert(b.len() > 0);
        assert(c.len() > 0);
        if (a[0] as u32) == (b[0] as u32) && (b[0] as u32) == (c[0] as u32) {
            lemma_lex_cmp_trans(a.skip(1), b.skip(1), c.skip(1));
        }
    }
}

/// The order relation is total.
pub broadcast proof fn lemma_entry_le_total(
    order: SortOrder,
    a: (String, TreeNode),
    b: (String, TreeNode),
)
    ensures
        #[trigger] entry_le(order, a, b) || entry_le(order, b, a),
{
    lemma_lex_cmp_antisym(a.0@, b.0@);
    lemma_lex_cmp_antisym(ext_of(a.0@), ext_of(b.0@));
}

/// The order relation is transitive.
pub broadcast proof fn lemma_entry_le_trans(
    order: SortOrder,
    a: (String, TreeNode),
    b: (String, TreeNode),
    c: (String, TreeNode),
)
    requires
        entry_le(order, a, b),
        entry_le(order, b, c),
    ensures
        #![trigger entry_le(order, a, b), entry_le(order, b, c)]
        entry_le(order, a, c),
{
    match order {
        SortOrder::Name => {
            lemma_lex_cmp_trans(a.0@, b.0@, c.0@);
        },
        SortOrder::Type => {
            let ea = ext_of(a.0@);
            let eb = ext_of(b.0@);
            let ec = ext_of(c.0@);
            let ra: int = if a.1.is_leaf {
                1
            } else {
                0
            };
            let rc: int = if c.1.is_leaf {
                1
            } else {
                0
            };
            if ra == rc {
                if lex_cmp(ea, eb) <= 0 && lex_cmp(eb, ec) <= 0 {
                    lemma_lex_cmp_trans(ea, eb, ec);
                }
                if lex_cmp(ea, eb) == 0 && lex_cmp(eb, ec) == 0 {
                    lemma_lex_cmp_zero_trans(ea, eb, ec);
                    if lex_cmp(a.0@, b.0@) <= 0 && lex_cmp(b.0@, c.0@) <= 0 {
                        lemma_lex_cmp_trans(a.0@, b.0@, c.0@);
                    }
                }
            }
        },
    }
}

/// Compares the characters of `a` from `ai` on with those of `b` from `bi`
/// on.
fn lex_cmp_at(a: &str, ai: usize, b: &str, bi: usize) -> (r: i32)
    requires
        ai <= a@.len(),
        bi <= b@.len(),
    ensures
        r as int == lex_cmp(a@.skip(ai as int), b@.skip(bi as int)),
    decreases a@.len() - ai,
{
    let ghost sa = a@.skip(ai as int);
    let ghost sb = b@.skip(bi as int);
    let na = a.unicode_len();
    let nb = b.unicode_len();
    if ai == na && bi == nb {
        0
    } else if ai == na {
        -1
    } else if bi == nb {
        1
    } else {
        let ca = a.get_char(ai);
        let cb = b.get_char(bi);
        proof {
            assert(sa[0] == a@[ai as int]);
            assert(sb[0] == b@[bi as int]);
            assert(sa.skip(1) =~= a@.skip(ai + 1));
            assert(sb.skip(1) =~= b@.skip(bi + 1));
        }
        if (ca as u32) < (cb as u32) {
            -1
        } else if (ca as u32) > (cb as u32) {
            1
        } else {
            lex_cmp_at(a, ai + 1, b, bi + 1)
        }
    }
}

proof fn lemma_last_dot_at(s: Seq<char>, d: int)
    requires
        0 <= d < s.len(),
        s[d] == '.',
        forall|t: int| d < t < s.len() ==> s[t] != '.',
    ensures
        last_dot(s) == d,
    decreases s.len(),
{
    if d < s.len() - 1 {
        lemma_last_dot_at(s.take(s.len() - 1), d);
    }
}

proof fn lemma_last_dot_none(s: Seq<char>)
    requires
        forall|t: int| 0 <= t < s.len() ==> s[t] != '.',
    ensures
        last_dot(s) == -1,
    decreases s.len(),
{
    if s.len() > 0 {
        lemma_last_dot_none(s.take(s.len() - 1));
    }
}

/// Where the extension of a name begins.
fn ext_begin_at(s: &str) -> (r: usize)
    ensures
        r as int == ext_begin(s@),
        r <= s@.len(),
{
    let n = s.unicode_len();
    let mut t = n;
    while t > 0
        invariant
            t <= n,
            n == s@.len(),
            forall|u: int| t <= u < n ==> s@[u] != '.',
        decreases t,
    {
        if s.get_char(t - 1) == '.' {
            proof {
                lemma_last_dot_at(s@, t - 1);
            }
            return t;
        }
        t = t - 1;
    }
    proof {
        lemma_last_dot_none(s@);
    }
    0
}

/// Whether entry `a` may stand before entry `b` under the given order.
fn entry_le_at(a: &(String, TreeNode), b: &(String, TreeNode), order: SortOrder) -> (r: bool)
    ensures
        r == entry_le(order, *a, *b),
{
    match order {
        SortOrder::Name => {
            proof {
                assert(a.0@.skip(0) =~= a.0@);
                assert(b.0@.skip(0) =~= b.0@);
            }
            lex_cmp_at(a.0.as_str(), 0, b.0.as_str(), 0) <= 0
        },
        SortOrder::Type => {
            let la = a.1.is_leaf;
            let lb = b.1.is_leaf;
            if !la && lb {
                true
            } else if la && !lb {
                false
            } else {
                let ea = ext_begin_at(a.0.as_str());
                let eb = ext_begin_at(b.0.as_str());
                let ce = lex_cmp_at(a.0.as_str(), ea, b.0.as_str(), eb);
                if ce < 0 {
                    true
                } else if ce > 0 {
                    false
                } else {
                    proof {
                        assert(a.0@.skip(0) =~= a.0@);
                        assert(b.0@.skip(0) =~= b.0@);
                    }
                    lex_cmp_at(a.0.as_str(), 0, b.0.as_str(), 0) <= 0
                }
            }
        },
    }
}

/// Brings the entries of one children list into the given order by
/// insertion sort: the result is a permutation of the input that stands in
/// order.
fn sort_entries(es: &mut Vec<(String, TreeNode)>, order: SortOrder)
    ensures
        final(es)@.len() == old(es)@.len(),
        final(es)@.to_multiset() == old(es)@.to_multiset(),
        sorted_entries(order, final(es)@),
{
    let mut i: usize = 1;
    while i < es.len()
        invariant
            1 <= i,
            i <= es@.len() || es@.len() < 1,
            es@.len() == old(es)@.len(),
            es@.to_multiset() == old(es)@.to_multiset(),
            forall|k1: int, k2: int|
                0 <= k1 < k2 < i && k2 < es@.len() ==> entry_le(
                    order,
                    #[trigger] es@[k1],
                    #[trigger] es@[k2],
                ),
        decreases es@.len() - i,
    {
        let ghost before = es@;
        let x = es.remove(i);
        let ghost removed = es@;
        let mut j: usize = 0;
        while j < i && entry_le_at(&es[j], &x, order)
            invariant
                j <= i,
                i < before.len(),
                es@ == removed,
                removed == before.remove(i as int),
                x == before[i as int],
                forall|k: int| 0 <= k < j ==> entry_le(order, #[trigger] es@[k], x),
            decreases i - j,
        {
            j = j + 1;
        }
        es.insert(j, x);
        proof {
            broadcast use vstd::seq_lib::group_to_multiset_ensures;
            broadcast use vstd::seq_lib::to_multiset_insert;
            broadcast use vstd::seq_lib::to_multiset_remove;
            broadcast use vstd::multiset::group_multiset_axioms;
            broadcast use lemma_entry_le_total;
            broadcast use lemma_entry_le_trans;

            assert(before[i as int] == x);
            assert(before.contains(x));
            assert(before.to_multiset().count(x) > 0);
            assert(removed.to_multiset() == before.to_multiset().remove(x)) by {
                assert(before.remove(i as int).to_multiset() == before.to_multiset().remove(
                    before[i as int],
                ));
            }
            assert(es@.to_multiset() == removed.to_multiset().insert(x)) by {
                assert(removed.insert(j as int, x).to_multiset() == removed.to_multiset().insert(
                    x,
                ));
            }
            assert(es@.to_multiset() =~= before.to_multiset());
            // The moved entry sits between the entries that may stand before
            // it and those that may not.
            assert forall|k1: int, k2: int|
                0 <= k1 < k2 < i + 1 && k2 < es@.len() implies entry_le(
                order,
                #[trigger] es@[k1],
                #[trigger] es@[k2],
            ) by {
                if j < i {
                    assert(entry_le(order, x, removed[j as int]));
                }
                assert forall|k: int| j <= k < i implies entry_le(order, x, removed[k]) by {
                    if k > j {
                        assert(entry_le(order, removed[j as int], removed[k]));
                    }
                }
                if k2 < j {
                    assert(es@[k1] == removed[k1] && es@[k2] == removed[k2]);
                } else if k2 == j {
                    assert(es@[k2] == x);
                    if k1 < j {
                        assert(es@[k1] == removed[k1]);
                    }
                } else {
                    assert(es@[k2] == removed[k2 - 1]);
                    if k1 < j {
                        assert(es@[k1] == removed[k1]);
                    } else if k1 == j {
                        assert(es@[k1] == x);
                    } else {
                        assert(es@[k1] == removed[k1 - 1]);
                    }
                }
            }
        }
        i = i + 1;
    }
}

/// Whether the entry `e` carries the name of one entry of `acs` with that
/// entry's subtree sorted in turn.
pub open spec fn sorted_from(
    order: SortOrder,
    acs: Seq<(String, TreeNode)>,
    e: (String, TreeNode),
) -> bool
    decreases acs,
{
    exists|j: int|
        0 <= j < acs.len() && (#[trigger] acs[j]).0@ == e.0@ && sort_rel(order, acs[j].1, e.1)
}

/// Whether the name of `e` occurs among the entries of `bcs`.
pub open spec fn name_among(e: (String, TreeNode), bcs: Seq<(String, TreeNode)>) -> bool {
    exists|i: int| 0 <= i < bcs.len() && e.0@ == (#[trigger] bcs[i]).0@
}

/// Law: what sorting leaves behind. The sorted node keeps its leaf flag and
/// as many children as before; its children stand in the given order; each
/// of them carries the name of one former child with that child's subtree
/// sorted in turn; and every former name is still present.
pub open spec fn sort_rel(order: SortOrder, a: TreeNode, b: TreeNode) -> bool
    decreases a,
{
    &&& b.is_leaf == a.is_leaf
    &&& b.children@.len() == a.children@.len()
    &&& sorted_entries(order, b.children@)
    &&& forall|i: int|
        0 <= i < b.children@.len() ==> sorted_from(order, a.children@, #[trigger] b.children@[i])
    &&& forall|j: int|
        0 <= j < a.children@.len() ==> name_among(#[trigger] a.children@[j], b.children@)
}

impl TreeNode {
    /// Reorders every node's children in place, recursively, into the given
    /// order. Well-formedness is kept: names stay pairwise distinct and the
    /// leaf flag still means childlessness.
    pub fn sort(&mut self, order: SortOrder)
        ensures
            sort_rel(order, *old(self), *final(self)),
            trie_wf(old(self)@) ==> trie_wf(final(self)@),
        decreases *old(self),
    {
        let n = self.children.len();
        let mut j: usize = 0;
        while j < n
            invariant
                n == self.children@.len(),
                self.children@.len() == old(self).children@.len(),
                self.is_leaf == old(self).is_leaf,
                j <= n,
                forall|k: int| j <= k < n ==> self.children@[k] == old(self).children@[k],
                forall|k: int|
                    0 <= k < j ==> (#[trigger] self.children@[k]).0 == old(self).children@[k].0
                        && sort_rel(order, old(self).children@[k].1, self.children@[k].1) && (
                    trie_wf(trie_view(old(self).children@[k].1)) ==> trie_wf(
                        trie_view(self.children@[k].1),
                    )),
            decreases n - j,
        {
            proof {
                assert(self.children@[j as int] == old(self).children@[j as int]);
            }
            self.children[j].1.sort(order);
            j = j + 1;
        }
        let ghost mid = *self;
        sort_entries(&mut self.children, order);
        proof {
            broadcast use vstd::seq_lib::group_to_multiset_ensures;

            let a = *old(self);
            let b = *self;
            assert forall|i: int|
                0 <= i < b.children@.len() implies sorted_from(
                order,
                a.children@,
                #[trigger] b.children@[i],
            ) by {
                assert(b.children@.to_multiset().count(b.children@[i]) > 0) by {
                    assert(b.children@.contains(b.children@[i]));
                }
                assert(mid.children@.contains(b.children@[i]));
                let k = choose|k: int|
                    0 <= k < mid.children@.len() && mid.children@[k] == b.children@[i];
                assert(0 <= k < a.children@.len() && a.children@[k].0@ == b.children@[i].0@
                    && sort_rel(order, a.children@[k].1, b.children@[i].1));
                assert(sorted_from(order, a.children@, b.children@[i]));
            }
            assert forall|jj: int|
                0 <= jj < a.children@.len() implies name_among(
                #[trigger] a.children@[jj],
                b.children@,
            ) by {
                assert(mid.children@.to_multiset().count(mid.children@[jj]) > 0) by {
                    assert(mid.children@.contains(mid.children@[jj]));
                }
                assert(b.children@.contains(mid.children@[jj]));
                let i = choose|i: int|
                    0 <= i < b.children@.len() && b.children@[i] == mid.children@[jj];
                assert(0 <= i < b.children@.len() && a.children@[jj].0@ == b.children@[i].0@);
                assert(name_among(a.children@[jj], b.children@));
            }
            assert(sort_rel(order, a, b));
            if trie_wf(a@) {
                lemma_sort_wf(a, mid, b);
            }
        }
    }
}

/// Sorting keeps the trie well formed: with the names of the reordered list
/// a permutation of distinct names, distinctness survives, and so do the
/// children's own invariants.
proof fn lemma_sort_wf(a: TreeNode, mid: TreeNode, b: TreeNode)
    requires
        trie_wf(trie_view(a)),
        mid.is_leaf == a.is_leaf,
        b.is_leaf == a.is_leaf,
        mid.children@.len() == a.children@.len(),
        b.children@.to_multiset() == mid.children@.to_multiset(),
        b.children@.len() == mid.children@.len(),
        forall|k: int|
            0 <= k < mid.children@.len() ==> (#[trigger] mid.children@[k]).0 == a.children@[k].0
                && (trie_wf(trie_view(a.children@[k].1)) ==> trie_wf(
                trie_view(mid.children@[k].1),
            )),
    ensures
        trie_wf(trie_view(b)),
{
    broadcast use vstd::seq_lib::group_to_multiset_ensures;
    broadcast use vstd::multiset::group_multiset_axioms;

    lemma_entries_view(a.children@);
    lemma_entries_view(mid.children@);
    lemma_entries_view(b.children@);
    // Names in `mid` are pairwise distinct, so its entries are too.
    assert forall|k1: int, k2: int|
        0 <= k1 < k2 < mid.children@.len() implies mid.children@[k1].0@
        != mid.children@[k2].0@ by {
        assert(trie_view(a).children[k1].0 == a.children@[k1].0@);
        assert(trie_view(a).children[k2].0 == a.children@[k2].0@);
    }
    assert(mid.children@.no_duplicates()) by {
        assert forall|k1: int, k2: int|
            0 <= k1 < mid.children@.len() && 0 <= k2 < mid.children@.len() && k1
                != k2 implies mid.children@[k1] != mid.children@[k2] by {
            if mid.children@[k1] == mid.children@[k2] {
                assert(mid.children@[k1].0@ == mid.children@[k2].0@);
            }
        }
    }
    mid.children@.lemma_multiset_has_no_duplicates();
    b.children@.lemma_multiset_has_no_duplicates_conv();
    // Two children of `b` with one name would be two entries of `mid` with
    // one name.
    assert forall|i1: int, i2: int|
        0 <= i1 < i2 < b.children@.len() implies b.children@[i1].0@ != b.children@[i2].0@ by {
        if b.children@[i1].0@ == b.children@[i2].0@ {
            assert(b.children@[i1] != b.children@[i2]);
            assert(mid.children@.to_multiset().count(b.children@[i1]) > 0) by {
                assert(b.children@.contains(b.children@[i1]));
            }
            assert(mid.children@.to_multiset().count(b.children@[i2]) > 0) by {
                assert(b.children@.contains(b.children@[i2]));
            }
            assert(mid.children@.contains(b.children@[i1]));
            assert(mid.children@.contains(b.children@[i2]));
            let k1 = choose|k: int|
                0 <= k < mid.children@.len() && mid.children@[k] == b.children@[i1];
            let k2 = choose|k: int|
                0 <= k < mid.children@.len() && mid.children@[k] == b.children@[i2];
            assert(k1 != k2);
            assert(mid.children@[k1].0@ == mid.children@[k2].0@);
        }
    }
    // Each child of `b` is a child of `mid`, which is well formed.
    assert forall|i: int|
        0 <= i < b.children@.len() implies trie_wf(#[trigger] trie_view(b).children[i].1) by {
        assert(b.children@.to_multiset().count(b.children@[i]) > 0) by {
            assert(b.children@.contains(b.children@[i]));
        }
        assert(mid.children@.contains(b.children@[i]));
        let k = choose|k: int|
            0 <= k < mid.children@.len() && mid.children@[k] == b.children@[i];
        assert(trie_wf(trie_view(a).children[k].1));
        assert(trie_view(b).children[i].1 == trie_view(mid.children@[k].1));
    }
    assert(trie_view(b).is_leaf == (trie_view(b).children.len() == 0));
}

} // verus!
