//! The ordered prefix trie that slash-delimited paths are inserted into.
//!
//! Each node owns its children as an insertion-ordered association list keyed
//! by segment name; order is significant, as it determines the default render
//! order. A node is a leaf exactly as long as it has no children.

use vstd::prelude::*;

verus! {

/// The mathematical value of a trie node: the ordered children as a sequence
/// of (segment name, subtree) pairs, and the leaf flag.
#[verifier::ext_equal]
pub struct TrieView {
    pub children: Seq<(Seq<char>, TrieView)>,
    pub is_leaf: bool,
}

/// The value of a node with no children.
pub open spec fn leaf_view() -> TrieView {
    TrieView { children: Seq::empty(), is_leaf: true }
}

/// A trie node is well formed when it is a leaf exactly if it has no
/// children, its children's segment names are pairwise distinct, and every
/// child is well formed in turn.
pub open spec fn trie_wf(v: TrieView) -> bool
    decreases v,
{
    &&& v.is_leaf == (v.children.len() == 0)
    &&& forall|i: int, j: int|
        0 <= i < j < v.children.len() ==> v.children[i].0 != v.children[j].0
    &&& forall|i: int| 0 <= i < v.children.len() ==> trie_wf(#[trigger] v.children[i].1)
}

/// The chain of nodes that a fresh suffix of segments expands to, ending in
/// a leaf.
pub open spec fn spec_chain(parts: Seq<Seq<char>>) -> TrieView
    decreases parts.len(),
{
    if parts.len() == 0 {
        leaf_view()
    } else {
        TrieView { children: seq![(parts[0], spec_chain(parts.skip(1)))], is_leaf: false }
    }
}

/// The index of the first child with the given segment name, or -1 when no
/// child carries it.
pub open spec fn find_child(cs: Seq<(Seq<char>, TrieView)>, name: Seq<char>) -> int
    decreases cs.len(),
{
    if cs.len() == 0 {
        -1
    } else if cs[0].0 == name {
        0
    } else {
        let r = find_child(cs.skip(1), name);
        if r == -1 {
            -1
        } else {
            r + 1
        }
    }
}

pub proof fn lemma_find_child(cs: Seq<(Seq<char>, TrieView)>, name: Seq<char>)
    ensures
        find_child(cs, name) == -1 ==> forall|k: int|
            0 <= k < cs.len() ==> cs[k].0 != name,
        find_child(cs, name) != -1 ==> {
            &&& 0 <= find_child(cs, name) < cs.len()
            &&& cs[find_child(cs, name)].0 == name
            &&& forall|k: int| 0 <= k < find_child(cs, name) ==> cs[k].0 != name
        },
    decreases cs.len(),
{
    if cs.len() > 0 && cs[0].0 != name {
        lemma_find_child(cs.skip(1), name);
        let rest = cs.skip(1);
        let r = find_child(rest, name);
        if r == -1 {
            assert forall|k: int| 0 <= k < cs.len() implies cs[k].0 != name by {
                if k > 0 {
                    assert(rest[k - 1] == cs[k]);
                }
            }
        } else {
            assert(rest[r] == cs[r + 1]);
            assert forall|k: int| 0 <= k < r + 1 implies cs[k].0 != name by {
                if k > 0 {
                    assert(rest[k - 1] == cs[k]);
                }
            }
        }
    }
}

/// When a name stands at `j` and nowhere before it, `j` is where the lookup
/// lands.
pub proof fn lemma_find_child_at(cs: Seq<(Seq<char>, TrieView)>, name: Seq<char>, j: int)
    requires
        0 <= j < cs.len(),
        cs[j].0 == name,
        forall|k: int| 0 <= k < j ==> cs[k].0 != name,
    ensures
        find_child(cs, name) == j,
{
    lemma_find_child(cs, name);
    let r = find_child(cs, name);
    if r == -1 {
        assert(cs[j].0 != name);
        assert(false);
    } else if r < j {
        assert(cs[r].0 != name);
        assert(false);
    } else if r > j {
        assert(cs[j].0 != name);
        assert(false);
    }
}

/// The trie after one sequence of segments has been inserted: each segment in
/// turn marks the current node as no leaf and descends into the child that
/// carries it, appending a fresh chain once no such child exists. An empty
/// sequence leaves the node untouched.
pub open spec fn spec_add_path(v: TrieView, parts: Seq<Seq<char>>) -> TrieView
    decreases parts.len(),
{
    if parts.len() == 0 {
        v
    } else {
        let name = parts[0];
        let rest = parts.skip(1);
        let i = find_child(v.children, name);
        if i != -1 {
            TrieView {
                children: v.children.update(
                    i,
                    (name, spec_add_path(v.children[i].1, rest)),
                ),
                is_leaf: false,
            }
        } else {
            TrieView { children: v.children.push((name, spec_chain(rest))), is_leaf: false }
        }
    }
}

/// A node in the trie. Each node owns an insertion-ordered collection of
/// children keyed by segment name, and records whether it is a leaf.
pub struct TreeNode {
    /// The children of this node, in insertion order.
    pub children: Vec<(String, TreeNode)>,
    /// Whether this node is a leaf (has no children).
    pub is_leaf: bool,
}

/// The values of a whole children list.
pub open spec fn entries_view(es: Seq<(String, TreeNode)>) -> Seq<(Seq<char>, TrieView)>
    decreases es,
{
    if es.len() == 0 {
        Seq::empty()
    } else {
        seq![(es[0].0@, trie_view(es[0].1))] + entries_view(es.skip(1))
    }
}

/// The mathematical value of a node.
pub open spec fn trie_view(t: TreeNode) -> TrieView
    decreases t,
{
    TrieView { children: entries_view(t.children@), is_leaf: t.is_leaf }
}

impl View for TreeNode {
    type V = TrieView;

    open spec fn view(&self) -> TrieView {
        trie_view(*self)
    }
}

pub broadcast proof fn lemma_entries_view(es: Seq<(String, TreeNode)>)
    ensures
        (#[trigger] entries_view(es)).len() == es.len(),
        forall|i: int|
            0 <= i < es.len() ==> entries_view(es)[i] == (es[i].0@, trie_view(es[i].1)),
    decreases es.len(),
{
    if es.len() > 0 {
        lemma_entries_view(es.skip(1));
    }
}

impl TreeNode {
    /// Creates a new node with no children.
    pub fn new() -> (t: Self)
        ensures
            t@ == leaf_view(),
    {
        let t = TreeNode { children: Vec::new(), is_leaf: true };
        proof {
            assert(t@ =~= leaf_view());
        }
        t
    }

    /// Builds the chain of nodes for the segments from `i` on, ending in a
    /// leaf.
    fn make_chain(parts: &Vec<String>, i: usize) -> (t: TreeNode)
        requires
            i <= parts.len(),
        ensures
            t@ == spec_chain(parts.deep_view().skip(i as int)),
        decreases parts.len() - i,
    {
        if i == parts.len() {
            let t = TreeNode::new();
            proof {
                assert(t@ =~= spec_chain(parts.deep_view().skip(i as int)));
            }
            t
        } else {
            let sub = TreeNode::make_chain(parts, i + 1);
            let mut children: Vec<(String, TreeNode)> = Vec::new();
            children.push((parts[i].clone(), sub));
            let t = TreeNode { children, is_leaf: false };
            proof {
                broadcast use lemma_entries_view;

                let ps = parts.deep_view().skip(i as int);
                assert(parts.deep_view()[i as int] == parts@[i as int]@);
                assert(ps[0] == parts.deep_view()[i as int]);
                assert(ps.skip(1) =~= parts.deep_view().skip(i + 1));
                assert(entries_view(t.children@).len() == 1);
                assert(entries_view(t.children@)[0] == (
                    t.children@[0].0@,
                    trie_view(t.children@[0].1),
                ));
                assert(t.children@[0].0@ == ps[0]);
                assert(trie_view(t.children@[0].1) == spec_chain(ps.skip(1)));
                assert(t@.children =~= spec_chain(ps).children);
                assert(t@ =~= spec_chain(ps));
            }
            t
        }
    }

    /// Inserts the segments from `i` on below this node.
    fn add_path_from(&mut self, parts: &Vec<String>, i: usize)
        requires
            i <= parts.len(),
        ensures
            final(self)@ == spec_add_path(old(self)@, parts.deep_view().skip(i as int)),
        decreases parts.len() - i,
    {
        if i == parts.len() {
            proof {
                assert(parts.deep_view().skip(i as int).len() == 0);
            }
            return ;
        }
        self.is_leaf = false;
        let ghost pre = *self;
        let n = self.children.len();
        let mut j: usize = 0;
        let mut found = false;
        while j < n && !found
            invariant
                n == self.children@.len(),
                *self == pre,
                j <= n,
                i < parts@.len(),
                found ==> j < n && self.children@[j as int].0@ == parts@[i as int]@,
                forall|k: int| 0 <= k < j ==> self.children@[k].0@ != parts@[i as int]@,
            decreases n - j + (if found { 0int } else { 1int }),
        {
            if self.children[j].0 == parts[i] {
                found = true;
            } else {
                j = j + 1;
            }
        }
        proof {
            lemma_entries_view(pre.children@);
            assert(pre@.children == entries_view(pre.children@));
            assert(pre@.children.len() == pre.children@.len());
            let name = parts.deep_view()[i as int];
            assert(name == parts@[i as int]@);
            lemma_find_child(pre@.children, name);
            let r = find_child(pre@.children, name);
            assert(forall|k: int|
                0 <= k < pre.children@.len() ==> pre@.children[k]
                    == (pre.children@[k].0@, trie_view(pre.children@[k].1)));
            if found {
                assert(pre@.children[j as int].0 == name);
                if r == -1 {
                    assert(false);
                } else if r < j {
                    assert(pre@.children[r].0 != name);
                    assert(false);
                } else if r > j {
                    assert(pre@.children[j as int].0 != name);
                    assert(false);
                }
                assert(r == j);
            } else {
                if r != -1 {
                    assert(pre@.children[r].0 != name);
                    assert(false);
                }
                assert(r == -1);
            }
        }
        if found {
            self.children[j].1.add_path_from(parts, i + 1);
            proof {
                broadcast use lemma_entries_view;

                let ps = parts.deep_view().skip(i as int);
                let name = parts.deep_view()[i as int];
                assert(name == parts@[i as int]@);
                assert(ps[0] == name);
                assert(ps.skip(1) =~= parts.deep_view().skip(i + 1));
                assert(find_child(pre@.children, name) == j);
                assert(self.children@ == pre.children@.update(
                    j as int,
                    (pre.children@[j as int].0, self.children@[j as int].1),
                ));
                assert(entries_view(self.children@) =~= pre@.children.update(
                    j as int,
                    (name, spec_add_path(pre@.children[j as int].1, ps.skip(1))),
                ));
                assert(self@ =~= spec_add_path(old(self)@, ps));
            }
        } else {
            let chain = TreeNode::make_chain(parts, i + 1);
            self.children.push((parts[i].clone(), chain));
            proof {
                broadcast use lemma_entries_view;

                let ps = parts.deep_view().skip(i as int);
                let name = parts.deep_view()[i as int];
                assert(name == parts@[i as int]@);
                assert(ps[0] == name);
                assert(ps.skip(1) =~= parts.deep_view().skip(i + 1));
                assert(find_child(pre@.children, name) == -1);
                assert(entries_view(self.children@) =~= pre@.children.push(
                    (name, spec_chain(ps.skip(1))),
                ));
                assert(self@ =~= spec_add_path(old(self)@, ps));
            }
        }
    }

    /// Adds a path to the tree structure.
    ///
    /// Each segment in turn is added as a node below the previous one; a
    /// segment that already exists is reused rather than duplicated. An empty
    /// sequence of segments leaves the node untouched.
    pub fn add_path(&mut self, parts: &Vec<String>)
        ensures
            final(self)@ == spec_add_path(old(self)@, parts.deep_view()),
            trie_wf(old(self)@) ==> trie_wf(final(self)@),
    {
        self.add_path_from(parts, 0);
        proof {
            assert(parts.deep_view().skip(0) =~= parts.deep_view());
            if trie_wf(old(self)@) {
                lemma_add_path_wf(old(self)@, parts.deep_view());
            }
        }
    }
}

/// The segment names of a node's children, in order.
pub open spec fn child_names(v: TrieView) -> Seq<Seq<char>> {
    Seq::new(v.children.len(), |k: int| v.children[k].0)
}

proof fn lemma_chain_wf(parts: Seq<Seq<char>>)
    ensures
        trie_wf(spec_chain(parts)),
    decreases parts.len(),
{
    if parts.len() > 0 {
        lemma_chain_wf(parts.skip(1));
    }
}

/// Law: every insertion preserves well-formedness — in particular, each node
/// is a leaf exactly when it has no children, and sibling names stay
/// pairwise distinct.
pub proof fn lemma_add_path_wf(v: TrieView, parts: Seq<Seq<char>>)
    requires
        trie_wf(v),
    ensures
        trie_wf(spec_add_path(v, parts)),
    decreases parts.len(),
{
    if parts.len() > 0 {
        let name = parts[0];
        let rest = parts.skip(1);
        let i = find_child(v.children, name);
        lemma_find_child(v.children, name);
        let w = spec_add_path(v, parts);
        if i != -1 {
            lemma_add_path_wf(v.children[i].1, rest);
            assert(w.children.len() == v.children.len());
            assert(forall|k: int| 0 <= k < w.children.len() ==> w.children[k].0 == v.children[k].0);
            assert forall|k: int| 0 <= k < w.children.len() implies trie_wf(
                #[trigger] w.children[k].1,
            ) by {
                if k != i {
                    assert(w.children[k].1 == v.children[k].1);
                }
            }
        } else {
            lemma_chain_wf(rest);
            let n = v.children.len() as int;
            assert forall|k: int| 0 <= k < w.children.len() implies trie_wf(
                #[trigger] w.children[k].1,
            ) by {
                if k < n {
                    assert(w.children[k].1 == v.children[k].1);
                }
            }
            assert forall|k1: int, k2: int|
                0 <= k1 < k2 < w.children.len() implies w.children[k1].0 != w.children[k2].0 by {
                if k2 == n {
                    assert(w.children[k1].0 == v.children[k1].0);
                }
            }
        }
    }
}

proof fn lemma_add_chain(parts: Seq<Seq<char>>)
    ensures
        spec_add_path(spec_chain(parts), parts) == spec_chain(parts),
    decreases parts.len(),
{
    if parts.len() > 0 {
        let rest = parts.skip(1);
        lemma_add_chain(rest);
        let v = spec_chain(parts);
        assert(v.children[0].0 == parts[0]);
        assert(find_child(v.children, parts[0]) == 0);
        assert(spec_add_path(v, parts).children =~= v.children);
        assert(spec_add_path(v, parts) =~= v);
    }
}

/// Law: insertion is idempotent — inserting the same sequence of segments a
/// second time leaves the trie exactly as the first insertion left it.
pub proof fn lemma_add_path_idempotent(v: TrieView, parts: Seq<Seq<char>>)
    ensures
        spec_add_path(spec_add_path(v, parts), parts) == spec_add_path(v, parts),
    decreases parts.len(),
{
    if parts.len() > 0 {
        let name = parts[0];
        let rest = parts.skip(1);
        let i = find_child(v.children, name);
        lemma_find_child(v.children, name);
        let w = spec_add_path(v, parts);
        if i != -1 {
            lemma_add_path_idempotent(v.children[i].1, rest);
            assert(w.children[i].0 == name);
            assert forall|k: int| 0 <= k < i implies w.children[k].0 != name by {
                assert(w.children[k].0 == v.children[k].0);
            }
            lemma_find_child_at(w.children, name, i);
            assert(w.children[i].1 == spec_add_path(v.children[i].1, rest));
            assert(spec_add_path(w, parts).children =~= w.children);
            assert(spec_add_path(w, parts) =~= w);
        } else {
            lemma_add_chain(rest);
            let n = v.children.len() as int;
            assert(w.children[n].0 == name);
            assert forall|k: int| 0 <= k < n implies w.children[k].0 != name by {
                assert(w.children[k].0 == v.children[k].0);
            }
            lemma_find_child_at(w.children, name, n);
            assert(w.children[n].1 == spec_chain(rest));
            assert(spec_add_path(w, parts).children =~= w.children);
            assert(spec_add_path(w, parts) =~= w);
        }
    }
}

/// Law: insertion keeps the existing siblings of the entered node in their
/// order; a segment already present leaves the name list untouched, and a
/// fresh segment is appended at the end and nowhere else.
pub proof fn lemma_add_path_sibling_order(v: TrieView, parts: Seq<Seq<char>>)
    ensures
        parts.len() == 0 ==> spec_add_path(v, parts) == v,
        parts.len() != 0 && find_child(v.children, parts[0]) != -1 ==> child_names(
            spec_add_path(v, parts),
        ) == child_names(v),
        parts.len() != 0 && find_child(v.children, parts[0]) == -1 ==> child_names(
            spec_add_path(v, parts),
        ) == child_names(v).push(parts[0]),
{
    if parts.len() != 0 {
        let i = find_child(v.children, parts[0]);
        lemma_find_child(v.children, parts[0]);
        if i != -1 {
            assert(child_names(spec_add_path(v, parts)) =~= child_names(v));
        } else {
            assert(child_names(spec_add_path(v, parts)) =~= child_names(v).push(parts[0]));
        }
    }
}

impl Default for TreeNode {
    /// Creates a new node with no children.
    fn default() -> (t: Self)
        ensures
            t@ == leaf_view(),
    {
        Self::new()
    }
}

} // verus!
