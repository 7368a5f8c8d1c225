//! The depth-first walk that drives the trunk over a trie and collects one
//! row per node.
//!
//! The trunk only ever learns a depth and a last-sibling flag per row, yet
//! the rows it produces are proved equal to a direct description: a row whose
//! ancestors (root excluded) have last-flags `anc` and whose own flag is
//! `last` carries the passing connectors of `anc` followed by its own tip.

use vstd::prelude::*;
use vstd::string::StringExecFns;

use crate::tree::TreeDepth;
use crate::tree::TreeParams;
use crate::tree::TreePart;
use crate::tree::TreeTrunk;
use crate::tree::pipe_part;
use crate::tree::tip_part;
use crate::trie::TreeNode;
use crate::trie::TrieView;
use crate::trie::entries_view;
use crate::trie::lemma_entries_view;
use crate::trie::trie_wf;

verus! {

/// The mathematical value of one rendered row.
#[verifier::ext_equal]
pub struct RowView {
    pub parts: Seq<TreePart>,
    pub name: Seq<char>,
}

/// One rendered row: the connector columns for depths 1 through the node's
/// own depth, and the node's segment name.
pub struct TreeRow {
    /// The connector columns, one per depth from 1 to the node's depth.
    pub parts: Vec<TreePart>,
    /// The segment name of the node.
    pub name: String,
}

impl View for TreeRow {
    type V = RowView;

    open spec fn view(&self) -> RowView {
        RowView { parts: self.parts@, name: self.name@ }
    }
}

impl DeepView for TreeRow {
    type V = RowView;

    open spec fn deep_view(&self) -> RowView {
        self.view()
    }
}

/// The connector columns of a row below ancestors with last-flags `anc`:
/// each ancestor column shows the connector that passes through it, and the
/// row's own column shows its tip.
pub open spec fn spec_row_parts(anc: Seq<bool>, last: bool) -> Seq<TreePart> {
    Seq::new(anc.len(), |k: int| pipe_part(anc[k])).push(tip_part(last))
}

/// The rows of one node: its own row, then the rows of its children in
/// order.
pub open spec fn spec_render_node(
    name: Seq<char>,
    v: TrieView,
    anc: Seq<bool>,
    last: bool,
) -> Seq<RowView>
    decreases v,
{
    seq![RowView { parts: spec_row_parts(anc, last), name }] + spec_render_entries(
        v.children,
        anc.push(last),
    )
}

/// The rows of a children list in order; the final entry is the one rendered
/// as last of its directory.
pub open spec fn spec_render_entries(
    cs: Seq<(Seq<char>, TrieView)>,
    anc: Seq<bool>,
) -> Seq<RowView>
    decreases cs,
{
    if cs.len() == 0 {
        Seq::empty()
    } else {
        spec_render_node(cs[0].0, cs[0].1, anc, cs.len() == 1) + spec_render_entries(
            cs.skip(1),
            anc,
        )
    }
}

proof fn lemma_render_node_columns(name: Seq<char>, v: TrieView, anc: Seq<bool>, last: bool)
    ensures
        forall|r: int|
            0 <= r < spec_render_node(name, v, anc, last).len() ==> (
            #[trigger] spec_render_node(name, v, anc, last)[r]).parts.len() > anc.len(),
    decreases v,
{
    lemma_render_entries_columns(v.children, anc.push(last));
    let rows = spec_render_node(name, v, anc, last);
    let sub = spec_render_entries(v.children, anc.push(last));
    assert forall|r: int| 0 <= r < rows.len() implies (#[trigger] rows[r]).parts.len()
        > anc.len() by {
        if r == 0 {
            assert(rows[0].parts == spec_row_parts(anc, last));
        } else {
            assert(rows[r] == sub[r - 1]);
        }
    }
}

/// Law: no row ever shows a column for the root or for any level above its
/// own ancestors — a row below ancestors with flags `anc` carries more than
/// `anc.len()` columns, so with the walk started at the root's children every
/// row carries at least its own connector and none for the root.
pub proof fn lemma_render_entries_columns(cs: Seq<(Seq<char>, TrieView)>, anc: Seq<bool>)
    ensures
        forall|r: int|
            0 <= r < spec_render_entries(cs, anc).len() ==> (
            #[trigger] spec_render_entries(cs, anc)[r]).parts.len() > anc.len(),
    decreases cs,
{
    if cs.len() > 0 {
        lemma_render_node_columns(cs[0].0, cs[0].1, anc, cs.len() == 1);
        lemma_render_entries_columns(cs.skip(1), anc);
        let rows = spec_render_entries(cs, anc);
        let head = spec_render_node(cs[0].0, cs[0].1, anc, cs.len() == 1);
        let tail = spec_render_entries(cs.skip(1), anc);
        assert forall|r: int| 0 <= r < rows.len() implies (#[trigger] rows[r]).parts.len()
            > anc.len() by {
            if r < head.len() {
                assert(rows[r] == head[r]);
            } else {
                assert(rows[r] == tail[r - head.len()]);
            }
        }
    }
}

/// The glyphs of one connector column, as characters.
pub open spec fn spec_part_art(p: TreePart) -> Seq<char> {
    match p {
        TreePart::Edge => "├──"@,
        TreePart::Line => "│   "@,
        TreePart::Corner => "└──"@,
        TreePart::Blank => "    "@,
    }
}

/// The glyph prefix of a whole row: its columns' glyphs in order.
pub open spec fn spec_prefix(parts: Seq<TreePart>) -> Seq<char>
    decreases parts.len(),
{
    if parts.len() == 0 {
        Seq::empty()
    } else {
        spec_part_art(parts[0]) + spec_prefix(parts.skip(1))
    }
}

/// Turns a row's connector columns into the box-drawing prefix printed
/// before the node's name.
pub fn prefix_string(parts: &Vec<TreePart>) -> (s: String)
    ensures
        s@ == spec_prefix(parts@),
{
    let mut s = String::new();
    let mut i: usize = 0;
    proof {
        assert(parts@.skip(0) =~= parts@);
        assert(s@ + spec_prefix(parts@) =~= spec_prefix(parts@));
    }
    while i < parts.len()
        invariant
            i <= parts@.len(),
            spec_prefix(parts@) == s@ + spec_prefix(parts@.skip(i as int)),
        decreases parts@.len() - i,
    {
        let art = parts[i].ascii_art();
        s.append(art);
        proof {
            assert(parts@.skip(i as int)[0] == parts@[i as int]);
            assert(parts@.skip(i as int).skip(1) =~= parts@.skip(i + 1));
            assert(spec_part_art(parts@[i as int]) == art@);
            assert(s@ + spec_prefix(parts@.skip(i + 1)) =~= spec_prefix(parts@));
        }
        i = i + 1;
    }
    proof {
        assert(spec_prefix(parts@.skip(parts@.len() as int)) == Seq::<char>::empty());
        assert(spec_prefix(parts@) =~= s@);
    }
    s
}

/// How many levels of nodes hang below a children list.
pub open spec fn entries_height(cs: Seq<(Seq<char>, TrieView)>) -> nat
    decreases cs,
{
    if cs.len() == 0 {
        0
    } else {
        let h0 = 1 + entries_height(cs[0].1.children);
        let h1 = entries_height(cs.skip(1));
        if h0 >= h1 {
            h0
        } else {
            h1
        }
    }
}

proof fn lemma_entries_height(cs: Seq<(Seq<char>, TrieView)>)
    ensures
        forall|k: int|
            0 <= k < cs.len() ==> 1 + entries_height(#[trigger] cs[k].1.children)
                <= entries_height(cs),
    decreases cs,
{
    if cs.len() > 0 {
        lemma_entries_height(cs.skip(1));
        assert forall|k: int|
            0 <= k < cs.len() implies 1 + entries_height(#[trigger] cs[k].1.children)
            <= entries_height(cs) by {
            if k > 0 {
                assert(cs.skip(1)[k - 1] == cs[k]);
            }
        }
    }
}

/// Every child of a well-formed children list is well formed.
pub open spec fn entries_wf(cs: Seq<(Seq<char>, TrieView)>) -> bool {
    forall|k: int| 0 <= k < cs.len() ==> trie_wf(#[trigger] cs[k].1)
}

/// Renders the entries of one children list from index `j` on, at the given
/// depth, below ancestors with last-flags `anc`.
fn render_entries(
    children: &Vec<(String, TreeNode)>,
    j: usize,
    depth: usize,
    trunk: &mut TreeTrunk,
    out: &mut Vec<TreeRow>,
    Ghost(anc): Ghost<Seq<bool>>,
)
    requires
        j <= children@.len(),
        1 <= depth,
        anc.len() + 1 == depth,
        entries_wf(entries_view(children@)),
        depth + entries_height(entries_view(children@)) <= usize::MAX,
        old(trunk).wf(),
        1 < depth ==> depth <= old(trunk).effective().len(),
        forall|c: int|
            1 <= c < depth ==> #[trigger] old(trunk).effective()[c] == pipe_part(anc[c - 1]),
    ensures
        final(trunk).wf(),
        final(trunk).effective().len() >= old(trunk).effective().len(),
        forall|c: int|
            1 <= c < depth ==> #[trigger] final(trunk).effective()[c]
                == old(trunk).effective()[c],
        final(out).deep_view() == old(out).deep_view() + spec_render_entries(
            entries_view(children@).skip(j as int),
            anc,
        ),
    decreases children, children@.len() - j,
{
    proof {
        lemma_entries_view(children@);
    }
    let ghost cs = entries_view(children@);
    if j == children.len() {
        proof {
            assert(cs.skip(j as int).len() == 0);
            assert(final(out).deep_view() =~= old(out).deep_view() + spec_render_entries(
                cs.skip(j as int),
                anc,
            ));
        }
        return ;
    }
    let ghost trunk0 = *trunk;
    let ghost out0 = *out;
    proof {
        lemma_entries_height(cs);
    }
    let is_last = j + 1 == children.len();
    let params = TreeParams::new(TreeDepth(depth), is_last);
    let row_parts = trunk.new_row(params);
    proof {
        let e0 = trunk0.effective();
        let g = crate::tree::grown(e0, depth + 1);
        let stack1 = trunk.stack@;
        assert(stack1 == g.update(depth as int, tip_part(is_last)));
        assert(g.len() >= depth + 1);
        assert(stack1.len() >= depth + 1);
        assert forall|c: int| 1 <= c < depth implies stack1[c] == e0[c] by {
            assert(c < e0.len());
            assert(g[c] == e0[c]);
        }
        assert(row_parts@ =~= spec_row_parts(anc, is_last)) by {
            assert forall|c: int| 0 <= c < depth implies row_parts@[c] == spec_row_parts(
                anc,
                is_last,
            )[c] by {
                assert(row_parts@[c] == stack1[c + 1]);
                if c + 1 < depth {
                    assert(stack1[c + 1] == e0[c + 1]);
                    assert(e0[c + 1] == pipe_part(anc[c]));
                } else {
                    assert(stack1[depth as int] == tip_part(is_last));
                }
            }
        }
        // After this row, the effective stack agrees with `anc.push(is_last)`
        // on columns 1 through `depth`, and columns below `depth` are as
        // they were.
        let e1 = trunk.effective();
        assert(e1 == stack1.update(depth as int, pipe_part(is_last)));
        assert(e1.len() == stack1.len());
        assert(e1.len() >= depth + 1);
        assert(e1.len() >= e0.len());
        assert forall|c: int|
            1 <= c < depth + 1 implies #[trigger] e1[c] == pipe_part(
            anc.push(is_last)[c - 1],
        ) by {
            if c < depth {
                assert(e1[c] == stack1[c]);
                assert(stack1[c] == e0[c]);
                assert(e0[c] == pipe_part(anc[c - 1]));
                assert(anc.push(is_last)[c - 1] == anc[c - 1]);
            } else {
                assert(e1[depth as int] == pipe_part(is_last));
                assert(anc.push(is_last)[c - 1] == is_last);
            }
        }
        assert forall|c: int| 1 <= c < depth implies #[trigger] e1[c] == e0[c] by {
            assert(e1[c] == stack1[c]);
            assert(stack1[c] == e0[c]);
        }
    }
    let name = children[j].0.clone();
    out.push(TreeRow { parts: row_parts, name });
    let ghost out1 = *out;
    proof {
        assert(out1.deep_view() =~= out0.deep_view() + seq![
            RowView { parts: spec_row_parts(anc, is_last), name: cs[j as int].0 },
        ]);
    }
    let ghost trunk1 = *trunk;
    if !children[j].1.is_leaf {
        proof {
            assert(trie_wf(cs[j as int].1));
            assert(cs[j as int].1.children == entries_view(children@[j as int].1.children@));
        }
        render_entries(
            &children[j].1.children,
            0,
            depth + 1,
            trunk,
            out,
            Ghost(anc.push(is_last)),
        );
        proof {
            let sub = entries_view(children@[j as int].1.children@);
            assert(sub.skip(0) =~= sub);
        }
    } else {
        proof {
            assert(trie_wf(cs[j as int].1));
            assert(cs[j as int].1.children.len() == 0);
        }
    }
    proof {
        // The node's rows are in place, and columns 1 through `depth` of the
        // effective stack still agree with `anc`.
        assert(out.deep_view() =~= out0.deep_view() + spec_render_node(
            cs[j as int].0,
            cs[j as int].1,
            anc,
            is_last,
        ));
        assert forall|c: int|
            1 <= c < depth implies #[trigger] trunk.effective()[c] == trunk0.effective()[c] by {
            assert(trunk.effective()[c] == trunk1.effective()[c]);
            assert(trunk1.effective()[c] == trunk0.effective()[c]);
        }
    }
    let ghost trunk2 = *trunk;
    let ghost out2 = *out;
    render_entries(children, j + 1, depth, trunk, out, Ghost(anc));
    proof {
        assert forall|c: int|
            1 <= c < depth implies #[trigger] trunk.effective()[c] == trunk0.effective()[c] by {
            assert(trunk.effective()[c] == trunk2.effective()[c]);
            assert(trunk2.effective()[c] == trunk0.effective()[c]);
        }
        assert(cs.skip(j as int)[0] == cs[j as int]);
        assert(cs.skip(j as int).len() == cs.len() - j);
        assert(cs.skip(j as int).skip(1) =~= cs.skip(j + 1));
        assert(spec_render_entries(cs.skip(j as int), anc) == spec_render_node(
            cs[j as int].0,
            cs[j as int].1,
            anc,
            is_last,
        ) + spec_render_entries(cs.skip(j + 1), anc));
        assert(out.deep_view() =~= out0.deep_view() + spec_render_entries(
            cs.skip(j as int),
            anc,
        ));
    }
}

/// Renders a whole trie: one row per node, in depth-first pre-order, with
/// the children of the root at depth 1. The root itself contributes no row
/// and no connector column.
pub fn render_tree(root: &TreeNode) -> (rows: Vec<TreeRow>)
    requires
        trie_wf(root@),
        1 + entries_height(root@.children) <= usize::MAX,
    ensures
        rows.deep_view() == spec_render_entries(root@.children, Seq::empty()),
{
    let mut trunk = TreeTrunk::new();
    let mut rows: Vec<TreeRow> = Vec::new();
    proof {
        lemma_entries_view(root.children@);
        assert(root@.children == entries_view(root.children@));
    }
    render_entries(&root.children, 0, 1, &mut trunk, &mut rows, Ghost(Seq::empty()));
    proof {
        assert(root@.children.skip(0) =~= root@.children);
        assert(rows.deep_view() =~= spec_render_entries(root@.children, Seq::empty()));
    }
    rows
}

} // verus!
