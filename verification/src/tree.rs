//! Parse trees, their text and their structured form.

use crate::ctx::Token;
use crate::sequences::concat;
use crate::sequences::lemma_concat_take;
use vstd::prelude::*;
use vstd::string::StringExecFns;

verus! {

/// One entry of the right-hand side of a parse tree.
#[derive(Debug, PartialEq, Eq)]
pub enum ParseTreeNode<'t, 'g, T: Token> {
    /// A token that matched a terminal.
    Terminal(&'t T),
    /// The derivation of a nonterminal.
    Nonterminal(ParseTree<'t, 'g, T>),
    /// The place of an optional term that was left out.
    Elided,
}

/// One derivation: a nonterminal and what each term of the chosen
/// alternative derived. The tokens and the name stay with their owners.
#[derive(Debug, PartialEq, Eq)]
pub struct ParseTree<'t, 'g, T: Token> {
    pub lhs: &'g String,
    pub rhs: Vec<ParseTreeNode<'t, 'g, T>>,
}

/// The mathematical value of a `ParseTreeNode`.
pub ghost enum NodeView<T> {
    Terminal(T),
    Nonterminal(TreeView<T>),
    Elided,
}

/// The mathematical value of a `ParseTree`.
pub ghost struct TreeView<T> {
    pub lhs: Seq<char>,
    pub rhs: Seq<NodeView<T>>,
}

/// The value of a node.
pub open spec fn node_view<T: Token>(node: ParseTreeNode<T>) -> NodeView<T>
    decreases node,
{
    match node {
        ParseTreeNode::Terminal(token) => NodeView::Terminal(*token),
        ParseTreeNode::Nonterminal(tree) => NodeView::Nonterminal(tree_view(tree)),
        ParseTreeNode::Elided => NodeView::Elided,
    }
}

/// The value of a tree.
pub open spec fn tree_view<T: Token>(tree: ParseTree<T>) -> TreeView<T>
    decreases tree,
{
    TreeView {
        lhs: tree.lhs@,
        rhs: Seq::new(
            tree.rhs@.len(),
            |i: int|
                if 0 <= i < tree.rhs@.len() {
                    node_view(tree.rhs@[i])
                } else {
                    NodeView::Elided
                },
        ),
    }
}

impl<'t, 'g, T: Token> View for ParseTreeNode<'t, 'g, T> {
    type V = NodeView<T>;

    open spec fn view(&self) -> NodeView<T> {
        node_view(*self)
    }
}

impl<'t, 'g, T: Token> View for ParseTree<'t, 'g, T> {
    type V = TreeView<T>;

    open spec fn view(&self) -> TreeView<T> {
        tree_view(*self)
    }
}

/// The values of the nodes, in the same order.
pub open spec fn node_views<T: Token>(nodes: Seq<ParseTreeNode<T>>) -> Seq<NodeView<T>> {
    nodes.map_values(|n: ParseTreeNode<T>| n@)
}

/// The value of a tree holds the values of its nodes.
pub proof fn lemma_tree_view<T: Token>(tree: ParseTree<T>)
    ensures
        tree@ == (TreeView { lhs: tree.lhs@, rhs: node_views(tree.rhs@) }),
{
    assert(tree@.rhs =~= node_views(tree.rhs@));
}

impl<'t, 'g, T: Token> Clone for ParseTreeNode<'t, 'g, T> {
    fn clone(&self) -> (r: Self)
        ensures
            r@ == self@,
        decreases self,
    {
        match self {
            ParseTreeNode::Terminal(token) => ParseTreeNode::Terminal(*token),
            ParseTreeNode::Nonterminal(tree) => ParseTreeNode::Nonterminal(tree.clone()),
            ParseTreeNode::Elided => ParseTreeNode::Elided,
        }
    }
}

impl<'t, 'g, T: Token> Clone for ParseTree<'t, 'g, T> {
    fn clone(&self) -> (r: Self)
        ensures
            r@ == self@,
        decreases self,
    {
        let mut rhs: Vec<ParseTreeNode<'t, 'g, T>> = Vec::new();
        let mut i: usize = 0;
        while i < self.rhs.len()
            invariant
                i <= self.rhs.len(),
                node_views(rhs@) =~= node_views(self.rhs@).take(i as int),
            decreases self.rhs.len() - i,
        {
            let node = self.rhs[i].clone();
            let ghost before = rhs@;
            rhs.push(node);
            assert(node_views(rhs@) =~= node_views(before).push(node@));
            i += 1;
        }
        let r = ParseTree { lhs: self.lhs, rhs };
        proof {
            lemma_tree_view(r);
            lemma_tree_view(*self);
            assert(node_views(self.rhs@).take(self.rhs.len() as int) =~= node_views(self.rhs@));
        }
        r
    }
}

/// The marker that stands before a line at depth `level`: one backquote per
/// level.
pub open spec fn tab_text(level: nat) -> Seq<char>
    decreases level,
{
    if level == 0 {
        Seq::empty()
    } else {
        tab_text((level - 1) as nat) + "`"@
    }
}

/// The lines that a node prints at depth `level`: a token's text on one
/// line, the lines of a nonterminal's tree, nothing for an elided term.
pub open spec fn node_text<T: Token>(node: NodeView<T>, level: nat) -> Seq<char>
    decreases node, 2int,
{
    match node {
        NodeView::Terminal(token) => tab_text(level) + token.text_view() + "\n"@,
        NodeView::Nonterminal(tree) => tree_text(tree, level),
        NodeView::Elided => Seq::empty(),
    }
}

/// The lines that a tree prints at depth `level`: its name on one line,
/// then the lines of its nodes one level deeper.
pub open spec fn tree_text<T: Token>(tree: TreeView<T>, level: nat) -> Seq<char>
    decreases tree, 1int,
{
    tab_text(level) + tree.lhs + "\n"@ + concat(node_texts(tree, level + 1))
}

/// The lines that each node of `tree` prints at depth `level`.
pub open spec fn node_texts<T: Token>(tree: TreeView<T>, level: nat) -> Seq<Seq<char>>
    decreases tree, 0int,
{
    Seq::new(
        tree.rhs.len(),
        |i: int|
            if 0 <= i < tree.rhs.len() {
                node_text(tree.rhs[i], level)
            } else {
                Seq::empty()
            },
    )
}

/// The marker for depth `level`.
fn tab(level: usize) -> (text: String)
    ensures
        text@ == tab_text(level as nat),
{
    let mut text = String::new();
    let mut i: usize = 0;
    while i < level
        invariant
            i <= level,
            text@ == tab_text(i as nat),
        decreases level - i,
    {
        text.append("`");
        i += 1;
    }
    text
}

/// Appends to `out` the lines that `node` prints at the depth whose marker
/// is `tab`.
fn format_node_at<T: Token>(
    node: &ParseTreeNode<T>,
    out: &mut String,
    tab: &str,
    Ghost(level): Ghost<nat>,
)
    requires
        tab@ == tab_text(level),
    ensures
        final(out)@ == old(out)@ + node_text(node@, level),
    decreases node,
{
    match node {
        ParseTreeNode::Terminal(terminal) => {
            out.append(tab);
            let text = terminal.to_text();
            out.append(text.as_str());
            out.append("\n");
            assert(out@ =~= old(out)@ + node_text(node@, level));
        },
        ParseTreeNode::Nonterminal(nonterminal) => {
            format_tree_at(nonterminal, out, tab, Ghost(level));
        },
        ParseTreeNode::Elided => {
            assert(out@ =~= old(out)@ + node_text(node@, level));
        },
    }
}

/// Appends to `out` the lines that `tree` prints at the depth whose marker
/// is `tab`.
fn format_tree_at<T: Token>(
    tree: &ParseTree<T>,
    out: &mut String,
    tab: &str,
    Ghost(level): Ghost<nat>,
)
    requires
        tab@ == tab_text(level),
    ensures
        final(out)@ == old(out)@ + tree_text(tree@, level),
    decreases tree,
{
    let ghost parts = node_texts(tree@, level + 1);
    out.append(tab);
    out.append(tree.lhs.as_str());
    out.append("\n");
    let mut deeper = String::from_str(tab);
    deeper.append("`");
    let ghost head = out@;
    let mut i: usize = 0;
    assert(out@ =~= head + concat(parts.take(0)));
    while i < tree.rhs.len()
        invariant
            i <= tree.rhs.len(),
            tree@.rhs.len() == tree.rhs@.len(),
            deeper@ == tab_text(level + 1),
            parts == node_texts(tree@, level + 1),
            out@ == head + concat(parts.take(i as int)),
        decreases tree.rhs.len() - i,
    {
        proof {
            lemma_concat_take(parts, i as int);
        }
        format_node_at(&tree.rhs[i], out, deeper.as_str(), Ghost(level + 1));
        assert(out@ =~= head + concat(parts.take(i + 1)));
        i += 1;
    }
    assert(parts.take(tree.rhs.len() as int) =~= parts);
    assert(head =~= old(out)@ + tab_text(level) + tree@.lhs + "\n"@);
    assert(out@ =~= old(out)@ + tree_text(tree@, level));
}

/// Appends to `out` the lines that `node` prints at depth `level`.
pub fn format_node<T: Token>(node: &ParseTreeNode<T>, out: &mut String, level: usize)
    ensures
        final(out)@ == old(out)@ + node_text(node@, level as nat),
{
    let marker = tab(level);
    format_node_at(node, out, marker.as_str(), Ghost(level as nat));
}

/// Appends to `out` the lines that `tree` prints at depth `level`.
pub fn format_tree<T: Token>(tree: &ParseTree<T>, out: &mut String, level: usize)
    ensures
        final(out)@ == old(out)@ + tree_text(tree@, level as nat),
{
    let marker = tab(level);
    format_tree_at(tree, out, marker.as_str(), Ghost(level as nat));
}

impl<'t, 'g, T: Token> ParseTreeNode<'t, 'g, T> {
    /// The lines that the node prints, from depth 0.
    pub fn to_text(&self) -> (text: String)
        ensures
            text@ == node_text(self@, 0),
    {
        let mut text = String::new();
        format_node(self, &mut text, 0);
        assert(text@ =~= node_text(self@, 0));
        text
    }
}

impl<'t, 'g, T: Token> ParseTree<'t, 'g, T> {
    /// The lines that the tree prints, from depth 0.
    pub fn to_text(&self) -> (text: String)
        ensures
            text@ == tree_text(self@, 0),
    {
        let mut text = String::new();
        format_tree(self, &mut text, 0);
        assert(text@ =~= tree_text(self@, 0));
        text
    }
}

/// The structured form of a tree: sequences of names. A tree is the
/// sequence of its name and of one entry per node; a token is its name, a
/// nonterminal its tree's sequence.
#[derive(Debug, PartialEq, Eq)]
pub enum Structure {
    /// The name of a production or of a token.
    Name(String),
    /// A tree: its name first, then its nodes.
    List(Vec<Structure>),
    /// The place of an elided term.
    Absent,
}

/// The mathematical value of a `Structure`.
pub ghost enum StructureView {
    Name(Seq<char>),
    List(Seq<StructureView>),
    Absent,
}

/// The value of a structure.
pub open spec fn structure_view(structure: Structure) -> StructureView
    decreases structure,
{
    match structure {
        Structure::Name(name) => StructureView::Name(name@),
        Structure::List(items) => StructureView::List(
            Seq::new(
                items@.len(),
                |i: int|
                    if 0 <= i < items@.len() {
                        structure_view(items@[i])
                    } else {
                        StructureView::Absent
                    },
            ),
        ),
        Structure::Absent => StructureView::Absent,
    }
}

impl View for Structure {
    type V = StructureView;

    open spec fn view(&self) -> StructureView {
        structure_view(*self)
    }
}

/// The values of the structures, in the same order.
pub open spec fn structure_views(items: Seq<Structure>) -> Seq<StructureView> {
    items.map_values(|s: Structure| s@)
}

/// The value of a list holds the values of its items.
pub proof fn lemma_list_view(items: Vec<Structure>)
    ensures
        Structure::List(items)@ == StructureView::List(structure_views(items@)),
{
    assert(Structure::List(items)@->List_0 =~= structure_views(items@));
}

/// The structured form of a node: the name of a token, the structured form
/// of a nonterminal's tree, nothing for an elided term.
pub open spec fn node_structure<T: Token>(node: NodeView<T>) -> StructureView
    decreases node, 2int,
{
    match node {
        NodeView::Terminal(token) => StructureView::Name(token.name_view()),
        NodeView::Nonterminal(tree) => tree_structure(tree),
        NodeView::Elided => StructureView::Absent,
    }
}

/// The structured form of a tree: its name, then the structured form of
/// each of its nodes.
pub open spec fn tree_structure<T: Token>(tree: TreeView<T>) -> StructureView
    decreases tree, 1int,
{
    StructureView::List(seq![StructureView::Name(tree.lhs)] + node_structures(tree))
}

/// The structured form of each node of `tree`.
pub open spec fn node_structures<T: Token>(tree: TreeView<T>) -> Seq<StructureView>
    decreases tree, 0int,
{
    Seq::new(
        tree.rhs.len(),
        |i: int|
            if 0 <= i < tree.rhs.len() {
                node_structure(tree.rhs[i])
            } else {
                StructureView::Absent
            },
    )
}

impl<'t, 'g, T: Token> ParseTreeNode<'t, 'g, T> {
    /// The structured form of the node.
    pub fn to_structure(&self) -> (structure: Structure)
        ensures
            structure@ == node_structure(self@),
        decreases self,
    {
        match self {
            ParseTreeNode::Terminal(token) => {
                let name = String::from_str(token.name());
                Structure::Name(name)
            },
            ParseTreeNode::Nonterminal(tree) => tree.to_structure(),
            ParseTreeNode::Elided => Structure::Absent,
        }
    }
}

impl<'t, 'g, T: Token> ParseTree<'t, 'g, T> {
    /// The structured form of the tree.
    pub fn to_structure(&self) -> (structure: Structure)
        ensures
            structure@ == tree_structure(self@),
        decreases self,
    {
        let ghost expected = seq![StructureView::Name(self@.lhs)] + node_structures(self@);
        let mut items: Vec<Structure> = Vec::new();
        items.push(Structure::Name(self.lhs.clone()));
        let mut i: usize = 0;
        assert(structure_views(items@) =~= expected.take(1));
        while i < self.rhs.len()
            invariant
                i <= self.rhs.len(),
                self@.rhs.len() == self.rhs@.len(),
                expected == seq![StructureView::Name(self@.lhs)] + node_structures(self@),
                structure_views(items@) == expected.take(i + 1),
            decreases self.rhs.len() - i,
        {
            let item = self.rhs[i].to_structure();
            let ghost before = items@;
            items.push(item);
            proof {
                assert(self@.rhs[i as int] == self.rhs@[i as int]@);
                assert(structure_views(items@) =~= structure_views(before).push(item@));
                assert(expected.take(i + 2) =~= expected.take(i + 1).push(expected[i + 1]));
            }
            i += 1;
        }
        proof {
            assert(expected.take(self.rhs.len() + 1) =~= expected);
            lemma_list_view(items);
        }
        Structure::List(items)
    }
}

/// The tokens of a node, from left to right.
pub open spec fn node_leaves<T>(node: NodeView<T>) -> Seq<T>
    decreases node, 2int,
{
    match node {
        NodeView::Terminal(token) => seq![token],
        NodeView::Nonterminal(tree) => tree_leaves(tree),
        NodeView::Elided => Seq::empty(),
    }
}

/// The tokens of a tree, from left to right.
pub open spec fn tree_leaves<T>(tree: TreeView<T>) -> Seq<T>
    decreases tree, 1int,
{
    concat(leaves_by_node(tree))
}

/// The tokens of each node of `tree`.
pub open spec fn leaves_by_node<T>(tree: TreeView<T>) -> Seq<Seq<T>>
    decreases tree, 0int,
{
    Seq::new(
        tree.rhs.len(),
        |i: int|
            if 0 <= i < tree.rhs.len() {
                node_leaves(tree.rhs[i])
            } else {
                Seq::empty()
            },
    )
}

} // verus!
