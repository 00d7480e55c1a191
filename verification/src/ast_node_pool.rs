//! The syntax tree of a query, stored as nodes in an arena; a node refers to other
//! nodes by their position in it, and to text by a range of bytes of the query.
use vstd::prelude::*;

verus! {

/// The position of a node in the arena.
pub type AstNodePtr = usize;

/// A node of the syntax tree.
#[derive(Clone, Copy, PartialEq, Eq, Structural, Debug)]
pub enum AstNode {
    Null,
    SubString(usize, usize),
    Identifier(usize, usize),
    Integer(u64),
    Bool(bool),
    Pipe(AstNodePtr, AstNodePtr),
    Dot,
    Access(AstNodePtr),
    AccessChain(AstNodePtr, AstNodePtr),
    Coalesce(AstNodePtr, AstNodePtr),
    Equals(AstNodePtr, AstNodePtr),
    NotEquals(AstNodePtr, AstNodePtr),
    LessThan(AstNodePtr, AstNodePtr),
    LessThanOrEqual(AstNodePtr, AstNodePtr),
    GreaterThan(AstNodePtr, AstNodePtr),
    GreaterThanOrEqual(AstNodePtr, AstNodePtr),
    Or(AstNodePtr, AstNodePtr),
    And(AstNodePtr, AstNodePtr),
    Add(AstNodePtr, AstNodePtr),
    Subtract(AstNodePtr, AstNodePtr),
    Multiply(AstNodePtr, AstNodePtr),
    Divide(AstNodePtr, AstNodePtr),
    Not(AstNodePtr),
    Negative(AstNodePtr),
    Spread(AstNodePtr),
    KeywordArgument(AstNodePtr, AstNodePtr),
    LetStmt { identifier: AstNodePtr, expr: AstNodePtr },
    FcnCall { name: AstNodePtr, args: Option<AstNodePtr> },
    ListNode(AstNodePtr, AstNodePtr),
    MapKeyValPair { key: AstNodePtr, val: AstNodePtr },
    MapLiteral(Option<AstNodePtr>),
    ListLiteral(Option<AstNodePtr>),
    FormatString(Option<AstNodePtr>),
    ReverseIdx(AstNodePtr),
    SliceAccess(Option<AstNodePtr>, Option<AstNodePtr>),
}

/// `p`, if any, is below `bound`.
pub open spec fn opt_below(p: Option<AstNodePtr>, bound: int) -> bool {
    p matches Some(q) ==> q < bound
}

/// Every node that `n` refers to is below `bound`, and every range of text it refers to
/// lies inside a text of `text_len` bytes.
pub open spec fn refs_below(n: AstNode, bound: int, text_len: int) -> bool {
    match n {
        AstNode::Null | AstNode::Integer(_) | AstNode::Bool(_) | AstNode::Dot => true,
        AstNode::SubString(s, e) | AstNode::Identifier(s, e) => s <= e <= text_len,
        AstNode::Access(a) | AstNode::Not(a) | AstNode::Negative(a) | AstNode::Spread(a) | AstNode::ReverseIdx(a) => a < bound,
        AstNode::Pipe(a, b) | AstNode::AccessChain(a, b) | AstNode::Coalesce(a, b) | AstNode::Equals(a, b)
        | AstNode::NotEquals(a, b) | AstNode::LessThan(a, b) | AstNode::LessThanOrEqual(a, b) | AstNode::GreaterThan(
            a,
            b,
        ) | AstNode::GreaterThanOrEqual(a, b) | AstNode::Or(a, b) | AstNode::And(a, b) | AstNode::Add(a, b)
        | AstNode::Subtract(a, b) | AstNode::Multiply(a, b) | AstNode::Divide(a, b) | AstNode::KeywordArgument(a, b)
        | AstNode::ListNode(a, b) => a < bound && b < bound,
        AstNode::LetStmt { identifier, expr } => identifier < bound && expr < bound,
        AstNode::MapKeyValPair { key, val } => key < bound && val < bound,
        AstNode::FcnCall { name, args } => name < bound && opt_below(args, bound),
        AstNode::MapLiteral(a) | AstNode::ListLiteral(a) | AstNode::FormatString(a) => opt_below(a, bound),
        AstNode::SliceAccess(a, b) => opt_below(a, bound) && opt_below(b, bound),
    }
}

/// The nodes form a tree over a text of `text_len` bytes: each node refers only to
/// nodes placed before it.
pub closed spec fn nodes_wf(vals: Seq<AstNode>, text_len: int) -> bool {
    forall|i: int| 0 <= i < vals.len() ==> refs_below(#[trigger] vals[i], i, text_len)
}

/// No nodes form a tree.
pub proof fn lemma_nodes_wf_empty(text_len: int)
    ensures
        nodes_wf(Seq::empty(), text_len),
{
}

/// A node that refers only to the nodes before it keeps them a tree.
pub proof fn lemma_nodes_wf_push(vals: Seq<AstNode>, node: AstNode, text_len: int)
    requires
        nodes_wf(vals, text_len),
        refs_below(node, vals.len() as int, text_len),
    ensures
        nodes_wf(vals.push(node), text_len),
{
    let w = vals.push(node);
    assert forall|i: int| 0 <= i < w.len() implies refs_below(#[trigger] w[i], i, text_len) by {
        if i < vals.len() {
            assert(w[i] == vals[i]);
        }
    }
}

/// A syntax tree: a node with its subtrees in place of the references to them.
pub enum Tree {
    Null,
    SubString(usize, usize),
    Identifier(usize, usize),
    Integer(u64),
    Bool(bool),
    Dot,
    Pipe(Box<Tree>, Box<Tree>),
    Access(Box<Tree>),
    AccessChain(Box<Tree>, Box<Tree>),
    Coalesce(Box<Tree>, Box<Tree>),
    Equals(Box<Tree>, Box<Tree>),
    NotEquals(Box<Tree>, Box<Tree>),
    LessThan(Box<Tree>, Box<Tree>),
    LessThanOrEqual(Box<Tree>, Box<Tree>),
    GreaterThan(Box<Tree>, Box<Tree>),
    GreaterThanOrEqual(Box<Tree>, Box<Tree>),
    Or(Box<Tree>, Box<Tree>),
    And(Box<Tree>, Box<Tree>),
    Add(Box<Tree>, Box<Tree>),
    Subtract(Box<Tree>, Box<Tree>),
    Multiply(Box<Tree>, Box<Tree>),
    Divide(Box<Tree>, Box<Tree>),
    Not(Box<Tree>),
    Negative(Box<Tree>),
    Spread(Box<Tree>),
    KeywordArgument(Box<Tree>, Box<Tree>),
    LetStmt(Box<Tree>, Box<Tree>),
    FcnCall(Box<Tree>, Option<Box<Tree>>),
    ListNode(Box<Tree>, Box<Tree>),
    MapKeyValPair(Box<Tree>, Box<Tree>),
    MapLiteral(Option<Box<Tree>>),
    ListLiteral(Option<Box<Tree>>),
    FormatString(Option<Box<Tree>>),
    ReverseIdx(Box<Tree>),
    SliceAccess(Option<Box<Tree>>, Option<Box<Tree>>),
}

/// The tree under the node at `a`, which a node at `p` refers to; a reference that does
/// not point back (which a well-formed arena does not hold) reads as `null`.
pub open spec fn subtree(nodes: Seq<AstNode>, a: usize, p: int) -> Box<Tree>
    decreases p, 0nat,
{
    if a < p {
        Box::new(tree_of(nodes, a as int))
    } else {
        Box::new(Tree::Null)
    }
}

/// The optional tree under `a`, which a node at `p` refers to.
pub open spec fn opt_subtree(nodes: Seq<AstNode>, a: Option<usize>, p: int) -> Option<Box<Tree>>
    decreases p, 1nat,
{
    match a {
        None => None,
        Some(b) => Some(subtree(nodes, b, p)),
    }
}

/// The tree that `node`, placed at `p`, stands for.
pub open spec fn node_tree(nodes: Seq<AstNode>, node: AstNode, p: int) -> Tree
    decreases p, 2nat,
{
    match node {
        AstNode::Null => Tree::Null,
        AstNode::SubString(s, e) => Tree::SubString(s, e),
        AstNode::Identifier(s, e) => Tree::Identifier(s, e),
        AstNode::Integer(v) => Tree::Integer(v),
        AstNode::Bool(b) => Tree::Bool(b),
        AstNode::Dot => Tree::Dot,
        AstNode::Pipe(a, b) => Tree::Pipe(subtree(nodes, a, p), subtree(nodes, b, p)),
        AstNode::Access(a) => Tree::Access(subtree(nodes, a, p)),
        AstNode::AccessChain(a, b) => Tree::AccessChain(subtree(nodes, a, p), subtree(nodes, b, p)),
        AstNode::Coalesce(a, b) => Tree::Coalesce(subtree(nodes, a, p), subtree(nodes, b, p)),
        AstNode::Equals(a, b) => Tree::Equals(subtree(nodes, a, p), subtree(nodes, b, p)),
        AstNode::NotEquals(a, b) => Tree::NotEquals(subtree(nodes, a, p), subtree(nodes, b, p)),
        AstNode::LessThan(a, b) => Tree::LessThan(subtree(nodes, a, p), subtree(nodes, b, p)),
        AstNode::LessThanOrEqual(a, b) => Tree::LessThanOrEqual(subtree(nodes, a, p), subtree(nodes, b, p)),
        AstNode::GreaterThan(a, b) => Tree::GreaterThan(subtree(nodes, a, p), subtree(nodes, b, p)),
        AstNode::GreaterThanOrEqual(a, b) => Tree::GreaterThanOrEqual(subtree(nodes, a, p), subtree(nodes, b, p)),
        AstNode::Or(a, b) => Tree::Or(subtree(nodes, a, p), subtree(nodes, b, p)),
        AstNode::And(a, b) => Tree::And(subtree(nodes, a, p), subtree(nodes, b, p)),
        AstNode::Add(a, b) => Tree::Add(subtree(nodes, a, p), subtree(nodes, b, p)),
        AstNode::Subtract(a, b) => Tree::Subtract(subtree(nodes, a, p), subtree(nodes, b, p)),
        AstNode::Multiply(a, b) => Tree::Multiply(subtree(nodes, a, p), subtree(nodes, b, p)),
        AstNode::Divide(a, b) => Tree::Divide(subtree(nodes, a, p), subtree(nodes, b, p)),
        AstNode::Not(a) => Tree::Not(subtree(nodes, a, p)),
        AstNode::Negative(a) => Tree::Negative(subtree(nodes, a, p)),
        AstNode::Spread(a) => Tree::Spread(subtree(nodes, a, p)),
        AstNode::KeywordArgument(a, b) => Tree::KeywordArgument(subtree(nodes, a, p), subtree(nodes, b, p)),
        AstNode::LetStmt { identifier, expr } => Tree::LetStmt(
            subtree(nodes, identifier, p),
            subtree(nodes, expr, p),
        ),
        AstNode::FcnCall { name, args } => Tree::FcnCall(subtree(nodes, name, p), opt_subtree(nodes, args, p)),
        AstNode::ListNode(a, b) => Tree::ListNode(subtree(nodes, a, p), subtree(nodes, b, p)),
        AstNode::MapKeyValPair { key, val } => Tree::MapKeyValPair(subtree(nodes, key, p), subtree(nodes, val, p)),
        AstNode::MapLiteral(a) => Tree::MapLiteral(opt_subtree(nodes, a, p)),
        AstNode::ListLiteral(a) => Tree::ListLiteral(opt_subtree(nodes, a, p)),
        AstNode::FormatString(a) => Tree::FormatString(opt_subtree(nodes, a, p)),
        AstNode::ReverseIdx(a) => Tree::ReverseIdx(subtree(nodes, a, p)),
        AstNode::SliceAccess(a, b) => Tree::SliceAccess(opt_subtree(nodes, a, p), opt_subtree(nodes, b, p)),
    }
}

/// The tree under the node at `p`.
pub open spec fn tree_of(nodes: Seq<AstNode>, p: int) -> Tree
    decreases p, 3nat,
{
    if 0 <= p < nodes.len() {
        node_tree(nodes, nodes[p], p)
    } else {
        Tree::Null
    }
}

/// `old` is the start of `new`.
pub open spec fn nodes_prefix(old: Seq<AstNode>, new: Seq<AstNode>) -> bool {
    &&& old.len() <= new.len()
    &&& forall|i: int| 0 <= i < old.len() ==> #[trigger] new[i] == old[i]
}

/// Adding nodes after the existing ones leaves the tree under each existing node as it
/// was.
pub proof fn lemma_tree_kept(old: Seq<AstNode>, new: Seq<AstNode>, p: int)
    requires
        nodes_prefix(old, new),
        0 <= p < old.len(),
    ensures
        tree_of(new, p) == tree_of(old, p),
    decreases p,
{
    assert forall|a: usize| #[trigger] subtree(new, a, p) == subtree(old, a, p) by {
        if a < p {
            lemma_tree_kept(old, new, a as int);
        }
    }
    assert forall|a: Option<usize>| #[trigger] opt_subtree(new, a, p) == opt_subtree(old, a, p) by {
        if let Some(b) = a {
            assert(subtree(new, b, p) == subtree(old, b, p));
        }
    }
    assert(new[p] == old[p]);
    match new[p] {
        AstNode::Pipe(a, b) => {
            assert(subtree(new, a, p) == subtree(old, a, p));
            assert(subtree(new, b, p) == subtree(old, b, p));
            assert(tree_of(new, p) == tree_of(old, p));
        },
        AstNode::AccessChain(a, b) => {
            assert(subtree(new, a, p) == subtree(old, a, p));
            assert(subtree(new, b, p) == subtree(old, b, p));
            assert(tree_of(new, p) == tree_of(old, p));
        },
        AstNode::Coalesce(a, b) => {
            assert(subtree(new, a, p) == subtree(old, a, p));
            assert(subtree(new, b, p) == subtree(old, b, p));
            assert(tree_of(new, p) == tree_of(old, p));
        },
        AstNode::Equals(a, b) => {
            assert(subtree(new, a, p) == subtree(old, a, p));
            assert(subtree(new, b, p) == subtree(old, b, p));
            assert(tree_of(new, p) == tree_of(old, p));
        },
        AstNode::NotEquals(a, b) => {
            assert(subtree(new, a, p) == subtree(old, a, p));
            assert(subtree(new, b, p) == subtree(old, b, p));
            assert(tree_of(new, p) == tree_of(old, p));
        },
        AstNode::LessThan(a, b) => {
            assert(subtree(new, a, p) == subtree(old, a, p));
            assert(subtree(new, b, p) == subtree(old, b, p));
            assert(tree_of(new, p) == tree_of(old, p));
        },
        AstNode::LessThanOrEqual(a, b) => {
            assert(subtree(new, a, p) == subtree(old, a, p));
            assert(subtree(new, b, p) == subtree(old, b, p));
            assert(tree_of(new, p) == tree_of(old, p));
        },
        AstNode::GreaterThan(a, b) => {
            assert(subtree(new, a, p) == subtree(old, a, p));
            assert(subtree(new, b, p) == subtree(old, b, p));
            assert(tree_of(new, p) == tree_of(old, p));
        },
        AstNode::GreaterThanOrEqual(a, b) => {
            assert(subtree(new, a, p) == subtree(old, a, p));
            assert(subtree(new, b, p) == subtree(old, b, p));
            assert(tree_of(new, p) == tree_of(old, p));
        },
        AstNode::Or(a, b) => {
            assert(subtree(new, a, p) == subtree(old, a, p));
            assert(subtree(new, b, p) == subtree(old, b, p));
            assert(tree_of(new, p) == tree_of(old, p));
        },
        AstNode::And(a, b) => {
            assert(subtree(new, a, p) == subtree(old, a, p));
            assert(subtree(new, b, p) == subtree(old, b, p));
            assert(tree_of(new, p) == tree_of(old, p));
        },
        AstNode::Add(a, b) => {
            assert(subtree(new, a, p) == subtree(old, a, p));
            assert(subtree(new, b, p) == subtree(old, b, p));
            assert(tree_of(new, p) == tree_of(old, p));
        },
        AstNode::Subtract(a, b) => {
            assert(subtree(new, a, p) == subtree(old, a, p));
            assert(subtree(new, b, p) == subtree(old, b, p));
            assert(tree_of(new, p) == tree_of(old, p));
        },
        AstNode::Multiply(a, b) => {
            assert(subtree(new, a, p) == subtree(old, a, p));
            assert(subtree(new, b, p) == subtree(old, b, p));
            assert(tree_of(new, p) == tree_of(old, p));
        },
        AstNode::Divide(a, b) => {
            assert(subtree(new, a, p) == subtree(old, a, p));
            assert(subtree(new, b, p) == subtree(old, b, p));
            assert(tree_of(new, p) == tree_of(old, p));
        },
        AstNode::KeywordArgument(a, b) => {
            assert(subtree(new, a, p) == subtree(old, a, p));
            assert(subtree(new, b, p) == subtree(old, b, p));
            assert(tree_of(new, p) == tree_of(old, p));
        },
        AstNode::ListNode(a, b) => {
            assert(subtree(new, a, p) == subtree(old, a, p));
            assert(subtree(new, b, p) == subtree(old, b, p));
            assert(tree_of(new, p) == tree_of(old, p));
        },
        AstNode::LetStmt { identifier, expr } => {
            assert(subtree(new, identifier, p) == subtree(old, identifier, p));
            assert(subtree(new, expr, p) == subtree(old, expr, p));
            assert(tree_of(new, p) == tree_of(old, p));
        },
        AstNode::MapKeyValPair { key, val } => {
            assert(subtree(new, key, p) == subtree(old, key, p));
            assert(subtree(new, val, p) == subtree(old, val, p));
            assert(tree_of(new, p) == tree_of(old, p));
        },
        AstNode::FcnCall { name, args } => {
            assert(subtree(new, name, p) == subtree(old, name, p));
            assert(opt_subtree(new, args, p) == opt_subtree(old, args, p));
            assert(tree_of(new, p) == tree_of(old, p));
        },
        AstNode::SliceAccess(a, b) => {
            assert(opt_subtree(new, a, p) == opt_subtree(old, a, p));
            assert(opt_subtree(new, b, p) == opt_subtree(old, b, p));
            assert(tree_of(new, p) == tree_of(old, p));
        },
        AstNode::Access(a) => {
            assert(subtree(new, a, p) == subtree(old, a, p));
            assert(tree_of(new, p) == tree_of(old, p));
        },
        AstNode::Not(a) => {
            assert(subtree(new, a, p) == subtree(old, a, p));
            assert(tree_of(new, p) == tree_of(old, p));
        },
        AstNode::Negative(a) => {
            assert(subtree(new, a, p) == subtree(old, a, p));
            assert(tree_of(new, p) == tree_of(old, p));
        },
        AstNode::Spread(a) => {
            assert(subtree(new, a, p) == subtree(old, a, p));
            assert(tree_of(new, p) == tree_of(old, p));
        },
        AstNode::ReverseIdx(a) => {
            assert(subtree(new, a, p) == subtree(old, a, p));
            assert(tree_of(new, p) == tree_of(old, p));
        },
        AstNode::MapLiteral(a) => {
            assert(opt_subtree(new, a, p) == opt_subtree(old, a, p));
            assert(tree_of(new, p) == tree_of(old, p));
        },
        AstNode::ListLiteral(a) => {
            assert(opt_subtree(new, a, p) == opt_subtree(old, a, p));
            assert(tree_of(new, p) == tree_of(old, p));
        },
        AstNode::FormatString(a) => {
            assert(opt_subtree(new, a, p) == opt_subtree(old, a, p));
            assert(tree_of(new, p) == tree_of(old, p));
        },
        _ => {
            assert(tree_of(new, p) == tree_of(old, p));
        },
    }
}

/// Adding nodes after the existing ones leaves the tree under every existing node as it
/// was.
pub proof fn lemma_trees_kept(old: Seq<AstNode>, new: Seq<AstNode>)
    requires
        nodes_prefix(old, new),
    ensures
        forall|p: int| 0 <= p < old.len() ==> #[trigger] tree_of(new, p) == tree_of(old, p),
{
    assert forall|p: int| 0 <= p < old.len() implies #[trigger] tree_of(new, p) == tree_of(old, p) by {
        lemma_tree_kept(old, new, p);
    }
}

/// The tree under `a`, a node of `nodes`, boxed.
pub open spec fn boxed_tree(nodes: Seq<AstNode>, a: usize) -> Box<Tree> {
    Box::new(tree_of(nodes, a as int))
}

/// The optional tree under `a`, boxed.
pub open spec fn opt_boxed_tree(nodes: Seq<AstNode>, a: Option<usize>) -> Option<Box<Tree>> {
    match a {
        None => None,
        Some(b) => Some(boxed_tree(nodes, b)),
    }
}

/// The tree that `node` stands for when it refers to nodes of `nodes`.
pub open spec fn shallow(nodes: Seq<AstNode>, node: AstNode) -> Tree {
    match node {
        AstNode::Null => Tree::Null,
        AstNode::SubString(s, e) => Tree::SubString(s, e),
        AstNode::Identifier(s, e) => Tree::Identifier(s, e),
        AstNode::Integer(v) => Tree::Integer(v),
        AstNode::Bool(b) => Tree::Bool(b),
        AstNode::Dot => Tree::Dot,
        AstNode::Pipe(a, b) => Tree::Pipe(boxed_tree(nodes, a), boxed_tree(nodes, b)),
        AstNode::AccessChain(a, b) => Tree::AccessChain(boxed_tree(nodes, a), boxed_tree(nodes, b)),
        AstNode::Coalesce(a, b) => Tree::Coalesce(boxed_tree(nodes, a), boxed_tree(nodes, b)),
        AstNode::Equals(a, b) => Tree::Equals(boxed_tree(nodes, a), boxed_tree(nodes, b)),
        AstNode::NotEquals(a, b) => Tree::NotEquals(boxed_tree(nodes, a), boxed_tree(nodes, b)),
        AstNode::LessThan(a, b) => Tree::LessThan(boxed_tree(nodes, a), boxed_tree(nodes, b)),
        AstNode::LessThanOrEqual(a, b) => Tree::LessThanOrEqual(boxed_tree(nodes, a), boxed_tree(nodes, b)),
        AstNode::GreaterThan(a, b) => Tree::GreaterThan(boxed_tree(nodes, a), boxed_tree(nodes, b)),
        AstNode::GreaterThanOrEqual(a, b) => Tree::GreaterThanOrEqual(boxed_tree(nodes, a), boxed_tree(nodes, b)),
        AstNode::Or(a, b) => Tree::Or(boxed_tree(nodes, a), boxed_tree(nodes, b)),
        AstNode::And(a, b) => Tree::And(boxed_tree(nodes, a), boxed_tree(nodes, b)),
        AstNode::Add(a, b) => Tree::Add(boxed_tree(nodes, a), boxed_tree(nodes, b)),
        AstNode::Subtract(a, b) => Tree::Subtract(boxed_tree(nodes, a), boxed_tree(nodes, b)),
        AstNode::Multiply(a, b) => Tree::Multiply(boxed_tree(nodes, a), boxed_tree(nodes, b)),
        AstNode::Divide(a, b) => Tree::Divide(boxed_tree(nodes, a), boxed_tree(nodes, b)),
        AstNode::KeywordArgument(a, b) => Tree::KeywordArgument(boxed_tree(nodes, a), boxed_tree(nodes, b)),
        AstNode::ListNode(a, b) => Tree::ListNode(boxed_tree(nodes, a), boxed_tree(nodes, b)),
        AstNode::Access(a) => Tree::Access(boxed_tree(nodes, a)),
        AstNode::Not(a) => Tree::Not(boxed_tree(nodes, a)),
        AstNode::Negative(a) => Tree::Negative(boxed_tree(nodes, a)),
        AstNode::Spread(a) => Tree::Spread(boxed_tree(nodes, a)),
        AstNode::ReverseIdx(a) => Tree::ReverseIdx(boxed_tree(nodes, a)),
        AstNode::MapLiteral(a) => Tree::MapLiteral(opt_boxed_tree(nodes, a)),
        AstNode::ListLiteral(a) => Tree::ListLiteral(opt_boxed_tree(nodes, a)),
        AstNode::FormatString(a) => Tree::FormatString(opt_boxed_tree(nodes, a)),
        AstNode::LetStmt { identifier, expr } => Tree::LetStmt(boxed_tree(nodes, identifier), boxed_tree(nodes, expr)),
        AstNode::FcnCall { name, args } => Tree::FcnCall(boxed_tree(nodes, name), opt_boxed_tree(nodes, args)),
        AstNode::MapKeyValPair { key, val } => Tree::MapKeyValPair(boxed_tree(nodes, key), boxed_tree(nodes, val)),
        AstNode::SliceAccess(a, b) => Tree::SliceAccess(opt_boxed_tree(nodes, a), opt_boxed_tree(nodes, b)),
    }
}

/// A node added after `old`, referring only to nodes of `old`, stands for the tree that
/// it makes of theirs.
pub proof fn lemma_new_node_tree(old: Seq<AstNode>, node: AstNode, text_len: int)
    requires
        refs_below(node, old.len() as int, text_len),
    ensures
        tree_of(old.push(node), old.len() as int) == shallow(old, node),
{
    let new = old.push(node);
    let l = old.len() as int;
    lemma_trees_kept(old, new);
    assert forall|a: usize| a < l implies #[trigger] subtree(new, a, l) == boxed_tree(old, a) by {
        assert(tree_of(new, a as int) == tree_of(old, a as int));
    }
    assert forall|a: Option<usize>| opt_below(a, l) implies #[trigger] opt_subtree(new, a, l) == opt_boxed_tree(old, a) by {
        if let Some(b) = a {
            assert(subtree(new, b, l) == boxed_tree(old, b));
        }
    }
    assert(new[l] == node);
    match node {
        AstNode::Pipe(a, b) => {
            assert(subtree(new, a, l) == boxed_tree(old, a));
            assert(subtree(new, b, l) == boxed_tree(old, b));
            assert(tree_of(new, l) == shallow(old, node));
        },
        AstNode::AccessChain(a, b) => {
            assert(subtree(new, a, l) == boxed_tree(old, a));
            assert(subtree(new, b, l) == boxed_tree(old, b));
            assert(tree_of(new, l) == shallow(old, node));
        },
        AstNode::Coalesce(a, b) => {
            assert(subtree(new, a, l) == boxed_tree(old, a));
            assert(subtree(new, b, l) == boxed_tree(old, b));
            assert(tree_of(new, l) == shallow(old, node));
        },
        AstNode::Equals(a, b) => {
            assert(subtree(new, a, l) == boxed_tree(old, a));
            assert(subtree(new, b, l) == boxed_tree(old, b));
            assert(tree_of(new, l) == shallow(old, node));
        },
        AstNode::NotEquals(a, b) => {
            assert(subtree(new, a, l) == boxed_tree(old, a));
            assert(subtree(new, b, l) == boxed_tree(old, b));
            assert(tree_of(new, l) == shallow(old, node));
        },
        AstNode::LessThan(a, b) => {
            assert(subtree(new, a, l) == boxed_tree(old, a));
            assert(subtree(new, b, l) == boxed_tree(old, b));
            assert(tree_of(new, l) == shallow(old, node));
        },
        AstNode::LessThanOrEqual(a, b) => {
            assert(subtree(new, a, l) == boxed_tree(old, a));
            assert(subtree(new, b, l) == boxed_tree(old, b));
            assert(tree_of(new, l) == shallow(old, node));
        },
        AstNode::GreaterThan(a, b) => {
            assert(subtree(new, a, l) == boxed_tree(old, a));
            assert(subtree(new, b, l) == boxed_tree(old, b));
            assert(tree_of(new, l) == shallow(old, node));
        },
        AstNode::GreaterThanOrEqual(a, b) => {
            assert(subtree(new, a, l) == boxed_tree(old, a));
            assert(subtree(new, b, l) == boxed_tree(old, b));
            assert(tree_of(new, l) == shallow(old, node));
        },
        AstNode::Or(a, b) => {
            assert(subtree(new, a, l) == boxed_tree(old, a));
            assert(subtree(new, b, l) == boxed_tree(old, b));
            assert(tree_of(new, l) == shallow(old, node));
        },
        AstNode::And(a, b) => {
            assert(subtree(new, a, l) == boxed_tree(old, a));
            assert(subtree(new, b, l) == boxed_tree(old, b));
            assert(tree_of(new, l) == shallow(old, node));
        },
        AstNode::Add(a, b) => {
            assert(subtree(new, a, l) == boxed_tree(old, a));
            assert(subtree(new, b, l) == boxed_tree(old, b));
            assert(tree_of(new, l) == shallow(old, node));
        },
        AstNode::Subtract(a, b) => {
            assert(subtree(new, a, l) == boxed_tree(old, a));
            assert(subtree(new, b, l) == boxed_tree(old, b));
            assert(tree_of(new, l) == shallow(old, node));
        },
        AstNode::Multiply(a, b) => {
            assert(subtree(new, a, l) == boxed_tree(old, a));
            assert(subtree(new, b, l) == boxed_tree(old, b));
            assert(tree_of(new, l) == shallow(old, node));
        },
        AstNode::Divide(a, b) => {
            assert(subtree(new, a, l) == boxed_tree(old, a));
            assert(subtree(new, b, l) == boxed_tree(old, b));
            assert(tree_of(new, l) == shallow(old, node));
        },
        AstNode::KeywordArgument(a, b) => {
            assert(subtree(new, a, l) == boxed_tree(old, a));
            assert(subtree(new, b, l) == boxed_tree(old, b));
            assert(tree_of(new, l) == shallow(old, node));
        },
        AstNode::ListNode(a, b) => {
            assert(subtree(new, a, l) == boxed_tree(old, a));
            assert(subtree(new, b, l) == boxed_tree(old, b));
            assert(tree_of(new, l) == shallow(old, node));
        },
        AstNode::Access(a) => {
            assert(subtree(new, a, l) == boxed_tree(old, a));
            assert(tree_of(new, l) == shallow(old, node));
        },
        AstNode::Not(a) => {
            assert(subtree(new, a, l) == boxed_tree(old, a));
            assert(tree_of(new, l) == shallow(old, node));
        },
        AstNode::Negative(a) => {
            assert(subtree(new, a, l) == boxed_tree(old, a));
            assert(tree_of(new, l) == shallow(old, node));
        },
        AstNode::Spread(a) => {
            assert(subtree(new, a, l) == boxed_tree(old, a));
            assert(tree_of(new, l) == shallow(old, node));
        },
        AstNode::ReverseIdx(a) => {
            assert(subtree(new, a, l) == boxed_tree(old, a));
            assert(tree_of(new, l) == shallow(old, node));
        },
        AstNode::MapLiteral(a) => {
            assert(opt_subtree(new, a, l) == opt_boxed_tree(old, a));
            assert(tree_of(new, l) == shallow(old, node));
        },
        AstNode::ListLiteral(a) => {
            assert(opt_subtree(new, a, l) == opt_boxed_tree(old, a));
            assert(tree_of(new, l) == shallow(old, node));
        },
        AstNode::FormatString(a) => {
            assert(opt_subtree(new, a, l) == opt_boxed_tree(old, a));
            assert(tree_of(new, l) == shallow(old, node));
        },
        AstNode::LetStmt { identifier, expr } => {
            assert(subtree(new, identifier, l) == boxed_tree(old, identifier));
            assert(subtree(new, expr, l) == boxed_tree(old, expr));
            assert(tree_of(new, l) == shallow(old, node));
        },
        AstNode::FcnCall { name, args } => {
            assert(subtree(new, name, l) == boxed_tree(old, name));
            assert(opt_subtree(new, args, l) == opt_boxed_tree(old, args));
            assert(tree_of(new, l) == shallow(old, node));
        },
        AstNode::MapKeyValPair { key, val } => {
            assert(subtree(new, key, l) == boxed_tree(old, key));
            assert(subtree(new, val, l) == boxed_tree(old, val));
            assert(tree_of(new, l) == shallow(old, node));
        },
        AstNode::SliceAccess(a, b) => {
            assert(opt_subtree(new, a, l) == opt_boxed_tree(old, a));
            assert(opt_subtree(new, b, l) == opt_boxed_tree(old, b));
            assert(tree_of(new, l) == shallow(old, node));
        },
        _ => {
            assert(tree_of(new, l) == shallow(old, node));
        },
    }
}

/// The arena of nodes.
pub struct AstNodePool {
    pub vals: Vec<AstNode>,
}

impl AstNodePool {
    pub fn new() -> (r: Self)
        ensures
            r.vals@ == Seq::<AstNode>::empty(),
    {
        AstNodePool { vals: Vec::new() }
    }

    /// The node at `ptr`.
    pub fn get(&self, ptr: AstNodePtr) -> (r: &AstNode)
        requires
            ptr < self.vals@.len(),
        ensures
            *r == self.vals@[ptr as int],
    {
        &self.vals[ptr]
    }

    /// Adds a node; returns its position.
    pub fn new_node(&mut self, val: AstNode) -> (ptr: AstNodePtr)
        ensures
            ptr == old(self).vals@.len(),
            final(self).vals@ == old(self).vals@.push(val),
    {
        let ptr = self.vals.len();
        self.vals.push(val);
        ptr
    }

    /// Adds a null node; returns its position.
    pub fn new_null(&mut self) -> (ptr: AstNodePtr)
        ensures
            ptr == old(self).vals@.len(),
            final(self).vals@ == old(self).vals@.push(AstNode::Null),
    {
        self.new_node(AstNode::Null)
    }

    /// Adds the text between `start` and `end`; returns its position.
    pub fn new_identifier(&mut self, start: usize, end: usize) -> (ptr: AstNodePtr)
        ensures
            ptr == old(self).vals@.len(),
            final(self).vals@ == old(self).vals@.push(AstNode::SubString(start, end)),
    {
        self.new_node(AstNode::SubString(start, end))
    }

    /// Adds an integer; returns its position.
    pub fn new_integer(&mut self, val: u64) -> (ptr: AstNodePtr)
        ensures
            ptr == old(self).vals@.len(),
            final(self).vals@ == old(self).vals@.push(AstNode::Integer(val)),
    {
        self.new_node(AstNode::Integer(val))
    }

    /// Adds a boolean; returns its position.
    pub fn new_bool(&mut self, val: bool) -> (ptr: AstNodePtr)
        ensures
            ptr == old(self).vals@.len(),
            final(self).vals@ == old(self).vals@.push(AstNode::Bool(val)),
    {
        self.new_node(AstNode::Bool(val))
    }

    /// Adds a pipe; returns its position.
    pub fn new_pipe(&mut self, left: AstNodePtr, right: AstNodePtr) -> (ptr: AstNodePtr)
        ensures
            ptr == old(self).vals@.len(),
            final(self).vals@ == old(self).vals@.push(AstNode::Pipe(left, right)),
    {
        self.new_node(AstNode::Pipe(left, right))
    }

    /// Adds a dot; returns its position.
    pub fn new_dot(&mut self) -> (ptr: AstNodePtr)
        ensures
            ptr == old(self).vals@.len(),
            final(self).vals@ == old(self).vals@.push(AstNode::Dot),
    {
        self.new_node(AstNode::Dot)
    }

    /// Adds an access; returns its position.
    pub fn new_access(&mut self, accessor: AstNodePtr) -> (ptr: AstNodePtr)
        ensures
            ptr == old(self).vals@.len(),
            final(self).vals@ == old(self).vals@.push(AstNode::Access(accessor)),
    {
        self.new_node(AstNode::Access(accessor))
    }

    /// Adds an `or`; returns its position.
    pub fn new_or(&mut self, left: AstNodePtr, right: AstNodePtr) -> (ptr: AstNodePtr)
        ensures
            ptr == old(self).vals@.len(),
            final(self).vals@ == old(self).vals@.push(AstNode::Or(left, right)),
    {
        self.new_node(AstNode::Or(left, right))
    }

    /// Adds an `and`; returns its position.
    pub fn new_and(&mut self, left: AstNodePtr, right: AstNodePtr) -> (ptr: AstNodePtr)
        ensures
            ptr == old(self).vals@.len(),
            final(self).vals@ == old(self).vals@.push(AstNode::And(left, right)),
    {
        self.new_node(AstNode::And(left, right))
    }

    /// Adds a sum; returns its position.
    pub fn new_add(&mut self, left: AstNodePtr, right: AstNodePtr) -> (ptr: AstNodePtr)
        ensures
            ptr == old(self).vals@.len(),
            final(self).vals@ == old(self).vals@.push(AstNode::Add(left, right)),
    {
        self.new_node(AstNode::Add(left, right))
    }

    /// Adds a difference; returns its position.
    pub fn new_subtract(&mut self, left: AstNodePtr, right: AstNodePtr) -> (ptr: AstNodePtr)
        ensures
            ptr == old(self).vals@.len(),
            final(self).vals@ == old(self).vals@.push(AstNode::Subtract(left, right)),
    {
        self.new_node(AstNode::Subtract(left, right))
    }

    /// Adds a link of a list of nodes; returns its position.
    pub fn new_list_node(&mut self, left: AstNodePtr, right: AstNodePtr) -> (ptr: AstNodePtr)
        ensures
            ptr == old(self).vals@.len(),
            final(self).vals@ == old(self).vals@.push(AstNode::ListNode(left, right)),
    {
        self.new_node(AstNode::ListNode(left, right))
    }

    /// Adds a function call; returns its position.
    pub fn new_fcn_call(&mut self, name: AstNodePtr, args: Option<AstNodePtr>) -> (ptr: AstNodePtr)
        ensures
            ptr == old(self).vals@.len(),
            final(self).vals@ == old(self).vals@.push(AstNode::FcnCall { name, args }),
    {
        self.new_node(AstNode::FcnCall { name, args })
    }

    /// Adds a key,value pair of a map; returns its position.
    pub fn new_map_kv_pair(&mut self, key: AstNodePtr, val: AstNodePtr) -> (ptr: AstNodePtr)
        ensures
            ptr == old(self).vals@.len(),
            final(self).vals@ == old(self).vals@.push(AstNode::MapKeyValPair { key, val }),
    {
        self.new_node(AstNode::MapKeyValPair { key, val })
    }

    /// Adds a map literal; returns its position.
    pub fn new_map_literal(&mut self, contents: Option<AstNodePtr>) -> (ptr: AstNodePtr)
        ensures
            ptr == old(self).vals@.len(),
            final(self).vals@ == old(self).vals@.push(AstNode::MapLiteral(contents)),
    {
        self.new_node(AstNode::MapLiteral(contents))
    }

    /// Adds a list literal; returns its position.
    pub fn new_list_literal(&mut self, contents: Option<AstNodePtr>) -> (ptr: AstNodePtr)
        ensures
            ptr == old(self).vals@.len(),
            final(self).vals@ == old(self).vals@.push(AstNode::ListLiteral(contents)),
    {
        self.new_node(AstNode::ListLiteral(contents))
    }

    /// Adds a format string; returns its position.
    pub fn new_format_string(&mut self, contents: Option<AstNodePtr>) -> (ptr: AstNodePtr)
        ensures
            ptr == old(self).vals@.len(),
            final(self).vals@ == old(self).vals@.push(AstNode::FormatString(contents)),
    {
        self.new_node(AstNode::FormatString(contents))
    }
}

} // verus!
