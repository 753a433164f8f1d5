//! Concrete parse trees: an n-ary node carrying a token, and the tree that
//! wraps a root node. The yield of a node is the sequence of leaf tokens in
//! order, with zero-width epsilon leaves contributing nothing.

use vstd::prelude::*;
use crate::token::Token;

verus! {

pub struct AbstractSyntaxNode<TToken> {
    pub child_nodes: Vec<AbstractSyntaxNode<TToken>>,
    pub token: TToken,
}

impl<TToken> AbstractSyntaxNode<TToken> {
    pub fn new(child_nodes: Vec<AbstractSyntaxNode<TToken>>, token: TToken) -> (r:
        AbstractSyntaxNode<TToken>)
        ensures
            r.child_nodes == child_nodes,
            r.token == token,
    {
        AbstractSyntaxNode { child_nodes, token }
    }
}

pub struct AbstractSyntaxTree<TToken> {
    pub root: AbstractSyntaxNode<TToken>,
}

impl<TToken> AbstractSyntaxTree<TToken> {
    pub fn new(root: AbstractSyntaxNode<TToken>) -> (r: AbstractSyntaxTree<TToken>)
        ensures
            r.root == root,
    {
        AbstractSyntaxTree { root }
    }
}

/// The tokens at the leaves of `n`, left to right. A childless node whose
/// category is `epsilon` is a zero-width leaf and yields nothing; any other
/// childless node yields its own token.
pub open spec fn node_yield<TLex, TSyntax>(
    n: AbstractSyntaxNode<Token<TLex, TSyntax>>,
    epsilon: TSyntax,
) -> Seq<Token<TLex, TSyntax>>
    decreases n,
{
    if n.child_nodes.len() == 0 {
        if n.token.t_type == epsilon {
            Seq::empty()
        } else {
            seq![n.token]
        }
    } else {
        nodes_yield(n.child_nodes@, epsilon)
    }
}

/// The concatenated yields of a sequence of nodes.
pub open spec fn nodes_yield<TLex, TSyntax>(
    ns: Seq<AbstractSyntaxNode<Token<TLex, TSyntax>>>,
    epsilon: TSyntax,
) -> Seq<Token<TLex, TSyntax>>
    decreases ns,
{
    if ns.len() == 0 {
        Seq::empty()
    } else {
        nodes_yield(ns.drop_last(), epsilon) + node_yield(ns.last(), epsilon)
    }
}

} // verus!
