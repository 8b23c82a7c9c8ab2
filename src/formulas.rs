//! Expression trees of formulas, built from tokens by a left fold.
use vstd::prelude::*;

use crate::dtypes::{link_model, FormToken, TknLink, TknNode, TokenModel, TreeModel};
use crate::parsing::tokens_model;

verus! {

/// An expression tree.
#[derive(Debug)]
pub struct TknTree {
    pub root: TknLink,
}

pub open spec fn is_operand(t: TokenModel) -> bool {
    !(t is BinOp)
}

/// Operands at the even places, operators at the odd ones, an operand first
/// and last.
pub open spec fn alternates(ts: Seq<TokenModel>) -> bool {
    &&& ts.len() % 2 == 1
    &&& forall|i: int| 0 <= i < ts.len() ==> (is_operand(#[trigger] ts[i]) <==> i % 2 == 0)
}

pub open spec fn leaf(t: TokenModel) -> TreeModel {
    TreeModel::Node(t, Box::new(TreeModel::Empty), Box::new(TreeModel::Empty))
}

/// The left-associative tree of an alternating token sequence:
/// `t0 op0 t1 op1 t2` gives `((t0 op0 t1) op1 t2)`.
pub open spec fn fold_tree(ts: Seq<TokenModel>) -> TreeModel
    decreases ts.len(),
{
    if ts.len() == 0 {
        TreeModel::Empty
    } else if ts.len() == 1 {
        leaf(ts[0])
    } else {
        TreeModel::Node(
            ts[ts.len() - 2],
            Box::new(fold_tree(ts.take(ts.len() - 2))),
            Box::new(leaf(ts.last())),
        )
    }
}

impl TknTree {
    pub open spec fn model(&self) -> TreeModel {
        link_model(self.root)
    }

    /// An empty tree.
    pub fn new() -> (r: Self)
        ensures
            r.model() == TreeModel::Empty,
    {
        TknTree { root: None }
    }

    /// Makes `token` the new root, with the whole tree so far as its left child.
    pub fn push(&mut self, token: FormToken)
        ensures
            final(self).model() == TreeModel::Node(
                token@,
                Box::new(old(self).model()),
                Box::new(TreeModel::Empty),
            ),
    {
        let ghost tm = token@;
        let left = self.root.take();
        assert(link_model(left) == old(self).model());
        self.root = Some(Box::new(TknNode { token, left, right: None }));
        assert(link_model(None) == TreeModel::Empty);
        assert(self.model() == TreeModel::Node(tm, Box::new(link_model(left)), Box::new(link_model(None))));
    }

    /// Installs a leaf of `token` as the right child of the root.
    fn set_right(&mut self, token: FormToken)
        requires
            old(self).root is Some,
        ensures
            final(self).model() == match old(self).model() {
                TreeModel::Node(t, l, _) => TreeModel::Node(t, l, Box::new(leaf(token@))),
                TreeModel::Empty => TreeModel::Empty,
            },
    {
        let node = self.root.take().unwrap();
        let TknNode { token: top, left, right: _ } = *node;
        let ghost tm = token@;
        let right = Some(Box::new(TknNode { token, left: None, right: None }));
        assert(link_model(None) == TreeModel::Empty);
        assert(link_model(right) == leaf(tm));
        self.root = Some(Box::new(TknNode { token: top, left, right }));
    }
}

/// Builds the left-associative tree of a token sequence. `None` where the
/// sequence does not alternate operand, operator, operand, ..., operand.
pub fn tokens_to_tree(tokens: &Vec<FormToken>) -> (r: Option<TknTree>)
    ensures
        match r {
            Some(tree) => alternates(tokens_model(tokens@)) && tree.model() == fold_tree(
                tokens_model(tokens@),
            ),
            None => !alternates(tokens_model(tokens@)),
        },
{
    let ghost ts = tokens_model(tokens@);
    let n = tokens.len();
    if n == 0 {
        return None;
    }
    if let FormToken::BinOp(_) = &tokens[0] {
        assert(!is_operand(ts[0]));
        return None;
    }
    let mut tree = TknTree::new();
    tree.push(tokens[0].duplicate());
    assert(tree.model() == fold_tree(ts.take(1)));
    let mut i: usize = 1;
    while i < n
        invariant
            n == tokens@.len(),
            ts == tokens_model(tokens@),
            1 <= i <= n,
            i % 2 == 1,
            tree.root is Some,
            tree.model() == fold_tree(ts.take(i as int)),
            forall|k: int| 0 <= k < i ==> (is_operand(#[trigger] ts[k]) <==> k % 2 == 0),
        decreases n - i,
    {
        match &tokens[i] {
            FormToken::BinOp(_) => {},
            _ => {
                assert(is_operand(ts[i as int]));
                return None;
            },
        }
        if i + 1 >= n {
            assert(ts.len() % 2 == 0);
            return None;
        }
        if let FormToken::BinOp(_) = &tokens[i + 1] {
            assert(!is_operand(ts[i + 1]));
            return None;
        }
        tree.push(tokens[i].duplicate());
        tree.set_right(tokens[i + 1].duplicate());
        proof {
            let next = ts.take(i + 2);
            assert(next.take(i as int) =~= ts.take(i as int));
            assert(next[i as int] == ts[i as int]);
            assert(next.last() == ts[i + 1]);
        }
        i = i + 2;
    }
    assert(ts.take(n as int) =~= ts);
    Some(tree)
}

} // verus!
