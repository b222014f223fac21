//! The syntax tree produced by the parser: typed nodes that own their
//! children outright, in source order.

use vstd::prelude::*;

verus! {

/// The kind of a syntax-tree node.
#[derive(Debug, PartialEq, Eq, Clone, Copy)]
pub enum NodeType {
    Root,
    Instruction,
    Directive,
    Label,
    Register,
    Immediate,
}

/// Mathematical model of a syntax-tree node: its kind, its textual payload,
/// and the models of its children in source order.
pub ghost struct NodeView {
    pub kind: NodeType,
    pub value: Seq<char>,
    pub children: Seq<NodeView>,
}

/// One node of the syntax tree. `value` holds the textual payload (mnemonic
/// name, label name, register name, literal digits, directive name), and
/// `children` the sub-nodes in source order; every non-root node is owned
/// exclusively by its parent.
#[derive(Debug, PartialEq)]
pub struct AstNode {
    pub node_type: NodeType,
    pub value: String,
    pub children: Vec<AstNode>,
}

impl View for AstNode {
    type V = NodeView;

    open spec fn view(&self) -> NodeView
        decreases self,
    {
        NodeView {
            kind: self.node_type,
            value: self.value@,
            children: Seq::new(
                self.children@.len(),
                |i: int|
                    if 0 <= i < self.children@.len() {
                        self.children@[i]@
                    } else {
                        NodeView { kind: NodeType::Root, value: Seq::empty(), children: Seq::empty() }
                    },
            ),
        }
    }
}

impl AstNode {
    /// Creates a node of the given kind and value, with no children yet.
    pub fn new(node_type: NodeType, value: String) -> (node: AstNode)
        ensures
            node@ == (NodeView { kind: node_type, value: value@, children: Seq::<NodeView>::empty() }),
    {
        let node = AstNode { node_type, value, children: Vec::new() };
        proof {
            assert(node@.children =~= Seq::<NodeView>::empty());
        }
        node
    }

    /// Appends a child node; the new child comes after all existing ones.
    pub fn add_child(&mut self, child: AstNode)
        ensures
            final(self)@ == (NodeView {
                kind: old(self)@.kind,
                value: old(self)@.value,
                children: old(self)@.children.push(child@),
            }),
    {
        self.children.push(child);
        proof {
            assert(self@.children =~= old(self)@.children.push(child@));
        }
    }
}

} // verus!
