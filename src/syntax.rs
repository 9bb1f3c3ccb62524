use vstd::prelude::*;

verus! {

/// A stretch of a file's text, from `start` up to `end`, counted in chars.
#[derive(Clone, Copy, Debug, PartialEq, Eq, Structural)]
pub struct Span {
    pub start: usize,
    pub end: usize,
}

/// One node of a parsed file. Positions count chars of the file's text.
pub struct SyntaxNode {
    /// The grammar's name for the node, such as `function_item`.
    pub kind: String,
    pub start: usize,
    pub end: usize,
    /// The index of the enclosing node.
    pub parent: Option<usize>,
    /// The index of the node just before it under the same parent.
    pub prev_sibling: Option<usize>,
    /// Where the child in the node's `name` field lies.
    pub name_field: Option<Span>,
    /// Where the child in the node's `type` field lies.
    pub type_field: Option<Span>,
}

pub open spec fn range_ok(r: Option<Span>, len: nat) -> bool {
    r is Some ==> r->0.start <= r->0.end <= len
}

/// A node that may stand at index `i` of a tree over a text of `len` chars: it lies
/// within the text and links only to nodes before it.
pub open spec fn node_ok(n: SyntaxNode, i: int, len: nat) -> bool {
    &&& n.start <= n.end <= len
    &&& n.parent is Some ==> n.parent->0 < i
    &&& n.prev_sibling is Some ==> n.prev_sibling->0 < i
    &&& range_ok(n.name_field, len)
    &&& range_ok(n.type_field, len)
}

/// A parsed file: its nodes in pre-order, so that a node's parent and earlier
/// siblings come before it.
pub struct SyntaxTree {
    pub nodes: Vec<SyntaxNode>,
}

impl SyntaxTree {
    pub open spec fn wf(&self, len: nat) -> bool {
        forall|i: int| 0 <= i < self.nodes@.len() ==> node_ok(#[trigger] self.nodes@[i], i, len)
    }

    pub fn new() -> (r: SyntaxTree)
        ensures
            r.nodes@.len() == 0,
            r.wf(0),
    {
        SyntaxTree { nodes: Vec::new() }
    }

    /// Adds `node` after the others where it may stand there in a tree over a text of
    /// `len` chars, and says whether it did.
    pub fn push_node(&mut self, node: SyntaxNode, len: usize) -> (r: bool)
        requires
            old(self).wf(len as nat),
        ensures
            r == node_ok(node, old(self).nodes@.len() as int, len as nat),
            r ==> final(self).nodes@ == old(self).nodes@.push(node),
            !r ==> final(self).nodes@ == old(self).nodes@,
            final(self).wf(len as nat),
    {
        let i = self.nodes.len();
        let ok = node.start <= node.end && node.end <= len && match node.parent {
            Some(p) => p < i,
            None => true,
        } && match node.prev_sibling {
            Some(s) => s < i,
            None => true,
        } && range_fits(node.name_field, len) && range_fits(node.type_field, len);
        if ok {
            self.nodes.push(node);
            proof {
                assert forall|j: int| 0 <= j < self.nodes@.len() implies node_ok(
                    #[trigger] self.nodes@[j],
                    j,
                    len as nat,
                ) by {
                    if j < i {
                        assert(self.nodes@[j] == old(self).nodes@[j]);
                    }
                }
            }
        }
        ok
    }
}

fn range_fits(r: Option<Span>, len: usize) -> (b: bool)
    ensures
        b == range_ok(r, len as nat),
{
    match r {
        Some(p) => p.start <= p.end && p.end <= len,
        None => true,
    }
}

} // verus!
