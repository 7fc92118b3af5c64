//! A directory tree as a value: what a working directory holds, and what a
//! checkout produces.

use vstd::prelude::*;

verus! {

/// A file, a directory or a link, without its name.
#[derive(Debug, PartialEq, Eq)]
pub enum WorkNode {
    /// A regular file.
    File { executable: bool, content: Vec<u8> },
    /// A directory with its children.
    Dir { entries: Vec<WorkEntry> },
    /// A symbolic link.
    SymLink { target: Vec<u8> },
    /// Anything else: a device, a socket, a pipe.
    Other,
}

/// A named child of a directory.
#[derive(Debug, PartialEq, Eq)]
pub struct WorkEntry {
    pub name: Vec<u8>,
    pub node: WorkNode,
}

/// The mathematical value of a `WorkNode`.
pub enum Node {
    File { executable: bool, content: Seq<u8> },
    Dir { entries: Seq<(Seq<u8>, Node)> },
    SymLink { target: Seq<u8> },
    Other,
}

/// The value of a node.
pub open spec fn node_view(node: WorkNode) -> Node
    decreases node,
{
    match node {
        WorkNode::File { executable, content } => Node::File { executable, content: content@ },
        WorkNode::Dir { entries } => Node::Dir { entries: entries_view(entries@, entries@.len()) },
        WorkNode::SymLink { target } => Node::SymLink { target: target@ },
        WorkNode::Other => Node::Other,
    }
}

/// The values of the first `n` children, each with its name.
pub open spec fn entries_view(entries: Seq<WorkEntry>, n: nat) -> Seq<(Seq<u8>, Node)>
    decreases entries, n,
{
    if n == 0 || n > entries.len() {
        Seq::empty()
    } else {
        entries_view(entries, (n - 1) as nat).push(
            (entries[n - 1].name@, node_view(entries[n - 1].node)),
        )
    }
}

impl View for WorkNode {
    type V = Node;

    open spec fn view(&self) -> Node {
        node_view(*self)
    }
}

impl View for WorkEntry {
    type V = (Seq<u8>, Node);

    open spec fn view(&self) -> (Seq<u8>, Node) {
        (self.name@, node_view(self.node))
    }
}

/// The values of all children, each with its name.
pub open spec fn children(entries: Seq<WorkEntry>) -> Seq<(Seq<u8>, Node)> {
    entries_view(entries, entries.len())
}

/// `entries_view` has one value per child, in order.
pub proof fn lemma_entries_view(entries: Seq<WorkEntry>, n: nat)
    requires
        n <= entries.len(),
    ensures
        entries_view(entries, n).len() == n,
        forall|i: int| 0 <= i < n ==> #[trigger] entries_view(entries, n)[i] == entries[i]@,
    decreases n,
{
    if n > 0 {
        lemma_entries_view(entries, (n - 1) as nat);
    }
}

} // verus!
