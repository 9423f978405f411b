//! The node model: the three node variants, the node record, and their
//! mathematical views.
//!
//! A node's identifier is its position in the parsed node list, starting
//! at 0.  A reserved sentinel identifier, never a real index, means "the
//! session has ended".

use vstd::prelude::*;

verus! {

/// Unique node identifier: a position in the node list.
pub type NodeId = usize;

/// The sentinel identifier that means the machine has halted.  It is never
/// an index into the node list.
pub const TERMINATING_NODE: NodeId = 9999;

/// A single branch option: the option's text and the destination reached
/// by choosing it.
pub type BranchOption = (String, NodeId);

/// Each possible node variant.
#[derive(Debug, PartialEq)]
pub enum NodeType {
    /// Question text, options.
    Branching(String, Vec<BranchOption>),
    /// Success destination, fail destination, list of prompts.
    Question(NodeId, NodeId, Vec<String>),
    /// Terminating message text.
    Terminating(String),
}

/// A node of the script: its variant together with the variable name the
/// node's answer is stored under, if any.
#[derive(Debug, PartialEq)]
pub struct Node {
    /// Node variant.
    pub node_type: NodeType,
    /// Variable name associated with this node.
    pub variable: Option<String>,
}

impl Node {
    /// Construct a fresh node.
    pub fn new(node_type: NodeType, variable: Option<String>) -> (r: Self)
        ensures
            r == (Node { node_type, variable }),
    {
        Node { node_type, variable }
    }
}

/// The mathematical view of a list of branch options.
pub open spec fn branch_options_view(s: Seq<(String, NodeId)>) -> Seq<(Seq<char>, nat)> {
    s.map_values(|o: (String, NodeId)| (o.0@, o.1 as nat))
}

/// The mathematical view of a node: plain sequences and numbers in place
/// of vectors and strings.
pub ghost enum NodeView {
    /// A free-text capture node.
    Question {
        /// Destination on a non-empty answer.
        success: nat,
        /// Destination once every prompt has been answered blank.
        fail: nat,
        /// The name the answer is bound to.
        variable: Seq<char>,
        /// The prompts shown in turn on repeated blank answers.
        prompts: Seq<Seq<char>>,
    },
    /// A multiple-choice node.
    Branching {
        /// The name the chosen option's text is bound to.
        variable: Seq<char>,
        /// The question text shown above the options.
        question: Seq<char>,
        /// Option text and destination, in file order.
        options: Seq<(Seq<char>, nat)>,
    },
    /// A session-ending node.
    Terminating {
        /// The message shown before the session ends.
        message: Seq<char>,
    },
}

impl View for Node {
    type V = NodeView;

    open spec fn view(&self) -> NodeView {
        match self.node_type {
            NodeType::Question(success, fail, ref prompts) => NodeView::Question {
                success: success as nat,
                fail: fail as nat,
                variable: match self.variable {
                    Some(ref v) => v@,
                    None => Seq::empty(),
                },
                prompts: prompts.deep_view(),
            },
            NodeType::Branching(ref question, ref options) => NodeView::Branching {
                variable: match self.variable {
                    Some(ref v) => v@,
                    None => Seq::empty(),
                },
                question: question@,
                options: branch_options_view(options@),
            },
            NodeType::Terminating(ref message) => NodeView::Terminating { message: message@ },
        }
    }
}

impl NodeView {
    /// True when every destination the node can transition to is either a
    /// real index below `len` or the terminating sentinel.
    pub open spec fn targets_ok(self, len: nat) -> bool {
        match self {
            NodeView::Question { success, fail, .. } => (success < len || success
                == TERMINATING_NODE as nat) && (fail < len || fail == TERMINATING_NODE as nat),
            NodeView::Branching { options, .. } => options.len() > 0 && forall|i: int|
                0 <= i < options.len() ==> ((#[trigger] options[i]).1 < len || options[i].1
                    == TERMINATING_NODE as nat),
            NodeView::Terminating { .. } => true,
        }
    }
}

} // verus!
