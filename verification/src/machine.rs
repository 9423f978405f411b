//! The execution engine: a state machine over the parsed node list.
//!
//! The machine holds the ordered node list, the variable environment and
//! the execution state: the current node's identifier and the attempt
//! counter (which prompt of the current question node has been shown).
//! Each step consumes at most one line of input; the session ends when
//! the current identifier reaches the terminating sentinel.

use vstd::prelude::*;

use crate::env::{resolve_spec, Env};
use crate::node::{
    branch_options_view, BranchOption, Node, NodeId, NodeType, NodeView, TERMINATING_NODE,
};
use crate::text::{dec_rep, digits_value, is_digits, strip_breaks, trim_whitespace};

verus! {

/// The mathematical view of a whole machine.
pub ghost struct MachineView {
    /// The current node's identifier, or the terminating sentinel.
    pub current: nat,
    /// Which prompt of the current question node has been shown.
    pub attempt: nat,
    /// The variable bindings captured so far.
    pub env: Map<Seq<char>, Seq<char>>,
    /// The node list, indexed by node identifier.
    pub nodes: Seq<NodeView>,
}

impl MachineView {
    /// True once the machine has halted.
    pub open spec fn finished(self) -> bool {
        self.current == TERMINATING_NODE as nat
    }

    /// Well-formedness: the sentinel is not a real index, every
    /// destination is a real index or the sentinel, the current identifier
    /// is a real index or the sentinel, and the attempt counter never
    /// passes the current question node's prompt count (and is zero on
    /// the other variants).
    pub open spec fn wf(self) -> bool {
        &&& self.nodes.len() <= TERMINATING_NODE as nat
        &&& forall|i: int|
            0 <= i < self.nodes.len() ==> (#[trigger] self.nodes[i]).targets_ok(self.nodes.len())
        &&& self.current < self.nodes.len() || self.current == TERMINATING_NODE as nat
        &&& self.current < self.nodes.len() ==> match self.nodes[self.current as int] {
            NodeView::Question { prompts, .. } => self.attempt <= prompts.len(),
            _ => self.attempt == 0,
        }
        &&& self.current == TERMINATING_NODE as nat ==> self.attempt == 0
    }

    /// True when the machine's next step reads a line of input: always,
    /// except on a question node whose prompts are exhausted.
    pub open spec fn awaiting(self) -> bool
        recommends
            !self.finished(),
            self.current < self.nodes.len(),
    {
        match self.nodes[self.current as int] {
            NodeView::Question { prompts, .. } => self.attempt < prompts.len(),
            _ => true,
        }
    }
}

/// The number a choice line denotes: an optional leading `+`, then
/// decimal digits denoting a value a machine word can hold.  `None` for
/// anything else.
pub open spec fn choice_value(line: Seq<char>) -> Option<nat> {
    let digits = if line.len() > 0 && line[0] == '+' {
        line.skip(1)
    } else {
        line
    };
    if is_digits(digits) && digits_value(digits) <= usize::MAX {
        Some(digits_value(digits))
    } else {
        None
    }
}

/// What consuming one (already newline-stripped) input line does to the
/// machine.
pub open spec fn consume_spec(m: MachineView, line: Seq<char>) -> MachineView
    recommends
        m.wf(),
        !m.finished(),
        m.awaiting(),
{
    match m.nodes[m.current as int] {
        NodeView::Question { success, fail, variable, prompts } => {
            if line.len() == 0 {
                MachineView { attempt: m.attempt + 1, ..m }
            } else {
                MachineView {
                    current: success,
                    attempt: 0,
                    env: m.env.insert(variable, line),
                    ..m
                }
            }
        },
        NodeView::Branching { variable, question, options } => {
            match choice_value(line) {
                Some(n) => {
                    if 1 <= n && n <= options.len() {
                        MachineView {
                            current: options[n - 1].1,
                            attempt: 0,
                            env: m.env.insert(variable, options[n - 1].0),
                            ..m
                        }
                    } else {
                        m
                    }
                },
                None => m,
            }
        },
        NodeView::Terminating { .. } => MachineView {
            current: TERMINATING_NODE as nat,
            attempt: 0,
            ..m
        },
    }
}

/// What the input-free step does on a question node whose prompts are
/// exhausted: transition to the fail destination.
pub open spec fn exhaust_spec(m: MachineView) -> MachineView
    recommends
        m.wf(),
        !m.finished(),
        !m.awaiting(),
{
    match m.nodes[m.current as int] {
        NodeView::Question { fail, .. } => MachineView { current: fail, attempt: 0, ..m },
        _ => m,
    }
}

/// How the machine answers one consumed line.
pub open spec fn outcome_spec(m: MachineView, line: Seq<char>) -> StepOutcome
    recommends
        m.wf(),
        !m.finished(),
        m.awaiting(),
{
    match m.nodes[m.current as int] {
        NodeView::Branching { options, .. } => {
            if line.len() == 0 {
                StepOutcome::EmptyChoice
            } else {
                match choice_value(line) {
                    Some(n) => {
                        if 1 <= n && n <= options.len() {
                            StepOutcome::Accepted
                        } else {
                            StepOutcome::InvalidChoice
                        }
                    },
                    None => StepOutcome::UnreadableChoice,
                }
            }
        },
        _ => StepOutcome::Accepted,
    }
}

/// What the engine reports about one consumed line of input.
#[derive(Clone, Copy, Debug, PartialEq, Eq, Structural)]
pub enum StepOutcome {
    /// The line was taken: an answer stored, a choice made, an attempt
    /// counted, or a terminating node dismissed.
    Accepted,
    /// A branching node got a blank line; nothing changed.
    EmptyChoice,
    /// A branching node got a number outside its option range; nothing
    /// changed.
    InvalidChoice,
    /// A branching node got a line that is not a number; nothing changed.
    UnreadableChoice,
}

/// Containing structure for all nodes.
/// Nodes are registered in sequential order.
#[derive(Debug, PartialEq)]
pub struct Nodes {
    /// Current node tracker.
    current_node: NodeId,
    /// User-defined mapping of names to values.
    env: Env,
    /// Internal state tracker: the attempt counter.
    internal_state: usize,
    /// The ordered node list.
    nodes: Vec<Node>,
}

impl View for Nodes {
    type V = MachineView;

    closed spec fn view(&self) -> MachineView {
        MachineView {
            current: self.current_node as nat,
            attempt: self.internal_state as nat,
            env: self.env@,
            nodes: self.nodes@.map_values(|n: Node| n@),
        }
    }
}

impl Default for Nodes {
    /// An empty machine: no nodes, no bindings, standing at identifier 0.
    fn default() -> (r: Self)
        ensures
            r@ == (MachineView {
                current: 0,
                attempt: 0,
                env: Map::<Seq<char>, Seq<char>>::empty(),
                nodes: Seq::<NodeView>::empty(),
            }),
    {
        let r = Nodes {
            current_node: 0,
            env: Env::default(),
            internal_state: 0,
            nodes: Vec::new(),
        };
        proof {
            assert(r.nodes@.map_values(|n: Node| n@) =~= Seq::<NodeView>::empty());
        }
        r
    }
}

impl Nodes {
    /// Add a question node to the set.
    pub fn register_question_node(
        &mut self,
        if_answered: NodeId,
        if_terminate: NodeId,
        variable_name: &str,
        questions: Vec<String>,
    )
        ensures
            final(self)@ == (MachineView {
                nodes: old(self)@.nodes.push(
                    NodeView::Question {
                        success: if_answered as nat,
                        fail: if_terminate as nat,
                        variable: variable_name@,
                        prompts: questions.deep_view(),
                    },
                ),
                ..old(self)@
            }),
    {
        let ghost qview = questions.deep_view();
        let node = Node::new(
            NodeType::Question(if_answered, if_terminate, questions),
            Some(variable_name.to_owned()),
        );
        self.push_node(node);
        proof {
            assert(final(self)@.nodes =~= old(self)@.nodes.push(
                NodeView::Question {
                    success: if_answered as nat,
                    fail: if_terminate as nat,
                    variable: variable_name@,
                    prompts: qview,
                },
            ));
        }
    }

    /// Add a branching node to the set.
    pub fn register_branching_node(
        &mut self,
        variable_name: &str,
        question: &str,
        options: Vec<BranchOption>,
    )
        ensures
            final(self)@ == (MachineView {
                nodes: old(self)@.nodes.push(
                    NodeView::Branching {
                        variable: variable_name@,
                        question: question@,
                        options: branch_options_view(options@),
                    },
                ),
                ..old(self)@
            }),
    {
        let ghost oview = branch_options_view(options@);
        let node = Node::new(
            NodeType::Branching(question.to_owned(), options),
            Some(variable_name.to_owned()),
        );
        self.push_node(node);
        proof {
            assert(final(self)@.nodes =~= old(self)@.nodes.push(
                NodeView::Branching {
                    variable: variable_name@,
                    question: question@,
                    options: oview,
                },
            ));
        }
    }

    /// Add a terminating node to the set.
    pub fn register_terminating_node(&mut self, text: &str)
        ensures
            final(self)@ == (MachineView {
                nodes: old(self)@.nodes.push(NodeView::Terminating { message: text@ }),
                ..old(self)@
            }),
    {
        let node = Node::new(NodeType::Terminating(text.to_owned()), None);
        self.push_node(node);
        proof {
            assert(final(self)@.nodes =~= old(self)@.nodes.push(
                NodeView::Terminating { message: text@ },
            ));
        }
    }

    /// Append one node; its identifier is the count of nodes before it.
    fn push_node(&mut self, node: Node)
        ensures
            final(self)@ == (MachineView { nodes: old(self)@.nodes.push(node@), ..old(self)@ }),
    {
        self.nodes.push(node);
        proof {
            assert(self.nodes@.drop_last() =~= old(self).nodes@);
            assert(self@.nodes =~= old(self)@.nodes.push(self.nodes@.last()@));
        }
    }

    /// State transition: move to `new_state` and reset the attempt
    /// counter.
    pub fn state_transition(&mut self, new_state: NodeId)
        ensures
            final(self)@ == (MachineView {
                current: new_state as nat,
                attempt: 0,
                ..old(self)@
            }),
    {
        self.current_node = new_state;
        self.internal_state = 0;
    }

    /// True once the machine has halted.
    pub fn finished(&self) -> (r: bool)
        ensures
            r == self@.finished(),
    {
        self.current_node == TERMINATING_NODE
    }

    /// The current node's identifier, or the terminating sentinel.
    pub fn current_id(&self) -> (r: NodeId)
        ensures
            r as nat == self@.current,
    {
        self.current_node
    }

    /// How many prompts of the current question node have been shown.
    pub fn attempt(&self) -> (r: usize)
        ensures
            r as nat == self@.attempt,
    {
        self.internal_state
    }

    /// The session's variable environment.
    pub fn environment(&self) -> (r: &Env)
        ensures
            r@ == self@.env,
    {
        &self.env
    }

    /// True when the machine's next step reads a line of input.
    pub fn awaiting_input(&self) -> (r: bool)
        requires
            self@.wf(),
            !self@.finished(),
        ensures
            r == self@.awaiting(),
    {
        match &self.nodes[self.current_node].node_type {
            NodeType::Question(_, _, prompts) => self.internal_state < prompts.len(),
            _ => true,
        }
    }

    /// Take the input-free step: on a question node whose prompts are
    /// exhausted, transition to the fail destination.
    pub fn advance_exhausted(&mut self)
        requires
            old(self)@.wf(),
            !old(self)@.finished(),
            !old(self)@.awaiting(),
        ensures
            final(self)@ == exhaust_spec(old(self)@),
            final(self)@.wf(),
    {
        match &self.nodes[self.current_node].node_type {
            NodeType::Question(_, fail, _) => {
                let destination = *fail;
                self.state_transition(destination);
            },
            _ => {
                proof {
                    assert(false);
                }
            },
        }
    }

    /// Consume one raw input line (newlines are stripped first) and step
    /// the machine: store an answer, take a choice, count a blank
    /// attempt, or dismiss a terminating node.  On a branching node, a
    /// blank, out-of-range or unreadable line changes nothing, and the
    /// returned outcome says which of these happened.
    pub fn consume_line(&mut self, line: &str) -> (r: StepOutcome)
        requires
            old(self)@.wf(),
            !old(self)@.finished(),
            old(self)@.awaiting(),
        ensures
            final(self)@ == consume_spec(old(self)@, strip_breaks(line@)),
            r == outcome_spec(old(self)@, strip_breaks(line@)),
            final(self)@.wf(),
    {
        let trimmed = trim_whitespace(line);
        let idx = self.current_node;
        match &self.nodes[idx].node_type {
            NodeType::Question(success, _, prompts) => {
                if trimmed.as_str().unicode_len() == 0 {
                    let prompt_count = prompts.len();
                    proof {
                        assert(self.internal_state < prompt_count);
                    }
                    self.internal_state = self.internal_state + 1;
                } else {
                    let destination = *success;
                    let variable = match &self.nodes[idx].variable {
                        Some(v) => v.clone(),
                        None => String::new(),
                    };
                    self.env.set_variable(variable.as_str(), trimmed);
                    self.state_transition(destination);
                }
                StepOutcome::Accepted
            },
            NodeType::Branching(_, options) => {
                if trimmed.as_str().unicode_len() == 0 {
                    StepOutcome::EmptyChoice
                } else {
                    match parse_choice(trimmed.as_str()) {
                        Some(n) => {
                            if 1 <= n && n <= options.len() {
                                let text = options[n - 1].0.clone();
                                let destination = options[n - 1].1;
                                let variable = match &self.nodes[idx].variable {
                                    Some(v) => v.clone(),
                                    None => String::new(),
                                };
                                self.env.set_variable(variable.as_str(), text);
                                self.state_transition(destination);
                                StepOutcome::Accepted
                            } else {
                                StepOutcome::InvalidChoice
                            }
                        },
                        None => StepOutcome::UnreadableChoice,
                    }
                }
            },
            NodeType::Terminating(_) => {
                self.state_transition(TERMINATING_NODE);
                StepOutcome::Accepted
            },
        }
    }
}

/// The numbered listing of branch options, one per line, counting from
/// `idx`: `"1. Red\n2. Blue\n"`.
pub open spec fn options_listing(options: Seq<(Seq<char>, nat)>, idx: nat) -> Seq<char>
    decreases options.len(),
{
    if options.len() == 0 {
        Seq::empty()
    } else {
        dec_rep(idx) + ". "@ + options[0].0 + "\n"@ + options_listing(
            options.drop_first(),
            idx + 1,
        )
    }
}

/// What the machine displays before reading a line: the current node's
/// resolved text together with its input cue.
pub open spec fn render_spec(m: MachineView) -> Seq<char>
    recommends
        m.wf(),
        !m.finished(),
        m.awaiting(),
{
    match m.nodes[m.current as int] {
        NodeView::Question { prompts, .. } => resolve_spec(m.env, prompts[m.attempt as int])
            + "\nEnter string> "@,
        NodeView::Branching { question, options, .. } => resolve_spec(m.env, question) + "\n"@
            + options_listing(options, 1) + "\n"@ + "Enter choice> "@,
        NodeView::Terminating { message } => resolve_spec(m.env, message)
            + "\nGoodbye (enter anything to exit)> "@,
    }
}

impl Nodes {
    /// Decide whether the machine is well-formed: every destination a
    /// real index or the sentinel, the sentinel not a real index, and the
    /// current identifier and attempt counter in bounds.
    #[verifier::loop_isolation(false)]
    pub fn check_well_formed(&self) -> (r: bool)
        ensures
            r == self@.wf(),
    {
        let len = self.nodes.len();
        if len > TERMINATING_NODE {
            return false;
        }
        let mut i: usize = 0;
        while i < len
            invariant
                i <= len,
                forall|p: int|
                    0 <= p < i ==> (#[trigger] self@.nodes[p]).targets_ok(len as nat),
            decreases len - i,
        {
            match &self.nodes[i].node_type {
                NodeType::Question(success, fail, _) => {
                    if !(*success < len || *success == TERMINATING_NODE) {
                        proof {
                            assert(!self@.nodes[i as int].targets_ok(len as nat));
                        }
                        return false;
                    }
                    if !(*fail < len || *fail == TERMINATING_NODE) {
                        proof {
                            assert(!self@.nodes[i as int].targets_ok(len as nat));
                        }
                        return false;
                    }
                },
                NodeType::Branching(_, options) => {
                    let count = options.len();
                    if count == 0 {
                        return false;
                    }
                    let mut k: usize = 0;
                    while k < count
                        invariant
                            k <= count,
                            forall|q: int|
                                0 <= q < k ==> ((#[trigger] branch_options_view(options@)[q]).1
                                    < len as nat || branch_options_view(options@)[q].1
                                    == TERMINATING_NODE as nat),
                        decreases count - k,
                    {
                        let destination = options[k].1;
                        if !(destination < len || destination == TERMINATING_NODE) {
                            proof {
                                assert(branch_options_view(options@)[k as int].1
                                    == destination as nat);
                            }
                            return false;
                        }
                        k = k + 1;
                    }
                },
                NodeType::Terminating(_) => {},
            }
            i = i + 1;
        }
        if !(self.current_node < len || self.current_node == TERMINATING_NODE) {
            return false;
        }
        if self.current_node == TERMINATING_NODE {
            return self.internal_state == 0;
        }
        match &self.nodes[self.current_node].node_type {
            NodeType::Question(_, _, prompts) => self.internal_state <= prompts.len(),
            _ => self.internal_state == 0,
        }
    }

    /// Render the current node: its resolved text and input cue.
    pub fn render(&self) -> (r: String)
        requires
            self@.wf(),
            !self@.finished(),
            self@.awaiting(),
        ensures
            r@ == render_spec(self@),
    {
        match &self.nodes[self.current_node].node_type {
            NodeType::Question(_, _, prompts) => {
                proof {
                    assert(self.internal_state < prompts.deep_view().len());
                }
                let mut r = self.env.resolve_template(prompts[self.internal_state].as_str());
                r.append("\nEnter string> ");
                proof {
                    assert(prompts.deep_view()[self.internal_state as int] == prompts@[self.internal_state as int]@);
                }
                r
            },
            NodeType::Branching(question, options) => {
                let ghost oview = branch_options_view(options@);
                let ghost base = resolve_spec(self@.env, question@) + "\n"@;
                let mut r = self.env.resolve_template(question.as_str());
                r.append("\n");
                let n = options.len();
                let mut i: usize = 0;
                proof {
                    assert(oview.skip(0) =~= oview);
                }
                while i < n
                    invariant
                        n == oview.len(),
                        i <= n,
                        branch_options_view(options@) == oview,
                        r@ + options_listing(oview.skip(i as int), (i + 1) as nat) == base
                            + options_listing(oview, 1),
                    decreases n - i,
                {
                    let num = crate::text::usize_to_string(i + 1);
                    r.append(num.as_str());
                    r.append(". ");
                    r.append(options[i].0.as_str());
                    r.append("\n");
                    proof {
                        assert(oview.skip(i as int)[0] == oview[i as int]);
                        assert(oview.skip(i as int).drop_first() =~= oview.skip(i + 1 as int));
                        assert(oview[i as int].0 == options@[i as int].0@);
                        assert(r@ + options_listing(oview.skip(i + 1 as int), (i + 2) as nat)
                            =~= base + options_listing(oview, 1));
                    }
                    i = i + 1;
                }
                proof {
                    assert(oview.skip(n as int) =~= Seq::<(Seq<char>, nat)>::empty());
                    assert(r@ =~= base + options_listing(oview, 1));
                }
                r.append("\n");
                r.append("Enter choice> ");
                proof {
                    assert(r@ =~= render_spec(self@));
                }
                r
            },
            NodeType::Terminating(message) => {
                let mut r = self.env.resolve_template(message.as_str());
                r.append("\nGoodbye (enter anything to exit)> ");
                r
            },
        }
    }
}

/// Feeding the machine `k` blank lines in a row.
pub open spec fn feed_blank(m: MachineView, k: nat) -> MachineView
    decreases k,
{
    if k == 0 {
        m
    } else {
        consume_spec(feed_blank(m, (k - 1) as nat), Seq::empty())
    }
}

/// On a question node, each blank line only advances the attempt counter:
/// node, environment and node list stay as they were.
proof fn lemma_feed_blank_steps(m: MachineView, j: nat)
    requires
        m.wf(),
        !m.finished(),
        m.nodes[m.current as int] matches NodeView::Question { prompts, .. } && m.attempt + j
            <= prompts.len(),
    ensures
        feed_blank(m, j) == (MachineView { attempt: (m.attempt + j) as nat, ..m }),
    decreases j,
{
    if j == 0 {
        assert(feed_blank(m, 0) == m);
        assert((MachineView { attempt: m.attempt, ..m }) == m);
    } else {
        lemma_feed_blank_steps(m, (j - 1) as nat);
    }
}

/// A question node with `k` prompts, starting fresh, transitions to its
/// fail destination after exactly `k` blank answers: fewer leave the
/// machine on the same node still awaiting input, the `k`-th stops it
/// awaiting input, and the input-free step then moves it to the fail
/// destination with the attempt counter back at zero and the environment
/// untouched.
pub proof fn lemma_question_exhaustion(m: MachineView, k: nat)
    requires
        m.wf(),
        !m.finished(),
        m.attempt == 0,
        m.nodes[m.current as int] matches NodeView::Question { prompts, .. } && prompts.len()
            == k,
    ensures
        forall|j: nat|
            j < k ==> (#[trigger] feed_blank(m, j)).awaiting() && feed_blank(m, j).current
                == m.current && feed_blank(m, j).env == m.env && feed_blank(m, j).attempt == j,
        !feed_blank(m, k).awaiting(),
        feed_blank(m, k).current == m.current,
        feed_blank(m, k).env == m.env,
        exhaust_spec(feed_blank(m, k)) == (MachineView {
            current: m.nodes[m.current as int]->Question_fail,
            attempt: 0,
            ..m
        }),
{
    assert forall|j: nat| j < k implies (#[trigger] feed_blank(m, j)).awaiting() && feed_blank(
        m,
        j,
    ).current == m.current && feed_blank(m, j).env == m.env && feed_blank(m, j).attempt == j by {
        lemma_feed_blank_steps(m, j);
    }
    lemma_feed_blank_steps(m, k);
}

/// A branching node rejects a blank line, an out-of-range number and an
/// unreadable line alike: the machine, its current node and its
/// environment stay exactly as they were.
pub proof fn lemma_branching_rejects(m: MachineView, line: Seq<char>)
    requires
        m.wf(),
        !m.finished(),
        m.nodes[m.current as int] is Branching,
        match choice_value(line) {
            Some(n) => !(1 <= n && n <= m.nodes[m.current as int]->Branching_options.len()),
            None => true,
        },
    ensures
        consume_spec(m, line) == m,
{
}

/// Read a choice line as a number: an optional leading `+`, then decimal
/// digits.
fn parse_choice(s: &str) -> (r: Option<usize>)
    ensures
        match r {
            Some(v) => choice_value(s@) == Some(v as nat),
            None => choice_value(s@) is None,
        },
{
    let n = s.unicode_len();
    if n > 0 && s.get_char(0) == '+' {
        let digits = s.substring_char(1, n);
        proof {
            assert(digits@ =~= s@.skip(1));
        }
        crate::text::parse_digits(digits)
    } else {
        crate::text::parse_digits(s)
    }
}

} // verus!

