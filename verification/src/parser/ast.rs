//! The syntax tree of the description language.

use vstd::prelude::*;
use vstd::string::StrSliceExecFns;

verus! {

/// One row of a truth table as plain values: the input pattern and the
/// output value.
pub type Row = (Seq<char>, Seq<char>);

/// The characters of each string of `strings`, in order.
pub open spec fn text_of(strings: Seq<String>) -> Seq<Seq<char>> {
    Seq::new(strings.len(), |i: int| strings[i]@)
}

/// The rows of `pairs` as plain values, in order.
pub open spec fn rows_of(pairs: Seq<(String, String)>) -> Seq<Row> {
    Seq::new(pairs.len(), |i: int| (pairs[i].0@, pairs[i].1@))
}

/// A truth table: rows of input pattern and output value, in source order.
#[derive(Debug, Clone, PartialEq)]
pub struct ResolutionTable {
    pub patterns: Vec<(String, String)>,
}

impl View for ResolutionTable {
    type V = Seq<Row>;

    open spec fn view(&self) -> Seq<Row> {
        rows_of(self.patterns@)
    }
}

/// A named combinational circuit. The order of `inputs` fixes which
/// position of a pattern belongs to which input.
#[derive(Debug, Clone, PartialEq)]
pub struct Definition {
    pub name: String,
    pub inputs: Vec<String>,
    pub outputs: Vec<String>,
    pub resolution: ResolutionTable,
}

/// A `Definition` as plain values.
pub struct DefinitionView {
    pub name: Seq<char>,
    pub inputs: Seq<Seq<char>>,
    pub outputs: Seq<Seq<char>>,
    pub rows: Seq<Row>,
}

impl DefinitionView {
    /// Every pattern has one position for each input.
    pub open spec fn patterns_match_inputs(self) -> bool {
        forall|k: int|
            0 <= k < self.rows.len() ==> (#[trigger] self.rows[k]).0.len() == self.inputs.len()
    }
}

impl View for Definition {
    type V = DefinitionView;

    open spec fn view(&self) -> DefinitionView {
        DefinitionView {
            name: self.name@,
            inputs: text_of(self.inputs@),
            outputs: text_of(self.outputs@),
            rows: self.resolution@,
        }
    }
}

impl Definition {
    /// Whether every pattern of the table has one position for each input.
    pub fn patterns_match_inputs(&self) -> (ok: bool)
        ensures
            ok == self@.patterns_match_inputs(),
    {
        let n: usize = self.inputs.len();
        let rows: usize = self.resolution.patterns.len();
        let mut k: usize = 0;
        while k < rows
            invariant
                k <= rows,
                rows == self.resolution.patterns@.len(),
                n == self.inputs@.len(),
                forall|j: int| 0 <= j < k ==> (#[trigger] self@.rows[j]).0.len() == n,
            decreases rows - k,
        {
            if self.resolution.patterns[k].0.as_str().unicode_len() != n {
                assert(self@.rows[k as int].0.len() != self@.inputs.len());
                return false;
            }
            k = k + 1;
        }
        true
    }
}

/// A call into an installed circuit. An argument is either a literal bit,
/// `0` or `1`, or the name of a bound signal.
#[derive(Debug, Clone, PartialEq)]
pub struct Invocation {
    pub dest: String,
    pub function: String,
    pub arguments: Vec<String>,
}

/// An `Invocation` as plain values.
pub struct InvocationView {
    pub dest: Seq<char>,
    pub function: Seq<char>,
    pub arguments: Seq<Seq<char>>,
}

impl View for Invocation {
    type V = InvocationView;

    open spec fn view(&self) -> InvocationView {
        InvocationView {
            dest: self.dest@,
            function: self.function@,
            arguments: text_of(self.arguments@),
        }
    }
}

/// One top-level item of a program.
#[derive(Debug, Clone, PartialEq)]
pub enum InvocationNode {
    Definition(Definition),
    Invocation(Invocation),
}

/// An `InvocationNode` as plain values.
pub enum NodeView {
    Definition(DefinitionView),
    Invocation(InvocationView),
}

impl View for InvocationNode {
    type V = NodeView;

    open spec fn view(&self) -> NodeView {
        match self {
            InvocationNode::Definition(d) => NodeView::Definition(d@),
            InvocationNode::Invocation(i) => NodeView::Invocation(i@),
        }
    }
}

/// The items of `nodes` as plain values, in order.
pub open spec fn nodes_of(nodes: Seq<InvocationNode>) -> Seq<NodeView> {
    Seq::new(nodes.len(), |i: int| nodes[i]@)
}

} // verus!
