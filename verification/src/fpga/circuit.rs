//! What a compiled circuit consists of, and what a definition asks for.

use vstd::prelude::*;

use crate::fpga::layout::{
    in_route_word, register_offset, region_bytes, lut_room, route_offset, DETECTOR_CONFIG,
    LUT_BASE, MAX_LUTS,
};
use crate::fpga::route::{pack_spec, RouteDescriptor};
use crate::fpga::table::{ambiguous, collapse, lemma_collapse_member};
use crate::parser::ast::{DefinitionView, Row};
use crate::sel4::fpga_config::load_word;

verus! {

/// Why a definition could not be compiled.
#[derive(Debug, Clone, Copy, PartialEq, Eq, Structural)]
pub enum CompileError {
    /// The region or an address range has no room left.
    ResourceExhausted,
    /// Two rows have the same pattern and different values.
    AmbiguousPattern,
    /// A pattern does not have one position for each input.
    PatternLengthMismatch,
}

/// One logical signal carried on two rails, each a register of the
/// circuit. The rails are never asserted together: both low is `Null`, the
/// data rail alone is the logical 0, the null rail alone the logical 1.
#[derive(Debug, Clone, PartialEq, Eq)]
pub struct DualRailSignal {
    pub name: String,
    pub data_rail: u32,
    pub null_rail: u32,
}

/// A `DualRailSignal` as plain values.
pub struct SignalView {
    pub name: Seq<char>,
    pub data_rail: u32,
    pub null_rail: u32,
}

impl View for DualRailSignal {
    type V = SignalView;

    open spec fn view(&self) -> SignalView {
        SignalView { name: self.name@, data_rail: self.data_rail, null_rail: self.null_rail }
    }
}

/// One row of the truth table as hardware: its pattern, its value and the
/// address of the table that holds it.
#[derive(Debug, Clone, PartialEq, Eq)]
pub struct LookupTable {
    pub input_pattern: String,
    pub output_value: String,
    pub config: u32,
}

/// A `LookupTable` as plain values.
pub struct LutView {
    pub input_pattern: Seq<char>,
    pub output_value: Seq<char>,
    pub config: u32,
}

impl View for LookupTable {
    type V = LutView;

    open spec fn view(&self) -> LutView {
        LutView {
            input_pattern: self.input_pattern@,
            output_value: self.output_value@,
            config: self.config,
        }
    }
}

/// The three registers of the completion network.
#[derive(Debug, Clone, Copy, PartialEq, Eq, Structural)]
pub struct CompletionDetector {
    pub data_detect: u32,
    pub null_detect: u32,
    pub output_valid: u32,
}

/// A compiled circuit as plain values.
pub struct CircuitView {
    pub definition: DefinitionView,
    /// The address of the first byte of the circuit's region.
    pub base: nat,
    /// The bytes of the circuit's region.
    pub region: Seq<u8>,
    pub inputs: Seq<SignalView>,
    pub luts: Seq<LutView>,
    pub completion: CompletionDetector,
    pub routes: Seq<RouteDescriptor>,
}

/// The signals of `signals` as plain values, in order.
pub open spec fn signals_of(signals: Seq<DualRailSignal>) -> Seq<SignalView> {
    Seq::new(signals.len(), |i: int| signals[i]@)
}

/// The tables of `luts` as plain values, in order.
pub open spec fn luts_of(luts: Seq<LookupTable>) -> Seq<LutView> {
    Seq::new(luts.len(), |i: int| luts[i]@)
}

/// The signals of a circuit whose inputs are `names`, the first on the
/// registers `first` and `first + 1`.
pub open spec fn expected_inputs(names: Seq<Seq<char>>, first: int) -> Seq<SignalView> {
    Seq::new(
        names.len(),
        |i: int|
            SignalView {
                name: names[i],
                data_rail: (first + 2 * i) as u32,
                null_rail: (first + 2 * i + 1) as u32,
            },
    )
}

/// The tables of a circuit whose truth table is `rows`, the first at
/// address `first`.
pub open spec fn expected_luts(rows: Seq<Row>, first: int) -> Seq<LutView> {
    Seq::new(
        collapse(rows).len(),
        |k: int|
            LutView {
                input_pattern: collapse(rows)[k].0,
                output_value: collapse(rows)[k].1,
                config: (first + k) as u32,
            },
    )
}

/// The detector whose registers start at `first`.
pub open spec fn expected_completion(first: int) -> CompletionDetector {
    CompletionDetector {
        data_detect: first as u32,
        null_detect: (first + 1) as u32,
        output_valid: (first + 2) as u32,
    }
}

/// Position `i` of `pattern` names a bit.
pub open spec fn binds(pattern: Seq<char>, i: int) -> bool {
    0 <= i < pattern.len() && (pattern[i] == '0' || pattern[i] == '1')
}

/// The descriptor that leads input `i` to table `j`.
pub open spec fn input_route(
    inputs: Seq<SignalView>,
    luts: Seq<LutView>,
    i: int,
    j: int,
) -> RouteDescriptor {
    RouteDescriptor {
        source: inputs[i].data_rail,
        destination: luts[j].config,
        bit_position: i as u32,
        value: luts[j].input_pattern[i] == '1',
    }
}

/// The descriptors that lead input `i` to the first `j` tables, in table
/// order. A table whose pattern names no bit at position `i` gets none.
pub open spec fn fan_out(inputs: Seq<SignalView>, luts: Seq<LutView>, i: int, j: int) -> Seq<
    RouteDescriptor,
>
    decreases j,
{
    if j <= 0 {
        Seq::<RouteDescriptor>::empty()
    } else if binds(luts[j - 1].input_pattern, i) {
        fan_out(inputs, luts, i, j - 1).push(input_route(inputs, luts, i, j - 1))
    } else {
        fan_out(inputs, luts, i, j - 1)
    }
}

/// The descriptors that lead the first `i` inputs to all tables, in input
/// order.
pub open spec fn input_routes(inputs: Seq<SignalView>, luts: Seq<LutView>, i: int) -> Seq<
    RouteDescriptor,
>
    decreases i,
{
    if i <= 0 {
        Seq::<RouteDescriptor>::empty()
    } else {
        input_routes(inputs, luts, i - 1) + fan_out(inputs, luts, i - 1, luts.len() as int)
    }
}

/// The descriptor that leads table `j` to the data detector.
pub open spec fn completion_route(luts: Seq<LutView>, completion: CompletionDetector, j: int)
    -> RouteDescriptor {
    RouteDescriptor {
        source: luts[j].config,
        destination: completion.data_detect,
        bit_position: j as u32,
        value: true,
    }
}

/// The descriptors that lead the first `j` tables to the data detector.
pub open spec fn completion_routes(luts: Seq<LutView>, completion: CompletionDetector, j: int)
    -> Seq<RouteDescriptor> {
    Seq::new(j as nat, |k: int| completion_route(luts, completion, k))
}

/// The routing table of a circuit: every input to every table, then every
/// table to the data detector.
pub open spec fn routing_table(
    inputs: Seq<SignalView>,
    luts: Seq<LutView>,
    completion: CompletionDetector,
) -> Seq<RouteDescriptor> {
    input_routes(inputs, luts, inputs.len() as int) + completion_routes(
        luts,
        completion,
        luts.len() as int,
    )
}

/// The compile error of a definition, if it has one: a pattern of the wrong
/// length, else two rows that contradict each other, else more registers or
/// tables than a circuit can hold.
pub open spec fn definition_error(def: DefinitionView) -> Option<CompileError> {
    if !def.patterns_match_inputs() {
        Some(CompileError::PatternLengthMismatch)
    } else if ambiguous(def.rows) {
        Some(CompileError::AmbiguousPattern)
    } else if 2 * def.inputs.len() + 3 > LUT_BASE || collapse(def.rows).len() > MAX_LUTS {
        Some(CompileError::ResourceExhausted)
    } else {
        None
    }
}

impl CircuitView {
    /// What holds of every compiled circuit: the parts are exactly those the
    /// definition asks for, at the addresses the layout gives them, and the
    /// region holds their configuration and is zero everywhere else.
    pub open spec fn wf(self) -> bool {
        let n = self.definition.inputs.len() as int;
        &&& self.definition.patterns_match_inputs()
        &&& !ambiguous(self.definition.rows)
        &&& 2 * n + 3 <= LUT_BASE
        &&& self.luts.len() <= MAX_LUTS
        &&& self.inputs == expected_inputs(self.definition.inputs, 0)
        &&& self.luts == expected_luts(self.definition.rows, LUT_BASE as int)
        &&& self.completion == expected_completion(2 * n)
        &&& self.routes == routing_table(self.inputs, self.luts, self.completion)
        &&& self.region.len() == region_bytes(lut_room(self.definition.rows.len() as int))
        &&& forall|r: int|
            0 <= r < 2 * n + 3 ==> #[trigger] load_word(self.region, register_offset(r)) == if r
                == self.completion.data_detect || r == self.completion.null_detect {
                DETECTOR_CONFIG
            } else {
                0u32
            }
        &&& forall|k: int|
            0 <= k < self.routes.len() ==> load_word(
                self.region,
                route_offset(#[trigger] self.routes[k]),
            ) == pack_spec(self.routes[k])
        &&& forall|b: int|
            0 <= b < self.region.len() && !(register_offset(2 * n) <= b < register_offset(
                2 * n + 2,
            )) && !in_route_word(self.routes, b) ==> #[trigger] self.region[b] == 0u8
    }

    /// The addresses the circuit uses, registers first: both rails of each
    /// input, the three detector registers, then the tables.
    pub open spec fn addresses(self) -> Seq<u32> {
        Seq::new(self.inputs.len(), |i: int| self.inputs[i].data_rail) + Seq::new(
            self.inputs.len(),
            |i: int| self.inputs[i].null_rail,
        ) + seq![
            self.completion.data_detect,
            self.completion.null_detect,
            self.completion.output_valid,
        ] + Seq::new(self.luts.len(), |k: int| self.luts[k].config)
    }
}

/// What the first `j` tables add to the fan-out of input `i`, one table
/// later.
pub proof fn lemma_fan_out_step(inputs: Seq<SignalView>, luts: Seq<LutView>, i: int, j: int)
    requires
        0 <= j,
    ensures
        fan_out(inputs, luts, i, j + 1) == if binds(luts[j].input_pattern, i) {
            fan_out(inputs, luts, i, j).push(input_route(inputs, luts, i, j))
        } else {
            fan_out(inputs, luts, i, j)
        },
{
}

/// The index of the first table whose pattern is `pattern`, if there is
/// one.
pub open spec fn first_match(luts: Seq<LutView>, pattern: Seq<char>) -> Option<int>
    decreases luts.len(),
{
    if luts.len() == 0 {
        None
    } else {
        match first_match(luts.drop_last(), pattern) {
            Some(k) => Some(k),
            None => if luts.last().input_pattern == pattern {
                Some(luts.len() - 1)
            } else {
                None
            },
        }
    }
}

/// What `first_match` finds: a table with the pattern that no earlier table
/// has, or that no table has it.
pub proof fn lemma_first_match(luts: Seq<LutView>, pattern: Seq<char>)
    ensures
        match first_match(luts, pattern) {
            Some(k) => 0 <= k < luts.len() && luts[k].input_pattern == pattern && forall|j: int|
                0 <= j < k ==> (#[trigger] luts[j]).input_pattern != pattern,
            None => forall|j: int|
                0 <= j < luts.len() ==> (#[trigger] luts[j]).input_pattern != pattern,
        },
    decreases luts.len(),
{
    if luts.len() > 0 {
        let init = luts.drop_last();
        lemma_first_match(init, pattern);
        assert forall|j: int| 0 <= j < luts.len() - 1 implies init[j] == luts[j] by {}
        match first_match(init, pattern) {
            Some(k) => {
                assert(init[k] == luts[k]);
                assert forall|j: int| 0 <= j < k implies (#[trigger] luts[j]).input_pattern
                    != pattern by {
                    assert(init[j] == luts[j]);
                }
            },
            None => {
                assert forall|j: int| 0 <= j < luts.len() - 1 implies (#[trigger] luts[j]).input_pattern
                    != pattern by {
                    assert(init[j] == luts[j]);
                }
            },
        }
    }
}

/// A table at index `k` with the pattern, before which no table has it, is
/// the one `first_match` finds.
pub proof fn lemma_first_match_is(luts: Seq<LutView>, pattern: Seq<char>, k: int)
    requires
        0 <= k < luts.len(),
        luts[k].input_pattern == pattern,
        forall|j: int| 0 <= j < k ==> (#[trigger] luts[j]).input_pattern != pattern,
    ensures
        first_match(luts, pattern) == Some(k),
{
    lemma_first_match(luts, pattern);
}

/// No table with the pattern means `first_match` finds none.
pub proof fn lemma_first_match_none(luts: Seq<LutView>, pattern: Seq<char>)
    requires
        forall|j: int| 0 <= j < luts.len() ==> (#[trigger] luts[j]).input_pattern != pattern,
    ensures
        first_match(luts, pattern) is None,
{
    lemma_first_match(luts, pattern);
}

/// No address is used twice within a compiled circuit: all rails, the
/// detector registers and the tables have pairwise distinct addresses.
pub proof fn lemma_addresses_distinct(circuit: CircuitView)
    requires
        circuit.wf(),
    ensures
        forall|a: int, b: int|
            0 <= a < b < circuit.addresses().len() ==> circuit.addresses()[a]
                != circuit.addresses()[b],
{
    let n = circuit.definition.inputs.len() as int;
    let count = circuit.luts.len() as int;
    let all = circuit.addresses();
    assert(circuit.inputs.len() == n);
    assert(all.len() == 2 * n + 3 + count);
    assert forall|a: int| 0 <= a < all.len() implies #[trigger] all[a] == if a < n {
        2 * a
    } else if a < 2 * n {
        2 * (a - n) + 1
    } else if a < 2 * n + 3 {
        a
    } else {
        LUT_BASE + (a - 2 * n - 3)
    } by {
        if a < n {
            assert(circuit.inputs[a].data_rail == 2 * a);
        } else if a < 2 * n {
            assert(circuit.inputs[a - n].null_rail == 2 * (a - n) + 1);
        } else if a < 2 * n + 3 {
        } else {
            assert(circuit.luts[a - 2 * n - 3].config == LUT_BASE + (a - 2 * n - 3));
        }
    }
}

/// A definition with a pattern that does not have one position for each
/// input has a compile error, and it is this one.
pub proof fn lemma_mismatch_is_an_error(def: DefinitionView)
    requires
        !def.patterns_match_inputs(),
    ensures
        definition_error(def) == Some(CompileError::PatternLengthMismatch),
{
}

/// In a compiled circuit every pattern has one position for each input:
/// the patterns of the definition's rows, and those of the lookup tables.
pub proof fn lemma_compiled_patterns_fit(circuit: CircuitView)
    requires
        circuit.wf(),
    ensures
        forall|k: int|
            0 <= k < circuit.definition.rows.len() ==> (#[trigger] circuit.definition.rows[k]).0.len()
                == circuit.definition.inputs.len(),
        forall|j: int|
            0 <= j < circuit.luts.len() ==> (#[trigger] circuit.luts[j]).input_pattern.len()
                == circuit.definition.inputs.len(),
{
    let rows = circuit.definition.rows;
    assert forall|j: int| 0 <= j < circuit.luts.len() implies (#[trigger] circuit.luts[j]).input_pattern.len()
        == circuit.definition.inputs.len() by {
        lemma_collapse_member(rows, j);
        let k = choose|k: int| 0 <= k < rows.len() && #[trigger] rows[k] == collapse(rows)[j];
        assert(rows[k].0.len() == circuit.definition.inputs.len());
    }
}

} // verus!
