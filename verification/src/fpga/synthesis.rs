//! The circuit compiler.
//!
//! A circuit is compiled into a region of its own. Addresses are handed out
//! by the circuit itself, upwards from the start of each range, so no two
//! circuits ever share allocation state.

use vstd::prelude::*;
use vstd::string::StrSliceExecFns;

use crate::fpga::circuit::{
    definition_error, expected_completion, expected_inputs, expected_luts, first_match,
    input_route, input_routes, completion_route, completion_routes, fan_out,
    lemma_fan_out_step, lemma_first_match_is, lemma_first_match_none, luts_of, routing_table,
    signals_of, CircuitView, CompileError, CompletionDetector, DualRailSignal, LookupTable,
};
use crate::fpga::layout::{
    encodable, lemma_registers_after_completion, lemma_route_added, lemma_route_frame,
    lemma_store_zero, lut_room, only_routes_changed, region_bytes, register_offset, route_offset,
    route_slot, routes_written, zeroed, DETECTOR_CONFIG, LUT_BASE, MAX_LUTS, ROUTE_BASE,
    ROUTE_FANOUT,
};
use crate::fpga::route::{pack_spec, RouteDescriptor, ADDRESS_LIMIT, POSITION_LIMIT};
use crate::fpga::table::{
    ambiguous, collapse, first_with_pattern, is_ambiguous, lemma_collapse_len,
    lemma_collapse_prefix, lemma_collapse_step,
};
use crate::parser::ast::{rows_of, Definition, DefinitionView};
use crate::sel4::fpga_config::{
    load_word, store_word, word_in_bounds, FpgaConfig, FpgaRegion, FpgaRegionMapping,
    WORD_BYTES,
};

verus! {

/// What a successful compilation of `def` leaves behind: a compiled circuit
/// of that definition whose region starts where `before` had its next free
/// address, and a configuration interface that has handed out that region
/// and nothing else.
pub open spec fn compiles_to(
    before: FpgaConfig,
    def: DefinitionView,
    circuit: FpgaCircuit,
    after: FpgaConfig,
) -> bool {
    &&& circuit.wf()
    &&& circuit@.definition == def
    &&& circuit@.base == before.next_free()
    &&& after.base() == before.base()
    &&& after.mapped_bytes() == before.mapped_bytes() + region_bytes(
        lut_room(def.rows.len() as int),
    )
}

/// The regions of two circuits compiled one after the other from one
/// configuration interface share no address, whatever else was mapped in
/// between.
pub proof fn lemma_later_circuit_is_disjoint(
    before: FpgaConfig,
    first_def: DefinitionView,
    first: FpgaCircuit,
    between: FpgaConfig,
    later: FpgaConfig,
    second_def: DefinitionView,
    second: FpgaCircuit,
    after: FpgaConfig,
)
    requires
        compiles_to(before, first_def, first, between),
        later.base() == between.base(),
        later.mapped_bytes() >= between.mapped_bytes(),
        compiles_to(later, second_def, second, after),
    ensures
        first@.base + first@.region.len() <= second@.base,
{
    first.lemma_view_wf();
}

/// A compiled circuit: a definition together with the hardware synthesized
/// for it and the region that holds its configuration.
#[derive(Debug)]
pub struct FpgaCircuit {
    definition: Definition,
    region: FpgaRegionMapping,
    next_register: u32,
    next_lut: u32,
    lut_capacity: u32,
    inputs: Vec<DualRailSignal>,
    luts: Vec<LookupTable>,
    completion: CompletionDetector,
    routes: Vec<RouteDescriptor>,
}

impl View for FpgaCircuit {
    type V = CircuitView;

    closed spec fn view(&self) -> CircuitView {
        CircuitView {
            definition: self.definition@,
            base: self.region.base_address(),
            region: self.region@,
            inputs: signals_of(self.inputs@),
            luts: luts_of(self.luts@),
            completion: self.completion,
            routes: self.routes@,
        }
    }
}

impl FpgaCircuit {
    /// What holds of a circuit at every step of synthesis: the region has
    /// the size its table capacity asks for, and the allocators are inside
    /// their ranges.
    pub closed spec fn allocators_wf(&self) -> bool {
        &&& self.region.wf()
        &&& self.lut_capacity <= MAX_LUTS
        &&& self.region.capacity() == region_bytes(self.lut_capacity as int)
        &&& self.region@.len() == self.region.capacity()
        &&& self.next_register <= LUT_BASE
        &&& LUT_BASE <= self.next_lut <= LUT_BASE + self.lut_capacity
    }

    /// The circuit is compiled: its parts are those its definition asks for.
    pub closed spec fn wf(&self) -> bool {
        &&& self.allocators_wf()
        &&& self@.wf()
        &&& self.lut_capacity == lut_room(self.definition@.rows.len() as int)
        &&& self.region.kind() == FpgaRegion::Configuration
    }

    /// In a compiled circuit the view is well formed.
    pub proof fn lemma_view_wf(&self)
        requires
            self.wf(),
        ensures
            self@.wf(),
    {
    }

    /// Hands out the next register address and sets the register's word to
    /// zero. Fails with `ResourceExhausted` when all registers are taken.
    fn allocate_register(&mut self) -> (r: Result<u32, CompileError>)
        requires
            old(self).allocators_wf(),
        ensures
            final(self).allocators_wf(),
            final(self).definition == old(self).definition,
            final(self).next_lut == old(self).next_lut,
            final(self).lut_capacity == old(self).lut_capacity,
            final(self).inputs == old(self).inputs,
            final(self).luts == old(self).luts,
            final(self).completion == old(self).completion,
            final(self).routes == old(self).routes,
            final(self).region.base_address() == old(self).region.base_address(),
            final(self).region.kind() == old(self).region.kind(),
            old(self).next_register < LUT_BASE ==> r == Ok::<u32, CompileError>(
                old(self).next_register,
            ) && final(self).next_register == old(self).next_register + 1 && final(self).region@
                == store_word(
                old(self).region@,
                register_offset(old(self).next_register as int),
                0,
            ),
            old(self).next_register >= LUT_BASE ==> r == Err::<u32, CompileError>(
                CompileError::ResourceExhausted,
            ) && final(self).next_register == old(self).next_register && final(self).region@
                == old(self).region@,
    {
        if self.next_register >= LUT_BASE {
            return Err(CompileError::ResourceExhausted);
        }
        let reg: u32 = self.next_register;
        match self.region.write_word(reg as usize * WORD_BYTES, 0) {
            Ok(()) => {
                self.next_register = reg + 1;
                Ok(reg)
            },
            Err(_) => Err(CompileError::ResourceExhausted),
        }
    }

    /// Hands out the next lookup-table address. Fails with
    /// `ResourceExhausted` when the region has no routing row left for
    /// another table.
    fn allocate_lut(&mut self) -> (r: Result<u32, CompileError>)
        requires
            old(self).allocators_wf(),
        ensures
            final(self).allocators_wf(),
            final(self).definition == old(self).definition,
            final(self).next_register == old(self).next_register,
            final(self).lut_capacity == old(self).lut_capacity,
            final(self).inputs == old(self).inputs,
            final(self).luts == old(self).luts,
            final(self).completion == old(self).completion,
            final(self).routes == old(self).routes,
            final(self).region == old(self).region,
            old(self).next_lut < LUT_BASE + old(self).lut_capacity ==> r == Ok::<
                u32,
                CompileError,
            >(old(self).next_lut) && final(self).next_lut == old(self).next_lut + 1,
            old(self).next_lut >= LUT_BASE + old(self).lut_capacity ==> r == Err::<
                u32,
                CompileError,
            >(CompileError::ResourceExhausted) && final(self).next_lut == old(self).next_lut,
    {
        if self.next_lut - LUT_BASE >= self.lut_capacity {
            return Err(CompileError::ResourceExhausted);
        }
        let lut: u32 = self.next_lut;
        self.next_lut = lut + 1;
        Ok(lut)
    }
    /// Gives every input of the definition its two rails, in input order.
    /// Fails with `ResourceExhausted` when the registers do not suffice.
    fn create_ncl_inputs(&mut self) -> (r: Result<Vec<DualRailSignal>, CompileError>)
        requires
            old(self).allocators_wf(),
            zeroed(old(self).region@),
        ensures
            final(self).allocators_wf(),
            final(self).definition == old(self).definition,
            final(self).next_lut == old(self).next_lut,
            final(self).lut_capacity == old(self).lut_capacity,
            final(self).inputs == old(self).inputs,
            final(self).luts == old(self).luts,
            final(self).completion == old(self).completion,
            final(self).routes == old(self).routes,
            final(self).region.base_address() == old(self).region.base_address(),
            final(self).region.kind() == old(self).region.kind(),
            final(self).region@ == old(self).region@,
            old(self).next_register + 2 * old(self).definition@.inputs.len() <= LUT_BASE ==> r is Ok
                && signals_of(r->Ok_0@) == expected_inputs(
                old(self).definition@.inputs,
                old(self).next_register as int,
            ) && final(self).next_register == old(self).next_register + 2 * old(self).definition@.inputs.len(),
            old(self).next_register + 2 * old(self).definition@.inputs.len() > LUT_BASE ==> r is Err
                && r->Err_0 == CompileError::ResourceExhausted,
    {
        let ghost names = self.definition@.inputs;
        let ghost first = self.next_register as int;
        let n: usize = self.definition.inputs.len();
        let mut registers: Vec<DualRailSignal> = Vec::new();
        let mut i: usize = 0;
        while i < n
            invariant
                i <= n,
                n == names.len(),
                names == self.definition@.inputs,
                first == old(self).next_register,
                self.allocators_wf(),
                zeroed(self.region@),
                self.definition == old(self).definition,
                self.next_lut == old(self).next_lut,
                self.lut_capacity == old(self).lut_capacity,
                self.inputs == old(self).inputs,
                self.luts == old(self).luts,
                self.completion == old(self).completion,
                self.routes == old(self).routes,
                self.region.base_address() == old(self).region.base_address(),
                self.region.kind() == old(self).region.kind(),
                self.region@ == old(self).region@,
                self.next_register == first + 2 * i,
                registers@.len() == i,
                forall|k: int|
                    0 <= k < i ==> (#[trigger] registers@[k])@ == expected_inputs(names, first)[k],
            decreases n - i,
        {
            let ghost before = self.region@;
            let data_rail: u32 = match self.allocate_register() {
                Ok(a) => a,
                Err(e) => {
                    return Err(e);
                },
            };
            proof {
                lemma_store_zero(before, register_offset(data_rail as int));
            }
            let null_rail: u32 = match self.allocate_register() {
                Ok(a) => a,
                Err(e) => {
                    return Err(e);
                },
            };
            proof {
                lemma_store_zero(before, register_offset(null_rail as int));
            }
            let name: String = self.definition.inputs[i].clone();
            registers.push(DualRailSignal { name, data_rail, null_rail });
            i = i + 1;
        }
        assert(signals_of(registers@) =~= expected_inputs(names, first));
        Ok(registers)
    }

    /// Gives every distinct pattern of the table a lookup table, in row
    /// order. A row that repeats an earlier row adds nothing.
    ///
    /// Fails with `AmbiguousPattern` when two rows have the same pattern and
    /// different values, and otherwise with `ResourceExhausted` when the
    /// table addresses do not suffice.
    fn create_luts(&mut self) -> (r: Result<Vec<LookupTable>, CompileError>)
        requires
            old(self).allocators_wf(),
        ensures
            final(self).allocators_wf(),
            final(self).definition == old(self).definition,
            final(self).next_register == old(self).next_register,
            final(self).lut_capacity == old(self).lut_capacity,
            final(self).inputs == old(self).inputs,
            final(self).luts == old(self).luts,
            final(self).completion == old(self).completion,
            final(self).routes == old(self).routes,
            final(self).region == old(self).region,
            ambiguous(old(self).definition@.rows) ==> r is Err && r->Err_0
                == CompileError::AmbiguousPattern,
            !ambiguous(old(self).definition@.rows) && old(self).next_lut + collapse(
                old(self).definition@.rows,
            ).len() > LUT_BASE + old(self).lut_capacity ==> r is Err && r->Err_0
                == CompileError::ResourceExhausted,
            !ambiguous(old(self).definition@.rows) && old(self).next_lut + collapse(
                old(self).definition@.rows,
            ).len() <= LUT_BASE + old(self).lut_capacity ==> r is Ok && luts_of(r->Ok_0@)
                == expected_luts(old(self).definition@.rows, old(self).next_lut as int) && final(self).next_lut == old(self).next_lut + collapse(old(self).definition@.rows).len(),
    {
        if is_ambiguous(&self.definition.resolution.patterns) {
            return Err(CompileError::AmbiguousPattern);
        }
        let ghost rows = self.definition@.rows;
        let ghost first = self.next_lut as int;
        let n: usize = self.definition.resolution.patterns.len();
        let mut luts: Vec<LookupTable> = Vec::new();
        let mut k: usize = 0;
        while k < n
            invariant
                k <= n,
                n == rows.len(),
                rows == self.definition@.rows,
                rows == rows_of(self.definition.resolution.patterns@),
                !ambiguous(rows),
                first == old(self).next_lut,
                self.allocators_wf(),
                self.definition == old(self).definition,
                self.next_register == old(self).next_register,
                self.lut_capacity == old(self).lut_capacity,
                self.inputs == old(self).inputs,
                self.luts == old(self).luts,
                self.completion == old(self).completion,
                self.routes == old(self).routes,
                self.region == old(self).region,
                self.next_lut == first + luts@.len(),
                luts@.len() == collapse(rows.take(k as int)).len(),
                forall|m: int|
                    0 <= m < luts@.len() ==> (#[trigger] luts@[m])@ == expected_luts(
                        rows.take(k as int),
                        first,
                    )[m],
            decreases n - k,
        {
            proof {
                lemma_collapse_step(rows, k as int);
                lemma_collapse_prefix(rows, k as int + 1);
            }
            let j: usize = first_with_pattern(&self.definition.resolution.patterns, k);
            if j == k {
                let config: u32 = match self.allocate_lut() {
                    Ok(a) => a,
                    Err(e) => {
                        return Err(e);
                    },
                };
                let input_pattern: String = self.definition.resolution.patterns[k].0.clone();
                let output_value: String = self.definition.resolution.patterns[k].1.clone();
                luts.push(LookupTable { input_pattern, output_value, config });
            }
            k = k + 1;
        }
        proof {
            assert(rows.take(n as int) =~= rows);
            assert(luts_of(luts@) =~= expected_luts(rows, first));
        }
        Ok(luts)
    }
    /// Sets the two detector registers up as full OR trees.
    fn configure_completion(&mut self, completion: &CompletionDetector) -> (r: Result<
        (),
        CompileError,
    >)
        requires
            old(self).allocators_wf(),
            completion.data_detect < LUT_BASE,
            completion.null_detect < LUT_BASE,
        ensures
            final(self).allocators_wf(),
            final(self).definition == old(self).definition,
            final(self).next_register == old(self).next_register,
            final(self).next_lut == old(self).next_lut,
            final(self).lut_capacity == old(self).lut_capacity,
            final(self).inputs == old(self).inputs,
            final(self).luts == old(self).luts,
            final(self).completion == old(self).completion,
            final(self).routes == old(self).routes,
            final(self).region.base_address() == old(self).region.base_address(),
            final(self).region.kind() == old(self).region.kind(),
            r is Ok,
            final(self).region@ == store_word(
                store_word(
                    old(self).region@,
                    register_offset(completion.data_detect as int),
                    DETECTOR_CONFIG,
                ),
                register_offset(completion.null_detect as int),
                DETECTOR_CONFIG,
            ),
    {
        match self.region.write_word(completion.data_detect as usize * WORD_BYTES, DETECTOR_CONFIG) {
            Ok(()) => {},
            Err(_) => {
                return Err(CompileError::ResourceExhausted);
            },
        }
        match self.region.write_word(completion.null_detect as usize * WORD_BYTES, DETECTOR_CONFIG) {
            Ok(()) => Ok(()),
            Err(_) => Err(CompileError::ResourceExhausted),
        }
    }

    /// Allocates the three detector registers and configures the detector.
    /// Fails with `ResourceExhausted` when the registers do not suffice.
    fn create_completion_detection(&mut self) -> (r: Result<CompletionDetector, CompileError>)
        requires
            old(self).allocators_wf(),
            zeroed(old(self).region@),
        ensures
            final(self).allocators_wf(),
            final(self).definition == old(self).definition,
            final(self).next_lut == old(self).next_lut,
            final(self).lut_capacity == old(self).lut_capacity,
            final(self).inputs == old(self).inputs,
            final(self).luts == old(self).luts,
            final(self).completion == old(self).completion,
            final(self).routes == old(self).routes,
            final(self).region.base_address() == old(self).region.base_address(),
            final(self).region.kind() == old(self).region.kind(),
            old(self).next_register + 3 <= LUT_BASE ==> r == Ok::<CompletionDetector, CompileError>(
                expected_completion(old(self).next_register as int),
            ) && final(self).next_register == old(self).next_register + 3 && final(self).region@
                == store_word(
                store_word(
                    old(self).region@,
                    register_offset(old(self).next_register as int),
                    DETECTOR_CONFIG,
                ),
                register_offset(old(self).next_register + 1),
                DETECTOR_CONFIG,
            ),
            old(self).next_register + 3 > LUT_BASE ==> r == Err::<CompletionDetector, CompileError>(
                CompileError::ResourceExhausted,
            ),
    {
        let ghost before = self.region@;
        let data_detect: u32 = match self.allocate_register() {
            Ok(a) => a,
            Err(e) => {
                return Err(e);
            },
        };
        proof {
            lemma_store_zero(before, register_offset(data_detect as int));
        }
        let null_detect: u32 = match self.allocate_register() {
            Ok(a) => a,
            Err(e) => {
                return Err(e);
            },
        };
        proof {
            lemma_store_zero(before, register_offset(null_detect as int));
        }
        let output_valid: u32 = match self.allocate_register() {
            Ok(a) => a,
            Err(e) => {
                return Err(e);
            },
        };
        proof {
            lemma_store_zero(before, register_offset(output_valid as int));
        }
        let completion = CompletionDetector { data_detect, null_detect, output_valid };
        match self.configure_completion(&completion) {
            Ok(()) => Ok(completion),
            Err(e) => Err(e),
        }
    }

    /// Adds one descriptor to the routing table and writes its word into
    /// the routing row of its source.
    ///
    /// Fails with `ResourceExhausted`, changing nothing, when a field is too
    /// wide for the descriptor word or the word lies outside the region.
    fn configure_route(&mut self, from: u32, to: u32, bit_position: usize, value: u32) -> (r:
        Result<(), CompileError>)
        requires
            old(self).allocators_wf(),
        ensures
            final(self).allocators_wf(),
            final(self).definition == old(self).definition,
            final(self).next_register == old(self).next_register,
            final(self).next_lut == old(self).next_lut,
            final(self).lut_capacity == old(self).lut_capacity,
            final(self).inputs == old(self).inputs,
            final(self).luts == old(self).luts,
            final(self).completion == old(self).completion,
            final(self).region.base_address() == old(self).region.base_address(),
            final(self).region.kind() == old(self).region.kind(),
            ({
                let d = RouteDescriptor {
                    source: from,
                    destination: to,
                    bit_position: bit_position as u32,
                    value: value == 1,
                };
                let fits = encodable(from, to, bit_position, value);
                let inside = word_in_bounds(
                    old(self).region@.len(),
                    route_offset(d) as nat,
                );
                &&& fits && inside ==> r is Ok && final(self).routes@ == old(self).routes@.push(d)
                    && final(self).region@ == store_word(
                    old(self).region@,
                    route_offset(d),
                    pack_spec(d),
                )
                &&& !(fits && inside) ==> r == Err::<(), CompileError>(
                    CompileError::ResourceExhausted,
                ) && final(self).routes == old(self).routes && final(self).region@ == old(self).region@
            }),
    {
        if from >= ADDRESS_LIMIT || to >= ADDRESS_LIMIT || bit_position >= POSITION_LIMIT as usize
            || value > 1 {
            return Err(CompileError::ResourceExhausted);
        }
        let descriptor = RouteDescriptor {
            source: from,
            destination: to,
            bit_position: bit_position as u32,
            value: value == 1,
        };
        let slot: usize = if to >= LUT_BASE {
            (to - LUT_BASE) as usize
        } else {
            0
        };
        let offset: usize = ROUTE_BASE + WORD_BYTES * (from as usize * ROUTE_FANOUT + slot);
        match self.region.write_word(offset, descriptor.pack()) {
            Ok(()) => {
                self.routes.push(descriptor);
                Ok(())
            },
            Err(_) => Err(CompileError::ResourceExhausted),
        }
    }
    /// Builds the routing table: every input to every table whose pattern
    /// names a bit for it, then every table to the data detector.
    fn configure_routing(
        &mut self,
        inputs: &Vec<DualRailSignal>,
        luts: &Vec<LookupTable>,
        completion: &CompletionDetector,
    ) -> (r: Result<(), CompileError>)
        requires
            old(self).allocators_wf(),
            old(self).routes@.len() == 0,
            2 * inputs@.len() + 3 <= LUT_BASE,
            forall|i: int| 0 <= i < inputs@.len() ==> (#[trigger] inputs@[i]).data_rail == 2 * i,
            luts@.len() <= old(self).lut_capacity,
            forall|j: int| 0 <= j < luts@.len() ==> (#[trigger] luts@[j]).config == LUT_BASE + j,
            completion.data_detect < LUT_BASE,
        ensures
            final(self).allocators_wf(),
            final(self).definition == old(self).definition,
            final(self).next_register == old(self).next_register,
            final(self).next_lut == old(self).next_lut,
            final(self).lut_capacity == old(self).lut_capacity,
            final(self).inputs == old(self).inputs,
            final(self).luts == old(self).luts,
            final(self).completion == old(self).completion,
            final(self).region.base_address() == old(self).region.base_address(),
            final(self).region.kind() == old(self).region.kind(),
            r is Ok,
            final(self).routes@ == routing_table(signals_of(inputs@), luts_of(luts@), *completion),
            routes_written(final(self).region@, final(self).routes@),
            only_routes_changed(old(self).region@, final(self).region@, final(self).routes@),
    {
        let ghost ins = signals_of(inputs@);
        let ghost ls = luts_of(luts@);
        let n: usize = inputs.len();
        let count: usize = luts.len();
        let mut i: usize = 0;
        while i < n
            invariant
                i <= n,
                n == inputs@.len(),
                count == luts@.len(),
                ins == signals_of(inputs@),
                ls == luts_of(luts@),
                2 * n + 3 <= LUT_BASE,
                forall|i: int| 0 <= i < inputs@.len() ==> (#[trigger] inputs@[i]).data_rail == 2 * i,
                count <= self.lut_capacity,
                forall|j: int| 0 <= j < luts@.len() ==> (#[trigger] luts@[j]).config == LUT_BASE + j,
                self.allocators_wf(),
                self.definition == old(self).definition,
                self.next_register == old(self).next_register,
                self.next_lut == old(self).next_lut,
                self.lut_capacity == old(self).lut_capacity,
                self.inputs == old(self).inputs,
                self.luts == old(self).luts,
                self.completion == old(self).completion,
                self.region.base_address() == old(self).region.base_address(),
                self.region.kind() == old(self).region.kind(),
                self.routes@ == input_routes(ins, ls, i as int),
                routes_written(self.region@, self.routes@),
                forall|k: int|
                    0 <= k < self.routes@.len() ==> (#[trigger] self.routes@[k]).source < 2 * i
                        && self.routes@[k].destination >= LUT_BASE,
                only_routes_changed(old(self).region@, self.region@, self.routes@),
            decreases n - i,
        {
            let mut j: usize = 0;
            while j < count
                invariant
                    i < n,
                    j <= count,
                    n == inputs@.len(),
                    count == luts@.len(),
                    ins == signals_of(inputs@),
                    ls == luts_of(luts@),
                    2 * n + 3 <= LUT_BASE,
                    inputs@[i as int].data_rail == 2 * i,
                    count <= self.lut_capacity,
                    forall|j: int|
                        0 <= j < luts@.len() ==> (#[trigger] luts@[j]).config == LUT_BASE + j,
                    self.allocators_wf(),
                    self.definition == old(self).definition,
                    self.next_register == old(self).next_register,
                    self.next_lut == old(self).next_lut,
                    self.lut_capacity == old(self).lut_capacity,
                    self.inputs == old(self).inputs,
                    self.luts == old(self).luts,
                    self.completion == old(self).completion,
                    self.region.base_address() == old(self).region.base_address(),
                    self.region.kind() == old(self).region.kind(),
                    self.routes@ == input_routes(ins, ls, i as int) + fan_out(
                        ins,
                        ls,
                        i as int,
                        j as int,
                    ),
                    routes_written(self.region@, self.routes@),
                    forall|k: int|
                        0 <= k < self.routes@.len() ==> ((#[trigger] self.routes@[k]).source < 2 * i
                            || (self.routes@[k].source == 2 * i && self.routes@[k].destination
                            < LUT_BASE + j)) && self.routes@[k].destination >= LUT_BASE,
                    only_routes_changed(old(self).region@, self.region@, self.routes@),
                decreases count - j,
            {
                proof {
                    lemma_fan_out_step(ins, ls, i as int, j as int);
                }
                let pattern: &str = luts[j].input_pattern.as_str();
                if i < pattern.unicode_len() {
                    let c: char = pattern.get_char(i);
                    if c == '0' || c == '1' {
                        let bit_value: u32 = if c == '1' {
                            1
                        } else {
                            0
                        };
                        let ghost d = input_route(ins, ls, i as int, j as int);
                        let ghost before = self.region@;
                        let ghost earlier = self.routes@;
                        proof {
                            assert(d.source == 2 * i && d.destination == LUT_BASE + j);
                            assert(route_slot(d) == j);
                            assert(route_offset(d) + WORD_BYTES <= before.len());
                            lemma_route_added(before, earlier, d);
                            lemma_route_frame(old(self).region@, before, earlier, d);
                        }
                        match self.configure_route(
                            inputs[i].data_rail,
                            luts[j].config,
                            i,
                            bit_value,
                        ) {
                            Ok(()) => {},
                            Err(e) => {
                                return Err(e);
                            },
                        }
                        assert(self.routes@ =~= input_routes(ins, ls, i as int) + fan_out(
                            ins,
                            ls,
                            i as int,
                            j as int + 1,
                        ));
                    }
                }
                j = j + 1;
            }
            i = i + 1;
        }
        let ghost input_part = self.routes@;
        let mut j: usize = 0;
        while j < count
            invariant
                j <= count,
                n == inputs@.len(),
                count == luts@.len(),
                ins == signals_of(inputs@),
                ls == luts_of(luts@),
                2 * n + 3 <= LUT_BASE,
                count <= self.lut_capacity,
                forall|j: int| 0 <= j < luts@.len() ==> (#[trigger] luts@[j]).config == LUT_BASE + j,
                completion.data_detect < LUT_BASE,
                self.allocators_wf(),
                self.definition == old(self).definition,
                self.next_register == old(self).next_register,
                self.next_lut == old(self).next_lut,
                self.lut_capacity == old(self).lut_capacity,
                self.inputs == old(self).inputs,
                self.luts == old(self).luts,
                self.completion == old(self).completion,
                self.region.base_address() == old(self).region.base_address(),
                self.region.kind() == old(self).region.kind(),
                input_part == input_routes(ins, ls, n as int),
                self.routes@ == input_part + completion_routes(ls, *completion, j as int),
                routes_written(self.region@, self.routes@),
                forall|k: int|
                    0 <= k < self.routes@.len() ==> (#[trigger] self.routes@[k]).source < LUT_BASE
                        + j,
                only_routes_changed(old(self).region@, self.region@, self.routes@),
            decreases count - j,
        {
            let ghost d = completion_route(ls, *completion, j as int);
            let ghost before = self.region@;
            let ghost earlier = self.routes@;
            proof {
                assert(d.source == LUT_BASE + j && d.destination == completion.data_detect);
                assert(route_slot(d) == 0);
                assert(route_offset(d) + WORD_BYTES <= before.len());
                lemma_route_added(before, earlier, d);
                lemma_route_frame(old(self).region@, before, earlier, d);
            }
            match self.configure_route(luts[j].config, completion.data_detect, j, 1) {
                Ok(()) => {},
                Err(e) => {
                    return Err(e);
                },
            }
            assert(self.routes@ =~= input_part + completion_routes(ls, *completion, j as int + 1));
            j = j + 1;
        }
        Ok(())
    }

    /// Synthesizes the circuit of the definition into the fresh region:
    /// inputs, lookup tables, completion detector and routing, in this
    /// order. Fails with `ResourceExhausted` when the definition asks for
    /// more registers or tables than a circuit can hold.
    fn synthesize(&mut self) -> (r: Result<(), CompileError>)
        requires
            old(self).allocators_wf(),
            zeroed(old(self).region@),
            old(self).next_register == 0,
            old(self).next_lut == LUT_BASE,
            old(self).routes@.len() == 0,
            old(self).lut_capacity == lut_room(old(self).definition@.rows.len() as int),
            old(self).region.kind() == FpgaRegion::Configuration,
            old(self).definition@.patterns_match_inputs(),
            !ambiguous(old(self).definition@.rows),
        ensures
            final(self).definition == old(self).definition,
            final(self).region.base_address() == old(self).region.base_address(),
            definition_error(old(self).definition@) is None ==> r is Ok && final(self).wf(),
            definition_error(old(self).definition@) is Some ==> r == Err::<(), CompileError>(
                CompileError::ResourceExhausted,
            ),
    {
        let ghost zeros = self.region@;
        let ghost def = self.definition@;
        let ghost n = def.inputs.len() as int;
        proof {
            lemma_collapse_len(def.rows);
        }
        let ncl_inputs: Vec<DualRailSignal> = match self.create_ncl_inputs() {
            Ok(v) => v,
            Err(e) => {
                return Err(e);
            },
        };
        let luts: Vec<LookupTable> = match self.create_luts() {
            Ok(v) => v,
            Err(e) => {
                return Err(e);
            },
        };
        let completion: CompletionDetector = match self.create_completion_detection() {
            Ok(c) => c,
            Err(e) => {
                return Err(e);
            },
        };
        let ghost configured = self.region@;
        proof {
            assert(signals_of(ncl_inputs@).len() == ncl_inputs@.len());
            assert(luts_of(luts@).len() == luts@.len());
            assert(ncl_inputs@.len() == n);
            assert(2 * n + 3 <= LUT_BASE);
            assert forall|i: int| 0 <= i < ncl_inputs@.len() implies (#[trigger] ncl_inputs@[i]).data_rail
                == 2 * i by {
                assert(signals_of(ncl_inputs@).len() == n);
                assert(signals_of(ncl_inputs@)[i] == ncl_inputs@[i]@);
                assert(expected_inputs(def.inputs, 0)[i].data_rail == (0 + 2 * i) as u32);
            }
            assert forall|j: int| 0 <= j < luts@.len() implies (#[trigger] luts@[j]).config
                == LUT_BASE + j by {
                assert(luts_of(luts@).len() == collapse(def.rows).len());
                assert(luts_of(luts@)[j] == luts@[j]@);
                assert(expected_luts(def.rows, LUT_BASE as int)[j].config == (LUT_BASE + j) as u32);
            }
        }
        match self.configure_routing(&ncl_inputs, &luts, &completion) {
            Ok(()) => {},
            Err(e) => {
                return Err(e);
            },
        }
        self.inputs = ncl_inputs;
        self.luts = luts;
        self.completion = completion;
        proof {
            let v = self@;
            assert forall|r: int| 0 <= r < 2 * n + 3 implies #[trigger] load_word(
                v.region,
                register_offset(r),
            ) == if r == v.completion.data_detect || r == v.completion.null_detect {
                DETECTOR_CONFIG
            } else {
                0u32
            } by {
                lemma_registers_after_completion(zeros, 2 * n, r);
                assert(load_word(v.region, register_offset(r)) == load_word(
                    configured,
                    register_offset(r),
                ));
            }
            assert(v.wf());
        }
        Ok(())
    }

    /// Compiles `definition` into a region of its own, mapped from `config`.
    ///
    /// A definition with a pattern of the wrong length, or with two rows that
    /// contradict each other, is refused before anything is mapped. Otherwise
    /// a region sized to the definition is mapped, and the circuit is
    /// synthesized into it. When synthesis fails the region is given up; its
    /// addresses are not handed out again.
    pub fn new(definition: Definition, config: &mut FpgaConfig) -> (r: Result<
        FpgaCircuit,
        CompileError,
    >)
        requires
            old(config).wf(),
        ensures
            final(config).wf(),
            final(config).capability() == old(config).capability(),
            final(config).base() == old(config).base(),
            final(config).bitstream_bytes() == old(config).bitstream_bytes(),
            final(config).interrupt_enabled() == old(config).interrupt_enabled(),
            ({
                let size = region_bytes(lut_room(definition@.rows.len() as int));
                let room = old(config).next_free() + size <= usize::MAX;
                let grown = old(config).mapped_bytes() + size;
                match definition_error(definition@) {
                    Some(CompileError::ResourceExhausted) => r is Err && r->Err_0
                        == CompileError::ResourceExhausted && final(config).mapped_bytes() == if room {
                        grown
                    } else {
                        old(config).mapped_bytes() as int
                    },
                    Some(e) => r is Err && r->Err_0 == e && final(config).mapped_bytes() == old(config).mapped_bytes(),
                    None => if room {
                        r is Ok && compiles_to(*old(config), definition@, r->Ok_0, *final(config))
                    } else {
                        &&& r is Err
                        &&& r->Err_0 == CompileError::ResourceExhausted
                        &&& final(config).mapped_bytes() == old(config).mapped_bytes()
                    },
                }
            }),
    {
        if !definition.patterns_match_inputs() {
            return Err(CompileError::PatternLengthMismatch);
        }
        if is_ambiguous(&definition.resolution.patterns) {
            return Err(CompileError::AmbiguousPattern);
        }
        let rows: usize = definition.resolution.patterns.len();
        let lut_capacity: u32 = if rows <= MAX_LUTS as usize {
            rows as u32
        } else {
            MAX_LUTS
        };
        let size: usize = ROUTE_BASE + WORD_BYTES * ROUTE_FANOUT * (LUT_BASE as usize
            + lut_capacity as usize);
        let region = match FpgaRegionMapping::new(config, FpgaRegion::Configuration, size) {
            Ok(region) => region,
            Err(_) => {
                return Err(CompileError::ResourceExhausted);
            },
        };
        let mut circuit = FpgaCircuit {
            definition,
            region,
            next_register: 0,
            next_lut: LUT_BASE,
            lut_capacity,
            inputs: Vec::new(),
            luts: Vec::new(),
            completion: CompletionDetector { data_detect: 0, null_detect: 0, output_valid: 0 },
            routes: Vec::new(),
        };
        match circuit.synthesize() {
            Ok(()) => Ok(circuit),
            Err(e) => Err(e),
        }
    }
    /// The definition the circuit was compiled from.
    pub fn definition(&self) -> (definition: &Definition)
        ensures
            definition@ == self@.definition,
    {
        &self.definition
    }

    /// The dual-rail signals, one for each input, in input order.
    pub fn inputs(&self) -> (inputs: &Vec<DualRailSignal>)
        ensures
            signals_of(inputs@) == self@.inputs,
    {
        &self.inputs
    }

    /// The lookup tables, in the order their rows first occur.
    pub fn luts(&self) -> (luts: &Vec<LookupTable>)
        ensures
            luts_of(luts@) == self@.luts,
    {
        &self.luts
    }

    /// The registers of the completion detector.
    pub fn completion(&self) -> (completion: CompletionDetector)
        ensures
            completion == self@.completion,
    {
        self.completion
    }

    /// The routing table, in the order its descriptors were written.
    pub fn routes(&self) -> (routes: &Vec<RouteDescriptor>)
        ensures
            routes@ == self@.routes,
    {
        &self.routes
    }

    /// The region that holds the circuit's configuration.
    pub fn region(&self) -> (region: &FpgaRegionMapping)
        ensures
            region@ == self@.region,
            region.base_address() == self@.base,
            self.wf() ==> region.wf(),
    {
        &self.region
    }

    /// The index of the lookup table whose pattern is `pattern`, if the
    /// circuit has one.
    pub fn find_lut(&self, pattern: &String) -> (r: Option<usize>)
        ensures
            r is Some <==> first_match(self@.luts, pattern@) is Some,
            r is Some ==> r->0 < self@.luts.len() && first_match(self@.luts, pattern@) == Some(
                r->0 as int,
            ),
    {
        let ghost luts = self@.luts;
        let n: usize = self.luts.len();
        let mut k: usize = 0;
        while k < n
            invariant
                k <= n,
                n == self.luts@.len(),
                luts == luts_of(self.luts@),
                forall|j: int| 0 <= j < k ==> (#[trigger] luts[j]).input_pattern != pattern@,
            decreases n - k,
        {
            if self.luts[k].input_pattern == *pattern {
                proof {
                    lemma_first_match_is(luts, pattern@, k as int);
                }
                return Some(k);
            }
            k = k + 1;
        }
        proof {
            lemma_first_match_none(luts, pattern@);
        }
        None
    }
}

} // verus!
