//! The runtime as plain values, and what its operations do to it.

use vstd::prelude::*;

use crate::fpga::circuit::{definition_error, first_match, CircuitView, CompileError};
use crate::fpga::layout::{lut_room, region_bytes};
use crate::parser::ast::{DefinitionView, InvocationView};
use crate::runtime::names::{lemma_position, lemma_position_is, position};
use crate::runtime::ncl::{disciplined, lemma_request_keeps_discipline, path_between, NCLState};
use crate::sel4::{CPtr, CapRights, Error, Word};

verus! {

/// How many signals one runtime can hold a capability for.
pub const CAPABILITY_SLOTS: usize = 1024;

/// How many times the completion detector is polled before an execution
/// times out, unless configured otherwise.
pub const DEFAULT_TIMEOUT: u32 = 1000;

/// Why the runtime refused a request.
#[derive(Debug, Clone, Copy, PartialEq, Eq, Structural)]
pub enum RuntimeError {
    /// No circuit of that name is installed.
    DefinitionNotFound,
    /// A circuit of that name is installed already.
    DuplicateDefinition,
    /// An argument names a signal that nothing was bound to and that was
    /// never driven.
    UnboundSignal,
    /// The completion detector did not assert in time.
    Timeout,
    /// The definition could not be compiled.
    Compile(CompileError),
    /// A capability could not be acquired.
    Hardware(Error),
}

/// A named signal as plain values.
pub struct SignalStatus {
    pub name: Seq<char>,
    pub capability: CPtr,
    pub state: NCLState,
    /// Every state the signal has been in, oldest first.
    pub observed: Seq<NCLState>,
}

/// The runtime as plain values.
pub struct RuntimeView {
    /// The root capability.
    pub root: CPtr,
    /// The rights the root capability carries.
    pub rights: CapRights,
    /// How many times the completion detector is polled.
    pub timeout: u32,
    /// The address the next circuit's region will start at.
    pub next_free: nat,
    pub signals: Seq<SignalStatus>,
    pub circuits: Seq<CircuitView>,
    pub bindings: Seq<(Seq<char>, Word)>,
}

/// The names of `signals`, in order.
pub open spec fn signal_names(signals: Seq<SignalStatus>) -> Seq<Seq<char>> {
    Seq::new(signals.len(), |i: int| signals[i].name)
}

/// The names of the definitions of `circuits`, in order.
pub open spec fn circuit_names(circuits: Seq<CircuitView>) -> Seq<Seq<char>> {
    Seq::new(circuits.len(), |i: int| circuits[i].definition.name)
}

/// The names of `bindings`, in order.
pub open spec fn binding_names(bindings: Seq<(Seq<char>, Word)>) -> Seq<Seq<char>> {
    Seq::new(bindings.len(), |i: int| bindings[i].0)
}

impl RuntimeView {
    /// Every signal has a history that ends in its state and keeps the
    /// discipline, and holds the capability of its slot; no name is used
    /// twice in a table; every input of an installed circuit has a signal;
    /// and the regions of the circuits lie one after another below the next
    /// free address.
    pub open spec fn consistent(self) -> bool {
        &&& self.signals.len() <= CAPABILITY_SLOTS
        &&& self.root + self.signals.len() <= usize::MAX
        &&& forall|s: int|
            0 <= s < self.signals.len() ==> {
                let g = #[trigger] self.signals[s];
                &&& !(g.state is Transitioning)
                &&& g.observed.len() > 0
                &&& g.observed.last() == g.state
                &&& disciplined(g.observed)
                &&& g.capability == self.root + 1 + s
                &&& position(signal_names(self.signals), g.name) == Some(s)
            }
        &&& forall|c: int|
            0 <= c < self.circuits.len() ==> {
                let v = #[trigger] self.circuits[c];
                &&& v.wf()
                &&& position(circuit_names(self.circuits), v.definition.name) == Some(c)
                &&& v.base + v.region.len() <= self.next_free
                &&& forall|i: int|
                    0 <= i < v.definition.inputs.len() ==> position(
                        signal_names(self.signals),
                        #[trigger] v.definition.inputs[i],
                    ) is Some
            }
        &&& forall|a: int, b: int|
            0 <= a < b < self.circuits.len() ==> (#[trigger] self.circuits[a]).base
                + self.circuits[a].region.len() <= (#[trigger] self.circuits[b]).base
        &&& forall|b: int|
            0 <= b < self.bindings.len() ==> position(
                binding_names(self.bindings),
                (#[trigger] self.bindings[b]).0,
            ) == Some(b)
    }

    /// Every signal rests at `Null`.
    pub open spec fn at_rest(self) -> bool {
        forall|s: int|
            0 <= s < self.signals.len() ==> (#[trigger] self.signals[s]).state == NCLState::Null
    }

    /// The tables are consistent and every signal is at rest: what holds of
    /// a runtime between two calls.
    pub open spec fn wf(self) -> bool {
        self.consistent() && self.at_rest()
    }
}

/// The signal table after capabilities were acquired for the first `k`
/// names of `inputs`, in order: a name that has no signal yet gets one in
/// the next free slot, at rest.
pub open spec fn acquired(signals: Seq<SignalStatus>, root: CPtr, inputs: Seq<Seq<char>>, k: int)
    -> Seq<SignalStatus>
    decreases k,
{
    if k <= 0 {
        signals
    } else {
        let earlier = acquired(signals, root, inputs, k - 1);
        if position(signal_names(earlier), inputs[k - 1]) is Some {
            earlier
        } else {
            earlier.push(
                SignalStatus {
                    name: inputs[k - 1],
                    capability: (root + 1 + earlier.len()) as usize,
                    state: NCLState::Null,
                    observed: seq![NCLState::Null],
                },
            )
        }
    }
}

/// Why capabilities for all of `inputs` cannot be acquired, if they cannot:
/// a signal is missing and the root capability may not grant one, or the
/// slots do not suffice.
pub open spec fn acquisition_error(pre: RuntimeView, inputs: Seq<Seq<char>>) -> Option<Error> {
    let wanted = acquired(pre.signals, pre.root, inputs, inputs.len() as int);
    if wanted.len() == pre.signals.len() {
        None
    } else if !pre.rights.grant {
        Some(Error::PermissionDenied)
    } else if wanted.len() > CAPABILITY_SLOTS || pre.root + wanted.len() > usize::MAX {
        Some(Error::ResourceExhausted)
    } else {
        None
    }
}

/// Acquiring capabilities only adds signals at the end of the table, and
/// more names never give fewer signals.
pub proof fn lemma_acquired_grows(
    signals: Seq<SignalStatus>,
    root: CPtr,
    inputs: Seq<Seq<char>>,
    j: int,
    k: int,
)
    requires
        0 <= j <= k,
    ensures
        acquired(signals, root, inputs, j).len() <= acquired(signals, root, inputs, k).len(),
        acquired(signals, root, inputs, k).subrange(
            0,
            acquired(signals, root, inputs, j).len() as int,
        ) == acquired(signals, root, inputs, j),
    decreases k - j,
{
    let short = acquired(signals, root, inputs, j);
    let long = acquired(signals, root, inputs, k);
    if j == k {
        assert(long.subrange(0, short.len() as int) =~= short);
    } else {
        lemma_acquired_grows(signals, root, inputs, j, k - 1);
        let mid = acquired(signals, root, inputs, k - 1);
        assert(long.subrange(0, short.len() as int) =~= mid.subrange(0, short.len() as int));
    }
}

/// A name that a table knows is found at the same index in every table the
/// first is the beginning of.
pub proof fn lemma_position_in_longer(
    shorter: Seq<SignalStatus>,
    longer: Seq<SignalStatus>,
    name: Seq<char>,
)
    requires
        shorter.len() <= longer.len(),
        longer.subrange(0, shorter.len() as int) == shorter,
        position(signal_names(shorter), name) is Some,
    ensures
        position(signal_names(longer), name) == position(signal_names(shorter), name),
{
    let a = signal_names(shorter);
    let b = signal_names(longer);
    lemma_position(a, name);
    let k = position(a, name)->0;
    assert forall|j: int| 0 <= j < shorter.len() implies a[j] == b[j] by {
        assert(longer.subrange(0, shorter.len() as int)[j] == longer[j]);
    }
    lemma_position_is(b, name, k);
}

/// After capabilities were acquired for the first `k` names, each of them
/// has a signal.
pub proof fn lemma_acquired_covers(
    signals: Seq<SignalStatus>,
    root: CPtr,
    inputs: Seq<Seq<char>>,
    k: int,
    i: int,
)
    requires
        0 <= i < k,
    ensures
        position(signal_names(acquired(signals, root, inputs, k)), inputs[i]) is Some,
    decreases k,
{
    let earlier = acquired(signals, root, inputs, k - 1);
    let now = acquired(signals, root, inputs, k);
    lemma_acquired_grows(signals, root, inputs, k - 1, k);
    if i < k - 1 {
        lemma_acquired_covers(signals, root, inputs, k - 1, i);
        lemma_position_in_longer(earlier, now, inputs[i]);
    } else if position(signal_names(earlier), inputs[k - 1]) is None {
        let names = signal_names(now);
        assert(names[earlier.len() as int] == inputs[i]);
        lemma_position(names, inputs[i]);
    }
}

/// The circuits of `circuits` without the one named `name`, if there is
/// one.
pub open spec fn without(circuits: Seq<CircuitView>, name: Seq<char>) -> Seq<CircuitView> {
    match position(circuit_names(circuits), name) {
        Some(k) => circuits.remove(k),
        None => circuits,
    }
}

/// What installing `def` does to a runtime, with or without leave to replace
/// a circuit of the same name.
///
/// Without that leave a name that is installed already is refused and
/// nothing changes. Otherwise the definition is compiled into the next free
/// region, capabilities are acquired for its inputs, and the compiled
/// circuit takes the place of the one it replaces, or is added. A failure
/// leaves signals, circuits and bindings as they were; a region that was
/// mapped before the failure is not handed out again.
pub open spec fn installs(
    pre: RuntimeView,
    def: DefinitionView,
    replace: bool,
    post: RuntimeView,
    r: Result<(), RuntimeError>,
) -> bool {
    let size = region_bytes(lut_room(def.rows.len() as int));
    let room = pre.next_free + size <= usize::MAX;
    let taken = RuntimeView { next_free: (pre.next_free + size) as nat, ..pre };
    if !replace && position(circuit_names(pre.circuits), def.name) is Some {
        r == Err::<(), RuntimeError>(RuntimeError::DuplicateDefinition) && post == pre
    } else {
        match definition_error(def) {
            Some(CompileError::ResourceExhausted) => r == Err::<(), RuntimeError>(
                RuntimeError::Compile(CompileError::ResourceExhausted),
            ) && post == if room {
                taken
            } else {
                pre
            },
            Some(e) => r == Err::<(), RuntimeError>(RuntimeError::Compile(e)) && post == pre,
            None => if !room {
                r == Err::<(), RuntimeError>(
                    RuntimeError::Compile(CompileError::ResourceExhausted),
                ) && post == pre
            } else {
                match acquisition_error(pre, def.inputs) {
                    Some(e) => r == Err::<(), RuntimeError>(RuntimeError::Hardware(e)) && post
                        == taken,
                    None => {
                        &&& r is Ok
                        &&& post.circuits.len() > 0
                        &&& post.circuits.last().wf()
                        &&& post.circuits.last().definition == def
                        &&& post.circuits.last().base == pre.next_free
                        &&& post == (RuntimeView {
                            signals: acquired(
                                pre.signals,
                                pre.root,
                                def.inputs,
                                def.inputs.len() as int,
                            ),
                            circuits: without(pre.circuits, def.name).push(post.circuits.last()),
                            ..taken
                        })
                    },
                }
            },
        }
    }
}

/// Installing under a name that is installed already, without leave to
/// replace, is refused and changes nothing. In particular a definition that
/// was installed cannot be installed again.
pub proof fn lemma_second_install_is_refused(
    first: RuntimeView,
    def: DefinitionView,
    second: RuntimeView,
    third: RuntimeView,
    r: Result<(), RuntimeError>,
)
    requires
        installs(first, def, false, second, Ok(())),
        installs(second, def, false, third, r),
    ensures
        r == Err::<(), RuntimeError>(RuntimeError::DuplicateDefinition),
        third == second,
{
    let names = circuit_names(second.circuits);
    let last = second.circuits.len() - 1;
    assert(names[last] == def.name);
    lemma_position(names, def.name);
}

/// A circuit that replaces another of the same name shares no address with
/// any circuit that was installed before, the replaced one among them.
pub proof fn lemma_replacement_is_independent(
    pre: RuntimeView,
    def: DefinitionView,
    post: RuntimeView,
    c: int,
)
    requires
        pre.wf(),
        installs(pre, def, true, post, Ok(())),
        0 <= c < pre.circuits.len(),
    ensures
        pre.circuits[c].base + pre.circuits[c].region.len() <= post.circuits.last().base,
{
}

/// Taking one circuit out and adding one under the name that was taken out,
/// or under a name that no circuit has, leaves every circuit findable under
/// its name at its own index.
pub proof fn lemma_install_names(circuits: Seq<CircuitView>, added: CircuitView)
    requires
        forall|c: int|
            0 <= c < circuits.len() ==> position(
                circuit_names(circuits),
                (#[trigger] circuits[c]).definition.name,
            ) == Some(c),
    ensures
        ({
            let after = without(circuits, added.definition.name).push(added);
            forall|c: int|
                0 <= c < after.len() ==> position(
                    circuit_names(after),
                    (#[trigger] after[c]).definition.name,
                ) == Some(c)
        }),
{
    let name = added.definition.name;
    let names = circuit_names(circuits);
    let kept = without(circuits, name);
    let after = kept.push(added);
    let after_names = circuit_names(after);
    lemma_position(names, name);
    assert forall|a: int, b: int| 0 <= a < b < circuits.len() implies names[a] != names[b] by {
        lemma_position(names, circuits[b].definition.name);
        assert(names[b] == circuits[b].definition.name);
    }
    assert forall|j: int| 0 <= j < kept.len() implies (#[trigger] kept[j]).definition.name
        != name by {
        match position(names, name) {
            Some(k) => {
                if j < k {
                    assert(kept[j] == circuits[j]);
                    assert(names[j] != names[k]);
                } else {
                    assert(kept[j] == circuits[j + 1]);
                    assert(names[k] != names[j + 1]);
                }
            },
            None => {
                assert(names[j] != name);
            },
        }
    }
    assert forall|c: int| 0 <= c < after.len() implies position(
        after_names,
        (#[trigger] after[c]).definition.name,
    ) == Some(c) by {
        assert forall|j: int| 0 <= j < c implies #[trigger] after_names[j] != after_names[c] by {
            if c == kept.len() {
                assert(after[j] == kept[j]);
            } else {
                assert(after[j] == kept[j] && after[c] == kept[c]);
                match position(names, name) {
                    Some(k) => {
                        let jj = if j < k {
                            j
                        } else {
                            j + 1
                        };
                        let cc = if c < k {
                            c
                        } else {
                            c + 1
                        };
                        assert(kept[j] == circuits[jj] && kept[c] == circuits[cc]);
                        assert(names[jj] != names[cc]);
                    },
                    None => {
                        assert(names[j] != names[c]);
                    },
                }
            }
        }
        lemma_position_is(after_names, after[c].definition.name, c);
    }
}

/// Whether the signal has been in more than the state it started in.
pub open spec fn was_driven(signal: SignalStatus) -> bool {
    signal.observed.len() > 1
}

/// The state an argument stands for. A literal bit is that bit. Any other
/// token names a signal: a bound result stands for its value, and a signal
/// that was driven before stands for the state it is in. A name that
/// nothing was bound to and that was never driven stands for nothing.
pub open spec fn resolve(
    bindings: Seq<(Seq<char>, Word)>,
    signals: Seq<SignalStatus>,
    token: Seq<char>,
) -> Option<NCLState> {
    if token == seq!['0'] {
        Some(NCLState::Data(0))
    } else if token == seq!['1'] {
        Some(NCLState::Data(1))
    } else {
        match position(binding_names(bindings), token) {
            Some(k) => Some(NCLState::Data(bindings[k].1)),
            None => match position(signal_names(signals), token) {
                Some(s) => if was_driven(signals[s]) {
                    Some(signals[s].state)
                } else {
                    None
                },
                None => None,
            },
        }
    }
}

/// How many inputs an invocation with `arguments` arguments drives on a
/// circuit with `inputs` inputs: as many as there are of both.
pub open spec fn driven_count(arguments: int, inputs: int) -> int {
    if arguments <= inputs {
        arguments
    } else {
        inputs
    }
}

/// Each of the first `m` arguments stands for a state.
pub open spec fn all_resolve(
    bindings: Seq<(Seq<char>, Word)>,
    signals: Seq<SignalStatus>,
    arguments: Seq<Seq<char>>,
    m: int,
) -> bool {
    forall|k: int| 0 <= k < m ==> resolve(bindings, signals, #[trigger] arguments[k]) is Some
}

/// The states the first `m` arguments stand for, in order.
pub open spec fn targets_of(
    bindings: Seq<(Seq<char>, Word)>,
    signals: Seq<SignalStatus>,
    arguments: Seq<Seq<char>>,
    m: int,
) -> Seq<NCLState> {
    Seq::new(m as nat, |k: int| resolve(bindings, signals, arguments[k])->0)
}

/// `m` requests to return to `Null`.
pub open spec fn rests(m: int) -> Seq<NCLState> {
    Seq::new(m as nat, |k: int| NCLState::Null)
}

/// The history of the signal `name` after the first `k` inputs were asked
/// to take their targets, in input order, when it was `history` before. A
/// request is carried out on the signal whose name the input has.
pub open spec fn drive_all(
    inputs: Seq<Seq<char>>,
    targets: Seq<NCLState>,
    k: int,
    name: Seq<char>,
    history: Seq<NCLState>,
) -> Seq<NCLState>
    decreases k,
{
    if k <= 0 {
        history
    } else {
        let earlier = drive_all(inputs, targets, k - 1, name, history);
        if inputs[k - 1] == name {
            earlier + path_between(earlier.last(), targets[k - 1])
        } else {
            earlier
        }
    }
}

/// The character that stands for a data state in a pattern.
pub open spec fn bit_of(state: NCLState) -> char {
    if state == NCLState::Data(0) {
        '0'
    } else {
        '1'
    }
}

/// The state of the signal named `name`, or `Null` if there is none.
pub open spec fn state_of(signals: Seq<SignalStatus>, name: Seq<char>) -> NCLState {
    match position(signal_names(signals), name) {
        Some(s) => signals[s].state,
        None => NCLState::Null,
    }
}

/// The pattern the inputs present to the lookup tables, if every input
/// carries data.
pub open spec fn presented(signals: Seq<SignalStatus>, inputs: Seq<Seq<char>>) -> Option<
    Seq<char>,
> {
    if forall|i: int| 0 <= i < inputs.len() ==> state_of(signals, #[trigger] inputs[i]) is Data {
        Some(Seq::new(inputs.len(), |i: int| bit_of(state_of(signals, inputs[i]))))
    } else {
        None
    }
}

/// The index of the lookup table that answers, if the completion detector
/// asserts within the timeout. It asserts when it is polled at all, every
/// input carries data, and a table has the pattern the inputs present.
pub open spec fn answering(
    timeout: u32,
    signals: Seq<SignalStatus>,
    circuit: CircuitView,
) -> Option<int> {
    if timeout == 0 {
        None
    } else {
        match presented(signals, circuit.definition.inputs) {
            Some(pattern) => first_match(circuit.luts, pattern),
            None => None,
        }
    }
}

/// The word an output value stands for: the value read as a binary
/// numeral, most significant bit first, cut to the width of a word.
pub open spec fn output_word(value: Seq<char>) -> Word
    decreases value.len(),
{
    if value.len() == 0 {
        0
    } else {
        ((output_word(value.drop_last()) * 2 + if value.last() == '1' {
            1int
        } else {
            0int
        }) % 0x1_0000_0000) as u32
    }
}

/// The bindings after `value` was bound to `name`: in place of what was
/// bound to it before, or at the end.
pub open spec fn bound(bindings: Seq<(Seq<char>, Word)>, name: Seq<char>, value: Word) -> Seq<
    (Seq<char>, Word),
> {
    match position(binding_names(bindings), name) {
        Some(k) => bindings.update(k, (name, value)),
        None => bindings.push((name, value)),
    }
}

/// The signals after the first `m` inputs were asked to take `targets`.
pub open spec fn driven(
    signals: Seq<SignalStatus>,
    inputs: Seq<Seq<char>>,
    targets: Seq<NCLState>,
    m: int,
) -> Seq<SignalStatus> {
    Seq::new(
        signals.len(),
        |s: int|
            {
                let history = drive_all(inputs, targets, m, signals[s].name, signals[s].observed);
                SignalStatus { state: history.last(), observed: history, ..signals[s] }
            },
    )
}

/// What executing `inv` does to a runtime.
///
/// An unknown circuit and an argument that stands for nothing are refused,
/// and nothing changes. Otherwise the inputs are driven to what the
/// arguments stood for when the call began, in input order, as far as there
/// are arguments. If
/// the completion detector then asserts in time, the output of the
/// answering table is bound to the destination; if not, the call times out
/// and binds nothing. Either way every driven input is returned to `Null`
/// before the call ends.
pub open spec fn executes(
    pre: RuntimeView,
    inv: InvocationView,
    post: RuntimeView,
    r: Result<(), RuntimeError>,
) -> bool {
    match position(circuit_names(pre.circuits), inv.function) {
        None => r == Err::<(), RuntimeError>(RuntimeError::DefinitionNotFound) && post == pre,
        Some(c) => {
            let circuit = pre.circuits[c];
            let inputs = circuit.definition.inputs;
            let m = driven_count(inv.arguments.len() as int, inputs.len() as int);
            if !all_resolve(pre.bindings, pre.signals, inv.arguments, m) {
                r == Err::<(), RuntimeError>(RuntimeError::UnboundSignal) && post == pre
            } else {
                let targets = targets_of(pre.bindings, pre.signals, inv.arguments, m);
                let live = driven(pre.signals, inputs, targets, m);
                let rested = driven(live, inputs, rests(m), m);
                match answering(pre.timeout, live, circuit) {
                    Some(j) => r is Ok && post == (RuntimeView {
                        signals: rested,
                        bindings: bound(
                            pre.bindings,
                            inv.dest,
                            output_word(circuit.luts[j].output_value),
                        ),
                        ..pre
                    }),
                    None => r == Err::<(), RuntimeError>(RuntimeError::Timeout) && post
                        == (RuntimeView { signals: rested, ..pre }),
                }
            }
        },
    }
}

/// What arguments stand for is never a transition, as long as no signal
/// is in one.
pub proof fn lemma_targets_are_settled(
    bindings: Seq<(Seq<char>, Word)>,
    signals: Seq<SignalStatus>,
    arguments: Seq<Seq<char>>,
    m: int,
)
    requires
        forall|s: int| 0 <= s < signals.len() ==> !((#[trigger] signals[s]).state is Transitioning),
        all_resolve(bindings, signals, arguments, m),
    ensures
        forall|k: int|
            0 <= k < m ==> !(#[trigger] targets_of(bindings, signals, arguments, m)[k]
                is Transitioning),
{
    assert forall|k: int| 0 <= k < m implies !(#[trigger] targets_of(
        bindings,
        signals,
        arguments,
        m,
    )[k] is Transitioning) by {
        let token = arguments[k];
        assert(resolve(bindings, signals, token) is Some);
        lemma_position(signal_names(signals), token);
    }
}

/// A signal that none of the first `k` inputs names is not touched by
/// driving them.
pub proof fn lemma_drive_elsewhere(
    inputs: Seq<Seq<char>>,
    targets: Seq<NCLState>,
    k: int,
    name: Seq<char>,
    history: Seq<NCLState>,
)
    requires
        forall|j: int| 0 <= j < k ==> #[trigger] inputs[j] != name,
    ensures
        drive_all(inputs, targets, k, name, history) == history,
    decreases k,
{
    if k > 0 {
        lemma_drive_elsewhere(inputs, targets, k - 1, name, history);
    }
}

/// Driving keeps the discipline, and a signal that was in no transition and
/// is asked for none is in none afterwards.
pub proof fn lemma_drive_keeps_discipline(
    inputs: Seq<Seq<char>>,
    targets: Seq<NCLState>,
    k: int,
    name: Seq<char>,
    history: Seq<NCLState>,
)
    requires
        history.len() > 0,
        disciplined(history),
        !(history.last() is Transitioning),
        k <= targets.len(),
        forall|j: int| 0 <= j < k ==> !(#[trigger] targets[j] is Transitioning),
    ensures
        drive_all(inputs, targets, k, name, history).len() >= history.len(),
        drive_all(inputs, targets, k, name, history).subrange(0, history.len() as int) == history,
        disciplined(drive_all(inputs, targets, k, name, history)),
        !(drive_all(inputs, targets, k, name, history).last() is Transitioning),
    decreases k,
{
    let driven_history = drive_all(inputs, targets, k, name, history);
    if k > 0 {
        lemma_drive_keeps_discipline(inputs, targets, k - 1, name, history);
        let earlier = drive_all(inputs, targets, k - 1, name, history);
        lemma_request_keeps_discipline(earlier, targets[k - 1]);
        assert(driven_history.subrange(0, history.len() as int) =~= earlier.subrange(
            0,
            history.len() as int,
        ));
    } else {
        assert(driven_history.subrange(0, history.len() as int) =~= history);
    }
}

/// A signal that one of the first `k` inputs names rests at `Null` after
/// they were all asked to return to `Null`.
pub proof fn lemma_reset_rests(
    inputs: Seq<Seq<char>>,
    k: int,
    name: Seq<char>,
    history: Seq<NCLState>,
    m: int,
)
    requires
        history.len() > 0,
        disciplined(history),
        !(history.last() is Transitioning),
        0 <= k <= m,
        exists|j: int| 0 <= j < k && #[trigger] inputs[j] == name,
    ensures
        drive_all(inputs, rests(m), k, name, history).last() == NCLState::Null,
    decreases k,
{
    let earlier = drive_all(inputs, rests(m), k - 1, name, history);
    lemma_drive_keeps_discipline(inputs, rests(m), k - 1, name, history);
    if inputs[k - 1] == name {
        lemma_request_keeps_discipline(earlier, NCLState::Null);
    } else {
        let j = choose|j: int| 0 <= j < k && #[trigger] inputs[j] == name;
        assert(j < k - 1);
        lemma_reset_rests(inputs, k - 1, name, history, m);
    }
}

/// Whatever an execution does and however it ends, every signal's history
/// is only added to, still has no two data states next to each other, and
/// ends at `Null`.
pub proof fn lemma_execution_keeps_discipline(
    pre: RuntimeView,
    inv: InvocationView,
    post: RuntimeView,
    r: Result<(), RuntimeError>,
)
    requires
        pre.wf(),
        executes(pre, inv, post, r),
    ensures
        post.signals.len() == pre.signals.len(),
        forall|s: int|
            0 <= s < pre.signals.len() ==> {
                let before = pre.signals[s];
                let after = #[trigger] post.signals[s];
                &&& after.name == before.name
                &&& after.capability == before.capability
                &&& after.state == NCLState::Null
                &&& disciplined(after.observed)
                &&& after.observed.len() >= before.observed.len()
                &&& after.observed.subrange(0, before.observed.len() as int) == before.observed
            },
{
    match position(circuit_names(pre.circuits), inv.function) {
        None => {
            assert forall|s: int| 0 <= s < pre.signals.len() implies (#[trigger] post.signals[s]).observed.subrange(
                0,
                pre.signals[s].observed.len() as int,
            ) == pre.signals[s].observed by {
                assert(pre.signals[s].observed.subrange(0, pre.signals[s].observed.len() as int)
                    =~= pre.signals[s].observed);
            }
        },
        Some(c) => {
            let inputs = pre.circuits[c].definition.inputs;
            let m = driven_count(inv.arguments.len() as int, inputs.len() as int);
            if !all_resolve(pre.bindings, pre.signals, inv.arguments, m) {
                assert forall|s: int| 0 <= s < pre.signals.len() implies (
                #[trigger] post.signals[s]).observed.subrange(
                    0,
                    pre.signals[s].observed.len() as int,
                ) == pre.signals[s].observed by {
                    assert(pre.signals[s].observed.subrange(
                        0,
                        pre.signals[s].observed.len() as int,
                    ) =~= pre.signals[s].observed);
                }
            } else {
                let targets = targets_of(pre.bindings, pre.signals, inv.arguments, m);
                let live = driven(pre.signals, inputs, targets, m);
                let rested = driven(live, inputs, rests(m), m);
                lemma_targets_are_settled(pre.bindings, pre.signals, inv.arguments, m);
                assert(post.signals == rested);
                assert forall|s: int| 0 <= s < pre.signals.len() implies {
                    let before = pre.signals[s];
                    let after = #[trigger] post.signals[s];
                    &&& after.name == before.name
                    &&& after.capability == before.capability
                    &&& after.state == NCLState::Null
                    &&& disciplined(after.observed)
                    &&& after.observed.len() >= before.observed.len()
                    &&& after.observed.subrange(0, before.observed.len() as int) == before.observed
                } by {
                    let name = pre.signals[s].name;
                    let before = pre.signals[s].observed;
                    let mid = drive_all(inputs, targets, m, name, before);
                    let end = drive_all(inputs, rests(m), m, name, mid);
                    lemma_drive_keeps_discipline(inputs, targets, m, name, before);
                    lemma_drive_keeps_discipline(inputs, rests(m), m, name, mid);
                    assert(live[s].observed == mid);
                    assert(rested[s].observed == end);
                    assert(end.subrange(0, before.len() as int) =~= mid.subrange(
                        0,
                        before.len() as int,
                    ));
                    if exists|j: int| 0 <= j < m && #[trigger] inputs[j] == name {
                        lemma_reset_rests(inputs, m, name, mid, m);
                    } else {
                        lemma_drive_elsewhere(inputs, targets, m, name, before);
                        lemma_drive_elsewhere(inputs, rests(m), m, name, before);
                    }
                }
            }
        },
    }
}

/// An execution touches no signal but those its circuit's inputs name: every
/// other signal is exactly as it was, and so is every circuit.
pub proof fn lemma_execution_is_local(
    pre: RuntimeView,
    inv: InvocationView,
    post: RuntimeView,
    r: Result<(), RuntimeError>,
    s: int,
)
    requires
        executes(pre, inv, post, r),
        0 <= s < pre.signals.len(),
        match position(circuit_names(pre.circuits), inv.function) {
            Some(c) => forall|i: int|
                0 <= i < pre.circuits[c].definition.inputs.len()
                    ==> #[trigger] pre.circuits[c].definition.inputs[i] != pre.signals[s].name,
            None => true,
        },
    ensures
        post.circuits == pre.circuits,
        post.signals.len() == pre.signals.len(),
        post.signals[s].name == pre.signals[s].name,
        post.signals[s].capability == pre.signals[s].capability,
        post.signals[s].observed == pre.signals[s].observed,
{
    match position(circuit_names(pre.circuits), inv.function) {
        None => {},
        Some(c) => {
            let inputs = pre.circuits[c].definition.inputs;
            let m = driven_count(inv.arguments.len() as int, inputs.len() as int);
            if all_resolve(pre.bindings, pre.signals, inv.arguments, m) {
                let targets = targets_of(pre.bindings, pre.signals, inv.arguments, m);
                let name = pre.signals[s].name;
                let before = pre.signals[s].observed;
                let live = driven(pre.signals, inputs, targets, m);
                let rested = driven(live, inputs, rests(m), m);
                lemma_drive_elsewhere(inputs, targets, m, name, before);
                lemma_drive_elsewhere(inputs, rests(m), m, name, before);
                assert(live[s].observed == before);
                assert(rested[s].observed == before);
            }
        },
    }
}

/// No two installed circuits share an address.
pub proof fn lemma_installed_circuits_are_disjoint(runtime: RuntimeView, a: int, b: int)
    requires
        runtime.consistent(),
        0 <= a < runtime.circuits.len(),
        0 <= b < runtime.circuits.len(),
        a != b,
    ensures
        runtime.circuits[a].base + runtime.circuits[a].region.len() <= runtime.circuits[b].base
            || runtime.circuits[b].base + runtime.circuits[b].region.len()
            <= runtime.circuits[a].base,
{
}

/// Adding a signal whose name no signal has keeps every signal findable
/// under its name at its own index, and keeps what was found before.
pub proof fn lemma_names_grow(signals: Seq<SignalStatus>, added: SignalStatus)
    requires
        position(signal_names(signals), added.name) is None,
    ensures
        position(signal_names(signals.push(added)), added.name) == Some(signals.len() as int),
        forall|name: Seq<char>|
            position(signal_names(signals), name) is Some ==> #[trigger] position(
                signal_names(signals.push(added)),
                name,
            ) == position(signal_names(signals), name),
{
    let longer = signal_names(signals.push(added));
    assert(longer.drop_last() =~= signal_names(signals));
    assert(longer.last() == added.name);
}

} // verus!
