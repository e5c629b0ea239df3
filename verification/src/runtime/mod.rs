//! The runtime: installed circuits, their signals, and execution.
//!
//! The runtime owns a configuration interface, from which every installed
//! circuit gets a region of its own, a table of signals with one capability
//! each, and a table of bound results. Between two calls every signal rests
//! at `Null`.

use vstd::prelude::*;
use vstd::string::{StrSliceExecFns, StringExecFns};

use crate::fpga::synthesis::FpgaCircuit;
use crate::parser::ast::{text_of, Definition, Invocation};
use crate::sel4::fpga_config::FpgaConfig;
use crate::sel4::{CPtr, CapRights, Error, Word};

pub mod model;
pub mod names;
pub mod ncl;

pub use model::{RuntimeError, RuntimeView, SignalStatus, CAPABILITY_SLOTS, DEFAULT_TIMEOUT};
pub use ncl::{HardwareMapping, NCLState};

use model::{
    acquired, acquisition_error, all_resolve, answering, binding_names, bit_of, bound,
    circuit_names, drive_all, driven, executes, installs, lemma_acquired_covers,
    lemma_acquired_grows, lemma_drive_elsewhere, lemma_drive_keeps_discipline,
    lemma_install_names, lemma_names_grow, lemma_position_in_longer, lemma_reset_rests,
    lemma_targets_are_settled,
    output_word, presented, resolve, rests, signal_names, state_of, targets_of, without,
};
use names::{lemma_position, lemma_position_is, lemma_position_none, lemma_push_name, position};
use ncl::disciplined;

verus! {

/// A named signal and the mapping it is driven through.
struct Signal {
    name: String,
    mapping: HardwareMapping,
}

impl View for Signal {
    type V = SignalStatus;

    closed spec fn view(&self) -> SignalStatus {
        SignalStatus {
            name: self.name@,
            capability: self.mapping.capability(),
            state: self.mapping.current(),
            observed: self.mapping.observed(),
        }
    }
}

/// A result bound to a name.
struct Binding {
    name: String,
    value: Word,
}

impl View for Binding {
    type V = (Seq<char>, Word);

    closed spec fn view(&self) -> (Seq<char>, Word) {
        (self.name@, self.value)
    }
}

/// The word an output value stands for.
pub fn output_word_of(value: &String) -> (word: Word)
    ensures
        word == output_word(value@),
{
    let text: &str = value.as_str();
    let n: usize = text.unicode_len();
    let mut word: u32 = 0;
    let mut i: usize = 0;
    while i < n
        invariant
            i <= n,
            n == value@.len(),
            text@ == value@,
            word == output_word(value@.take(i as int)),
        decreases n - i,
    {
        let c: char = text.get_char(i);
        let bit: u64 = if c == '1' {
            1
        } else {
            0
        };
        proof {
            assert(value@.take(i as int + 1).drop_last() =~= value@.take(i as int));
        }
        word = ((word as u64 * 2 + bit) % 0x1_0000_0000) as u32;
        i = i + 1;
    }
    proof {
        assert(value@.take(n as int) =~= value@);
    }
    word
}

/// `m` requests to return to `Null`.
pub fn rest_requests(m: usize) -> (requests: Vec<NCLState>)
    ensures
        requests@ == rests(m as int),
{
    let mut requests: Vec<NCLState> = Vec::new();
    let mut k: usize = 0;
    while k < m
        invariant
            k <= m,
            requests@ == rests(k as int),
        decreases m - k,
    {
        requests.push(NCLState::Null);
        assert(requests@ =~= rests(k as int + 1));
        k = k + 1;
    }
    requests
}

/// Installed circuits, the signals they are driven through, and the results
/// bound so far.
pub struct Runtime {
    cspace_root: CPtr,
    rights: CapRights,
    timeout: u32,
    config: FpgaConfig,
    signals: Vec<Signal>,
    circuits: Vec<FpgaCircuit>,
    bindings: Vec<Binding>,
}

impl View for Runtime {
    type V = RuntimeView;

    closed spec fn view(&self) -> RuntimeView {
        RuntimeView {
            root: self.cspace_root,
            rights: self.rights,
            timeout: self.timeout,
            next_free: self.config.next_free(),
            signals: Seq::new(self.signals@.len(), |i: int| self.signals@[i]@),
            circuits: Seq::new(self.circuits@.len(), |i: int| self.circuits@[i]@),
            bindings: Seq::new(self.bindings@.len(), |i: int| self.bindings@[i]@),
        }
    }
}

impl Runtime {
    /// The tables are consistent, whatever state the signals are in.
    pub closed spec fn consistent(&self) -> bool {
        &&& self@.consistent()
        &&& self.config.wf()
        &&& forall|s: int| 0 <= s < self.signals@.len() ==> (#[trigger] self.signals@[s]).mapping.wf()
        &&& forall|c: int| 0 <= c < self.circuits@.len() ==> (#[trigger] self.circuits@[c]).wf()
    }

    /// The tables are consistent and every signal is at rest.
    pub closed spec fn wf(&self) -> bool {
        self.consistent() && self@.at_rest()
    }

    /// The installed circuits, in the order they were installed.
    pub closed spec fn installed(&self) -> Seq<FpgaCircuit> {
        self.circuits@
    }

    /// The configuration interface the circuits' regions are mapped from.
    pub closed spec fn interface(&self) -> FpgaConfig {
        self.config
    }

    /// In a well-formed runtime the view is well formed.
    pub proof fn lemma_view_wf(&self)
        requires
            self.wf(),
        ensures
            self@.wf(),
    {
    }

    /// A runtime with no circuit, no signal and no binding, whose root
    /// capability carries every right.
    pub fn new(cspace_root: CPtr) -> (runtime: Runtime)
        ensures
            runtime.wf(),
            runtime@.root == cspace_root,
            runtime@.rights == (CapRights { read: true, write: true, grant: true }),
            runtime@.timeout == DEFAULT_TIMEOUT,
            runtime@.next_free == 0,
            runtime@.signals.len() == 0,
            runtime@.circuits.len() == 0,
            runtime@.bindings.len() == 0,
    {
        Runtime::with_rights(cspace_root, CapRights { read: true, write: true, grant: true })
    }

    /// A runtime with no circuit, no signal and no binding, whose root
    /// capability carries `rights`.
    pub fn with_rights(cspace_root: CPtr, rights: CapRights) -> (runtime: Runtime)
        ensures
            runtime.wf(),
            runtime@.root == cspace_root,
            runtime@.rights == rights,
            runtime@.timeout == DEFAULT_TIMEOUT,
            runtime@.next_free == 0,
            runtime@.signals.len() == 0,
            runtime@.circuits.len() == 0,
            runtime@.bindings.len() == 0,
    {
        Runtime {
            cspace_root,
            rights,
            timeout: DEFAULT_TIMEOUT,
            config: FpgaConfig::new(cspace_root, 0),
            signals: Vec::new(),
            circuits: Vec::new(),
            bindings: Vec::new(),
        }
    }

    /// Sets how many times the completion detector is polled before an
    /// execution times out.
    pub fn set_timeout(&mut self, polls: u32)
        ensures
            final(self)@ == (RuntimeView { timeout: polls, ..old(self)@ }),
            final(self).wf() == old(self).wf(),
    {
        self.timeout = polls;
        proof {
            assert(final(self)@.signals =~= old(self)@.signals);
            assert(final(self)@.circuits =~= old(self)@.circuits);
            assert(final(self)@.bindings =~= old(self)@.bindings);
        }
    }

    /// The index of the signal named `name`, if there is one.
    fn find_signal(&self, name: &String) -> (r: Option<usize>)
        ensures
            r is Some <==> position(signal_names(self@.signals), name@) is Some,
            r is Some ==> r->0 < self.signals@.len() && position(
                signal_names(self@.signals),
                name@,
            ) == Some(r->0 as int),
    {
        let ghost names = signal_names(self@.signals);
        let n: usize = self.signals.len();
        let mut k: usize = 0;
        while k < n
            invariant
                k <= n,
                n == self.signals@.len(),
                names == signal_names(self@.signals),
                names.len() == n,
                forall|j: int| 0 <= j < k ==> #[trigger] names[j] != name@,
            decreases n - k,
        {
            assert(names[k as int] == self.signals@[k as int].name@);
            if self.signals[k].name == *name {
                proof {
                    lemma_position_is(names, name@, k as int);
                }
                return Some(k);
            }
            k = k + 1;
        }
        proof {
            lemma_position_none(names, name@);
        }
        None
    }

    /// Acquires the capability of the signal `name`, or returns the one held
    /// already.
    ///
    /// A new signal takes the next free slot after the root capability and
    /// rests at `Null`. Acquiring fails, changing nothing, with
    /// `PermissionDenied` when the root capability does not carry the grant
    /// right, and otherwise with `ResourceExhausted` when no slot is left.
    pub fn request_gpio(&mut self, name: &str) -> (r: Result<CPtr, Error>)
        requires
            old(self).wf(),
        ensures
            final(self).wf(),
            final(self).installed() == old(self).installed(),
            final(self).interface() == old(self).interface(),
            match position(signal_names(old(self)@.signals), name@) {
                Some(k) => r == Ok::<CPtr, Error>(old(self)@.signals[k].capability) && final(self)@
                    == old(self)@,
                None => if !old(self)@.rights.grant {
                    r == Err::<CPtr, Error>(Error::PermissionDenied) && final(self)@ == old(self)@
                } else if old(self)@.signals.len() >= CAPABILITY_SLOTS || old(self)@.root + old(self)@.signals.len() >= usize::MAX {
                    r == Err::<CPtr, Error>(Error::ResourceExhausted) && final(self)@ == old(self)@
                } else {
                    let cap = (old(self)@.root + 1 + old(self)@.signals.len()) as usize;
                    &&& r == Ok::<CPtr, Error>(cap)
                    &&& final(self)@ == (RuntimeView {
                        signals: old(self)@.signals.push(
                            SignalStatus {
                                name: name@,
                                capability: cap,
                                state: NCLState::Null,
                                observed: seq![NCLState::Null],
                            },
                        ),
                        ..old(self)@
                    })
                },
            },
    {
        let owned: String = String::from_str(name);
        match self.find_signal(&owned) {
            Some(k) => {
                return Ok(self.signals[k].mapping.gpio_cap());
            },
            None => {},
        }
        if !self.rights.grant {
            return Err(Error::PermissionDenied);
        }
        let held: usize = self.signals.len();
        if held >= CAPABILITY_SLOTS || self.cspace_root >= usize::MAX - held {
            return Err(Error::ResourceExhausted);
        }
        let cap: CPtr = self.cspace_root + 1 + held;
        let mapping = HardwareMapping::new(cap, NCLState::Null);
        self.signals.push(Signal { name: owned, mapping });
        proof {
            let pre = old(self)@;
            let post = self@;
            let added = SignalStatus {
                name: name@,
                capability: cap,
                state: NCLState::Null,
                observed: seq![NCLState::Null],
            };
            assert(post.signals =~= pre.signals.push(added));
            assert(post.circuits =~= pre.circuits);
            assert(post.bindings =~= pre.bindings);
            lemma_position(signal_names(pre.signals), name@);
            lemma_names_grow(pre.signals, added);
        }
        Ok(cap)
    }

    /// Acquires a capability for every name of `inputs`, in order, reusing
    /// the ones held already. When one cannot be acquired, those acquired by
    /// this call are given up again, so the call changes nothing.
    fn acquire_capabilities(&mut self, inputs: &Vec<String>) -> (r: Result<(), Error>)
        requires
            old(self).wf(),
        ensures
            final(self).wf(),
            final(self).installed() == old(self).installed(),
            final(self).interface() == old(self).interface(),
            match acquisition_error(old(self)@, text_of(inputs@)) {
                Some(e) => r == Err::<(), Error>(e) && final(self)@ == old(self)@,
                None => r is Ok && final(self)@ == (RuntimeView {
                    signals: acquired(
                        old(self)@.signals,
                        old(self)@.root,
                        text_of(inputs@),
                        inputs@.len() as int,
                    ),
                    ..old(self)@
                }),
            },
    {
        let ghost pre = self@;
        let ghost names = text_of(inputs@);
        let held: usize = self.signals.len();
        let n: usize = inputs.len();
        let mut k: usize = 0;
        while k < n
            invariant
                k <= n,
                n == inputs@.len(),
                names == text_of(inputs@),
                pre == old(self)@,
                held == pre.signals.len(),
                old(self).wf(),
                self.wf(),
                self.installed() == old(self).installed(),
                self.interface() == old(self).interface(),
                self@ == (RuntimeView {
                    signals: acquired(pre.signals, pre.root, names, k as int),
                    ..pre
                }),
                self@.signals.len() > held ==> pre.rights.grant,
            decreases n - k,
        {
            proof {
                lemma_acquired_grows(pre.signals, pre.root, names, k as int + 1, n as int);
                lemma_acquired_grows(pre.signals, pre.root, names, 0, k as int);
                lemma_acquired_grows(pre.signals, pre.root, names, 0, n as int);
            }
            match self.request_gpio(inputs[k].as_str()) {
                Ok(_) => {},
                Err(e) => {
                    self.signals.truncate(held);
                    proof {
                        assert(self@.signals =~= pre.signals);
                        assert(self@.circuits =~= pre.circuits);
                        assert(self@.bindings =~= pre.bindings);
                    }
                    return Err(e);
                },
            }
            k = k + 1;
        }
        proof {
            lemma_acquired_grows(pre.signals, pre.root, names, 0, n as int);
        }
        Ok(())
    }

    /// The index of the circuit whose definition is named `name`, if one is
    /// installed.
    fn find_circuit(&self, name: &String) -> (r: Option<usize>)
        ensures
            r is Some <==> position(circuit_names(self@.circuits), name@) is Some,
            r is Some ==> r->0 < self.circuits@.len() && position(
                circuit_names(self@.circuits),
                name@,
            ) == Some(r->0 as int),
    {
        let ghost names = circuit_names(self@.circuits);
        let n: usize = self.circuits.len();
        let mut k: usize = 0;
        while k < n
            invariant
                k <= n,
                n == self.circuits@.len(),
                names == circuit_names(self@.circuits),
                names.len() == n,
                forall|j: int| 0 <= j < k ==> #[trigger] names[j] != name@,
            decreases n - k,
        {
            assert(names[k as int] == self.circuits@[k as int]@.definition.name);
            if self.circuits[k].definition().name == *name {
                proof {
                    lemma_position_is(names, name@, k as int);
                }
                return Some(k);
            }
            k = k + 1;
        }
        proof {
            lemma_position_none(names, name@);
        }
        None
    }

    /// Compiles `def` and installs the circuit, in place of the installed
    /// circuit of the same name if `replace` allows it.
    fn install(&mut self, def: Definition, replace: bool) -> (r: Result<(), RuntimeError>)
        requires
            old(self).wf(),
        ensures
            final(self).wf(),
            installs(old(self)@, def@, replace, final(self)@, r),
    {
        let ghost pre = self@;
        let ghost plain = def@;
        let existing: Option<usize> = self.find_circuit(&def.name);
        if !replace && existing.is_some() {
            return Err(RuntimeError::DuplicateDefinition);
        }
        let circuit: FpgaCircuit = match FpgaCircuit::new(def, &mut self.config) {
            Ok(circuit) => circuit,
            Err(e) => {
                proof {
                    assert(self@.signals =~= pre.signals);
                    assert(self@.circuits =~= pre.circuits);
                    assert(self@.bindings =~= pre.bindings);
                }
                return Err(RuntimeError::Compile(e));
            },
        };
        let ghost taken = self@;
        proof {
            assert(taken.signals =~= pre.signals);
            assert(taken.circuits =~= pre.circuits);
            assert(taken.bindings =~= pre.bindings);
            circuit.lemma_view_wf();
        }
        match self.acquire_capabilities(&circuit.definition().inputs) {
            Ok(()) => {},
            Err(e) => {
                return Err(RuntimeError::Hardware(e));
            },
        }
        let ghost ready = self@;
        let ghost kept = without(pre.circuits, plain.name);
        match existing {
            Some(k) => {
                self.circuits.remove(k);
            },
            None => {},
        }
        self.circuits.push(circuit);
        proof {
            let post = self@;
            let added = circuit@;
            assert(post.signals =~= ready.signals);
            assert(post.bindings =~= ready.bindings);
            assert(post.circuits =~= kept.push(added));
            lemma_install_names(pre.circuits, added);
            assert forall|c: int| 0 <= c < post.circuits.len() implies {
                let v = #[trigger] post.circuits[c];
                &&& v.wf()
                &&& v.base + v.region.len() <= post.next_free
                &&& forall|i: int|
                    0 <= i < v.definition.inputs.len() ==> position(
                        signal_names(post.signals),
                        #[trigger] v.definition.inputs[i],
                    ) is Some
            } by {
                let v = post.circuits[c];
                lemma_acquired_grows(
                    pre.signals,
                    pre.root,
                    plain.inputs,
                    0,
                    plain.inputs.len() as int,
                );
                if c < kept.len() {
                    let from = match existing {
                        Some(k) => if c < k {
                            c
                        } else {
                            c + 1
                        },
                        None => c,
                    };
                    assert(v == pre.circuits[from]);
                    assert forall|i: int| 0 <= i < v.definition.inputs.len() implies position(
                        signal_names(post.signals),
                        #[trigger] v.definition.inputs[i],
                    ) is Some by {
                        lemma_position_in_longer(pre.signals, post.signals, v.definition.inputs[i]);
                    }
                } else {
                    assert forall|i: int| 0 <= i < v.definition.inputs.len() implies position(
                        signal_names(post.signals),
                        #[trigger] v.definition.inputs[i],
                    ) is Some by {
                        lemma_acquired_covers(
                            pre.signals,
                            pre.root,
                            plain.inputs,
                            plain.inputs.len() as int,
                            i,
                        );
                    }
                }
            }
            assert forall|a: int, b: int| 0 <= a < b < post.circuits.len() implies (
            #[trigger] post.circuits[a]).base + post.circuits[a].region.len() <= (
            #[trigger] post.circuits[b]).base by {
                let from_a = match existing {
                    Some(k) => if a < k {
                        a
                    } else {
                        a + 1
                    },
                    None => a,
                };
                assert(post.circuits[a] == pre.circuits[from_a]);
                if b < kept.len() {
                    let from_b = match existing {
                        Some(k) => if b < k {
                            b
                        } else {
                            b + 1
                        },
                        None => b,
                    };
                    assert(post.circuits[b] == pre.circuits[from_b]);
                }
            }
            assert(post.wf());
        }
        Ok(())
    }

    /// Compiles `def` and installs the circuit under the definition's name.
    ///
    /// A name that is installed already is refused with
    /// `DuplicateDefinition`. A definition that does not compile is refused
    /// with the compile error, and one whose inputs cannot all get a
    /// capability with the hardware error. Whatever is refused leaves
    /// signals, circuits and bindings as they were.
    pub fn install_definition(&mut self, def: Definition) -> (r: Result<(), RuntimeError>)
        requires
            old(self).wf(),
        ensures
            final(self).wf(),
            installs(old(self)@, def@, false, final(self)@, r),
    {
        self.install(def, false)
    }

    /// Compiles `def` and installs the circuit in place of the installed
    /// circuit of the same name, or beside the others if there is none.
    ///
    /// The region of the replaced circuit is given up before the new
    /// circuit is installed, and the new circuit shares no address with it.
    /// When `def` is refused the installed circuit stays.
    pub fn replace_definition(&mut self, def: Definition) -> (r: Result<(), RuntimeError>)
        requires
            old(self).wf(),
        ensures
            final(self).wf(),
            installs(old(self)@, def@, true, final(self)@, r),
    {
        self.install(def, true)
    }

    /// The index of the binding named `name`, if there is one.
    fn find_binding(&self, name: &String) -> (r: Option<usize>)
        ensures
            r is Some <==> position(binding_names(self@.bindings), name@) is Some,
            r is Some ==> r->0 < self.bindings@.len() && position(
                binding_names(self@.bindings),
                name@,
            ) == Some(r->0 as int),
    {
        let ghost names = binding_names(self@.bindings);
        let n: usize = self.bindings.len();
        let mut k: usize = 0;
        while k < n
            invariant
                k <= n,
                n == self.bindings@.len(),
                names == binding_names(self@.bindings),
                names.len() == n,
                forall|j: int| 0 <= j < k ==> #[trigger] names[j] != name@,
            decreases n - k,
        {
            assert(names[k as int] == self.bindings@[k as int].name@);
            if self.bindings[k].name == *name {
                proof {
                    lemma_position_is(names, name@, k as int);
                }
                return Some(k);
            }
            k = k + 1;
        }
        proof {
            lemma_position_none(names, name@);
        }
        None
    }

    /// The state the argument `token` stands for, if it stands for one.
    fn resolve_argument(&self, token: &String) -> (r: Option<NCLState>)
        requires
            self.consistent(),
        ensures
            r == resolve(self@.bindings, self@.signals, token@),
    {
        proof {
            reveal_strlit("0");
            reveal_strlit("1");
            assert("0"@ =~= seq!['0']);
            assert("1"@ =~= seq!['1']);
        }
        let zero: String = String::from_str("0");
        let one: String = String::from_str("1");
        if *token == zero {
            Some(NCLState::Data(0))
        } else if *token == one {
            Some(NCLState::Data(1))
        } else {
            match self.find_binding(token) {
                Some(k) => Some(NCLState::Data(self.bindings[k].value)),
                None => match self.find_signal(token) {
                    Some(s) => if self.signals[s].mapping.was_driven() {
                        Some(self.signals[s].mapping.state())
                    } else {
                        None
                    },
                    None => None,
                },
            }
        }
    }

    /// The states the first `m` arguments stand for, if each stands for
    /// one.
    fn resolve_arguments(&self, arguments: &Vec<String>, m: usize) -> (r: Option<Vec<NCLState>>)
        requires
            self.consistent(),
            m <= arguments@.len(),
        ensures
            r is Some <==> all_resolve(
                self@.bindings,
                self@.signals,
                text_of(arguments@),
                m as int,
            ),
            r is Some ==> r->0@ == targets_of(
                self@.bindings,
                self@.signals,
                text_of(arguments@),
                m as int,
            ),
    {
        let ghost tokens = text_of(arguments@);
        let mut targets: Vec<NCLState> = Vec::new();
        let mut k: usize = 0;
        while k < m
            invariant
                k <= m,
                m <= arguments@.len(),
                self.consistent(),
                tokens == text_of(arguments@),
                all_resolve(self@.bindings, self@.signals, tokens, k as int),
                targets@ == targets_of(self@.bindings, self@.signals, tokens, k as int),
            decreases m - k,
        {
            assert(tokens[k as int] == arguments@[k as int]@);
            match self.resolve_argument(&arguments[k]) {
                Some(state) => {
                    targets.push(state);
                },
                None => {
                    return None;
                },
            }
            assert(targets@ =~= targets_of(self@.bindings, self@.signals, tokens, k as int + 1));
            k = k + 1;
        }
        Some(targets)
    }

    /// Binds `value` to `name`, in place of what was bound to it before.
    fn bind(&mut self, name: String, value: Word)
        requires
            old(self).consistent(),
        ensures
            final(self).consistent(),
            final(self).installed() == old(self).installed(),
            final(self).interface() == old(self).interface(),
            final(self)@ == (RuntimeView {
                bindings: bound(old(self)@.bindings, name@, value),
                ..old(self)@
            }),
    {
        let ghost pre = self@;
        let ghost names = binding_names(pre.bindings);
        match self.find_binding(&name) {
            Some(k) => {
                self.bindings.set(k, Binding { name, value });
                proof {
                    assert(self@.bindings =~= pre.bindings.update(k as int, (name@, value)));
                    lemma_position(names, name@);
                    assert(binding_names(self@.bindings) =~= names);
                }
            },
            None => {
                self.bindings.push(Binding { name, value });
                proof {
                    assert(self@.bindings =~= pre.bindings.push((name@, value)));
                    lemma_push_name(names, name@);
                    assert(binding_names(self@.bindings) =~= names.push(name@));
                    assert forall|b: int| 0 <= b < self@.bindings.len() implies position(
                        binding_names(self@.bindings),
                        (#[trigger] self@.bindings[b]).0,
                    ) == Some(b) by {
                        if b < pre.bindings.len() {
                            assert(self@.bindings[b] == pre.bindings[b]);
                        }
                    }
                }
            },
        }
        proof {
            assert(self@.signals =~= pre.signals);
            assert(self@.circuits =~= pre.circuits);
        }
    }

    /// Asks the first inputs of circuit `c` to take `targets`, in input
    /// order, each through the signal of its name.
    fn drive(&mut self, c: usize, targets: &Vec<NCLState>)
        requires
            old(self).consistent(),
            c < old(self)@.circuits.len(),
            targets@.len() <= old(self)@.circuits[c as int].definition.inputs.len(),
            forall|k: int| 0 <= k < targets@.len() ==> !(#[trigger] targets@[k] is Transitioning),
        ensures
            final(self).consistent(),
            final(self).installed() == old(self).installed(),
            final(self).interface() == old(self).interface(),
            final(self)@ == (RuntimeView {
                signals: driven(
                    old(self)@.signals,
                    old(self)@.circuits[c as int].definition.inputs,
                    targets@,
                    targets@.len() as int,
                ),
                ..old(self)@
            }),
    {
        let ghost pre = self@;
        let ghost inputs = pre.circuits[c as int].definition.inputs;
        let ghost names = signal_names(pre.signals);
        let m: usize = targets.len();
        let mut k: usize = 0;
        proof {
            assert(self@.signals =~= driven(pre.signals, inputs, targets@, 0));
        }
        while k < m
            invariant
                k <= m,
                m == targets@.len(),
                m <= inputs.len(),
                pre == old(self)@,
                pre.consistent(),
                c < pre.circuits.len(),
                inputs == pre.circuits[c as int].definition.inputs,
                names == signal_names(pre.signals),
                forall|k: int|
                    0 <= k < targets@.len() ==> !(#[trigger] targets@[k] is Transitioning),
                self.consistent(),
                self.installed() == old(self).installed(),
                self.interface() == old(self).interface(),
                self@ == (RuntimeView {
                    signals: driven(pre.signals, inputs, targets@, k as int),
                    ..pre
                }),
            decreases m - k,
        {
            let ghost now = self@;
            proof {
                assert(signal_names(now.signals) =~= names);
                assert(now.circuits[c as int] == pre.circuits[c as int]);
            }
            let found: Option<usize> = self.find_signal(
                &self.circuits[c].definition().inputs[k],
            );
            let s: usize = match found {
                Some(s) => s,
                None => {
                    // Every input of an installed circuit has a signal.
                    assert(position(names, inputs[k as int]) is Some);
                    return ;
                },
            };
            proof {
                lemma_position(names, inputs[k as int]);
                assert(now.signals[s as int].name == inputs[k as int]);
            }
            let _ = self.signals[s].mapping.set_state(targets[k]);
            proof {
                let next = driven(pre.signals, inputs, targets@, k as int + 1);
                assert forall|i: int| 0 <= i < next.len() implies self@.signals[i] == next[i] by {
                    if i != s {
                        assert(self@.signals[i] == now.signals[i]);
                        assert(position(names, pre.signals[i].name) == Some(i));
                        assert(pre.signals[i].name != inputs[k as int]);
                    }
                }
                assert(self@.signals =~= next);
                assert(self@.circuits =~= pre.circuits);
                assert(self@.bindings =~= pre.bindings);
                assert(signal_names(self@.signals) =~= names);
                assert forall|i: int| 0 <= i < self@.signals.len() implies {
                    let g = #[trigger] self@.signals[i];
                    &&& !(g.state is Transitioning)
                    &&& g.observed.len() > 0
                    &&& g.observed.last() == g.state
                    &&& disciplined(g.observed)
                    &&& g.capability == self@.root + 1 + i
                    &&& position(signal_names(self@.signals), g.name) == Some(i)
                } by {
                    if i != s {
                        assert(self@.signals[i] == now.signals[i]);
                    }
                }
            }
            k = k + 1;
        }
    }

    /// The index of the lookup table that answers, if the completion
    /// detector asserts within the timeout. The modelled fabric settles
    /// before the first poll, so one poll decides.
    fn observe(&self, c: usize) -> (r: Option<usize>)
        requires
            self.consistent(),
            c < self@.circuits.len(),
        ensures
            r is Some <==> answering(self@.timeout, self@.signals, self@.circuits[c as int]) is Some,
            r is Some ==> r->0 < self@.circuits[c as int].luts.len() && answering(
                self@.timeout,
                self@.signals,
                self@.circuits[c as int],
            ) == Some(r->0 as int),
    {
        if self.timeout == 0 {
            return None;
        }
        let ghost signals = self@.signals;
        let ghost inputs = self@.circuits[c as int].definition.inputs;
        proof {
            reveal_strlit("0");
            reveal_strlit("1");
            assert("0"@ =~= seq!['0']);
            assert("1"@ =~= seq!['1']);
        }
        let n: usize = self.circuits[c].definition().inputs.len();
        let mut pattern: String = String::new();
        let mut i: usize = 0;
        while i < n
            invariant
                i <= n,
                n == inputs.len(),
                c < self.circuits@.len(),
                signals == self@.signals,
                inputs == self@.circuits[c as int].definition.inputs,
                "0"@ == seq!['0'],
                "1"@ == seq!['1'],
                forall|j: int| 0 <= j < i ==> state_of(signals, #[trigger] inputs[j]) is Data,
                pattern@ == Seq::new(i as nat, |j: int| bit_of(state_of(signals, inputs[j]))),
            decreases n - i,
        {
            let state: NCLState = match self.find_signal(&self.circuits[c].definition().inputs[i]) {
                Some(s) => self.signals[s].mapping.state(),
                None => NCLState::Null,
            };
            assert(state == state_of(signals, inputs[i as int]));
            match state {
                NCLState::Data(w) => {
                    if w == 0 {
                        pattern.append("0");
                    } else {
                        pattern.append("1");
                    }
                },
                _ => {
                    return None;
                },
            }
            assert(pattern@ =~= Seq::new(
                (i + 1) as nat,
                |j: int| bit_of(state_of(signals, inputs[j])),
            ));
            i = i + 1;
        }
        assert(presented(signals, inputs) == Some(pattern@));
        self.circuits[c].find_lut(&pattern)
    }

    /// Executes `inv` on the circuit it names.
    ///
    /// Fails with `DefinitionNotFound` when no such circuit is installed and
    /// with `UnboundSignal` when an argument is neither a literal bit nor
    /// the name of a signal that was bound or driven before; neither changes
    /// anything. Fails with
    /// `Timeout` when the completion detector does not assert in time. On
    /// success the answering table's output is bound to `inv.dest`. Once an
    /// input was driven, every driven input is back at `Null` when the call
    /// returns, however it ends.
    pub fn execute(&mut self, inv: Invocation) -> (r: Result<(), RuntimeError>)
        requires
            old(self).wf(),
        ensures
            final(self).wf(),
            final(self).installed() == old(self).installed(),
            final(self).interface() == old(self).interface(),
            executes(old(self)@, inv@, final(self)@, r),
    {
        let ghost pre = self@;
        let ghost plain = inv@;
        let c: usize = match self.find_circuit(&inv.function) {
            Some(c) => c,
            None => {
                return Err(RuntimeError::DefinitionNotFound);
            },
        };
        let ghost inputs = pre.circuits[c as int].definition.inputs;
        let n: usize = self.circuits[c].definition().inputs.len();
        let m: usize = if inv.arguments.len() <= n {
            inv.arguments.len()
        } else {
            n
        };
        let targets: Vec<NCLState> = match self.resolve_arguments(&inv.arguments, m) {
            Some(targets) => targets,
            None => {
                return Err(RuntimeError::UnboundSignal);
            },
        };
        proof {
            lemma_targets_are_settled(pre.bindings, pre.signals, plain.arguments, m as int);
        }
        self.drive(c, &targets);
        let ghost live = self@;
        proof {
            assert(live.circuits[c as int] == pre.circuits[c as int]);
        }
        let answer: Option<usize> = self.observe(c);
        let outcome: Result<(), RuntimeError> = match answer {
            Some(j) => {
                let value: Word = output_word_of(&self.circuits[c].luts()[j].output_value);
                self.bind(inv.dest, value);
                Ok(())
            },
            None => Err(RuntimeError::Timeout),
        };
        let ghost answered = self@;
        let requests: Vec<NCLState> = rest_requests(m);
        proof {
            assert(answered.circuits[c as int] == pre.circuits[c as int]);
        }
        self.drive(c, &requests);
        proof {
            let post = self@;
            assert forall|s: int| 0 <= s < post.signals.len() implies (#[trigger] post.signals[s]).state
                == NCLState::Null by {
                let name = pre.signals[s].name;
                let before = pre.signals[s].observed;
                let driven_history = drive_all(inputs, targets@, m as int, name, before);
                lemma_drive_keeps_discipline(inputs, targets@, m as int, name, before);
                if exists|j: int| 0 <= j < m && #[trigger] inputs[j] == name {
                    lemma_reset_rests(inputs, m as int, name, driven_history, m as int);
                } else {
                    lemma_drive_elsewhere(inputs, targets@, m as int, name, before);
                    lemma_drive_elsewhere(inputs, rests(m as int), m as int, name, before);
                }
            }
        }
        outcome
    }

    /// The state of the signal named `name`, if there is one.
    pub fn signal_state(&self, name: &str) -> (r: Option<NCLState>)
        ensures
            r == match position(signal_names(self@.signals), name@) {
                Some(s) => Some(self@.signals[s].state),
                None => None,
            },
    {
        let owned: String = String::from_str(name);
        match self.find_signal(&owned) {
            Some(s) => Some(self.signals[s].mapping.state()),
            None => None,
        }
    }

    /// The capability of the signal named `name`, if there is one.
    pub fn gpio_cap(&self, name: &str) -> (r: Option<CPtr>)
        ensures
            r == match position(signal_names(self@.signals), name@) {
                Some(s) => Some(self@.signals[s].capability),
                None => None,
            },
    {
        let owned: String = String::from_str(name);
        match self.find_signal(&owned) {
            Some(s) => Some(self.signals[s].mapping.gpio_cap()),
            None => None,
        }
    }

    /// The value bound to `name`, if one is.
    pub fn binding(&self, name: &str) -> (r: Option<Word>)
        ensures
            r == match position(binding_names(self@.bindings), name@) {
                Some(k) => Some(self@.bindings[k].1),
                None => None,
            },
    {
        let owned: String = String::from_str(name);
        match self.find_binding(&owned) {
            Some(k) => Some(self.bindings[k].value),
            None => None,
        }
    }

    /// The installed circuit whose definition is named `name`, if there is
    /// one.
    pub fn circuit(&self, name: &str) -> (r: Option<&FpgaCircuit>)
        ensures
            match position(circuit_names(self@.circuits), name@) {
                Some(c) => r is Some && r->0@ == self@.circuits[c] && (self.wf() ==> r->0.wf()),
                None => r is None,
            },
    {
        let owned: String = String::from_str(name);
        match self.find_circuit(&owned) {
            Some(c) => Some(&self.circuits[c]),
            None => None,
        }
    }

    /// How many times the completion detector is polled.
    pub fn timeout(&self) -> (polls: u32)
        ensures
            polls == self@.timeout,
    {
        self.timeout
    }
}

} // verus!
