use mkstorm::fpga::CompileError;
use mkstorm::parser::ast::{Definition, Invocation, ResolutionTable};
use mkstorm::runtime::{
    output_word_of, rest_requests, HardwareMapping, NCLState, Runtime, RuntimeError,
    CAPABILITY_SLOTS, DEFAULT_TIMEOUT,
};
use mkstorm::sel4::{CapRights, Error};

fn definition(name: &str, inputs: &[&str], outputs: &[&str], rows: &[(&str, &str)]) -> Definition {
    Definition {
        name: name.to_string(),
        inputs: inputs.iter().map(|s| s.to_string()).collect(),
        outputs: outputs.iter().map(|s| s.to_string()).collect(),
        resolution: ResolutionTable {
            patterns: rows.iter().map(|(p, v)| (p.to_string(), v.to_string())).collect(),
        },
    }
}

fn or_gate() -> Definition {
    definition("OR", &["A", "B"], &["IN"], &[("00", "0"), ("01", "1"), ("10", "1"), ("11", "1")])
}

fn invocation(dest: &str, function: &str, arguments: &[&str]) -> Invocation {
    Invocation {
        dest: dest.to_string(),
        function: function.to_string(),
        arguments: arguments.iter().map(|s| s.to_string()).collect(),
    }
}

fn data_pairs(trace: &[NCLState]) -> usize {
    trace
        .windows(2)
        .filter(|w| matches!(w[0], NCLState::Data(_)) && matches!(w[1], NCLState::Data(_)))
        .count()
}

#[test]
fn or_of_zero_and_one_binds_one() {
    let mut runtime = Runtime::new(7);
    assert_eq!(runtime.install_definition(or_gate()), Ok(()));
    assert_eq!(runtime.execute(invocation("R", "OR", &["0", "1"])), Ok(()));
    assert_eq!(runtime.binding("R"), Some(1));
}

#[test]
fn or_of_one_and_one_binds_one_and_rests() {
    let mut runtime = Runtime::new(7);
    runtime.install_definition(or_gate()).unwrap();
    assert_eq!(runtime.execute(invocation("R", "OR", &["1", "1"])), Ok(()));
    assert_eq!(runtime.binding("R"), Some(1));
    assert_eq!(runtime.signal_state("A"), Some(NCLState::Null));
    assert_eq!(runtime.signal_state("B"), Some(NCLState::Null));
}

#[test]
fn or_follows_its_truth_table() {
    let mut runtime = Runtime::new(7);
    runtime.install_definition(or_gate()).unwrap();
    for (a, b, expected) in [("0", "0", 0), ("0", "1", 1), ("1", "0", 1), ("1", "1", 1)] {
        assert_eq!(runtime.execute(invocation("R", "OR", &[a, b])), Ok(()));
        assert_eq!(runtime.binding("R"), Some(expected));
        assert_eq!(runtime.signal_state("A"), Some(NCLState::Null));
        assert_eq!(runtime.signal_state("B"), Some(NCLState::Null));
    }
}

#[test]
fn a_detector_that_never_asserts_times_out() {
    let mut runtime = Runtime::new(7);
    runtime.install_definition(or_gate()).unwrap();
    runtime.set_timeout(0);
    assert_eq!(runtime.execute(invocation("R", "OR", &["1", "1"])), Err(RuntimeError::Timeout));
    assert_eq!(runtime.signal_state("A"), Some(NCLState::Null));
    assert_eq!(runtime.signal_state("B"), Some(NCLState::Null));
    assert_eq!(runtime.binding("R"), None);
    // The circuit is clean for the next call.
    runtime.set_timeout(5);
    assert_eq!(runtime.execute(invocation("R", "OR", &["1", "0"])), Ok(()));
    assert_eq!(runtime.binding("R"), Some(1));
}

#[test]
fn an_uncovered_pattern_times_out() {
    let mut runtime = Runtime::new(7);
    let partial = definition("AND", &["A", "B"], &["Q"], &[("11", "1"), ("00", "0")]);
    runtime.install_definition(partial).unwrap();
    assert_eq!(runtime.execute(invocation("R", "AND", &["0", "1"])), Err(RuntimeError::Timeout));
    assert_eq!(runtime.signal_state("A"), Some(NCLState::Null));
    assert_eq!(runtime.signal_state("B"), Some(NCLState::Null));
    assert_eq!(runtime.binding("R"), None);
    assert_eq!(runtime.execute(invocation("R", "AND", &["1", "1"])), Ok(()));
    assert_eq!(runtime.binding("R"), Some(1));
}

#[test]
fn an_input_that_is_not_driven_keeps_the_detector_low() {
    let mut runtime = Runtime::new(7);
    runtime.install_definition(or_gate()).unwrap();
    assert_eq!(runtime.execute(invocation("R", "OR", &["1"])), Err(RuntimeError::Timeout));
    assert_eq!(runtime.execute(invocation("R", "OR", &[])), Err(RuntimeError::Timeout));
    assert_eq!(runtime.signal_state("A"), Some(NCLState::Null));
    assert_eq!(runtime.binding("R"), None);
    // Arguments beyond the inputs are not looked at.
    assert_eq!(runtime.execute(invocation("R", "OR", &["0", "0", "nobody"])), Ok(()));
    assert_eq!(runtime.binding("R"), Some(0));
}

#[test]
fn an_unknown_circuit_is_not_found() {
    let mut runtime = Runtime::new(7);
    assert_eq!(
        runtime.execute(invocation("R", "OR", &["0", "1"])),
        Err(RuntimeError::DefinitionNotFound)
    );
    runtime.install_definition(or_gate()).unwrap();
    assert_eq!(
        runtime.execute(invocation("R", "AND", &["0", "1"])),
        Err(RuntimeError::DefinitionNotFound)
    );
    assert_eq!(runtime.binding("R"), None);
}

#[test]
fn a_reference_resolves_to_what_was_bound() {
    let mut runtime = Runtime::new(7);
    runtime.install_definition(or_gate()).unwrap();
    runtime.install_definition(definition("NOT", &["X"], &["Q"], &[("0", "1"), ("1", "0")])).unwrap();
    assert_eq!(runtime.execute(invocation("R", "OR", &["0", "0"])), Ok(()));
    assert_eq!(runtime.binding("R"), Some(0));
    assert_eq!(runtime.execute(invocation("S", "NOT", &["R"])), Ok(()));
    assert_eq!(runtime.binding("S"), Some(1));
    assert_eq!(runtime.execute(invocation("R", "OR", &["R", "S"])), Ok(()));
    assert_eq!(runtime.binding("R"), Some(1));
    assert_eq!(runtime.binding("S"), Some(1));
}

#[test]
fn a_reference_to_nothing_is_unbound() {
    let mut runtime = Runtime::new(7);
    runtime.install_definition(or_gate()).unwrap();
    assert_eq!(
        runtime.execute(invocation("R", "OR", &["0", "X"])),
        Err(RuntimeError::UnboundSignal)
    );
    // An input signal that was never driven stands for nothing either.
    assert_eq!(
        runtime.execute(invocation("R", "OR", &["A", "1"])),
        Err(RuntimeError::UnboundSignal)
    );
    assert_eq!(runtime.binding("R"), None);
    assert_eq!(runtime.signal_state("A"), Some(NCLState::Null));
    assert_eq!(runtime.signal_state("B"), Some(NCLState::Null));
}

#[test]
fn a_wide_output_binds_its_binary_value() {
    let mut runtime = Runtime::new(7);
    let adder = definition(
        "ADD",
        &["A", "B"],
        &["C", "S"],
        &[("00", "00"), ("01", "01"), ("10", "01"), ("11", "10")],
    );
    runtime.install_definition(adder).unwrap();
    runtime.install_definition(or_gate()).unwrap();
    assert_eq!(runtime.execute(invocation("T", "ADD", &["1", "1"])), Ok(()));
    assert_eq!(runtime.binding("T"), Some(2));
    // A value other than zero drives the logical 1.
    assert_eq!(runtime.execute(invocation("R", "OR", &["T", "0"])), Ok(()));
    assert_eq!(runtime.binding("R"), Some(1));
}

#[test]
fn output_words_are_binary_numerals() {
    assert_eq!(output_word_of(&"".to_string()), 0);
    assert_eq!(output_word_of(&"0".to_string()), 0);
    assert_eq!(output_word_of(&"1".to_string()), 1);
    assert_eq!(output_word_of(&"10".to_string()), 2);
    assert_eq!(output_word_of(&"0110".to_string()), 6);
    assert_eq!(output_word_of(&"1".repeat(32)), u32::MAX);
    // Bits beyond the width of a word are cut off.
    assert_eq!(output_word_of(&format!("1{}", "0".repeat(32))), 0);
    assert_eq!(output_word_of(&format!("11{}1", "0".repeat(30))), 0x8000_0001);
}

#[test]
fn installing_twice_is_refused() {
    let mut runtime = Runtime::new(7);
    assert_eq!(runtime.install_definition(or_gate()), Ok(()));
    assert_eq!(runtime.install_definition(or_gate()), Err(RuntimeError::DuplicateDefinition));
    // The name decides, not the table.
    let other = definition("OR", &["X"], &["Q"], &[("0", "0")]);
    assert_eq!(runtime.install_definition(other), Err(RuntimeError::DuplicateDefinition));
    assert_eq!(runtime.signal_state("X"), None);
    assert_eq!(runtime.circuit("OR").unwrap().definition(), &or_gate());
}

#[test]
fn a_replacement_reuses_no_address() {
    let mut runtime = Runtime::new(7);
    runtime.install_definition(or_gate()).unwrap();
    let (first_base, first_size) = {
        let region = runtime.circuit("OR").unwrap().region();
        (region.base(), region.size())
    };
    let nor = definition("OR", &["A", "B"], &["IN"], &[("00", "1"), ("01", "0"), ("10", "0"), ("11", "0")]);
    assert_eq!(runtime.replace_definition(nor.clone()), Ok(()));
    let circuit = runtime.circuit("OR").unwrap();
    assert_eq!(circuit.definition(), &nor);
    assert!(first_base + first_size <= circuit.region().base());
    assert_eq!(circuit.region().base(), first_base + first_size);
    assert_eq!(runtime.execute(invocation("R", "OR", &["0", "0"])), Ok(()));
    assert_eq!(runtime.binding("R"), Some(1));
}

#[test]
fn replacing_what_is_not_there_installs() {
    let mut runtime = Runtime::new(7);
    assert_eq!(runtime.replace_definition(or_gate()), Ok(()));
    assert!(runtime.circuit("OR").is_some());
    assert_eq!(runtime.execute(invocation("R", "OR", &["1", "0"])), Ok(()));
}

#[test]
fn a_refused_replacement_keeps_the_old_circuit() {
    let mut runtime = Runtime::new(7);
    runtime.install_definition(or_gate()).unwrap();
    let bad = definition("OR", &["A", "B"], &["IN"], &[("0", "1")]);
    assert_eq!(
        runtime.replace_definition(bad),
        Err(RuntimeError::Compile(CompileError::PatternLengthMismatch))
    );
    assert_eq!(runtime.circuit("OR").unwrap().definition(), &or_gate());
}

#[test]
fn a_definition_that_does_not_compile_is_not_installed() {
    let mut runtime = Runtime::new(7);
    let ambiguous = definition("X", &["P"], &["Q"], &[("0", "0"), ("0", "1")]);
    assert_eq!(
        runtime.install_definition(ambiguous),
        Err(RuntimeError::Compile(CompileError::AmbiguousPattern))
    );
    assert!(runtime.circuit("X").is_none());
    assert_eq!(runtime.signal_state("P"), None);
    let names: Vec<String> = (0..499).map(|i| format!("I{}", i)).collect();
    let refs: Vec<&str> = names.iter().map(|s| s.as_str()).collect();
    assert_eq!(
        runtime.install_definition(definition("WIDE", &refs, &["Q"], &[])),
        Err(RuntimeError::Compile(CompileError::ResourceExhausted))
    );
    assert_eq!(runtime.signal_state("I0"), None);
}

#[test]
fn capabilities_are_acquired_once_and_reused() {
    let mut runtime = Runtime::new(100);
    assert_eq!(runtime.request_gpio("A"), Ok(101));
    assert_eq!(runtime.request_gpio("B"), Ok(102));
    assert_eq!(runtime.request_gpio("A"), Ok(101));
    runtime.install_definition(or_gate()).unwrap();
    assert_eq!(runtime.gpio_cap("A"), Some(101));
    assert_eq!(runtime.gpio_cap("B"), Some(102));
    runtime.install_definition(definition("XY", &["B", "C"], &["Q"], &[("00", "0")])).unwrap();
    assert_eq!(runtime.gpio_cap("C"), Some(103));
    assert_eq!(runtime.gpio_cap("D"), None);
    assert_eq!(runtime.signal_state("C"), Some(NCLState::Null));
}

#[test]
fn without_the_grant_right_nothing_is_acquired() {
    let rights = CapRights { read: true, write: true, grant: false };
    let mut runtime = Runtime::with_rights(7, rights);
    assert_eq!(runtime.request_gpio("A"), Err(Error::PermissionDenied));
    assert_eq!(
        runtime.install_definition(or_gate()),
        Err(RuntimeError::Hardware(Error::PermissionDenied))
    );
    assert!(runtime.circuit("OR").is_none());
    assert_eq!(runtime.gpio_cap("A"), None);
    // A circuit without inputs needs no capability.
    assert_eq!(runtime.install_definition(definition("K", &[], &["Q"], &[])), Ok(()));
}

#[test]
fn a_failed_acquisition_keeps_no_capability() {
    let mut runtime = Runtime::new(0);
    for i in 0..CAPABILITY_SLOTS - 1 {
        assert_eq!(runtime.request_gpio(&format!("s{}", i)), Ok(i + 1));
    }
    // One slot is left and the circuit needs two.
    assert_eq!(
        runtime.install_definition(or_gate()),
        Err(RuntimeError::Hardware(Error::ResourceExhausted))
    );
    assert_eq!(runtime.gpio_cap("A"), None);
    assert_eq!(runtime.gpio_cap("B"), None);
    assert!(runtime.circuit("OR").is_none());
    assert_eq!(runtime.request_gpio("last"), Ok(CAPABILITY_SLOTS));
    assert_eq!(runtime.request_gpio("more"), Err(Error::ResourceExhausted));
    assert_eq!(runtime.request_gpio("s3"), Ok(4));
}

#[test]
fn slots_end_where_capability_pointers_end() {
    let mut runtime = Runtime::new(usize::MAX - 1);
    assert_eq!(runtime.request_gpio("A"), Ok(usize::MAX));
    assert_eq!(runtime.request_gpio("B"), Err(Error::ResourceExhausted));
    let mut full = Runtime::new(usize::MAX);
    assert_eq!(full.request_gpio("A"), Err(Error::ResourceExhausted));
}

#[test]
fn the_timeout_is_configured() {
    let mut runtime = Runtime::new(7);
    assert_eq!(runtime.timeout(), DEFAULT_TIMEOUT);
    runtime.set_timeout(3);
    assert_eq!(runtime.timeout(), 3);
}

#[test]
fn an_input_named_twice_is_driven_twice() {
    let mut runtime = Runtime::new(7);
    let twice = definition("SQ", &["A", "A"], &["Q"], &[("00", "0"), ("11", "1")]);
    runtime.install_definition(twice).unwrap();
    // The later drive decides what both positions present.
    assert_eq!(runtime.execute(invocation("R", "SQ", &["0", "1"])), Ok(()));
    assert_eq!(runtime.binding("R"), Some(1));
    assert_eq!(runtime.signal_state("A"), Some(NCLState::Null));
}

#[test]
fn a_request_passes_through_null_between_data() {
    assert_eq!(NCLState::Null.path_to(NCLState::Data(1)), vec![NCLState::Data(1)]);
    assert_eq!(
        NCLState::Data(0).path_to(NCLState::Data(1)),
        vec![NCLState::Transitioning, NCLState::Null, NCLState::Data(1)]
    );
    assert_eq!(
        NCLState::Data(1).path_to(NCLState::Data(1)),
        vec![NCLState::Transitioning, NCLState::Null, NCLState::Data(1)]
    );
    assert_eq!(NCLState::Data(1).path_to(NCLState::Null), vec![NCLState::Null]);
    assert_eq!(NCLState::Null.path_to(NCLState::Null), vec![]);
    assert_eq!(NCLState::Transitioning.path_to(NCLState::Transitioning), vec![]);
    assert_eq!(NCLState::Null.path_to(NCLState::Transitioning), vec![]);
    assert_eq!(NCLState::Data(1).path_to(NCLState::Transitioning), vec![]);
    assert_eq!(NCLState::Transitioning.path_to(NCLState::Null), vec![]);
    assert_eq!(NCLState::Transitioning.path_to(NCLState::Data(0)), vec![]);
}

#[test]
fn set_state_ends_where_the_path_ends() {
    let mut mapping = HardwareMapping::new(5, NCLState::Null);
    assert_eq!(mapping.gpio_cap(), 5);
    assert_eq!(mapping.state(), NCLState::Null);
    assert_eq!(mapping.set_state(NCLState::Data(1)), Ok(()));
    assert_eq!(mapping.state(), NCLState::Data(1));
    assert_eq!(mapping.set_state(NCLState::Data(0)), Ok(()));
    assert_eq!(mapping.state(), NCLState::Data(0));
    assert_eq!(mapping.set_state(NCLState::Transitioning), Ok(()));
    assert_eq!(mapping.state(), NCLState::Data(0));
    assert_eq!(mapping.set_state(NCLState::Null), Ok(()));
    assert_eq!(mapping.state(), NCLState::Null);
    assert_eq!(mapping.set_state(NCLState::Null), Ok(()));
    assert_eq!(mapping.state(), NCLState::Null);
    let mut stuck = HardwareMapping::new(5, NCLState::Transitioning);
    assert_eq!(stuck.set_state(NCLState::Data(1)), Ok(()));
    assert_eq!(stuck.state(), NCLState::Transitioning);
}

#[test]
fn no_trace_holds_two_data_states_in_a_row() {
    let requests = [
        NCLState::Data(1),
        NCLState::Data(0),
        NCLState::Data(0),
        NCLState::Null,
        NCLState::Null,
        NCLState::Transitioning,
        NCLState::Data(7),
        NCLState::Transitioning,
        NCLState::Data(1),
        NCLState::Null,
        NCLState::Data(0),
    ];
    let mut mapping = HardwareMapping::new(5, NCLState::Null);
    let mut trace = vec![mapping.state()];
    for request in requests {
        trace.extend(mapping.state().path_to(request));
        mapping.set_state(request).unwrap();
        assert_eq!(*trace.last().unwrap(), mapping.state());
    }
    assert_eq!(data_pairs(&trace), 0);
    assert_eq!(trace.len(), 1 + 1 + 3 + 3 + 1 + 0 + 0 + 1 + 0 + 3 + 1 + 1);
}

#[test]
fn rails_are_never_both_asserted() {
    assert_eq!(NCLState::Null.rails(), (false, false));
    assert_eq!(NCLState::Data(0).rails(), (true, false));
    assert_eq!(NCLState::Data(1).rails(), (false, true));
    assert_eq!(NCLState::Data(9).rails(), (false, true));
    assert_eq!(NCLState::Transitioning.rails(), (false, false));
}

#[test]
fn rest_requests_are_all_null() {
    assert_eq!(rest_requests(0), vec![]);
    assert_eq!(rest_requests(3), vec![NCLState::Null; 3]);
}

#[test]
fn a_signal_that_was_driven_stands_for_its_state() {
    let mut runtime = Runtime::new(7);
    runtime.install_definition(or_gate()).unwrap();
    runtime.install_definition(definition("NOT", &["X"], &["Q"], &[("0", "1"), ("1", "0")])).unwrap();
    assert_eq!(
        runtime.execute(invocation("S", "NOT", &["A"])),
        Err(RuntimeError::UnboundSignal)
    );
    assert_eq!(runtime.execute(invocation("R", "OR", &["0", "1"])), Ok(()));
    // A was driven and is back at Null: the input takes no data from it.
    assert_eq!(runtime.execute(invocation("S", "NOT", &["A"])), Err(RuntimeError::Timeout));
    assert_eq!(runtime.binding("S"), None);
    assert_eq!(runtime.signal_state("X"), Some(NCLState::Null));
    // X itself was asked for Null only, which drives nothing.
    assert_eq!(
        runtime.execute(invocation("S", "NOT", &["X"])),
        Err(RuntimeError::UnboundSignal)
    );
    // A bound result comes before a signal of the same name.
    assert_eq!(runtime.execute(invocation("A", "OR", &["1", "1"])), Ok(()));
    assert_eq!(runtime.execute(invocation("S", "NOT", &["A"])), Ok(()));
    assert_eq!(runtime.binding("S"), Some(0));
}

#[test]
fn a_mapping_remembers_that_it_was_driven() {
    let mut mapping = HardwareMapping::new(5, NCLState::Null);
    assert!(!mapping.was_driven());
    mapping.set_state(NCLState::Null).unwrap();
    mapping.set_state(NCLState::Transitioning).unwrap();
    assert!(!mapping.was_driven());
    mapping.set_state(NCLState::Data(0)).unwrap();
    assert!(mapping.was_driven());
    mapping.set_state(NCLState::Null).unwrap();
    assert!(mapping.was_driven());
    assert!(!HardwareMapping::new(5, NCLState::Data(1)).was_driven());
}
