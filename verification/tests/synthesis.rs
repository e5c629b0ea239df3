use mkstorm::fpga::layout::{
    DETECTOR_CONFIG, LUT_BASE, MAX_LUTS, MAX_REGION_BYTES, ROUTE_BASE, ROUTE_FANOUT,
};
use mkstorm::fpga::{CompileError, CompletionDetector, FpgaCircuit, RouteDescriptor};
use mkstorm::parser::ast::{Definition, ResolutionTable};
use mkstorm::sel4::fpga_config::FpgaConfig;

fn definition(name: &str, inputs: &[&str], outputs: &[&str], rows: &[(&str, &str)]) -> Definition {
    Definition {
        name: name.to_string(),
        inputs: inputs.iter().map(|s| s.to_string()).collect(),
        outputs: outputs.iter().map(|s| s.to_string()).collect(),
        resolution: ResolutionTable {
            patterns: rows.iter().map(|(p, v)| (p.to_string(), v.to_string())).collect(),
        },
    }
}

fn or_gate() -> Definition {
    definition("OR", &["A", "B"], &["IN"], &[("00", "0"), ("01", "1"), ("10", "1"), ("11", "1")])
}

fn route_offset(d: &RouteDescriptor) -> usize {
    let slot = if d.destination >= LUT_BASE { (d.destination - LUT_BASE) as usize } else { 0 };
    ROUTE_BASE + 4 * (d.source as usize * ROUTE_FANOUT + slot)
}

#[test]
fn or_gate_gets_rails_tables_and_detector() {
    let mut config = FpgaConfig::new(1, 0x4000_0000);
    let circuit = FpgaCircuit::new(or_gate(), &mut config).unwrap();

    let inputs = circuit.inputs();
    assert_eq!(inputs.len(), 2);
    assert_eq!(inputs[0].name, "A");
    assert_eq!((inputs[0].data_rail, inputs[0].null_rail), (0, 1));
    assert_eq!(inputs[1].name, "B");
    assert_eq!((inputs[1].data_rail, inputs[1].null_rail), (2, 3));

    let luts = circuit.luts();
    assert_eq!(luts.len(), 4);
    for (k, (pattern, value)) in [("00", "0"), ("01", "1"), ("10", "1"), ("11", "1")].iter().enumerate() {
        assert_eq!(luts[k].input_pattern, *pattern);
        assert_eq!(luts[k].output_value, *value);
        assert_eq!(luts[k].config, LUT_BASE + k as u32);
    }

    assert_eq!(
        circuit.completion(),
        CompletionDetector { data_detect: 4, null_detect: 5, output_valid: 6 }
    );
    assert_eq!(circuit.definition(), &or_gate());
}

#[test]
fn or_gate_routing_table_is_in_order() {
    let mut config = FpgaConfig::new(1, 0);
    let circuit = FpgaCircuit::new(or_gate(), &mut config).unwrap();
    let routes = circuit.routes();
    // Two inputs to four tables each, then four tables to the detector.
    assert_eq!(routes.len(), 12);
    let patterns = ["00", "01", "10", "11"];
    for i in 0..2usize {
        for j in 0..4usize {
            let expected = RouteDescriptor {
                source: 2 * i as u32,
                destination: LUT_BASE + j as u32,
                bit_position: i as u32,
                value: patterns[j].as_bytes()[i] == b'1',
            };
            assert_eq!(routes[4 * i + j], expected);
        }
    }
    for j in 0..4usize {
        let expected = RouteDescriptor {
            source: LUT_BASE + j as u32,
            destination: 4,
            bit_position: j as u32,
            value: true,
        };
        assert_eq!(routes[8 + j], expected);
    }
}

#[test]
fn region_holds_registers_and_descriptors() {
    let mut config = FpgaConfig::new(1, 0);
    let circuit = FpgaCircuit::new(or_gate(), &mut config).unwrap();
    let region = circuit.region();
    assert_eq!(region.size(), ROUTE_BASE + 4 * ROUTE_FANOUT * (LUT_BASE as usize + 4));
    for r in 0..7usize {
        let expected = if r == 4 || r == 5 { DETECTOR_CONFIG } else { 0 };
        assert_eq!(region.read_word(4 * r), Ok(expected));
    }
    for d in circuit.routes() {
        assert_eq!(region.read_word(route_offset(d)), Ok(d.pack()));
    }
    // The first descriptor: input A (register 0) to table 1000, position 0, bit 0.
    assert_eq!(region.read_word(ROUTE_BASE), Ok((1000u32 << 9) | 0));
    // Input B (register 2) to table 1003, position 1, bit 1.
    assert_eq!(
        region.read_word(ROUTE_BASE + 4 * (2 * ROUTE_FANOUT + 3)),
        Ok((1u32 << 31) | (2 << 20) | (1003 << 9) | 1)
    );
}

#[test]
fn addresses_are_pairwise_distinct() {
    let mut config = FpgaConfig::new(1, 0);
    let circuit = FpgaCircuit::new(or_gate(), &mut config).unwrap();
    let mut all: Vec<u32> = Vec::new();
    for s in circuit.inputs() {
        all.push(s.data_rail);
        all.push(s.null_rail);
    }
    let c = circuit.completion();
    all.extend([c.data_detect, c.null_detect, c.output_valid]);
    for l in circuit.luts() {
        all.push(l.config);
    }
    assert_eq!(all.len(), 11);
    for a in 0..all.len() {
        for b in a + 1..all.len() {
            assert_ne!(all[a], all[b]);
        }
    }
}

#[test]
fn mismatched_pattern_length_is_refused() {
    let mut config = FpgaConfig::new(1, 0);
    let short = definition("BAD", &["A", "B"], &["Q"], &[("00", "0"), ("1", "1")]);
    assert_eq!(FpgaCircuit::new(short, &mut config).err(), Some(CompileError::PatternLengthMismatch));
    let long = definition("BAD", &["A"], &["Q"], &[("01", "0")]);
    assert_eq!(FpgaCircuit::new(long, &mut config).err(), Some(CompileError::PatternLengthMismatch));
    // Nothing was mapped for a definition that is refused up front.
    let next = FpgaCircuit::new(or_gate(), &mut config).unwrap();
    assert_eq!(next.region().base(), 0);
}

#[test]
fn contradicting_rows_are_refused() {
    let mut config = FpgaConfig::new(1, 0);
    let def = definition("AMB", &["A", "B"], &["Q"], &[("00", "0"), ("01", "1"), ("00", "1")]);
    assert_eq!(FpgaCircuit::new(def, &mut config).err(), Some(CompileError::AmbiguousPattern));
}

#[test]
fn length_is_checked_before_ambiguity() {
    let mut config = FpgaConfig::new(1, 0);
    let def = definition("BOTH", &["A", "B"], &["Q"], &[("0", "0"), ("0", "1")]);
    assert_eq!(FpgaCircuit::new(def, &mut config).err(), Some(CompileError::PatternLengthMismatch));
}

#[test]
fn repeated_rows_collapse_into_one_table() {
    let mut config = FpgaConfig::new(1, 0);
    let def = definition(
        "DUP",
        &["A", "B"],
        &["Q"],
        &[("00", "0"), ("01", "1"), ("00", "0"), ("11", "1"), ("01", "1")],
    );
    let circuit = FpgaCircuit::new(def, &mut config).unwrap();
    let luts = circuit.luts();
    assert_eq!(luts.len(), 3);
    assert_eq!(luts[0].input_pattern, "00");
    assert_eq!(luts[1].input_pattern, "01");
    assert_eq!(luts[2].input_pattern, "11");
    assert_eq!(luts[2].config, LUT_BASE + 2);
    // The region is sized to the rows of the table, five of them.
    assert_eq!(circuit.region().size(), ROUTE_BASE + 4 * ROUTE_FANOUT * (LUT_BASE as usize + 5));
}

#[test]
fn positions_that_name_no_bit_get_no_descriptor() {
    let mut config = FpgaConfig::new(1, 0);
    let def = definition("DC", &["A", "B"], &["Q"], &[("1-", "1"), ("01", "0")]);
    let circuit = FpgaCircuit::new(def, &mut config).unwrap();
    let routes = circuit.routes();
    // A->T0, A->T1, B->T1, then two completion routes.
    assert_eq!(routes.len(), 5);
    assert_eq!(
        routes[0],
        RouteDescriptor { source: 0, destination: LUT_BASE, bit_position: 0, value: true }
    );
    assert_eq!(
        routes[1],
        RouteDescriptor { source: 0, destination: LUT_BASE + 1, bit_position: 0, value: false }
    );
    assert_eq!(
        routes[2],
        RouteDescriptor { source: 2, destination: LUT_BASE + 1, bit_position: 1, value: true }
    );
}

#[test]
fn too_many_inputs_exhaust_the_registers() {
    let mut config = FpgaConfig::new(1, 0);
    let names: Vec<String> = (0..499).map(|i| format!("I{}", i)).collect();
    let refs: Vec<&str> = names.iter().map(|s| s.as_str()).collect();
    let def = definition("WIDE", &refs, &["Q"], &[]);
    assert_eq!(FpgaCircuit::new(def, &mut config).err(), Some(CompileError::ResourceExhausted));
    // 498 inputs need 999 registers and fit.
    let def = definition("FITS", &refs[..498], &["Q"], &[]);
    let circuit = FpgaCircuit::new(def, &mut config).unwrap();
    assert_eq!(circuit.completion().output_valid, 998);
}

#[test]
fn too_many_rows_exhaust_the_tables() {
    let mut config = FpgaConfig::new(1, 0);
    let patterns: Vec<String> = (0..129u32).map(|i| format!("{:08b}", i)).collect();
    let rows: Vec<(&str, &str)> = patterns.iter().map(|p| (p.as_str(), "1")).collect();
    let inputs = ["A", "B", "C", "D", "E", "F", "G", "H"];
    let def = definition("BIG", &inputs, &["Q"], &rows);
    assert_eq!(FpgaCircuit::new(def, &mut config).err(), Some(CompileError::ResourceExhausted));
    let def = definition("MAX", &inputs, &["Q"], &rows[..MAX_LUTS as usize]);
    let circuit = FpgaCircuit::new(def, &mut config).unwrap();
    assert_eq!(circuit.luts().len(), 128);
    assert_eq!(circuit.routes().len(), 8 * 128 + 128);
}

#[test]
fn exhausted_address_space_is_reported() {
    let mut config = FpgaConfig::new(1, usize::MAX - 1000);
    assert_eq!(FpgaCircuit::new(or_gate(), &mut config).err(), Some(CompileError::ResourceExhausted));
}

#[test]
fn two_circuits_share_no_address() {
    let mut config = FpgaConfig::new(1, 0x1000);
    let first = FpgaCircuit::new(or_gate(), &mut config).unwrap();
    let second = FpgaCircuit::new(or_gate(), &mut config).unwrap();
    assert_eq!(first.region().base(), 0x1000);
    assert_eq!(second.region().base(), 0x1000 + first.region().size());
    assert!(first.region().base() + first.region().size() <= second.region().base());
    // Allocation starts afresh in each circuit.
    assert_eq!(second.inputs()[0].data_rail, 0);
    assert_eq!(second.luts()[0].config, LUT_BASE);
}

#[test]
fn find_lut_finds_the_row() {
    let mut config = FpgaConfig::new(1, 0);
    let circuit = FpgaCircuit::new(or_gate(), &mut config).unwrap();
    assert_eq!(circuit.find_lut(&"10".to_string()), Some(2));
    assert_eq!(circuit.find_lut(&"1".to_string()), None);
    assert_eq!(circuit.find_lut(&"111".to_string()), None);
}

#[test]
fn an_empty_definition_compiles() {
    let mut config = FpgaConfig::new(1, 0);
    let circuit = FpgaCircuit::new(definition("NONE", &[], &[], &[]), &mut config).unwrap();
    assert!(circuit.inputs().is_empty());
    assert!(circuit.luts().is_empty());
    assert!(circuit.routes().is_empty());
    assert_eq!(
        circuit.completion(),
        CompletionDetector { data_detect: 0, null_detect: 1, output_valid: 2 }
    );
    assert_eq!(circuit.region().read_word(0), Ok(DETECTOR_CONFIG));
    assert_eq!(circuit.region().read_word(4), Ok(DETECTOR_CONFIG));
    assert_eq!(circuit.region().read_word(8), Ok(0));
}

#[test]
fn a_region_is_never_larger_than_the_maximum() {
    let mut config = FpgaConfig::new(1, 0);
    // Three hundred rows, two of them distinct.
    let rows: Vec<(&str, &str)> =
        (0..300).map(|i| if i % 2 == 0 { ("0", "1") } else { ("1", "0") }).collect();
    let circuit = FpgaCircuit::new(definition("NOT", &["A"], &["Q"], &rows), &mut config).unwrap();
    assert_eq!(circuit.luts().len(), 2);
    assert_eq!(circuit.region().size(), MAX_REGION_BYTES);
    assert_eq!(MAX_REGION_BYTES, ROUTE_BASE + 4 * ROUTE_FANOUT * (LUT_BASE + MAX_LUTS) as usize);
}

#[test]
fn every_pattern_of_a_circuit_has_one_position_for_each_input() {
    let mut config = FpgaConfig::new(1, 0);
    let circuit = FpgaCircuit::new(or_gate(), &mut config).unwrap();
    let inputs = circuit.inputs().len();
    for row in &circuit.definition().resolution.patterns {
        assert_eq!(row.0.chars().count(), inputs);
    }
    for lut in circuit.luts() {
        assert_eq!(lut.input_pattern.chars().count(), inputs);
    }
}

#[test]
fn bytes_that_hold_nothing_are_zero() {
    let mut config = FpgaConfig::new(1, 0);
    let circuit = FpgaCircuit::new(or_gate(), &mut config).unwrap();
    let region = circuit.region();
    let mut written: Vec<usize> = vec![16, 20];
    written.extend(circuit.routes().iter().map(route_offset));
    let mut offset = 0;
    let mut nonzero = 0;
    while offset + 4 <= region.size() {
        let word = region.read_word(offset).unwrap();
        if written.contains(&offset) {
            assert_ne!(word, 0);
            nonzero += 1;
        } else {
            assert_eq!(word, 0, "at offset {}", offset);
        }
        offset += 4;
    }
    assert_eq!(nonzero, 14);
}

#[test]
fn patterns_are_measured_in_characters() {
    let mut config = FpgaConfig::new(1, 0);
    // Two characters that are not bits: two positions, no descriptor.
    let def = definition("U", &["A", "B"], &["Q"], &[("\u{e9}\u{e9}", "1")]);
    let circuit = FpgaCircuit::new(def, &mut config).unwrap();
    assert_eq!(circuit.luts().len(), 1);
    assert_eq!(circuit.routes().len(), 1);
}
