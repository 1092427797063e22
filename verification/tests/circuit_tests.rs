use fhe_circuit::circuit::{Circuit, Gate, GateType};
use fhe_circuit::errors::EvalError;

fn parse(src: &str) -> Circuit {
    Circuit::from_source(src.as_bytes()).expect("circuit should parse")
}

#[test]
fn and_gate_scenario() {
    let c = parse("input A\ninput B\nand 1 2\nemit 3\n");
    assert_eq!(c.n_wires, 3);
    assert_eq!(c.a_input_wires, vec![0]);
    assert_eq!(c.b_input_wires, vec![1]);
    assert_eq!(c.outputs, vec![2]);
    assert_eq!(c.eval(&vec![true], &vec![true]), vec![true]);
    assert_eq!(c.eval(&vec![true], &vec![false]), vec![false]);
    assert_eq!(c.eval(&vec![false], &vec![true]), vec![false]);
    assert_eq!(c.eval(&vec![false], &vec![false]), vec![false]);
}

#[test]
fn not_gate_scenario() {
    let c = parse("input A\nnot 1\nemit 2\n");
    assert_eq!(c.eval(&vec![false], &vec![]), vec![true]);
    assert_eq!(c.eval(&vec![true], &vec![]), vec![false]);
}

#[test]
fn xor_gate_scenario() {
    let c = parse("input A\ninput B\nxor 1 2\nemit 3\n");
    assert_eq!(c.eval(&vec![true], &vec![true]), vec![false]);
    assert_eq!(c.eval(&vec![true], &vec![false]), vec![true]);
    assert_eq!(c.eval(&vec![false], &vec![true]), vec![true]);
    assert_eq!(c.eval(&vec![false], &vec![false]), vec![false]);
}

#[test]
fn three_gate_chain_matches_reference() {
    // wire 3 = a xor b, wire 4 = not wire 3, wire 5 = a and wire 4
    let c = parse("input A\ninput B\nxor 1 2\nnot 3\nand 1 4\nemit 5\n");
    for &a in &[false, true] {
        for &b in &[false, true] {
            let expected = a && !(a ^ b);
            assert_eq!(c.eval(&vec![a], &vec![b]), vec![expected]);
        }
    }
}

#[test]
fn multiple_outputs_in_order() {
    let c = parse("input A\ninput B\nand 1 2\nxor 1 2\nemit 4\nemit 3\nemit 1\n");
    assert_eq!(c.eval(&vec![true], &vec![false]), vec![true, false, true]);
}

#[test]
fn eval_is_idempotent() {
    let c = parse("input A\ninput B\nxor 1 2\nnot 3\nand 1 4\nemit 5\nemit 3\n");
    let first = c.eval(&vec![true], &vec![false]);
    for _ in 0..10 {
        assert_eq!(c.eval(&vec![true], &vec![false]), first);
    }
}

#[test]
fn wide_fanout_deterministic() {
    // One A wire feeding hundreds of dependent gates, all emitted.
    let mut src = String::from("input A\ninput B\n");
    for i in 0..300 {
        if i % 2 == 0 {
            src.push_str("xor 1 2\n");
        } else {
            src.push_str("and 1 2\n");
        }
    }
    for i in 0..300 {
        src.push_str(&format!("emit {}\n", i + 3));
    }
    let c = parse(&src);
    let first = c.eval(&vec![true], &vec![true]);
    assert_eq!(first.len(), 300);
    for i in 0..300 {
        // even gates are xor(true, true) == false, odd are and(true, true) == true
        assert_eq!(first[i], i % 2 == 1);
    }
    for _ in 0..5 {
        assert_eq!(c.eval(&vec![true], &vec![true]), first);
    }
}

#[test]
fn blank_lines_ignored() {
    let c = parse("\ninput A\n\n\nnot 1\n\nemit 2\n");
    assert_eq!(c.eval(&vec![true], &vec![]), vec![false]);
}

#[test]
fn input_without_tag_joins_group_b() {
    let c = parse("input\ninput A\nand 1 2\nemit 3\n");
    assert_eq!(c.a_input_wires, vec![1]);
    assert_eq!(c.b_input_wires, vec![0]);
}

#[test]
fn emit_allocates_no_wire() {
    let c = parse("input A\nemit 1\nnot 1\nemit 2\n");
    assert_eq!(c.n_wires, 2);
    assert_eq!(c.eval(&vec![true], &vec![]), vec![true, false]);
}

#[test]
fn missing_operand_is_parse_error() {
    let e = Circuit::from_source(b"input A\nxor 1\n").unwrap_err();
    assert_eq!(e.line, 2);
}

#[test]
fn unknown_instruction_is_parse_error() {
    let e = Circuit::from_source(b"input A\nnand 1 1\nemit 1\n").unwrap_err();
    assert_eq!(e.line, 2);
}

#[test]
fn non_numeric_operand_is_parse_error() {
    let e = Circuit::from_source(b"input A\nnot one\n").unwrap_err();
    assert_eq!(e.line, 2);
}

#[test]
fn forward_reference_is_parse_error() {
    // `not 2` names a wire that has not been declared yet.
    let e = Circuit::from_source(b"input A\nnot 2\n").unwrap_err();
    assert_eq!(e.line, 2);
}

#[test]
fn wire_zero_is_parse_error() {
    let e = Circuit::from_source(b"input A\nnot 0\n").unwrap_err();
    assert_eq!(e.line, 2);
}

#[test]
fn huge_operand_is_parse_error() {
    let e = Circuit::from_source(b"input A\nnot 99999999999999999999999999999999\n").unwrap_err();
    assert_eq!(e.line, 2);
}

#[test]
fn empty_source_parses_to_empty_circuit() {
    let c = Circuit::from_source(b"").expect("empty source should parse");
    assert_eq!(c.n_wires, 0);
    assert_eq!(c.eval(&vec![], &vec![]), Vec::<bool>::new());
}

#[test]
fn parsed_circuit_validates() {
    let c = parse("input A\ninput B\nxor 1 2\nnot 3\nand 1 4\nemit 5\n");
    assert!(c.validate());
}

#[test]
fn self_loop_rejected_at_validation() {
    // A hand-built gate whose output equals its own input.
    let c = Circuit {
        n_wires: 2,
        gates: vec![Gate { gate_type: GateType::Not, input_wires: vec![1], output_wire: 1 }],
        outputs: vec![1],
        a_input_wires: vec![0],
        b_input_wires: vec![],
    };
    assert!(!c.validate());
    assert_eq!(c.eval_checked(&vec![true], &vec![]), Err(EvalError::InvariantViolation));
}

#[test]
fn cycle_rejected_at_validation() {
    // Two hand-built gates feeding each other: wire 1 = not wire 2,
    // wire 2 = not wire 1.
    let c = Circuit {
        n_wires: 3,
        gates: vec![
            Gate { gate_type: GateType::Not, input_wires: vec![2], output_wire: 1 },
            Gate { gate_type: GateType::Not, input_wires: vec![1], output_wire: 2 },
        ],
        outputs: vec![2],
        a_input_wires: vec![0],
        b_input_wires: vec![],
    };
    assert!(!c.validate());
    assert_eq!(c.eval_checked(&vec![false], &vec![]), Err(EvalError::InvariantViolation));
}

#[test]
fn double_writer_rejected_at_validation() {
    // Two hand-built gates writing the same wire.
    let c = Circuit {
        n_wires: 3,
        gates: vec![
            Gate { gate_type: GateType::Not, input_wires: vec![0], output_wire: 2 },
            Gate { gate_type: GateType::Not, input_wires: vec![1], output_wire: 2 },
        ],
        outputs: vec![2],
        a_input_wires: vec![0],
        b_input_wires: vec![1],
    };
    assert!(!c.validate());
}

#[test]
fn unproduced_read_rejected_at_validation() {
    // A hand-built gate reading a wire that nothing produces or seeds.
    let c = Circuit {
        n_wires: 3,
        gates: vec![Gate { gate_type: GateType::Not, input_wires: vec![1], output_wire: 2 }],
        outputs: vec![2],
        a_input_wires: vec![0],
        b_input_wires: vec![],
    };
    assert!(!c.validate());
}

#[test]
fn shape_mismatch_rejected() {
    let c = parse("input A\ninput B\nand 1 2\nemit 3\n");
    assert_eq!(c.eval_checked(&vec![true, true], &vec![true]), Err(EvalError::ShapeMismatch));
    assert_eq!(c.eval_checked(&vec![true], &vec![]), Err(EvalError::ShapeMismatch));
    assert_eq!(c.eval_checked(&vec![true], &vec![true]), Ok(vec![true]));
}

#[test]
fn zero_workers_rejected() {
    let c = parse("input A\nnot 1\nemit 2\n");
    match c.eval_on_fhe_bools(&vec![], &vec![], 0) {
        Err(EvalError::ConfigError) => {},
        _ => panic!("a zero worker count must be rejected"),
    }
}

#[test]
fn secure_eval_rejects_bad_shapes_before_any_gate() {
    let c = parse("input A\nnot 1\nemit 2\n");
    match c.eval_on_fhe_bools(&vec![], &vec![], 2) {
        Err(EvalError::ShapeMismatch) => {},
        _ => panic!("mismatched input lengths must be rejected"),
    }
}

#[test]
fn secure_eval_rejects_malformed_circuit() {
    let c = Circuit {
        n_wires: 2,
        gates: vec![Gate { gate_type: GateType::Not, input_wires: vec![1], output_wire: 1 }],
        outputs: vec![1],
        a_input_wires: vec![0],
        b_input_wires: vec![],
    };
    match c.eval_on_fhe_bools(&vec![], &vec![], 2) {
        Err(EvalError::InvariantViolation) => {},
        _ => panic!("a malformed circuit must be rejected"),
    }
}

#[test]
fn secure_eval_of_gateless_circuit_reports_no_outputs() {
    let c = parse("input A\ninput B\n");
    let out = c.eval_on_fhe_bools(&vec![], &vec![], 1);
    match out {
        Err(EvalError::ShapeMismatch) => {},
        _ => panic!("two declared inputs but none supplied must be a shape mismatch"),
    }
    let c2 = Circuit::from_source(b"").unwrap();
    assert!(matches!(c2.eval_on_fhe_bools(&vec![], &vec![], 4), Ok(v) if v.is_empty()));
}
