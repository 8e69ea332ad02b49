use voleith::keccak::{
    chain_circuit, do_keccak, evaluate, parse_circuit, Circuit, KeccakArgs, ParseError, WireBody,
    NUM_INPUTS,
};

#[test]
fn add_wire_records_readers() {
    let mut c = Circuit::new();
    assert_eq!(c.add_wire(WireBody::Input(0)), 0);
    assert_eq!(c.add_wire(WireBody::Input(1)), 1);
    assert_eq!(c.add_wire(WireBody::Xor(0, 1)), 2);
    assert_eq!(c.add_wire(WireBody::And(2, 2)), 3);
    assert_eq!(c.add_wire(WireBody::Inv(3)), 4);
    assert_eq!(c.wires.len(), 5);
    assert_eq!(c.reverse_deps[0], vec![2]);
    assert_eq!(c.reverse_deps[1], vec![2]);
    assert_eq!(c.reverse_deps[2], vec![3]);
    assert_eq!(c.reverse_deps[3], vec![4]);
    assert!(c.reverse_deps[4].is_empty());
    assert!(c.outputs.is_empty());
}

fn reference_keccak(state: &mut [bool; NUM_INPUTS]) {
    state.reverse();
    for i in 0..NUM_INPUTS {
        if i % 7 == 0 {
            state[i] = !state[i];
        }
        if i % 11 == 0 && i > 0 {
            state[i] ^= state[i - 1];
        }
    }
}

#[test]
fn do_keccak_on_zero_state() {
    let mut s = [false; NUM_INPUTS];
    do_keccak(&mut s);
    assert!(s[0]);
    assert!(!s[1]);
    assert!(s[7]);
    // bit 11 is not a multiple of 7 and takes bit 10, which is clear
    assert!(!s[11]);
    // bit 22 takes bit 21, which is set
    assert!(s[22]);
    // bit 77 is flipped and then takes bit 76
    assert!(s[77]);
}

#[test]
fn do_keccak_matches_description() {
    let mut s = [false; NUM_INPUTS];
    for i in 0..NUM_INPUTS {
        s[i] = (i * 37 + i / 3) % 5 < 2;
    }
    let mut expected = s;
    reference_keccak(&mut expected);
    do_keccak(&mut s);
    assert_eq!(s.to_vec(), expected.to_vec());
}

fn inverter_circuit_text() -> String {
    let mut text = format!("{} {}\n{} {}\n", NUM_INPUTS, 2 * NUM_INPUTS, NUM_INPUTS, NUM_INPUTS);
    for i in 0..NUM_INPUTS {
        text.push_str(&format!("1 1 {} {} INV\n", i, NUM_INPUTS + i));
    }
    text
}

#[test]
fn parse_inverter_circuit() {
    let c = parse_circuit(&inverter_circuit_text()).unwrap();
    assert_eq!(c.wires.len(), 2 * NUM_INPUTS);
    assert_eq!(c.wires[5], WireBody::Input(5));
    assert_eq!(c.wires[NUM_INPUTS + 5], WireBody::Inv(5));
    assert_eq!(c.outputs.len(), NUM_INPUTS);
    assert_eq!(c.outputs[0], NUM_INPUTS);
    assert_eq!(c.reverse_deps[5], vec![NUM_INPUTS + 5]);
}

#[test]
fn parse_xor_and_gates() {
    let mut text = format!("2 {}\n{} {}\n", NUM_INPUTS + 2, NUM_INPUTS, NUM_INPUTS);
    text.push_str("2 1 0 1 1600 XOR\n");
    text.push_str("2 1 1600 2 1601 AND\n");
    let c = parse_circuit(&text).unwrap();
    assert_eq!(c.wires[1600], WireBody::Xor(0, 1));
    assert_eq!(c.wires[1601], WireBody::And(1600, 2));
    assert_eq!(c.outputs[NUM_INPUTS - 1], 1601);
    assert_eq!(c.outputs[0], 2);
}

#[test]
fn parse_errors() {
    assert_eq!(parse_circuit("").unwrap_err(), ParseError::BadHeader);
    assert_eq!(parse_circuit("5 3200\n").unwrap_err(), ParseError::MissingIoLine);
    assert_eq!(parse_circuit("5 x\n1 1\n").unwrap_err(), ParseError::BadNumber);
    assert_eq!(parse_circuit("5 10\n1 1\n").unwrap_err(), ParseError::BadHeader);
    let head = format!("1 {}\n1 1\n", NUM_INPUTS + 1);
    assert_eq!(parse_circuit(&format!("{}2 1 0 1 1600 OR\n", head)).unwrap_err(), ParseError::UnknownGate);
    assert_eq!(parse_circuit(&format!("{}2 1 0 1600 XOR\n", head)).unwrap_err(), ParseError::BadGate);
    assert_eq!(parse_circuit(&format!("{}1 1 1700 1600 INV\n", head)).unwrap_err(), ParseError::UndefinedWire);
    assert_eq!(parse_circuit(&format!("{}1 1 0 5 INV\n", head)).unwrap_err(), ParseError::WireRedefined);
    assert_eq!(parse_circuit(&head).unwrap_err(), ParseError::WireCountMismatch);
    let overflow = format!("1 99999999999999999999999\n1 1\n");
    assert_eq!(parse_circuit(&overflow).unwrap_err(), ParseError::BadNumber);
}

#[test]
fn keccak_args_defaults() {
    let a = KeccakArgs::default();
    assert_eq!(a.vole_concurrency, 1);
    assert_eq!(a.num_keccak_groups, 2);
    assert_eq!(a.keccak_per_group, 2);
}

fn pattern() -> [bool; NUM_INPUTS] {
    let mut s = [false; NUM_INPUTS];
    for i in 0..NUM_INPUTS {
        s[i] = (i * 13 + 7) % 9 < 4;
    }
    s
}

#[test]
fn evaluate_inverter_circuit() {
    let c = parse_circuit(&inverter_circuit_text()).unwrap();
    let input = pattern();
    let out = evaluate(&c, &input);
    assert_eq!(out.len(), NUM_INPUTS);
    for i in 0..NUM_INPUTS {
        assert_eq!(out[i], !input[i]);
    }
}

#[test]
fn evaluate_gates() {
    let mut text = format!("3 {}\n{} {}\n", NUM_INPUTS + 3, NUM_INPUTS, NUM_INPUTS);
    text.push_str("2 1 0 1 1600 XOR\n");
    text.push_str("2 1 1600 2 1601 AND\n");
    text.push_str("1 1 1601 1602 INV\n");
    let c = parse_circuit(&text).unwrap();
    let mut input = [false; NUM_INPUTS];
    input[0] = true;
    input[2] = true;
    let out = evaluate(&c, &input);
    // outputs are Bristol wires 3..1603
    assert_eq!(out[NUM_INPUTS - 3], true); // 0 ^ 1
    assert_eq!(out[NUM_INPUTS - 2], true); // (0 ^ 1) & 2
    assert_eq!(out[NUM_INPUTS - 1], false); // !((0 ^ 1) & 2)
    assert_eq!(out[0], false); // input 3
}

#[test]
fn chained_inverters_cancel() {
    let single = parse_circuit(&inverter_circuit_text()).unwrap();
    let once = chain_circuit(&single, 1);
    assert_eq!(once.wires, single.wires);
    let twice = chain_circuit(&single, 2);
    assert_eq!(twice.wires.len(), 3 * NUM_INPUTS);
    let input = pattern();
    assert_eq!(evaluate(&twice, &input), input.to_vec());
    let thrice = chain_circuit(&single, 3);
    let out = evaluate(&thrice, &input);
    for i in 0..NUM_INPUTS {
        assert_eq!(out[i], !input[i]);
    }
}
