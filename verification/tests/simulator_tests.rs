use n2v::busmap::BusMap;
use n2v::chip::{Chip, ChipKind, Library};
use n2v::error::ErrorKind;
use n2v::parser::parse_source;
use n2v::simulator::Simulator;

const NOT: &str = "CHIP Not { IN in; OUT out; PARTS: Nand(a=in, b=in, out=out); }";
const AND: &str =
    "CHIP And { IN a, b; OUT out; PARTS: Nand(a=a, b=b, out=n); Not(in=n, out=out); }";
const OR: &str = "CHIP Or { IN a, b; OUT out; PARTS: Not(in=a, out=na); Not(in=b, out=nb); Nand(a=na, b=nb, out=out); }";
const XOR: &str = "CHIP Xor { IN a, b; OUT out; PARTS: Nand(a=a, b=b, out=n); Nand(a=a, b=n, out=x); Nand(a=n, b=b, out=y); Nand(a=x, b=y, out=out); }";
const MUX: &str = "CHIP Mux { IN a, b, sel; OUT out; PARTS:
    Not(in=sel, out=notSel);
    And(a=a, b=notSel, out=aOut);
    And(a=b, b=sel, out=bOut);
    Or(a=aOut, b=bOut, out=out); }";
const NOT16: &str = "CHIP Not16 { IN in[16]; OUT out[16]; PARTS:
    FOR i IN 0 TO 15 GENERATE { Not(in=in[i], out=out[i]); } }";
const HALF: &str = "CHIP HalfAdder { IN a, b; OUT sum, carry; PARTS: Xor(a=a, b=b, out=sum); And(a=a, b=b, out=carry); }";
const FULL: &str = "CHIP FullAdder { IN a, b, c; OUT sum, carry; PARTS:
    HalfAdder(a=a, b=b, sum=s1, carry=c1);
    HalfAdder(a=s1, b=c, sum=sum, carry=c2);
    Or(a=c1, b=c2, out=carry); }";
const ADD: &str = "CHIP Add<W> { IN a[W], b[W]; OUT out[W]; PARTS:
    HalfAdder(a=a[0], b=b[0], sum=out[0], carry=c[0]);
    FOR i IN 1 TO W-1 GENERATE {
        FullAdder(a=a[i], b=b[i], c=c[i-1], sum=out[i], carry=c[i]);
    } }";
const BIT: &str = "CHIP Bit { IN in, load; OUT out; PARTS:
    Mux(a=q, b=in, sel=load, out=d);
    DFF(in=d, out=q);
    And(a=q, b=q, out=out); }";

fn library(sources: &[&str]) -> Library {
    let mut lib = Library::new();
    for s in sources {
        lib.add(parse_source(s, "test.hdl").expect("parse error"));
    }
    lib
}

fn full_library() -> Library {
    library(&[NOT, AND, OR, XOR, MUX, NOT16, HALF, FULL, ADD, BIT])
}

fn bits(value: u64, width: usize) -> Vec<Option<bool>> {
    (0..width).map(|i| Some((value >> i) & 1 == 1)).collect()
}

fn number(bits: &[Option<bool>]) -> u64 {
    let mut n = 0;
    for (i, b) in bits.iter().enumerate() {
        if b.expect("undriven bit") {
            n |= 1 << i;
        }
    }
    n
}

fn inputs(values: &[(&str, u64, usize)]) -> BusMap {
    let mut m = BusMap::new();
    for (name, value, width) in values {
        m.put(name, bits(*value, *width));
    }
    m
}

fn simulator(name: &str, generics: &[usize]) -> Simulator {
    let lib = full_library();
    let chip = Chip::new(&lib, name, &generics.to_vec()).expect("elaboration error");
    Simulator::new(chip).expect("netlist error")
}

fn output(sim: &mut Simulator, ins: &[(&str, u64, usize)], port: &str) -> u64 {
    let out = sim.simulate(&inputs(ins)).expect("simulation error");
    number(out.get(port).expect("no such bus"))
}

#[test]
fn nand_truth_table() {
    let mut sim = simulator("NAND", &[]);
    let expected = [((0, 0), 1), ((0, 1), 1), ((1, 0), 1), ((1, 1), 0)];
    for ((a, b), out) in expected {
        assert_eq!(output(&mut sim, &[("a", a, 1), ("b", b, 1)], "out"), out);
    }
}

#[test]
fn nand_name_is_case_insensitive() {
    let mut sim = simulator("nAnD", &[]);
    assert_eq!(output(&mut sim, &[("a", 1, 1), ("b", 1, 1)], "out"), 0);
}

#[test]
fn not16_inverts_every_bit() {
    let mut sim = simulator("Not16", &[]);
    assert_eq!(
        output(&mut sim, &[("in", 0b0000_1111_0000_1111, 16)], "out"),
        0b1111_0000_1111_0000
    );
}

#[test]
fn mux_selects() {
    let mut sim = simulator("Mux", &[]);
    assert_eq!(output(&mut sim, &[("a", 1, 1), ("b", 0, 1), ("sel", 0, 1)], "out"), 1);
    assert_eq!(output(&mut sim, &[("a", 1, 1), ("b", 0, 1), ("sel", 1, 1)], "out"), 0);
}

#[test]
fn dff_through_tick_and_tock() {
    let mut sim = simulator("DFF", &[]);
    // set in=1, tick, tock -> out=1
    let _ = sim.simulate(&inputs(&[("in", 1, 1)])).unwrap();
    sim.tick();
    assert_eq!(output(&mut sim, &[("in", 1, 1)], "out"), 1);
    // set in=0, tock without a tick: the stored bit is still the 1 that was latched
    assert_eq!(output(&mut sim, &[("in", 0, 1)], "out"), 1);
    // tick, tock -> out=0
    sim.tick();
    assert_eq!(output(&mut sim, &[("in", 0, 1)], "out"), 0);
}

#[test]
fn dff_starts_at_zero() {
    let mut sim = simulator("DFF", &[]);
    assert_eq!(output(&mut sim, &[("in", 1, 1)], "out"), 0);
}

#[test]
fn generic_adder_unrolled_to_four_bits() {
    let mut sim = simulator("Add", &[4]);
    assert_eq!(output(&mut sim, &[("a", 0b0011, 4), ("b", 0b0101, 4)], "out"), 0b1000);
    assert_eq!(output(&mut sim, &[("a", 0b1111, 4), ("b", 0b0001, 4)], "out"), 0b0000);
}

#[test]
fn generic_adder_of_sixteen_bits() {
    let mut sim = simulator("Add", &[16]);
    assert_eq!(output(&mut sim, &[("a", 12345, 16), ("b", 4321, 16)], "out"), 16666);
}

#[test]
fn bit_register_keeps_its_value() {
    let mut sim = simulator("Bit", &[]);
    assert_eq!(output(&mut sim, &[("in", 1, 1), ("load", 1, 1)], "out"), 0);
    sim.tick();
    assert_eq!(output(&mut sim, &[("in", 0, 1), ("load", 0, 1)], "out"), 1);
    sim.tick();
    assert_eq!(output(&mut sim, &[("in", 0, 1), ("load", 0, 1)], "out"), 1);
    sim.tick();
    assert_eq!(output(&mut sim, &[("in", 0, 1), ("load", 1, 1)], "out"), 1);
    sim.tick();
    assert_eq!(output(&mut sim, &[("in", 0, 1), ("load", 1, 1)], "out"), 0);
}

#[test]
fn every_leaf_is_nand_or_dff() {
    let lib = full_library();
    let chip = Chip::new(&lib, "Bit", &vec![]).unwrap();
    let instances = chip.instances();
    assert!(instances.len() > 1);
    for inst in instances {
        if inst.children.is_empty() {
            assert!(inst.kind == ChipKind::Nand || inst.kind == ChipKind::Dff);
        } else {
            assert_eq!(inst.kind, ChipKind::Composite);
        }
        for p in &inst.ports {
            assert!(p.width >= 1);
        }
        for w in &inst.wirings {
            assert_eq!(w.port.width, w.wire.width);
        }
    }
    assert_eq!(instances.last().unwrap().name, "Bit");
}

fn elaboration_error(source: &str, name: &str, generics: &[usize]) -> n2v::error::N2VError {
    let mut lib = full_library();
    lib.add(parse_source(source, "test.hdl").expect("parse error"));
    match Chip::new(&lib, name, &generics.to_vec()) {
        Ok(_) => panic!("elaboration succeeded"),
        Err(e) => e,
    }
}

#[test]
fn width_mismatch_names_the_mapping() {
    let e = elaboration_error(
        "CHIP Bad { IN in[16]; OUT out[16]; PARTS: Not16(in=in, out[0..3]=w[0..4]); }",
        "Bad",
        &[],
    );
    assert!(matches!(e.kind, ErrorKind::WidthMismatch));
    assert_eq!(e.msg, "out=w");
}

#[test]
fn unknown_chip_is_reported() {
    let e = elaboration_error("CHIP Bad { IN a; OUT out; PARTS: Nope(a=a, out=out); }", "Bad", &[]);
    assert!(matches!(e.kind, ErrorKind::UnknownChip));
    assert_eq!(e.msg, "Nope");
}

#[test]
fn unknown_port_is_reported() {
    let e = elaboration_error("CHIP Bad { IN a; OUT out; PARTS: Not(x=a, out=out); }", "Bad", &[]);
    assert!(matches!(e.kind, ErrorKind::UnknownPort));
}

#[test]
fn recursion_is_reported() {
    let e = elaboration_error("CHIP Bad { IN a; OUT out; PARTS: Bad(a=a, out=out); }", "Bad", &[]);
    assert!(matches!(e.kind, ErrorKind::Recursion));
}

#[test]
fn multiple_drivers_are_reported() {
    let e = elaboration_error(
        "CHIP Bad { IN a; OUT out; PARTS: Not(in=a, out=out); Not(in=a, out=out); }",
        "Bad",
        &[],
    );
    assert!(matches!(e.kind, ErrorKind::MultipleDrivers));
}

#[test]
fn driving_an_input_is_reported() {
    let e = elaboration_error("CHIP Bad { IN a; OUT out; PARTS: Not(in=out, out=a); }", "Bad", &[]);
    assert!(matches!(e.kind, ErrorKind::MultipleDrivers));
}

#[test]
fn unbound_generic_is_reported() {
    let e = elaboration_error("CHIP Bad<W> { IN a[W]; OUT out; PARTS: }", "Bad", &[]);
    assert!(matches!(e.kind, ErrorKind::UnboundGeneric));
    assert_eq!(e.msg, "W");
}

#[test]
fn generic_arity_is_checked() {
    let e = elaboration_error(
        "CHIP Bad { IN a[4], b[4]; OUT out[4]; PARTS: Add<4, 5>(a=a, b=b, out=out); }",
        "Bad",
        &[],
    );
    assert!(matches!(e.kind, ErrorKind::GenericArityError));
}

#[test]
fn zero_width_port_is_invalid() {
    let e = elaboration_error("CHIP Bad<W> { IN a[W]; OUT out; PARTS: }", "Bad", &[0]);
    assert!(matches!(e.kind, ErrorKind::InvalidWidth));
    let e = elaboration_error("CHIP Bad<W> { IN a[W-1]; OUT out; PARTS: }", "Bad", &[0]);
    assert!(matches!(e.kind, ErrorKind::InvalidWidth));
}

#[test]
fn loop_with_end_below_start_expands_to_nothing() {
    let mut lib = full_library();
    lib.add(
        parse_source(
            "CHIP Empty { IN a; OUT out; PARTS: FOR i IN 3 TO 1 GENERATE { Not(in=a, out=out); } }",
            "test.hdl",
        )
        .unwrap(),
    );
    let chip = Chip::new(&lib, "Empty", &vec![]).unwrap();
    assert_eq!(chip.instances().len(), 1);
    let mut sim = Simulator::new(chip).unwrap();
    let out = sim.simulate(&inputs(&[("a", 1, 1)])).unwrap();
    assert_eq!(out.get("out").unwrap(), &vec![None]);
}

#[test]
fn input_of_wrong_width_is_refused() {
    let mut sim = simulator("Not16", &[]);
    let e = sim.simulate(&inputs(&[("in", 1, 4)])).unwrap_err();
    assert!(matches!(e.kind, ErrorKind::WidthMismatch));
}

#[test]
fn undriven_input_leaves_outputs_undriven() {
    let mut sim = simulator("Mux", &[]);
    let out = sim.simulate(&inputs(&[("a", 1, 1), ("b", 0, 1)])).unwrap();
    assert_eq!(out.get("out").unwrap(), &vec![None]);
    assert_eq!(out.get("a").unwrap(), &vec![Some(true)]);
}

#[test]
fn loop_of_gates_is_refused() {
    let mut lib = full_library();
    lib.add(
        parse_source(
            "CHIP Latch { IN s, r; OUT q; PARTS: Nand(a=s, b=nq, out=q); Nand(a=r, b=q, out=nq); }",
            "test.hdl",
        )
        .unwrap(),
    );
    let chip = Chip::new(&lib, "Latch", &vec![]).unwrap();
    match Simulator::new(chip) {
        Ok(_) => panic!("a loop of gates was accepted"),
        Err(e) => {
            assert!(matches!(e.kind, ErrorKind::CombinationalLoop));
            assert_eq!(e.msg, "Latch");
        }
    }
}

#[test]
fn a_wire_that_feeds_its_own_driver_is_a_loop() {
    let mut lib = full_library();
    lib.add(
        parse_source("CHIP Ring { IN a; OUT out; PARTS: Not(in=w, out=w); And(a=a, b=w, out=out); }", "test.hdl")
            .unwrap(),
    );
    let chip = Chip::new(&lib, "Ring", &vec![]).unwrap();
    assert!(matches!(Simulator::new(chip).err().unwrap().kind, ErrorKind::CombinationalLoop));
}

#[test]
fn feedback_through_a_dff_is_no_loop() {
    let mut lib = full_library();
    lib.add(
        parse_source("CHIP Toggle { IN a; OUT out; PARTS: DFF(in=n, out=q); Not(in=q, out=n); And(a=q, b=q, out=out); }", "test.hdl")
            .unwrap(),
    );
    let chip = Chip::new(&lib, "Toggle", &vec![]).unwrap();
    let mut sim = Simulator::new(chip).unwrap();
    let ins = [("a", 0, 1)];
    assert_eq!(output(&mut sim, &ins, "out"), 0);
    assert_eq!(number(sim.step(&inputs(&ins)).unwrap().get("out").unwrap()), 1);
    assert_eq!(number(sim.step(&inputs(&ins)).unwrap().get("out").unwrap()), 0);
}

#[test]
fn an_unconnected_wire_is_no_loop() {
    let mut lib = full_library();
    lib.add(
        parse_source("CHIP Open { IN a; OUT out; PARTS: And(a=a, b=nothing, out=out); }", "test.hdl").unwrap(),
    );
    let chip = Chip::new(&lib, "Open", &vec![]).unwrap();
    let mut sim = Simulator::new(chip).unwrap();
    let out = sim.simulate(&inputs(&[("a", 1, 1)])).unwrap();
    assert_eq!(out.get("out").unwrap(), &vec![None]);
}

use n2v::netlist::{Gate, Netlist};
use n2v::settle::{pass, settle};

#[test]
fn netlist_of_a_not_gate() {
    let lib = full_library();
    let chip = Chip::new(&lib, "Not", &vec![]).unwrap();
    let nl = Netlist::new(&chip);
    // the NAND instance comes first with its ports a, b, out; then Not with in, out
    assert_eq!(nl.nets, 5);
    assert_eq!(nl.cells, 0);
    assert_eq!(nl.ports, vec![3, 4]);
    assert_eq!(
        nl.gates,
        vec![
            Gate::Nand { a: 0, b: 1, out: 2 },
            Gate::Copy { from: 3, to: 0 },
            Gate::Copy { from: 3, to: 1 },
            Gate::Copy { from: 2, to: 4 },
        ]
    );
}

#[test]
fn a_pass_never_changes_a_driven_bit() {
    let gates = vec![
        Gate::Copy { from: 2, to: 3 },
        Gate::Nand { a: 0, b: 1, out: 2 },
        Gate::Dff { input: 3, out: 4, cell: 0 },
    ];
    let cells = vec![true];
    let start = vec![Some(true), Some(true), None, None, None];
    let mut nets = start.clone();
    let mut seen = vec![nets.clone()];
    while pass(&gates, &cells, &start, &mut nets) {
        seen.push(nets.clone());
    }
    assert_eq!(seen.len(), 3);
    for pair in seen.windows(2) {
        for (before, after) in pair[0].iter().zip(&pair[1]) {
            if before.is_some() {
                assert_eq!(before, after);
            }
        }
    }
    assert_eq!(nets, vec![Some(true), Some(true), Some(false), Some(false), Some(true)]);
    assert_eq!(settle(&gates, &cells, &start), nets);
}

#[test]
fn settling_does_not_depend_on_the_order_of_the_gates() {
    let gates = vec![
        Gate::Nand { a: 0, b: 1, out: 2 },
        Gate::Nand { a: 2, b: 2, out: 3 },
        Gate::Copy { from: 3, to: 4 },
        Gate::Nand { a: 4, b: 0, out: 5 },
        Gate::Dff { input: 5, out: 6, cell: 0 },
        Gate::Nand { a: 6, b: 5, out: 7 },
    ];
    let cells = vec![false];
    let start = vec![Some(true), Some(false), None, None, None, None, None, None];
    let expected = settle(&gates, &cells, &start);
    assert!(expected.iter().all(|b| b.is_some()));
    let mut reversed = gates.clone();
    reversed.reverse();
    assert_eq!(settle(&reversed, &cells, &start), expected);
    let mut rotated = gates.clone();
    rotated.rotate_left(3);
    assert_eq!(settle(&rotated, &cells, &start), expected);
}

#[test]
fn tock_is_eval_for_combinational_logic() {
    let mut sim = simulator("Mux", &[]);
    let ins = [("a", 1, 1), ("b", 0, 1), ("sel", 1, 1)];
    let eval = output(&mut sim, &ins, "out");
    sim.tick();
    assert_eq!(output(&mut sim, &ins, "out"), eval);
}

#[test]
fn simulate_hands_out_inputs_and_outputs() {
    let mut sim = simulator("Not16", &[]);
    let out = sim.simulate(&inputs(&[("in", 0x00ff, 16)])).unwrap();
    assert_eq!(number(out.get("in").unwrap()), 0x00ff);
    assert_eq!(number(out.get("out").unwrap()), 0xff00);
    assert_eq!(sim.port_list().len(), 2);
    assert_eq!(sim.port_list()[0].name, "in");
    assert_eq!(sim.port_list()[0].width, 16);
}

#[test]
fn library_finds_chips_by_name() {
    let lib = full_library();
    assert_eq!(lib.find(&"nand".to_string()), Some(0));
    assert_eq!(lib.find(&"DFF".to_string()), Some(1));
    assert_eq!(lib.find(&"Not".to_string()), Some(2));
    assert_eq!(lib.find(&"not".to_string()), None);
    assert!(lib.contains("Mux"));
    assert!(!lib.contains("Nope"));
    assert_eq!(lib.chip_at(2).name, "Not");
    assert_eq!(lib.len(), Some(12));
}

#[test]
fn chip_ports_are_concrete() {
    let lib = full_library();
    let chip = Chip::new(&lib, "Add", &vec![8]).unwrap();
    assert_eq!(chip.ports().len(), 3);
    assert_eq!(chip.port("a").unwrap().width, 8);
    assert_eq!(chip.port("out").unwrap().width, 8);
    assert!(chip.port("nope").is_none());
    assert_eq!(chip.root().name, "Add");
    // the carries are one inner wire as wide as its uses reach
    assert_eq!(chip.root().wires.len(), 1);
    assert_eq!(chip.root().wires[0].name, "c");
    assert_eq!(chip.root().wires[0].width, 8);
    assert_eq!(chip.root().children.len(), 8);
}

#[test]
fn loop_iterator_shadows_a_generic() {
    let mut lib = full_library();
    lib.add(
        parse_source(
            "CHIP Shadow<i> { IN a[i]; OUT out[i]; PARTS:
                FOR i IN 0 TO 1 GENERATE { Not(in=a[i], out=out[i]); }
                Not(in=a[i-1], out=out[i-1]); }",
            "test.hdl",
        )
        .unwrap(),
    );
    let chip = Chip::new(&lib, "Shadow", &vec![3]).unwrap();
    let mut sim = Simulator::new(chip).unwrap();
    let out = sim.simulate(&inputs(&[("a", 0b010, 3)])).unwrap();
    assert_eq!(number(out.get("out").unwrap()), 0b101);
}

fn elaborates(source: &str, name: &str) -> Result<(), ErrorKind> {
    let mut lib = full_library();
    lib.add(parse_source(source, "test.hdl").expect("parse error"));
    match Chip::new(&lib, name, &vec![]) {
        Ok(_) => Ok(()),
        Err(e) => Err(e.kind),
    }
}

#[test]
fn a_wire_without_bounds_has_one_width() {
    // a sixteen-bit wire cannot feed a one-bit port as a whole
    let r = elaborates(
        "CHIP Bad { IN a[16]; OUT out; PARTS: Not16(in=a, out=w); Not(in=w, out=out); }",
        "Bad",
    );
    assert!(matches!(r, Err(ErrorKind::WidthMismatch)));
    // nor the other way round
    let r = elaborates(
        "CHIP Bad { IN a; OUT out[16]; PARTS: Not(in=a, out=w); Not16(in=w, out=out); }",
        "Bad",
    );
    assert!(matches!(r, Err(ErrorKind::WidthMismatch)));
    // a single bit of it can
    let r = elaborates(
        "CHIP Good { IN a[16]; OUT out; PARTS: Not16(in=a, out=w); Not(in=w[3], out=out); }",
        "Good",
    );
    assert!(r.is_ok());
}

#[test]
fn the_order_of_the_mentions_of_a_wire_does_not_matter() {
    let first = "Not(in=a[0], out=w[20]);";
    let second = "Not16(in=a, out=w);";
    for parts in [format!("{first} {second}"), format!("{second} {first}")] {
        let r = elaborates(&format!("CHIP Bad {{ IN a[16]; OUT out; PARTS: {parts} }}"), "Bad");
        assert!(matches!(r, Err(ErrorKind::WidthMismatch)), "{parts}");
    }
    let first = "Not(in=w[3], out=out);";
    for parts in [format!("{first} {second}"), format!("{second} {first}")] {
        let r = elaborates(&format!("CHIP Good {{ IN a[16]; OUT out; PARTS: {parts} }}"), "Good");
        assert!(r.is_ok(), "{parts}");
    }
}

#[test]
fn slices_of_ports_stay_within_the_port() {
    let r = elaborates("CHIP Bad { IN a[4]; OUT out; PARTS: Not(in=a[4], out=out); }", "Bad");
    assert!(matches!(r, Err(ErrorKind::WidthMismatch)));
    let r = elaborates("CHIP Bad { IN a[4]; OUT out; PARTS: Not(in[1]=a[0], out=out); }", "Bad");
    assert!(matches!(r, Err(ErrorKind::WidthMismatch)));
    let r = elaborates("CHIP Bad { IN a[4]; OUT out; PARTS: Not16(in[3..1]=a[0..2], out=w); }", "Bad");
    assert!(matches!(r, Err(ErrorKind::InvalidWidth)));
    let r = elaborates("CHIP Good { IN a[4]; OUT out[2]; PARTS: Not16(in[3..4]=a[0..1], out[3..4]=out); }", "Good");
    assert!(r.is_ok());
}

#[test]
fn a_chip_goes_by_the_name_it_was_added_under() {
    let mut lib = Library::new();
    lib.add_as("Inverter", parse_source(NOT, "Inverter.hdl").unwrap());
    assert!(lib.contains("Inverter"));
    assert!(!lib.contains("Not"));
    let chip = Chip::new(&lib, "Inverter", &vec![]).unwrap();
    assert_eq!(chip.root().name, "Inverter");
}
