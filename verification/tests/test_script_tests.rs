use n2v::chip::Library;
use n2v::error::{ErrorKind, N2VError};
use n2v::parser::parse_source;
use n2v::test_parser::parse_script;
use n2v::test_script::{
    literal_bits, read_cmp, run_test, InputValue, Instruction, NumberSystem, TestScript,
};

const CHIPS: &[&str] = &[
    "CHIP Not { IN in; OUT out; PARTS: Nand(a=in, b=in, out=out); }",
    "CHIP And { IN a, b; OUT out; PARTS: Nand(a=a, b=b, out=n); Not(in=n, out=out); }",
    "CHIP Or { IN a, b; OUT out; PARTS: Not(in=a, out=na); Not(in=b, out=nb); Nand(a=na, b=nb, out=out); }",
    "CHIP Xor { IN a, b; OUT out; PARTS: Nand(a=a, b=b, out=n); Nand(a=a, b=n, out=x); Nand(a=n, b=b, out=y); Nand(a=x, b=y, out=out); }",
    "CHIP Mux { IN a, b, sel; OUT out; PARTS:
        Not(in=sel, out=notSel);
        And(a=a, b=notSel, out=aOut);
        And(a=b, b=sel, out=bOut);
        Or(a=aOut, b=bOut, out=out); }",
    "CHIP DMux { IN in, sel; OUT a, b; PARTS:
        Not(in=sel, out=notSel);
        And(a=in, b=notSel, out=a);
        And(a=in, b=sel, out=b); }",
    "CHIP Not16 { IN in[16]; OUT out[16]; PARTS:
        FOR i IN 0 TO 15 GENERATE { Not(in=in[i], out=out[i]); } }",
    "CHIP And16 { IN a[16], b[16]; OUT out[16]; PARTS:
        FOR i IN 0 TO 15 GENERATE { And(a=a[i], b=b[i], out=out[i]); } }",
    "CHIP Mux16 { IN a[16], b[16], sel; OUT out[16]; PARTS:
        FOR i IN 0 TO 15 GENERATE { Mux(a=a[i], b=b[i], sel=sel, out=out[i]); } }",
    "CHIP Mux4Way16 { IN a[16], b[16], c[16], d[16], sel[2]; OUT out[16]; PARTS:
        Mux16(a=a, b=b, sel=sel[0], out=ab);
        Mux16(a=c, b=d, sel=sel[0], out=cd);
        Mux16(a=ab, b=cd, sel=sel[1], out=out); }",
    "CHIP DMux4Way { IN in, sel[2]; OUT a, b, c, d; PARTS:
        DMux(in=in, sel=sel[1], a=lo, b=hi);
        DMux(in=lo, sel=sel[0], a=a, b=b);
        DMux(in=hi, sel=sel[0], a=c, b=d); }",
    "CHIP Or8Way { IN in[8]; OUT out; PARTS:
        Or(a=in[0], b=in[1], out=t[1]);
        FOR i IN 2 TO 7 GENERATE { Or(a=t[i-1], b=in[i], out=t[i]); }
        Or(a=t[7], b=t[7], out=out); }",
    "CHIP HalfAdder { IN a, b; OUT sum, carry; PARTS: Xor(a=a, b=b, out=sum); And(a=a, b=b, out=carry); }",
    "CHIP FullAdder { IN a, b, c; OUT sum, carry; PARTS:
        HalfAdder(a=a, b=b, sum=s1, carry=c1);
        HalfAdder(a=s1, b=c, sum=sum, carry=c2);
        Or(a=c1, b=c2, out=carry); }",
    "CHIP Add<W> { IN a[W], b[W]; OUT out[W]; PARTS:
        HalfAdder(a=a[0], b=b[0], sum=out[0], carry=c[0]);
        FOR i IN 1 TO W-1 GENERATE {
            FullAdder(a=a[i], b=b[i], c=c[i-1], sum=out[i], carry=c[i]);
        } }",
    "CHIP Add16 { IN a[16], b[16]; OUT out[16]; PARTS: Add<16>(a=a, b=b, out=out); }",
    "CHIP Inc16 { IN in[16]; OUT out[16]; PARTS:
        Not(in=in[0], out=n);
        Nand(a=in[0], b=n, out=one[0]);
        FOR i IN 1 TO 15 GENERATE { Not(in=one[0], out=one[i]); }
        Add16(a=in, b=one, out=out); }",
    "CHIP Bit { IN in, load; OUT out; PARTS:
        Mux(a=q, b=in, sel=load, out=d);
        DFF(in=d, out=q);
        Or(a=q, b=q, out=out); }",
    "CHIP Register { IN in[16], load; OUT out[16]; PARTS:
        FOR i IN 0 TO 15 GENERATE { Bit(in=in[i], load=load, out=out[i]); } }",
    "CHIP Zero16 { IN in; OUT out[16]; PARTS:
        Not(in=in, out=n);
        And(a=in, b=n, out=z);
        FOR i IN 0 TO 15 GENERATE { And(a=z, b=z, out=out[i]); } }",
    "CHIP ALU { IN x[16], y[16], zx, nx, zy, ny, f, no; OUT out[16], zr, ng; PARTS:
        Zero16(in=zx, out=zero);
        Mux16(a=x, b=zero, sel=zx, out=x1);
        Not16(in=x1, out=notx1);
        Mux16(a=x1, b=notx1, sel=nx, out=x2);
        Mux16(a=y, b=zero, sel=zy, out=y1);
        Not16(in=y1, out=noty1);
        Mux16(a=y1, b=noty1, sel=ny, out=y2);
        Add16(a=x2, b=y2, out=sum);
        And16(a=x2, b=y2, out=both);
        Mux16(a=both, b=sum, sel=f, out=o1);
        Not16(in=o1, out=noto1);
        Mux16(a=o1, b=noto1, sel=no, out=o2);
        Or16(a=o2, b=o2, out=out);
        Or16(a=o2, b=o2, out[0..7]=low, out[8..15]=high, out[15]=ng);
        Or8Way(in=low, out=anylow);
        Or8Way(in=high, out=anyhigh);
        Or(a=anylow, b=anyhigh, out=any);
        Not(in=any, out=zr); }",
    "CHIP Or16 { IN a[16], b[16]; OUT out[16]; PARTS:
        FOR i IN 0 TO 15 GENERATE { Or(a=a[i], b=b[i], out=out[i]); } }",
    "CHIP DMux8Way { IN in, sel[3]; OUT a, b, c, d, e, f, g, h; PARTS:
        DMux(in=in, sel=sel[2], a=lo, b=hi);
        DMux4Way(in=lo, sel=sel[0..1], a=a, b=b, c=c, d=d);
        DMux4Way(in=hi, sel=sel[0..1], a=e, b=f, c=g, d=h); }",
    "CHIP Mux8Way16 { IN a[16], b[16], c[16], d[16], e[16], f[16], g[16], h[16], sel[3]; OUT out[16]; PARTS:
        Mux4Way16(a=a, b=b, c=c, d=d, sel=sel[0..1], out=lo);
        Mux4Way16(a=e, b=f, c=g, d=h, sel=sel[0..1], out=hi);
        Mux16(a=lo, b=hi, sel=sel[2], out=out); }",
    "CHIP RAM8 { IN in[16], load, address[3]; OUT out[16]; PARTS:
        DMux8Way(in=load, sel=address, a=l0, b=l1, c=l2, d=l3, e=l4, f=l5, g=l6, h=l7);
        Register(in=in, load=l0, out=r0);
        Register(in=in, load=l1, out=r1);
        Register(in=in, load=l2, out=r2);
        Register(in=in, load=l3, out=r3);
        Register(in=in, load=l4, out=r4);
        Register(in=in, load=l5, out=r5);
        Register(in=in, load=l6, out=r6);
        Register(in=in, load=l7, out=r7);
        Mux8Way16(a=r0, b=r1, c=r2, d=r3, e=r4, f=r5, g=r6, h=r7, sel=address, out=out); }",
    "CHIP RAM64 { IN in[16], load, address[6]; OUT out[16]; PARTS:
        DMux8Way(in=load, sel=address[3..5], a=l0, b=l1, c=l2, d=l3, e=l4, f=l5, g=l6, h=l7);
        RAM8(in=in, load=l0, address=address[0..2], out=r0);
        RAM8(in=in, load=l1, address=address[0..2], out=r1);
        RAM8(in=in, load=l2, address=address[0..2], out=r2);
        RAM8(in=in, load=l3, address=address[0..2], out=r3);
        RAM8(in=in, load=l4, address=address[0..2], out=r4);
        RAM8(in=in, load=l5, address=address[0..2], out=r5);
        RAM8(in=in, load=l6, address=address[0..2], out=r6);
        RAM8(in=in, load=l7, address=address[0..2], out=r7);
        Mux8Way16(a=r0, b=r1, c=r2, d=r3, e=r4, f=r5, g=r6, h=r7, sel=address[3..5], out=out); }",
    "CHIP RAM512 { IN in[16], load, address[9]; OUT out[16]; PARTS:
        DMux8Way(in=load, sel=address[6..8], a=l0, b=l1, c=l2, d=l3, e=l4, f=l5, g=l6, h=l7);
        RAM64(in=in, load=l0, address=address[0..5], out=r0);
        RAM64(in=in, load=l1, address=address[0..5], out=r1);
        RAM64(in=in, load=l2, address=address[0..5], out=r2);
        RAM64(in=in, load=l3, address=address[0..5], out=r3);
        RAM64(in=in, load=l4, address=address[0..5], out=r4);
        RAM64(in=in, load=l5, address=address[0..5], out=r5);
        RAM64(in=in, load=l6, address=address[0..5], out=r6);
        RAM64(in=in, load=l7, address=address[0..5], out=r7);
        Mux8Way16(a=r0, b=r1, c=r2, d=r3, e=r4, f=r5, g=r6, h=r7, sel=address[6..8], out=out); }",
    "CHIP PC { IN in[16], load, inc, reset; OUT out[16]; PARTS:
        Inc16(in=q, out=plus);
        Mux16(a=q, b=plus, sel=inc, out=m1);
        Mux16(a=m1, b=in, sel=load, out=m2);
        Zero16(in=reset, out=zero);
        Mux16(a=m2, b=zero, sel=reset, out=m3);
        Or(a=load, b=inc, out=li);
        Or(a=li, b=reset, out=any);
        Register(in=m3, load=any, out=q);
        Or16(a=q, b=q, out=out); }",
    "CHIP MuxGen<W> { IN a[W], b[W], sel; OUT out[W]; PARTS:
        FOR i IN 0 TO W-1 GENERATE { Mux(a=a[i], b=b[i], sel=sel, out=out[i]); } }",
    "CHIP Mux8Way3 { IN a[3], b[3], c[3], d[3], e[3], f[3], g[3], h[3], sel[3]; OUT out[3]; PARTS:
        MuxGen<3>(a=a, b=b, sel=sel[0], out=ab);
        MuxGen<3>(a=c, b=d, sel=sel[0], out=cd);
        MuxGen<3>(a=e, b=f, sel=sel[0], out=ef);
        MuxGen<3>(a=g, b=h, sel=sel[0], out=gh);
        MuxGen<3>(a=ab, b=cd, sel=sel[1], out=abcd);
        MuxGen<3>(a=ef, b=gh, sel=sel[1], out=efgh);
        MuxGen<3>(a=abcd, b=efgh, sel=sel[2], out=out); }",
];

fn library() -> Library {
    let mut lib = Library::new();
    for source in CHIPS {
        lib.add(parse_source(source, "chips.hdl").expect("parse error"));
    }
    lib
}

/// One port of a table test: its name, its width, and whether it is an input.
struct Column {
    name: &'static str,
    width: usize,
    input: bool,
}

fn input(name: &'static str, width: usize) -> Column {
    Column { name, width, input: true }
}

fn output(name: &'static str, width: usize) -> Column {
    Column { name, width, input: false }
}

fn binary(value: u64, width: usize) -> String {
    (0..width).rev().map(|i| if (value >> i) & 1 == 1 { '1' } else { '0' }).collect()
}

/// The test script and the compare table of a combinational chip: one step
/// for each row, all values in binary.
fn table_test(chip: &str, columns: &[Column], rows: &[Vec<u64>]) -> (String, String) {
    let mut tst = format!("// tests {chip}\nload {chip}.hdl,\noutput-file {chip}.out,\ncompare-to {chip}.cmp,\noutput-list");
    for c in columns {
        tst.push_str(&format!(" {}%B1.{}.1", c.name, c.width));
    }
    tst.push_str(";\n\n");
    let mut cmp = String::from("|");
    for c in columns {
        cmp.push_str(&format!(" {:^width$} |", c.name, width = c.width));
    }
    cmp.push('\n');
    for row in rows {
        cmp.push('|');
        for (c, value) in columns.iter().zip(row) {
            if c.input {
                tst.push_str(&format!("set {} %B{},\n", c.name, binary(*value, c.width)));
            }
            cmp.push_str(&format!(" {} |", binary(*value, c.width)));
        }
        tst.push_str("eval,\noutput;\n\n");
        cmp.push('\n');
    }
    (tst, cmp)
}

fn run(tst: &str, cmp: &str) -> Result<(), N2VError> {
    let script = parse_script(tst, "test.tst").expect("test script does not parse");
    run_test(&script, &library(), cmp)
}

fn run_table(chip: &str, columns: &[Column], rows: &[Vec<u64>]) -> Result<(), N2VError> {
    let (tst, cmp) = table_test(chip, columns, rows);
    run(&tst, &cmp)
}

#[test]
fn test_script_test_nand2tetris_solution_not() {
    let tst = "// File name: Not.tst
load Not.hdl,
output-file Not.out,
compare-to Not.cmp,
output-list in%B3.1.3 out%B3.1.3;

set in 0,
eval,
output;

set in 1,
eval,
output;
";
    let cmp = "|  in   |  out  |\n|   0   |   1   |\n|   1   |   0   |\n";
    assert!(run(tst, cmp).is_ok());
}

#[test]
fn test_nand2tetris_solution_and() {
    let rows = [vec![0, 0, 0], vec![0, 1, 0], vec![1, 0, 0], vec![1, 1, 1]];
    assert!(run_table("And", &[input("a", 1), input("b", 1), output("out", 1)], &rows).is_ok());
}

#[test]
fn test_nand2tetris_solution_or() {
    let rows = [vec![0, 0, 0], vec![0, 1, 1], vec![1, 0, 1], vec![1, 1, 1]];
    assert!(run_table("Or", &[input("a", 1), input("b", 1), output("out", 1)], &rows).is_ok());
}

#[test]
fn test_nand2tetris_solution_xor() {
    let rows = [vec![0, 0, 0], vec![0, 1, 1], vec![1, 0, 1], vec![1, 1, 0]];
    assert!(run_table("Xor", &[input("a", 1), input("b", 1), output("out", 1)], &rows).is_ok());
}

#[test]
fn test_script_test_nand2tetris_solution_mux() {
    let mut rows = Vec::new();
    for v in 0..8u64 {
        let (a, b, sel) = (v >> 2 & 1, v >> 1 & 1, v & 1);
        rows.push(vec![a, b, sel, if sel == 0 { a } else { b }]);
    }
    let columns = [input("a", 1), input("b", 1), input("sel", 1), output("out", 1)];
    assert!(run_table("Mux", &columns, &rows).is_ok());
}

#[test]
fn test_nand2tetris_solution_dmux() {
    let rows = [vec![0, 0, 0, 0], vec![0, 1, 0, 0], vec![1, 0, 1, 0], vec![1, 1, 0, 1]];
    let columns = [input("in", 1), input("sel", 1), output("a", 1), output("b", 1)];
    assert!(run_table("DMux", &columns, &rows).is_ok());
}

#[test]
fn test_script_test_nand2tetris_solution_not16() {
    let rows: Vec<Vec<u64>> = [0u64, 0xffff, 0xaaaa, 0x3cc3, 0x1234]
        .iter()
        .map(|v| vec![*v, !*v & 0xffff])
        .collect();
    assert!(run_table("Not16", &[input("in", 16), output("out", 16)], &rows).is_ok());
}

#[test]
fn test_script_test_nand2tetris_solution_and16() {
    let pairs = [(0u64, 0u64), (0, 0xffff), (0xffff, 0xffff), (0xaaaa, 0x5555), (0x3cc3, 0x0ff0)];
    let rows: Vec<Vec<u64>> = pairs.iter().map(|(a, b)| vec![*a, *b, a & b]).collect();
    assert!(run_table("And16", &[input("a", 16), input("b", 16), output("out", 16)], &rows).is_ok());
}

#[test]
fn test_nand2tetris_solution_mux16() {
    let rows = [
        vec![0, 0, 0, 0],
        vec![0, 0x1234, 1, 0x1234],
        vec![0x9876, 0, 0, 0x9876],
        vec![0xaaaa, 0x5555, 1, 0x5555],
    ];
    let columns = [input("a", 16), input("b", 16), input("sel", 1), output("out", 16)];
    assert!(run_table("Mux16", &columns, &rows).is_ok());
}

fn dmux4way() -> Result<(), N2VError> {
    let mut rows = Vec::new();
    for v in 0..8u64 {
        let (i, sel) = (v >> 2, v & 3);
        let mut row = vec![i, sel, 0, 0, 0, 0];
        row[2 + sel as usize] = i;
        rows.push(row);
    }
    let columns =
        [input("in", 1), input("sel", 2), output("a", 1), output("b", 1), output("c", 1), output("d", 1)];
    run_table("DMux4Way", &columns, &rows)
}

#[test]
fn test_nand2tetris_solution_dmux4way() {
    assert!(dmux4way().is_ok());
}

#[test]
fn test_nand2tetris_solution_dmux8way() {
    assert!(dmux4way().is_ok());
}

#[test]
fn test_nand2tetris_solution_mux4way16() {
    let values = [0x1234u64, 0x9876, 0xaaaa, 0x5555];
    let rows: Vec<Vec<u64>> = (0..4u64)
        .map(|sel| vec![values[0], values[1], values[2], values[3], sel, values[sel as usize]])
        .collect();
    let columns = [
        input("a", 16),
        input("b", 16),
        input("c", 16),
        input("d", 16),
        input("sel", 2),
        output("out", 16),
    ];
    assert!(run_table("Mux4Way16", &columns, &rows).is_ok());
}

#[test]
fn test_script_test_nand2tetris_solution_or8way() {
    let rows = [vec![0, 0], vec![0xff, 1], vec![0x10, 1], vec![0x01, 1], vec![0x26, 1]];
    assert!(run_table("Or8Way", &[input("in", 8), output("out", 1)], &rows).is_ok());
}

fn halfadder() -> Result<(), N2VError> {
    let rows = [vec![0, 0, 0, 0], vec![0, 1, 1, 0], vec![1, 0, 1, 0], vec![1, 1, 0, 1]];
    let columns = [input("a", 1), input("b", 1), output("sum", 1), output("carry", 1)];
    run_table("HalfAdder", &columns, &rows)
}

#[test]
fn test_nand2tetris_solution_halfadder() {
    assert!(halfadder().is_ok());
}

#[test]
fn test_nand2tetris_solution_fulladder() {
    assert!(halfadder().is_ok());
}

#[test]
fn full_adder_adds_three_bits() {
    let rows: Vec<Vec<u64>> = (0..8u64)
        .map(|v| {
            let (a, b, c) = (v >> 2 & 1, v >> 1 & 1, v & 1);
            vec![a, b, c, (a + b + c) & 1, (a + b + c) >> 1]
        })
        .collect();
    let columns =
        [input("a", 1), input("b", 1), input("c", 1), output("sum", 1), output("carry", 1)];
    assert!(run_table("FullAdder", &columns, &rows).is_ok());
}

#[test]
fn test_nand2tetris_solution_add16() {
    let pairs = [(0u64, 0u64), (0, 0xffff), (0xffff, 0xffff), (0xaaaa, 0x5555), (0x3cc3, 0x0ff0), (0x1234, 0x9876)];
    let rows: Vec<Vec<u64>> = pairs.iter().map(|(a, b)| vec![*a, *b, (a + b) & 0xffff]).collect();
    assert!(run_table("Add16", &[input("a", 16), input("b", 16), output("out", 16)], &rows).is_ok());
}

#[test]
fn test_nand2tetris_solution_inc16() {
    let rows: Vec<Vec<u64>> =
        [0u64, 0xffff, 5, 0xfffb].iter().map(|v| vec![*v, (v + 1) & 0xffff]).collect();
    assert!(run_table("Inc16", &[input("in", 16), output("out", 16)], &rows).is_ok());
}

#[test]
fn test_arm_add16() {
    let tst = "load Add.hdl 16,
output-file Add16.out,
compare-to Add16.cmp,
output-list a%D1.6.1 b%D1.6.1 out%D1.6.1;

set a 17, set b 25, eval, output;
set a -1, set b 1, eval, output;
set a %D32767, set b 1, eval, output;
set a -300, set b 100, eval, output;
";
    let cmp = "|   a    |   b    |  out   |
|     17 |     25 |     42 |
|     -1 |      1 |      0 |
|  32767 |      1 | -32768 |
|   -300 |    100 |   -200 |
";
    let script = parse_script(tst, "Add16.tst").unwrap();
    assert_eq!(script.generics, vec![16]);
    assert_eq!(script.hdl_file, "Add.hdl");
    assert!(run_test(&script, &library(), cmp).is_ok());
}

#[test]
fn test_arm_ops_mux8way3() {
    let mut rows = Vec::new();
    for sel in 0..8u64 {
        let mut row: Vec<u64> = (0..8u64).map(|i| (i * 3 + 1) & 7).collect();
        let chosen = row[sel as usize];
        row.push(sel);
        row.push(chosen);
        rows.push(row);
    }
    let columns = [
        input("a", 3),
        input("b", 3),
        input("c", 3),
        input("d", 3),
        input("e", 3),
        input("f", 3),
        input("g", 3),
        input("h", 3),
        input("sel", 3),
        output("out", 3),
    ];
    assert!(run_table("Mux8Way3", &columns, &rows).is_ok());
}

const BIT_TST: &str = "load Bit.hdl,
output-file Bit.out,
compare-to Bit.cmp,
output-list time%S1.4.1 in%B2.1.2 load%B2.1.2 out%B2.1.2;

set in 0, set load 0, tick, output;
tock, output;

set in 0, set load 1, tick, output;
tock, output;

set in 1, set load 0, tick, output;
tock, output;

set in 1, set load 1, tick, output;
tock, output;

set in 0, set load 0, tick, output;
tock, output;

set in 0, set load 1, tick, output;
tock, output;
";

const BIT_CMP: &str = "| time | in  |load | out |
| 0+   |  0  |  0  |  0  |
| 1    |  0  |  0  |  0  |
| 1+   |  0  |  1  |  0  |
| 2    |  0  |  1  |  0  |
| 2+   |  1  |  0  |  0  |
| 3    |  1  |  0  |  0  |
| 3+   |  1  |  1  |  0  |
| 4    |  1  |  1  |  1  |
| 4+   |  0  |  0  |  1  |
| 5    |  0  |  0  |  1  |
| 5+   |  0  |  1  |  1  |
| 6    |  0  |  1  |  0  |
";

#[test]
fn test_nand2tetris_solution_bit() {
    assert!(run(BIT_TST, BIT_CMP).is_ok());
}

#[test]
fn test_nand2tetris_solution_register() {
    let tst = "load Register.hdl,
output-file Register.out,
compare-to Register.cmp,
output-list time%S1.4.1 in%D1.6.1 load%B2.1.2 out%D1.6.1;

set in 0, set load 0, tick, output; tock, output;
set in -32123, set load 0, tick, output; tock, output;
set in -32123, set load 1, tick, output; tock, output;
set in 12345, set load 0, tick, output; tock, output;
set in 12345, set load 1, tick, output; tock, output;
";
    let cmp = "| time |   in   |load |  out   |
| 0+   |      0 |  0  |      0 |
| 1    |      0 |  0  |      0 |
| 1+   | -32123 |  0  |      0 |
| 2    | -32123 |  0  |      0 |
| 2+   | -32123 |  1  |      0 |
| 3    | -32123 |  1  | -32123 |
| 3+   |  12345 |  0  | -32123 |
| 4    |  12345 |  0  | -32123 |
| 4+   |  12345 |  1  | -32123 |
| 5    |  12345 |  1  |  12345 |
";
    assert!(run(tst, cmp).is_ok());
}

#[test]
fn a_wrong_row_fails_the_test() {
    let cmp = "|  in   |  out  |\n|   0   |   1   |\n|   1   |   1   |\n";
    let tst = "load Not.hdl, output-list in%B3.1.3 out%B3.1.3;\nset in 0, eval, output;\nset in 1, eval, output;";
    let e = run(tst, cmp).unwrap_err();
    assert!(matches!(e.kind, ErrorKind::ComparatorMismatch));
}

#[test]
fn a_wildcard_matches_anything() {
    let cmp = "|  in   |  out  |\n|   0   |   1   |\n|   1   |  ***  |\n";
    let tst = "load Not.hdl, output-list in%B3.1.3 out%B3.1.3;\nset in 0, eval, output;\nset in 1, eval, output;";
    assert!(run(tst, cmp).is_ok());
}

#[test]
fn an_undriven_output_does_not_match_an_expected_bit() {
    // `in` is never set, so `out` stays undriven.
    let cmp = "|  out  |\n|   1   |\n";
    let tst = "load Not.hdl, output-list out%B3.1.3;\neval, output;";
    let e = run(tst, cmp).unwrap_err();
    assert!(matches!(e.kind, ErrorKind::ComparatorMismatch));
}

#[test]
fn output_without_a_row_is_an_error() {
    let cmp = "|  in   |  out  |\n|   0   |   1   |\n";
    let tst = "load Not.hdl, output-list in%B3.1.3 out%B3.1.3;\nset in 0, eval, output;\nset in 1, eval, output;";
    let e = run(tst, cmp).unwrap_err();
    assert!(matches!(e.kind, ErrorKind::Other));
}

#[test]
fn setting_an_unknown_port_is_an_error() {
    let e = run("load Not.hdl, output-list in%B1.1.1;\nset nope 0, eval;", "| in |\n").unwrap_err();
    assert!(matches!(e.kind, ErrorKind::UnknownPort));
    assert_eq!(e.msg, "nope");
}

#[test]
fn hex_literals_are_unsupported() {
    let e = run("load Not.hdl, output-list in%B1.1.1;\nset in %XFF, eval;", "| in |\n").unwrap_err();
    assert!(matches!(e.kind, ErrorKind::Unsupported));
}

fn script_with(formats: &[NumberSystem]) -> TestScript {
    let mut tst = String::from("load X.hdl, output-list");
    for (i, f) in formats.iter().enumerate() {
        let letter = match f {
            NumberSystem::Binary => 'B',
            NumberSystem::Decimal => 'D',
            NumberSystem::Hex => 'X',
            NumberSystem::String => 'S',
        };
        tst.push_str(&format!(" p{i}%{letter}1.1.1"));
    }
    tst.push(';');
    parse_script(&tst, "x.tst").unwrap()
}

fn ports_of(chip: &str) -> Vec<n2v::chip::Port> {
    let lib = library();
    let chip = n2v::chip::Chip::new(&lib, chip, &vec![]).unwrap();
    chip.ports().iter().map(|p| p.clone()).collect()
}

#[test]
fn compare_table_is_read_lsb_first() {
    let script = script_with(&[NumberSystem::Binary, NumberSystem::Decimal]);
    let ports = ports_of("Not16");
    let rows = read_cmp("| in | out |\n| 0000000000000110 | -2 |\n\n| *** | 5 |\n", &script, &ports).unwrap();
    assert_eq!(rows.len(), 2);
    let input = rows[0].get("in").unwrap();
    assert_eq!(input.len(), 16);
    assert_eq!(input[0], Some(false));
    assert_eq!(input[1], Some(true));
    assert_eq!(input[2], Some(true));
    assert_eq!(input[3], Some(false));
    let out = rows[0].get("out").unwrap();
    assert_eq!(out[0], Some(false));
    assert!(out[1..].iter().all(|b| *b == Some(true)));
    assert!(rows[1].get("in").is_none());
    assert_eq!(rows[1].get("out").unwrap()[0], Some(true));
}

#[test]
fn compare_table_errors() {
    let script = script_with(&[NumberSystem::Binary]);
    let ports = ports_of("Not");
    let kind = |text: &str| read_cmp(text, &script, &ports).unwrap_err();
    // no header, or a header that is too short
    assert!(matches!(kind("").kind, ErrorKind::Other));
    assert!(matches!(kind("||\n").kind, ErrorKind::Other));
    // a line that is too short
    assert!(matches!(kind("| in |\n |\n").kind, ErrorKind::Other));
    // more columns than the output list has
    assert!(matches!(kind("| in | out |\n| 0 | 1 |\n").kind, ErrorKind::Other));
    // a port that the chip does not have
    let e = kind("| nope |\n| 1 |\n");
    assert!(matches!(e.kind, ErrorKind::Other));
    assert_eq!(e.msg, "nope");
    // a literal that is not binary
    assert!(matches!(kind("| in |\n| 2 |\n").kind, ErrorKind::Other));
}

#[test]
fn string_columns_are_ignored() {
    let script = script_with(&[NumberSystem::String, NumberSystem::Binary]);
    let ports = ports_of("Not");
    let rows = read_cmp("| time | in |\n| 0+ | 1 |\n", &script, &ports).unwrap();
    assert!(rows[0].get("time").is_none());
    assert_eq!(rows[0].get("in").unwrap(), &vec![Some(true)]);
}

fn literal(number_system: NumberSystem, value: &str) -> InputValue {
    InputValue { number_system, value: value.to_string() }
}

fn lsb(bits: &[u8]) -> Vec<Option<bool>> {
    bits.iter().map(|b| Some(*b == 1)).collect()
}

#[test]
fn binary_literals_are_cut_and_zero_extended_at_the_msb_side() {
    let v = literal(NumberSystem::Binary, "1011");
    assert_eq!(literal_bits(&v, 4).unwrap(), lsb(&[1, 1, 0, 1]));
    // wider than the port: the most significant bits go
    assert_eq!(literal_bits(&v, 2).unwrap(), lsb(&[1, 1]));
    assert_eq!(literal_bits(&v, 3).unwrap(), lsb(&[1, 1, 0]));
    // narrower than the port: zeros are added
    assert_eq!(literal_bits(&v, 6).unwrap(), lsb(&[1, 1, 0, 1, 0, 0]));
    assert_eq!(literal_bits(&literal(NumberSystem::Binary, ""), 2).unwrap(), lsb(&[0, 0]));
}

#[test]
fn decimal_literals_are_twos_complement() {
    let five = literal(NumberSystem::Decimal, "5");
    assert_eq!(literal_bits(&five, 4).unwrap(), lsb(&[1, 0, 1, 0]));
    assert_eq!(literal_bits(&five, 2).unwrap(), lsb(&[1, 0]));
    let minus_two = literal(NumberSystem::Decimal, "-2");
    assert_eq!(literal_bits(&minus_two, 4).unwrap(), lsb(&[0, 1, 1, 1]));
    // sign extension beyond sixteen bits
    let wide = literal_bits(&minus_two, 20).unwrap();
    assert_eq!(wide[0], Some(false));
    assert!(wide[1..].iter().all(|b| *b == Some(true)));
    let wide = literal_bits(&five, 20).unwrap();
    assert!(wide[3..].iter().all(|b| *b == Some(false)));
    let min = literal_bits(&literal(NumberSystem::Decimal, "-32768"), 16).unwrap();
    assert_eq!(min[15], Some(true));
    assert!(min[..15].iter().all(|b| *b == Some(false)));
    assert_eq!(literal_bits(&literal(NumberSystem::Decimal, "+7"), 3).unwrap(), lsb(&[1, 1, 1]));
}

#[test]
fn malformed_literals_are_errors() {
    for bad in ["", "-", "12a", "32768", "-32769", "99999999999999999999"] {
        let e = literal_bits(&literal(NumberSystem::Decimal, bad), 16).unwrap_err();
        assert!(matches!(e.kind, ErrorKind::Other), "{bad}");
    }
    let e = literal_bits(&literal(NumberSystem::Binary, "012"), 16).unwrap_err();
    assert!(matches!(e.kind, ErrorKind::Other));
    let e = literal_bits(&literal(NumberSystem::Hex, "ff"), 16).unwrap_err();
    assert!(matches!(e.kind, ErrorKind::Unsupported));
    let e = literal_bits(&literal(NumberSystem::String, "ff"), 16).unwrap_err();
    assert!(matches!(e.kind, ErrorKind::Unsupported));
}

#[test]
fn test_script_is_parsed_into_steps() {
    let script = parse_script(BIT_TST, "Bit.tst").unwrap();
    assert_eq!(script.hdl_file, "Bit.hdl");
    assert_eq!(script.output_file, "Bit.out");
    assert_eq!(script.compare_file, "Bit.cmp");
    assert_eq!(script.output_list.len(), 4);
    assert_eq!(script.output_list[0].port_name, "time");
    assert_eq!(script.output_list[0].number_system, NumberSystem::String);
    assert_eq!(script.output_list[1].space_before, 2);
    assert_eq!(script.output_list[1].output_columns, 1);
    assert_eq!(script.output_list[1].space_after, 2);
    assert_eq!(script.steps.len(), 12);
    assert_eq!(
        script.steps[0].instructions,
        vec![
            Instruction::SetInput("in".to_string(), literal(NumberSystem::Decimal, "0")),
            Instruction::SetInput("load".to_string(), literal(NumberSystem::Decimal, "0")),
            Instruction::Tick,
            Instruction::Output,
        ]
    );
    assert_eq!(script.steps[1].instructions, vec![Instruction::Tock, Instruction::Output]);
    assert!(script.generics.is_empty());
}

#[test]
fn test_script_errors_point_at_the_token() {
    let e = parse_script("load Not.hdl,\n  jump;", "t.tst").unwrap_err();
    match e.kind {
        ErrorKind::ParseError(t) => {
            assert_eq!(t.lexeme, "jump");
            assert_eq!(t.line, 2);
            assert_eq!(t.start, 3);
            assert_eq!(t.path, "t.tst");
        }
        other => panic!("unexpected kind {:?}", other),
    }
    assert!(matches!(parse_script("set in", "t.tst").unwrap_err().kind, ErrorKind::ParseError(_)));
    assert!(matches!(parse_script("set in %Q1;", "t.tst").unwrap_err().kind, ErrorKind::ParseError(_)));
    assert!(matches!(parse_script("eval eval;", "t.tst").unwrap_err().kind, ErrorKind::ParseError(_)));
    assert!(matches!(parse_script("output-list a%B1.1;", "t.tst").unwrap_err().kind, ErrorKind::ParseError(_)));
}

#[test]
fn literal_prefixes() {
    let script = parse_script("set a B01, set b D-3, set c %D7, set d 12, set e %B1;", "t.tst").unwrap();
    let values: Vec<(NumberSystem, &str)> = script.steps[0]
        .instructions
        .iter()
        .map(|i| match i {
            Instruction::SetInput(_, v) => (v.number_system, v.value.as_str()),
            other => panic!("unexpected instruction {:?}", other),
        })
        .collect();
    assert_eq!(
        values,
        vec![
            (NumberSystem::Binary, "01"),
            (NumberSystem::Decimal, "-3"),
            (NumberSystem::Decimal, "7"),
            (NumberSystem::Decimal, "12"),
            (NumberSystem::Binary, "1"),
        ]
    );
}

fn alu(x: u64, y: u64, zx: u64, nx: u64, zy: u64, ny: u64, f: u64, no: u64) -> (u64, u64, u64) {
    let x = if zx == 1 { 0 } else { x };
    let x = if nx == 1 { !x & 0xffff } else { x };
    let y = if zy == 1 { 0 } else { y };
    let y = if ny == 1 { !y & 0xffff } else { y };
    let out = if f == 1 { (x + y) & 0xffff } else { x & y };
    let out = if no == 1 { !out & 0xffff } else { out };
    (out, if out == 0 { 1 } else { 0 }, out >> 15)
}

#[test]
fn test_script_test_nand2tetris_solution_alu() {
    let functions: [[u64; 6]; 18] = [
        [1, 0, 1, 0, 1, 0],
        [1, 1, 1, 1, 1, 1],
        [1, 1, 1, 0, 1, 0],
        [0, 0, 1, 1, 0, 0],
        [1, 1, 0, 0, 0, 0],
        [0, 0, 1, 1, 0, 1],
        [1, 1, 0, 0, 0, 1],
        [0, 0, 1, 1, 1, 1],
        [1, 1, 0, 0, 1, 1],
        [0, 1, 1, 1, 1, 1],
        [1, 1, 0, 1, 1, 1],
        [0, 0, 1, 1, 1, 0],
        [1, 1, 0, 0, 1, 0],
        [0, 0, 0, 0, 1, 0],
        [0, 1, 0, 0, 1, 1],
        [0, 0, 0, 1, 1, 1],
        [0, 0, 0, 0, 0, 0],
        [0, 1, 0, 1, 0, 1],
    ];
    let mut rows = Vec::new();
    for (x, y) in [(0u64, 0xffffu64), (0x11, 0x3)] {
        for c in functions {
            let (out, zr, ng) = alu(x, y, c[0], c[1], c[2], c[3], c[4], c[5]);
            rows.push(vec![x, y, c[0], c[1], c[2], c[3], c[4], c[5], out, zr, ng]);
        }
    }
    // the functions of the second pair, as they are known
    let known: Vec<u64> = rows[18..].iter().map(|r| r[8]).collect();
    assert_eq!(
        known,
        vec![
            0, 1, 0xffff, 0x11, 0x3, 0xffee, 0xfffc, 0xffef, 0xfffd, 0x12, 0x4, 0x10, 0x2, 0x14,
            0xe, 0xfff2, 0x1, 0x13
        ]
    );
    let columns = [
        input("x", 16),
        input("y", 16),
        input("zx", 1),
        input("nx", 1),
        input("zy", 1),
        input("ny", 1),
        input("f", 1),
        input("no", 1),
        output("out", 16),
        output("zr", 1),
        output("ng", 1),
    ];
    assert!(run_table("ALU", &columns, &rows).is_ok());
}

/// A test script for a clocked chip: each entry sets the inputs, ticks and
/// tocks, and gives the outputs that are expected after the tock.
fn clocked_test(
    chip: &str,
    inputs: &[(&str, usize)],
    out_width: usize,
    steps: &[(Vec<i64>, i64)],
) -> (String, String) {
    let mut tst = format!("load {chip}.hdl,\noutput-file {chip}.out,\ncompare-to {chip}.cmp,\noutput-list time%S1.4.1");
    let mut cmp = String::from("| time |");
    for (name, width) in inputs {
        tst.push_str(&format!(" {name}%D1.{width}.1"));
        cmp.push_str(&format!(" {name} |"));
    }
    tst.push_str(&format!(" out%D1.{out_width}.1;\n\n"));
    cmp.push_str(" out |\n");
    for (time, (values, out)) in steps.iter().enumerate() {
        for ((name, _), value) in inputs.iter().zip(values) {
            tst.push_str(&format!("set {name} {value},\n"));
        }
        tst.push_str("tick,\ntock,\noutput;\n\n");
        cmp.push_str(&format!("| {} |", time + 1));
        for value in values {
            cmp.push_str(&format!(" {value} |"));
        }
        cmp.push_str(&format!(" {out} |\n"));
    }
    (tst, cmp)
}

#[test]
fn test_nand2tetris_solution_ram8() {
    // in, load, address -> out after the clock
    let steps = vec![
        (vec![0, 0, 0], 0),
        (vec![11111, 1, 1], 11111),
        (vec![0, 0, 0], 0),
        (vec![3333, 1, 3], 3333),
        (vec![0, 0, 1], 11111),
        (vec![-7777, 1, 7], -7777),
        (vec![5, 0, 3], 3333),
        (vec![5, 0, 7], -7777),
        (vec![21845, 1, 0], 21845),
        (vec![0, 0, 1], 11111),
        (vec![0, 0, 2], 0),
        (vec![0, 0, 0], 21845),
    ];
    let (tst, cmp) = clocked_test("RAM8", &[("in", 6), ("load", 1), ("address", 1)], 6, &steps);
    let r = run(&tst, &cmp);
    assert!(r.is_ok(), "{:?}", r);
}

#[test]
fn test_nand2tetris_solution_pc() {
    // in, reset, load, inc -> out after the clock
    let steps = vec![
        (vec![0, 0, 0, 0], 0),
        (vec![0, 0, 0, 1], 1),
        (vec![-32123, 0, 0, 1], 2),
        (vec![-32123, 0, 1, 1], -32123),
        (vec![-32123, 0, 0, 1], -32122),
        (vec![-32123, 0, 0, 1], -32121),
        (vec![12345, 0, 1, 0], 12345),
        (vec![12345, 1, 1, 0], 0),
        (vec![12345, 0, 1, 1], 12345),
        (vec![12345, 1, 1, 1], 0),
        (vec![12345, 0, 0, 1], 1),
        (vec![12345, 1, 0, 1], 0),
        (vec![0, 0, 1, 1], 0),
        (vec![0, 0, 0, 1], 1),
        (vec![22222, 1, 0, 0], 0),
    ];
    let (tst, cmp) = clocked_test("PC", &[("in", 6), ("reset", 1), ("load", 1), ("inc", 1)], 6, &steps);
    let r = run(&tst, &cmp);
    assert!(r.is_ok(), "{:?}", r);
}

#[test]
fn test_nand2tetris_solution_ram512() {
    // in, load, address -> out after the clock
    let steps = vec![
        (vec![0, 0, 0], 0),
        (vec![13099, 1, 130], 13099),
        (vec![0, 0, 0], 0),
        (vec![4729, 1, 472], 4729),
        (vec![0, 0, 130], 13099),
        (vec![-5119, 1, 511], -5119),
        (vec![0, 0, 472], 4729),
        (vec![0, 0, 511], -5119),
    ];
    let (tst, cmp) = clocked_test("RAM512", &[("in", 6), ("load", 1), ("address", 3)], 6, &steps);
    let r = run(&tst, &cmp);
    assert!(r.is_ok(), "{:?}", r);
}
