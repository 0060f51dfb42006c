use n2v::error::ErrorKind;
use n2v::expr::{GenericWidth, Op, Terminal};
use n2v::parser::{
    get_hdl, parse_source, ChipHDL, FileReader, HdlProvider, Identifier, Parser, Part,
    PortDirection,
};
use n2v::scanner::{Scanner, TokenType};

const MUX: &str = "// This file is part of www.nand2tetris.org
/**
 * Multiplexor:
 * out = a if sel == 0
 *       b otherwise
 */
CHIP Mux {
    IN a, b, sel;
    OUT out;

    PARTS:
    Not(in=sel, out=notSel);
    And(a=a, b=notSel, out=aOut);
    And(a=b, b=sel, out=bOut);
    Or(a=aOut, b=bOut, out=out);
}
";

const NOT: &str = "/** Not gate: out = not in */
CHIP Not {
    IN in;
    OUT out;

    PARTS:
    Nand(a=in, b=in, out=out);
}
";

const NOT16: &str = "/** 16-bit Not: for i=0..15: out[i] = not in[i] */
CHIP Not16 {
    IN in[16];
    OUT out[16];

    PARTS:
    Not(in=in[0], out=out[0]);
    Not(in=in[1], out=out[1]);
    Not(in=in[2], out=out[2]);
    Not(in=in[3], out=out[3]);
    Not(in=in[4], out=out[4]);
    Not(in=in[5], out=out[5]);
    Not(in=in[6], out=out[6]);
    Not(in=in[7], out=out[7]);
    Not(in=in[8], out=out[8]);
    Not(in=in[9], out=out[9]);
    Not(in=in[10], out=out[10]);
    Not(in=in[11], out=out[11]);
    Not(in=in[12], out=out[12]);
    Not(in=in[13], out=out[13]);
    Not(in=in[14], out=out[14]);
    Not(in=in[15], out=out[15]);
}
";

const AND16: &str = "CHIP And16 {
    IN a[16], b[16];
    OUT out[16];

    PARTS:
    FOR i IN 0 TO 15 GENERATE {
        And(a=a[i], b=b[i], out=out[i]);
    }
}
";

const OR8WAY: &str = "/** 8-way Or: out = (in[0] or in[1] or ... or in[7]) */
CHIP Or8Way {
    IN in[8];
    OUT out;

    PARTS:
    Or(a=in[0], b=in[1], out=or01);
    Or(a=in[2], b=in[3], out=or23);
    Or(a=in[4], b=in[5], out=or45);
    Or(a=in[6], b=in[7], out=or67);
    Or(a=or01, b=or23, out=or0123);
    Or(a=or45, b=or67, out=or4567);
    Or(a=or0123, b=or4567, out=out);
}
";

const ALU: &str = "/**
 * The ALU (Arithmetic Logic Unit).
 * Computes one of the following functions:
 * x+y, x-y, y-x, 0, 1, -1, x, y, -x, -y, !x, !y,
 * x+1, y+1, x-1, y-1, x&y, x|y on two 16-bit inputs.
 */
CHIP ALU {
    IN
        x[16], y[16],  // 16-bit inputs
        zx, // zero the x input?
        nx, // negate the x input?
        zy, // zero the y input?
        ny, // negate the y input?
        f,  // compute out = x + y (if 1) or x & y (if 0)
        no; // negate the out output?

    OUT
        out[16], // 16-bit output
        zr, // 1 if (out == 0), 0 otherwise
        ng; // 1 if (out < 0),  0 otherwise

    PARTS:
    Mux16(a=x, b=zero, sel=zx, out=x1);
    Not16(in=x1, out=notx1);
    Mux16(a=x1, b=notx1, sel=nx, out=x2);
    Mux16(a=y, b=zero, sel=zy, out=y1);
    Not16(in=y1, out=noty1);
    Mux16(a=y1, b=noty1, sel=ny, out=y2);
    Add16(a=x2, b=y2, out=sum);
    And16(a=x2, b=y2, out=both);
    Mux16(a=both, b=sum, sel=f, out=o1);
    Not16(in=o1, out=noto1);
    Mux16(a=o1, b=noto1, sel=no, out=out, out[0..7]=low, out[8..15]=high, out[15]=ng);
    Or8Way(in=low, out=anylow);
    Or8Way(in=high, out=anyhigh);
    Or(a=anylow, b=anyhigh, out=any);
    Not(in=any, out=zr);
}
";

const MUXGEN: &str = "CHIP MuxGen<W> {
    IN a[W], b[W], sel;
    OUT out[W];

    PARTS:
    FOR i IN 0 TO W - 1 GENERATE {
        Mux(a=a[i], b=b[i], sel=sel, out=out[i]);
    }
}
";

fn parse(contents: &str, path: &str) -> ChipHDL {
    let scanner = Scanner::new(contents, path);
    let mut parser = Parser { scanner };
    parser.parse().expect("Parse error")
}

#[test]
fn parser_test_nand2tetris_solution_mux() {
    let chip = parse(MUX, "nand2tetris/solutions/Mux.hdl");
    assert_eq!(chip.name, "Mux");
    assert_eq!(chip.ports.len(), 4);
    assert_eq!(chip.ports[0].direction, PortDirection::In);
    assert_eq!(chip.ports[3].direction, PortDirection::Out);
    assert_eq!(chip.ports[3].name.value, "out");
    assert_eq!(chip.parts.len(), 4);
    assert_eq!(chip.generic_decls.len(), 0);
    assert_eq!(chip.path.as_deref(), Some("nand2tetris/solutions/Mux.hdl"));
}

#[test]
fn parser_test_nand2tetris_solution_not16() {
    let chip = parse(NOT16, "nand2tetris/solutions/Not16.hdl");
    assert_eq!(chip.ports.len(), 2);
    assert_eq!(chip.ports[0].width, GenericWidth::Terminal(Terminal::Num(16)));
    assert_eq!(chip.parts.len(), 16);
}

#[test]
fn parser_test_nand2tetris_solution_and16() {
    let chip = parse(AND16, "nand2tetris/solutions/And16.hdl");
    assert_eq!(chip.ports.len(), 3);
    assert_eq!(chip.parts.len(), 1);
    match &chip.parts[0] {
        Part::Loop(l) => {
            assert_eq!(l.iterator.value, "i");
            assert_eq!(l.start, GenericWidth::Terminal(Terminal::Num(0)));
            assert_eq!(l.end, GenericWidth::Terminal(Terminal::Num(15)));
            assert_eq!(l.body.len(), 1);
            assert_eq!(l.body[0].name.value, "And");
        }
        Part::Component(_) => panic!("expected a loop"),
    }
}

#[test]
fn parser_test_nand2tetris_solution_or8way() {
    let chip = parse(OR8WAY, "nand2tetris/solutions/Or8Way.hdl");
    assert_eq!(chip.ports.len(), 2);
    assert_eq!(chip.parts.len(), 7);
}

#[test]
fn parser_test_nand2tetris_solution_not() {
    let chip = parse(NOT, "nand2tetris/solutions/Not.hdl");
    assert_eq!(chip.ports.len(), 2);
    match &chip.parts[0] {
        Part::Component(c) => {
            assert_eq!(c.name.value, "Nand");
            assert_eq!(c.name.line, Some(7));
            assert_eq!(c.mappings.len(), 3);
            assert_eq!(c.mappings[0].port.name, "a");
            assert_eq!(c.mappings[0].wire.name, "in");
            assert_eq!(c.mappings[0].wire_ident.value, "a");
            assert_eq!(c.mappings[0].port.start, None);
            assert_eq!(c.mappings[2].wire.name, "out");
        }
        Part::Loop(_) => panic!("expected a component"),
    }
}

#[test]
fn parser_test_nand2tetris_solution_alu() {
    let chip = parse(ALU, "nand2tetris/solutions/ALU.hdl");
    assert_eq!(chip.ports.len(), 11);
    assert_eq!(chip.ports.iter().filter(|p| p.direction == PortDirection::In).count(), 8);
    assert_eq!(chip.parts.len(), 15);
    match &chip.parts[10] {
        Part::Component(c) => {
            assert_eq!(c.mappings.len(), 7);
            let low = &c.mappings[4];
            assert_eq!(low.port.start, Some(GenericWidth::Terminal(Terminal::Num(0))));
            assert_eq!(low.port.end, Some(GenericWidth::Terminal(Terminal::Num(7))));
            // a single index stands for the range from it to itself
            let ng = &c.mappings[6];
            assert_eq!(ng.port.start, Some(GenericWidth::Terminal(Terminal::Num(15))));
            assert_eq!(ng.port.end, Some(GenericWidth::Terminal(Terminal::Num(15))));
        }
        Part::Loop(_) => panic!("expected a component"),
    }
}

#[test]
fn test_arm_muxgen() {
    let chip = parse(MUXGEN, "arm/MuxGen.hdl");
    assert_eq!(chip.generic_decls.len(), 1);
    assert_eq!(chip.generic_decls[0].value, "W");
    assert_eq!(chip.ports.len(), 4);
    match &chip.ports[0].width {
        GenericWidth::Terminal(Terminal::Var(v)) => assert_eq!(v.value, "W"),
        other => panic!("unexpected width {:?}", other),
    }
    match &chip.parts[0] {
        Part::Loop(l) => match &l.end {
            GenericWidth::Expr(Op::Sub, left, right) => {
                assert!(matches!(**left, GenericWidth::Terminal(Terminal::Var(_))));
                assert_eq!(**right, GenericWidth::Terminal(Terminal::Num(1)));
            }
            other => panic!("unexpected end {:?}", other),
        },
        Part::Component(_) => panic!("expected a loop"),
    }
}

#[test]
fn parsing_twice_gives_the_same_tree() {
    for source in [MUX, NOT, NOT16, AND16, OR8WAY, ALU, MUXGEN] {
        let first = parse(source, "a.hdl");
        let second = parse(source, "a.hdl");
        assert_eq!(first.name, second.name);
        assert_eq!(first.ports, second.ports);
        assert_eq!(first.generic_decls, second.generic_decls);
        assert_eq!(first.parts.len(), second.parts.len());
    }
}

#[test]
fn port_width_expression_is_kept() {
    let chip = parse_source("CHIP A<W> { IN a[W-1]; OUT out[W+1]; PARTS: }", "A.hdl").unwrap();
    match &chip.ports[0].width {
        GenericWidth::Expr(Op::Sub, l, r) => {
            assert!(matches!(**l, GenericWidth::Terminal(Terminal::Var(_))));
            assert_eq!(**r, GenericWidth::Terminal(Terminal::Num(1)));
        }
        other => panic!("unexpected width {:?}", other),
    }
    assert!(matches!(chip.ports[1].width, GenericWidth::Expr(Op::Add, _, _)));
    assert!(chip.parts.is_empty());
}

#[test]
fn generic_arguments_are_numbers_or_names() {
    let chip = parse_source(
        "CHIP A<W> { IN a[W]; OUT out[W]; PARTS: B<4, W>(a=a, out=out); C(); }",
        "A.hdl",
    )
    .unwrap();
    match &chip.parts[0] {
        Part::Component(c) => {
            assert_eq!(c.generic_params.len(), 2);
            assert_eq!(c.generic_params[0], GenericWidth::Terminal(Terminal::Num(4)));
            assert!(matches!(c.generic_params[1], GenericWidth::Terminal(Terminal::Var(_))));
        }
        Part::Loop(_) => panic!("expected a component"),
    }
    match &chip.parts[1] {
        Part::Component(c) => assert!(c.mappings.is_empty() && c.generic_params.is_empty()),
        Part::Loop(_) => panic!("expected a component"),
    }
}

fn parse_error(source: &str) -> (String, u32, u32, TokenType, String) {
    match parse_source(source, "bad.hdl") {
        Ok(_) => panic!("parsed: {source}"),
        Err(e) => match e.kind {
            ErrorKind::ParseError(t) => (t.lexeme, t.line, t.start, t.token_type, e.msg),
            other => panic!("unexpected kind {:?}", other),
        },
    }
}

#[test]
fn parse_error_points_at_the_offending_token() {
    let (lexeme, line, col, kind, msg) = parse_error("CHIP Foo {\n  IN a;\n  OUT out\n  PARTS: }");
    assert_eq!(lexeme, "PARTS");
    assert_eq!((line, col), (4, 3));
    assert_eq!(kind, TokenType::Parts);
    assert_eq!(msg, "Expected `;`");

    let (lexeme, line, col, _, msg) = parse_error("CHIP 7 { }");
    assert_eq!(lexeme, "7");
    assert_eq!((line, col), (1, 6));
    assert_eq!(msg, "Expected identifier");
}

#[test]
fn early_end_of_text_points_at_a_synthetic_token() {
    let (lexeme, line, col, kind, msg) = parse_error("CHIP Foo {\n  IN a, b;\n");
    assert_eq!(lexeme, "");
    assert_eq!(kind, TokenType::Eof);
    assert_eq!((line, col), (3, 1));
    assert_eq!(msg, "Unexpected end of file. Expected OUT");
    let (_, _, _, kind, _) = parse_error("");
    assert_eq!(kind, TokenType::Eof);
    let (_, _, _, kind, _) = parse_error("CHIP A { IN a; OUT b; PARTS: Not(in=a");
    assert_eq!(kind, TokenType::Eof);
}

#[test]
fn the_grammar_is_enforced() {
    // a port list needs commas between its ports
    parse_error("CHIP A { IN a b; OUT out; PARTS: }");
    // and has no comma at its end
    parse_error("CHIP A { IN a,; OUT out; PARTS: }");
    // generic declarations are identifiers
    parse_error("CHIP A<4> { IN a; OUT out; PARTS: }");
    parse_error("CHIP A<> { IN a; OUT out; PARTS: }");
    // an expression has at most one operator
    parse_error("CHIP A<W> { IN a[W+1+1]; OUT out; PARTS: }");
    // a range needs two dots
    parse_error("CHIP A { IN a; OUT out; PARTS: B(a[0.3]=a); }");
    // loops do not nest
    parse_error(
        "CHIP A { IN a; OUT out; PARTS: FOR i IN 0 TO 1 GENERATE { FOR j IN 0 TO 1 GENERATE { } } }",
    );
    // a component ends with a semicolon
    parse_error("CHIP A { IN a; OUT out; PARTS: B(a=a) }");
    // a character that starts no token
    let (lexeme, _, _, kind, _) = parse_error("CHIP A { IN a; OUT out; PARTS: B(a=#); }");
    assert_eq!(lexeme, "#");
    assert_eq!(kind, TokenType::Unknown);
    // a number that no machine word holds
    let (_, _, _, kind, msg) =
        parse_error("CHIP A { IN a[99999999999999999999999999]; OUT out; PARTS: }");
    assert_eq!(kind, TokenType::Number);
    assert_eq!(msg, "Number is too large.");
}

#[test]
fn get_port_finds_the_first_port_of_a_name() {
    let chip = parse(MUX, "Mux.hdl");
    assert_eq!(chip.get_port("sel").unwrap().name.value, "sel");
    assert_eq!(chip.get_port("out").unwrap().direction, PortDirection::Out);
    let e = chip.get_port("nope").unwrap_err();
    assert!(matches!(e.kind, ErrorKind::Other));
    assert_eq!(e.msg, "Attempt to get non-existent port nope");
    assert_eq!(e.to_string(), "Attempt to get non-existent port nope");
}

struct Sources(Vec<(&'static str, &'static str)>);

impl HdlProvider for Sources {
    fn get_hdl(&self, file_name: &str) -> Result<String, std::io::Error> {
        match self.0.iter().find(|(name, _)| *name == file_name) {
            Some((_, text)) => Ok(text.to_string()),
            None => Err(std::io::Error::new(std::io::ErrorKind::NotFound, file_name.to_string())),
        }
    }

    fn get_path(&self, file_name: &str) -> String {
        format!("memory/{file_name}")
    }
}

#[test]
fn get_hdl_knows_the_primitive_chips() {
    let provider = Sources(vec![]);
    for name in ["NAND", "Nand", "nand", "nAnD"] {
        let chip = get_hdl(name, &provider).unwrap();
        assert_eq!(chip.name, "NAND");
        let ports: Vec<(&str, PortDirection)> =
            chip.ports.iter().map(|p| (p.name.value.as_str(), p.direction)).collect();
        assert_eq!(
            ports,
            vec![("a", PortDirection::In), ("b", PortDirection::In), ("out", PortDirection::Out)]
        );
        assert!(chip.ports.iter().all(|p| p.width == GenericWidth::Terminal(Terminal::Num(1))));
        assert!(chip.parts.is_empty());
        assert_eq!(chip.path, None);
        assert_eq!(chip.ports[0].name, Identifier::from("a"));
    }
    for name in ["DFF", "dff", "Dff"] {
        let chip = get_hdl(name, &provider).unwrap();
        assert_eq!(chip.name, "DFF");
        let ports: Vec<(&str, PortDirection)> =
            chip.ports.iter().map(|p| (p.name.value.as_str(), p.direction)).collect();
        assert_eq!(ports, vec![("in", PortDirection::In), ("out", PortDirection::Out)]);
    }
}

#[test]
fn get_hdl_reads_other_chips_from_the_provider() {
    let provider = Sources(vec![("Mux.hdl", MUX), ("Bad.hdl", "CHIP")]);
    let chip = get_hdl("Mux", &provider).unwrap();
    assert_eq!(chip.name, "Mux");
    assert_eq!(chip.path.as_deref(), Some("Mux.hdl"));
    assert_eq!(provider.get_path("Mux.hdl"), "memory/Mux.hdl");
    // names other than the primitives are case-sensitive
    let e = get_hdl("mux", &provider).unwrap_err();
    assert!(matches!(e.kind, ErrorKind::IoError));
    assert_eq!(e.msg, "Unable to get HDL for mux.hdl");
    let e = get_hdl("Bad", &provider).unwrap_err();
    assert!(matches!(e.kind, ErrorKind::ParseError(_)));
}

#[test]
fn file_reader_keeps_its_base_path() {
    let reader = FileReader::new("./chips");
    assert_eq!(reader.base_path(), "./chips");
}
