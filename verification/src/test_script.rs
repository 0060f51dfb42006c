//! Test scripts: their instructions, the literals they set, the table of
//! expected rows they are compared with, and the driver that runs them.

use crate::busmap::{maps_le, Bit, BusMap};
use crate::chip::{fail, find_port, port_position, Chip, Library, Port, PortShape};
use crate::netlist::NetlistView;
use crate::chip::spec_elaborate;
use crate::netlist::netlist_of;
use crate::simulator::{flaw, latched, simulation, Simulator};
use crate::text::{
    contains_char, fields, has_char, lines, split, split_lines, string_of, strip_blanks, views,
    without_blanks,
};
use crate::error::{ErrorKind, ErrorKindView, ErrorView, N2VError};
use crate::parser::{all_digits, lemma_number_value_grows, number_value};
use crate::scanner::chars_of;
use bitvec::field::BitField;
use bitvec::order::Msb0;
use bitvec::vec::BitVec;
use bitvec::view::BitView;
use vstd::prelude::*;
use vstd::string::*;

verus! {

/// A bit vector of the crate bitvec, `BitVec<u16, Msb0>`: over `u16` words,
/// the most significant bit of a word first. What it holds is known through
/// `bitvec_bits` alone.
#[verifier::external_body]
pub struct BitVector {
    bits: BitVec<u16, Msb0>,
}

/// The bits that a bit vector holds, the bit at index 0 first: what its
/// length and its indexing show.
pub uninterp spec fn bitvec_bits(bv: BitVector) -> Seq<bool>;

/// The `k`-th power of two.
pub open spec fn two_to(k: nat) -> nat
    decreases k,
{
    if k == 0 {
        1
    } else {
        2 * two_to((k - 1) as nat)
    }
}

/// Bit `k` of the two's complement of `n` in sixteen bits.
pub open spec fn bit_of(n: i16, k: nat) -> bool {
    let word = if n < 0 {
        n + 65536
    } else {
        n as int
    };
    (word / two_to(k) as int) % 2 == 1
}

/// The sixteen bits of `n` in two's complement, the most significant first.
pub open spec fn msb_first(n: i16) -> Seq<bool> {
    Seq::new(16, |i: int| bit_of(n, (15 - i) as nat))
}

/// Stores `num` in the sixteen bits of one `u16` with `BitField::store_le`
/// and hands the bits out with `BitSlice::to_bitvec`, both of the crate
/// bitvec. The bits are viewed in the order `Msb0`, so the vector holds the
/// two's complement of `num`, the most significant bit at index 0.
#[verifier::external_body]
fn bitvec_of_i16(num: i16) -> (bv: BitVector)
    ensures
        bitvec_bits(bv) == msb_first(num),
{
    let mut raw = [0u16; 1];
    raw.view_bits_mut::<Msb0>().store_le(num);
    BitVector { bits: raw.view_bits::<Msb0>().to_bitvec() }
}

/// Collects booleans into a bit vector with bitvec's `BitVec::from_iter`,
/// which pushes them in order: the vector holds exactly these bits.
#[verifier::external_body]
fn bitvec_of_bools(bools: Vec<bool>) -> (bv: BitVector)
    ensures
        bitvec_bits(bv) == bools@,
{
    BitVector { bits: BitVec::from_iter(bools) }
}

/// The number of bits of a bit vector, by bitvec's `BitSlice::len`.
#[verifier::external_body]
fn bitvec_len(bv: &BitVector) -> (n: usize)
    ensures
        n == bitvec_bits(*bv).len(),
{
    bv.bits.len()
}

/// The bit at index `i` of a bit vector, by bitvec's indexing, which panics
/// past the end.
#[verifier::external_body]
fn bitvec_bit(bv: &BitVector, i: usize) -> (b: bool)
    requires
        i < bitvec_bits(*bv).len(),
    ensures
        b == bitvec_bits(*bv)[i as int],
{
    bv.bits[i]
}


/// How the digits of a literal are read.
#[derive(Clone, Copy, PartialEq, Eq, Hash, Debug, Structural)]
pub enum NumberSystem {
    Binary,
    Decimal,
    Hex,
    String,
}

/// A literal of a test script: its digits and how to read them.
#[derive(Clone, Debug, PartialEq, Eq)]
pub struct InputValue {
    pub number_system: NumberSystem,
    pub value: String,
}

/// The mathematical value of an [`InputValue`].
pub struct InputValueView {
    pub number_system: NumberSystem,
    pub value: Seq<char>,
}

impl DeepView for InputValue {
    type V = InputValueView;

    open spec fn deep_view(&self) -> InputValueView {
        InputValueView { number_system: self.number_system, value: self.value@ }
    }
}

/// The number that a decimal literal writes: an optional sign, then digits,
/// and a value that sixteen bits hold in two's complement.
pub open spec fn decimal_of(s: Seq<char>) -> Option<i16> {
    let signed = s.len() > 0 && (s[0] == '-' || s[0] == '+');
    let negative = s.len() > 0 && s[0] == '-';
    let digits = if signed {
        s.subrange(1, s.len() as int)
    } else {
        s
    };
    if digits.len() == 0 || !all_digits(digits) {
        None
    } else if negative {
        if number_value(digits) <= 32768 {
            Some((0 - number_value(digits)) as i16)
        } else {
            None
        }
    } else if number_value(digits) <= 32767 {
        Some(number_value(digits) as i16)
    } else {
        None
    }
}

/// Every character of `s` is `0` or `1`.
pub open spec fn all_binary(s: Seq<char>) -> bool {
    forall|i: int| 0 <= i < s.len() ==> (#[trigger] s[i]) == '0' || s[i] == '1'
}

/// The bits of a literal, the most significant first: the sixteen bits of a
/// decimal literal in two's complement, one bit for each digit of a binary
/// literal. A literal that is not well formed is an error of kind `Other`;
/// the number systems `Hex` and `String` are not supported.
pub open spec fn spec_literal(v: InputValueView) -> Result<Seq<bool>, ErrorView> {
    match v.number_system {
        NumberSystem::Decimal => match decimal_of(v.value) {
            Some(n) => Ok(msb_first(n)),
            None => Err(fail(ErrorKindView::Other, v.value)),
        },
        NumberSystem::Binary => if all_binary(v.value) {
            Ok(Seq::new(v.value.len(), |i: int| v.value[i] == '1'))
        } else {
            Err(fail(ErrorKindView::Other, v.value))
        },
        NumberSystem::Hex => Err(fail(ErrorKindView::Unsupported, v.value)),
        NumberSystem::String => Err(fail(ErrorKindView::Unsupported, v.value)),
    }
}

fn parse_decimal(chars: &Vec<char>) -> (r: Option<i16>)
    ensures
        r == decimal_of(chars@),
{
    let n = chars.len();
    let signed = n > 0 && (chars[0] == '-' || chars[0] == '+');
    let negative = n > 0 && chars[0] == '-';
    let first: usize = if signed {
        1
    } else {
        0
    };
    let ghost digits = chars@.subrange(first as int, n as int);
    assert(!signed ==> digits =~= chars@);
    if first == n {
        return None;
    }
    let mut acc: u32 = 0;
    let mut i: usize = first;
    while i < n
        invariant
            first <= i <= n,
            n == chars@.len(),
            first < n,
            signed == (n > 0 && (chars@[0] == '-' || chars@[0] == '+')),
            first == if signed {
                1usize
            } else {
                0usize
            },
            digits == chars@.subrange(first as int, n as int),
            !signed ==> digits == chars@,
            acc == number_value(digits.subrange(0, i - first)),
            acc <= 32768,
            all_digits(digits.subrange(0, i - first)),
        decreases n - i,
    {
        let c = chars[i];
        assert(digits[i - first] == c);
        if !('0' <= c && c <= '9') {
            return None;
        }
        let d: u32 = c as u32 - '0' as u32;
        proof {
            assert(digits.subrange(0, i + 1 - first).drop_last() =~= digits.subrange(0, i - first));
            assert(digits.subrange(0, i + 1 - first).last() == c);
            lemma_number_value_grows(digits, i + 1 - first);
        }
        if acc * 10 + d > 32768 {
            return None;
        }
        acc = acc * 10 + d;
        i = i + 1;
    }
    assert(digits.subrange(0, n - first) =~= digits);
    if negative {
        if acc == 32768 {
            Some(i16::MIN)
        } else {
            Some(0 - (acc as i16))
        }
    } else if acc <= 32767 {
        Some(acc as i16)
    } else {
        None
    }
}

fn parse_binary(chars: &Vec<char>) -> (r: Option<Vec<bool>>)
    ensures
        match r {
            Some(bits) => all_binary(chars@) && bits@ == Seq::new(
                chars@.len(),
                |i: int| chars@[i] == '1',
            ),
            None => !all_binary(chars@),
        },
{
    let mut bits: Vec<bool> = Vec::new();
    let mut i: usize = 0;
    while i < chars.len()
        invariant
            i <= chars@.len(),
            bits@.len() == i,
            forall|j: int| 0 <= j < i ==> (#[trigger] chars@[j]) == '0' || chars@[j] == '1',
            forall|j: int| 0 <= j < i ==> bits@[j] == (chars@[j] == '1'),
        decreases chars@.len() - i,
    {
        let c = chars[i];
        if c == '1' {
            bits.push(true);
        } else if c == '0' {
            bits.push(false);
        } else {
            return None;
        }
        i = i + 1;
    }
    assert(bits@ =~= Seq::new(chars@.len(), |i: int| chars@[i] == '1'));
    Some(bits)
}

/// The bit vector of a literal, the most significant bit first.
pub fn test_input_to_bitvec(input: &InputValue) -> (r: Result<BitVector, N2VError>)
    ensures
        match spec_literal(input.deep_view()) {
            Ok(bits) => r is Ok && bitvec_bits(r->Ok_0) == bits,
            Err(e) => r is Err && r->Err_0@ == e,
        },
{
    match input.number_system {
        NumberSystem::Decimal => {
            let chars = chars_of(input.value.as_str());
            match parse_decimal(&chars) {
                Some(num) => Ok(bitvec_of_i16(num)),
                None => Err(N2VError { msg: input.value.clone(), kind: ErrorKind::Other }),
            }
        },
        NumberSystem::Binary => {
            let chars = chars_of(input.value.as_str());
            match parse_binary(&chars) {
                Some(bools) => Ok(bitvec_of_bools(bools)),
                None => Err(N2VError { msg: input.value.clone(), kind: ErrorKind::Other }),
            }
        },
        NumberSystem::Hex => Err(
            N2VError { msg: input.value.clone(), kind: ErrorKind::Unsupported },
        ),
        NumberSystem::String => Err(
            N2VError { msg: input.value.clone(), kind: ErrorKind::Unsupported },
        ),
    }
}

/// The bits of a bit vector as driven bits, in the same order.
pub fn bitvec_to_vecbool(bv: BitVector) -> (res: Vec<Option<bool>>)
    ensures
        res@ == Seq::new(bitvec_bits(bv).len(), |i: int| Some(bitvec_bits(bv)[i])),
{
    let mut res: Vec<Option<bool>> = Vec::new();
    let n = bitvec_len(&bv);
    let mut i: usize = 0;
    while i < n
        invariant
            i <= n,
            n == bitvec_bits(bv).len(),
            res@.len() == i,
            forall|j: int| 0 <= j < i ==> res@[j] == Some(bitvec_bits(bv)[j]),
        decreases n - i,
    {
        res.push(Some(bitvec_bit(&bv, i)));
        i = i + 1;
    }
    assert(res@ =~= Seq::new(bitvec_bits(bv).len(), |i: int| Some(bitvec_bits(bv)[i])));
    res
}

/// The bits `msb`, which come most significant first, as the `width` bits of
/// a bus, which come least significant first: bits beyond the width are cut
/// off at the most significant end, and a bus that is wider is filled up
/// there with `fill`.
pub open spec fn fitted(msb: Seq<bool>, width: nat, fill: bool) -> Seq<Bit> {
    Seq::new(
        width,
        |i: int|
            Some(
                if i < msb.len() {
                    msb[msb.len() - 1 - i]
                } else {
                    fill
                },
            ),
    )
}

/// Bit `i` of the two's complement of `n`, in however many bits.
pub open spec fn twos_bit(n: int, i: nat) -> bool {
    (n / two_to(i) as int) % 2 == 1
}

/// Powers of two multiply.
proof fn lemma_two_to_adds(a: nat, b: nat)
    ensures
        two_to(a + b) == two_to(a) * two_to(b),
        two_to(a) >= 1,
    decreases a,
{
    if a > 0 {
        lemma_two_to_adds((a - 1) as nat, b);
        assert(two_to(a + b) == 2 * two_to((a - 1 + b) as nat));
        assert(2 * (two_to((a - 1) as nat) * two_to(b)) == (2 * two_to((a - 1) as nat)) * two_to(b))
            by (nonlinear_arith);
    } else {
        assert(two_to(0) * two_to(b) == two_to(b)) by (nonlinear_arith)
            requires
                two_to(0) == 1,
        ;
    }
}

/// A decimal literal gives a bus the two's complement of its number, in as
/// many bits as the bus has: a narrow bus gets the low bits, a wide bus the
/// sign in its high bits.
pub proof fn law_decimal_is_twos_complement(n: i16, width: nat, i: int)
    requires
        0 <= i < width,
    ensures
        fitted(msb_first(n), width, fill_of(NumberSystem::Decimal, msb_first(n)))[i] == Some(
            twos_bit(n as int, i as nat),
        ),
{
    let d = two_to(i as nat) as int;
    lemma_two_to_adds(i as nat, 0);
    assert(two_to(16) == 65536) by {
        reveal_with_fuel(two_to, 17);
    }
    assert(two_to(15) == 32768) by {
        reveal_with_fuel(two_to, 16);
    }
    assert(msb_first(n)[0] == bit_of(n, 15));
    if i < 16 {
        assert(msb_first(n)[15 - i] == bit_of(n, i as nat));
        if n < 0 {
            let rest = (16 - i) as nat;
            lemma_two_to_adds(i as nat, rest);
            lemma_two_to_adds((rest - 1) as nat, 0);
            let j = two_to(rest) as int;
            assert(j == 2 * two_to((rest - 1) as nat));
            assert(j * d == 65536) by (nonlinear_arith)
                requires
                    d * j == 65536,
            ;
            vstd::arithmetic::div_mod::lemma_hoist_over_denominator(n as int, j, d as nat);
            let q = n as int / d;
            assert((q + j) % 2 == q % 2) by {
                vstd::arithmetic::div_mod::lemma_mod_multiples_vanish(
                    two_to((rest - 1) as nat) as int,
                    q,
                    2,
                );
                assert(2 * two_to((rest - 1) as nat) + q == q + j);
            }
        }
    } else {
        lemma_two_to_adds(16, (i - 16) as nat);
        lemma_two_to_adds((i - 16) as nat, 0);
        assert(d >= 65536) by (nonlinear_arith)
            requires
                d == 65536 * two_to((i - 16) as nat),
                two_to((i - 16) as nat) >= 1,
        ;
        if n < 0 {
            vstd::arithmetic::div_mod::lemma_fundamental_div_mod_converse(n as int, d, -1, n + d);
            assert((n + 65536) / 32768 == 1);
        } else {
            vstd::arithmetic::div_mod::lemma_basic_div(n as int, d);
            assert(n as int / 32768 == 0);
        }
    }
}

/// What a literal is filled up with: a decimal literal with its sign bit, a
/// binary literal with zero.
pub open spec fn fill_of(number_system: NumberSystem, msb: Seq<bool>) -> bool {
    number_system == NumberSystem::Decimal && msb.len() > 0 && msb[0]
}

/// The bits that a literal gives a bus of `width` bits, the least
/// significant first.
pub open spec fn spec_literal_bits(v: InputValueView, width: nat) -> Result<Seq<Bit>, ErrorView> {
    match spec_literal(v) {
        Ok(msb) => Ok(fitted(msb, width, fill_of(v.number_system, msb))),
        Err(e) => Err(e),
    }
}

/// The bits that a literal gives a bus of `width` bits, the least
/// significant first. A literal with more bits than the bus loses its most
/// significant bits; one with fewer is extended at the most significant end,
/// a decimal literal by its sign and a binary literal by zeros.
pub fn literal_bits(input: &InputValue, width: usize) -> (r: Result<Vec<Bit>, N2VError>)
    ensures
        match spec_literal_bits(input.deep_view(), width as nat) {
            Ok(bits) => r is Ok && r->Ok_0@ == bits,
            Err(e) => r is Err && r->Err_0@ == e,
        },
{
    let bv = match test_input_to_bitvec(input) {
        Ok(bv) => bv,
        Err(e) => {
            return Err(e);
        },
    };
    let ghost msb = bitvec_bits(bv);
    let bools = bitvec_to_vecbool(bv);
    let len = bools.len();
    let fill = match input.number_system {
        NumberSystem::Decimal => len > 0 && match bools[0] {
            Some(b) => b,
            None => false,
        },
        _ => false,
    };
    let mut bits: Vec<Bit> = Vec::new();
    let mut i: usize = 0;
    while i < width
        invariant
            i <= width,
            len == msb.len(),
            bools@ == Seq::new(msb.len(), |i: int| Some(msb[i])),
            bits@.len() == i,
            forall|j: int|
                0 <= j < i ==> bits@[j] == Some(
                    if j < msb.len() {
                        msb[msb.len() - 1 - j]
                    } else {
                        fill
                    },
                ),
        decreases width - i,
    {
        if i < len {
            bits.push(bools[len - 1 - i]);
        } else {
            bits.push(Some(fill));
        }
        i = i + 1;
    }
    assert(bits@ =~= fitted(msb, width as nat, fill));
    Ok(bits)
}


/// One column of the output list of a test script: the port it shows, how
/// its values are written, and how wide the column is.
#[derive(Clone, Debug, PartialEq, Eq)]
pub struct OutputFormat {
    pub port_name: String,
    pub number_system: NumberSystem,
    pub space_before: usize,
    pub output_columns: usize,
    pub space_after: usize,
}

/// One instruction of a test script.
#[derive(Clone, Debug, PartialEq, Eq)]
pub enum Instruction {
    SetInput(String, InputValue),
    Eval,
    Output,
    Tick,
    Tock,
}

/// The mathematical value of an [`Instruction`].
pub enum InstructionView {
    SetInput(Seq<char>, InputValueView),
    Eval,
    Output,
    Tick,
    Tock,
}

impl DeepView for Instruction {
    type V = InstructionView;

    open spec fn deep_view(&self) -> InstructionView {
        match *self {
            Instruction::SetInput(port, value) => InstructionView::SetInput(port@, value.deep_view()),
            Instruction::Eval => InstructionView::Eval,
            Instruction::Output => InstructionView::Output,
            Instruction::Tick => InstructionView::Tick,
            Instruction::Tock => InstructionView::Tock,
        }
    }
}

/// The instructions between two semicolons of a test script.
#[derive(Clone, Debug, PartialEq, Eq)]
pub struct Step {
    pub instructions: Vec<Instruction>,
}

impl DeepView for Step {
    type V = Seq<InstructionView>;

    open spec fn deep_view(&self) -> Seq<InstructionView> {
        self.instructions.deep_view()
    }
}

/// A parsed test script.
#[derive(Clone, Debug, PartialEq, Eq)]
pub struct TestScript {
    pub hdl_file: String,
    pub output_file: String,
    pub compare_file: String,
    pub output_list: Vec<OutputFormat>,
    pub steps: Vec<Step>,
    pub generics: Vec<usize>,
}

/// The mathematical value of an [`OutputFormat`].
pub struct FormatView {
    pub port_name: Seq<char>,
    pub number_system: NumberSystem,
    pub space_before: usize,
    pub output_columns: usize,
    pub space_after: usize,
}

impl DeepView for OutputFormat {
    type V = FormatView;

    open spec fn deep_view(&self) -> FormatView {
        FormatView {
            port_name: self.port_name@,
            number_system: self.number_system,
            space_before: self.space_before,
            output_columns: self.output_columns,
            space_after: self.space_after,
        }
    }
}

/// The mathematical value of a [`TestScript`].
pub struct ScriptView {
    pub hdl_file: Seq<char>,
    pub output_file: Seq<char>,
    pub compare_file: Seq<char>,
    pub output_list: Seq<FormatView>,
    pub steps: Seq<Seq<InstructionView>>,
    pub generics: Seq<usize>,
}

impl DeepView for TestScript {
    type V = ScriptView;

    open spec fn deep_view(&self) -> ScriptView {
        ScriptView {
            hdl_file: self.hdl_file@,
            output_file: self.output_file@,
            compare_file: self.compare_file@,
            output_list: self.output_list.deep_view(),
            steps: self.steps.deep_view(),
            generics: self.generics@,
        }
    }
}

/// The number systems of the columns of an output list.
pub open spec fn formats_of(list: Seq<OutputFormat>) -> Seq<NumberSystem> {
    Seq::new(list.len(), |i: int| list[i].number_system)
}

/// The maps that bus maps stand for.
pub open spec fn maps_of(v: Seq<BusMap>) -> Seq<Map<Seq<char>, Seq<Bit>>> {
    Seq::new(v.len(), |i: int| v[i]@)
}

/// The buses of one row of expected values, as the cells from the `i`-th on
/// add to `acc`. A column of the number system `String` and a cell with a
/// `*` in it expect nothing. Any other cell is a literal for the port that
/// the header names for its column, in the number system of its column of
/// the output list.
pub open spec fn spec_row(
    cells: Seq<Seq<char>>,
    i: int,
    formats: Seq<NumberSystem>,
    names: Seq<Seq<char>>,
    ports: Seq<PortShape>,
    acc: Map<Seq<char>, Seq<Bit>>,
) -> Result<Map<Seq<char>, Seq<Bit>>, ErrorView>
    decreases cells.len() - i,
{
    if i < 0 || i >= cells.len() {
        Ok(acc)
    } else if i >= formats.len() {
        Err(fail(ErrorKindView::Other, "A row has more columns than the output list."@))
    } else if formats[i] == NumberSystem::String || has_char(cells[i], '*') {
        spec_row(cells, i + 1, formats, names, ports, acc)
    } else {
        match spec_literal(InputValueView { number_system: formats[i], value: cells[i] }) {
            Err(e) => Err(e),
            Ok(msb) => if i >= names.len() {
                Err(fail(ErrorKindView::Other, "A row has more columns than the header line."@))
            } else {
                match port_position(ports, names[i], 0) {
                    None => Err(fail(ErrorKindView::Other, names[i])),
                    Some(p) => spec_row(
                        cells,
                        i + 1,
                        formats,
                        names,
                        ports,
                        acc.insert(
                            names[i],
                            fitted(msb, ports[p].width as nat, fill_of(formats[i], msb)),
                        ),
                    ),
                }
            },
        }
    }
}

/// The cells of a line of a table: what stands between its first and its
/// last character, without blanks, split at the bars.
pub open spec fn cells_of(line: Seq<char>) -> Seq<Seq<char>> {
    let row = without_blanks(line);
    fields(row.subrange(1, row.len() - 1), '|')
}

/// The rows of expected values of the lines from the `k`-th on, appended to
/// `acc`. Empty lines are skipped. Any other line must have three
/// characters or more besides its blanks.
pub open spec fn spec_rows(
    ls: Seq<Seq<char>>,
    k: int,
    formats: Seq<NumberSystem>,
    names: Seq<Seq<char>>,
    ports: Seq<PortShape>,
    acc: Seq<Map<Seq<char>, Seq<Bit>>>,
) -> Result<Seq<Map<Seq<char>, Seq<Bit>>>, ErrorView>
    decreases ls.len() - k,
{
    if k < 0 || k >= ls.len() {
        Ok(acc)
    } else if ls[k].len() == 0 {
        spec_rows(ls, k + 1, formats, names, ports, acc)
    } else if without_blanks(ls[k]).len() < 3 {
        Err(fail(ErrorKindView::Other, "A line of the compare file is too short."@))
    } else {
        match spec_row(cells_of(ls[k]), 0, formats, names, ports, Map::empty()) {
            Err(e) => Err(e),
            Ok(m) => spec_rows(ls, k + 1, formats, names, ports, acc.push(m)),
        }
    }
}

/// The rows of expected values that a table of the compare format holds.
/// Its first line is the header, `|name|name|…|`, which gives the order of
/// the ports; every line after it is a row in that order.
pub open spec fn spec_table(text: Seq<char>, formats: Seq<NumberSystem>, ports: Seq<PortShape>) -> Result<
    Seq<Map<Seq<char>, Seq<Bit>>>,
    ErrorView,
> {
    let ls = lines(text);
    if ls.len() == 0 || without_blanks(ls[0]).len() < 3 {
        Err(fail(ErrorKindView::Other, "The header line of the compare file is too short."@))
    } else {
        spec_rows(ls, 1, formats, cells_of(ls[0]), ports, Seq::empty())
    }
}

/// The result `r` is the outcome `want`.
pub open spec fn tabled(
    r: Result<Vec<BusMap>, N2VError>,
    want: Result<Seq<Map<Seq<char>, Seq<Bit>>>, ErrorView>,
) -> bool {
    match want {
        Ok(rows) => r is Ok && maps_of(r->Ok_0@) == rows,
        Err(e) => r is Err && r->Err_0@ == e,
    }
}

fn other(msg: &str) -> (e: N2VError)
    ensures
        e@ == fail(ErrorKindView::Other, msg@),
{
    N2VError { msg: String::from_str(msg), kind: ErrorKind::Other }
}

fn read_row(
    cells: &Vec<Vec<char>>,
    formats: &Vec<OutputFormat>,
    names: &Vec<Vec<char>>,
    ports: &Vec<Port>,
) -> (r: Result<BusMap, N2VError>)
    ensures
        match spec_row(
            views(cells@),
            0,
            formats_of(formats@),
            views(names@),
            ports.deep_view(),
            Map::empty(),
        ) {
            Ok(m) => r is Ok && r->Ok_0@ == m,
            Err(e) => r is Err && r->Err_0@ == e,
        },
{
    let mut row = BusMap::new();
    let mut i: usize = 0;
    while i < cells.len()
        invariant
            i <= cells@.len(),
            spec_row(
                views(cells@),
                i as int,
                formats_of(formats@),
                views(names@),
                ports.deep_view(),
                row@,
            ) == spec_row(
                views(cells@),
                0,
                formats_of(formats@),
                views(names@),
                ports.deep_view(),
                Map::empty(),
            ),
        decreases cells@.len() - i,
    {
        assert(views(cells@)[i as int] == cells@[i as int]@);
        if i >= formats.len() {
            return Err(other("A row has more columns than the output list."));
        }
        let number_system = formats[i].number_system;
        assert(formats_of(formats@)[i as int] == number_system);
        if number_system == NumberSystem::String || contains_char(&cells[i], '*') {
            i = i + 1;
            continue ;
        }
        let literal = InputValue { number_system, value: string_of(&cells[i], 0, cells[i].len()) };
        assert(cells@[i as int]@.subrange(0, cells@[i as int]@.len() as int) =~= cells@[i as int]@);
        if i >= names.len() {
            return match test_input_to_bitvec(&literal) {
                Ok(_) => Err(other("A row has more columns than the header line.")),
                Err(e) => Err(e),
            };
        }
        assert(views(names@)[i as int] == names@[i as int]@);
        let name = string_of(&names[i], 0, names[i].len());
        assert(names@[i as int]@.subrange(0, names@[i as int]@.len() as int) =~= names@[i as int]@);
        let p = match find_port(ports, &name) {
            Some(p) => p,
            None => {
                return match test_input_to_bitvec(&literal) {
                    Ok(_) => Err(N2VError { msg: name, kind: ErrorKind::Other }),
                    Err(e) => Err(e),
                };
            },
        };
        assert(ports.deep_view()[p as int] == ports@[p as int].deep_view());
        let bits = match literal_bits(&literal, ports[p].width) {
            Ok(bits) => bits,
            Err(e) => {
                return Err(e);
            },
        };
        row.put(name.as_str(), bits);
        i = i + 1;
    }
    Ok(row)
}

fn cells_in(line: &Vec<char>) -> (r: Vec<Vec<char>>)
    requires
        without_blanks(line@).len() >= 3,
    ensures
        views(r@) == cells_of(line@),
{
    let row = strip_blanks(line);
    split(&row, 1, row.len() - 1, '|')
}

fn read_rows(
    ls: &Vec<Vec<char>>,
    formats: &Vec<OutputFormat>,
    names: &Vec<Vec<char>>,
    ports: &Vec<Port>,
) -> (r: Result<Vec<BusMap>, N2VError>)
    ensures
        tabled(
            r,
            spec_rows(
                views(ls@),
                1,
                formats_of(formats@),
                views(names@),
                ports.deep_view(),
                Seq::empty(),
            ),
        ),
{
    let mut res: Vec<BusMap> = Vec::new();
    assert(maps_of(res@) =~= Seq::empty());
    let mut k: usize = 1;
    while k < ls.len()
        invariant
            1 <= k,
            spec_rows(
                views(ls@),
                k as int,
                formats_of(formats@),
                views(names@),
                ports.deep_view(),
                maps_of(res@),
            ) == spec_rows(
                views(ls@),
                1,
                formats_of(formats@),
                views(names@),
                ports.deep_view(),
                Seq::empty(),
            ),
        decreases ls@.len() - k,
    {
        let line = &ls[k];
        assert(views(ls@)[k as int] == line@);
        if line.len() == 0 {
            k = k + 1;
            continue ;
        }
        if strip_blanks(line).len() < 3 {
            return Err(other("A line of the compare file is too short."));
        }
        let cells = cells_in(line);
        let row = match read_row(&cells, formats, names, ports) {
            Ok(row) => row,
            Err(e) => {
                return Err(e);
            },
        };
        let ghost before = maps_of(res@);
        let ghost m = row@;
        res.push(row);
        assert(maps_of(res@) =~= before.push(m));
        k = k + 1;
    }
    Ok(res)
}

/// Reads a table of expected values in the compare format: one bus map for
/// each row, with a bus for each cell that expects something.
pub fn read_cmp(text: &str, test_script: &TestScript, ports: &Vec<Port>) -> (r: Result<
    Vec<BusMap>,
    N2VError,
>)
    ensures
        tabled(r, spec_table(text@, formats_of(test_script.output_list@), ports.deep_view())),
{
    let chars = chars_of(text);
    let ls = split_lines(&chars);
    if ls.len() == 0 {
        return Err(other("The header line of the compare file is too short."));
    }
    let header = first_line(&ls);
    if strip_blanks(header).len() < 3 {
        return Err(other("The header line of the compare file is too short."));
    }
    let names = cells_in(header);
    read_rows(&ls, &test_script.output_list, &names, ports)
}

fn first_line(ls: &Vec<Vec<char>>) -> (line: &Vec<char>)
    requires
        ls@.len() > 0,
    ensures
        line@ == views(ls@)[0],
{
    &ls[0]
}


/// Where a run stands: the bits that the DFFs store, the values of the nets
/// after the last simulation, the inputs that were set, the outputs of the
/// last simulation of this step, the row of expected values that comes
/// next, and the rows that did not match so far.
pub struct RunState {
    pub cells: Seq<bool>,
    pub nets: Seq<Bit>,
    pub inputs: Map<Seq<char>, Seq<Bit>>,
    pub outputs: Map<Seq<char>, Seq<Bit>>,
    pub row: usize,
    pub failures: Seq<usize>,
}

/// The state after one instruction.
///
/// `set` gives an input port the bits of a literal, fitted to the width of
/// the port. `eval` and `tick` simulate and keep the outputs. `tock` lets
/// the DFFs store their inputs and then simulates. `output` compares the
/// outputs with the next row of expected values: every bit that the row
/// expects must be driven to that value; a row that does not match is
/// counted and the run goes on.
pub open spec fn spec_instruction(
    nl: NetlistView,
    ports: Seq<PortShape>,
    expected: Seq<Map<Seq<char>, Seq<Bit>>>,
    instruction: InstructionView,
    st: RunState,
) -> Result<RunState, ErrorView> {
    match instruction {
        InstructionView::SetInput(port, value) => match port_position(ports, port, 0) {
            None => Err(fail(ErrorKindView::UnknownPort, port)),
            Some(p) => match spec_literal_bits(value, ports[p].width as nat) {
                Err(e) => Err(e),
                Ok(bits) => Ok(RunState { inputs: st.inputs.insert(port, bits), ..st }),
            },
        },
        InstructionView::Eval | InstructionView::Tick => match simulation(
            nl,
            ports,
            st.cells,
            st.inputs,
        ) {
            Err(e) => Err(e),
            Ok((buses, nets)) => Ok(RunState { outputs: buses, nets, ..st }),
        },
        InstructionView::Tock => {
            let cells = latched(nl.gates, st.nets, st.cells, 0);
            match simulation(nl, ports, cells, st.inputs) {
                Err(e) => Err(e),
                Ok((buses, nets)) => Ok(RunState { cells, outputs: buses, nets, ..st }),
            }
        },
        InstructionView::Output => if st.row >= expected.len() {
            Err(fail(ErrorKindView::Other, "The compare file has no row left."@))
        } else {
            Ok(
                RunState {
                    row: (st.row + 1) as usize,
                    failures: if maps_le(expected[st.row as int], st.outputs) {
                        st.failures
                    } else {
                        st.failures.push(st.row)
                    },
                    ..st
                },
            )
        },
    }
}

/// The state after the instructions from the `i`-th on.
pub open spec fn spec_instructions(
    nl: NetlistView,
    ports: Seq<PortShape>,
    expected: Seq<Map<Seq<char>, Seq<Bit>>>,
    instructions: Seq<InstructionView>,
    i: int,
    st: RunState,
) -> Result<RunState, ErrorView>
    decreases instructions.len() - i,
{
    if i < 0 || i >= instructions.len() {
        Ok(st)
    } else {
        match spec_instruction(nl, ports, expected, instructions[i], st) {
            Err(e) => Err(e),
            Ok(st2) => spec_instructions(nl, ports, expected, instructions, i + 1, st2),
        }
    }
}

/// The state after the steps from the `k`-th on. Each step starts without
/// outputs.
pub open spec fn spec_steps(
    nl: NetlistView,
    ports: Seq<PortShape>,
    expected: Seq<Map<Seq<char>, Seq<Bit>>>,
    steps: Seq<Seq<InstructionView>>,
    k: int,
    st: RunState,
) -> Result<RunState, ErrorView>
    decreases steps.len() - k,
{
    if k < 0 || k >= steps.len() {
        Ok(st)
    } else {
        match spec_instructions(
            nl,
            ports,
            expected,
            steps[k],
            0,
            RunState { outputs: Map::empty(), ..st },
        ) {
            Err(e) => Err(e),
            Ok(st2) => spec_steps(nl, ports, expected, steps, k + 1, st2),
        }
    }
}

/// What the driver holds while it runs a script.
struct Run {
    inputs: BusMap,
    outputs: BusMap,
    row: usize,
    failures: Vec<usize>,
}

impl Run {
    spec fn state(&self, simulator: &Simulator) -> RunState {
        RunState {
            cells: simulator.cells(),
            nets: simulator.nets(),
            inputs: self.inputs@,
            outputs: self.outputs@,
            row: self.row,
            failures: self.failures@,
        }
    }
}

fn run_instruction(
    instruction: &Instruction,
    simulator: &mut Simulator,
    expected: &Vec<BusMap>,
    run: &mut Run,
) -> (r: Result<(), N2VError>)
    ensures
        final(simulator).netlist() == old(simulator).netlist(),
        final(simulator).ports() == old(simulator).ports(),
        match spec_instruction(
            old(simulator).netlist(),
            old(simulator).ports(),
            maps_of(expected@),
            instruction.deep_view(),
            old(run).state(old(simulator)),
        ) {
            Ok(st) => r is Ok && final(run).state(final(simulator)) == st,
            Err(e) => r is Err && r->Err_0@ == e,
        },
{
    match instruction {
        Instruction::SetInput(port, value) => {
            let ports = simulator.port_list();
            let p = match find_port(ports, port) {
                Some(p) => p,
                None => {
                    return Err(N2VError { msg: port.clone(), kind: ErrorKind::UnknownPort });
                },
            };
            assert(ports.deep_view()[p as int] == ports@[p as int].deep_view());
            let bits = match literal_bits(value, ports[p].width) {
                Ok(bits) => bits,
                Err(e) => {
                    return Err(e);
                },
            };
            run.inputs.put(port.as_str(), bits);
            Ok(())
        },
        Instruction::Eval | Instruction::Tick => {
            match simulator.simulate(&run.inputs) {
                Ok(buses) => {
                    run.outputs = buses;
                    Ok(())
                },
                Err(e) => Err(e),
            }
        },
        Instruction::Tock => {
            match simulator.step(&run.inputs) {
                Ok(buses) => {
                    run.outputs = buses;
                    Ok(())
                },
                Err(e) => Err(e),
            }
        },
        Instruction::Output => {
            if run.row >= expected.len() {
                return Err(other("The compare file has no row left."));
            }
            assert(maps_of(expected@)[run.row as int] == expected@[run.row as int]@);
            if !expected[run.row].partial_le(&run.outputs) {
                run.failures.push(run.row);
            }
            run.row = run.row + 1;
            Ok(())
        },
    }
}

fn run_step(step: &Step, simulator: &mut Simulator, expected: &Vec<BusMap>, run: &mut Run) -> (r:
    Result<(), N2VError>)
    ensures
        final(simulator).netlist() == old(simulator).netlist(),
        final(simulator).ports() == old(simulator).ports(),
        match spec_instructions(
            old(simulator).netlist(),
            old(simulator).ports(),
            maps_of(expected@),
            step.deep_view(),
            0,
            RunState { outputs: Map::empty(), ..old(run).state(old(simulator)) },
        ) {
            Ok(st) => r is Ok && final(run).state(final(simulator)) == st,
            Err(e) => r is Err && r->Err_0@ == e,
        },
{
    run.outputs = BusMap::new();
    let mut i: usize = 0;
    while i < step.instructions.len()
        invariant
            i <= step.instructions@.len(),
            simulator.netlist() == old(simulator).netlist(),
            simulator.ports() == old(simulator).ports(),
            spec_instructions(
                simulator.netlist(),
                simulator.ports(),
                maps_of(expected@),
                step.deep_view(),
                i as int,
                run.state(simulator),
            ) == spec_instructions(
                old(simulator).netlist(),
                old(simulator).ports(),
                maps_of(expected@),
                step.deep_view(),
                0,
                RunState { outputs: Map::empty(), ..old(run).state(old(simulator)) },
            ),
        decreases step.instructions@.len() - i,
    {
        assert(step.deep_view()[i as int] == step.instructions@[i as int].deep_view());
        match run_instruction(&step.instructions[i], simulator, expected, run) {
            Ok(()) => {},
            Err(e) => {
                return Err(e);
            },
        }
        i = i + 1;
    }
    Ok(())
}

/// The state that a run starts from: nothing set, nothing simulated, the
/// first row next.
pub open spec fn first_state(cells: Seq<bool>, nets: Seq<Bit>) -> RunState {
    RunState {
        cells,
        nets,
        inputs: Map::empty(),
        outputs: Map::empty(),
        row: 0,
        failures: Seq::empty(),
    }
}

/// Runs the steps of a test script on a simulator and compares its outputs
/// with the rows `expected`. Hands out the rows that did not match, by
/// their position; any error other than a row that does not match ends the
/// run at once.
pub fn run_script(script: &TestScript, simulator: &mut Simulator, expected: &Vec<BusMap>) -> (r:
    Result<Vec<usize>, N2VError>)
    ensures
        final(simulator).netlist() == old(simulator).netlist(),
        final(simulator).ports() == old(simulator).ports(),
        match spec_steps(
            old(simulator).netlist(),
            old(simulator).ports(),
            maps_of(expected@),
            script.steps.deep_view(),
            0,
            first_state(old(simulator).cells(), old(simulator).nets()),
        ) {
            Ok(st) => r is Ok && r->Ok_0@ == st.failures && final(simulator).cells() == st.cells
                && final(simulator).nets() == st.nets,
            Err(e) => r is Err && r->Err_0@ == e,
        },
{
    let mut run = Run { inputs: BusMap::new(), outputs: BusMap::new(), row: 0, failures: Vec::new() };
    let mut k: usize = 0;
    while k < script.steps.len()
        invariant
            k <= script.steps@.len(),
            simulator.netlist() == old(simulator).netlist(),
            simulator.ports() == old(simulator).ports(),
            spec_steps(
                simulator.netlist(),
                simulator.ports(),
                maps_of(expected@),
                script.steps.deep_view(),
                k as int,
                run.state(simulator),
            ) == spec_steps(
                old(simulator).netlist(),
                old(simulator).ports(),
                maps_of(expected@),
                script.steps.deep_view(),
                0,
                first_state(old(simulator).cells(), old(simulator).nets()),
            ),
        decreases script.steps@.len() - k,
    {
        assert(script.steps.deep_view()[k as int] == script.steps@[k as int].deep_view());
        match run_step(&script.steps[k], simulator, expected, &mut run) {
            Ok(()) => {},
            Err(e) => {
                return Err(e);
            },
        }
        k = k + 1;
    }
    Ok(run.failures)
}


/// The file name ends in `.hdl`.
pub open spec fn has_hdl_ending(file: Seq<char>) -> bool {
    &&& file.len() >= 4
    &&& file[file.len() - 4] == '.'
    &&& file[file.len() - 3] == 'h'
    &&& file[file.len() - 2] == 'd'
    &&& file[file.len() - 1] == 'l'
}

/// The chip that an HDL file defines: the file name without `.hdl`.
pub open spec fn chip_name(file: Seq<char>) -> Seq<char> {
    if has_hdl_ending(file) {
        file.subrange(0, file.len() - 4)
    } else {
        file
    }
}

/// The chip that the HDL file `file` defines.
pub fn chip_of_file(file: &str) -> (name: String)
    ensures
        name@ == chip_name(file@),
{
    let chars = chars_of(file);
    let n = chars.len();
    if n >= 4 && chars[n - 4] == '.' && chars[n - 3] == 'h' && chars[n - 2] == 'd' && chars[n - 1]
        == 'l' {
        string_of(&chars, 0, n - 4)
    } else {
        assert(chars@.subrange(0, n as int) =~= chars@);
        string_of(&chars, 0, n)
    }
}

/// The state of a simulator that has not run yet: every DFF stores 0, and
/// every net is undriven.
pub open spec fn fresh_state(nl: NetlistView) -> RunState {
    first_state(
        crate::simulator::zero_cells(nl.cells as nat),
        crate::busmap::undriven(nl.nets as nat),
    )
}

/// The rows that do not match in a test: the chip of the script is
/// elaborated from the library with the generic values of the script, its
/// netlist must have no flaw, the table of expected rows is read for its
/// ports, and the steps are run.
pub open spec fn spec_failed_rows(
    hdl_file: Seq<char>,
    generics: Seq<usize>,
    formats: Seq<NumberSystem>,
    steps: Seq<Seq<InstructionView>>,
    lib: Seq<crate::parser::ChipView>,
    table: Seq<char>,
) -> Result<Seq<usize>, ErrorView> {
    match spec_elaborate(lib, chip_name(hdl_file), generics) {
        Err(e) => Err(e),
        Ok(design) => {
            let nl = netlist_of(design);
            let ports = design.last().ports;
            match flaw(nl, ports) {
                Some(kind) => Err(fail(kind, design.last().name)),
                None => match spec_table(table, formats, ports) {
                    Err(e) => Err(e),
                    Ok(rows) => match spec_steps(nl, ports, rows, steps, 0, fresh_state(nl)) {
                        Err(e) => Err(e),
                        Ok(st) => Ok(st.failures),
                    },
                },
            }
        },
    }
}

/// The outcome of a test: it fails with `ComparatorMismatch` where a row
/// did not match, and with the error that ended it where one did.
pub open spec fn spec_test(
    hdl_file: Seq<char>,
    generics: Seq<usize>,
    formats: Seq<NumberSystem>,
    steps: Seq<Seq<InstructionView>>,
    lib: Seq<crate::parser::ChipView>,
    table: Seq<char>,
) -> Result<(), ErrorView> {
    match spec_failed_rows(hdl_file, generics, formats, steps, lib, table) {
        Err(e) => Err(e),
        Ok(failures) => if failures.len() > 0 {
            Err(fail(ErrorKindView::ComparatorMismatch, "Test failed."@))
        } else {
            Ok(())
        },
    }
}

/// Runs a test script and hands out the rows that did not match, by their
/// position in the table: elaborates the chip of the script from `library`,
/// simulates its steps, and compares the outputs with the rows of `table`,
/// the text of its compare file.
pub fn failed_rows(test_script: &TestScript, library: &Library, table: &str) -> (r: Result<
    Vec<usize>,
    N2VError,
>)
    ensures
        match spec_failed_rows(
            test_script.hdl_file@,
            test_script.generics@,
            formats_of(test_script.output_list@),
            test_script.steps.deep_view(),
            library@,
            table@,
        ) {
            Ok(failures) => r is Ok && r->Ok_0@ == failures,
            Err(e) => r is Err && r->Err_0@ == e,
        },
{
    let name = chip_of_file(test_script.hdl_file.as_str());
    let chip = match Chip::new(library, name.as_str(), &test_script.generics) {
        Ok(chip) => chip,
        Err(e) => {
            return Err(e);
        },
    };
    let mut simulator = match Simulator::new(chip) {
        Ok(simulator) => simulator,
        Err(e) => {
            return Err(e);
        },
    };
    let expected = match read_cmp(table, test_script, simulator.port_list()) {
        Ok(rows) => rows,
        Err(e) => {
            return Err(e);
        },
    };
    run_script(test_script, &mut simulator, &expected)
}

/// Runs a test script. The test fails where a row of `table`, the text of
/// its compare file, did not match.
pub fn run_test(test_script: &TestScript, library: &Library, table: &str) -> (r: Result<(), N2VError>)
    ensures
        match spec_test(
            test_script.hdl_file@,
            test_script.generics@,
            formats_of(test_script.output_list@),
            test_script.steps.deep_view(),
            library@,
            table@,
        ) {
            Ok(()) => r is Ok,
            Err(e) => r is Err && r->Err_0@ == e,
        },
{
    let failures = match failed_rows(test_script, library, table) {
        Ok(failures) => failures,
        Err(e) => {
            return Err(e);
        },
    };
    if failures.len() > 0 {
        Err(N2VError { msg: String::from_str("Test failed."), kind: ErrorKind::ComparatorMismatch })
    } else {
        Ok(())
    }
}

} // verus!
