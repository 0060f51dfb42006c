//! The parser of test scripts.
//!
//! A script is a list of commands. A comma ends a command, a semicolon ends
//! a command and the step it belongs to. `load`, `output-file`,
//! `compare-to` and `output-list` describe the test; `set`, `eval`, `tick`,
//! `tock` and `output` are the instructions of its steps.

use crate::error::{parse_failure, N2VError};
use crate::parser::{
    agrees, fail, number_of, parse_number, unexpected, yields, Input, Parsed,
};
use crate::scanner::{eof_token, script_tokens, Scanner, Token, TokenType, TokenView};
use crate::test_script::{
    FormatView, InputValue, InputValueView, Instruction, InstructionView, NumberSystem,
    OutputFormat, ScriptView, Step, TestScript,
};
use crate::text::{fields, split, string_of, views};
use vstd::prelude::*;
use vstd::string::*;

verus! {

/// The number system that a letter stands for.
pub open spec fn system_of(c: char) -> Option<NumberSystem> {
    if c == 'B' {
        Some(NumberSystem::Binary)
    } else if c == 'D' {
        Some(NumberSystem::Decimal)
    } else if c == 'X' {
        Some(NumberSystem::Hex)
    } else if c == 'S' {
        Some(NumberSystem::String)
    } else {
        None
    }
}

/// The literal that a word writes: the letter of a number system, `B`, `D`,
/// `X` or `S`, with or without a `%` before it, and then the digits; or
/// digits alone, which are decimal.
pub open spec fn literal_of(w: Seq<char>) -> Option<InputValueView> {
    let marked = w.len() >= 1 && w[0] == '%';
    let body = if marked {
        w.subrange(1, w.len() as int)
    } else {
        w
    };
    if body.len() >= 1 && system_of(body[0]) is Some {
        Some(
            InputValueView {
                number_system: system_of(body[0])->Some_0,
                value: body.subrange(1, body.len() as int),
            },
        )
    } else if marked {
        None
    } else {
        Some(InputValueView { number_system: NumberSystem::Decimal, value: w })
    }
}

/// The column that a word of an output list describes: `name%Fa.b.c` with
/// the letter `F` of a number system and three numbers.
pub open spec fn column_of(w: Seq<char>) -> Option<FormatView> {
    let parts = fields(w, '%');
    if parts.len() != 2 || parts[1].len() == 0 {
        None
    } else {
        let dims = fields(parts[1].subrange(1, parts[1].len() as int), '.');
        match system_of(parts[1][0]) {
            None => None,
            Some(number_system) => if dims.len() != 3 {
                None
            } else {
                match (number_of(dims[0]), number_of(dims[1]), number_of(dims[2])) {
                    (Some(a), Some(b), Some(c)) => Some(
                        FormatView {
                            port_name: parts[0],
                            number_system,
                            space_before: a,
                            output_columns: b,
                            space_after: c,
                        },
                    ),
                    _ => None,
                }
            },
        }
    }
}

/// One word.
pub open spec fn spec_word(inp: Input) -> Parsed<TokenView> {
    if inp.kind() == TokenType::Identifier {
        Parsed::Done(inp.first(), inp.rest())
    } else {
        Parsed::Failed(unexpected(inp, "a word"@))
    }
}

/// The numbers that follow, appended to `acc`: every word up to the next
/// comma or semicolon.
pub open spec fn spec_numbers(inp: Input, acc: Seq<usize>) -> Parsed<Seq<usize>>
    decreases inp.tokens.len(),
{
    if inp.kind() == TokenType::Identifier {
        match number_of(inp.first().lexeme) {
            Some(n) => spec_numbers(inp.rest(), acc.push(n)),
            None => Parsed::Failed(parse_failure(inp.first(), "Expected a number."@)),
        }
    } else {
        Parsed::Done(acc, inp)
    }
}

/// The columns that follow, appended to `acc`: every word up to the next
/// comma or semicolon.
pub open spec fn spec_columns(inp: Input, acc: Seq<FormatView>) -> Parsed<Seq<FormatView>>
    decreases inp.tokens.len(),
{
    if inp.kind() == TokenType::Identifier {
        match column_of(inp.first().lexeme) {
            Some(c) => spec_columns(inp.rest(), acc.push(c)),
            None => Parsed::Failed(parse_failure(inp.first(), "Expected a column."@)),
        }
    } else {
        Parsed::Done(acc, inp)
    }
}

/// What parsing has gathered: the script so far and the instructions of the
/// step that is open.
pub struct Gathered {
    pub script: ScriptView,
    pub step: Seq<InstructionView>,
}

impl Gathered {
    /// With one more instruction in the open step.
    pub open spec fn with(self, i: InstructionView) -> Gathered {
        Gathered { step: self.step.push(i), ..self }
    }

    /// With the open step closed: it joins the steps unless it is empty.
    pub open spec fn closed(self) -> Gathered {
        if self.step.len() > 0 {
            Gathered {
                script: ScriptView { steps: self.script.steps.push(self.step), ..self.script },
                step: Seq::empty(),
            }
        } else {
            self
        }
    }
}

/// One command: `load` with a file and, behind it, the values of the
/// generic declarations of its chip; `output-file` and `compare-to` with a
/// file; `output-list` with its columns; `set` with a port and a literal;
/// `eval`, `tick`, `tock` and `output` alone.
#[verifier::opaque]
pub open spec fn spec_command(inp: Input, g: Gathered) -> Parsed<Gathered> {
    let w = inp.first().lexeme;
    let r = inp.rest();
    if inp.kind() != TokenType::Identifier {
        Parsed::Failed(unexpected(inp, "an instruction"@))
    } else if w == "load"@ {
        match spec_word(r) {
            Parsed::Failed(e) => Parsed::Failed(e),
            Parsed::Done(file, r2) => match spec_numbers(r2, Seq::empty()) {
                Parsed::Failed(e) => Parsed::Failed(e),
                Parsed::Done(generics, r3) => Parsed::Done(
                    Gathered {
                        script: ScriptView { hdl_file: file.lexeme, generics, ..g.script },
                        ..g
                    },
                    r3,
                ),
            },
        }
    } else if w == "output-file"@ {
        match spec_word(r) {
            Parsed::Failed(e) => Parsed::Failed(e),
            Parsed::Done(file, r2) => Parsed::Done(
                Gathered { script: ScriptView { output_file: file.lexeme, ..g.script }, ..g },
                r2,
            ),
        }
    } else if w == "compare-to"@ {
        match spec_word(r) {
            Parsed::Failed(e) => Parsed::Failed(e),
            Parsed::Done(file, r2) => Parsed::Done(
                Gathered { script: ScriptView { compare_file: file.lexeme, ..g.script }, ..g },
                r2,
            ),
        }
    } else if w == "output-list"@ {
        match spec_columns(r, Seq::empty()) {
            Parsed::Failed(e) => Parsed::Failed(e),
            Parsed::Done(columns, r2) => Parsed::Done(
                Gathered { script: ScriptView { output_list: columns, ..g.script }, ..g },
                r2,
            ),
        }
    } else if w == "set"@ {
        match spec_word(r) {
            Parsed::Failed(e) => Parsed::Failed(e),
            Parsed::Done(port, r2) => match spec_word(r2) {
                Parsed::Failed(e) => Parsed::Failed(e),
                Parsed::Done(value, r3) => match literal_of(value.lexeme) {
                    None => Parsed::Failed(parse_failure(value, "Expected a literal."@)),
                    Some(literal) => Parsed::Done(
                        g.with(InstructionView::SetInput(port.lexeme, literal)),
                        r3,
                    ),
                },
            },
        }
    } else if w == "eval"@ {
        Parsed::Done(g.with(InstructionView::Eval), r)
    } else if w == "tick"@ {
        Parsed::Done(g.with(InstructionView::Tick), r)
    } else if w == "tock"@ {
        Parsed::Done(g.with(InstructionView::Tock), r)
    } else if w == "output"@ {
        Parsed::Done(g.with(InstructionView::Output), r)
    } else {
        Parsed::Failed(unexpected(inp, "an instruction"@))
    }
}

proof fn lemma_numbers_not_longer(inp: Input, acc: Seq<usize>)
    ensures
        crate::parser::not_longer(spec_numbers(inp, acc), inp),
    decreases inp.tokens.len(),
{
    if inp.kind() == TokenType::Identifier {
        match number_of(inp.first().lexeme) {
            Some(n) => {
                lemma_numbers_not_longer(inp.rest(), acc.push(n));
            },
            None => {},
        }
    }
}

proof fn lemma_columns_not_longer(inp: Input, acc: Seq<FormatView>)
    ensures
        crate::parser::not_longer(spec_columns(inp, acc), inp),
    decreases inp.tokens.len(),
{
    if inp.kind() == TokenType::Identifier {
        match column_of(inp.first().lexeme) {
            Some(c) => {
                lemma_columns_not_longer(inp.rest(), acc.push(c));
            },
            None => {},
        }
    }
}

proof fn lemma_command_shorter(inp: Input, g: Gathered)
    ensures
        crate::parser::shorter(spec_command(inp, g), inp),
{
    reveal(spec_command);
    lemma_numbers_not_longer(inp.rest().rest(), Seq::empty());
    lemma_columns_not_longer(inp.rest(), Seq::empty());
}

/// The commands of a script, each ended by a comma or a semicolon, up to
/// the end of the text. A step that the text leaves open is closed.
pub open spec fn spec_script(inp: Input, g: Gathered) -> Parsed<ScriptView>
    decreases inp.tokens.len(),
    via spec_script_decreases
{
    if inp.ended() {
        Parsed::Done(g.closed().script, inp)
    } else {
        match spec_command(inp, g) {
            Parsed::Failed(e) => Parsed::Failed(e),
            Parsed::Done(g2, r) => if r.kind() == TokenType::Comma {
                spec_script(r.rest(), g2)
            } else if r.kind() == TokenType::Semicolon {
                spec_script(r.rest(), g2.closed())
            } else {
                Parsed::Failed(unexpected(r, "`,` or `;`"@))
            },
        }
    }
}

#[via_fn]
proof fn spec_script_decreases(inp: Input, g: Gathered) {
    lemma_command_shorter(inp, g);
}

/// The script without anything in it.
pub open spec fn empty_script() -> Gathered {
    Gathered {
        script: ScriptView {
            hdl_file: Seq::empty(),
            output_file: Seq::empty(),
            compare_file: Seq::empty(),
            output_list: Seq::empty(),
            steps: Seq::empty(),
            generics: Seq::empty(),
        },
        step: Seq::empty(),
    }
}

/// The outcome of parsing the text `source`, which was read from `path`, as
/// a test script.
pub open spec fn parse_script_text(source: Seq<char>, path: Seq<char>) -> Parsed<ScriptView> {
    spec_script(
        Input { tokens: script_tokens(source, path, 0), eof: eof_token(source, path) },
        empty_script(),
    )
}

fn system_for(c: char) -> (r: Option<NumberSystem>)
    ensures
        r == system_of(c),
{
    if c == 'B' {
        Some(NumberSystem::Binary)
    } else if c == 'D' {
        Some(NumberSystem::Decimal)
    } else if c == 'X' {
        Some(NumberSystem::Hex)
    } else if c == 'S' {
        Some(NumberSystem::String)
    } else {
        None
    }
}

fn literal_for(word: &str) -> (r: Option<InputValue>)
    ensures
        match r {
            Some(v) => literal_of(word@) == Some(v.deep_view()),
            None => literal_of(word@) is None,
        },
{
    let chars = crate::scanner::chars_of(word);
    let n = chars.len();
    let marked = n >= 1 && chars[0] == '%';
    let first: usize = if marked {
        1
    } else {
        0
    };
    let ghost body = if marked {
        chars@.subrange(1, n as int)
    } else {
        chars@
    };
    if first < n {
        assert(body[0] == chars@[first as int]);
        match system_for(chars[first]) {
            Some(number_system) => {
                assert(body.subrange(1, body.len() as int) =~= chars@.subrange(
                    first + 1,
                    n as int,
                ));
                return Some(InputValue { number_system, value: string_of(&chars, first + 1, n) });
            },
            None => {},
        }
    }
    if marked {
        None
    } else {
        Some(InputValue { number_system: NumberSystem::Decimal, value: String::from_str(word) })
    }
}

fn number_in(chars: &Vec<char>) -> (r: Option<usize>)
    ensures
        r == number_of(chars@),
{
    assert(chars@.subrange(0, chars@.len() as int) =~= chars@);
    let s = string_of(chars, 0, chars.len());
    parse_number(s.as_str())
}

fn column_for(word: &str) -> (r: Option<OutputFormat>)
    ensures
        match r {
            Some(c) => column_of(word@) == Some(c.deep_view()),
            None => column_of(word@) is None,
        },
{
    let chars = crate::scanner::chars_of(word);
    assert(chars@.subrange(0, chars@.len() as int) =~= chars@);
    let parts = split(&chars, 0, chars.len(), '%');
    if parts.len() != 2 {
        return None;
    }
    assert(views(parts@)[0] == parts@[0]@);
    assert(views(parts@)[1] == parts@[1]@);
    let spec = &parts[1];
    if spec.len() == 0 {
        return None;
    }
    let dims = split(spec, 1, spec.len(), '.');
    let number_system = match system_for(spec[0]) {
        Some(ns) => ns,
        None => {
            return None;
        },
    };
    if dims.len() != 3 {
        return None;
    }
    assert(views(dims@)[0] == dims@[0]@);
    assert(views(dims@)[1] == dims@[1]@);
    assert(views(dims@)[2] == dims@[2]@);
    let a = number_in(&dims[0]);
    let b = number_in(&dims[1]);
    let c = number_in(&dims[2]);
    match (a, b, c) {
        (Some(a), Some(b), Some(c)) => {
            assert(parts@[0]@.subrange(0, parts@[0]@.len() as int) =~= parts@[0]@);
            Some(
                OutputFormat {
                    port_name: string_of(&parts[0], 0, parts[0].len()),
                    number_system,
                    space_before: a,
                    output_columns: b,
                    space_after: c,
                },
            )
        },
        _ => None,
    }
}

/// The tokens of a text with a place in them.
struct Words {
    tokens: Vec<Token>,
    pos: usize,
    eof: Token,
}

impl Words {
    spec fn input(&self) -> Input {
        Input { tokens: self.tokens.deep_view().skip(self.pos as int), eof: self.eof@ }
    }

    spec fn wf(&self) -> bool {
        self.pos <= self.tokens@.len()
    }

    fn kind(&self) -> (k: TokenType)
        requires
            self.wf(),
        ensures
            k == self.input().kind(),
    {
        if self.pos < self.tokens.len() {
            assert(self.tokens.deep_view()[self.pos as int] == self.tokens@[self.pos as int]@);
            self.tokens[self.pos].token_type
        } else {
            TokenType::Eof
        }
    }

    fn advance(&mut self) -> (t: (Token, bool))
        requires
            old(self).wf(),
        ensures
            final(self).wf(),
            t.0@ == old(self).input().first(),
            t.1 == !old(self).input().ended(),
            final(self).input() == old(self).input().rest(),
    {
        if self.pos < self.tokens.len() {
            assert(self.tokens.deep_view()[self.pos as int] == self.tokens@[self.pos as int]@);
            let t = self.tokens[self.pos].clone();
            self.pos = self.pos + 1;
            assert(self.tokens.deep_view().skip(self.pos as int) =~= old(self).input().tokens.drop_first());
            (t, true)
        } else {
            (self.eof.clone(), false)
        }
    }
}

fn word(words: &mut Words) -> (r: Result<Token, N2VError>)
    requires
        old(words).wf(),
    ensures
        final(words).wf(),
        agrees(r, final(words).input(), spec_word(old(words).input())),
{
    let (t, present) = words.advance();
    if present && t.token_type == TokenType::Identifier {
        Ok(t)
    } else {
        Err(fail(t, present, "a word"))
    }
}

fn numbers(words: &mut Words) -> (r: Result<Vec<usize>, N2VError>)
    requires
        old(words).wf(),
    ensures
        final(words).wf(),
        match spec_numbers(old(words).input(), Seq::empty()) {
            Parsed::Done(v, rest) => r is Ok && r->Ok_0@ == v && final(words).input() == rest,
            Parsed::Failed(e) => r is Err && r->Err_0@ == e,
        },
{
    let mut res: Vec<usize> = Vec::new();
    loop
        invariant
            words.wf(),
            spec_numbers(words.input(), res@) == spec_numbers(old(words).input(), Seq::empty()),
        decreases words.input().tokens.len(),
    {
        if words.kind() != TokenType::Identifier {
            return Ok(res);
        }
        let (t, _present) = words.advance();
        match parse_number(t.lexeme.as_str()) {
            Some(n) => {
                res.push(n);
            },
            None => {
                return Err(N2VError::parse(t, "Expected a number."));
            },
        }
    }
}

fn columns(words: &mut Words) -> (r: Result<Vec<OutputFormat>, N2VError>)
    requires
        old(words).wf(),
    ensures
        final(words).wf(),
        agrees(r, final(words).input(), spec_columns(old(words).input(), Seq::empty())),
{
    let mut res: Vec<OutputFormat> = Vec::new();
    assert(res.deep_view() =~= Seq::empty());
    loop
        invariant
            words.wf(),
            spec_columns(words.input(), res.deep_view()) == spec_columns(
                old(words).input(),
                Seq::empty(),
            ),
        decreases words.input().tokens.len(),
    {
        if words.kind() != TokenType::Identifier {
            return Ok(res);
        }
        let (t, _present) = words.advance();
        match column_for(t.lexeme.as_str()) {
            Some(c) => {
                let ghost before = res.deep_view();
                let ghost cv = c.deep_view();
                res.push(c);
                assert(res.deep_view() =~= before.push(cv));
            },
            None => {
                return Err(N2VError::parse(t, "Expected a column."));
            },
        }
    }
}

/// The script and the open step while they are gathered.
struct Draft {
    script: TestScript,
    step: Vec<Instruction>,
}

impl Draft {
    spec fn gathered(&self) -> Gathered {
        Gathered { script: self.script.deep_view(), step: self.step.deep_view() }
    }

    fn add(&mut self, i: Instruction)
        ensures
            final(self).gathered() == old(self).gathered().with(i.deep_view()),
    {
        let ghost before = self.step.deep_view();
        let ghost iv = i.deep_view();
        self.step.push(i);
        assert(self.step.deep_view() =~= before.push(iv));
    }

    fn close(&mut self)
        ensures
            final(self).gathered() == old(self).gathered().closed(),
    {
        if self.step.len() > 0 {
            let ghost before = self.script.steps.deep_view();
            let ghost sv = self.step.deep_view();
            let mut instructions: Vec<Instruction> = Vec::new();
            std::mem::swap(&mut instructions, &mut self.step);
            let step = Step { instructions };
            self.script.steps.push(step);
            assert(self.script.steps.deep_view() =~= before.push(sv));
            assert(self.step.deep_view() =~= Seq::empty());
        }
    }
}

fn is_word(t: &Token, w: &str) -> (b: bool)
    ensures
        b == (t@.lexeme == w@),
{
    t.lexeme == String::from_str(w)
}

fn command(words: &mut Words, draft: &mut Draft) -> (r: Result<(), N2VError>)
    requires
        old(words).wf(),
    ensures
        final(words).wf(),
        match spec_command(old(words).input(), old(draft).gathered()) {
            Parsed::Done(g, rest) => r is Ok && final(draft).gathered() == g && final(words).input() == rest,
            Parsed::Failed(e) => r is Err && r->Err_0@ == e,
        },
{
    proof {
        reveal(spec_command);
    }
    let (t, present) = words.advance();
    if !(present && t.token_type == TokenType::Identifier) {
        return Err(fail(t, present, "an instruction"));
    }
    if is_word(&t, "load") {
        let file = match word(words) {
            Ok(f) => f,
            Err(e) => {
                return Err(e);
            },
        };
        let generics = match numbers(words) {
            Ok(g) => g,
            Err(e) => {
                return Err(e);
            },
        };
        draft.script.hdl_file = file.lexeme;
        draft.script.generics = generics;
        Ok(())
    } else if is_word(&t, "output-file") {
        let file = match word(words) {
            Ok(f) => f,
            Err(e) => {
                return Err(e);
            },
        };
        draft.script.output_file = file.lexeme;
        Ok(())
    } else if is_word(&t, "compare-to") {
        let file = match word(words) {
            Ok(f) => f,
            Err(e) => {
                return Err(e);
            },
        };
        draft.script.compare_file = file.lexeme;
        Ok(())
    } else if is_word(&t, "output-list") {
        let list = match columns(words) {
            Ok(l) => l,
            Err(e) => {
                return Err(e);
            },
        };
        draft.script.output_list = list;
        Ok(())
    } else if is_word(&t, "set") {
        let port = match word(words) {
            Ok(p) => p,
            Err(e) => {
                return Err(e);
            },
        };
        let value = match word(words) {
            Ok(v) => v,
            Err(e) => {
                return Err(e);
            },
        };
        match literal_for(value.lexeme.as_str()) {
            Some(literal) => {
                draft.add(Instruction::SetInput(port.lexeme, literal));
                Ok(())
            },
            None => Err(N2VError::parse(value, "Expected a literal.")),
        }
    } else if is_word(&t, "eval") {
        draft.add(Instruction::Eval);
        Ok(())
    } else if is_word(&t, "tick") {
        draft.add(Instruction::Tick);
        Ok(())
    } else if is_word(&t, "tock") {
        draft.add(Instruction::Tock);
        Ok(())
    } else if is_word(&t, "output") {
        draft.add(Instruction::Output);
        Ok(())
    } else {
        Err(fail(t, present, "an instruction"))
    }
}

/// A parser of test scripts over the tokens of a scanner.
pub struct TestParser {
    pub scanner: Scanner,
}

impl TestParser {
    /// What is left to read.
    pub open spec fn input(&self) -> Input {
        Input { tokens: self.scanner.remaining_words(), eof: self.scanner.eof_view() }
    }

    /// Parses a test script up to the end of the text.
    pub fn parse(&mut self) -> (r: Result<TestScript, N2VError>)
        ensures
            yields(r, spec_script(old(self).input(), empty_script())),
    {
        let mut tokens: Vec<Token> = Vec::new();
        assert(tokens.deep_view() =~= Seq::empty());
        loop
            invariant
                tokens.deep_view() + self.scanner.remaining_words() == old(self).scanner.remaining_words(),
                self.scanner.eof_view() == old(self).scanner.eof_view(),
            ensures
                tokens.deep_view() == old(self).scanner.remaining_words(),
                self.scanner.eof_view() == old(self).scanner.eof_view(),
            decreases self.scanner.remaining_words().len(),
        {
            let ghost before = tokens.deep_view();
            let ghost rest = self.scanner.remaining_words();
            match self.scanner.next_word() {
                Some(t) => {
                    tokens.push(t);
                    assert(tokens.deep_view() =~= before.push(t@));
                    assert(tokens.deep_view() + self.scanner.remaining_words() =~= before + rest);
                },
                None => {
                    assert(before + rest =~= before);
                    break ;
                },
            }
        }
        let mut words = Words { tokens, pos: 0, eof: self.scanner.eof() };
        assert(words.tokens.deep_view().skip(0) =~= words.tokens.deep_view());
        let mut draft = Draft {
            script: TestScript {
                hdl_file: String::new(),
                output_file: String::new(),
                compare_file: String::new(),
                output_list: Vec::new(),
                steps: Vec::new(),
                generics: Vec::new(),
            },
            step: Vec::new(),
        };
        assert(draft.gathered().script.output_list =~= Seq::empty());
        assert(draft.gathered().script.steps =~= Seq::empty());
        assert(draft.gathered().step =~= Seq::empty());
        assert(draft.gathered() == empty_script());
        let ghost start = words.input();
        loop
            invariant
                words.wf(),
                start == old(self).input(),
                spec_script(words.input(), draft.gathered()) == spec_script(
                    start,
                    empty_script(),
                ),
            decreases words.input().tokens.len(),
        {
            if words.pos >= words.tokens.len() {
                draft.close();
                return Ok(draft.script);
            }
            proof {
                lemma_command_shorter(words.input(), draft.gathered());
            }
            match command(&mut words, &mut draft) {
                Ok(()) => {},
                Err(e) => {
                    return Err(e);
                },
            }
            let k = words.kind();
            if k == TokenType::Comma {
                let _t = words.advance();
            } else if k == TokenType::Semicolon {
                let _t = words.advance();
                draft.close();
            } else {
                let (t, present) = words.advance();
                return Err(fail(t, present, "`,` or `;`"));
            }
        }
    }
}

/// Parses `source`, which was read from `path`, as a test script.
pub fn parse_script(source: &str, path: &str) -> (r: Result<TestScript, N2VError>)
    ensures
        yields(r, parse_script_text(source@, path@)),
{
    let mut parser = TestParser { scanner: Scanner::new(source, path) };
    parser.parse()
}

} // verus!
