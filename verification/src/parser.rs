//! The parse tree of an HDL chip and the recursive-descent parser that
//! builds it from tokens.

use crate::error::{parse_failure, ErrorKind, ErrorView, N2VError};
use crate::expr::{GenericWidth, Op, Terminal, TerminalView, WidthView};
use crate::scanner::{Scanner, Token, TokenType, TokenView};
use vstd::prelude::*;
use vstd::string::*;

verus! {

/// `std::io::Error`, the error that a provider hands out where it cannot
/// read a file. Nothing is claimed of it, and nothing of it is looked at.
#[verifier::external_type_specification]
#[verifier::external_body]
pub struct ExIoError(std::io::Error);

/// A symbol name with, where it came from a file, the file and the line.
#[derive(Debug, PartialEq, Eq, Hash)]
pub struct Identifier {
    pub value: String,
    pub path: Option<String>,
    pub line: Option<u32>,
}

/// The mathematical value of an [`Identifier`].
pub struct IdentifierView {
    pub value: Seq<char>,
    pub path: Option<Seq<char>>,
    pub line: Option<u32>,
}

impl DeepView for Identifier {
    type V = IdentifierView;

    open spec fn deep_view(&self) -> IdentifierView {
        IdentifierView {
            value: self.value@,
            path: match self.path {
                Some(p) => Some(p@),
                None => None,
            },
            line: self.line,
        }
    }
}

impl Clone for Identifier {
    fn clone(&self) -> (id: Identifier)
        ensures
            id.deep_view() == self.deep_view(),
    {
        Identifier {
            value: self.value.clone(),
            path: match &self.path {
                Some(p) => Some(p.clone()),
                None => None,
            },
            line: self.line,
        }
    }
}

/// The identifier that a token of kind `Identifier` stands for.
pub open spec fn identifier_of(t: TokenView) -> IdentifierView {
    IdentifierView { value: t.lexeme, path: Some(t.path), line: Some(t.line) }
}

/// The identifier `name`, which belongs to no file.
pub open spec fn bare_identifier(name: Seq<char>) -> IdentifierView {
    IdentifierView { value: name, path: None, line: None }
}

impl Identifier {
    /// The identifier that the token `t` stands for.
    pub fn from_token(t: Token) -> (id: Identifier)
        requires
            t.token_type == TokenType::Identifier,
        ensures
            id.deep_view() == identifier_of(t@),
    {
        Identifier { value: t.lexeme, path: Some(t.path), line: Some(t.line) }
    }
}

impl vstd::std_specs::convert::FromSpecImpl<&str> for Identifier {
    open spec fn obeys_from_spec() -> bool {
        false
    }

    open spec fn from_spec(t: &str) -> Identifier {
        arbitrary()
    }
}

impl From<&str> for Identifier {
    fn from(t: &str) -> (id: Identifier)
        ensures
            id.deep_view() == bare_identifier(t@),
    {
        Identifier { value: String::from_str(t), path: None, line: None }
    }
}


/// Whether a port carries a signal into its chip or out of it.
#[derive(Clone, Copy, PartialEq, Eq, Hash, Debug, Structural)]
pub enum PortDirection {
    In,
    Out,
}

/// A port of a chip: its name, its width expression and its direction.
#[derive(Clone, Debug, PartialEq, Eq, Hash)]
pub struct GenericPort {
    pub name: Identifier,
    pub width: GenericWidth,
    pub direction: PortDirection,
}

/// A reference to a wire or to a slice of one. With no bounds it is the whole
/// bus; with bounds it is the inclusive range from `start` to `end`.
#[derive(Clone, Debug, PartialEq, Eq, Hash)]
pub struct BusHDL {
    pub name: String,
    pub start: Option<GenericWidth>,
    pub end: Option<GenericWidth>,
}

/// `port = wire` inside a component: binds a slice of a port of the part to a
/// slice of a wire of the enclosing chip. `wire_ident` is the identifier that
/// opens the mapping, with its place in the source.
#[derive(Clone, Debug)]
pub struct PortMapping {
    pub wire_ident: Identifier,
    pub wire: BusHDL,
    pub port: BusHDL,
}

/// A part: the chip it instantiates, its generic arguments and its mappings.
#[derive(Clone, Debug)]
pub struct Component {
    pub name: Identifier,
    pub mappings: Vec<PortMapping>,
    pub generic_params: Vec<GenericWidth>,
}

/// `FOR iterator IN start TO end GENERATE { body }`. Loops do not nest.
#[derive(Clone, Debug)]
pub struct Loop {
    pub start: GenericWidth,
    pub end: GenericWidth,
    pub iterator: Identifier,
    pub body: Vec<Component>,
}

/// One entry of a chip's `PARTS` section.
#[derive(Clone, Debug)]
pub enum Part {
    Component(Component),
    Loop(Loop),
}

/// The parse tree of an HDL chip.
#[derive(Clone, Debug)]
pub struct ChipHDL {
    pub name: String,
    pub ports: Vec<GenericPort>,
    pub parts: Vec<Part>,
    pub path: Option<String>,
    pub generic_decls: Vec<Identifier>,
}

/// The mathematical value of a [`GenericPort`].
pub struct PortView {
    pub name: IdentifierView,
    pub width: WidthView,
    pub direction: PortDirection,
}

/// The mathematical value of a [`BusHDL`].
pub struct BusView {
    pub name: Seq<char>,
    pub start: Option<WidthView>,
    pub end: Option<WidthView>,
}

/// The mathematical value of a [`PortMapping`].
pub struct MappingView {
    pub wire_ident: IdentifierView,
    pub wire: BusView,
    pub port: BusView,
}

/// The mathematical value of a [`Component`].
pub struct ComponentView {
    pub name: IdentifierView,
    pub mappings: Seq<MappingView>,
    pub generic_params: Seq<WidthView>,
}

/// The mathematical value of a [`Loop`].
pub struct LoopView {
    pub start: WidthView,
    pub end: WidthView,
    pub iterator: IdentifierView,
    pub body: Seq<ComponentView>,
}

/// The mathematical value of a [`Part`].
pub enum PartView {
    Component(ComponentView),
    Loop(LoopView),
}

/// The mathematical value of a [`ChipHDL`].
pub struct ChipView {
    pub name: Seq<char>,
    pub ports: Seq<PortView>,
    pub parts: Seq<PartView>,
    pub path: Option<Seq<char>>,
    pub generic_decls: Seq<IdentifierView>,
}

impl DeepView for Token {
    type V = TokenView;

    open spec fn deep_view(&self) -> TokenView {
        self@
    }
}

impl DeepView for GenericPort {
    type V = PortView;

    open spec fn deep_view(&self) -> PortView {
        PortView {
            name: self.name.deep_view(),
            width: self.width.deep_view(),
            direction: self.direction,
        }
    }
}

impl DeepView for BusHDL {
    type V = BusView;

    open spec fn deep_view(&self) -> BusView {
        BusView {
            name: self.name@,
            start: self.start.deep_view(),
            end: self.end.deep_view(),
        }
    }
}

impl DeepView for PortMapping {
    type V = MappingView;

    open spec fn deep_view(&self) -> MappingView {
        MappingView {
            wire_ident: self.wire_ident.deep_view(),
            wire: self.wire.deep_view(),
            port: self.port.deep_view(),
        }
    }
}

impl DeepView for Component {
    type V = ComponentView;

    open spec fn deep_view(&self) -> ComponentView {
        ComponentView {
            name: self.name.deep_view(),
            mappings: self.mappings.deep_view(),
            generic_params: self.generic_params.deep_view(),
        }
    }
}

impl DeepView for Loop {
    type V = LoopView;

    open spec fn deep_view(&self) -> LoopView {
        LoopView {
            start: self.start.deep_view(),
            end: self.end.deep_view(),
            iterator: self.iterator.deep_view(),
            body: self.body.deep_view(),
        }
    }
}

impl DeepView for Part {
    type V = PartView;

    open spec fn deep_view(&self) -> PartView {
        match *self {
            Part::Component(c) => PartView::Component(c.deep_view()),
            Part::Loop(l) => PartView::Loop(l.deep_view()),
        }
    }
}

impl DeepView for ChipHDL {
    type V = ChipView;

    open spec fn deep_view(&self) -> ChipView {
        ChipView {
            name: self.name@,
            ports: self.ports.deep_view(),
            parts: self.parts.deep_view(),
            path: self.path.deep_view(),
            generic_decls: self.generic_decls.deep_view(),
        }
    }
}

/// What a parser reads: the tokens still to come and the synthetic token
/// that stands for the end of the text.
pub struct Input {
    pub tokens: Seq<TokenView>,
    pub eof: TokenView,
}

impl Input {
    /// No token is left.
    pub open spec fn ended(self) -> bool {
        self.tokens.len() == 0
    }

    /// The next token, or the end-of-text token where none is left.
    pub open spec fn first(self) -> TokenView {
        if self.tokens.len() > 0 {
            self.tokens[0]
        } else {
            self.eof
        }
    }

    /// The kind of the next token, `Eof` where none is left.
    pub open spec fn kind(self) -> TokenType {
        if self.tokens.len() > 0 {
            self.tokens[0].token_type
        } else {
            TokenType::Eof
        }
    }

    /// The input behind the next token.
    pub open spec fn rest(self) -> Input {
        if self.tokens.len() > 0 {
            Input { tokens: self.tokens.drop_first(), eof: self.eof }
        } else {
            self
        }
    }
}

/// The outcome of parsing one construct: its value and the input behind it,
/// or the error.
pub enum Parsed<T> {
    Done(T, Input),
    Failed(ErrorView),
}

/// How a kind of token is named in a message.
pub open spec fn kind_name(tt: TokenType) -> Seq<char> {
    match tt {
        TokenType::Chip => "CHIP"@,
        TokenType::In => "IN"@,
        TokenType::Out => "OUT"@,
        TokenType::Parts => "PARTS"@,
        TokenType::For => "FOR"@,
        TokenType::To => "TO"@,
        TokenType::Generate => "GENERATE"@,
        TokenType::Identifier => "identifier"@,
        TokenType::Number => "number"@,
        TokenType::LeftCurly => "`{`"@,
        TokenType::RightCurly => "`}`"@,
        TokenType::LeftParen => "`(`"@,
        TokenType::RightParen => "`)`"@,
        TokenType::LeftBracket => "`[`"@,
        TokenType::RightBracket => "`]`"@,
        TokenType::LeftAngle => "`<`"@,
        TokenType::RightAngle => "`>`"@,
        TokenType::Comma => "`,`"@,
        TokenType::Semicolon => "`;`"@,
        TokenType::Colon => "`:`"@,
        TokenType::Equal => "`=`"@,
        TokenType::Plus => "`+`"@,
        TokenType::Minus => "`-`"@,
        TokenType::Dot => "`.`"@,
        TokenType::Eof => "end of file"@,
        TokenType::Unknown => "unknown character"@,
    }
}

/// The error for an input that does not start with `what`: it points at the
/// next token, or at the end-of-text token where the text ended early.
pub open spec fn unexpected(inp: Input, what: Seq<char>) -> ErrorView {
    if inp.ended() {
        parse_failure(inp.eof, "Unexpected end of file. Expected "@ + what)
    } else {
        parse_failure(inp.first(), "Expected "@ + what)
    }
}

/// The number that a digit stands for.
pub open spec fn digit_value(c: char) -> nat {
    (c as nat - '0' as nat) as nat
}

/// The number that a run of digits writes in base ten.
pub open spec fn number_value(digits: Seq<char>) -> nat
    decreases digits.len(),
{
    if digits.len() == 0 {
        0
    } else {
        number_value(digits.drop_last()) * 10 + digit_value(digits.last())
    }
}

/// Every character of `s` is a decimal digit.
pub open spec fn all_digits(s: Seq<char>) -> bool {
    forall|i: int| 0 <= i < s.len() ==> crate::scanner::is_digit(#[trigger] s[i])
}

/// The number that the lexeme `s` writes, if it is one that fits a `usize`.
pub open spec fn number_of(s: Seq<char>) -> Option<usize> {
    if s.len() > 0 && all_digits(s) && number_value(s) <= usize::MAX {
        Some(number_value(s) as usize)
    } else {
        None
    }
}

/// One token of kind `tt`.
pub open spec fn spec_consume(inp: Input, tt: TokenType) -> Parsed<TokenView> {
    if !inp.ended() && inp.first().token_type == tt {
        Parsed::Done(inp.first(), inp.rest())
    } else {
        Parsed::Failed(unexpected(inp, kind_name(tt)))
    }
}

/// `terminal := NUMBER | IDENT`
pub open spec fn spec_terminal(inp: Input) -> Parsed<TerminalView> {
    if inp.kind() == TokenType::Number {
        match number_of(inp.first().lexeme) {
            Some(n) => Parsed::Done(TerminalView::Num(n), inp.rest()),
            None => Parsed::Failed(parse_failure(inp.first(), "Number is too large."@)),
        }
    } else if inp.kind() == TokenType::Identifier {
        Parsed::Done(TerminalView::Var(identifier_of(inp.first())), inp.rest())
    } else {
        Parsed::Failed(unexpected(inp, "number or generic variable"@))
    }
}

/// `expr := terminal (('+'|'-') terminal)?`
#[verifier::opaque]
pub open spec fn spec_expr(inp: Input) -> Parsed<WidthView> {
    match spec_terminal(inp) {
        Parsed::Failed(e) => Parsed::Failed(e),
        Parsed::Done(t1, r) => if r.kind() == TokenType::Plus || r.kind() == TokenType::Minus {
            match spec_terminal(r.rest()) {
                Parsed::Failed(e) => Parsed::Failed(e),
                Parsed::Done(t2, r2) => Parsed::Done(
                    WidthView::Expr(
                        if r.kind() == TokenType::Plus {
                            Op::Add
                        } else {
                            Op::Sub
                        },
                        Box::new(WidthView::Terminal(t1)),
                        Box::new(WidthView::Terminal(t2)),
                    ),
                    r2,
                ),
            }
        } else {
            Parsed::Done(WidthView::Terminal(t1), r)
        },
    }
}

/// `port_width := '[' expr ']'`, and the width 1 where no bracket follows.
#[verifier::opaque]
pub open spec fn spec_port_width(inp: Input) -> Parsed<WidthView> {
    if inp.kind() == TokenType::LeftBracket {
        match spec_expr(inp.rest()) {
            Parsed::Failed(e) => Parsed::Failed(e),
            Parsed::Done(w, r) => match spec_consume(r, TokenType::RightBracket) {
                Parsed::Failed(e) => Parsed::Failed(e),
                Parsed::Done(_, r2) => Parsed::Done(w, r2),
            },
        }
    } else {
        Parsed::Done(WidthView::Terminal(TerminalView::Num(1)), inp)
    }
}

/// `bus_idx := '[' expr ('.' '.' expr)? ']'`. A single index stands for the
/// range from it to itself; no bracket stands for the whole bus.
#[verifier::opaque]
pub open spec fn spec_bus_idx(inp: Input) -> Parsed<(Option<WidthView>, Option<WidthView>)> {
    if inp.kind() == TokenType::LeftBracket {
        match spec_expr(inp.rest()) {
            Parsed::Failed(e) => Parsed::Failed(e),
            Parsed::Done(start, r) => if r.kind() == TokenType::Dot {
                match spec_consume(r.rest(), TokenType::Dot) {
                    Parsed::Failed(e) => Parsed::Failed(e),
                    Parsed::Done(_, r2) => match spec_expr(r2) {
                        Parsed::Failed(e) => Parsed::Failed(e),
                        Parsed::Done(end, r3) => match spec_consume(r3, TokenType::RightBracket) {
                            Parsed::Failed(e) => Parsed::Failed(e),
                            Parsed::Done(_, r4) => Parsed::Done((Some(start), Some(end)), r4),
                        },
                    },
                }
            } else {
                match spec_consume(r, TokenType::RightBracket) {
                    Parsed::Failed(e) => Parsed::Failed(e),
                    Parsed::Done(_, r2) => Parsed::Done((Some(start), Some(start)), r2),
                }
            },
        }
    } else {
        Parsed::Done((None, None), inp)
    }
}

/// `IDENT (',' IDENT)* '>'`, appended to `acc`.
pub open spec fn spec_decl_list(inp: Input, acc: Seq<IdentifierView>) -> Parsed<
    Seq<IdentifierView>,
>
    decreases inp.tokens.len(),
{
    match spec_consume(inp, TokenType::Identifier) {
        Parsed::Failed(e) => Parsed::Failed(e),
        Parsed::Done(t, r) => {
            let acc2 = acc.push(identifier_of(t));
            if r.kind() == TokenType::Comma {
                spec_decl_list(r.rest(), acc2)
            } else {
                match spec_consume(r, TokenType::RightAngle) {
                    Parsed::Failed(e) => Parsed::Failed(e),
                    Parsed::Done(_, r2) => Parsed::Done(acc2, r2),
                }
            }
        },
    }
}

/// `generic_decls := '<' IDENT (',' IDENT)* '>'`, and nothing where no `<`
/// follows.
#[verifier::opaque]
pub open spec fn spec_generic_decls(inp: Input) -> Parsed<Seq<IdentifierView>> {
    if inp.kind() == TokenType::LeftAngle {
        spec_decl_list(inp.rest(), Seq::empty())
    } else {
        Parsed::Done(Seq::empty(), inp)
    }
}

/// `terminal (',' terminal)* '>'`, appended to `acc`.
pub open spec fn spec_arg_list(inp: Input, acc: Seq<WidthView>) -> Parsed<Seq<WidthView>>
    decreases inp.tokens.len(),
{
    match spec_terminal(inp) {
        Parsed::Failed(e) => Parsed::Failed(e),
        Parsed::Done(t, r) => {
            let acc2 = acc.push(WidthView::Terminal(t));
            if r.kind() == TokenType::Comma {
                spec_arg_list(r.rest(), acc2)
            } else {
                match spec_consume(r, TokenType::RightAngle) {
                    Parsed::Failed(e) => Parsed::Failed(e),
                    Parsed::Done(_, r2) => Parsed::Done(acc2, r2),
                }
            }
        },
    }
}

/// `generic_args := '<' (NUMBER | IDENT) (',' (NUMBER | IDENT))* '>'`, and
/// nothing where no `<` follows.
#[verifier::opaque]
pub open spec fn spec_generics(inp: Input) -> Parsed<Seq<WidthView>> {
    if inp.kind() == TokenType::LeftAngle {
        spec_arg_list(inp.rest(), Seq::empty())
    } else {
        Parsed::Done(Seq::empty(), inp)
    }
}

/// `port_list ';'` with `port_list := IDENT port_width? (',' IDENT port_width?)*`,
/// appended to `acc`.
pub open spec fn spec_port_names(inp: Input, direction: PortDirection, acc: Seq<PortView>) -> Parsed<
    Seq<PortView>,
>
    decreases inp.tokens.len(),
    via spec_port_names_decreases
{
    match spec_consume(inp, TokenType::Identifier) {
        Parsed::Failed(e) => Parsed::Failed(e),
        Parsed::Done(t, r) => match spec_port_width(r) {
            Parsed::Failed(e) => Parsed::Failed(e),
            Parsed::Done(w, r2) => {
                let acc2 = acc.push(PortView { name: identifier_of(t), width: w, direction });
                if r2.kind() == TokenType::Comma {
                    spec_port_names(r2.rest(), direction, acc2)
                } else {
                    match spec_consume(r2, TokenType::Semicolon) {
                        Parsed::Failed(e) => Parsed::Failed(e),
                        Parsed::Done(_, r3) => Parsed::Done(acc2, r3),
                    }
                }
            },
        },
    }
}

/// `mapping := IDENT bus_idx? '=' IDENT bus_idx?`
#[verifier::opaque]
pub open spec fn spec_mapping(inp: Input) -> Parsed<MappingView> {
    match spec_consume(inp, TokenType::Identifier) {
        Parsed::Failed(e) => Parsed::Failed(e),
        Parsed::Done(p, r1) => match spec_bus_idx(r1) {
            Parsed::Failed(e) => Parsed::Failed(e),
            Parsed::Done(pi, r2) => match spec_consume(r2, TokenType::Equal) {
                Parsed::Failed(e) => Parsed::Failed(e),
                Parsed::Done(_, r3) => match spec_consume(r3, TokenType::Identifier) {
                    Parsed::Failed(e) => Parsed::Failed(e),
                    Parsed::Done(w, r4) => match spec_bus_idx(r4) {
                        Parsed::Failed(e) => Parsed::Failed(e),
                        Parsed::Done(wi, r5) => Parsed::Done(
                            MappingView {
                                wire_ident: identifier_of(p),
                                wire: BusView { name: w.lexeme, start: wi.0, end: wi.1 },
                                port: BusView { name: p.lexeme, start: pi.0, end: pi.1 },
                            },
                            r5,
                        ),
                    },
                },
            },
        },
    }
}

/// `mapping (',' mapping)*`, appended to `acc`.
pub open spec fn spec_mapping_list(inp: Input, acc: Seq<MappingView>) -> Parsed<Seq<MappingView>>
    decreases inp.tokens.len(),
    via spec_mapping_list_decreases
{
    match spec_mapping(inp) {
        Parsed::Failed(e) => Parsed::Failed(e),
        Parsed::Done(m, r) => {
            let acc2 = acc.push(m);
            if r.kind() == TokenType::Comma {
                spec_mapping_list(r.rest(), acc2)
            } else {
                Parsed::Done(acc2, r)
            }
        },
    }
}

/// `'(' port_mappings? ')' ';'`
#[verifier::opaque]
pub open spec fn spec_port_mappings(inp: Input) -> Parsed<Seq<MappingView>> {
    match spec_consume(inp, TokenType::LeftParen) {
        Parsed::Failed(e) => Parsed::Failed(e),
        Parsed::Done(_, r) => {
            let list = if r.kind() == TokenType::RightParen {
                Parsed::Done(Seq::empty(), r)
            } else {
                spec_mapping_list(r, Seq::empty())
            };
            match list {
                Parsed::Failed(e) => Parsed::Failed(e),
                Parsed::Done(ms, r2) => match spec_consume(r2, TokenType::RightParen) {
                    Parsed::Failed(e) => Parsed::Failed(e),
                    Parsed::Done(_, r3) => match spec_consume(r3, TokenType::Semicolon) {
                        Parsed::Failed(e) => Parsed::Failed(e),
                        Parsed::Done(_, r4) => Parsed::Done(ms, r4),
                    },
                },
            }
        },
    }
}

/// `component := IDENT generic_args? '(' port_mappings? ')' ';'`
#[verifier::opaque]
pub open spec fn spec_component(inp: Input) -> Parsed<ComponentView> {
    match spec_consume(inp, TokenType::Identifier) {
        Parsed::Failed(e) => Parsed::Failed(e),
        Parsed::Done(n, r) => match spec_generics(r) {
            Parsed::Failed(e) => Parsed::Failed(e),
            Parsed::Done(g, r2) => match spec_port_mappings(r2) {
                Parsed::Failed(e) => Parsed::Failed(e),
                Parsed::Done(m, r3) => Parsed::Done(
                    ComponentView { name: identifier_of(n), mappings: m, generic_params: g },
                    r3,
                ),
            },
        },
    }
}

/// `component* '}'`, appended to `acc`: the body of a loop.
pub open spec fn spec_components(inp: Input, acc: Seq<ComponentView>) -> Parsed<
    Seq<ComponentView>,
>
    decreases inp.tokens.len(),
    via spec_components_decreases
{
    if inp.kind() == TokenType::Identifier {
        match spec_component(inp) {
            Parsed::Failed(e) => Parsed::Failed(e),
            Parsed::Done(c, r) => spec_components(r, acc.push(c)),
        }
    } else if inp.kind() == TokenType::RightCurly {
        Parsed::Done(acc, inp.rest())
    } else {
        Parsed::Failed(unexpected(inp, "identifier or `}`"@))
    }
}

/// `for_loop := 'FOR' IDENT 'IN' expr 'TO' expr 'GENERATE' '{' component* '}'`
#[verifier::opaque]
pub open spec fn spec_for_loop(inp: Input) -> Parsed<LoopView> {
    match spec_consume(inp, TokenType::For) {
        Parsed::Failed(e) => Parsed::Failed(e),
        Parsed::Done(_, r1) => match spec_consume(r1, TokenType::Identifier) {
            Parsed::Failed(e) => Parsed::Failed(e),
            Parsed::Done(it, r2) => match spec_consume(r2, TokenType::In) {
                Parsed::Failed(e) => Parsed::Failed(e),
                Parsed::Done(_, r3) => match spec_expr(r3) {
                    Parsed::Failed(e) => Parsed::Failed(e),
                    Parsed::Done(start, r4) => match spec_consume(r4, TokenType::To) {
                        Parsed::Failed(e) => Parsed::Failed(e),
                        Parsed::Done(_, r5) => match spec_expr(r5) {
                            Parsed::Failed(e) => Parsed::Failed(e),
                            Parsed::Done(end, r6) => match spec_consume(r6, TokenType::Generate) {
                                Parsed::Failed(e) => Parsed::Failed(e),
                                Parsed::Done(_, r7) => match spec_consume(
                                    r7,
                                    TokenType::LeftCurly,
                                ) {
                                    Parsed::Failed(e) => Parsed::Failed(e),
                                    Parsed::Done(_, r8) => match spec_components(
                                        r8,
                                        Seq::empty(),
                                    ) {
                                        Parsed::Failed(e) => Parsed::Failed(e),
                                        Parsed::Done(body, r9) => Parsed::Done(
                                            LoopView {
                                                start,
                                                end,
                                                iterator: identifier_of(it),
                                                body,
                                            },
                                            r9,
                                        ),
                                    },
                                },
                            },
                        },
                    },
                },
            },
        },
    }
}

/// `(component | for_loop)* '}'`, appended to `acc`: the parts of a chip.
pub open spec fn spec_parts(inp: Input, acc: Seq<PartView>) -> Parsed<Seq<PartView>>
    decreases inp.tokens.len(),
    via spec_parts_decreases
{
    if inp.kind() == TokenType::Identifier {
        match spec_component(inp) {
            Parsed::Failed(e) => Parsed::Failed(e),
            Parsed::Done(c, r) => spec_parts(r, acc.push(PartView::Component(c))),
        }
    } else if inp.kind() == TokenType::For {
        match spec_for_loop(inp) {
            Parsed::Failed(e) => Parsed::Failed(e),
            Parsed::Done(l, r) => spec_parts(r, acc.push(PartView::Loop(l))),
        }
    } else if inp.kind() == TokenType::RightCurly {
        Parsed::Done(acc, inp.rest())
    } else {
        Parsed::Failed(unexpected(inp, "identifier, FOR, or `}`"@))
    }
}

/// `'IN' port_list ';' 'OUT' port_list ';'`: the inputs, then the outputs.
#[verifier::opaque]
pub open spec fn spec_ports(inp: Input) -> Parsed<Seq<PortView>> {
    match spec_consume(inp, TokenType::In) {
        Parsed::Failed(e) => Parsed::Failed(e),
        Parsed::Done(_, r1) => match spec_port_names(r1, PortDirection::In, Seq::empty()) {
            Parsed::Failed(e) => Parsed::Failed(e),
            Parsed::Done(ins, r2) => match spec_consume(r2, TokenType::Out) {
                Parsed::Failed(e) => Parsed::Failed(e),
                Parsed::Done(_, r3) => spec_port_names(r3, PortDirection::Out, ins),
            },
        },
    }
}

/// `chip := 'CHIP' IDENT generic_decls? '{' in_section out_section
/// 'PARTS' ':' (component | for_loop)* '}'`
#[verifier::opaque]
pub open spec fn spec_chip(inp: Input) -> Parsed<ChipView> {
    match spec_consume(inp, TokenType::Chip) {
        Parsed::Failed(e) => Parsed::Failed(e),
        Parsed::Done(_, r1) => match spec_consume(r1, TokenType::Identifier) {
            Parsed::Failed(e) => Parsed::Failed(e),
            Parsed::Done(name, r2) => match spec_generic_decls(r2) {
                Parsed::Failed(e) => Parsed::Failed(e),
                Parsed::Done(decls, r3) => match spec_consume(r3, TokenType::LeftCurly) {
                    Parsed::Failed(e) => Parsed::Failed(e),
                    Parsed::Done(_, r4) => match spec_ports(r4) {
                        Parsed::Failed(e) => Parsed::Failed(e),
                        Parsed::Done(ports, r5) => match spec_consume(r5, TokenType::Parts) {
                            Parsed::Failed(e) => Parsed::Failed(e),
                            Parsed::Done(_, r6) => match spec_consume(r6, TokenType::Colon) {
                                Parsed::Failed(e) => Parsed::Failed(e),
                                Parsed::Done(_, r7) => match spec_parts(r7, Seq::empty()) {
                                    Parsed::Failed(e) => Parsed::Failed(e),
                                    Parsed::Done(parts, r8) => Parsed::Done(
                                        ChipView {
                                            name: name.lexeme,
                                            ports,
                                            parts,
                                            path: Some(inp.eof.path),
                                            generic_decls: decls,
                                        },
                                        r8,
                                    ),
                                },
                            },
                        },
                    },
                },
            },
        },
    }
}


/// A construct that was parsed left fewer tokens than it found.
pub open spec fn shorter<T>(p: Parsed<T>, inp: Input) -> bool {
    match p {
        Parsed::Done(_, r) => r.tokens.len() < inp.tokens.len(),
        Parsed::Failed(_) => true,
    }
}

/// A construct that was parsed left no more tokens than it found.
pub open spec fn not_longer<T>(p: Parsed<T>, inp: Input) -> bool {
    match p {
        Parsed::Done(_, r) => r.tokens.len() <= inp.tokens.len(),
        Parsed::Failed(_) => true,
    }
}

proof fn lemma_expr_shorter(inp: Input)
    ensures
        shorter(spec_expr(inp), inp),
{
    reveal(spec_expr);
}

proof fn lemma_port_width_not_longer(inp: Input)
    ensures
        not_longer(spec_port_width(inp), inp),
{
    reveal(spec_port_width);
    lemma_expr_shorter(inp.rest());
}

proof fn lemma_bus_idx_not_longer(inp: Input)
    ensures
        not_longer(spec_bus_idx(inp), inp),
{
    reveal(spec_bus_idx);
    lemma_expr_shorter(inp.rest());
    match spec_expr(inp.rest()) {
        Parsed::Failed(e) => {},
        Parsed::Done(start, r) => {
            lemma_expr_shorter(r.rest().rest());
        },
    }
}

#[via_fn]
proof fn spec_port_names_decreases(inp: Input, direction: PortDirection, acc: Seq<PortView>) {
    lemma_port_width_not_longer(inp.rest());
}

proof fn lemma_mapping_shorter(inp: Input)
    ensures
        shorter(spec_mapping(inp), inp),
{
    reveal(spec_mapping);
    match spec_consume(inp, TokenType::Identifier) {
        Parsed::Failed(e) => {},
        Parsed::Done(p, r1) => {
            lemma_bus_idx_not_longer(r1);
            match spec_bus_idx(r1) {
                Parsed::Failed(e) => {},
                Parsed::Done(pi, r2) => {
                    lemma_bus_idx_not_longer(r2.rest().rest());
                },
            }
        },
    }
}

#[via_fn]
proof fn spec_mapping_list_decreases(inp: Input, acc: Seq<MappingView>) {
    lemma_mapping_shorter(inp);
}

proof fn lemma_arg_list_shorter(inp: Input, acc: Seq<WidthView>)
    ensures
        shorter(spec_arg_list(inp, acc), inp),
    decreases inp.tokens.len(),
{
    match spec_terminal(inp) {
        Parsed::Failed(e) => {},
        Parsed::Done(t, r) => {
            if r.kind() == TokenType::Comma {
                lemma_arg_list_shorter(r.rest(), acc.push(WidthView::Terminal(t)));
            }
        },
    }
}

proof fn lemma_generics_not_longer(inp: Input)
    ensures
        not_longer(spec_generics(inp), inp),
{
    reveal(spec_generics);
    lemma_arg_list_shorter(inp.rest(), Seq::empty());
}

proof fn lemma_mapping_list_shorter(inp: Input, acc: Seq<MappingView>)
    ensures
        shorter(spec_mapping_list(inp, acc), inp),
    decreases inp.tokens.len(),
{
    lemma_mapping_shorter(inp);
    match spec_mapping(inp) {
        Parsed::Failed(e) => {},
        Parsed::Done(m, r) => {
            if r.kind() == TokenType::Comma {
                lemma_mapping_list_shorter(r.rest(), acc.push(m));
            }
        },
    }
}

proof fn lemma_port_mappings_shorter(inp: Input)
    ensures
        shorter(spec_port_mappings(inp), inp),
{
    reveal(spec_port_mappings);
    lemma_mapping_list_shorter(inp.rest(), Seq::empty());
}

proof fn lemma_component_shorter(inp: Input)
    ensures
        shorter(spec_component(inp), inp),
{
    reveal(spec_component);
    lemma_generics_not_longer(inp.rest());
    match spec_generics(inp.rest()) {
        Parsed::Failed(e) => {},
        Parsed::Done(g, r2) => {
            lemma_port_mappings_shorter(r2);
        },
    }
}

#[via_fn]
proof fn spec_components_decreases(inp: Input, acc: Seq<ComponentView>) {
    lemma_component_shorter(inp);
}

proof fn lemma_components_shorter(inp: Input, acc: Seq<ComponentView>)
    ensures
        shorter(spec_components(inp, acc), inp),
    decreases inp.tokens.len(),
{
    if inp.kind() == TokenType::Identifier {
        lemma_component_shorter(inp);
        match spec_component(inp) {
            Parsed::Failed(e) => {},
            Parsed::Done(c, r) => {
                lemma_components_shorter(r, acc.push(c));
            },
        }
    }
}

proof fn lemma_for_loop_shorter(inp: Input)
    ensures
        shorter(spec_for_loop(inp), inp),
{
    reveal(spec_for_loop);
    let r3 = inp.rest().rest().rest();
    lemma_expr_shorter(r3);
    match spec_expr(r3) {
        Parsed::Failed(e) => {},
        Parsed::Done(start, r4) => {
            lemma_expr_shorter(r4.rest());
            match spec_expr(r4.rest()) {
                Parsed::Failed(e) => {},
                Parsed::Done(end, r6) => {
                    lemma_components_shorter(r6.rest().rest(), Seq::empty());
                },
            }
        },
    }
}

#[via_fn]
proof fn spec_parts_decreases(inp: Input, acc: Seq<PartView>) {
    lemma_component_shorter(inp);
    lemma_for_loop_shorter(inp);
}

/// The result `r` of an executable parser, which left the input `after`, is
/// the outcome `want`.
pub open spec fn agrees<T: DeepView>(r: Result<T, N2VError>, after: Input, want: Parsed<T::V>) -> bool {
    match want {
        Parsed::Done(v, rest) => r is Ok && r->Ok_0.deep_view() == v && after == rest,
        Parsed::Failed(e) => r is Err && r->Err_0@ == e,
    }
}

fn kind_name_of(tt: TokenType) -> (name: &'static str)
    ensures
        name@ == kind_name(tt),
{
    match tt {
        TokenType::Chip => "CHIP",
        TokenType::In => "IN",
        TokenType::Out => "OUT",
        TokenType::Parts => "PARTS",
        TokenType::For => "FOR",
        TokenType::To => "TO",
        TokenType::Generate => "GENERATE",
        TokenType::Identifier => "identifier",
        TokenType::Number => "number",
        TokenType::LeftCurly => "`{`",
        TokenType::RightCurly => "`}`",
        TokenType::LeftParen => "`(`",
        TokenType::RightParen => "`)`",
        TokenType::LeftBracket => "`[`",
        TokenType::RightBracket => "`]`",
        TokenType::LeftAngle => "`<`",
        TokenType::RightAngle => "`>`",
        TokenType::Comma => "`,`",
        TokenType::Semicolon => "`;`",
        TokenType::Colon => "`:`",
        TokenType::Equal => "`=`",
        TokenType::Plus => "`+`",
        TokenType::Minus => "`-`",
        TokenType::Dot => "`.`",
        TokenType::Eof => "end of file",
        TokenType::Unknown => "unknown character",
    }
}

/// A prefix of a number is worth no more than the number.
pub proof fn lemma_number_value_grows(s: Seq<char>, i: int)
    requires
        0 <= i <= s.len(),
    ensures
        number_value(s.subrange(0, i)) <= number_value(s),
    decreases s.len() - i,
{
    if i < s.len() {
        lemma_number_value_grows(s, i + 1);
        assert(s.subrange(0, i + 1).drop_last() =~= s.subrange(0, i));
    } else {
        assert(s.subrange(0, i) =~= s);
    }
}

/// The number that a lexeme writes in base ten, if it is made of digits and
/// fits a `usize`.
pub fn parse_number(lexeme: &str) -> (r: Option<usize>)
    ensures
        r == number_of(lexeme@),
{
    let n = lexeme.unicode_len();
    if n == 0 {
        return None;
    }
    let mut acc: usize = 0;
    let mut i: usize = 0;
    while i < n
        invariant
            n == lexeme@.len(),
            i <= n,
            acc == number_value(lexeme@.subrange(0, i as int)),
            all_digits(lexeme@.subrange(0, i as int)),
        decreases n - i,
    {
        let c = lexeme.get_char(i);
        if !('0' <= c && c <= '9') {
            return None;
        }
        let d: usize = (c as u32 - '0' as u32) as usize;
        proof {
            assert(lexeme@.subrange(0, i + 1).drop_last() =~= lexeme@.subrange(0, i as int));
            assert(lexeme@.subrange(0, i + 1).last() == c);
            lemma_number_value_grows(lexeme@, i + 1);
        }
        if acc > (usize::MAX - d) / 10 {
            return None;
        }
        acc = acc * 10 + d;
        i = i + 1;
    }
    assert(lexeme@.subrange(0, n as int) =~= lexeme@);
    Some(acc)
}

/// The error for a token that does not start `what`; `present` is false where
/// the token is the end-of-text token.
pub fn fail(token: Token, present: bool, what: &str) -> (e: N2VError)
    ensures
        present ==> e@ == parse_failure(token@, "Expected "@ + what@),
        !present ==> e@ == parse_failure(token@, "Unexpected end of file. Expected "@ + what@),
{
    let msg = if present {
        String::from_str("Expected ").concat(what)
    } else {
        String::from_str("Unexpected end of file. Expected ").concat(what)
    };
    N2VError { msg, kind: ErrorKind::ParseError(token) }
}

/// A recursive-descent parser over the tokens of a scanner.
pub struct Parser {
    pub scanner: Scanner,
}

impl Parser {
    /// What is left to read.
    pub open spec fn input(&self) -> Input {
        Input { tokens: self.scanner.remaining(), eof: self.scanner.eof_view() }
    }

    /// A parser that reads from `scanner`.
    pub fn new(scanner: Scanner) -> (p: Parser)
        ensures
            p.scanner == scanner,
    {
        Parser { scanner }
    }

    /// Parses one chip.
    pub fn parse(&mut self) -> (r: Result<ChipHDL, N2VError>)
        ensures
            agrees(r, final(self).input(), spec_chip(old(self).input())),
    {
        self.chip()
    }

    fn peek_kind(&self) -> (k: TokenType)
        ensures
            k == self.input().kind(),
    {
        match self.scanner.peek() {
            Some(t) => t.token_type,
            None => TokenType::Eof,
        }
    }

    /// Takes the next token; at the end of the text, the end-of-text token.
    fn advance(&mut self) -> (t: (Token, bool))
        ensures
            t.0@ == old(self).input().first(),
            t.1 == !old(self).input().ended(),
            final(self).input() == old(self).input().rest(),
    {
        match self.scanner.next() {
            Some(t) => (t, true),
            None => {
                assert(self.scanner.remaining() =~= old(self).scanner.remaining());
                (self.scanner.eof(), false)
            },
        }
    }

    fn unexpected_here(&mut self, what: &str) -> (e: N2VError)
        ensures
            e@ == unexpected(old(self).input(), what@),
    {
        let (t, present) = self.advance();
        fail(t, present, what)
    }

    fn consume(&mut self, tt: TokenType) -> (r: Result<Token, N2VError>)
        ensures
            agrees(r, final(self).input(), spec_consume(old(self).input(), tt)),
    {
        let (t, present) = self.advance();
        if present && t.token_type == tt {
            Ok(t)
        } else {
            Err(fail(t, present, kind_name_of(tt)))
        }
    }

    fn terminal(&mut self) -> (r: Result<Terminal, N2VError>)
        ensures
            agrees(r, final(self).input(), spec_terminal(old(self).input())),
    {
        let k = self.peek_kind();
        if k == TokenType::Number {
            let (t, _present) = self.advance();
            match parse_number(t.lexeme.as_str()) {
                Some(n) => Ok(Terminal::Num(n)),
                None => Err(N2VError::parse(t, "Number is too large.")),
            }
        } else if k == TokenType::Identifier {
            let (t, _present) = self.advance();
            Ok(Terminal::Var(Identifier::from_token(t)))
        } else {
            Err(self.unexpected_here("number or generic variable"))
        }
    }

    fn expr(&mut self) -> (r: Result<GenericWidth, N2VError>)
        ensures
            agrees(r, final(self).input(), spec_expr(old(self).input())),
    {
        proof {
            reveal(spec_expr);
        }
        let t1 = match self.terminal() {
            Ok(t) => t,
            Err(e) => {
                return Err(e);
            },
        };
        let k = self.peek_kind();
        if k == TokenType::Plus || k == TokenType::Minus {
            let _t = self.advance();
            let t2 = match self.terminal() {
                Ok(t) => t,
                Err(e) => {
                    return Err(e);
                },
            };
            let op = if k == TokenType::Plus {
                Op::Add
            } else {
                Op::Sub
            };
            let left = GenericWidth::Terminal(t1);
            let right = GenericWidth::Terminal(t2);
            assert(left.deep_view() == WidthView::Terminal(t1.deep_view()));
            assert(right.deep_view() == WidthView::Terminal(t2.deep_view()));
            Ok(GenericWidth::Expr(op, Box::new(left), Box::new(right)))
        } else {
            Ok(GenericWidth::Terminal(t1))
        }
    }

    fn port_width(&mut self) -> (r: Result<GenericWidth, N2VError>)
        ensures
            agrees(r, final(self).input(), spec_port_width(old(self).input())),
    {
        proof {
            reveal(spec_port_width);
        }
        if self.peek_kind() != TokenType::LeftBracket {
            return Ok(GenericWidth::Terminal(Terminal::Num(1)));
        }
        let _t = self.advance();
        let width = match self.expr() {
            Ok(w) => w,
            Err(e) => {
                return Err(e);
            },
        };
        match self.consume(TokenType::RightBracket) {
            Ok(_) => Ok(width),
            Err(e) => Err(e),
        }
    }

    fn bus_idx(&mut self) -> (r: Result<(Option<GenericWidth>, Option<GenericWidth>), N2VError>)
        ensures
            agrees(r, final(self).input(), spec_bus_idx(old(self).input())),
    {
        proof {
            reveal(spec_bus_idx);
        }
        if self.peek_kind() != TokenType::LeftBracket {
            return Ok((None, None));
        }
        let _t = self.advance();
        let start = match self.expr() {
            Ok(w) => w,
            Err(e) => {
                return Err(e);
            },
        };
        let end = if self.peek_kind() == TokenType::Dot {
            let _t = self.advance();
            match self.consume(TokenType::Dot) {
                Ok(_) => {},
                Err(e) => {
                    return Err(e);
                },
            }
            match self.expr() {
                Ok(w) => w,
                Err(e) => {
                    return Err(e);
                },
            }
        } else {
            start.clone()
        };
        match self.consume(TokenType::RightBracket) {
            Ok(_) => Ok((Some(start), Some(end))),
            Err(e) => Err(e),
        }
    }

    fn generic_decls(&mut self) -> (r: Result<Vec<Identifier>, N2VError>)
        ensures
            agrees(r, final(self).input(), spec_generic_decls(old(self).input())),
    {
        proof {
            reveal(spec_generic_decls);
        }
        let mut res: Vec<Identifier> = Vec::new();
        assert(res.deep_view() =~= Seq::empty());
        if self.peek_kind() != TokenType::LeftAngle {
            return Ok(res);
        }
        let _t = self.advance();
        loop
            invariant
                spec_decl_list(self.input(), res.deep_view()) == spec_generic_decls(
                    old(self).input(),
                ),
            decreases self.input().tokens.len(),
        {
            let ghost before = res.deep_view();
            let t = match self.consume(TokenType::Identifier) {
                Ok(t) => t,
                Err(e) => {
                    return Err(e);
                },
            };
            res.push(Identifier::from_token(t));
            assert(res.deep_view() =~= before.push(identifier_of(t@)));
            if self.peek_kind() == TokenType::Comma {
                let _t = self.advance();
            } else {
                match self.consume(TokenType::RightAngle) {
                    Ok(_) => {
                        return Ok(res);
                    },
                    Err(e) => {
                        return Err(e);
                    },
                }
            }
        }
    }

    fn generics(&mut self) -> (r: Result<Vec<GenericWidth>, N2VError>)
        ensures
            agrees(r, final(self).input(), spec_generics(old(self).input())),
    {
        proof {
            reveal(spec_generics);
        }
        let mut res: Vec<GenericWidth> = Vec::new();
        assert(res.deep_view() =~= Seq::empty());
        if self.peek_kind() != TokenType::LeftAngle {
            return Ok(res);
        }
        let _t = self.advance();
        loop
            invariant
                spec_arg_list(self.input(), res.deep_view()) == spec_generics(old(self).input()),
            decreases self.input().tokens.len(),
        {
            let ghost before = res.deep_view();
            let t = match self.terminal() {
                Ok(t) => t,
                Err(e) => {
                    return Err(e);
                },
            };
            let ghost tv = t.deep_view();
            res.push(GenericWidth::Terminal(t));
            assert(res.deep_view() =~= before.push(WidthView::Terminal(tv)));
            if self.peek_kind() == TokenType::Comma {
                let _t = self.advance();
            } else {
                match self.consume(TokenType::RightAngle) {
                    Ok(_) => {
                        return Ok(res);
                    },
                    Err(e) => {
                        return Err(e);
                    },
                }
            }
        }
    }

    /// Reads the ports of one direction and the `;` behind them, and appends
    /// them to `res`.
    fn port_names(&mut self, direction: PortDirection, acc: Vec<GenericPort>) -> (r: Result<
        Vec<GenericPort>,
        N2VError,
    >)
        ensures
            agrees(
                r,
                final(self).input(),
                spec_port_names(old(self).input(), direction, acc.deep_view()),
            ),
    {
        let ghost want = spec_port_names(old(self).input(), direction, acc.deep_view());
        let mut res = acc;
        loop
            invariant
                spec_port_names(self.input(), direction, res.deep_view()) == want,
                want == spec_port_names(old(self).input(), direction, acc.deep_view()),
            decreases self.input().tokens.len(),
        {
            let ghost before = res.deep_view();
            proof {
                lemma_port_width_not_longer(self.input().rest());
            }
            let t = match self.consume(TokenType::Identifier) {
                Ok(t) => t,
                Err(e) => {
                    return Err(e);
                },
            };
            let width = match self.port_width() {
                Ok(w) => w,
                Err(e) => {
                    return Err(e);
                },
            };
            let ghost pv = PortView {
                name: identifier_of(t@),
                width: width.deep_view(),
                direction,
            };
            res.push(GenericPort { name: Identifier::from_token(t), width, direction });
            assert(res.deep_view() =~= before.push(pv));
            if self.peek_kind() == TokenType::Comma {
                let _t = self.advance();
            } else {
                match self.consume(TokenType::Semicolon) {
                    Ok(_) => {
                        return Ok(res);
                    },
                    Err(e) => {
                        return Err(e);
                    },
                }
            }
        }
    }

    fn mapping(&mut self) -> (r: Result<PortMapping, N2VError>)
        ensures
            agrees(r, final(self).input(), spec_mapping(old(self).input())),
    {
        proof {
            reveal(spec_mapping);
        }
        let port = match self.consume(TokenType::Identifier) {
            Ok(t) => t,
            Err(e) => {
                return Err(e);
            },
        };
        let (port_start, port_end) = match self.bus_idx() {
            Ok(i) => i,
            Err(e) => {
                return Err(e);
            },
        };
        match self.consume(TokenType::Equal) {
            Ok(_) => {},
            Err(e) => {
                return Err(e);
            },
        }
        let wire = match self.consume(TokenType::Identifier) {
            Ok(t) => t,
            Err(e) => {
                return Err(e);
            },
        };
        let (wire_start, wire_end) = match self.bus_idx() {
            Ok(i) => i,
            Err(e) => {
                return Err(e);
            },
        };
        let port_name = port.lexeme.clone();
        Ok(
            PortMapping {
                wire_ident: Identifier::from_token(port),
                wire: BusHDL { name: wire.lexeme, start: wire_start, end: wire_end },
                port: BusHDL { name: port_name, start: port_start, end: port_end },
            },
        )
    }

    /// One or more mappings, separated by commas.
    fn mapping_list(&mut self) -> (r: Result<Vec<PortMapping>, N2VError>)
        ensures
            agrees(r, final(self).input(), spec_mapping_list(old(self).input(), Seq::empty())),
    {
        let mut mappings: Vec<PortMapping> = Vec::new();
        assert(mappings.deep_view() =~= Seq::empty());
        loop
            invariant
                spec_mapping_list(self.input(), mappings.deep_view()) == spec_mapping_list(
                    old(self).input(),
                    Seq::empty(),
                ),
            decreases self.input().tokens.len(),
        {
            let ghost before = mappings.deep_view();
            proof {
                lemma_mapping_shorter(self.input());
            }
            let m = match self.mapping() {
                Ok(m) => m,
                Err(e) => {
                    return Err(e);
                },
            };
            let ghost mv = m.deep_view();
            mappings.push(m);
            assert(mappings.deep_view() =~= before.push(mv));
            if self.peek_kind() == TokenType::Comma {
                let _t = self.advance();
            } else {
                return Ok(mappings);
            }
        }
    }

    fn port_mappings(&mut self) -> (r: Result<Vec<PortMapping>, N2VError>)
        ensures
            agrees(r, final(self).input(), spec_port_mappings(old(self).input())),
    {
        proof {
            reveal(spec_port_mappings);
        }
        match self.consume(TokenType::LeftParen) {
            Ok(_) => {},
            Err(e) => {
                return Err(e);
            },
        }
        let mappings = if self.peek_kind() == TokenType::RightParen {
            let none: Vec<PortMapping> = Vec::new();
            assert(none.deep_view() =~= Seq::empty());
            none
        } else {
            match self.mapping_list() {
                Ok(m) => m,
                Err(e) => {
                    return Err(e);
                },
            }
        };
        match self.consume(TokenType::RightParen) {
            Ok(_) => {},
            Err(e) => {
                return Err(e);
            },
        }
        match self.consume(TokenType::Semicolon) {
            Ok(_) => Ok(mappings),
            Err(e) => Err(e),
        }
    }

    fn component(&mut self) -> (r: Result<Component, N2VError>)
        ensures
            agrees(r, final(self).input(), spec_component(old(self).input())),
    {
        proof {
            reveal(spec_component);
        }
        let name = match self.consume(TokenType::Identifier) {
            Ok(t) => t,
            Err(e) => {
                return Err(e);
            },
        };
        let generic_params = match self.generics() {
            Ok(g) => g,
            Err(e) => {
                return Err(e);
            },
        };
        let mappings = match self.port_mappings() {
            Ok(m) => m,
            Err(e) => {
                return Err(e);
            },
        };
        Ok(Component { name: Identifier::from_token(name), mappings, generic_params })
    }

    /// The components of a loop body, up to and with the closing `}`.
    fn components(&mut self) -> (r: Result<Vec<Component>, N2VError>)
        ensures
            agrees(r, final(self).input(), spec_components(old(self).input(), Seq::empty())),
    {
        let mut parts: Vec<Component> = Vec::new();
        assert(parts.deep_view() =~= Seq::empty());
        loop
            invariant
                spec_components(self.input(), parts.deep_view()) == spec_components(
                    old(self).input(),
                    Seq::empty(),
                ),
            decreases self.input().tokens.len(),
        {
            let ghost before = parts.deep_view();
            let k = self.peek_kind();
            if k == TokenType::Identifier {
                proof {
                    lemma_component_shorter(self.input());
                }
                let c = match self.component() {
                    Ok(c) => c,
                    Err(e) => {
                        return Err(e);
                    },
                };
                let ghost cv = c.deep_view();
                parts.push(c);
                assert(parts.deep_view() =~= before.push(cv));
            } else if k == TokenType::RightCurly {
                let _t = self.advance();
                return Ok(parts);
            } else {
                return Err(self.unexpected_here("identifier or `}`"));
            }
        }
    }

    fn for_loop(&mut self) -> (r: Result<Loop, N2VError>)
        ensures
            agrees(r, final(self).input(), spec_for_loop(old(self).input())),
    {
        proof {
            reveal(spec_for_loop);
        }
        match self.consume(TokenType::For) {
            Ok(_) => {},
            Err(e) => {
                return Err(e);
            },
        }
        let iterator = match self.consume(TokenType::Identifier) {
            Ok(t) => t,
            Err(e) => {
                return Err(e);
            },
        };
        match self.consume(TokenType::In) {
            Ok(_) => {},
            Err(e) => {
                return Err(e);
            },
        }
        let start = match self.expr() {
            Ok(w) => w,
            Err(e) => {
                return Err(e);
            },
        };
        match self.consume(TokenType::To) {
            Ok(_) => {},
            Err(e) => {
                return Err(e);
            },
        }
        let end = match self.expr() {
            Ok(w) => w,
            Err(e) => {
                return Err(e);
            },
        };
        match self.consume(TokenType::Generate) {
            Ok(_) => {},
            Err(e) => {
                return Err(e);
            },
        }
        match self.consume(TokenType::LeftCurly) {
            Ok(_) => {},
            Err(e) => {
                return Err(e);
            },
        }
        let body = match self.components() {
            Ok(b) => b,
            Err(e) => {
                return Err(e);
            },
        };
        Ok(Loop { start, end, iterator: Identifier::from_token(iterator), body })
    }

    /// The parts of a chip, up to and with the `}` that closes the chip. The
    /// list may hold loops.
    fn parts(&mut self) -> (r: Result<Vec<Part>, N2VError>)
        ensures
            agrees(r, final(self).input(), spec_parts(old(self).input(), Seq::empty())),
    {
        let mut parts: Vec<Part> = Vec::new();
        assert(parts.deep_view() =~= Seq::empty());
        loop
            invariant
                spec_parts(self.input(), parts.deep_view()) == spec_parts(
                    old(self).input(),
                    Seq::empty(),
                ),
            decreases self.input().tokens.len(),
        {
            let ghost before = parts.deep_view();
            let k = self.peek_kind();
            if k == TokenType::Identifier {
                proof {
                    lemma_component_shorter(self.input());
                }
                let c = match self.component() {
                    Ok(c) => c,
                    Err(e) => {
                        return Err(e);
                    },
                };
                let ghost cv = c.deep_view();
                parts.push(Part::Component(c));
                assert(parts.deep_view() =~= before.push(PartView::Component(cv)));
            } else if k == TokenType::For {
                proof {
                    lemma_for_loop_shorter(self.input());
                }
                let l = match self.for_loop() {
                    Ok(l) => l,
                    Err(e) => {
                        return Err(e);
                    },
                };
                let ghost lv = l.deep_view();
                parts.push(Part::Loop(l));
                assert(parts.deep_view() =~= before.push(PartView::Loop(lv)));
            } else if k == TokenType::RightCurly {
                let _t = self.advance();
                return Ok(parts);
            } else {
                return Err(self.unexpected_here("identifier, FOR, or `}`"));
            }
        }
    }

    fn ports(&mut self) -> (r: Result<Vec<GenericPort>, N2VError>)
        ensures
            agrees(r, final(self).input(), spec_ports(old(self).input())),
    {
        proof {
            reveal(spec_ports);
        }
        match self.consume(TokenType::In) {
            Ok(_) => {},
            Err(e) => {
                return Err(e);
            },
        }
        let none: Vec<GenericPort> = Vec::new();
        assert(none.deep_view() =~= Seq::empty());
        let ins = match self.port_names(PortDirection::In, none) {
            Ok(p) => p,
            Err(e) => {
                return Err(e);
            },
        };
        match self.consume(TokenType::Out) {
            Ok(_) => {},
            Err(e) => {
                return Err(e);
            },
        }
        self.port_names(PortDirection::Out, ins)
    }

    fn chip(&mut self) -> (r: Result<ChipHDL, N2VError>)
        ensures
            agrees(r, final(self).input(), spec_chip(old(self).input())),
    {
        proof {
            reveal(spec_chip);
        }
        let path = self.scanner.path();
        match self.consume(TokenType::Chip) {
            Ok(_) => {},
            Err(e) => {
                return Err(e);
            },
        }
        let chip_name = match self.consume(TokenType::Identifier) {
            Ok(t) => t,
            Err(e) => {
                return Err(e);
            },
        };
        let generic_decls = match self.generic_decls() {
            Ok(g) => g,
            Err(e) => {
                return Err(e);
            },
        };
        match self.consume(TokenType::LeftCurly) {
            Ok(_) => {},
            Err(e) => {
                return Err(e);
            },
        }
        let ports = match self.ports() {
            Ok(p) => p,
            Err(e) => {
                return Err(e);
            },
        };
        match self.consume(TokenType::Parts) {
            Ok(_) => {},
            Err(e) => {
                return Err(e);
            },
        }
        match self.consume(TokenType::Colon) {
            Ok(_) => {},
            Err(e) => {
                return Err(e);
            },
        }
        let parts = match self.parts() {
            Ok(p) => p,
            Err(e) => {
                return Err(e);
            },
        };
        Ok(
            ChipHDL {
                name: chip_name.lexeme,
                ports,
                parts,
                path: Some(path),
                generic_decls,
            },
        )
    }
}


/// The result `r` of an executable function is the outcome `want`, whatever
/// input was left.
pub open spec fn yields<T: DeepView>(r: Result<T, N2VError>, want: Parsed<T::V>) -> bool {
    match want {
        Parsed::Done(v, rest) => r is Ok && r->Ok_0.deep_view() == v,
        Parsed::Failed(e) => r is Err && r->Err_0@ == e,
    }
}

/// The outcome of parsing the text `source`, which was read from `path`, as
/// one chip.
pub open spec fn parse_text(source: Seq<char>, path: Seq<char>) -> Parsed<ChipView> {
    spec_chip(
        Input {
            tokens: crate::scanner::tokens_from(source, path, 0),
            eof: crate::scanner::eof_token(source, path),
        },
    )
}

/// Parses `source`, which was read from `path`, as one chip.
pub fn parse_source(source: &str, path: &str) -> (r: Result<ChipHDL, N2VError>)
    ensures
        yields(r, parse_text(source@, path@)),
{
    let mut parser = Parser::new(Scanner::new(source, path));
    parser.parse()
}

/// The error of asking a chip for a port that it does not have.
pub open spec fn no_such_port(name: Seq<char>) -> ErrorView {
    ErrorView { msg: "Attempt to get non-existent port "@ + name, kind: crate::error::ErrorKindView::Other }
}

impl ChipHDL {
    /// The first port named `name`; an error of kind `Other` where the chip
    /// has none.
    pub fn get_port(&self, name: &str) -> (r: Result<&GenericPort, N2VError>)
        ensures
            r is Ok <==> exists|i: int|
                0 <= i < self.ports@.len() && (#[trigger] self.ports@[i]).name.value@ == name@,
            r is Ok ==> exists|i: int|
                {
                    &&& 0 <= i < self.ports@.len()
                    &&& *r->Ok_0 == #[trigger] self.ports@[i]
                    &&& self.ports@[i].name.value@ == name@
                    &&& forall|j: int| 0 <= j < i ==> (#[trigger] self.ports@[j]).name.value@ != name@
                },
            r is Err ==> r->Err_0@ == no_such_port(name@),
    {
        let wanted = String::from_str(name);
        let mut i: usize = 0;
        while i < self.ports.len()
            invariant
                i <= self.ports@.len(),
                wanted@ == name@,
                forall|j: int| 0 <= j < i ==> (#[trigger] self.ports@[j]).name.value@ != name@,
            decreases self.ports@.len() - i,
        {
            if self.ports[i].name.value == wanted {
                return Ok(&self.ports[i]);
            }
            i = i + 1;
        }
        Err(
            N2VError {
                msg: String::from_str("Attempt to get non-existent port ").concat(name),
                kind: ErrorKind::Other,
            },
        )
    }
}

/// A source of HDL texts by file name.
pub trait HdlProvider {
    /// The text of the file `file_name`, or the error of reading it.
    fn get_hdl(&self, file_name: &str) -> Result<String, std::io::Error>;

    /// Where the file `file_name` is found.
    fn get_path(&self, file_name: &str) -> String;
}

/// The directory that HDL files are read from.
pub struct FileReader {
    base_path: String,
}

impl FileReader {
    /// The directory of this reader.
    pub closed spec fn base(&self) -> Seq<char> {
        self.base_path@
    }

    /// A reader for the directory `base_path`, which is not the empty string:
    /// files of the current directory are reached through `./`.
    pub fn new(base_path: &str) -> (reader: FileReader)
        requires
            base_path@.len() > 0,
        ensures
            reader.base() == base_path@,
    {
        FileReader { base_path: String::from_str(base_path) }
    }

    /// The directory of this reader.
    pub fn base_path(&self) -> (p: &str)
        ensures
            p@ == self.base(),
    {
        self.base_path.as_str()
    }
}

/// `c` is the letter `lower` in either case.
pub open spec fn is_letter_of(c: char, lower: char, upper: char) -> bool {
    c == lower || c == upper
}

/// The name is `nand`, in any mix of cases.
pub open spec fn is_nand_name(s: Seq<char>) -> bool {
    &&& s.len() == 4
    &&& is_letter_of(s[0], 'n', 'N')
    &&& is_letter_of(s[1], 'a', 'A')
    &&& is_letter_of(s[2], 'n', 'N')
    &&& is_letter_of(s[3], 'd', 'D')
}

/// The name is `dff`, in any mix of cases.
pub open spec fn is_dff_name(s: Seq<char>) -> bool {
    &&& s.len() == 3
    &&& is_letter_of(s[0], 'd', 'D')
    &&& is_letter_of(s[1], 'f', 'F')
    &&& is_letter_of(s[2], 'f', 'F')
}

/// A one-bit port named `name` that belongs to no file.
pub open spec fn unit_port(name: Seq<char>, direction: PortDirection) -> PortView {
    PortView {
        name: bare_identifier(name),
        width: WidthView::Terminal(TerminalView::Num(1)),
        direction,
    }
}

/// The built-in chip `NAND`: inputs `a` and `b`, output `out`, no parts.
pub open spec fn nand_chip() -> ChipView {
    ChipView {
        name: "NAND"@,
        ports: seq![
            unit_port("a"@, PortDirection::In),
            unit_port("b"@, PortDirection::In),
            unit_port("out"@, PortDirection::Out),
        ],
        parts: Seq::empty(),
        path: None,
        generic_decls: Seq::empty(),
    }
}

/// The built-in chip `DFF`: input `in`, output `out`, no parts.
pub open spec fn dff_chip() -> ChipView {
    ChipView {
        name: "DFF"@,
        ports: seq![unit_port("in"@, PortDirection::In), unit_port("out"@, PortDirection::Out)],
        parts: Seq::empty(),
        path: None,
        generic_decls: Seq::empty(),
    }
}

/// The error of a chip whose file could not be read.
pub open spec fn unreadable(file_name: Seq<char>) -> ErrorView {
    ErrorView { msg: "Unable to get HDL for "@ + file_name, kind: crate::error::ErrorKindView::IoError }
}

/// The chip named `name` when its file `name.hdl` was read with the outcome
/// `fetched`: the parsed text, or the error of kind `IoError`.
pub open spec fn resolved(name: Seq<char>, fetched: Option<Seq<char>>) -> Parsed<ChipView> {
    match fetched {
        Some(text) => parse_text(text, name + ".hdl"@),
        None => Parsed::Failed(unreadable(name + ".hdl"@)),
    }
}

/// Whether `name` is `nand` in any mix of cases.
pub fn is_nand(name: &str) -> (b: bool)
    ensures
        b == is_nand_name(name@),
{
    if name.unicode_len() != 4 {
        return false;
    }
    let c0 = name.get_char(0);
    let c1 = name.get_char(1);
    let c2 = name.get_char(2);
    let c3 = name.get_char(3);
    (c0 == 'n' || c0 == 'N') && (c1 == 'a' || c1 == 'A') && (c2 == 'n' || c2 == 'N') && (c3 == 'd'
        || c3 == 'D')
}

/// Whether `name` is `dff` in any mix of cases.
pub fn is_dff(name: &str) -> (b: bool)
    ensures
        b == is_dff_name(name@),
{
    if name.unicode_len() != 3 {
        return false;
    }
    let c0 = name.get_char(0);
    let c1 = name.get_char(1);
    let c2 = name.get_char(2);
    (c0 == 'd' || c0 == 'D') && (c1 == 'f' || c1 == 'F') && (c2 == 'f' || c2 == 'F')
}

fn unit_port_of(name: &str, direction: PortDirection) -> (p: GenericPort)
    ensures
        p.deep_view() == unit_port(name@, direction),
{
    GenericPort {
        name: Identifier::from(name),
        width: GenericWidth::Terminal(Terminal::Num(1)),
        direction,
    }
}

/// The parse tree of the built-in chip `NAND`.
pub fn nand_hdl() -> (chip: ChipHDL)
    ensures
        chip.deep_view() == nand_chip(),
{
    let mut ports: Vec<GenericPort> = Vec::new();
    ports.push(unit_port_of("a", PortDirection::In));
    ports.push(unit_port_of("b", PortDirection::In));
    ports.push(unit_port_of("out", PortDirection::Out));
    let chip = ChipHDL {
        name: String::from_str("NAND"),
        ports,
        parts: Vec::new(),
        path: None,
        generic_decls: Vec::new(),
    };
    assert(chip.deep_view().ports =~= nand_chip().ports);
    assert(chip.deep_view().parts =~= nand_chip().parts);
    assert(chip.deep_view().generic_decls =~= nand_chip().generic_decls);
    chip
}

/// The parse tree of the built-in chip `DFF`.
pub fn dff_hdl() -> (chip: ChipHDL)
    ensures
        chip.deep_view() == dff_chip(),
{
    let mut ports: Vec<GenericPort> = Vec::new();
    ports.push(unit_port_of("in", PortDirection::In));
    ports.push(unit_port_of("out", PortDirection::Out));
    let chip = ChipHDL {
        name: String::from_str("DFF"),
        ports,
        parts: Vec::new(),
        path: None,
        generic_decls: Vec::new(),
    };
    assert(chip.deep_view().ports =~= dff_chip().ports);
    assert(chip.deep_view().parts =~= dff_chip().parts);
    assert(chip.deep_view().generic_decls =~= dff_chip().generic_decls);
    chip
}

/// The built-in chip that `name` stands for, if it stands for one.
pub fn builtin_chip(name: &str) -> (r: Option<ChipHDL>)
    ensures
        is_nand_name(name@) ==> r is Some && r->Some_0.deep_view() == nand_chip(),
        is_dff_name(name@) ==> r is Some && r->Some_0.deep_view() == dff_chip(),
        !is_nand_name(name@) && !is_dff_name(name@) ==> r is None,
{
    if is_nand(name) {
        Some(nand_hdl())
    } else if is_dff(name) {
        Some(dff_hdl())
    } else {
        None
    }
}

/// The file that defines the chip `name`: `name.hdl`.
pub fn file_name_of(name: &str) -> (file_name: String)
    ensures
        file_name@ == name@ + ".hdl"@,
{
    String::from_str(name).concat(".hdl")
}

/// The chip named `name`, which is no built-in chip, from what reading its
/// file `name.hdl` gave.
pub fn resolve_fetched(name: &str, fetched: Option<String>) -> (r: Result<ChipHDL, N2VError>)
    ensures
        yields(r, resolved(name@, fetched.deep_view())),
{
    let file_name = file_name_of(name);
    match fetched {
        Some(text) => parse_source(text.as_str(), file_name.as_str()),
        None => Err(
            N2VError {
                msg: String::from_str("Unable to get HDL for ").concat(file_name.as_str()),
                kind: ErrorKind::IoError,
            },
        ),
    }
}

/// Looks up the definition of the chip `name` (without the `.hdl` ending).
/// `NAND` and `DFF`, in any mix of cases, are built in. Any other chip is the
/// parsed text of the file `name.hdl`, which `provider` is asked for once.
pub fn get_hdl<P: HdlProvider>(name: &str, provider: &P) -> (r: Result<ChipHDL, N2VError>)
    ensures
        is_nand_name(name@) ==> r is Ok && r->Ok_0.deep_view() == nand_chip(),
        is_dff_name(name@) ==> r is Ok && r->Ok_0.deep_view() == dff_chip(),
        !is_nand_name(name@) && !is_dff_name(name@) ==> exists|fetched: Option<Seq<char>>|
            yields(r, #[trigger] resolved(name@, fetched)),
{
    match builtin_chip(name) {
        Some(chip) => Ok(chip),
        None => {
            let file_name = file_name_of(name);
            let fetched = match provider.get_hdl(file_name.as_str()) {
                Ok(text) => Some(text),
                Err(_) => None,
            };
            let r = resolve_fetched(name, fetched);
            assert(yields(r, resolved(name@, fetched.deep_view())));
            r
        },
    }
}


/// The ports that `spec_port_names` adds all have the direction that it was
/// given, there is at least one of them, and they come behind what was
/// there before.
proof fn lemma_port_names_extend(inp: Input, direction: PortDirection, acc: Seq<PortView>)
    ensures
        match spec_port_names(inp, direction, acc) {
            Parsed::Done(ports, _) => {
                &&& ports.len() > acc.len()
                &&& ports.subrange(0, acc.len() as int) == acc
                &&& forall|i: int|
                    acc.len() <= i < ports.len() ==> (#[trigger] ports[i]).direction == direction
            },
            Parsed::Failed(_) => true,
        },
    decreases inp.tokens.len(),
{
    match spec_consume(inp, TokenType::Identifier) {
        Parsed::Failed(e) => {},
        Parsed::Done(t, r) => {
            lemma_port_width_not_longer(r);
            match spec_port_width(r) {
                Parsed::Failed(e) => {},
                Parsed::Done(w, r2) => {
                    let acc2 = acc.push(PortView { name: identifier_of(t), width: w, direction });
                    if r2.kind() == TokenType::Comma {
                        lemma_port_names_extend(r2.rest(), direction, acc2);
                        match spec_port_names(r2.rest(), direction, acc2) {
                            Parsed::Done(ports, _) => {
                                assert(ports.subrange(0, acc.len() as int) =~= acc2.subrange(
                                    0,
                                    acc.len() as int,
                                ));
                                assert(acc2.subrange(0, acc.len() as int) =~= acc);
                                assert forall|i: int| acc.len() <= i < ports.len() implies (
                                #[trigger] ports[i]).direction == direction by {
                                    if i == acc.len() {
                                        assert(ports.subrange(0, acc2.len() as int)[i] == acc2[i]);
                                    }
                                }
                            },
                            Parsed::Failed(_) => {},
                        }
                    } else {
                        assert(acc2.subrange(0, acc.len() as int) =~= acc);
                    }
                },
            }
        },
    }
}

/// The ports of a parsed chip are its inputs, at least one, then its
/// outputs, at least one, each in the order of the text: `inputs` is the
/// number of the inputs.
pub open spec fn inputs_then_outputs(ports: Seq<PortView>, inputs: int) -> bool {
    &&& 1 <= inputs < ports.len()
    &&& forall|i: int| 0 <= i < inputs ==> (#[trigger] ports[i]).direction == PortDirection::In
    &&& forall|i: int|
        inputs <= i < ports.len() ==> (#[trigger] ports[i]).direction == PortDirection::Out
}

/// Every chip that parses has one port for each name of its `IN` section,
/// with the direction `In`, followed by one port for each name of its `OUT`
/// section, with the direction `Out`.
pub proof fn law_ports_as_declared(inp: Input)
    ensures
        match spec_chip(inp) {
            Parsed::Done(chip, _) => exists|inputs: int| inputs_then_outputs(chip.ports, inputs),
            Parsed::Failed(_) => true,
        },
{
    reveal(spec_chip);
    reveal(spec_ports);
    match spec_chip(inp) {
        Parsed::Done(chip, _) => {
            let r2 = inp.rest().rest();
            match spec_generic_decls(r2) {
                Parsed::Done(decls, r3) => {
                    let r4 = r3.rest();
                    let r5 = r4.rest();
                    lemma_port_names_extend(r5, PortDirection::In, Seq::empty());
                    match spec_port_names(r5, PortDirection::In, Seq::empty()) {
                        Parsed::Done(ins, r6) => {
                            lemma_port_names_extend(r6.rest(), PortDirection::Out, ins);
                            match spec_port_names(r6.rest(), PortDirection::Out, ins) {
                                Parsed::Done(ports, _) => {
                                    assert(chip.ports == ports);
                                    assert forall|i: int| 0 <= i < ins.len() implies (
                                    #[trigger] ports[i]).direction == PortDirection::In by {
                                        assert(ports.subrange(0, ins.len() as int)[i] == ins[i]);
                                    }
                                    assert(inputs_then_outputs(ports, ins.len() as int));
                                },
                                Parsed::Failed(_) => {},
                            }
                        },
                        Parsed::Failed(_) => {},
                    }
                },
                Parsed::Failed(_) => {},
            }
        },
        Parsed::Failed(_) => {},
    }
}

} // verus!
