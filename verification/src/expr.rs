//! Width expressions: literals, generic variables, and one addition or
//! subtraction; their evaluation and substitution under an environment.

use crate::parser::{Identifier, IdentifierView};
use vstd::prelude::*;
use vstd::string::*;

verus! {

/// The two operators of a width expression.
#[derive(Clone, Copy, PartialEq, Eq, Hash, Debug, Structural)]
pub enum Op {
    Add,
    Sub,
}

/// A leaf of a width expression: a number or a generic variable.
#[derive(Debug, PartialEq, Eq, Hash)]
pub enum Terminal {
    Num(usize),
    Var(Identifier),
}

/// A width expression.
#[derive(Debug, PartialEq, Eq, Hash)]
pub enum GenericWidth {
    Terminal(Terminal),
    Expr(Op, Box<GenericWidth>, Box<GenericWidth>),
}

/// The mathematical value of a [`Terminal`].
pub enum TerminalView {
    Num(usize),
    Var(IdentifierView),
}

/// The mathematical value of a [`GenericWidth`].
pub enum WidthView {
    Terminal(TerminalView),
    Expr(Op, Box<WidthView>, Box<WidthView>),
}

impl DeepView for Terminal {
    type V = TerminalView;

    open spec fn deep_view(&self) -> TerminalView {
        match *self {
            Terminal::Num(n) => TerminalView::Num(n),
            Terminal::Var(id) => TerminalView::Var(id.deep_view()),
        }
    }
}

/// The mathematical value of a width expression.
pub open spec fn width_view(w: GenericWidth) -> WidthView
    decreases w,
{
    match w {
        GenericWidth::Terminal(t) => WidthView::Terminal(t.deep_view()),
        GenericWidth::Expr(op, l, r) => WidthView::Expr(
            op,
            Box::new(width_view(*l)),
            Box::new(width_view(*r)),
        ),
    }
}

impl DeepView for GenericWidth {
    type V = WidthView;

    open spec fn deep_view(&self) -> WidthView {
        width_view(*self)
    }
}

impl Clone for Terminal {
    fn clone(&self) -> (t: Terminal)
        ensures
            t.deep_view() == self.deep_view(),
    {
        match self {
            Terminal::Num(n) => Terminal::Num(*n),
            Terminal::Var(id) => Terminal::Var(id.clone()),
        }
    }
}

impl Clone for GenericWidth {
    fn clone(&self) -> (w: GenericWidth)
        ensures
            w.deep_view() == self.deep_view(),
        decreases self,
    {
        match self {
            GenericWidth::Terminal(t) => GenericWidth::Terminal(t.clone()),
            GenericWidth::Expr(op, l, r) => {
                let left = (**l).clone();
                let right = (**r).clone();
                GenericWidth::Expr(*op, Box::new(left), Box::new(right))
            },
        }
    }
}

/// One binding of an environment.
#[derive(Debug)]
pub struct Binding {
    pub name: String,
    pub value: usize,
}

/// An environment: bindings of generic variables to numbers, the innermost
/// last. A later binding of a name shadows an earlier one.
#[derive(Debug)]
pub struct Env {
    pub bindings: Vec<Binding>,
}

impl View for Env {
    type V = Seq<(Seq<char>, usize)>;

    open spec fn view(&self) -> Seq<(Seq<char>, usize)> {
        Seq::new(self.bindings@.len(), |i: int| (self.bindings@[i].name@, self.bindings@[i].value))
    }
}

/// The number that `env` binds `name` to: that of its last binding of the name.
pub open spec fn lookup(env: Seq<(Seq<char>, usize)>, name: Seq<char>) -> Option<usize>
    decreases env.len(),
{
    if env.len() == 0 {
        None
    } else if env.last().0 == name {
        Some(env.last().1)
    } else {
        lookup(env.drop_last(), name)
    }
}

/// Why an expression has no value.
#[derive(Debug, PartialEq, Eq)]
pub enum EvalError {
    /// The named variable has no binding.
    UnboundGeneric(String),
    /// A subtraction went below zero, or an addition past `usize::MAX`.
    ArithmeticError,
}

/// The mathematical value of an [`EvalError`].
pub enum EvalErrorView {
    UnboundGeneric(Seq<char>),
    ArithmeticError,
}

impl View for EvalError {
    type V = EvalErrorView;

    open spec fn view(&self) -> EvalErrorView {
        match *self {
            EvalError::UnboundGeneric(name) => EvalErrorView::UnboundGeneric(name@),
            EvalError::ArithmeticError => EvalErrorView::ArithmeticError,
        }
    }
}

/// The value of applying `op` to two numbers.
pub open spec fn apply(op: Op, a: usize, b: usize) -> Result<usize, EvalErrorView> {
    match op {
        Op::Add => if a + b <= usize::MAX {
            Ok((a + b) as usize)
        } else {
            Err(EvalErrorView::ArithmeticError)
        },
        Op::Sub => if a >= b {
            Ok((a - b) as usize)
        } else {
            Err(EvalErrorView::ArithmeticError)
        },
    }
}

/// The value of `w` under `env`. The left operand is looked at first.
pub open spec fn eval(w: WidthView, env: Seq<(Seq<char>, usize)>) -> Result<usize, EvalErrorView>
    decreases w,
{
    match w {
        WidthView::Terminal(TerminalView::Num(n)) => Ok(n),
        WidthView::Terminal(TerminalView::Var(id)) => match lookup(env, id.value) {
            Some(v) => Ok(v),
            None => Err(EvalErrorView::UnboundGeneric(id.value)),
        },
        WidthView::Expr(op, l, r) => match eval(*l, env) {
            Err(e) => Err(e),
            Ok(a) => match eval(*r, env) {
                Err(e) => Err(e),
                Ok(b) => apply(op, a, b),
            },
        },
    }
}

/// `w` with each variable that `env` binds replaced by its number.
pub open spec fn subst(w: WidthView, env: Seq<(Seq<char>, usize)>) -> WidthView
    decreases w,
{
    match w {
        WidthView::Terminal(TerminalView::Num(n)) => w,
        WidthView::Terminal(TerminalView::Var(id)) => match lookup(env, id.value) {
            Some(v) => WidthView::Terminal(TerminalView::Num(v)),
            None => w,
        },
        WidthView::Expr(op, l, r) => WidthView::Expr(
            op,
            Box::new(subst(*l, env)),
            Box::new(subst(*r, env)),
        ),
    }
}

/// The names of the variables that occur in `w`.
pub open spec fn free(w: WidthView) -> Set<Seq<char>>
    decreases w,
{
    match w {
        WidthView::Terminal(TerminalView::Num(n)) => Set::empty(),
        WidthView::Terminal(TerminalView::Var(id)) => set![id.value],
        WidthView::Expr(op, l, r) => free(*l).union(free(*r)),
    }
}

impl Env {
    /// The environment without bindings.
    pub fn new() -> (env: Env)
        ensures
            env@ == Seq::<(Seq<char>, usize)>::empty(),
    {
        let env = Env { bindings: Vec::new() };
        assert(env@ =~= Seq::<(Seq<char>, usize)>::empty());
        env
    }

    /// Binds `name` to `value`, shadowing any earlier binding of the name.
    pub fn bind(&mut self, name: String, value: usize)
        ensures
            final(self)@ == old(self)@.push((name@, value)),
    {
        self.bindings.push(Binding { name, value });
        assert(self@ =~= old(self)@.push((name@, value)));
    }

    /// Drops the innermost binding, if there is one.
    pub fn unbind(&mut self)
        ensures
            old(self)@.len() > 0 ==> final(self)@ == old(self)@.drop_last(),
            old(self)@.len() == 0 ==> final(self)@ == old(self)@,
    {
        let _dropped = self.bindings.pop();
        assert(old(self)@.len() > 0 ==> self@ =~= old(self)@.drop_last());
        assert(old(self)@.len() == 0 ==> self@ =~= old(self)@);
    }

    /// A copy of this environment.
    pub fn duplicate(&self) -> (env: Env)
        ensures
            env@ == self@,
    {
        let mut bindings: Vec<Binding> = Vec::new();
        let mut i: usize = 0;
        while i < self.bindings.len()
            invariant
                i <= self.bindings@.len(),
                bindings@.len() == i,
                forall|j: int|
                    0 <= j < i ==> (#[trigger] bindings@[j]).name@ == self.bindings@[j].name@
                        && bindings@[j].value == self.bindings@[j].value,
            decreases self.bindings@.len() - i,
        {
            bindings.push(
                Binding { name: self.bindings[i].name.clone(), value: self.bindings[i].value },
            );
            i = i + 1;
        }
        let env = Env { bindings };
        assert(env@ =~= self@);
        env
    }

    /// The number bound to `name`, if any.
    pub fn lookup(&self, name: &String) -> (r: Option<usize>)
        ensures
            r == lookup(self@, name@),
    {
        let mut i: usize = self.bindings.len();
        assert(self@.subrange(0, i as int) =~= self@);
        while i > 0
            invariant
                i <= self.bindings.len(),
                lookup(self@, name@) == lookup(self@.subrange(0, i as int), name@),
            decreases i,
        {
            i = i - 1;
            assert(self@.subrange(0, i + 1).last() == self@[i as int]);
            assert(self@.subrange(0, i + 1).drop_last() =~= self@.subrange(0, i as int));
            if self.bindings[i].name == *name {
                return Some(self.bindings[i].value);
            }
        }
        assert(self@.subrange(0, 0).len() == 0);
        None
    }
}

/// Evaluates a width expression under an environment.
pub fn evaluate(expr: &GenericWidth, env: &Env) -> (r: Result<usize, EvalError>)
    ensures
        match r {
            Ok(v) => eval(expr.deep_view(), env@) == Ok::<usize, EvalErrorView>(v),
            Err(e) => eval(expr.deep_view(), env@) == Err::<usize, EvalErrorView>(e@),
        },
    decreases expr,
{
    match expr {
        GenericWidth::Terminal(Terminal::Num(n)) => Ok(*n),
        GenericWidth::Terminal(Terminal::Var(id)) => match env.lookup(&id.value) {
            Some(v) => Ok(v),
            None => Err(EvalError::UnboundGeneric(id.value.clone())),
        },
        GenericWidth::Expr(op, l, r) => {
            let a = match evaluate(l, env) {
                Ok(a) => a,
                Err(e) => {
                    return Err(e);
                },
            };
            let b = match evaluate(r, env) {
                Ok(b) => b,
                Err(e) => {
                    return Err(e);
                },
            };
            match op {
                Op::Add => if a <= usize::MAX - b {
                    Ok(a + b)
                } else {
                    Err(EvalError::ArithmeticError)
                },
                Op::Sub => if a >= b {
                    Ok(a - b)
                } else {
                    Err(EvalError::ArithmeticError)
                },
            }
        },
    }
}

/// Replaces each variable that `env` binds by its number and keeps the others.
pub fn substitute(expr: &GenericWidth, env: &Env) -> (r: GenericWidth)
    ensures
        r.deep_view() == subst(expr.deep_view(), env@),
    decreases expr,
{
    match expr {
        GenericWidth::Terminal(Terminal::Num(n)) => GenericWidth::Terminal(Terminal::Num(*n)),
        GenericWidth::Terminal(Terminal::Var(id)) => match env.lookup(&id.value) {
            Some(v) => GenericWidth::Terminal(Terminal::Num(v)),
            None => GenericWidth::Terminal(Terminal::Var(id.clone())),
        },
        GenericWidth::Expr(op, l, r) => {
            let left = substitute(l, env);
            let right = substitute(r, env);
            GenericWidth::Expr(*op, Box::new(left), Box::new(right))
        },
    }
}


/// The names that a list of strings holds.
pub open spec fn names_of(v: Seq<String>) -> Set<Seq<char>> {
    Set::new(|n: Seq<char>| exists|i: int| 0 <= i < v.len() && (#[trigger] v[i])@ == n)
}

/// No name occurs twice in the list.
pub open spec fn distinct_names(v: Seq<String>) -> bool {
    forall|i: int, j: int| 0 <= i < j < v.len() ==> (#[trigger] v[i])@ != (#[trigger] v[j])@
}

fn holds_name(v: &Vec<String>, name: &String) -> (b: bool)
    ensures
        b == names_of(v@).contains(name@),
{
    let mut i: usize = 0;
    while i < v.len()
        invariant
            i <= v@.len(),
            forall|j: int| 0 <= j < i ==> (#[trigger] v@[j])@ != name@,
        decreases v@.len() - i,
    {
        if v[i] == *name {
            return true;
        }
        i = i + 1;
    }
    false
}

fn collect_vars(expr: &GenericWidth, acc: &mut Vec<String>)
    requires
        distinct_names(old(acc)@),
    ensures
        distinct_names(final(acc)@),
        names_of(final(acc)@) == names_of(old(acc)@).union(free(expr.deep_view())),
    decreases expr,
{
    match expr {
        GenericWidth::Terminal(Terminal::Num(_)) => {
            assert(names_of(acc@) =~= names_of(old(acc)@).union(free(expr.deep_view())));
        },
        GenericWidth::Terminal(Terminal::Var(id)) => {
            if !holds_name(acc, &id.value) {
                acc.push(id.value.clone());
                assert forall|n: Seq<char>|
                    names_of(acc@).contains(n) == names_of(old(acc)@).union(
                        free(expr.deep_view()),
                    ).contains(n) by {
                    if names_of(acc@).contains(n) {
                        let i = choose|i: int| 0 <= i < acc@.len() && (#[trigger] acc@[i])@ == n;
                        if i < old(acc)@.len() {
                            assert(old(acc)@[i]@ == n);
                        }
                    }
                    if names_of(old(acc)@).contains(n) {
                        let i = choose|i: int|
                            0 <= i < old(acc)@.len() && (#[trigger] old(acc)@[i])@ == n;
                        assert(acc@[i]@ == n);
                    }
                    if n == id.value@ {
                        assert(acc@[acc@.len() - 1]@ == n);
                    }
                }
            }
            assert(names_of(acc@) =~= names_of(old(acc)@).union(free(expr.deep_view())));
        },
        GenericWidth::Expr(_, l, r) => {
            collect_vars(l, acc);
            collect_vars(r, acc);
            assert(names_of(acc@) =~= names_of(old(acc)@).union(free(expr.deep_view())));
        },
    }
}

/// The names of the variables of an expression, each once, in the order in
/// which they first occur.
pub fn free_vars(expr: &GenericWidth) -> (vars: Vec<String>)
    ensures
        names_of(vars@) == free(expr.deep_view()),
        distinct_names(vars@),
{
    let mut vars: Vec<String> = Vec::new();
    assert(names_of(vars@) =~= Set::empty());
    collect_vars(expr, &mut vars);
    assert(names_of(vars@) =~= free(expr.deep_view()));
    vars
}

/// An expression whose variables are all bound has a value, unless its
/// subtraction goes below zero or its addition past the largest number.
pub proof fn law_bound_expression_evaluates(w: WidthView, env: Seq<(Seq<char>, usize)>)
    requires
        forall|n: Seq<char>| free(w).contains(n) ==> lookup(env, n) is Some,
    ensures
        eval(w, env) is Ok || eval(w, env) == Err::<usize, EvalErrorView>(
            EvalErrorView::ArithmeticError,
        ),
    decreases w,
{
    match w {
        WidthView::Terminal(TerminalView::Num(n)) => {},
        WidthView::Terminal(TerminalView::Var(id)) => {
            assert(free(w).contains(id.value));
        },
        WidthView::Expr(op, l, r) => {
            assert forall|n: Seq<char>| free(*l).contains(n) implies lookup(env, n) is Some by {
                assert(free(w).contains(n));
            }
            assert forall|n: Seq<char>| free(*r).contains(n) implies lookup(env, n) is Some by {
                assert(free(w).contains(n));
            }
            law_bound_expression_evaluates(*l, env);
            law_bound_expression_evaluates(*r, env);
        },
    }
}

/// An unbound variable that evaluation reports occurs in the expression and
/// has no binding.
pub proof fn law_unbound_is_free(w: WidthView, env: Seq<(Seq<char>, usize)>, name: Seq<char>)
    requires
        eval(w, env) == Err::<usize, EvalErrorView>(EvalErrorView::UnboundGeneric(name)),
    ensures
        free(w).contains(name),
        lookup(env, name) is None,
    decreases w,
{
    match w {
        WidthView::Terminal(TerminalView::Num(n)) => {},
        WidthView::Terminal(TerminalView::Var(id)) => {},
        WidthView::Expr(op, l, r) => {
            if eval(*l, env) is Err {
                law_unbound_is_free(*l, env, name);
            } else {
                law_unbound_is_free(*r, env, name);
            }
        },
    }
}

/// Substitution leaves exactly the variables that the environment does not
/// bind, and does not change the value of the expression under that
/// environment.
pub proof fn law_substitution(w: WidthView, env: Seq<(Seq<char>, usize)>)
    ensures
        forall|n: Seq<char>|
            #[trigger] free(subst(w, env)).contains(n) <==> free(w).contains(n) && lookup(env, n)
                is None,
        eval(subst(w, env), env) == eval(w, env),
    decreases w,
{
    match w {
        WidthView::Terminal(TerminalView::Num(n)) => {},
        WidthView::Terminal(TerminalView::Var(id)) => {},
        WidthView::Expr(op, l, r) => {
            law_substitution(*l, env);
            law_substitution(*r, env);
            assert forall|n: Seq<char>| #[trigger]
                free(subst(w, env)).contains(n) <==> free(w).contains(n) && lookup(env, n)
                    is None by {
                assert(free(subst(w, env)).contains(n) <==> free(subst(*l, env)).contains(n)
                    || free(subst(*r, env)).contains(n));
            }
        },
    }
}

} // verus!
