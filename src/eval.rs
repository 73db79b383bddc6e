use vstd::prelude::*;
use crate::function::{Function, call_spec, pop_or_default, pop_or_nan};
use crate::number::{FloatUnit, Number, binary_spec, neg_spec};

verus! {

/// A binary or unary operator of the instruction set.
#[derive(Clone, Copy, PartialEq, Eq, Debug, Structural)]
pub enum Op {
    /// a + b
    Add,
    /// a - b
    Sub,
    /// a * b
    Mul,
    /// a / b
    Div,
    /// a % b
    Mod,
    /// a ^ b
    Pow,
}

/// The name of a variable.
#[derive(Clone, Debug, PartialEq, Eq, Hash)]
pub struct Ident(String);

impl View for Ident {
    type V = Seq<char>;

    closed spec fn view(&self) -> Seq<char> {
        self.0@
    }
}

impl Ident {
    pub fn new(s: &str) -> (r: Ident)
        ensures
            r@ == s@,
    {
        Ident(s.to_owned())
    }

    /// Whether the two names are the same text.
    pub fn same(&self, other: &Ident) -> (r: bool)
        ensures
            r == (self@ == other@),
    {
        self.0 == other.0
    }

    fn duplicate(&self) -> (r: Ident)
        ensures
            r@ == self@,
    {
        Ident(self.0.clone())
    }
}

/// One instruction of a compiled program.
#[derive(Clone, Debug, PartialEq)]
pub enum Expression {
    /// push a number
    Val(Number),
    /// pop the right operand, then the left one, push the result
    BinaryOp(Op),
    /// pop the operand, push the result
    UnaryOp(Op),
    /// call a built-in function on the top of the stack
    FuncCall(Function),
    /// store the top of the stack in a variable, and keep it there
    Assign(Ident),
    /// push the value of a variable
    Ref(Ident),
}

/// What an instruction is, with names as text.
pub enum Instr {
    Val(Number),
    BinaryOp(Op),
    UnaryOp(Op),
    FuncCall(Function),
    Assign(Seq<char>),
    Ref(Seq<char>),
}

impl View for Expression {
    type V = Instr;

    open spec fn view(&self) -> Instr {
        match self {
            Expression::Val(n) => Instr::Val(*n),
            Expression::BinaryOp(op) => Instr::BinaryOp(*op),
            Expression::UnaryOp(op) => Instr::UnaryOp(*op),
            Expression::FuncCall(f) => Instr::FuncCall(*f),
            Expression::Assign(id) => Instr::Assign(id@),
            Expression::Ref(id) => Instr::Ref(id@),
        }
    }
}

/// A compiled program, with names as text.
pub open spec fn code_of(p: Seq<Expression>) -> Seq<Instr> {
    p.map_values(|e: Expression| e@)
}

/// The value of a unary operator applied to `x`.
pub open spec fn unary_spec(op: Op, x: Number) -> Number {
    match op {
        Op::Add => x,
        Op::Sub => neg_spec(x),
        _ => Number::NaN,
    }
}

/// The stack and the variables after one instruction; `fo` is the double
/// that the float arithmetic gave, where the instruction asked for one.
pub open spec fn step(
    e: Expression,
    stack: Seq<Number>,
    vars: Map<Seq<char>, Number>,
    fo: u64,
) -> (Seq<Number>, Map<Seq<char>, Number>) {
    match e {
        Expression::Val(n) => (stack.push(n), vars),
        Expression::BinaryOp(op) => {
            let (s1, r) = pop_or_nan(stack);
            let (s2, l) = pop_or_nan(s1);
            (s2.push(binary_spec(op, l, r, fo)), vars)
        },
        Expression::UnaryOp(op) => {
            let (s1, x) = pop_or_nan(stack);
            (s1.push(unary_spec(op, x)), vars)
        },
        Expression::FuncCall(f) => {
            let (s1, r) = call_spec(f.kind, stack, fo);
            (s1.push(r), vars)
        },
        Expression::Assign(id) => {
            let (s1, x) = pop_or_nan(stack);
            (s1.push(x), vars.insert(id@, x))
        },
        Expression::Ref(id) => {
            let x = if vars.contains_key(id@) {
                vars[id@]
            } else {
                Number::NaN
            };
            (stack.push(x), vars)
        },
    }
}

/// The stack and the variables after running `prog` from an empty stack;
/// `fos[i]` is what the float arithmetic gave for instruction `i`.
pub open spec fn run(prog: Seq<Expression>, vars: Map<Seq<char>, Number>, fos: Seq<u64>) -> (
    Seq<Number>,
    Map<Seq<char>, Number>,
)
    decreases prog.len(),
{
    if prog.len() == 0 {
        (Seq::empty(), vars)
    } else {
        let prev = run(prog.drop_last(), vars, fos);
        step(prog.last(), prev.0, prev.1, fos[prog.len() - 1])
    }
}

/// The result of a program: the top of the final stack, or the error value.
pub open spec fn result_of(stack: Seq<Number>) -> Number {
    pop_or_nan(stack).1
}

/// An assignment keeps its value on the stack and in the variables: a later
/// load of the same name, on any stack, pushes that value.
pub proof fn lemma_assignment_is_remembered(
    stack: Seq<Number>,
    vars: Map<Seq<char>, Number>,
    x: Ident,
    y: Ident,
    later: Seq<Number>,
    fo1: u64,
    fo2: u64,
)
    requires
        y@ == x@,
    ensures
        step(Expression::Assign(x), stack, vars, fo1).0.last() == pop_or_nan(stack).1,
        step(
            Expression::Ref(y),
            later,
            step(Expression::Assign(x), stack, vars, fo1).1,
            fo2,
        ).0 == later.push(pop_or_nan(stack).1),
{
    let v = vars.insert(x@, pop_or_nan(stack).1);
    assert(v.contains_key(y@));
}

/// Only the outcomes of the instructions that ran count.
proof fn lemma_run_prefix(prog: Seq<Expression>, vars: Map<Seq<char>, Number>, f1: Seq<u64>, f2: Seq<u64>)
    requires
        f1.len() >= prog.len(),
        f2.len() >= prog.len(),
        forall|i: int| 0 <= i < prog.len() ==> f1[i] == f2[i],
    ensures
        run(prog, vars, f1) == run(prog, vars, f2),
    decreases prog.len(),
{
    if prog.len() > 0 {
        lemma_run_prefix(prog.drop_last(), vars, f1, f2);
    }
}

/// The value bound to `k` in an association list, the latest binding first.
pub open spec fn lookup(l: Seq<(Seq<char>, Number)>, k: Seq<char>) -> Option<Number>
    decreases l.len(),
{
    if l.len() == 0 {
        None
    } else if l.last().0 == k {
        Some(l.last().1)
    } else {
        lookup(l.drop_last(), k)
    }
}

pub open spec fn keys_unique(l: Seq<(Seq<char>, Number)>) -> bool {
    forall|i: int, j: int| 0 <= i < j < l.len() ==> l[i].0 != l[j].0
}

pub open spec fn as_map(l: Seq<(Seq<char>, Number)>) -> Map<Seq<char>, Number> {
    Map::new(|k: Seq<char>| lookup(l, k) is Some, |k: Seq<char>| lookup(l, k)->0)
}

proof fn lemma_lookup_found(l: Seq<(Seq<char>, Number)>, i: int)
    requires
        keys_unique(l),
        0 <= i < l.len(),
    ensures
        lookup(l, l[i].0) == Some(l[i].1),
    decreases l.len(),
{
    if i < l.len() - 1 {
        assert(l.drop_last()[i] == l[i]);
        lemma_lookup_found(l.drop_last(), i);
    }
}

proof fn lemma_lookup_absent(l: Seq<(Seq<char>, Number)>, k: Seq<char>)
    requires
        forall|i: int| 0 <= i < l.len() ==> (#[trigger] l[i]).0 != k,
    ensures
        lookup(l, k) is None,
    decreases l.len(),
{
    if l.len() > 0 {
        assert forall|i: int| 0 <= i < l.drop_last().len() implies (#[trigger] l.drop_last()[i]).0
            != k by {
            assert(l.drop_last()[i] == l[i]);
        }
        lemma_lookup_absent(l.drop_last(), k);
    }
}

proof fn lemma_lookup_update(l: Seq<(Seq<char>, Number)>, i: int, v: Number, k: Seq<char>)
    requires
        keys_unique(l),
        0 <= i < l.len(),
    ensures
        lookup(l.update(i, (l[i].0, v)), k) == (if k == l[i].0 {
            Some(v)
        } else {
            lookup(l, k)
        }),
    decreases l.len(),
{
    let m = l.update(i, (l[i].0, v));
    if i == l.len() - 1 {
        assert(m.drop_last() =~= l.drop_last());
    } else {
        assert(m.drop_last() =~= l.drop_last().update(i, (l[i].0, v)));
        assert(l.drop_last()[i] == l[i]);
        assert(m.last() == l.last());
        lemma_lookup_update(l.drop_last(), i, v, k);
    }
}

/// Runs compiled programs; the variables that they assign outlive each run.
pub struct Calculator {
    stack: Vec<Number>,
    vars: Vec<(Ident, Number)>,
}

impl Calculator {
    /// The variables, as an association list.
    pub closed spec fn bindings(&self) -> Seq<(Seq<char>, Number)> {
        self.vars@.map_values(|p: (Ident, Number)| (p.0@, p.1))
    }

    /// The variables and their values.
    pub open spec fn variables(&self) -> Map<Seq<char>, Number> {
        as_map(self.bindings())
    }

    pub closed spec fn wf(&self) -> bool {
        keys_unique(self.bindings())
    }

    pub closed spec fn stack_view(&self) -> Seq<Number> {
        self.stack@
    }

    pub fn new() -> (c: Calculator)
        ensures
            c.wf(),
            c.variables() == Map::<Seq<char>, Number>::empty(),
    {
        let c = Calculator { stack: Vec::new(), vars: Vec::new() };
        assert(c.bindings() =~= Seq::<(Seq<char>, Number)>::empty());
        assert(c.variables() =~= Map::<Seq<char>, Number>::empty());
        c
    }

    /// Runs `program` on an empty stack and returns the top of the final
    /// stack, or the error value if it is empty. Assignments update the
    /// variables.
    pub fn eval<F: FloatUnit>(&mut self, program: &[Expression]) -> (r: Number)
        requires
            old(self).wf(),
        ensures
            final(self).wf(),
            exists|fos: Seq<u64>|
                #![trigger run(program@, old(self).variables(), fos)]
                fos.len() == program@.len() && r == result_of(
                    run(program@, old(self).variables(), fos).0,
                ) && final(self).variables() == run(program@, old(self).variables(), fos).1,
    {
        self.stack.clear();
        assert(self.variables() == old(self).variables());
        let ghost vars0 = self.variables();
        let ghost mut fos: Seq<u64> = Seq::empty();
        let mut i: usize = 0;
        proof {
            assert(program@.subrange(0, 0) =~= Seq::<Expression>::empty());
        }
        while i < program.len()
            invariant
                self.wf(),
                i <= program@.len(),
                fos.len() == i,
                (self.stack_view(), self.variables()) == run(
                    program@.subrange(0, i as int),
                    vars0,
                    fos,
                ),
            decreases program@.len() - i,
        {
            let Ghost(fo) = self.exec_one::<F>(&program[i]);
            proof {
                let p1 = program@.subrange(0, i + 1);
                assert(p1.drop_last() =~= program@.subrange(0, i as int));
                lemma_run_prefix(program@.subrange(0, i as int), vars0, fos, fos.push(fo));
                fos = fos.push(fo);
            }
            i = i + 1;
        }
        proof {
            assert(program@.subrange(0, program@.len() as int) =~= program@);
        }
        let r = pop_or_default(&mut self.stack);
        proof {
            assert(vars0 == old(self).variables());
            assert(r == result_of(run(program@, vars0, fos).0));
            assert(self.variables() == run(program@, vars0, fos).1);
        }
        r
    }

    /// Runs one instruction; returns, as a ghost value, what the float
    /// arithmetic gave for it.
    fn exec_one<F: FloatUnit>(&mut self, e: &Expression) -> (fo: Ghost<u64>)
        requires
            old(self).wf(),
        ensures
            final(self).wf(),
            (final(self).stack_view(), final(self).variables()) == step(
                *e,
                old(self).stack_view(),
                old(self).variables(),
                fo@,
            ),
    {
        match e {
            Expression::Val(n) => {
                self.stack.push(*n);
                Ghost(0)
            },
            Expression::BinaryOp(op) => self.eval_binary_op::<F>(*op),
            Expression::UnaryOp(op) => {
                self.eval_unary_op(*op);
                Ghost(0)
            },
            Expression::FuncCall(f) => self.eval_func_call::<F>(f),
            Expression::Assign(id) => {
                self.eval_assign(id);
                Ghost(0)
            },
            Expression::Ref(id) => {
                self.eval_ref(id);
                Ghost(0)
            },
        }
    }

    fn eval_binary_op<F: FloatUnit>(&mut self, op: Op) -> (fo: Ghost<u64>)
        requires
            old(self).wf(),
        ensures
            final(self).wf(),
            final(self).variables() == old(self).variables(),
            final(self).stack_view() == step(
                Expression::BinaryOp(op),
                old(self).stack_view(),
                old(self).variables(),
                fo@,
            ).0,
    {
        let r = pop_or_default(&mut self.stack);
        let l = pop_or_default(&mut self.stack);
        let res = Number::binary::<F>(op, l, r);
        let ghost fo = choose|fo: u64| res == binary_spec(op, l, r, fo);
        self.stack.push(res);
        Ghost(fo)
    }

    fn eval_unary_op(&mut self, op: Op)
        requires
            old(self).wf(),
        ensures
            final(self).wf(),
            final(self).variables() == old(self).variables(),
            final(self).stack_view() == step(
                Expression::UnaryOp(op),
                old(self).stack_view(),
                old(self).variables(),
                0,
            ).0,
    {
        let arg = pop_or_default(&mut self.stack);
        let res = match op {
            Op::Add => arg,
            Op::Sub => arg.neg(),
            _ => Number::NaN,
        };
        self.stack.push(res);
    }

    fn eval_func_call<F: FloatUnit>(&mut self, f: &Function) -> (fo: Ghost<u64>)
        requires
            old(self).wf(),
        ensures
            final(self).wf(),
            final(self).variables() == old(self).variables(),
            final(self).stack_view() == step(
                Expression::FuncCall(*f),
                old(self).stack_view(),
                old(self).variables(),
                fo@,
            ).0,
    {
        let ghost before = self.stack@;
        let res = f.exec::<F>(&mut self.stack);
        let ghost fo = choose|fo: u64| (self.stack@, res) == call_spec(f.kind, before, fo);
        self.stack.push(res);
        Ghost(fo)
    }

    fn eval_assign(&mut self, id: &Ident)
        requires
            old(self).wf(),
        ensures
            final(self).wf(),
            (final(self).stack_view(), final(self).variables()) == step(
                Expression::Assign(*id),
                old(self).stack_view(),
                old(self).variables(),
                0,
            ),
    {
        let val = pop_or_default(&mut self.stack);
        self.store(id, val);
        self.stack.push(val);
    }

    /// Binds `id` to `val`, in place of any earlier binding.
    fn store(&mut self, id: &Ident, val: Number)
        requires
            old(self).wf(),
        ensures
            final(self).wf(),
            final(self).stack_view() == old(self).stack_view(),
            final(self).variables() == old(self).variables().insert(id@, val),
    {
        let ghost l = self.bindings();
        let n = self.vars.len();
        let mut i: usize = 0;
        while i < n
            invariant
                n == self.vars.len(),
                i <= n,
                l == self.bindings(),
                self.wf(),
                self.stack@ == old(self).stack@,
                self.vars@ == old(self).vars@,
                forall|j: int| 0 <= j < i ==> (#[trigger] l[j]).0 != id@,
            decreases n - i,
        {
            if self.vars[i].0.same(id) {
                proof {
                    assert(l[i as int].0 == id@);
                }
                self.vars.set(i, (self.vars[i].0.duplicate(), val));
                proof {
                    assert(self.bindings() =~= l.update(i as int, (l[i as int].0, val)));
                    assert forall|k: Seq<char>| #![auto]
                        lookup(self.bindings(), k) == (if k == id@ {
                            Some(val)
                        } else {
                            lookup(l, k)
                        }) by {
                        lemma_lookup_update(l, i as int, val, k);
                    }
                    assert(self.variables() =~= as_map(l).insert(id@, val));
                }
                return ;
            }
            proof {
                assert(l[i as int].0 == self.vars@[i as int].0@);
            }
            i = i + 1;
        }
        self.vars.push((id.duplicate(), val));
        proof {
            assert(self.bindings() =~= l.push((id@, val)));
            let m = l.push((id@, val));
            assert(m.drop_last() =~= l);
            assert(self.variables() =~= as_map(l).insert(id@, val));
        }
    }

    fn eval_ref(&mut self, id: &Ident)
        requires
            old(self).wf(),
        ensures
            final(self).wf(),
            final(self).variables() == old(self).variables(),
            final(self).stack_view() == step(
                Expression::Ref(*id),
                old(self).stack_view(),
                old(self).variables(),
                0,
            ).0,
    {
        let ghost l = self.bindings();
        let n = self.vars.len();
        let mut i: usize = 0;
        while i < n
            invariant
                n == self.vars.len(),
                i <= n,
                l == self.bindings(),
                self.wf(),
                self.stack@ == old(self).stack@,
                self.vars@ == old(self).vars@,
                forall|j: int| 0 <= j < i ==> (#[trigger] l[j]).0 != id@,
            decreases n - i,
        {
            if self.vars[i].0.same(id) {
                let val = self.vars[i].1;
                proof {
                    assert(l[i as int] == (id@, val));
                    lemma_lookup_found(l, i as int);
                }
                self.stack.push(val);
                return ;
            }
            proof {
                assert(l[i as int].0 == self.vars@[i as int].0@);
            }
            i = i + 1;
        }
        proof {
            lemma_lookup_absent(l, id@);
        }
        self.stack.push(Number::NaN);
    }
}

} // verus!
