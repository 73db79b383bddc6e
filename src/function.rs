use vstd::prelude::*;
use vstd::string::*;
use crate::errors::{Error, Span};
use crate::lexer::{trim, trimmed};
use crate::number::{FloatFn, FloatOp, FloatUnit, Number, abs_spec, float_of};

verus! {

/// The built-in functions.
#[derive(Clone, Copy, PartialEq, Eq, Debug, Structural)]
pub enum Builtin {
    Sin,
    Cos,
    Tan,
    Asin,
    Acos,
    Atan,
    Ln,
    Log10,
    Sqrt,
    Abs,
    /// `log(x, b)`: the logarithm of `x` in base `b`
    Log,
    /// `root(x, n)`: the `n`-th root of `x`
    Root,
}

/// A built-in function and the number of arguments it takes.
#[derive(Clone, Copy, PartialEq, Eq, Debug, Structural)]
pub struct Function {
    pub kind: Builtin,
    pub arg_count: usize,
}

pub open spec fn arity(b: Builtin) -> usize {
    match b {
        Builtin::Log | Builtin::Root => 2,
        _ => 1,
    }
}

/// The function that `name` names, if any.
pub open spec fn builtin_named(name: Seq<char>) -> Option<Builtin> {
    if name == "sin"@ {
        Some(Builtin::Sin)
    } else if name == "cos"@ {
        Some(Builtin::Cos)
    } else if name == "tan"@ {
        Some(Builtin::Tan)
    } else if name == "asin"@ {
        Some(Builtin::Asin)
    } else if name == "acos"@ {
        Some(Builtin::Acos)
    } else if name == "atan"@ {
        Some(Builtin::Atan)
    } else if name == "ln"@ {
        Some(Builtin::Ln)
    } else if name == "log10"@ {
        Some(Builtin::Log10)
    } else if name == "sqrt"@ {
        Some(Builtin::Sqrt)
    } else if name == "root"@ {
        Some(Builtin::Root)
    } else if name == "abs"@ {
        Some(Builtin::Abs)
    } else if name == "log"@ {
        Some(Builtin::Log)
    } else {
        None
    }
}

/// The top of the stack and the stack without it; the error value for an empty stack.
pub open spec fn pop_or_nan(s: Seq<Number>) -> (Seq<Number>, Number) {
    if s.len() == 0 {
        (s, Number::NaN)
    } else {
        (s.drop_last(), s.last())
    }
}

/// What calling `b` on the stack `s` leaves there and returns; `fo` is the
/// double that the float arithmetic gave, where it was asked.
pub open spec fn call_spec(b: Builtin, s: Seq<Number>, fo: u64) -> (Seq<Number>, Number) {
    let (s1, x) = pop_or_nan(s);
    if arity(b) == 1 {
        if b == Builtin::Abs {
            (s1, abs_spec(x))
        } else if x is NaN {
            (s1, Number::NaN)
        } else {
            (s1, float_of(fo))
        }
    } else {
        let (s2, l) = pop_or_nan(s1);
        if x is NaN || l is NaN {
            (s2, Number::NaN)
        } else {
            (s2, float_of(fo))
        }
    }
}

impl Function {
    pub open spec fn wf(self) -> bool {
        self.arg_count == arity(self.kind)
    }

    fn new(kind: Builtin) -> (f: Function)
        ensures
            f.kind == kind,
            f.wf(),
    {
        let arg_count = match kind {
            Builtin::Log | Builtin::Root => 2,
            _ => 1,
        };
        Function { kind, arg_count }
    }

    /// Calls the function on the top of `args`: it pops its arguments (the
    /// last one first, the error value for a missing one) and returns the result.
    /// Where it asks the float arithmetic, it asks `float_fn_of(kind)` of the
    /// argument, or `float_op2_of(kind)` of the first and the second argument
    /// in that order.
    pub fn exec<F: FloatUnit>(&self, args: &mut Vec<Number>) -> (r: Number)
        ensures
            exists|fo: u64| (final(args)@, r) == call_spec(self.kind, old(args)@, fo),
            self.kind == Builtin::Abs ==> (final(args)@, r) == call_spec(self.kind, old(args)@, 0),
            (forall|i: int| 0 <= i < old(args)@.len() ==> (#[trigger] old(args)@[i]).wf()) ==> r.wf(),
            (forall|i: int| 0 <= i < old(args)@.len() ==> (#[trigger] old(args)@[i]).wf()) ==> (
            forall|i: int| 0 <= i < final(args)@.len() ==> (#[trigger] final(args)@[i]).wf()),
    {
        let x = pop_or_default(args);
        match self.kind {
            Builtin::Abs => {
                let r = x.abs();
                assert((args@, r) == call_spec(self.kind, old(args)@, 0));
                r
            },
            Builtin::Log | Builtin::Root => {
                let l = pop_or_default(args);
                let fo = if x.is_nan() || l.is_nan() {
                    0
                } else {
                    F::binary(float_op2(self.kind), l.operand(), x.operand())
                };
                let r = if x.is_nan() || l.is_nan() {
                    Number::NaN
                } else {
                    Number::from_bits(fo)
                };
                assert((args@, r) == call_spec(self.kind, old(args)@, fo));
                r
            },
            _ => {
                let fo = if x.is_nan() {
                    0
                } else {
                    F::unary(float_fn(self.kind), x.operand())
                };
                let r = if x.is_nan() {
                    Number::NaN
                } else {
                    Number::from_bits(fo)
                };
                assert((args@, r) == call_spec(self.kind, old(args)@, fo));
                r
            },
        }
    }
}

/// The float function of a one-argument built-in other than `abs`.
pub open spec fn float_fn_of(b: Builtin) -> FloatFn {
    match b {
        Builtin::Sin => FloatFn::Sin,
        Builtin::Cos => FloatFn::Cos,
        Builtin::Tan => FloatFn::Tan,
        Builtin::Asin => FloatFn::Asin,
        Builtin::Acos => FloatFn::Acos,
        Builtin::Atan => FloatFn::Atan,
        Builtin::Ln => FloatFn::Ln,
        Builtin::Log10 => FloatFn::Log10,
        _ => FloatFn::Sqrt,
    }
}

/// The float operation of a two-argument built-in.
pub open spec fn float_op2_of(b: Builtin) -> FloatOp {
    if b == Builtin::Log {
        FloatOp::Log
    } else {
        FloatOp::Root
    }
}

pub fn float_fn(b: Builtin) -> (r: FloatFn)
    ensures
        r == float_fn_of(b),
{
    match b {
        Builtin::Sin => FloatFn::Sin,
        Builtin::Cos => FloatFn::Cos,
        Builtin::Tan => FloatFn::Tan,
        Builtin::Asin => FloatFn::Asin,
        Builtin::Acos => FloatFn::Acos,
        Builtin::Atan => FloatFn::Atan,
        Builtin::Ln => FloatFn::Ln,
        Builtin::Log10 => FloatFn::Log10,
        _ => FloatFn::Sqrt,
    }
}

pub fn float_op2(b: Builtin) -> (r: FloatOp)
    ensures
        r == float_op2_of(b),
{
    if b == Builtin::Log {
        FloatOp::Log
    } else {
        FloatOp::Root
    }
}

/// Pops the top of the stack; the error value for an empty stack.
pub fn pop_or_default(s: &mut Vec<Number>) -> (r: Number)
    ensures
        (final(s)@, r) == pop_or_nan(old(s)@),
{
    match s.pop() {
        Some(n) => n,
        None => Number::NaN,
    }
}

/// Whether two strings hold the same chars.
pub fn same_text(a: &str, b: &str) -> (r: bool)
    ensures
        r == (a@ == b@),
{
    let n = a.unicode_len();
    if n != b.unicode_len() {
        return false;
    }
    let mut i: usize = 0;
    while i < n
        invariant
            n == a@.len(),
            n == b@.len(),
            i <= n,
            a@.subrange(0, i as int) == b@.subrange(0, i as int),
        decreases n - i,
    {
        if a.get_char(i) != b.get_char(i) {
            return false;
        }
        proof {
            assert(a@.subrange(0, i + 1) =~= a@.subrange(0, i as int).push(a@[i as int]));
            assert(b@.subrange(0, i + 1) =~= b@.subrange(0, i as int).push(b@[i as int]));
        }
        i = i + 1;
    }
    assert(a@ =~= a@.subrange(0, n as int));
    assert(b@ =~= b@.subrange(0, n as int));
    true
}

/// The built-in function that `input` names, whitespace around it aside.
pub fn parse_function(input: &str) -> (r: Result<Function, Error>)
    ensures
        r is Ok <==> builtin_named(trimmed(input@)) is Some,
        r is Ok ==> r->Ok_0.kind == builtin_named(trimmed(input@))->0 && r->Ok_0.wf(),
        r is Err ==> r->Err_0.message@ == "Unknown function "@ + trimmed(input@),
{
    let name = trim(input);
    let kind = if same_text(name, "sin") {
        Builtin::Sin
    } else if same_text(name, "cos") {
        Builtin::Cos
    } else if same_text(name, "tan") {
        Builtin::Tan
    } else if same_text(name, "asin") {
        Builtin::Asin
    } else if same_text(name, "acos") {
        Builtin::Acos
    } else if same_text(name, "atan") {
        Builtin::Atan
    } else if same_text(name, "ln") {
        Builtin::Ln
    } else if same_text(name, "log10") {
        Builtin::Log10
    } else if same_text(name, "sqrt") {
        Builtin::Sqrt
    } else if same_text(name, "root") {
        Builtin::Root
    } else if same_text(name, "abs") {
        Builtin::Abs
    } else if same_text(name, "log") {
        Builtin::Log
    } else {
        let message = "Unknown function ".to_owned().concat(name);
        return Err(Error { message, span: Span::new(0, 0) });
    };
    Ok(Function::new(kind))
}

} // verus!
