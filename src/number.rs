use vstd::prelude::*;
use vstd::arithmetic::power::pow;
use crate::eval::Op;
use vstd::string::*;

pub mod parse;

verus! {

/// 2^52: the weight of the lowest exponent bit of an IEEE double.
pub const EXP_UNIT: u64 = 0x10_0000_0000_0000;

/// 2^63: the sign bit of an IEEE double.
pub const SIGN_BIT: u64 = 0x8000_0000_0000_0000;

/// A value of the calculator.
///
/// A float is held as the bit pattern of an IEEE 754 double and is always
/// finite: a NaN or an infinity becomes `NaN`, the error value, which every
/// operation passes on.
#[derive(Clone, Copy, PartialEq, Eq, Debug, Structural)]
pub enum Number {
    Int(i128),
    Float(u64),
    NaN,
}

/// An operand handed to the float arithmetic: an integer still to be
/// converted, or the bits of a double.
#[derive(Clone, Copy, PartialEq, Eq, Debug, Structural)]
pub enum Operand {
    Int(i128),
    Float(u64),
}

/// The operations that the float arithmetic performs on two doubles.
#[derive(Clone, Copy, PartialEq, Eq, Debug, Structural)]
pub enum FloatOp {
    Add,
    Sub,
    Mul,
    Div,
    /// the remainder that is never negative (`rem_euclid`)
    Rem,
    /// `powf`
    Pow,
    /// logarithm of the left operand in the base of the right one
    Log,
    /// the right operand's root of the left one: `l ^ (1 / r)`
    Root,
}

/// The functions that the float arithmetic computes on one double.
#[derive(Clone, Copy, PartialEq, Eq, Debug, Structural)]
pub enum FloatFn {
    Sin,
    Cos,
    Tan,
    Asin,
    Acos,
    Atan,
    Ln,
    Log10,
    Sqrt,
}

/// IEEE double arithmetic, supplied by the host. The library proves nothing
/// of the bits that come back: whatever they are, it turns a NaN or an
/// infinity into `Number::NaN`.
pub trait FloatUnit {
    /// The bits of `l op r`, an integer operand converted to a double first.
    fn binary(op: FloatOp, l: Operand, r: Operand) -> u64;

    /// The bits of `f(x)`, an integer operand converted to a double first.
    fn unary(f: FloatFn, x: Operand) -> u64;

    /// The bits of the double that the chars of a float literal (digits,
    /// optional fraction and exponent, no separators) denote, or `None`.
    fn parse(text: &Vec<char>) -> Option<u64>;

    /// The text of the double with the bits `b`, in the default float format.
    fn format(b: u64) -> String;
}

/// The bits hold a finite double: their exponent field is not all ones.
pub open spec fn finite_bits(b: u64) -> bool {
    (b / EXP_UNIT) % 0x800 != 0x7ff
}

/// The number that the bits of a double stand for.
pub open spec fn float_of(b: u64) -> Number {
    if finite_bits(b) {
        Number::Float(b)
    } else {
        Number::NaN
    }
}

/// An integer result: the error value when it does not fit in 128 bits.
pub open spec fn int_result(v: int) -> Number {
    if i128::MIN <= v <= i128::MAX {
        Number::Int(v as i128)
    } else {
        Number::NaN
    }
}

pub open spec fn abs_int(v: int) -> int {
    if v < 0 {
        -v
    } else {
        v
    }
}

/// The remainder of the division that rounds toward zero; it has the sign of `a`.
pub open spec fn trunc_rem(a: int, b: int) -> int {
    if a >= 0 {
        a % abs_int(b)
    } else {
        -((-a) % abs_int(b))
    }
}

/// The quotient of the division that rounds toward zero.
pub open spec fn trunc_div(a: int, b: int) -> int {
    if (a >= 0) == (b > 0) {
        abs_int(a) / abs_int(b)
    } else {
        -(abs_int(a) / abs_int(b))
    }
}

/// `a op b` on two integers; `fo` is the double that float division would give.
pub open spec fn int_binary(op: Op, a: i128, b: i128, fo: u64) -> Number {
    match op {
        Op::Add => int_result(a + b),
        Op::Sub => int_result(a - b),
        Op::Mul => int_result(a * b),
        Op::Div => if b == 0 || (a == i128::MIN && b == -1) {
            Number::NaN
        } else if trunc_rem(a as int, b as int) != 0 {
            float_of(fo)
        } else {
            Number::Int(trunc_div(a as int, b as int) as i128)
        },
        Op::Mod => if b == 0 || (a == i128::MIN && b == -1) {
            Number::NaN
        } else {
            Number::Int(trunc_rem(a as int, b as int) as i128)
        },
        Op::Pow => if b < 0 || b > u32::MAX {
            Number::NaN
        } else {
            int_result(pow(a as int, b as nat))
        },
    }
}

/// The float operation for an operator: `%` is the remainder that is never negative.
pub open spec fn float_op_of(op: Op) -> FloatOp {
    match op {
        Op::Add => FloatOp::Add,
        Op::Sub => FloatOp::Sub,
        Op::Mul => FloatOp::Mul,
        Op::Div => FloatOp::Div,
        Op::Mod => FloatOp::Rem,
        Op::Pow => FloatOp::Pow,
    }
}

/// Whether `l op r` is computed by the float arithmetic.
pub open spec fn uses_float(op: Op, l: Number, r: Number) -> bool {
    match (l, r) {
        (Number::NaN, _) | (_, Number::NaN) => false,
        (Number::Int(a), Number::Int(b)) => op == Op::Div && b != 0 && !(a == i128::MIN && b == -1)
            && trunc_rem(a as int, b as int) != 0,
        _ => true,
    }
}

/// `l op r`; `fo` is the double that the float arithmetic gave, where it was asked.
pub open spec fn binary_spec(op: Op, l: Number, r: Number, fo: u64) -> Number {
    match (l, r) {
        (Number::NaN, _) | (_, Number::NaN) => Number::NaN,
        (Number::Int(a), Number::Int(b)) => int_binary(op, a, b, fo),
        _ => float_of(fo),
    }
}

/// Negation; a double changes its sign bit.
pub open spec fn neg_spec(x: Number) -> Number {
    match x {
        Number::NaN => Number::NaN,
        Number::Int(a) => int_result(-a),
        Number::Float(b) => Number::Float(
            if b >= SIGN_BIT {
                (b - SIGN_BIT) as u64
            } else {
                (b + SIGN_BIT) as u64
            },
        ),
    }
}

/// Absolute value; an integer stays an integer, a double loses its sign bit.
pub open spec fn abs_spec(x: Number) -> Number {
    match x {
        Number::NaN => Number::NaN,
        Number::Int(a) => int_result(abs_int(a as int)),
        Number::Float(b) => Number::Float((b % SIGN_BIT) as u64),
    }
}

impl Number {
    /// A float number holds finite bits.
    pub open spec fn wf(self) -> bool {
        self is Float ==> finite_bits(self->Float_0)
    }

    /// The number that the bits of a double stand for: NaN and the
    /// infinities become the error value.
    pub fn from_bits(b: u64) -> (r: Number)
        ensures
            r == float_of(b),
            r.wf(),
    {
        if (b / EXP_UNIT) % 0x800 == 0x7ff {
            Number::NaN
        } else {
            Number::Float(b)
        }
    }

    /// Whether this is the error value.
    pub fn is_nan(&self) -> (r: bool)
        ensures
            r == (*self is NaN),
    {
        match self {
            Number::NaN => true,
            _ => false,
        }
    }

    /// The operand that the float arithmetic gets for a number that is not NaN.
    pub fn operand(self) -> (r: Operand)
        requires
            !(self is NaN),
        ensures
            self is Int ==> r == Operand::Int(self->Int_0),
            self is Float ==> r == Operand::Float(self->Float_0),
    {
        match self {
            Number::Int(a) => Operand::Int(a),
            Number::Float(b) => Operand::Float(b),
            Number::NaN => Operand::Int(0),
        }
    }

    /// `l op r`, given the double `fo` that the float arithmetic gave for it
    /// (any value where `uses_float` is false).
    pub fn combine(op: Op, l: Number, r: Number, fo: u64) -> (res: Number)
        ensures
            res == binary_spec(op, l, r, fo),
            res.wf(),
    {
        match (l, r) {
            (Number::NaN, _) | (_, Number::NaN) => Number::NaN,
            (Number::Int(a), Number::Int(b)) => Self::int_op(op, a, b, fo),
            _ => Number::from_bits(fo),
        }
    }

    fn int_op(op: Op, a: i128, b: i128, fo: u64) -> (res: Number)
        ensures
            res == int_binary(op, a, b, fo),
            res.wf(),
    {
        match op {
            Op::Add => Self::from_checked(a.checked_add(b)),
            Op::Sub => Self::from_checked(a.checked_sub(b)),
            Op::Mul => Self::from_checked(a.checked_mul(b)),
            Op::Div => Self::int_div(a, b, fo),
            Op::Mod => Self::int_rem(a, b),
            Op::Pow => {
                if b < 0 || b > u32::MAX as i128 {
                    Number::NaN
                } else {
                    let e = b as u32;
                    assert(e as nat == b as nat);
                    Self::from_checked(checked_pow(a, e))
                }
            },
        }
    }

    /// Integer division: exact, or in doubles where a remainder is left.
    fn int_div(a: i128, b: i128, fo: u64) -> (res: Number)
        ensures
            res == int_binary(Op::Div, a, b, fo),
            res.wf(),
    {
        proof {
            if b != 0 {
                lemma_trunc(a as int, b as int);
                let x = abs_int(a as int);
                let y = abs_int(b as int);
                assert(x / y <= x) by (nonlinear_arith)
                    requires x >= 0, y >= 1;
                assert(x / y >= 0) by (nonlinear_arith)
                    requires x >= 0, y >= 1;
                if y >= 2 {
                    vstd::arithmetic::div_mod::lemma_div_is_ordered_by_denominator(x, 2, y);
                }
            }
        }
        match a.checked_rem(b) {
            None => Number::NaN,
            Some(m) => {
                if m != 0 {
                    Number::from_bits(fo)
                } else {
                    Self::from_checked(a.checked_div(b))
                }
            },
        }
    }

    fn int_rem(a: i128, b: i128) -> (res: Number)
        ensures
            res == int_binary(Op::Mod, a, b, 0),
            res.wf(),
    {
        proof {
            if b != 0 {
                lemma_trunc(a as int, b as int);
            }
        }
        match a.checked_rem(b) {
            None => Number::NaN,
            Some(m) => Number::Int(m),
        }
    }

    fn from_checked(v: Option<i128>) -> (r: Number)
        ensures
            v is Some ==> r == Number::Int(v->0),
            v is None ==> r == Number::NaN,
    {
        match v {
            Some(i) => Number::Int(i),
            None => Number::NaN,
        }
    }

    /// `l op r`. Where the result is a double (`uses_float`), it asks the
    /// float arithmetic for `float_op_of(op)` of `l` and `r`, in that order.
    pub fn binary<F: FloatUnit>(op: Op, l: Number, r: Number) -> (res: Number)
        ensures
            exists|fo: u64| res == binary_spec(op, l, r, fo),
            !uses_float(op, l, r) ==> res == binary_spec(op, l, r, 0),
            res.wf(),
    {
        let fo = if Self::needs_float(op, l, r) {
            F::binary(Self::float_op(op), l.operand(), r.operand())
        } else {
            0
        };
        Self::combine(op, l, r, fo)
    }

    pub fn needs_float(op: Op, l: Number, r: Number) -> (u: bool)
        ensures
            u == uses_float(op, l, r),
    {
        proof {
            if let (Number::Int(a), Number::Int(b)) = (l, r) {
                if b != 0 {
                    lemma_trunc(a as int, b as int);
                }
            }
        }
        match (l, r) {
            (Number::NaN, _) | (_, Number::NaN) => false,
            (Number::Int(a), Number::Int(b)) => {
                match op {
                    Op::Div => match a.checked_rem(b) {
                        Some(m) => m != 0,
                        None => false,
                    },
                    _ => false,
                }
            },
            _ => true,
        }
    }

    /// The float operation that computes `op` on doubles.
    pub fn float_op(op: Op) -> (r: FloatOp)
        ensures
            r == float_op_of(op),
    {
        match op {
            Op::Add => FloatOp::Add,
            Op::Sub => FloatOp::Sub,
            Op::Mul => FloatOp::Mul,
            Op::Div => FloatOp::Div,
            Op::Mod => FloatOp::Rem,
            Op::Pow => FloatOp::Pow,
        }
    }

    /// Negation: checked on an integer, a sign change on a double.
    pub fn neg(self) -> (r: Number)
        ensures
            r == neg_spec(self),
            self.wf() ==> r.wf(),
    {
        match self {
            Number::NaN => Number::NaN,
            Number::Int(a) => {
                if a == i128::MIN {
                    Number::NaN
                } else {
                    Number::Int(-a)
                }
            },
            Number::Float(b) => {
                proof {
                    lemma_sign_keeps_exponent(b);
                }
                if b >= SIGN_BIT {
                    Number::Float(b - SIGN_BIT)
                } else {
                    Number::Float(b + SIGN_BIT)
                }
            },
        }
    }

    /// Absolute value: checked on an integer, the sign bit cleared on a double.
    pub fn abs(self) -> (r: Number)
        ensures
            r == abs_spec(self),
            self.wf() ==> r.wf(),
    {
        match self {
            Number::NaN => Number::NaN,
            Number::Int(a) => {
                if a == i128::MIN {
                    Number::NaN
                } else if a < 0 {
                    Number::Int(-a)
                } else {
                    Number::Int(a)
                }
            },
            Number::Float(b) => {
                proof {
                    lemma_sign_keeps_exponent(b);
                }
                Number::Float(b % SIGN_BIT)
            },
        }
    }
}

/// The decimal digits of `v`, most significant first.
pub open spec fn decimal(v: nat) -> Seq<char>
    decreases v,
{
    if v < 10 {
        seq![digit_char_of(v)]
    } else {
        decimal(v / 10) + seq![digit_char_of(v % 10)]
    }
}

pub open spec fn digit_char_of(d: nat) -> char {
    if d == 0 {
        '0'
    } else if d == 1 {
        '1'
    } else if d == 2 {
        '2'
    } else if d == 3 {
        '3'
    } else if d == 4 {
        '4'
    } else if d == 5 {
        '5'
    } else if d == 6 {
        '6'
    } else if d == 7 {
        '7'
    } else if d == 8 {
        '8'
    } else {
        '9'
    }
}

/// An integer as text: its decimal digits, after a `-` if it is negative.
pub open spec fn int_text(v: int) -> Seq<char> {
    if v < 0 {
        seq!['-'] + decimal((-v) as nat)
    } else {
        decimal(v as nat)
    }
}

fn digit_text(d: u128) -> (r: &'static str)
    requires
        d < 10,
    ensures
        r@ == seq![digit_char_of(d as nat)],
{
    proof {
        reveal_strlit("0");
        reveal_strlit("1");
        reveal_strlit("2");
        reveal_strlit("3");
        reveal_strlit("4");
        reveal_strlit("5");
        reveal_strlit("6");
        reveal_strlit("7");
        reveal_strlit("8");
        reveal_strlit("9");
    }
    if d == 0 {
        "0"
    } else if d == 1 {
        "1"
    } else if d == 2 {
        "2"
    } else if d == 3 {
        "3"
    } else if d == 4 {
        "4"
    } else if d == 5 {
        "5"
    } else if d == 6 {
        "6"
    } else if d == 7 {
        "7"
    } else if d == 8 {
        "8"
    } else {
        "9"
    }
}

/// Appends the decimal digits of `v` to `out`.
fn push_decimal(out: &mut String, v: u128)
    ensures
        final(out)@ == old(out)@ + decimal(v as nat),
    decreases v,
{
    if v >= 10 {
        push_decimal(out, v / 10);
    }
    out.append(digit_text(v % 10));
    proof {
        if v >= 10 {
            assert(old(out)@ + decimal((v / 10) as nat) + seq![digit_char_of((v % 10) as nat)]
                =~= old(out)@ + decimal(v as nat));
        } else {
            assert(v % 10 == v);
        }
    }
}

impl Number {
    /// The number as text: an integer in decimal digits, the error value as
    /// `NaN`, a double in the float format of `F`.
    pub fn to_text<F: FloatUnit>(&self) -> (r: String)
        ensures
            *self is Int ==> r@ == int_text(self->Int_0 as int),
            *self is NaN ==> r@ == "NaN"@,
    {
        match self {
            Number::Int(v) => {
                let mut out = String::new();
                if *v < 0 {
                    out.append("-");
                    proof {
                        reveal_strlit("-");
                    }
                    let m: u128 = ((-(*v + 1)) as u128) + 1;
                    push_decimal(&mut out, m);
                } else {
                    push_decimal(&mut out, *v as u128);
                }
                out
            },
            Number::Float(b) => F::format(*b),
            Number::NaN => "NaN".to_owned(),
        }
    }
}

impl Default for Number {
    fn default() -> (r: Number)
        ensures
            r == Number::NaN,
    {
        Number::NaN
    }
}

/// The remainder and quotient that rounding toward zero gives, case by case.
proof fn lemma_trunc(a: int, b: int)
    requires
        b != 0,
    ensures
        trunc_rem(a, b) == (if a == 0 {
            0
        } else if a > 0 && b > 0 {
            a % b
        } else if a < 0 && b < 0 {
            ((a * -1) % (b * -1)) * -1
        } else if a < 0 {
            ((a * -1) % b) * -1
        } else {
            a % (b * -1)
        }),
        trunc_div(a, b) == (if a == 0 {
            0
        } else if a > 0 && b > 0 {
            a / b
        } else if a < 0 && b < 0 {
            ((a * -1) / (b * -1))
        } else if a < 0 {
            ((a * -1) / b) * -1
        } else {
            (a / (b * -1)) * -1
        }),
{
    if a == 0 {
        assert(0int % abs_int(b) == 0) by (nonlinear_arith)
            requires abs_int(b) > 0;
        assert(0int / abs_int(b) == 0) by (nonlinear_arith)
            requires abs_int(b) > 0;
    }
}

/// Changing the sign bit of a double keeps its exponent field.
proof fn lemma_sign_keeps_exponent(b: u64)
    ensures
        b >= SIGN_BIT ==> ((b - SIGN_BIT) as u64 / EXP_UNIT) % 0x800 == (b / EXP_UNIT) % 0x800,
        b < SIGN_BIT ==> ((b + SIGN_BIT) as u64 / EXP_UNIT) % 0x800 == (b / EXP_UNIT) % 0x800,
        ((b % SIGN_BIT) as u64 / EXP_UNIT) % 0x800 == (b / EXP_UNIT) % 0x800,
{
    assert(SIGN_BIT == EXP_UNIT * 0x800);
    let q = b / EXP_UNIT;
    let m = b % EXP_UNIT;
    assert(b == q * EXP_UNIT + m) by (nonlinear_arith)
        requires q == b / EXP_UNIT, m == b % EXP_UNIT, EXP_UNIT > 0;
    assert(q < 0x1000) by (nonlinear_arith)
        requires q == b / EXP_UNIT, b < 0x1_0000_0000_0000_0000, EXP_UNIT == 0x10_0000_0000_0000;
    if b >= SIGN_BIT {
        assert(q >= 0x800) by (nonlinear_arith)
            requires q == b / EXP_UNIT, b >= SIGN_BIT, SIGN_BIT == EXP_UNIT * 0x800, EXP_UNIT > 0;
        assert((b - SIGN_BIT) == (q - 0x800) * EXP_UNIT + m) by (nonlinear_arith)
            requires b == q * EXP_UNIT + m, SIGN_BIT == EXP_UNIT * 0x800;
        lemma_div_parts((b - SIGN_BIT) as int, (q - 0x800) as int, m as int);
        assert(b % SIGN_BIT == b - SIGN_BIT);
    } else {
        assert(q < 0x800) by (nonlinear_arith)
            requires q == b / EXP_UNIT, b < SIGN_BIT, SIGN_BIT == EXP_UNIT * 0x800, EXP_UNIT > 0;
        assert((b + SIGN_BIT) == (q + 0x800) * EXP_UNIT + m) by (nonlinear_arith)
            requires b == q * EXP_UNIT + m, SIGN_BIT == EXP_UNIT * 0x800;
        lemma_div_parts((b + SIGN_BIT) as int, (q + 0x800) as int, m as int);
        assert(b % SIGN_BIT == b);
    }
}

proof fn lemma_div_parts(x: int, q: int, m: int)
    requires
        x == q * EXP_UNIT + m,
        0 <= m < EXP_UNIT,
        q >= 0,
    ensures
        x / (EXP_UNIT as int) == q,
{
    vstd::arithmetic::div_mod::lemma_fundamental_div_mod_converse(
        x,
        EXP_UNIT as int,
        q,
        m,
    );
}

/// For a base of magnitude at least 2, each further power at least doubles the magnitude.
proof fn lemma_pow_grows(b: int, i: nat, j: nat)
    requires
        abs_int(b) >= 2,
        i < j,
    ensures
        abs_int(pow(b, j)) >= 2 * abs_int(pow(b, i)),
    decreases j - i,
{
    reveal(pow);
    let p = pow(b, (j - 1) as nat);
    assert(abs_int(b * p) >= 2 * abs_int(p)) by (nonlinear_arith)
        requires abs_int(b) >= 2;
    if j - 1 > i {
        lemma_pow_grows(b, i, (j - 1) as nat);
    }
}

proof fn lemma_pow_minus_one(e: nat)
    ensures
        pow(-1, e) == (if e % 2 == 0 {
            1int
        } else {
            -1int
        }),
    decreases e,
{
    reveal(pow);
    if e > 0 {
        lemma_pow_minus_one((e - 1) as nat);
    }
}

proof fn lemma_pow_trivial(b: int, e: nat)
    requires
        b == 0 || b == 1,
    ensures
        pow(b, e) == (if b == 1 || e == 0 {
            1int
        } else {
            0int
        }),
    decreases e,
{
    reveal(pow);
    if e > 0 {
        lemma_pow_trivial(b, (e - 1) as nat);
    }
}

/// `base^exp`, or `None` where it does not fit in 128 bits.
fn checked_pow(base: i128, exp: u32) -> (r: Option<i128>)
    ensures
        i128::MIN <= pow(base as int, exp as nat) <= i128::MAX ==> r == Some(
            pow(base as int, exp as nat) as i128,
        ),
        !(i128::MIN <= pow(base as int, exp as nat) <= i128::MAX) ==> r is None,
{
    if base == 0 || base == 1 {
        proof {
            lemma_pow_trivial(base as int, exp as nat);
        }
        return if base == 1 || exp == 0 {
            Some(1)
        } else {
            Some(0)
        };
    }
    if base == -1 {
        proof {
            lemma_pow_minus_one(exp as nat);
        }
        return if exp % 2 == 0 {
            Some(1)
        } else {
            Some(-1)
        };
    }
    let mut acc: i128 = 1;
    let mut k: u32 = 0;
    proof {
        reveal(pow);
    }
    while k < exp
        invariant
            k <= exp,
            abs_int(base as int) >= 2,
            acc as int == pow(base as int, k as nat),
        decreases exp - k,
    {
        proof {
            reveal(pow);
        }
        match acc.checked_mul(base) {
            Some(v) => {
                acc = v;
            },
            None => {
                proof {
                    let b = base as int;
                    let v = pow(b, (k + 1) as nat);
                    assert(v == b * pow(b, k as nat));
                    if k + 1 < exp {
                        lemma_pow_grows(b, (k + 1) as nat, exp as nat);
                    }
                }
                return None;
            },
        }
        k = k + 1;
    }
    Some(acc)
}

} // verus!
