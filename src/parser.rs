use vstd::prelude::*;
use vstd::string::*;
use crate::errors::{Error, Span};
use crate::eval::{Expression, Ident, Instr, Op, code_of};
use crate::function::{Builtin, Function, arity, builtin_named, parse_function};
use crate::lexer::{
    Base, LiteralKind, Token, TokenKind, Tokenizer, byte_offset,
    lemma_lex_bounds, lex, trim, trimmed,
};
use crate::number::{FloatUnit, Number, finite_bits};
use crate::number::parse::{
    E_BITS, PI_BITS, float_reading, parse_const, parse_int, parse_int_bin, parse_int_hex, parse_int_oct,
    prefixed_error, prefixed_value, radix_error, radix_value, sanitize, sanitized,
};

verus! {

/// What compiling from a cursor gives: the cursor after it, the code, whether
/// an expression was there, and the float readings not yet used; or the
/// cursor of the token at which it failed.
///
/// The grammar functions below check that each part moves the cursor
/// forward before going on (an `Err` otherwise). Every token but the end of
/// input consumes a char (`lemma_lex_bounds`), so those checks never fail;
/// they make the termination of the grammar evident.
pub type Outcome = Result<(int, Seq<Instr>, bool, Seq<Option<u64>>), (int, Seq<char>)>;

pub open spec fn kind_at(s: Seq<char>, c: int) -> TokenKind {
    lex(s, c).0
}

/// The cursor after the token at `c`.
pub open spec fn next_at(s: Seq<char>, c: int) -> int {
    lex(s, c).1
}

/// The text of the token at `c`, leading whitespace included.
pub open spec fn text_at(s: Seq<char>, c: int) -> Seq<char> {
    s.subrange(c, next_at(s, c))
}

/// The token at `c`, with its span in bytes.
pub open spec fn token_at(s: Seq<char>, c: int) -> Token {
    Token {
        kind: kind_at(s, c),
        start: byte_offset(s, c) as usize,
        len: (byte_offset(s, next_at(s, c)) - byte_offset(s, c)) as usize,
    }
}

/// The operators of a precedence level: 1 is `+ -`, 2 is `* / %`, 3 is `^`.
pub open spec fn level_op(level: int, k: TokenKind) -> bool {
    if level == 1 {
        k == TokenKind::Add || k == TokenKind::Sub
    } else if level == 2 {
        k == TokenKind::Mul || k == TokenKind::Div || k == TokenKind::Mod
    } else {
        k == TokenKind::Pow
    }
}

pub open spec fn op_of(k: TokenKind) -> Op {
    match k {
        TokenKind::Add => Op::Add,
        TokenKind::Sub => Op::Sub,
        TokenKind::Mul => Op::Mul,
        TokenKind::Div => Op::Div,
        TokenKind::Mod => Op::Mod,
        _ => Op::Pow,
    }
}

/// The number that a literal token denotes, and the float readings left;
/// a float literal uses the first reading.
pub open spec fn literal_value(k: LiteralKind, t: Seq<char>, fl: Seq<Option<u64>>) -> Option<
    (Number, Seq<Option<u64>>),
> {
    let v = match k {
        LiteralKind::Int(Base::Dec) => radix_value(sanitized(t), 10),
        LiteralKind::Int(Base::Bin) => prefixed_value(t, 'b', 2),
        LiteralKind::Int(Base::Oct) => prefixed_value(t, 'o', 8),
        LiteralKind::Int(Base::Hex) => prefixed_value(t, 'x', 16),
        _ => None,
    };
    match k {
        LiteralKind::Int(_) => if v is Some {
            Some((Number::Int(v->0 as i128), fl))
        } else {
            None
        },
        LiteralKind::Float => if fl.len() > 0 && fl[0] is Some && finite_bits(fl[0]->0) {
            Some((Number::Float(fl[0]->0), fl.drop_first()))
        } else {
            None
        },
        LiteralKind::String => None,
    }
}

/// The instruction of a bare name: a constant, or a variable to load.
pub open spec fn name_instr(name: Seq<char>) -> Instr {
    if name == seq!['p', 'i'] {
        Instr::Val(Number::Float(PI_BITS))
    } else if name == seq!['e'] {
        Instr::Val(Number::Float(E_BITS))
    } else {
        Instr::Ref(name)
    }
}

/// The message with which a literal fails.
pub open spec fn literal_error(k: LiteralKind, t: Seq<char>, fl: Seq<Option<u64>>) -> Seq<char> {
    match k {
        LiteralKind::Int(Base::Dec) => radix_error(sanitized(t), 10),
        LiteralKind::Int(Base::Bin) => prefixed_error(t, 'b', 2, "Binary number must start with 0b"@),
        LiteralKind::Int(Base::Oct) => prefixed_error(t, 'o', 8, "Octal number must start with 0o"@),
        LiteralKind::Int(Base::Hex) => prefixed_error(t, 'x', 16, "Hex number must start with 0x"@),
        LiteralKind::Float => if fl.len() > 0 && fl[0] is Some {
            "float literal out of range"@
        } else {
            "invalid float literal"@
        },
        LiteralKind::String => "Unknown Literal"@,
    }
}

/// The message for a missing argument `i` (counted from 0).
pub open spec fn empty_argument(i: int) -> Seq<char> {
    if i == 0 {
        "Argument 1 is empty"@
    } else {
        "Argument 2 is empty"@
    }
}

/// A literal token at `c`.
pub open spec fn p_literal(s: Seq<char>, c: int, fl: Seq<Option<u64>>, k: LiteralKind) -> Outcome {
    match literal_value(k, text_at(s, c), fl) {
        None => Err((c, literal_error(k, text_at(s, c), fl))),
        Some((n, fl2)) => Ok((next_at(s, c), seq![Instr::Val(n)], true, fl2)),
    }
}

/// A bare name at `c`: a constant or a variable.
pub open spec fn p_name(s: Seq<char>, c: int, fl: Seq<Option<u64>>) -> Outcome {
    Ok((next_at(s, c), seq![name_instr(trimmed(text_at(s, c)))], true, fl))
}

/// `exp := assign | exp1 | nothing`
pub open spec fn p_exp(s: Seq<char>, c: int, fl: Seq<Option<u64>>) -> Outcome
    decreases s.len() - c, 6nat,
{
    if !(0 <= c <= s.len()) {
        Err((c, Seq::empty()))
    } else if kind_at(s, c) == TokenKind::Eof {
        Ok((c, Seq::empty(), false, fl))
    } else if kind_at(s, c) == TokenKind::Ident && kind_at(s, next_at(s, c)) == TokenKind::Assign {
        p_assign(s, c, fl)
    } else {
        p_level(s, c, fl, 1)
    }
}

/// `assign := ident '=' exp1`, from the cursor of the name.
pub open spec fn p_assign(s: Seq<char>, c: int, fl: Seq<Option<u64>>) -> Outcome
    decreases s.len() - c, 0nat,
{
    let c1 = next_at(s, c);
    let c2 = next_at(s, c1);
    if !(0 <= c < c1 < c2 <= s.len()) {
        Err((c, Seq::empty()))
    } else {
        match p_level(s, c2, fl, 1) {
            Err(e) => Err(e),
            Ok((c3, code, got, fl3)) => if got {
                Ok((c3, code.push(Instr::Assign(trimmed(text_at(s, c)))), true, fl3))
            } else {
                Err((c3, "Missing right side of assignment"@))
            },
        }
    }
}

/// `exp1 := exp2 (('+'|'-') exp1)?`, and so on down to `exp3 := fact ('^' exp3)?`:
/// the right operand is the whole rest of the chain.
pub open spec fn p_level(s: Seq<char>, c: int, fl: Seq<Option<u64>>, level: int) -> Outcome
    decreases s.len() - c, (5 - level) as nat,
{
    if !(0 <= c <= s.len() && 1 <= level <= 3) {
        Err((c, Seq::empty()))
    } else {
        match p_operand(s, c, fl, level) {
            Err(e) => Err(e),
            Ok((c1, code, got, fl1)) => {
                let k = kind_at(s, c1);
                let c2 = next_at(s, c1);
                if !level_op(level, k) {
                    Ok((c1, code, got, fl1))
                } else if !(c <= c1 < c2 <= s.len()) {
                    Err((c1, Seq::empty()))
                } else {
                    match p_level(s, c2, fl1, level) {
                        Err(e) => Err(e),
                        Ok((c3, code2, got2, fl3)) => if got2 {
                            Ok((c3, code + code2.push(Instr::BinaryOp(op_of(k))), true, fl3))
                        } else {
                            Err((c3, ERR_EOF@))
                        },
                    }
                }
            },
        }
    }
}

/// An operand of level `level`: the next level's expression, or a factor.
pub open spec fn p_operand(s: Seq<char>, c: int, fl: Seq<Option<u64>>, level: int) -> Outcome
    decreases s.len() - c, (5 - level) as nat, 0nat,
{
    if !(1 <= level <= 3) {
        Err((c, Seq::empty()))
    } else if level == 3 {
        p_fact(s, c, fl)
    } else {
        p_level(s, c, fl, level + 1)
    }
}

/// `fact := ('+'|'-') fact | '(' exp1 ')' | call | assign | ident | literal`
pub open spec fn p_fact(s: Seq<char>, c: int, fl: Seq<Option<u64>>) -> Outcome
    decreases s.len() - c, 1nat,
{
    let k = kind_at(s, c);
    let c1 = next_at(s, c);
    if !(0 <= c <= s.len()) {
        Err((c, Seq::empty()))
    } else if k == TokenKind::Eof {
        Ok((c, Seq::empty(), false, fl))
    } else if !(c < c1 <= s.len()) {
        Err((c, Seq::empty()))
    } else if k == TokenKind::Add || k == TokenKind::Sub {
        match p_fact(s, c1, fl) {
            Err(e) => Err(e),
            Ok((c2, code, got, fl2)) => if got {
                Ok((c2, code.push(Instr::UnaryOp(op_of(k))), true, fl2))
            } else {
                Err((c2, "Unary operator needs expression"@))
            },
        }
    } else if k == TokenKind::Lpar {
        match p_level(s, c1, fl, 1) {
            Err(e) => Err(e),
            Ok((c2, code, got, fl2)) => if kind_at(s, c2) == TokenKind::Rpar {
                Ok((next_at(s, c2), code, got, fl2))
            } else {
                Err((c2, "Missing closing parenthesis"@))
            },
        }
    } else if k is Literal {
        p_literal(s, c, fl, k->Literal_0)
    } else if k == TokenKind::Ident {
        if kind_at(s, c1) == TokenKind::Lpar {
            p_call(s, c, fl)
        } else if kind_at(s, c1) == TokenKind::Assign {
            p_assign(s, c, fl)
        } else {
            p_name(s, c, fl)
        }
    } else {
        Err((c, ERR_UNEXP@))
    }
}

/// `call := ident '(' exp1 (',' exp1)* ')'`, from the cursor of the name.
pub open spec fn p_call(s: Seq<char>, c: int, fl: Seq<Option<u64>>) -> Outcome
    decreases s.len() - c, 0nat,
{
    let c1 = next_at(s, c);
    let c2 = next_at(s, c1);
    match builtin_named(trimmed(text_at(s, c))) {
        None => Err((c, "Unknown function "@ + trimmed(text_at(s, c)))),
        Some(b) => if !(0 <= c < c1 < c2 <= s.len()) {
            Err((c, Seq::empty()))
        } else {
            p_args(s, c2, fl, b, 0)
        },
    }
}

/// The arguments of a call of `b` from its `i`-th on, then `)`: exactly as
/// many as `b` takes.
pub open spec fn p_args(s: Seq<char>, c: int, fl: Seq<Option<u64>>, b: Builtin, i: int) -> Outcome
    decreases s.len() - c, 5nat,
{
    if !(0 <= c <= s.len()) {
        Err((c, Seq::empty()))
    } else {
        match p_level(s, c, fl, 1) {
            Err(e) => Err(e),
            Ok((c1, code, got, fl1)) => {
                let c2 = next_at(s, c1);
                if !got {
                    Err((c1, empty_argument(i)))
                } else if i + 1 < arity(b) {
                    if kind_at(s, c1) == TokenKind::Coma {
                        if !(c <= c1 < c2 <= s.len()) {
                            Err((c1, Seq::empty()))
                        } else {
                            match p_args(s, c2, fl1, b, i + 1) {
                                Err(e) => Err(e),
                                Ok((c3, code2, _, fl3)) => Ok((c3, code + code2, true, fl3)),
                            }
                        }
                    } else {
                        Err((c1, "Invalid number of arguments"@))
                    }
                } else if kind_at(s, c1) == TokenKind::Rpar {
                    Ok(
                        (
                            c2,
                            code.push(Instr::FuncCall(Function { kind: b, arg_count: arity(b) })),
                            true,
                            fl1,
                        ),
                    )
                } else {
                    Err((c1, "Expected closing bracket"@))
                }
            },
        }
    }
}

/// A snapshot of a parser: its cursor, its program and the float readings it made.
pub type PState = (int, Seq<Expression>, Seq<Option<u64>>);

/// From `a` to `b` the cursor moved forward and the program and the
/// readings were only appended to.
pub open spec fn grew(a: PState, b: PState) -> bool {
    &&& a.0 <= b.0
    &&& a.1.len() <= b.1.len()
    &&& b.1.subrange(0, a.1.len() as int) == a.1
    &&& a.2.len() <= b.2.len()
    &&& b.2.subrange(0, a.2.len() as int) == a.2
}

/// The code appended from `a` to `b`.
pub open spec fn added(a: PState, b: PState) -> Seq<Instr> {
    code_of(b.1.subrange(a.1.len() as int, b.1.len() as int))
}

/// The float readings made from `a` to `b`.
pub open spec fn used(a: PState, b: PState) -> Seq<Option<u64>> {
    b.2.subrange(a.2.len() as int, b.2.len() as int)
}

/// The outcome that a call from `a` to `b` which returned `r` stands for.
pub open spec fn outcome(a: PState, b: PState, r: Result<bool, Error>, rest: Seq<Option<u64>>) -> Outcome {
    match r {
        Ok(got) => Ok((b.0, added(a, b), got, rest)),
        Err(e) => Err((b.0, e.message@)),
    }
}

proof fn lemma_grew_trans(a: PState, b: PState, c: PState)
    requires
        grew(a, b),
        grew(b, c),
    ensures
        grew(a, c),
        added(a, c) == added(a, b) + added(b, c),
        used(a, c) == used(a, b) + used(b, c),
{
    assert(c.1.subrange(0, a.1.len() as int) =~= a.1) by {
        assert(c.1.subrange(0, b.1.len() as int).subrange(0, a.1.len() as int) =~= c.1.subrange(
            0,
            a.1.len() as int,
        ));
    }
    assert(c.2.subrange(0, a.2.len() as int) =~= a.2) by {
        assert(c.2.subrange(0, b.2.len() as int).subrange(0, a.2.len() as int) =~= c.2.subrange(
            0,
            a.2.len() as int,
        ));
    }
    let x = c.1.subrange(a.1.len() as int, c.1.len() as int);
    let x1 = b.1.subrange(a.1.len() as int, b.1.len() as int);
    let x2 = c.1.subrange(b.1.len() as int, c.1.len() as int);
    assert(x =~= x1 + x2) by {
        assert forall|i: int| 0 <= i < x1.len() implies x[i] == x1[i] by {
            assert(c.1.subrange(0, b.1.len() as int)[a.1.len() + i] == c.1[a.1.len() + i]);
        }
    }
    assert(code_of(x) =~= code_of(x1) + code_of(x2));
    assert(used(a, c) =~= used(a, b) + used(b, c)) by {
        let y = c.2.subrange(a.2.len() as int, c.2.len() as int);
        let y1 = b.2.subrange(a.2.len() as int, b.2.len() as int);
        assert forall|i: int| 0 <= i < y1.len() implies y[i] == y1[i] by {
            assert(c.2.subrange(0, b.2.len() as int)[a.2.len() + i] == c.2[a.2.len() + i]);
        }
    }
}

proof fn lemma_still(a: PState, b: PState)
    requires
        a.0 <= b.0,
        b.1 == a.1,
        b.2 == a.2,
    ensures
        grew(a, b),
        added(a, b) == Seq::<Instr>::empty(),
        used(a, b) == Seq::<Option<u64>>::empty(),
{
    assert(b.1.subrange(0, a.1.len() as int) =~= a.1);
    assert(b.2.subrange(0, a.2.len() as int) =~= a.2);
    assert(added(a, b) =~= Seq::<Instr>::empty());
    assert(used(a, b) =~= Seq::<Option<u64>>::empty());
}

proof fn lemma_pushed(a: PState, b: PState, e: Expression)
    requires
        a.0 == b.0,
        b.1 == a.1.push(e),
        b.2 == a.2,
    ensures
        grew(a, b),
        added(a, b) == seq![e@],
        used(a, b) == Seq::<Option<u64>>::empty(),
{
    assert(b.1.subrange(0, a.1.len() as int) =~= a.1);
    assert(b.2.subrange(0, a.2.len() as int) =~= a.2);
    assert(added(a, b) =~= seq![e@]);
    assert(used(a, b) =~= Seq::<Option<u64>>::empty());
}

/// What the first operand of a level gave, stated of `p_operand`.
proof fn lemma_operand(s: Seq<char>, level: int, a: PState, b: PState, first: Result<bool, Error>)
    requires
        1 <= level <= 3,
        level == 3 ==> forall|rest: Seq<Option<u64>>|
            #[trigger] p_fact(s, a.0, used(a, b) + rest) == outcome(a, b, first, rest),
        level < 3 ==> forall|rest: Seq<Option<u64>>|
            #[trigger] p_level(s, a.0, used(a, b) + rest, level + 1) == outcome(a, b, first, rest),
    ensures
        forall|rest: Seq<Option<u64>>|
            #[trigger] p_operand(s, a.0, used(a, b) + rest, level) == outcome(a, b, first, rest),
{
    assert forall|rest: Seq<Option<u64>>|
        #[trigger] p_operand(s, a.0, used(a, b) + rest, level) == outcome(a, b, first, rest) by {
        if level == 3 {
            assert(p_fact(s, a.0, used(a, b) + rest) == outcome(a, b, first, rest));
        } else {
            assert(p_level(s, a.0, used(a, b) + rest, level + 1) == outcome(a, b, first, rest));
        }
    }
}

/// A level whose first operand failed, or is not followed by an operator of the level.
proof fn lemma_level_stop(s: Seq<char>, level: int, a: PState, b: PState, first: Result<bool, Error>)
    requires
        1 <= level <= 3,
        0 <= a.0 <= s.len(),
        forall|rest: Seq<Option<u64>>|
            #[trigger] p_operand(s, a.0, used(a, b) + rest, level) == outcome(a, b, first, rest),
        first is Ok ==> !level_op(level, kind_at(s, b.0)),
    ensures
        forall|rest: Seq<Option<u64>>|
            #[trigger] p_level(s, a.0, used(a, b) + rest, level) == outcome(a, b, first, rest),
{
    assert forall|rest: Seq<Option<u64>>|
        #[trigger] p_level(s, a.0, used(a, b) + rest, level) == outcome(a, b, first, rest) by {
        assert(p_operand(s, a.0, used(a, b) + rest, level) == outcome(a, b, first, rest));
    }
}

/// A level whose first operand is followed by an operator of the level and
/// the rest of the chain.
proof fn lemma_level_more(
    s: Seq<char>,
    level: int,
    k: TokenKind,
    a: PState,
    b: PState,
    c: PState,
    d: PState,
    g: PState,
    first: Result<bool, Error>,
    second: Result<bool, Error>,
    r: Result<bool, Error>,
)
    requires
        1 <= level <= 3,
        0 <= a.0 <= b.0 < c.0 <= s.len(),
        grew(a, b),
        grew(c, d),
        c.1 == b.1,
        c.2 == b.2,
        c.0 == next_at(s, b.0),
        k == kind_at(s, b.0),
        level_op(level, k),
        first is Ok,
        forall|rest: Seq<Option<u64>>|
            #[trigger] p_operand(s, a.0, used(a, b) + rest, level) == outcome(a, b, first, rest),
        forall|rest: Seq<Option<u64>>|
            #[trigger] p_level(s, c.0, used(c, d) + rest, level) == outcome(c, d, second, rest),
        (second is Err && g == d && r == second) || (second == Ok::<bool, Error>(false) && g == d
            && r is Err && r->Err_0.message@ == ERR_EOF@) || (second == Ok::<bool, Error>(true) && g.0 == d.0 && g.1 == d.1.push(
            Expression::BinaryOp(op_of(k)),
        ) && g.2 == d.2 && r == Ok::<bool, Error>(true)),
    ensures
        grew(a, g),
        forall|rest: Seq<Option<u64>>|
            #[trigger] p_level(s, a.0, used(a, g) + rest, level) == outcome(a, g, r, rest),
{
    lemma_still(b, c);
    lemma_grew_trans(a, b, c);
    lemma_grew_trans(a, c, d);
    if g != d {
        lemma_pushed(d, g, Expression::BinaryOp(op_of(k)));
        lemma_grew_trans(a, d, g);
    } else {
        lemma_still(d, g);
        lemma_grew_trans(a, d, g);
    }
    assert forall|rest: Seq<Option<u64>>|
        #[trigger] p_level(s, a.0, used(a, g) + rest, level) == outcome(a, g, r, rest) by {
        assert(used(a, g) + rest =~= used(a, b) + (used(c, d) + rest));
        assert(p_operand(s, a.0, used(a, b) + (used(c, d) + rest), level) == outcome(
            a,
            b,
            first,
            used(c, d) + rest,
        ));
        assert(p_level(s, c.0, used(c, d) + rest, level) == outcome(c, d, second, rest));
        if g != d {
            assert(added(a, g) =~= added(a, b) + added(c, d).push(Instr::BinaryOp(op_of(k))));
        }
    }
}

/// The codes of the operands of a chain, one after the other.
pub open spec fn flatten(codes: Seq<Seq<Instr>>) -> Seq<Instr>
    decreases codes.len(),
{
    if codes.len() == 0 {
        Seq::empty()
    } else {
        codes[0] + flatten(codes.drop_first())
    }
}

/// The operators of a chain as instructions, the last one first.
pub open spec fn ops_reversed(ks: Seq<TokenKind>) -> Seq<Instr>
    decreases ks.len(),
{
    if ks.len() == 0 {
        Seq::empty()
    } else {
        ops_reversed(ks.drop_first()).push(Instr::BinaryOp(op_of(ks[0])))
    }
}

/// The `i`-th operand of a chain starts at `cs[i]`, compiles to `codes[i]`
/// and ends at `ends[i]`, where the operator `ks[i]` of the level stands
/// (after the last operand, none does); `fls[i]` are the float readings
/// left before it.
pub open spec fn is_chain(
    s: Seq<char>,
    level: int,
    cs: Seq<int>,
    ends: Seq<int>,
    codes: Seq<Seq<Instr>>,
    ks: Seq<TokenKind>,
    fls: Seq<Seq<Option<u64>>>,
) -> bool {
    let n = cs.len();
    &&& 1 <= level <= 3
    &&& n >= 1
    &&& ends.len() == n && codes.len() == n && ks.len() == n - 1 && fls.len() == n + 1
    &&& forall|i: int|
        0 <= i < n ==> #[trigger] p_operand(s, cs[i], fls[i], level) == Ok::<
            (int, Seq<Instr>, bool, Seq<Option<u64>>),
            (int, Seq<char>),
        >((ends[i], codes[i], true, fls[i + 1]))
    &&& forall|i: int| 0 <= i < n ==> 0 <= #[trigger] cs[i] <= ends[i] <= s.len()
    &&& forall|i: int|
        0 <= i < n - 1 ==> #[trigger] ks[i] == kind_at(s, ends[i]) && level_op(level, ks[i])
            && cs[i + 1] == next_at(s, ends[i]) && ends[i] < cs[i + 1]
    &&& !level_op(level, kind_at(s, ends[n - 1]))
}

/// A chain of operators of one precedence level groups to the right: its
/// code is the code of every operand, left to right, then the operators
/// from the last to the first, so `a - b - c` is computed as `a - (b - c)`.
pub proof fn lemma_chain_groups_right(
    s: Seq<char>,
    level: int,
    cs: Seq<int>,
    ends: Seq<int>,
    codes: Seq<Seq<Instr>>,
    ks: Seq<TokenKind>,
    fls: Seq<Seq<Option<u64>>>,
)
    requires
        is_chain(s, level, cs, ends, codes, ks, fls),
    ensures
        p_level(s, cs[0], fls[0], level) == Ok::<(int, Seq<Instr>, bool, Seq<Option<u64>>), (int, Seq<char>)>(
            (ends[cs.len() - 1], flatten(codes) + ops_reversed(ks), true, fls[cs.len() as int]),
        ),
{
    lemma_chain_from(s, level, cs, ends, codes, ks, fls, 0);
    assert(codes.subrange(0, cs.len() as int) =~= codes);
    assert(ks.subrange(0, cs.len() - 1) =~= ks);
}

proof fn lemma_chain_from(
    s: Seq<char>,
    level: int,
    cs: Seq<int>,
    ends: Seq<int>,
    codes: Seq<Seq<Instr>>,
    ks: Seq<TokenKind>,
    fls: Seq<Seq<Option<u64>>>,
    i: int,
)
    requires
        is_chain(s, level, cs, ends, codes, ks, fls),
        0 <= i < cs.len(),
    ensures
        p_level(s, cs[i], fls[i], level) == Ok::<(int, Seq<Instr>, bool, Seq<Option<u64>>), (int, Seq<char>)>(
            (
                ends[cs.len() - 1],
                flatten(codes.subrange(i, cs.len() as int)) + ops_reversed(
                    ks.subrange(i, cs.len() - 1),
                ),
                true,
                fls[cs.len() as int],
            ),
        ),
    decreases cs.len() - i,
{
    let n = cs.len() as int;
    assert(p_operand(s, cs[i], fls[i], level) == Ok::<
        (int, Seq<Instr>, bool, Seq<Option<u64>>),
        (int, Seq<char>),
    >((ends[i], codes[i], true, fls[i + 1])));
    assert(0 <= cs[i] <= ends[i] <= s.len());
    if i == n - 1 {
        let one = codes.subrange(i, n);
        assert(one.drop_first() =~= Seq::<Seq<Instr>>::empty());
        assert(one[0] == codes[i]);
        assert(flatten(one.drop_first()) == Seq::<Instr>::empty());
        assert(flatten(one) == one[0] + flatten(one.drop_first()));
        assert(flatten(one) =~= codes[i]);
        assert(ks.subrange(i, n - 1) =~= Seq::<TokenKind>::empty());
        assert(ops_reversed(ks.subrange(i, n - 1)) =~= Seq::<Instr>::empty());
        assert(flatten(one) + Seq::<Instr>::empty() =~= codes[i]);
    } else {
        lemma_chain_from(s, level, cs, ends, codes, ks, fls, i + 1);
        assert(ks[i] == kind_at(s, ends[i]) && level_op(level, ks[i]));
        assert(cs[i + 1] == next_at(s, ends[i]) && ends[i] < cs[i + 1]);
        assert(0 <= cs[i + 1] <= ends[i + 1] <= s.len());
        let tail = codes.subrange(i + 1, n);
        assert(codes.subrange(i, n).drop_first() =~= tail);
        let kt = ks.subrange(i + 1, n - 1);
        assert(ks.subrange(i, n - 1).drop_first() =~= kt);
        assert(flatten(codes.subrange(i, n)) == codes[i] + flatten(tail));
        assert(ops_reversed(ks.subrange(i, n - 1)) == ops_reversed(kt).push(
            Instr::BinaryOp(op_of(ks[i])),
        ));
        assert(codes[i] + (flatten(tail) + ops_reversed(kt)).push(Instr::BinaryOp(op_of(ks[i])))
            =~= flatten(codes.subrange(i, n)) + ops_reversed(ks.subrange(i, n - 1)));
    }
}

pub const ERR_UNEXP: &'static str = "Unexpected token";

pub const ERR_EOF: &'static str = "Unexpected end of input";

/// Compiles the text of one line into a program for the `Calculator`.
pub struct Parser<'src> {
    pub program: Vec<Expression>,
    source: &'src str,
    tokens: Tokenizer,
    current_token: Token,
    next_token: Token,
    cur: usize,
    nxt: usize,
    floats: Ghost<Seq<Option<u64>>>,
}

/// `t` is the token at cursor `c` of `s`.
pub open spec fn is_token_at(t: Token, s: Seq<char>, c: int) -> bool {
    &&& t.kind == kind_at(s, c)
    &&& t.start as int == byte_offset(s, c)
    &&& t.len as int == byte_offset(s, next_at(s, c)) - byte_offset(s, c)
}

impl<'src> Parser<'src> {
    /// The source text.
    pub closed spec fn text(&self) -> Seq<char> {
        self.source@
    }

    /// The cursor of the current token.
    pub closed spec fn pos(&self) -> int {
        self.cur as int
    }

    /// The program compiled so far, with names as text.
    pub closed spec fn code(&self) -> Seq<Instr> {
        code_of(self.program@)
    }

    pub closed spec fn state(&self) -> PState {
        (self.cur as int, self.program@, self.floats@)
    }

    pub closed spec fn wf(&self) -> bool {
        &&& self.tokens.wf()
        &&& self.tokens.text() == self.source@
        &&& self.cur <= self.nxt <= self.source@.len()
        &&& self.nxt == next_at(self.source@, self.cur as int)
        &&& self.tokens.cursor() == next_at(self.source@, self.nxt as int)
        &&& is_token_at(self.current_token, self.source@, self.cur as int)
        &&& is_token_at(self.next_token, self.source@, self.nxt as int)
    }

    /// The program compiled so far (the `program` field).
    pub fn program(&self) -> (r: &Vec<Expression>)
        ensures
            code_of(r@) == self.code(),
    {
        &self.program
    }

    /// A parser of `source`, its first two tokens read.
    pub fn new(source: &'src str) -> (p: Parser<'src>)
        ensures
            p.wf(),
            p.text() == source@,
            p.pos() == 0,
            p.code() == Seq::<Instr>::empty(),
            p.state().1.len() == 0,
            p.state().2.len() == 0,
    {
        let mut tokens = Tokenizer::new(source);
        proof {
            tokens.lemma_wf();
            lemma_lex_bounds(source@, 0);
        }
        let current_token = tokens.next_token();
        let nxt = tokens.position();
        proof {
            tokens.lemma_wf();
        }
        let next_token = tokens.next_token();
        let p = Parser {
            program: Vec::new(),
            source,
            tokens,
            current_token,
            next_token,
            cur: 0,
            nxt,
            floats: Ghost(Seq::empty()),
        };
        assert(p.code() =~= Seq::<Instr>::empty());
        p
    }

    /// Moves to the next token.
    fn bump(&mut self)
        requires
            old(self).wf(),
        ensures
            final(self).wf(),
            final(self).text() == old(self).text(),
            final(self).pos() == next_at(old(self).text(), old(self).pos()),
            final(self).state().1 == old(self).state().1,
            final(self).state().2 == old(self).state().2,
    {
        proof {
            self.tokens.lemma_wf();
            lemma_lex_bounds(self.source@, self.nxt as int);
        }
        self.cur = self.nxt;
        self.nxt = self.tokens.position();
        self.current_token = self.next_token;
        self.next_token = self.tokens.next_token();
    }

    /// The text of the current token.
    fn current_token_value(&self) -> (r: &'src str)
        requires
            self.wf(),
        ensures
            r@ == text_at(self.text(), self.pos()),
    {
        self.source.substring_char(self.cur, self.nxt)
    }

    fn current_span(&self) -> (r: Span)
        requires
            self.wf(),
        ensures
            r.pos as int == byte_offset(self.text(), self.pos()),
            r.len as int == byte_offset(self.text(), next_at(self.text(), self.pos())) - byte_offset(
                self.text(),
                self.pos(),
            ),
    {
        Span::new(self.current_token.start, self.current_token.len)
    }

    fn error(&self, message: &str) -> (r: Result<bool, Error>)
        requires
            self.wf(),
        ensures
            r is Err,
            r->Err_0.message@ == message@,
    {
        Err(Error::new(message, self.current_span()))
    }

    /// `exp1`, `exp2` or `exp3`: an operand of the next level, then, after
    /// an operator of this level, the rest of the chain as its right operand.
    fn parse_level<F: FloatUnit>(&mut self, level: u8) -> (r: Result<bool, Error>)
        requires
            old(self).wf(),
            1 <= level <= 3,
        ensures
            final(self).wf(),
            final(self).text() == old(self).text(),
            grew(old(self).state(), final(self).state()),
            forall|rest: Seq<Option<u64>>|
                #[trigger] p_level(
                    old(self).text(),
                    old(self).pos(),
                    used(old(self).state(), final(self).state()) + rest,
                    level as int,
                ) == outcome(old(self).state(), final(self).state(), r, rest),
        decreases old(self).text().len() - old(self).pos(), (5 - level) as nat,
    {
        let ghost s = self.text();
        let ghost a = self.state();
        let first = if level == 3 {
            self.parse_fact::<F>()
        } else {
            self.parse_level::<F>(level + 1)
        };
        let ghost b = self.state();
        proof {
            lemma_operand(s, level as int, a, b, first);
        }
        let got = match first {
            Err(e) => {
                proof {
                    lemma_level_stop(s, level as int, a, b, first);
                }
                return Err(e);
            },
            Ok(got) => got,
        };
        let k = self.current_token.kind;
        if !is_level_op(level, k) {
            proof {
                lemma_level_stop(s, level as int, a, b, first);
            }
            return Ok(got);
        }
        proof {
            lemma_lex_bounds(s, b.0);
        }
        self.bump();
        let ghost c = self.state();
        let second = self.parse_level::<F>(level);
        let ghost d = self.state();
        match second {
            Err(e) => {
                proof {
                    lemma_level_more(s, level as int, k, a, b, c, d, d, first, second, second);
                }
                Err(e)
            },
            Ok(got2) => {
                if got2 {
                    let e = Expression::BinaryOp(op_of_token(k));
                    self.program.push(e);
                    proof {
                        lemma_level_more(
                            s,
                            level as int,
                            k,
                            a,
                            b,
                            c,
                            d,
                            self.state(),
                            first,
                            second,
                            Ok(true),
                        );
                    }
                    Ok(true)
                } else {
                    let r = self.error(ERR_EOF);
                    proof {
                        lemma_level_more(s, level as int, k, a, b, c, d, d, first, second, r);
                    }
                    r
                }
            },
        }
    }

    fn parse_fact<F: FloatUnit>(&mut self) -> (r: Result<bool, Error>)
        requires
            old(self).wf(),
        ensures
            final(self).wf(),
            final(self).text() == old(self).text(),
            grew(old(self).state(), final(self).state()),
            forall|rest: Seq<Option<u64>>|
                #[trigger] p_fact(old(self).text(), old(self).pos(), used(old(self).state(), final(self).state()) + rest) == outcome(old(self).state(), final(self).state(), r, rest),
        decreases old(self).text().len() - old(self).pos(), 1nat,
    {
        let ghost s = self.text();
        let ghost a = self.state();
        proof {
            lemma_lex_bounds(s, a.0);
            lemma_still(a, a);
        }
        let k = self.current_token.kind;
        match k {
            TokenKind::Eof => {
                assert forall|rest: Seq<Option<u64>>|
                    #[trigger] p_fact(s, a.0, used(a, a) + rest) == outcome(
                        a,
                        a,
                        Ok::<bool, Error>(false),
                        rest,
                    ) by {
                    assert(used(a, a) + rest =~= rest);
                }
                Ok(false)
            },
            TokenKind::Add | TokenKind::Sub => {
                self.bump();
                let ghost c = self.state();
                proof {
                    lemma_still(a, c);
                }
                let sub = self.parse_fact::<F>();
                let ghost d = self.state();
                proof {
                    lemma_grew_trans(a, c, d);
                }
                match sub {
                    Err(e) => {
                        assert forall|rest: Seq<Option<u64>>|
                            #[trigger] p_fact(s, a.0, used(a, d) + rest) == outcome(
                                a,
                                d,
                                sub,
                                rest,
                            ) by {
                            assert(used(a, d) + rest =~= used(c, d) + rest);
                            assert(p_fact(s, c.0, used(c, d) + rest) == outcome(c, d, sub, rest));
                        }
                        Err(e)
                    },
                    Ok(got) => {
                        if !got {
                            let r = self.error("Unary operator needs expression");
                            assert forall|rest: Seq<Option<u64>>|
                                #[trigger] p_fact(s, a.0, used(a, d) + rest) == outcome(
                                    a,
                                    d,
                                    r,
                                    rest,
                                ) by {
                                assert(used(a, d) + rest =~= used(c, d) + rest);
                                assert(p_fact(s, c.0, used(c, d) + rest) == outcome(
                                    c,
                                    d,
                                    sub,
                                    rest,
                                ));
                            }
                            return r;
                        }
                        let e = Expression::UnaryOp(op_of_token(k));
                        self.program.push(e);
                        let ghost f = self.state();
                        proof {
                            lemma_pushed(d, f, e);
                            lemma_grew_trans(a, d, f);
                        }
                        assert forall|rest: Seq<Option<u64>>|
                            #[trigger] p_fact(s, a.0, used(a, f) + rest) == outcome(
                                a,
                                f,
                                Ok::<bool, Error>(true),
                                rest,
                            ) by {
                            assert(used(a, f) + rest =~= used(c, d) + rest);
                            assert(p_fact(s, c.0, used(c, d) + rest) == outcome(c, d, sub, rest));
                            assert(added(a, f) =~= added(c, d).push(Instr::UnaryOp(op_of(k))));
                        }
                        Ok(true)
                    },
                }
            },
            TokenKind::Lpar => {
                self.bump();
                let ghost c = self.state();
                proof {
                    lemma_still(a, c);
                }
                let sub = self.parse_level::<F>(1);
                let ghost d = self.state();
                proof {
                    lemma_grew_trans(a, c, d);
                }
                match sub {
                    Err(e) => {
                        assert forall|rest: Seq<Option<u64>>|
                            #[trigger] p_fact(s, a.0, used(a, d) + rest) == outcome(
                                a,
                                d,
                                sub,
                                rest,
                            ) by {
                            assert(used(a, d) + rest =~= used(c, d) + rest);
                            assert(p_level(s, c.0, used(c, d) + rest, 1) == outcome(
                                c,
                                d,
                                sub,
                                rest,
                            ));
                        }
                        Err(e)
                    },
                    Ok(got) => {
                        if self.current_token.kind != TokenKind::Rpar {
                            let r = self.error("Missing closing parenthesis");
                            assert forall|rest: Seq<Option<u64>>|
                                #[trigger] p_fact(s, a.0, used(a, d) + rest) == outcome(
                                    a,
                                    d,
                                    r,
                                    rest,
                                ) by {
                                assert(used(a, d) + rest =~= used(c, d) + rest);
                                assert(p_level(s, c.0, used(c, d) + rest, 1) == outcome(
                                    c,
                                    d,
                                    sub,
                                    rest,
                                ));
                            }
                            return r;
                        }
                        proof {
                            lemma_lex_bounds(s, d.0);
                        }
                        self.bump();
                        let ghost f = self.state();
                        proof {
                            lemma_still(d, f);
                            lemma_grew_trans(a, d, f);
                        }
                        assert forall|rest: Seq<Option<u64>>|
                            #[trigger] p_fact(s, a.0, used(a, f) + rest) == outcome(
                                a,
                                f,
                                Ok::<bool, Error>(got),
                                rest,
                            ) by {
                            assert(used(a, f) + rest =~= used(c, d) + rest);
                            assert(p_level(s, c.0, used(c, d) + rest, 1) == outcome(
                                c,
                                d,
                                sub,
                                rest,
                            ));
                            assert(added(a, f) =~= added(c, d));
                        }
                        Ok(got)
                    },
                }
            },
            TokenKind::Literal(lk) => {
                let r = self.parse_literal::<F>(lk);
                assert forall|rest: Seq<Option<u64>>|
                    #[trigger] p_fact(s, a.0, used(a, self.state()) + rest) == outcome(
                        a,
                        self.state(),
                        r,
                        rest,
                    ) by {
                    assert(p_literal(s, a.0, used(a, self.state()) + rest, lk) == outcome(
                        a,
                        self.state(),
                        r,
                        rest,
                    ));
                }
                r
            },
            TokenKind::Ident => {
                let nk = self.next_token.kind;
                if nk == TokenKind::Lpar {
                    let r = self.parse_call::<F>();
                    assert forall|rest: Seq<Option<u64>>|
                        #[trigger] p_fact(s, a.0, used(a, self.state()) + rest) == outcome(
                            a,
                            self.state(),
                            r,
                            rest,
                        ) by {
                        assert(p_call(s, a.0, used(a, self.state()) + rest) == outcome(
                            a,
                            self.state(),
                            r,
                            rest,
                        ));
                    }
                    r
                } else if nk == TokenKind::Assign {
                    let r = self.parse_assign::<F>();
                    assert forall|rest: Seq<Option<u64>>|
                        #[trigger] p_fact(s, a.0, used(a, self.state()) + rest) == outcome(
                            a,
                            self.state(),
                            r,
                            rest,
                        ) by {
                        assert(p_assign(s, a.0, used(a, self.state()) + rest) == outcome(
                            a,
                            self.state(),
                            r,
                            rest,
                        ));
                    }
                    r
                } else {
                    let r = self.parse_ident();
                    assert forall|rest: Seq<Option<u64>>|
                        #[trigger] p_fact(s, a.0, used(a, self.state()) + rest) == outcome(
                            a,
                            self.state(),
                            r,
                            rest,
                        ) by {
                        assert(p_name(s, a.0, used(a, self.state()) + rest) == outcome(
                            a,
                            self.state(),
                            r,
                            rest,
                        ));
                    }
                    r
                }
            },
            _ => {
                let r = self.error(ERR_UNEXP);
                assert forall|rest: Seq<Option<u64>>|
                    #[trigger] p_fact(s, a.0, used(a, a) + rest) == outcome(a, a, r, rest) by {}
                r
            },
        }
    }

    /// A literal: its number is appended.
    fn parse_literal<F: FloatUnit>(&mut self, lk: LiteralKind) -> (r: Result<bool, Error>)
        requires
            old(self).wf(),
            kind_at(old(self).text(), old(self).pos()) == TokenKind::Literal(lk),
        ensures
            final(self).wf(),
            final(self).text() == old(self).text(),
            grew(old(self).state(), final(self).state()),
            forall|rest: Seq<Option<u64>>|
                #[trigger] p_literal(old(self).text(), old(self).pos(), used(old(self).state(), final(self).state()) + rest, lk) == outcome(old(self).state(), final(self).state(), r, rest),
    {
        let ghost s = self.text();
        let ghost a = self.state();
        proof {
            lemma_lex_bounds(s, a.0);
            lemma_still(a, a);
        }
        let text = self.current_token_value();
        let val = match lk {
            LiteralKind::Int(base) => {
                let n = match base {
                    Base::Bin => parse_int_bin(text),
                    Base::Oct => parse_int_oct(text),
                    Base::Dec => parse_int(text),
                    Base::Hex => parse_int_hex(text),
                };
                match n {
                    Err(e) => {
                        assert forall|rest: Seq<Option<u64>>|
                            #[trigger] p_literal(s, a.0, used(a, a) + rest, lk) == outcome(
                                a,
                                a,
                                Err::<bool, Error>(e),
                                rest,
                            ) by {}
                        return Err(e);
                    },
                    Ok(v) => v,
                }
            },
            LiteralKind::Float => {
                let chars = sanitize(text);
                let reading = F::parse(&chars);
                self.floats = Ghost(self.floats@.push(reading));
                let ghost b = self.state();
                proof {
                    assert(b.2.subrange(0, a.2.len() as int) =~= a.2);
                    assert(b.1.subrange(0, a.1.len() as int) =~= a.1);
                    assert(used(a, b) =~= seq![reading]);
                }
                let parsed = match reading {
                    None => Err(Error::new("invalid float literal", self.current_span())),
                    Some(bits) => float_reading(bits),
                };
                match parsed {
                    Err(e) => {
                        let r = Err(e);
                        assert forall|rest: Seq<Option<u64>>|
                            #[trigger] p_literal(s, a.0, used(a, b) + rest, lk) == outcome(
                                a,
                                b,
                                r,
                                rest,
                            ) by {
                            assert((used(a, b) + rest)[0] == reading);
                        }
                        return r;
                    },
                    Ok(n) => n,
                }
            },
            LiteralKind::String => {
                let r = self.error("Unknown Literal");
                assert forall|rest: Seq<Option<u64>>|
                    #[trigger] p_literal(s, a.0, used(a, a) + rest, lk) == outcome(a, a, r, rest) by {}
                return r;
            },
        };
        let ghost b = self.state();
        let e = Expression::Val(val);
        self.program.push(e);
        let ghost c = self.state();
        self.bump();
        let ghost d = self.state();
        proof {
            if lk == LiteralKind::Float {
                assert(grew(a, b));
            } else {
                lemma_still(a, b);
            }
            lemma_pushed(b, c, e);
            lemma_still(c, d);
            lemma_grew_trans(a, b, c);
            lemma_grew_trans(a, c, d);
        }
        assert forall|rest: Seq<Option<u64>>|
            #[trigger] p_literal(s, a.0, used(a, d) + rest, lk) == outcome(
                a,
                d,
                Ok::<bool, Error>(true),
                rest,
            ) by {
            assert(added(a, d) =~= seq![Instr::Val(val)]);
            if lk == LiteralKind::Float {
                assert((used(a, d) + rest)[0] == used(a, b)[0]);
                assert((used(a, d) + rest).drop_first() =~= rest);
            } else {
                assert(used(a, d) + rest =~= rest);
            }
        }
        Ok(true)
    }

    /// A bare name: a constant's value, or a load of the variable.
    fn parse_ident(&mut self) -> (r: Result<bool, Error>)
        requires
            old(self).wf(),
            kind_at(old(self).text(), old(self).pos()) == TokenKind::Ident,
        ensures
            final(self).wf(),
            final(self).text() == old(self).text(),
            grew(old(self).state(), final(self).state()),
            forall|rest: Seq<Option<u64>>|
                #[trigger] p_name(old(self).text(), old(self).pos(), used(old(self).state(), final(self).state()) + rest) == outcome(old(self).state(), final(self).state(), r, rest),
    {
        let ghost s = self.text();
        let ghost a = self.state();
        proof {
            lemma_lex_bounds(s, a.0);
        }
        let name = trim(self.current_token_value());
        let e = match parse_const(name) {
            Ok(n) => Expression::Val(n),
            Err(_) => Expression::Ref(Ident::new(name)),
        };
        assert(e@ == name_instr(trimmed(text_at(s, a.0))));
        self.program.push(e);
        let ghost c = self.state();
        self.bump();
        let ghost d = self.state();
        proof {
            lemma_pushed(a, c, e);
            lemma_still(c, d);
            lemma_grew_trans(a, c, d);
        }
        assert forall|rest: Seq<Option<u64>>|
            #[trigger] p_name(s, a.0, used(a, d) + rest) == outcome(
                a,
                d,
                Ok::<bool, Error>(true),
                rest,
            ) by {
            assert(used(a, d) + rest =~= rest);
            assert(added(a, d) =~= seq![e@]);
        }
        Ok(true)
    }

    /// `name = exp1`, from the name: the value is stored and kept.
    fn parse_assign<F: FloatUnit>(&mut self) -> (r: Result<bool, Error>)
        requires
            old(self).wf(),
            kind_at(old(self).text(), old(self).pos()) == TokenKind::Ident,
            kind_at(old(self).text(), next_at(old(self).text(), old(self).pos()))
                == TokenKind::Assign,
        ensures
            final(self).wf(),
            final(self).text() == old(self).text(),
            grew(old(self).state(), final(self).state()),
            forall|rest: Seq<Option<u64>>|
                #[trigger] p_assign(old(self).text(), old(self).pos(), used(old(self).state(), final(self).state()) + rest) == outcome(old(self).state(), final(self).state(), r, rest),
        decreases old(self).text().len() - old(self).pos(), 0nat,
    {
        let ghost s = self.text();
        let ghost a = self.state();
        proof {
            lemma_lex_bounds(s, a.0);
            lemma_lex_bounds(s, next_at(s, a.0));
        }
        let name = trim(self.current_token_value());
        let id = Ident::new(name);
        self.bump();
        self.bump();
        let ghost c = self.state();
        proof {
            lemma_still(a, c);
        }
        let sub = self.parse_level::<F>(1);
        let ghost d = self.state();
        proof {
            lemma_grew_trans(a, c, d);
        }
        match sub {
            Err(e) => {
                assert forall|rest: Seq<Option<u64>>|
                    #[trigger] p_assign(s, a.0, used(a, d) + rest) == outcome(a, d, sub, rest) by {
                    assert(used(a, d) + rest =~= used(c, d) + rest);
                    assert(p_level(s, c.0, used(c, d) + rest, 1) == outcome(c, d, sub, rest));
                }
                Err(e)
            },
            Ok(got) => {
                if !got {
                    let r = self.error("Missing right side of assignment");
                    assert forall|rest: Seq<Option<u64>>|
                        #[trigger] p_assign(s, a.0, used(a, d) + rest) == outcome(a, d, r, rest) by {
                        assert(used(a, d) + rest =~= used(c, d) + rest);
                        assert(p_level(s, c.0, used(c, d) + rest, 1) == outcome(c, d, sub, rest));
                    }
                    return r;
                }
                let e = Expression::Assign(id);
                self.program.push(e);
                let ghost f = self.state();
                proof {
                    lemma_pushed(d, f, e);
                    lemma_grew_trans(a, d, f);
                }
                assert forall|rest: Seq<Option<u64>>|
                    #[trigger] p_assign(s, a.0, used(a, f) + rest) == outcome(
                        a,
                        f,
                        Ok::<bool, Error>(true),
                        rest,
                    ) by {
                    assert(used(a, f) + rest =~= used(c, d) + rest);
                    assert(p_level(s, c.0, used(c, d) + rest, 1) == outcome(c, d, sub, rest));
                    assert(added(a, f) =~= added(c, d).push(e@));
                }
                Ok(true)
            },
        }
    }

    /// `name(args)`: the arguments' code, then the call.
    fn parse_call<F: FloatUnit>(&mut self) -> (r: Result<bool, Error>)
        requires
            old(self).wf(),
            kind_at(old(self).text(), old(self).pos()) == TokenKind::Ident,
            kind_at(old(self).text(), next_at(old(self).text(), old(self).pos()))
                == TokenKind::Lpar,
        ensures
            final(self).wf(),
            final(self).text() == old(self).text(),
            grew(old(self).state(), final(self).state()),
            forall|rest: Seq<Option<u64>>|
                #[trigger] p_call(old(self).text(), old(self).pos(), used(old(self).state(), final(self).state()) + rest) == outcome(old(self).state(), final(self).state(), r, rest),
        decreases old(self).text().len() - old(self).pos(), 0nat,
    {
        let ghost s = self.text();
        let ghost a = self.state();
        proof {
            lemma_lex_bounds(s, a.0);
            lemma_lex_bounds(s, next_at(s, a.0));
            lemma_still(a, a);
        }
        let f = match parse_function(self.current_token_value()) {
            Err(e) => {
                assert forall|rest: Seq<Option<u64>>|
                    #[trigger] p_call(s, a.0, used(a, a) + rest) == outcome(
                        a,
                        a,
                        Err::<bool, Error>(e),
                        rest,
                    ) by {}
                return Err(e);
            },
            Ok(f) => f,
        };
        self.bump();
        self.bump();
        let ghost c = self.state();
        proof {
            lemma_still(a, c);
        }
        let r = self.parse_args::<F>(f, 0);
        let ghost d = self.state();
        proof {
            lemma_grew_trans(a, c, d);
        }
        assert forall|rest: Seq<Option<u64>>|
            #[trigger] p_call(s, a.0, used(a, d) + rest) == outcome(a, d, r, rest) by {
            assert(used(a, d) + rest =~= used(c, d) + rest);
            assert(p_args(s, c.0, used(c, d) + rest, f.kind, 0) == outcome(c, d, r, rest));
            assert(added(a, d) =~= added(c, d));
        }
        r
    }

    /// The arguments of a call from the `i`-th on, then `)`.
    #[verifier::rlimit(50)]
    fn parse_args<F: FloatUnit>(&mut self, f: Function, i: usize) -> (r: Result<bool, Error>)
        requires
            old(self).wf(),
            f.wf(),
            i < f.arg_count,
        ensures
            final(self).wf(),
            final(self).text() == old(self).text(),
            grew(old(self).state(), final(self).state()),
            forall|rest: Seq<Option<u64>>|
                #[trigger] p_args(old(self).text(), old(self).pos(), used(old(self).state(), final(self).state()) + rest, f.kind, i as int) == outcome(old(self).state(), final(self).state(), r, rest),
        decreases old(self).text().len() - old(self).pos(), 5nat,
    {
        let ghost s = self.text();
        let ghost a = self.state();
        let sub = self.parse_level::<F>(1);
        let ghost b = self.state();
        let got = match sub {
            Err(e) => {
                assert forall|rest: Seq<Option<u64>>|
                    #[trigger] p_args(s, a.0, used(a, b) + rest, f.kind, i as int) == outcome(
                        a,
                        b,
                        sub,
                        rest,
                    ) by {
                    assert(p_level(s, a.0, used(a, b) + rest, 1) == outcome(a, b, sub, rest));
                }
                return Err(e);
            },
            Ok(got) => got,
        };
        proof {
            lemma_lex_bounds(s, b.0);
        }
        if !got {
            let r = if i == 0 {
                self.error("Argument 1 is empty")
            } else {
                self.error("Argument 2 is empty")
            };
            assert(r->Err_0.message@ == empty_argument(i as int));
            assert forall|rest: Seq<Option<u64>>|
                #[trigger] p_args(s, a.0, used(a, b) + rest, f.kind, i as int) == outcome(
                    a,
                    b,
                    r,
                    rest,
                ) by {
                assert(p_level(s, a.0, used(a, b) + rest, 1) == outcome(a, b, sub, rest));
            }
            return r;
        }
        let k = self.current_token.kind;
        if i + 1 < f.arg_count {
            if k != TokenKind::Coma {
                let r = self.error("Invalid number of arguments");
                assert forall|rest: Seq<Option<u64>>|
                    #[trigger] p_args(s, a.0, used(a, b) + rest, f.kind, i as int) == outcome(
                        a,
                        b,
                        r,
                        rest,
                    ) by {
                    assert(p_level(s, a.0, used(a, b) + rest, 1) == outcome(a, b, sub, rest));
                }
                return r;
            }
            self.bump();
            let ghost c = self.state();
            proof {
                lemma_still(b, c);
                lemma_grew_trans(a, b, c);
            }
            let second = self.parse_args::<F>(f, i + 1);
            let ghost d = self.state();
            proof {
                lemma_grew_trans(a, c, d);
            }
            let r = match second {
                Err(e) => Err(e),
                Ok(_) => Ok(true),
            };
            assert forall|rest: Seq<Option<u64>>|
                #[trigger] p_args(s, a.0, used(a, d) + rest, f.kind, i as int) == outcome(
                    a,
                    d,
                    r,
                    rest,
                ) by {
                assert(used(a, d) + rest =~= used(a, b) + (used(c, d) + rest));
                assert(p_level(s, a.0, used(a, b) + (used(c, d) + rest), 1) == outcome(
                    a,
                    b,
                    sub,
                    used(c, d) + rest,
                ));
                assert(p_args(s, c.0, used(c, d) + rest, f.kind, i + 1) == outcome(
                    c,
                    d,
                    second,
                    rest,
                ));
                assert(added(a, d) =~= added(a, b) + added(c, d));
            }
            r
        } else {
            if k != TokenKind::Rpar {
                let r = self.error("Expected closing bracket");
                assert forall|rest: Seq<Option<u64>>|
                    #[trigger] p_args(s, a.0, used(a, b) + rest, f.kind, i as int) == outcome(
                        a,
                        b,
                        r,
                        rest,
                    ) by {
                    assert(p_level(s, a.0, used(a, b) + rest, 1) == outcome(a, b, sub, rest));
                }
                return r;
            }
            let e = Expression::FuncCall(f);
            self.program.push(e);
            let ghost c = self.state();
            self.bump();
            let ghost d = self.state();
            proof {
                lemma_pushed(b, c, e);
                lemma_still(c, d);
                lemma_grew_trans(a, b, c);
                lemma_grew_trans(a, c, d);
            }
            assert forall|rest: Seq<Option<u64>>|
                #[trigger] p_args(s, a.0, used(a, d) + rest, f.kind, i as int) == outcome(
                    a,
                    d,
                    Ok::<bool, Error>(true),
                    rest,
                ) by {
                assert(used(a, d) + rest =~= used(a, b) + rest);
                assert(p_level(s, a.0, used(a, b) + rest, 1) == outcome(a, b, sub, rest));
                assert(added(a, d) =~= added(a, b).push(e@));
            }
            Ok(true)
        }
    }

    /// `exp`: an assignment, an expression, or nothing at the end of the input.
    pub fn parse_exp<F: FloatUnit>(&mut self) -> (r: Result<bool, Error>)
        requires
            old(self).wf(),
        ensures
            final(self).wf(),
            final(self).text() == old(self).text(),
            grew(old(self).state(), final(self).state()),
            forall|rest: Seq<Option<u64>>|
                #[trigger] p_exp(
                    old(self).text(),
                    old(self).pos(),
                    used(old(self).state(), final(self).state()) + rest,
                ) == outcome(old(self).state(), final(self).state(), r, rest),
    {
        let ghost s = self.text();
        let ghost a = self.state();
        proof {
            lemma_still(a, a);
        }
        let k = self.current_token.kind;
        if k == TokenKind::Eof {
            assert forall|rest: Seq<Option<u64>>|
                #[trigger] p_exp(s, a.0, used(a, a) + rest) == outcome(
                    a,
                    a,
                    Ok::<bool, Error>(false),
                    rest,
                ) by {
                assert(used(a, a) + rest =~= rest);
            }
            Ok(false)
        } else if k == TokenKind::Ident && self.next_token.kind == TokenKind::Assign {
            let r = self.parse_assign::<F>();
            assert forall|rest: Seq<Option<u64>>|
                #[trigger] p_exp(s, a.0, used(a, self.state()) + rest) == outcome(
                    a,
                    self.state(),
                    r,
                    rest,
                ) by {
                assert(p_assign(s, a.0, used(a, self.state()) + rest) == outcome(
                    a,
                    self.state(),
                    r,
                    rest,
                ));
            }
            r
        } else {
            let r = self.parse_level::<F>(1);
            assert forall|rest: Seq<Option<u64>>|
                #[trigger] p_exp(s, a.0, used(a, self.state()) + rest) == outcome(
                    a,
                    self.state(),
                    r,
                    rest,
                ) by {
                assert(p_level(s, a.0, used(a, self.state()) + rest, 1) == outcome(
                    a,
                    self.state(),
                    r,
                    rest,
                ));
            }
            r
        }
    }

    /// Compiles one expression, or an assignment, from the cursor and
    /// appends its code to `program`. Returns whether there was one (not at
    /// the end of the input), or the error, located at the token where
    /// compiling stopped. Float literals are read by `F`: the outcome is the
    /// one the grammar gives for some readings, the same ones whatever `F`
    /// does where the text holds no float literal.
    pub fn parse<F: FloatUnit>(&mut self) -> (r: Result<bool, Error>)
        requires
            old(self).wf(),
        ensures
            final(self).wf(),
            final(self).text() == old(self).text(),
            final(self).code().len() >= old(self).code().len(),
            final(self).code().subrange(0, old(self).code().len() as int) == old(self).code(),
            exists|fl: Seq<Option<u64>>|
                #[trigger] p_exp(old(self).text(), old(self).pos(), fl) == match r {
                    Ok(got) => Ok(
                        (
                            final(self).pos(),
                            final(self).code().subrange(
                                old(self).code().len() as int,
                                final(self).code().len() as int,
                            ),
                            got,
                            Seq::<Option<u64>>::empty(),
                        ),
                    ),
                    Err(e) => Err((final(self).pos(), e.message@)),
                },
            r is Err ==> r->Err_0.span.pos == byte_offset(final(self).text(), final(self).pos())
                && r->Err_0.span.len == byte_offset(
                final(self).text(),
                next_at(final(self).text(), final(self).pos()),
            ) - byte_offset(final(self).text(), final(self).pos()),
    {
        let ghost a = self.state();
        let r = self.parse_exp::<F>();
        let ghost b = self.state();
        proof {
            let fl = used(a, b);
            assert(fl + Seq::<Option<u64>>::empty() =~= fl);
            assert(p_exp(self.text(), a.0, fl + Seq::<Option<u64>>::empty()) == outcome(
                a,
                b,
                r,
                Seq::<Option<u64>>::empty(),
            ));
            assert(code_of(b.1).subrange(0, a.1.len() as int) =~= code_of(a.1));
            assert(code_of(b.1).subrange(a.1.len() as int, b.1.len() as int) =~= added(a, b));
        }
        match r {
            Ok(got) => Ok(got),
            Err(e) => Err(Error::new(e.message.as_str(), self.current_span())),
        }
    }
}

fn is_level_op(level: u8, k: TokenKind) -> (r: bool)
    ensures
        r == level_op(level as int, k),
{
    if level == 1 {
        k == TokenKind::Add || k == TokenKind::Sub
    } else if level == 2 {
        k == TokenKind::Mul || k == TokenKind::Div || k == TokenKind::Mod
    } else {
        k == TokenKind::Pow
    }
}

fn op_of_token(k: TokenKind) -> (r: Op)
    ensures
        r == op_of(k),
{
    match k {
        TokenKind::Add => Op::Add,
        TokenKind::Sub => Op::Sub,
        TokenKind::Mul => Op::Mul,
        TokenKind::Div => Op::Div,
        TokenKind::Mod => Op::Mod,
        _ => Op::Pow,
    }
}

} // verus!
