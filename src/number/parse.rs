use vstd::prelude::*;
use vstd::string::*;
use crate::errors::Error;
use crate::lexer::white_space;
use crate::number::{FloatUnit, Number, finite_bits};

verus! {

/// The bits of the double nearest to pi.
pub const PI_BITS: u64 = 0x4009_21FB_5444_2D18;

/// The bits of the double nearest to e.
pub const E_BITS: u64 = 0x4005_BF0A_8B14_5769;

/// `s` without whitespace and underscores, the separators that a literal may hold.
pub open spec fn sanitized(s: Seq<char>) -> Seq<char>
    decreases s.len(),
{
    if s.len() == 0 {
        s
    } else {
        let rest = sanitized(s.drop_last());
        if white_space(s.last()) || s.last() == '_' {
            rest
        } else {
            rest.push(s.last())
        }
    }
}

/// The value of a digit in bases up to 36 (36 for anything else).
pub open spec fn digit_value(c: char) -> int {
    if '0' <= c <= '9' {
        c as int - '0' as int
    } else if 'a' <= c <= 'z' {
        c as int - 'a' as int + 10
    } else if 'A' <= c <= 'Z' {
        c as int - 'A' as int + 10
    } else {
        36
    }
}

pub open spec fn all_digits(s: Seq<char>, radix: int) -> bool {
    forall|i: int| 0 <= i < s.len() ==> digit_value(#[trigger] s[i]) < radix
}

/// The value of the digits `s` in base `radix`, most significant first.
pub open spec fn digits_value(s: Seq<char>, radix: int) -> int
    decreases s.len(),
{
    if s.len() == 0 {
        0
    } else {
        digits_value(s.drop_last(), radix) * radix + digit_value(s.last())
    }
}

/// The 128-bit integer that `s` writes in base `radix`: an optional sign,
/// then at least one digit; `None` if it is malformed or does not fit.
pub open spec fn radix_value(s: Seq<char>, radix: int) -> Option<int> {
    if s.len() == 0 {
        None
    } else {
        let body = if s[0] == '-' || s[0] == '+' {
            s.drop_first()
        } else {
            s
        };
        let v = if s[0] == '-' {
            -digits_value(body, radix)
        } else {
            digits_value(body, radix)
        };
        if body.len() == 0 || !all_digits(body, radix) || !(i128::MIN <= v <= i128::MAX) {
            None
        } else {
            Some(v)
        }
    }
}

/// The value of a literal `0<tag><digits>` in base `radix`, separators
/// aside; `None` where the prefix is missing or the digits are not valid.
pub open spec fn prefixed_value(s: Seq<char>, tag: char, radix: int) -> Option<int> {
    let t = sanitized(s);
    if t.len() >= 2 && t[0] == '0' && t[1] == tag {
        radix_value(t.subrange(2, t.len() as int), radix)
    } else {
        None
    }
}

/// The largest magnitude that fits: `2^127` for a negative number, one less otherwise.
pub open spec fn magnitude_limit(neg: bool) -> int {
    if neg {
        0x8000_0000_0000_0000_0000_0000_0000_0000
    } else {
        0x7fff_ffff_ffff_ffff_ffff_ffff_ffff_ffff
    }
}

/// The message of the first fault in the digits of `body` from `i` on, read
/// left to right with the magnitude `mag` so far; empty if there is none.
pub open spec fn digits_error(body: Seq<char>, radix: int, i: int, mag: int, neg: bool) -> Seq<char>
    decreases body.len() - i,
{
    if !(0 <= i < body.len()) {
        Seq::empty()
    } else if digit_value(body[i]) >= radix {
        "invalid digit found in string"@
    } else if mag * radix + digit_value(body[i]) > magnitude_limit(neg) {
        if neg {
            "number too small to fit in target type"@
        } else {
            "number too large to fit in target type"@
        }
    } else {
        digits_error(body, radix, i + 1, mag * radix + digit_value(body[i]), neg)
    }
}

/// The message with which reading `s` in base `radix` fails.
pub open spec fn radix_error(s: Seq<char>, radix: int) -> Seq<char> {
    if s.len() == 0 {
        "cannot parse integer from empty string"@
    } else {
        let body = if s[0] == '-' || s[0] == '+' {
            s.drop_first()
        } else {
            s
        };
        if body.len() == 0 {
            "invalid digit found in string"@
        } else {
            digits_error(body, radix, 0, 0, s[0] == '-')
        }
    }
}

/// The message with which reading a literal `0<tag><digits>` fails.
pub open spec fn prefixed_error(s: Seq<char>, tag: char, radix: int, missing: Seq<char>) -> Seq<char> {
    let t = sanitized(s);
    if t.len() >= 2 && t[0] == '0' && t[1] == tag {
        radix_error(t.subrange(2, t.len() as int), radix)
    } else {
        missing
    }
}

/// What a literal parser returns for the value `v` that the text denotes.
pub open spec fn int_outcome(r: Result<Number, Error>, v: Option<int>) -> bool {
    &&& r is Ok <==> v is Some
    &&& r is Ok ==> r->Ok_0 == Number::Int(v->0 as i128)
}

proof fn lemma_digits_value_push(s: Seq<char>, c: char, radix: int)
    ensures
        digits_value(s.push(c), radix) == digits_value(s, radix) * radix + digit_value(c),
{
    assert(s.push(c).drop_last() =~= s);
}

proof fn lemma_digits_value_nonneg(s: Seq<char>, radix: int)
    requires
        radix >= 2,
        all_digits(s, radix),
    ensures
        digits_value(s, radix) >= 0,
    decreases s.len(),
{
    if s.len() > 0 {
        let t = s.drop_last();
        assert(all_digits(t, radix)) by {
            assert forall|i: int| 0 <= i < t.len() implies digit_value(#[trigger] t[i]) < radix by {
                assert(t[i] == s[i]);
            }
        }
        lemma_digits_value_nonneg(t, radix);
        let v = digits_value(t, radix);
        assert(v * radix >= 0) by (nonlinear_arith)
            requires v >= 0, radix >= 2;
        assert(digit_value(s.last()) >= 0);
    }
}

/// With digits below the base, a longer run of digits has no smaller value.
proof fn lemma_digits_value_grows(s: Seq<char>, i: int, j: int, radix: int)
    requires
        0 <= i <= j <= s.len(),
        radix >= 2,
        all_digits(s, radix),
    ensures
        0 <= digits_value(s.subrange(0, i), radix) <= digits_value(s.subrange(0, j), radix),
    decreases j - i,
{
    if i < j {
        lemma_digits_value_grows(s, i, j - 1, radix);
        assert(s.subrange(0, j) =~= s.subrange(0, j - 1).push(s[j - 1]));
        lemma_digits_value_push(s.subrange(0, j - 1), s[j - 1], radix);
        let v = digits_value(s.subrange(0, j - 1), radix);
        assert(digit_value(s[j - 1]) >= 0);
        assert(v * radix >= v) by (nonlinear_arith)
            requires v >= 0, radix >= 2;
    } else {
        let t = s.subrange(0, i);
        assert(all_digits(t, radix)) by {
            assert forall|k: int| 0 <= k < t.len() implies digit_value(#[trigger] t[k]) < radix by {
                assert(t[k] == s[k]);
            }
        }
        lemma_digits_value_nonneg(t, radix);
    }
}

/// The value of the digit `c`, computed as `digit_value` states it.
fn digit_of(c: char) -> (r: u32)
    ensures
        r as int == digit_value(c),
{
    if '0' <= c && c <= '9' {
        (c as u32) - ('0' as u32)
    } else if 'a' <= c && c <= 'z' {
        (c as u32) - ('a' as u32) + 10
    } else if 'A' <= c && c <= 'Z' {
        (c as u32) - ('A' as u32) + 10
    } else {
        36
    }
}

fn filter_whitespace(c: char) -> (r: bool)
    ensures
        r == !(white_space(c) || c == '_'),
{
    let u = c as u32;
    let ws = (0x9 <= u && u <= 0xd) || u == 0x20 || u == 0x85 || u == 0xa0 || u == 0x1680 || (
    0x2000 <= u && u <= 0x200a) || u == 0x2028 || u == 0x2029 || u == 0x202f || u == 0x205f || u
        == 0x3000;
    !ws && c != '_'
}

/// The chars of `input` without separators.
pub fn sanitize(input: &str) -> (r: Vec<char>)
    ensures
        r@ == sanitized(input@),
{
    let n = input.unicode_len();
    let mut out: Vec<char> = Vec::new();
    let mut i: usize = 0;
    while i < n
        invariant
            n == input@.len(),
            i <= n,
            out@ == sanitized(input@.subrange(0, i as int)),
        decreases n - i,
    {
        let c = input.get_char(i);
        proof {
            let s = input@.subrange(0, i as int + 1);
            assert(s.drop_last() =~= input@.subrange(0, i as int));
            assert(s.last() == c);
        }
        if filter_whitespace(c) {
            out.push(c);
        }
        i += 1;
    }
    proof {
        assert(input@.subrange(0, n as int) =~= input@);
    }
    out
}

/// Reads `s[from..]` as an integer in base `radix`, as `i128::from_str_radix`
/// does: an optional sign, then digits.
fn parse_radix(s: &Vec<char>, from: usize, radix: u32) -> (r: Result<i128, Error>)
    requires
        from <= s.len(),
        2 <= radix <= 36,
    ensures
        r is Ok <==> radix_value(s@.subrange(from as int, s@.len() as int), radix as int) is Some,
        r is Ok ==> r->Ok_0 as int == radix_value(
            s@.subrange(from as int, s@.len() as int),
            radix as int,
        )->0,
        r is Err ==> r->Err_0.message@ == radix_error(
            s@.subrange(from as int, s@.len() as int),
            radix as int,
        ),
{
    let ghost t = s@.subrange(from as int, s@.len() as int);
    let n = s.len();
    if from >= n {
        return Err(Error::wrap("cannot parse integer from empty string"));
    }
    let first = s[from];
    assert(t[0] == first);
    let neg = first == '-';
    let mut i = from;
    if first == '-' || first == '+' {
        i = i + 1;
        if i == n {
            proof {
                assert(t.drop_first().len() == 0);
            }
            return Err(Error::wrap("invalid digit found in string"));
        }
    }
    let start = i;
    let ghost body = s@.subrange(start as int, n as int);
    assert(body =~= (if first == '-' || first == '+' {
        t.drop_first()
    } else {
        t
    }));
    let limit: u128 = if neg {
        0x8000_0000_0000_0000_0000_0000_0000_0000
    } else {
        0x7fff_ffff_ffff_ffff_ffff_ffff_ffff_ffff
    };
    let mut mag: u128 = 0;
    while i < n
        invariant
            start <= i <= n,
            n == s.len(),
            body == s@.subrange(start as int, n as int),
            2 <= radix <= 36,
            mag as int == digits_value(body.subrange(0, i - start), radix as int),
            mag <= limit,
            limit <= 0x8000_0000_0000_0000_0000_0000_0000_0000,
            all_digits(body.subrange(0, i - start), radix as int),
            t == s@.subrange(from as int, s@.len() as int),
            t.len() > 0,
            t[0] == first,
            neg == (first == '-'),
            body == (if first == '-' || first == '+' {
                t.drop_first()
            } else {
                t
            }),
            neg ==> limit == 0x8000_0000_0000_0000_0000_0000_0000_0000,
            !neg ==> limit == 0x7fff_ffff_ffff_ffff_ffff_ffff_ffff_ffff,
            digits_error(body, radix as int, i - start, mag as int, neg) == digits_error(
                body,
                radix as int,
                0,
                0,
                neg,
            ),
        decreases n - i,
    {
        let d = digit_of(s[i]);
        proof {
            assert(body[i - start] == s@[i as int]);
        }
        if d >= radix {
            proof {
                assert(!all_digits(body, radix as int)) by {
                    assert(digit_value(body[i - start]) >= radix);
                }
            }
            return Err(Error::wrap("invalid digit found in string"));
        }
        let ghost prefix = body.subrange(0, i - start + 1);
        proof {
            assert(prefix =~= body.subrange(0, i - start).push(body[i - start]));
            lemma_digits_value_push(body.subrange(0, i - start), body[i - start], radix as int);
            assert(all_digits(prefix, radix as int));
        }
        let next = match mag.checked_mul(radix as u128) {
            Some(m) => m.checked_add(d as u128),
            None => None,
        };
        match next {
            Some(m) if m <= limit => {
                proof {
                    assert(m == mag * radix + d);
                }
                mag = m;
            },
            _ => {
                proof {
                    assert(digits_value(prefix, radix as int) > limit) by (nonlinear_arith)
                        requires
                            digits_value(prefix, radix as int) == mag * radix + d,
                            next is None ==> mag * radix + d > u128::MAX,
                            next is Some ==> next->0 == mag * radix + d && next->0 > limit,
                            limit <= u128::MAX,
                            d >= 0;
                    if all_digits(body, radix as int) {
                        assert(prefix =~= body.subrange(0, i - start + 1));
                        lemma_digits_value_grows(body, i - start + 1, body.len() as int, radix as int);
                        assert(body.subrange(0, body.len() as int) =~= body);
                    }
                }
                if neg {
                    return Err(Error::wrap("number too small to fit in target type"));
                } else {
                    return Err(Error::wrap("number too large to fit in target type"));
                }
            },
        }
        i = i + 1;
    }
    proof {
        assert(body.subrange(0, n - start) =~= body);
    }
    if start == n {
        return Err(Error::wrap("invalid digit found in string"));
    }
    if neg {
        if mag == 0x8000_0000_0000_0000_0000_0000_0000_0000 {
            Ok(i128::MIN)
        } else {
            Ok(-(mag as i128))
        }
    } else {
        Ok(mag as i128)
    }
}

/// A decimal integer literal; spaces and underscores between digits are ignored.
pub fn parse_int(input: &str) -> (r: Result<Number, Error>)
    ensures
        int_outcome(r, radix_value(sanitized(input@), 10)),
        r is Err ==> r->Err_0.message@ == radix_error(sanitized(input@), 10),
{
    let s = sanitize(input);
    proof {
        assert(s@.subrange(0, s@.len() as int) =~= s@);
    }
    match parse_radix(&s, 0, 10) {
        Ok(v) => Ok(Number::Int(v)),
        Err(e) => Err(e),
    }
}

/// Reads a literal `0<tag><digits>` in base `radix`.
fn parse_prefixed(input: &str, tag: char, radix: u32, missing: &str) -> (r: Result<Number, Error>)
    requires
        2 <= radix <= 36,
    ensures
        int_outcome(r, prefixed_value(input@, tag, radix as int)),
        r is Err ==> r->Err_0.message@ == prefixed_error(input@, tag, radix as int, missing@),
{
    let s = sanitize(input);
    if s.len() < 2 || s[0] != '0' || s[1] != tag {
        return Err(Error::wrap(missing));
    }
    match parse_radix(&s, 2, radix) {
        Ok(v) => Ok(Number::Int(v)),
        Err(e) => Err(e),
    }
}

/// A binary literal, `0b` then binary digits.
pub fn parse_int_bin(input: &str) -> (r: Result<Number, Error>)
    ensures
        int_outcome(r, prefixed_value(input@, 'b', 2)),
        r is Err ==> r->Err_0.message@ == prefixed_error(input@, 'b', 2, "Binary number must start with 0b"@),
{
    parse_prefixed(input, 'b', 2, "Binary number must start with 0b")
}

/// An octal literal, `0o` then octal digits.
pub fn parse_int_oct(input: &str) -> (r: Result<Number, Error>)
    ensures
        int_outcome(r, prefixed_value(input@, 'o', 8)),
        r is Err ==> r->Err_0.message@ == prefixed_error(input@, 'o', 8, "Octal number must start with 0o"@),
{
    parse_prefixed(input, 'o', 8, "Octal number must start with 0o")
}

/// A hexadecimal literal, `0x` then hexadecimal digits.
pub fn parse_int_hex(input: &str) -> (r: Result<Number, Error>)
    ensures
        int_outcome(r, prefixed_value(input@, 'x', 16)),
        r is Err ==> r->Err_0.message@ == prefixed_error(input@, 'x', 16, "Hex number must start with 0x"@),
{
    parse_prefixed(input, 'x', 16, "Hex number must start with 0x")
}

/// A float literal, read by the float arithmetic once the separators are
/// gone. A literal that is not finite as a double (too large) is an error.
pub fn parse_float<F: FloatUnit>(input: &str) -> (r: Result<Number, Error>)
    ensures
        r is Ok ==> exists|b: u64| finite_bits(b) && r->Ok_0 == Number::Float(b),
{
    let s = sanitize(input);
    match F::parse(&s) {
        Some(b) => float_reading(b),
        None => Err(Error::wrap("invalid float literal")),
    }
}

/// The number of a float literal whose double has the bits `b`.
pub fn float_reading(b: u64) -> (r: Result<Number, Error>)
    ensures
        finite_bits(b) ==> r == Ok::<Number, Error>(Number::Float(b)),
        !finite_bits(b) ==> r is Err && r->Err_0.message@ == "float literal out of range"@,
{
    match Number::from_bits(b) {
        Number::NaN => Err(Error::wrap("float literal out of range")),
        n => Ok(n),
    }
}

/// A named constant: `pi` or `e`.
pub fn parse_const(input: &str) -> (r: Result<Number, Error>)
    ensures
        input@ == seq!['p', 'i'] ==> r == Ok::<Number, Error>(Number::Float(PI_BITS)),
        input@ == seq!['e'] ==> r == Ok::<Number, Error>(Number::Float(E_BITS)),
        r is Ok <==> (input@ == seq!['p', 'i'] || input@ == seq!['e']),
{
    let n = input.unicode_len();
    if n == 2 && input.get_char(0) == 'p' && input.get_char(1) == 'i' {
        assert(input@ =~= seq!['p', 'i']);
        Ok(Number::Float(PI_BITS))
    } else if n == 1 && input.get_char(0) == 'e' {
        assert(input@ =~= seq!['e']);
        Ok(Number::Float(E_BITS))
    } else {
        Err(Error::wrap("Unknown constant"))
    }
}

} // verus!
