use vstd::prelude::*;
use vstd::string::*;
use vstd::utf8::*;

verus! {

/// A token: its kind and the bytes of the source that it covers, leading
/// whitespace included.
#[derive(Clone, Copy, PartialEq, Eq, Debug, Structural)]
pub struct Token {
    pub kind: TokenKind,
    pub start: usize,
    pub len: usize,
}

impl Token {
    pub fn new(kind: TokenKind, start: usize, len: usize) -> (r: Token)
        ensures
            r.kind == kind,
            r.start == start,
            r.len == len,
    {
        Token { kind, start, len }
    }
}

/// Chars `i0..i1` of `s` are the bytes `start..start + len` of its encoding.
pub open spec fn covers(s: Seq<char>, i0: int, i1: int, start: int, len: int) -> bool {
    0 <= i0 <= i1 <= s.len() && byte_offset(s, i0) == start && byte_offset(s, i1) == start + len
}

impl Token {
    /// The text of the token in `input`, the source it was read from.
    pub fn value_from<'a>(&self, input: &'a str) -> (r: &'a str)
        requires
            exists|i0: int, i1: int| covers(input@, i0, i1, self.start as int, self.len as int),
        ensures
            forall|i0: int, i1: int|
                covers(input@, i0, i1, self.start as int, self.len as int) ==> r@
                    == input@.subrange(i0, i1),
    {
        let ghost s = input@;
        let ghost w = choose|i0: int, i1: int|
            #[trigger] covers(s, i0, i1, self.start as int, self.len as int);
        let ghost w0 = w.0;
        let ghost w1 = w.1;
        assert(covers(s, w0, w1, self.start as int, self.len as int));
        let n = input.unicode_len();
        let total = input.as_bytes().len();
        proof {
            assert(s.subrange(0, n as int) =~= s);
            assert(s.subrange(0, 0) =~= Seq::<char>::empty());
            assert(encode_utf8(Seq::<char>::empty()) =~= Seq::<u8>::empty());
            lemma_byte_offset_mono(s, w0, w1);
            lemma_byte_offset_mono(s, w1, n as int);
        }
        let end = self.start + self.len;
        assert(end as int == byte_offset(s, w1));
        let mut i: usize = 0;
        let mut b: usize = 0;
        while i < n && b < self.start
            invariant
                s == input@,
                n == s.len(),
                i <= n,
                b as int == byte_offset(s, i as int),
                byte_offset(s, n as int) == total,
                covers(s, w0, w1, self.start as int, self.len as int),
                i <= w0,
            decreases n - i,
        {
            proof {
                lemma_byte_offset_step(s, i as int);
                lemma_byte_offset_mono(s, i + 1, n as int);
                if i == w0 {
                    assert(false);
                }
                if i + 1 > w0 {
                    assert(false);
                }
            }
            let c = input.get_char(i);
            assert(c == s[i as int]);
            b = b + char_width(c);
            i = i + 1;
        }
        proof {
            if i < w0 {
                lemma_byte_offset_mono(s, i as int, w0);
            }
        }
        let i0 = i;
        while i < n && b < end
            invariant
                s == input@,
                end as int == byte_offset(s, w1),
                n == s.len(),
                i0 == w0,
                w0 <= i <= n,
                b as int == byte_offset(s, i as int),
                byte_offset(s, n as int) == total,
                covers(s, w0, w1, self.start as int, self.len as int),
                i <= w1,
            decreases n - i,
        {
            proof {
                lemma_byte_offset_step(s, i as int);
                lemma_byte_offset_mono(s, i + 1, n as int);
                if i + 1 > w1 {
                    lemma_byte_offset_mono(s, w1, i as int);
                    assert(false);
                }
            }
            let c = input.get_char(i);
            assert(c == s[i as int]);
            b = b + char_width(c);
            i = i + 1;
        }
        proof {
            if i < w1 {
                lemma_byte_offset_mono(s, i as int, w1);
            }
            assert forall|j0: int, j1: int|
                covers(s, j0, j1, self.start as int, self.len as int) implies j0 == w0 && j1
                == w1 by {
                if j0 < w0 {
                    lemma_byte_offset_mono(s, j0, w0);
                }
                if w0 < j0 {
                    lemma_byte_offset_mono(s, w0, j0);
                }
                if j1 < w1 {
                    lemma_byte_offset_mono(s, j1, w1);
                }
                if w1 < j1 {
                    lemma_byte_offset_mono(s, w1, j1);
                }
            }
        }
        input.substring_char(i0, i)
    }
}

impl Default for Token {
    fn default() -> (r: Token)
        ensures
            r.kind == TokenKind::Unknown,
            r.start == 0,
            r.len == 0,
    {
        Token::new(TokenKind::Unknown, 0, 0)
    }
}

#[derive(Clone, Copy, PartialEq, Eq, Debug, Structural)]
pub enum TokenKind {
    /// 123, 0.123, "abc" etc.
    Literal(LiteralKind),
    /// Identifier
    Ident,
    /// +
    Add,
    /// -
    Sub,
    /// /
    Div,
    /// *
    Mul,
    /// %
    Mod,
    /// ^
    Pow,
    /// (
    Lpar,
    /// )
    Rpar,
    /// ,
    Coma,
    /// =
    Assign,
    /// not recognized
    Unknown,
    /// end of input
    Eof,
}

#[derive(Clone, Copy, PartialEq, Eq, Debug, Structural)]
pub enum LiteralKind {
    Int(Base),
    Float,
    String,
}

#[derive(Clone, Copy, PartialEq, Eq, Debug, Structural)]
pub enum Base {
    Bin,
    Oct,
    Dec,
    Hex,
}

/// What `first` reports at the end of the input.
pub const EOF_CHAR: char = '\0';

/// The classes of characters that a run of a token is made of.
#[derive(Clone, Copy, PartialEq, Eq, Debug, Structural)]
pub enum CharClass {
    Whitespace,
    Digit,
    HexDigit,
    Ident,
}

/// Whether `c` has the Unicode `Alphabetic` property.
pub uninterp spec fn alphabetic(c: char) -> bool;

/// Whether `c` is alphabetic or numeric in the Unicode sense.
pub uninterp spec fn alphanumeric(c: char) -> bool;

/// Relies on `char::is_alphabetic`: whether `c` has the Alphabetic property.
#[verifier::external_body]
fn char_is_alphabetic(c: char) -> (r: bool)
    ensures
        r == alphabetic(c),
{
    c.is_alphabetic()
}

/// Relies on `char::is_alphanumeric`: Alphabetic or Numeric property.
#[verifier::external_body]
fn char_is_alphanumeric(c: char) -> (r: bool)
    ensures
        r == alphanumeric(c),
{
    c.is_alphanumeric()
}

/// The Unicode `White_Space` property.
pub open spec fn white_space(c: char) -> bool {
    let u = c as u32;
    ||| 0x9 <= u <= 0xd
    ||| u == 0x20
    ||| u == 0x85
    ||| u == 0xa0
    ||| u == 0x1680
    ||| 0x2000 <= u <= 0x200a
    ||| u == 0x2028
    ||| u == 0x2029
    ||| u == 0x202f
    ||| u == 0x205f
    ||| u == 0x3000
}

pub open spec fn dec_digit(c: char) -> bool {
    '0' <= c <= '9'
}

/// A digit of a numeric literal, or one of its separators (space, underscore).
pub open spec fn digit_char(c: char) -> bool {
    dec_digit(c) || c == ' ' || c == '_'
}

pub open spec fn hex_digit_char(c: char) -> bool {
    digit_char(c) || ('a' <= c <= 'f') || ('A' <= c <= 'F')
}

pub open spec fn ascii_letter(c: char) -> bool {
    ('a' <= c <= 'z') || ('A' <= c <= 'Z')
}

/// A char that may start a name: `_` or a letter; an ASCII letter is one
/// of `a-z A-Z`, as Unicode has it.
pub open spec fn ident_start_char(c: char) -> bool {
    if (c as u32) < 0x80 {
        ascii_letter(c) || c == '_'
    } else {
        alphabetic(c)
    }
}

/// A char that may continue a name: `_`, a letter or a digit.
pub open spec fn ident_char(c: char) -> bool {
    if (c as u32) < 0x80 {
        ascii_letter(c) || dec_digit(c) || c == '_'
    } else {
        alphanumeric(c)
    }
}

pub open spec fn in_class(c: char, k: CharClass) -> bool {
    match k {
        CharClass::Whitespace => white_space(c),
        CharClass::Digit => digit_char(c),
        CharClass::HexDigit => hex_digit_char(c),
        CharClass::Ident => ident_char(c),
    }
}

/// The character at `i`, or `EOF_CHAR` past the end.
pub open spec fn char_at(s: Seq<char>, i: int) -> char {
    if 0 <= i < s.len() {
        s[i]
    } else {
        '\0'
    }
}

/// The end of the run of characters of class `k` that starts at `p`.
pub open spec fn scan_while(s: Seq<char>, p: int, k: CharClass) -> int
    decreases s.len() - p,
{
    if 0 <= p < s.len() && in_class(s[p], k) {
        scan_while(s, p + 1, k)
    } else {
        p
    }
}

/// The end of an exponent whose `e` ends before `p`.
pub open spec fn scan_exponent(s: Seq<char>, p: int) -> int {
    let a = scan_while(s, p, CharClass::Whitespace);
    let b = if char_at(s, a) == '-' || char_at(s, a) == '+' {
        a + 1
    } else {
        a
    };
    scan_while(s, b, CharClass::Digit)
}

/// A decimal literal from `p`: digits, an optional fraction, an optional exponent.
pub open spec fn scan_decimal(s: Seq<char>, p: int) -> (LiteralKind, int) {
    let a = scan_while(s, p, CharClass::Digit);
    let fraction = char_at(s, a) == '.';
    let b = if fraction {
        scan_while(s, a + 1, CharClass::Digit)
    } else {
        a
    };
    if char_at(s, b) == 'e' || char_at(s, b) == 'E' {
        (LiteralKind::Float, scan_exponent(s, b + 1))
    } else if fraction {
        (LiteralKind::Float, b)
    } else {
        (LiteralKind::Int(Base::Dec), b)
    }
}

/// A numeric literal from `p`: its kind and its end.
pub open spec fn scan_number(s: Seq<char>, p: int) -> (LiteralKind, int) {
    if char_at(s, p) == '0' {
        let c = char_at(s, p + 1);
        if c == 'b' {
            (LiteralKind::Int(Base::Bin), scan_while(s, p + 2, CharClass::Digit))
        } else if c == 'o' {
            (LiteralKind::Int(Base::Oct), scan_while(s, p + 2, CharClass::Digit))
        } else if c == 'x' {
            (LiteralKind::Int(Base::Hex), scan_while(s, p + 2, CharClass::HexDigit))
        } else {
            scan_decimal(s, p + 1)
        }
    } else {
        scan_decimal(s, p)
    }
}

/// The end of a string literal whose body starts at `q`: just past the first
/// unescaped `"`, or the end of the input.
pub open spec fn string_end(s: Seq<char>, q: int) -> int
    decreases s.len() - q,
{
    if !(0 <= q < s.len()) {
        q
    } else if s[q] == '"' {
        q + 1
    } else if s[q] == '\\' {
        if q + 1 < s.len() {
            string_end(s, q + 2)
        } else {
            q + 1
        }
    } else {
        string_end(s, q + 1)
    }
}

pub open spec fn single_char_kind(c: char) -> Option<TokenKind> {
    if c == '+' {
        Some(TokenKind::Add)
    } else if c == '-' {
        Some(TokenKind::Sub)
    } else if c == '/' {
        Some(TokenKind::Div)
    } else if c == '*' {
        Some(TokenKind::Mul)
    } else if c == '^' {
        Some(TokenKind::Pow)
    } else if c == '%' {
        Some(TokenKind::Mod)
    } else if c == '(' {
        Some(TokenKind::Lpar)
    } else if c == ')' {
        Some(TokenKind::Rpar)
    } else if c == ',' {
        Some(TokenKind::Coma)
    } else if c == '=' {
        Some(TokenKind::Assign)
    } else {
        None
    }
}

/// The token that starts at char index `p` of `s`: its kind, and the index
/// just past it. Leading whitespace belongs to the token.
pub open spec fn lex(s: Seq<char>, p: int) -> (TokenKind, int) {
    let a = scan_while(s, p, CharClass::Whitespace);
    if a >= s.len() {
        (TokenKind::Eof, a)
    } else {
        let c = s[a];
        if dec_digit(c) || c == '.' {
            (TokenKind::Literal(scan_number(s, a).0), scan_number(s, a).1)
        } else if c == '"' {
            (TokenKind::Literal(LiteralKind::String), string_end(s, a + 1))
        } else if ident_start_char(c) {
            (TokenKind::Ident, scan_while(s, a + 1, CharClass::Ident))
        } else if single_char_kind(c) is Some {
            (single_char_kind(c)->0, a + 1)
        } else {
            (TokenKind::Unknown, a + 1)
        }
    }
}

/// `s` without its leading whitespace.
pub open spec fn trim_front(s: Seq<char>) -> Seq<char>
    decreases s.len(),
{
    if s.len() > 0 && white_space(s[0]) {
        trim_front(s.drop_first())
    } else {
        s
    }
}

/// `s` without its trailing whitespace.
pub open spec fn trim_back(s: Seq<char>) -> Seq<char>
    decreases s.len(),
{
    if s.len() > 0 && white_space(s.last()) {
        trim_back(s.drop_last())
    } else {
        s
    }
}

pub open spec fn trimmed(s: Seq<char>) -> Seq<char> {
    trim_back(trim_front(s))
}

/// `s` without leading and trailing whitespace.
pub fn trim(s: &str) -> (r: &str)
    ensures
        r@ == trimmed(s@),
{
    let n = s.unicode_len();
    let mut a: usize = 0;
    assert(s@.subrange(0, n as int) =~= s@);
    while a < n && is_whitespace(s.get_char(a))
        invariant
            n == s@.len(),
            a <= n,
            trim_front(s@.subrange(a as int, n as int)) == trim_front(s@),
        decreases n - a,
    {
        proof {
            assert(s@.subrange(a as int, n as int).drop_first() =~= s@.subrange(a + 1, n as int));
        }
        a = a + 1;
    }
    assert(trim_front(s@) == s@.subrange(a as int, n as int));
    let mut b: usize = n;
    while b > a && is_whitespace(s.get_char(b - 1))
        invariant
            n == s@.len(),
            a <= b <= n,
            trim_back(s@.subrange(a as int, b as int)) == trim_back(trim_front(s@)),
        decreases b - a,
    {
        proof {
            assert(s@.subrange(a as int, b as int).drop_last() =~= s@.subrange(a as int, b - 1));
        }
        b = b - 1;
    }
    s.substring_char(a, b)
}

/// Number of UTF-8 bytes of the first `i` chars of `s`.
pub open spec fn byte_offset(s: Seq<char>, i: int) -> int {
    encode_utf8(s.subrange(0, i)).len() as int
}

pub proof fn lemma_encode_push(s: Seq<char>, c: char)
    ensures
        encode_utf8(s.push(c)) == encode_utf8(s) + encode_scalar(c as u32),
    decreases s.len(),
{
    if s.len() == 0 {
        assert(s.push(c).drop_first() =~= Seq::<char>::empty());
        assert(encode_utf8(Seq::<char>::empty()) =~= Seq::<u8>::empty());
        assert(encode_utf8(s.push(c)) =~= encode_scalar(c as u32));
        assert(encode_utf8(s) =~= Seq::<u8>::empty());
        assert(encode_utf8(s) + encode_scalar(c as u32) =~= encode_scalar(c as u32));
    } else {
        assert(s.push(c).drop_first() =~= s.drop_first().push(c));
        lemma_encode_push(s.drop_first(), c);
        assert(encode_utf8(s.push(c)) =~= encode_utf8(s) + encode_scalar(c as u32));
    }
}

pub proof fn lemma_byte_offset_step(s: Seq<char>, i: int)
    requires
        0 <= i < s.len(),
    ensures
        byte_offset(s, i + 1) == byte_offset(s, i) + encode_scalar(s[i] as u32).len(),
        encode_scalar(s[i] as u32).len() >= 1,
{
    assert(s.subrange(0, i + 1) =~= s.subrange(0, i).push(s[i]));
    lemma_encode_push(s.subrange(0, i), s[i]);
}

pub proof fn lemma_byte_offset_mono(s: Seq<char>, i: int, j: int)
    requires
        0 <= i <= j <= s.len(),
    ensures
        byte_offset(s, i) <= byte_offset(s, j),
        i < j ==> byte_offset(s, i) < byte_offset(s, j),
    decreases j - i,
{
    if i < j {
        lemma_byte_offset_mono(s, i, j - 1);
        lemma_byte_offset_step(s, j - 1);
    }
}

pub proof fn lemma_scan_while_bounds(s: Seq<char>, p: int, k: CharClass)
    requires
        0 <= p <= s.len(),
    ensures
        p <= scan_while(s, p, k) <= s.len(),
    decreases s.len() - p,
{
    if p < s.len() && in_class(s[p], k) {
        lemma_scan_while_bounds(s, p + 1, k);
    }
}

pub proof fn lemma_string_end_bounds(s: Seq<char>, q: int)
    requires
        0 <= q <= s.len(),
    ensures
        q <= string_end(s, q) <= s.len(),
    decreases s.len() - q,
{
    if q < s.len() && s[q] != '"' {
        if s[q] == '\\' {
            if q + 1 < s.len() {
                lemma_string_end_bounds(s, q + 2);
            }
        } else {
            lemma_string_end_bounds(s, q + 1);
        }
    }
}

pub proof fn lemma_number_bounds(s: Seq<char>, p: int)
    requires
        0 <= p < s.len(),
    ensures
        p < scan_number(s, p).1 <= s.len() || (p <= scan_number(s, p).1 <= s.len()
            && !(char_at(s, p) == '0' || digit_char(s[p]) || s[p] == '.' )),
{
    lemma_scan_while_bounds(s, p, CharClass::Digit);
    if char_at(s, p) == '0' {
        if p + 1 < s.len() {
            lemma_scan_while_bounds(s, p + 1, CharClass::Digit);
            if p + 2 <= s.len() {
                lemma_scan_while_bounds(s, p + 2, CharClass::Digit);
                lemma_scan_while_bounds(s, p + 2, CharClass::HexDigit);
            }
        }
        lemma_decimal_bounds(s, p + 1);
    } else {
        lemma_decimal_bounds(s, p);
    }
}

pub proof fn lemma_decimal_bounds(s: Seq<char>, p: int)
    requires
        0 <= p <= s.len(),
    ensures
        p <= scan_decimal(s, p).1 <= s.len(),
        char_at(s, p) == '.' ==> p < scan_decimal(s, p).1,
        0 <= p < s.len() && digit_char(s[p]) ==> p < scan_decimal(s, p).1,
{
    let a = scan_while(s, p, CharClass::Digit);
    lemma_scan_while_bounds(s, p, CharClass::Digit);
    if char_at(s, a) == '.' {
        lemma_scan_while_bounds(s, a + 1, CharClass::Digit);
    }
    let b = if char_at(s, a) == '.' {
        scan_while(s, a + 1, CharClass::Digit)
    } else {
        a
    };
    if char_at(s, b) == 'e' || char_at(s, b) == 'E' {
        let x = scan_while(s, b + 1, CharClass::Whitespace);
        lemma_scan_while_bounds(s, b + 1, CharClass::Whitespace);
        if char_at(s, x) == '-' || char_at(s, x) == '+' {
            lemma_scan_while_bounds(s, x + 1, CharClass::Digit);
        } else {
            lemma_scan_while_bounds(s, x, CharClass::Digit);
        }
    }
    if 0 <= p < s.len() && digit_char(s[p]) {
        assert(scan_while(s, p, CharClass::Digit) == scan_while(s, p + 1, CharClass::Digit));
        lemma_scan_while_bounds(s, p + 1, CharClass::Digit);
    }
}

/// Every token but the end of input consumes at least one char, and no token
/// reads past the end.
pub proof fn lemma_lex_bounds(s: Seq<char>, p: int)
    requires
        0 <= p <= s.len(),
    ensures
        p <= lex(s, p).1 <= s.len(),
        lex(s, p).0 != TokenKind::Eof ==> p < lex(s, p).1,
        lex(s, p).0 == TokenKind::Eof ==> lex(s, p).1 == s.len(),
{
    let a = scan_while(s, p, CharClass::Whitespace);
    lemma_scan_while_bounds(s, p, CharClass::Whitespace);
    if a < s.len() {
        let c = s[a];
        if dec_digit(c) || c == '.' {
            lemma_number_bounds(s, a);
        } else if c == '"' {
            lemma_string_end_bounds(s, a + 1);
        } else if ident_start_char(c) {
            lemma_scan_while_bounds(s, a + 1, CharClass::Ident);
        }
    }
}

/// The number of UTF-8 bytes that encode `c`.
fn char_width(c: char) -> (r: usize)
    ensures
        r as int == encode_scalar(c as u32).len(),
        1 <= r <= 4,
{
    proof {
        char_is_scalar(c);
    }
    let u = c as u32;
    if u <= 0x7f {
        1
    } else if u <= 0x7ff {
        2
    } else if u <= 0xffff {
        3
    } else {
        4
    }
}

fn is_digit(c: char) -> (r: bool)
    ensures
        r == digit_char(c),
{
    ('0' <= c && c <= '9') || c == ' ' || c == '_'
}

fn is_hex_digit(c: char) -> (r: bool)
    ensures
        r == hex_digit_char(c),
{
    is_digit(c) || ('a' <= c && c <= 'f') || ('A' <= c && c <= 'F')
}

fn is_whitespace(c: char) -> (r: bool)
    ensures
        r == white_space(c),
{
    let u = c as u32;
    (0x9 <= u && u <= 0xd) || u == 0x20 || u == 0x85 || u == 0xa0 || u == 0x1680 || (0x2000 <= u
        && u <= 0x200a) || u == 0x2028 || u == 0x2029 || u == 0x202f || u == 0x205f || u == 0x3000
}

fn is_ident_start(c: char) -> (r: bool)
    ensures
        r == ident_start_char(c),
{
    if (c as u32) < 0x80 {
        ('a' <= c && c <= 'z') || ('A' <= c && c <= 'Z') || c == '_'
    } else {
        char_is_alphabetic(c)
    }
}

fn is_ident(c: char) -> (r: bool)
    ensures
        r == ident_char(c),
{
    if (c as u32) < 0x80 {
        ('a' <= c && c <= 'z') || ('A' <= c && c <= 'Z') || ('0' <= c && c <= '9') || c == '_'
    } else {
        char_is_alphanumeric(c)
    }
}

fn is_in_class(c: char, k: CharClass) -> (r: bool)
    ensures
        r == in_class(c, k),
{
    match k {
        CharClass::Whitespace => is_whitespace(c),
        CharClass::Digit => is_digit(c),
        CharClass::HexDigit => is_hex_digit(c),
        CharClass::Ident => is_ident(c),
    }
}

fn single_char_token(c: char) -> (r: Option<TokenKind>)
    ensures
        r == single_char_kind(c),
{
    if c == '+' {
        Some(TokenKind::Add)
    } else if c == '-' {
        Some(TokenKind::Sub)
    } else if c == '/' {
        Some(TokenKind::Div)
    } else if c == '*' {
        Some(TokenKind::Mul)
    } else if c == '^' {
        Some(TokenKind::Pow)
    } else if c == '%' {
        Some(TokenKind::Mod)
    } else if c == '(' {
        Some(TokenKind::Lpar)
    } else if c == ')' {
        Some(TokenKind::Rpar)
    } else if c == ',' {
        Some(TokenKind::Coma)
    } else if c == '=' {
        Some(TokenKind::Assign)
    } else {
        None
    }
}

/// Scans a source text one token at a time.
pub struct Tokenizer {
    chars: Vec<char>,
    pos: usize,
    byte_pos: usize,
    token_start: usize,
}

impl Tokenizer {
    /// The source text, as chars.
    pub closed spec fn text(&self) -> Seq<char> {
        self.chars@
    }

    /// The char index at which the next token starts.
    pub closed spec fn cursor(&self) -> int {
        self.pos as int
    }

    pub closed spec fn wf(&self) -> bool {
        &&& self.pos <= self.chars.len()
        &&& self.byte_pos == byte_offset(self.chars@, self.pos as int)
        &&& byte_offset(self.chars@, self.chars@.len() as int) <= usize::MAX
        &&& self.token_start <= self.byte_pos
    }

    pub proof fn lemma_wf(&self)
        requires
            self.wf(),
        ensures
            0 <= self.cursor() <= self.text().len(),
            byte_offset(self.text(), self.text().len() as int) <= usize::MAX,
    {
    }

    pub fn new(input: &str) -> (r: Tokenizer)
        ensures
            r.wf(),
            r.text() == input@,
            r.cursor() == 0,
    {
        let n = input.unicode_len();
        let mut chars: Vec<char> = Vec::new();
        let mut i: usize = 0;
        while i < n
            invariant
                n == input@.len(),
                i <= n,
                chars@ == input@.subrange(0, i as int),
            decreases n - i,
        {
            chars.push(input.get_char(i));
            i += 1;
        }
        let total = input.as_bytes().len();
        proof {
            assert(chars@ =~= input@);
            assert(chars@.subrange(0, chars@.len() as int) =~= chars@);
            assert(chars@.subrange(0, 0) =~= Seq::<char>::empty());
            assert(encode_utf8(Seq::<char>::empty()) =~= Seq::<u8>::empty());
            assert(total as int == encode_utf8(input@).len());
            assert(byte_offset(chars@, chars@.len() as int) == total as int);
        }
        Tokenizer { chars, pos: 0, byte_pos: 0, token_start: 0 }
    }

    /// The char under the cursor, or `EOF_CHAR` at the end.
    fn first(&self) -> (r: char)
        requires
            self.wf(),
        ensures
            r == char_at(self.text(), self.cursor()),
    {
        if self.pos < self.chars.len() {
            self.chars[self.pos]
        } else {
            EOF_CHAR
        }
    }

    fn at_end(&self) -> (r: bool)
        requires
            self.wf(),
        ensures
            r == (self.cursor() >= self.text().len()),
    {
        self.pos >= self.chars.len()
    }

    /// Moves the cursor over one char, if there is one.
    fn bump(&mut self) -> (r: Option<char>)
        requires
            old(self).wf(),
        ensures
            final(self).wf(),
            final(self).text() == old(self).text(),
            final(self).token_start == old(self).token_start,
            old(self).cursor() < old(self).text().len() ==> final(self).cursor() == old(self).cursor() + 1
                && r == Some(old(self).text()[old(self).cursor()]),
            old(self).cursor() >= old(self).text().len() ==> final(self).cursor() == old(self).cursor()
                && r is None,
    {
        if self.pos < self.chars.len() {
            let c = self.chars[self.pos];
            let w = char_width(c);
            proof {
                lemma_byte_offset_step(self.chars@, self.pos as int);
                lemma_byte_offset_mono(self.chars@, self.pos + 1, self.chars@.len() as int);
            }
            self.byte_pos = self.byte_pos + w;
            self.pos = self.pos + 1;
            Some(c)
        } else {
            None
        }
    }

    fn reset_token_position(&mut self)
        requires
            old(self).wf(),
        ensures
            final(self).wf(),
            final(self).text() == old(self).text(),
            final(self).cursor() == old(self).cursor(),
            final(self).token_start == final(self).byte_pos,
    {
        self.token_start = self.byte_pos;
    }

    fn current_token_start(&self) -> (r: usize)
        ensures
            r == self.token_start,
    {
        self.token_start
    }

    fn current_token_len(&self) -> (r: usize)
        requires
            self.wf(),
        ensures
            r == self.byte_pos - self.token_start,
    {
        self.byte_pos - self.token_start
    }

    /// The char index of the cursor.
    pub fn position(&self) -> (r: usize)
        ensures
            r == self.cursor(),
    {
        self.pos
    }

    /// Returns the next token and moves past it. At the end of the input it
    /// keeps returning an end-of-input token.
    pub fn next_token(&mut self) -> (r: Token)
        requires
            old(self).wf(),
        ensures
            final(self).wf(),
            final(self).text() == old(self).text(),
            final(self).cursor() == lex(old(self).text(), old(self).cursor()).1,
            r.kind == lex(old(self).text(), old(self).cursor()).0,
            r.start == byte_offset(old(self).text(), old(self).cursor()),
            r.len == byte_offset(old(self).text(), final(self).cursor()) - byte_offset(
                old(self).text(),
                old(self).cursor(),
            ),
    {
        self.reset_token_position();
        self.do_while(CharClass::Whitespace);
        let kind = if self.at_end() {
            TokenKind::Eof
        } else {
            let c = self.first();
            if ('0' <= c && c <= '9') || c == '.' {
                TokenKind::Literal(self.do_number())
            } else if c == '"' {
                TokenKind::Literal(self.do_string())
            } else if is_ident_start(c) {
                self.bump();
                self.do_while(CharClass::Ident);
                TokenKind::Ident
            } else {
                self.bump();
                match single_char_token(c) {
                    Some(k) => k,
                    None => TokenKind::Unknown,
                }
            }
        };
        let token = Token::new(kind, self.current_token_start(), self.current_token_len());
        self.reset_token_position();
        token
    }

    fn do_number(&mut self) -> (r: LiteralKind)
        requires
            old(self).wf(),
        ensures
            final(self).wf(),
            final(self).text() == old(self).text(),
            final(self).token_start == old(self).token_start,
            (r, final(self).cursor()) == scan_number(old(self).text(), old(self).cursor()),
    {
        if self.first() == '0' {
            self.bump();
            let c = self.first();
            if c == 'b' {
                self.bump();
                self.do_while(CharClass::Digit);
                return LiteralKind::Int(Base::Bin);
            } else if c == 'o' {
                self.bump();
                self.do_while(CharClass::Digit);
                return LiteralKind::Int(Base::Oct);
            } else if c == 'x' {
                self.bump();
                self.do_while(CharClass::HexDigit);
                return LiteralKind::Int(Base::Hex);
            }
        }
        self.do_decimal()
    }

    fn do_decimal(&mut self) -> (r: LiteralKind)
        requires
            old(self).wf(),
        ensures
            final(self).wf(),
            final(self).text() == old(self).text(),
            final(self).token_start == old(self).token_start,
            (r, final(self).cursor()) == scan_decimal(old(self).text(), old(self).cursor()),
    {
        let mut kind = LiteralKind::Int(Base::Dec);
        self.do_while(CharClass::Digit);
        if self.first() == '.' {
            kind = LiteralKind::Float;
            self.bump();
            self.do_while(CharClass::Digit);
        }
        let c = self.first();
        if c == 'e' || c == 'E' {
            kind = LiteralKind::Float;
            self.bump();
            self.do_exp();
        }
        kind
    }

    fn do_exp(&mut self)
        requires
            old(self).wf(),
        ensures
            final(self).wf(),
            final(self).text() == old(self).text(),
            final(self).token_start == old(self).token_start,
            final(self).cursor() == scan_exponent(old(self).text(), old(self).cursor()),
    {
        self.do_while(CharClass::Whitespace);
        let c = self.first();
        if c == '-' || c == '+' {
            self.bump();
        }
        self.do_while(CharClass::Digit);
    }

    /// Scans a string literal from its opening quote. An unterminated one ends
    /// at the end of the input.
    fn do_string(&mut self) -> (r: LiteralKind)
        requires
            old(self).wf(),
            char_at(old(self).text(), old(self).cursor()) == '"',
        ensures
            final(self).wf(),
            final(self).text() == old(self).text(),
            final(self).token_start == old(self).token_start,
            r == LiteralKind::String,
            final(self).cursor() == string_end(old(self).text(), old(self).cursor() + 1),
    {
        self.bump();
        let ghost s = self.text();
        let ghost e = string_end(s, old(self).cursor() + 1);
        loop
            invariant_except_break
                string_end(s, self.cursor()) == e,
            invariant
                self.wf(),
                self.text() == s,
                self.token_start == old(self).token_start,
            ensures
                self.cursor() == e,
            decreases s.len() - self.cursor(),
        {
            if self.at_end() {
                break ;
            }
            let c = self.first();
            if c == '"' {
                self.bump();
                break ;
            } else if c == '\\' {
                self.bump();
                if self.at_end() {
                    break ;
                }
            }
            self.bump();
        }
        LiteralKind::String
    }

    /// Moves the cursor over the run of chars of class `k`.
    fn do_while(&mut self, k: CharClass)
        requires
            old(self).wf(),
        ensures
            final(self).wf(),
            final(self).text() == old(self).text(),
            final(self).token_start == old(self).token_start,
            final(self).cursor() == scan_while(old(self).text(), old(self).cursor(), k),
    {
        let ghost s = self.text();
        loop
            invariant
                self.wf(),
                self.text() == s,
                self.token_start == old(self).token_start,
                scan_while(s, self.cursor(), k) == scan_while(s, old(self).cursor(), k),
            ensures
                self.cursor() == scan_while(s, old(self).cursor(), k),
            decreases s.len() - self.cursor(),
        {
            if self.at_end() {
                assert(scan_while(s, self.cursor(), k) == self.cursor());
                break ;
            }
            let c = self.first();
            if !is_in_class(c, k) {
                assert(scan_while(s, self.cursor(), k) == self.cursor());
                break ;
            }
            self.bump();
        }
    }
}

} // verus!
