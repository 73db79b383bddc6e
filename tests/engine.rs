use zerocalc::eval::{Calculator, Expression, Ident, Op};
use zerocalc::function::{parse_function, Builtin};
use zerocalc::number::parse::{
    parse_const, parse_float, parse_int, parse_int_bin, parse_int_hex, parse_int_oct,
};
use zerocalc::number::{FloatFn, FloatOp, FloatUnit, Number, Operand};
use zerocalc::parser::Parser;

/// IEEE doubles as the host computes them.
struct Ieee;

fn as_f64(x: Operand) -> f64 {
    match x {
        Operand::Int(i) => i as f64,
        Operand::Float(b) => f64::from_bits(b),
    }
}

impl FloatUnit for Ieee {
    fn binary(op: FloatOp, l: Operand, r: Operand) -> u64 {
        let (l, r) = (as_f64(l), as_f64(r));
        let v = match op {
            FloatOp::Add => l + r,
            FloatOp::Sub => l - r,
            FloatOp::Mul => l * r,
            FloatOp::Div => l / r,
            FloatOp::Rem => l.rem_euclid(r),
            FloatOp::Pow => l.powf(r),
            FloatOp::Log => l.log(r),
            FloatOp::Root => l.powf(1.0 / r),
        };
        v.to_bits()
    }

    fn unary(f: FloatFn, x: Operand) -> u64 {
        let x = as_f64(x);
        let v = match f {
            FloatFn::Sin => x.sin(),
            FloatFn::Cos => x.cos(),
            FloatFn::Tan => x.tan(),
            FloatFn::Asin => x.asin(),
            FloatFn::Acos => x.acos(),
            FloatFn::Atan => x.atan(),
            FloatFn::Ln => x.ln(),
            FloatFn::Log10 => x.log10(),
            FloatFn::Sqrt => x.sqrt(),
        };
        v.to_bits()
    }

    fn parse(text: &Vec<char>) -> Option<u64> {
        text.iter().collect::<String>().parse::<f64>().ok().map(f64::to_bits)
    }

    fn format(b: u64) -> String {
        f64::from_bits(b).to_string()
    }
}

fn float(f: f64) -> Number {
    Number::Float(f.to_bits())
}

fn as_float(n: Number) -> f64 {
    match n {
        Number::Float(b) => f64::from_bits(b),
        other => panic!("expected a float, got {:?}", other),
    }
}

fn eval(prog: &[Expression]) -> Number {
    let mut c = Calculator::new();
    c.eval::<Ieee>(prog)
}

fn compile(text: &str) -> Vec<Expression> {
    let mut p = Parser::new(text);
    p.parse::<Ieee>().unwrap();
    p.program
}

fn run(c: &mut Calculator, text: &str) -> Number {
    let mut p = Parser::new(text);
    assert!(p.parse::<Ieee>().unwrap());
    c.eval::<Ieee>(&p.program)
}

// number literals

#[test]
fn test_parse_int_whitespaces() {
    let i = parse_int("1 2_30 1").unwrap();
    assert_eq!(Number::Int(12301), i);
}

#[test]
fn test_parse_bin() {
    let i = parse_int_bin("0b01101").unwrap();
    assert_eq!(Number::Int(13), i);
    let i = parse_int_bin("0b_01110").unwrap();
    assert_eq!(Number::Int(14), i);
}

#[test]
fn test_parse_oct() {
    let i = parse_int_oct("0o10").unwrap();
    assert_eq!(Number::Int(8), i);
    let r = parse_int_oct("0o8");
    assert!(r.is_err());
}

#[test]
fn test_parse_hex() {
    let i = parse_int_hex("0xaB_c1").unwrap();
    assert_eq!(Number::Int(43969), i);
}

#[test]
fn test_parse_float() {
    let n = parse_float::<Ieee>("1.23").unwrap();
    if let Number::Float(b) = n {
        assert!((1.23 - f64::from_bits(b)).abs() < 1e-10);
    } else {
        assert!(false);
    }
}

#[test]
fn test_parse_float_exp() {
    let n = parse_float::<Ieee>(".23e-1").unwrap();
    match n {
        Number::Float(b) => assert!((0.23e-1 - f64::from_bits(b)).abs() < 1e-10),
        _ => panic!("Not a float"),
    }
}

#[test]
fn literal_errors() {
    assert_eq!("Binary number must start with 0b", parse_int_bin("101").unwrap_err().message);
    assert_eq!("Octal number must start with 0o", parse_int_oct("0x7").unwrap_err().message);
    assert_eq!("Hex number must start with 0x", parse_int_hex("ff").unwrap_err().message);
    assert_eq!("cannot parse integer from empty string", parse_int(" _ ").unwrap_err().message);
    assert_eq!("invalid digit found in string", parse_int("12a").unwrap_err().message);
    assert_eq!("invalid digit found in string", parse_int("-").unwrap_err().message);
    assert_eq!(
        "number too large to fit in target type",
        parse_int("170141183460469231731687303715884105728").unwrap_err().message
    );
    assert_eq!(
        "number too small to fit in target type",
        parse_int("-170141183460469231731687303715884105729").unwrap_err().message
    );
    assert_eq!("invalid float literal", parse_float::<Ieee>("1e").unwrap_err().message);
    assert_eq!("Unknown constant", parse_const("tau").unwrap_err().message);
}

#[test]
fn literal_limits() {
    assert_eq!(Number::Int(i128::MAX), parse_int("170141183460469231731687303715884105727").unwrap());
    assert_eq!(Number::Int(i128::MIN), parse_int("-170141183460469231731687303715884105728").unwrap());
    assert_eq!(Number::Int(-5), parse_int("-5").unwrap());
    assert_eq!(Number::Int(255), parse_int_hex(" 0x F_F").unwrap());
    assert_eq!(Number::Int(-1), parse_int_bin("0b-1").unwrap());
    assert_eq!("float literal out of range", parse_float::<Ieee>("1e999").unwrap_err().message);
}

#[test]
fn constants() {
    assert_eq!(float(std::f64::consts::PI), parse_const("pi").unwrap());
    assert_eq!(float(std::f64::consts::E), parse_const("e").unwrap());
}

// arithmetic

#[test]
fn test_div_zero_float() {
    let (l, r) = (float(1.0), float(0.0));
    let res = Number::binary::<Ieee>(Op::Div, l, r);
    assert_eq!(res, Number::NaN);
}

#[test]
fn test_div_zero_int() {
    let (l, r) = (Number::Int(1), Number::Int(0));
    let res = Number::binary::<Ieee>(Op::Div, l, r);
    assert_eq!(res, Number::NaN);
}

#[test]
fn test_rem() {
    let (l, r) = (Number::Int(3), Number::Int(0));
    let res = Number::binary::<Ieee>(Op::Mod, l, r);
    assert_eq!(res, Number::NaN);

    let (l, r) = (Number::Int(3), Number::Int(2));
    let res = Number::binary::<Ieee>(Op::Mod, l, r);
    assert_eq!(res, Number::Int(1));
}

#[test]
fn overflow_gives_nan() {
    assert_eq!(Number::NaN, Number::binary::<Ieee>(Op::Add, Number::Int(i128::MAX), Number::Int(1)));
    assert_eq!(Number::NaN, Number::binary::<Ieee>(Op::Sub, Number::Int(i128::MIN), Number::Int(1)));
    assert_eq!(Number::NaN, Number::binary::<Ieee>(Op::Mul, Number::Int(i128::MAX), Number::Int(2)));
    assert_eq!(Number::NaN, Number::binary::<Ieee>(Op::Div, Number::Int(i128::MIN), Number::Int(-1)));
    assert_eq!(Number::NaN, Number::binary::<Ieee>(Op::Pow, Number::Int(2), Number::Int(127)));
    assert_eq!(Number::NaN, Number::Int(i128::MIN).neg());
    assert_eq!(Number::NaN, Number::Int(i128::MIN).abs());
}

#[test]
fn integer_division() {
    assert_eq!(Number::Int(2), Number::binary::<Ieee>(Op::Div, Number::Int(4), Number::Int(2)));
    assert_eq!(Number::Int(-3), Number::binary::<Ieee>(Op::Div, Number::Int(9), Number::Int(-3)));
    let third = as_float(Number::binary::<Ieee>(Op::Div, Number::Int(2), Number::Int(3)));
    assert!((third - 0.6667).abs() < 0.01);
    let half = as_float(Number::binary::<Ieee>(Op::Div, Number::Int(-7), Number::Int(2)));
    assert_eq!(-3.5, half);
    assert_eq!(Number::Int(-1), Number::binary::<Ieee>(Op::Mod, Number::Int(-7), Number::Int(2)));
}

#[test]
fn powers() {
    assert_eq!(Number::Int(1024), Number::binary::<Ieee>(Op::Pow, Number::Int(2), Number::Int(10)));
    assert_eq!(Number::Int(i128::MIN), Number::binary::<Ieee>(Op::Pow, Number::Int(-2), Number::Int(127)));
    assert_eq!(Number::NaN, Number::binary::<Ieee>(Op::Pow, Number::Int(2), Number::Int(-1)));
    assert_eq!(2.0, as_float(Number::binary::<Ieee>(Op::Pow, float(4.0), float(0.5))));
}

#[test]
fn mixed_and_float_ops() {
    assert_eq!(3.5, as_float(Number::binary::<Ieee>(Op::Add, Number::Int(3), float(0.5))));
    assert_eq!(1.5, as_float(Number::binary::<Ieee>(Op::Mod, float(-2.5), Number::Int(2))));
    assert_eq!(-2.5, as_float(float(2.5).neg()));
    assert_eq!(2.5, as_float(float(-2.5).abs()));
    assert_eq!(Number::NaN, Number::binary::<Ieee>(Op::Mul, Number::NaN, Number::Int(2)));
    assert_eq!(Number::NaN, Number::from_bits(f64::INFINITY.to_bits()));
    assert_eq!(Number::NaN, Number::from_bits(f64::NAN.to_bits()));
    assert_eq!(float(1.5), Number::from_bits(1.5f64.to_bits()));
}

// functions

#[test]
fn test_function() {
    let f = parse_function("sin").unwrap();
    let mut args = vec![float(std::f64::consts::PI)];
    match f.exec::<Ieee>(&mut args) {
        Number::Float(b) => assert!(f64::from_bits(b).abs() < 1e-10),
        _ => panic!("Expected float"),
    }
}

#[test]
fn test_function2() {
    let f = parse_function("log").unwrap();
    let mut args = vec![float(8.0), float(2.0)];
    match f.exec::<Ieee>(&mut args) {
        Number::Float(b) => assert!((f64::from_bits(b) - 3.0).abs() < 1e-10),
        _ => panic!("Expected float"),
    }
}

#[test]
fn function_table() {
    let f = parse_function(" root ").unwrap();
    assert_eq!(Builtin::Root, f.kind);
    assert_eq!(2, f.arg_count);
    assert_eq!(1, parse_function("abs").unwrap().arg_count);
    assert_eq!("Unknown function sinh", parse_function(" sinh").unwrap_err().message);
    let mut args = vec![Number::Int(-4)];
    assert_eq!(Number::Int(4), parse_function("abs").unwrap().exec::<Ieee>(&mut args));
    let mut args = vec![float(27.0), Number::Int(3)];
    let r = as_float(parse_function("root").unwrap().exec::<Ieee>(&mut args));
    assert!((r - 3.0).abs() < 1e-10);
    let mut args = vec![Number::NaN, float(2.0)];
    assert_eq!(Number::NaN, parse_function("log").unwrap().exec::<Ieee>(&mut args));
    let mut args = vec![Number::Int(-1)];
    assert_eq!(Number::NaN, parse_function("sqrt").unwrap().exec::<Ieee>(&mut args));
}

// parser

#[test]
fn test_single_val() {
    let mut p = Parser::new("1");
    p.parse::<Ieee>().unwrap();
    let expected = vec![Expression::Val(Number::Int(1))];
    assert_eq!(expected, p.program);
}

#[test]
fn test_add() {
    let mut p = Parser::new("1+2");
    p.parse::<Ieee>().unwrap();
    let expected = vec![
        Expression::Val(Number::Int(1)),
        Expression::Val(Number::Int(2)),
        Expression::BinaryOp(Op::Add),
    ];
    assert_eq!(expected, p.program);
}

#[test]
fn test_precedence() {
    let mut p = Parser::new("1*0b10*3+4");
    p.parse::<Ieee>().unwrap();
    let expected = vec![
        Expression::Val(Number::Int(1)),
        Expression::Val(Number::Int(2)),
        Expression::Val(Number::Int(3)),
        Expression::BinaryOp(Op::Mul),
        Expression::BinaryOp(Op::Mul),
        Expression::Val(Number::Int(4)),
        Expression::BinaryOp(Op::Add),
    ];
    assert_eq!(expected, p.program);
}

#[test]
fn test_precedence2() {
    let mut p = Parser::new("1+2*3*4");
    p.parse::<Ieee>().unwrap();
    let expected = vec![
        Expression::Val(Number::Int(1)),
        Expression::Val(Number::Int(2)),
        Expression::Val(Number::Int(3)),
        Expression::Val(Number::Int(4)),
        Expression::BinaryOp(Op::Mul),
        Expression::BinaryOp(Op::Mul),
        Expression::BinaryOp(Op::Add),
    ];
    assert_eq!(expected, p.program);
}

#[test]
fn test_precedence3() {
    let mut p = Parser::new("1*2+3*4");
    p.parse::<Ieee>().unwrap();
    let expected = vec![
        Expression::Val(Number::Int(1)),
        Expression::Val(Number::Int(2)),
        Expression::BinaryOp(Op::Mul),
        Expression::Val(Number::Int(3)),
        Expression::Val(Number::Int(4)),
        Expression::BinaryOp(Op::Mul),
        Expression::BinaryOp(Op::Add),
    ];
    assert_eq!(expected, p.program);
}

#[test]
fn test_unary() {
    let mut p = Parser::new("-1");
    p.parse::<Ieee>().unwrap();
    let expected = vec![Expression::Val(Number::Int(1)), Expression::UnaryOp(Op::Sub)];
    assert_eq!(expected, p.program);
}

#[test]
fn test_paren_and_whitespaces() {
    let mut p = Parser::new(" 2 + (  -  1 + 3 ) ");
    p.parse::<Ieee>().unwrap();
    let expected = vec![
        Expression::Val(Number::Int(2)),
        Expression::Val(Number::Int(1)),
        Expression::UnaryOp(Op::Sub),
        Expression::Val(Number::Int(3)),
        Expression::BinaryOp(Op::Add),
        Expression::BinaryOp(Op::Add),
    ];
    assert_eq!(expected, p.program);
}

#[test]
fn test_const() {
    let mut p = Parser::new("pi");
    p.parse::<Ieee>().unwrap();
    assert_eq!(p.program.len(), 1);
    match p.program[0] {
        Expression::Val(Number::Float(b)) => {
            assert!((f64::from_bits(b) - 3.14).abs() < 0.01)
        },
        _ => panic!("Wrong expression"),
    }
}

#[test]
fn test_functions() {
    let mut p = Parser::new("sin(1-1)");
    p.parse::<Ieee>().unwrap();
    let expected = vec![
        Expression::Val(Number::Int(1)),
        Expression::Val(Number::Int(1)),
        Expression::BinaryOp(Op::Sub),
        Expression::FuncCall(parse_function("sin").unwrap()),
    ];
    assert_eq!(expected, p.program);
}

#[test]
fn tests_test_assign() {
    let mut p = Parser::new("x = 1 + 2");
    p.parse::<Ieee>().unwrap();
    let expected = vec![
        Expression::Val(Number::Int(1)),
        Expression::Val(Number::Int(2)),
        Expression::BinaryOp(Op::Add),
        Expression::Assign(Ident::new("x")),
    ];
    assert_eq!(expected, p.program);
}

#[test]
fn tests_test_ident() {
    let mut p = Parser::new("1 + x");
    p.parse::<Ieee>().unwrap();
    let expected = vec![
        Expression::Val(Number::Int(1)),
        Expression::Ref(Ident::new("x")),
        Expression::BinaryOp(Op::Add),
    ];
    assert_eq!(expected, p.program);
}

#[test]
fn chains_group_to_the_right() {
    assert_eq!(
        vec![
            Expression::Val(Number::Int(1)),
            Expression::Val(Number::Int(2)),
            Expression::Val(Number::Int(3)),
            Expression::BinaryOp(Op::Sub),
            Expression::BinaryOp(Op::Sub),
        ],
        compile("1-2-3")
    );
    assert_eq!(Number::Int(2), eval(&compile("1-2-3")));
    assert_eq!(Number::Int(8), eval(&compile("16/4/2")));
    assert_eq!(Number::Int(512), eval(&compile("2^3^2")));
}

#[test]
fn blank_input_gives_nothing() {
    let mut p = Parser::new("   ");
    assert!(!p.parse::<Ieee>().unwrap());
    assert!(p.program.is_empty());
}

#[test]
fn syntax_errors_carry_spans() {
    let e = Parser::new("1 + )").parse::<Ieee>().unwrap_err();
    assert_eq!("Unexpected token", e.message);
    assert_eq!((3, 2), (e.span.pos, e.span.len));
    let e = Parser::new("2 *").parse::<Ieee>().unwrap_err();
    assert_eq!("Unexpected end of input", e.message);
    let e = Parser::new("(1 + 2").parse::<Ieee>().unwrap_err();
    assert_eq!("Missing closing parenthesis", e.message);
    let e = Parser::new("-").parse::<Ieee>().unwrap_err();
    assert_eq!("Unary operator needs expression", e.message);
    let e = Parser::new("x =").parse::<Ieee>().unwrap_err();
    assert_eq!("Missing right side of assignment", e.message);
    let e = Parser::new("1 + foo(2)").parse::<Ieee>().unwrap_err();
    assert_eq!("Unknown function foo", e.message);
    assert_eq!((3, 4), (e.span.pos, e.span.len));
    let e = Parser::new("\"s\"").parse::<Ieee>().unwrap_err();
    assert_eq!("Unknown Literal", e.message);
    let e = Parser::new("1 + #").parse::<Ieee>().unwrap_err();
    assert_eq!("Unexpected token", e.message);
    assert_eq!((3, 2), (e.span.pos, e.span.len));
    let e = Parser::new("0o9").parse::<Ieee>().unwrap_err();
    assert_eq!("invalid digit found in string", e.message);
    assert_eq!((0, 3), (e.span.pos, e.span.len));
}

#[test]
fn call_arity_is_checked() {
    let e = Parser::new("log(8)").parse::<Ieee>().unwrap_err();
    assert_eq!("Invalid number of arguments", e.message);
    let e = Parser::new("sin(1, 2)").parse::<Ieee>().unwrap_err();
    assert_eq!("Expected closing bracket", e.message);
    let e = Parser::new("sin(").parse::<Ieee>().unwrap_err();
    assert_eq!("Argument 1 is empty", e.message);
    let e = Parser::new("log(8,").parse::<Ieee>().unwrap_err();
    assert_eq!("Argument 2 is empty", e.message);
    let expected = vec![
        Expression::Val(Number::Int(8)),
        Expression::Val(Number::Int(2)),
        Expression::FuncCall(parse_function("log").unwrap()),
    ];
    assert_eq!(expected, compile("log(8, 2)"));
}

// evaluator

#[test]
fn test_val() {
    let program = [Expression::Val(Number::Int(1))];
    assert_eq!(eval(&program), Number::Int(1));
}

#[test]
fn test_binary_op_int() {
    let program = [
        Expression::Val(Number::Int(2)),
        Expression::Val(Number::Int(3)),
        Expression::BinaryOp(Op::Add),
    ];
    assert_eq!(eval(&program), Number::Int(5));
}

#[test]
fn test_div_ints() {
    let program = [
        Expression::Val(Number::Int(4)),
        Expression::Val(Number::Int(2)),
        Expression::BinaryOp(Op::Div),
    ];
    assert_eq!(eval(&program), Number::Int(2));

    let program = [
        Expression::Val(Number::Int(2)),
        Expression::Val(Number::Int(3)),
        Expression::BinaryOp(Op::Div),
    ];
    if let Number::Float(b) = eval(&program) {
        assert!((f64::from_bits(b) - 2.0 / 3.0).abs() < 0.01)
    } else {
        assert!(false)
    }
}

#[test]
fn test_unary_minus() {
    let program = [Expression::Val(Number::Int(2)), Expression::UnaryOp(Op::Sub)];
    assert_eq!(Number::Int(-2), eval(&program));
}

#[test]
fn test_function_eval() {
    let program = vec![
        Expression::Val(Number::Int(1)),
        Expression::Val(Number::Int(1)),
        Expression::BinaryOp(Op::Sub),
        Expression::FuncCall(parse_function("sin").unwrap()),
    ];
    match eval(&program) {
        Number::Float(b) => assert!(f64::from_bits(b).abs() < 1e-10),
        _ => panic!("expected 0.0"),
    }
}

#[test]
fn test_assign() {
    let p1 = vec![Expression::Val(Number::Int(1)), Expression::Assign(Ident::new("x"))];
    let p2 = vec![
        Expression::Val(Number::Int(2)),
        Expression::Ref(Ident::new("x")),
        Expression::BinaryOp(Op::Add),
    ];
    let mut c = Calculator::new();
    c.eval::<Ieee>(&p1);
    let res = c.eval::<Ieee>(&p2);
    assert_eq!(Number::Int(3), res);
}

#[test]
fn assignment_round_trip() {
    let mut c = Calculator::new();
    assert_eq!(Number::Int(1), run(&mut c, "x = 1"));
    assert_eq!(Number::Int(3), run(&mut c, "2 + x"));
    assert_eq!(Number::Int(10), run(&mut c, "x = 10"));
    assert_eq!(Number::Int(20), run(&mut c, "y = x * 2"));
    assert_eq!(Number::Int(30), run(&mut c, "x + y"));
}

#[test]
fn undefined_and_defensive_cases() {
    let mut c = Calculator::new();
    assert_eq!(Number::NaN, run(&mut c, "nope + 1"));
    assert_eq!(Number::NaN, c.eval::<Ieee>(&[]));
    assert_eq!(Number::NaN, c.eval::<Ieee>(&[Expression::BinaryOp(Op::Add)]));
    assert_eq!(Number::NaN, c.eval::<Ieee>(&[Expression::Val(Number::Int(1)), Expression::UnaryOp(Op::Mul)]));
    assert_eq!(Number::NaN, run(&mut c, "1/0 + 5"));
}

#[test]
fn sin_of_zero_evaluates_to_zero() {
    let program = compile("sin(1-1)");
    assert_eq!(4, program.len());
    assert!(as_float(eval(&program)).abs() < 1e-10);
    let r = as_float(eval(&compile("2.5e1 + .5")));
    assert_eq!(25.5, r);
}

#[test]
fn messages_at_the_error_token() {
    let e = Parser::new("foo(1)").parse::<Ieee>().unwrap_err();
    assert_eq!("Unknown function foo", e.message);
    assert_eq!((0, 3), (e.span.pos, e.span.len));
    let e = Parser::new("1 +").parse::<Ieee>().unwrap_err();
    assert_eq!("Unexpected end of input", e.message);
    assert_eq!((3, 0), (e.span.pos, e.span.len));
    let e = Parser::new("2 * 1e400").parse::<Ieee>().unwrap_err();
    assert_eq!("float literal out of range", e.message);
    assert_eq!((3, 6), (e.span.pos, e.span.len));
    let e = Parser::new("log(8").parse::<Ieee>().unwrap_err();
    assert_eq!("Invalid number of arguments", e.message);
    let mut p = Parser::new("7");
    assert!(p.parse::<Ieee>().unwrap());
    assert_eq!(&vec![Expression::Val(Number::Int(7))], p.program());
}

#[test]
fn numbers_as_text() {
    assert_eq!("0", Number::Int(0).to_text::<Ieee>());
    assert_eq!("12301", Number::Int(12301).to_text::<Ieee>());
    assert_eq!("-42", Number::Int(-42).to_text::<Ieee>());
    assert_eq!("-170141183460469231731687303715884105728", Number::Int(i128::MIN).to_text::<Ieee>());
    assert_eq!("NaN", Number::NaN.to_text::<Ieee>());
    assert_eq!("2.5", float(2.5).to_text::<Ieee>());
}
