use synfone::lang::parser::{ErrorKind as ParseErrorKind, Parser};
use synfone::lang::token::{TokType, Token};
use synfone::lang::tokenizer::{
    ErrorKind, ErrorType, EscapeKind, Location, NumericKind, ResumableChars, Tokenizer,
};
use synfone::synth::{FactoryKind, GenTree, ParamValue};

fn tokenizer(src: &str) -> Tokenizer {
    Tokenizer::new(ResumableChars::new(src.to_string()))
}

fn all_tokens(src: &str) -> Result<Vec<Token>, ErrorType> {
    tokenizer(src).tokens()
}

fn parse_rel(src: &str) -> GenTree {
    let mut p = Parser::new(tokenizer(src)).expect("tokens");
    p.parse_gen_rel().expect("parse")
}

fn child(t: &GenTree, i: usize) -> &GenTree {
    match &t.params.positional[i] {
        Some(ParamValue::Generator(g)) => g,
        other => panic!("argument {} is {:?}", i, other),
    }
}

fn string_arg(t: &GenTree, i: usize) -> &str {
    match &t.params.positional[i] {
        Some(ParamValue::String(s)) => s,
        other => panic!("argument {} is {:?}", i, other),
    }
}

fn assert_integer_literal(t: &GenTree, v: i64) {
    assert_eq!(t.kind, FactoryKind::Param);
    assert_eq!(string_arg(t, 0), "_");
    match &t.params.positional[1] {
        Some(ParamValue::Integer(x)) => assert_eq!(*x, v),
        other => panic!("literal is {:?}", other),
    }
}

fn assert_variable(t: &GenTree, name: &str) {
    assert_eq!(t.kind, FactoryKind::Param);
    assert_eq!(t.params.positional.len(), 1);
    assert_eq!(string_arg(t, 0), name);
}

#[test]
fn tokens_of_a_call() {
    let toks = all_tokens("sine(440)").unwrap();
    assert_eq!(
        toks,
        vec![
            Token::Ident("sine".to_string()),
            Token::Oper('('),
            Token::Integer(440),
            Token::Oper(')'),
            Token::EOF
        ]
    );
    assert_eq!(toks[0].to_type(), TokType::Ident);
}

#[test]
fn numeric_literals() {
    let toks = all_tokens("0x1F 0o17 0 07 1.5e3 0.25 12").unwrap();
    assert_eq!(
        toks,
        vec![
            Token::Integer(31),
            Token::Integer(15),
            Token::Integer(0),
            Token::Integer(7),
            Token::Float("1.5e3".to_string()),
            Token::Float("0.25".to_string()),
            Token::Integer(12),
            Token::EOF
        ]
    );
}

#[test]
fn bad_numeric_literals() {
    let e = all_tokens("1.5e").unwrap_err();
    assert_eq!(e.kind, ErrorKind::BadNumericLiteral(NumericKind::Float, "1.5e".to_string()));
    assert_eq!(e.desc, "Bad floating point literal 1.5e");
    let e = all_tokens("9223372036854775808").unwrap_err();
    assert_eq!(
        e.kind,
        ErrorKind::BadNumericLiteral(NumericKind::Integer, "9223372036854775808".to_string())
    );
    let e = all_tokens("0x").unwrap_err();
    assert_eq!(e.kind, ErrorKind::BadNumericLiteral(NumericKind::Integer, String::new()));
    assert_eq!(all_tokens("9223372036854775807").unwrap()[0], Token::Integer(i64::MAX));
}

#[test]
fn string_escapes() {
    let toks = all_tokens(r#"'a\x41g' "q\"\n\o101\z""#).unwrap();
    assert_eq!(toks[0], Token::String("aAg".to_string()));
    assert_eq!(toks[1], Token::String("q\"\nAz".to_string()));
}

#[test]
fn string_errors() {
    let e = all_tokens("'abc").unwrap_err();
    assert_eq!(e.kind, ErrorKind::UnexpectedEOF(Location::InString));
    assert_eq!(e.desc, "Unexpected EOF in string constant");
    let e = all_tokens("'a\\").unwrap_err();
    assert_eq!(e.kind, ErrorKind::UnexpectedEOF(Location::InStringEscape));
    let e = all_tokens("'\\xd800'").unwrap_err();
    assert_eq!(e.kind, ErrorKind::BadEscapeValue(EscapeKind::Hexadecimal, "d800".to_string()));
    let e = all_tokens("'\\o'").unwrap_err();
    assert_eq!(e.kind, ErrorKind::BadEscapeValue(EscapeKind::Octal, String::new()));
}

#[test]
fn comments_and_operators() {
    let toks = all_tokens("a /* skip ** this */ / b /* open").unwrap();
    assert_eq!(
        toks,
        vec![
            Token::Ident("a".to_string()),
            Token::Oper('/'),
            Token::Ident("b".to_string()),
            Token::EOF
        ]
    );
    let toks = all_tokens("x<=y").unwrap();
    assert_eq!(toks[1], Token::Oper('<'));
    assert_eq!(toks[2], Token::Oper('='));
}

#[test]
fn unicode_identifiers() {
    let toks = all_tokens("  été_2 \u{3000}x").unwrap();
    assert_eq!(toks[0], Token::Ident("été_2".to_string()));
    assert_eq!(toks[1], Token::Ident("x".to_string()));
}

#[test]
fn include_reads_a_source() {
    let mut t = tokenizer("[#b.gen#]");
    t.add_source("b.gen".to_string(), "sine(220)".to_string());
    let toks = t.tokens().unwrap();
    assert_eq!(toks, all_tokens("[sine(220)]").unwrap());
}

#[test]
fn include_of_unknown_path() {
    let e = all_tokens("#missing#").unwrap_err();
    assert_eq!(e.kind, ErrorKind::IncludeError("missing".to_string()));
    assert_eq!(e.desc, "Error including file: missing");
    let e = all_tokens("#open").unwrap_err();
    assert_eq!(e.kind, ErrorKind::UnexpectedEOF(Location::InInclude));
}

#[test]
fn include_recursion_is_bounded() {
    let mut t = tokenizer("#self#");
    t.add_source("self".to_string(), "#self#".to_string());
    let e = t.tokens().unwrap_err();
    assert_eq!(e.kind, ErrorKind::TooManyRecursions(256));
    assert_eq!(e.desc, "Include recursed too many times (256)");
}

#[test]
fn include_gives_same_tree_as_inline() {
    let mut t = tokenizer("#B#");
    t.add_source("B".to_string(), "sine(220)".to_string());
    let mut p = Parser::new(t).unwrap();
    let included = p.parse_gen_rel().unwrap();
    let direct = parse_rel("sine(220)");
    assert_eq!(format!("{:?}", included), format!("{:?}", direct));
}

#[test]
fn parse_sine_of_param() {
    let t = parse_rel("sine(param('f',440))");
    assert_eq!(t.kind, FactoryKind::Sine);
    let p = child(&t, 0);
    assert_eq!(p.kind, FactoryKind::Param);
    assert_eq!(string_arg(p, 0), "f");
    assert_integer_literal(child(p, 1), 440);
}

#[test]
fn operator_precedence() {
    let t = parse_rel("a+b*c > d");
    assert_eq!(t.kind, FactoryKind::Rel);
    assert_eq!(string_arg(&t, 1), ">");
    let sum = child(&t, 0);
    assert_eq!(sum.kind, FactoryKind::Add);
    assert_variable(child(sum, 0), "a");
    let prod = child(sum, 1);
    assert_eq!(prod.kind, FactoryKind::Mul);
    assert_variable(child(prod, 0), "b");
    assert_variable(child(prod, 1), "c");
    assert_variable(child(&t, 2), "d");
}

#[test]
fn subtraction_and_division() {
    let t = parse_rel("a - b / c");
    assert_eq!(t.kind, FactoryKind::Add);
    let neg = child(&t, 1);
    assert_eq!(neg.kind, FactoryKind::Negate);
    let quot = child(neg, 0);
    assert_eq!(quot.kind, FactoryKind::Mul);
    let rec = child(quot, 1);
    assert_eq!(rec.kind, FactoryKind::Reciprocate);
    assert_variable(child(rec, 0), "c");
}

#[test]
fn relational_operators() {
    for (src, op) in [("a >= b", ">="), ("a <= b", "<="), ("a == b", "=="), ("a != b", "!="), ("a < b", "<")] {
        let t = parse_rel(src);
        assert_eq!(t.kind, FactoryKind::Rel);
        assert_eq!(string_arg(&t, 1), op);
    }
    let mut p = Parser::new(tokenizer("a = b")).unwrap();
    let e = p.parse_gen_rel().unwrap_err();
    assert_eq!(e.kind, ParseErrorKind::Unparseable(TokType::Oper, "rel expr".to_string()));
}

#[test]
fn add_of_three_literals() {
    let t = parse_rel("add(1, 2, 3)");
    assert_eq!(t.kind, FactoryKind::Add);
    assert_eq!(t.params.positional.len(), 3);
    assert_integer_literal(child(&t, 0), 1);
    assert_integer_literal(child(&t, 1), 2);
    assert_integer_literal(child(&t, 2), 3);
}

#[test]
fn named_and_positional_arguments() {
    let t = parse_rel("lutgen(sine(1), samples=64, 'x', phase=0.5,)");
    assert_eq!(t.kind, FactoryKind::LutGen);
    assert_eq!(t.params.positional.len(), 2);
    assert_eq!(string_arg(&t, 1), "x");
    match t.params.get_param("phase", 9) {
        Some(ParamValue::Generator(g)) => match &g.params.positional[1] {
            Some(ParamValue::Float(s)) => assert_eq!(s, "0.5"),
            other => panic!("{:?}", other),
        },
        other => panic!("{:?}", other),
    }
    match t.params.get_param("samples", 0) {
        Some(ParamValue::Generator(g)) => assert_integer_literal(g, 64),
        other => panic!("{:?}", other),
    }
}

#[test]
fn generator_vector() {
    let mut p = Parser::new(tokenizer("[ sine(440), saw(2), ]")).unwrap();
    let v = p.parse_gen_vec().unwrap();
    assert_eq!(v.len(), 2);
    assert_eq!(v[0].kind, FactoryKind::Sine);
    assert_eq!(v[1].kind, FactoryKind::Saw);
    let mut p = Parser::new(tokenizer("[]")).unwrap();
    assert_eq!(p.parse_gen_vec().unwrap().len(), 0);
    let mut p = Parser::new(tokenizer("sine(1)")).unwrap();
    let e = p.parse_gen_vec().unwrap_err();
    assert_eq!(e.kind, ParseErrorKind::ExpectedOp('[', TokType::Ident));
    assert_eq!(e.desc, "Expected '[', found Ident");
}

#[test]
fn unknown_generator_and_bad_starts() {
    let mut p = Parser::new(tokenizer("wobble(1)")).unwrap();
    let e = p.parse_gen_rel().unwrap_err();
    assert_eq!(e.kind, ParseErrorKind::UnknownGen("wobble".to_string()));
    assert_eq!(e.desc, "Unknown generator name wobble");
    let mut p = Parser::new(tokenizer(")")).unwrap();
    let e = p.parse_gen_rel().unwrap_err();
    assert_eq!(e.kind, ParseErrorKind::Unparseable(TokType::Oper, "gen".to_string()));
    let mut p = Parser::new(tokenizer("sine(+)")).unwrap();
    let e = p.parse_gen_rel().unwrap_err();
    assert_eq!(e.kind, ParseErrorKind::Unparseable(TokType::Oper, "param value".to_string()));
}

#[test]
fn parser_reports_tokenizer_errors() {
    assert!(Parser::new(tokenizer("'unterminated")).is_err());
}

#[test]
fn float_literal_argument() {
    let t = parse_rel("2.5");
    assert_eq!(t.kind, FactoryKind::Param);
    match &t.params.positional[1] {
        Some(ParamValue::Float(s)) => assert_eq!(s, "2.5"),
        other => panic!("{:?}", other),
    }
}

#[test]
fn pushed_reader_is_read_first() {
    let mut t = tokenizer("b");
    t.push_reader(ResumableChars::new("a ".to_string())).unwrap();
    let toks = t.tokens().unwrap();
    assert_eq!(
        toks,
        vec![Token::Ident("a".to_string()), Token::Ident("b".to_string()), Token::EOF]
    );
}

#[test]
fn characters_and_pushback() {
    let mut t = tokenizer("xy");
    assert_eq!(t.next_char(), Some('x'));
    assert!(t.push_back('q'));
    assert!(!t.push_back('r'));
    assert_eq!(t.next_char(), Some('q'));
    assert_eq!(t.next_char(), Some('y'));
    assert_eq!(t.next_char(), None);
    let mut r = ResumableChars::new("é".to_string());
    assert_eq!(r.next(), Some('é'));
    assert_eq!(r.next(), None);
}

#[test]
fn tokenizer_error_descriptions() {
    let e = ErrorType::new(ErrorKind::UnknownChar('%'));
    assert_eq!(e.description(), "Unknown character %");
    let e = ErrorType::new(ErrorKind::BadEscapeValue(EscapeKind::Octal, "9".to_string()));
    assert_eq!(e.description(), "Bad octal escape 9");
    let e = ErrorType::with_description(ErrorKind::UnknownChar('%'), "mine".to_string());
    assert_eq!(e.description(), "mine");
    assert_eq!(e.kind, ErrorKind::UnknownChar('%'));
}

#[test]
fn char_membership() {
    assert!(synfone::lang::tokenizer::char_in("eE", 'E'));
    assert!(!synfone::lang::tokenizer::char_in("eE", 'x'));
    assert!(!synfone::lang::tokenizer::char_in("", 'e'));
}

#[test]
fn parser_token_access() {
    let mut p = Parser::new(tokenizer("a = 1")).unwrap();
    assert_eq!(p.cur_token(), &Token::Ident("a".to_string()));
    assert_eq!(p.expect_ident().unwrap(), "a");
    assert!(p.peek_op('='));
    p.push_back();
    let e = p.expect(TokType::Integer).unwrap_err();
    assert_eq!(e.kind, ParseErrorKind::Unexpected(TokType::Ident, TokType::Integer));
    assert_eq!(e.desc, "Found Ident, expected Integer");
    assert!(p.expect(TokType::Ident).is_ok());
    assert!(p.expect_op('=').is_ok());
    assert_eq!(p.expect(TokType::Integer).unwrap().copy(), Token::Integer(1));
    assert_eq!(p.expect(TokType::EOF).unwrap(), Token::EOF);
}

#[test]
fn parameter_counter() {
    let mut p = Parser::new(tokenizer("f = 1, 2")).unwrap();
    let (name, _, ctr) = p.parse_param(0).unwrap();
    assert_eq!(name.as_deref(), Some("f"));
    assert_eq!(ctr, 0);
    assert!(p.expect_op(',').is_ok());
    let (name, value, ctr) = p.parse_param(0).unwrap();
    assert!(name.is_none());
    assert_eq!(ctr, 1);
    match value {
        ParamValue::Generator(g) => assert_integer_literal(&g, 2),
        other => panic!("{:?}", other),
    }
}

#[test]
fn division_is_one_flat_mul() {
    let t = parse_rel("a/b*c");
    assert_eq!(t.kind, FactoryKind::Mul);
    assert_eq!(t.params.positional.len(), 3);
    assert_variable(child(&t, 0), "a");
    let rec = child(&t, 1);
    assert_eq!(rec.kind, FactoryKind::Reciprocate);
    assert_variable(child(rec, 0), "b");
    assert_variable(child(&t, 2), "c");
    let t = parse_rel("a-b+c");
    assert_eq!(t.kind, FactoryKind::Add);
    assert_eq!(t.params.positional.len(), 3);
    assert_eq!(child(&t, 1).kind, FactoryKind::Negate);
    assert_variable(child(&t, 2), "c");
}

#[test]
fn mixed_parameters() {
    let t = parse_rel("sine(x=1, 2, 'lit', 3, x=4,)");
    assert_eq!(t.kind, FactoryKind::Sine);
    assert_eq!(t.params.positional.len(), 3);
    assert_integer_literal(child(&t, 0), 2);
    assert_eq!(string_arg(&t, 1), "lit");
    assert_integer_literal(child(&t, 2), 3);
    match t.params.get_param("x", 99) {
        Some(ParamValue::Generator(g)) => assert_integer_literal(g, 4),
        other => panic!("{:?}", other),
    }
}

#[test]
fn nesting_limit_is_256() {
    let mut t = tokenizer("");
    for _ in 0..256 {
        t.push_reader(ResumableChars::new(String::new())).unwrap();
    }
    let e = t.push_reader(ResumableChars::new(String::new())).unwrap_err();
    assert_eq!(e.kind, ErrorKind::TooManyRecursions(256));
}

#[test]
fn bracketed_expression() {
    let t = parse_rel("(2.5)");
    assert_eq!(t.kind, FactoryKind::Param);
    let t = parse_rel("(a + b) * c");
    assert_eq!(t.kind, FactoryKind::Mul);
    assert_eq!(child(&t, 0).kind, FactoryKind::Add);
}
