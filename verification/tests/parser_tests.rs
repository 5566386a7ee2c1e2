use abstract_interpreter::abstract_domains::abstract_domain::AbstractDomain;
use abstract_interpreter::abstract_domains::ext_int::Int;
use abstract_interpreter::abstract_domains::interval::{DomainBounds, Interval};
use abstract_interpreter::interpreter::Interpreter;
use abstract_interpreter::parser::ast::{
    ArithmeticCondition, ArithmeticExp, Assignment, BooleanExp, ConditionOperator, Operator,
    Position, Statement,
};
use abstract_interpreter::parser::grammar::{parse_source, ParseError, StatementParser};
use abstract_interpreter::parser::lexer::tokenize;
use abstract_interpreter::parser::tokens::{LexicalError, Token};
use abstract_interpreter::utils::{decorate_code_with_analysis, extract_vars_init};

fn full() -> DomainBounds {
    DomainBounds { m: Int::NegInf, n: Int::PosInf }
}

fn var(name: &str) -> Box<ArithmeticExp> {
    Box::new(ArithmeticExp::Variable(name.to_string()))
}

fn num(x: i64) -> Box<ArithmeticExp> {
    Box::new(ArithmeticExp::Integer(x))
}

fn bin(lhs: Box<ArithmeticExp>, operator: Operator, rhs: Box<ArithmeticExp>) -> Box<ArithmeticExp> {
    Box::new(ArithmeticExp::BinaryOperation { lhs, operator, rhs })
}

#[test]
fn tokens_of_a_loop() {
    let tokens = tokenize("assume x := [0,10]\ny := 0;\n  while x < 10 do { skip } # end\n").unwrap();
    assert_eq!(
        tokens,
        vec![
            Token::Identifier("y".to_string()),
            Token::Assign,
            Token::Integer(0),
            Token::Semicolon,
            Token::While(Position { line: 2, clm: 2 }),
            Token::Identifier("x".to_string()),
            Token::StrictlyLess,
            Token::Integer(10),
            Token::Do,
            Token::LCurlyBracket,
            Token::Skip,
            Token::RCurlyBracket,
        ]
    );
}

#[test]
fn tokens_of_symbols_and_keywords() {
    let tokens = tokenize("if then else true false ( ) + - * / = ! & _a1").unwrap();
    assert_eq!(
        tokens,
        vec![
            Token::If,
            Token::Then,
            Token::Else,
            Token::Boolean(true),
            Token::Boolean(false),
            Token::LParen,
            Token::RParen,
            Token::OperatorAdd,
            Token::OperatorSub,
            Token::OperatorMul,
            Token::OperatorDiv,
            Token::Equal,
            Token::Not,
            Token::And,
            Token::Identifier("_a1".to_string()),
        ]
    );
}

#[test]
fn lexical_errors() {
    assert_eq!(tokenize("x := 1 ? 2"), Err(LexicalError::InvalidToken));
    assert_eq!(tokenize("x : 1"), Err(LexicalError::InvalidToken));
    assert_eq!(tokenize("x := 9223372036854775808"), Err(LexicalError::InvalidInteger));
    assert_eq!(
        tokenize("x := 9223372036854775807"),
        Ok(vec![
            Token::Identifier("x".to_string()),
            Token::Assign,
            Token::Integer(i64::MAX)
        ])
    );
    assert_eq!(LexicalError::default(), LexicalError::InvalidToken);
}

#[test]
fn parses_precedence_and_association() {
    // x := 1 + 2 * y - (3 - z) / -4
    let program = parse_source("x := 1 + 2 * y - (3 - z) / -4").unwrap();
    let expected = Statement::Assignment(Assignment {
        var: "x".to_string(),
        value: bin(
            bin(num(1), Operator::Add, bin(num(2), Operator::Mul, var("y"))),
            Operator::Sub,
            bin(bin(num(3), Operator::Sub, var("z")), Operator::Div, num(-4)),
        ),
    });
    assert_eq!(program, expected);
}

#[test]
fn parses_guards_in_normal_form() {
    let program = parse_source("if !(x < y & x = 0) then skip else { skip; skip }").unwrap();
    let x_less_y = ArithmeticCondition {
        lhs: bin(var("x"), Operator::Sub, var("y")),
        operator: ConditionOperator::GreaterOrEqual,
    };
    let x_is_zero = ArithmeticCondition {
        lhs: bin(var("x"), Operator::Sub, num(0)),
        operator: ConditionOperator::NotEqual,
    };
    let expected = Statement::Conditional {
        guard: Box::new(BooleanExp::Or {
            lhs: Box::new(BooleanExp::ArithmeticCondition(x_less_y)),
            rhs: Box::new(BooleanExp::ArithmeticCondition(x_is_zero)),
        }),
        true_branch: Box::new(Statement::Skip),
        false_branch: Box::new(Statement::Composition {
            lhs: Box::new(Statement::Skip),
            rhs: Box::new(Statement::Skip),
        }),
    };
    assert_eq!(program, expected);
}

#[test]
fn parses_parenthesised_comparison() {
    let program = parse_source("while (x + 1) * 2 < 10 do x := x + 1").unwrap();
    match program {
        Statement::While { pos, guard, body: _ } => {
            assert_eq!(pos, Position { line: 0, clm: 0 });
            let expected = ArithmeticCondition {
                lhs: bin(
                    bin(bin(var("x"), Operator::Add, num(1)), Operator::Mul, num(2)),
                    Operator::Sub,
                    num(10),
                ),
                operator: ConditionOperator::StrictlyLess,
            };
            assert_eq!(*guard, BooleanExp::ArithmeticCondition(expected));
        }
        _ => panic!("not a loop"),
    }
}

#[test]
fn syntax_errors() {
    assert_eq!(parse_source("x := "), Err(ParseError::Syntax));
    assert_eq!(parse_source("x := 1;"), Err(ParseError::Syntax));
    assert_eq!(parse_source("if x then skip else skip"), Err(ParseError::Syntax));
    assert_eq!(parse_source(""), Err(ParseError::Syntax));
    assert_eq!(parse_source("x := 1 $"), Err(ParseError::Lexical(LexicalError::InvalidToken)));
    let tokens = vec![Token::Skip, Token::Skip];
    assert_eq!(StatementParser::new().parse(&tokens), Err(ParseError::Syntax));
}

#[test]
fn assumptions_of_the_first_line() {
    let source = "assume x := [0,10]; y := 42 ;z\ny := 0".to_string();
    assert_eq!(
        extract_vars_init(&source),
        vec![
            ("x".to_string(), "[0,10]".to_string()),
            ("y".to_string(), "42".to_string()),
            ("z".to_string(), "".to_string()),
        ]
    );
    assert!(extract_vars_init(&"x := 1".to_string()).is_empty());
    assert!(extract_vars_init(&"assume x := 1 # no".to_string()).is_empty());
    assert!(extract_vars_init(&"".to_string()).is_empty());
}

#[test]
fn annotated_loop_from_source() {
    let source = "assume x := [0,10]\ny := 0;\n  while x < 10 do {\n    y := y + 1;\n    x := x + 1\n  }\n".to_string();
    let program = parse_source(&source).unwrap();
    let given = extract_vars_init(&source);
    let mut interpreter = Interpreter::<Interval>::build(&program, given, full(), 0, 1000);
    assert!(interpreter.is_runnable());
    let invariants = interpreter.interpret();
    assert_eq!(invariants.len(), 2);
    assert_eq!(invariants.position(0), Position { line: 2, clm: 2 });
    let text = decorate_code_with_analysis(source.clone(), invariants, &full());
    let expected = "assume x := [0,10]\n\
y := 0;\n  # LOOP INVARIANT: { y := [0,inf] x := [0,10] }\n  while x < 10 do {\n    y := y + 1;\n    x := x + 1\n  }\n# { y := [0,inf] x := [10,10] }";
    assert_eq!(text, expected);
}

#[test]
fn annotation_without_invariants() {
    let none = abstract_interpreter::invariants::ProgramInvariants::<Interval>::new();
    let text = decorate_code_with_analysis("skip\n".to_string(), none, &full());
    assert_eq!(text, "skip\n# No invariant found");
}

#[test]
fn interval_texts() {
    assert_eq!(Interval::top().to_text(&full()), "[-inf,inf]");
    assert_eq!(Interval::from([-3, 12]).to_text(&full()), "[-3,12]");
    let bounds = DomainBounds { m: Int::Num(0), n: Int::Num(5) };
    assert_eq!(Interval::from([13, 13]).to_text(&bounds), "[5,inf]");
    assert_eq!(Interval::from([i64::MIN, i64::MAX]).to_text(&full()), "[-9223372036854775808,9223372036854775807]");
    let parsed = Interval::parse(" [ -4 , inf ] ").unwrap();
    assert_eq!((parsed.low, parsed.upper), (Int::Num(-4), Int::PosInf));
    let single = Interval::parse("42").unwrap();
    assert_eq!((single.low, single.upper), (Int::Num(42), Int::Num(42)));
    assert!(Interval::parse("[inf,3]").is_none());
    assert!(Interval::parse("[1,-inf]").is_none());
    assert!(Interval::parse("[1,2,3]").is_none());
    assert!(Interval::parse("x").is_none());
    assert!(Interval::try_from("[1,").is_err());
    assert_eq!(Interval::try_from("oops").unwrap_err().message(), "invalid conversion oops -> Interval");
}

#[test]
fn extended_integer_texts() {
    assert_eq!(Int::try_from(" inf ").unwrap(), Int::PosInf);
    assert_eq!(Int::try_from("-inf").unwrap(), Int::NegInf);
    assert_eq!(Int::try_from("+17").unwrap(), Int::Num(17));
    assert_eq!(Int::try_from("-0012").unwrap(), Int::Num(-12));
    assert_eq!(Int::try_from("-9223372036854775808").unwrap(), Int::Num(i64::MIN));
    assert!(Int::try_from("9223372036854775808").is_err());
    assert!(Int::try_from("").is_err());
    assert!(Int::try_from("-").is_err());
    assert!(Int::try_from("1 2").is_err());
    assert_eq!(Int::try_from("1x").unwrap_err().message(), "invalid conversion: 1x: String -> Int");
    assert_eq!(Int::Num(-120).to_text(), "-120");
    assert_eq!(Int::Num(0).to_text(), "0");
    assert_eq!(Int::PosInf.to_text(), "inf");
    assert_eq!(Int::NegInf.to_text(), "-inf");
}
