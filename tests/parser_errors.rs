use mir::ast::{Instruction, Type, Value};
use mir::lexer::{keyword, lex, Tok};
use mir::parser::{parse, ParserError};

#[test]
fn invalid_token() {
    let e = parse("{ FOO }").unwrap_err();
    assert_eq!(e, ParserError::InvalidToken { location: 2 });
    assert_eq!(e.to_string(), "Invalid token at 2");
    assert_eq!(parse("{ add }").unwrap_err().to_string(), "Invalid token at 2");
    assert_eq!(parse("{ # }").unwrap_err().to_string(), "Invalid token at 2");
}

#[test]
fn unexpected_end() {
    assert_eq!(
        parse("{ ADD").unwrap_err().to_string(),
        "Unrecognized EOF found at 5\nExpected one of \";\" or \"}\""
    );
    assert_eq!(
        parse("{ DROP").unwrap_err().to_string(),
        "Unrecognized EOF found at 6\nExpected one of \";\", \"}\" or a natural number"
    );
    assert_eq!(parse("").unwrap_err().to_string(), "Unrecognized EOF found at 0\nExpected one of \"{\"");
}

#[test]
fn unexpected_tokens() {
    assert_eq!(
        parse("{ PUSH 1 }").unwrap_err().to_string(),
        "Unrecognized token `1` found at 7:8\nExpected one of \"bool\", \"int\", \"mutez\" or \"nat\""
    );
    assert_eq!(
        parse("{ PUSH int nat }").unwrap_err().to_string(),
        "Unrecognized token `nat` found at 11:14\nExpected one of \"False\", \"True\" or an integer"
    );
    assert_eq!(
        parse("{ DIP ; }").unwrap_err().to_string(),
        "Unrecognized token `;` found at 6:7\nExpected one of \"{\" or a natural number"
    );
    assert_eq!(
        parse("{ ; }").unwrap_err().to_string(),
        "Unrecognized token `;` found at 2:3\nExpected one of \"ADD\", \"DIP\", \"DROP\", \"DUP\", \"GT\", \"IF\", \"INT\", \"LOOP\", \"PUSH\", \"SWAP\" or \"}\""
    );
}

#[test]
fn extra_token() {
    let e = parse("{ } }").unwrap_err();
    assert_eq!(e.to_string(), "Extra token `}` found at 4:5");
}

#[test]
fn number_out_of_range() {
    let e = parse("{ PUSH int 170141183460469231731687303715884105728 }").unwrap_err();
    assert_eq!(e.to_string(), "integer literal out of range: 170141183460469231731687303715884105728");
    assert_eq!(
        parse("{ PUSH int -170141183460469231731687303715884105728 }"),
        Ok(vec![Instruction::Push((Type::Int, Value::NumberValue(i128::MIN)))])
    );
    assert_eq!(
        parse("{ DROP 99999999999999999999999999999999999999999 }").unwrap_err().to_string(),
        "expected a natural from 0 to 1023 inclusive, but got 99999999999999999999999999999999999999999"
    );
    assert_eq!(
        parse("{ DUP -1 }").unwrap_err().to_string(),
        "expected a natural from 0 to 1023 inclusive, but got -1"
    );
}

#[test]
fn whitespace_and_trailing_semicolon() {
    assert_eq!(parse("{ADD;}"), parse("{\n\tADD\r\n}"));
    assert_eq!(parse("{ADD;}"), Ok(vec![Instruction::Add(())]));
    assert_eq!(parse("{ DIP 0 { } ; DROP 0 }"), Ok(vec![Instruction::Dip(Some(0), vec![]), Instruction::Drop(Some(0))]));
}

#[test]
fn lexer_tokens() {
    let toks = lex("{ PUSH int -12 }".as_bytes()).unwrap();
    let kinds: Vec<Tok> = toks.iter().map(|t| t.tok).collect();
    assert_eq!(
        kinds,
        vec![Tok::LBrace, Tok::Instr(mir::ast::Prim::Push), Tok::Ty(Type::Int), Tok::Number(Some(-12)), Tok::RBrace]
    );
    assert_eq!((toks[3].start, toks[3].end), (11, 14));
    assert_eq!(keyword(&b"LOOP".to_vec()), Some(Tok::Instr(mir::ast::Prim::Loop)));
    assert_eq!(keyword(&b"True".to_vec()), Some(Tok::Boolean(true)));
    assert_eq!(keyword(&b"Loop".to_vec()), None);
}
