use linda::parser::{
    parse, parse_command, parse_request, ParseError, ERROR_PARSING_TUPLE, NO_CLOSING_PARENTHESIS,
    NO_OPENING_PARENTHESIS,
};
use linda::tuple::{ComparisonOperator, Request, Tuple, Value};
use linda::utils::Command;

fn float_bits(text: &str) -> u64 {
    text.parse::<f64>().unwrap().to_bits()
}

fn parse_ok(input: &str) -> Tuple<Value> {
    parse(input, float_bits).unwrap()
}

fn parse_err(input: &str) -> ParseError {
    parse(input, float_bits).err().unwrap()
}

fn request(input: &str) -> Tuple<Request> {
    parse_request(input, float_bits).unwrap()
}

fn float(f: f64) -> Value {
    Value::float(f.to_bits())
}

#[test]
fn test_integer() {
    let result = parse_ok("(1)");
    assert_eq!(result.0[0], Value::integer(1));

    let result = parse_ok("(+2)");
    assert_eq!(result.0[0], Value::integer(2));

    let result = parse_ok("(-3)");
    assert_eq!(result.0[0], Value::integer(-3));
}

#[test]
fn test_float() {
    let result = parse_ok("(2.5)");
    assert_eq!(result.0[0], float(2.5));

    let result = parse_ok("(+.3)");
    assert_eq!(result.0[0], float(0.3));

    let result = parse_ok("(-4.)");
    assert_eq!(result.0[0], float(-4.0));
}

#[test]
fn test_string() {
    let result = parse_ok("(\"test\")");
    assert_eq!(result.0[0], Value::string(String::from("test")));

    let result = parse_ok("(\"te\\\"st\")");
    assert_eq!(result.0[0], Value::string(String::from("te\"st")));
}

#[test]
fn test_multiple() {
    let result = parse_ok("(+1, -3.14, \"test\", )");
    assert_eq!(result.0[0], Value::integer(1));
    assert_eq!(result.0[1], float(-3.14));
    assert_eq!(result.0[2], Value::string(String::from("test")));
}

#[test]
fn test_err() {
    let result = parse_err("1");
    assert_eq!(result.message(), NO_OPENING_PARENTHESIS);

    let result = parse_err("(1");
    assert_eq!(result.message(), NO_CLOSING_PARENTHESIS);

    let result = parse_err("(+-1)");
    assert_eq!(result.message(), ERROR_PARSING_TUPLE);
}

fn check_request(request: &Request, value: Value, op: ComparisonOperator) {
    assert_eq!(*request, Request::new(value, op));
}

#[test]
fn test_request() {
    let result = request("(int: 1, float: >= 3.0, string: *, int: != 2, float: <= 3.14, string: < \"abc\", int: > 15, )");

    assert_eq!(result.0.len(), 7);
    check_request(&result.0[0], Value::integer(1), ComparisonOperator::EQ);
    check_request(&result.0[1], float(3.0), ComparisonOperator::GE);
    check_request(&result.0[2], Value::String(None), ComparisonOperator::ANY);
    check_request(&result.0[3], Value::integer(2), ComparisonOperator::NEQ);
    check_request(&result.0[4], float(3.14), ComparisonOperator::LE);
    check_request(
        &result.0[5],
        Value::string(String::from("abc")),
        ComparisonOperator::LT,
    );
    check_request(&result.0[6], Value::integer(15), ComparisonOperator::GT);
}

#[test]
fn full_tuple_values() {
    let result = parse_ok("  ( 7 ,\"a b\",.5 )");
    assert_eq!(
        result,
        Tuple(vec![Value::integer(7), Value::string(String::from("a b")), float(0.5)])
    );
    assert_eq!(parse_ok("()"), Tuple(vec![]));
    assert_eq!(parse_ok("(-2147483648)").0[0], Value::integer(i32::MIN));
    assert_eq!(parse_err("(2147483648)"), ParseError::ParsingValues);
    assert_eq!(parse_err("(1 2)"), ParseError::ParsingValues);
    assert_eq!(parse_err("(\"open"), ParseError::ParsingValues);
    assert_eq!(parse_err(""), ParseError::NoOpeningParenthesis);
    assert_eq!(parse_err("(x)"), ParseError::ParsingValues);
}

#[test]
fn pattern_details() {
    let result = request("(INT: = 4, Float:*, string: == \"q\")");
    check_request(&result.0[0], Value::integer(4), ComparisonOperator::EQ);
    check_request(&result.0[1], Value::Float(None), ComparisonOperator::ANY);
    check_request(&result.0[2], Value::string(String::from("q")), ComparisonOperator::EQ);
    assert_eq!(
        parse_request("(int: \"1\")", float_bits).err(),
        Some(ParseError::ParsingValues)
    );
    assert_eq!(
        parse_request("(char: 1)", float_bits).err(),
        Some(ParseError::ParsingValues)
    );
    assert_eq!(
        parse_request("(int: ! 1)", float_bits).err(),
        Some(ParseError::ParsingValues)
    );
    assert_eq!(
        parse_request("int: 1", float_bits).err(),
        Some(ParseError::NoOpeningParenthesis)
    );
    assert_eq!(
        parse_request("(int: 1", float_bits).err(),
        Some(ParseError::NoClosingParenthesis)
    );
}

#[test]
fn command_lines() {
    assert_eq!(
        parse_command("out (1, \"x\")", float_bits).unwrap(),
        Command::Out(Tuple(vec![Value::integer(1), Value::string(String::from("x"))]))
    );
    assert_eq!(
        parse_command("in (int: == 42) 5", float_bits).unwrap(),
        Command::In(
            Tuple(vec![Request::new(Value::integer(42), ComparisonOperator::EQ)]),
            5
        )
    );
    assert_eq!(
        parse_command("rd(int: *) 12 ", float_bits).unwrap(),
        Command::Rd(Tuple(vec![Request::new(Value::Int(None), ComparisonOperator::ANY)]), 12)
    );
    assert_eq!(
        parse_command("inp (string: *)", float_bits).unwrap(),
        Command::Inp(Tuple(vec![Request::new(Value::String(None), ComparisonOperator::ANY)]))
    );
    assert_eq!(
        parse_command("RDP (float: < 1.5)", float_bits).unwrap(),
        Command::Rdp(Tuple(vec![Request::new(float(1.5), ComparisonOperator::LT)]))
    );
    assert_eq!(parse_command("help", float_bits).unwrap(), Command::Help);
    assert_eq!(parse_command("  exit \n", float_bits).unwrap(), Command::Exit);
    assert_eq!(parse_command("jump (1)", float_bits).err(), Some(ParseError::UnknownCommand));
    assert_eq!(parse_command("in (int: 1)", float_bits).err(), Some(ParseError::BadTimeout));
    assert_eq!(
        parse_command("in (int: 1) 4294967296", float_bits).err(),
        Some(ParseError::BadTimeout)
    );
    assert_eq!(parse_command("out (1) x", float_bits).err(), Some(ParseError::ParsingValues));
    assert_eq!(parse_command("out 1", float_bits).err(), Some(ParseError::NoOpeningParenthesis));
}
