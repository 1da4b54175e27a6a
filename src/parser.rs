use vstd::prelude::*;
use vstd::std_specs::iter::IteratorSpec;

use crate::tuple::{ComparisonOperator, Request, RequestModel, Tuple, Value, ValueModel};
use crate::utils::Command;

verus! {

broadcast use vstd::string::group_string_axioms;

pub const NO_OPENING_PARENTHESIS: &'static str = "Tuple needs to start with opening parenthesis ('(')!";

pub const ERROR_PARSING_TUPLE: &'static str = "Encountered an error while parsing tuple values!";

pub const NO_CLOSING_PARENTHESIS: &'static str = "Tuple needs to end with closing parenthesis (')')!";

pub const UNKNOWN_COMMAND: &'static str = "Unknown command!";

pub const BAD_TIMEOUT: &'static str = "Expected a timeout in whole seconds!";

/// Why a text is not a tuple or a pattern.
#[derive(PartialEq, Eq, Structural, Debug, Clone, Copy)]
pub enum ParseError {
    /// The text does not start with `(`.
    NoOpeningParenthesis,
    /// An element is malformed, or elements are not separated by commas.
    ParsingValues,
    /// The text ends before the closing `)`.
    NoClosingParenthesis,
    /// A command line starts with no known command.
    UnknownCommand,
    /// A blocking command lacks its timeout, or the timeout is too large.
    BadTimeout,
}

impl ParseError {
    /// The message that describes the error.
    pub fn message(&self) -> (r: &'static str)
        ensures
            *self == ParseError::NoOpeningParenthesis ==> r == NO_OPENING_PARENTHESIS,
            *self == ParseError::ParsingValues ==> r == ERROR_PARSING_TUPLE,
            *self == ParseError::NoClosingParenthesis ==> r == NO_CLOSING_PARENTHESIS,
            *self == ParseError::UnknownCommand ==> r == UNKNOWN_COMMAND,
            *self == ParseError::BadTimeout ==> r == BAD_TIMEOUT,
    {
        match self {
            ParseError::NoOpeningParenthesis => NO_OPENING_PARENTHESIS,
            ParseError::ParsingValues => ERROR_PARSING_TUPLE,
            ParseError::NoClosingParenthesis => NO_CLOSING_PARENTHESIS,
            ParseError::UnknownCommand => UNKNOWN_COMMAND,
            ParseError::BadTimeout => BAD_TIMEOUT,
        }
    }
}

/// Unicode white space, as `char::is_whitespace` has it.
pub open spec fn is_ws(c: char) -> bool {
    let u = c as u32;
    (9 <= u <= 13) || u == 32 || u == 0x85 || u == 0xa0 || u == 0x1680 || (0x2000 <= u <= 0x200a)
        || u == 0x2028 || u == 0x2029 || u == 0x202f || u == 0x205f || u == 0x3000
}

pub open spec fn is_digit(c: char) -> bool {
    '0' <= c <= '9'
}

/// The first position at or after `i` that is not white space.
pub open spec fn skip_ws(s: Seq<char>, i: int) -> int
    decreases s.len() - i,
{
    if 0 <= i < s.len() && is_ws(s[i]) {
        skip_ws(s, i + 1)
    } else {
        i
    }
}

/// The end of the run of decimal digits that starts at `i`.
pub open spec fn digits_end(s: Seq<char>, i: int) -> int
    decreases s.len() - i,
{
    if 0 <= i < s.len() && is_digit(s[i]) {
        digits_end(s, i + 1)
    } else {
        i
    }
}

/// The number that a run of decimal digits spells.
pub open spec fn digits_value(d: Seq<char>) -> nat
    decreases d.len(),
{
    if d.len() == 0 {
        0
    } else {
        digits_value(d.drop_last()) * 10 + (d.last() as nat - '0' as nat) as nat
    }
}

/// A literal as the text spells it: a float is kept as its decimal text.
pub enum Literal {
    Int(i32),
    Float(Seq<char>),
    Str(Seq<char>),
}

/// The body of a string literal from `k` on, after the opening quote, with
/// `acc` read so far: a quote right after a backslash stands for a quote,
/// and another quote ends the literal. Gives the text and the position after
/// the closing quote.
pub open spec fn lex_string(s: Seq<char>, k: int, acc: Seq<char>) -> Option<(Seq<char>, int)>
    decreases s.len() - k,
{
    if k < 0 || k >= s.len() {
        None
    } else if s[k] == '"' {
        if acc.len() > 0 && acc.last() == '\\' {
            lex_string(s, k + 1, acc.drop_last().push('"'))
        } else {
            Some((acc, k + 1))
        }
    } else {
        lex_string(s, k + 1, acc.push(s[k]))
    }
}

/// The decimal text handed to the float converter: an optional minus sign,
/// the integer digits, a point and the fraction digits, with `0` for a part
/// that has no digits.
pub open spec fn float_text(negative: bool, int_part: Seq<char>, frac_part: Seq<char>) -> Seq<
    char,
> {
    (if negative {
        seq!['-']
    } else {
        Seq::empty()
    }) + (if int_part.len() == 0 {
        seq!['0']
    } else {
        int_part
    }) + seq!['.'] + (if frac_part.len() == 0 {
        seq!['0']
    } else {
        frac_part
    })
}

/// A number literal at `i`: an optional sign, digits, and, for a float, a point
/// and more digits (either run may be empty for a float). An integer must fit
/// an `i32`.
pub open spec fn lex_number(s: Seq<char>, i: int) -> Option<(Literal, int)> {
    let negative = s[i] == '-';
    let a = if s[i] == '-' || s[i] == '+' {
        i + 1
    } else {
        i
    };
    let b = digits_end(s, a);
    let d1 = s.subrange(a, b);
    if b < s.len() && s[b] == '.' {
        let e = digits_end(s, b + 1);
        Some((Literal::Float(float_text(negative, d1, s.subrange(b + 1, e))), e))
    } else if d1.len() == 0 {
        None
    } else {
        let m = digits_value(d1) as int;
        if negative && m <= 0x8000_0000 {
            Some((Literal::Int((-m) as i32), b))
        } else if !negative && m < 0x8000_0000 {
            Some((Literal::Int(m as i32), b))
        } else {
            None
        }
    }
}

/// A literal at `i`: a string, or a number.
pub open spec fn lex_value(s: Seq<char>, i: int) -> Option<(Literal, int)> {
    if i < 0 || i >= s.len() {
        None
    } else if s[i] == '"' {
        match lex_string(s, i + 1, Seq::empty()) {
            Some((t, k)) => Some((Literal::Str(t), k)),
            None => None,
        }
    } else if is_digit(s[i]) || s[i] == '+' || s[i] == '-' || s[i] == '.' {
        lex_number(s, i)
    } else {
        None
    }
}

/// The elements from `i` on, after `acc` was read: white space, then `)`, or
/// an element followed by `,` or `)`.
pub open spec fn values_from(s: Seq<char>, i: int, acc: Seq<Literal>) -> Result<
    (Seq<Literal>, int),
    ParseError,
>
    decreases s.len() - i,
{
    let j = skip_ws(s, i);
    if j < i || j >= s.len() {
        Err(ParseError::NoClosingParenthesis)
    } else if s[j] == ')' {
        Ok((acc, j + 1))
    } else {
        match lex_value(s, j) {
            None => Err(ParseError::ParsingValues),
            Some((lit, k)) => {
                let k2 = skip_ws(s, k);
                if k2 <= j || k2 >= s.len() {
                    Err(ParseError::NoClosingParenthesis)
                } else if s[k2] == ',' {
                    values_from(s, k2 + 1, acc.push(lit))
                } else if s[k2] == ')' {
                    Ok((acc.push(lit), k2 + 1))
                } else {
                    Err(ParseError::ParsingValues)
                }
            },
        }
    }
}

/// A tuple text from `i` on: `(`, then the elements; gives the literals and
/// the position after the closing `)`.
pub open spec fn tuple_at(s: Seq<char>, i: int) -> Result<(Seq<Literal>, int), ParseError> {
    let j = skip_ws(s, i);
    if 0 <= j < s.len() && s[j] == '(' {
        values_from(s, j + 1, Seq::empty())
    } else {
        Err(ParseError::NoOpeningParenthesis)
    }
}

/// The literals of a tuple text (what follows its closing `)` is not read).
pub open spec fn tuple_literals(s: Seq<char>) -> Result<Seq<Literal>, ParseError> {
    match tuple_at(s, 0) {
        Ok((lits, _)) => Ok(lits),
        Err(e) => Err(e),
    }
}

/// Whether the character `c` is the lower-case ASCII letter `w` in either case.
pub open spec fn folds_to(c: char, w: char) -> bool {
    c == w || ('A' <= c <= 'Z' && c as u32 + 32 == w as u32)
}

/// Whether `name` spells the lower-case `word`, ignoring ASCII case.
pub open spec fn spells(name: Seq<char>, word: Seq<char>) -> bool {
    name.len() == word.len() && forall|i: int| 0 <= i < name.len() ==> folds_to(#[trigger] name[i], word[i])
}

/// The type placeholder that a type name stands for.
pub open spec fn type_of_name(name: Seq<char>) -> Option<ValueModel> {
    if spells(name, seq!['i', 'n', 't']) {
        Some(ValueModel::Int(None))
    } else if spells(name, seq!['f', 'l', 'o', 'a', 't']) {
        Some(ValueModel::Float(None))
    } else if spells(name, seq!['s', 't', 'r', 'i', 'n', 'g']) {
        Some(ValueModel::Str(None))
    } else {
        None
    }
}

/// The end of the run of characters from `i` that are neither white space nor `:`.
pub open spec fn name_end(s: Seq<char>, i: int) -> int
    decreases s.len() - i,
{
    if 0 <= i < s.len() && !is_ws(s[i]) && s[i] != ':' {
        name_end(s, i + 1)
    } else {
        i
    }
}

/// A type name at `i`, then `:`: gives the type's placeholder and the position
/// after the colon.
pub open spec fn lex_type(s: Seq<char>, i: int) -> Option<(ValueModel, int)> {
    let e = name_end(s, i);
    let j = skip_ws(s, e);
    if 0 <= j < s.len() && s[j] == ':' {
        match type_of_name(s.subrange(i, e)) {
            Some(t) => Some((t, j + 1)),
            None => None,
        }
    } else {
        None
    }
}

/// An operator after white space from `i` on; with none of `= == != < <= > >= *`
/// there, the operator is `EQ` and nothing is read.
pub open spec fn lex_op(s: Seq<char>, i: int) -> Option<(ComparisonOperator, int)> {
    let j = skip_ws(s, i);
    if j < 0 || j >= s.len() {
        Some((ComparisonOperator::EQ, j))
    } else {
        let c = s[j];
        let eq_next = j + 1 < s.len() && s[j + 1] == '=';
        if c == '=' {
            Some((
                ComparisonOperator::EQ,
                if eq_next {
                    j + 2
                } else {
                    j + 1
                },
            ))
        } else if c == '!' {
            if eq_next {
                Some((ComparisonOperator::NEQ, j + 2))
            } else {
                None
            }
        } else if c == '<' {
            if eq_next {
                Some((ComparisonOperator::LE, j + 2))
            } else {
                Some((ComparisonOperator::LT, j + 1))
            }
        } else if c == '>' {
            if eq_next {
                Some((ComparisonOperator::GE, j + 2))
            } else {
                Some((ComparisonOperator::GT, j + 1))
            }
        } else if c == '*' {
            Some((ComparisonOperator::ANY, j + 1))
        } else {
            Some((ComparisonOperator::EQ, j))
        }
    }
}

/// Whether a literal has the type of a placeholder.
pub open spec fn literal_has_type(lit: Literal, t: ValueModel) -> bool {
    match (lit, t) {
        (Literal::Int(_), ValueModel::Int(_)) => true,
        (Literal::Float(_), ValueModel::Float(_)) => true,
        (Literal::Str(_), ValueModel::Str(_)) => true,
        _ => false,
    }
}

/// A pattern element as the text spells it: the declared type, the operator,
/// and the operand, which `ANY` does without.
pub struct RequestLiteral {
    pub declared: ValueModel,
    pub op: ComparisonOperator,
    pub operand: Option<Literal>,
}

/// A pattern element at `i`: `type: op operand`, the operand of the declared type.
pub open spec fn lex_request(s: Seq<char>, i: int) -> Option<(RequestLiteral, int)> {
    match lex_type(s, i) {
        None => None,
        Some((t, k)) => match lex_op(s, k) {
            None => None,
            Some((op, k2)) => if op == ComparisonOperator::ANY {
                Some((RequestLiteral { declared: t, op, operand: None }, k2))
            } else {
                match lex_value(s, skip_ws(s, k2)) {
                    Some((lit, e)) => if literal_has_type(lit, t) {
                        Some((RequestLiteral { declared: t, op, operand: Some(lit) }, e))
                    } else {
                        None
                    },
                    None => None,
                }
            },
        },
    }
}

/// The pattern elements from `i` on, after `acc` was read.
pub open spec fn requests_from(s: Seq<char>, i: int, acc: Seq<RequestLiteral>) -> Result<
    (Seq<RequestLiteral>, int),
    ParseError,
>
    decreases s.len() - i,
{
    let j = skip_ws(s, i);
    if j < i || j >= s.len() {
        Err(ParseError::NoClosingParenthesis)
    } else if s[j] == ')' {
        Ok((acc, j + 1))
    } else {
        match lex_request(s, j) {
            None => Err(ParseError::ParsingValues),
            Some((lit, k)) => {
                let k2 = skip_ws(s, k);
                if k2 <= j || k2 >= s.len() {
                    Err(ParseError::NoClosingParenthesis)
                } else if s[k2] == ',' {
                    requests_from(s, k2 + 1, acc.push(lit))
                } else if s[k2] == ')' {
                    Ok((acc.push(lit), k2 + 1))
                } else {
                    Err(ParseError::ParsingValues)
                }
            },
        }
    }
}

/// A pattern text from `i` on: `(`, then the elements; gives the elements and
/// the position after the closing `)`.
pub open spec fn pattern_at(s: Seq<char>, i: int) -> Result<(Seq<RequestLiteral>, int), ParseError> {
    let j = skip_ws(s, i);
    if 0 <= j < s.len() && s[j] == '(' {
        requests_from(s, j + 1, Seq::empty())
    } else {
        Err(ParseError::NoOpeningParenthesis)
    }
}

/// The elements of a pattern text (what follows its closing `)` is not read).
pub open spec fn request_literals(s: Seq<char>) -> Result<Seq<RequestLiteral>, ParseError> {
    match pattern_at(s, 0) {
        Ok((lits, _)) => Ok(lits),
        Err(e) => Err(e),
    }
}

/// The end of the command word that starts at `i`: the characters up to white
/// space or `(`.
pub open spec fn word_end(s: Seq<char>, i: int) -> int
    decreases s.len() - i,
{
    if 0 <= i < s.len() && !is_ws(s[i]) && s[i] != '(' {
        word_end(s, i + 1)
    } else {
        i
    }
}

/// A command line as the text spells it.
pub enum CommandSyntax {
    Out(Seq<Literal>),
    In(Seq<RequestLiteral>, nat),
    Rd(Seq<RequestLiteral>, nat),
    Inp(Seq<RequestLiteral>),
    Rdp(Seq<RequestLiteral>),
    Help,
    Exit,
}

/// A timeout from `i` on, after white space: decimal digits, below `2^32`.
/// Gives the seconds and the position after the digits.
pub open spec fn timeout_at(s: Seq<char>, i: int) -> Result<(nat, int), ParseError> {
    let t0 = skip_ws(s, i);
    let t1 = digits_end(s, t0);
    let v = digits_value(s.subrange(t0, t1));
    if t1 == t0 || v >= 0x1_0000_0000 {
        Err(ParseError::BadTimeout)
    } else {
        Ok((v, t1))
    }
}

/// A command and the position after it.
pub open spec fn command_at(s: Seq<char>) -> Result<(CommandSyntax, int), ParseError> {
    let i = skip_ws(s, 0);
    let e = word_end(s, i);
    let w = s.subrange(i, e);
    if spells(w, seq!['h', 'e', 'l', 'p']) {
        Ok((CommandSyntax::Help, e))
    } else if spells(w, seq!['e', 'x', 'i', 't']) {
        Ok((CommandSyntax::Exit, e))
    } else if spells(w, seq!['o', 'u', 't']) {
        match tuple_at(s, e) {
            Ok((l, k)) => Ok((CommandSyntax::Out(l), k)),
            Err(x) => Err(x),
        }
    } else if spells(w, seq!['i', 'n', 'p']) {
        match pattern_at(s, e) {
            Ok((l, k)) => Ok((CommandSyntax::Inp(l), k)),
            Err(x) => Err(x),
        }
    } else if spells(w, seq!['r', 'd', 'p']) {
        match pattern_at(s, e) {
            Ok((l, k)) => Ok((CommandSyntax::Rdp(l), k)),
            Err(x) => Err(x),
        }
    } else if spells(w, seq!['i', 'n']) || spells(w, seq!['r', 'd']) {
        match pattern_at(s, e) {
            Ok((l, k)) => match timeout_at(s, k) {
                Ok((t, k2)) => Ok((
                    if spells(w, seq!['i', 'n']) {
                        CommandSyntax::In(l, t)
                    } else {
                        CommandSyntax::Rd(l, t)
                    },
                    k2,
                )),
                Err(x) => Err(x),
            },
            Err(x) => Err(x),
        }
    } else {
        Err(ParseError::UnknownCommand)
    }
}

/// A command line: a command, then nothing but white space.
pub open spec fn command_syntax(s: Seq<char>) -> Result<CommandSyntax, ParseError> {
    match command_at(s) {
        Ok((c, k)) => if skip_ws(s, k) == s.len() {
            Ok(c)
        } else {
            Err(ParseError::ParsingValues)
        },
        Err(x) => Err(x),
    }
}

/// Whether the command `c` is what the syntax `cs` denotes, with floats
/// converted by `f`.
pub open spec fn command_gives<F: Fn(&str) -> u64>(cs: CommandSyntax, c: Command, f: F) -> bool {
    match (cs, c) {
        (CommandSyntax::Out(l), Command::Out(t)) => literals_give(l, t@, f),
        (CommandSyntax::In(l, n), Command::In(t, secs)) => requests_give(l, t@, f) && secs == n,
        (CommandSyntax::Rd(l, n), Command::Rd(t, secs)) => requests_give(l, t@, f) && secs == n,
        (CommandSyntax::Inp(l), Command::Inp(t)) => requests_give(l, t@, f),
        (CommandSyntax::Rdp(l), Command::Rdp(t)) => requests_give(l, t@, f),
        (CommandSyntax::Help, Command::Help) => true,
        (CommandSyntax::Exit, Command::Exit) => true,
        _ => false,
    }
}

/// Whether `b` is a bit pattern that the converter `f` may give for `text`.
pub open spec fn converts<F: Fn(&str) -> u64>(f: F, text: Seq<char>, b: u64) -> bool {
    exists|t: &str| t@ == text && #[trigger] f.ensures((t,), b)
}

/// Whether the value `v` is what the literal `lit` denotes, with floats
/// converted by `f`.
pub open spec fn literal_gives<F: Fn(&str) -> u64>(lit: Literal, v: ValueModel, f: F) -> bool {
    match lit {
        Literal::Int(n) => v == ValueModel::Int(Some(n)),
        Literal::Str(t) => v == ValueModel::Str(Some(t)),
        Literal::Float(text) => v is Float && v->Float_0 is Some && converts(
            f,
            text,
            v->Float_0->0,
        ),
    }
}

/// Whether the values `vals` are what the literals `lits` denote, one for one.
pub open spec fn literals_give<F: Fn(&str) -> u64>(
    lits: Seq<Literal>,
    vals: Seq<ValueModel>,
    f: F,
) -> bool {
    lits.len() == vals.len() && forall|i: int|
        0 <= i < lits.len() ==> literal_gives(#[trigger] lits[i], vals[i], f)
}

/// Whether the request `r` is what the element `rl` denotes, with floats
/// converted by `f`.
pub open spec fn request_gives<F: Fn(&str) -> u64>(rl: RequestLiteral, r: RequestModel, f: F) -> bool {
    r.op == rl.op && match rl.operand {
        None => r.value == rl.declared,
        Some(lit) => literal_gives(lit, r.value, f),
    }
}

/// Whether the requests `reqs` are what the elements `lits` denote, one for one.
pub open spec fn requests_give<F: Fn(&str) -> u64>(
    lits: Seq<RequestLiteral>,
    reqs: Seq<RequestModel>,
    f: F,
) -> bool {
    lits.len() == reqs.len() && forall|i: int|
        0 <= i < lits.len() ==> request_gives(#[trigger] lits[i], reqs[i], f)
}

/// `String::push`.
///
/// Relies on `String::push`: it appends the character at the end.
#[verifier::external_body]
fn push_char(s: &mut String, c: char)
    ensures
        final(s)@ == old(s)@.push(c),
{
    s.push(c);
}

/// The characters of `s`, in order.
fn chars_of(s: &str) -> (r: Vec<char>)
    ensures
        r@ == s@,
{
    let mut it = s.chars();
    let mut out: Vec<char> = Vec::new();
    loop
        invariant
            out@ + it.remaining() == s@,
        decreases s@.len() - out@.len(),
    {
        let ghost before = it.remaining();
        match it.next() {
            Some(c) => {
                out.push(c);
                assert(out@ + it.remaining() == s@) by {
                    assert(before == seq![c] + it.remaining());
                }
            },
            None => {
                assert(out@ + Seq::<char>::empty() == out@);
                return out;
            },
        }
    }
}

/// A string made of the characters `cs`.
fn string_of(cs: &Vec<char>) -> (r: String)
    ensures
        r@ == cs@,
{
    let mut out = String::new();
    let mut i: usize = 0;
    while i < cs.len()
        invariant
            0 <= i <= cs@.len(),
            out@ == cs@.take(i as int),
        decreases cs@.len() - i,
    {
        push_char(&mut out, cs[i]);
        assert(cs@.take(i + 1) == cs@.take(i as int).push(cs@[i as int]));
        i = i + 1;
    }
    assert(cs@.take(i as int) == cs@);
    out
}

fn is_whitespace(c: char) -> (r: bool)
    ensures
        r == is_ws(c),
{
    let u = c as u32;
    (9 <= u && u <= 13) || u == 32 || u == 0x85 || u == 0xa0 || u == 0x1680 || (0x2000 <= u && u
        <= 0x200a) || u == 0x2028 || u == 0x2029 || u == 0x202f || u == 0x205f || u == 0x3000
}

/// One more than the largest `i32` magnitude: digit runs are counted up to it.
const DIGITS_CAP: u64 = 0x1_0000_0000;

proof fn lemma_skip_ws_forward(s: Seq<char>, i: int)
    requires
        0 <= i,
    ensures
        i <= skip_ws(s, i),
        i <= s.len() ==> skip_ws(s, i) <= s.len(),
        skip_ws(s, i) < s.len() ==> !is_ws(s[skip_ws(s, i)]),
    decreases s.len() - i,
{
    if 0 <= i < s.len() && is_ws(s[i]) {
        lemma_skip_ws_forward(s, i + 1);
    }
}

proof fn lemma_digits_end_forward(s: Seq<char>, i: int)
    requires
        0 <= i <= s.len(),
    ensures
        i <= digits_end(s, i) <= s.len(),
        forall|k: int| i <= k < digits_end(s, i) ==> is_digit(#[trigger] s[k]),
        digits_end(s, i) < s.len() ==> !is_digit(s[digits_end(s, i)]),
    decreases s.len() - i,
{
    if i < s.len() && is_digit(s[i]) {
        lemma_digits_end_forward(s, i + 1);
    }
}

proof fn lemma_lex_string_forward(s: Seq<char>, k: int, acc: Seq<char>)
    requires
        0 <= k,
    ensures
        lex_string(s, k, acc) matches Some((_, e)) ==> k < e <= s.len(),
    decreases s.len() - k,
{
    if 0 <= k < s.len() {
        if s[k] == '"' {
            if acc.len() > 0 && acc.last() == '\\' {
                lemma_lex_string_forward(s, k + 1, acc.drop_last().push('"'));
            }
        } else {
            lemma_lex_string_forward(s, k + 1, acc.push(s[k]));
        }
    }
}

proof fn lemma_lex_value_forward(s: Seq<char>, i: int)
    requires
        0 <= i,
    ensures
        lex_value(s, i) matches Some((_, e)) ==> i < e <= s.len(),
{
    if 0 <= i < s.len() {
        if s[i] == '"' {
            lemma_lex_string_forward(s, i + 1, Seq::empty());
        } else if is_digit(s[i]) || s[i] == '+' || s[i] == '-' || s[i] == '.' {
            let a = if s[i] == '-' || s[i] == '+' {
                i + 1
            } else {
                i
            };
            lemma_digits_end_forward(s, a);
            let b = digits_end(s, a);
            if b < s.len() && s[b] == '.' {
                lemma_digits_end_forward(s, b + 1);
            }
        }
    }
}

proof fn lemma_digits_step(s: Seq<char>, a: int, b: int)
    requires
        0 <= a < b <= s.len(),
    ensures
        digits_value(s.subrange(a, b)) == digits_value(s.subrange(a, b - 1)) * 10 + (s[b - 1] as nat
            - '0' as nat) as nat,
{
    let q = s.subrange(a, b);
    assert(q.drop_last() =~= s.subrange(a, b - 1));
    assert(q.last() == s[b - 1]);
}

proof fn lemma_name_end_forward(s: Seq<char>, i: int)
    requires
        0 <= i <= s.len(),
    ensures
        i <= name_end(s, i) <= s.len(),
    decreases s.len() - i,
{
    if i < s.len() && !is_ws(s[i]) && s[i] != ':' {
        lemma_name_end_forward(s, i + 1);
    }
}

proof fn lemma_lex_request_forward(s: Seq<char>, i: int)
    requires
        0 <= i <= s.len(),
    ensures
        lex_request(s, i) matches Some((_, e)) ==> i < e <= s.len(),
{
    lemma_name_end_forward(s, i);
    let e = name_end(s, i);
    lemma_skip_ws_forward(s, e);
    let j = skip_ws(s, e);
    if 0 <= j < s.len() && s[j] == ':' {
        let k = j + 1;
        lemma_skip_ws_forward(s, k);
        let k1 = skip_ws(s, k);
        if let Some((op, k2)) = lex_op(s, k) {
            if op != ComparisonOperator::ANY {
                lemma_skip_ws_forward(s, k2);
                lemma_lex_value_forward(s, skip_ws(s, k2));
            }
        }
    }
}

/// A cursor over the characters of a text.
struct Parser {
    chars: Vec<char>,
    pos: usize,
}

impl Parser {
    fn new(s: &str) -> (r: Parser)
        ensures
            r.chars@ == s@,
            r.pos == 0,
    {
        Parser { chars: chars_of(s), pos: 0 }
    }

    /// Moves one character on.
    fn next(&mut self)
        requires
            old(self).pos < old(self).chars@.len(),
        ensures
            final(self).chars == old(self).chars,
            final(self).pos == old(self).pos + 1,
    {
        if self.pos < self.chars.len() {
            self.pos = self.pos + 1;
        }
    }

    /// The character under the cursor, if any.
    fn curr(&self) -> (r: Option<char>)
        ensures
            self.pos < self.chars@.len() ==> r == Some(self.chars@[self.pos as int]),
            self.pos >= self.chars@.len() ==> r is None,
    {
        if self.pos < self.chars.len() {
            Some(self.chars[self.pos])
        } else {
            None
        }
    }

    fn skip_ws(&mut self)
        requires
            old(self).pos <= old(self).chars@.len(),
        ensures
            final(self).chars == old(self).chars,
            final(self).pos == skip_ws(old(self).chars@, old(self).pos as int),
            final(self).pos <= final(self).chars@.len(),
    {
        let ghost start = self.pos as int;
        proof {
            lemma_skip_ws_forward(self.chars@, start);
        }
        while self.pos < self.chars.len() && is_whitespace(self.chars[self.pos])
            invariant
                self.chars == old(self).chars,
                start <= self.pos <= self.chars@.len(),
                skip_ws(self.chars@, self.pos as int) == skip_ws(self.chars@, start),
            decreases self.chars@.len() - self.pos,
        {
            self.next();
        }
    }

    /// Skips white space; then takes `c` if it is under the cursor.
    fn check(&mut self, c: char) -> (r: bool)
        requires
            old(self).pos <= old(self).chars@.len(),
        ensures
            final(self).chars == old(self).chars,
            ({
                let j = skip_ws(old(self).chars@, old(self).pos as int);
                let hit = j < old(self).chars@.len() && old(self).chars@[j] == c;
                r == hit && final(self).pos == (if hit {
                    j + 1
                } else {
                    j
                })
            }),
    {
        self.skip_ws();
        if self.pos < self.chars.len() && self.chars[self.pos] == c {
            self.next();
            true
        } else {
            false
        }
    }

    /// Reads a run of decimal digits; gives its value, counted up to [`DIGITS_CAP`].
    fn number(&mut self) -> (r: u64)
        requires
            old(self).pos <= old(self).chars@.len(),
        ensures
            final(self).chars == old(self).chars,
            final(self).pos == digits_end(old(self).chars@, old(self).pos as int),
            ({
                let v = digits_value(
                    old(self).chars@.subrange(old(self).pos as int, final(self).pos as int),
                );
                r == (if v < DIGITS_CAP {
                    v
                } else {
                    DIGITS_CAP as nat
                })
            }),
    {
        let ghost s = self.chars@;
        let ghost start = self.pos as int;
        proof {
            lemma_digits_end_forward(s, start);
        }
        let mut result: u64 = 0;
        assert(s.subrange(start, start) == Seq::<char>::empty());
        while self.pos < self.chars.len() && '0' <= self.chars[self.pos] && self.chars[self.pos]
            <= '9'
            invariant
                self.chars == old(self).chars,
                s == self.chars@,
                0 <= start <= self.pos <= s.len(),
                digits_end(s, self.pos as int) == digits_end(s, start),
                ({
                    let v = digits_value(s.subrange(start, self.pos as int));
                    result == (if v < DIGITS_CAP {
                        v
                    } else {
                        DIGITS_CAP as nat
                    })
                }),
            decreases s.len() - self.pos,
        {
            let c = self.chars[self.pos];
            let d = (c as u32 - '0' as u32) as u64;
            proof {
                lemma_digits_step(s, start, self.pos + 1);
            }
            if result >= DIGITS_CAP {
                result = DIGITS_CAP;
            } else {
                result = result * 10 + d;
                if result > DIGITS_CAP {
                    result = DIGITS_CAP;
                }
            }
            self.next();
        }
        result
    }

    /// A string literal; the cursor is on its opening quote.
    fn string(&mut self) -> (r: Option<String>)
        requires
            old(self).pos < old(self).chars@.len(),
        ensures
            final(self).chars == old(self).chars,
            final(self).pos <= final(self).chars@.len(),
            match lex_string(old(self).chars@, old(self).pos + 1, Seq::empty()) {
                Some((t, e)) => r matches Some(x) && x@ == t && final(self).pos == e,
                None => r is None,
            },
    {
        let ghost s = self.chars@;
        let ghost goal = lex_string(s, self.pos + 1, Seq::empty());
        let mut result: Vec<char> = Vec::new();
        self.next();
        while self.pos < self.chars.len()
            invariant
                self.chars == old(self).chars,
                s == self.chars@,
                self.pos <= s.len(),
                lex_string(s, self.pos as int, result@) == goal,
                goal == lex_string(old(self).chars@, old(self).pos + 1, Seq::empty()),
            decreases s.len() - self.pos,
        {
            let c = self.chars[self.pos];
            if c == '"' {
                let n = result.len();
                if n > 0 && result[n - 1] == '\\' {
                    result.pop();
                    result.push('"');
                } else {
                    self.next();
                    let text = string_of(&result);
                    assert(lex_string(s, self.pos - 1, result@) == Some((result@, self.pos as int)));
                    return Some(text);
                }
            } else {
                result.push(c);
            }
            self.next();
        }
        None
    }

    /// A literal under the cursor, with floats converted by `float_bits`.
    fn value<F: Fn(&str) -> u64>(&mut self, float_bits: &F) -> (r: Option<Value>)
        requires
            old(self).pos <= old(self).chars@.len(),
            forall|t: &str| float_bits.requires((t,)),
        ensures
            final(self).chars == old(self).chars,
            final(self).pos <= final(self).chars@.len(),
            match lex_value(old(self).chars@, old(self).pos as int) {
                Some((lit, e)) => r matches Some(v) && literal_gives(lit, v@, *float_bits)
                    && final(self).pos == e,
                None => r is None,
            },
    {
        let ghost s = self.chars@;
        let ghost i = self.pos as int;
        let c = match self.curr() {
            Some(c) => c,
            None => return None,
        };
        if c == '"' {
            return match self.string() {
                Some(t) => Some(Value::String(Some(t))),
                None => None,
            };
        }
        if !(('0' <= c && c <= '9') || c == '+' || c == '-' || c == '.') {
            return None;
        }
        let negative = c == '-';
        if c == '-' || c == '+' {
            self.next();
        }
        let a = self.pos;
        let magnitude = self.number();
        let b = self.pos;
        proof {
            lemma_digits_end_forward(s, a as int);
        }
        if b < self.chars.len() && self.chars[b] == '.' {
            self.next();
            let c0 = self.pos;
            let _fraction = self.number();
            let e = self.pos;
            proof {
                lemma_digits_end_forward(s, c0 as int);
            }
            let mut text: Vec<char> = Vec::new();
            if negative {
                text.push('-');
            }
            if a == b {
                text.push('0');
            } else {
                let mut k = a;
                while k < b
                    invariant
                        a <= k <= b <= s.len(),
                        s == self.chars@,
                        text@ == (if negative {
                            seq!['-']
                        } else {
                            Seq::empty()
                        }) + s.subrange(a as int, k as int),
                    decreases b - k,
                {
                    text.push(self.chars[k]);
                    assert(s.subrange(a as int, k + 1) == s.subrange(a as int, k as int).push(
                        s[k as int],
                    ));
                    k = k + 1;
                }
            }
            text.push('.');
            if c0 == e {
                text.push('0');
            } else {
                let ghost prefix = text@;
                let mut k = c0;
                while k < e
                    invariant
                        c0 <= k <= e <= s.len(),
                        s == self.chars@,
                        text@ == prefix + s.subrange(c0 as int, k as int),
                    decreases e - k,
                {
                    text.push(self.chars[k]);
                    assert(s.subrange(c0 as int, k + 1) == s.subrange(c0 as int, k as int).push(
                        s[k as int],
                    ));
                    k = k + 1;
                }
            }
            let literal = string_of(&text);
            let literal_text = literal.as_str();
            let bits = float_bits(literal_text);
            proof {
                let d1 = s.subrange(a as int, b as int);
                let d2 = s.subrange(c0 as int, e as int);
                assert(text@ =~= float_text(negative, d1, d2));
                assert(literal_text@ == float_text(negative, d1, d2));
                assert(float_bits.ensures((literal_text,), bits));
            }
            return Some(Value::Float(Some(bits)));
        }
        if a == b {
            return None;
        }
        if negative && magnitude <= 0x8000_0000 {
            Some(Value::Int(Some((0 - magnitude as i64) as i32)))
        } else if !negative && magnitude < 0x8000_0000 {
            Some(Value::Int(Some(magnitude as i32)))
        } else {
            None
        }
    }

    /// Whether the characters from `a` to `b` spell the lower-case `word`,
    /// ignoring ASCII case.
    fn spells_word(&self, a: usize, b: usize, word: &Vec<char>) -> (r: bool)
        requires
            a <= b <= self.chars@.len(),
        ensures
            r == spells(self.chars@.subrange(a as int, b as int), word@),
    {
        let ghost name = self.chars@.subrange(a as int, b as int);
        if b - a != word.len() {
            return false;
        }
        let mut i: usize = 0;
        while i < word.len()
            invariant
                a <= b <= self.chars@.len(),
                name == self.chars@.subrange(a as int, b as int),
                name.len() == word@.len(),
                0 <= i <= word@.len(),
                forall|k: int| 0 <= k < i ==> folds_to(#[trigger] name[k], word@[k]),
            decreases word@.len() - i,
        {
            let c = self.chars[a + i];
            let w = word[i];
            assert(name[i as int] == c);
            if !(c == w || ('A' <= c && c <= 'Z' && c as u32 + 32 == w as u32)) {
                return false;
            }
            i = i + 1;
        }
        true
    }

    /// A type name, then `:`; gives the type's placeholder.
    fn declared_type(&mut self) -> (r: Option<Value>)
        requires
            old(self).pos <= old(self).chars@.len(),
        ensures
            final(self).chars == old(self).chars,
            final(self).pos <= final(self).chars@.len(),
            match lex_type(old(self).chars@, old(self).pos as int) {
                Some((t, e)) => r matches Some(v) && v@ == t && final(self).pos == e,
                None => r is None,
            },
    {
        let ghost s = self.chars@;
        let a = self.pos;
        proof {
            lemma_name_end_forward(s, a as int);
        }
        while self.pos < self.chars.len() && !is_whitespace(self.chars[self.pos])
            && self.chars[self.pos] != ':'
            invariant
                self.chars == old(self).chars,
                s == self.chars@,
                a <= self.pos <= s.len(),
                name_end(s, self.pos as int) == name_end(s, a as int),
            decreases s.len() - self.pos,
        {
            self.next();
        }
        let e = self.pos;
        proof {
            lemma_skip_ws_forward(s, e as int);
            assert(e as int == name_end(s, a as int));
        }
        if !self.check(':') {
            return None;
        }
        let int_word = vec!['i', 'n', 't'];
        let float_word = vec!['f', 'l', 'o', 'a', 't'];
        let string_word = vec!['s', 't', 'r', 'i', 'n', 'g'];
        assert(int_word@ == seq!['i', 'n', 't']);
        assert(float_word@ == seq!['f', 'l', 'o', 'a', 't']);
        assert(string_word@ == seq!['s', 't', 'r', 'i', 'n', 'g']);
        if self.spells_word(a, e, &int_word) {
            Some(Value::Int(None))
        } else if self.spells_word(a, e, &float_word) {
            Some(Value::Float(None))
        } else if self.spells_word(a, e, &string_word) {
            Some(Value::String(None))
        } else {
            None
        }
    }

    /// An operator, after white space; `EQ` where none is written.
    fn operator(&mut self) -> (r: Option<ComparisonOperator>)
        requires
            old(self).pos <= old(self).chars@.len(),
        ensures
            final(self).chars == old(self).chars,
            final(self).pos <= final(self).chars@.len(),
            match lex_op(old(self).chars@, old(self).pos as int) {
                Some((op, e)) => r == Some(op) && final(self).pos == e,
                None => r is None,
            },
    {
        self.skip_ws();
        let c = match self.curr() {
            Some(c) => c,
            None => return Some(ComparisonOperator::EQ),
        };
        let eq_next = self.chars.len() - self.pos > 1 && self.chars[self.pos + 1] == '=';
        if c == '=' {
            self.next();
            if eq_next {
                self.next();
            }
            Some(ComparisonOperator::EQ)
        } else if c == '!' {
            if eq_next {
                self.next();
                self.next();
                Some(ComparisonOperator::NEQ)
            } else {
                None
            }
        } else if c == '<' {
            self.next();
            if eq_next {
                self.next();
                Some(ComparisonOperator::LE)
            } else {
                Some(ComparisonOperator::LT)
            }
        } else if c == '>' {
            self.next();
            if eq_next {
                self.next();
                Some(ComparisonOperator::GE)
            } else {
                Some(ComparisonOperator::GT)
            }
        } else if c == '*' {
            self.next();
            Some(ComparisonOperator::ANY)
        } else {
            Some(ComparisonOperator::EQ)
        }
    }

    /// A pattern element: `type: op operand`.
    fn request<F: Fn(&str) -> u64>(&mut self, float_bits: &F) -> (r: Option<Request>)
        requires
            old(self).pos <= old(self).chars@.len(),
            forall|t: &str| float_bits.requires((t,)),
        ensures
            final(self).chars == old(self).chars,
            final(self).pos <= final(self).chars@.len(),
            match lex_request(old(self).chars@, old(self).pos as int) {
                Some((rl, e)) => r matches Some(q) && request_gives(rl, q@, *float_bits)
                    && final(self).pos == e,
                None => r is None,
            },
    {
        let declared = match self.declared_type() {
            Some(t) => t,
            None => return None,
        };
        let op = match self.operator() {
            Some(op) => op,
            None => return None,
        };
        if op == ComparisonOperator::ANY {
            return Some(Request::new(declared, op));
        }
        self.skip_ws();
        match self.value(float_bits) {
            Some(v) => {
                if v.is_same_type(&declared) {
                    Some(Request::new(v, op))
                } else {
                    None
                }
            },
            None => None,
        }
    }

    /// A tuple text from the cursor on; leaves the cursor after its `)`.
    fn tuple<F: Fn(&str) -> u64>(&mut self, float_bits: &F) -> (r: Result<Tuple<Value>, ParseError>)
        requires
            old(self).pos <= old(self).chars@.len(),
            forall|t: &str| float_bits.requires((t,)),
        ensures
            final(self).chars == old(self).chars,
            final(self).pos <= final(self).chars@.len(),
            match tuple_at(old(self).chars@, old(self).pos as int) {
                Ok((lits, e)) => r is Ok && literals_give(lits, r->Ok_0@, *float_bits)
                    && final(self).pos == e,
                Err(e) => r == Err::<Tuple<Value>, ParseError>(e),
            },
    {
        let ghost s = self.chars@;
        proof {
            lemma_skip_ws_forward(s, self.pos as int);
        }
        if !self.check('(') {
            return Err(ParseError::NoOpeningParenthesis);
        }
        let mut values: Tuple<Value> = Tuple::new();
        let ghost mut lits: Seq<Literal> = Seq::empty();
        assert(values@ =~= Seq::<ValueModel>::empty());
        loop
            invariant
                s == self.chars@,
                self.chars == old(self).chars,
                self.pos <= s.len(),
                tuple_at(s, old(self).pos as int) == values_from(s, self.pos as int, lits),
                literals_give(lits, values@, *float_bits),
                forall|t: &str| float_bits.requires((t,)),
            decreases s.len() - self.pos,
        {
            let ghost i = self.pos as int;
            proof {
                lemma_skip_ws_forward(s, i);
            }
            self.skip_ws();
            let j = self.pos;
            if j >= self.chars.len() {
                return Err(ParseError::NoClosingParenthesis);
            }
            if self.chars[j] == ')' {
                self.next();
                return Ok(values);
            }
            let v = match self.value(float_bits) {
                Some(v) => v,
                None => return Err(ParseError::ParsingValues),
            };
            let ghost lit = lex_value(s, j as int)->Some_0.0;
            let k = self.pos;
            proof {
                lemma_lex_value_forward(s, j as int);
                lemma_skip_ws_forward(s, k as int);
            }
            self.skip_ws();
            let k2 = self.pos;
            let ghost before = values@;
            if k2 >= self.chars.len() {
                return Err(ParseError::NoClosingParenthesis);
            }
            if self.chars[k2] == ',' {
                values.push(v);
                proof {
                    assert(values@ =~= before.push(v@));
                    lits = lits.push(lit);
                    assert forall|q: int| 0 <= q < lits.len() implies literal_gives(
                        #[trigger] lits[q],
                        values@[q],
                        *float_bits,
                    ) by {
                        if q < lits.len() - 1 {
                            assert(lits[q] == lits.drop_last()[q]);
                        }
                    }
                }
                self.next();
            } else if self.chars[k2] == ')' {
                values.push(v);
                proof {
                    assert(values@ =~= before.push(v@));
                    let l2 = lits.push(lit);
                    assert forall|q: int| 0 <= q < l2.len() implies literal_gives(
                        #[trigger] l2[q],
                        values@[q],
                        *float_bits,
                    ) by {
                        if q < l2.len() - 1 {
                            assert(l2[q] == lits[q]);
                        }
                    }
                }
                self.next();
                return Ok(values);
            } else {
                return Err(ParseError::ParsingValues);
            }
        }
    }

    /// A pattern text from the cursor on; leaves the cursor after its `)`.
    fn pattern<F: Fn(&str) -> u64>(&mut self, float_bits: &F) -> (r: Result<
        Tuple<Request>,
        ParseError,
    >)
        requires
            old(self).pos <= old(self).chars@.len(),
            forall|t: &str| float_bits.requires((t,)),
        ensures
            final(self).chars == old(self).chars,
            final(self).pos <= final(self).chars@.len(),
            match pattern_at(old(self).chars@, old(self).pos as int) {
                Ok((lits, e)) => r is Ok && requests_give(lits, r->Ok_0@, *float_bits)
                    && final(self).pos == e,
                Err(e) => r == Err::<Tuple<Request>, ParseError>(e),
            },
    {
        let ghost s = self.chars@;
        proof {
            lemma_skip_ws_forward(s, self.pos as int);
        }
        if !self.check('(') {
            return Err(ParseError::NoOpeningParenthesis);
        }
        let mut values: Tuple<Request> = Tuple::new();
        let ghost mut lits: Seq<RequestLiteral> = Seq::empty();
        assert(values@ =~= Seq::<RequestModel>::empty());
        loop
            invariant
                s == self.chars@,
                self.chars == old(self).chars,
                self.pos <= s.len(),
                pattern_at(s, old(self).pos as int) == requests_from(s, self.pos as int, lits),
                requests_give(lits, values@, *float_bits),
                forall|t: &str| float_bits.requires((t,)),
            decreases s.len() - self.pos,
        {
            let ghost i = self.pos as int;
            proof {
                lemma_skip_ws_forward(s, i);
            }
            self.skip_ws();
            let j = self.pos;
            if j >= self.chars.len() {
                return Err(ParseError::NoClosingParenthesis);
            }
            if self.chars[j] == ')' {
                self.next();
                return Ok(values);
            }
            let v = match self.request(float_bits) {
                Some(v) => v,
                None => return Err(ParseError::ParsingValues),
            };
            let ghost lit = lex_request(s, j as int)->Some_0.0;
            let k = self.pos;
            proof {
                lemma_lex_request_forward(s, j as int);
                lemma_skip_ws_forward(s, k as int);
            }
            self.skip_ws();
            let k2 = self.pos;
            let ghost before = values@;
            if k2 >= self.chars.len() {
                return Err(ParseError::NoClosingParenthesis);
            }
            if self.chars[k2] == ',' {
                values.push(v);
                proof {
                    assert(values@ =~= before.push(v@));
                    lits = lits.push(lit);
                    assert forall|q: int| 0 <= q < lits.len() implies request_gives(
                        #[trigger] lits[q],
                        values@[q],
                        *float_bits,
                    ) by {
                        if q < lits.len() - 1 {
                            assert(lits[q] == lits.drop_last()[q]);
                        }
                    }
                }
                self.next();
            } else if self.chars[k2] == ')' {
                values.push(v);
                proof {
                    assert(values@ =~= before.push(v@));
                    let l2 = lits.push(lit);
                    assert forall|q: int| 0 <= q < l2.len() implies request_gives(
                        #[trigger] l2[q],
                        values@[q],
                        *float_bits,
                    ) by {
                        if q < l2.len() - 1 {
                            assert(l2[q] == lits[q]);
                        }
                    }
                }
                self.next();
                return Ok(values);
            } else {
                return Err(ParseError::ParsingValues);
            }
        }
    }
}

/// Parses a tuple: `(`, then values separated by commas, with an optional
/// comma before the closing `)`. Floats go through `float_bits`, which gets
/// their decimal text (see [`float_text`]) and gives their bit pattern.
pub fn parse<F: Fn(&str) -> u64>(input: &str, float_bits: F) -> (r: Result<Tuple<Value>, ParseError>)
    requires
        forall|t: &str| float_bits.requires((t,)),
    ensures
        match tuple_literals(input@) {
            Ok(lits) => r is Ok && literals_give(lits, r->Ok_0@, float_bits),
            Err(e) => r == Err::<Tuple<Value>, ParseError>(e),
        },
{
    let mut p = Parser::new(input);
    p.tuple(&float_bits)
}

/// Parses a pattern: `(`, then elements `type: op operand` separated by
/// commas, with an optional comma before the closing `)`. The type is `int`,
/// `float` or `string` in any case; the operator is one of
/// `= == != < <= > >= *`, `==` where none is written; `*` takes no operand,
/// and any other takes one of the declared type. Floats go through
/// `float_bits` as in [`parse`].
pub fn parse_request<F: Fn(&str) -> u64>(input: &str, float_bits: F) -> (r: Result<
    Tuple<Request>,
    ParseError,
>)
    requires
        forall|t: &str| float_bits.requires((t,)),
    ensures
        match request_literals(input@) {
            Ok(lits) => r is Ok && requests_give(lits, r->Ok_0@, float_bits),
            Err(e) => r == Err::<Tuple<Request>, ParseError>(e),
        },
{
    let mut p = Parser::new(input);
    p.pattern(&float_bits)
}

/// Parses a command line: `out` and a tuple, `in` or `rd` and a pattern and a
/// timeout in seconds, `inp` or `rdp` and a pattern, `help`, or `exit`; the
/// command word in any case. Floats go through `float_bits` as in [`parse`].
pub fn parse_command<F: Fn(&str) -> u64>(line: &str, float_bits: F) -> (r: Result<Command, ParseError>)
    requires
        forall|t: &str| float_bits.requires((t,)),
    ensures
        match command_syntax(line@) {
            Ok(cs) => r is Ok && command_gives(cs, r->Ok_0, float_bits),
            Err(e) => r == Err::<Command, ParseError>(e),
        },
{
    let mut p = Parser::new(line);
    let ghost s = p.chars@;
    p.skip_ws();
    let i = p.pos;
    while p.pos < p.chars.len() && !is_whitespace(p.chars[p.pos]) && p.chars[p.pos] != '('
        invariant
            s == p.chars@,
            i <= p.pos <= s.len(),
            word_end(s, p.pos as int) == word_end(s, i as int),
        decreases s.len() - p.pos,
    {
        p.next();
    }
    let e = p.pos;
    let help = vec!['h', 'e', 'l', 'p'];
    let exit = vec!['e', 'x', 'i', 't'];
    let out = vec!['o', 'u', 't'];
    let inp = vec!['i', 'n', 'p'];
    let rdp = vec!['r', 'd', 'p'];
    let input = vec!['i', 'n'];
    let read = vec!['r', 'd'];
    assert(help@ == seq!['h', 'e', 'l', 'p']);
    assert(exit@ == seq!['e', 'x', 'i', 't']);
    assert(out@ == seq!['o', 'u', 't']);
    assert(inp@ == seq!['i', 'n', 'p']);
    assert(rdp@ == seq!['r', 'd', 'p']);
    assert(input@ == seq!['i', 'n']);
    assert(read@ == seq!['r', 'd']);
    let command = if p.spells_word(i, e, &help) {
        Command::Help
    } else if p.spells_word(i, e, &exit) {
        Command::Exit
    } else if p.spells_word(i, e, &out) {
        match p.tuple(&float_bits) {
            Ok(t) => Command::Out(t),
            Err(x) => return Err(x),
        }
    } else if p.spells_word(i, e, &inp) {
        match p.pattern(&float_bits) {
            Ok(t) => Command::Inp(t),
            Err(x) => return Err(x),
        }
    } else if p.spells_word(i, e, &rdp) {
        match p.pattern(&float_bits) {
            Ok(t) => Command::Rdp(t),
            Err(x) => return Err(x),
        }
    } else {
        let blocking_in = p.spells_word(i, e, &input);
        if !blocking_in && !p.spells_word(i, e, &read) {
            return Err(ParseError::UnknownCommand);
        }
        let pattern = match p.pattern(&float_bits) {
            Ok(t) => t,
            Err(x) => return Err(x),
        };
        let k = p.pos;
        proof {
            lemma_skip_ws_forward(s, k as int);
        }
        p.skip_ws();
        let t0 = p.pos;
        proof {
            lemma_digits_end_forward(s, t0 as int);
        }
        let seconds = p.number();
        if p.pos == t0 || seconds >= DIGITS_CAP {
            return Err(ParseError::BadTimeout);
        }
        if blocking_in {
            Command::In(pattern, seconds)
        } else {
            Command::Rd(pattern, seconds)
        }
    };
    let k = p.pos;
    proof {
        lemma_skip_ws_forward(s, k as int);
    }
    p.skip_ws();
    if p.pos < p.chars.len() {
        return Err(ParseError::ParsingValues);
    }
    Ok(command)
}

} // verus!
