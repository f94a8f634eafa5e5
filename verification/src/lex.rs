//! Lexing and infix-to-postfix conversion.
//!
//! `tokenize` filters the input down to the recognized characters and
//! scans it into operator, parenthesis and number tokens, with unary
//! minus told apart from binary minus by what precedes it.
//! `shunting_yard` reorders an infix token sequence into postfix order
//! with an operator stack. Both are specified by spec-level scans that
//! state the result exactly, token by token.

use vstd::prelude::*;

use crate::value::{
    frac_result, value_add_spec, value_div_spec, value_mul_spec, value_neg_spec, value_sub_spec,
    Value,
};
use crate::EvalError;

verus! {

/// An arithmetic operator; `USub` is unary negation.
#[derive(Clone, Copy, Debug, PartialEq, Eq, Structural)]
pub enum Operator {
    Add,
    Sub,
    Mul,
    Div,
    USub,
}

/// Which operator a character denotes, if any; `u` denotes unary minus.
pub open spec fn op_from_char(c: char) -> Option<Operator> {
    if c == '+' {
        Some(Operator::Add)
    } else if c == '-' {
        Some(Operator::Sub)
    } else if c == '*' {
        Some(Operator::Mul)
    } else if c == '/' {
        Some(Operator::Div)
    } else if c == 'u' {
        Some(Operator::USub)
    } else {
        None
    }
}

/// What applying an operator owes: the exact arithmetic result, with
/// unary minus negating its right operand.
pub open spec fn op_eval_spec(op: Operator, left: Value, right: Value) -> Result<
    Value,
    EvalError,
> {
    match op {
        Operator::Add => value_add_spec(left, right),
        Operator::Sub => value_sub_spec(left, right),
        Operator::Mul => value_mul_spec(left, right),
        Operator::Div => value_div_spec(left, right),
        Operator::USub => value_neg_spec(right),
    }
}

impl Operator {
    /// The operator a character denotes, if any.
    pub fn from_char(c: char) -> (r: Option<Operator>)
        ensures
            r == op_from_char(c),
    {
        match c {
            '+' => Some(Operator::Add),
            '-' => Some(Operator::Sub),
            '*' => Some(Operator::Mul),
            '/' => Some(Operator::Div),
            'u' => Some(Operator::USub),
            _ => None,
        }
    }

    /// The character denoting this operator.
    pub fn to_char(&self) -> (r: char)
        ensures
            op_from_char(r) == Some(*self),
    {
        match self {
            Operator::Add => '+',
            Operator::Sub => '-',
            Operator::Mul => '*',
            Operator::Div => '/',
            Operator::USub => 'u',
        }
    }

    /// Apply this operator to two normalized values: the exact result,
    /// `DivisionByZero` exactly on division by zero, and
    /// `ArithmeticOverflow` exactly where the result leaves 64 bits.
    /// Unary minus negates `right` and ignores `left`.
    pub fn evaluate(&self, left: Value, right: Value) -> (res: Result<Value, EvalError>)
        requires
            left.is_normalized(),
            right.is_normalized(),
        ensures
            res == op_eval_spec(*self, left, right),
    {
        match self {
            Operator::Add => left.plus(right),
            Operator::Sub => left.minus(right),
            Operator::Mul => left.times(right),
            Operator::Div => left.div_by(right),
            Operator::USub => right.negated(),
        }
    }
}

/// A parenthesis.
#[derive(Clone, Copy, Debug, PartialEq, Eq, Structural)]
pub enum Paren {
    Left,
    Right,
}

/// Which parenthesis a character denotes, if any.
pub open spec fn paren_from_char(c: char) -> Option<Paren> {
    if c == '(' {
        Some(Paren::Left)
    } else if c == ')' {
        Some(Paren::Right)
    } else {
        None
    }
}

impl Paren {
    /// The parenthesis a character denotes, if any.
    pub fn from_char(c: char) -> (r: Option<Paren>)
        ensures
            r == paren_from_char(c),
    {
        match c {
            '(' => Some(Paren::Left),
            ')' => Some(Paren::Right),
            _ => None,
        }
    }

    /// The character denoting this parenthesis.
    pub fn to_char(&self) -> (r: char)
        ensures
            paren_from_char(r) == Some(*self),
    {
        match self {
            Paren::Left => '(',
            Paren::Right => ')',
        }
    }
}

/// One lexical token: an operator, a number, or a parenthesis.
#[derive(Clone, Copy, Debug, PartialEq, Eq, Structural)]
pub enum Token {
    Operator(Operator),
    Value(Value),
    Paren(Paren),
}

/// What parsing one token literal owes: a well-formed numeric literal
/// that fits becomes a number token; a single operator or parenthesis
/// character becomes its token; anything else is `None`.
pub open spec fn token_new_spec(s: Seq<char>) -> Option<Token> {
    if literal_spec(s) is Ok {
        Some(Token::Value(literal_spec(s)->Ok_0))
    } else if s.len() == 1 && op_from_char(s[0]) is Some {
        Some(Token::Operator(op_from_char(s[0])->0))
    } else if s.len() == 1 && paren_from_char(s[0]) is Some {
        Some(Token::Paren(paren_from_char(s[0])->0))
    } else {
        None
    }
}

impl Token {
    /// Parse one token from a literal: a number, an operator character
    /// (`u` for unary minus), or a parenthesis.
    pub fn new(literal: &str) -> (res: Option<Token>)
        ensures
            res == token_new_spec(literal@),
    {
        let len = literal.unicode_len();
        let mut buf: Vec<char> = Vec::new();
        let mut i: usize = 0;
        while i < len
            invariant
                0 <= i <= len,
                len == literal@.len(),
                buf@ == literal@.subrange(0, i as int),
            decreases len - i,
        {
            let c = literal.get_char(i);
            buf.push(c);
            proof {
                assert(buf@ =~= literal@.subrange(0, i as int + 1));
            }
            i = i + 1;
        }
        proof {
            assert(buf@ =~= literal@);
        }
        match parse_literal(&buf) {
            Ok(v) => Some(Token::Value(v)),
            Err(_) => {
                if buf.len() == 1 {
                    let c = buf[0];
                    match Operator::from_char(c) {
                        Some(op) => Some(Token::Operator(op)),
                        None => {
                            match Paren::from_char(c) {
                                Some(p) => Some(Token::Paren(p)),
                                None => None,
                            }
                        },
                    }
                } else {
                    None
                }
            },
        }
    }
}

/// Every number token in the sequence is normalized.
pub open spec fn values_normalized(ts: Seq<Token>) -> bool {
    forall|i: int|
        0 <= i < ts.len() ==> (#[trigger] ts[i] matches Token::Value(v)
            ==> v.is_normalized())
}

/// A decimal digit.
pub open spec fn is_digit(c: char) -> bool {
    '0' <= c && c <= '9'
}

/// The characters the lexer recognizes; everything else is dropped.
pub open spec fn recognized(c: char) -> bool {
    is_digit(c) || c == '.' || c == '+' || c == '-' || c == '*' || c == '/' || c == '('
        || c == ')'
}

/// The input with every unrecognized character removed.
pub open spec fn keep_recognized(s: Seq<char>) -> Seq<char>
    decreases s.len(),
{
    if s.len() == 0 {
        Seq::empty()
    } else {
        let rest = keep_recognized(s.drop_last());
        if recognized(s.last()) {
            rest.push(s.last())
        } else {
            rest
        }
    }
}

/// 10 to the `k`.
pub open spec fn pow10(k: nat) -> int
    decreases k,
{
    if k == 0 {
        1
    } else {
        10 * pow10((k - 1) as nat)
    }
}

/// Powers of ten are positive and increase with the exponent.
pub proof fn lemma_pow10_increases(j: nat, k: nat)
    requires
        j <= k,
    ensures
        1 <= pow10(j) <= pow10(k),
    decreases k,
{
    if k > 0 {
        if j == k {
            lemma_pow10_increases(0, (k - 1) as nat);
        } else {
            lemma_pow10_increases(j, (k - 1) as nat);
        }
    }
}

/// Only recognized characters survive the filter.
pub proof fn lemma_keep_recognized_chars(s: Seq<char>)
    ensures
        forall|m: int|
            0 <= m < keep_recognized(s).len() ==> recognized(#[trigger] keep_recognized(s)[m]),
    decreases s.len(),
{
    if s.len() > 0 {
        lemma_keep_recognized_chars(s.drop_last());
        let rest = keep_recognized(s.drop_last());
        if recognized(s.last()) {
            assert(keep_recognized(s) == rest.push(s.last()));
            assert forall|m: int|
                0 <= m < keep_recognized(s).len() implies recognized(
                #[trigger] keep_recognized(s)[m],
            ) by {
                if m < rest.len() {
                    assert(keep_recognized(s)[m] == rest[m]);
                } else {
                    assert(keep_recognized(s)[m] == s.last());
                }
            }
        }
    }
}

/// Scan of a numeric literal: accumulates the digits' value, counts the
/// digits after the dot and the digits overall, and fails on a second
/// dot or a foreign character. Returns `(value, fraction digits, digits)`.
pub open spec fn lit_scan(
    s: Seq<char>,
    i: int,
    num: int,
    k: int,
    seen_dot: bool,
    digits: int,
) -> Option<(int, int, int)>
    decreases s.len() - i,
{
    if i < 0 || i >= s.len() {
        Some((num, k, digits))
    } else if s[i] == '.' {
        if seen_dot {
            None
        } else {
            lit_scan(s, i + 1, num, k, true, digits)
        }
    } else if is_digit(s[i]) {
        lit_scan(
            s,
            i + 1,
            num * 10 + (s[i] as int - '0' as int),
            if seen_dot {
                k + 1
            } else {
                k
            },
            seen_dot,
            digits + 1,
        )
    } else {
        None
    }
}

/// What parsing a numeric literal owes: `LexError` exactly on a
/// malformed literal (a second dot, a foreign character, or no digit),
/// `ArithmeticOverflow` exactly when the literal's numerator or its
/// power-of-ten denominator exceeds 128 bits or its normal form exceeds
/// 64-bit fields, and otherwise the literal's exact value.
pub open spec fn literal_spec(s: Seq<char>) -> Result<Value, EvalError> {
    match lit_scan(s, 0, 0, 0, false, 0) {
        None => Err(EvalError::LexError),
        Some((num, k, digits)) => {
            if digits == 0 {
                Err(EvalError::LexError)
            } else if num > i128::MAX as int || pow10(k as nat) > i128::MAX as int {
                Err(EvalError::ArithmeticOverflow)
            } else {
                frac_result(num, pow10(k as nat))
            }
        },
    }
}

/// Parse an accumulated numeric literal into its exact value.
fn parse_literal(buf: &Vec<char>) -> (res: Result<Value, EvalError>)
    ensures
        res == literal_spec(buf@),
{
    let n = buf.len();
    let mut i: usize = 0;
    let mut acc: i128 = 0;
    let ghost mut gnum: int = 0int;
    let mut k: usize = 0;
    let mut seen_dot: bool = false;
    let mut digits: usize = 0;
    let mut over: bool = false;
    while i < n
        invariant
            0 <= i <= n,
            n == buf@.len(),
            k <= i,
            digits <= i,
            lit_scan(buf@, 0, 0, 0, false, 0) == lit_scan(
                buf@,
                i as int,
                gnum,
                k as int,
                seen_dot,
                digits as int,
            ),
            gnum >= 0,
            !over ==> acc == gnum,
            over ==> gnum > i128::MAX as int,
        decreases n - i,
    {
        let c = buf[i];
        if c == '.' {
            if seen_dot {
                return Err(EvalError::LexError);
            }
            seen_dot = true;
        } else if '0' <= c && c <= '9' {
            let d: i128 = (c as u32 as i128) - ('0' as u32 as i128);
            assert(d == c as int - '0' as int);
            assert(0 <= d <= 9);
            proof {
                gnum = gnum * 10 + (c as int - '0' as int);
            }
            if !over {
                if acc <= (i128::MAX - d) / 10 {
                    acc = acc * 10 + d;
                } else {
                    over = true;
                    assert(gnum > i128::MAX as int);
                }
            }
            if seen_dot {
                k = k + 1;
            }
            digits = digits + 1;
        } else {
            return Err(EvalError::LexError);
        }
        i = i + 1;
    }
    if digits == 0 {
        return Err(EvalError::LexError);
    }
    // Build the power-of-ten denominator, watching for 128-bit overflow.
    let mut den: i128 = 1;
    let mut j: usize = 0;
    let mut dover: bool = false;
    proof {
        lemma_pow10_increases(0, k as nat);
    }
    while j < k && !dover
        invariant
            0 <= j <= k,
            !dover ==> den == pow10(j as nat),
            !dover ==> 1 <= den,
            dover ==> pow10(k as nat) > i128::MAX as int,
        decreases k - j,
    {
        proof {
            lemma_pow10_increases((j + 1) as nat, k as nat);
        }
        if den <= i128::MAX / 10 {
            den = den * 10;
        } else {
            dover = true;
        }
        j = j + 1;
    }
    if over || dover {
        return Err(EvalError::ArithmeticOverflow);
    }
    crate::value::from_frac(acc, den)
}

/// Whether a `-` at this point is unary: at the start, or right after
/// an operator or a left parenthesis.
pub open spec fn unary_position(ts: Seq<Token>) -> bool {
    ts.len() == 0 || (ts.last() matches Token::Operator(_)) || ts.last() == Token::Paren(
        Paren::Left,
    )
}

/// Scan of the filtered input: accumulates tokens and a numeric-literal
/// buffer. A `-` in unary position becomes `USub`; digits and dots grow
/// the buffer; any other recognized character first commits the buffer
/// as a number token and then becomes a token itself; a trailing buffer
/// is committed at the end.
pub open spec fn lex_scan(s: Seq<char>, i: int, ts: Seq<Token>, buf: Seq<char>) -> Result<
    Seq<Token>,
    EvalError,
>
    decreases s.len() - i, buf.len(),
{
    if i < 0 {
        Err(EvalError::LexError)
    } else if i >= s.len() {
        if buf.len() == 0 {
            Ok(ts)
        } else {
            match literal_spec(buf) {
                Ok(v) => Ok(ts.push(Token::Value(v))),
                Err(e) => Err(e),
            }
        }
    } else {
        let c = s[i];
        if buf.len() == 0 && c == '-' && unary_position(ts) {
            lex_scan(s, i + 1, ts.push(Token::Operator(Operator::USub)), buf)
        } else if is_digit(c) || c == '.' {
            lex_scan(s, i + 1, ts, buf.push(c))
        } else if buf.len() > 0 {
            match literal_spec(buf) {
                Ok(v) => lex_scan(s, i, ts.push(Token::Value(v)), Seq::empty()),
                Err(e) => Err(e),
            }
        } else if op_from_char(c) is Some {
            lex_scan(s, i + 1, ts.push(Token::Operator(op_from_char(c)->0)), buf)
        } else {
            lex_scan(s, i + 1, ts.push(Token::Paren(paren_from_char(c)->0)), buf)
        }
    }
}

/// What tokenizing owes: `LexError` on input with no recognized
/// character, else the token sequence of the scan above.
pub open spec fn tokenize_spec(s: Seq<char>) -> Result<Seq<Token>, EvalError> {
    let cl = keep_recognized(s);
    if cl.len() == 0 {
        Err(EvalError::LexError)
    } else {
        lex_scan(cl, 0, Seq::empty(), Seq::empty())
    }
}

/// Parse a string into its token sequence.
pub fn tokenize(s: &str) -> (res: Result<Vec<Token>, EvalError>)
    ensures
        res is Ok <==> tokenize_spec(s@) is Ok,
        res matches Ok(ts) ==> Ok::<Seq<Token>, EvalError>(ts@) == tokenize_spec(s@)
            && values_normalized(ts@),
        res matches Err(e) ==> Err::<Seq<Token>, EvalError>(e) == tokenize_spec(s@),
{
    let len = s.unicode_len();
    let mut cleaned: Vec<char> = Vec::new();
    let mut i: usize = 0;
    while i < len
        invariant
            0 <= i <= len,
            len == s@.len(),
            cleaned@ == keep_recognized(s@.subrange(0, i as int)),
        decreases len - i,
    {
        let c = s.get_char(i);
        proof {
            assert(s@.subrange(0, i as int + 1).drop_last() =~= s@.subrange(0, i as int));
            assert(s@.subrange(0, i as int + 1).last() == s@[i as int]);
        }
        if (('0' <= c && c <= '9') || c == '.' || c == '+' || c == '-' || c == '*' || c == '/'
            || c == '(' || c == ')') {
            cleaned.push(c);
        }
        i = i + 1;
    }
    proof {
        assert(s@.subrange(0, s@.len() as int) =~= s@);
        lemma_keep_recognized_chars(s@);
    }
    let cl = cleaned;
    let n = cl.len();
    if n == 0 {
        return Err(EvalError::LexError);
    }
    let mut tokens: Vec<Token> = Vec::new();
    let mut buffer: Vec<char> = Vec::new();
    let mut j: usize = 0;
    while j < n
        invariant
            0 <= j <= n,
            n == cl@.len(),
            cl@ == keep_recognized(s@),
            n > 0,
            forall|m: int| 0 <= m < cl@.len() ==> recognized(#[trigger] cl@[m]),
            lex_scan(cl@, 0, Seq::empty(), Seq::empty()) == lex_scan(
                cl@,
                j as int,
                tokens@,
                buffer@,
            ),
            values_normalized(tokens@),
        decreases n - j,
    {
        let c = cl[j];
        let is_num = ('0' <= c && c <= '9') || c == '.';
        if buffer.len() == 0 && c == '-'
            && (tokens.len() == 0 || {
            let lt = tokens[tokens.len() - 1];
            (lt matches Token::Operator(_)) || lt == Token::Paren(Paren::Left)
        }) {
            assert(unary_position(tokens@));
            tokens.push(Token::Operator(Operator::USub));
        } else if is_num {
            buffer.push(c);
        } else {
            if buffer.len() > 0 {
                let ghost ts0 = tokens@;
                let ghost buf0 = buffer@;
                match parse_literal(&buffer) {
                    Ok(v) => {
                        proof {
                            lemma_literal_normalized(buf0, v);
                        }
                        tokens.push(Token::Value(v));
                        buffer = Vec::new();
                        assert(lex_scan(cl@, j as int, ts0, buf0) == lex_scan(
                            cl@,
                            j as int,
                            tokens@,
                            buffer@,
                        ));
                    },
                    Err(e) => {
                        assert(lex_scan(cl@, j as int, tokens@, buffer@) == Err::<
                            Seq<Token>,
                            EvalError,
                        >(e));
                        return Err(e);
                    },
                }
            }
            match Operator::from_char(c) {
                Some(op) => {
                    tokens.push(Token::Operator(op));
                },
                None => {
                    match Paren::from_char(c) {
                        Some(p) => {
                            tokens.push(Token::Paren(p));
                        },
                        None => {
                            assert(false);
                        },
                    }
                },
            }
        }
        j = j + 1;
    }
    if buffer.len() > 0 {
        match parse_literal(&buffer) {
            Ok(v) => {
                proof {
                    lemma_literal_normalized(buffer@, v);
                }
                tokens.push(Token::Value(v));
            },
            Err(e) => {
                return Err(e);
            },
        }
    }
    Ok(tokens)
}

/// Precedence rank of a token: 2 for addition and subtraction, 3 for
/// multiplication and division, 5 for unary minus, 0 for anything else.
pub open spec fn precedence_spec(t: Token) -> u32 {
    match t {
        Token::Operator(o) => match o {
            Operator::Add => 2,
            Operator::Sub => 2,
            Operator::Mul => 3,
            Operator::Div => 3,
            Operator::USub => 5,
        },
        _ => 0,
    }
}

/// Precedence rank of a token.
pub fn precedence(token: &Token) -> (r: u32)
    ensures
        r == precedence_spec(*token),
{
    match token {
        Token::Operator(o) => match o {
            Operator::Add => 2,
            Operator::Sub => 2,
            Operator::Mul => 3,
            Operator::Div => 3,
            Operator::USub => 5,
        },
        _ => 0,
    }
}

/// Unary minus is right-associative; every other operator is
/// left-associative.
pub open spec fn is_right_assoc(t: Token) -> bool {
    t == Token::Operator(Operator::USub)
}

/// Whether the operator atop the stack leaves it before `t` is pushed:
/// a left-associative `t` pops ranks at least its own, a
/// right-associative `t` only strictly higher ranks.
pub open spec fn pops_before(t: Token, top: Token) -> bool {
    if is_right_assoc(t) {
        precedence_spec(top) > precedence_spec(t)
    } else {
        precedence_spec(top) >= precedence_spec(t)
    }
}

/// Scan of the infix sequence with an output sequence and an operator
/// stack: values go straight to the output; an operator first pops the
/// stack operators that leave before it; a left parenthesis is stacked;
/// a right parenthesis pops to the output until its match, and is a
/// `ParseError` without one; at the end the stack drains to the output,
/// where a leftover parenthesis is a `ParseError`.
pub open spec fn sy_scan(ts: Seq<Token>, i: int, out: Seq<Token>, ops: Seq<Token>) -> Result<
    Seq<Token>,
    EvalError,
>
    decreases ts.len() - i, ops.len(),
{
    if i < 0 || i > ts.len() {
        Err(EvalError::ParseError)
    } else if i == ts.len() {
        if ops.len() == 0 {
            Ok(out)
        } else if ops.last() matches Token::Paren(_) {
            Err(EvalError::ParseError)
        } else {
            sy_scan(ts, i, out.push(ops.last()), ops.drop_last())
        }
    } else {
        match ts[i] {
            Token::Value(_) => sy_scan(ts, i + 1, out.push(ts[i]), ops),
            Token::Operator(_) => {
                if ops.len() > 0 && (ops.last() matches Token::Operator(_)) && pops_before(
                    ts[i],
                    ops.last(),
                ) {
                    sy_scan(ts, i, out.push(ops.last()), ops.drop_last())
                } else {
                    sy_scan(ts, i + 1, out, ops.push(ts[i]))
                }
            },
            Token::Paren(p) => match p {
                Paren::Left => sy_scan(ts, i + 1, out, ops.push(ts[i])),
                Paren::Right => {
                    if ops.len() == 0 {
                        Err(EvalError::ParseError)
                    } else if ops.last() == Token::Paren(Paren::Left) {
                        sy_scan(ts, i + 1, out, ops.drop_last())
                    } else {
                        sy_scan(ts, i, out.push(ops.last()), ops.drop_last())
                    }
                },
            },
        }
    }
}

/// What the infix-to-postfix conversion owes.
pub open spec fn sy_spec(ts: Seq<Token>) -> Result<Seq<Token>, EvalError> {
    sy_scan(ts, 0, Seq::empty(), Seq::empty())
}

/// Convert an infix token sequence to postfix (reverse Polish) order.
pub fn shunting_yard(tokens: Vec<Token>) -> (res: Result<Vec<Token>, EvalError>)
    ensures
        res is Ok <==> sy_spec(tokens@) is Ok,
        res matches Ok(out) ==> Ok::<Seq<Token>, EvalError>(out@) == sy_spec(tokens@) && (
        values_normalized(tokens@) ==> values_normalized(out@)),
        res matches Err(e) ==> Err::<Seq<Token>, EvalError>(e) == sy_spec(tokens@),
{
    let n = tokens.len();
    let mut output: Vec<Token> = Vec::new();
    let mut opstack: Vec<Token> = Vec::new();
    let mut i: usize = 0;
    while i < n
        invariant
            0 <= i <= n,
            n == tokens@.len(),
            sy_scan(tokens@, 0, Seq::empty(), Seq::empty()) == sy_scan(
                tokens@,
                i as int,
                output@,
                opstack@,
            ),
            values_normalized(tokens@) ==> values_normalized(output@) && values_normalized(
                opstack@,
            ),
        decreases n - i,
    {
        let t = tokens[i];
        match t {
            Token::Value(_) => {
                output.push(t);
            },
            Token::Operator(_) => {
                let p = precedence(&t);
                let right = matches!(t, Token::Operator(Operator::USub));
                let mut done = false;
                while !done && opstack.len() > 0
                    invariant
                        done ==> !(opstack@.len() > 0 && (opstack@.last() matches Token::Operator(
                            _,
                        )) && pops_before(t, opstack@.last())),
                        n == tokens@.len(),
                        i < n,
                        t == tokens@[i as int],
                        t matches Token::Operator(_),
                        p == precedence_spec(t),
                        right == is_right_assoc(t),
                        sy_scan(tokens@, 0, Seq::empty(), Seq::empty()) == sy_scan(
                            tokens@,
                            i as int,
                            output@,
                            opstack@,
                        ),
                        values_normalized(tokens@) ==> values_normalized(output@)
                            && values_normalized(opstack@),
                    decreases opstack.len() + (if done {
                        0int
                    } else {
                        1int
                    }),
                {
                    let top = opstack[opstack.len() - 1];
                    let should_pop = match top {
                        Token::Operator(_) => {
                            let tp = precedence(&top);
                            if right {
                                tp > p
                            } else {
                                tp >= p
                            }
                        },
                        _ => false,
                    };
                    if should_pop {
                        let popped = opstack.pop().unwrap();
                        output.push(popped);
                    } else {
                        done = true;
                    }
                }
                opstack.push(t);
            },
            Token::Paren(pp) => match pp {
                Paren::Left => {
                    opstack.push(t);
                },
                Paren::Right => {
                    let mut found = false;
                    while !found && opstack.len() > 0
                        invariant
                            n == tokens@.len(),
                            i < n,
                            t == tokens@[i as int],
                            t == Token::Paren(Paren::Right),
                            !found ==> sy_scan(tokens@, 0, Seq::empty(), Seq::empty()) == sy_scan(
                                tokens@,
                                i as int,
                                output@,
                                opstack@,
                            ),
                            found ==> sy_scan(tokens@, 0, Seq::empty(), Seq::empty()) == sy_scan(
                                tokens@,
                                i as int + 1,
                                output@,
                                opstack@,
                            ),
                            values_normalized(tokens@) ==> values_normalized(output@)
                                && values_normalized(opstack@),
                        decreases opstack.len(),
                    {
                        let top = opstack.pop().unwrap();
                        if matches!(top, Token::Paren(Paren::Left)) {
                            found = true;
                        } else {
                            output.push(top);
                        }
                    }
                    if !found {
                        assert(sy_scan(tokens@, i as int, output@, opstack@) == Err::<
                            Seq<Token>,
                            EvalError,
                        >(EvalError::ParseError));
                        return Err(EvalError::ParseError);
                    }
                    i = i + 1;
                    continue ;
                },
            },
        }
        i = i + 1;
    }
    let mut drained = opstack;
    while drained.len() > 0
        invariant
            sy_scan(tokens@, 0, Seq::empty(), Seq::empty()) == sy_scan(
                tokens@,
                tokens@.len() as int,
                output@,
                drained@,
            ),
            values_normalized(tokens@) ==> values_normalized(output@) && values_normalized(
                drained@,
            ),
        decreases drained.len(),
    {
        let top = drained.pop().unwrap();
        match top {
            Token::Paren(_) => {
                return Err(EvalError::ParseError);
            },
            _ => {
                output.push(top);
            },
        }
    }
    Ok(output)
}

/// A successfully parsed literal is a normalized value.
pub proof fn lemma_literal_normalized(s: Seq<char>, v: Value)
    requires
        literal_spec(s) == Ok::<Value, EvalError>(v),
    ensures
        v.is_normalized(),
{
    match lit_scan(s, 0, 0, 0, false, 0) {
        None => {
            assert(false);
        },
        Some((num, k, dg)) => {
            lemma_pow10_increases(0, k as nat);
            crate::value::lemma_norm_value(num, pow10(k as nat));
        },
    }
}

} // verus!
