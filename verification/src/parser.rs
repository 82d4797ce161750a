use vstd::prelude::*;
use vstd::string::StringSliceAdditionalSpecFns;

use crate::ast::{Expression, Instruction, LValueExpression, Program};
use crate::constant_value::{constants_view, ConstantValue, SpecConstant};
use crate::types::Type;
use crate::text::{append_text, push_spaces, spaces};

verus! {

broadcast use vstd::string::is_ascii_spec_bytes;

/// What a parser expected where it failed.
#[derive(Debug, Clone, Copy, PartialEq, Eq, PartialOrd, Ord)]
pub enum ParseErrorMessage {
    NonAsciiProgram,
    UnexpectedEnd,
    Expected(&'static str),
    /// Stands for a failure whose message is reported elsewhere.
    IgnoreError,
}

/// A failed parse: the messages of the furthest failures, the text, and where they happened.
#[derive(Debug)]
pub struct ParseError<'a> {
    pub messages: Vec<ParseErrorMessage>,
    pub string: &'a str,
    pub index: usize,
}

/// A value parsed from `span`, the `len` characters of the text from `start` on.
pub struct Parsed<'a, A> {
    pub value: A,
    pub span: &'a str,
    pub start: usize,
    pub len: usize,
}

impl<'a, A> Parsed<'a, A> {
    /// The same span with `f` applied to the value.
    pub fn map<B, F: Fn(A) -> B>(self, f: F) -> (r: Parsed<'a, B>)
        requires
            f.requires((self.value,)),
        ensures
            f.ensures((self.value,), r.value),
            r.span == self.span,
            r.start == self.start,
            r.len == self.len,
    {
        Parsed { value: f(self.value), span: self.span, start: self.start, len: self.len }
    }

    /// The same span with another value.
    pub fn with<B>(self, value: B) -> (r: Parsed<'a, B>)
        ensures
            r.value == value,
            r.span == self.span,
            r.start == self.start,
            r.len == self.len,
    {
        Parsed { value, span: self.span, start: self.start, len: self.len }
    }
}

/// The result of a parser.
pub type ParseResult<'a, A> = Result<Parsed<'a, A>, ParseError<'a>>;

/// A binary operator of the language.
#[derive(Debug)]
pub enum BinaryOperator {
    Add,
    Sub,
    Mul,
    Div,
    Mod,
    And,
    Or,
    Eq,
    Neq,
    Lt,
    Gt,
    Leq,
    Geq,
}

/// The expression that applies the operator to `a` and `b`.
pub open spec fn operator_expression<'a>(op: BinaryOperator, a: Expression<'a>, b: Expression<'a>) -> Expression<'a> {
    let a = Box::new(a);
    let b = Box::new(b);
    match op {
        BinaryOperator::Add => Expression::Add(a, b),
        BinaryOperator::Sub => Expression::Sub(a, b),
        BinaryOperator::Mul => Expression::Mul(a, b),
        BinaryOperator::Div => Expression::Div(a, b),
        BinaryOperator::Mod => Expression::Mod(a, b),
        BinaryOperator::And => Expression::And(a, b),
        BinaryOperator::Or => Expression::Or(a, b),
        BinaryOperator::Eq => Expression::Equals(a, b),
        BinaryOperator::Neq => Expression::NotEquals(a, b),
        BinaryOperator::Lt => Expression::LessThan(a, b),
        BinaryOperator::Gt => Expression::GreaterThan(a, b),
        BinaryOperator::Leq => Expression::LessThanEquals(a, b),
        BinaryOperator::Geq => Expression::GreaterThanEquals(a, b),
    }
}

/// How loosely the operator binds: the larger, the later it applies.
pub open spec fn operator_precedence(op: BinaryOperator) -> u8 {
    match op {
        BinaryOperator::Add => 4,
        BinaryOperator::Sub => 4,
        BinaryOperator::Mul => 3,
        BinaryOperator::Div => 3,
        BinaryOperator::Mod => 3,
        BinaryOperator::Lt => 6,
        BinaryOperator::Gt => 6,
        BinaryOperator::Leq => 6,
        BinaryOperator::Geq => 6,
        BinaryOperator::Eq => 7,
        BinaryOperator::Neq => 7,
        BinaryOperator::And => 8,
        BinaryOperator::Or => 9,
    }
}

impl BinaryOperator {
    pub fn create_expression<'a>(&self, a: Expression<'a>, b: Expression<'a>) -> (r: Expression<'a>)
        ensures
            r == operator_expression(*self, a, b),
    {
        match self {
            BinaryOperator::Add => Expression::new_add(a, b),
            BinaryOperator::Sub => Expression::new_sub(a, b),
            BinaryOperator::Mul => Expression::new_mul(a, b),
            BinaryOperator::Div => Expression::new_div(a, b),
            BinaryOperator::Mod => Expression::new_mod(a, b),
            BinaryOperator::And => Expression::new_and(a, b),
            BinaryOperator::Or => Expression::new_or(a, b),
            BinaryOperator::Eq => Expression::new_equals(a, b),
            BinaryOperator::Neq => Expression::new_not_equals(a, b),
            BinaryOperator::Lt => Expression::new_less_than(a, b),
            BinaryOperator::Gt => Expression::new_greater_than(a, b),
            BinaryOperator::Leq => Expression::new_less_than_equals(a, b),
            BinaryOperator::Geq => Expression::new_greater_than_equals(a, b),
        }
    }

    pub fn precedence(&self) -> (r: u8)
        ensures
            r == operator_precedence(*self),
    {
        match self {
            BinaryOperator::Add => 4,
            BinaryOperator::Sub => 4,
            BinaryOperator::Mul => 3,
            BinaryOperator::Div => 3,
            BinaryOperator::Mod => 3,
            BinaryOperator::Lt => 6,
            BinaryOperator::Gt => 6,
            BinaryOperator::Leq => 6,
            BinaryOperator::Geq => 6,
            BinaryOperator::Eq => 7,
            BinaryOperator::Neq => 7,
            BinaryOperator::And => 8,
            BinaryOperator::Or => 9,
        }
    }
}

/// A chain of binary operations being read left to right.
#[derive(Debug)]
pub enum ExpressionParseTree<'a> {
    Leaf(Expression<'a>),
    Branch(BinaryOperator, Box<ExpressionParseTree<'a>>, Box<ExpressionParseTree<'a>>),
}

/// The expression a tree stands for.
pub open spec fn tree_expression<'a>(t: ExpressionParseTree<'a>) -> Expression<'a>
    decreases t,
{
    match t {
        ExpressionParseTree::Leaf(e) => e,
        ExpressionParseTree::Branch(op, a, b) => operator_expression(op, tree_expression(*a), tree_expression(*b)),
    }
}

impl<'a> ExpressionParseTree<'a> {
    pub fn leaf(expression: Expression<'a>) -> (r: Self)
        ensures
            r == ExpressionParseTree::Leaf(expression),
    {
        Self::Leaf(expression)
    }

    pub fn branch(operator: BinaryOperator, a: ExpressionParseTree<'a>, b: ExpressionParseTree<'a>) -> (r: Self)
        ensures
            r == ExpressionParseTree::Branch(operator, Box::new(a), Box::new(b)),
    {
        Self::Branch(operator, Box::new(a), Box::new(b))
    }

    /// The tree with `rhs` joined on its right by `new_operator`: over the whole tree where the
    /// operator binds more loosely than the one at the top, onto the right operand of the top
    /// otherwise.
    pub fn extend(self, new_operator: BinaryOperator, rhs: Expression<'a>) -> (r: Self)
        ensures
            r == match self {
                ExpressionParseTree::Leaf(_) => ExpressionParseTree::Branch(
                    new_operator,
                    Box::new(self),
                    Box::new(ExpressionParseTree::Leaf(rhs)),
                ),
                ExpressionParseTree::Branch(current, a, b) => if operator_precedence(new_operator)
                    > operator_precedence(current) {
                    ExpressionParseTree::Branch(
                        new_operator,
                        Box::new(ExpressionParseTree::Branch(current, a, b)),
                        Box::new(ExpressionParseTree::Leaf(rhs)),
                    )
                } else {
                    ExpressionParseTree::Branch(
                        current,
                        a,
                        Box::new(
                            ExpressionParseTree::Branch(new_operator, b, Box::new(ExpressionParseTree::Leaf(rhs))),
                        ),
                    )
                },
            },
    {
        let rhs = Self::leaf(rhs);
        match self {
            ExpressionParseTree::Leaf(_) => Self::branch(new_operator, self, rhs),
            ExpressionParseTree::Branch(current_operator, a, b) => {
                if new_operator.precedence() > current_operator.precedence() {
                    Self::branch(new_operator, Self::branch(current_operator, *a, *b), rhs)
                } else {
                    Self::branch(current_operator, *a, Self::branch(new_operator, *b, rhs))
                }
            },
        }
    }

    /// The expression the tree stands for.
    pub fn into_expression(self) -> (r: Expression<'a>)
        ensures
            r == tree_expression(self),
        decreases self,
    {
        match self {
            ExpressionParseTree::Leaf(expression) => expression,
            ExpressionParseTree::Branch(binary_operator, a, b) => {
                let a = (*a).into_expression();
                let b = (*b).into_expression();
                binary_operator.create_expression(a, b)
            },
        }
    }
}

/// The character at `i` of an ASCII text.
fn char_at(string: &str, i: usize) -> (c: char)
    requires
        string@.len() > i,
        string.is_ascii(),
    ensures
        c == string@[i as int],
{
    let b = string.get_ascii(i);
    let c = b as char;
    proof {
        let x = string@[i as int];
        assert('\0' <= x <= '\u{7f}');
        assert((x as u8) as char == x);
    }
    c
}

/// The length of an ASCII text.
fn ascii_len(string: &str) -> (n: usize)
    requires
        string.is_ascii(),
        string@.len() < usize::MAX,
    ensures
        n == string@.len(),
{
    assert(string.spec_bytes().len() == string@.len());
    string.len()
}

/// A recursive-descent parser of the BrainCrab language: where it stands in the text, and the
/// messages of the furthest failures so far.
pub struct BrainCrabParser {
    pub index: usize,
    pub longest_parse: usize,
    pub longest_parse_error: Vec<ParseErrorMessage>,
}

/// `p` holds the characters from `start` to `end` of `string`.
pub open spec fn spans<'a, A>(p: Parsed<'a, A>, string: &'a str, start: int, end: int) -> bool {
    &&& p.start == start
    &&& p.start + p.len == end
    &&& p.span@ == string@.subrange(start, end)
}

impl BrainCrabParser {
    /// The parser stands within `string`, and so do its furthest failures.
    pub open spec fn wf(&self, string: &str) -> bool {
        &&& string.is_ascii()
        &&& string@.len() < usize::MAX
        &&& self.index <= string@.len()
        &&& self.longest_parse <= string@.len()
    }

    pub fn new() -> (r: Self)
        ensures
            r.index == 0,
            r.longest_parse == 0,
            r.longest_parse_error@.len() == 0,
    {
        Self { index: 0, longest_parse: 0, longest_parse_error: Vec::new() }
    }

    /// A value parsed from the `len` characters from `start` on; the parser goes on after them.
    pub fn success<'a, A>(&mut self, string: &'a str, value: A, start: usize, len: usize) -> (r: ParseResult<'a, A>)
        requires
            string.is_ascii(),
            string@.len() < usize::MAX,
            start + len <= string@.len(),
        ensures
            r matches Ok(p) && p.value == value && spans(p, string, start as int, start + len),
            final(self).index == start + len,
            final(self).longest_parse == old(self).longest_parse,
            final(self).longest_parse_error == old(self).longest_parse_error,
    {
        let span = string.substring_ascii(start, start + len);
        self.index = start + len;
        Ok(Parsed { value, span, start, len })
    }

    /// A failure with `message` where the parser stands: the messages of the furthest failures
    /// so far, with this one among them where it is as far.
    pub fn error<'a, A>(&mut self, string: &'a str, message: ParseErrorMessage) -> (r: ParseResult<'a, A>)
        ensures
            final(self).index == old(self).index,
            message is IgnoreError ==> final(self).longest_parse == old(self).longest_parse
                && final(self).longest_parse_error == old(self).longest_parse_error,
            !(message is IgnoreError) && old(self).index == old(self).longest_parse ==> final(self).longest_parse
                == old(self).longest_parse && final(self).longest_parse_error@ == old(self).longest_parse_error@.push(message),
            !(message is IgnoreError) && old(self).index > old(self).longest_parse ==> final(self).longest_parse
                == old(self).index && final(self).longest_parse_error@ == seq![message],
            old(self).index < old(self).longest_parse ==> final(self).longest_parse == old(self).longest_parse
                && final(self).longest_parse_error == old(self).longest_parse_error,
            r matches Err(e) && e.messages@ == final(self).longest_parse_error@ && e.string == string && e.index
                == final(self).longest_parse,
    {
        match message {
            ParseErrorMessage::IgnoreError => {},
            _ => {
                if self.index == self.longest_parse {
                    self.longest_parse_error.push(message);
                } else if self.index > self.longest_parse {
                    self.longest_parse = self.index;
                    let mut messages: Vec<ParseErrorMessage> = Vec::new();
                    messages.push(message);
                    self.longest_parse_error = messages;
                }
            },
        }
        Err(ParseError { messages: self.longest_parse_error.clone(), string, index: self.longest_parse })
    }
}


/// The parser stands within the text afterwards, and a value parsed holds the characters it
/// went over.
pub open spec fn parse_step<'a, A>(before: BrainCrabParser, after: BrainCrabParser, string: &'a str, r: ParseResult<'a, A>) -> bool {
    &&& after.wf(string)
    &&& (r is Ok ==> spans(r->Ok_0, string, before.index as int, after.index as int) && before.index <= after.index)
}

/// A decimal digit.
pub open spec fn is_digit(c: char) -> bool {
    '0' <= c <= '9'
}

/// An ASCII white-space character, as `char::is_whitespace` counts them.
pub open spec fn is_space(c: char) -> bool {
    c == ' ' || c == '\t' || c == '\n' || c == '\u{0b}' || c == '\u{0c}' || c == '\r'
}

/// A character of a variable name: an ASCII letter or `_`.
pub open spec fn is_name_char(c: char) -> bool {
    ('a' <= c <= 'z') || ('A' <= c <= 'Z') || c == '_'
}

/// The characters a filtered character parser accepts.
#[derive(Clone, Copy)]
pub enum CharClass {
    Digit,
    Space,
    NameChar,
    NotQuote,
}

/// `c` is in the class.
pub open spec fn in_class(class: CharClass, c: char) -> bool {
    match class {
        CharClass::Digit => is_digit(c),
        CharClass::Space => is_space(c),
        CharClass::NameChar => is_name_char(c),
        CharClass::NotQuote => c != '"',
    }
}

/// Where the run of characters of the class that starts at `i` ends.
pub open spec fn run_end(s: Seq<char>, i: int, class: CharClass) -> int
    decreases s.len() - i,
{
    if 0 <= i < s.len() && in_class(class, s[i]) {
        run_end(s, i + 1, class)
    } else {
        i
    }
}

proof fn lemma_run_end(s: Seq<char>, i: int, class: CharClass)
    requires
        0 <= i <= s.len(),
    ensures
        i <= run_end(s, i, class) <= s.len(),
        forall|k: int| i <= k < run_end(s, i, class) ==> in_class(class, #[trigger] s[k]),
        run_end(s, i, class) < s.len() ==> !in_class(class, s[run_end(s, i, class)]),
    decreases s.len() - i,
{
    if i < s.len() && in_class(class, s[i]) {
        lemma_run_end(s, i + 1, class);
    }
}

/// The value of the digits from `i` to `j`, wrapping around past `u16::MAX`.
pub open spec fn digits_value(s: Seq<char>, i: int, j: int) -> u16
    decreases j - i,
{
    if j <= i {
        0
    } else {
        ((digits_value(s, i, j - 1) as int * 10 + (s[j - 1] as int - '0' as int)) % 65536) as u16
    }
}

impl BrainCrabParser {
    /// The character where the parser stands.
    fn char<'a>(&mut self, string: &'a str) -> (r: ParseResult<'a, char>)
        requires
            old(self).wf(string),
        ensures
            parse_step(*old(self), *final(self), string, r),
            old(self).index < string@.len() ==> (r matches Ok(p) && p.value == string@[old(self).index as int]
                && final(self).index == old(self).index + 1),
            old(self).index == string@.len() ==> r is Err && final(self).index == old(self).index,
    {
        let start_index = self.index;
        if start_index < ascii_len(string) {
            let result = char_at(string, start_index);
            self.success(string, result, start_index, 1)
        } else {
            self.error(string, ParseErrorMessage::UnexpectedEnd)
        }
    }

    /// The character where the parser stands, where it is of the class; the parser stays where
    /// it stood otherwise.
    fn char_in<'a>(&mut self, string: &'a str, class: CharClass, message: &'static str) -> (r: ParseResult<'a, char>)
        requires
            old(self).wf(string),
        ensures
            parse_step(*old(self), *final(self), string, r),
            old(self).index < string@.len() && in_class(class, string@[old(self).index as int]) ==> (r matches Ok(p)
                && p.value == string@[old(self).index as int] && final(self).index == old(self).index + 1),
            !(old(self).index < string@.len() && in_class(class, string@[old(self).index as int])) ==> r is Err
                && final(self).index == old(self).index,
    {
        let start_location = self.index;
        let value = self.char(string)?.value;
        let accepted = match class {
            CharClass::Digit => '0' <= value && value <= '9',
            CharClass::Space => value == ' ' || value == '\t' || value == '\n' || value == '\u{0b}' || value == '\u{0c}'
                || value == '\r',
            CharClass::NameChar => ('a' <= value && value <= 'z') || ('A' <= value && value <= 'Z') || value == '_',
            CharClass::NotQuote => value != '"',
        };
        if accepted {
            self.success(string, value, start_location, self.index - start_location)
        } else {
            self.index = start_location;
            self.error(string, ParseErrorMessage::Expected(message))
        }
    }

    /// The longest run of at least one character of the class; the parser stays where it stood
    /// where there is none.
    fn run_of<'a>(&mut self, string: &'a str, class: CharClass, message: &'static str) -> (r: ParseResult<'a, Vec<char>>)
        requires
            old(self).wf(string),
        ensures
            parse_step(*old(self), *final(self), string, r),
            run_end(string@, old(self).index as int, class) > old(self).index ==> (r matches Ok(p) && p.value@
                == string@.subrange(old(self).index as int, run_end(string@, old(self).index as int, class))
                && final(self).index == run_end(string@, old(self).index as int, class)),
            run_end(string@, old(self).index as int, class) == old(self).index ==> r is Err && final(self).index
                == old(self).index,
    {
        let start_location = self.index;
        proof {
            lemma_run_end(string@, start_location as int, class);
        }
        let first = self.char_in(string, class, message)?.value;
        let mut result: Vec<char> = Vec::new();
        result.push(first);
        loop
            invariant
                self.wf(string),
                start_location < self.index <= run_end(string@, start_location as int, class),
                result@ == string@.subrange(start_location as int, self.index as int),
                forall|k: int| start_location <= k < run_end(string@, start_location as int, class) ==> in_class(class, #[trigger] string@[k]),
                run_end(string@, start_location as int, class) <= string@.len(),
                run_end(string@, start_location as int, class) < string@.len() ==> !in_class(class, string@[run_end(string@, start_location as int, class)]),
            ensures
                self.wf(string),
                self.index == run_end(string@, start_location as int, class),
                result@ == string@.subrange(start_location as int, self.index as int),
            decreases string@.len() - self.index,
        {
            let loop_start = self.index;
            match self.char_in(string, class, message) {
                Ok(element) => {
                    result.push(element.value);
                    assert(result@ =~= string@.subrange(start_location as int, self.index as int));
                },
                Err(_) => {
                    self.index = loop_start;
                    break;
                },
            }
        }
        self.success(string, result, start_location, self.index - start_location)
    }

    /// A decimal digit, as its value.
    fn digit<'a>(&mut self, string: &'a str) -> (r: ParseResult<'a, u8>)
        requires
            old(self).wf(string),
        ensures
            parse_step(*old(self), *final(self), string, r),
            old(self).index < string@.len() && is_digit(string@[old(self).index as int]) ==> (r matches Ok(p)
                && p.value == string@[old(self).index as int] as int - '0' as int && final(self).index == old(self).index + 1),
            !(old(self).index < string@.len() && is_digit(string@[old(self).index as int])) ==> r is Err,
    {
        let start_location = self.index;
        let result = self.char_in(string, CharClass::Digit, "digit")?.value;
        let digit = (result as u8) - ('0' as u8);
        self.success(string, digit, start_location, self.index - start_location)
    }

    /// A run of digits, as its value wrapped around past `u16::MAX`.
    fn parse_u16<'a>(&mut self, string: &'a str) -> (r: ParseResult<'a, u16>)
        requires
            old(self).wf(string),
        ensures
            parse_step(*old(self), *final(self), string, r),
            run_end(string@, old(self).index as int, CharClass::Digit) > old(self).index ==> (r matches Ok(p) && p.value
                == digits_value(string@, old(self).index as int, run_end(string@, old(self).index as int, CharClass::Digit))
                && final(self).index == run_end(string@, old(self).index as int, CharClass::Digit)),
            run_end(string@, old(self).index as int, CharClass::Digit) == old(self).index ==> r is Err,
    {
        let start_index = self.index;
        proof {
            lemma_run_end(string@, start_index as int, CharClass::Digit);
        }
        let digits = self.run_of(string, CharClass::Digit, "digit")?.value;
        let mut result: u16 = 0;
        let mut i: usize = 0;
        while i < digits.len()
            invariant
                i <= digits@.len(),
                digits@ == string@.subrange(start_index as int, self.index as int),
                self.wf(string),
                start_index <= self.index,
                forall|k: int| start_index <= k < self.index ==> is_digit(#[trigger] string@[k]),
                result == digits_value(string@, start_index as int, start_index + i),
            decreases digits@.len() - i,
        {
            assert(digits@[i as int] == string@[start_index + i]);
            assert(is_digit(string@[start_index + i]));
            let d = (digits[i] as u8) - ('0' as u8);
            result = result.wrapping_mul(10).wrapping_add(d as u16);
            i = i + 1;
        }
        proof {
            lemma_run_end(string@, start_index as int, CharClass::Digit);
        }
        self.success(string, result, start_index, self.index - start_index)
    }

    /// A run of digits whose value is at most 255.
    fn parse_u8<'a>(&mut self, string: &'a str) -> (r: ParseResult<'a, u8>)
        requires
            old(self).wf(string),
        ensures
            parse_step(*old(self), *final(self), string, r),
            ({
                let end = run_end(string@, old(self).index as int, CharClass::Digit);
                end > old(self).index && digits_value(string@, old(self).index as int, end) <= 255 ==> (r matches Ok(p)
                    && p.value == digits_value(string@, old(self).index as int, end) && final(self).index == end)
            }),
            ({
                let end = run_end(string@, old(self).index as int, CharClass::Digit);
                !(end > old(self).index && digits_value(string@, old(self).index as int, end) <= 255) ==> r is Err
            }),
    {
        let start_location = self.index;
        proof {
            lemma_run_end(string@, start_location as int, CharClass::Digit);
        }
        let value = self.parse_u16(string)?.value;
        if value <= 255 {
            self.success(string, value as u8, start_location, self.index - start_location)
        } else {
            self.index = start_location;
            self.error(string, ParseErrorMessage::Expected("u8 needs to be in [0,255]"))
        }
    }

    /// Exactly the text `literal`.
    fn literal<'a>(&mut self, string: &'a str, literal: &'static str) -> (r: ParseResult<'a, &'static str>)
        requires
            old(self).wf(string),
        ensures
            parse_step(*old(self), *final(self), string, r),
            old(self).index + literal@.len() <= string@.len() && string@.subrange(
                old(self).index as int,
                old(self).index + literal@.len(),
            ) == literal@ ==> (r matches Ok(p) && p.value == literal && final(self).index == old(self).index
                + literal@.len()),
            !(old(self).index + literal@.len() <= string@.len() && string@.subrange(
                old(self).index as int,
                old(self).index + literal@.len(),
            ) == literal@) ==> r is Err && final(self).index == old(self).index,
    {
        let start_location = self.index;
        let n = literal.unicode_len();
        let len = ascii_len(string);
        if n > len - start_location {
            return self.error(string, ParseErrorMessage::Expected(literal));
        }
        let mut k: usize = 0;
        while k < n
            invariant
                k <= n,
                n == literal@.len(),
                start_location + n <= string@.len(),
                string@.len() < usize::MAX,
                string.is_ascii(),
                self.wf(string),
                *self == *old(self),
                start_location == old(self).index,
                forall|q: int| 0 <= q < k ==> string@[start_location + q] == literal@[q],
            decreases n - k,
        {
            if char_at(string, start_location + k) != literal.get_char(k) {
                proof {
                    assert(string@.subrange(start_location as int, start_location + n)[k as int] == string@[start_location + k]);
                }
                return self.error(string, ParseErrorMessage::Expected(literal));
            }
            k = k + 1;
        }
        assert(string@.subrange(start_location as int, start_location + n) =~= literal@);
        self.success(string, literal, start_location, n)
    }

    /// One or more white-space characters.
    fn whitespace<'a>(&mut self, string: &'a str) -> (r: ParseResult<'a, Vec<char>>)
        requires
            old(self).wf(string),
        ensures
            parse_step(*old(self), *final(self), string, r),
            run_end(string@, old(self).index as int, CharClass::Space) > old(self).index ==> (r matches Ok(_)
                && final(self).index == run_end(string@, old(self).index as int, CharClass::Space)),
            run_end(string@, old(self).index as int, CharClass::Space) == old(self).index ==> r is Err && final(self).index
                == old(self).index,
    {
        self.run_of(string, CharClass::Space, "whitespace")
    }

    /// White space where there is some; the parser goes past it.
    fn skip_whitespace(&mut self, string: &str)
        requires
            old(self).wf(string),
        ensures
            final(self).wf(string),
            final(self).index == run_end(string@, old(self).index as int, CharClass::Space),
            final(self).index >= old(self).index,
    {
        let start = self.index;
        proof {
            lemma_run_end(string@, start as int, CharClass::Space);
        }
        match self.whitespace(string) {
            Ok(_) => {},
            Err(_) => {
                self.index = start;
            },
        }
    }

    /// The end of the text.
    fn eof<'a>(&mut self, string: &'a str) -> (r: ParseResult<'a, ()>)
        requires
            old(self).wf(string),
        ensures
            parse_step(*old(self), *final(self), string, r),
            r is Ok <==> old(self).index == string@.len(),
            final(self).index == old(self).index,
    {
        if self.index == ascii_len(string) {
            self.success(string, (), self.index, 0)
        } else {
            self.error(string, ParseErrorMessage::Expected("EOF"))
        }
    }

    /// A backslash and a character: `n`, `t`, `r` and `0` stand for a newline, a tab, a carriage
    /// return and the zero character, any other for itself.
    fn escaped_char<'a>(&mut self, string: &'a str) -> (r: ParseResult<'a, char>)
        requires
            old(self).wf(string),
        ensures
            parse_step(*old(self), *final(self), string, r),
            r matches Ok(p) ==> p.len == 2 && string@[old(self).index as int] == '\\' && p.value == escape(
                string@[old(self).index + 1],
            ),
            old(self).index + 2 <= string@.len() && string@[old(self).index as int] == '\\' ==> r is Ok,
    {
        let start_location = self.index;
        proof {
            reveal_strlit("\\");
            if start_location + 2 <= string@.len() && string@[start_location as int] == '\\' {
                assert(string@.subrange(start_location as int, start_location + 1) =~= "\\"@);
            }
        }
        self.literal(string, "\\")?;
        proof {
            assert(string@.subrange(start_location as int, start_location + 1)[0] == string@[start_location as int]);
        }
        let result = self.char(string)?.value;
        let result = match result {
            'n' => '\n',
            't' => '\t',
            'r' => '\r',
            '0' => '\0',
            _ => result,
        };
        self.success(string, result, start_location, self.index - start_location)
    }
}

/// The byte of the character literal that starts at `i` and its length: `'\\c'` stands for the
/// escape of `c`, and `'c'` for `c` where `c` is not a backslash.
pub open spec fn char_literal_at(s: Seq<char>, i: int) -> Option<(u8, usize)> {
    if 0 <= i && i + 4 <= s.len() && s[i] == '\'' && s[i + 1] == '\\' && s[i + 3] == '\'' {
        Some((escape(s[i + 2]) as u8, 4))
    } else if 0 <= i && i + 3 <= s.len() && s[i] == '\'' && s[i + 1] != '\\' && s[i + 2] == '\'' {
        Some((s[i + 1] as u8, 3))
    } else {
        None
    }
}

/// The byte that starts at `i` and its length: a run of digits worth at most 255, or else a
/// character literal.
pub open spec fn u8_literal_at(s: Seq<char>, i: int) -> Option<(u8, usize)> {
    let end = run_end(s, i, CharClass::Digit);
    if end > i && digits_value(s, i, end) <= 255 {
        Some((digits_value(s, i, end) as u8, (end - i) as usize))
    } else {
        char_literal_at(s, i)
    }
}

/// The characters of a string literal's body from `k` on, and where the body ends: `\\c`
/// stands for the escape of `c`, and any other character but `"` for itself.
pub open spec fn string_body(s: Seq<char>, k: int) -> (Seq<char>, int)
    decreases s.len() - k,
{
    if k < 0 || k >= s.len() {
        (Seq::empty(), k)
    } else if s[k] == '\\' && k + 2 <= s.len() {
        let rest = string_body(s, k + 2);
        (seq![escape(s[k + 1])] + rest.0, rest.1)
    } else if s[k] != '"' {
        let rest = string_body(s, k + 1);
        (seq![s[k]] + rest.0, rest.1)
    } else {
        (Seq::empty(), k)
    }
}

/// The text printed by the print instruction that starts at `i`, and where it ends:
/// `print ( "body" ) ;` with white space allowed between the parts.
pub open spec fn print_at(s: Seq<char>, i: int) -> Option<(Seq<char>, usize)> {
    let a = run_end(s, i + 5, CharClass::Space);
    let b = run_end(s, a + 1, CharClass::Space);
    let body = string_body(s, b + 1);
    let c = run_end(s, body.1 + 1, CharClass::Space);
    let d = run_end(s, c + 1, CharClass::Space);
    if text_at(s, i, "print"@) && text_at(s, a, "("@) && text_at(s, b, "\""@) && text_at(s, body.1, "\""@)
        && text_at(s, c, ")"@) && text_at(s, d, ";"@) {
        Some((body.0, (d + 1) as usize))
    } else {
        None
    }
}

/// The truth value that starts at `i`, and where it ends.
pub open spec fn bool_at(s: Seq<char>, i: int) -> Option<(SpecConstant, int)> {
    if text_at(s, i, "true"@) {
        Some((SpecConstant::Bool(true), i + 4))
    } else if text_at(s, i, "false"@) {
        Some((SpecConstant::Bool(false), i + 5))
    } else {
        None
    }
}

/// The bytes from `start` up to `end`, by `step`.
pub open spec fn range_values(start: int, end: int, step: int) -> Seq<SpecConstant>
    decreases if start < end {
        end - start
    } else {
        0
    },
{
    if step <= 0 || start >= end {
        Seq::empty()
    } else {
        seq![SpecConstant::U8(start as u8)] + range_values(start + step, end, step)
    }
}

/// The step of a range that starts at `i`, and where it ends: `..` and a number up to 255,
/// with the white space around the number.
pub open spec fn range_step_at(s: Seq<char>, i: int) -> Option<(u8, int)> {
    let e = run_end(s, i + 2, CharClass::Space);
    let g = run_end(s, e, CharClass::Digit);
    if text_at(s, i, ".."@) && g > e && digits_value(s, e, g) <= 255 {
        Some((digits_value(s, e, g) as u8, run_end(s, g, CharClass::Space)))
    } else {
        None
    }
}

/// The range array that starts at `i`, and where it ends: `[start..end]` or
/// `[start..end..step]` with a step of at least one, white space allowed between the parts.
pub open spec fn range_at(s: Seq<char>, i: int) -> Option<(SpecConstant, int)> {
    let a = run_end(s, i + 1, CharClass::Space);
    match u8_literal_at(s, a) {
        None => None,
        Some(first) => {
            let b = run_end(s, a + first.1, CharClass::Space);
            let c = run_end(s, b + 2, CharClass::Space);
            match u8_literal_at(s, c) {
                None => None,
                Some(last) => {
                    let d = run_end(s, c + last.1, CharClass::Space);
                    let step = match range_step_at(s, d) {
                        Some(found) => found,
                        None => (1u8, d),
                    };
                    if text_at(s, i, "["@) && text_at(s, b, ".."@) && text_at(s, step.1, "]"@) && step.0 > 0 {
                        Some((SpecConstant::Array(range_values(first.0 as int, last.0 as int, step.0 as int)), step.1 + 1))
                    } else {
                        None
                    }
                },
            }
        },
    }
}

/// The constant that starts at `i`, and where it ends: a byte, a truth value, a list of
/// constants, a repeated constant or a range, tried in that order.
pub open spec fn constant_at(s: Seq<char>, i: int) -> Option<(SpecConstant, int)>
    decreases s.len() - i, 1int,
{
    if i < 0 || i > s.len() {
        None
    } else {
        match u8_literal_at(s, i) {
            Some(b) => Some((SpecConstant::U8(b.0), i + b.1)),
            None => match bool_at(s, i) {
                Some(found) => Some(found),
                None => match array_at(s, i) {
                    Some(found) => Some(found),
                    None => match repeat_at(s, i) {
                        Some(found) => Some(found),
                        None => range_at(s, i),
                    },
                },
            },
        }
    }
}

/// The elements of a list from `i` on, and where the list ends: constants separated by commas,
/// with white space around them.
pub open spec fn list_at(s: Seq<char>, i: int) -> Option<(Seq<SpecConstant>, int)>
    decreases s.len() - i, 2int,
{
    let j = run_end(s, i, CharClass::Space);
    if i < 0 || i > s.len() || j < i || j > s.len() {
        None
    } else {
        match constant_at(s, j) {
            None => None,
            Some(c) => {
                let k = run_end(s, c.1, CharClass::Space);
                if k < i {
                    None
                } else if text_at(s, k, ","@) {
                    proof {
                        reveal_strlit(",");
                    }
                    match list_at(s, k + 1) {
                        Some(rest) => Some((seq![c.0] + rest.0, rest.1)),
                        None => None,
                    }
                } else {
                    Some((seq![c.0], k))
                }
            },
        }
    }
}

/// The list array that starts at `i`, and where it ends: `[`, the elements and `]`.
pub open spec fn array_at(s: Seq<char>, i: int) -> Option<(SpecConstant, int)>
    decreases s.len() - i, 0int,
{
    if !text_at(s, i, "["@) {
        None
    } else {
        proof {
            reveal_strlit("[");
        }
        match list_at(s, i + 1) {
            None => None,
            Some(l) => {
                let f = run_end(s, l.1, CharClass::Space);
                if text_at(s, f, "]"@) {
                    Some((SpecConstant::Array(l.0), f + 1))
                } else {
                    None
                }
            },
        }
    }
}

/// The repeated constant that starts at `i`, and where it ends: `[constant; n]` with white space
/// allowed between the parts, `n` read as digits wrapping past `u16::MAX`.
pub open spec fn repeat_at(s: Seq<char>, i: int) -> Option<(SpecConstant, int)>
    decreases s.len() - i, 0int,
{
    let a = run_end(s, i + 1, CharClass::Space);
    if !text_at(s, i, "["@) || a <= i || a > s.len() {
        None
    } else {
        match constant_at(s, a) {
            None => None,
            Some(c) => {
                let b = run_end(s, c.1, CharClass::Space);
                let d = run_end(s, b + 1, CharClass::Space);
                let e = run_end(s, d, CharClass::Digit);
                let f = run_end(s, e, CharClass::Space);
                if text_at(s, b, ";"@) && e > d && text_at(s, f, "]"@) {
                    Some((SpecConstant::Array(Seq::new(digits_value(s, d, e) as nat, |k: int| c.0)), f + 1))
                } else {
                    None
                }
            },
        }
    }
}

/// The mathematical model of an [`Expression`]: names as their characters, and the binary
/// operations by their operator.
pub enum SpecExpr {
    Constant(SpecConstant),
    Variable(Seq<char>),
    Index(Seq<char>, Seq<SpecExpr>),
    Read,
    Not(Box<SpecExpr>),
    Binary(BinaryOperator, Box<SpecExpr>, Box<SpecExpr>),
}

/// The model of an expression.
pub open spec fn expr_view<'a>(e: Expression<'a>) -> SpecExpr
    decreases e,
{
    match e {
        Expression::Constant(c) => SpecExpr::Constant(c@),
        Expression::LValue(l) => lvalue_view(l),
        Expression::Read => SpecExpr::Read,
        Expression::Not(a) => SpecExpr::Not(Box::new(expr_view(*a))),
        Expression::Add(a, b) => SpecExpr::Binary(BinaryOperator::Add, Box::new(expr_view(*a)), Box::new(expr_view(*b))),
        Expression::Sub(a, b) => SpecExpr::Binary(BinaryOperator::Sub, Box::new(expr_view(*a)), Box::new(expr_view(*b))),
        Expression::Mul(a, b) => SpecExpr::Binary(BinaryOperator::Mul, Box::new(expr_view(*a)), Box::new(expr_view(*b))),
        Expression::Div(a, b) => SpecExpr::Binary(BinaryOperator::Div, Box::new(expr_view(*a)), Box::new(expr_view(*b))),
        Expression::Mod(a, b) => SpecExpr::Binary(BinaryOperator::Mod, Box::new(expr_view(*a)), Box::new(expr_view(*b))),
        Expression::And(a, b) => SpecExpr::Binary(BinaryOperator::And, Box::new(expr_view(*a)), Box::new(expr_view(*b))),
        Expression::Or(a, b) => SpecExpr::Binary(BinaryOperator::Or, Box::new(expr_view(*a)), Box::new(expr_view(*b))),
        Expression::Equals(a, b) => SpecExpr::Binary(BinaryOperator::Eq, Box::new(expr_view(*a)), Box::new(expr_view(*b))),
        Expression::NotEquals(a, b) => SpecExpr::Binary(BinaryOperator::Neq, Box::new(expr_view(*a)), Box::new(expr_view(*b))),
        Expression::LessThanEquals(a, b) => SpecExpr::Binary(BinaryOperator::Leq, Box::new(expr_view(*a)), Box::new(expr_view(*b))),
        Expression::GreaterThanEquals(a, b) => SpecExpr::Binary(BinaryOperator::Geq, Box::new(expr_view(*a)), Box::new(expr_view(*b))),
        Expression::LessThan(a, b) => SpecExpr::Binary(BinaryOperator::Lt, Box::new(expr_view(*a)), Box::new(expr_view(*b))),
        Expression::GreaterThan(a, b) => SpecExpr::Binary(BinaryOperator::Gt, Box::new(expr_view(*a)), Box::new(expr_view(*b))),
    }
}

/// The model of an assignable expression.
pub open spec fn lvalue_view<'a>(l: LValueExpression<'a>) -> SpecExpr
    decreases l,
{
    match l {
        LValueExpression::Variable(name) => SpecExpr::Variable(name@),
        LValueExpression::Index(name, indices) => SpecExpr::Index(name@, exprs_view(indices@)),
    }
}

/// The models of a sequence of expressions.
pub open spec fn exprs_view<'a>(s: Seq<Expression<'a>>) -> Seq<SpecExpr>
    decreases s,
{
    Seq::new(
        s.len(),
        |i: int|
            if 0 <= i < s.len() {
                expr_view(s[i])
            } else {
                SpecExpr::Read
            },
    )
}

/// A chain of binary operations, as [`ExpressionParseTree`] holds it.
pub enum SpecParseTree {
    Leaf(SpecExpr),
    Branch(BinaryOperator, Box<SpecParseTree>, Box<SpecParseTree>),
}

/// The model of a parse tree.
pub open spec fn parse_tree_view<'a>(t: ExpressionParseTree<'a>) -> SpecParseTree
    decreases t,
{
    match t {
        ExpressionParseTree::Leaf(e) => SpecParseTree::Leaf(expr_view(e)),
        ExpressionParseTree::Branch(op, a, b) => SpecParseTree::Branch(
            op,
            Box::new(parse_tree_view(*a)),
            Box::new(parse_tree_view(*b)),
        ),
    }
}

/// The tree with `op` and `rhs` added: at the top where `op` binds more loosely than the
/// operator there, on the right operand of the top otherwise.
pub open spec fn spec_extend(t: SpecParseTree, op: BinaryOperator, rhs: SpecExpr) -> SpecParseTree {
    match t {
        SpecParseTree::Leaf(_) => SpecParseTree::Branch(op, Box::new(t), Box::new(SpecParseTree::Leaf(rhs))),
        SpecParseTree::Branch(current, a, b) => if operator_precedence(op) > operator_precedence(current) {
            SpecParseTree::Branch(op, Box::new(t), Box::new(SpecParseTree::Leaf(rhs)))
        } else {
            SpecParseTree::Branch(current, a, Box::new(SpecParseTree::Branch(op, b, Box::new(SpecParseTree::Leaf(rhs)))))
        },
    }
}

/// The tree with each operator and operand added in turn.
pub open spec fn fold_operations(t: SpecParseTree, ops: Seq<(BinaryOperator, SpecExpr)>) -> SpecParseTree
    decreases ops.len(),
{
    if ops.len() == 0 {
        t
    } else {
        fold_operations(spec_extend(t, ops[0].0, ops[0].1), ops.drop_first())
    }
}

/// The expression a tree stands for.
pub open spec fn spec_tree_expr(t: SpecParseTree) -> SpecExpr
    decreases t,
{
    match t {
        SpecParseTree::Leaf(e) => e,
        SpecParseTree::Branch(op, a, b) => SpecExpr::Binary(op, Box::new(spec_tree_expr(*a)), Box::new(spec_tree_expr(*b))),
    }
}

/// The variable name that starts at `i`, and where it ends.
pub open spec fn name_at(s: Seq<char>, i: int) -> Option<(Seq<char>, int)> {
    let e = run_end(s, i, CharClass::NameChar);
    if 0 <= i && e > i && e <= s.len() {
        Some((s.subrange(i, e), e))
    } else {
        None
    }
}

/// The indices of an element from `i` on, and where they end: numbers up to 255 separated by
/// commas, with white space around them.
pub open spec fn index_list_at(s: Seq<char>, i: int) -> Option<(Seq<SpecExpr>, int)>
    decreases s.len() - i,
{
    let j = run_end(s, i, CharClass::Space);
    let e = run_end(s, j, CharClass::Digit);
    let k = run_end(s, e, CharClass::Space);
    if i < 0 || i > s.len() || j < i || k < i || !(e > j && digits_value(s, j, e) <= 255) {
        None
    } else {
        let c = SpecExpr::Constant(SpecConstant::U8(digits_value(s, j, e) as u8));
        if text_at(s, k, ","@) {
            proof {
                reveal_strlit(",");
            }
            match index_list_at(s, k + 1) {
                Some(rest) => Some((seq![c] + rest.0, rest.1)),
                None => None,
            }
        } else {
            Some((seq![c], k))
        }
    }
}

/// The element of an array variable that starts at `i`, and where it ends: the name, `[`, the
/// indices and `]`.
pub open spec fn indexing_at(s: Seq<char>, i: int) -> Option<(SpecExpr, int)> {
    match name_at(s, i) {
        None => None,
        Some(name) => {
            let a = run_end(s, name.1, CharClass::Space);
            match index_list_at(s, a + 1) {
                Some(indices) => if text_at(s, a, "["@) && text_at(s, indices.1, "]"@) {
                    Some((SpecExpr::Index(name.0, indices.0), indices.1 + 1))
                } else {
                    None
                },
                None => None,
            }
        },
    }
}

/// The expression that starts at `i`, and where it ends.
pub open spec fn expression_at(s: Seq<char>, i: int) -> Option<(SpecExpr, int)>
    decreases s.len() - i, 4int,
{
    binary_at(s, i)
}

/// Leaf expressions joined by binary operators that start at `i`, and where they end.
pub open spec fn binary_at(s: Seq<char>, i: int) -> Option<(SpecExpr, int)>
    decreases s.len() - i, 3int,
{
    match leaf_at(s, i) {
        None => None,
        Some(first) => if first.1 <= i || first.1 > s.len() {
            None
        } else {
            let ops = operations_at(s, first.1);
            Some((spec_tree_expr(fold_operations(SpecParseTree::Leaf(first.0), ops.0)), ops.1))
        },
    }
}

/// The operators and leaf expressions that follow from `k` on, and where they end: each
/// operator with white space around it and the leaf after it.
pub open spec fn operations_at(s: Seq<char>, k: int) -> (Seq<(BinaryOperator, SpecExpr)>, int)
    decreases s.len() - k, 3int,
{
    let a = run_end(s, k, CharClass::Space);
    if k < 0 || k > s.len() || a < k || a > s.len() {
        (Seq::empty(), k)
    } else {
        match operator_at(s, a) {
            None => (Seq::empty(), k),
            Some(op) => {
                let b = run_end(s, a + operator_text(op).len(), CharClass::Space);
                if b <= k || b > s.len() {
                    (Seq::empty(), k)
                } else {
                    match leaf_at(s, b) {
                        None => (Seq::empty(), k),
                        Some(leaf) => if leaf.1 <= k || leaf.1 > s.len() {
                            (Seq::empty(), k)
                        } else {
                            let rest = operations_at(s, leaf.1);
                            (seq![(op, leaf.0)] + rest.0, rest.1)
                        },
                    }
                }
            },
        }
    }
}

/// The leaf expression that starts at `i`, and where it ends: a constant, an element of an
/// array, a variable, an expression between parentheses or a negation, tried in that order.
pub open spec fn leaf_at(s: Seq<char>, i: int) -> Option<(SpecExpr, int)>
    decreases s.len() - i, 2int,
{
    match constant_at(s, i) {
        Some(c) => Some((SpecExpr::Constant(c.0), c.1)),
        None => match indexing_at(s, i) {
            Some(found) => Some(found),
            None => match name_at(s, i) {
                Some(name) => Some((SpecExpr::Variable(name.0), name.1)),
                None => match parens_at(s, i) {
                    Some(found) => Some(found),
                    None => not_at(s, i),
                },
            },
        },
    }
}

/// The expression between parentheses that starts at `i`, and where it ends.
pub open spec fn parens_at(s: Seq<char>, i: int) -> Option<(SpecExpr, int)>
    decreases s.len() - i, 1int,
{
    let a = run_end(s, i + 1, CharClass::Space);
    if !text_at(s, i, "("@) || a <= i || a > s.len() {
        None
    } else {
        match expression_at(s, a) {
            None => None,
            Some(inner) => {
                let b = run_end(s, inner.1, CharClass::Space);
                if text_at(s, b, ")"@) {
                    Some((inner.0, b + 1))
                } else {
                    None
                }
            },
        }
    }
}

/// The negation that starts at `i`, and where it ends: `!` and a leaf expression.
pub open spec fn not_at(s: Seq<char>, i: int) -> Option<(SpecExpr, int)>
    decreases s.len() - i, 1int,
{
    let a = run_end(s, i + 1, CharClass::Space);
    if !text_at(s, i, "!"@) || a <= i || a > s.len() {
        None
    } else {
        match leaf_at(s, a) {
            None => None,
            Some(inner) => Some((SpecExpr::Not(Box::new(inner.0)), inner.1)),
        }
    }
}

/// One step of [`index_list_at`]: an index, then either a comma and more indices or the end.
proof fn lemma_index_list_step(s: Seq<char>, i: int)
    requires
        0 <= i <= s.len(),
    ensures
        ({
            let j = run_end(s, i, CharClass::Space);
            let e = run_end(s, j, CharClass::Digit);
            let k = run_end(s, e, CharClass::Space);
            let c = SpecExpr::Constant(SpecConstant::U8(digits_value(s, j, e) as u8));
            &&& !(e > j && digits_value(s, j, e) <= 255) ==> index_list_at(s, i) is None
            &&& (e > j && digits_value(s, j, e) <= 255 && text_at(s, k, ","@)) ==> index_list_at(s, i) == match index_list_at(s, k + 1) {
                Some(rest) => Some((seq![c] + rest.0, rest.1)),
                None => None,
            }
            &&& (e > j && digits_value(s, j, e) <= 255 && !text_at(s, k, ","@)) ==> index_list_at(s, i) == Some((seq![c], k))
        }),
{
    let j = run_end(s, i, CharClass::Space);
    lemma_run_end(s, i, CharClass::Space);
    let e = run_end(s, j, CharClass::Digit);
    lemma_run_end(s, j, CharClass::Digit);
    lemma_run_end(s, e, CharClass::Space);
}

proof fn lemma_operator_view<'a>(op: BinaryOperator, a: Expression<'a>, b: Expression<'a>)
    ensures
        expr_view(operator_expression(op, a, b)) == SpecExpr::Binary(op, Box::new(expr_view(a)), Box::new(expr_view(b))),
{
}

proof fn lemma_tree_expression_view<'a>(t: ExpressionParseTree<'a>)
    ensures
        expr_view(tree_expression(t)) == spec_tree_expr(parse_tree_view(t)),
    decreases t,
{
    match t {
        ExpressionParseTree::Leaf(_) => {},
        ExpressionParseTree::Branch(op, a, b) => {
            lemma_tree_expression_view(*a);
            lemma_tree_expression_view(*b);
            lemma_operator_view(op, tree_expression(*a), tree_expression(*b));
        },
    }
}

/// The mathematical model of an [`Instruction`]: names as their characters.
pub enum SpecInstr {
    Define(Seq<char>, Option<Type>, bool, SpecExpr),
    Assign(SpecExpr, SpecExpr),
    AddAssign(Seq<char>, SpecExpr),
    SubAssign(Seq<char>, SpecExpr),
    Write(SpecExpr),
    Print(Seq<char>),
    Scope(Seq<SpecInstr>),
    While(SpecExpr, Seq<SpecInstr>),
    IfThenElse(SpecExpr, Seq<SpecInstr>, Seq<SpecInstr>),
    ForEach(Seq<char>, SpecExpr, Seq<SpecInstr>),
}

/// The model of an instruction.
pub open spec fn instr_view<'a>(i: Instruction<'a>) -> SpecInstr
    decreases i,
{
    match i {
        Instruction::Define { name, value_type, mutable, value } => SpecInstr::Define(name@, value_type, mutable, expr_view(value)),
        Instruction::Assign { name, value } => SpecInstr::Assign(lvalue_view(name), expr_view(value)),
        Instruction::AddAssign { name, value } => SpecInstr::AddAssign(name@, expr_view(value)),
        Instruction::SubAssign { name, value } => SpecInstr::SubAssign(name@, expr_view(value)),
        Instruction::Write { expression } => SpecInstr::Write(expr_view(expression)),
        Instruction::Print { string } => SpecInstr::Print(string@),
        Instruction::Scope { body } => SpecInstr::Scope(instrs_view(body@)),
        Instruction::While { predicate, body } => SpecInstr::While(expr_view(predicate), instrs_view(body@)),
        Instruction::IfThenElse { predicate, if_body, else_body } => SpecInstr::IfThenElse(
            expr_view(predicate),
            instrs_view(if_body@),
            instrs_view(else_body@),
        ),
        Instruction::ForEach { loop_variable, array, body } => SpecInstr::ForEach(
            loop_variable@,
            expr_view(array),
            instrs_view(body@),
        ),
    }
}

/// The models of a sequence of instructions.
pub open spec fn instrs_view<'a>(s: Seq<Instruction<'a>>) -> Seq<SpecInstr>
    decreases s,
{
    Seq::new(
        s.len(),
        |i: int|
            if 0 <= i < s.len() {
                instr_view(s[i])
            } else {
                SpecInstr::Print(Seq::empty())
            },
    )
}

/// `let` (immutable) or `mut` (mutable) at `i`, and where it ends.
pub open spec fn mutability_at(s: Seq<char>, i: int) -> Option<(bool, int)> {
    if text_at(s, i, "let"@) {
        Some((false, i + 3))
    } else if text_at(s, i, "mut"@) {
        Some((true, i + 3))
    } else {
        None
    }
}

/// The type annotation at `i`, and where it ends: `:`, the type, and the white space around
/// the type.
pub open spec fn type_annotation_at(s: Seq<char>, i: int) -> Option<(Type, int)> {
    let a = run_end(s, i + 1, CharClass::Space);
    if !text_at(s, i, ":"@) {
        None
    } else {
        match type_at(s, a) {
            Some(t) => Some((t.0, run_end(s, t.1 as int, CharClass::Space))),
            None => None,
        }
    }
}

/// The definition at `i`, and where it ends: `let` or `mut`, white space, a name, an optional
/// type annotation, `=`, an expression and `;`.
pub open spec fn definition_at(s: Seq<char>, i: int) -> Option<(SpecInstr, int)> {
    match mutability_at(s, i) {
        None => None,
        Some(m) => {
            let w = run_end(s, m.1, CharClass::Space);
            match name_at(s, w) {
                None => None,
                Some(name) => {
                    let a = run_end(s, name.1, CharClass::Space);
                    let annotation = type_annotation_at(s, a);
                    let b = match annotation {
                        Some(t) => t.1,
                        None => a,
                    };
                    let value_type = match annotation {
                        Some(t) => Some(t.0),
                        None => None,
                    };
                    let c = run_end(s, b + 1, CharClass::Space);
                    match expression_at(s, c) {
                        None => None,
                        Some(e) => {
                            let d = run_end(s, e.1, CharClass::Space);
                            if w > m.1 && text_at(s, b, "="@) && text_at(s, d, ";"@) {
                                Some((SpecInstr::Define(name.0, value_type, m.0, e.0), d + 1))
                            } else {
                                None
                            }
                        },
                    }
                },
            }
        },
    }
}

/// A name, the operator `op`, an expression and `;` at `i`: the name, the expression, and
/// where they end.
pub open spec fn name_operator_at(s: Seq<char>, i: int, op: Seq<char>) -> Option<(Seq<char>, SpecExpr, int)> {
    match name_at(s, i) {
        None => None,
        Some(name) => {
            let a = run_end(s, name.1, CharClass::Space);
            let b = run_end(s, a + op.len(), CharClass::Space);
            match expression_at(s, b) {
                None => None,
                Some(e) => {
                    let d = run_end(s, e.1, CharClass::Space);
                    if text_at(s, a, op) && text_at(s, d, ";"@) {
                        Some((name.0, e.0, d + 1))
                    } else {
                        None
                    }
                },
            }
        },
    }
}

/// The read instruction at `i`, and where it ends: `read ( name ) ;`.
pub open spec fn read_at(s: Seq<char>, i: int) -> Option<(SpecInstr, int)> {
    let a = run_end(s, i + 4, CharClass::Space);
    let b = run_end(s, a + 1, CharClass::Space);
    match name_at(s, b) {
        None => None,
        Some(name) => {
            let c = run_end(s, name.1, CharClass::Space);
            let d = run_end(s, c + 1, CharClass::Space);
            if text_at(s, i, "read"@) && text_at(s, a, "("@) && text_at(s, c, ")"@) && text_at(s, d, ";"@) {
                Some((SpecInstr::Assign(SpecExpr::Variable(name.0), SpecExpr::Read), d + 1))
            } else {
                None
            }
        },
    }
}

/// The write instruction at `i`, and where it ends: `write ( expression ) ;`.
pub open spec fn write_at(s: Seq<char>, i: int) -> Option<(SpecInstr, int)> {
    let a = run_end(s, i + 5, CharClass::Space);
    let b = run_end(s, a + 1, CharClass::Space);
    if !(text_at(s, i, "write"@) && text_at(s, a, "("@)) {
        None
    } else {
        match expression_at(s, b) {
            None => None,
            Some(e) => {
                let c = run_end(s, e.1, CharClass::Space);
                let d = run_end(s, c + 1, CharClass::Space);
                if text_at(s, c, ")"@) && text_at(s, d, ";"@) {
                    Some((SpecInstr::Write(e.0), d + 1))
                } else {
                    None
                }
            },
        }
    }
}

/// Instructions between braces at `i`: the instructions, and where the braces end.
pub open spec fn block_at(s: Seq<char>, i: int) -> Option<(Seq<SpecInstr>, int)>
    decreases s.len() - i, 0int,
{
    if !text_at(s, i, "{"@) {
        None
    } else {
        proof {
            reveal_strlit("{");
        }
        let body = instructions_at(s, i + 1);
        if text_at(s, body.1, "}"@) {
            Some((body.0, body.1 + 1))
        } else {
            None
        }
    }
}

/// The while loop at `i`, and where it ends: `while`, white space, an expression and a block.
pub open spec fn while_at(s: Seq<char>, i: int) -> Option<(SpecInstr, int)>
    decreases s.len() - i, 1int,
{
    let a = run_end(s, i + 5, CharClass::Space);
    if !text_at(s, i, "while"@) || a <= i + 5 {
        None
    } else {
        match expression_at(s, a) {
            None => None,
            Some(e) => {
                let b = run_end(s, e.1, CharClass::Space);
                if b <= i || b > s.len() {
                    None
                } else {
                    match block_at(s, b) {
                        Some(body) => Some((SpecInstr::While(e.0, body.0), body.1)),
                        None => None,
                    }
                }
            },
        }
    }
}

/// The else branch at `i`, and where it ends: white space, `else` and a block.
pub open spec fn else_at(s: Seq<char>, i: int) -> Option<(Seq<SpecInstr>, int)>
    decreases s.len() - i, 1int,
{
    let a = run_end(s, i, CharClass::Space);
    let b = run_end(s, a + 4, CharClass::Space);
    if i < 0 || !text_at(s, a, "else"@) || b <= i || b > s.len() {
        None
    } else {
        block_at(s, b)
    }
}

/// The head of a conditional at `i`: `if`, white space, an expression and a block; the
/// condition, the block's instructions, and where the block ends.
pub open spec fn if_head_at(s: Seq<char>, i: int) -> Option<(SpecExpr, Seq<SpecInstr>, int)>
    decreases s.len() - i, 1int,
{
    let a = run_end(s, i + 2, CharClass::Space);
    if !text_at(s, i, "if"@) || a <= i + 2 {
        None
    } else {
        match expression_at(s, a) {
            None => None,
            Some(e) => {
                let b = run_end(s, e.1, CharClass::Space);
                if b <= i || b > s.len() {
                    None
                } else {
                    match block_at(s, b) {
                        None => None,
                        Some(then_body) => Some((e.0, then_body.0, then_body.1)),
                    }
                }
            },
        }
    }
}

/// The conditional at `i`, and where it ends: its head and an optional else branch.
pub open spec fn if_else_at(s: Seq<char>, i: int) -> Option<(SpecInstr, int)>
    decreases s.len() - i, 2int,
{
    match if_head_at(s, i) {
        None => None,
        Some(head) => if head.2 <= i || head.2 > s.len() {
            None
        } else {
            match else_at(s, head.2) {
                Some(else_body) => Some((SpecInstr::IfThenElse(head.0, head.1, else_body.0), else_body.1)),
                None => Some((SpecInstr::IfThenElse(head.0, head.1, Seq::empty()), head.2)),
            }
        },
    }
}

/// The instruction at `i`, and where it ends: the first of a definition, an assignment, an
/// addition, a subtraction, a read, a write, a print, a block, a while loop and a conditional
/// that stands there.
pub open spec fn instruction_at(s: Seq<char>, i: int) -> Option<(SpecInstr, int)>
    decreases s.len() - i, 3int,
{
    match definition_at(s, i) {
        Some(found) => Some(found),
        None => match name_operator_at(s, i, "="@) {
            Some(found) => Some((SpecInstr::Assign(SpecExpr::Variable(found.0), found.1), found.2)),
            None => match name_operator_at(s, i, "+="@) {
                Some(found) => Some((SpecInstr::AddAssign(found.0, found.1), found.2)),
                None => match name_operator_at(s, i, "-="@) {
                    Some(found) => Some((SpecInstr::SubAssign(found.0, found.1), found.2)),
                    None => match read_at(s, i) {
                        Some(found) => Some(found),
                        None => match write_at(s, i) {
                            Some(found) => Some(found),
                            None => match print_at(s, i) {
                                Some(found) => Some((SpecInstr::Print(found.0), found.1 as int)),
                                None => match block_at(s, i) {
                                    Some(found) => Some((SpecInstr::Scope(found.0), found.1)),
                                    None => match while_at(s, i) {
                                        Some(found) => Some(found),
                                        None => if_else_at(s, i),
                                    },
                                },
                            },
                        },
                    },
                },
            },
        },
    }
}

/// The instructions from `i` on, each after white space, and where they end with the white
/// space after them.
pub open spec fn instructions_at(s: Seq<char>, i: int) -> (Seq<SpecInstr>, int)
    decreases s.len() - i, 4int,
{
    let a = run_end(s, i, CharClass::Space);
    if i < 0 || i > s.len() || a < i || a > s.len() {
        (Seq::empty(), a)
    } else {
        match instruction_at(s, a) {
            None => (Seq::empty(), a),
            Some(x) => if x.1 <= i || x.1 > s.len() {
                (Seq::empty(), a)
            } else {
                let rest = instructions_at(s, x.1);
                (seq![x.0] + rest.0, rest.1)
            },
        }
    }
}

/// The character that a backslash and `c` stand for.
pub open spec fn escape(c: char) -> char {
    if c == 'n' {
        '\n'
    } else if c == 't' {
        '\t'
    } else if c == 'r' {
        '\r'
    } else if c == '0' {
        '\0'
    } else {
        c
    }
}


/// A backslash escape changes the character, into a control one, exactly after `n`, `t`, `r`
/// and `0`: a
/// newline (byte 10), a tab (byte 9), a carriage return (byte 13) and the zero byte; after any
/// other character it stands for that character.
pub proof fn lemma_escape_table(c: char)
    ensures
        escape(c) != c <==> (c == 'n' || c == 't' || c == 'r' || c == '0'),
        (escape(c) as u32) < 32 && (c as u32) >= 32 <==> (c == 'n' || c == 't' || c == 'r' || c == '0'),
        c == 'n' ==> escape(c) as u32 == 10,
        c == 't' ==> escape(c) as u32 == 9,
        c == 'r' ==> escape(c) as u32 == 13,
        c == '0' ==> escape(c) as u32 == 0,
        !(c == 'n' || c == 't' || c == 'r' || c == '0') ==> escape(c) == c,
{
    assert(('n' as u32) == 110 && ('t' as u32) == 116 && ('r' as u32) == 114 && ('0' as u32) == 48);
    assert(('\n' as u32) == 10 && ('\t' as u32) == 9 && ('\r' as u32) == 13 && ('\0' as u32) == 0);
}

impl BrainCrabParser {
    /// A character between single quotes, escaped or not, as its byte.
    pub fn parse_char_literal<'a>(&mut self, string: &'a str) -> (r: ParseResult<'a, u8>)
        requires
            old(self).wf(string),
        ensures
            parse_step(*old(self), *final(self), string, r),
            match char_literal_at(string@, old(self).index as int) {
                Some(found) => (r matches Ok(p) && p.value == found.0 && p.len == found.1),
                None => r is Err,
            },
    {
        let start_location = self.index;
        let ghost s = string@;
        let ghost i = start_location as int;
        proof {
            reveal_strlit("'");
            if i + 1 <= s.len() {
                assert(s.subrange(i, i + 1)[0] == s[i]);
                if s[i] == '\'' {
                    assert(s.subrange(i, i + 1) =~= "'"@);
                }
            }
        }
        self.literal(string, "'")?;
        let inner_start = self.index;
        let escaped = match self.escaped_char(string) {
            Ok(p) => Some(p.value),
            Err(_) => None,
        };
        let c = match escaped {
            Some(c) => c,
            None => {
                self.index = inner_start;
                match self.char(string) {
                    Ok(p) => p.value,
                    Err(_) => {
                        self.index = inner_start;
                        return self.error(string, ParseErrorMessage::IgnoreError);
                    },
                }
            },
        };
        let close = self.index;
        proof {
            if close + 1 <= s.len() {
                assert(s.subrange(close as int, close + 1)[0] == s[close as int]);
                if s[close as int] == '\'' {
                    assert(s.subrange(close as int, close + 1) =~= "'"@);
                }
            }
        }
        self.literal(string, "'")?;
        #[verifier::truncate]
        let byte = c as u8;
        self.success(string, byte, start_location, self.index - start_location)
    }

    /// A byte: a number up to 255 or a character literal.
    pub fn parse_u8_literal<'a>(&mut self, string: &'a str) -> (r: ParseResult<'a, u8>)
        requires
            old(self).wf(string),
        ensures
            parse_step(*old(self), *final(self), string, r),
            match u8_literal_at(string@, old(self).index as int) {
                Some(found) => (r matches Ok(p) && p.value == found.0 && p.len == found.1),
                None => r is Err,
            },
            r matches Ok(p) ==> p.len > 0,
    {
        let start_location = self.index;
        match self.parse_u8(string) {
            Ok(p) => {
                proof {
                    lemma_run_end(string@, start_location as int, CharClass::Digit);
                }
                return self.success(string, p.value, start_location, self.index - start_location);
            },
            Err(_) => {
                self.index = start_location;
            },
        }
        match self.parse_char_literal(string) {
            Ok(p) => {
                return self.success(string, p.value, start_location, self.index - start_location);
            },
            Err(_) => {
                self.index = start_location;
            },
        }
        self.error(string, ParseErrorMessage::IgnoreError)
    }

    /// A byte constant.
    pub fn parse_u8_constant<'a>(&mut self, string: &'a str) -> (r: ParseResult<'a, ConstantValue>)
        requires
            old(self).wf(string),
        ensures
            parse_step(*old(self), *final(self), string, r),
            match u8_literal_at(string@, old(self).index as int) {
                Some(found) => (r matches Ok(p) && p.value == ConstantValue::U8(found.0) && p.len == found.1),
                None => r is Err,
            },
            r matches Ok(p) ==> p.len > 0 && p.value is U8,
    {
        let parsed = self.parse_u8_literal(string)?;
        let value = parsed.value;
        Ok(parsed.with(ConstantValue::U8(value)))
    }

    /// `true` or `false`.
    pub fn parse_bool_constant<'a>(&mut self, string: &'a str) -> (r: ParseResult<'a, ConstantValue>)
        requires
            old(self).wf(string),
        ensures
            parse_step(*old(self), *final(self), string, r),
            match bool_at(string@, old(self).index as int) {
                Some(found) => (r matches Ok(p) && p.value@ == found.0 && final(self).index == found.1),
                None => r is Err,
            },
            r matches Ok(p) ==> p.len > 0 && (p.value == ConstantValue::Bool(true) <==> p.span@ == "true"@)
                && (p.value == ConstantValue::Bool(false) <==> p.span@ == "false"@) && p.value is Bool,
    {
        let start_location = self.index;
        proof {
            reveal_strlit("true");
            reveal_strlit("false");
        }
        match self.literal(string, "true") {
            Ok(_) => {
                return self.success(string, ConstantValue::Bool(true), start_location, self.index - start_location);
            },
            Err(_) => {
                self.index = start_location;
            },
        }
        match self.literal(string, "false") {
            Ok(_) => {
                return self.success(string, ConstantValue::Bool(false), start_location, self.index - start_location);
            },
            Err(_) => {
                self.index = start_location;
            },
        }
        self.error(string, ParseErrorMessage::IgnoreError)
    }

    /// A list of constants between brackets, separated by commas.
    pub fn parse_array<'a>(&mut self, string: &'a str) -> (r: ParseResult<'a, ConstantValue>)
        requires
            old(self).wf(string),
        ensures
            parse_step(*old(self), *final(self), string, r),
            match array_at(string@, old(self).index as int) {
                Some(found) => (r matches Ok(p) && p.value@ == found.0 && final(self).index == found.1),
                None => r is Err,
            },
            r matches Ok(p) ==> p.len > 0,
        decreases string@.len() - old(self).index, 15int,
    {
        let start_index = self.index;
        let ghost s = string@;
        proof {
            reveal_strlit("[");
            reveal_strlit(",");
            reveal_strlit("]");
        }
        self.literal(string, "[")?;
        let ghost list = list_at(s, start_index + 1);
        let mut expressions: Vec<ConstantValue> = Vec::new();
        assert(constants_view(expressions@) =~= Seq::<SpecConstant>::empty());
        assert(list == match list_at(s, self.index as int) {
            Some(rest) => Some((constants_view(expressions@) + rest.0, rest.1)),
            None => None,
        }) by {
            if list is Some {
                assert(constants_view(expressions@) + list->Some_0.0 =~= list->Some_0.0);
            }
        }
        loop
            invariant_except_break
                list == match list_at(s, self.index as int) {
                    Some(rest) => Some((constants_view(expressions@) + rest.0, rest.1)),
                    None => None,
                },
            invariant
                self.wf(string),
                s == string@,
                self.index > start_index,
                start_index == old(self).index,
                list == list_at(s, start_index + 1),
            ensures
                self.wf(string),
                self.index > start_index,
                list == Some((constants_view(expressions@), self.index as int)),
            decreases string@.len() - self.index,
        {
            let element_start = self.index;
            let ghost before = constants_view(expressions@);
            self.skip_whitespace(string);
            proof {
                lemma_run_end(s, element_start as int, CharClass::Space);
            }
            let element = self.parse_constant(string)?.value;
            let ghost c = element@;
            expressions.push(element);
            assert(constants_view(expressions@) =~= before.push(c));
            let ghost after_element = self.index;
            self.skip_whitespace(string);
            proof {
                lemma_run_end(s, after_element as int, CharClass::Space);
            }
            let comma_start = self.index;
            proof {
                reveal_strlit(",");
                assert(constant_at(s, run_end(s, element_start as int, CharClass::Space)) == Some((c, after_element as int)));
                if comma_start + 1 <= s.len() {
                    assert(s.subrange(comma_start as int, comma_start + 1)[0] == s[comma_start as int]);
                }
            }
            match self.literal(string, ",") {
                Ok(_) => {
                    proof {
                        assert(list_at(s, element_start as int) == match list_at(s, comma_start + 1) {
                            Some(rest) => Some((seq![c] + rest.0, rest.1)),
                            None => None,
                        });
                        assert(self.index == comma_start + 1);
                        match list_at(s, self.index as int) {
                            Some(rest) => {
                                assert(list_at(s, element_start as int) == Some((seq![c] + rest.0, rest.1)));
                                assert(list == Some((before + (seq![c] + rest.0), rest.1)));
                                assert(before + (seq![c] + rest.0) =~= constants_view(expressions@) + rest.0);
                            },
                            None => {
                                assert(list_at(s, element_start as int) is None);
                            },
                        }
                    }
                },
                Err(_) => {
                    self.index = comma_start;
                    assert(list_at(s, element_start as int) == Some((seq![c], comma_start as int)));
                    assert(before + seq![c] =~= constants_view(expressions@));
                    break;
                },
            }
        }
        self.skip_whitespace(string);
        self.literal(string, "]")?;
        self.success(string, ConstantValue::Array(expressions), start_index, self.index - start_index)
    }

    /// A constant repeated a number of times: `[constant; n]`.
    pub fn parse_repeating_array<'a>(&mut self, string: &'a str) -> (r: ParseResult<'a, ConstantValue>)
        requires
            old(self).wf(string),
        ensures
            parse_step(*old(self), *final(self), string, r),
            match repeat_at(string@, old(self).index as int) {
                Some(found) => (r matches Ok(p) && p.value@ == found.0 && final(self).index == found.1),
                None => r is Err,
            },
            r matches Ok(p) ==> p.len > 0,
        decreases string@.len() - old(self).index, 15int,
    {
        let start_index = self.index;
        let ghost s = string@;
        proof {
            reveal_strlit("[");
            reveal_strlit(";");
            reveal_strlit("]");
        }
        self.literal(string, "[")?;
        self.skip_whitespace(string);
        proof {
            lemma_run_end(s, start_index + 1, CharClass::Space);
        }
        let element = self.parse_constant(string)?.value;
        self.skip_whitespace(string);
        self.literal(string, ";")?;
        self.skip_whitespace(string);
        let ghost d = self.index as int;
        let amount = self.parse_u16(string)?.value;
        let ghost e = self.index as int;
        self.skip_whitespace(string);
        self.literal(string, "]")?;
        proof {
            lemma_run_end(s, d, CharClass::Digit);
            assert(e == run_end(s, d, CharClass::Digit));
            assert(amount == digits_value(s, d, e));
        }
        let mut expressions: Vec<ConstantValue> = Vec::new();
        let mut k: u16 = 0;
        while k < amount
            invariant
                k <= amount,
                constants_view(expressions@) == Seq::new(k as nat, |j: int| element@),
            decreases amount - k,
        {
            let ghost before = constants_view(expressions@);
            let copy = element.clone();
            expressions.push(copy);
            assert(constants_view(expressions@) =~= before.push(copy@));
            k = k + 1;
            assert(constants_view(expressions@) =~= Seq::new(k as nat, |j: int| element@));
        }
        assert(constants_view(expressions@) =~= Seq::new(digits_value(s, d, e) as nat, |j: int| element@));
        self.success(string, ConstantValue::Array(expressions), start_index, self.index - start_index)
    }

    /// The bytes from a start up to an end, by a step of one or more: `[start..end]` or
    /// `[start..end..step]`; a step of zero is refused.
    pub fn parse_range_array<'a>(&mut self, string: &'a str) -> (r: ParseResult<'a, ConstantValue>)
        requires
            old(self).wf(string),
        ensures
            parse_step(*old(self), *final(self), string, r),
            match range_at(string@, old(self).index as int) {
                Some(found) => (r matches Ok(p) && p.value@ == found.0 && final(self).index == found.1),
                None => r is Err,
            },
            r matches Ok(p) ==> p.len > 0,
    {
        let start_index = self.index;
        let ghost s = string@;
        proof {
            reveal_strlit("[");
            reveal_strlit("..");
            reveal_strlit("]");
        }
        self.literal(string, "[")?;
        self.skip_whitespace(string);
        let start = self.parse_u8_literal(string)?.value;
        self.skip_whitespace(string);
        self.literal(string, "..")?;
        self.skip_whitespace(string);
        let end = self.parse_u8_literal(string)?.value;
        self.skip_whitespace(string);
        let step_start = self.index;
        let step: u8 = match self.parse_range_step(string) {
            Ok(p) => p.value,
            Err(_) => {
                self.index = step_start;
                1
            },
        };
        self.literal(string, "]")?;
        if step == 0 {
            return self.error(string, ParseErrorMessage::Expected("a step of at least 1"));
        }
        let mut array: Vec<ConstantValue> = Vec::new();
        let mut value: u16 = start as u16;
        while value < end as u16
            invariant
                step > 0,
                value <= 255 + 255,
                constants_view(array@) + range_values(value as int, end as int, step as int) == range_values(
                    start as int,
                    end as int,
                    step as int,
                ),
            decreases 600 - value,
        {
            let ghost before = constants_view(array@);
            array.push(ConstantValue::U8(value as u8));
            assert(constants_view(array@) =~= before.push(SpecConstant::U8(value as u8)));
            assert(constants_view(array@) + range_values(value + step, end as int, step as int) =~= before
                + range_values(value as int, end as int, step as int));
            value = value + step as u16;
        }
        assert(constants_view(array@) + range_values(value as int, end as int, step as int) =~= constants_view(
            array@,
        ));
        self.success(string, ConstantValue::Array(array), start_index, self.index - start_index)
    }

    /// The step of a range: `..` and a number up to 255.
    fn parse_range_step<'a>(&mut self, string: &'a str) -> (r: ParseResult<'a, u8>)
        requires
            old(self).wf(string),
        ensures
            parse_step(*old(self), *final(self), string, r),
            match range_step_at(string@, old(self).index as int) {
                Some(found) => (r matches Ok(p) && p.value == found.0 && final(self).index == found.1),
                None => r is Err,
            },
    {
        let start_index = self.index;
        proof {
            reveal_strlit("..");
        }
        self.literal(string, "..")?;
        self.skip_whitespace(string);
        let step = self.parse_u8(string)?.value;
        self.skip_whitespace(string);
        self.success(string, step, start_index, self.index - start_index)
    }

    /// A constant: a byte, a truth value, or one of the three forms of arrays.
    pub fn parse_constant<'a>(&mut self, string: &'a str) -> (r: ParseResult<'a, ConstantValue>)
        requires
            old(self).wf(string),
        ensures
            parse_step(*old(self), *final(self), string, r),
            match constant_at(string@, old(self).index as int) {
                Some(found) => (r matches Ok(p) && p.value@ == found.0 && final(self).index == found.1),
                None => r is Err,
            },
            r matches Ok(p) ==> p.len > 0,
        decreases string@.len() - old(self).index, 16int,
    {
        let start_index = self.index;
        match self.parse_u8_constant(string) {
            Ok(p) => {
                return self.success(string, p.value, start_index, self.index - start_index);
            },
            Err(_) => {
                self.index = start_index;
            },
        }
        match self.parse_bool_constant(string) {
            Ok(p) => {
                return self.success(string, p.value, start_index, self.index - start_index);
            },
            Err(_) => {
                self.index = start_index;
            },
        }
        match self.parse_array(string) {
            Ok(p) => {
                return self.success(string, p.value, start_index, self.index - start_index);
            },
            Err(_) => {
                self.index = start_index;
            },
        }
        match self.parse_repeating_array(string) {
            Ok(p) => {
                return self.success(string, p.value, start_index, self.index - start_index);
            },
            Err(_) => {
                self.index = start_index;
            },
        }
        match self.parse_range_array(string) {
            Ok(p) => {
                return self.success(string, p.value, start_index, self.index - start_index);
            },
            Err(_) => {
                self.index = start_index;
            },
        }
        self.error(string, ParseErrorMessage::IgnoreError)
    }

    /// A constant, as an expression.
    pub fn parse_constant_expression<'a>(&mut self, string: &'a str) -> (r: ParseResult<'a, Expression<'a>>)
        requires
            old(self).wf(string),
        ensures
            parse_step(*old(self), *final(self), string, r),
            match constant_at(string@, old(self).index as int) {
                Some(found) => (r matches Ok(p) && (p.value matches Expression::Constant(c) && c@ == found.0)
                    && final(self).index == found.1),
                None => r is Err,
            },
            r matches Ok(p) ==> p.len > 0 && p.value is Constant,
    {
        let parsed = self.parse_constant(string)?;
        Ok(parsed.map(|value: ConstantValue| -> (e: Expression<'a>)
            ensures
                e == Expression::Constant(value),
            { Expression::Constant(value) }))
    }

    /// A variable name: ASCII letters and `_`.
    pub fn parse_variable_name<'a>(&mut self, string: &'a str) -> (r: ParseResult<'a, &'a str>)
        requires
            old(self).wf(string),
        ensures
            parse_step(*old(self), *final(self), string, r),
            run_end(string@, old(self).index as int, CharClass::NameChar) > old(self).index ==> (r matches Ok(p)
                && final(self).index == run_end(string@, old(self).index as int, CharClass::NameChar) && p.value@
                == p.span@),
            run_end(string@, old(self).index as int, CharClass::NameChar) == old(self).index ==> r is Err,
    {
        let start_index = self.index;
        proof {
            lemma_run_end(string@, start_index as int, CharClass::NameChar);
        }
        self.run_of(string, CharClass::NameChar, "variable name (alphabetic or _ ascii characters)")?;
        let value = string.substring_ascii(start_index, self.index);
        self.success(string, value, start_index, self.index - start_index)
    }

    /// A variable, as an expression.
    pub fn parse_variable<'a>(&mut self, string: &'a str) -> (r: ParseResult<'a, Expression<'a>>)
        requires
            old(self).wf(string),
        ensures
            parse_step(*old(self), *final(self), string, r),
            match name_at(string@, old(self).index as int) {
                Some(found) => (r matches Ok(p) && expr_view(p.value) == SpecExpr::Variable(found.0)
                    && final(self).index == found.1),
                None => r is Err,
            },
            r matches Ok(p) ==> p.len > 0 && (p.value matches Expression::LValue(LValueExpression::Variable(name))
                && name@ == p.span@),
    {
        let start_index = self.index;
        proof {
            lemma_run_end(string@, start_index as int, CharClass::NameChar);
        }
        let parsed = self.parse_variable_name(string)?;
        let name = parsed.value;
        assert(lvalue_view(LValueExpression::Variable(name)) == SpecExpr::Variable(name@));
        assert(expr_view(Expression::LValue(LValueExpression::Variable(name))) == lvalue_view(
            LValueExpression::Variable(name),
        ));
        Ok(parsed.with(Expression::LValue(LValueExpression::Variable(name))))
    }

    /// An element of an array variable: the name and indices up to 255 between brackets,
    /// separated by commas.
    #[verifier::rlimit(50)]
    #[verifier::spinoff_prover]
    pub fn parse_indexing<'a>(&mut self, string: &'a str) -> (r: ParseResult<'a, Expression<'a>>)
        requires
            old(self).wf(string),
        ensures
            parse_step(*old(self), *final(self), string, r),
            match indexing_at(string@, old(self).index as int) {
                Some(found) => (r matches Ok(p) && expr_view(p.value) == found.0 && final(self).index == found.1),
                None => r is Err,
            },
            r matches Ok(p) ==> p.len > 0 && p.value is LValue,
    {
        let start_index = self.index;
        let ghost s = string@;
        proof {
            lemma_run_end(string@, start_index as int, CharClass::NameChar);
            reveal_strlit(",");
            reveal_strlit("[");
            reveal_strlit("]");
        }
        let array_name = self.parse_variable_name(string)?.value;
        let ghost name_end = self.index as int;
        self.skip_whitespace(string);
        proof {
            lemma_run_end(s, name_end, CharClass::Space);
        }
        self.literal(string, "[")?;
        let ghost list = index_list_at(s, self.index as int);
        let ghost expected = indexing_at(s, start_index as int);
        assert(expected == match list {
            Some(l) => if text_at(s, l.1, "]"@) {
                Some((SpecExpr::Index(array_name@, l.0), l.1 + 1))
            } else {
                None
            },
            None => None,
        });
        let mut indices: Vec<Expression<'a>> = Vec::new();
        assert(list == match index_list_at(s, self.index as int) {
            Some(rest) => Some((exprs_view(indices@) + rest.0, rest.1)),
            None => None,
        }) by {
            if list is Some {
                assert(exprs_view(indices@) + list->Some_0.0 =~= list->Some_0.0);
            }
        }
        loop
            invariant_except_break
                list == match index_list_at(s, self.index as int) {
                    Some(rest) => Some((exprs_view(indices@) + rest.0, rest.1)),
                    None => None,
                },
            invariant
                self.wf(string),
                s == string@,
                self.index > start_index,
                start_index == old(self).index,
                expected == indexing_at(s, start_index as int),
                expected == match list {
                    Some(l) => if text_at(s, l.1, "]"@) {
                        Some((SpecExpr::Index(array_name@, l.0), l.1 + 1))
                    } else {
                        None
                    },
                    None => None,
                },
            ensures
                self.wf(string),
                self.index > start_index,
                list == Some((exprs_view(indices@), self.index as int)),
            decreases string@.len() - self.index,
        {
            let element_start = self.index;
            let ghost before = exprs_view(indices@);
            self.skip_whitespace(string);
            proof {
                lemma_run_end(s, element_start as int, CharClass::Space);
                lemma_run_end(s, self.index as int, CharClass::Digit);
            }
            let index = match self.parse_u8(string) {
                Ok(p) => p.value,
                Err(e) => {
                    proof {
                        lemma_index_list_step(s, element_start as int);
                    }
                    return Err(e);
                },
            };
            let ghost c = SpecExpr::Constant(SpecConstant::U8(index));
            indices.push(Expression::Constant(ConstantValue::U8(index)));
            assert(exprs_view(indices@) =~= before.push(c));
            let ghost after_element = self.index;
            self.skip_whitespace(string);
            proof {
                lemma_run_end(s, after_element as int, CharClass::Space);
            }
            let comma_start = self.index;
            proof {
                reveal_strlit(",");
                lemma_index_list_step(s, element_start as int);
                if comma_start + 1 <= s.len() {
                    assert(s.subrange(comma_start as int, comma_start + 1)[0] == s[comma_start as int]);
                }
            }
            match self.literal(string, ",") {
                Ok(_) => {
                    proof {
                        assert(self.index == comma_start + 1);
                        match index_list_at(s, self.index as int) {
                            Some(rest) => {
                                assert(index_list_at(s, element_start as int) == Some((seq![c] + rest.0, rest.1)));
                                assert(before + (seq![c] + rest.0) =~= exprs_view(indices@) + rest.0);
                            },
                            None => {
                                assert(index_list_at(s, element_start as int) is None);
                            },
                        }
                    }
                },
                Err(_) => {
                    self.index = comma_start;
                    assert(index_list_at(s, element_start as int) == Some((seq![c], comma_start as int)));
                    assert(before + seq![c] =~= exprs_view(indices@));
                    break;
                },
            }
        }
        self.literal(string, "]")?;
        let ghost index_views = exprs_view(indices@);
        let result = Expression::LValue(LValueExpression::Index(array_name, indices));
        proof {
            assert(lvalue_view(result->LValue_0) == SpecExpr::Index(array_name@, index_views));
            assert(expr_view(result) == SpecExpr::Index(array_name@, index_views));
        }
        self.success(string, result, start_index, self.index - start_index)
    }

    /// An expression between parentheses.
    pub fn parse_parens<'a>(&mut self, string: &'a str) -> (r: ParseResult<'a, Expression<'a>>)
        requires
            old(self).wf(string),
        ensures
            parse_step(*old(self), *final(self), string, r),
            match parens_at(string@, old(self).index as int) {
                Some(found) => (r matches Ok(p) && expr_view(p.value) == found.0 && final(self).index == found.1),
                None => r is Err,
            },
            r matches Ok(p) ==> p.len > 0,
        decreases string@.len() - old(self).index, 17int,
    {
        let start_index = self.index;
        proof {
            reveal_strlit("(");
            reveal_strlit(")");
        }
        self.literal(string, "(")?;
        self.skip_whitespace(string);
        proof {
            lemma_run_end(string@, start_index + 1, CharClass::Space);
        }
        let result = self.parse_expression(string)?.value;
        self.skip_whitespace(string);
        self.literal(string, ")")?;
        self.success(string, result, start_index, self.index - start_index)
    }

    /// A constant, an element of an array, a variable, an expression between parentheses, or a
    /// negation.
    pub fn parse_leaf_expression<'a>(&mut self, string: &'a str) -> (r: ParseResult<'a, Expression<'a>>)
        requires
            old(self).wf(string),
        ensures
            parse_step(*old(self), *final(self), string, r),
            match leaf_at(string@, old(self).index as int) {
                Some(found) => (r matches Ok(p) && expr_view(p.value) == found.0 && final(self).index == found.1),
                None => r is Err,
            },
            r matches Ok(p) ==> p.len > 0,
        decreases string@.len() - old(self).index, 18int,
    {
        let start_index = self.index;
        match self.parse_constant_expression(string) {
            Ok(p) => {
                return self.success(string, p.value, start_index, self.index - start_index);
            },
            Err(_) => {
                self.index = start_index;
            },
        }
        match self.parse_indexing(string) {
            Ok(p) => {
                return self.success(string, p.value, start_index, self.index - start_index);
            },
            Err(_) => {
                self.index = start_index;
            },
        }
        match self.parse_variable(string) {
            Ok(p) => {
                return self.success(string, p.value, start_index, self.index - start_index);
            },
            Err(_) => {
                self.index = start_index;
            },
        }
        match self.parse_parens(string) {
            Ok(p) => {
                return self.success(string, p.value, start_index, self.index - start_index);
            },
            Err(_) => {
                self.index = start_index;
            },
        }
        match self.parse_not_expression(string) {
            Ok(p) => {
                return self.success(string, p.value, start_index, self.index - start_index);
            },
            Err(_) => {
                self.index = start_index;
            },
        }
        self.error(string, ParseErrorMessage::IgnoreError)
    }

    /// `!` and a leaf expression.
    pub fn parse_not_expression<'a>(&mut self, string: &'a str) -> (r: ParseResult<'a, Expression<'a>>)
        requires
            old(self).wf(string),
        ensures
            parse_step(*old(self), *final(self), string, r),
            match not_at(string@, old(self).index as int) {
                Some(found) => (r matches Ok(p) && expr_view(p.value) == found.0 && final(self).index == found.1),
                None => r is Err,
            },
            r matches Ok(p) ==> p.len > 0 && p.value is Not,
        decreases string@.len() - old(self).index, 17int,
    {
        let start_index = self.index;
        proof {
            reveal_strlit("!");
        }
        self.literal(string, "!")?;
        self.skip_whitespace(string);
        proof {
            lemma_run_end(string@, start_index + 1, CharClass::Space);
        }
        let inner = self.parse_leaf_expression(string)?.value;
        let result = Expression::new_not(inner);
        self.success(string, result, start_index, self.index - start_index)
    }
}


/// `t` stands in `s` from position `i` on.
pub open spec fn text_at(s: Seq<char>, i: int, t: Seq<char>) -> bool {
    0 <= i && i + t.len() <= s.len() && s.subrange(i, i + t.len()) == t
}

/// The text of a binary operator.
pub open spec fn operator_text(op: BinaryOperator) -> Seq<char> {
    match op {
        BinaryOperator::Add => "+"@,
        BinaryOperator::Sub => "-"@,
        BinaryOperator::Mul => "*"@,
        BinaryOperator::Div => "/"@,
        BinaryOperator::Mod => "%"@,
        BinaryOperator::And => "&"@,
        BinaryOperator::Or => "|"@,
        BinaryOperator::Eq => "=="@,
        BinaryOperator::Neq => "!="@,
        BinaryOperator::Leq => "<="@,
        BinaryOperator::Geq => ">="@,
        BinaryOperator::Lt => "<"@,
        BinaryOperator::Gt => ">"@,
    }
}

/// The operator that starts at `i`: the first of `+ - * / % & | == != <= >= < >` whose text
/// stands there.
pub open spec fn operator_at(s: Seq<char>, i: int) -> Option<BinaryOperator> {
    if text_at(s, i, "+"@) {
        Some(BinaryOperator::Add)
    } else if text_at(s, i, "-"@) {
        Some(BinaryOperator::Sub)
    } else if text_at(s, i, "*"@) {
        Some(BinaryOperator::Mul)
    } else if text_at(s, i, "/"@) {
        Some(BinaryOperator::Div)
    } else if text_at(s, i, "%"@) {
        Some(BinaryOperator::Mod)
    } else if text_at(s, i, "&"@) {
        Some(BinaryOperator::And)
    } else if text_at(s, i, "|"@) {
        Some(BinaryOperator::Or)
    } else if text_at(s, i, "=="@) {
        Some(BinaryOperator::Eq)
    } else if text_at(s, i, "!="@) {
        Some(BinaryOperator::Neq)
    } else if text_at(s, i, "<="@) {
        Some(BinaryOperator::Leq)
    } else if text_at(s, i, ">="@) {
        Some(BinaryOperator::Geq)
    } else if text_at(s, i, "<"@) {
        Some(BinaryOperator::Lt)
    } else if text_at(s, i, ">"@) {
        Some(BinaryOperator::Gt)
    } else {
        None
    }
}

/// The type that starts at `i` and where it ends: `u8`, `bool`, or an array type.
pub open spec fn type_at(s: Seq<char>, i: int) -> Option<(Type, usize)>
    decreases s.len() - i, 1int,
{
    if text_at(s, i, "u8"@) {
        Some((Type::U8, (i + 2) as usize))
    } else if text_at(s, i, "bool"@) {
        Some((Type::Bool, (i + 4) as usize))
    } else {
        array_type_at(s, i)
    }
}

/// The array type that starts at `i` and where it ends: `[`, the element type, `;`, a length
/// up to 255 and `]`, with white space allowed between the parts.
pub open spec fn array_type_at(s: Seq<char>, i: int) -> Option<(Type, usize)>
    decreases s.len() - i, 0int,
{
    if !text_at(s, i, "["@) {
        None
    } else {
        let j = run_end(s, i + 1, CharClass::Space);
        if j <= i || j > s.len() {
            None
        } else {
            match type_at(s, j) {
                Some(inner) => {
                    let k1 = run_end(s, inner.1 as int, CharClass::Space);
                    if !text_at(s, k1, ";"@) {
                        None
                    } else {
                        let k2 = run_end(s, k1 + 1, CharClass::Space);
                        let e = run_end(s, k2, CharClass::Digit);
                        if !(e > k2 && digits_value(s, k2, e) <= 255) {
                            None
                        } else {
                            let k3 = run_end(s, e, CharClass::Space);
                            if text_at(s, k3, "]"@) {
                                Some((Type::Array { element_type: Box::new(inner.0), len: digits_value(s, k2, e) as u8 }, (k3 + 1) as usize))
                            } else {
                                None
                            }
                        }
                    }
                },
                None => None,
            }
        }
    }
}

impl BrainCrabParser {
    /// Goes past `literal` where the text holds it there; stays otherwise.
    fn try_literal(&mut self, string: &str, literal: &'static str) -> (found: bool)
        requires
            old(self).wf(string),
        ensures
            final(self).wf(string),
            found ==> final(self).index == old(self).index + literal@.len() && string@.subrange(
                old(self).index as int,
                old(self).index + literal@.len(),
            ) == literal@,
            !found ==> final(self).index == old(self).index && !(old(self).index + literal@.len() <= string@.len()
                && string@.subrange(old(self).index as int, old(self).index + literal@.len()) == literal@),
    {
        let start = self.index;
        match self.literal(string, literal) {
            Ok(_) => true,
            Err(_) => {
                self.index = start;
                false
            },
        }
    }

    /// A binary operator: the first of [`operator_at`]'s list whose text stands where the parser
    /// stands.
    pub fn parse_binary_operator<'a>(&mut self, string: &'a str) -> (r: ParseResult<'a, BinaryOperator>)
        requires
            old(self).wf(string),
        ensures
            parse_step(*old(self), *final(self), string, r),
            match operator_at(string@, old(self).index as int) {
                Some(op) => (r matches Ok(p) && p.value == op && p.len == operator_text(op).len()),
                None => r is Err,
            },
            r matches Ok(p) ==> p.len > 0,
    {
        let start_index = self.index;
        proof {
            reveal_strlit("+");
            reveal_strlit("-");
            reveal_strlit("*");
            reveal_strlit("/");
            reveal_strlit("%");
            reveal_strlit("&");
            reveal_strlit("|");
            reveal_strlit("==");
            reveal_strlit("!=");
            reveal_strlit("<=");
            reveal_strlit(">=");
            reveal_strlit("<");
            reveal_strlit(">");
        }
        if self.try_literal(string, "+") {
            return self.success(string, BinaryOperator::Add, start_index, self.index - start_index);
        }
        if self.try_literal(string, "-") {
            return self.success(string, BinaryOperator::Sub, start_index, self.index - start_index);
        }
        if self.try_literal(string, "*") {
            return self.success(string, BinaryOperator::Mul, start_index, self.index - start_index);
        }
        if self.try_literal(string, "/") {
            return self.success(string, BinaryOperator::Div, start_index, self.index - start_index);
        }
        if self.try_literal(string, "%") {
            return self.success(string, BinaryOperator::Mod, start_index, self.index - start_index);
        }
        if self.try_literal(string, "&") {
            return self.success(string, BinaryOperator::And, start_index, self.index - start_index);
        }
        if self.try_literal(string, "|") {
            return self.success(string, BinaryOperator::Or, start_index, self.index - start_index);
        }
        if self.try_literal(string, "==") {
            return self.success(string, BinaryOperator::Eq, start_index, self.index - start_index);
        }
        if self.try_literal(string, "!=") {
            return self.success(string, BinaryOperator::Neq, start_index, self.index - start_index);
        }
        if self.try_literal(string, "<=") {
            return self.success(string, BinaryOperator::Leq, start_index, self.index - start_index);
        }
        if self.try_literal(string, ">=") {
            return self.success(string, BinaryOperator::Geq, start_index, self.index - start_index);
        }
        if self.try_literal(string, "<") {
            return self.success(string, BinaryOperator::Lt, start_index, self.index - start_index);
        }
        if self.try_literal(string, ">") {
            return self.success(string, BinaryOperator::Gt, start_index, self.index - start_index);
        }
        self.error(string, ParseErrorMessage::IgnoreError)
    }

    /// Leaf expressions joined by binary operators, grouped by their precedence.
    pub fn parse_binary_expression<'a>(&mut self, string: &'a str) -> (r: ParseResult<'a, Expression<'a>>)
        requires
            old(self).wf(string),
        ensures
            parse_step(*old(self), *final(self), string, r),
            match binary_at(string@, old(self).index as int) {
                Some(found) => (r matches Ok(p) && expr_view(p.value) == found.0 && final(self).index == found.1),
                None => r is Err,
            },
            r matches Ok(p) ==> p.len > 0,
        decreases string@.len() - old(self).index, 19int,
    {
        let start_index = self.index;
        let ghost s = string@;
        let first_expression = self.parse_leaf_expression(string)?.value;
        let ghost first_end = self.index as int;
        let ghost all = operations_at(s, first_end);
        let mut parse_tree = ExpressionParseTree::leaf(first_expression);
        loop
            invariant
                self.wf(string),
                s == string@,
                self.index > start_index,
                start_index == old(self).index,
                fold_operations(parse_tree_view(parse_tree), operations_at(s, self.index as int).0) == fold_operations(
                    SpecParseTree::Leaf(expr_view(first_expression)),
                    all.0,
                ),
                operations_at(s, self.index as int).1 == all.1,
            ensures
                self.wf(string),
                self.index > start_index,
                parse_tree_view(parse_tree) == fold_operations(SpecParseTree::Leaf(expr_view(first_expression)), all.0),
                self.index == all.1,
            decreases string@.len() - self.index,
        {
            let loop_start = self.index;
            self.skip_whitespace(string);
            proof {
                lemma_run_end(s, loop_start as int, CharClass::Space);
            }
            let operator = match self.parse_binary_operator(string) {
                Ok(p) => p.value,
                Err(_) => {
                    self.index = loop_start;
                    assert(operations_at(s, loop_start as int).0 =~= Seq::<(BinaryOperator, SpecExpr)>::empty());
                    break;
                },
            };
            let ghost after_operator = self.index as int;
            self.skip_whitespace(string);
            proof {
                lemma_run_end(s, after_operator, CharClass::Space);
            }
            let next_expression = match self.parse_leaf_expression(string) {
                Ok(p) => p.value,
                Err(_) => {
                    self.index = loop_start;
                    assert(operations_at(s, loop_start as int).0 =~= Seq::<(BinaryOperator, SpecExpr)>::empty());
                    break;
                },
            };
            let ghost old_tree = parse_tree_view(parse_tree);
            parse_tree = parse_tree.extend(operator, next_expression);
            proof {
                assert(parse_tree_view(parse_tree) == spec_extend(old_tree, operator, expr_view(next_expression))) by {
                    reveal_with_fuel(parse_tree_view, 3);
                }
                let ops = operations_at(s, loop_start as int);
                let rest = operations_at(s, self.index as int);
                assert(ops.0 == seq![(operator, expr_view(next_expression))] + rest.0);
                assert(ops.0.drop_first() =~= rest.0);
            }
        }
        let result = parse_tree.into_expression();
        proof {
            lemma_tree_expression_view(parse_tree);
        }
        self.success(string, result, start_index, self.index - start_index)
    }

    pub fn parse_expression<'a>(&mut self, string: &'a str) -> (r: ParseResult<'a, Expression<'a>>)
        requires
            old(self).wf(string),
        ensures
            parse_step(*old(self), *final(self), string, r),
            match expression_at(string@, old(self).index as int) {
                Some(found) => (r matches Ok(p) && expr_view(p.value) == found.0 && final(self).index == found.1),
                None => r is Err,
            },
            r matches Ok(p) ==> p.len > 0,
        decreases string@.len() - old(self).index, 20int,
    {
        self.parse_binary_expression(string)
    }

    /// An array type: `[type; length]`, the length up to 255.
    pub fn parse_array_type<'a>(&mut self, string: &'a str) -> (r: ParseResult<'a, Type>)
        requires
            old(self).wf(string),
        ensures
            parse_step(*old(self), *final(self), string, r),
            match array_type_at(string@, old(self).index as int) {
                Some(found) => (r matches Ok(p) && p.value == found.0 && final(self).index == found.1),
                None => r is Err,
            },
            r matches Ok(p) ==> p.len > 0 && p.value is Array,
        decreases string@.len() - old(self).index, 12int,
    {
        let start_index = self.index;
        let ghost s = string@;
        proof {
            reveal_strlit("[");
            reveal_strlit(";");
            reveal_strlit("]");
        }
        self.literal(string, "[")?;
        self.skip_whitespace(string);
        proof {
            lemma_run_end(s, start_index + 1, CharClass::Space);
        }
        let element_type = self.parse_type(string)?.value;
        self.skip_whitespace(string);
        self.literal(string, ";")?;
        self.skip_whitespace(string);
        let len = self.parse_u8(string)?.value;
        self.skip_whitespace(string);
        self.literal(string, "]")?;
        self.success(string, Type::Array { element_type: Box::new(element_type), len }, start_index, self.index - start_index)
    }

    /// `u8`, `bool`, or an array type.
    pub fn parse_type<'a>(&mut self, string: &'a str) -> (r: ParseResult<'a, Type>)
        requires
            old(self).wf(string),
        ensures
            parse_step(*old(self), *final(self), string, r),
            match type_at(string@, old(self).index as int) {
                Some(found) => (r matches Ok(p) && p.value == found.0 && final(self).index == found.1),
                None => r is Err,
            },
            r matches Ok(p) ==> p.len > 0,
        decreases string@.len() - old(self).index, 13int,
    {
        let start_index = self.index;
        proof {
            reveal_strlit("u8");
            reveal_strlit("bool");
        }
        if self.try_literal(string, "u8") {
            return self.success(string, Type::U8, start_index, self.index - start_index);
        }
        if self.try_literal(string, "bool") {
            return self.success(string, Type::Bool, start_index, self.index - start_index);
        }
        match self.parse_array_type(string) {
            Ok(p) => {
                return self.success(string, p.value, start_index, self.index - start_index);
            },
            Err(_) => {
                self.index = start_index;
            },
        }
        self.error(string, ParseErrorMessage::IgnoreError)
    }

    /// `let` for an immutable variable, `mut` for a mutable one.
    pub fn parse_mutability<'a>(&mut self, string: &'a str) -> (r: ParseResult<'a, bool>)
        requires
            old(self).wf(string),
        ensures
            parse_step(*old(self), *final(self), string, r),
            match mutability_at(string@, old(self).index as int) {
                Some(found) => (r matches Ok(p) && p.value == found.0 && final(self).index == found.1),
                None => r is Err,
            },
            r matches Ok(p) ==> p.len == 3 && (p.value <==> p.span@ == "mut"@) && (!p.value <==> p.span@ == "let"@),
    {
        let start_index = self.index;
        proof {
            reveal_strlit("let");
            reveal_strlit("mut");
            assert("let"@[0] != "mut"@[0]);
        }
        if self.try_literal(string, "let") {
            return self.success(string, false, start_index, self.index - start_index);
        }
        if self.try_literal(string, "mut") {
            return self.success(string, true, start_index, self.index - start_index);
        }
        self.error(string, ParseErrorMessage::IgnoreError)
    }

    /// `:` and a type.
    fn parse_type_annotation<'a>(&mut self, string: &'a str) -> (r: ParseResult<'a, Type>)
        requires
            old(self).wf(string),
        ensures
            parse_step(*old(self), *final(self), string, r),
            match type_annotation_at(string@, old(self).index as int) {
                Some(found) => (r matches Ok(p) && p.value == found.0 && final(self).index == found.1),
                None => r is Err,
            },
    {
        let start_index = self.index;
        proof {
            reveal_strlit(":");
        }
        self.literal(string, ":")?;
        self.skip_whitespace(string);
        proof {
            lemma_run_end(string@, start_index + 1, CharClass::Space);
        }
        let value_type = self.parse_type(string)?.value;
        self.skip_whitespace(string);
        self.success(string, value_type, start_index, self.index - start_index)
    }

    /// `let` or `mut`, a name, an optional type, `=`, an expression and `;`.
    pub fn parse_definition<'a>(&mut self, string: &'a str) -> (r: ParseResult<'a, Instruction<'a>>)
        requires
            old(self).wf(string),
        ensures
            parse_step(*old(self), *final(self), string, r),
            match definition_at(string@, old(self).index as int) {
                Some(found) => (r matches Ok(p) && instr_view(p.value) == found.0 && final(self).index == found.1),
                None => r is Err,
            },
            r matches Ok(p) ==> p.len > 0 && p.value is Define,
    {
        let start_location = self.index;
        proof {
            reveal_strlit("=");
            reveal_strlit(";");
        }
        let ghost s = string@;
        let mutable = self.parse_mutability(string)?.value;
        let ghost m_end = self.index as int;
        proof {
            lemma_run_end(s, m_end, CharClass::Space);
        }
        self.whitespace(string)?;
        let ghost w = self.index as int;
        proof {
            lemma_run_end(string@, self.index as int, CharClass::NameChar);
        }
        let name = self.parse_variable_name(string)?.value;
        let ghost name_end = self.index as int;
        self.skip_whitespace(string);
        let type_start = self.index;
        let value_type = match self.parse_type_annotation(string) {
            Ok(p) => Some(p.value),
            Err(_) => {
                self.index = type_start;
                None
            },
        };
        let ghost b = self.index as int;
        proof {
            assert(mutability_at(s, start_location as int) == Some((mutable, m_end)));
            assert(w == run_end(s, m_end, CharClass::Space) && w > m_end);
            assert(name_at(s, w) == Some((name@, name_end)));
            assert(type_start == run_end(s, name_end, CharClass::Space));
            assert(b == match type_annotation_at(s, type_start as int) {
                Some(t) => t.1,
                None => type_start as int,
            });
            assert(value_type == match type_annotation_at(s, type_start as int) {
                Some(t) => Some(t.0),
                None => None,
            });
        }
        self.literal(string, "=")?;
        self.skip_whitespace(string);
        let expression = self.parse_expression(string)?.value;
        self.skip_whitespace(string);
        self.literal(string, ";")?;
        let ghost value_view = expr_view(expression);
        let result = Instruction::Define { name, value_type, mutable, value: expression };
        assert(instr_view(result) == SpecInstr::Define(name@, value_type, mutable, value_view));
        self.success(string, result, start_location, self.index - start_location)
    }

    /// A name, `operator`, an expression and `;`: the name and the expression.
    fn parse_name_operator_expression<'a>(&mut self, string: &'a str, operator: &'static str) -> (r: ParseResult<'a, (&'a str, Expression<'a>)>)
        requires
            old(self).wf(string),
        ensures
            parse_step(*old(self), *final(self), string, r),
            match name_operator_at(string@, old(self).index as int, operator@) {
                Some(found) => (r matches Ok(p) && p.value.0@ == found.0 && expr_view(p.value.1) == found.1
                    && final(self).index == found.2),
                None => r is Err,
            },
            r matches Ok(p) ==> p.len > 0,
    {
        let start_location = self.index;
        proof {
            lemma_run_end(string@, start_location as int, CharClass::NameChar);
            reveal_strlit(";");
        }
        let name = self.parse_variable_name(string)?.value;
        self.skip_whitespace(string);
        self.literal(string, operator)?;
        self.skip_whitespace(string);
        let expression = self.parse_expression(string)?.value;
        self.skip_whitespace(string);
        self.literal(string, ";")?;
        self.success(string, (name, expression), start_location, self.index - start_location)
    }

    /// A name, `=`, an expression and `;`.
    pub fn parse_assignment<'a>(&mut self, string: &'a str) -> (r: ParseResult<'a, Instruction<'a>>)
        requires
            old(self).wf(string),
        ensures
            parse_step(*old(self), *final(self), string, r),
            match name_operator_at(string@, old(self).index as int, "="@) {
                Some(found) => (r matches Ok(p) && instr_view(p.value) == SpecInstr::Assign(SpecExpr::Variable(found.0), found.1) && final(self).index == found.2),
                None => r is Err,
            },
            r matches Ok(p) ==> p.len > 0 && p.value is Assign,
    {
        let parsed = self.parse_name_operator_expression(string, "=")?;
        let (name, value) = parsed.value;
        let start = parsed.start;
        let len = parsed.len;
        Ok(Parsed { value: Instruction::Assign { name: LValueExpression::Variable(name), value }, span: parsed.span, start, len })
    }

    /// A name, `+=`, an expression and `;`.
    pub fn parse_add_assignment<'a>(&mut self, string: &'a str) -> (r: ParseResult<'a, Instruction<'a>>)
        requires
            old(self).wf(string),
        ensures
            parse_step(*old(self), *final(self), string, r),
            match name_operator_at(string@, old(self).index as int, "+="@) {
                Some(found) => (r matches Ok(p) && instr_view(p.value) == SpecInstr::AddAssign(found.0, found.1) && final(self).index == found.2),
                None => r is Err,
            },
            r matches Ok(p) ==> p.len > 0 && p.value is AddAssign,
    {
        let parsed = self.parse_name_operator_expression(string, "+=")?;
        let (name, value) = parsed.value;
        let start = parsed.start;
        let len = parsed.len;
        Ok(Parsed { value: Instruction::AddAssign { name, value }, span: parsed.span, start, len })
    }

    /// A name, `-=`, an expression and `;`.
    pub fn parse_sub_assignment<'a>(&mut self, string: &'a str) -> (r: ParseResult<'a, Instruction<'a>>)
        requires
            old(self).wf(string),
        ensures
            parse_step(*old(self), *final(self), string, r),
            match name_operator_at(string@, old(self).index as int, "-="@) {
                Some(found) => (r matches Ok(p) && instr_view(p.value) == SpecInstr::SubAssign(found.0, found.1) && final(self).index == found.2),
                None => r is Err,
            },
            r matches Ok(p) ==> p.len > 0 && p.value is SubAssign,
    {
        let parsed = self.parse_name_operator_expression(string, "-=")?;
        let (name, value) = parsed.value;
        let start = parsed.start;
        let len = parsed.len;
        Ok(Parsed { value: Instruction::SubAssign { name, value }, span: parsed.span, start, len })
    }

    /// `read(name);`: the variable gets a byte of input.
    pub fn parse_read<'a>(&mut self, string: &'a str) -> (r: ParseResult<'a, Instruction<'a>>)
        requires
            old(self).wf(string),
        ensures
            parse_step(*old(self), *final(self), string, r),
            match read_at(string@, old(self).index as int) {
                Some(found) => (r matches Ok(p) && instr_view(p.value) == found.0 && final(self).index == found.1),
                None => r is Err,
            },
            r matches Ok(p) ==> p.len > 0 && (p.value matches Instruction::Assign { value, .. } && value is Read),
    {
        let start_location = self.index;
        proof {
            reveal_strlit("read");
            reveal_strlit("(");
            reveal_strlit(")");
            reveal_strlit(";");
        }
        self.literal(string, "read")?;
        self.skip_whitespace(string);
        self.literal(string, "(")?;
        self.skip_whitespace(string);
        proof {
            lemma_run_end(string@, self.index as int, CharClass::NameChar);
        }
        let variable_name = self.parse_variable_name(string)?.value;
        self.skip_whitespace(string);
        self.literal(string, ")")?;
        self.skip_whitespace(string);
        self.literal(string, ";")?;
        let result = Instruction::Assign { name: LValueExpression::Variable(variable_name), value: Expression::Read };
        proof {
            assert(lvalue_view(LValueExpression::Variable(variable_name)) == SpecExpr::Variable(variable_name@));
            assert(expr_view(Expression::Read) == SpecExpr::Read);
            assert(instr_view(result) == SpecInstr::Assign(SpecExpr::Variable(variable_name@), SpecExpr::Read));
        }
        self.success(string, result, start_location, self.index - start_location)
    }

    /// `write(expression);`.
    pub fn parse_write<'a>(&mut self, string: &'a str) -> (r: ParseResult<'a, Instruction<'a>>)
        requires
            old(self).wf(string),
        ensures
            parse_step(*old(self), *final(self), string, r),
            match write_at(string@, old(self).index as int) {
                Some(found) => (r matches Ok(p) && instr_view(p.value) == found.0 && final(self).index == found.1),
                None => r is Err,
            },
            r matches Ok(p) ==> p.len > 0 && p.value is Write,
    {
        let start_location = self.index;
        proof {
            reveal_strlit("write");
            reveal_strlit("(");
            reveal_strlit(")");
            reveal_strlit(";");
        }
        self.literal(string, "write")?;
        self.skip_whitespace(string);
        self.literal(string, "(")?;
        self.skip_whitespace(string);
        let expression = self.parse_expression(string)?.value;
        self.skip_whitespace(string);
        self.literal(string, ")")?;
        self.skip_whitespace(string);
        self.literal(string, ";")?;
        let result = Instruction::Write { expression };
        self.success(string, result, start_location, self.index - start_location)
    }

    /// `print("text");`, the text with escaped characters.
    pub fn parse_print<'a>(&mut self, string: &'a str) -> (r: ParseResult<'a, Instruction<'a>>)
        requires
            old(self).wf(string),
        ensures
            parse_step(*old(self), *final(self), string, r),
            match print_at(string@, old(self).index as int) {
                Some(found) => (r matches Ok(p) && (p.value matches Instruction::Print { string: text } && text@
                    == found.0) && final(self).index == found.1),
                None => r is Err,
            },
            r matches Ok(p) ==> p.len > 0 && p.value is Print,
    {
        let start_location = self.index;
        let ghost s = string@;
        proof {
            reveal_strlit("print");
            reveal_strlit("(");
            reveal_strlit("\"");
            reveal_strlit(")");
            reveal_strlit(";");
        }
        self.literal(string, "print")?;
        self.skip_whitespace(string);
        self.literal(string, "(")?;
        self.skip_whitespace(string);
        self.literal(string, "\"")?;
        let body_start = self.index;
        let mut argument = String::new();
        loop
            invariant
                self.wf(string),
                s == string@,
                self.index > start_location,
                start_location == old(self).index,
                body_start <= self.index,
                string_body(s, body_start as int) == (argument@ + string_body(s, self.index as int).0, string_body(
                    s,
                    self.index as int,
                ).1),
            ensures
                self.wf(string),
                self.index > start_location,
                string_body(s, body_start as int) == (argument@, self.index as int),
            decreases string@.len() - self.index,
        {
            let loop_start = self.index;
            let ghost before = argument@;
            match self.escaped_char(string) {
                Ok(p) => {
                    crate::text::string_push(&mut argument, p.value);
                    proof {
                        assert(argument@ + string_body(s, self.index as int).0 =~= before + string_body(
                            s,
                            loop_start as int,
                        ).0);
                    }
                },
                Err(_) => {
                    self.index = loop_start;
                    match self.char_in(string, CharClass::NotQuote, " a character different from \"") {
                        Ok(p) => {
                            crate::text::string_push(&mut argument, p.value);
                            proof {
                                assert(argument@ + string_body(s, self.index as int).0 =~= before + string_body(
                                    s,
                                    loop_start as int,
                                ).0);
                            }
                        },
                        Err(_) => {
                            self.index = loop_start;
                            assert(argument@ + string_body(s, self.index as int).0 =~= argument@);
                            break;
                        },
                    }
                },
            }
        }
        self.literal(string, "\"")?;
        self.skip_whitespace(string);
        self.literal(string, ")")?;
        self.skip_whitespace(string);
        self.literal(string, ";")?;
        let result = Instruction::Print { string: argument };
        self.success(string, result, start_location, self.index - start_location)
    }

    /// `{`, instructions and `}`.
    pub fn parse_scope<'a>(&mut self, string: &'a str) -> (r: ParseResult<'a, Instruction<'a>>)
        requires
            old(self).wf(string),
        ensures
            parse_step(*old(self), *final(self), string, r),
            match block_at(string@, old(self).index as int) {
                Some(found) => (r matches Ok(p) && instr_view(p.value) == SpecInstr::Scope(found.0)
                    && final(self).index == found.1),
                None => r is Err,
            },
            r matches Ok(p) ==> p.len > 0 && p.value is Scope,
        decreases string@.len() - old(self).index, 37int,
    {
        let start_index = self.index;
        proof {
            reveal_strlit("{");
            reveal_strlit("}");
        }
        self.literal(string, "{")?;
        let instructions = self.parse_instructions(string)?.value;
        self.literal(string, "}")?;
        let result = Instruction::Scope { body: instructions };
        self.success(string, result, start_index, self.index - start_index)
    }

    /// `while`, an expression, and instructions between braces.
    #[verifier::rlimit(60)]
    #[verifier::spinoff_prover]
    pub fn parse_while<'a>(&mut self, string: &'a str) -> (r: ParseResult<'a, Instruction<'a>>)
        requires
            old(self).wf(string),
        ensures
            parse_step(*old(self), *final(self), string, r),
            match while_at(string@, old(self).index as int) {
                Some(found) => (r matches Ok(p) && instr_view(p.value) == found.0 && final(self).index == found.1),
                None => r is Err,
            },
            r matches Ok(p) ==> p.len > 0 && p.value is While,
        decreases string@.len() - old(self).index, 37int,
    {
        let start_index = self.index;
        proof {
            reveal_strlit("while");
            reveal_strlit("{");
            reveal_strlit("}");
        }
        self.literal(string, "while")?;
        proof {
            lemma_run_end(string@, self.index as int, CharClass::Space);
        }
        self.whitespace(string)?;
        let predicate = self.parse_expression(string)?.value;
        let ghost predicate_end = self.index as int;
        self.skip_whitespace(string);
        proof {
            lemma_run_end(string@, predicate_end, CharClass::Space);
        }
        self.literal(string, "{")?;
        let body = self.parse_instructions(string)?.value;
        self.literal(string, "}")?;
        let ghost predicate_view = expr_view(predicate);
        let ghost body_view = instrs_view(body@);
        let result = Instruction::While { predicate, body };
        assert(instr_view(result) == SpecInstr::While(predicate_view, body_view));
        self.success(string, result, start_index, self.index - start_index)
    }

    /// `else` and instructions between braces.
    fn parse_else_branch<'a>(&mut self, string: &'a str) -> (r: ParseResult<'a, Vec<Instruction<'a>>>)
        requires
            old(self).wf(string),
        ensures
            parse_step(*old(self), *final(self), string, r),
            match else_at(string@, old(self).index as int) {
                Some(found) => (r matches Ok(p) && instrs_view(p.value@) == found.0 && final(self).index == found.1),
                None => r is Err,
            },
        decreases string@.len() - old(self).index, 36int,
    {
        let start_index = self.index;
        proof {
            reveal_strlit("else");
            reveal_strlit("{");
            reveal_strlit("}");
        }
        self.skip_whitespace(string);
        self.literal(string, "else")?;
        self.skip_whitespace(string);
        self.literal(string, "{")?;
        let body = self.parse_instructions(string)?.value;
        self.literal(string, "}")?;
        self.success(string, body, start_index, self.index - start_index)
    }

    /// `if`, white space, an expression and instructions between braces.
    fn parse_if_head<'a>(&mut self, string: &'a str) -> (r: ParseResult<'a, (Expression<'a>, Vec<Instruction<'a>>)>)
        requires
            old(self).wf(string),
        ensures
            parse_step(*old(self), *final(self), string, r),
            match if_head_at(string@, old(self).index as int) {
                Some(found) => (r matches Ok(p) && expr_view(p.value.0) == found.0 && instrs_view(p.value.1@)
                    == found.1 && final(self).index == found.2),
                None => r is Err,
            },
            r is Ok ==> final(self).index > old(self).index,
        decreases string@.len() - old(self).index, 36int,
    {
        let start_index = self.index;
        proof {
            reveal_strlit("if");
            reveal_strlit("{");
            reveal_strlit("}");
        }
        self.literal(string, "if")?;
        proof {
            lemma_run_end(string@, self.index as int, CharClass::Space);
        }
        self.whitespace(string)?;
        let predicate = self.parse_expression(string)?.value;
        let ghost predicate_end = self.index as int;
        self.skip_whitespace(string);
        proof {
            lemma_run_end(string@, predicate_end, CharClass::Space);
        }
        self.literal(string, "{")?;
        let if_body = self.parse_instructions(string)?.value;
        self.literal(string, "}")?;
        self.success(string, (predicate, if_body), start_index, self.index - start_index)
    }

    /// `if`, an expression, instructions between braces, and an optional `else` branch.
    #[verifier::rlimit(100)]
    #[verifier::spinoff_prover]
    pub fn parse_if_else<'a>(&mut self, string: &'a str) -> (r: ParseResult<'a, Instruction<'a>>)
        requires
            old(self).wf(string),
        ensures
            parse_step(*old(self), *final(self), string, r),
            match if_else_at(string@, old(self).index as int) {
                Some(found) => (r matches Ok(p) && instr_view(p.value) == found.0 && final(self).index == found.1),
                None => r is Err,
            },
            r matches Ok(p) ==> p.len > 0 && p.value is IfThenElse,
        decreases string@.len() - old(self).index, 37int,
    {
        let start_index = self.index;
        let head = self.parse_if_head(string)?;
        let (predicate, if_body) = head.value;
        let else_start = self.index;
        let else_body = match self.parse_else_branch(string) {
            Ok(p) => p.value,
            Err(_) => {
                self.index = else_start;
                let empty: Vec<Instruction<'a>> = Vec::new();
                assert(instrs_view(empty@) =~= Seq::<SpecInstr>::empty());
                empty
            },
        };
        let ghost predicate_view = expr_view(predicate);
        let ghost if_view = instrs_view(if_body@);
        let ghost else_view = instrs_view(else_body@);
        let result = Instruction::IfThenElse { predicate, if_body, else_body };
        assert(instr_view(result) == SpecInstr::IfThenElse(predicate_view, if_view, else_view));
        self.success(string, result, start_index, self.index - start_index)
    }

    /// One instruction, of the first form that matches.
    pub fn parse_instruction<'a>(&mut self, string: &'a str) -> (r: ParseResult<'a, Instruction<'a>>)
        requires
            old(self).wf(string),
        ensures
            parse_step(*old(self), *final(self), string, r),
            match instruction_at(string@, old(self).index as int) {
                Some(found) => (r matches Ok(p) && instr_view(p.value) == found.0 && final(self).index == found.1),
                None => r is Err,
            },
            r matches Ok(p) ==> p.len > 0,
        decreases string@.len() - old(self).index, 38int,
    {
        let start_index = self.index;
        match self.parse_definition(string) {
            Ok(p) => {
                return self.success(string, p.value, start_index, self.index - start_index);
            },
            Err(_) => {
                self.index = start_index;
            },
        }
        match self.parse_assignment(string) {
            Ok(p) => {
                return self.success(string, p.value, start_index, self.index - start_index);
            },
            Err(_) => {
                self.index = start_index;
            },
        }
        match self.parse_add_assignment(string) {
            Ok(p) => {
                return self.success(string, p.value, start_index, self.index - start_index);
            },
            Err(_) => {
                self.index = start_index;
            },
        }
        match self.parse_sub_assignment(string) {
            Ok(p) => {
                return self.success(string, p.value, start_index, self.index - start_index);
            },
            Err(_) => {
                self.index = start_index;
            },
        }
        match self.parse_read(string) {
            Ok(p) => {
                return self.success(string, p.value, start_index, self.index - start_index);
            },
            Err(_) => {
                self.index = start_index;
            },
        }
        match self.parse_write(string) {
            Ok(p) => {
                return self.success(string, p.value, start_index, self.index - start_index);
            },
            Err(_) => {
                self.index = start_index;
            },
        }
        match self.parse_print(string) {
            Ok(p) => {
                return self.success(string, p.value, start_index, self.index - start_index);
            },
            Err(_) => {
                self.index = start_index;
            },
        }
        match self.parse_scope(string) {
            Ok(p) => {
                return self.success(string, p.value, start_index, self.index - start_index);
            },
            Err(_) => {
                self.index = start_index;
            },
        }
        match self.parse_while(string) {
            Ok(p) => {
                return self.success(string, p.value, start_index, self.index - start_index);
            },
            Err(_) => {
                self.index = start_index;
            },
        }
        match self.parse_if_else(string) {
            Ok(p) => {
                return self.success(string, p.value, start_index, self.index - start_index);
            },
            Err(_) => {
                self.index = start_index;
            },
        }
        self.error(string, ParseErrorMessage::IgnoreError)
    }

    /// Instructions, each after optional white space, and the white space after them.
    pub fn parse_instructions<'a>(&mut self, string: &'a str) -> (r: ParseResult<'a, Vec<Instruction<'a>>>)
        requires
            old(self).wf(string),
        ensures
            parse_step(*old(self), *final(self), string, r),
            r matches Ok(p) && instrs_view(p.value@) == instructions_at(string@, old(self).index as int).0
                && final(self).index == instructions_at(string@, old(self).index as int).1,
        decreases string@.len() - old(self).index, 39int,
    {
        let start_index = self.index;
        let ghost s = string@;
        let ghost all = instructions_at(s, start_index as int);
        let mut instructions: Vec<Instruction<'a>> = Vec::new();
        assert(all.0 =~= instrs_view(instructions@) + instructions_at(s, self.index as int).0);
        loop
            invariant
                self.wf(string),
                s == string@,
                self.index >= start_index,
                start_index == old(self).index,
                all == instructions_at(s, start_index as int),
                all.0 == instrs_view(instructions@) + instructions_at(s, self.index as int).0,
                all.1 == instructions_at(s, self.index as int).1,
            ensures
                self.wf(string),
                self.index >= start_index,
                all.0 == instrs_view(instructions@),
                all.1 == run_end(s, self.index as int, CharClass::Space),
            decreases string@.len() - self.index,
        {
            let loop_start = self.index;
            let ghost before = instrs_view(instructions@);
            self.skip_whitespace(string);
            proof {
                lemma_run_end(s, loop_start as int, CharClass::Space);
            }
            match self.parse_instruction(string) {
                Ok(p) => {
                    let ghost x = instr_view(p.value);
                    instructions.push(p.value);
                    proof {
                        assert(instrs_view(instructions@) =~= before.push(x));
                        let rest = instructions_at(s, self.index as int);
                        assert(instructions_at(s, loop_start as int) == (seq![x] + rest.0, rest.1));
                        assert(before + (seq![x] + rest.0) =~= instrs_view(instructions@) + rest.0);
                    }
                },
                Err(_) => {
                    self.index = loop_start;
                    assert(instructions_at(s, loop_start as int).0 =~= Seq::<SpecInstr>::empty());
                    assert(before + instructions_at(s, loop_start as int).0 =~= before);
                    break;
                },
            }
        }
        self.skip_whitespace(string);
        self.success(string, instructions, start_index, self.index - start_index)
    }

    /// A whole program: instructions up to the end of the text.
    pub fn parse_program<'a>(&mut self, string: &'a str) -> (r: ParseResult<'a, Program<'a>>)
        requires
            old(self).wf(string),
        ensures
            parse_step(*old(self), *final(self), string, r),
            r is Ok <==> instructions_at(string@, old(self).index as int).1 == string@.len(),
            r matches Ok(p) ==> instrs_view(p.value.instructions@) == instructions_at(string@, old(self).index as int).0,
            r is Ok ==> final(self).index == string@.len(),
    {
        let start_index = self.index;
        let instructions = self.parse_instructions(string)?.value;
        let program = Program { instructions };
        self.eof(string)?;
        self.success(string, program, start_index, self.index - start_index)
    }
}

impl Default for BrainCrabParser {
    fn default() -> (r: Self)
        ensures
            r.index == 0,
            r.longest_parse == 0,
            r.longest_parse_error@.len() == 0,
    {
        Self::new()
    }
}

} // verus!

verus! {

/// The order of the kinds of messages, as they are declared.
pub open spec fn message_rank(m: ParseErrorMessage) -> int {
    match m {
        ParseErrorMessage::NonAsciiProgram => 0,
        ParseErrorMessage::UnexpectedEnd => 1,
        ParseErrorMessage::Expected(_) => 2,
        ParseErrorMessage::IgnoreError => 3,
    }
}

/// `a` comes before `b` in the order of characters, the shorter first where one begins the
/// other.
pub open spec fn text_less(a: Seq<char>, b: Seq<char>) -> bool
    decreases a.len(),
{
    if a.len() == 0 {
        b.len() > 0
    } else if b.len() == 0 {
        false
    } else if a[0] != b[0] {
        (a[0] as int) < (b[0] as int)
    } else {
        text_less(a.drop_first(), b.drop_first())
    }
}

/// The two messages say the same.
pub open spec fn message_same(a: ParseErrorMessage, b: ParseErrorMessage) -> bool {
    message_rank(a) == message_rank(b) && (a is Expected ==> a->Expected_0@ == b->Expected_0@)
}

/// `a` comes before `b`: by kind, then by what was expected.
pub open spec fn message_less(a: ParseErrorMessage, b: ParseErrorMessage) -> bool {
    message_rank(a) < message_rank(b) || (a is Expected && b is Expected && text_less(
        a->Expected_0@,
        b->Expected_0@,
    ))
}

/// The ordered messages with `m` put in its place, unless one that says the same is there.
pub open spec fn insert_message(s: Seq<ParseErrorMessage>, m: ParseErrorMessage) -> Seq<ParseErrorMessage>
    decreases s.len(),
{
    if s.len() == 0 {
        seq![m]
    } else if message_same(s[0], m) {
        s
    } else if message_less(m, s[0]) {
        seq![m] + s
    } else {
        seq![s[0]] + insert_message(s.drop_first(), m)
    }
}

/// The messages in order, each said once.
pub open spec fn unique_messages(s: Seq<ParseErrorMessage>) -> Seq<ParseErrorMessage>
    decreases s.len(),
{
    if s.len() == 0 {
        Seq::empty()
    } else {
        insert_message(unique_messages(s.drop_last()), s.last())
    }
}

/// The text of a message.
pub open spec fn message_text(m: ParseErrorMessage) -> Seq<char> {
    match m {
        ParseErrorMessage::NonAsciiProgram => "Not a valid ASCII program."@,
        ParseErrorMessage::UnexpectedEnd => "Unexpected EOF."@,
        ParseErrorMessage::Expected(e) => "Expected "@ + e@,
        ParseErrorMessage::IgnoreError => "This triggered an error that will be shown from somewhere else."@,
    }
}

/// Where the shown line starts: at the last newline at or before `index`, or at 0.
pub open spec fn line_start(s: Seq<char>, index: int) -> int
    decreases s.len(),
{
    if s.len() == 0 {
        0
    } else if s.last() == '\n' && s.len() - 1 <= index {
        s.len() - 1
    } else {
        line_start(s.drop_last(), index)
    }
}

/// Where the shown line ends: at the first newline after `index`, or at the end.
pub open spec fn line_end(s: Seq<char>, index: int) -> int
    decreases s.len(),
{
    if s.len() == 0 {
        0
    } else {
        let e = line_end(s.drop_last(), index);
        if e < s.len() - 1 {
            e
        } else if s.last() == '\n' && s.len() - 1 > index {
            s.len() - 1
        } else {
            s.len() as int
        }
    }
}

/// The lines of the first `k` messages, each under the caret's column: the last one after `╚`,
/// the others after `╠`.
pub open spec fn message_lines(u: Seq<ParseErrorMessage>, k: nat, pad: nat) -> Seq<char>
    decreases k,
{
    if k == 0 {
        Seq::empty()
    } else {
        message_lines(u, (k - 1) as nat, pad) + spaces(pad) + (if k < u.len() {
            "╠═► "@
        } else {
            "╚═► "@
        }) + message_text(u[k - 1]) + "\n"@
    }
}

/// The text of a parse error: the line where it happened, a caret under the place, and each
/// message once, in order.
pub open spec fn error_text(s: Seq<char>, index: int, messages: Seq<ParseErrorMessage>) -> Seq<char> {
    let start = line_start(s, index);
    let pad = (index - start - 1) as nat;
    let u = unique_messages(messages);
    s.subrange(start, line_end(s, index)) + "\n"@ + spaces(pad) + "╥\n"@ + message_lines(u, u.len(), pad)
}

fn rank(m: &ParseErrorMessage) -> (r: u8)
    ensures
        r == message_rank(*m),
{
    match m {
        ParseErrorMessage::NonAsciiProgram => 0,
        ParseErrorMessage::UnexpectedEnd => 1,
        ParseErrorMessage::Expected(_) => 2,
        ParseErrorMessage::IgnoreError => 3,
    }
}

fn str_less(a: &str, b: &str) -> (r: bool)
    ensures
        r == text_less(a@, b@),
{
    let n = a.unicode_len();
    let m = b.unicode_len();
    let mut i: usize = 0;
    proof {
        assert(a@.skip(0) =~= a@);
        assert(b@.skip(0) =~= b@);
    }
    while i < n && i < m
        invariant
            i <= n,
            i <= m,
            n == a@.len(),
            m == b@.len(),
            text_less(a@, b@) == text_less(a@.skip(i as int), b@.skip(i as int)),
        decreases n - i,
    {
        let x = a.get_char(i);
        let y = b.get_char(i);
        assert(a@.skip(i as int)[0] == x);
        assert(b@.skip(i as int)[0] == y);
        if x != y {
            return (x as u32) < (y as u32);
        }
        proof {
            assert(a@.skip(i as int).drop_first() =~= a@.skip(i + 1));
            assert(b@.skip(i as int).drop_first() =~= b@.skip(i + 1));
        }
        i = i + 1;
    }
    if i == n {
        i < m
    } else {
        false
    }
}

fn str_same(a: &str, b: &str) -> (r: bool)
    ensures
        r == (a@ == b@),
{
    let n = a.unicode_len();
    if n != b.unicode_len() {
        return false;
    }
    let mut i: usize = 0;
    while i < n
        invariant
            i <= n,
            n == a@.len(),
            n == b@.len(),
            forall|j: int| 0 <= j < i ==> a@[j] == b@[j],
        decreases n - i,
    {
        if a.get_char(i) != b.get_char(i) {
            return false;
        }
        i = i + 1;
    }
    assert(a@ =~= b@);
    true
}

fn messages_same(a: &ParseErrorMessage, b: &ParseErrorMessage) -> (r: bool)
    ensures
        r == message_same(*a, *b),
{
    if rank(a) != rank(b) {
        return false;
    }
    match (a, b) {
        (ParseErrorMessage::Expected(x), ParseErrorMessage::Expected(y)) => str_same(x, y),
        _ => true,
    }
}

fn message_before(a: &ParseErrorMessage, b: &ParseErrorMessage) -> (r: bool)
    ensures
        r == message_less(*a, *b),
{
    if rank(a) < rank(b) {
        return true;
    }
    match (a, b) {
        (ParseErrorMessage::Expected(x), ParseErrorMessage::Expected(y)) => str_less(x, y),
        _ => false,
    }
}

proof fn lemma_insert_skip(s: Seq<ParseErrorMessage>, m: ParseErrorMessage, k: int)
    requires
        0 <= k < s.len(),
        !message_same(s[k], m),
        !message_less(m, s[k]),
    ensures
        insert_message(s.skip(k), m) == seq![s[k]] + insert_message(s.skip(k + 1), m),
{
    assert(s.skip(k)[0] == s[k]);
    assert(s.skip(k).drop_first() =~= s.skip(k + 1));
}

fn insert_into(u: &mut Vec<ParseErrorMessage>, m: ParseErrorMessage)
    ensures
        final(u)@ == insert_message(old(u)@, m),
{
    let ghost s = u@;
    let mut k: usize = 0;
    assert(s.skip(0) =~= s);
    assert(s.take(0) + s.skip(0) =~= s);
    while k < u.len()
        invariant
            k <= s.len(),
            u@ == s,
            s == old(u)@,
            insert_message(s, m) == s.take(k as int) + insert_message(s.skip(k as int), m),
        decreases s.len() - k,
    {
        assert(s.skip(k as int)[0] == s[k as int]);
        assert(s.skip(k as int).len() > 0);
        if messages_same(&u[k], &m) {
            assert(insert_message(s.skip(k as int), m) == s.skip(k as int));
            assert(s.take(k as int) + s.skip(k as int) =~= s);
            return;
        }
        if message_before(&m, &u[k]) {
            assert(insert_message(s.skip(k as int), m) == seq![m] + s.skip(k as int));
            u.insert(k, m);
            assert(u@ =~= s.take(k as int) + (seq![m] + s.skip(k as int)));
            return;
        }
        proof {
            lemma_insert_skip(s, m, k as int);
            assert(s.take(k as int) + seq![s[k as int]] =~= s.take(k + 1));
            assert(s.take(k as int) + (seq![s[k as int]] + insert_message(s.skip(k + 1), m)) =~= s.take(k + 1)
                + insert_message(s.skip(k + 1), m));
        }
        k = k + 1;
    }
    assert(s.skip(k as int) =~= Seq::<ParseErrorMessage>::empty());
    assert(s.take(k as int) =~= s);
    u.push(m);
    assert(u@ =~= s + seq![m]);
}

/// The messages in order, each said once.
fn sorted_unique(messages: &Vec<ParseErrorMessage>) -> (r: Vec<ParseErrorMessage>)
    ensures
        r@ == unique_messages(messages@),
{
    let mut u: Vec<ParseErrorMessage> = Vec::new();
    let mut i: usize = 0;
    assert(messages@.take(0) =~= Seq::<ParseErrorMessage>::empty());
    while i < messages.len()
        invariant
            i <= messages@.len(),
            u@ == unique_messages(messages@.take(i as int)),
        decreases messages@.len() - i,
    {
        insert_into(&mut u, messages[i]);
        assert(messages@.take(i + 1).drop_last() =~= messages@.take(i as int));
        i = i + 1;
    }
    assert(messages@.take(i as int) =~= messages@);
    u
}

impl ParseErrorMessage {
    /// The text of the message.
    pub fn to_string(&self) -> (r: String)
        ensures
            r@ == message_text(*self),
    {
        let mut r = String::new();
        match self {
            ParseErrorMessage::NonAsciiProgram => append_text(&mut r, "Not a valid ASCII program."),
            ParseErrorMessage::UnexpectedEnd => append_text(&mut r, "Unexpected EOF."),
            ParseErrorMessage::Expected(e) => {
                append_text(&mut r, "Expected ");
                append_text(&mut r, e);
            },
            ParseErrorMessage::IgnoreError => append_text(
                &mut r,
                "This triggered an error that will be shown from somewhere else.",
            ),
        }
        assert(r@ =~= message_text(*self));
        r
    }
}

impl<'a> ParseError<'a> {
    /// The text of the error: the line where it happened, a caret under the place, and each
    /// message once, in order.
    pub fn to_string(&self) -> (r: String)
        requires
            self.string.is_ascii(),
            self.index > line_start(self.string@, self.index as int),
        ensures
            r@ == error_text(self.string@, self.index as int, self.messages@),
    {
        let s = self.string;
        let index = self.index;
        let n = s.unicode_len();
        let mut start: usize = 0;
        let mut end: Option<usize> = None;
        let mut i: usize = 0;
        while i < n
            invariant
                i <= n == s@.len(),
                start == line_start(s@.take(i as int), index as int),
                start == 0 || (start < i && start <= index),
                match end {
                    None => line_end(s@.take(i as int), index as int) == i,
                    Some(e) => line_end(s@.take(i as int), index as int) == e && index < e < i,
                },
            decreases n - i,
        {
            let c = s.get_char(i);
            proof {
                assert(s@.take(i + 1).drop_last() =~= s@.take(i as int));
                assert(s@.take(i + 1).last() == c);
            }
            if c == '\n' {
                if i <= index {
                    start = i;
                } else if end.is_none() {
                    end = Some(i);
                }
            }
            i = i + 1;
        }
        assert(s@.take(n as int) =~= s@);
        let end: usize = match end {
            Some(e) => e,
            None => n,
        };
        let mut r = String::new();
        let line = s.substring_ascii(start, end);
        append_text(&mut r, line);
        append_text(&mut r, "\n");
        let pad = index - start - 1;
        push_spaces(&mut r, pad);
        append_text(&mut r, "╥\n");
        let unique = sorted_unique(&self.messages);
        let ghost head = r@;
        let mut j: usize = 0;
        while j < unique.len()
            invariant
                j <= unique@.len(),
                r@ == head + message_lines(unique@, j as nat, pad as nat),
            decreases unique@.len() - j,
        {
            push_spaces(&mut r, pad);
            if j + 1 < unique.len() {
                append_text(&mut r, "╠═► ");
            } else {
                append_text(&mut r, "╚═► ");
            }
            let text = unique[j].to_string();
            append_text(&mut r, text.as_str());
            append_text(&mut r, "\n");
            j = j + 1;
            assert(r@ =~= head + message_lines(unique@, j as nat, pad as nat));
        }
        r
    }
}

} // verus!
