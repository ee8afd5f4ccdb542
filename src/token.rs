use vstd::prelude::*;

verus! {

/// One instruction of a program.
///
/// The jump-target fields of `If`, `Do` and `WEnd` hold 0 as produced by the
/// lexer; the resolver fills them in.
#[derive(Debug, Clone, PartialEq)]
pub enum TokenType {
    PushInt(i32),
    Add,
    Sub,
    Mul,
    Div,
    Mod,
    Eq,
    /// Pushes 1 when the second-popped value is greater than the first-popped one (`>`).
    Lt,
    /// Pushes 1 when the second-popped value is less than the first-popped one (`<`).
    Mt,
    If(usize),
    While,
    Do(usize),
    End,
    WEnd(usize),
    Dup,
    /// A word that is neither a number nor a keyword; executing it does nothing.
    UserDefinedWord(String),
    Print,
}

/// A value on the operand stack.
#[derive(Debug, Clone, PartialEq)]
pub enum StackValue {
    Number(i32),
    Text(String),
}

/// Relies on `String::push`: appends one character to the string.
#[verifier::external_body]
pub(crate) fn push_char(s: &mut String, c: char)
    ensures
        final(s)@ == old(s)@.push(c),
{
    s.push(c);
}

pub open spec fn digit_char(d: nat) -> char {
    ((d + 48) as u8) as char
}

/// The base-10 digits of `n`, most significant first, without leading zeros.
pub open spec fn digits_of(n: nat) -> Seq<char>
    decreases n,
{
    if n < 10 {
        seq![digit_char(n)]
    } else {
        digits_of(n / 10).push(digit_char(n % 10))
    }
}

/// The base-10 form of `n`, with a leading `-` when it is negative.
pub open spec fn decimal(n: int) -> Seq<char> {
    if n < 0 {
        seq!['-'] + digits_of((-n) as nat)
    } else {
        digits_of(n as nat)
    }
}

/// The text that printing a value writes (without the newline).
pub open spec fn render_spec(v: StackValue) -> Seq<char> {
    match v {
        StackValue::Number(n) => decimal(n as int),
        StackValue::Text(t) => t@,
    }
}

fn push_digits(s: &mut String, n: u64)
    ensures
        final(s)@ == old(s)@ + digits_of(n as nat),
    decreases n,
{
    if n >= 10 {
        push_digits(s, n / 10);
    }
    let d = (n % 10) as u8;
    push_char(s, (d + 48) as char);
    proof {
        if n < 10 {
            assert(old(s)@ + digits_of(n as nat) =~= old(s)@.push(digit_char(n as nat)));
        } else {
            assert(old(s)@ + digits_of(n as nat) =~= (old(s)@ + digits_of((n / 10) as nat)).push(
                digit_char((n % 10) as nat),
            ));
        }
    }
}

impl StackValue {
    /// The text that printing this value writes: a number in base 10, a text as it is.
    pub fn render(&self) -> (r: String)
        ensures
            r@ == render_spec(*self),
    {
        match self {
            StackValue::Number(n) => {
                let mut s = String::new();
                let v = *n as i64;
                if v < 0 {
                    push_char(&mut s, '-');
                    push_digits(&mut s, (-v) as u64);
                } else {
                    push_digits(&mut s, v as u64);
                }
                proof {
                    if v < 0 {
                        assert(s@ =~= seq!['-'] + digits_of((-v) as nat));
                    } else {
                        assert(s@ =~= digits_of(v as nat));
                    }
                }
                s
            },
            StackValue::Text(t) => t.clone(),
        }
    }
}

} // verus!
