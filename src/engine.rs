use vstd::prelude::*;

use crate::token::{StackValue, TokenType};

verus! {

/// A fatal condition met while executing; each carries the position of the
/// instruction that raised it.
#[derive(Debug, Clone, Copy, PartialEq, Eq, Structural)]
pub enum RunError {
    /// The instruction needed more operands than the stack held.
    StackUnderflow(usize),
    /// `/` or `%` with a zero divisor.
    DivisionByZero(usize),
    /// The result of an arithmetic instruction does not fit in 32 bits.
    Overflow(usize),
}

/// The state of execution: the operand stack and the instruction pointer.
pub struct Machine {
    pub stack: Vec<StackValue>,
    pub ip: usize,
}

pub open spec fn abs(x: int) -> int {
    if x < 0 {
        -x
    } else {
        x
    }
}

/// Integer division rounding toward zero.
pub open spec fn trunc_div(b: int, a: int) -> int {
    let q = abs(b) / abs(a);
    if (b < 0) == (a < 0) {
        q
    } else {
        -q
    }
}

/// The remainder of `trunc_div`: it takes the sign of the dividend.
pub open spec fn trunc_rem(b: int, a: int) -> int {
    let m = abs(b) % abs(a);
    if b < 0 {
        -m
    } else {
        m
    }
}

pub open spec fn fits(x: int) -> bool {
    i32::MIN <= x <= i32::MAX
}

pub open spec fn is_binary(op: TokenType) -> bool {
    op is Add || op is Sub || op is Mul || op is Div || op is Mod || op is Eq || op is Lt || op is Mt
}

/// The result of a binary instruction on `b` (popped second) and `a` (popped first),
/// or the error it raises at position `at`.
pub open spec fn binary(op: TokenType, b: i32, a: i32, at: usize) -> Result<i32, RunError> {
    match op {
        TokenType::Add => if fits(b + a) {
            Ok((b + a) as i32)
        } else {
            Err(RunError::Overflow(at))
        },
        TokenType::Sub => if fits(b - a) {
            Ok((b - a) as i32)
        } else {
            Err(RunError::Overflow(at))
        },
        TokenType::Mul => if fits(b * a) {
            Ok((b * a) as i32)
        } else {
            Err(RunError::Overflow(at))
        },
        TokenType::Div => if a == 0 {
            Err(RunError::DivisionByZero(at))
        } else if fits(trunc_div(b as int, a as int)) {
            Ok(trunc_div(b as int, a as int) as i32)
        } else {
            Err(RunError::Overflow(at))
        },
        TokenType::Mod => if a == 0 {
            Err(RunError::DivisionByZero(at))
        } else if b == i32::MIN && a == -1 {
            Err(RunError::Overflow(at))
        } else {
            Ok(trunc_rem(b as int, a as int) as i32)
        },
        TokenType::Eq => Ok(if b == a { 1 } else { 0 }),
        TokenType::Lt => Ok(if b > a { 1 } else { 0 }),
        _ => Ok(if b < a { 1 } else { 0 }),
    }
}

/// One step of execution of the instruction at `ip`: the new stack, the new
/// instruction pointer and the value printed, if any.
pub open spec fn step_spec(p: Seq<TokenType>, st: Seq<StackValue>, ip: usize) -> Result<
    (Seq<StackValue>, usize, Option<StackValue>),
    RunError,
> {
    let op = p[ip as int];
    let next = (ip + 1) as usize;
    if is_binary(op) {
        if st.len() < 2 {
            Err(RunError::StackUnderflow(ip))
        } else {
            let a = st.last();
            let b = st.drop_last().last();
            let rest = st.drop_last().drop_last();
            match (a, b) {
                (StackValue::Number(x), StackValue::Number(y)) => match binary(op, y, x, ip) {
                    Ok(v) => Ok((rest.push(StackValue::Number(v)), next, None)),
                    Err(e) => Err(e),
                },
                _ => Ok((rest, next, None)),
            }
        }
    } else {
        match op {
            TokenType::PushInt(n) => Ok((st.push(StackValue::Number(n)), next, None)),
            TokenType::If(t) => if st.len() == 0 {
                Err(RunError::StackUnderflow(ip))
            } else {
                match st.last() {
                    StackValue::Number(n) => Ok((st.drop_last(), if n > 0 { next } else { t }, None)),
                    StackValue::Text(_) => Ok((st.drop_last(), ip, None)),
                }
            },
            TokenType::Do(t) => if st.len() == 0 {
                Err(RunError::StackUnderflow(ip))
            } else {
                match st.last() {
                    StackValue::Number(n) => Ok(
                        (
                            st.drop_last(),
                            if n > 0 {
                                next
                            } else if t < p.len() {
                                (t + 1) as usize
                            } else {
                                p.len() as usize
                            },
                            None,
                        ),
                    ),
                    StackValue::Text(_) => Ok((st.drop_last(), ip, None)),
                }
            },
            TokenType::WEnd(t) => Ok((st, t, None)),
            TokenType::Dup => if st.len() == 0 {
                Err(RunError::StackUnderflow(ip))
            } else {
                Ok((st.push(st.last()), next, None))
            },
            TokenType::Print => if st.len() == 0 {
                Err(RunError::StackUnderflow(ip))
            } else {
                Ok((st.drop_last(), next, Some(st.last())))
            },
            _ => Ok((st, next, None)),
        }
    }
}

fn apply_binary(op: &TokenType, b: i32, a: i32, at: usize) -> (r: Result<i32, RunError>)
    requires
        is_binary(*op),
    ensures
        r == binary(*op, b, a, at),
{
    let v = match op {
        TokenType::Add => b.checked_add(a),
        TokenType::Sub => b.checked_sub(a),
        TokenType::Mul => b.checked_mul(a),
        TokenType::Div => b.checked_div(a),
        TokenType::Mod => b.checked_rem(a),
        TokenType::Eq => Some(if b == a { 1 } else { 0 }),
        TokenType::Lt => Some(if b > a { 1 } else { 0 }),
        _ => Some(if b < a { 1 } else { 0 }),
    };
    match v {
        Some(x) => {
            proof {
                let bi = b as int;
                let ai = a as int;
                if bi < 0 {
                    assert(abs(bi) == -bi);
                } else {
                    assert(abs(bi) == bi);
                }
                if ai < 0 {
                    assert(abs(ai) == -ai);
                } else {
                    assert(abs(ai) == ai);
                }
                if *op is Mod {
                    if bi == 0 {
                        assert(0int % abs(ai) == 0) by (nonlinear_arith)
                            requires
                                abs(ai) > 0,
                        ;
                    }
                    assert(x as int == trunc_rem(bi, ai));
                }
            }
            Ok(x)
        },
        None => {
            if a == 0 && (matches!(op, TokenType::Div) || matches!(op, TokenType::Mod)) {
                Err(RunError::DivisionByZero(at))
            } else {
                Err(RunError::Overflow(at))
            }
        },
    }
}

impl Machine {
    /// A machine at the first instruction with an empty stack.
    pub fn new() -> (m: Machine)
        ensures
            m.stack@.len() == 0,
            m.ip == 0,
    {
        Machine { stack: Vec::new(), ip: 0 }
    }

    /// Whether the instruction pointer has left the program.
    pub fn halted(&self, program: &Vec<TokenType>) -> (r: bool)
        ensures
            r == (self.ip >= program@.len()),
    {
        self.ip >= program.len()
    }

    /// Executes the instruction at the instruction pointer and returns the value it
    /// prints, if any. Binary instructions whose operands are not both numbers consume
    /// them and push nothing; an `if` or `do` that pops a text leaves the pointer where
    /// it is; a `do` whose target lies past the end sends the pointer to the end.
    pub fn step(&mut self, program: &Vec<TokenType>) -> (r: Result<Option<StackValue>, RunError>)
        requires
            old(self).ip < program@.len(),
        ensures
            r is Ok <==> step_spec(program@, old(self).stack@, old(self).ip) is Ok,
            r is Ok ==> ({
                let (st, ip, out) = step_spec(program@, old(self).stack@, old(self).ip)->Ok_0;
                &&& final(self).stack@ == st
                &&& final(self).ip == ip
                &&& r->Ok_0 == out
            }),
            r is Err ==> r->Err_0 == step_spec(program@, old(self).stack@, old(self).ip)->Err_0,
    {
        let ip = self.ip;
        let len = program.len();
        let next = ip + 1;
        let op = &program[ip];
        if is_binary_op(op) {
            if self.stack.len() < 2 {
                return Err(RunError::StackUnderflow(ip));
            }
            let a = self.stack.pop().unwrap();
            let b = self.stack.pop().unwrap();
            match (a, b) {
                (StackValue::Number(x), StackValue::Number(y)) => {
                    let v = apply_binary(op, y, x, ip)?;
                    self.stack.push(StackValue::Number(v));
                },
                _ => {},
            }
            self.ip = next;
            return Ok(None);
        }
        match op {
            TokenType::PushInt(n) => {
                self.stack.push(StackValue::Number(*n));
                self.ip = next;
                Ok(None)
            },
            TokenType::If(t) => {
                match self.stack.pop() {
                    None => Err(RunError::StackUnderflow(ip)),
                    Some(StackValue::Number(n)) => {
                        self.ip = if n > 0 { next } else { *t };
                        Ok(None)
                    },
                    Some(StackValue::Text(_)) => Ok(None),
                }
            },
            TokenType::Do(t) => {
                match self.stack.pop() {
                    None => Err(RunError::StackUnderflow(ip)),
                    Some(StackValue::Number(n)) => {
                        self.ip = if n > 0 {
                            next
                        } else if *t < len {
                            *t + 1
                        } else {
                            len
                        };
                        Ok(None)
                    },
                    Some(StackValue::Text(_)) => Ok(None),
                }
            },
            TokenType::WEnd(t) => {
                self.ip = *t;
                Ok(None)
            },
            TokenType::Dup => {
                match self.stack.pop() {
                    None => Err(RunError::StackUnderflow(ip)),
                    Some(a) => {
                        let copy = copy_value(&a);
                        self.stack.push(a);
                        self.stack.push(copy);
                        self.ip = next;
                        Ok(None)
                    },
                }
            },
            TokenType::Print => {
                match self.stack.pop() {
                    None => Err(RunError::StackUnderflow(ip)),
                    Some(a) => {
                        self.ip = next;
                        Ok(Some(a))
                    },
                }
            },
            _ => {
                self.ip = next;
                Ok(None)
            },
        }
    }
}

fn is_binary_op(op: &TokenType) -> (r: bool)
    ensures
        r == is_binary(*op),
{
    match op {
        TokenType::Add | TokenType::Sub | TokenType::Mul | TokenType::Div | TokenType::Mod
        | TokenType::Eq | TokenType::Lt | TokenType::Mt => true,
        _ => false,
    }
}

fn copy_value(v: &StackValue) -> (r: StackValue)
    ensures
        r == *v,
{
    match v {
        StackValue::Number(n) => StackValue::Number(*n),
        StackValue::Text(t) => StackValue::Text(t.clone()),
    }
}

/// How a bounded run ended.
#[derive(Debug, Clone, Copy, PartialEq, Eq, Structural)]
pub enum Status {
    /// The instruction pointer reached the end of the program.
    Halted,
    /// The step budget ran out first.
    OutOfSteps,
    /// A fatal condition stopped execution.
    Failed(RunError),
}

/// What a bounded run printed, in order, and how it ended.
pub struct Outcome {
    pub output: Vec<StackValue>,
    pub status: Status,
}

pub open spec fn printed(out: Option<StackValue>) -> Seq<StackValue> {
    match out {
        Some(v) => seq![v],
        None => seq![],
    }
}

/// Running `p` from stack `st` and pointer `ip` for at most `fuel` steps: the values
/// printed, and how the run ended.
pub open spec fn exec_spec(p: Seq<TokenType>, st: Seq<StackValue>, ip: usize, fuel: nat) -> (
    Seq<StackValue>,
    Status,
)
    decreases fuel,
{
    if ip >= p.len() {
        (seq![], Status::Halted)
    } else if fuel == 0 {
        (seq![], Status::OutOfSteps)
    } else {
        match step_spec(p, st, ip) {
            Err(e) => (seq![], Status::Failed(e)),
            Ok((st2, ip2, out)) => {
                let (rest, status) = exec_spec(p, st2, ip2, (fuel - 1) as nat);
                (printed(out) + rest, status)
            },
        }
    }
}

/// Runs a resolved program from an empty stack for at most `max_steps` instructions,
/// collecting what it prints.
pub fn run(program: &Vec<TokenType>, max_steps: usize) -> (r: Outcome)
    ensures
        (r.output@, r.status) == exec_spec(program@, seq![], 0, max_steps as nat),
{
    let mut m = Machine::new();
    let mut output: Vec<StackValue> = Vec::new();
    let mut fuel = max_steps;
    assert(m.stack@ =~= seq![]);
    loop
        invariant
            ({
                let (rest, status) = exec_spec(program@, m.stack@, m.ip, fuel as nat);
                exec_spec(program@, seq![], 0, max_steps as nat) == (output@ + rest, status)
            }),
        decreases fuel,
    {
        if m.halted(program) {
            assert(output@ + seq![] =~= output@);
            return Outcome { output, status: Status::Halted };
        }
        if fuel == 0 {
            assert(output@ + seq![] =~= output@);
            return Outcome { output, status: Status::OutOfSteps };
        }
        let ghost before = output@;
        let ghost st0 = m.stack@;
        let ghost ip0 = m.ip;
        match m.step(program) {
            Err(e) => {
                assert(output@ + seq![] =~= output@);
                return Outcome { output, status: Status::Failed(e) };
            },
            Ok(out) => {
                let ghost printed_now = printed(out);
                match out {
                    Some(v) => {
                        output.push(v);
                    },
                    None => {},
                }
                fuel = fuel - 1;
                proof {
                    let (rest, status) = exec_spec(program@, m.stack@, m.ip, fuel as nat);
                    assert(exec_spec(program@, st0, ip0, (fuel + 1) as nat) == (
                    printed_now + rest, status));
                    assert(before + (printed_now + rest) =~= output@ + rest);
                }
            },
        }
    }
}

} // verus!
