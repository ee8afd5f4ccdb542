use vstd::prelude::*;

use crate::token::TokenType;

verus! {

/// Why back-patching failed: a closing word found no opener left to pair with.
#[derive(Debug, Clone, Copy, PartialEq, Eq, Structural)]
pub enum ResolveError {
    /// An `end` met an empty stack of openers.
    UnmatchedEnd,
    /// A `wend` met fewer than two openers.
    UnmatchedWEnd,
}

pub open spec fn is_opener(t: TokenType) -> bool {
    t is If || t is While || t is Do
}

/// One step of the resolution pass on the instruction `op` at position `ip`, from the
/// stack `st` of pending opener positions and the program `r` patched so far.
pub open spec fn resolve_step(st: Seq<usize>, r: Seq<TokenType>, op: TokenType, ip: usize) -> Result<
    (Seq<usize>, Seq<TokenType>),
    ResolveError,
> {
    match op {
        TokenType::End => {
            if st.len() == 0 {
                Err(ResolveError::UnmatchedEnd)
            } else {
                Ok((st.drop_last(), r.update(st.last() as int, TokenType::If(ip))))
            }
        },
        TokenType::WEnd(_) => {
            if st.len() < 2 {
                Err(ResolveError::UnmatchedWEnd)
            } else {
                let do_ip = st.last();
                let while_ip = st.drop_last().last();
                Ok(
                    (
                        st.drop_last().drop_last(),
                        r.update(do_ip as int, TokenType::Do(ip)).update(
                            ip as int,
                            TokenType::WEnd(while_ip),
                        ),
                    ),
                )
            }
        },
        _ => {
            if is_opener(op) {
                Ok((st.push(ip), r))
            } else {
                Ok((st, r))
            }
        },
    }
}

/// The state of the resolution pass after the first `n` instructions of `p`.
pub open spec fn resolve_prefix(p: Seq<TokenType>, n: nat) -> Result<
    (Seq<usize>, Seq<TokenType>),
    ResolveError,
>
    decreases n,
{
    if n == 0 {
        Ok((seq![], p))
    } else {
        match resolve_prefix(p, (n - 1) as nat) {
            Ok((st, r)) => resolve_step(st, r, p[n - 1], (n - 1) as usize),
            Err(e) => Err(e),
        }
    }
}

/// The outcome of resolving the whole program `p`.
pub open spec fn resolved(p: Seq<TokenType>) -> Result<Seq<TokenType>, ResolveError> {
    match resolve_prefix(p, p.len()) {
        Ok((_, r)) => Ok(r),
        Err(e) => Err(e),
    }
}

proof fn lemma_error_persists(p: Seq<TokenType>, m: nat, n: nat)
    requires
        m <= n <= p.len(),
        resolve_prefix(p, m) is Err,
    ensures
        resolve_prefix(p, n) == resolve_prefix(p, m),
    decreases n - m,
{
    if m < n {
        lemma_error_persists(p, m, (n - 1) as nat);
    }
}

enum Role {
    Opener,
    CloseIf,
    CloseLoop,
    Plain,
}

fn role(t: &TokenType) -> (r: Role)
    ensures
        r is Opener <==> is_opener(*t),
        r is CloseIf <==> t is End,
        r is CloseLoop <==> t is WEnd,
{
    match t {
        TokenType::If(_) | TokenType::While | TokenType::Do(_) => Role::Opener,
        TokenType::End => Role::CloseIf,
        TokenType::WEnd(_) => Role::CloseLoop,
        _ => Role::Plain,
    }
}

fn resolve_in_place(program: &mut Vec<TokenType>) -> (r: Result<(), ResolveError>)
    ensures
        r is Ok <==> resolved(old(program)@) is Ok,
        r is Ok ==> final(program)@ == resolved(old(program)@)->Ok_0,
        r is Err ==> r->Err_0 == resolved(old(program)@)->Err_0,
{
    let ghost p = program@;
    let n = program.len();
    let mut stack: Vec<usize> = Vec::new();
    let mut ip: usize = 0;
    while ip < n
        invariant
            n == p.len(),
            p == old(program)@,
            ip <= n,
            program@.len() == n,
            resolve_prefix(p, ip as nat) == Ok::<(Seq<usize>, Seq<TokenType>), ResolveError>(
                (stack@, program@),
            ),
            forall|j: int| ip <= j < n ==> program@[j] == p[j],
            forall|k: int| 0 <= k < stack@.len() ==> #[trigger] stack@[k] < ip,
        decreases n - ip,
    {
        assert(program@[ip as int] == p[ip as int]);
        match role(&program[ip]) {
            Role::Opener => {
                stack.push(ip);
            },
            Role::CloseIf => {
                match stack.pop() {
                    None => {
                        proof {
                            lemma_error_persists(p, (ip + 1) as nat, n as nat);
                        }
                        return Err(ResolveError::UnmatchedEnd);
                    },
                    Some(if_ip) => {
                        program.set(if_ip, TokenType::If(ip));
                    },
                }
            },
            Role::CloseLoop => {
                if stack.len() < 2 {
                    proof {
                        lemma_error_persists(p, (ip + 1) as nat, n as nat);
                    }
                    return Err(ResolveError::UnmatchedWEnd);
                }
                let do_ip = stack.pop().unwrap();
                program.set(do_ip, TokenType::Do(ip));
                let while_ip = stack.pop().unwrap();
                program.set(ip, TokenType::WEnd(while_ip));
            },
            Role::Plain => {},
        }
        ip = ip + 1;
    }
    Ok(())
}

/// Fills in the jump targets of the control-flow instructions in one left-to-right
/// pass: an `if` gets the position of its `end`, a `do` that of its `wend`, and a
/// `wend` that of the `while` that opened its loop. A closing word with no opener to
/// pair with aborts the pass and no program is returned.
///
/// The pass is meant to run once, on what the lexer produced; run again on its own
/// result it finds the same pairs and changes nothing.
pub fn crossref_blocks(program: Vec<TokenType>) -> (r: Result<Vec<TokenType>, ResolveError>)
    ensures
        r is Ok <==> resolved(program@) is Ok,
        r is Ok ==> r->Ok_0@ == resolved(program@)->Ok_0,
        r is Err ==> r->Err_0 == resolved(program@)->Err_0,
{
    let mut res = program;
    match resolve_in_place(&mut res) {
        Ok(()) => Ok(res),
        Err(e) => Err(e),
    }
}

/// One step of the nesting check on the instruction at position `i`, from the stack
/// `st` of open block positions: `if` and `while` open a block, `do` must follow an
/// open `while`, `end` must close an `if`, and `wend` must close a `do` (and with it
/// the `while` beneath it).
pub open spec fn nest_step(p: Seq<TokenType>, st: Seq<usize>, i: int) -> Option<Seq<usize>> {
    match p[i] {
        TokenType::If(_) => Some(st.push(i as usize)),
        TokenType::While => Some(st.push(i as usize)),
        TokenType::Do(_) => {
            if st.len() > 0 && p[st.last() as int] is While {
                Some(st.push(i as usize))
            } else {
                None
            }
        },
        TokenType::End => {
            if st.len() > 0 && p[st.last() as int] is If {
                Some(st.drop_last())
            } else {
                None
            }
        },
        TokenType::WEnd(_) => {
            if st.len() > 0 && p[st.last() as int] is Do {
                Some(st.drop_last().drop_last())
            } else {
                None
            }
        },
        _ => Some(st),
    }
}

/// The open blocks after the first `n` instructions, or `None` where the nesting is
/// already broken.
pub open spec fn nest(p: Seq<TokenType>, n: nat) -> Option<Seq<usize>>
    decreases n,
{
    if n == 0 {
        Some(seq![])
    } else {
        match nest(p, (n - 1) as nat) {
            Some(st) => nest_step(p, st, n - 1),
            None => None,
        }
    }
}

/// Every `if` has one matching `end`, every `while` one matching `do` and `wend`,
/// and the blocks nest without crossing.
pub open spec fn well_formed(p: Seq<TokenType>) -> bool {
    nest(p, p.len()) == Some(Seq::<usize>::empty())
}

/// The instruction at `i` of the patched program `r` points where it should, at a
/// position below `bound`: an `if` forward to an `end`, a `do` forward to a `wend`,
/// a `wend` back to a `while`; any other instruction is unchanged.
pub open spec fn jump_settled(p: Seq<TokenType>, r: Seq<TokenType>, i: int, bound: int) -> bool {
    match p[i] {
        TokenType::If(_) => r[i] is If && i < r[i]->If_0 < bound && p[r[i]->If_0 as int] is End,
        TokenType::Do(_) => r[i] is Do && i < r[i]->Do_0 < bound && p[r[i]->Do_0 as int] is WEnd,
        TokenType::WEnd(_) => r[i] is WEnd && r[i]->WEnd_0 < i && p[r[i]->WEnd_0 as int] is While,
        _ => r[i] == p[i],
    }
}

#[verifier::opaque]
spec fn stack_sorted(st: Seq<usize>, n: int) -> bool {
    &&& forall|a: int, b: int| 0 <= a < b < st.len() ==> st[a] < st[b]
    &&& forall|k: int| 0 <= k < st.len() ==> #[trigger] st[k] < n
}

#[verifier::opaque]
spec fn stack_pending(p: Seq<TokenType>, st: Seq<usize>, r: Seq<TokenType>) -> bool {
    &&& forall|k: int|
        0 <= k < st.len() ==> #[trigger] r[st[k] as int] == p[st[k] as int] && is_opener(
            p[st[k] as int],
        )
    &&& forall|k: int|
        0 <= k < st.len() && p[#[trigger] st[k] as int] is Do ==> k > 0 && p[st[k - 1] as int] is While
}

#[verifier::opaque]
spec fn all_settled(p: Seq<TokenType>, n: int, st: Seq<usize>, r: Seq<TokenType>) -> bool {
    forall|i: int|
        0 <= i < n ==> st.contains(i as usize) || #[trigger] jump_settled(p, r, i, p.len() as int)
}

spec fn pass_inv(p: Seq<TokenType>, n: int, st: Seq<usize>, r: Seq<TokenType>) -> bool {
    &&& r.len() == p.len()
    &&& forall|j: int| n <= j < p.len() ==> r[j] == p[j]
    &&& stack_sorted(st, n)
    &&& stack_pending(p, st, r)
    &&& all_settled(p, n, st, r)
}

proof fn lemma_inv_push(p: Seq<TokenType>, ip: int, st: Seq<usize>, r: Seq<TokenType>)
    requires
        0 <= ip < p.len() <= usize::MAX,
        pass_inv(p, ip, st, r),
        is_opener(p[ip]),
        p[ip] is Do ==> st.len() > 0 && p[st.last() as int] is While,
    ensures
        pass_inv(p, ip + 1, st.push(ip as usize), r),
{
    let st2 = st.push(ip as usize);
    assert(st2[st.len() as int] == ip as usize);
    assert(stack_sorted(st2, ip + 1)) by {
        reveal(stack_sorted);
    }
    assert(stack_pending(p, st2, r)) by {
        reveal(stack_pending);
        assert forall|k: int| 0 <= k < st2.len() && p[#[trigger] st2[k] as int] is Do implies k > 0
            && p[st2[k - 1] as int] is While by {
            if k < st.len() {
                assert(st2[k] == st[k]);
                assert(p[st[k] as int] is Do);
            } else {
                assert(st2[k - 1] == st[st.len() - 1]);
            }
        }
    }
    assert(all_settled(p, ip + 1, st2, r)) by {
        reveal(all_settled);
        assert forall|i: int| 0 <= i < ip + 1 implies st2.contains(i as usize)
            || #[trigger] jump_settled(p, r, i, p.len() as int) by {
            if i < ip && st.contains(i as usize) {
                let k = choose|k: int| 0 <= k < st.len() && st[k] == i as usize;
                assert(st2[k] == i as usize);
            }
        }
    }
}

proof fn lemma_inv_plain(p: Seq<TokenType>, ip: int, st: Seq<usize>, r: Seq<TokenType>)
    requires
        0 <= ip < p.len() <= usize::MAX,
        pass_inv(p, ip, st, r),
        !is_opener(p[ip]),
        !(p[ip] is End),
        !(p[ip] is WEnd),
    ensures
        pass_inv(p, ip + 1, st, r),
{
    assert(stack_sorted(st, ip + 1)) by {
        reveal(stack_sorted);
    }
    assert(all_settled(p, ip + 1, st, r)) by {
        reveal(all_settled);
        assert(jump_settled(p, r, ip, p.len() as int));
    }
}

proof fn lemma_inv_end(p: Seq<TokenType>, ip: int, st: Seq<usize>, r: Seq<TokenType>)
    requires
        0 <= ip < p.len() <= usize::MAX,
        pass_inv(p, ip, st, r),
        p[ip] is End,
        st.len() > 0,
        p[st.last() as int] is If,
    ensures
        pass_inv(p, ip + 1, st.drop_last(), r.update(st.last() as int, TokenType::If(ip as usize))),
{
    let t = st.len() - 1;
    let e = st[t] as int;
    let st2 = st.drop_last();
    let r2 = r.update(e, TokenType::If(ip as usize));
    assert(e < ip && forall|k: int| 0 <= k < t ==> #[trigger] st[k] < e) by {
        reveal(stack_sorted);
    }
    assert(stack_sorted(st2, ip + 1)) by {
        reveal(stack_sorted);
    }
    assert(stack_pending(p, st2, r2)) by {
        reveal(stack_pending);
        assert forall|k: int| 0 <= k < st2.len() implies #[trigger] r2[st2[k] as int]
            == p[st2[k] as int] && is_opener(p[st2[k] as int]) by {
            assert(st2[k] == st[k]);
            assert(st[k] < e);
        }
        assert forall|k: int| 0 <= k < st2.len() && p[#[trigger] st2[k] as int] is Do implies k > 0
            && p[st2[k - 1] as int] is While by {
            assert(st2[k] == st[k]);
            assert(p[st[k] as int] is Do);
        }
    }
    assert(all_settled(p, ip + 1, st2, r2)) by {
        reveal(all_settled);
        assert(jump_settled(p, r2, e, p.len() as int));
        assert(jump_settled(p, r2, ip, p.len() as int));
        assert forall|i: int| 0 <= i < ip + 1 implies st2.contains(i as usize)
            || #[trigger] jump_settled(p, r2, i, p.len() as int) by {
            if i < ip && i != e {
                if st.contains(i as usize) {
                    let k = choose|k: int| 0 <= k < st.len() && st[k] == i as usize;
                    assert(k != t);
                    assert(st2[k] == i as usize);
                } else {
                    assert(jump_settled(p, r, i, p.len() as int));
                    assert(r2[i] == r[i]);
                }
            }
        }
    }
}

proof fn lemma_inv_wend(p: Seq<TokenType>, ip: int, st: Seq<usize>, r: Seq<TokenType>)
    requires
        0 <= ip < p.len() <= usize::MAX,
        pass_inv(p, ip, st, r),
        p[ip] is WEnd,
        st.len() > 0,
        p[st.last() as int] is Do,
    ensures
        st.len() >= 2,
        pass_inv(
            p,
            ip + 1,
            st.drop_last().drop_last(),
            r.update(st.last() as int, TokenType::Do(ip as usize)).update(
                ip,
                TokenType::WEnd(st.drop_last().last()),
            ),
        ),
{
    let t = st.len() - 1;
    assert(p[st[t] as int] is Do);
    assert(t > 0 && p[st[t - 1] as int] is While && r[st[t - 1] as int] == p[st[t - 1] as int]) by {
        reveal(stack_pending);
    }
    let d = st[t] as int;
    let w = st[t - 1] as int;
    let st2 = st.drop_last().drop_last();
    let r2 = r.update(d, TokenType::Do(ip as usize)).update(ip, TokenType::WEnd(w as usize));
    assert(st.drop_last().last() == w as usize);
    assert(w < d && d < ip && forall|k: int| 0 <= k < t - 1 ==> #[trigger] st[k] < w) by {
        reveal(stack_sorted);
    }
    assert(stack_sorted(st2, ip + 1)) by {
        reveal(stack_sorted);
    }
    assert(stack_pending(p, st2, r2)) by {
        reveal(stack_pending);
        assert forall|k: int| 0 <= k < st2.len() implies #[trigger] r2[st2[k] as int]
            == p[st2[k] as int] && is_opener(p[st2[k] as int]) by {
            assert(st2[k] == st[k]);
            assert(st[k] < w);
        }
        assert forall|k: int| 0 <= k < st2.len() && p[#[trigger] st2[k] as int] is Do implies k > 0
            && p[st2[k - 1] as int] is While by {
            assert(st2[k] == st[k]);
            assert(p[st[k] as int] is Do);
        }
    }
    assert(all_settled(p, ip + 1, st2, r2)) by {
        reveal(all_settled);
        assert(r2[w] == r[w]);
        assert(jump_settled(p, r2, d, p.len() as int));
        assert(jump_settled(p, r2, w, p.len() as int));
        assert(jump_settled(p, r2, ip, p.len() as int));
        assert forall|i: int| 0 <= i < ip + 1 implies st2.contains(i as usize)
            || #[trigger] jump_settled(p, r2, i, p.len() as int) by {
            if i < ip && i != d && i != w {
                if st.contains(i as usize) {
                    let k = choose|k: int| 0 <= k < st.len() && st[k] == i as usize;
                    assert(k != t);
                    assert(k != t - 1);
                    assert(st2[k] == i as usize);
                } else {
                    assert(jump_settled(p, r, i, p.len() as int));
                    assert(r2[i] == r[i]);
                }
            }
        }
    }
}

proof fn lemma_nest_resolves(p: Seq<TokenType>, n: nat)
    requires
        n <= p.len() <= usize::MAX,
        nest(p, n) is Some,
    ensures
        resolve_prefix(p, n) is Ok,
        resolve_prefix(p, n)->Ok_0.0 == nest(p, n)->Some_0,
        pass_inv(p, n as int, nest(p, n)->Some_0, resolve_prefix(p, n)->Ok_0.1),
    decreases n,
{
    if n == 0 {
        reveal(stack_sorted);
        reveal(stack_pending);
        reveal(all_settled);
    } else {
        let m = (n - 1) as nat;
        let ip = m as int;
        lemma_nest_resolves(p, m);
        let st = nest(p, m)->Some_0;
        let r = resolve_prefix(p, m)->Ok_0.1;
        if is_opener(p[ip]) {
            lemma_inv_push(p, ip, st, r);
        } else if p[ip] is End {
            lemma_inv_end(p, ip, st, r);
        } else if p[ip] is WEnd {
            lemma_inv_wend(p, ip, st, r);
        } else {
            lemma_inv_plain(p, ip, st, r);
        }
    }
}

/// A well-formed program always resolves, and in the result every `if` points at
/// its `end`, every `do` at its `wend`, and every `wend` back at its `while`; all
/// of these targets are positions within the program.
pub proof fn lemma_well_formed_resolves(p: Seq<TokenType>)
    requires
        p.len() <= usize::MAX,
        well_formed(p),
    ensures
        resolved(p) is Ok,
        resolved(p)->Ok_0.len() == p.len(),
        forall|i: int| 0 <= i < p.len() ==> jump_settled(p, resolved(p)->Ok_0, i, p.len() as int),
{
    lemma_nest_resolves(p, p.len());
    let r = resolved(p)->Ok_0;
    reveal(all_settled);
    assert forall|i: int| 0 <= i < p.len() implies jump_settled(p, r, i, p.len() as int) by {
        assert(!Seq::<usize>::empty().contains(i as usize));
    }
}

pub open spec fn same_role(a: TokenType, b: TokenType) -> bool {
    &&& is_opener(a) == is_opener(b)
    &&& a is End == b is End
    &&& a is WEnd == b is WEnd
}

spec fn pass_shape(p: Seq<TokenType>, n: int, st: Seq<usize>, r: Seq<TokenType>) -> bool {
    &&& r.len() == p.len()
    &&& stack_sorted(st, n)
    &&& forall|k: int| 0 <= k < st.len() ==> is_opener(#[trigger] p[st[k] as int])
    &&& forall|i: int| 0 <= i < p.len() ==> same_role(#[trigger] r[i], p[i])
}

proof fn lemma_pass_shape(p: Seq<TokenType>, n: nat)
    requires
        n <= p.len() <= usize::MAX,
        resolve_prefix(p, n) is Ok,
    ensures
        pass_shape(p, n as int, resolve_prefix(p, n)->Ok_0.0, resolve_prefix(p, n)->Ok_0.1),
    decreases n,
{
    reveal(stack_sorted);
    if n > 0 {
        let m = (n - 1) as nat;
        if resolve_prefix(p, m) is Err {
            lemma_error_persists(p, m, n);
        }
        lemma_pass_shape(p, m);
        let st = resolve_prefix(p, m)->Ok_0.0;
        let r = resolve_prefix(p, m)->Ok_0.1;
        let st2 = resolve_prefix(p, n)->Ok_0.0;
        let r2 = resolve_prefix(p, n)->Ok_0.1;
        let ip = m as int;
        if is_opener(p[ip]) {
            assert(st2[st.len() as int] == ip as usize);
            assert forall|k: int| 0 <= k < st2.len() implies is_opener(#[trigger] p[st2[k] as int]) by {
                if k < st.len() {
                    assert(st2[k] == st[k]);
                }
            }
        } else if p[ip] is End {
            assert(is_opener(p[st[st.len() - 1] as int]));
            assert forall|k: int| 0 <= k < st2.len() implies is_opener(#[trigger] p[st2[k] as int]) by {
                assert(st2[k] == st[k]);
            }
        } else if p[ip] is WEnd {
            assert(is_opener(p[st[st.len() - 1] as int]));
            assert forall|k: int| 0 <= k < st2.len() implies is_opener(#[trigger] p[st2[k] as int]) by {
                assert(st2[k] == st[k]);
            }
        }
    }
}

proof fn lemma_stack_origin(p: Seq<TokenType>, n: nat, m: nat)
    requires
        n <= m <= p.len() <= usize::MAX,
        resolve_prefix(p, m) is Ok,
    ensures
        resolve_prefix(p, n) is Ok,
        forall|k: int|
            0 <= k < resolve_prefix(p, m)->Ok_0.0.len() ==> #[trigger] resolve_prefix(p, m)->Ok_0.0[k]
                >= n || resolve_prefix(p, n)->Ok_0.0.contains(resolve_prefix(p, m)->Ok_0.0[k]),
    decreases m - n,
{
    if resolve_prefix(p, n) is Err {
        lemma_error_persists(p, n, m);
    }
    let stn = resolve_prefix(p, n)->Ok_0.0;
    let stm = resolve_prefix(p, m)->Ok_0.0;
    if m == n {
        assert forall|k: int| 0 <= k < stm.len() implies #[trigger] stm[k] >= n || stn.contains(
            stm[k],
        ) by {
            assert(stn[k] == stm[k]);
        }
    } else {
        let q = (m - 1) as nat;
        if resolve_prefix(p, q) is Err {
            lemma_error_persists(p, q, m);
        }
        lemma_stack_origin(p, n, q);
        let stq = resolve_prefix(p, q)->Ok_0.0;
        assert forall|k: int| 0 <= k < stm.len() implies #[trigger] stm[k] >= n || stn.contains(
            stm[k],
        ) by {
            if k < stq.len() && stm[k] == stq[k] {
                assert(stq[k] >= n || stn.contains(stq[k]));
            } else {
                assert(stm[k] == q as usize);
            }
        }
    }
}

proof fn lemma_kept(p: Seq<TokenType>, n: nat, m: nat, i: int)
    requires
        n <= m <= p.len() <= usize::MAX,
        0 <= i < n,
        resolve_prefix(p, m) is Ok,
        resolve_prefix(p, n) is Ok,
        !resolve_prefix(p, n)->Ok_0.0.contains(i as usize),
    ensures
        resolve_prefix(p, m)->Ok_0.1[i] == resolve_prefix(p, n)->Ok_0.1[i],
    decreases m - n,
{
    lemma_pass_shape(p, n);
    lemma_pass_shape(p, m);
    if m > n {
        let q = (m - 1) as nat;
        if resolve_prefix(p, q) is Err {
            lemma_error_persists(p, q, m);
        }
        lemma_kept(p, n, q, i);
        lemma_stack_origin(p, n, q);
        lemma_pass_shape(p, q);
        let stq = resolve_prefix(p, q)->Ok_0.0;
        let rq = resolve_prefix(p, q)->Ok_0.1;
        if stq.len() > 0 {
            let t = stq.len() - 1;
            assert(stq[t] >= n || resolve_prefix(p, n)->Ok_0.0.contains(stq[t]));
            assert(stq.last() as int != i);
        }
        reveal(stack_sorted);
        assert(resolve_prefix(p, m) == resolve_step(stq, rq, p[q as int], q as usize));
        if p[q as int] is End {
            assert(stq.len() > 0);
            let x = stq.last() as int;
            assert(resolve_prefix(p, m)->Ok_0.1 == rq.update(x, TokenType::If(q as usize)));
        } else if p[q as int] is WEnd {
            assert(stq.len() >= 2);
            let w = stq.drop_last().last();
            let x = stq.last() as int;
            let r1 = rq.update(x, TokenType::Do(q as usize));
            assert(resolve_prefix(p, m)->Ok_0.1 == r1.update(q as int, TokenType::WEnd(w)));
        } else {
            assert(resolve_prefix(p, m)->Ok_0.1 == rq);
        }
    }
}

proof fn lemma_second_pass(p: Seq<TokenType>, n: nat)
    requires
        n <= p.len() <= usize::MAX,
        resolved(p) is Ok,
    ensures
        resolve_prefix(p, n) is Ok,
        resolve_prefix(resolved(p)->Ok_0, n) == Ok::<(Seq<usize>, Seq<TokenType>), ResolveError>(
            (resolve_prefix(p, n)->Ok_0.0, resolved(p)->Ok_0),
        ),
    decreases n,
{
    let r = resolved(p)->Ok_0;
    let len = p.len();
    if resolve_prefix(p, n) is Err {
        lemma_error_persists(p, n, len);
    }
    lemma_pass_shape(p, len);
    if n > 0 {
        let m = (n - 1) as nat;
        let ip = m as int;
        lemma_second_pass(p, m);
        lemma_pass_shape(p, m);
        lemma_pass_shape(p, n);
        let st = resolve_prefix(p, m)->Ok_0.0;
        let st2 = resolve_prefix(p, n)->Ok_0.0;
        let rn = resolve_prefix(p, n)->Ok_0.1;
        assert(same_role(r[ip], p[ip]));
        if p[ip] is End {
            let e = st[st.len() - 1] as int;
            assert(!st2.contains(e as usize)) by {
                reveal(stack_sorted);
                if st2.contains(e as usize) {
                    let k = choose|k: int| 0 <= k < st2.len() && st2[k] == e as usize;
                    assert(st[k] < st[st.len() - 1]);
                }
            }
            reveal(stack_sorted);
            lemma_kept(p, n, len, e);
            assert(r.update(e, TokenType::If(ip as usize)) =~= r);
        } else if p[ip] is WEnd {
            let t = st.len() - 1;
            let d = st[t] as int;
            assert(!st2.contains(d as usize) && !st2.contains(ip as usize)) by {
                reveal(stack_sorted);
                if st2.contains(d as usize) {
                    let k = choose|k: int| 0 <= k < st2.len() && st2[k] == d as usize;
                    assert(st[k] < st[t]);
                }
                if st2.contains(ip as usize) {
                    let k = choose|k: int| 0 <= k < st2.len() && st2[k] == ip as usize;
                    assert(st[k] < ip);
                }
            }
            reveal(stack_sorted);
            lemma_kept(p, n, len, d);
            lemma_kept(p, n, len, ip);
            assert(r.update(d, rn[d]).update(ip, rn[ip]) =~= r);
        }
    }
}

/// Resolving a program that resolution produced gives it back unchanged: the pass
/// writes only targets that it already wrote the first time.
pub proof fn lemma_resolve_twice(p: Seq<TokenType>)
    requires
        p.len() <= usize::MAX,
        resolved(p) is Ok,
    ensures
        resolved(resolved(p)->Ok_0) == resolved(p),
{
    lemma_second_pass(p, p.len());
    lemma_pass_shape(p, p.len());
}

} // verus!
