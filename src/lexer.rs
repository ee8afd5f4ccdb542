use vstd::prelude::*;

use vstd::std_specs::iter::IteratorSpec;

use crate::token::{push_char, TokenType};

verus! {

/// The characters with the Unicode `White_Space` property, which separate words.
pub open spec fn is_ws(c: char) -> bool {
    let u = c as u32;
    (0x09 <= u && u <= 0x0D) || u == 0x20 || u == 0x85 || u == 0xA0 || u == 0x1680
        || (0x2000 <= u && u <= 0x200A) || u == 0x2028 || u == 0x2029 || u == 0x202F
        || u == 0x205F || u == 0x3000
}

/// Whether the text ends inside a word.
pub open spec fn ends_in_word(s: Seq<char>) -> bool {
    s.len() > 0 && !is_ws(s.last())
}

/// The maximal runs of non-whitespace characters of `s`, in order.
pub open spec fn words(s: Seq<char>) -> Seq<Seq<char>>
    decreases s.len(),
{
    if s.len() == 0 {
        seq![]
    } else {
        let p = s.drop_last();
        let c = s.last();
        if is_ws(c) {
            words(p)
        } else if ends_in_word(p) {
            words(p).update(words(p).len() - 1, words(p).last().push(c))
        } else {
            words(p).push(seq![c])
        }
    }
}

pub open spec fn is_digit(c: char) -> bool {
    48 <= (c as u32) && (c as u32) <= 57
}

pub open spec fn all_digits(d: Seq<char>) -> bool {
    forall|i: int| 0 <= i < d.len() ==> is_digit(#[trigger] d[i])
}

/// The value of a string of decimal digits.
pub open spec fn digits_value(d: Seq<char>) -> nat
    decreases d.len(),
{
    if d.len() == 0 {
        0
    } else {
        digits_value(d.drop_last()) * 10 + ((d.last() as u32) - 48) as nat
    }
}

/// A word read as a signed 32-bit decimal integer: an optional `+` or `-`, then one
/// or more ASCII digits, with the value in range.
pub open spec fn parse_int(w: Seq<char>) -> Option<i32> {
    let signed = w.len() > 0 && (w[0] == '-' || w[0] == '+');
    let d = if signed { w.skip(1) } else { w };
    let v: int = if w.len() > 0 && w[0] == '-' { -digits_value(d) } else { digits_value(d) as int };
    if d.len() == 0 || !all_digits(d) || v < i32::MIN || v > i32::MAX {
        None
    } else {
        Some(v as i32)
    }
}

/// The keyword table: the instruction that each keyword stands for.
pub open spec fn keyword(w: Seq<char>) -> Option<TokenType> {
    if w == seq!['+'] {
        Some(TokenType::Add)
    } else if w == seq!['-'] {
        Some(TokenType::Sub)
    } else if w == seq!['*'] {
        Some(TokenType::Mul)
    } else if w == seq!['/'] {
        Some(TokenType::Div)
    } else if w == seq!['%'] {
        Some(TokenType::Mod)
    } else if w == seq!['='] {
        Some(TokenType::Eq)
    } else if w == seq!['>'] {
        Some(TokenType::Lt)
    } else if w == seq!['<'] {
        Some(TokenType::Mt)
    } else if w == seq!['i', 'f'] {
        Some(TokenType::If(0))
    } else if w == seq!['d', 'o'] {
        Some(TokenType::Do(0))
    } else if w == seq!['e', 'n', 'd'] {
        Some(TokenType::End)
    } else if w == seq!['d', 'u', 'p'] {
        Some(TokenType::Dup)
    } else if w == seq!['w', 'e', 'n', 'd'] {
        Some(TokenType::WEnd(0))
    } else if w == seq!['w', 'h', 'i', 'l', 'e'] {
        Some(TokenType::While)
    } else if w == seq!['p', 'r', 'i', 'n', 't'] {
        Some(TokenType::Print)
    } else {
        None
    }
}

/// The instruction `t` is what the word `w` stands for: a number first, then a
/// keyword, else an unrecognised word holding the text.
pub open spec fn denotes(t: TokenType, w: Seq<char>) -> bool {
    match parse_int(w) {
        Some(n) => t == TokenType::PushInt(n),
        None => match keyword(w) {
            Some(k) => t == k,
            None => match t {
                TokenType::UserDefinedWord(s) => s@ == w,
                _ => false,
            },
        },
    }
}

/// Whether `c` separates words.
pub fn is_whitespace(c: char) -> (r: bool)
    ensures
        r == is_ws(c),
{
    let u = c as u32;
    (0x09 <= u && u <= 0x0D) || u == 0x20 || u == 0x85 || u == 0xA0 || u == 0x1680 || (0x2000
        <= u && u <= 0x200A) || u == 0x2028 || u == 0x2029 || u == 0x202F || u == 0x205F || u
        == 0x3000
}

proof fn lemma_value_mono(d: Seq<char>, i: int, j: int)
    requires
        0 <= i <= j <= d.len(),
    ensures
        digits_value(d.take(i)) <= digits_value(d.take(j)),
    decreases j - i,
{
    if i < j {
        lemma_value_mono(d, i, j - 1);
        assert(d.take(j).drop_last() =~= d.take(j - 1));
    }
}

/// Reads a word as a signed 32-bit decimal integer.
pub fn parse_int_word(w: &Vec<char>) -> (r: Option<i32>)
    ensures
        r == parse_int(w@),
{
    let n = w.len();
    let signed = n > 0 && (w[0] == '-' || w[0] == '+');
    let neg = n > 0 && w[0] == '-';
    let start: usize = if signed { 1 } else { 0 };
    let ghost d = if signed { w@.skip(1) } else { w@ };
    if start == n {
        return None;
    }
    let mut acc: i64 = 0;
    let mut i: usize = start;
    while i < n
        invariant
            start <= i <= n,
            n == w@.len(),
            d =~= w@.skip(start as int),
            signed == (w@.len() > 0 && (w@[0] == '-' || w@[0] == '+')),
            neg == (w@.len() > 0 && w@[0] == '-'),
            d == (if signed { w@.skip(1) } else { w@ }),
            d.len() > 0,
            acc as int == digits_value(d.take(i - start)),
            acc <= 2147483648,
            forall|k: int| 0 <= k < i - start ==> is_digit(#[trigger] d[k]),
        decreases n - i,
    {
        let c = w[i];
        if !((c as u32) >= 48 && (c as u32) <= 57) {
            assert(d[i - start] == c);
            assert(!is_digit(d[i - start]));
            return None;
        }
        let ghost j = i - start;
        assert(d.take(j + 1).drop_last() =~= d.take(j));
        assert(d.take(j + 1).last() == c);
        acc = acc * 10 + ((c as u32) - 48) as i64;
        assert(acc as int == digits_value(d.take(j + 1)));
        i = i + 1;
        if acc > 2147483648 {
            proof {
                lemma_value_mono(d, j + 1, d.len() as int);
                assert(d.take(d.len() as int) =~= d);
                assert(digits_value(d) > 2147483648);
            }
            return None;
        }
    }
    assert(d.take(d.len() as int) =~= d);
    let v: i64 = if neg { -acc } else { acc };
    if v < -2147483648 || v > 2147483647 {
        None
    } else {
        Some(v as i32)
    }
}

/// Looks a word up in the keyword table.
pub fn keyword_of(w: &Vec<char>) -> (r: Option<TokenType>)
    ensures
        r == keyword(w@),
{
    let n = w.len();
    if n == 1 {
        let c = w[0];
        assert(w@ =~= seq![c]);
        if c == '+' {
            Some(TokenType::Add)
        } else if c == '-' {
            Some(TokenType::Sub)
        } else if c == '*' {
            Some(TokenType::Mul)
        } else if c == '/' {
            Some(TokenType::Div)
        } else if c == '%' {
            Some(TokenType::Mod)
        } else if c == '=' {
            Some(TokenType::Eq)
        } else if c == '>' {
            Some(TokenType::Lt)
        } else if c == '<' {
            Some(TokenType::Mt)
        } else {
            None
        }
    } else if n == 2 {
        assert(w@ =~= seq![w@[0], w@[1]]);
        if w[0] == 'i' && w[1] == 'f' {
            Some(TokenType::If(0))
        } else if w[0] == 'd' && w[1] == 'o' {
            Some(TokenType::Do(0))
        } else {
            None
        }
    } else if n == 3 {
        assert(w@ =~= seq![w@[0], w@[1], w@[2]]);
        if w[0] == 'e' && w[1] == 'n' && w[2] == 'd' {
            Some(TokenType::End)
        } else if w[0] == 'd' && w[1] == 'u' && w[2] == 'p' {
            Some(TokenType::Dup)
        } else {
            None
        }
    } else if n == 4 {
        assert(w@ =~= seq![w@[0], w@[1], w@[2], w@[3]]);
        if w[0] == 'w' && w[1] == 'e' && w[2] == 'n' && w[3] == 'd' {
            Some(TokenType::WEnd(0))
        } else {
            None
        }
    } else if n == 5 {
        assert(w@ =~= seq![w@[0], w@[1], w@[2], w@[3], w@[4]]);
        if w[0] == 'w' && w[1] == 'h' && w[2] == 'i' && w[3] == 'l' && w[4] == 'e' {
            Some(TokenType::While)
        } else if w[0] == 'p' && w[1] == 'r' && w[2] == 'i' && w[3] == 'n' && w[4] == 't' {
            Some(TokenType::Print)
        } else {
            None
        }
    } else {
        None
    }
}

/// The instruction that one word stands for.
pub fn classify(w: &Vec<char>, text: String) -> (t: TokenType)
    requires
        text@ == w@,
    ensures
        denotes(t, w@),
{
    match parse_int_word(w) {
        Some(n) => TokenType::PushInt(n),
        None => match keyword_of(w) {
            Some(k) => k,
            None => TokenType::UserDefinedWord(text),
        },
    }
}

proof fn lemma_words_step(s: Seq<char>, c: char)
    ensures
        words(s.push(c)) == (if is_ws(c) {
            words(s)
        } else if ends_in_word(s) {
            words(s).update(words(s).len() - 1, words(s).last().push(c))
        } else {
            words(s).push(seq![c])
        }),
{
    assert(s.push(c).drop_last() =~= s);
}

/// Splits the source on whitespace and turns each word into an instruction.
/// The jump targets of the control-flow instructions are left at 0.
pub fn tokenize(src: String) -> (r: Vec<TokenType>)
    ensures
        r@.len() == words(src@).len(),
        forall|i: int| 0 <= i < r@.len() ==> denotes(#[trigger] r@[i], words(src@)[i]),
{
    let mut tokens: Vec<TokenType> = Vec::new();
    let mut cur: Vec<char> = Vec::new();
    let mut text = String::new();
    let ghost mut done: Seq<Seq<char>> = seq![];
    let ghost mut seen: Seq<char> = seq![];
    let mut it = src.as_str().chars();
    loop
        invariant
            seen + it.remaining() == src@,
            it.decrease() is Some,
            text@ == cur@,
            ends_in_word(seen) == (cur@.len() > 0),
            words(seen) == (if cur@.len() > 0 { done.push(cur@) } else { done }),
            tokens@.len() == done.len(),
            forall|i: int| 0 <= i < tokens@.len() ==> denotes(#[trigger] tokens@[i], done[i]),
        ensures
            seen == src@,
        decreases it.decrease()->0,
    {
        match it.next() {
            None => {
                assert(seen =~= src@);
                break;
            },
            Some(c) => {
                proof {
                    lemma_words_step(seen, c);
                    seen = seen.push(c);
                    assert(seen + it.remaining() =~= src@);
                }
                if is_whitespace(c) {
                    if cur.len() > 0 {
                        let t = classify(&cur, text);
                        tokens.push(t);
                        proof {
                            done = done.push(cur@);
                        }
                        cur = Vec::new();
                        text = String::new();
                    }
                } else {
                    proof {
                        if cur@.len() > 0 {
                            assert(done.push(cur@).update(done.len() as int, cur@.push(c))
                                =~= done.push(cur@.push(c)));
                        } else {
                            assert(cur@.push(c) =~= seq![c]);
                        }
                    }
                    cur.push(c);
                    push_char(&mut text, c);
                }
            },
        }
    }
    if cur.len() > 0 {
        let t = classify(&cur, text);
        tokens.push(t);
        proof {
            done = done.push(cur@);
        }
    }
    assert(words(src@) == done);
    tokens
}

} // verus!
