//! Boolean queries: lexing, conversion from infix to postfix notation, and
//! the operators' precedence.
use vstd::prelude::*;
use vstd::string::{StrSliceExecFns, StringExecFns};
use crate::engine::utils::{chars_of, push_char};

verus! {

/// Why a query could not be answered.
#[derive(Clone, Copy, Debug, PartialEq, Eq, Structural)]
pub enum QueryError {
    /// A parenthesis has no partner.
    UnbalancedParentheses,
    /// An operator lacks an operand, or the query is empty.
    MissingOperand,
    /// The index ended before a posting list was complete.
    IndexTruncated,
    /// The index holds bits that are no posting list.
    IndexMalformed,
    /// The query has more tokens than can be numbered.
    TooManyTokens,
}

/// What a token of a boolean query is.
#[derive(Clone, Copy, Debug, PartialEq, Eq, Structural)]
pub enum TokenKind {
    Open,
    Close,
    Not,
    And,
    Or,
    Term,
}

pub open spec fn is_space(c: char) -> bool {
    c == ' ' || c == '\t' || c == '\n' || c == '\r' || c == '\x0C'
}

pub open spec fn is_paren(c: char) -> bool {
    c == '(' || c == ')'
}

/// The word collected so far, as a token, if there is one.
pub open spec fn flush(word: Seq<char>) -> Seq<Seq<char>> {
    if word.len() > 0 {
        seq![word]
    } else {
        Seq::empty()
    }
}

/// The tokens of `s` from character `i` on, given the characters of the
/// word that `i` stands in: parentheses are tokens of their own, and ASCII
/// whitespace separates the others.
pub open spec fn lex_from(s: Seq<char>, i: int, word: Seq<char>) -> Seq<Seq<char>>
    decreases s.len() - i,
{
    if i >= s.len() {
        flush(word)
    } else if is_space(s[i]) {
        flush(word) + lex_from(s, i + 1, Seq::empty())
    } else if is_paren(s[i]) {
        flush(word) + seq![seq![s[i]]] + lex_from(s, i + 1, Seq::empty())
    } else {
        lex_from(s, i + 1, word.push(s[i]))
    }
}

/// The tokens of a query.
pub open spec fn lex(s: Seq<char>) -> Seq<Seq<char>> {
    lex_from(s, 0, Seq::empty())
}

pub open spec fn kind_of(t: Seq<char>) -> TokenKind {
    if t == seq!['('] {
        TokenKind::Open
    } else if t == seq![')'] {
        TokenKind::Close
    } else if t == seq!['N', 'O', 'T'] {
        TokenKind::Not
    } else if t == seq!['A', 'N', 'D'] {
        TokenKind::And
    } else if t == seq!['O', 'R'] {
        TokenKind::Or
    } else {
        TokenKind::Term
    }
}

/// How tightly an operator binds; parentheses bind least.
pub open spec fn precedence(k: TokenKind) -> nat {
    match k {
        TokenKind::Not => 3,
        TokenKind::And => 2,
        TokenKind::Or => 1,
        _ => 0,
    }
}

/// Whether the operator `top` on the stack goes to the output before the
/// operator `k` is pushed: if it binds tighter, or as tightly where `k`
/// associates to the left, which all operators do but `NOT`.
pub open spec fn yields_to(top: TokenKind, k: TokenKind) -> bool {
    precedence(top) > precedence(k) || (precedence(top) == precedence(k) && k != TokenKind::Not)
}

/// Moves operators from the stack to the output while they go before `k`.
pub open spec fn pop_operators(out: Seq<Seq<char>>, stack: Seq<Seq<char>>, k: TokenKind) -> (
    Seq<Seq<char>>,
    Seq<Seq<char>>,
)
    decreases stack.len(),
{
    if stack.len() > 0 && yields_to(kind_of(stack.last()), k) {
        pop_operators(out.push(stack.last()), stack.drop_last(), k)
    } else {
        (out, stack)
    }
}

/// Moves operators from the stack to the output down to the nearest open
/// parenthesis, which is dropped; `None` if there is none.
pub open spec fn pop_group(out: Seq<Seq<char>>, stack: Seq<Seq<char>>) -> Option<
    (Seq<Seq<char>>, Seq<Seq<char>>),
>
    decreases stack.len(),
{
    if stack.len() == 0 {
        None
    } else if kind_of(stack.last()) == TokenKind::Open {
        Some((out, stack.drop_last()))
    } else {
        pop_group(out.push(stack.last()), stack.drop_last())
    }
}

/// Output and operator stack after one more token.
pub open spec fn shunt(out: Seq<Seq<char>>, stack: Seq<Seq<char>>, t: Seq<char>) -> Result<
    (Seq<Seq<char>>, Seq<Seq<char>>),
    QueryError,
> {
    match kind_of(t) {
        TokenKind::Term => Ok((out.push(t), stack)),
        TokenKind::Open => Ok((out, stack.push(t))),
        TokenKind::Close => match pop_group(out, stack) {
            Some(state) => Ok(state),
            None => Err(QueryError::UnbalancedParentheses),
        },
        k => {
            let (o, s) = pop_operators(out, stack, k);
            Ok((o, s.push(t)))
        },
    }
}

/// Output and operator stack after the tokens from `i` on.
pub open spec fn shunt_all(
    tokens: Seq<Seq<char>>,
    i: int,
    out: Seq<Seq<char>>,
    stack: Seq<Seq<char>>,
) -> Result<(Seq<Seq<char>>, Seq<Seq<char>>), QueryError>
    decreases tokens.len() - i,
{
    if i >= tokens.len() {
        Ok((out, stack))
    } else {
        match shunt(out, stack, tokens[i]) {
            Err(e) => Err(e),
            Ok((o, s)) => shunt_all(tokens, i + 1, o, s),
        }
    }
}

/// Empties the stack into the output; an open parenthesis left on it has
/// no partner.
pub open spec fn drain(out: Seq<Seq<char>>, stack: Seq<Seq<char>>) -> Result<
    Seq<Seq<char>>,
    QueryError,
>
    decreases stack.len(),
{
    if stack.len() == 0 {
        Ok(out)
    } else if kind_of(stack.last()) == TokenKind::Open {
        Err(QueryError::UnbalancedParentheses)
    } else {
        drain(out.push(stack.last()), stack.drop_last())
    }
}

/// The postfix form of a query given as tokens in infix notation.
pub open spec fn postfix_of(tokens: Seq<Seq<char>>) -> Result<Seq<Seq<char>>, QueryError> {
    match shunt_all(tokens, 0, Seq::empty(), Seq::empty()) {
        Err(e) => Err(e),
        Ok((out, stack)) => drain(out, stack),
    }
}

/// The characters of each token.
pub open spec fn tokens_view(tokens: Seq<String>) -> Seq<Seq<char>> {
    tokens.map_values(|t: String| t@)
}

fn is_space_char(c: char) -> (r: bool)
    ensures
        r == is_space(c),
{
    c == ' ' || c == '\t' || c == '\n' || c == '\r' || c == '\x0C'
}

/// What a token is.
pub fn classify(t: &str) -> (k: TokenKind)
    ensures
        k == kind_of(t@),
{
    let c = chars_of(t);
    if c.len() == 1 && c[0] == '(' {
        assert(c@ =~= seq!['(']);
        TokenKind::Open
    } else if c.len() == 1 && c[0] == ')' {
        assert(c@ =~= seq![')']);
        TokenKind::Close
    } else if c.len() == 3 && c[0] == 'N' && c[1] == 'O' && c[2] == 'T' {
        assert(c@ =~= seq!['N', 'O', 'T']);
        TokenKind::Not
    } else if c.len() == 3 && c[0] == 'A' && c[1] == 'N' && c[2] == 'D' {
        assert(c@ =~= seq!['A', 'N', 'D']);
        TokenKind::And
    } else if c.len() == 2 && c[0] == 'O' && c[1] == 'R' {
        assert(c@ =~= seq!['O', 'R']);
        TokenKind::Or
    } else {
        proof {
            if c@ == seq!['('] {
                assert(seq!['('].len() == 1 && seq!['('][0] == '(');
            }
            if c@ == seq![')'] {
                assert(seq![')'].len() == 1 && seq![')'][0] == ')');
            }
            if c@ == seq!['N', 'O', 'T'] {
                let w = seq!['N', 'O', 'T'];
                assert(w.len() == 3 && w[0] == 'N' && w[1] == 'O' && w[2] == 'T');
            }
            if c@ == seq!['A', 'N', 'D'] {
                let w = seq!['A', 'N', 'D'];
                assert(w.len() == 3 && w[0] == 'A' && w[1] == 'N' && w[2] == 'D');
            }
            if c@ == seq!['O', 'R'] {
                let w = seq!['O', 'R'];
                assert(w.len() == 2 && w[0] == 'O' && w[1] == 'R');
            }
        }
        TokenKind::Term
    }
}

/// The character as a string.
fn char_token(c: char) -> (t: String)
    ensures
        t@ == seq![c],
{
    let mut t: String = String::new();
    push_char(&mut t, c);
    proof {
        assert(t@ =~= seq![c]);
    }
    t
}

/// Splits a query into tokens.
pub fn tokenize(query: &str) -> (tokens: Vec<String>)
    ensures
        tokens_view(tokens@) == lex(query@),
{
    let s = chars_of(query);
    let mut tokens: Vec<String> = Vec::new();
    let mut word: String = String::new();
    let mut i: usize = 0;
    proof {
        assert(tokens_view(tokens@) =~= Seq::empty());
        assert(tokens_view(tokens@) + lex_from(s@, 0, Seq::empty()) =~= lex(query@));
    }
    while i < s.len()
        invariant
            i <= s.len(),
            s@ == query@,
            lex(query@) == tokens_view(tokens@) + lex_from(s@, i as int, word@),
        decreases s.len() - i,
    {
        let c: char = s[i];
        if is_space_char(c) || c == '(' || c == ')' {
            let ghost done = tokens_view(tokens@);
            let ghost held = word@;
            if !word.as_str().is_empty() {
                let ghost before = tokens@;
                tokens.push(word);
                word = String::new();
                proof {
                    assert(tokens_view(tokens@) =~= tokens_view(before).push(held));
                }
            }
            proof {
                assert(tokens_view(tokens@) =~= done + flush(held));
                assert(word@ =~= Seq::<char>::empty());
            }
            if !is_space_char(c) {
                let ghost before = tokens@;
                tokens.push(char_token(c));
                proof {
                    assert(tokens_view(tokens@) =~= tokens_view(before).push(seq![c]));
                    assert(tokens_view(tokens@) =~= done + flush(held) + seq![seq![c]]);
                }
            }
            proof {
                assert(lex(query@) =~= tokens_view(tokens@) + lex_from(s@, i + 1, Seq::empty()));
            }
        } else {
            push_char(&mut word, c);
        }
        i += 1;
    }
    if !word.as_str().is_empty() {
        let ghost before = tokens@;
        let ghost held = word@;
        tokens.push(word);
        proof {
            assert(tokens_view(tokens@) =~= tokens_view(before).push(held));
        }
    } else {
        proof {
            assert(tokens_view(tokens@) + Seq::empty() =~= tokens_view(tokens@));
        }
    }
    tokens
}

/// Converts a boolean query from infix to postfix notation.
pub fn infix_to_postfix_boolean(query: &str) -> (r: Result<Vec<String>, QueryError>)
    ensures
        match postfix_of(lex(query@)) {
            Ok(postfix) => r is Ok && tokens_view(r->Ok_0@) == postfix,
            Err(e) => r == Err::<Vec<String>, QueryError>(e),
        },
{
    let tokens = tokenize(query);
    let ghost tv = tokens_view(tokens@);
    let mut res: Vec<String> = Vec::new();
    let mut stack: Vec<String> = Vec::new();
    let mut i: usize = 0;
    proof {
        assert(tokens_view(res@) =~= Seq::empty());
        assert(tokens_view(stack@) =~= Seq::empty());
    }
    while i < tokens.len()
        invariant
            i <= tokens.len(),
            tv == tokens_view(tokens@),
            tv == lex(query@),
            shunt_all(tv, 0, Seq::empty(), Seq::empty()) == shunt_all(
                tv,
                i as int,
                tokens_view(res@),
                tokens_view(stack@),
            ),
        decreases tokens.len() - i,
    {
        let t: String = tokens[i].clone();
        proof {
            assert(tv[i as int] == t@);
        }
        let kind = classify(t.as_str());
        let ghost out0 = tokens_view(res@);
        let ghost stack0 = tokens_view(stack@);
        match kind {
            TokenKind::Term => {
                let ghost before = res@;
                res.push(t);
                proof {
                    assert(tokens_view(res@) =~= out0.push(tv[i as int]));
                }
            },
            TokenKind::Open => {
                stack.push(t);
                proof {
                    assert(tokens_view(stack@) =~= stack0.push(tv[i as int]));
                }
            },
            TokenKind::Close => {
                let mut found: bool = false;
                while !found && stack.len() > 0
                    invariant
                        !found ==> pop_group(out0, stack0) == pop_group(
                            tokens_view(res@),
                            tokens_view(stack@),
                        ),
                        found ==> pop_group(out0, stack0) == Some(
                            (tokens_view(res@), tokens_view(stack@)),
                        ),
                    decreases stack.len() + (if found {
                        0int
                    } else {
                        1int
                    }),
                {
                    let ghost o = tokens_view(res@);
                    let ghost s = tokens_view(stack@);
                    let last: String = stack.pop().unwrap();
                    proof {
                        assert(s.last() == last@);
                        assert(tokens_view(stack@) =~= s.drop_last());
                    }
                    if classify(last.as_str()) == TokenKind::Open {
                        found = true;
                    } else {
                        res.push(last);
                        proof {
                            assert(tokens_view(res@) =~= o.push(s.last()));
                        }
                    }
                }
                if !found {
                    proof {
                        assert(pop_group(out0, stack0) is None);
                        assert(shunt(out0, stack0, tv[i as int]) is Err);
                    }
                    return Err(QueryError::UnbalancedParentheses);
                }
            },
            _ => {
                loop
                    invariant
                        0 <= i < tv.len(),
                        kind == kind_of(tv[i as int]),
                        kind != TokenKind::Term && kind != TokenKind::Open && kind
                            != TokenKind::Close,
                        pop_operators(out0, stack0, kind) == pop_operators(
                            tokens_view(res@),
                            tokens_view(stack@),
                            kind,
                        ),
                    ensures
                        pop_operators(out0, stack0, kind) == (
                            tokens_view(res@),
                            tokens_view(stack@),
                        ),
                    decreases stack.len(),
                {
                    if stack.len() == 0 {
                        break ;
                    }
                    let ghost o = tokens_view(res@);
                    let ghost s = tokens_view(stack@);
                    let top = classify(stack[stack.len() - 1].as_str());
                    proof {
                        assert(s.last() == stack@[stack@.len() - 1]@);
                    }
                    let top_rank: u8 = rank(top);
                    let rank_here: u8 = rank(kind);
                    if top_rank > rank_here || (top_rank == rank_here && kind != TokenKind::Not) {
                        let last: String = stack.pop().unwrap();
                        res.push(last);
                        proof {
                            assert(tokens_view(stack@) =~= s.drop_last());
                            assert(tokens_view(res@) =~= o.push(s.last()));
                        }
                    } else {
                        break ;
                    }
                }
                let ghost s = tokens_view(stack@);
                stack.push(t);
                proof {
                    assert(tokens_view(stack@) =~= s.push(tv[i as int]));
                }
            },
        }
        i += 1;
    }
    let ghost out1 = tokens_view(res@);
    let ghost stack1 = tokens_view(stack@);
    while stack.len() > 0
        invariant
            postfix_of(lex(query@)) == drain(tokens_view(res@), tokens_view(stack@)),
        decreases stack.len(),
    {
        let ghost o = tokens_view(res@);
        let ghost s = tokens_view(stack@);
        let last: String = stack.pop().unwrap();
        proof {
            assert(s.last() == last@);
            assert(tokens_view(stack@) =~= s.drop_last());
        }
        if classify(last.as_str()) == TokenKind::Open {
            return Err(QueryError::UnbalancedParentheses);
        }
        res.push(last);
        proof {
            assert(tokens_view(res@) =~= o.push(s.last()));
        }
    }
    Ok(res)
}

/// The precedence of a kind of token.
pub fn rank(k: TokenKind) -> (r: u8)
    ensures
        r == precedence(k),
{
    match k {
        TokenKind::Not => 3,
        TokenKind::And => 2,
        TokenKind::Or => 1,
        _ => 0,
    }
}

} // verus!
