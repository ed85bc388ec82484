//! The grammar of rule bodies, as mathematics: how a line splits into mod
//! names and how a text splits into expressions.

use vstd::prelude::*;
use crate::expressions::ExpressionView;
use crate::parser::ParseError;
use crate::seqs::{first_index, last_index, lemma_first_index, lemma_last_index};
use crate::text::{
    ends_with, is_ascii_whitespace, lemma_trim_len, lemma_trim_start_len,
    starts_with_ignoring_case, trim, trim_start,
};

verus! {

/// `s` ends with one of the extensions.
pub open spec fn ends_with_any(s: Seq<char>, exts: Seq<Seq<char>>) -> bool {
    exists|i: int| 0 <= i < exts.len() && ends_with(s, #[trigger] exts[i])
}

/// `s` ends with one of the extensions followed by the character `c`.
pub open spec fn ends_with_any_then(s: Seq<char>, exts: Seq<Seq<char>>, c: char) -> bool {
    s.len() > 0 && s.last() == c && ends_with_any(s.drop_last(), exts)
}

// ---------------------------------------------------------------------------
// Tokens
// ---------------------------------------------------------------------------

/// What the tokenizer has made of the characters read so far.
pub struct TokenScan {
    /// The tokens that are complete.
    pub tokens: Seq<Seq<char>>,
    /// The characters of the token that is being read.
    pub current: Seq<char>,
    /// Whether a quotation mark is open.
    pub quoted: bool,
}

/// The tokenizer reads one character.
///
/// A quotation mark opens or closes a quoted stretch and belongs to no
/// token; closing one ends the token. Outside quotation marks a token ends
/// where an extension is followed by a space.
pub open spec fn token_step(exts: Seq<Seq<char>>, st: TokenScan, c: char) -> TokenScan {
    if c == '"' {
        if st.quoted {
            TokenScan { tokens: st.tokens.push(trim(st.current)), current: Seq::empty(), quoted: false }
        } else {
            TokenScan { tokens: st.tokens, current: st.current, quoted: true }
        }
    } else {
        let current = st.current.push(c);
        if !st.quoted && ends_with_any_then(current, exts, ' ') {
            TokenScan { tokens: st.tokens.push(trim(current)), current: Seq::empty(), quoted: false }
        } else {
            TokenScan { tokens: st.tokens, current, quoted: st.quoted }
        }
    }
}

/// What the tokenizer has made of `s`.
pub open spec fn token_scan(exts: Seq<Seq<char>>, s: Seq<char>) -> TokenScan
    decreases s.len(),
{
    if s.len() == 0 {
        TokenScan { tokens: Seq::empty(), current: Seq::empty(), quoted: false }
    } else {
        token_step(exts, token_scan(exts, s.drop_last()), s.last())
    }
}

/// The line without its comment: where it holds a `;`, what stands before
/// the first one, trimmed.
pub open spec fn strip_comment(line: Seq<char>) -> Seq<char> {
    if line.contains(';') {
        trim(line.take(first_index(line, ';')))
    } else {
        line
    }
}

/// The tokens of a line: those that the scan completes, and what is left in
/// the buffer at the end of the line, unless that is empty.
pub open spec fn tokenize_spec(exts: Seq<Seq<char>>, line: Seq<char>) -> Seq<Seq<char>> {
    let st = token_scan(exts, strip_comment(line));
    if st.current.len() > 0 {
        st.tokens.push(trim(st.current))
    } else {
        st.tokens
    }
}

// ---------------------------------------------------------------------------
// Chunks of a text of expressions
// ---------------------------------------------------------------------------

/// What the scan for expressions is reading.
pub enum ChunkMode {
    /// Between two expressions.
    Idle,
    /// Inside a bracketed expression.
    Bracket,
    /// Inside a name.
    Token,
}

/// What the scan for expressions has made of the characters read so far.
pub struct ChunkScan {
    /// The chunks that are complete.
    pub chunks: Seq<Seq<char>>,
    /// The characters read since the last chunk ended.
    pub current: Seq<char>,
    pub mode: ChunkMode,
    /// How many brackets are open.
    pub depth: int,
}

/// The chunks with one more, trimmed, unless that leaves nothing of it.
pub open spec fn emit(chunks: Seq<Seq<char>>, buffer: Seq<char>) -> Seq<Seq<char>> {
    if trim(buffer).len() > 0 {
        chunks.push(trim(buffer))
    } else {
        chunks
    }
}

/// The scan for expressions reads one character.
///
/// Between expressions white space is passed over, `[` starts a bracketed
/// expression and any other character a name. A bracketed expression ends
/// with the `]` that closes its first `[`. A name ends where an extension is
/// followed by a space or a line feed, which does not belong to it.
pub open spec fn chunk_step(exts: Seq<Seq<char>>, st: ChunkScan, c: char) -> ChunkScan {
    let current = st.current.push(c);
    match st.mode {
        ChunkMode::Bracket => {
            let depth = if c == '[' {
                st.depth + 1
            } else if c == ']' {
                st.depth - 1
            } else {
                st.depth
            };
            if depth == 0 {
                ChunkScan {
                    chunks: emit(st.chunks, current),
                    current: Seq::empty(),
                    mode: ChunkMode::Idle,
                    depth: 0,
                }
            } else {
                ChunkScan { chunks: st.chunks, current, mode: ChunkMode::Bracket, depth }
            }
        },
        ChunkMode::Token => {
            if ends_with_any_then(current, exts, ' ') || ends_with_any_then(current, exts, '\n') {
                ChunkScan {
                    chunks: emit(st.chunks, current.drop_last()),
                    current: Seq::empty(),
                    mode: ChunkMode::Idle,
                    depth: st.depth,
                }
            } else {
                ChunkScan { chunks: st.chunks, current, mode: ChunkMode::Token, depth: st.depth }
            }
        },
        ChunkMode::Idle => {
            if c == '[' {
                ChunkScan {
                    chunks: st.chunks,
                    current,
                    mode: ChunkMode::Bracket,
                    depth: st.depth + 1,
                }
            } else if !is_ascii_whitespace(c) {
                ChunkScan { chunks: st.chunks, current, mode: ChunkMode::Token, depth: st.depth }
            } else {
                ChunkScan { chunks: st.chunks, current, mode: ChunkMode::Idle, depth: st.depth }
            }
        },
    }
}

/// What the scan for expressions has made of `s`.
pub open spec fn chunk_scan(exts: Seq<Seq<char>>, s: Seq<char>) -> ChunkScan
    decreases s.len(),
{
    if s.len() == 0 {
        ChunkScan { chunks: Seq::empty(), current: Seq::empty(), mode: ChunkMode::Idle, depth: 0 }
    } else {
        chunk_step(exts, chunk_scan(exts, s.drop_last()), s.last())
    }
}

/// The chunks of a text of expressions, one for each expression: those that
/// the scan completes, and what is left at the end of the text.
pub open spec fn expression_chunks(exts: Seq<Seq<char>>, s: Seq<char>) -> Seq<Seq<char>> {
    let st = chunk_scan(exts, s);
    emit(st.chunks, st.current)
}

/// The scan keeps count of the open brackets, and no chunk and no buffer is
/// longer than what was read.
pub proof fn lemma_chunk_scan(exts: Seq<Seq<char>>, s: Seq<char>)
    ensures
        ({
            let st = chunk_scan(exts, s);
            &&& st.current.len() <= s.len()
            &&& forall|i: int| 0 <= i < st.chunks.len() ==> (#[trigger] st.chunks[i]).len() <= s.len()
            &&& st.mode is Bracket ==> 1 <= st.depth <= s.len()
            &&& !(st.mode is Bracket) ==> st.depth == 0
        }),
    decreases s.len(),
{
    if s.len() > 0 {
        lemma_chunk_scan(exts, s.drop_last());
        let st = chunk_scan(exts, s.drop_last());
        let current = st.current.push(s.last());
        lemma_trim_len(current);
        lemma_trim_len(current.drop_last());
    }
}

/// No chunk is longer than the text.
pub proof fn lemma_expression_chunks_len(exts: Seq<Seq<char>>, s: Seq<char>)
    ensures
        forall|i: int|
            0 <= i < expression_chunks(exts, s).len() ==> (#[trigger] expression_chunks(
                exts,
                s,
            )[i]).len() <= s.len(),
{
    lemma_chunk_scan(exts, s);
    lemma_trim_len(chunk_scan(exts, s).current);
}

// ---------------------------------------------------------------------------
// Expressions
// ---------------------------------------------------------------------------

/// The operators as they stand behind the opening bracket, in lower case.
pub open spec fn keyword_any() -> Seq<char> {
    seq!['a', 'n', 'y']
}

pub open spec fn keyword_all() -> Seq<char> {
    seq!['a', 'l', 'l']
}

pub open spec fn keyword_not() -> Seq<char> {
    seq!['n', 'o', 't']
}

pub open spec fn keyword_desc() -> Seq<char> {
    seq!['d', 'e', 's', 'c']
}

/// The chunk is a bracketed expression whose operator is `keyword`, letter
/// case aside.
pub open spec fn has_operator(s: Seq<char>, keyword: Seq<char>) -> bool {
    &&& s.len() >= keyword.len() + 2
    &&& s[0] == '['
    &&& s.last() == ']'
    &&& starts_with_ignoring_case(s.skip(1), keyword)
}

/// What stands between the operator and the closing bracket, without leading
/// white space.
pub open spec fn operator_body(s: Seq<char>, keyword: Seq<char>) -> Seq<char> {
    trim_start(s.subrange(1 + keyword.len() as int, s.len() - 1))
}

/// The body of an operator is shorter than the chunk.
pub proof fn lemma_operator_body_len(s: Seq<char>, keyword: Seq<char>)
    requires
        s.len() >= keyword.len() + 2,
    ensures
        operator_body(s, keyword).len() < s.len(),
{
    lemma_trim_start_len(s.subrange(1 + keyword.len() as int, s.len() - 1));
}

/// The parts of the body of a `DESC` expression, `/pattern/ expression` or
/// `!/pattern/ expression`: the pattern between the first and the last `/`,
/// whether a `!` stands right before the first `/`, and what follows the
/// last `/`. There must be two `/` at least.
pub open spec fn desc_parts(body: Seq<char>) -> Option<(Seq<char>, bool, Seq<char>)> {
    if body.contains('/') && first_index(body, '/') < last_index(body, '/') {
        let a = first_index(body, '/');
        let b = last_index(body, '/');
        Some(
            (
                trim(body.subrange(a + 1, b)),
                a > 0 && body[a - 1] == '!',
                trim(body.subrange(b + 1, body.len() as int)),
            ),
        )
    } else {
        None
    }
}

/// The two `/` lie within the body, and what follows the last is no longer
/// than the body.
pub proof fn lemma_desc_parts(body: Seq<char>)
    ensures
        desc_parts(body) matches Some((pattern, negated, rest)) ==> {
            &&& 0 <= first_index(body, '/') < last_index(body, '/') < body.len()
            &&& rest.len() <= body.len()
        },
{
    if body.contains('/') {
        lemma_first_index(body, '/');
        lemma_last_index(body, '/');
        lemma_trim_len(body.subrange(last_index(body, '/') + 1, body.len() as int));
    }
}

/// The expression that a chunk stands for.
///
/// A chunk that starts with `[` must end with `]` and name one of the
/// operators; `ANY` and `ALL` take all the expressions of their body and
/// need one at least, `NOT` and `DESC` take the last one. Any other chunk is
/// the name of a mod and must end in an extension.
pub open spec fn parse_expression_spec(exts: Seq<Seq<char>>, s: Seq<char>) -> Result<
    ExpressionView,
    ParseError,
>
    decreases s.len(), 0nat, 0nat,
{
    if s.len() > 0 && s[0] == '[' {
        if has_operator(s, keyword_any()) {
            proof {
                lemma_operator_body_len(s, keyword_any());
            }
            match parse_expressions_spec(exts, operator_body(s, keyword_any())) {
                Ok(xs) => if xs.len() > 0 {
                    Ok(ExpressionView::Any(xs))
                } else {
                    Err(ParseError::UnknownExpression)
                },
                Err(e) => Err(e),
            }
        } else if has_operator(s, keyword_all()) {
            proof {
                lemma_operator_body_len(s, keyword_all());
            }
            match parse_expressions_spec(exts, operator_body(s, keyword_all())) {
                Ok(xs) => if xs.len() > 0 {
                    Ok(ExpressionView::All(xs))
                } else {
                    Err(ParseError::UnknownExpression)
                },
                Err(e) => Err(e),
            }
        } else if has_operator(s, keyword_not()) {
            proof {
                lemma_operator_body_len(s, keyword_not());
            }
            match parse_expressions_spec(exts, operator_body(s, keyword_not())) {
                Ok(xs) => if xs.len() > 0 {
                    Ok(ExpressionView::Not(Box::new(xs.last())))
                } else {
                    Err(ParseError::UnknownExpression)
                },
                Err(e) => Err(e),
            }
        } else if has_operator(s, keyword_desc()) {
            let body = operator_body(s, keyword_desc());
            match desc_parts(body) {
                Some((pattern, negated, rest)) => {
                    proof {
                        lemma_operator_body_len(s, keyword_desc());
                        lemma_desc_parts(body);
                    }
                    match parse_expressions_spec(exts, rest) {
                        Ok(xs) => if xs.len() > 0 {
                            Ok(ExpressionView::Desc(Box::new(xs.last()), pattern, negated))
                        } else {
                            Err(ParseError::UnknownExpression)
                        },
                        Err(e) => Err(e),
                    }
                },
                None => Err(ParseError::UnknownExpression),
            }
        } else {
            Err(ParseError::UnknownExpression)
        }
    } else if ends_with_any(s, exts) {
        Ok(ExpressionView::Atomic(s))
    } else {
        Err(ParseError::NotAnAtomic)
    }
}

/// The expressions of a text, in order; the first chunk that fails to parse
/// fails the whole.
pub open spec fn parse_expressions_spec(exts: Seq<Seq<char>>, s: Seq<char>) -> Result<
    Seq<ExpressionView>,
    ParseError,
>
    decreases s.len(), 2nat, 0nat,
{
    parse_list_spec(exts, expression_chunks(exts, s), s.len())
}

/// The expressions that a list of chunks stands for, none of them longer
/// than `bound`.
pub open spec fn parse_list_spec(exts: Seq<Seq<char>>, chunks: Seq<Seq<char>>, bound: nat) -> Result<
    Seq<ExpressionView>,
    ParseError,
>
    decreases bound, 1nat, chunks.len(),
    when forall|i: int| 0 <= i < chunks.len() ==> (#[trigger] chunks[i]).len() <= bound
{
    if chunks.len() == 0 {
        Ok(Seq::empty())
    } else {
        match parse_list_spec(exts, chunks.drop_last(), bound) {
            Ok(xs) => match parse_expression_spec(exts, chunks.last()) {
                Ok(x) => Ok(xs.push(x)),
                Err(e) => Err(e),
            },
            Err(e) => Err(e),
        }
    }
}

} // verus!
