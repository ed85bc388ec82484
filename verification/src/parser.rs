//! The parser of rules documents: its configuration per game, the tokenizer
//! and the parsers of expressions and rules.

use vstd::prelude::*;
use crate::document::{
    first_line_end, has_head, head_end, is_head_end, is_name_token, lemma_first_line_end,
    line_tokens, open_brackets, parse_names_spec, read_comment_spec,
};
use crate::expressions::{
    ALL, ANY, Atomic, DESC, Expression, ExpressionView, lemma_names_satisfy_list,
    lemma_well_formed_all, lemma_well_formed_any, lemma_wrapped_views, names_satisfy, NOT, views,
    well_formed,
};
use crate::grammar::{
    chunk_scan, desc_parts, emit, ends_with_any, ends_with_any_then, expression_chunks,
    has_operator, keyword_all, keyword_any, keyword_desc, keyword_not, lemma_chunk_scan,
    lemma_desc_parts, lemma_expression_chunks_len, lemma_operator_body_len, operator_body,
    parse_expression_spec, parse_expressions_spec, parse_list_spec, strip_comment, token_scan,
    tokenize_spec,
};
use crate::rules::{EOrderRule, EWarningRule};
use crate::seqs::{first_index, is_first_index, is_last_index, lemma_first_index, lemma_last_index};
use crate::text::{
    char_is_ascii_whitespace, ends_with, ends_with_at, find_char, find_char_from, from_chars,
    lemma_push_deep_view, lemma_take_step, lines_of, rfind_char, skip_whitespace, split_lines,
    starts_with_chars_ignoring_case, subvec, texts, to_chars, trim_chars,
};

verus! {

/// The games whose mods can be ordered.
#[derive(Debug, Clone, Copy, PartialEq, Eq, Structural)]
pub enum ESupportedGame {
    Morrowind,
    OpenMorrowind,
    Cyberpunk,
}

/// Why a piece of a rules document could not be parsed.
#[derive(Debug, Clone, Copy, PartialEq, Eq, Structural)]
pub enum ParseError {
    /// The text ended where more was expected.
    UnexpectedEnd,
    /// A rule does not start with `[`.
    NotARuleStart,
    /// The head of a rule is not closed or names no known kind of rule.
    UnknownRule,
    /// A bracketed expression is not closed, names no known operator or lacks
    /// an operand.
    UnknownExpression,
    /// A name does not end in an extension of the game.
    NotAnAtomic,
    /// A token of an ordering rule ends neither in an extension nor in `]`.
    TokenizeFailed,
    /// An `Order` rule names fewer than two mods.
    MalformedOrder,
    /// A `Note` rule holds no expression.
    MalformedNote,
    /// A `Conflict` rule holds no expression.
    MalformedConflict,
    /// A `Requires` rule does not hold exactly two expressions.
    MalformedRequires,
    /// A `Patch` rule does not hold exactly two expressions.
    MalformedPatch,
}

/// The message that goes with an error.
pub open spec fn message_of(e: ParseError) -> Seq<char> {
    match e {
        ParseError::UnexpectedEnd => "failed to fill whole buffer"@,
        ParseError::NotARuleStart => "Parsing error: Not a rule start"@,
        ParseError::UnknownRule => "Parsing error: unknown rule"@,
        ParseError::UnknownExpression => "Parsing error: unknown expression"@,
        ParseError::NotAnAtomic => "Parsing error: Not an atomic"@,
        ParseError::TokenizeFailed => "Parsing error: tokenize failed"@,
        ParseError::MalformedOrder => "Malformed Order rule: less than 2 expressions"@,
        ParseError::MalformedNote => "Malformed Note rule: no expressions parsed"@,
        ParseError::MalformedConflict => "Malformed Conflict rule: no expressions parsed"@,
        ParseError::MalformedRequires => "Malformed Requires rule: more than 2 expressions"@,
        ParseError::MalformedPatch => "Malformed Patch rule: not exactly 2 expressions"@,
    }
}

impl ParseError {
    /// The message shown to the user.
    pub fn message(&self) -> (s: String)
        ensures
            s@ == message_of(*self),
    {
        match self {
            ParseError::UnexpectedEnd => "failed to fill whole buffer".to_owned(),
            ParseError::NotARuleStart => "Parsing error: Not a rule start".to_owned(),
            ParseError::UnknownRule => "Parsing error: unknown rule".to_owned(),
            ParseError::UnknownExpression => "Parsing error: unknown expression".to_owned(),
            ParseError::NotAnAtomic => "Parsing error: Not an atomic".to_owned(),
            ParseError::TokenizeFailed => "Parsing error: tokenize failed".to_owned(),
            ParseError::MalformedOrder => "Malformed Order rule: less than 2 expressions".to_owned(),
            ParseError::MalformedNote => "Malformed Note rule: no expressions parsed".to_owned(),
            ParseError::MalformedConflict => "Malformed Conflict rule: no expressions parsed".to_owned(),
            ParseError::MalformedRequires => "Malformed Requires rule: more than 2 expressions".to_owned(),
            ParseError::MalformedPatch => "Malformed Patch rule: not exactly 2 expressions".to_owned(),
        }
    }
}

/// The parser of the rules documents of one game: the extensions that the
/// names of its mods end in, and the rules read so far.
pub struct Parser {
    pub game: ESupportedGame,
    pub ext: Vec<String>,
    pub order_rules: Vec<EOrderRule>,
    pub rules: Vec<EWarningRule>,
}

/// The extensions that the names of the mods of a game end in.
pub open spec fn game_extensions(game: ESupportedGame) -> Seq<Seq<char>> {
    match game {
        ESupportedGame::Morrowind => seq![".esp"@, ".esm"@],
        ESupportedGame::OpenMorrowind => seq![".esp"@, ".esm"@, ".omwaddon"@],
        ESupportedGame::Cyberpunk => seq![".archive"@],
    }
}

/// The names of the rules files of a game, in the order in which they are
/// read.
pub open spec fn game_rules_files(game: ESupportedGame) -> Seq<Seq<char>> {
    match game {
        ESupportedGame::Morrowind | ESupportedGame::OpenMorrowind => seq![
            "mlox_base.txt"@,
            "mlox_user.txt"@,
            "mlox_my_rules.txt"@,
        ],
        ESupportedGame::Cyberpunk => seq!["plox_base.txt"@, "plox_my_rules.txt"@],
    }
}

/// The names of the rules files of a game, in the order in which they are
/// read.
pub fn rules_files(game: ESupportedGame) -> (r: Vec<String>)
    ensures
        r.deep_view() == game_rules_files(game),
{
    let mut r: Vec<String> = Vec::new();
    match game {
        ESupportedGame::Morrowind | ESupportedGame::OpenMorrowind => {
            r.push("mlox_base.txt".to_owned());
            r.push("mlox_user.txt".to_owned());
            r.push("mlox_my_rules.txt".to_owned());
        },
        ESupportedGame::Cyberpunk => {
            r.push("plox_base.txt".to_owned());
            r.push("plox_my_rules.txt".to_owned());
        },
    }
    assert(r.deep_view() =~= game_rules_files(game));
    r
}

/// The parser for the rules of a game.
pub fn get_parser(game: ESupportedGame) -> (r: Parser)
    ensures
        r.game == game,
        r.ext.deep_view() == game_extensions(game),
        r.order_rules@.len() == 0,
        r.rules@.len() == 0,
{
    match game {
        ESupportedGame::Morrowind => new_tes3_parser(),
        ESupportedGame::OpenMorrowind => new_openmw_parser(),
        ESupportedGame::Cyberpunk => new_cyberpunk_parser(),
    }
}

/// The parser for the rules of Cyberpunk.
pub fn new_cyberpunk_parser() -> (r: Parser)
    ensures
        r.game == ESupportedGame::Cyberpunk,
        r.ext.deep_view() == game_extensions(ESupportedGame::Cyberpunk),
        r.order_rules@.len() == 0,
        r.rules@.len() == 0,
{
    let mut ext: Vec<String> = Vec::new();
    ext.push(".archive".to_owned());
    assert(ext.deep_view() =~= game_extensions(ESupportedGame::Cyberpunk));
    Parser::new(ext, ESupportedGame::Cyberpunk)
}

/// The parser for the rules of Morrowind.
pub fn new_tes3_parser() -> (r: Parser)
    ensures
        r.game == ESupportedGame::Morrowind,
        r.ext.deep_view() == game_extensions(ESupportedGame::Morrowind),
        r.order_rules@.len() == 0,
        r.rules@.len() == 0,
{
    let mut ext: Vec<String> = Vec::new();
    ext.push(".esp".to_owned());
    ext.push(".esm".to_owned());
    assert(ext.deep_view() =~= game_extensions(ESupportedGame::Morrowind));
    Parser::new(ext, ESupportedGame::Morrowind)
}

/// The parser for the rules of OpenMW.
pub fn new_openmw_parser() -> (r: Parser)
    ensures
        r.game == ESupportedGame::OpenMorrowind,
        r.ext.deep_view() == game_extensions(ESupportedGame::OpenMorrowind),
        r.order_rules@.len() == 0,
        r.rules@.len() == 0,
{
    let mut ext: Vec<String> = Vec::new();
    ext.push(".esp".to_owned());
    ext.push(".esm".to_owned());
    ext.push(".omwaddon".to_owned());
    assert(ext.deep_view() =~= game_extensions(ESupportedGame::OpenMorrowind));
    Parser::new(ext, ESupportedGame::OpenMorrowind)
}

impl Parser {
    /// A parser for a game with the given extensions, with no rules read
    /// yet.
    pub fn new(ext: Vec<String>, game: ESupportedGame) -> (r: Self)
        ensures
            r.game == game,
            r.ext == ext,
            r.order_rules@.len() == 0,
            r.rules@.len() == 0,
    {
        Self { ext, game, rules: Vec::new(), order_rules: Vec::new() }
    }

    /// Whether the text ends with one of the extensions of the game.
    pub fn ends_with_vec(&self, current_buffer: &str) -> (r: bool)
        ensures
            r == ends_with_any(current_buffer@, self.ext.deep_view()),
    {
        let exts = strings_to_chars(&self.ext);
        let buf = to_chars(current_buffer);
        assert(buf@.take(buf.len() - 0) =~= buf@);
        ends_with_ext(&buf, 0, &exts)
    }

    /// Whether the text ends with one of the extensions of the game and a
    /// space behind it.
    pub fn ends_with_vec_whitespace(&self, current_buffer: &str) -> (r: bool)
        ensures
            r == ends_with_any_then(current_buffer@, self.ext.deep_view(), ' '),
    {
        let exts = strings_to_chars(&self.ext);
        let buf = to_chars(current_buffer);
        ends_with_ext_then(&buf, &exts, ' ')
    }

    /// Whether the text ends with one of the extensions of the game and a
    /// space or a line feed behind it.
    pub fn ends_with_vec2_whitespace_or_newline(&self, current_buffer: &str) -> (r: bool)
        ensures
            r == (ends_with_any_then(current_buffer@, self.ext.deep_view(), ' ')
                || ends_with_any_then(current_buffer@, self.ext.deep_view(), '\n')),
    {
        let exts = strings_to_chars(&self.ext);
        let buf = to_chars(current_buffer);
        ends_with_ext_then(&buf, &exts, ' ') || ends_with_ext_then(&buf, &exts, '\n')
    }

    /// Splits a line into tokens: the names of mods, each ended by an
    /// extension and a space or wrapped in quotation marks. What follows a
    /// `;` is a comment.
    pub fn tokenize(&self, line: String) -> (r: Vec<String>)
        ensures
            r.deep_view() == tokenize_spec(self.ext.deep_view(), line@),
    {
        let exts = strings_to_chars(&self.ext);
        let chars = to_chars(line.as_str());
        let tokens = tokenize_chars(&exts, &chars);
        chars_to_strings(&tokens)
    }

    /// Parses all the expressions of a text.
    pub fn parse_expressions(&self, input: &str) -> (r: Result<Vec<Expression>, ParseError>)
        ensures
            expressions_match(r, parse_expressions_spec(self.ext.deep_view(), input@)),
            r matches Ok(v) ==> forall|k: int|
                0 <= k < v.len() ==> is_valid_expression(
                    #[trigger] views(v@)[k],
                    self.ext.deep_view(),
                ),
    {
        let exts = strings_to_chars(&self.ext);
        let chars = to_chars(input);
        parse_expressions_chars(&exts, &chars)
    }

    /// Parses the one expression that a text stands for: a bracketed
    /// expression with its operator, or the name of a mod.
    pub fn parse_expression(&self, reader: &str) -> (r: Result<Expression, ParseError>)
        ensures
            expression_matches(r, parse_expression_spec(self.ext.deep_view(), reader@)),
            r matches Ok(e) ==> is_valid_expression(e@, self.ext.deep_view()),
    {
        let exts = strings_to_chars(&self.ext);
        let chars = to_chars(reader);
        parse_expression_chars(&exts, &chars)
    }
}

/// Splits the body of a `DESC` expression, `/pattern/ expression` or
/// `!/pattern/ expression`, into the pattern, whether it is negated, and the
/// text of the expression.
pub fn parse_desc_input(input: &str) -> (r: Option<(String, bool, String)>)
    ensures
        match r {
            Some((pattern, negated, rest)) => desc_parts(input@) == Some(
                (pattern@, negated, rest@),
            ),
            None => desc_parts(input@) is None,
        },
{
    let chars = to_chars(input);
    match desc_parts_chars(&chars) {
        Some((pattern, negated, rest)) => Some(
            (from_chars(&pattern), negated, from_chars(&rest)),
        ),
        None => None,
    }
}

/// Whether `buf` without its last `back` characters ends with one of the
/// extensions.
pub fn ends_with_ext(buf: &Vec<char>, back: usize, exts: &Vec<Vec<char>>) -> (r: bool)
    requires
        back <= buf.len(),
    ensures
        r == ends_with_any(buf@.take(buf.len() - back), texts(exts@)),
{
    let mut i: usize = 0;
    while i < exts.len()
        invariant
            i <= exts.len(),
            back <= buf.len(),
            forall|k: int|
                0 <= k < i ==> !ends_with(buf@.take(buf.len() - back), #[trigger] texts(exts@)[k]),
        decreases exts.len() - i,
    {
        if ends_with_at(buf, back, &exts[i]) {
            assert(ends_with(buf@.take(buf.len() - back), texts(exts@)[i as int]));
            return true;
        }
        i += 1;
    }
    false
}

/// Whether `buf` ends with one of the extensions followed by `c`.
pub fn ends_with_ext_then(buf: &Vec<char>, exts: &Vec<Vec<char>>, c: char) -> (r: bool)
    ensures
        r == ends_with_any_then(buf@, texts(exts@), c),
{
    if buf.len() == 0 || buf[buf.len() - 1] != c {
        return false;
    }
    assert(buf@.take(buf.len() - 1) =~= buf@.drop_last());
    ends_with_ext(buf, 1, exts)
}

/// The characters of each of the strings.
pub fn strings_to_chars(v: &Vec<String>) -> (r: Vec<Vec<char>>)
    ensures
        texts(r@) == v.deep_view(),
{
    let mut r: Vec<Vec<char>> = Vec::new();
    let mut i: usize = 0;
    while i < v.len()
        invariant
            i <= v.len(),
            r.len() == i,
            forall|k: int| 0 <= k < i ==> r@[k]@ == v@[k]@,
        decreases v.len() - i,
    {
        r.push(to_chars(v[i].as_str()));
        i += 1;
    }
    assert(texts(r@) =~= v.deep_view());
    r
}

/// Splits a line into tokens over characters.
pub fn tokenize_chars(exts: &Vec<Vec<char>>, line: &Vec<char>) -> (r: Vec<Vec<char>>)
    ensures
        texts(r@) == tokenize_spec(texts(exts@), line@),
{
    let stripped = match find_char(line, ';') {
        Some(k) => {
            proof {
                assert(line@.contains(';'));
                lemma_first_index(line@, ';');
                assert(line@.subrange(0, k as int) =~= line@.take(k as int));
            }
            let head = subvec(line, 0, k);
            trim_chars(&head)
        },
        None => subvec(line, 0, line.len()),
    };
    assert(stripped@ =~= strip_comment(line@)) by {
        assert(line@.subrange(0, line.len() as int) =~= line@);
    }
    let ghost e = texts(exts@);
    let mut tokens: Vec<Vec<char>> = Vec::new();
    let mut current: Vec<char> = Vec::new();
    let mut quoted = false;
    let mut i: usize = 0;
    while i < stripped.len()
        invariant
            i <= stripped.len(),
            e == texts(exts@),
            texts(tokens@) == token_scan(e, stripped@.take(i as int)).tokens,
            current@ == token_scan(e, stripped@.take(i as int)).current,
            quoted == token_scan(e, stripped@.take(i as int)).quoted,
        decreases stripped.len() - i,
    {
        proof {
            lemma_take_step(stripped@, i as int);
        }
        let ghost before = texts(tokens@);
        let c = stripped[i];
        if c == '"' {
            if quoted {
                quoted = false;
                let token = trim_chars(&current);
                let ghost t = token@;
                tokens.push(token);
                current = Vec::new();
                proof {
                    lemma_push_deep_view(before, texts(tokens@), t);
                }
            } else {
                quoted = true;
            }
        } else {
            current.push(c);
            if !quoted && ends_with_ext_then(&current, exts, ' ') {
                let token = trim_chars(&current);
                let ghost t = token@;
                tokens.push(token);
                current = Vec::new();
                proof {
                    lemma_push_deep_view(before, texts(tokens@), t);
                }
            }
        }
        i += 1;
    }
    assert(stripped@.take(stripped.len() as int) =~= stripped@);
    if current.len() > 0 {
        let ghost before = texts(tokens@);
        let token = trim_chars(&current);
        let ghost t = token@;
        tokens.push(token);
        proof {
            lemma_push_deep_view(before, texts(tokens@), t);
        }
    }
    tokens
}

/// The strings made of each of the character vectors.
pub fn chars_to_strings(v: &Vec<Vec<char>>) -> (r: Vec<String>)
    ensures
        r.deep_view() == texts(v@),
{
    let mut r: Vec<String> = Vec::new();
    let mut i: usize = 0;
    while i < v.len()
        invariant
            i <= v.len(),
            r.len() == i,
            forall|k: int| 0 <= k < i ==> r@[k]@ == v@[k]@,
        decreases v.len() - i,
    {
        r.push(from_chars(&v[i]));
        i += 1;
    }
    assert(r.deep_view() =~= texts(v@));
    r
}

// ---------------------------------------------------------------------------
// Expressions
// ---------------------------------------------------------------------------

/// Adds the buffer, trimmed, to the chunks, unless that leaves nothing of
/// it.
fn emit_chunk(chunks: &mut Vec<Vec<char>>, buffer: &Vec<char>)
    ensures
        texts(final(chunks)@) == emit(texts(old(chunks)@), buffer@),
{
    let ghost before = texts(chunks@);
    let trimmed = trim_chars(buffer);
    if trimmed.len() > 0 {
        let ghost t = trimmed@;
        chunks.push(trimmed);
        proof {
            lemma_push_deep_view(before, texts(chunks@), t);
        }
    }
}

/// Splits a text of expressions into chunks, one for each expression.
pub fn expression_chunks_chars(exts: &Vec<Vec<char>>, s: &Vec<char>) -> (r: Vec<Vec<char>>)
    ensures
        texts(r@) == expression_chunks(texts(exts@), s@),
{
    let ghost e = texts(exts@);
    let mut chunks: Vec<Vec<char>> = Vec::new();
    let mut current: Vec<char> = Vec::new();
    let mut in_bracket = false;
    let mut in_token = false;
    let mut depth: usize = 0;
    let mut i: usize = 0;
    while i < s.len()
        invariant
            i <= s.len(),
            e == texts(exts@),
            texts(chunks@) == chunk_scan(e, s@.take(i as int)).chunks,
            current@ == chunk_scan(e, s@.take(i as int)).current,
            in_bracket == (chunk_scan(e, s@.take(i as int)).mode is Bracket),
            in_token == (chunk_scan(e, s@.take(i as int)).mode is Token),
            depth == chunk_scan(e, s@.take(i as int)).depth,
        decreases s.len() - i,
    {
        proof {
            lemma_take_step(s@, i as int);
            lemma_chunk_scan(e, s@.take(i as int));
        }
        let c = s[i];
        current.push(c);
        if in_bracket {
            if c == '[' {
                depth += 1;
            } else if c == ']' {
                depth -= 1;
            }
            if depth == 0 {
                in_bracket = false;
                emit_chunk(&mut chunks, &current);
                current = Vec::new();
            }
        } else if in_token {
            if ends_with_ext_then(&current, exts, ' ') || ends_with_ext_then(&current, exts, '\n') {
                in_token = false;
                current.pop();
                emit_chunk(&mut chunks, &current);
                current = Vec::new();
            }
        } else {
            if c == '[' {
                in_bracket = true;
                depth += 1;
            } else if !char_is_ascii_whitespace(c) {
                in_token = true;
            }
        }
        i += 1;
    }
    assert(s@.take(s.len() as int) =~= s@);
    emit_chunk(&mut chunks, &current);
    chunks
}

/// What makes a parsed expression valid: every `ALL` and `ANY` node has a
/// child, and every name ends in one of the extensions.
pub open spec fn is_valid_expression(e: ExpressionView, exts: Seq<Seq<char>>) -> bool {
    well_formed(e) && names_satisfy(e, |name: Seq<char>| ends_with_any(name, exts))
}

/// The result of parsing one expression is what the grammar says.
pub open spec fn expression_matches(
    r: Result<Expression, ParseError>,
    expected: Result<ExpressionView, ParseError>,
) -> bool {
    match r {
        Ok(e) => expected == Ok::<ExpressionView, ParseError>(e@),
        Err(err) => expected == Err::<ExpressionView, ParseError>(err),
    }
}

/// The result of parsing a list of expressions is what the grammar says.
pub open spec fn expressions_match(
    r: Result<Vec<Expression>, ParseError>,
    expected: Result<Seq<ExpressionView>, ParseError>,
) -> bool {
    match r {
        Ok(v) => expected == Ok::<Seq<ExpressionView>, ParseError>(views(v@)),
        Err(err) => expected == Err::<Seq<ExpressionView>, ParseError>(err),
    }
}

/// Whether the chunk is a bracketed expression with the given operator.
fn has_operator_chars(s: &Vec<char>, keyword: &Vec<char>) -> (r: bool)
    ensures
        r == has_operator(s@, keyword@),
{
    if s.len() < 2 || s.len() - 2 < keyword.len() {
        return false;
    }
    if s[0] != '[' || s[s.len() - 1] != ']' {
        return false;
    }
    let tail = subvec(s, 1, s.len());
    assert(tail@ =~= s@.skip(1));
    starts_with_chars_ignoring_case(&tail, keyword)
}

/// What stands between the operator and the closing bracket, without leading
/// white space.
fn operator_body_chars(s: &Vec<char>, keyword: &Vec<char>) -> (r: Vec<char>)
    requires
        s.len() >= keyword.len() + 2,
    ensures
        r@ == operator_body(s@, keyword@),
{
    let inner = subvec(s, 1 + keyword.len(), s.len() - 1);
    let from = skip_whitespace(&inner, 0);
    assert(inner@.skip(0) =~= inner@);
    assert(inner@.skip(from as int) =~= inner@.subrange(from as int, inner.len() as int));
    subvec(&inner, from, inner.len())
}

/// Splits the body of a `DESC` expression into the pattern, whether it is
/// negated, and the text of the expression that follows.
pub fn desc_parts_chars(body: &Vec<char>) -> (r: Option<(Vec<char>, bool, Vec<char>)>)
    ensures
        match r {
            Some((pattern, negated, rest)) => desc_parts(body@) == Some(
                (pattern@, negated, rest@),
            ),
            None => desc_parts(body@) is None,
        },
{
    let first = find_char(body, '/');
    let last = rfind_char(body, '/');
    match (first, last) {
        (Some(a), Some(b)) => {
            proof {
                assert(is_first_index(body@, '/', a as int));
                assert(is_last_index(body@, '/', b as int));
                lemma_first_index(body@, '/');
                lemma_last_index(body@, '/');
            }
            if a < b {
                let pattern = trim_chars(&subvec(body, a + 1, b));
                let negated = a > 0 && body[a - 1] == '!';
                let rest = trim_chars(&subvec(body, b + 1, body.len()));
                Some((pattern, negated, rest))
            } else {
                None
            }
        },
        _ => None,
    }
}

/// An error among the first chunks is the error of the whole list.
proof fn lemma_parse_list_error(
    exts: Seq<Seq<char>>,
    chunks: Seq<Seq<char>>,
    bound: nat,
    k: int,
    j: int,
    err: ParseError,
)
    requires
        forall|i: int| 0 <= i < chunks.len() ==> (#[trigger] chunks[i]).len() <= bound,
        0 <= k <= j <= chunks.len(),
        parse_list_spec(exts, chunks.take(k), bound) == Err::<Seq<ExpressionView>, ParseError>(err),
    ensures
        parse_list_spec(exts, chunks.take(j), bound) == Err::<Seq<ExpressionView>, ParseError>(err),
    decreases j - k,
{
    if j > k {
        lemma_parse_list_error(exts, chunks, bound, k, j - 1, err);
        assert(chunks.take(j).drop_last() =~= chunks.take(j - 1));
    }
}

/// Parses the expression that a chunk stands for.
#[verifier::rlimit(40)]
pub fn parse_expression_chars(exts: &Vec<Vec<char>>, s: &Vec<char>) -> (r: Result<
    Expression,
    ParseError,
>)
    ensures
        expression_matches(r, parse_expression_spec(texts(exts@), s@)),
        r matches Ok(e) ==> is_valid_expression(e@, texts(exts@)),
    decreases s.len(), 0nat,
{
    let ghost e = texts(exts@);
    if s.len() > 0 && s[0] == '[' {
        let kw_any: Vec<char> = vec!['a', 'n', 'y'];
        let kw_all: Vec<char> = vec!['a', 'l', 'l'];
        let kw_not: Vec<char> = vec!['n', 'o', 't'];
        let kw_desc: Vec<char> = vec!['d', 'e', 's', 'c'];
        proof {
            assert(kw_any@ =~= keyword_any());
            assert(kw_all@ =~= keyword_all());
            assert(kw_not@ =~= keyword_not());
            assert(kw_desc@ =~= keyword_desc());
        }
        if has_operator_chars(s, &kw_any) {
            let body = operator_body_chars(s, &kw_any);
            proof {
                lemma_operator_body_len(s@, keyword_any());
            }
            match parse_expressions_chars(exts, &body) {
                Ok(xs) => {
                    if xs.len() > 0 {
                        let r = Expression::ANY(ANY::new(xs));
                        proof {
                            lemma_wrapped_views(r);
                            lemma_well_formed_any(views(xs@));
                            lemma_names_satisfy_list(
                                views(xs@),
                                |name: Seq<char>| ends_with_any(name, e),
                            );
                        }
                        Ok(r)
                    } else {
                        Err(ParseError::UnknownExpression)
                    }
                },
                Err(err) => Err(err),
            }
        } else if has_operator_chars(s, &kw_all) {
            let body = operator_body_chars(s, &kw_all);
            proof {
                lemma_operator_body_len(s@, keyword_all());
            }
            match parse_expressions_chars(exts, &body) {
                Ok(xs) => {
                    if xs.len() > 0 {
                        let r = Expression::ALL(ALL::new(xs));
                        proof {
                            lemma_wrapped_views(r);
                            lemma_well_formed_all(views(xs@));
                            lemma_names_satisfy_list(
                                views(xs@),
                                |name: Seq<char>| ends_with_any(name, e),
                            );
                        }
                        Ok(r)
                    } else {
                        Err(ParseError::UnknownExpression)
                    }
                },
                Err(err) => Err(err),
            }
        } else if has_operator_chars(s, &kw_not) {
            let body = operator_body_chars(s, &kw_not);
            proof {
                lemma_operator_body_len(s@, keyword_not());
            }
            match parse_expressions_chars(exts, &body) {
                Ok(xs) => {
                    let mut xs = xs;
                    let ghost all = views(xs@);
                    match xs.pop() {
                        Some(last) => {
                            assert(last@ == all.last());
                            let r = Expression::NOT(NOT::new(last));
                            proof {
                                lemma_wrapped_views(r);
                            }
                            Ok(r)
                        },
                        None => Err(ParseError::UnknownExpression),
                    }
                },
                Err(err) => Err(err),
            }
        } else if has_operator_chars(s, &kw_desc) {
            let body = operator_body_chars(s, &kw_desc);
            proof {
                lemma_operator_body_len(s@, keyword_desc());
                lemma_desc_parts(body@);
            }
            match desc_parts_chars(&body) {
                Some((pattern, negated, rest)) => {
                    match parse_expressions_chars(exts, &rest) {
                        Ok(xs) => {
                            let mut xs = xs;
                            let ghost all = views(xs@);
                            match xs.pop() {
                                Some(last) => {
                                    assert(last@ == all.last());
                                    let r = Expression::DESC(
                                        DESC::new(last, from_chars(&pattern), negated),
                                    );
                                    proof {
                                        lemma_wrapped_views(r);
                                    }
                                    Ok(r)
                                },
                                None => Err(ParseError::UnknownExpression),
                            }
                        },
                        Err(err) => Err(err),
                    }
                },
                None => Err(ParseError::UnknownExpression),
            }
        } else {
            Err(ParseError::UnknownExpression)
        }
    } else {
        assert(s@.take(s.len() - 0) =~= s@);
        if ends_with_ext(s, 0, exts) {
            let r = Expression::Atomic(Atomic::new(from_chars(s)));
            Ok(r)
        } else {
            Err(ParseError::NotAnAtomic)
        }
    }
}

/// Parses all the expressions of a text.
pub fn parse_expressions_chars(exts: &Vec<Vec<char>>, s: &Vec<char>) -> (r: Result<
    Vec<Expression>,
    ParseError,
>)
    ensures
        expressions_match(r, parse_expressions_spec(texts(exts@), s@)),
        r matches Ok(v) ==> forall|k: int|
            0 <= k < v.len() ==> is_valid_expression(#[trigger] views(v@)[k], texts(exts@)),
    decreases s.len(), 1nat,
{
    let ghost e = texts(exts@);
    let chunks = expression_chunks_chars(exts, s);
    let ghost cs = texts(chunks@);
    let ghost bound = s@.len();
    proof {
        lemma_expression_chunks_len(e, s@);
    }
    let mut out: Vec<Expression> = Vec::new();
    let mut i: usize = 0;
    proof {
        assert(cs.take(0).len() == 0);
        assert(views(out@) =~= Seq::<ExpressionView>::empty());
    }
    while i < chunks.len()
        invariant
            i <= chunks.len(),
            e == texts(exts@),
            cs == texts(chunks@),
            bound == s@.len(),
            cs == expression_chunks(e, s@),
            forall|k: int| 0 <= k < cs.len() ==> (#[trigger] cs[k]).len() <= bound,
            parse_list_spec(e, cs.take(i as int), bound) == Ok::<Seq<ExpressionView>, ParseError>(
                views(out@),
            ),
            forall|k: int|
                0 <= k < out.len() ==> is_valid_expression(#[trigger] views(out@)[k], e),
        decreases chunks.len() - i,
    {
        proof {
            lemma_take_step(cs, i as int);
            assert(cs[i as int] == chunks@[i as int]@);
            assert(cs[i as int].len() <= bound);
        }
        let ghost before = views(out@);
        match parse_expression_chars(exts, &chunks[i]) {
            Ok(x) => {
                out.push(x);
                proof {
                    assert(views(out@) =~= before.push(x@));
                }
            },
            Err(err) => {
                proof {
                    assert(parse_list_spec(e, cs.take(i + 1), bound) == Err::<
                        Seq<ExpressionView>,
                        ParseError,
                    >(err));
                    lemma_parse_list_error(e, cs, bound, i + 1, cs.len() as int, err);
                    assert(cs.take(cs.len() as int) =~= cs);
                }
                return Err(err);
            },
        }
        i += 1;
    }
    assert(cs.take(cs.len() as int) =~= cs);
    Ok(out)
}

// ---------------------------------------------------------------------------
// The head of a rule
// ---------------------------------------------------------------------------

/// Where the head of a rule ends in `s[from..]`, which starts behind the `[`
/// that opens the head: the number of characters up to and with the `]`
/// that closes it.
pub fn rule_head_chars(s: &Vec<char>, from: usize) -> (r: Option<usize>)
    requires
        from <= s.len(),
    ensures
        match r {
            Some(k) => from + k <= s.len() && is_head_end(s@.skip(from as int), k as int),
            None => !has_head(s@.skip(from as int)),
        },
{
    let ghost t = s@.skip(from as int);
    // the brackets that were opened within the head and are still open
    let mut depth: usize = 0;
    let mut i: usize = from;
    proof {
        assert(t.take(0).len() == 0);
    }
    while i < s.len()
        invariant
            from <= i <= s.len(),
            t == s@.skip(from as int),
            depth + 1 == open_brackets(t.take(i - from)),
            depth <= i - from,
            forall|m: int| 0 <= m <= i - from ==> open_brackets(#[trigger] t.take(m)) > 0,
        decreases s.len() - i,
    {
        proof {
            lemma_take_step(t, i - from);
        }
        let c = s[i];
        if c == '[' {
            depth += 1;
        } else if c == ']' {
            if depth == 0 {
                return Some(i + 1 - from);
            }
            depth -= 1;
        }
        i += 1;
    }
    proof {
        assert forall|k: int| !is_head_end(t, k) by {
            if 0 < k <= t.len() {
                assert(open_brackets(t.take(k)) > 0);
            }
        }
    }
    None
}

/// Reads the head of a rule from the text behind the `[` that opens it: the
/// text up to and with the `]` that closes that bracket, brackets within
/// the head counted. Fails where the bracket is never closed.
pub fn parse_rule_expression(input: &str) -> (r: Result<String, ParseError>)
    ensures
        match r {
            Ok(head) => has_head(input@) && head@ == input@.take(head_end(input@)),
            Err(e) => e == ParseError::UnexpectedEnd && !has_head(input@),
        },
{
    let chars = to_chars(input);
    assert(chars@.skip(0) =~= chars@);
    match rule_head_chars(&chars, 0) {
        Some(k) => {
            proof {
                lemma_head_end(chars@, k as int);
                assert(chars@.subrange(0, k as int) =~= chars@.take(k as int));
            }
            Ok(crate::text::slice_to_string(&chars, 0, k))
        },
        None => Err(ParseError::UnexpectedEnd),
    }
}

/// The head ends in one place only.
pub proof fn lemma_head_end(s: Seq<char>, k: int)
    requires
        is_head_end(s, k),
    ensures
        has_head(s),
        head_end(s) == k,
{
    let k2 = head_end(s);
    assert(is_head_end(s, k2));
    if k2 < k {
        assert(open_brackets(s.take(k2)) > 0);
    }
    if k < k2 {
        assert(open_brackets(s.take(k)) > 0);
    }
}

// ---------------------------------------------------------------------------
// Comments at the start of a body
// ---------------------------------------------------------------------------

/// Reads the comment that `s[from..]` starts with: its text and the number
/// of characters that it takes.
#[verifier::rlimit(40)]
pub fn read_comment_chars(s: &Vec<char>, from: usize) -> (r: Option<(Vec<char>, usize)>)
    requires
        from <= s.len(),
    ensures
        match r {
            Some((comment, n)) => from + n <= s.len() && read_comment_spec(s@.skip(from as int))
                == Some((comment@, n as int)),
            None => read_comment_spec(s@.skip(from as int)) is None,
        },
    decreases s.len() - from,
{
    let ghost t = s@.skip(from as int);
    if from < s.len() && (s[from] == ' ' || s[from] == '\t') {
        let stop = match find_char_from(s, from + 1, '\n') {
            Some(j) => j + 1,
            None => s.len(),
        };
        proof {
            assert(t.skip(1) =~= s@.skip(from + 1));
            lemma_first_line_end(t.skip(1));
            if t.skip(1).contains('\n') {
                let a = first_index(t.skip(1), '\n');
                assert(t.skip(1)[a] == s@[from + 1 + a]);
                if stop == s.len() && !(s@[stop - 1] == '\n' && forall|k: int|
                    from + 1 <= k < stop - 1 ==> s@[k] != '\n') {
                    assert(false);
                }
                let b = stop - 1 - (from + 1);
                assert(t.skip(1)[b] == s@[stop - 1]);
                assert(a == b) by {
                    if a < b {
                        assert(s@[from + 1 + a] != '\n');
                    }
                    if b < a {
                        assert(t.skip(1)[b] != '\n');
                    }
                }
            } else {
                if stop != s.len() {
                    assert(t.skip(1)[stop - 1 - (from + 1)] == '\n');
                }
            }
            assert(stop - from == 1 + first_line_end(t.skip(1)));
            assert(t.subrange(1, stop - from) =~= s@.subrange(from + 1, stop as int));
            assert(t.skip(stop - from) =~= s@.skip(stop as int));
        }
        let line = subvec(s, from + 1, stop);
        let mut comment = trim_chars(&line);
        match read_comment_chars(s, stop) {
            Some((more, n)) => {
                let mut more = more;
                comment.append(&mut more);
                Some((comment, stop - from + n))
            },
            None => Some((comment, stop - from)),
        }
    } else {
        assert(from < s.len() ==> t[0] == s@[from as int]);
        None
    }
}

/// Reads the comment that a text starts with.
///
/// A line that starts with a space or a tab is a comment, and so are the
/// lines of that kind that follow it directly. Returns the comment, each of
/// its lines trimmed, and the number of characters that it takes; `None`
/// where the text starts with no comment.
pub fn read_comment(text: &str) -> (r: Option<(String, usize)>)
    ensures
        match r {
            Some((comment, n)) => read_comment_spec(text@) == Some((comment@, n as int)),
            None => read_comment_spec(text@) is None,
        },
{
    let chars = to_chars(text);
    assert(chars@.skip(0) =~= chars@);
    match read_comment_chars(&chars, 0) {
        Some((comment, n)) => Some((from_chars(&comment), n)),
        None => None,
    }
}

// ---------------------------------------------------------------------------
// The body of an ordering rule
// ---------------------------------------------------------------------------

/// The tokens of the first lines are the first tokens of all the lines.
proof fn lemma_line_tokens_prefix(exts: Seq<Seq<char>>, lines: Seq<Seq<char>>, j: int)
    requires
        0 <= j <= lines.len(),
    ensures
        line_tokens(exts, lines.take(j)).len() <= line_tokens(exts, lines).len(),
        forall|i: int|
            0 <= i < line_tokens(exts, lines.take(j)).len() ==> line_tokens(exts, lines)[i]
                == line_tokens(exts, lines.take(j))[i],
    decreases lines.len() - j,
{
    if j == lines.len() {
        assert(lines.take(j) =~= lines);
    } else {
        lemma_line_tokens_prefix(exts, lines, j + 1);
        lemma_take_step(lines, j);
    }
}

/// Whether a token of an ordering rule ends in an extension or in `]`.
fn is_name_token_chars(exts: &Vec<Vec<char>>, token: &Vec<char>) -> (r: bool)
    ensures
        r == is_name_token(texts(exts@), token@),
{
    if token.len() > 0 && token[token.len() - 1] == ']' {
        return true;
    }
    assert(token@.take(token.len() - 0) =~= token@);
    ends_with_ext(token, 0, exts)
}

/// Reads the names that the body of an ordering rule lists.
#[verifier::rlimit(40)]
pub fn parse_names_chars(exts: &Vec<Vec<char>>, body: &Vec<char>) -> (r: Result<
    Vec<String>,
    ParseError,
>)
    ensures
        match r {
            Ok(names) => parse_names_spec(texts(exts@), body@) == Ok::<Seq<Seq<char>>, ParseError>(
                names.deep_view(),
            ),
            Err(e) => parse_names_spec(texts(exts@), body@) == Err::<Seq<Seq<char>>, ParseError>(e),
        },
{
    let ghost e = texts(exts@);
    let lines = split_lines(body);
    let ghost ls = texts(lines@);
    let mut names: Vec<String> = Vec::new();
    let mut li: usize = 0;
    proof {
        assert(ls.take(0).len() == 0);
        assert(names.deep_view() =~= line_tokens(e, ls.take(0)));
    }
    while li < lines.len()
        invariant
            li <= lines.len(),
            e == texts(exts@),
            ls == texts(lines@),
            ls == lines_of(body@),
            names.deep_view() == line_tokens(e, ls.take(li as int)),
            forall|i: int| 0 <= i < names.len() ==> is_name_token(e, #[trigger] names.deep_view()[i]),
        decreases lines.len() - li,
    {
        proof {
            lemma_take_step(ls, li as int);
            assert(ls[li as int] == lines@[li as int]@);
        }
        let line = trim_chars(&lines[li]);
        let tokens = tokenize_chars(exts, &line);
        let ghost toks = texts(tokens@);
        let ghost base = names.deep_view();
        let mut ti: usize = 0;
        proof {
            assert(base + toks.take(0) =~= base);
        }
        while ti < tokens.len()
            invariant
                ti <= tokens.len(),
                li < lines.len(),
                e == texts(exts@),
                ls == texts(lines@),
                ls == lines_of(body@),
                toks == texts(tokens@),
                base == line_tokens(e, ls.take(li as int)),
                base + toks == line_tokens(e, ls.take(li + 1)),
                names.deep_view() == base + toks.take(ti as int),
                forall|i: int|
                    0 <= i < names.len() ==> is_name_token(e, #[trigger] names.deep_view()[i]),
            decreases tokens.len() - ti,
        {
            let ghost before = names.deep_view();
            proof {
                assert(toks[ti as int] == tokens@[ti as int]@);
            }
            if !is_name_token_chars(exts, &tokens[ti]) {
                proof {
                    lemma_line_tokens_prefix(e, ls, li + 1);
                    let all = line_tokens(e, ls);
                    let at = base.len() + ti;
                    assert((base + toks)[at] == toks[ti as int]);
                    assert(0 <= at < all.len());
                    assert(all[at] == toks[ti as int]);
                    assert(!is_name_token(e, all[at]));
                    assert(all == line_tokens(e, lines_of(body@)));
                    assert(parse_names_spec(e, body@) is Err);
                }
                return Err(ParseError::TokenizeFailed);
            }
            names.push(from_chars(&tokens[ti]));
            proof {
                assert(names.deep_view() =~= before.push(toks[ti as int]));
                assert(before.push(toks[ti as int]) =~= base + toks.take(ti + 1));
            }
            ti += 1;
        }
        proof {
            assert(toks.take(tokens.len() as int) =~= toks);
        }
        li += 1;
    }
    proof {
        assert(ls.take(lines.len() as int) =~= ls);
    }
    Ok(names)
}

// ---------------------------------------------------------------------------
// What the parser never gives
// ---------------------------------------------------------------------------

/// Whatever text it is given, the parser gives no expression with an `ALL` or
/// `ANY` node without children, and none with a name that does not end in an
/// extension of the game.
pub proof fn lemma_parsed_expression_is_valid(exts: Seq<Seq<char>>, s: Seq<char>)
    ensures
        parse_expression_spec(exts, s) matches Ok(e) ==> is_valid_expression(e, exts),
    decreases s.len(), 0nat, 0nat,
{
    let recognized = |name: Seq<char>| ends_with_any(name, exts);
    if s.len() > 0 && s[0] == '[' {
        if has_operator(s, keyword_any()) {
            lemma_operator_body_len(s, keyword_any());
            let body = operator_body(s, keyword_any());
            lemma_parsed_expressions_are_valid(exts, body);
            if let Ok(xs) = parse_expressions_spec(exts, body) {
                lemma_well_formed_any(xs);
                lemma_names_satisfy_list(xs, recognized);
            }
        } else if has_operator(s, keyword_all()) {
            lemma_operator_body_len(s, keyword_all());
            let body = operator_body(s, keyword_all());
            lemma_parsed_expressions_are_valid(exts, body);
            if let Ok(xs) = parse_expressions_spec(exts, body) {
                lemma_well_formed_all(xs);
                lemma_names_satisfy_list(xs, recognized);
            }
        } else if has_operator(s, keyword_not()) {
            lemma_operator_body_len(s, keyword_not());
            let body = operator_body(s, keyword_not());
            lemma_parsed_expressions_are_valid(exts, body);
        } else if has_operator(s, keyword_desc()) {
            lemma_operator_body_len(s, keyword_desc());
            let body = operator_body(s, keyword_desc());
            lemma_desc_parts(body);
            if let Some((pattern, negated, rest)) = desc_parts(body) {
                lemma_parsed_expressions_are_valid(exts, rest);
            }
        }
    }
}

/// Whatever text it is given, the parser gives only valid expressions.
pub proof fn lemma_parsed_expressions_are_valid(exts: Seq<Seq<char>>, s: Seq<char>)
    ensures
        parse_expressions_spec(exts, s) matches Ok(xs) ==> forall|i: int|
            0 <= i < xs.len() ==> is_valid_expression(#[trigger] xs[i], exts),
    decreases s.len(), 2nat, 0nat,
{
    lemma_expression_chunks_len(exts, s);
    lemma_parsed_list_is_valid(exts, expression_chunks(exts, s), s.len());
}

proof fn lemma_parsed_list_is_valid(exts: Seq<Seq<char>>, chunks: Seq<Seq<char>>, bound: nat)
    requires
        forall|i: int| 0 <= i < chunks.len() ==> (#[trigger] chunks[i]).len() <= bound,
    ensures
        parse_list_spec(exts, chunks, bound) matches Ok(xs) ==> forall|i: int|
            0 <= i < xs.len() ==> is_valid_expression(#[trigger] xs[i], exts),
    decreases bound, 1nat, chunks.len(),
{
    if chunks.len() > 0 {
        lemma_parsed_list_is_valid(exts, chunks.drop_last(), bound);
        lemma_parsed_expression_is_valid(exts, chunks.last());
    }
}

} // verus!
