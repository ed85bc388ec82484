//! The grammar of a rules document, as mathematics: how the document splits
//! into rules, and what the head and the body of a rule stand for.

use vstd::prelude::*;

use crate::grammar::{ends_with_any, parse_expressions_spec, tokenize_spec};
use crate::parser::ParseError;
use crate::rules::{EOrderRuleView, ERuleView, EWarningRuleView, ListRuleView, PairRuleView};
use crate::seqs::{first_index, is_first_index, lemma_first_index};
use crate::text::{is_blank, lines_of, lower_text, starts_with_ignoring_case, trim, trim_start};

verus! {

// ---------------------------------------------------------------------------
// The head of a rule
// ---------------------------------------------------------------------------

/// How many brackets are open after `s`, where one was open before it.
pub open spec fn open_brackets(s: Seq<char>) -> int
    decreases s.len(),
{
    if s.len() == 0 {
        1
    } else {
        open_brackets(s.drop_last()) + if s.last() == '[' {
            1int
        } else if s.last() == ']' {
            -1int
        } else {
            0int
        }
    }
}

/// The first `k` characters of `s` end with the `]` that closes the bracket
/// which was open before `s`.
pub open spec fn is_head_end(s: Seq<char>, k: int) -> bool {
    &&& 0 < k <= s.len()
    &&& open_brackets(s.take(k)) == 0
    &&& forall|m: int| 0 <= m < k ==> open_brackets(#[trigger] s.take(m)) > 0
}

/// The bracket that was open before `s` is closed within `s`.
pub open spec fn has_head(s: Seq<char>) -> bool {
    exists|k: int| is_head_end(s, k)
}

/// Where the head ends (meaningful where `has_head`).
pub open spec fn head_end(s: Seq<char>) -> int {
    choose|k: int| is_head_end(s, k)
}

/// The kinds of rules.
#[derive(Debug, Clone, Copy, PartialEq, Eq, Structural)]
pub enum RuleKind {
    Order,
    NearStart,
    NearEnd,
    Note,
    Conflict,
    Requires,
    Patch,
}

/// The names of the kinds of rules as they stand in a head, in lower case.
pub open spec fn keyword_order() -> Seq<char> {
    seq!['o', 'r', 'd', 'e', 'r']
}

pub open spec fn keyword_nearstart() -> Seq<char> {
    seq!['n', 'e', 'a', 'r', 's', 't', 'a', 'r', 't']
}

pub open spec fn keyword_nearend() -> Seq<char> {
    seq!['n', 'e', 'a', 'r', 'e', 'n', 'd']
}

pub open spec fn keyword_note() -> Seq<char> {
    seq!['n', 'o', 't', 'e']
}

pub open spec fn keyword_conflict() -> Seq<char> {
    seq!['c', 'o', 'n', 'f', 'l', 'i', 'c', 't']
}

pub open spec fn keyword_requires() -> Seq<char> {
    seq!['r', 'e', 'q', 'u', 'i', 'r', 'e', 's']
}

pub open spec fn keyword_patch() -> Seq<char> {
    seq!['p', 'a', 't', 'c', 'h']
}

/// The kind that the head of a rule names, letter case aside, and what
/// follows the name of the kind.
pub open spec fn rule_kind(head: Seq<char>) -> Option<(RuleKind, Seq<char>)> {
    if starts_with_ignoring_case(head, keyword_order()) {
        Some((RuleKind::Order, head.skip(5)))
    } else if starts_with_ignoring_case(head, keyword_nearstart()) {
        Some((RuleKind::NearStart, head.skip(9)))
    } else if starts_with_ignoring_case(head, keyword_nearend()) {
        Some((RuleKind::NearEnd, head.skip(7)))
    } else if starts_with_ignoring_case(head, keyword_note()) {
        Some((RuleKind::Note, head.skip(4)))
    } else if starts_with_ignoring_case(head, keyword_conflict()) {
        Some((RuleKind::Conflict, head.skip(8)))
    } else if starts_with_ignoring_case(head, keyword_requires()) {
        Some((RuleKind::Requires, head.skip(8)))
    } else if starts_with_ignoring_case(head, keyword_patch()) {
        Some((RuleKind::Patch, head.skip(5)))
    } else {
        None
    }
}

// ---------------------------------------------------------------------------
// Comments at the start of a body
// ---------------------------------------------------------------------------

/// Where the first line of `s` ends: behind its line feed, or at the end of
/// `s`.
pub open spec fn first_line_end(s: Seq<char>) -> int {
    if s.contains('\n') {
        first_index(s, '\n') + 1
    } else {
        s.len() as int
    }
}

/// The first line ends within the text.
pub proof fn lemma_first_line_end(s: Seq<char>)
    ensures
        0 <= first_line_end(s) <= s.len(),
        s.contains('\n') ==> is_first_index(s, '\n', first_line_end(s) - 1),
{
    if s.contains('\n') {
        lemma_first_index(s, '\n');
    }
}

/// The comment that a text starts with, and how many characters it takes.
///
/// A line that starts with a space or a tab is a comment; the comment lines
/// that follow it directly belong to the same comment. Each line is trimmed
/// and the lines are put together as they are.
pub open spec fn read_comment_spec(s: Seq<char>) -> Option<(Seq<char>, int)>
    decreases s.len(),
{
    if s.len() > 0 && (s[0] == ' ' || s[0] == '\t') {
        let end = 1 + first_line_end(s.skip(1));
        let comment = trim(s.subrange(1, end));
        proof {
            lemma_first_line_end(s.skip(1));
        }
        match read_comment_spec(s.skip(end)) {
            Some((more, n)) => Some((comment + more, end + n)),
            None => Some((comment, end)),
        }
    } else {
        None
    }
}

// ---------------------------------------------------------------------------
// The bodies of rules
// ---------------------------------------------------------------------------

/// The tokens of the lines, each line trimmed before it is split.
pub open spec fn line_tokens(exts: Seq<Seq<char>>, lines: Seq<Seq<char>>) -> Seq<Seq<char>>
    decreases lines.len(),
{
    if lines.len() == 0 {
        Seq::empty()
    } else {
        line_tokens(exts, lines.drop_last()) + tokenize_spec(exts, trim(lines.last()))
    }
}

/// A token of an ordering rule ends in an extension or in `]`.
pub open spec fn is_name_token(exts: Seq<Seq<char>>, token: Seq<char>) -> bool {
    (token.len() > 0 && token.last() == ']') || ends_with_any(token, exts)
}

/// The names that the body of an ordering rule lists.
pub open spec fn parse_names_spec(exts: Seq<Seq<char>>, body: Seq<char>) -> Result<
    Seq<Seq<char>>,
    ParseError,
> {
    let tokens = line_tokens(exts, lines_of(body));
    if forall|i: int| 0 <= i < tokens.len() ==> is_name_token(exts, #[trigger] tokens[i]) {
        Ok(tokens)
    } else {
        Err(ParseError::TokenizeFailed)
    }
}

/// What parsing a body does to an ordering rule that needs `least` names:
/// the names of the rule afterwards, and the outcome.
pub open spec fn parse_order_spec(
    exts: Seq<Seq<char>>,
    before: Seq<Seq<char>>,
    body: Seq<char>,
    least: nat,
) -> (Seq<Seq<char>>, Result<(), ParseError>) {
    match parse_names_spec(exts, body) {
        Ok(names) => if names.len() >= least {
            (names, Ok(()))
        } else {
            (names, Err(ParseError::MalformedOrder))
        },
        Err(e) => (before, Err(e)),
    }
}

/// The comment of the rule after a comment at the start of the body, if
/// there is one, has replaced it.
pub open spec fn body_comment(before: Seq<char>, body: Seq<char>) -> Seq<char> {
    match read_comment_spec(body) {
        Some((comment, n)) => comment,
        None => before,
    }
}

/// The body behind the comment that it starts with.
pub open spec fn body_expressions(body: Seq<char>) -> Seq<char> {
    match read_comment_spec(body) {
        Some((comment, n)) => body.skip(n),
        None => body,
    }
}

/// What parsing a body does to a `Note` or a `Conflict`: the rule
/// afterwards, and the outcome. The rule needs one expression at least.
pub open spec fn parse_list_rule_spec(
    exts: Seq<Seq<char>>,
    before: ListRuleView,
    body: Seq<char>,
    malformed: ParseError,
) -> (ListRuleView, Result<(), ParseError>) {
    let comment = body_comment(before.comment, body);
    match parse_expressions_spec(exts, body_expressions(body)) {
        Ok(xs) => (
            ListRuleView { comment, expressions: xs },
            if xs.len() > 0 {
                Ok(())
            } else {
                Err(malformed)
            },
        ),
        Err(e) => (ListRuleView { comment, expressions: before.expressions }, Err(e)),
    }
}

/// What parsing a body does to a `Requires` or a `Patch`: the rule
/// afterwards, and the outcome. The rule needs exactly two expressions.
pub open spec fn parse_pair_rule_spec(
    exts: Seq<Seq<char>>,
    before: PairRuleView,
    body: Seq<char>,
    malformed: ParseError,
) -> (PairRuleView, Result<(), ParseError>) {
    let comment = body_comment(before.comment, body);
    let unchanged = PairRuleView {
        comment,
        expression_a: before.expression_a,
        expression_b: before.expression_b,
    };
    match parse_expressions_spec(exts, body_expressions(body)) {
        Ok(xs) => if xs.len() == 2 {
            (PairRuleView { comment, expression_a: Some(xs[0]), expression_b: Some(xs[1]) }, Ok(()))
        } else {
            (unchanged, Err(malformed))
        },
        Err(e) => (unchanged, Err(e)),
    }
}

/// What parsing a body does to an ordering rule of any kind.
pub open spec fn parse_order_rule_spec(
    exts: Seq<Seq<char>>,
    before: EOrderRuleView,
    body: Seq<char>,
) -> (EOrderRuleView, Result<(), ParseError>) {
    match before {
        EOrderRuleView::Order(names) => {
            let (after, r) = parse_order_spec(exts, names, body, 2);
            (EOrderRuleView::Order(after), r)
        },
        EOrderRuleView::NearStart(names) => {
            let (after, r) = parse_order_spec(exts, names, body, 0);
            (EOrderRuleView::NearStart(after), r)
        },
        EOrderRuleView::NearEnd(names) => {
            let (after, r) = parse_order_spec(exts, names, body, 0);
            (EOrderRuleView::NearEnd(after), r)
        },
    }
}

/// What parsing a body does to a warning rule of any kind.
pub open spec fn parse_warning_rule_spec(
    exts: Seq<Seq<char>>,
    before: EWarningRuleView,
    body: Seq<char>,
) -> (EWarningRuleView, Result<(), ParseError>) {
    match before {
        EWarningRuleView::Note(x) => {
            let (after, r) = parse_list_rule_spec(exts, x, body, ParseError::MalformedNote);
            (EWarningRuleView::Note(after), r)
        },
        EWarningRuleView::Conflict(x) => {
            let (after, r) = parse_list_rule_spec(exts, x, body, ParseError::MalformedConflict);
            (EWarningRuleView::Conflict(after), r)
        },
        EWarningRuleView::Requires(x) => {
            let (after, r) = parse_pair_rule_spec(exts, x, body, ParseError::MalformedRequires);
            (EWarningRuleView::Requires(after), r)
        },
        EWarningRuleView::Patch(x) => {
            let (after, r) = parse_pair_rule_spec(exts, x, body, ParseError::MalformedPatch);
            (EWarningRuleView::Patch(after), r)
        },
    }
}

/// What parsing a body does to a rule of any kind.
pub open spec fn parse_rule_spec(exts: Seq<Seq<char>>, before: ERuleView, body: Seq<char>) -> (
    ERuleView,
    Result<(), ParseError>,
) {
    match before {
        ERuleView::EOrderRule(x) => {
            let (after, r) = parse_order_rule_spec(exts, x, body);
            (ERuleView::EOrderRule(after), r)
        },
        ERuleView::EWarningRule(x) => {
            let (after, r) = parse_warning_rule_spec(exts, x, body);
            (ERuleView::EWarningRule(after), r)
        },
    }
}

// ---------------------------------------------------------------------------
// A rule
// ---------------------------------------------------------------------------

/// The line up to its first `;`.
pub open spec fn cut_comment(line: Seq<char>) -> Seq<char> {
    if line.contains(';') {
        line.take(first_index(line, ';'))
    } else {
        line
    }
}

/// The lines of a body that count: each without its comment, and none that
/// is blank then.
pub open spec fn body_lines(lines: Seq<Seq<char>>) -> Seq<Seq<char>>
    decreases lines.len(),
{
    if lines.len() == 0 {
        Seq::empty()
    } else {
        let line = cut_comment(lines.last());
        if is_blank(line) {
            body_lines(lines.drop_last())
        } else {
            body_lines(lines.drop_last()).push(line)
        }
    }
}

/// The line starts with a space or a tab.
pub open spec fn is_continuation(line: Seq<char>) -> bool {
    line.len() > 0 && (line[0] == ' ' || line[0] == '\t')
}

/// How many lines at the start continue the comment of the head.
pub open spec fn continuation_count(lines: Seq<Seq<char>>) -> nat
    decreases lines.len(),
{
    if lines.len() > 0 && is_continuation(lines[0]) {
        1 + continuation_count(lines.drop_first())
    } else {
        0
    }
}

/// The lines, one after the other.
pub open spec fn concat_lines(lines: Seq<Seq<char>>) -> Seq<char>
    decreases lines.len(),
{
    if lines.len() == 0 {
        Seq::empty()
    } else {
        concat_lines(lines.drop_last()) + lines.last()
    }
}

/// The lines, each followed by a line feed.
pub open spec fn join_lines(lines: Seq<Seq<char>>) -> Seq<char>
    decreases lines.len(),
{
    if lines.len() == 0 {
        Seq::empty()
    } else {
        join_lines(lines.drop_last()) + lines.last().push('\n')
    }
}

/// A rule of the given kind that nothing was parsed into yet. Only warning
/// rules carry the comment.
pub open spec fn new_rule(kind: RuleKind, comment: Seq<char>) -> ERuleView {
    let list = ListRuleView { comment, expressions: Seq::empty() };
    let pair = PairRuleView { comment, expression_a: None, expression_b: None };
    match kind {
        RuleKind::Order => ERuleView::EOrderRule(EOrderRuleView::Order(Seq::empty())),
        RuleKind::NearStart => ERuleView::EOrderRule(EOrderRuleView::NearStart(Seq::empty())),
        RuleKind::NearEnd => ERuleView::EOrderRule(EOrderRuleView::NearEnd(Seq::empty())),
        RuleKind::Note => ERuleView::EWarningRule(EWarningRuleView::Note(list)),
        RuleKind::Conflict => ERuleView::EWarningRule(EWarningRuleView::Conflict(list)),
        RuleKind::Requires => ERuleView::EWarningRule(EWarningRuleView::Requires(pair)),
        RuleKind::Patch => ERuleView::EWarningRule(EWarningRuleView::Patch(pair)),
    }
}

/// The comment of a rule: what follows the kind in the head, trimmed, and
/// behind it the lines that continue it; the whole trimmed.
pub open spec fn rule_comment(inline: Seq<char>, continuation: Seq<Seq<char>>) -> Seq<char> {
    trim(trim(inline) + concat_lines(continuation))
}

/// The rule that a chunk of a rules document stands for.
///
/// The chunk starts with `[`; the head runs up to the `]` that closes it and
/// names the kind of rule. Of the lines behind the head, those at the start
/// that begin with a space or a tab continue the comment, the others are the
/// body, which is parsed as the kind of rule asks.
pub open spec fn parse_chunk_spec(exts: Seq<Seq<char>>, chunk: Seq<char>) -> Result<
    ERuleView,
    ParseError,
> {
    if chunk.len() == 0 {
        Err(ParseError::UnexpectedEnd)
    } else if chunk[0] != '[' {
        Err(ParseError::NotARuleStart)
    } else if !has_head(chunk.skip(1)) {
        Err(ParseError::UnknownRule)
    } else {
        let k = head_end(chunk.skip(1));
        match rule_kind(chunk.subrange(1, k)) {
            None => Err(ParseError::UnknownRule),
            Some((kind, inline)) => {
                let lines = body_lines(lines_of(chunk.skip(1 + k)));
                let n = continuation_count(lines) as int;
                let comment = rule_comment(inline, lines.take(n));
                let body = trim(join_lines(lines.skip(n)));
                let (rule, r) = parse_rule_spec(exts, new_rule(kind, comment), body);
                match r {
                    Ok(_) => Ok(rule),
                    Err(e) => Err(e),
                }
            },
        }
    }
}

// ---------------------------------------------------------------------------
// A document
// ---------------------------------------------------------------------------

/// A chunk of a rules document: the text of one rule, and the number of the
/// line where it starts (the first line of the document is line 1).
pub struct ChunkView {
    pub data: Seq<char>,
    pub line: nat,
}

/// What the scan of a document has made of the lines read so far.
pub struct DocumentScan {
    /// The chunks that a blank line has closed.
    pub chunks: Seq<ChunkView>,
    /// The chunk that is being read, if one is.
    pub current: Option<ChunkView>,
}

/// The line is a comment: its first character that is not white space is
/// `;`.
pub open spec fn is_comment_line(line: Seq<char>) -> bool {
    trim_start(line).len() > 0 && trim_start(line)[0] == ';'
}

/// The scan of a document reads the line with the given index.
///
/// A comment line is passed over. A blank line closes the chunk that is
/// being read. Any other line is added to that chunk in lower case, with a
/// line feed behind it, or starts one.
pub open spec fn document_step(st: DocumentScan, index: nat, line: Seq<char>) -> DocumentScan {
    if is_comment_line(line) {
        st
    } else if is_blank(lower_text(line)) {
        match st.current {
            Some(chunk) => DocumentScan { chunks: st.chunks.push(chunk), current: None },
            None => st,
        }
    } else {
        let text = lower_text(line).push('\n');
        match st.current {
            Some(chunk) => DocumentScan {
                chunks: st.chunks,
                current: Some(ChunkView { data: chunk.data + text, line: chunk.line }),
            },
            None => DocumentScan {
                chunks: st.chunks,
                current: Some(ChunkView { data: text, line: index + 1 }),
            },
        }
    }
}

/// What the scan of a document has made of the lines.
pub open spec fn document_scan(lines: Seq<Seq<char>>) -> DocumentScan
    decreases lines.len(),
{
    if lines.len() == 0 {
        DocumentScan { chunks: Seq::empty(), current: None }
    } else {
        document_step(document_scan(lines.drop_last()), (lines.len() - 1) as nat, lines.last())
    }
}

/// The chunks of a rules document: the maximal runs of lines that are
/// neither blank nor comments.
pub open spec fn document_chunks(text: Seq<char>) -> Seq<ChunkView> {
    let st = document_scan(lines_of(text));
    match st.current {
        Some(chunk) => st.chunks.push(chunk),
        None => st.chunks,
    }
}

/// The rules of the chunks that parse, in order; a chunk that does not parse
/// is passed over.
pub open spec fn chunk_rules(exts: Seq<Seq<char>>, chunks: Seq<ChunkView>) -> Seq<ERuleView>
    decreases chunks.len(),
{
    if chunks.len() == 0 {
        Seq::empty()
    } else {
        match parse_chunk_spec(exts, chunks.last().data) {
            Ok(rule) => chunk_rules(exts, chunks.drop_last()).push(rule),
            Err(e) => chunk_rules(exts, chunks.drop_last()),
        }
    }
}

/// The rules of a rules document.
pub open spec fn document_rules(exts: Seq<Seq<char>>, text: Seq<char>) -> Seq<ERuleView> {
    chunk_rules(exts, document_chunks(text))
}

/// The ordering rules among the rules, in order.
pub open spec fn order_rules_of(rules: Seq<ERuleView>) -> Seq<EOrderRuleView>
    decreases rules.len(),
{
    if rules.len() == 0 {
        Seq::empty()
    } else {
        match rules.last() {
            ERuleView::EOrderRule(x) => order_rules_of(rules.drop_last()).push(x),
            ERuleView::EWarningRule(x) => order_rules_of(rules.drop_last()),
        }
    }
}

/// The warning rules among the rules, in order.
pub open spec fn warning_rules_of(rules: Seq<ERuleView>) -> Seq<EWarningRuleView>
    decreases rules.len(),
{
    if rules.len() == 0 {
        Seq::empty()
    } else {
        match rules.last() {
            ERuleView::EOrderRule(x) => warning_rules_of(rules.drop_last()),
            ERuleView::EWarningRule(x) => warning_rules_of(rules.drop_last()).push(x),
        }
    }
}

/// The rules of several documents, one document after the other.
pub open spec fn documents_rules(exts: Seq<Seq<char>>, documents: Seq<Seq<char>>) -> Seq<ERuleView>
    decreases documents.len(),
{
    if documents.len() == 0 {
        Seq::empty()
    } else {
        documents_rules(exts, documents.drop_last()) + document_rules(exts, documents.last())
    }
}

} // verus!
