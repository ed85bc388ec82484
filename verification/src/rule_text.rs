//! The canonical text of a rule, and the law that parsing it gives the rule
//! back.

use vstd::prelude::*;
use crate::canonical::{
    extensions_are_plain, is_canonical, is_no_bracket, join_with, lemma_join_ends, lemma_net_plain,
    lemma_parse_join, lemma_parse_of_text, lemma_trim_padded, net, operator_text, text_of,
    texts_of, write_expression,
};
use crate::document::{
    body_lines, concat_lines, continuation_count, cut_comment, has_head, head_end, is_continuation,
    is_head_end, is_name_token, join_lines, keyword_conflict, keyword_nearend, keyword_nearstart,
    keyword_note, keyword_order, keyword_patch, keyword_requires, line_tokens, new_rule,
    open_brackets, parse_chunk_spec, parse_list_rule_spec, parse_names_spec, parse_order_spec,
    parse_pair_rule_spec, parse_rule_spec, read_comment_spec, rule_comment, rule_kind, RuleKind,
};
use crate::expressions::{Expression, ExpressionView, views};
use crate::grammar::{
    ends_with_any, parse_expressions_spec, strip_comment, token_scan, tokenize_spec,
};
use crate::parser::{lemma_head_end, ParseError, strings_to_chars};
use crate::rule_parser::gather_lines;
use crate::rules::{
    EOrderRule, EOrderRuleView, ERule, ERuleView, EWarningRule, EWarningRuleView, ListRuleView,
    option_view, PairRuleView,
};
use crate::text::{
    from_chars, is_blank, is_whitespace, line_scan, lines_of, lower_char, lower_text,
    starts_with_ignoring_case, strip_cr, texts, to_chars, trim, trim_end, trim_start,
};

verus! {

// ---------------------------------------------------------------------------
// The canonical text
// ---------------------------------------------------------------------------

/// The name of the kind of a rule, as it is written in the head.
pub open spec fn rule_keyword(rule: ERuleView) -> Seq<char> {
    match rule {
        ERuleView::EOrderRule(EOrderRuleView::Order(names)) => keyword_order(),
        ERuleView::EOrderRule(EOrderRuleView::NearStart(names)) => keyword_nearstart(),
        ERuleView::EOrderRule(EOrderRuleView::NearEnd(names)) => keyword_nearend(),
        ERuleView::EWarningRule(EWarningRuleView::Note(x)) => keyword_note(),
        ERuleView::EWarningRule(EWarningRuleView::Conflict(x)) => keyword_conflict(),
        ERuleView::EWarningRule(EWarningRuleView::Requires(x)) => keyword_requires(),
        ERuleView::EWarningRule(EWarningRuleView::Patch(x)) => keyword_patch(),
    }
}

/// The comment that the head of a rule carries; an ordering rule has none.
pub open spec fn rule_head_comment(rule: ERuleView) -> Seq<char> {
    match rule {
        ERuleView::EOrderRule(x) => Seq::empty(),
        ERuleView::EWarningRule(EWarningRuleView::Note(x)) => x.comment,
        ERuleView::EWarningRule(EWarningRuleView::Conflict(x)) => x.comment,
        ERuleView::EWarningRule(EWarningRuleView::Requires(x)) => x.comment,
        ERuleView::EWarningRule(EWarningRuleView::Patch(x)) => x.comment,
    }
}

/// The texts of the two expressions of a `Requires` or a `Patch`, as far as
/// it has them.
pub open spec fn pair_texts(rule: PairRuleView) -> Seq<Seq<char>> {
    match (rule.expression_a, rule.expression_b) {
        (Some(a), Some(b)) => seq![text_of(a), text_of(b)],
        _ => Seq::empty(),
    }
}

/// The lines of the body of a rule: one for each name or expression.
pub open spec fn rule_lines(rule: ERuleView) -> Seq<Seq<char>> {
    match rule {
        ERuleView::EOrderRule(EOrderRuleView::Order(names)) => names,
        ERuleView::EOrderRule(EOrderRuleView::NearStart(names)) => names,
        ERuleView::EOrderRule(EOrderRuleView::NearEnd(names)) => names,
        ERuleView::EWarningRule(EWarningRuleView::Note(x)) => texts_of(x.expressions),
        ERuleView::EWarningRule(EWarningRuleView::Conflict(x)) => texts_of(x.expressions),
        ERuleView::EWarningRule(EWarningRuleView::Requires(x)) => pair_texts(x),
        ERuleView::EWarningRule(EWarningRuleView::Patch(x)) => pair_texts(x),
    }
}

/// The text of a rule from its parts: the head in brackets, with the comment
/// behind the kind, and then the lines, each on a line of its own.
pub open spec fn chunk_text(keyword: Seq<char>, comment: Seq<char>, lines: Seq<Seq<char>>) -> Seq<
    char,
> {
    operator_text(keyword, comment) + seq!['\n'] + join_lines(lines)
}

/// The canonical text of a rule.
pub open spec fn rule_text(rule: ERuleView) -> Seq<char> {
    chunk_text(rule_keyword(rule), rule_head_comment(rule), rule_lines(rule))
}

/// Writes the canonical text of each of the expressions.
fn write_expressions(xs: &Vec<Expression>) -> (r: Vec<Vec<char>>)
    ensures
        texts(r@) == texts_of(views(xs@)),
{
    let mut out: Vec<Vec<char>> = Vec::new();
    let mut i: usize = 0;
    while i < xs.len()
        invariant
            i <= xs.len(),
            out.len() == i,
            forall|k: int| 0 <= k < i ==> out@[k]@ == text_of(xs@[k]@),
        decreases xs.len() - i,
    {
        out.push(write_expression(&xs[i]));
        i += 1;
    }
    assert(texts(out@) =~= texts_of(views(xs@)));
    out
}

/// Writes the canonical texts of the two expressions of a `Requires` or a
/// `Patch`, as far as it has them.
fn write_pair(a: &Option<Expression>, b: &Option<Expression>) -> (r: Vec<Vec<char>>)
    ensures
        texts(r@) == pair_texts(
            PairRuleView {
                comment: Seq::empty(),
                expression_a: option_view(*a),
                expression_b: option_view(*b),
            },
        ),
{
    let mut out: Vec<Vec<char>> = Vec::new();
    match (a, b) {
        (Some(x), Some(y)) => {
            out.push(write_expression(x));
            out.push(write_expression(y));
            assert(texts(out@) =~= seq![text_of(x@), text_of(y@)]);
        },
        _ => {
            assert(texts(out@) =~= Seq::<Seq<char>>::empty());
        },
    }
    out
}

/// Writes the text of a rule from its parts.
fn write_chunk(keyword: Vec<char>, comment: &str, lines: &Vec<Vec<char>>) -> (r: Vec<char>)
    ensures
        r@ == chunk_text(keyword@, comment@, texts(lines@)),
{
    let ghost expected = chunk_text(keyword@, comment@, texts(lines@));
    let mut keyword = keyword;
    let mut comment = to_chars(comment);
    let mut body = gather_lines(lines, 0, lines.len(), true);
    assert(texts(lines@).subrange(0, lines.len() as int) =~= texts(lines@));
    let mut out: Vec<char> = Vec::new();
    out.push('[');
    out.append(&mut keyword);
    out.push(' ');
    out.append(&mut comment);
    out.push(']');
    out.push('\n');
    out.append(&mut body);
    assert(out@ =~= expected);
    out
}

/// Writes the canonical text of a rule.
pub fn write_rule(rule: &ERule) -> (r: Vec<char>)
    ensures
        r@ == rule_text(rule@),
{
    proof {
        reveal_strlit("");
        assert(""@ =~= Seq::<char>::empty());
    }
    match rule {
        ERule::EOrderRule(EOrderRule::Order(x)) => {
            let keyword: Vec<char> = vec!['o', 'r', 'd', 'e', 'r'];
            assert(keyword@ =~= keyword_order());
            write_chunk(keyword, "", &strings_to_chars(&x.names))
        },
        ERule::EOrderRule(EOrderRule::NearStart(x)) => {
            let keyword: Vec<char> = vec!['n', 'e', 'a', 'r', 's', 't', 'a', 'r', 't'];
            assert(keyword@ =~= keyword_nearstart());
            write_chunk(keyword, "", &strings_to_chars(&x.names))
        },
        ERule::EOrderRule(EOrderRule::NearEnd(x)) => {
            let keyword: Vec<char> = vec!['n', 'e', 'a', 'r', 'e', 'n', 'd'];
            assert(keyword@ =~= keyword_nearend());
            write_chunk(keyword, "", &strings_to_chars(&x.names))
        },
        ERule::EWarningRule(EWarningRule::Note(x)) => {
            let keyword: Vec<char> = vec!['n', 'o', 't', 'e'];
            assert(keyword@ =~= keyword_note());
            write_chunk(keyword, x.comment.as_str(), &write_expressions(&x.expressions))
        },
        ERule::EWarningRule(EWarningRule::Conflict(x)) => {
            let keyword: Vec<char> = vec!['c', 'o', 'n', 'f', 'l', 'i', 'c', 't'];
            assert(keyword@ =~= keyword_conflict());
            write_chunk(keyword, x.comment.as_str(), &write_expressions(&x.expressions))
        },
        ERule::EWarningRule(EWarningRule::Requires(x)) => {
            let keyword: Vec<char> = vec!['r', 'e', 'q', 'u', 'i', 'r', 'e', 's'];
            assert(keyword@ =~= keyword_requires());
            write_chunk(
                keyword,
                x.comment.as_str(),
                &write_pair(&x.expression_a, &x.expression_b),
            )
        },
        ERule::EWarningRule(EWarningRule::Patch(x)) => {
            let keyword: Vec<char> = vec!['p', 'a', 't', 'c', 'h'];
            assert(keyword@ =~= keyword_patch());
            write_chunk(
                keyword,
                x.comment.as_str(),
                &write_pair(&x.expression_a, &x.expression_b),
            )
        },
    }
}

impl ERule {
    /// The canonical text of the rule: the head in brackets, with the
    /// comment behind the kind, and then each name or expression on a line
    /// of its own.
    pub fn to_text(&self) -> (r: String)
        ensures
            r@ == rule_text(self@),
    {
        from_chars(&write_rule(self))
    }
}

// ---------------------------------------------------------------------------
// The rules whose text parses back
// ---------------------------------------------------------------------------

/// A comment that can stand in the head of a rule: it holds no bracket and
/// has no white space at its ends.
pub open spec fn is_canonical_comment(comment: Seq<char>) -> bool {
    &&& forall|i: int| 0 <= i < comment.len() ==> is_no_bracket(#[trigger] comment[i])
    &&& comment.len() > 0 ==> !is_whitespace(comment[0]) && !is_whitespace(comment.last())
}

/// A text that can stand on a line of its own in the body of a rule: it is
/// not empty, has no white space at its ends and holds neither a line feed
/// nor a `;`.
pub open spec fn is_canonical_line(line: Seq<char>) -> bool {
    &&& line.len() > 0
    &&& !is_whitespace(line[0])
    &&& !is_whitespace(line.last())
    &&& forall|i: int| 0 <= i < line.len() ==> #[trigger] line[i] != '\n' && line[i] != ';'
}

/// A name that can stand in the body of an ordering rule: a canonical line
/// without quotation marks that ends in an extension or in `]`, and within
/// which no extension is followed by a space.
pub open spec fn is_canonical_token(exts: Seq<Seq<char>>, name: Seq<char>) -> bool {
    &&& is_canonical_line(name)
    &&& is_name_token(exts, name)
    &&& forall|i: int| 0 <= i < name.len() ==> #[trigger] name[i] != '"'
    &&& forall|k: int|
        0 < k < name.len() && #[trigger] name[k] == ' ' ==> !ends_with_any(name.take(k), exts)
}

/// The names can stand in the body of an ordering rule.
pub open spec fn are_canonical_tokens(exts: Seq<Seq<char>>, names: Seq<Seq<char>>) -> bool {
    forall|i: int| 0 <= i < names.len() ==> is_canonical_token(exts, #[trigger] names[i])
}

/// The expressions can stand in the body of a warning rule, each on a line
/// of its own.
pub open spec fn are_canonical_expressions(exts: Seq<Seq<char>>, xs: Seq<ExpressionView>) -> bool {
    forall|i: int|
        #![trigger xs[i]]
        0 <= i < xs.len() ==> is_canonical(exts, xs[i]) && is_canonical_line(text_of(xs[i]))
}

/// A rule whose canonical text parses back: its comment, names and
/// expressions are canonical and it holds as many of them as its kind asks
/// for.
pub open spec fn is_canonical_rule(exts: Seq<Seq<char>>, rule: ERuleView) -> bool {
    match rule {
        ERuleView::EOrderRule(EOrderRuleView::Order(names)) => names.len() >= 2
            && are_canonical_tokens(exts, names),
        ERuleView::EOrderRule(EOrderRuleView::NearStart(names)) => are_canonical_tokens(
            exts,
            names,
        ),
        ERuleView::EOrderRule(EOrderRuleView::NearEnd(names)) => are_canonical_tokens(exts, names),
        ERuleView::EWarningRule(EWarningRuleView::Note(x)) => {
            &&& is_canonical_comment(x.comment)
            &&& x.expressions.len() >= 1
            &&& are_canonical_expressions(exts, x.expressions)
        },
        ERuleView::EWarningRule(EWarningRuleView::Conflict(x)) => {
            &&& is_canonical_comment(x.comment)
            &&& x.expressions.len() >= 1
            &&& are_canonical_expressions(exts, x.expressions)
        },
        ERuleView::EWarningRule(EWarningRuleView::Requires(x)) => {
            &&& is_canonical_comment(x.comment)
            &&& x.expression_a matches Some(a)
            &&& x.expression_b matches Some(b)
            &&& are_canonical_expressions(exts, seq![a, b])
        },
        ERuleView::EWarningRule(EWarningRuleView::Patch(x)) => {
            &&& is_canonical_comment(x.comment)
            &&& x.expression_a matches Some(a)
            &&& x.expression_b matches Some(b)
            &&& are_canonical_expressions(exts, seq![a, b])
        },
    }
}

// ---------------------------------------------------------------------------
// The head
// ---------------------------------------------------------------------------

/// One bracket was open before the text, the others are counted in it.
proof fn lemma_open_brackets(s: Seq<char>)
    ensures
        open_brackets(s) == 1 + net(s),
    decreases s.len(),
{
    if s.len() > 0 {
        lemma_open_brackets(s.drop_last());
    }
}

/// The head of a chunk text is found: it ends with the `]` behind the
/// comment, and holds the kind, a space and the comment.
#[verifier::rlimit(40)]
proof fn lemma_head(keyword: Seq<char>, comment: Seq<char>, rest: Seq<char>)
    requires
        forall|i: int| 0 <= i < keyword.len() ==> is_no_bracket(#[trigger] keyword[i]),
        forall|i: int| 0 <= i < comment.len() ==> is_no_bracket(#[trigger] comment[i]),
    ensures
        ({
            let s = operator_text(keyword, comment) + rest;
            let k = (keyword.len() + comment.len() + 2) as int;
            &&& s.len() > 0
            &&& s[0] == '['
            &&& has_head(s.skip(1))
            &&& head_end(s.skip(1)) == k
            &&& s.subrange(1, k) == keyword + seq![' '] + comment
            &&& s.skip(1 + k) == rest
        }),
{
    let s = operator_text(keyword, comment) + rest;
    let inner = keyword + seq![' '] + comment;
    let k = inner.len() as int + 1;
    let t = s.skip(1);
    assert(s.subrange(1, k) =~= inner);
    assert(s.skip(1 + k) =~= rest);
    assert forall|i: int| 0 <= i < inner.len() implies is_no_bracket(#[trigger] inner[i]) by {
        if i < keyword.len() {
            assert(inner[i] == keyword[i]);
        } else if i > keyword.len() {
            assert(inner[i] == comment[i - keyword.len() - 1]);
        }
    }
    lemma_net_plain(inner);
    assert forall|m: int| 0 <= m < k implies open_brackets(#[trigger] t.take(m)) > 0 by {
        assert(t.take(m) =~= inner.take(m));
        lemma_open_brackets(inner.take(m));
    }
    assert(t.take(k) =~= inner.push(']'));
    assert(inner.push(']').drop_last() =~= inner);
    assert(inner.take(inner.len() as int) =~= inner);
    lemma_open_brackets(inner);
    assert(open_brackets(t.take(k)) == 0);
    assert(is_head_end(t, k));
    lemma_head_end(t, k);
}

/// A text starts with its own start.
proof fn lemma_starts_with(keyword: Seq<char>, rest: Seq<char>)
    ensures
        starts_with_ignoring_case(keyword + rest, keyword),
        (keyword + rest).skip(keyword.len() as int) == rest,
{
    assert((keyword + rest).subrange(0, keyword.len() as int) =~= keyword);
    assert((keyword + rest).skip(keyword.len() as int) =~= rest);
}

/// A text does not start with a word from which it differs in some letter.
proof fn lemma_starts_otherwise(head: Seq<char>, other: Seq<char>, j: int)
    requires
        0 <= j < other.len(),
        j < head.len(),
        lower_char(head[j]) != lower_char(other[j]),
    ensures
        !starts_with_ignoring_case(head, other),
{
    if other.len() <= head.len() {
        let start = head.subrange(0, other.len() as int);
        assert(start[j] == head[j]);
        assert(lower_text(start)[j] != lower_text(other)[j]);
    }
}

/// The head of a chunk text names the kind of its rule.
proof fn lemma_rule_kind(kind: RuleKind, rest: Seq<char>)
    ensures
        rule_kind(kind_keyword(kind) + rest) == Some((kind, rest)),
{
    let keyword = kind_keyword(kind);
    let head = keyword + rest;
    lemma_starts_with(keyword, rest);
    assert(head[0] == keyword[0]);
    assert(head[1] == keyword[1]);
    match kind {
        RuleKind::Order => {},
        RuleKind::NearStart => {
            lemma_starts_otherwise(head, keyword_order(), 0);
        },
        RuleKind::NearEnd => {
            assert(head[4] == keyword[4]);
            lemma_starts_otherwise(head, keyword_order(), 0);
            lemma_starts_otherwise(head, keyword_nearstart(), 4);
        },
        RuleKind::Note => {
            lemma_starts_otherwise(head, keyword_order(), 0);
            lemma_starts_otherwise(head, keyword_nearstart(), 1);
            lemma_starts_otherwise(head, keyword_nearend(), 1);
        },
        RuleKind::Conflict => {
            lemma_starts_otherwise(head, keyword_order(), 0);
            lemma_starts_otherwise(head, keyword_nearstart(), 0);
            lemma_starts_otherwise(head, keyword_nearend(), 0);
            lemma_starts_otherwise(head, keyword_note(), 0);
        },
        RuleKind::Requires => {
            lemma_starts_otherwise(head, keyword_order(), 0);
            lemma_starts_otherwise(head, keyword_nearstart(), 0);
            lemma_starts_otherwise(head, keyword_nearend(), 0);
            lemma_starts_otherwise(head, keyword_note(), 0);
            lemma_starts_otherwise(head, keyword_conflict(), 0);
        },
        RuleKind::Patch => {
            lemma_starts_otherwise(head, keyword_order(), 0);
            lemma_starts_otherwise(head, keyword_nearstart(), 0);
            lemma_starts_otherwise(head, keyword_nearend(), 0);
            lemma_starts_otherwise(head, keyword_note(), 0);
            lemma_starts_otherwise(head, keyword_conflict(), 0);
            lemma_starts_otherwise(head, keyword_requires(), 0);
        },
    }
}

/// The name of a kind of rule, as it is written in the head.
pub open spec fn kind_keyword(kind: RuleKind) -> Seq<char> {
    match kind {
        RuleKind::Order => keyword_order(),
        RuleKind::NearStart => keyword_nearstart(),
        RuleKind::NearEnd => keyword_nearend(),
        RuleKind::Note => keyword_note(),
        RuleKind::Conflict => keyword_conflict(),
        RuleKind::Requires => keyword_requires(),
        RuleKind::Patch => keyword_patch(),
    }
}

// ---------------------------------------------------------------------------
// Lines
// ---------------------------------------------------------------------------

/// The line holds no line feed and does not end in a carriage return.
pub open spec fn is_plain_line(line: Seq<char>) -> bool {
    &&& forall|i: int| 0 <= i < line.len() ==> #[trigger] line[i] != '\n'
    &&& line.len() > 0 ==> line.last() != '\r'
}

/// The scan for lines reads a text without line feeds into its buffer.
proof fn lemma_line_scan_text(a: Seq<char>, l: Seq<char>)
    requires
        forall|i: int| 0 <= i < l.len() ==> #[trigger] l[i] != '\n',
    ensures
        line_scan(a + l).lines == line_scan(a).lines,
        line_scan(a + l).current == line_scan(a).current + l,
    decreases l.len(),
{
    if l.len() == 0 {
        assert(a + l =~= a);
        assert(line_scan(a).current + l =~= line_scan(a).current);
    } else {
        lemma_line_scan_text(a, l.drop_last());
        assert((a + l).drop_last() =~= a + l.drop_last());
        assert(l[l.len() - 1] != '\n');
        assert((line_scan(a).current + l.drop_last()).push(l.last()) =~= line_scan(a).current + l);
    }
}

/// Lines written one after the other are read back as they were.
proof fn lemma_line_scan_joined(ls: Seq<Seq<char>>)
    requires
        forall|i: int| 0 <= i < ls.len() ==> is_plain_line(#[trigger] ls[i]),
    ensures
        line_scan(join_lines(ls)).lines == ls,
        line_scan(join_lines(ls)).current.len() == 0,
    decreases ls.len(),
{
    if ls.len() == 0 {
        assert(line_scan(join_lines(ls)).lines =~= ls);
    } else {
        let front = ls.drop_last();
        let last = ls.last();
        assert forall|i: int| 0 <= i < front.len() implies is_plain_line(#[trigger] front[i]) by {
            assert(front[i] == ls[i]);
        }
        lemma_line_scan_joined(front);
        let a = join_lines(front);
        assert(is_plain_line(ls[ls.len() - 1]));
        lemma_line_scan_text(a, last);
        assert(join_lines(ls) =~= (a + last).push('\n'));
        assert((a + last).push('\n').drop_last() =~= a + last);
        assert(line_scan(a + last).current =~= last);
        assert(strip_cr(last) == last);
        assert(front.push(last) =~= ls);
    }
}

proof fn lemma_join_lines_concat(a: Seq<Seq<char>>, b: Seq<Seq<char>>)
    ensures
        join_lines(a + b) == join_lines(a) + join_lines(b),
    decreases b.len(),
{
    if b.len() == 0 {
        assert(a + b =~= a);
        assert(join_lines(a) + join_lines(b) =~= join_lines(a));
    } else {
        lemma_join_lines_concat(a, b.drop_last());
        assert((a + b).drop_last() =~= a + b.drop_last());
        assert(join_lines(a + b) =~= join_lines(a) + join_lines(b));
    }
}

/// Lines, each followed by a line feed, are the lines with a line feed
/// between each two and one at the end.
proof fn lemma_join_lines_with(ls: Seq<Seq<char>>)
    requires
        ls.len() >= 1,
    ensures
        join_lines(ls) == join_with(ls, '\n').push('\n'),
        join_with(ls, '\n') == join_lines(ls.drop_last()) + ls.last(),
    decreases ls.len(),
{
    if ls.len() == 1 {
        assert(join_lines(ls.drop_last()) =~= Seq::<char>::empty());
        assert(join_lines(ls) =~= ls[0].push('\n'));
        assert(join_lines(ls.drop_last()) + ls.last() =~= ls[0]);
    } else {
        lemma_join_lines_with(ls.drop_last());
        assert(join_lines(ls) =~= join_with(ls, '\n').push('\n'));
        assert(join_with(ls, '\n') =~= join_lines(ls.drop_last()) + ls.last());
    }
}

/// A canonical line is a plain line that counts in a body as it is.
proof fn lemma_canonical_line(line: Seq<char>)
    requires
        is_canonical_line(line),
    ensures
        is_plain_line(line),
        cut_comment(line) == line,
        !is_blank(line),
        trim(line) == line,
        !is_continuation(line),
{
    assert(is_whitespace('\r'));
    assert(is_whitespace(' '));
    assert(is_whitespace('\t'));
    lemma_trim_padded(Seq::<char>::empty(), line);
    assert(Seq::<char>::empty() + line =~= line);
    if line.contains(';') {
        let i = choose|i: int| 0 <= i < line.len() && line[i] == ';';
        assert(line[i] != ';');
    }
}

proof fn lemma_body_lines(pre: Seq<Seq<char>>, ls: Seq<Seq<char>>)
    requires
        forall|i: int| 0 <= i < ls.len() ==> is_canonical_line(#[trigger] ls[i]),
    ensures
        body_lines(pre + ls) == body_lines(pre) + ls,
    decreases ls.len(),
{
    if ls.len() == 0 {
        assert(pre + ls =~= pre);
        assert(body_lines(pre) + ls =~= body_lines(pre));
    } else {
        let front = ls.drop_last();
        assert forall|i: int| 0 <= i < front.len() implies is_canonical_line(
            #[trigger] front[i],
        ) by {
            assert(front[i] == ls[i]);
        }
        lemma_body_lines(pre, front);
        assert((pre + ls).drop_last() =~= pre + front);
        assert((pre + ls).last() == ls.last());
        assert(is_canonical_line(ls[ls.len() - 1]));
        lemma_canonical_line(ls.last());
        assert((body_lines(pre) + front).push(ls.last()) =~= body_lines(pre) + ls);
    }
}

/// What stands behind the head of a chunk text is read back as the lines of
/// the body, none of which continues the comment; and the body is those
/// lines with a line feed between each two.
#[verifier::rlimit(40)]
proof fn lemma_body(ls: Seq<Seq<char>>)
    requires
        forall|i: int| 0 <= i < ls.len() ==> is_canonical_line(#[trigger] ls[i]),
    ensures
        body_lines(lines_of(seq!['\n'] + join_lines(ls))) == ls,
        continuation_count(ls) == 0,
        trim(join_lines(ls)) == join_with(ls, '\n'),
        lines_of(join_with(ls, '\n')) == ls,
{
    let empty = Seq::<char>::empty();
    let first = seq![empty];
    assert forall|i: int| 0 <= i < (first + ls).len() implies is_plain_line(
        #[trigger] (first + ls)[i],
    ) by {
        if i > 0 {
            assert((first + ls)[i] == ls[i - 1]);
            lemma_canonical_line(ls[i - 1]);
        }
    }
    lemma_line_scan_joined(first + ls);
    lemma_join_lines_concat(first, ls);
    let none = Seq::<Seq<char>>::empty();
    assert(first.drop_last() =~= none);
    assert(first.last() == empty);
    assert(join_lines(none) =~= empty);
    assert(join_lines(first) =~= seq!['\n']);
    assert(lines_of(seq!['\n'] + join_lines(ls)) == first + ls);
    lemma_body_lines(first, ls);
    assert(trim(empty).len() == 0);
    assert(!empty.contains(';'));
    assert(cut_comment(empty) == empty);
    assert(body_lines(none) =~= none);
    assert(body_lines(first) =~= none);
    assert(body_lines(first) + ls =~= ls);
    if ls.len() == 0 {
        assert(trim(join_lines(ls)) =~= join_with(ls, '\n'));
        assert(lines_of(join_with(ls, '\n')) =~= ls);
    } else {
        lemma_canonical_line(ls[0]);
        lemma_canonical_line(ls[ls.len() - 1]);
        lemma_join_lines_with(ls);
        lemma_join_ends(ls, '\n');
        let x = join_with(ls, '\n');
        assert(is_whitespace('\n'));
        assert(trim_start(x.push('\n')) == x.push('\n'));
        assert(x.push('\n').drop_last() =~= x);
        assert(trim_end(x.push('\n')) == trim_end(x));
        assert(trim_end(x) == x);
        let front = ls.drop_last();
        assert forall|i: int| 0 <= i < front.len() implies is_plain_line(#[trigger] front[i]) by {
            assert(front[i] == ls[i]);
            lemma_canonical_line(ls[i]);
        }
        lemma_line_scan_joined(front);
        lemma_line_scan_text(join_lines(front), ls.last());
        assert(line_scan(x).current =~= ls.last());
        assert(front.push(ls.last()) =~= ls);
    }
}

// ---------------------------------------------------------------------------
// Names
// ---------------------------------------------------------------------------

/// The tokenizer reads a canonical name into its buffer and completes no
/// token.
proof fn lemma_token_scan(exts: Seq<Seq<char>>, name: Seq<char>, k: int)
    requires
        is_canonical_token(exts, name),
        0 <= k <= name.len(),
    ensures
        token_scan(exts, name.take(k)).tokens.len() == 0,
        token_scan(exts, name.take(k)).current == name.take(k),
        !token_scan(exts, name.take(k)).quoted,
    decreases k,
{
    if k == 0 {
        assert(token_scan(exts, name.take(0)).current =~= name.take(0));
    } else {
        lemma_token_scan(exts, name, k - 1);
        assert(name.take(k).drop_last() =~= name.take(k - 1));
        let c = name[k - 1];
        assert(name.take(k).last() == c);
        let current = name.take(k - 1).push(c);
        assert(current =~= name.take(k));
        assert(current.drop_last() =~= name.take(k - 1));
        if c == ' ' {
            assert(is_whitespace(' '));
            assert(k - 1 > 0);
            assert(name[k - 1] == ' ');
            assert(!ends_with_any(name.take(k - 1), exts));
        }
    }
}

/// A canonical name on a line of its own is the one token of that line.
proof fn lemma_tokenize_name(exts: Seq<Seq<char>>, name: Seq<char>)
    requires
        is_canonical_token(exts, name),
    ensures
        tokenize_spec(exts, trim(name)) == seq![name],
{
    lemma_canonical_line(name);
    lemma_token_scan(exts, name, name.len() as int);
    assert(name.take(name.len() as int) =~= name);
    if name.contains(';') {
        let i = choose|i: int| 0 <= i < name.len() && name[i] == ';';
        assert(name[i] != ';');
    }
    assert(strip_comment(name) == name);
    let st = token_scan(exts, name);
    assert(st.tokens.push(trim(st.current)) =~= seq![name]);
}

/// Canonical names, each on a line of its own, are the tokens of the lines.
proof fn lemma_line_tokens(exts: Seq<Seq<char>>, names: Seq<Seq<char>>)
    requires
        are_canonical_tokens(exts, names),
    ensures
        line_tokens(exts, names) == names,
    decreases names.len(),
{
    if names.len() == 0 {
        assert(line_tokens(exts, names) =~= names);
    } else {
        let front = names.drop_last();
        assert forall|i: int| 0 <= i < front.len() implies is_canonical_token(
            exts,
            #[trigger] front[i],
        ) by {
            assert(front[i] == names[i]);
        }
        lemma_line_tokens(exts, front);
        assert(is_canonical_token(exts, names[names.len() - 1]));
        lemma_tokenize_name(exts, names.last());
        assert(front + seq![names.last()] =~= names);
    }
}

/// The body of a canonical ordering rule parses to its names.
proof fn lemma_parse_names(exts: Seq<Seq<char>>, names: Seq<Seq<char>>)
    requires
        are_canonical_tokens(exts, names),
    ensures
        parse_names_spec(exts, join_with(names, '\n')) == Ok::<Seq<Seq<char>>, ParseError>(names),
{
    assert forall|i: int| 0 <= i < names.len() implies is_canonical_line(#[trigger] names[i]) by {
        assert(is_canonical_token(exts, names[i]));
    }
    lemma_body(names);
    lemma_line_tokens(exts, names);
    assert forall|i: int| 0 <= i < names.len() implies is_name_token(exts, #[trigger] names[i]) by {
        assert(is_canonical_token(exts, names[i]));
    }
}

// ---------------------------------------------------------------------------
// Parsing the canonical text
// ---------------------------------------------------------------------------

/// The rule that parsing a body has filled in, or the error.
pub open spec fn outcome_of(parsed: (ERuleView, Result<(), ParseError>)) -> Result<
    ERuleView,
    ParseError,
> {
    match parsed.1 {
        Ok(_) => Ok(parsed.0),
        Err(e) => Err(e),
    }
}

proof fn lemma_keyword_has_no_bracket(kind: RuleKind)
    ensures
        forall|i: int|
            0 <= i < kind_keyword(kind).len() ==> is_no_bracket(#[trigger] kind_keyword(kind)[i]),
{
}

/// A comment behind the space that follows the kind is read back as it is.
proof fn lemma_comment(comment: Seq<char>)
    requires
        is_canonical_comment(comment),
    ensures
        rule_comment(seq![' '] + comment, Seq::empty()) == comment,
{
    let empty = Seq::<char>::empty();
    let inline = seq![' '] + comment;
    assert(is_whitespace(' '));
    assert(concat_lines(Seq::<Seq<char>>::empty()) =~= empty);
    if comment.len() > 0 {
        lemma_trim_padded(seq![' '], comment);
        lemma_trim_padded(empty, comment);
        assert(empty + comment =~= comment);
        assert(comment + empty =~= comment);
    } else {
        assert(inline.drop_first() =~= empty);
        assert(trim_start(empty) == empty);
        assert(trim_start(inline) == trim_start(inline.drop_first()));
        assert(trim_end(empty) == empty);
        assert(trim(inline) =~= empty);
        assert(empty + empty =~= empty);
    }
}

/// The text of a chunk is taken apart into its kind, its comment and its
/// body, and the body is parsed.
#[verifier::rlimit(40)]
proof fn lemma_chunk(exts: Seq<Seq<char>>, kind: RuleKind, comment: Seq<char>, lines: Seq<Seq<char>>)
    requires
        is_canonical_comment(comment),
        forall|i: int| 0 <= i < lines.len() ==> is_canonical_line(#[trigger] lines[i]),
    ensures
        parse_chunk_spec(exts, chunk_text(kind_keyword(kind), comment, lines)) == outcome_of(
            parse_rule_spec(exts, new_rule(kind, comment), join_with(lines, '\n')),
        ),
{
    let keyword = kind_keyword(kind);
    lemma_keyword_has_no_bracket(kind);
    let rest = seq!['\n'] + join_lines(lines);
    let s = chunk_text(keyword, comment, lines);
    assert(s =~= operator_text(keyword, comment) + rest);
    lemma_head(keyword, comment, rest);
    let k = (keyword.len() + comment.len() + 2) as int;
    let inline = seq![' '] + comment;
    assert(keyword + seq![' '] + comment =~= keyword + inline);
    lemma_rule_kind(kind, inline);
    lemma_body(lines);
    assert(lines.take(0) =~= Seq::<Seq<char>>::empty());
    assert(lines.skip(0) =~= lines);
    lemma_comment(comment);
}

/// The body of a canonical ordering rule fills in its names.
proof fn lemma_order_body(exts: Seq<Seq<char>>, names: Seq<Seq<char>>, least: nat)
    requires
        are_canonical_tokens(exts, names),
        names.len() >= least,
    ensures
        parse_order_spec(exts, Seq::empty(), join_with(names, '\n'), least) == (
            names,
            Ok::<(), ParseError>(()),
        ),
{
    lemma_parse_names(exts, names);
}

/// The texts of canonical expressions, each on a line of its own, start
/// with no comment and parse to the expressions.
proof fn lemma_expressions_body(exts: Seq<Seq<char>>, xs: Seq<ExpressionView>)
    requires
        extensions_are_plain(exts),
        xs.len() >= 1,
        are_canonical_expressions(exts, xs),
    ensures
        read_comment_spec(join_with(texts_of(xs), '\n')) is None,
        parse_expressions_spec(exts, join_with(texts_of(xs), '\n')) == Ok::<
            Seq<ExpressionView>,
            ParseError,
        >(xs),
{
    let parts = texts_of(xs);
    assert forall|i: int| #![trigger xs[i]] 0 <= i < xs.len() implies is_canonical(exts, xs[i])
        && parse_expression_spec_of(exts, xs[i]) by {
        lemma_parse_of_text(exts, xs[i]);
    }
    lemma_parse_join(exts, xs, '\n');
    assert forall|i: int| 0 <= i < parts.len() implies (#[trigger] parts[i]).len() > 0 by {
        assert(is_canonical_line(text_of(xs[i])));
    }
    lemma_join_ends(parts, '\n');
    assert(is_canonical_line(text_of(xs[0])));
    assert(is_whitespace(' '));
    assert(is_whitespace('\t'));
}

/// The canonical text of the expression parses back.
spec fn parse_expression_spec_of(exts: Seq<Seq<char>>, x: ExpressionView) -> bool {
    crate::grammar::parse_expression_spec(exts, text_of(x)) == Ok::<ExpressionView, ParseError>(x)
}

/// The body of a canonical `Note` or `Conflict` fills in its expressions.
proof fn lemma_list_body(
    exts: Seq<Seq<char>>,
    comment: Seq<char>,
    xs: Seq<ExpressionView>,
    malformed: ParseError,
)
    requires
        extensions_are_plain(exts),
        xs.len() >= 1,
        are_canonical_expressions(exts, xs),
    ensures
        parse_list_rule_spec(
            exts,
            ListRuleView { comment, expressions: Seq::empty() },
            join_with(texts_of(xs), '\n'),
            malformed,
        ) == (ListRuleView { comment, expressions: xs }, Ok::<(), ParseError>(())),
{
    lemma_expressions_body(exts, xs);
}

/// The body of a canonical `Requires` or `Patch` fills in its two
/// expressions.
proof fn lemma_pair_body(
    exts: Seq<Seq<char>>,
    comment: Seq<char>,
    a: ExpressionView,
    b: ExpressionView,
    malformed: ParseError,
)
    requires
        extensions_are_plain(exts),
        are_canonical_expressions(exts, seq![a, b]),
    ensures
        parse_pair_rule_spec(
            exts,
            PairRuleView { comment, expression_a: None, expression_b: None },
            join_with(seq![text_of(a), text_of(b)], '\n'),
            malformed,
        ) == (
            PairRuleView { comment, expression_a: Some(a), expression_b: Some(b) },
            Ok::<(), ParseError>(()),
        ),
{
    let xs = seq![a, b];
    lemma_expressions_body(exts, xs);
    assert(texts_of(xs) =~= seq![text_of(a), text_of(b)]);
    assert(xs[0] == a && xs[1] == b);
}

/// The lines of canonical expressions are canonical lines.
proof fn lemma_expression_lines(exts: Seq<Seq<char>>, xs: Seq<ExpressionView>)
    requires
        are_canonical_expressions(exts, xs),
    ensures
        forall|i: int| 0 <= i < xs.len() ==> is_canonical_line(#[trigger] texts_of(xs)[i]),
{
    assert forall|i: int| 0 <= i < xs.len() implies is_canonical_line(
        #[trigger] texts_of(xs)[i],
    ) by {
        assert(is_canonical_line(text_of(xs[i])));
    }
}

proof fn lemma_parse_order_text(exts: Seq<Seq<char>>, kind: RuleKind, names: Seq<Seq<char>>)
    requires
        are_canonical_tokens(exts, names),
        kind is Order || kind is NearStart || kind is NearEnd,
        kind is Order ==> names.len() >= 2,
    ensures
        parse_chunk_spec(exts, chunk_text(kind_keyword(kind), Seq::empty(), names)) == Ok::<
            ERuleView,
            ParseError,
        >(
            match kind {
                RuleKind::Order => ERuleView::EOrderRule(EOrderRuleView::Order(names)),
                RuleKind::NearStart => ERuleView::EOrderRule(EOrderRuleView::NearStart(names)),
                _ => ERuleView::EOrderRule(EOrderRuleView::NearEnd(names)),
            },
        ),
{
    assert forall|i: int| 0 <= i < names.len() implies is_canonical_line(#[trigger] names[i]) by {
        assert(is_canonical_token(exts, names[i]));
    }
    lemma_chunk(exts, kind, Seq::empty(), names);
    if kind is Order {
        lemma_order_body(exts, names, 2);
    } else {
        lemma_order_body(exts, names, 0);
    }
}

proof fn lemma_parse_list_text(
    exts: Seq<Seq<char>>,
    kind: RuleKind,
    comment: Seq<char>,
    xs: Seq<ExpressionView>,
)
    requires
        extensions_are_plain(exts),
        is_canonical_comment(comment),
        xs.len() >= 1,
        are_canonical_expressions(exts, xs),
        kind is Note || kind is Conflict,
    ensures
        parse_chunk_spec(exts, chunk_text(kind_keyword(kind), comment, texts_of(xs))) == Ok::<
            ERuleView,
            ParseError,
        >(
            match kind {
                RuleKind::Note => ERuleView::EWarningRule(
                    EWarningRuleView::Note(ListRuleView { comment, expressions: xs }),
                ),
                _ => ERuleView::EWarningRule(
                    EWarningRuleView::Conflict(ListRuleView { comment, expressions: xs }),
                ),
            },
        ),
{
    lemma_expression_lines(exts, xs);
    lemma_chunk(exts, kind, comment, texts_of(xs));
    lemma_list_body(exts, comment, xs, ParseError::MalformedNote);
    lemma_list_body(exts, comment, xs, ParseError::MalformedConflict);
}

proof fn lemma_parse_pair_text(
    exts: Seq<Seq<char>>,
    kind: RuleKind,
    comment: Seq<char>,
    a: ExpressionView,
    b: ExpressionView,
)
    requires
        extensions_are_plain(exts),
        is_canonical_comment(comment),
        are_canonical_expressions(exts, seq![a, b]),
        kind is Requires || kind is Patch,
    ensures
        parse_chunk_spec(
            exts,
            chunk_text(kind_keyword(kind), comment, seq![text_of(a), text_of(b)]),
        ) == Ok::<ERuleView, ParseError>(
            match kind {
                RuleKind::Requires => ERuleView::EWarningRule(
                    EWarningRuleView::Requires(
                        PairRuleView { comment, expression_a: Some(a), expression_b: Some(b) },
                    ),
                ),
                _ => ERuleView::EWarningRule(
                    EWarningRuleView::Patch(
                        PairRuleView { comment, expression_a: Some(a), expression_b: Some(b) },
                    ),
                ),
            },
        ),
{
    let xs = seq![a, b];
    lemma_expression_lines(exts, xs);
    assert(texts_of(xs) =~= seq![text_of(a), text_of(b)]);
    lemma_chunk(exts, kind, comment, seq![text_of(a), text_of(b)]);
    lemma_pair_body(exts, comment, a, b, ParseError::MalformedRequires);
    lemma_pair_body(exts, comment, a, b, ParseError::MalformedPatch);
}

proof fn lemma_parse_of_order_rule(exts: Seq<Seq<char>>, rule: EOrderRuleView)
    requires
        is_canonical_rule(exts, ERuleView::EOrderRule(rule)),
    ensures
        parse_chunk_spec(exts, rule_text(ERuleView::EOrderRule(rule))) == Ok::<
            ERuleView,
            ParseError,
        >(ERuleView::EOrderRule(rule)),
{
    match rule {
        EOrderRuleView::Order(names) => {
            lemma_parse_order_text(exts, RuleKind::Order, names);
        },
        EOrderRuleView::NearStart(names) => {
            lemma_parse_order_text(exts, RuleKind::NearStart, names);
        },
        EOrderRuleView::NearEnd(names) => {
            lemma_parse_order_text(exts, RuleKind::NearEnd, names);
        },
    }
}

proof fn lemma_parse_of_list_rule(exts: Seq<Seq<char>>, rule: EWarningRuleView)
    requires
        extensions_are_plain(exts),
        rule is Note || rule is Conflict,
        is_canonical_rule(exts, ERuleView::EWarningRule(rule)),
    ensures
        parse_chunk_spec(exts, rule_text(ERuleView::EWarningRule(rule))) == Ok::<
            ERuleView,
            ParseError,
        >(ERuleView::EWarningRule(rule)),
{
    match rule {
        EWarningRuleView::Note(x) => {
            lemma_parse_list_text(exts, RuleKind::Note, x.comment, x.expressions);
        },
        EWarningRuleView::Conflict(x) => {
            lemma_parse_list_text(exts, RuleKind::Conflict, x.comment, x.expressions);
        },
        _ => {},
    }
}

proof fn lemma_parse_of_pair_rule(exts: Seq<Seq<char>>, rule: EWarningRuleView)
    requires
        extensions_are_plain(exts),
        rule is Requires || rule is Patch,
        is_canonical_rule(exts, ERuleView::EWarningRule(rule)),
    ensures
        parse_chunk_spec(exts, rule_text(ERuleView::EWarningRule(rule))) == Ok::<
            ERuleView,
            ParseError,
        >(ERuleView::EWarningRule(rule)),
{
    match rule {
        EWarningRuleView::Requires(x) => {
            lemma_parse_pair_text(
                exts,
                RuleKind::Requires,
                x.comment,
                x.expression_a->0,
                x.expression_b->0,
            );
        },
        EWarningRuleView::Patch(x) => {
            lemma_parse_pair_text(
                exts,
                RuleKind::Patch,
                x.comment,
                x.expression_a->0,
                x.expression_b->0,
            );
        },
        _ => {},
    }
}

/// Parsing is the inverse of writing: the canonical text of a canonical
/// rule parses to that rule.
pub proof fn lemma_parse_of_rule_text(exts: Seq<Seq<char>>, rule: ERuleView)
    requires
        extensions_are_plain(exts),
        is_canonical_rule(exts, rule),
    ensures
        parse_chunk_spec(exts, rule_text(rule)) == Ok::<ERuleView, ParseError>(rule),
{
    match rule {
        ERuleView::EOrderRule(x) => {
            lemma_parse_of_order_rule(exts, x);
        },
        ERuleView::EWarningRule(x) => {
            if x is Note || x is Conflict {
                lemma_parse_of_list_rule(exts, x);
            } else {
                lemma_parse_of_pair_rule(exts, x);
            }
        },
    }
}

} // verus!
