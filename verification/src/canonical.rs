//! The canonical text of an expression, and the law that parsing it gives
//! the expression back.

use vstd::prelude::*;
use crate::expressions::{Expression, ExpressionView, lemma_wrapped_views, views};
use crate::grammar::{
    chunk_scan, chunk_step, desc_parts, emit, ends_with_any, ends_with_any_then, expression_chunks,
    has_operator, keyword_all, keyword_any, keyword_desc, keyword_not, lemma_expression_chunks_len,
    operator_body, parse_expression_spec, parse_expressions_spec, parse_list_spec,
};
use crate::parser::ParseError;
use crate::seqs::{first_index, is_first_index, is_last_index, last_index};
use crate::text::{
    ends_with, from_chars, is_whitespace, lemma_take_step, lower_char, lower_text, to_chars, trim,
    trim_end, trim_start,
};

verus! {

// ---------------------------------------------------------------------------
// The canonical text
// ---------------------------------------------------------------------------

/// The parts, with the separator between each two.
pub open spec fn join_with(parts: Seq<Seq<char>>, sep: char) -> Seq<char>
    decreases parts.len(),
{
    if parts.len() == 0 {
        Seq::empty()
    } else if parts.len() == 1 {
        parts[0]
    } else {
        join_with(parts.drop_last(), sep) + seq![sep] + parts.last()
    }
}

/// The parts, with one space between each two.
pub open spec fn join_spaced(parts: Seq<Seq<char>>) -> Seq<char> {
    join_with(parts, ' ')
}

/// A space or a line feed: what may stand between two expressions.
pub open spec fn is_separator(c: char) -> bool {
    c == ' ' || c == '\n'
}

/// A bracketed expression: `[`, the operator, a space, the body, `]`.
pub open spec fn operator_text(keyword: Seq<char>, body: Seq<char>) -> Seq<char> {
    seq!['['] + keyword + seq![' '] + body + seq![']']
}

/// The body of a `DESC` expression: `/pattern/ expression`, with a `!` in
/// front where it is negated.
pub open spec fn desc_body(pattern: Seq<char>, negated: bool, child: Seq<char>) -> Seq<char> {
    (if negated {
        seq!['!']
    } else {
        Seq::empty()
    }) + seq!['/'] + pattern + seq!['/', ' '] + child
}

/// The canonical texts of the children of an `ALL` or `ANY` node.
pub open spec fn child_texts(e: ExpressionView) -> Seq<Seq<char>>
    decreases e, 0nat,
{
    match e {
        ExpressionView::All(xs) => Seq::new(
            xs.len(),
            |i: int|
                if 0 <= i < xs.len() {
                    text_of(xs[i])
                } else {
                    Seq::empty()
                },
        ),
        ExpressionView::Any(xs) => Seq::new(
            xs.len(),
            |i: int|
                if 0 <= i < xs.len() {
                    text_of(xs[i])
                } else {
                    Seq::empty()
                },
        ),
        _ => Seq::empty(),
    }
}

/// The canonical text of an expression: a name as it is; a bracketed
/// expression with its operator in lower case, one space behind it and one
/// between each two operands.
pub open spec fn text_of(e: ExpressionView) -> Seq<char>
    decreases e, 1nat,
{
    match e {
        ExpressionView::Atomic(name) => name,
        ExpressionView::All(xs) => operator_text(keyword_all(), join_spaced(child_texts(e))),
        ExpressionView::Any(xs) => operator_text(keyword_any(), join_spaced(child_texts(e))),
        ExpressionView::Not(x) => operator_text(keyword_not(), text_of(*x)),
        ExpressionView::Desc(x, pattern, negated) => operator_text(
            keyword_desc(),
            desc_body(pattern, negated, text_of(*x)),
        ),
    }
}

/// The canonical texts of a list of expressions.
pub open spec fn texts_of(xs: Seq<ExpressionView>) -> Seq<Seq<char>> {
    Seq::new(xs.len(), |i: int| text_of(xs[i]))
}

/// The text of an `ALL` or `ANY` node is made of the texts of its children.
pub proof fn lemma_text_of_list(xs: Seq<ExpressionView>)
    ensures
        text_of(ExpressionView::All(xs)) == operator_text(keyword_all(), join_spaced(texts_of(xs))),
        text_of(ExpressionView::Any(xs)) == operator_text(keyword_any(), join_spaced(texts_of(xs))),
{
    let a = ExpressionView::All(xs);
    assert(a->All_0 == xs);
    assert(child_texts(a) =~= texts_of(xs));
    let b = ExpressionView::Any(xs);
    assert(b->Any_0 == xs);
    assert(child_texts(b) =~= texts_of(xs));
}

/// Writes the canonical texts of the expressions, with one space between
/// each two.
fn write_joined(xs: &Vec<Expression>) -> (r: Vec<char>)
    ensures
        r@ == join_spaced(texts_of(views(xs@))),
    decreases xs, 0nat,
{
    let ghost parts = texts_of(views(xs@));
    let mut out: Vec<char> = Vec::new();
    let mut i: usize = 0;
    proof {
        assert(parts.take(0).len() == 0);
    }
    while i < xs.len()
        invariant
            i <= xs.len(),
            parts == texts_of(views(xs@)),
            out@ == join_with(parts.take(i as int), ' '),
        decreases xs.len() - i,
    {
        proof {
            lemma_take_step(parts, i as int);
            assert(parts[i as int] == text_of(xs@[i as int]@));
            assert(parts.take(i + 1).len() == i + 1);
        }
        let mut text = write_expression(&xs[i]);
        if i > 0 {
            out.push(' ');
        }
        out.append(&mut text);
        proof {
            if i == 0 {
                assert(out@ =~= parts[0]);
            }
        }
        i += 1;
    }
    proof {
        assert(parts.take(xs.len() as int) =~= parts);
    }
    out
}

/// Writes a bracketed expression.
fn write_operator(keyword: Vec<char>, body: Vec<char>) -> (r: Vec<char>)
    ensures
        r@ == operator_text(keyword@, body@),
{
    let ghost expected = operator_text(keyword@, body@);
    let mut keyword = keyword;
    let mut body = body;
    let mut out: Vec<char> = Vec::new();
    out.push('[');
    out.append(&mut keyword);
    out.push(' ');
    out.append(&mut body);
    out.push(']');
    assert(out@ =~= expected);
    out
}

/// Writes the canonical text of an expression.
pub fn write_expression(e: &Expression) -> (r: Vec<char>)
    ensures
        r@ == text_of(e@),
    decreases e, 1nat,
{
    proof {
        lemma_wrapped_views(*e);
    }
    match e {
        Expression::Atomic(x) => to_chars(x.item.as_str()),
        Expression::ALL(x) => {
            proof {
                lemma_text_of_list(views(x.expressions@));
            }
            let keyword: Vec<char> = vec!['a', 'l', 'l'];
            assert(keyword@ =~= keyword_all());
            write_operator(keyword, write_joined(&x.expressions))
        },
        Expression::ANY(x) => {
            proof {
                lemma_text_of_list(views(x.expressions@));
            }
            let keyword: Vec<char> = vec!['a', 'n', 'y'];
            assert(keyword@ =~= keyword_any());
            write_operator(keyword, write_joined(&x.expressions))
        },
        Expression::NOT(x) => {
            let keyword: Vec<char> = vec!['n', 'o', 't'];
            assert(keyword@ =~= keyword_not());
            let inner: &Expression = &x.expression;
            write_operator(keyword, write_expression(inner))
        },
        Expression::DESC(x) => {
            let keyword: Vec<char> = vec!['d', 'e', 's', 'c'];
            assert(keyword@ =~= keyword_desc());
            let inner: &Expression = &x.expression;
            let mut child = write_expression(inner);
            let mut pattern = to_chars(x.description.as_str());
            let mut body: Vec<char> = Vec::new();
            if x.is_negated {
                body.push('!');
            }
            body.push('/');
            body.append(&mut pattern);
            body.push('/');
            body.push(' ');
            body.append(&mut child);
            assert(body@ =~= desc_body(x.description@, x.is_negated, text_of(inner@)));
            write_operator(keyword, body)
        },
    }
}

impl Expression {
    /// The canonical text of the expression: a name as it is; a bracketed
    /// expression with its operator in lower case, one space behind it and
    /// one between each two operands.
    pub fn to_text(&self) -> (r: String)
        ensures
            r@ == text_of(self@),
    {
        from_chars(&write_expression(self))
    }
}

// ---------------------------------------------------------------------------
// The expressions whose text parses back
// ---------------------------------------------------------------------------

/// The character is no bracket.
pub open spec fn is_no_bracket(c: char) -> bool {
    c != '[' && c != ']'
}

/// The character is none of `[`, `]`, `/`.
pub open spec fn is_plain(c: char) -> bool {
    is_no_bracket(c) && c != '/'
}

/// A name that can stand in a canonical text: it ends in an extension, has
/// no white space at its ends, holds none of `[`, `]`, `/`, and within it no
/// extension is followed by a space or a line feed.
pub open spec fn is_canonical_name(exts: Seq<Seq<char>>, name: Seq<char>) -> bool {
    &&& name.len() > 0
    &&& !is_whitespace(name[0])
    &&& !is_whitespace(name.last())
    &&& ends_with_any(name, exts)
    &&& forall|i: int| 0 <= i < name.len() ==> is_plain(#[trigger] name[i])
    &&& forall|k: int|
        0 < k < name.len() && (#[trigger] name[k] == ' ' || name[k] == '\n') ==> !ends_with_any(
            name.take(k),
            exts,
        )
}

/// A pattern that can stand in a canonical text: it has no white space at
/// its ends and holds none of `[`, `]`, `/`.
pub open spec fn is_canonical_pattern(pattern: Seq<char>) -> bool {
    &&& pattern.len() > 0 ==> !is_whitespace(pattern[0]) && !is_whitespace(pattern.last())
    &&& forall|i: int| 0 <= i < pattern.len() ==> is_plain(#[trigger] pattern[i])
}

/// An expression whose canonical text parses back: its names and patterns
/// are canonical, every `ALL` and `ANY` node has a child, and the text of
/// the expression under a `DESC` node holds no `/`.
pub open spec fn is_canonical(exts: Seq<Seq<char>>, e: ExpressionView) -> bool
    decreases e,
{
    match e {
        ExpressionView::Atomic(name) => is_canonical_name(exts, name),
        ExpressionView::All(xs) => xs.len() >= 1 && forall|i: int|
            #![trigger xs[i]]
            0 <= i < xs.len() ==> is_canonical(exts, xs[i]),
        ExpressionView::Any(xs) => xs.len() >= 1 && forall|i: int|
            #![trigger xs[i]]
            0 <= i < xs.len() ==> is_canonical(exts, xs[i]),
        ExpressionView::Not(x) => is_canonical(exts, *x),
        ExpressionView::Desc(x, pattern, negated) => {
            &&& is_canonical(exts, *x)
            &&& is_canonical_pattern(pattern)
            &&& !text_of(*x).contains('/')
        },
    }
}

/// An `ALL` or `ANY` node is canonical iff it has a child and all its
/// children are canonical.
pub proof fn lemma_is_canonical_list(exts: Seq<Seq<char>>, xs: Seq<ExpressionView>)
    ensures
        is_canonical(exts, ExpressionView::All(xs)) == (xs.len() >= 1 && forall|k: int|
            #![trigger xs[k]]
            0 <= k < xs.len() ==> is_canonical(exts, xs[k])),
        is_canonical(exts, ExpressionView::Any(xs)) == (xs.len() >= 1 && forall|k: int|
            #![trigger xs[k]]
            0 <= k < xs.len() ==> is_canonical(exts, xs[k])),
{
    let a = ExpressionView::All(xs);
    assert(a->All_0 == xs);
    assert(is_canonical(exts, a) == (xs.len() >= 1 && forall|k: int|
        #![trigger xs[k]]
        0 <= k < xs.len() ==> is_canonical(exts, xs[k])));
    let b = ExpressionView::Any(xs);
    assert(b->Any_0 == xs);
    assert(is_canonical(exts, b) == (xs.len() >= 1 && forall|k: int|
        #![trigger xs[k]]
        0 <= k < xs.len() ==> is_canonical(exts, xs[k])));
}

/// No extension starts with a space or a line feed.
pub open spec fn extensions_are_plain(exts: Seq<Seq<char>>) -> bool {
    forall|i: int|
        0 <= i < exts.len() ==> (#[trigger] exts[i]).len() == 0 || !is_separator(exts[i][0])
}

// ---------------------------------------------------------------------------
// Brackets
// ---------------------------------------------------------------------------

/// What a character adds to the number of open brackets.
pub open spec fn bracket_value(c: char) -> int {
    if c == '[' {
        1
    } else if c == ']' {
        -1
    } else {
        0
    }
}

/// The number of `[` in `s` less the number of `]`.
pub open spec fn net(s: Seq<char>) -> int
    decreases s.len(),
{
    if s.len() == 0 {
        0
    } else {
        net(s.drop_last()) + bracket_value(s.last())
    }
}

/// Every `]` of `s` closes a `[` of `s`, and none is left open.
pub open spec fn is_balanced(s: Seq<char>) -> bool {
    &&& net(s) == 0
    &&& forall|k: int| 0 <= k <= s.len() ==> net(#[trigger] s.take(k)) >= 0
}

/// `s` starts with a `[` that its last character closes.
pub open spec fn is_closed(s: Seq<char>) -> bool {
    &&& s.len() >= 2
    &&& s[0] == '['
    &&& net(s) == 0
    &&& forall|k: int| 0 < k < s.len() ==> net(#[trigger] s.take(k)) >= 1
}

/// One character counts as its bracket value.
pub proof fn lemma_net_single(c: char)
    ensures
        net(seq![c]) == bracket_value(c),
{
    assert(seq![c].drop_last() =~= Seq::<char>::empty());
    assert(net(Seq::<char>::empty()) == 0);
}

/// The brackets of two texts add up.
pub proof fn lemma_net_concat(a: Seq<char>, b: Seq<char>)
    ensures
        net(a + b) == net(a) + net(b),
    decreases b.len(),
{
    if b.len() == 0 {
        assert(a + b =~= a);
    } else {
        lemma_net_concat(a, b.drop_last());
        assert((a + b).drop_last() =~= a + b.drop_last());
    }
}

/// A prefix of `a + b` is a prefix of `a`, or `a` and a prefix of `b`.
pub proof fn lemma_take_concat<T>(a: Seq<T>, b: Seq<T>, k: int)
    requires
        0 <= k <= a.len() + b.len(),
    ensures
        k <= a.len() ==> (a + b).take(k) == a.take(k),
        k >= a.len() ==> (a + b).take(k) == a + b.take(k - a.len()),
{
    if k <= a.len() {
        assert((a + b).take(k) =~= a.take(k));
    }
    if k >= a.len() {
        assert((a + b).take(k) =~= a + b.take(k - a.len()));
    }
}

/// A text without brackets is balanced.
pub proof fn lemma_net_plain(s: Seq<char>)
    requires
        forall|i: int| 0 <= i < s.len() ==> is_no_bracket(#[trigger] s[i]),
    ensures
        is_balanced(s),
    decreases s.len(),
{
    lemma_net_plain_upto(s, s.len() as int);
    assert(s.take(s.len() as int) =~= s);
    assert forall|k: int| 0 <= k <= s.len() implies net(#[trigger] s.take(k)) >= 0 by {
        lemma_net_plain_upto(s, k);
    }
}

proof fn lemma_net_plain_upto(s: Seq<char>, k: int)
    requires
        0 <= k <= s.len(),
        forall|i: int| 0 <= i < s.len() ==> is_no_bracket(#[trigger] s[i]),
    ensures
        net(s.take(k)) == 0,
    decreases k,
{
    if k > 0 {
        lemma_net_plain_upto(s, k - 1);
        assert(s.take(k).drop_last() =~= s.take(k - 1));
        assert(is_no_bracket(s[k - 1]));
    }
}

/// Two balanced texts, one after the other, are balanced.
pub proof fn lemma_balanced_concat(a: Seq<char>, b: Seq<char>)
    requires
        is_balanced(a),
        is_balanced(b),
    ensures
        is_balanced(a + b),
{
    lemma_net_concat(a, b);
    assert forall|k: int| 0 <= k <= (a + b).len() implies net(#[trigger] (a + b).take(k)) >= 0 by {
        lemma_take_concat(a, b, k);
        if k > a.len() {
            lemma_net_concat(a, b.take(k - a.len()));
        }
    }
}

/// A closed bracket is balanced.
pub proof fn lemma_closed_is_balanced(s: Seq<char>)
    requires
        is_closed(s),
    ensures
        is_balanced(s),
{
    assert forall|k: int| 0 <= k <= s.len() implies net(#[trigger] s.take(k)) >= 0 by {
        if k == s.len() {
            assert(s.take(k) =~= s);
        }
    }
}

/// Brackets around a balanced text with plain characters before it close it.
pub proof fn lemma_operator_text_is_closed(keyword: Seq<char>, body: Seq<char>)
    requires
        forall|i: int| 0 <= i < keyword.len() ==> is_no_bracket(#[trigger] keyword[i]),
        is_balanced(body),
    ensures
        is_closed(operator_text(keyword, body)),
{
    let open = seq!['['];
    let head = keyword + seq![' '];
    let close = seq![']'];
    let s = operator_text(keyword, body);
    assert(s =~= open + (head + body) + close);
    assert forall|i: int| 0 <= i < head.len() implies is_no_bracket(#[trigger] head[i]) by {
        if i < keyword.len() {
            assert(head[i] == keyword[i]);
        }
    }
    lemma_net_plain(head);
    lemma_balanced_concat(head, body);
    let inner = head + body;
    lemma_net_single('[');
    lemma_net_single(']');
    lemma_net_concat(open, inner);
    lemma_net_concat(open + inner, close);
    assert forall|k: int| 0 < k < s.len() implies net(#[trigger] s.take(k)) >= 1 by {
        lemma_take_concat(open + inner, close, k);
        assert(s.take(k) == (open + inner).take(k));
        lemma_take_concat(open, inner, k);
        assert((open + inner).take(k) == open + inner.take(k - 1));
        lemma_net_concat(open, inner.take(k - 1));
    }
}

// ---------------------------------------------------------------------------
// White space at the ends
// ---------------------------------------------------------------------------

/// Nothing, or one separator: what the scan holds in its buffer when an
/// expression starts.
pub open spec fn is_pad(pad: Seq<char>) -> bool {
    pad.len() == 0 || (pad.len() == 1 && is_separator(pad[0]))
}

/// A text without white space at its ends, behind nothing or one
/// separator, trims to itself.
pub proof fn lemma_trim_padded(pad: Seq<char>, t: Seq<char>)
    requires
        is_pad(pad),
        t.len() > 0,
        !is_whitespace(t[0]),
        !is_whitespace(t.last()),
    ensures
        trim(pad + t) == t,
{
    assert(trim_start(t) == t);
    assert(trim_end(t) == t);
    if pad.len() == 0 {
        assert(pad + t =~= t);
    } else {
        assert((pad + t).drop_first() =~= t);
        assert((pad + t)[0] == pad[0]);
        assert(is_whitespace(pad[0]));
        assert(trim_start(pad + t) == trim_start((pad + t).drop_first()));
    }
    assert(trim_start(pad + t) == t);
}

/// Where a text behind nothing or one separator ends with an extension,
/// the text itself does.
proof fn lemma_ends_with_padded(exts: Seq<Seq<char>>, pad: Seq<char>, m: Seq<char>)
    requires
        extensions_are_plain(exts),
        is_pad(pad),
        m.len() > 0,
    ensures
        ends_with_any(pad + m, exts) == ends_with_any(m, exts),
{
    let s = pad + m;
    if ends_with_any(s, exts) {
        let i = choose|i: int| 0 <= i < exts.len() && ends_with(s, #[trigger] exts[i]);
        let ext = exts[i];
        if ext.len() <= m.len() {
            assert(m.subrange(m.len() - ext.len(), m.len() as int) =~= s.subrange(
                s.len() - ext.len(),
                s.len() as int,
            ));
        } else {
            assert(s.subrange(s.len() - ext.len(), s.len() as int)[0] == s[0]);
            assert(s[0] == pad[0]);
        }
        assert(ends_with(m, exts[i]));
    }
    if ends_with_any(m, exts) {
        let i = choose|i: int| 0 <= i < exts.len() && ends_with(m, #[trigger] exts[i]);
        let ext = exts[i];
        assert(m.subrange(m.len() - ext.len(), m.len() as int) =~= s.subrange(
            s.len() - ext.len(),
            s.len() as int,
        ));
        assert(ends_with(s, exts[i]));
    }
}

// ---------------------------------------------------------------------------
// The scan over one expression
// ---------------------------------------------------------------------------

/// The scan reads one character more.
pub proof fn lemma_scan_push(exts: Seq<Seq<char>>, s: Seq<char>, c: char)
    ensures
        chunk_scan(exts, s.push(c)) == chunk_step(exts, chunk_scan(exts, s), c),
{
    assert(s.push(c).drop_last() =~= s);
}

/// Between two expressions, the scan reads a canonical name into its buffer
/// and completes no chunk.
#[verifier::rlimit(40)]
proof fn lemma_scan_name(exts: Seq<Seq<char>>, a: Seq<char>, name: Seq<char>, k: int)
    requires
        extensions_are_plain(exts),
        is_canonical_name(exts, name),
        chunk_scan(exts, a).mode is Idle,
        chunk_scan(exts, a).depth == 0,
        is_pad(chunk_scan(exts, a).current),
        1 <= k <= name.len(),
    ensures
        chunk_scan(exts, a + name.take(k)).chunks == chunk_scan(exts, a).chunks,
        chunk_scan(exts, a + name.take(k)).current == chunk_scan(exts, a).current + name.take(k),
        chunk_scan(exts, a + name.take(k)).mode is Token,
        chunk_scan(exts, a + name.take(k)).depth == 0,
    decreases k,
{
    let st0 = chunk_scan(exts, a);
    let c = name[k - 1];
    assert(a + name.take(k) =~= (a + name.take(k - 1)).push(c));
    lemma_scan_push(exts, a + name.take(k - 1), c);
    assert(is_plain(name[k - 1]));
    if k == 1 {
        assert(a + name.take(0) =~= a);
        assert(st0.current.push(c) =~= st0.current + name.take(1));
    } else {
        lemma_scan_name(exts, a, name, k - 1);
        let st = chunk_scan(exts, a + name.take(k - 1));
        let current = st.current.push(c);
        assert(current =~= st0.current + name.take(k));
        assert(current.drop_last() =~= st0.current + name.take(k - 1));
        lemma_ends_with_padded(exts, st0.current, name.take(k - 1));
        if c == ' ' || c == '\n' {
            assert(name[k - 1] == c);
            assert(!ends_with_any(name.take(k - 1), exts));
        }
        assert(!ends_with_any_then(current, exts, ' '));
        assert(!ends_with_any_then(current, exts, '\n'));
    }
}

/// Between two expressions, the scan reads the start of a closed bracket
/// into its buffer and counts the open brackets.
proof fn lemma_scan_bracket_start(exts: Seq<Seq<char>>, a: Seq<char>, t: Seq<char>, k: int)
    requires
        is_closed(t),
        chunk_scan(exts, a).mode is Idle,
        chunk_scan(exts, a).depth == 0,
        1 <= k < t.len(),
    ensures
        chunk_scan(exts, a + t.take(k)).chunks == chunk_scan(exts, a).chunks,
        chunk_scan(exts, a + t.take(k)).current == chunk_scan(exts, a).current + t.take(k),
        chunk_scan(exts, a + t.take(k)).mode is Bracket,
        chunk_scan(exts, a + t.take(k)).depth == net(t.take(k)),
    decreases k,
{
    let st0 = chunk_scan(exts, a);
    let c = t[k - 1];
    assert(a + t.take(k) =~= (a + t.take(k - 1)).push(c));
    lemma_scan_push(exts, a + t.take(k - 1), c);
    assert(t.take(k).drop_last() =~= t.take(k - 1));
    assert(net(t.take(k)) >= 1);
    if k == 1 {
        assert(a + t.take(0) =~= a);
        assert(st0.current.push(c) =~= st0.current + t.take(1));
        assert(net(t.take(0)) == 0);
    } else {
        lemma_scan_bracket_start(exts, a, t, k - 1);
        let st = chunk_scan(exts, a + t.take(k - 1));
        assert(st.current.push(c) =~= st0.current + t.take(k));
    }
}

/// Between two expressions, the scan reads a closed bracket as one chunk.
proof fn lemma_scan_bracket(exts: Seq<Seq<char>>, a: Seq<char>, t: Seq<char>)
    requires
        is_closed(t),
        chunk_scan(exts, a).mode is Idle,
        chunk_scan(exts, a).depth == 0,
    ensures
        chunk_scan(exts, a + t).chunks == emit(
            chunk_scan(exts, a).chunks,
            chunk_scan(exts, a).current + t,
        ),
        chunk_scan(exts, a + t).current.len() == 0,
        chunk_scan(exts, a + t).mode is Idle,
        chunk_scan(exts, a + t).depth == 0,
{
    let st0 = chunk_scan(exts, a);
    let k = t.len() as int;
    let c = t[k - 1];
    assert(t.take(k) =~= t);
    assert(a + t =~= (a + t.take(k - 1)).push(c));
    lemma_scan_push(exts, a + t.take(k - 1), c);
    lemma_scan_bracket_start(exts, a, t, k - 1);
    assert(t.drop_last() =~= t.take(k - 1));
    let st = chunk_scan(exts, a + t.take(k - 1));
    assert(st.current.push(c) =~= st0.current + t);
}

// ---------------------------------------------------------------------------
// The shape of a canonical text
// ---------------------------------------------------------------------------

/// A list of texts none of which is empty joins to a text that starts as the
/// first starts and ends as the last ends.
pub proof fn lemma_join_ends(parts: Seq<Seq<char>>, sep: char)
    requires
        parts.len() >= 1,
        forall|i: int| 0 <= i < parts.len() ==> (#[trigger] parts[i]).len() > 0,
    ensures
        join_with(parts, sep).len() > 0,
        join_with(parts, sep)[0] == parts[0][0],
        join_with(parts, sep).last() == parts.last().last(),
    decreases parts.len(),
{
    if parts.len() > 1 {
        lemma_join_ends(parts.drop_last(), sep);
    }
}

/// Balanced texts join to a balanced text.
proof fn lemma_join_balanced(parts: Seq<Seq<char>>, sep: char)
    requires
        is_separator(sep),
        forall|i: int| 0 <= i < parts.len() ==> is_balanced(#[trigger] parts[i]),
    ensures
        is_balanced(join_with(parts, sep)),
    decreases parts.len(),
{
    if parts.len() == 0 {
        lemma_net_plain(Seq::<char>::empty());
    } else if parts.len() == 1 {
    } else {
        lemma_join_balanced(parts.drop_last(), sep);
        lemma_net_plain(seq![sep]);
        lemma_balanced_concat(join_with(parts.drop_last(), sep), seq![sep]);
        lemma_balanced_concat(join_with(parts.drop_last(), sep) + seq![sep], parts.last());
    }
}

/// A text holds `/` only where one of its two parts does.
proof fn lemma_contains_concat(a: Seq<char>, b: Seq<char>, c: char)
    ensures
        (a + b).contains(c) == (a.contains(c) || b.contains(c)),
{
    if (a + b).contains(c) {
        let i = choose|i: int| 0 <= i < (a + b).len() && (a + b)[i] == c;
        if i < a.len() {
            assert(a[i] == c);
        } else {
            assert(b[i - a.len()] == c);
        }
    }
    if a.contains(c) {
        let i = choose|i: int| 0 <= i < a.len() && a[i] == c;
        assert((a + b)[i] == c);
    }
    if b.contains(c) {
        let i = choose|i: int| 0 <= i < b.len() && b[i] == c;
        assert((a + b)[a.len() + i] == c);
    }
}

/// What holds of the canonical text of a canonical expression: it is not
/// empty, has no white space at its ends and is balanced; unless the
/// expression is a name, the text is one closed bracket.
pub open spec fn has_text_shape(e: ExpressionView) -> bool {
    &&& text_of(e).len() > 0
    &&& !is_whitespace(text_of(e)[0])
    &&& !is_whitespace(text_of(e).last())
    &&& is_balanced(text_of(e))
    &&& !(e is Atomic) ==> is_closed(text_of(e))
    &&& e is Atomic ==> text_of(e)[0] != '['
}

/// The canonical text of a canonical expression has its shape.
pub proof fn lemma_text_shape(exts: Seq<Seq<char>>, e: ExpressionView)
    requires
        is_canonical(exts, e),
    ensures
        has_text_shape(e),
    decreases e,
{
    match e {
        ExpressionView::Atomic(name) => {
            assert forall|i: int| 0 <= i < name.len() implies is_no_bracket(
                #[trigger] name[i],
            ) by {
                assert(is_plain(name[i]));
            }
            lemma_net_plain(name);
            assert(is_plain(name[0]));
        },
        ExpressionView::All(xs) => {
            lemma_text_of_list(xs);
            lemma_is_canonical_list(exts, xs);
            assert forall|i: int| #![trigger xs[i]] 0 <= i < xs.len() implies has_text_shape(
                xs[i],
            ) by {
                lemma_text_shape(exts, xs[i]);
            }
            lemma_list_shape(xs);
            lemma_operator_shape(keyword_all(), join_spaced(texts_of(xs)));
        },
        ExpressionView::Any(xs) => {
            lemma_text_of_list(xs);
            lemma_is_canonical_list(exts, xs);
            assert forall|i: int| #![trigger xs[i]] 0 <= i < xs.len() implies has_text_shape(
                xs[i],
            ) by {
                lemma_text_shape(exts, xs[i]);
            }
            lemma_list_shape(xs);
            lemma_operator_shape(keyword_any(), join_spaced(texts_of(xs)));
        },
        ExpressionView::Not(x) => {
            lemma_text_shape(exts, *x);
            lemma_operator_shape(keyword_not(), text_of(*x));
        },
        ExpressionView::Desc(x, pattern, negated) => {
            lemma_text_shape(exts, *x);
            lemma_desc_body_shape(pattern, negated, text_of(*x));
            lemma_operator_shape(keyword_desc(), desc_body(pattern, negated, text_of(*x)));
        },
    }
}

/// Texts that have their shape join to a balanced text that does not start
/// with white space.
proof fn lemma_list_shape(xs: Seq<ExpressionView>)
    requires
        xs.len() >= 1,
        forall|i: int| #![trigger xs[i]] 0 <= i < xs.len() ==> has_text_shape(xs[i]),
    ensures
        is_balanced(join_spaced(texts_of(xs))),
        join_spaced(texts_of(xs)).len() > 0,
        !is_whitespace(join_spaced(texts_of(xs))[0]),
        !is_whitespace(join_spaced(texts_of(xs)).last()),
{
    let parts = texts_of(xs);
    assert forall|i: int| 0 <= i < parts.len() implies is_balanced(#[trigger] parts[i]) by {
        assert(has_text_shape(xs[i]));
    }
    assert forall|i: int| 0 <= i < parts.len() implies (#[trigger] parts[i]).len() > 0 by {
        assert(has_text_shape(xs[i]));
    }
    lemma_join_balanced(parts, ' ');
    lemma_join_ends(parts, ' ');
    assert(has_text_shape(xs[0]));
    assert(has_text_shape(xs[xs.len() - 1]));
}

/// An operator in front of a balanced body that does not start with white
/// space makes one closed bracket.
proof fn lemma_operator_shape(keyword: Seq<char>, body: Seq<char>)
    requires
        forall|i: int| 0 <= i < keyword.len() ==> is_no_bracket(#[trigger] keyword[i]),
        is_balanced(body),
    ensures
        operator_text(keyword, body).len() > 0,
        operator_text(keyword, body)[0] == '[',
        operator_text(keyword, body).last() == ']',
        is_closed(operator_text(keyword, body)),
        is_balanced(operator_text(keyword, body)),
{
    lemma_operator_text_is_closed(keyword, body);
    lemma_closed_is_balanced(operator_text(keyword, body));
}

/// The body of a `DESC` expression with a canonical pattern and a balanced
/// expression is balanced and starts with `!` or `/`.
proof fn lemma_desc_body_shape(pattern: Seq<char>, negated: bool, child: Seq<char>)
    requires
        is_canonical_pattern(pattern),
        is_balanced(child),
        child.len() > 0,
    ensures
        is_balanced(desc_body(pattern, negated, child)),
        desc_body(pattern, negated, child).len() > 0,
        desc_body(pattern, negated, child)[0] == (if negated {
            '!'
        } else {
            '/'
        }),
        desc_body(pattern, negated, child).last() == child.last(),
{
    let mark = if negated {
        seq!['!']
    } else {
        Seq::<char>::empty()
    };
    lemma_net_plain(mark);
    lemma_net_plain(seq!['/']);
    assert forall|i: int| 0 <= i < pattern.len() implies is_no_bracket(#[trigger] pattern[i]) by {
        assert(is_plain(pattern[i]));
    }
    lemma_net_plain(pattern);
    lemma_net_plain(seq!['/', ' ']);
    lemma_balanced_concat(mark, seq!['/']);
    lemma_balanced_concat(mark + seq!['/'], pattern);
    lemma_balanced_concat(mark + seq!['/'] + pattern, seq!['/', ' ']);
    lemma_balanced_concat(mark + seq!['/'] + pattern + seq!['/', ' '], child);
}

// ---------------------------------------------------------------------------
// The scan over a list of expressions
// ---------------------------------------------------------------------------

/// What the scan has made of the first `k` of the texts, with the separator
/// between each two: the texts before the last are chunks; the last one is a
/// chunk too if it is a bracket, and stands in the buffer if it is a name.
spec fn is_scanned(exts: Seq<Seq<char>>, xs: Seq<ExpressionView>, sep: char, k: int) -> bool {
    let parts = texts_of(xs);
    let st = chunk_scan(exts, join_with(parts.take(k), sep));
    &&& st.depth == 0
    &&& xs[k - 1] is Atomic ==> {
        &&& st.mode is Token
        &&& st.chunks == parts.take(k - 1)
        &&& (st.current == parts[k - 1] || st.current == seq![sep] + parts[k - 1])
    }
    &&& !(xs[k - 1] is Atomic) ==> {
        &&& st.mode is Idle
        &&& st.chunks == parts.take(k)
        &&& st.current.len() == 0
    }
}

#[verifier::rlimit(40)]
proof fn lemma_scan_join(exts: Seq<Seq<char>>, xs: Seq<ExpressionView>, sep: char, k: int)
    requires
        extensions_are_plain(exts),
        is_separator(sep),
        forall|i: int| #![trigger xs[i]] 0 <= i < xs.len() ==> is_canonical(exts, xs[i]),
        1 <= k <= xs.len(),
    ensures
        is_scanned(exts, xs, sep, k),
    decreases k,
{
    let parts = texts_of(xs);
    let t = parts[k - 1];
    assert(t == text_of(xs[k - 1]));
    assert(is_canonical(exts, xs[k - 1]));
    lemma_text_shape(exts, xs[k - 1]);
    let empty = Seq::<char>::empty();
    if k == 1 {
        assert(parts.take(1).len() == 1);
        assert(join_with(parts.take(1), sep) == t);
        assert(empty + t =~= t);
        let st0 = chunk_scan(exts, empty);
        assert(st0.current =~= empty);
        if xs[0] is Atomic {
            lemma_scan_name(exts, empty, t, t.len() as int);
            assert(t.take(t.len() as int) =~= t);
            assert(parts.take(0) =~= st0.chunks);
        } else {
            lemma_scan_bracket(exts, empty, t);
            lemma_trim_padded(empty, t);
            assert(st0.chunks.push(t) =~= parts.take(1));
        }
    } else {
        lemma_scan_join(exts, xs, sep, k - 1);
        let j0 = join_with(parts.take(k - 1), sep);
        let st0 = chunk_scan(exts, j0);
        assert(parts.take(k).drop_last() =~= parts.take(k - 1));
        assert(parts.take(k).last() == t);
        assert(join_with(parts.take(k), sep) == j0 + seq![sep] + t);
        let a = j0.push(sep);
        assert(a =~= j0 + seq![sep]);
        lemma_scan_push(exts, j0, sep);
        let sta = chunk_scan(exts, a);
        let prev = parts[k - 2];
        assert(prev == text_of(xs[k - 2]));
        assert(is_canonical(exts, xs[k - 2]));
        lemma_text_shape(exts, xs[k - 2]);
        if xs[k - 2] is Atomic {
            let pad = if st0.current == prev {
                empty
            } else {
                seq![sep]
            };
            assert(st0.current =~= pad + prev);
            let cur = st0.current.push(sep);
            assert(cur.drop_last() =~= st0.current);
            lemma_ends_with_padded(exts, pad, prev);
            assert(ends_with_any_then(cur, exts, sep));
            lemma_trim_padded(pad, prev);
            assert(st0.chunks.push(prev) =~= parts.take(k - 1));
            assert(sta.chunks == parts.take(k - 1));
            assert(sta.current =~= empty);
        } else {
            assert(sta.current =~= seq![sep]);
        }
        assert(sta.mode is Idle);
        assert(is_pad(sta.current));
        if xs[k - 1] is Atomic {
            lemma_scan_name(exts, a, t, t.len() as int);
            assert(t.take(t.len() as int) =~= t);
            if sta.current.len() == 0 {
                assert(sta.current + t =~= t);
            }
        } else {
            lemma_scan_bracket(exts, a, t);
            lemma_trim_padded(sta.current, t);
            assert(sta.chunks.push(t) =~= parts.take(k));
        }
    }
}

/// The chunks of the canonical texts of canonical expressions, joined with
/// a separator between each two, are those texts.
pub proof fn lemma_chunks_of_join(exts: Seq<Seq<char>>, xs: Seq<ExpressionView>, sep: char)
    requires
        extensions_are_plain(exts),
        is_separator(sep),
        xs.len() >= 1,
        forall|i: int| #![trigger xs[i]] 0 <= i < xs.len() ==> is_canonical(exts, xs[i]),
    ensures
        expression_chunks(exts, join_with(texts_of(xs), sep)) == texts_of(xs),
{
    let parts = texts_of(xs);
    let n = xs.len() as int;
    lemma_scan_join(exts, xs, sep, n);
    assert(parts.take(n) =~= parts);
    let st = chunk_scan(exts, join_with(parts, sep));
    assert(is_canonical(exts, xs[n - 1]));
    lemma_text_shape(exts, xs[n - 1]);
    let t = parts[n - 1];
    assert(t == text_of(xs[n - 1]));
    if xs[n - 1] is Atomic {
        let pad = if st.current == t {
            Seq::<char>::empty()
        } else {
            seq![sep]
        };
        assert(st.current =~= pad + t);
        lemma_trim_padded(pad, t);
        assert(parts.take(n - 1).push(t) =~= parts);
    } else {
        assert(st.current =~= Seq::<char>::empty());
        assert(trim(Seq::<char>::empty()).len() == 0);
    }
}

// ---------------------------------------------------------------------------
// Operators
// ---------------------------------------------------------------------------

/// A bracketed text has its operator and its body.
proof fn lemma_operator_parts(keyword: Seq<char>, body: Seq<char>)
    requires
        body.len() > 0,
        !is_whitespace(body[0]),
    ensures
        operator_text(keyword, body)[0] == '[',
        has_operator(operator_text(keyword, body), keyword),
        operator_body(operator_text(keyword, body), keyword) == body,
{
    let s = operator_text(keyword, body);
    assert(s.skip(1).subrange(0, keyword.len() as int) =~= keyword);
    let inner = s.subrange(1 + keyword.len() as int, s.len() - 1);
    assert(inner =~= seq![' '] + body);
    assert(inner.drop_first() =~= body);
    assert(is_whitespace(' '));
    assert(trim_start(body) == body);
    assert(trim_start(inner) == trim_start(inner.drop_first()));
}

/// A bracketed text does not have an operator that differs from its own in
/// some letter.
proof fn lemma_other_operator(other: Seq<char>, keyword: Seq<char>, body: Seq<char>, j: int)
    requires
        0 <= j < other.len(),
        j < keyword.len(),
        lower_char(keyword[j]) != lower_char(other[j]),
    ensures
        !has_operator(operator_text(keyword, body), other),
{
    let s = operator_text(keyword, body);
    if s.len() >= other.len() + 2 {
        let head = s.skip(1).subrange(0, other.len() as int);
        assert(head[j] == keyword[j]);
        assert(lower_text(head)[j] != lower_text(other)[j]);
    }
}

// ---------------------------------------------------------------------------
// Parsing the canonical text
// ---------------------------------------------------------------------------

/// Chunks that parse to the expressions of a list, one by one, parse to the
/// list.
proof fn lemma_parse_list(exts: Seq<Seq<char>>, xs: Seq<ExpressionView>, bound: nat)
    requires
        forall|i: int| 0 <= i < xs.len() ==> (#[trigger] texts_of(xs)[i]).len() <= bound,
        forall|i: int|
            #![trigger xs[i]]
            0 <= i < xs.len() ==> parse_expression_spec(exts, text_of(xs[i])) == Ok::<
                ExpressionView,
                ParseError,
            >(xs[i]),
    ensures
        parse_list_spec(exts, texts_of(xs), bound) == Ok::<Seq<ExpressionView>, ParseError>(xs),
    decreases xs.len(),
{
    let parts = texts_of(xs);
    if xs.len() == 0 {
        assert(xs =~= Seq::<ExpressionView>::empty());
    } else {
        let front = xs.drop_last();
        assert(texts_of(front) =~= parts.drop_last());
        assert forall|i: int| 0 <= i < front.len() implies (#[trigger] texts_of(front)[i]).len()
            <= bound by {
            assert(texts_of(front)[i] == parts[i]);
        }
        assert forall|i: int| #![trigger front[i]] 0 <= i < front.len() implies parse_expression_spec(
            exts,
            text_of(front[i]),
        ) == Ok::<ExpressionView, ParseError>(front[i]) by {
            assert(front[i] == xs[i]);
        }
        lemma_parse_list(exts, front, bound);
        assert(parts.last() == text_of(xs[xs.len() - 1]));
        assert(front.push(xs.last()) =~= xs);
    }
}

/// A text that is the join of canonical texts which parse back parses to the
/// list of their expressions.
pub proof fn lemma_parse_join(exts: Seq<Seq<char>>, xs: Seq<ExpressionView>, sep: char)
    requires
        extensions_are_plain(exts),
        is_separator(sep),
        xs.len() >= 1,
        forall|i: int| #![trigger xs[i]] 0 <= i < xs.len() ==> is_canonical(exts, xs[i]),
        forall|i: int|
            #![trigger xs[i]]
            0 <= i < xs.len() ==> parse_expression_spec(exts, text_of(xs[i])) == Ok::<
                ExpressionView,
                ParseError,
            >(xs[i]),
    ensures
        parse_expressions_spec(exts, join_with(texts_of(xs), sep)) == Ok::<
            Seq<ExpressionView>,
            ParseError,
        >(xs),
{
    let text = join_with(texts_of(xs), sep);
    lemma_chunks_of_join(exts, xs, sep);
    lemma_expression_chunks_len(exts, text);
    lemma_parse_list(exts, xs, text.len());
}

/// The text of a canonical `ALL` node whose children parse back parses
/// back.
proof fn lemma_parse_all(exts: Seq<Seq<char>>, xs: Seq<ExpressionView>)
    requires
        extensions_are_plain(exts),
        xs.len() >= 1,
        forall|i: int| #![trigger xs[i]] 0 <= i < xs.len() ==> is_canonical(exts, xs[i]),
        forall|i: int|
            #![trigger xs[i]]
            0 <= i < xs.len() ==> parse_expression_spec(exts, text_of(xs[i])) == Ok::<
                ExpressionView,
                ParseError,
            >(xs[i]),
    ensures
        parse_expression_spec(exts, text_of(ExpressionView::All(xs))) == Ok::<
            ExpressionView,
            ParseError,
        >(ExpressionView::All(xs)),
{
    lemma_text_of_list(xs);
    assert forall|i: int| #![trigger xs[i]] 0 <= i < xs.len() implies has_text_shape(xs[i]) by {
        lemma_text_shape(exts, xs[i]);
    }
    lemma_list_shape(xs);
    let body = join_spaced(texts_of(xs));
    lemma_parse_join(exts, xs, ' ');
    lemma_operator_parts(keyword_all(), body);
    lemma_other_operator(keyword_any(), keyword_all(), body, 1);
}

/// The text of a canonical `ANY` node whose children parse back parses
/// back.
proof fn lemma_parse_any(exts: Seq<Seq<char>>, xs: Seq<ExpressionView>)
    requires
        extensions_are_plain(exts),
        xs.len() >= 1,
        forall|i: int| #![trigger xs[i]] 0 <= i < xs.len() ==> is_canonical(exts, xs[i]),
        forall|i: int|
            #![trigger xs[i]]
            0 <= i < xs.len() ==> parse_expression_spec(exts, text_of(xs[i])) == Ok::<
                ExpressionView,
                ParseError,
            >(xs[i]),
    ensures
        parse_expression_spec(exts, text_of(ExpressionView::Any(xs))) == Ok::<
            ExpressionView,
            ParseError,
        >(ExpressionView::Any(xs)),
{
    lemma_text_of_list(xs);
    assert forall|i: int| #![trigger xs[i]] 0 <= i < xs.len() implies has_text_shape(xs[i]) by {
        lemma_text_shape(exts, xs[i]);
    }
    lemma_list_shape(xs);
    let body = join_spaced(texts_of(xs));
    lemma_parse_join(exts, xs, ' ');
    lemma_operator_parts(keyword_any(), body);
}

/// The text of a `NOT` node whose child is canonical and parses back parses
/// back.
proof fn lemma_parse_not(exts: Seq<Seq<char>>, x: ExpressionView)
    requires
        extensions_are_plain(exts),
        is_canonical(exts, x),
        parse_expression_spec(exts, text_of(x)) == Ok::<ExpressionView, ParseError>(x),
    ensures
        parse_expression_spec(exts, text_of(ExpressionView::Not(Box::new(x)))) == Ok::<
            ExpressionView,
            ParseError,
        >(ExpressionView::Not(Box::new(x))),
{
    lemma_text_shape(exts, x);
    lemma_parse_single(exts, x);
    let body = text_of(x);
    lemma_operator_parts(keyword_not(), body);
    lemma_other_operator(keyword_any(), keyword_not(), body, 0);
    lemma_other_operator(keyword_all(), keyword_not(), body, 0);
    assert(seq![x].last() == x);
}

/// The text of a canonical `DESC` node whose child parses back parses back.
#[verifier::rlimit(40)]
proof fn lemma_parse_desc(exts: Seq<Seq<char>>, x: ExpressionView, pattern: Seq<char>, negated: bool)
    requires
        extensions_are_plain(exts),
        is_canonical(exts, x),
        is_canonical_pattern(pattern),
        !text_of(x).contains('/'),
        parse_expression_spec(exts, text_of(x)) == Ok::<ExpressionView, ParseError>(x),
    ensures
        parse_expression_spec(
            exts,
            text_of(ExpressionView::Desc(Box::new(x), pattern, negated)),
        ) == Ok::<ExpressionView, ParseError>(ExpressionView::Desc(Box::new(x), pattern, negated)),
{
    lemma_text_shape(exts, x);
    lemma_parse_single(exts, x);
    let child = text_of(x);
    let body = desc_body(pattern, negated, child);
    lemma_desc_body_shape(pattern, negated, child);
    lemma_desc_parts_of_body(pattern, negated, child);
    lemma_operator_parts(keyword_desc(), body);
    lemma_other_operator(keyword_any(), keyword_desc(), body, 0);
    lemma_other_operator(keyword_all(), keyword_desc(), body, 0);
    lemma_other_operator(keyword_not(), keyword_desc(), body, 0);
    assert(seq![x].last() == x);
}

/// Parsing is the inverse of writing: the canonical text of a canonical
/// expression parses to that expression.
pub proof fn lemma_parse_of_text(exts: Seq<Seq<char>>, e: ExpressionView)
    requires
        extensions_are_plain(exts),
        is_canonical(exts, e),
    ensures
        parse_expression_spec(exts, text_of(e)) == Ok::<ExpressionView, ParseError>(e),
    decreases e,
{
    match e {
        ExpressionView::Atomic(name) => {
            assert(is_plain(name[0]));
        },
        ExpressionView::All(xs) => {
            lemma_is_canonical_list(exts, xs);
            assert forall|i: int| #![trigger xs[i]] 0 <= i < xs.len() implies parse_expression_spec(
                exts,
                text_of(xs[i]),
            ) == Ok::<ExpressionView, ParseError>(xs[i]) by {
                lemma_parse_of_text(exts, xs[i]);
            }
            lemma_parse_all(exts, xs);
        },
        ExpressionView::Any(xs) => {
            lemma_is_canonical_list(exts, xs);
            assert forall|i: int| #![trigger xs[i]] 0 <= i < xs.len() implies parse_expression_spec(
                exts,
                text_of(xs[i]),
            ) == Ok::<ExpressionView, ParseError>(xs[i]) by {
                lemma_parse_of_text(exts, xs[i]);
            }
            lemma_parse_any(exts, xs);
        },
        ExpressionView::Not(x) => {
            lemma_parse_of_text(exts, *x);
            lemma_parse_not(exts, *x);
        },
        ExpressionView::Desc(x, pattern, negated) => {
            lemma_parse_of_text(exts, *x);
            lemma_parse_desc(exts, *x, pattern, negated);
        },
    }
}

/// The canonical text of one canonical expression that parses back parses,
/// as a text of expressions, to that one expression.
proof fn lemma_parse_single(exts: Seq<Seq<char>>, x: ExpressionView)
    requires
        extensions_are_plain(exts),
        is_canonical(exts, x),
        parse_expression_spec(exts, text_of(x)) == Ok::<ExpressionView, ParseError>(x),
    ensures
        parse_expressions_spec(exts, text_of(x)) == Ok::<Seq<ExpressionView>, ParseError>(seq![x]),
{
    let xs = seq![x];
    assert(texts_of(xs)[0] == text_of(x));
    assert(join_with(texts_of(xs), ' ') == text_of(x));
    lemma_parse_join(exts, xs, ' ');
}

/// The body of a canonical `DESC` expression splits into its parts.
#[verifier::rlimit(40)]
proof fn lemma_desc_parts_of_body(pattern: Seq<char>, negated: bool, child: Seq<char>)
    requires
        is_canonical_pattern(pattern),
        child.len() > 0,
        !is_whitespace(child[0]),
        !is_whitespace(child.last()),
        !child.contains('/'),
    ensures
        desc_parts(desc_body(pattern, negated, child)) == Some((pattern, negated, child)),
{
    let body = desc_body(pattern, negated, child);
    let a: int = if negated {
        1
    } else {
        0
    };
    let b = a + 1 + pattern.len();
    assert(body.len() == b + 2 + child.len());
    assert(body[a] == '/');
    assert(body[b] == '/');
    assert forall|k: int| 0 <= k < body.len() && k != a && k != b implies body[k] != '/' by {
        if k < a {
            assert(body[k] == '!');
        } else if k < b {
            assert(body[k] == pattern[k - a - 1]);
            assert(is_plain(pattern[k - a - 1]));
        } else if k == b + 1 {
            assert(body[k] == ' ');
        } else {
            assert(body[k] == child[k - b - 2]);
        }
    }
    assert(is_first_index(body, '/', a));
    assert(is_last_index(body, '/', b));
    assert(is_first_index(body, '/', first_index(body, '/')));
    assert(is_last_index(body, '/', last_index(body, '/')));
    assert(first_index(body, '/') == a);
    assert(last_index(body, '/') == b);
    assert(body.subrange(a + 1, b) =~= pattern);
    assert(body.subrange(b + 1, body.len() as int) =~= seq![' '] + child);
    lemma_trim_padded(seq![' '], child);
    if pattern.len() > 0 {
        lemma_trim_padded(Seq::<char>::empty(), pattern);
        assert(Seq::<char>::empty() + pattern =~= pattern);
    } else {
        assert(trim(pattern) =~= pattern);
    }
    if negated {
        assert(body[a - 1] == '!');
    }
}

} // verus!
