//! Parsing rules documents: from a document to its chunks, and from a chunk
//! to the rule that it stands for.

use byteorder::ReadBytesExt;
use vstd::prelude::*;
use vstd::utf8::{encode_scalar, encode_utf8};
use crate::document::{
    body_lines, chunk_rules, ChunkView, concat_lines, continuation_count, cut_comment,
    document_chunks, document_rules, document_scan, documents_rules, is_comment_line, join_lines,
    keyword_conflict, keyword_nearend, keyword_nearstart, keyword_note, keyword_order,
    keyword_patch, keyword_requires, new_rule, order_rules_of, parse_chunk_spec, rule_kind,
    RuleKind, warning_rules_of,
};
use crate::parser::{
    chars_to_strings, ESupportedGame, game_extensions, get_parser, lemma_head_end, ParseError,
    Parser, rule_head_chars,
};
use crate::rules::{
    order_rule_views, rule_views, warning_rule_views, Conflict, EOrderRule, EOrderRuleView, ERule,
    ERuleView, EWarningRule, EWarningRuleView, NearEnd, NearStart, Note, Order, Patch, Requires,
    TParser,
};
use crate::seqs::lemma_first_index;
use crate::text::{
    find_char, from_chars, is_blank, lemma_push_deep_view, lemma_take_step, lines_of,
    skip_whitespace, split_lines, starts_with_chars_ignoring_case, subvec, texts, to_chars,
    to_lower_chars, trim_chars,
};

verus! {

// ---------------------------------------------------------------------------
// The first byte of a chunk
// ---------------------------------------------------------------------------

/// `byteorder::ReadBytesExt::read_u8` on a byte slice: the first byte, or
/// nothing where the slice is empty (it reads exactly one byte and fails
/// where there is none).
#[verifier::external_body]
fn read_first_byte(data: &[u8]) -> (r: Option<u8>)
    ensures
        r == (if data@.len() > 0 {
            Some(data@[0])
        } else {
            None::<u8>
        }),
{
    let mut reader: &[u8] = data;
    reader.read_u8().ok()
}

/// The first byte of a text in UTF-8 is `[` exactly where its first
/// character is.
proof fn lemma_first_byte(s: Seq<char>)
    ensures
        s.len() == 0 ==> encode_utf8(s).len() == 0,
        s.len() > 0 ==> encode_utf8(s).len() > 0 && ((encode_utf8(s)[0] == 0x5b) <==> s[0] == '['),
{
    if s.len() > 0 {
        let c = s[0] as u32;
        vstd::utf8::char_is_scalar(s[0]);
        vstd::utf8::char_u32_cast(s[0], c);
        vstd::utf8::char_u32_cast('[', 0x5b);
        let first = encode_scalar(c);
        assert(encode_utf8(s) == first + encode_utf8(s.drop_first()));
        assert(first.len() > 0);
        assert(encode_utf8(s)[0] == first[0]);
        assert(c <= 0x7f ==> (((c & 0x7f) as u8 == 0x5b) <==> c == 0x5b)) by (bit_vector);
        assert((0xc0u8 | ((c >> 6) & 0x1f) as u8) != 0x5b) by (bit_vector);
        assert((0xe0u8 | ((c >> 12) & 0x0f) as u8) != 0x5b) by (bit_vector);
        assert((0xf0u8 | ((c >> 18) & 0x7) as u8) != 0x5b) by (bit_vector);
        assert((c == 0x5b) <==> s[0] == '[');
    }
}

// ---------------------------------------------------------------------------
// The parts of a chunk
// ---------------------------------------------------------------------------

/// The kind that the head of a rule names, and what follows the name.
fn rule_kind_chars(head: &Vec<char>) -> (r: Option<(RuleKind, Vec<char>)>)
    ensures
        match r {
            Some((kind, rest)) => rule_kind(head@) == Some((kind, rest@)),
            None => rule_kind(head@) is None,
        },
{
    let kw_order: Vec<char> = vec!['o', 'r', 'd', 'e', 'r'];
    let kw_nearstart: Vec<char> = vec!['n', 'e', 'a', 'r', 's', 't', 'a', 'r', 't'];
    let kw_nearend: Vec<char> = vec!['n', 'e', 'a', 'r', 'e', 'n', 'd'];
    let kw_note: Vec<char> = vec!['n', 'o', 't', 'e'];
    let kw_conflict: Vec<char> = vec!['c', 'o', 'n', 'f', 'l', 'i', 'c', 't'];
    let kw_requires: Vec<char> = vec!['r', 'e', 'q', 'u', 'i', 'r', 'e', 's'];
    let kw_patch: Vec<char> = vec!['p', 'a', 't', 'c', 'h'];
    proof {
        assert(kw_order@ =~= keyword_order());
        assert(kw_nearstart@ =~= keyword_nearstart());
        assert(kw_nearend@ =~= keyword_nearend());
        assert(kw_note@ =~= keyword_note());
        assert(kw_conflict@ =~= keyword_conflict());
        assert(kw_requires@ =~= keyword_requires());
        assert(kw_patch@ =~= keyword_patch());
    }
    let (kind, n) = if starts_with_chars_ignoring_case(head, &kw_order) {
        (RuleKind::Order, kw_order.len())
    } else if starts_with_chars_ignoring_case(head, &kw_nearstart) {
        (RuleKind::NearStart, kw_nearstart.len())
    } else if starts_with_chars_ignoring_case(head, &kw_nearend) {
        (RuleKind::NearEnd, kw_nearend.len())
    } else if starts_with_chars_ignoring_case(head, &kw_note) {
        (RuleKind::Note, kw_note.len())
    } else if starts_with_chars_ignoring_case(head, &kw_conflict) {
        (RuleKind::Conflict, kw_conflict.len())
    } else if starts_with_chars_ignoring_case(head, &kw_requires) {
        (RuleKind::Requires, kw_requires.len())
    } else if starts_with_chars_ignoring_case(head, &kw_patch) {
        (RuleKind::Patch, kw_patch.len())
    } else {
        return None;
    };
    let rest = subvec(head, n, head.len());
    assert(rest@ =~= head@.skip(n as int));
    Some((kind, rest))
}

/// The line up to its first `;`.
fn cut_comment_chars(line: &Vec<char>) -> (r: Vec<char>)
    ensures
        r@ == cut_comment(line@),
{
    match find_char(line, ';') {
        Some(k) => {
            proof {
                assert(line@.contains(';'));
                lemma_first_index(line@, ';');
                assert(line@.subrange(0, k as int) =~= line@.take(k as int));
            }
            subvec(line, 0, k)
        },
        None => {
            assert(line@.subrange(0, line.len() as int) =~= line@);
            subvec(line, 0, line.len())
        },
    }
}

/// Whether all of the text is white space.
fn is_blank_chars(v: &Vec<char>) -> (r: bool)
    ensures
        r == is_blank(v@),
{
    trim_chars(v).len() == 0
}

/// The lines of a body that count: each without its comment, and none that
/// is blank then.
fn body_lines_chars(lines: &Vec<Vec<char>>) -> (r: Vec<Vec<char>>)
    ensures
        texts(r@) == body_lines(texts(lines@)),
{
    let ghost ls = texts(lines@);
    let mut out: Vec<Vec<char>> = Vec::new();
    let mut i: usize = 0;
    proof {
        assert(ls.take(0).len() == 0);
        assert(texts(out@) =~= body_lines(ls.take(0)));
    }
    while i < lines.len()
        invariant
            i <= lines.len(),
            ls == texts(lines@),
            texts(out@) == body_lines(ls.take(i as int)),
        decreases lines.len() - i,
    {
        proof {
            lemma_take_step(ls, i as int);
            assert(ls[i as int] == lines@[i as int]@);
        }
        let line = cut_comment_chars(&lines[i]);
        if !is_blank_chars(&line) {
            let ghost before = texts(out@);
            let ghost l = line@;
            out.push(line);
            proof {
                lemma_push_deep_view(before, texts(out@), l);
            }
        }
        i += 1;
    }
    proof {
        assert(ls.take(lines.len() as int) =~= ls);
    }
    out
}

/// How many lines at the start begin with a space or a tab.
fn continuation_count_chars(lines: &Vec<Vec<char>>) -> (r: usize)
    ensures
        r == continuation_count(texts(lines@)),
        r <= lines.len(),
{
    let ghost ls = texts(lines@);
    let mut i: usize = 0;
    proof {
        assert(ls.skip(0) =~= ls);
    }
    while i < lines.len() && lines[i].len() > 0 && (lines[i][0] == ' ' || lines[i][0] == '\t')
        invariant
            i <= lines.len(),
            ls == texts(lines@),
            continuation_count(ls) == i + continuation_count(ls.skip(i as int)),
        decreases lines.len() - i,
    {
        proof {
            assert(ls.skip(i as int)[0] == lines@[i as int]@);
            assert(ls.skip(i as int).drop_first() =~= ls.skip(i + 1));
        }
        i += 1;
    }
    proof {
        if i < lines.len() {
            assert(ls.skip(i as int)[0] == lines@[i as int]@);
        }
    }
    i
}

/// The lines `from..to`, one after the other, each followed by a line feed
/// where `feeds` is set.
pub fn gather_lines(lines: &Vec<Vec<char>>, from: usize, to: usize, feeds: bool) -> (r: Vec<char>)
    requires
        from <= to <= lines.len(),
    ensures
        feeds ==> r@ == join_lines(texts(lines@).subrange(from as int, to as int)),
        !feeds ==> r@ == concat_lines(texts(lines@).subrange(from as int, to as int)),
{
    let ghost ls = texts(lines@);
    let mut out: Vec<char> = Vec::new();
    let mut i: usize = from;
    proof {
        assert(ls.subrange(from as int, from as int).len() == 0);
    }
    while i < to
        invariant
            from <= i <= to <= lines.len(),
            ls == texts(lines@),
            feeds ==> out@ == join_lines(ls.subrange(from as int, i as int)),
            !feeds ==> out@ == concat_lines(ls.subrange(from as int, i as int)),
        decreases to - i,
    {
        proof {
            let next = ls.subrange(from as int, i + 1);
            assert(next.drop_last() =~= ls.subrange(from as int, i as int));
            assert(next.last() == lines@[i as int]@);
        }
        let ghost before = out@;
        let mut line = subvec(&lines[i], 0, lines[i].len());
        assert(line@ =~= lines@[i as int]@);
        if feeds {
            line.push('\n');
        }
        out.append(&mut line);
        i += 1;
    }
    out
}

/// A rule of the given kind that nothing was parsed into yet.
fn new_rule_of(kind: RuleKind, comment: String) -> (r: ERule)
    ensures
        r@ == new_rule(kind, comment@),
{
    match kind {
        RuleKind::Order => ERule::EOrderRule(EOrderRule::Order(Order::default())),
        RuleKind::NearStart => ERule::EOrderRule(EOrderRule::NearStart(NearStart::default())),
        RuleKind::NearEnd => ERule::EOrderRule(EOrderRule::NearEnd(NearEnd::default())),
        RuleKind::Note => {
            let mut x = Note::default();
            x.comment = comment;
            ERule::EWarningRule(EWarningRule::Note(x))
        },
        RuleKind::Conflict => {
            let mut x = Conflict::default();
            x.comment = comment;
            ERule::EWarningRule(EWarningRule::Conflict(x))
        },
        RuleKind::Requires => {
            let mut x = Requires::default();
            x.comment = comment;
            ERule::EWarningRule(EWarningRule::Requires(x))
        },
        RuleKind::Patch => {
            let mut x = Patch::default();
            x.comment = comment;
            ERule::EWarningRule(EWarningRule::Patch(x))
        },
    }
}

/// The outcome of parsing a chunk is what the grammar says.
pub open spec fn rule_matches(r: Result<ERule, ParseError>, expected: Result<ERuleView, ParseError>) -> bool {
    match r {
        Ok(rule) => expected == Ok::<ERuleView, ParseError>(rule@),
        Err(e) => expected == Err::<ERuleView, ParseError>(e),
    }
}

impl Parser {
    /// Parses the rule that a chunk of a rules document stands for.
#[verifier::rlimit(40)]
    pub fn parse_chunk(&self, chunk: &str) -> (r: Result<ERule, ParseError>)
        ensures
            rule_matches(r, parse_chunk_spec(self.ext.deep_view(), chunk@)),
    {
        proof {
            lemma_first_byte(chunk@);
        }
        match read_first_byte(chunk.as_bytes()) {
            None => {
                return Err(ParseError::UnexpectedEnd);
            },
            Some(b) => {
                if b != 0x5b {
                    return Err(ParseError::NotARuleStart);
                }
            },
        }
        let chars = to_chars(chunk);
        let k = match rule_head_chars(&chars, 1) {
            Some(k) => k,
            None => {
                return Err(ParseError::UnknownRule);
            },
        };
        proof {
            lemma_head_end(chars@.skip(1), k as int);
        }
        let head = subvec(&chars, 1, k);
        let (kind, inline) = match rule_kind_chars(&head) {
            Some(found) => found,
            None => {
                return Err(ParseError::UnknownRule);
            },
        };
        let rest = subvec(&chars, 1 + k, chars.len());
        assert(rest@ =~= chars@.skip(1 + k));
        let lines = body_lines_chars(&split_lines(&rest));
        let n = continuation_count_chars(&lines);
        proof {
            let ls = texts(lines@);
            assert(ls.subrange(0, n as int) =~= ls.take(n as int));
            assert(ls.subrange(n as int, lines.len() as int) =~= ls.skip(n as int));
        }
        let mut comment = trim_chars(&inline);
        let mut continuation = gather_lines(&lines, 0, n, false);
        comment.append(&mut continuation);
        let comment = trim_chars(&comment);
        let body = trim_chars(&gather_lines(&lines, n, lines.len(), true));
        let mut rule = new_rule_of(kind, from_chars(&comment));
        let body = from_chars(&body);
        match ERule::parse(&mut rule, body.as_str(), self) {
            Ok(_) => Ok(rule),
            Err(e) => Err(e),
        }
    }
}

// ---------------------------------------------------------------------------
// The chunks of a document
// ---------------------------------------------------------------------------

/// A chunk of a rules document: the text of one rule, in lower case, each of
/// its lines ended by a line feed, and the number of the line where it
/// starts.
#[derive(Debug)]
pub struct ChunkWrapper {
    pub data: String,
    pub info: usize,
}

impl View for ChunkWrapper {
    type V = ChunkView;

    open spec fn view(&self) -> ChunkView {
        ChunkView { data: self.data@, line: self.info as nat }
    }
}

impl ChunkWrapper {
    /// Makes the value from its parts.
    pub fn new(data: String, info: usize) -> (r: Self)
        ensures
            r@ == (ChunkView { data: data@, line: info as nat }),
    {
        Self { data, info }
    }
}

/// The views of a list of chunks.
pub open spec fn chunk_views(v: Seq<ChunkWrapper>) -> Seq<ChunkView> {
    Seq::new(v.len(), |i: int| v[i]@)
}

/// Whether the first character of the line that is not white space is `;`.
fn is_comment_line_chars(line: &Vec<char>) -> (r: bool)
    ensures
        r == is_comment_line(line@),
{
    let i = skip_whitespace(line, 0);
    proof {
        assert(line@.skip(0) =~= line@);
        if i < line.len() {
            assert(line@.skip(i as int)[0] == line@[i as int]);
        }
    }
    i < line.len() && line[i] == ';'
}

/// Splits a rules document into its chunks: the runs of lines that are
/// neither blank nor comments.
#[verifier::rlimit(40)]
pub fn split_chunks(text: &str) -> (r: Vec<ChunkWrapper>)
    ensures
        chunk_views(r@) == document_chunks(text@),
{
    let chars = to_chars(text);
    let lines = split_lines(&chars);
    let ghost ls = texts(lines@);
    let mut chunks: Vec<ChunkWrapper> = Vec::new();
    let mut open = false;
    let mut data: Vec<char> = Vec::new();
    let mut at: usize = 0;
    let mut i: usize = 0;
    proof {
        assert(ls.take(0).len() == 0);
        assert(chunk_views(chunks@) =~= document_scan(ls.take(0)).chunks);
    }
    while i < lines.len()
        invariant
            i <= lines.len(),
            ls == texts(lines@),
            chunk_views(chunks@) == document_scan(ls.take(i as int)).chunks,
            open == (document_scan(ls.take(i as int)).current is Some),
            open ==> document_scan(ls.take(i as int)).current == Some(
                ChunkView { data: data@, line: at as nat },
            ),
        decreases lines.len() - i,
    {
        proof {
            lemma_take_step(ls, i as int);
            assert(ls[i as int] == lines@[i as int]@);
            assert(ls.take(i + 1).len() - 1 == i);
        }
        if !is_comment_line_chars(&lines[i]) {
            let mut lower = to_lower_chars(&lines[i]);
            if is_blank_chars(&lower) {
                if open {
                    let ghost before = chunk_views(chunks@);
                    let chunk = ChunkWrapper::new(from_chars(&data), at);
                    let ghost cv = chunk@;
                    chunks.push(chunk);
                    proof {
                        assert(chunk_views(chunks@) =~= before.push(cv));
                    }
                    open = false;
                    data = Vec::new();
                }
            } else {
                lower.push('\n');
                if open {
                    data.append(&mut lower);
                } else {
                    open = true;
                    data = lower;
                    at = i + 1;
                }
            }
        }
        i += 1;
    }
    proof {
        assert(ls.take(lines.len() as int) =~= ls);
    }
    if open {
        let ghost before = chunk_views(chunks@);
        let chunk = ChunkWrapper::new(from_chars(&data), at);
        let ghost cv = chunk@;
        chunks.push(chunk);
        proof {
            assert(chunk_views(chunks@) =~= before.push(cv));
        }
    }
    chunks
}

impl Parser {
    /// Parses the rules of a rules document. A chunk that does not parse is
    /// passed over: a malformed rule does not fail the document.
    pub fn parse_rules_from_reader(&self, text: &str) -> (r: Vec<ERule>)
        ensures
            rule_views(r@) == document_rules(self.ext.deep_view(), text@),
    {
        let ghost e = self.ext.deep_view();
        let chunks = split_chunks(text);
        let ghost cs = chunk_views(chunks@);
        let mut rules: Vec<ERule> = Vec::new();
        let mut i: usize = 0;
        proof {
            assert(cs.take(0).len() == 0);
            assert(rule_views(rules@) =~= chunk_rules(e, cs.take(0)));
        }
        while i < chunks.len()
            invariant
                i <= chunks.len(),
                e == self.ext.deep_view(),
                cs == chunk_views(chunks@),
                rule_views(rules@) == chunk_rules(e, cs.take(i as int)),
            decreases chunks.len() - i,
        {
            proof {
                lemma_take_step(cs, i as int);
                assert(cs[i as int] == chunks@[i as int]@);
            }
            match self.parse_chunk(chunks[i].data.as_str()) {
                Ok(rule) => {
                    let ghost before = rule_views(rules@);
                    let ghost rv = rule@;
                    rules.push(rule);
                    proof {
                        assert(rule_views(rules@) =~= before.push(rv));
                    }
                },
                Err(_) => {},
            }
            i += 1;
        }
        proof {
            assert(cs.take(chunks.len() as int) =~= cs);
        }
        rules
    }

    /// Forgets the rules read so far and reads the rules of the documents
    /// given, in their order: the contents of the rules files of the game
    /// that could be read. Ordering rules and warning rules are kept apart.
#[verifier::rlimit(40)]
    pub fn init(&mut self, documents: &Vec<String>)
        ensures
            final(self).game == old(self).game,
            final(self).ext == old(self).ext,
            order_rule_views(final(self).order_rules@) == order_rules_of(
                documents_rules(old(self).ext.deep_view(), documents.deep_view()),
            ),
            warning_rule_views(final(self).rules@) == warning_rules_of(
                documents_rules(old(self).ext.deep_view(), documents.deep_view()),
            ),
    {
        let ghost e = self.ext.deep_view();
        let ghost docs = documents.deep_view();
        self.rules = Vec::new();
        self.order_rules = Vec::new();
        let mut d: usize = 0;
        proof {
            assert(docs.take(0).len() == 0);
            assert(order_rule_views(self.order_rules@) =~= Seq::<EOrderRuleView>::empty());
            assert(warning_rule_views(self.rules@) =~= Seq::<EWarningRuleView>::empty());
        }
        while d < documents.len()
            invariant
                d <= documents.len(),
                self.game == old(self).game,
                self.ext == old(self).ext,
                e == self.ext.deep_view(),
                docs == documents.deep_view(),
                order_rule_views(self.order_rules@) == order_rules_of(
                    documents_rules(e, docs.take(d as int)),
                ),
                warning_rule_views(self.rules@) == warning_rules_of(
                    documents_rules(e, docs.take(d as int)),
                ),
            decreases documents.len() - d,
        {
            proof {
                lemma_take_step(docs, d as int);
            }
            let rules = self.parse_rules_from_reader(documents[d].as_str());
            let ghost base = documents_rules(e, docs.take(d as int));
            let ghost rs = rule_views(rules@);
            let mut i: usize = 0;
            proof {
                assert(base + rs.take(0) =~= base);
            }
            while i < rules.len()
                invariant
                    i <= rules.len(),
                    self.game == old(self).game,
                    self.ext == old(self).ext,
                    rs == rule_views(rules@),
                    order_rule_views(self.order_rules@) == order_rules_of(base + rs.take(i as int)),
                    warning_rule_views(self.rules@) == warning_rules_of(base + rs.take(i as int)),
                decreases rules.len() - i,
            {
                proof {
                    let next = base + rs.take(i + 1);
                    assert(next.drop_last() =~= base + rs.take(i as int));
                    assert(next.last() == rules@[i as int]@);
                }
                match rules[i].clone() {
                    ERule::EOrderRule(o) => {
                        let ghost before = order_rule_views(self.order_rules@);
                        let ghost ov = o@;
                        self.order_rules.push(o);
                        proof {
                            assert(order_rule_views(self.order_rules@) =~= before.push(ov));
                        }
                    },
                    ERule::EWarningRule(w) => {
                        let ghost before = warning_rule_views(self.rules@);
                        let ghost wv = w@;
                        self.rules.push(w);
                        proof {
                            assert(warning_rule_views(self.rules@) =~= before.push(wv));
                        }
                    },
                }
                i += 1;
            }
            proof {
                assert(rs.take(rules.len() as int) =~= rs);
            }
            d += 1;
        }
        proof {
            assert(docs.take(documents.len() as int) =~= docs);
        }
    }
}

/// Parses the rules of a rules document of the given game.
pub fn parse_rules(game: ESupportedGame, text: &str) -> (r: Vec<ERule>)
    ensures
        rule_views(r@) == document_rules(game_extensions(game), text@),
{
    let parser = get_parser(game);
    parser.parse_rules_from_reader(text)
}

/// The lines of the contents of a file, such as a list of mods.
pub fn read_file_as_list(content: &str) -> (r: Vec<String>)
    ensures
        r.deep_view() == lines_of(content@),
{
    let chars = to_chars(content);
    let lines = split_lines(&chars);
    chars_to_strings(&lines)
}

} // verus!
