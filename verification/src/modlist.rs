//! The list of installed mods as it is gathered from a game directory:
//! which file names are archives, and the order in which they are listed.

use vstd::prelude::*;
use crate::parser::{chars_to_strings, strings_to_chars};
use crate::seqs::{is_last_index, last_index, lemma_last_index};
use crate::text::{lower_text, rfind_char, subvec, texts, to_chars, to_lower_chars};

verus! {

// ---------------------------------------------------------------------------
// Archives
// ---------------------------------------------------------------------------

/// The extension of a file name: what follows its last `.`, unless the name
/// has none or only starts with one.
pub open spec fn extension_of(name: Seq<char>) -> Option<Seq<char>> {
    if name.contains('.') && last_index(name, '.') > 0 {
        Some(name.skip(last_index(name, '.') + 1))
    } else {
        None
    }
}

/// `needle` occurs in `s` at position `i`.
pub open spec fn occurs_at(s: Seq<char>, needle: Seq<char>, i: int) -> bool {
    0 <= i && i + needle.len() <= s.len() && s.subrange(i, i + needle.len()) == needle
}

/// `needle` occurs somewhere in `s`.
pub open spec fn contains_text(s: Seq<char>, needle: Seq<char>) -> bool {
    exists|i: int| occurs_at(s, needle, i)
}

/// The word that the extension of an archive holds.
pub open spec fn keyword_archive() -> Seq<char> {
    seq!['a', 'r', 'c', 'h', 'i', 'v', 'e']
}

/// The file is an archive: its extension, letter case aside, holds the word
/// `archive`.
pub open spec fn is_archive(name: Seq<char>) -> bool {
    match extension_of(name) {
        Some(ext) => contains_text(lower_text(ext), keyword_archive()),
        None => false,
    }
}

/// Whether `needle` occurs in `s` at position `at`.
fn occurs_at_chars(s: &Vec<char>, needle: &Vec<char>, at: usize) -> (r: bool)
    requires
        at + needle.len() <= s.len(),
    ensures
        r == occurs_at(s@, needle@, at as int),
{
    let mut k: usize = 0;
    while k < needle.len()
        invariant
            k <= needle.len(),
            at + needle.len() <= s.len(),
            forall|j: int| 0 <= j < k ==> s@[at + j] == needle@[j],
        decreases needle.len() - k,
    {
        if s[at + k] != needle[k] {
            assert(s@.subrange(at as int, at + needle.len())[k as int] != needle@[k as int]);
            return false;
        }
        k += 1;
    }
    assert(s@.subrange(at as int, at + needle.len()) =~= needle@);
    true
}

/// Whether `needle` occurs somewhere in `s`.
pub fn contains_chars(s: &Vec<char>, needle: &Vec<char>) -> (r: bool)
    ensures
        r == contains_text(s@, needle@),
{
    if needle.len() > s.len() {
        return false;
    }
    let last = s.len() - needle.len();
    let mut i: usize = 0;
    loop
        invariant
            i <= last,
            last + needle.len() == s.len(),
            forall|j: int| 0 <= j < i ==> !occurs_at(s@, needle@, j),
        decreases last - i,
    {
        if occurs_at_chars(s, needle, i) {
            return true;
        }
        if i == last {
            return false;
        }
        i += 1;
    }
}

/// Whether the file name is that of an archive.
pub fn is_archive_name(name: &str) -> (r: bool)
    ensures
        r == is_archive(name@),
{
    let chars = to_chars(name);
    match rfind_char(&chars, '.') {
        Some(k) => {
            proof {
                assert(is_last_index(chars@, '.', k as int));
                lemma_last_index(chars@, '.');
            }
            if k == 0 {
                return false;
            }
            let ext = subvec(&chars, k + 1, chars.len());
            assert(ext@ =~= chars@.skip(k + 1));
            let lower = to_lower_chars(&ext);
            let word: Vec<char> = vec!['a', 'r', 'c', 'h', 'i', 'v', 'e'];
            assert(word@ =~= keyword_archive());
            contains_chars(&lower, &word)
        },
        None => false,
    }
}

// ---------------------------------------------------------------------------
// The order of names
// ---------------------------------------------------------------------------

/// `a` comes before `b` or is `b`, comparing character by character; where
/// one is the start of the other, the shorter one comes first.
pub open spec fn text_le(a: Seq<char>, b: Seq<char>) -> bool
    decreases a.len(),
{
    if a.len() == 0 {
        true
    } else if b.len() == 0 {
        false
    } else {
        a[0] < b[0] || (a[0] == b[0] && text_le(a.drop_first(), b.drop_first()))
    }
}

/// The names are in ascending order.
pub open spec fn is_sorted(names: Seq<Seq<char>>) -> bool {
    forall|i: int, j: int| 0 <= i < j < names.len() ==> text_le(names[i], names[j])
}

/// Of two texts one comes before the other or is the other.
pub proof fn lemma_text_le_total(a: Seq<char>, b: Seq<char>)
    ensures
        text_le(a, b) || text_le(b, a),
    decreases a.len(),
{
    if a.len() > 0 && b.len() > 0 && a[0] == b[0] {
        lemma_text_le_total(a.drop_first(), b.drop_first());
    }
}

/// The order of texts is transitive.
pub proof fn lemma_text_le_transitive(a: Seq<char>, b: Seq<char>, c: Seq<char>)
    requires
        text_le(a, b),
        text_le(b, c),
    ensures
        text_le(a, c),
    decreases a.len(),
{
    if a.len() > 0 && b.len() > 0 && c.len() > 0 && a[0] == b[0] && b[0] == c[0] {
        lemma_text_le_transitive(a.drop_first(), b.drop_first(), c.drop_first());
    }
}

/// Whether `a` comes before `b` or is `b`.
pub fn text_le_chars(a: &Vec<char>, b: &Vec<char>) -> (r: bool)
    ensures
        r == text_le(a@, b@),
{
    let mut i: usize = 0;
    proof {
        assert(a@.skip(0) =~= a@);
        assert(b@.skip(0) =~= b@);
    }
    while i < a.len() && i < b.len()
        invariant
            i <= a.len(),
            i <= b.len(),
            text_le(a@, b@) == text_le(a@.skip(i as int), b@.skip(i as int)),
        decreases a.len() - i,
    {
        proof {
            assert(a@.skip(i as int)[0] == a@[i as int]);
            assert(b@.skip(i as int)[0] == b@[i as int]);
            assert(a@.skip(i as int).drop_first() =~= a@.skip(i + 1));
            assert(b@.skip(i as int).drop_first() =~= b@.skip(i + 1));
        }
        if a[i] < b[i] {
            return true;
        }
        if a[i] > b[i] {
            return false;
        }
        i += 1;
    }
    i == a.len()
}

/// The names in ascending order.
#[verifier::rlimit(40)]
pub fn sort_names(names: Vec<String>) -> (r: Vec<String>)
    ensures
        is_sorted(r.deep_view()),
        r.deep_view().to_multiset() == names.deep_view().to_multiset(),
{
    let items = strings_to_chars(&names);
    let ghost all = texts(items@);
    let mut out: Vec<Vec<char>> = Vec::new();
    let mut i: usize = 0;
    proof {
        assert(all.take(0) =~= texts(out@));
    }
    while i < items.len()
        invariant
            i <= items.len(),
            all == texts(items@),
            is_sorted(texts(out@)),
            texts(out@).to_multiset() == all.take(i as int).to_multiset(),
        decreases items.len() - i,
    {
        let x = subvec(&items[i], 0, items[i].len());
        proof {
            assert(x@ =~= items@[i as int]@);
            assert(all[i as int] == x@);
        }
        let ghost sorted = texts(out@);
        let mut p: usize = 0;
        while p < out.len() && text_le_chars(&out[p], &x)
            invariant
                p <= out.len(),
                sorted == texts(out@),
                forall|k: int| 0 <= k < p ==> text_le(#[trigger] sorted[k], x@),
            decreases out.len() - p,
        {
            assert(sorted[p as int] == out@[p as int]@);
            p += 1;
        }
        out.insert(p, x);
        proof {
            let after = texts(out@);
            assert(after =~= sorted.insert(p as int, x@));
            assert forall|a: int, b: int| 0 <= a < b < after.len() implies text_le(
                after[a],
                after[b],
            ) by {
                if b < p {
                    assert(after[a] == sorted[a] && after[b] == sorted[b]);
                } else if b == p {
                    assert(after[a] == sorted[a]);
                } else if a == p {
                    assert(after[b] == sorted[b - 1]);
                    assert(sorted[p as int] == out@[p + 1]@);
                    lemma_text_le_total(sorted[p as int], x@);
                    if b - 1 > p {
                        lemma_text_le_transitive(x@, sorted[p as int], sorted[b - 1]);
                    }
                } else if a < p {
                    assert(after[a] == sorted[a] && after[b] == sorted[b - 1]);
                } else {
                    assert(after[a] == sorted[a - 1] && after[b] == sorted[b - 1]);
                }
            }
            vstd::seq_lib::to_multiset_insert(sorted, p as int, x@);
            crate::text::lemma_take_step(all, i as int);
            vstd::seq_lib::to_multiset_build(all.take(i as int), x@);
        }
        i += 1;
    }
    proof {
        assert(all.take(items.len() as int) =~= all);
    }
    chars_to_strings(&out)
}

} // verus!
