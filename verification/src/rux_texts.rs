//! Texts: what they hold, where one occurs in another, and the search over
//! the lines of text files.

use crate::descriptor::{decoded, Decoding, Located, MatchRecord};
use crate::letters::{bytes_of, chars_of, push_char, text_between, views};
use crate::occurrence::{
    find_bytes, find_from, first_occurrence, is_first_occurrence, last_occurrence,
    lemma_first_occurrence, occurs, occurs_at, offset_of, rfind_bytes, stands_at,
};
use crate::runs::{cutting_of, runs};
use crate::rux_debug::MessageErr;
use crate::distributor::{
    found_in_each, gather, gathered, join_partials, lemma_nothing_found, listed, merged, partial_of,
    partials_of, Pool, TextFile,
};
use crate::scanning::{
    bytes_in, descriptors, lemma_raw_lines_make_the_text, lining_of, raw_lines_of, file_matches, lemma_bytes_in_prefix, line_matches,
    located_in_line, reported,
};
use crate::unicode::{
    char_is_whitespace, char_to_lower, is_white_space, lowercased,
    lowercased_char, to_lower, to_upper, trim_text, trimmed, uppercased,
};
use vstd::prelude::*;
use vstd::string::StringExecFns;
use vstd::utf8::encode_utf8_decode_utf8;

verus! {

/// Texts with the same bytes are the same text.
pub proof fn lemma_bytes_tell_texts_apart(left: Seq<char>, right: Seq<char>)
    ensures
        bytes_of(left) == bytes_of(right) <==> left == right,
{
    encode_utf8_decode_utf8(left);
    encode_utf8_decode_utf8(right);
}

/// The length of `text` in bytes.
pub fn len(text: &str) -> (count: usize)
    ensures
        count == bytes_of(text@).len(),
{
    text.as_bytes().len()
}

/// Whether `text` holds nothing.
pub fn is_empty(text: &str) -> (empty: bool)
    ensures
        empty == (text@.len() == 0),
{
    text.is_empty()
}

/// Whether every character of `text` is one of the first 128.
pub fn is_ascii(text: &str) -> (ascii: bool)
    ensures
        ascii == vstd::utf8::is_ascii_chars(text@),
{
    text.is_ascii()
}

/// Whether two byte strings are the same.
pub fn same_bytes(left: &[u8], right: &[u8]) -> (same: bool)
    ensures
        same == (left@ == right@),
{
    if left.len() != right.len() {
        return false;
    }
    let mut k: usize = 0;
    while k < left.len()
        invariant
            left@.len() == right@.len(),
            k <= left@.len(),
            forall|j: int| 0 <= j < k ==> left@[j] == right@[j],
        decreases left@.len() - k,
    {
        if left[k] != right[k] {
            return false;
        }
        k += 1;
    }
    assert(left@ =~= right@);
    true
}

/// Whether the two texts are the same.
pub fn is_equals(text: &str, with: &str) -> (same: bool)
    ensures
        same == (text@ == with@),
{
    proof {
        lemma_bytes_tell_texts_apart(text@, with@);
    }
    same_bytes(text.as_bytes(), with.as_bytes())
}

/// Whether the two texts are the same once both are in lower case.
pub fn is_equally(text: &str, with: &str) -> (same: bool)
    ensures
        same == (lowercased(text@) == lowercased(with@)),
{
    let left = to_lower(text);
    let right = to_lower(with);
    is_equals(left.as_str(), right.as_str())
}

/// `text` in lower case.
pub fn tolower(text: &str) -> (lower: String)
    ensures
        lower@ == lowercased(text@),
{
    to_lower(text)
}

/// `text` in upper case.
pub fn toupper(text: &str) -> (upper: String)
    ensures
        upper@ == uppercased(text@),
{
    to_upper(text)
}

/// `text` without the white space at its ends.
pub fn trim(text: &str) -> (inner: String)
    ensures
        inner@ == trimmed(text@),
{
    trim_text(text)
}

/// A text has no more characters than bytes.
pub proof fn lemma_chars_within_bytes(text: Seq<char>)
    ensures
        text.len() <= bytes_of(text).len(),
    decreases text.len(),
{
    if text.len() > 0 {
        lemma_chars_within_bytes(text.drop_first());
    }
}

/// Where deleting starts and ends once the bounds are set right: a start
/// beyond the length of the text in bytes is that length, and an end before
/// the start is the start.
pub open spec fn deleted_range(text: Seq<char>, start: nat, end: nat) -> (nat, nat) {
    let from = if start > bytes_of(text).len() {
        bytes_of(text).len()
    } else {
        start
    };
    let to = if end < from {
        from
    } else {
        end
    };
    (from, to)
}

/// `text` without the characters whose index, counted in characters from
/// zero, is `from` or more and less than `to`.
pub open spec fn without(text: Seq<char>, from: nat, to: nat) -> Seq<char> {
    let first = if from > text.len() {
        text.len()
    } else {
        from
    };
    let last = if to > text.len() {
        text.len()
    } else if to < first {
        first
    } else {
        to
    };
    text.take(first as int) + text.skip(last as int)
}

/// Deletes from `text` the characters from index `start` up to index `end`,
/// the bounds set right as `deleted_range` says.
pub fn del(text: &str, start: usize, end: usize) -> (rest: String)
    ensures
        rest@ == without(
            text@,
            deleted_range(text@, start as nat, end as nat).0,
            deleted_range(text@, start as nat, end as nat).1,
        ),
{
    let size = len(text);
    let from = if start > size {
        size
    } else {
        start
    };
    let to = if end < from {
        from
    } else {
        end
    };
    proof {
        lemma_chars_within_bytes(text@);
    }
    let chars = chars_of(text);
    let mut rest = String::new();
    let mut i: usize = 0;
    while i < chars.len()
        invariant
            i <= chars@.len(),
            from <= to,
            rest@ == without(chars@.take(i as int), from as nat, to as nat),
        decreases chars@.len() - i,
    {
        let ghost before = chars@.take(i as int);
        let ghost after = chars@.take(i + 1);
        if i < from || i >= to {
            crate::letters::push_char(&mut rest, chars[i]);
        }
        proof {
            assert(after =~= before.push(chars@[i as int]));
            assert(rest@ =~= without(after, from as nat, to as nat));
        }
        i += 1;
    }
    assert(chars@.take(i as int) =~= chars@);
    rest
}

/// Whether every character of `text` is white space.
pub fn is_whitespace(text: &str) -> (blank: bool)
    ensures
        blank == forall|i: int| 0 <= i < text@.len() ==> is_white_space(#[trigger] text@[i]),
{
    let chars = chars_of(text);
    let mut i: usize = 0;
    while i < chars.len()
        invariant
            i <= chars@.len(),
            chars@ == text@,
            forall|j: int| 0 <= j < i ==> is_white_space(#[trigger] chars@[j]),
        decreases chars@.len() - i,
    {
        if !char_is_whitespace(chars[i]) {
            return false;
        }
        i += 1;
    }
    true
}

/// The characters that space a line out: the space and the tab.
pub open spec fn line_space_chars() -> Seq<char> {
    seq![' ', '\t']
}

/// The characters that break a line: the line feed and the carriage return.
pub open spec fn line_break_chars() -> Seq<char> {
    seq!['\n', '\r']
}

/// The brackets: round, square, curly and angle, opening and closing.
pub open spec fn brackets_chars() -> Seq<char> {
    seq!['(', ')', '[', ']', '{', '}', '<', '>']
}

/// The quotation marks: single and double.
pub open spec fn quotation_chars() -> Seq<char> {
    seq!['\'', '"']
}

/// Whether no character of `text` differs from any character of `set`.
pub open spec fn differs_from_none(text: Seq<char>, set: Seq<char>) -> bool {
    forall|i: int, k: int| 0 <= i < text.len() && 0 <= k < set.len() ==> text[i] == set[k]
}

/// Where a set holds two characters that differ, every character differs
/// from one of them: only the empty text differs from none.
pub proof fn lemma_differs_from_none(text: Seq<char>, set: Seq<char>)
    requires
        set.len() >= 2,
        set[0] != set[1],
    ensures
        differs_from_none(text, set) <==> text.len() == 0,
{
    if text.len() > 0 {
        assert(!(text[0] == set[0] && text[0] == set[1]));
    }
}

/// Whether no character of `text` differs from any character of `set`.
fn differs_from_no(text: &str, set: &Vec<char>) -> (none: bool)
    ensures
        none == differs_from_none(text@, set@),
{
    let chars = chars_of(text);
    let mut i: usize = 0;
    while i < chars.len()
        invariant
            i <= chars@.len(),
            chars@ == text@,
            forall|j: int, k: int| 0 <= j < i && 0 <= k < set@.len() ==> chars@[j] == set@[k],
        decreases chars@.len() - i,
    {
        let mut k: usize = 0;
        while k < set.len()
            invariant
                i < chars@.len(),
                k <= set@.len(),
                chars@ == text@,
                forall|m: int| 0 <= m < k ==> chars@[i as int] == set@[m],
            decreases set@.len() - k,
        {
            if chars[i] != set[k] {
                return false;
            }
            k += 1;
        }
        i += 1;
    }
    true
}

/// Whether no character of `text` differs from any of the line-space
/// characters. As these differ from each other, that is whether `text` is
/// empty.
pub fn is_linespace(text: &str) -> (none: bool)
    ensures
        none == differs_from_none(text@, line_space_chars()),
        none == (text@.len() == 0),
{
    let set = vec![' ', '\t'];
    proof {
        assert(set@ =~= line_space_chars());
        lemma_differs_from_none(text@, set@);
    }
    differs_from_no(text, &set)
}

/// Whether no character of `text` differs from any of the line-break
/// characters. As these differ from each other, that is whether `text` is
/// empty.
pub fn is_linebreak(text: &str) -> (none: bool)
    ensures
        none == differs_from_none(text@, line_break_chars()),
        none == (text@.len() == 0),
{
    let set = vec!['\n', '\r'];
    proof {
        assert(set@ =~= line_break_chars());
        lemma_differs_from_none(text@, set@);
    }
    differs_from_no(text, &set)
}

/// Whether no character of `text` differs from any of the brackets. As
/// these differ from each other, that is whether `text` is empty.
pub fn is_brackets(text: &str) -> (none: bool)
    ensures
        none == differs_from_none(text@, brackets_chars()),
        none == (text@.len() == 0),
{
    let set = vec!['(', ')', '[', ']', '{', '}', '<', '>'];
    proof {
        assert(set@ =~= brackets_chars());
        lemma_differs_from_none(text@, set@);
    }
    differs_from_no(text, &set)
}

/// Whether no character of `text` differs from any of the quotation marks.
/// As these differ from each other, that is whether `text` is empty.
pub fn is_quotation(text: &str) -> (none: bool)
    ensures
        none == differs_from_none(text@, quotation_chars()),
        none == (text@.len() == 0),
{
    let set = vec!['\'', '"'];
    proof {
        assert(set@ =~= quotation_chars());
        lemma_differs_from_none(text@, set@);
    }
    differs_from_no(text, &set)
}

/// Whether `text` holds `part`, byte for byte.
pub fn contains(text: &str, part: &str) -> (held: bool)
    ensures
        held == occurs(bytes_of(text@), bytes_of(part@)),
{
    proof {
        lemma_first_occurrence(bytes_of(text@), bytes_of(part@));
    }
    find_bytes(text.as_bytes(), part.as_bytes()).is_some()
}

/// The byte offset of the leftmost place where `text` holds `part`.
pub fn find(text: &str, part: &str) -> (found: Option<usize>)
    ensures
        offset_of(found) == first_occurrence(bytes_of(text@), bytes_of(part@)),
{
    find_bytes(text.as_bytes(), part.as_bytes())
}

/// The byte offset of the rightmost place where `text` holds `part`.
pub fn rfind(text: &str, part: &str) -> (found: Option<usize>)
    ensures
        offset_of(found) == last_occurrence(bytes_of(text@), bytes_of(part@)),
{
    rfind_bytes(text.as_bytes(), part.as_bytes())
}

/// Whether `text` starts with `prefix`.
pub fn starts_with(text: &str, prefix: &str) -> (starts: bool)
    ensures
        starts == occurs_at(bytes_of(text@), bytes_of(prefix@), 0),
{
    let hay = text.as_bytes();
    let needle = prefix.as_bytes();
    if needle.len() > hay.len() {
        return false;
    }
    stands_at(hay, needle, 0)
}

/// Whether `text` ends with `suffix`.
pub fn ends_with(text: &str, suffix: &str) -> (ends: bool)
    ensures
        ends == occurs_at(
            bytes_of(text@),
            bytes_of(suffix@),
            bytes_of(text@).len() - bytes_of(suffix@).len(),
        ),
{
    let hay = text.as_bytes();
    let needle = suffix.as_bytes();
    if needle.len() > hay.len() {
        return false;
    }
    stands_at(hay, needle, hay.len() - needle.len())
}

/// Each character of `text` as a text of its own, in order.
pub open spec fn singles(text: Seq<char>) -> Seq<Seq<char>> {
    text.map_values(|c: char| seq![c])
}

/// The pieces into which `pattern` splits `text`. The pieces are what
/// stands before, between and after the places where `text` holds
/// `pattern`, looked for from left to right, each search starting after the
/// place found before; a piece may be empty, and a text without the pattern
/// is one piece. An empty pattern splits around every character: the pieces
/// are an empty text, each character, and an empty text.
pub open spec fn split_pieces(text: Seq<char>, pattern: Seq<char>) -> Seq<Seq<char>>
    decreases text.len(),
{
    if pattern.len() == 0 {
        seq![Seq::<char>::empty()] + singles(text) + seq![Seq::<char>::empty()]
    } else {
        match first_occurrence(text, pattern) {
            Some(at) => if 0 <= at && at + pattern.len() <= text.len() {
                seq![text.take(at)] + split_pieces(text.skip(at + pattern.len()), pattern)
            } else {
                seq![text]
            },
            None => seq![text],
        }
    }
}

/// Splits `text` at every place where it holds `pattern`.
pub fn split(text: &str, pattern: &str) -> (pieces: Vec<String>)
    ensures
        views(pieces@) == split_pieces(text@, pattern@),
{
    let chars = chars_of(text);
    let pat = chars_of(pattern);
    let mut pieces: Vec<String> = Vec::new();
    if pat.len() == 0 {
        pieces.push(String::new());
        let mut i: usize = 0;
        while i < chars.len()
            invariant
                i <= chars@.len(),
                views(pieces@) == seq![Seq::<char>::empty()] + singles(chars@.take(i as int)),
            decreases chars@.len() - i,
        {
            let ghost before = views(pieces@);
            pieces.push(text_between(&chars, i, i + 1));
            proof {
                assert(chars@.subrange(i as int, i + 1) =~= seq![chars@[i as int]]);
                assert(views(pieces@) =~= before.push(seq![chars@[i as int]]));
                assert(singles(chars@.take(i + 1)) =~= singles(chars@.take(i as int)).push(
                    seq![chars@[i as int]],
                ));
            }
            i += 1;
        }
        let ghost before = views(pieces@);
        pieces.push(String::new());
        proof {
            assert(chars@.take(i as int) =~= chars@);
            assert(views(pieces@) =~= before.push(Seq::<char>::empty()));
            assert(views(pieces@) =~= split_pieces(text@, pattern@));
        }
        return pieces;
    }
    let total: usize = chars.len();
    let mut start: usize = 0;
    proof {
        assert(chars@.skip(0) =~= chars@);
    }
    loop
        invariant
            start <= chars@.len(),
            chars@.len() == total,
            pat@.len() > 0,
            chars@ == text@,
            pat@ == pattern@,
            views(pieces@) + split_pieces(chars@.skip(start as int), pat@) == split_pieces(
                chars@,
                pat@,
            ),
        decreases chars@.len() - start,
    {
        let ghost rest = chars@.skip(start as int);
        let ghost before = views(pieces@);
        proof {
            lemma_first_occurrence(rest, pat@);
        }
        match find_from(chars.as_slice(), pat.as_slice(), start) {
            Some(at) => {
                proof {
                    assert(is_first_occurrence(rest, pat@, at - start));
                }
                pieces.push(text_between(&chars, start, at));
                proof {
                    assert(chars@.subrange(start as int, at as int) =~= rest.take(at - start));
                    assert(rest.skip(at - start + pat@.len()) =~= chars@.skip(at + pat@.len()));
                    assert(views(pieces@) =~= before.push(rest.take(at - start)));
                    assert(split_pieces(rest, pat@) =~= seq![rest.take(at - start)] + split_pieces(
                        chars@.skip(at + pat@.len()),
                        pat@,
                    ));
                    assert(views(pieces@) + split_pieces(chars@.skip(at + pat@.len()), pat@)
                        =~= before + split_pieces(rest, pat@));
                }
                start = at + pat.len();
            },
            None => {
                pieces.push(text_between(&chars, start, chars.len()));
                proof {
                    assert(chars@.subrange(start as int, chars@.len() as int) =~= rest);
                    assert(views(pieces@) =~= before.push(rest));
                    assert(split_pieces(rest, pat@) =~= seq![rest]);
                    assert(views(pieces@) =~= before + split_pieces(rest, pat@));
                }
                return pieces;
            },
        }
    }
}

/// The text of a setting and the text of its value, as mathematical values.
pub open spec fn entry_views(entries: Seq<(String, String)>) -> Seq<(Seq<char>, Seq<char>)> {
    entries.map_values(|entry: (String, String)| (entry.0@, entry.1@))
}

/// What one line of a setup file sets, if anything: nothing where the line
/// is empty or starts with `#`; else what stands before the first `=` is
/// the key and what stands after it the value, both without the white space
/// at their ends; a line without `=` is a key whose value is empty.
pub open spec fn setup_entry(line: Seq<char>) -> Option<(Seq<char>, Seq<char>)> {
    if line.len() == 0 || line[0] == '#' {
        None
    } else {
        match first_occurrence(line, seq!['=']) {
            Some(at) => Some((trimmed(line.take(at)), trimmed(line.skip(at + 1)))),
            None => Some((line, seq![])),
        }
    }
}

/// Whether `entries` hold `key` at index `at`.
pub open spec fn holds_key(entries: Seq<(Seq<char>, Seq<char>)>, key: Seq<char>, at: int) -> bool {
    0 <= at < entries.len() && entries[at].0 == key
}

/// Whether no key stands twice in `entries`.
pub open spec fn keys_differ(entries: Seq<(Seq<char>, Seq<char>)>) -> bool {
    forall|i: int, j: int|
        0 <= i < j < entries.len() ==> (#[trigger] entries[i]).0 != (#[trigger] entries[j]).0
}

/// `entries` after `key` was set to `value`: a key that is held keeps its
/// place and gets the new value, a new key goes to the end.
pub open spec fn with_entry(
    entries: Seq<(Seq<char>, Seq<char>)>,
    key: Seq<char>,
    value: Seq<char>,
) -> Seq<(Seq<char>, Seq<char>)> {
    if exists|at: int| holds_key(entries, key, at) {
        entries.update(choose|at: int| holds_key(entries, key, at), (key, value))
    } else {
        entries.push((key, value))
    }
}

/// What the lines of a setup file set, each key once, with the value that
/// the last line with that key gives it.
pub open spec fn setup_entries(lines: Seq<Seq<char>>) -> Seq<(Seq<char>, Seq<char>)>
    decreases lines.len(),
{
    if lines.len() == 0 {
        seq![]
    } else {
        let before = setup_entries(lines.drop_last());
        match setup_entry(lines.last()) {
            Some((key, value)) => with_entry(before, key, value),
            None => before,
        }
    }
}

/// No key stands twice in what a setup file sets.
pub proof fn lemma_setup_keys_differ(lines: Seq<Seq<char>>)
    ensures
        keys_differ(setup_entries(lines)),
    decreases lines.len(),
{
    if lines.len() > 0 {
        lemma_setup_keys_differ(lines.drop_last());
        let before = setup_entries(lines.drop_last());
        match setup_entry(lines.last()) {
            Some((key, value)) => {
                if exists|at: int| holds_key(before, key, at) {
                    let at = choose|at: int| holds_key(before, key, at);
                    let after = before.update(at, (key, value));
                    assert forall|i: int, j: int| 0 <= i < j < after.len() implies (
                    #[trigger] after[i]).0 != (#[trigger] after[j]).0 by {
                        assert(after[i].0 == before[i].0);
                        assert(after[j].0 == before[j].0);
                    }
                } else {
                    let after = before.push((key, value));
                    assert forall|i: int, j: int| 0 <= i < j < after.len() implies (
                    #[trigger] after[i]).0 != (#[trigger] after[j]).0 by {
                        if j == before.len() {
                            assert(!holds_key(before, key, i));
                        }
                    }
                }
            },
            None => {},
        }
    }
}

/// Sets `key` to `value` in `entries`.
fn set_entry(entries: &mut Vec<(String, String)>, key: String, value: String)
    requires
        keys_differ(entry_views(old(entries)@)),
    ensures
        entry_views(final(entries)@) == with_entry(entry_views(old(entries)@), key@, value@),
{
    let ghost before = entry_views(entries@);
    let mut at: usize = 0;
    while at < entries.len()
        invariant
            at <= entries@.len(),
            before == entry_views(entries@),
            entries@ == old(entries)@,
            keys_differ(before),
            forall|k: int| 0 <= k < at ==> !holds_key(before, key@, k),
        decreases entries@.len() - at,
    {
        assert(before[at as int].0 == entries@[at as int].0@);
        if is_equals(entries[at].0.as_str(), key.as_str()) {
            proof {
                assert(holds_key(before, key@, at as int));
                let chosen = choose|k: int| holds_key(before, key@, k);
                assert(chosen == at) by {
                    if chosen < at {
                        assert(!holds_key(before, key@, chosen));
                    } else if chosen > at {
                        assert(before[at as int].0 != before[chosen].0);
                    }
                }
            }
            entries.set(at, (key, value));
            assert(entry_views(entries@) =~= before.update(at as int, (key@, value@)));
            return;
        }
        at += 1;
    }
    entries.push((key, value));
    assert(entry_views(entries@) =~= before.push((key@, value@)));
}

/// Reads a setup: the settings that the lines of a setup file make, given
/// what reading the file gave. `read` holds the lines in order, without
/// their line terminators, or the error that reading met, which is passed
/// on.
pub fn read_setup(read: Result<Vec<String>, Box<MessageErr>>) -> (setup: Result<
    Vec<(String, String)>,
    Box<MessageErr>,
>)
    ensures
        match read {
            Ok(lines) => setup matches Ok(entries) && entry_views(entries@) == setup_entries(
                views(lines@),
            ),
            Err(err) => setup == Err::<Vec<(String, String)>, Box<MessageErr>>(err),
        },
{
    let lines = match read {
        Ok(lines) => lines,
        Err(err) => {
            return Err(err);
        },
    };
    let ghost all = views(lines@);
    let mut entries: Vec<(String, String)> = Vec::new();
    let mut i: usize = 0;
    proof {
        assert(all.take(0) =~= Seq::<Seq<char>>::empty());
        assert(entry_views(entries@) =~= setup_entries(all.take(0)));
    }
    while i < lines.len()
        invariant
            i <= lines@.len(),
            all == views(lines@),
            entry_views(entries@) == setup_entries(all.take(i as int)),
        decreases lines@.len() - i,
    {
        let chars = chars_of(lines[i].as_str());
        proof {
            let seen = all.take(i + 1);
            assert(seen.drop_last() =~= all.take(i as int));
            assert(seen.last() == chars@);
            lemma_setup_keys_differ(all.take(i as int));
            lemma_first_occurrence(chars@, seq!['=']);
        }
        if chars.len() > 0 && chars[0] != '#' {
            let mut mark: Vec<char> = Vec::new();
            mark.push('=');
            assert(mark@ =~= seq!['=']);
            proof {
                assert(chars@.skip(0) =~= chars@);
            }
            match find_from(chars.as_slice(), mark.as_slice(), 0) {
                Some(at) => {
                    assert(is_first_occurrence(chars@, mark@, at as int));
                    let before = text_between(&chars, 0, at);
                    let after = text_between(&chars, at + 1, chars.len());
                    proof {
                        assert(chars@.subrange(0, at as int) =~= chars@.take(at as int));
                        assert(chars@.subrange(at + 1, chars@.len() as int) =~= chars@.skip(at + 1));
                    }
                    let key = trim_text(before.as_str());
                    let value = trim_text(after.as_str());
                    set_entry(&mut entries, key, value);
                },
                None => {
                    let key = lines[i].clone();
                    set_entry(&mut entries, key, String::new());
                },
            }
        }
        i += 1;
    }
    proof {
        assert(all.take(i as int) =~= all);
    }
    Ok(entries)
}

/// The words of `text`: its longest stretches without white space, in
/// order.
pub fn split_spaces(text: &str) -> (words: Vec<String>)
    ensures
        views(words@) == runs(text@, |c: char| is_white_space(c)),
{
    let ghost separates = |c: char| is_white_space(c);
    let chars = chars_of(text);
    let mut words: Vec<String> = Vec::new();
    let mut start: usize = 0;
    let mut i: usize = 0;
    while i < chars.len()
        invariant
            start <= i <= chars@.len(),
            separates == (|c: char| is_white_space(c)),
            views(words@) == cutting_of(chars@.take(i as int), separates).done,
            chars@.subrange(start as int, i as int) == cutting_of(
                chars@.take(i as int),
                separates,
            ).open,
        decreases chars@.len() - i,
    {
        proof {
            let seen = chars@.take(i + 1);
            assert(seen.drop_last() =~= chars@.take(i as int));
            assert(seen.last() == chars@[i as int]);
        }
        let ghost before = views(words@);
        let ghost open = chars@.subrange(start as int, i as int);
        if char_is_whitespace(chars[i]) {
            if start < i {
                words.push(text_between(&chars, start, i));
                assert(views(words@) =~= before.push(open));
            }
            start = i + 1;
            assert(chars@.subrange(start as int, i + 1) =~= Seq::<char>::empty());
        } else {
            assert(chars@.subrange(start as int, i + 1) =~= open.push(chars@[i as int]));
        }
        i += 1;
    }
    proof {
        assert(chars@.take(i as int) =~= chars@);
    }
    if start < i {
        let ghost before = views(words@);
        words.push(text_between(&chars, start, i));
        assert(views(words@) =~= before.push(chars@.subrange(start as int, i as int)));
    }
    words
}

/// Whether a line of `one` bytes outdoes a line of `other` bytes: is longer
/// where the longest is looked for, shorter where the shortest is.
pub open spec fn outdoes(one: nat, other: nat, longest: bool) -> bool {
    if longest {
        one > other
    } else {
        one < other
    }
}

/// Whether the line at `at` is the first among `lines` that none outdoes,
/// counting bytes: none of the lines outdoes it, and it outdoes each of the
/// lines before it.
pub open spec fn is_first_unbeaten(lines: Seq<Seq<char>>, at: int, longest: bool) -> bool {
    &&& 0 <= at < lines.len()
    &&& forall|k: int|
        0 <= k < lines.len() ==> !outdoes(
            bytes_of(#[trigger] lines[k]).len(),
            bytes_of(lines[at]).len(),
            longest,
        )
    &&& forall|k: int|
        0 <= k < at ==> outdoes(
            bytes_of(lines[at]).len(),
            bytes_of(#[trigger] lines[k]).len(),
            longest,
        )
}

/// Whether the line at `at` is the first of the longest among `lines`,
/// counting bytes.
pub open spec fn is_first_longest(lines: Seq<Seq<char>>, at: int) -> bool {
    is_first_unbeaten(lines, at, true)
}

/// Whether the line at `at` is the first of the shortest among `lines`,
/// counting bytes.
pub open spec fn is_first_shortest(lines: Seq<Seq<char>>, at: int) -> bool {
    is_first_unbeaten(lines, at, false)
}

/// The first among `on` that none outdoes, or nothing where `on` is empty.
fn find_unbeaten_line(on: &[String], longest: bool) -> (found: Option<&str>)
    ensures
        on@.len() == 0 <==> found is None,
        found matches Some(line) ==> exists|at: int|
            #[trigger] is_first_unbeaten(views(on@), at, longest) && line@ == on@[at]@,
{
    if on.len() == 0 {
        return None;
    }
    let ghost lines = views(on@);
    let mut best: usize = 0;
    let mut k: usize = 1;
    while k < on.len()
        invariant
            1 <= k <= on@.len(),
            lines == views(on@),
            is_first_unbeaten(lines.take(k as int), best as int, longest),
        decreases on@.len() - k,
    {
        let ghost seen = lines.take(k as int);
        let ghost next = lines.take(k + 1);
        proof {
            assert forall|j: int| 0 <= j < k implies #[trigger] next[j] == seen[j] by {}
            assert(next[k as int] == on@[k as int]@);
            assert(seen[best as int] == on@[best as int]@);
        }
        let size = on[k].as_str().as_bytes().len();
        let most = on[best].as_str().as_bytes().len();
        let ghost champion = if outdoes(size as nat, most as nat, longest) {
            k as int
        } else {
            best as int
        };
        proof {
            assert forall|j: int| 0 <= j < k + 1 implies !outdoes(
                bytes_of(#[trigger] next[j]).len(),
                bytes_of(next[champion]).len(),
                longest,
            ) by {
                if j < k {
                    assert(!outdoes(
                        bytes_of(seen[j]).len(),
                        bytes_of(seen[best as int]).len(),
                        longest,
                    ));
                }
            }
            assert forall|j: int| 0 <= j < champion implies outdoes(
                bytes_of(next[champion]).len(),
                bytes_of(#[trigger] next[j]).len(),
                longest,
            ) by {
                assert(!outdoes(
                    bytes_of(seen[j]).len(),
                    bytes_of(seen[best as int]).len(),
                    longest,
                ));
                if j < best {
                    assert(outdoes(
                        bytes_of(seen[best as int]).len(),
                        bytes_of(seen[j]).len(),
                        longest,
                    ));
                }
            }
        }
        if (longest && size > most) || (!longest && size < most) {
            best = k;
        }
        k += 1;
    }
    proof {
        assert(lines.take(k as int) =~= lines);
    }
    Some(on[best].as_str())
}

/// The longest of `on`, counting bytes, and the first of them if several
/// are as long; nothing where `on` is empty.
pub fn find_bigger_line(on: &[String]) -> (bigger: Option<&str>)
    ensures
        on@.len() == 0 <==> bigger is None,
        bigger matches Some(line) ==> exists|at: int|
            #[trigger] is_first_longest(views(on@), at) && line@ == on@[at]@,
{
    let bigger = find_unbeaten_line(on, true);
    proof {
        match bigger {
            Some(line) => {
                let at = choose|at: int|
                    #[trigger] is_first_unbeaten(views(on@), at, true) && line@ == on@[at]@;
                assert(is_first_longest(views(on@), at));
            },
            None => {},
        }
    }
    bigger
}

/// The shortest of `on`, counting bytes, and the first of them if several
/// are as short; nothing where `on` is empty.
pub fn find_smaller_line(on: &[String]) -> (smaller: Option<&str>)
    ensures
        on@.len() == 0 <==> smaller is None,
        smaller matches Some(line) ==> exists|at: int|
            #[trigger] is_first_shortest(views(on@), at) && line@ == on@[at]@,
{
    let smaller = find_unbeaten_line(on, false);
    proof {
        match smaller {
            Some(line) => {
                let at = choose|at: int|
                    #[trigger] is_first_unbeaten(views(on@), at, false) && line@ == on@[at]@;
                assert(is_first_shortest(views(on@), at));
            },
            None => {},
        }
    }
    smaller
}

/// What counts of a text when it is compared loosely: its characters that
/// are no white space, each in lower case.
pub open spec fn likeness(text: Seq<char>) -> Seq<Seq<char>>
    decreases text.len(),
{
    if text.len() == 0 {
        seq![]
    } else if is_white_space(text.last()) {
        likeness(text.drop_last())
    } else {
        likeness(text.drop_last()).push(lowercased_char(text.last()))
    }
}

/// What counts of the start of a text is the start of what counts of the
/// text.
pub proof fn lemma_likeness_prefix(text: Seq<char>, count: int)
    requires
        0 <= count <= text.len(),
    ensures
        likeness(text.take(count)).is_prefix_of(likeness(text)),
    decreases text.len(),
{
    if count == text.len() {
        assert(text.take(count) =~= text);
    } else {
        lemma_likeness_prefix(text.drop_last(), count);
        assert(text.drop_last().take(count) =~= text.take(count));
    }
}

/// Whether `text` is like the start of `with`: white space and case set
/// aside, every character of `text` is found in `with`, in order and with
/// nothing between them. What `with` holds after that is not looked at.
pub fn is_likely(text: &str, with: &str) -> (likely: bool)
    ensures
        likely == likeness(text@).is_prefix_of(likeness(with@)),
{
    let side_a = chars_of(text);
    let side_b = chars_of(with);
    let mut i: usize = 0;
    let mut j: usize = 0;
    while i < side_a.len()
        invariant
            i <= side_a@.len(),
            j <= side_b@.len(),
            side_a@ == text@,
            side_b@ == with@,
            likeness(side_a@.take(i as int)) == likeness(side_b@.take(j as int)),
        decreases side_a@.len() - i,
    {
        let item_a = side_a[i];
        proof {
            let seen = side_a@.take(i + 1);
            assert(seen.drop_last() =~= side_a@.take(i as int));
            assert(seen.last() == item_a);
        }
        if !char_is_whitespace(item_a) {
            let test_a = char_to_lower(item_a);
            while j < side_b.len() && char_is_whitespace(side_b[j])
                invariant
                    j <= side_b@.len(),
                    likeness(side_a@.take(i as int)) == likeness(side_b@.take(j as int)),
                decreases side_b@.len() - j,
            {
                proof {
                    let seen = side_b@.take(j + 1);
                    assert(seen.drop_last() =~= side_b@.take(j as int));
                    assert(seen.last() == side_b@[j as int]);
                }
                j += 1;
            }
            let ghost common = likeness(side_a@.take(i as int));
            if j >= side_b.len() {
                proof {
                    assert(side_b@.take(j as int) =~= side_b@);
                    lemma_likeness_prefix(side_a@, i + 1);
                    assert(likeness(side_a@.take(i + 1)).len() == common.len() + 1);
                }
                return false;
            }
            let test_b = char_to_lower(side_b[j]);
            proof {
                let seen = side_b@.take(j + 1);
                assert(seen.drop_last() =~= side_b@.take(j as int));
                assert(seen.last() == side_b@[j as int]);
            }
            if !is_equals(test_a.as_str(), test_b.as_str()) {
                proof {
                    lemma_likeness_prefix(side_a@, i + 1);
                    lemma_likeness_prefix(side_b@, j + 1);
                    let at = common.len() as int;
                    assert(likeness(side_a@.take(i + 1))[at] == test_a@);
                    assert(likeness(side_b@.take(j + 1))[at] == test_b@);
                    assert(likeness(side_a@)[at] == test_a@);
                    assert(likeness(side_b@)[at] == test_b@);
                }
                return false;
            }
            j += 1;
        }
        i += 1;
    }
    proof {
        assert(side_a@.take(i as int) =~= side_a@);
        lemma_likeness_prefix(side_b@, j as int);
    }
    true
}

/// `text` with a capital at its start and the rest in lower case: the
/// upper-case form of its first character, then, where the text is longer
/// than one byte, the lower-case form of what follows. An empty text stays
/// empty. The first character of the text must be one of the first 128.
pub open spec fn capitalized(text: Seq<char>) -> Seq<char> {
    if text.len() == 0 {
        seq![]
    } else if bytes_of(text).len() > 1 {
        uppercased(text.take(1)) + lowercased(text.skip(1))
    } else {
        uppercased(text.take(1))
    }
}

/// `text` with a capital at its start and the rest in lower case.
pub fn tocapital(text: &str) -> (capital: String)
    requires
        text@.len() > 0 ==> (text@[0] as u32) < 128,
    ensures
        capital@ == capitalized(text@),
{
    if text.is_empty() {
        return String::new();
    }
    let chars = chars_of(text);
    let head = text_between(&chars, 0, 1);
    let mut capital = to_upper(head.as_str());
    proof {
        assert(chars@.subrange(0, 1) =~= text@.take(1));
    }
    if len(text) > 1 {
        let tail = text_between(&chars, 1, chars.len());
        proof {
            assert(chars@.subrange(1, chars@.len() as int) =~= text@.skip(1));
        }
        capital.append(to_lower(tail.as_str()).as_str());
    }
    capital
}

/// A regular expression in compiled form, of the `regex` crate.
#[verifier::external_type_specification]
#[verifier::external_body]
pub struct ExRegex(regex::Regex);

/// What the `regex` crate reports of an expression that it cannot compile.
#[verifier::external_type_specification]
#[verifier::external_body]
pub struct ExRegexError(regex::Error);

/// Whether `part` is what is left of `whole` when some of its characters
/// are taken out: the characters of `part` stand in `whole`, in order.
pub open spec fn is_left_of(part: Seq<char>, whole: Seq<char>) -> bool
    decreases whole.len(),
{
    if part.len() == 0 {
        true
    } else if whole.len() == 0 {
        false
    } else if part.last() == whole.last() && is_left_of(part.drop_last(), whole.drop_last()) {
        true
    } else {
        is_left_of(part, whole.drop_last())
    }
}

/// What is left of `text` when every stretch that matches the expression
/// `pattern` is taken out of it, for a pattern that compiles: the stretches
/// are those that the expression matches from left to right, none
/// overlapping another.
pub uninterp spec fn without_matches(pattern: Seq<char>, text: Seq<char>) -> Seq<char>;

/// `Regex::new` of the `regex` crate, and on what it compiled
/// `Regex::replace_all` with nothing as the replacement. Where the pattern
/// compiles, what comes back depends on the pattern and the text alone, and
/// is what is left of the text once the matches are out. Whether a pattern
/// compiles is not claimed: the crate refuses what is no expression, and
/// also what grows beyond a size that it counts in the machine's own units.
#[verifier::external_body]
fn remove_pattern(text: &str, pattern: &str) -> (removed: Result<String, regex::Error>)
    ensures
        removed matches Ok(rest) ==> rest@ == without_matches(pattern@, text@) && is_left_of(
            rest@,
            text@,
        ),
{
    match regex::Regex::new(pattern) {
        Ok(compiled) => Ok(compiled.replace_all(text, "").to_string()),
        Err(err) => Err(err),
    }
}

/// `Regex::replace_all` of the `regex` crate with nothing as the
/// replacement: the text without the stretches that match the expression,
/// which do not overlap. What is left stands as it stood.
#[verifier::external_body]
fn remove_matches(text: &str, regex: &regex::Regex) -> (rest: String)
    ensures
        is_left_of(rest@, text@),
{
    regex.replace_all(text, "").to_string()
}

/// The text of an error of the `regex` crate, as the crate words it.
#[verifier::external_body]
fn regex_error_text(err: &regex::Error) -> String {
    err.to_string()
}

/// Deletes from `text` all that matches `regex`.
pub fn del_regex(text: &str, regex: regex::Regex) -> (rest: String)
    ensures
        is_left_of(rest@, text@),
{
    remove_matches(text, &regex)
}

/// What deleting comes to, given what compiling the expression and taking
/// its matches out gave: the text that is left is handed on as it is, and an
/// expression that did not compile is an error.
pub fn del_removed(removed: Result<String, regex::Error>) -> (rest: Result<String, Box<MessageErr>>)
    ensures
        removed is Ok <==> rest is Ok,
        removed matches Ok(left) ==> rest == Ok::<String, Box<MessageErr>>(left),
{
    match removed {
        Ok(left) => Ok(left),
        Err(err) => Err(crate::rux_debug::throw(regex_error_text(&err))),
    }
}

/// Deletes from `text` all that matches the expression `regex`. An
/// expression that does not compile is an error.
pub fn del_rex(text: &str, regex: &str) -> (rest: Result<String, Box<MessageErr>>)
    ensures
        rest matches Ok(left) ==> left@ == without_matches(regex@, text@) && is_left_of(
            left@,
            text@,
        ),
{
    del_removed(remove_pattern(text, regex))
}

/// What was answered: the line that was read, without the white space at
/// its ends.
pub fn ask(answer: &str) -> (text: String)
    ensures
        text@ == trimmed(answer@),
{
    trim(answer)
}

/// Whether `word`, a text in lower case, says yes to a question: it is `y`,
/// `yes`, `t`, `true` or `1`.
pub open spec fn is_yes_answer(word: Seq<char>) -> bool {
    ||| word == "y"@
    ||| word == "yes"@
    ||| word == "t"@
    ||| word == "true"@
    ||| word == "1"@
}

/// Whether `word`, a text in lower case, says yes to a question.
pub fn is_yes_word(word: &str) -> (yes: bool)
    ensures
        yes == is_yes_answer(word@),
{
    is_equals(word, "y") || is_equals(word, "yes") || is_equals(word, "t") || is_equals(
        word,
        "true",
    ) || is_equals(word, "1")
}

/// Whether the line that was read says yes to a question, white space at
/// its ends and case set aside.
pub fn ask_bool(answer: &str) -> (yes: bool)
    ensures
        yes == is_yes_answer(lowercased(trimmed(answer@))),
{
    let lower = to_lower(trim_text(answer).as_str());
    is_yes_word(lower.as_str())
}

/// Whether `word`, a text in lower case, is one of the words that mean yes:
/// `true`, `t`, `yes`, `y`, `on` and `1`.
pub open spec fn means_yes(word: Seq<char>) -> bool {
    ||| word == "true"@
    ||| word == "t"@
    ||| word == "yes"@
    ||| word == "y"@
    ||| word == "on"@
    ||| word == "1"@
}

/// Whether `value` means yes: it is not empty, and in lower case it is one
/// of the words that mean yes.
pub open spec fn truthy(value: Seq<char>) -> bool {
    value.len() > 0 && means_yes(lowercased(value))
}

/// Whether `word`, a text in lower case, is one of the words that mean yes.
pub fn is_truthy_word(word: &str) -> (yes: bool)
    ensures
        yes == means_yes(word@),
{
    is_equals(word, "true") || is_equals(word, "t") || is_equals(word, "yes") || is_equals(
        word,
        "y",
    ) || is_equals(word, "on") || is_equals(word, "1")
}

/// Whether `value` means yes, in whatever case it is written.
pub fn is_truthy(value: &str) -> (yes: bool)
    ensures
        yes == truthy(value@),
{
    if value.is_empty() {
        return false;
    }
    let lower = to_lower(value);
    is_truthy_word(lower.as_str())
}

/// The records in `records` as mathematical values, in order.
pub open spec fn located(records: Seq<MatchRecord>) -> Seq<Located> {
    records.map_values(|record: MatchRecord| record@)
}

/// Searches the lines of one file for each of `contents` and returns a
/// record for every line and pattern where the line holds the pattern, at
/// the leftmost place where it does. `lines` are the raw lines of the file
/// in order, each with its line terminator. Rows count from one; offsets
/// count bytes.
pub fn text_file_matches(path: &str, lines: &Vec<String>, contents: &Vec<String>) -> (records: Vec<
    MatchRecord,
>)
    requires
        bytes_in(views(lines@)) <= usize::MAX,
    ensures
        located(records@) == file_matches(path@, views(lines@), views(contents@)),
{
    let ghost all_lines = views(lines@);
    let ghost patterns = views(contents@);
    let mut records: Vec<MatchRecord> = Vec::new();
    let mut done: usize = 0;
    let mut i: usize = 0;
    while i < lines.len()
        invariant
            i <= lines@.len(),
            all_lines == views(lines@),
            patterns == views(contents@),
            bytes_in(all_lines) <= usize::MAX,
            done == bytes_in(all_lines.take(i as int)),
            located(records@) == file_matches(path@, all_lines.take(i as int), patterns),
        decreases lines@.len() - i,
    {
        let line = lines[i].as_str();
        let row: usize = i + 1;
        let ghost upto = all_lines.take(i + 1);
        let ghost above = file_matches(path@, all_lines.take(i as int), patterns);
        proof {
            assert(upto.drop_last() =~= all_lines.take(i as int));
            assert(upto.last() == line@);
            lemma_bytes_in_prefix(all_lines, i + 1);
        }
        let mut j: usize = 0;
        while j < contents.len()
            invariant
                j <= contents@.len(),
                patterns == views(contents@),
                i < all_lines.len(),
                line@ == all_lines[i as int],
                row == i + 1,
                done + bytes_of(line@).len() <= usize::MAX,
                located(records@) == above + line_matches(
                    path@,
                    row as nat,
                    done as nat,
                    line@,
                    patterns.take(j as int),
                ),
            decreases contents@.len() - j,
        {
            let content = contents[j].as_str();
            let found = find_bytes(line.as_bytes(), content.as_bytes());
            proof {
                let seen = patterns.take(j + 1);
                assert(seen.drop_last() =~= patterns.take(j as int));
                assert(seen.last() == content@);
                lemma_first_occurrence(bytes_of(line@), bytes_of(content@));
            }
            let ghost earlier = located(records@);
            match found {
                Some(col) => {
                    assert(is_first_occurrence(bytes_of(line@), bytes_of(content@), col as int));
                    let record = MatchRecord {
                        path: String::from_str(path),
                        row,
                        col,
                        pos: done + col,
                        len: content.len(),
                        line: trim_text(line),
                    };
                    assert(Some(record@) == located_in_line(
                        path@,
                        row as nat,
                        done as nat,
                        line@,
                        content@,
                    ));
                    records.push(record);
                    assert(located(records@) =~= earlier.push(record@));
                },
                None => {},
            }
            j += 1;
        }
        proof {
            assert(patterns.take(j as int) =~= patterns);
        }
        done = done + line.len();
        i += 1;
    }
    proof {
        assert(all_lines.take(i as int) =~= all_lines);
    }
    records
}

/// Searches the lines of one file for each of `contents` and returns the
/// descriptors of what it found, in the order of the lines and, within a
/// line, of the patterns; there is no list where the lines hold none of the
/// patterns.
pub fn text_lines_find_any(path: &str, lines: &Vec<String>, contents: &Vec<String>) -> (found:
    Option<Vec<String>>)
    requires
        bytes_in(views(lines@)) <= usize::MAX,
    ensures
        listed(found) == reported(file_matches(path@, views(lines@), views(contents@))),
{
    let records = text_file_matches(path, lines, contents);
    if records.len() == 0 {
        return None;
    }
    let mut results: Vec<String> = Vec::new();
    let mut k: usize = 0;
    while k < records.len()
        invariant
            k <= records@.len(),
            views(results@) == descriptors(located(records@).take(k as int)),
        decreases records@.len() - k,
    {
        let text = records[k].encode();
        let ghost earlier = views(results@);
        results.push(text);
        proof {
            let seen = located(records@).take(k + 1);
            assert(seen.drop_last() =~= located(records@).take(k as int));
            assert(views(results@) =~= earlier.push(text@));
            assert(descriptors(seen) =~= descriptors(seen.drop_last()).push(
                seen.last().descriptor(),
            ));
        }
        k += 1;
    }
    proof {
        assert(located(records@).take(k as int) =~= located(records@));
    }
    Some(results)
}

/// Cuts a text into its raw lines: each line keeps the line feed that ends
/// it, and the last line is what follows the last line feed, if anything
/// does.
pub fn raw_lines(text: &str) -> (lines: Vec<String>)
    ensures
        views(lines@) == raw_lines_of(text@),
{
    let chars = chars_of(text);
    let mut lines: Vec<String> = Vec::new();
    let mut line = String::new();
    let mut i: usize = 0;
    while i < chars.len()
        invariant
            i <= chars@.len(),
            views(lines@) == lining_of(chars@.take(i as int)).done,
            line@ == lining_of(chars@.take(i as int)).open,
        decreases chars@.len() - i,
    {
        proof {
            let seen = chars@.take(i + 1);
            assert(seen.drop_last() =~= chars@.take(i as int));
            assert(seen.last() == chars@[i as int]);
        }
        let ghost before = views(lines@);
        push_char(&mut line, chars[i]);
        if chars[i] == '\n' {
            let ghost whole = line@;
            lines.push(line);
            line = String::new();
            assert(views(lines@) =~= before.push(whole));
        }
        i += 1;
    }
    proof {
        assert(chars@.take(i as int) =~= chars@);
    }
    if !line.as_str().is_empty() {
        let ghost before = views(lines@);
        let ghost whole = line@;
        lines.push(line);
        assert(views(lines@) =~= before.push(whole));
    }
    lines
}

/// Searches the text of one file for each of `contents` and returns the
/// descriptors of what it found in the raw lines of the text, in the order
/// of the lines and, within a line, of the patterns; there is no list where
/// the text holds none of the patterns.
pub fn text_find_any(path: &str, text: &str, contents: &Vec<String>) -> (found: Option<Vec<String>>)
    ensures
        listed(found) == reported(file_matches(path@, raw_lines_of(text@), views(contents@))),
{
    let size = len(text);
    let lines = raw_lines(text);
    proof {
        lemma_raw_lines_make_the_text(text@);
    }
    text_lines_find_any(path, &lines, contents)
}

/// Searches one file for each of `contents`. `read` is what reading the file
/// gave: where reading failed, the search fails with the same error and
/// reports nothing; else it reports what `text_find_any` finds in the text.
pub fn text_file_find_any(path: &str, read: Result<String, Box<MessageErr>>, contents: Vec<String>) -> (found:
    Result<Option<Vec<String>>, Box<MessageErr>>)
    ensures
        match read {
            Ok(text) => found matches Ok(list) && listed(list) == reported(
                file_matches(path@, raw_lines_of(text@), views(contents@)),
            ),
            Err(err) => found == Err::<Option<Vec<String>>, Box<MessageErr>>(err),
        },
{
    match read {
        Ok(text) => Ok(text_find_any(path, text.as_str(), &contents)),
        Err(err) => Err(err),
    }
}

/// Searches one file for `content` alone: `text_file_find_any` with a single
/// pattern.
pub fn text_file_find(path: &str, read: Result<String, Box<MessageErr>>, content: String) -> (found:
    Result<Option<Vec<String>>, Box<MessageErr>>)
    ensures
        match read {
            Ok(text) => found matches Ok(list) && listed(list) == reported(
                file_matches(path@, raw_lines_of(text@), seq![content@]),
            ),
            Err(err) => found == Err::<Option<Vec<String>>, Box<MessageErr>>(err),
        },
{
    let mut contents: Vec<String> = Vec::new();
    contents.push(content);
    assert(views(contents@) =~= seq![content@]);
    text_file_find_any(path, read, contents)
}

/// The number of workers that a search over many files starts: the number of
/// logical processors that the machine reports, and never less than one.
pub fn worker_count() -> (count: usize)
    ensures
        count >= 1,
{
    workers_for(logical_processors())
}

/// The number of workers on a machine with `cpus` logical processors: one
/// for each processor, and one where the machine tells of none.
pub open spec fn workers_on(cpus: nat) -> nat {
    if cpus < 1 {
        1
    } else {
        cpus
    }
}

/// The number of workers that a search over many files starts on a machine
/// that reports `cpus` logical processors.
pub fn workers_for(cpus: usize) -> (count: usize)
    ensures
        count == workers_on(cpus as nat),
{
    if cpus < 1 {
        1
    } else {
        cpus
    }
}

/// `num_cpus::get`: the number of logical processors that the process may
/// use, as the system reports it. Nothing is claimed of the number.
#[verifier::external_body]
fn logical_processors() -> usize {
    num_cpus::get()
}

/// What one worker does with one file that it took: it searches the file
/// for `contents` and adds what the search reports to what it holds. A file
/// that could not be read is a failure, with the error of that file, and
/// leaves what the worker holds as it was.
pub fn work_on(partial: &mut Option<Vec<String>>, file: TextFile, contents: &Vec<String>) -> (done:
    Result<(), Box<MessageErr>>)
    ensures
        match file.read {
            Ok(_) => done is Ok && listed(*final(partial)) == gathered(
                listed(*old(partial)),
                file.found(views(contents@)),
            ),
            Err(err) => done == Err::<(), Box<MessageErr>>(err) && *final(partial) == *old(
                partial,
            ),
        },
{
    match file.read {
        Ok(text) => {
            let found = text_find_any(file.path.as_str(), text.as_str(), contents);
            gather(partial, found);
            Ok(())
        },
        Err(err) => Err(err),
    }
}

/// What one worker does: it takes files from the pool until the pool is
/// empty, searches each for `contents` and gathers what the searches report.
/// A file that could not be read ends the worker at once, with the error of
/// that file; the files it has not taken stay in the pool.
pub fn work_through(pool: &mut Pool<TextFile>, contents: &Vec<String>) -> (outcome: Result<
    Option<Vec<String>>,
    Box<MessageErr>,
>)
    ensures
        match outcome {
            Ok(partial) => {
                &&& final(pool)@.len() == 0
                &&& forall|k: int| 0 <= k < old(pool)@.len() ==> (#[trigger] old(pool)@[k]).read is Ok
                &&& listed(partial) == merged(
                    found_in_each(old(pool)@, views(contents@)).reverse(),
                )
            },
            Err(err) => exists|k: int|
                {
                    &&& 0 <= k < old(pool)@.len()
                    &&& (#[trigger] old(pool)@[k]).read == Err::<String, Box<MessageErr>>(err)
                    &&& forall|j: int|
                        k < j < old(pool)@.len() ==> (#[trigger] old(pool)@[j]).read is Ok
                    &&& final(pool)@ == old(pool)@.take(k)
                },
        },
{
    let ghost files = pool@;
    let ghost each = found_in_each(files, views(contents@)).reverse();
    let mut partial: Option<Vec<String>> = None;
    loop
        invariant
            files == old(pool)@,
            each == found_in_each(files, views(contents@)).reverse(),
            pool@.len() <= files.len(),
            pool@ == files.take(pool@.len() as int),
            forall|j: int| pool@.len() <= j < files.len() ==> (#[trigger] files[j]).read is Ok,
            listed(partial) == merged(each.take(files.len() - pool@.len())),
        decreases pool@.len(),
    {
        let ghost left = pool@.len();
        let file = match pool.take() {
            Some(file) => file,
            None => {
                proof {
                    assert(each.take(files.len() as int) =~= each);
                }
                return Ok(partial);
            },
        };
        proof {
            assert(file == files[left - 1]);
            assert(pool@ =~= files.take(left - 1));
            let seen = each.take(files.len() - left + 1);
            assert(seen.drop_last() =~= each.take(files.len() - left));
            assert(seen.last() == file.found(views(contents@)));
        }
        match work_on(&mut partial, file, contents) {
            Ok(()) => {},
            Err(err) => {
                return Err(err);
            },
        }
    }
}

/// Searches many files for each of `contents`, one worker after another on
/// the same pool of files, each worker as `work_through` describes, and
/// joins the workers as `join_partials` describes.
///
/// If any file could not be read, the whole search fails and reports nothing
/// of what the other files hold; the failure is that of the unreadable file
/// nearest the end of `files`, the first to be taken. If every file was read,
/// the search reports what it found in each, the last file first; there is
/// no list where no file holds any of the patterns.
pub fn text_files_find_any(files: Vec<TextFile>, contents: Vec<String>) -> (found: Result<
    Option<Vec<String>>,
    Box<MessageErr>,
>)
    ensures
        found is Err <==> exists|k: int| 0 <= k < files@.len() && (#[trigger] files@[k]).read is Err,
        found matches Err(err) ==> exists|k: int|
            {
                &&& 0 <= k < files@.len()
                &&& (#[trigger] files@[k]).read == Err::<String, Box<MessageErr>>(err)
                &&& forall|j: int| k < j < files@.len() ==> (#[trigger] files@[j]).read is Ok
            },
        found matches Ok(list) ==> listed(list) == merged(
            found_in_each(files@, views(contents@)).reverse(),
        ),
        (forall|k: int|
            0 <= k < files@.len() ==> (#[trigger] files@[k]).read is Ok && files@[k].found(
                views(contents@),
            ) is None) ==> (found matches Ok(list) && list is None),
{
    let ghost all = files@;
    proof {
        lemma_nothing_found(found_in_each(all, views(contents@)));
    }
    let workers = worker_count();
    let mut pool = Pool::new(files);
    let first = work_through(&mut pool, &contents);
    let ghost first_outcome = first;
    let mut outcomes: Vec<Result<Option<Vec<String>>, Box<MessageErr>>> = Vec::new();
    outcomes.push(first);
    let mut started: usize = 1;
    while started < workers
        invariant
            1 <= started,
            outcomes@.len() == started,
            outcomes@[0] == first_outcome,
            first_outcome is Ok ==> pool@.len() == 0 && forall|w: int|
                1 <= w < outcomes@.len() ==> partial_of(#[trigger] outcomes@[w]) is None
                    && outcomes@[w] is Ok,
        decreases workers - started,
    {
        let ghost waiting = pool@;
        let outcome = work_through(&mut pool, &contents);
        proof {
            if first_outcome is Ok {
                assert(found_in_each(waiting, views(contents@)).reverse() =~= Seq::<
                    Option<Seq<Seq<char>>>,
                >::empty());
            }
        }
        outcomes.push(outcome);
        started += 1;
    }
    proof {
        if first_outcome is Ok {
            lemma_merged_first(partials_of(outcomes@));
        }
    }
    join_partials(outcomes)
}

/// Searches many files for `content` alone: `text_files_find_any` with a
/// single pattern.
pub fn text_files_find(files: Vec<TextFile>, content: String) -> (found: Result<
    Option<Vec<String>>,
    Box<MessageErr>,
>)
    ensures
        found is Err <==> exists|k: int| 0 <= k < files@.len() && (#[trigger] files@[k]).read is Err,
        found matches Err(err) ==> exists|k: int|
            {
                &&& 0 <= k < files@.len()
                &&& (#[trigger] files@[k]).read == Err::<String, Box<MessageErr>>(err)
                &&& forall|j: int| k < j < files@.len() ==> (#[trigger] files@[j]).read is Ok
            },
        found matches Ok(list) ==> listed(list) == merged(
            found_in_each(files@, seq![content@]).reverse(),
        ),
        (forall|k: int|
            0 <= k < files@.len() ==> (#[trigger] files@[k]).read is Ok && files@[k].found(
                seq![content@],
            ) is None) ==> (found matches Ok(list) && list is None),
{
    let mut contents: Vec<String> = Vec::new();
    contents.push(content);
    assert(views(contents@) =~= seq![content@]);
    text_files_find_any(files, contents)
}

/// Where only the first of the workers held anything, merging gives what it
/// held.
proof fn lemma_merged_first(partials: Seq<Option<Seq<Seq<char>>>>)
    requires
        partials.len() >= 1,
        forall|w: int| 1 <= w < partials.len() ==> #[trigger] partials[w] is None,
    ensures
        merged(partials) == partials[0],
    decreases partials.len(),
{
    if partials.len() == 1 {
        assert(partials.drop_last() =~= Seq::<Option<Seq<Seq<char>>>>::empty());
        assert(merged(partials.drop_last()) is None);
        assert(partials.last() == partials[0]);
    } else {
        assert(partials[partials.len() - 1] is None);
        lemma_merged_first(partials.drop_last());
    }
}

/// Decodes a descriptor into its fields: the path, the four numbers as they
/// are written, and the line. The first character is skipped unread. There
/// is no malformed input: a text that is no descriptor gives fewer fields,
/// or fields that hold what the decoder gathered.
pub fn text_file_founds(found: &str) -> (fields: Vec<String>)
    ensures
        views(fields@) == decoded(found@),
{
    let mut result: Vec<String> = Vec::new();
    let mut actual = String::new();
    let mut first = true;
    let ghost mut state = Decoding::start();
    for ch in it: found.chars()
        invariant
            it.seq() == found@,
            first <==> it.index() == 0,
            !first ==> state == Decoding::start().read_all(found@.subrange(1, it.index() as int)),
            first ==> state == Decoding::start(),
            state.closed == views(result@),
            state.open == actual@,
    {
        if first {
            first = false;
            proof {
                assert(found@.subrange(1, 1) =~= Seq::<char>::empty());
            }
        } else {
            proof {
                let before = found@.subrange(1, it.index() as int);
                let after = found@.subrange(1, it.index() + 1);
                assert(after.drop_last() =~= before);
                assert(after.last() == ch);
                state = state.read(ch);
            }
            if result.len() == 0 {
                if ch == ')' {
                    result.push(actual.clone());
                    actual = String::new();
                } else {
                    push_char(&mut actual, ch);
                }
            } else if result.len() < 5 {
                if ch == ',' || ch == ']' {
                    result.push(actual.clone());
                    actual = String::new();
                } else if '0' <= ch && ch <= '9' {
                    push_char(&mut actual, ch);
                }
            } else {
                push_char(&mut actual, ch);
            }
            assert(views(result@) =~= state.closed);
        }
    }
    result.push(actual);
    proof {
        assert(views(result@) =~= state.finish());
        if found@.len() > 0 {
            assert(found@.subrange(1, found@.len() as int) =~= found@.drop_first());
        }
    }
    result
}

} // verus!
