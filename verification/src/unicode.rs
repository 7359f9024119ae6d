//! What Unicode says of characters and texts: which characters are white
//! space, and what the lower-case and upper-case forms of a text are.

use crate::letters::{chars_of, text_between};
use vstd::prelude::*;

verus! {

/// Whether `c` is white space: whether it has Unicode's property
/// `White_Space`. Those are the space, the five controls from the tab to the
/// carriage return, the next-line control, the no-break space, the ogham
/// space mark, the eleven spaces from the en quad to the hair space, the
/// line and the paragraph separator, the narrow no-break space, the medium
/// mathematical space and the ideographic space.
pub open spec fn is_white_space(c: char) -> bool {
    let code = c as u32;
    ||| code == 0x20
    ||| 0x09 <= code <= 0x0D
    ||| code == 0x85
    ||| code == 0xA0
    ||| code == 0x1680
    ||| 0x2000 <= code <= 0x200A
    ||| code == 0x2028
    ||| code == 0x2029
    ||| code == 0x202F
    ||| code == 0x205F
    ||| code == 0x3000
}

/// `text` without the white space it starts with.
pub open spec fn trimmed_start(text: Seq<char>) -> Seq<char>
    decreases text.len(),
{
    if text.len() > 0 && is_white_space(text.first()) {
        trimmed_start(text.drop_first())
    } else {
        text
    }
}

/// `text` without the white space it ends with.
pub open spec fn trimmed_end(text: Seq<char>) -> Seq<char>
    decreases text.len(),
{
    if text.len() > 0 && is_white_space(text.last()) {
        trimmed_end(text.drop_last())
    } else {
        text
    }
}

/// `text` without the white space at either end.
pub open spec fn trimmed(text: Seq<char>) -> Seq<char> {
    trimmed_end(trimmed_start(text))
}

/// `char::is_whitespace` of the standard library, which tells whether a
/// character has Unicode's property `White_Space`. The claim is made for the
/// characters beyond the first 128, where the property holds of the
/// seventeen characters that `is_white_space` lists there.
#[verifier::external_body]
fn white_space_by_unicode(c: char) -> (yes: bool)
    ensures
        (c as u32) >= 128 ==> yes == is_white_space(c),
{
    c.is_whitespace()
}

/// Whether `c` is white space.
pub fn char_is_whitespace(c: char) -> (yes: bool)
    ensures
        yes == is_white_space(c),
{
    if (c as u32) < 128 {
        c == ' ' || ('\t' <= c && c <= '\r')
    } else {
        white_space_by_unicode(c)
    }
}

/// Taking white space off the start of a text takes it off what follows the
/// white space it starts with.
proof fn lemma_trimmed_start_skips(text: Seq<char>, count: int)
    requires
        0 <= count <= text.len(),
        forall|i: int| 0 <= i < count ==> is_white_space(#[trigger] text[i]),
    ensures
        trimmed_start(text) == trimmed_start(text.skip(count)),
    decreases count,
{
    if count == 0 {
        assert(text.skip(0) =~= text);
    } else {
        assert(is_white_space(text[0]));
        assert(text.drop_first().skip(count - 1) =~= text.skip(count));
        assert forall|i: int| 0 <= i < count - 1 implies is_white_space(
            #[trigger] text.drop_first()[i],
        ) by {
            assert(text.drop_first()[i] == text[i + 1]);
        }
        lemma_trimmed_start_skips(text.drop_first(), count - 1);
    }
}

/// Taking white space off the end of a text takes it off what stands before
/// the white space it ends with.
proof fn lemma_trimmed_end_takes(text: Seq<char>, count: int)
    requires
        0 <= count <= text.len(),
        forall|i: int| count <= i < text.len() ==> is_white_space(#[trigger] text[i]),
    ensures
        trimmed_end(text) == trimmed_end(text.take(count)),
    decreases text.len() - count,
{
    if count == text.len() {
        assert(text.take(count) =~= text);
    } else {
        assert(is_white_space(text[text.len() - 1]));
        assert(text.drop_last().take(count) =~= text.take(count));
        assert forall|i: int| count <= i < text.drop_last().len() implies is_white_space(
            #[trigger] text.drop_last()[i],
        ) by {
            assert(text.drop_last()[i] == text[i]);
        }
        lemma_trimmed_end_takes(text.drop_last(), count);
    }
}

/// The text that is left of `text` when the white space at its start and at
/// its end is taken away.
pub fn trim_text(text: &str) -> (inner: String)
    ensures
        inner@ == trimmed(text@),
{
    let chars = chars_of(text);
    let mut from: usize = 0;
    while from < chars.len() && char_is_whitespace(chars[from])
        invariant
            from <= chars@.len(),
            forall|i: int| 0 <= i < from ==> is_white_space(#[trigger] chars@[i]),
        decreases chars@.len() - from,
    {
        from += 1;
    }
    let mut to: usize = chars.len();
    while to > from && char_is_whitespace(chars[to - 1])
        invariant
            from <= to <= chars@.len(),
            forall|i: int| to <= i < chars@.len() ==> is_white_space(#[trigger] chars@[i]),
        decreases to,
    {
        to -= 1;
    }
    proof {
        let rest = chars@.skip(from as int);
        lemma_trimmed_start_skips(chars@, from as int);
        if from < chars@.len() {
            assert(rest[0] == chars@[from as int]);
        }
        assert(trimmed_start(rest) == rest);
        assert forall|i: int| to - from <= i < rest.len() implies is_white_space(
            #[trigger] rest[i],
        ) by {
            assert(rest[i] == chars@[i + from]);
        }
        lemma_trimmed_end_takes(rest, to - from);
        let inner = rest.take(to - from);
        if to > from {
            assert(inner.last() == chars@[to - 1]);
        }
        assert(trimmed_end(inner) == inner);
        assert(inner =~= chars@.subrange(from as int, to as int));
    }
    text_between(&chars, from, to)
}

/// The lower-case form that Unicode gives a text.
pub uninterp spec fn lowercased(text: Seq<char>) -> Seq<char>;

/// The upper-case form that Unicode gives a text.
pub uninterp spec fn uppercased(text: Seq<char>) -> Seq<char>;

/// `str::to_lowercase` of the standard library: the lower-case form of the
/// text by Unicode's rules, which depends on nothing but the text.
#[verifier::external_body]
pub(crate) fn to_lower(text: &str) -> (lower: String)
    ensures
        lower@ == lowercased(text@),
{
    text.to_lowercase()
}

/// `str::to_uppercase` of the standard library: the upper-case form of the
/// text by Unicode's rules, which depends on nothing but the text.
#[verifier::external_body]
pub(crate) fn to_upper(text: &str) -> (upper: String)
    ensures
        upper@ == uppercased(text@),
{
    text.to_uppercase()
}

/// The lower-case form that Unicode gives one character, as a text: one
/// character or, for a few, more.
pub uninterp spec fn lowercased_char(c: char) -> Seq<char>;

/// `char::to_lowercase` of the standard library, its characters gathered
/// into a text: the lower-case form of the character by Unicode's rules.
#[verifier::external_body]
pub(crate) fn char_to_lower(c: char) -> (lower: String)
    ensures
        lower@ == lowercased_char(c),
{
    c.to_lowercase().to_string()
}

} // verus!
