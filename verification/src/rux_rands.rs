//! Random numbers and random texts.

use crate::letters::{push_char, views};
use rand::Rng;
use vstd::prelude::*;

verus! {

/// The generator of random numbers that the `rand` crate keeps for each
/// thread.
#[verifier::external_type_specification]
#[verifier::external_body]
pub struct ExThreadRng(rand::rngs::ThreadRng);

/// `rand::thread_rng`: a handle on the generator of the running thread.
#[verifier::external_body]
fn thread_generator() -> rand::rngs::ThreadRng {
    rand::thread_rng()
}

/// `Rng::gen_range` of the `rand` crate on a half-open range of `u32`: some
/// number of the range, `min` included and `max` not. The crate refuses an
/// empty range.
#[verifier::external_body]
fn pick_between(generator: &mut rand::rngs::ThreadRng, min: u32, max: u32) -> (number: u32)
    requires
        min < max,
    ensures
        min <= number < max,
{
    generator.gen_range(min..max)
}

/// `Rng::sample` of the `rand` crate with its distribution `Alphanumeric`:
/// the code of some letter `a` to `z` or `A` to `Z`, or of some digit.
#[verifier::external_body]
fn pick_alphanumeric(generator: &mut rand::rngs::ThreadRng) -> (code: u8)
    ensures
        is_alphanumeric(code as char),
{
    generator.sample(rand::distributions::Alphanumeric)
}

/// Whether `c` is a letter of the basic Latin alphabet, small or capital, or
/// one of the ten digits.
pub open spec fn is_alphanumeric(c: char) -> bool {
    ||| 'a' <= c <= 'z'
    ||| 'A' <= c <= 'Z'
    ||| '0' <= c <= '9'
}

/// Whether `text` has `count` characters, all of them letters of the basic
/// Latin alphabet or digits.
pub open spec fn is_alphanumeric_text(text: Seq<char>, count: nat) -> bool {
    &&& text.len() == count
    &&& forall|i: int| 0 <= i < text.len() ==> is_alphanumeric(#[trigger] text[i])
}

/// A random number from `min` up to, but not including, `max`.
pub fn range(min: u32, max: u32) -> (number: u32)
    requires
        min < max,
    ensures
        min <= number < max,
{
    let mut generator = thread_generator();
    pick_between(&mut generator, min, max)
}

/// A random text of `count` letters and digits.
pub fn chars(count: usize) -> (text: String)
    ensures
        is_alphanumeric_text(text@, count as nat),
{
    let mut generator = thread_generator();
    let mut text = String::new();
    let mut made: usize = 0;
    while made < count
        invariant
            made <= count,
            is_alphanumeric_text(text@, made as nat),
        decreases count - made,
    {
        let code = pick_alphanumeric(&mut generator);
        push_char(&mut text, code as char);
        made += 1;
    }
    text
}

/// `lines_count` random texts of `chars_count` letters and digits each.
pub fn lines(lines_count: usize, chars_count: usize) -> (texts: Vec<String>)
    ensures
        texts@.len() == lines_count,
        forall|k: int|
            0 <= k < texts@.len() ==> is_alphanumeric_text(
                #[trigger] views(texts@)[k],
                chars_count as nat,
            ),
{
    let mut texts: Vec<String> = Vec::new();
    let mut made: usize = 0;
    while made < lines_count
        invariant
            made <= lines_count,
            texts@.len() == made,
            forall|k: int|
                0 <= k < texts@.len() ==> is_alphanumeric_text(
                    #[trigger] views(texts@)[k],
                    chars_count as nat,
                ),
        decreases lines_count - made,
    {
        let text = chars(chars_count);
        let ghost before = views(texts@);
        texts.push(text);
        proof {
            assert(views(texts@) =~= before.push(text@));
            assert forall|k: int| 0 <= k < texts@.len() implies is_alphanumeric_text(
                #[trigger] views(texts@)[k],
                chars_count as nat,
            ) by {
                if k < before.len() {
                    assert(views(texts@)[k] == before[k]);
                }
            }
        }
        made += 1;
    }
    texts
}

} // verus!
