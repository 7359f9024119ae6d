//! The runs of a text: its pieces between separators.

use vstd::prelude::*;

verus! {

/// What has been cut off a text so far: the runs that are complete, and the
/// characters of the run that is still open.
pub struct Cutting {
    pub done: Seq<Seq<char>>,
    pub open: Seq<char>,
}

impl Cutting {
    /// The runs, the open one included if it holds anything.
    pub open spec fn all(self) -> Seq<Seq<char>> {
        if self.open.len() > 0 {
            self.done.push(self.open)
        } else {
            self.done
        }
    }

    /// The cutting after one more character: a separator completes the open
    /// run, if that holds anything, and any other character joins it.
    pub open spec fn cut(self, c: char, separates: spec_fn(char) -> bool) -> Cutting {
        if separates(c) {
            Cutting { done: self.all(), open: seq![] }
        } else {
            Cutting { done: self.done, open: self.open.push(c) }
        }
    }
}

/// The cutting of a whole text, read from left to right.
pub open spec fn cutting_of(text: Seq<char>, separates: spec_fn(char) -> bool) -> Cutting
    decreases text.len(),
{
    if text.len() == 0 {
        Cutting { done: seq![], open: seq![] }
    } else {
        cutting_of(text.drop_last(), separates).cut(text.last(), separates)
    }
}

/// The runs of `text`: the longest stretches without a separator, in order.
/// Separators belong to no run, and no run is empty.
pub open spec fn runs(text: Seq<char>, separates: spec_fn(char) -> bool) -> Seq<Seq<char>> {
    cutting_of(text, separates).all()
}

/// Whether `run` holds a character and holds no separator.
pub open spec fn is_run(run: Seq<char>, separates: spec_fn(char) -> bool) -> bool {
    run.len() > 0 && forall|i: int| 0 <= i < run.len() ==> !separates(#[trigger] run[i])
}

/// No run is empty, and no run holds a separator.
pub proof fn lemma_runs_are_clean(text: Seq<char>, separates: spec_fn(char) -> bool)
    ensures
        forall|k: int|
            0 <= k < runs(text, separates).len() ==> is_run(
                #[trigger] runs(text, separates)[k],
                separates,
            ),
{
    lemma_cutting_is_clean(text, separates);
}

proof fn lemma_cutting_is_clean(text: Seq<char>, separates: spec_fn(char) -> bool)
    ensures
        forall|k: int|
            0 <= k < cutting_of(text, separates).done.len() ==> is_run(
                #[trigger] cutting_of(text, separates).done[k],
                separates,
            ),
        forall|i: int|
            0 <= i < cutting_of(text, separates).open.len() ==> !separates(
                #[trigger] cutting_of(text, separates).open[i],
            ),
    decreases text.len(),
{
    if text.len() > 0 {
        lemma_cutting_is_clean(text.drop_last(), separates);
        let before = cutting_of(text.drop_last(), separates);
        let after = cutting_of(text, separates);
        let c = text.last();
        assert(after == before.cut(c, separates));
        assert forall|k: int| 0 <= k < after.done.len() implies is_run(
            #[trigger] after.done[k],
            separates,
        ) by {
            if k < before.done.len() {
                assert(after.done[k] == before.done[k]);
            } else {
                assert(after.done[k] == before.open);
            }
        }
        assert forall|i: int| 0 <= i < after.open.len() implies !separates(
            #[trigger] after.open[i],
        ) by {
            if i < before.open.len() {
                assert(after.open[i] == before.open[i]);
            }
        }
    }
}

} // verus!
