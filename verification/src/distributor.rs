//! The parts of a search over many files: the pool of pending work, what one
//! worker gathers, and how the workers' results become one.

use crate::letters::views;
use crate::rux_debug::MessageErr;
use crate::scanning::{file_matches, raw_lines_of, reported};
use vstd::prelude::*;

verus! {

/// Work that waits to be taken. Each item is handed out once, to whoever
/// takes it; the item added last leaves first.
pub struct Pool<T> {
    pending: Vec<T>,
}

impl<T> View for Pool<T> {
    type V = Seq<T>;

    closed spec fn view(&self) -> Seq<T> {
        self.pending@
    }
}

impl<T> Pool<T> {
    /// A pool that holds `items`.
    pub fn new(items: Vec<T>) -> (pool: Pool<T>)
        ensures
            pool@ == items@,
    {
        Pool { pending: items }
    }

    /// The number of items that wait.
    pub fn len(&self) -> (count: usize)
        ensures
            count == self@.len(),
    {
        self.pending.len()
    }

    /// Takes one item out of the pool, or finds the pool empty.
    pub fn take(&mut self) -> (item: Option<T>)
        ensures
            old(self)@.len() == 0 ==> item is None && final(self)@ == old(self)@,
            old(self)@.len() > 0 ==> item == Some(old(self)@.last()) && final(self)@ == old(
                self,
            )@.drop_last(),
    {
        self.pending.pop()
    }
}

/// A file as a search over many files sees it: its path, and what reading
/// it gave.
pub struct TextFile {
    /// The path, as the caller wrote it.
    pub path: String,
    /// The text that the file holds, or the error that reading met.
    pub read: Result<String, Box<MessageErr>>,
}

impl TextFile {
    /// What a search for `patterns` reports for this file, if it was read.
    pub open spec fn found(self, patterns: Seq<Seq<char>>) -> Option<Seq<Seq<char>>> {
        match self.read {
            Ok(text) => reported(file_matches(self.path@, raw_lines_of(text@), patterns)),
            Err(_) => None,
        }
    }
}

/// What a search for `patterns` reports for each of `files`, in order.
pub open spec fn found_in_each(files: Seq<TextFile>, patterns: Seq<Seq<char>>) -> Seq<
    Option<Seq<Seq<char>>>,
> {
    files.map_values(|file: TextFile| file.found(patterns))
}

/// A list of texts, if there is one, as a mathematical value.
pub open spec fn listed(texts: Option<Vec<String>>) -> Option<Seq<Seq<char>>> {
    match texts {
        Some(list) => Some(views(list@)),
        None => None,
    }
}

/// What a worker holds after it has added `found` to `partial`: without
/// `found` what it held, else all it held followed by `found`.
pub open spec fn gathered(partial: Option<Seq<Seq<char>>>, found: Option<Seq<Seq<char>>>) -> Option<
    Seq<Seq<char>>,
> {
    match found {
        None => partial,
        Some(more) => match partial {
            None => Some(more),
            Some(held) => Some(held + more),
        },
    }
}

/// All of `partials` gathered into one, from the first to the last.
pub open spec fn merged(partials: Seq<Option<Seq<Seq<char>>>>) -> Option<Seq<Seq<char>>>
    decreases partials.len(),
{
    if partials.len() == 0 {
        None
    } else {
        gathered(merged(partials.drop_last()), partials.last())
    }
}

/// What a worker that ended normally held, and nothing for one that failed.
pub open spec fn partial_of(outcome: Result<Option<Vec<String>>, Box<MessageErr>>) -> Option<
    Seq<Seq<char>>,
> {
    match outcome {
        Ok(partial) => listed(partial),
        Err(_) => None,
    }
}

/// What each of the workers held, in the order of the workers.
pub open spec fn partials_of(outcomes: Seq<Result<Option<Vec<String>>, Box<MessageErr>>>) -> Seq<
    Option<Seq<Seq<char>>>,
> {
    outcomes.map_values(|outcome: Result<Option<Vec<String>>, Box<MessageErr>>| partial_of(outcome))
}

/// Merging gives nothing exactly when there is nothing to merge.
pub proof fn lemma_merged_none(partials: Seq<Option<Seq<Seq<char>>>>)
    ensures
        merged(partials) is None <==> forall|k: int|
            0 <= k < partials.len() ==> #[trigger] partials[k] is None,
    decreases partials.len(),
{
    if partials.len() > 0 {
        lemma_merged_none(partials.drop_last());
        if merged(partials) is None {
            assert forall|k: int| 0 <= k < partials.len() implies #[trigger] partials[k] is None by {
                if k < partials.len() - 1 {
                    assert(partials.drop_last()[k] is None);
                }
            }
        } else {
            if forall|k: int| 0 <= k < partials.len() ==> #[trigger] partials[k] is None {
                assert(partials[partials.len() - 1] is None);
                assert forall|k: int| 0 <= k < partials.drop_last().len() implies #[trigger] partials.drop_last()[k] is None by {
                    assert(partials[k] is None);
                }
            }
        }
    }
}

/// Where no file gives anything, a search over all of them gives no list, in
/// whatever order the files are taken.
pub proof fn lemma_nothing_found(each: Seq<Option<Seq<Seq<char>>>>)
    ensures
        (forall|k: int| 0 <= k < each.len() ==> #[trigger] each[k] is None) ==> merged(
            each.reverse(),
        ) is None && merged(each) is None,
{
    lemma_merged_none(each);
    lemma_merged_none(each.reverse());
    if forall|k: int| 0 <= k < each.len() ==> #[trigger] each[k] is None {
        assert forall|k: int| 0 <= k < each.reverse().len() implies #[trigger] each.reverse()[k] is None by {
            assert(each[each.len() - 1 - k] is None);
        }
    }
}

/// Adds what one scan found to what a worker holds.
pub fn gather(partial: &mut Option<Vec<String>>, found: Option<Vec<String>>)
    ensures
        listed(*final(partial)) == gathered(listed(*old(partial)), listed(found)),
{
    match found {
        None => {},
        Some(mut more) => {
            let held = partial.take();
            match held {
                None => {
                    *partial = Some(more);
                },
                Some(mut list) => {
                    let ghost before = views(list@);
                    let ghost added = views(more@);
                    list.append(&mut more);
                    assert(views(list@) =~= before + added);
                    *partial = Some(list);
                },
            }
        },
    }
}

/// Joins the workers, in the order in which they were started. If any worker
/// failed, the whole search fails, with the failure of the first such worker,
/// and what the others held is dropped. If none failed, what they held is
/// merged in that same order; nothing held by anyone gives no list.
pub fn join_partials(outcomes: Vec<Result<Option<Vec<String>>, Box<MessageErr>>>) -> (joined:
    Result<Option<Vec<String>>, Box<MessageErr>>)
    ensures
        joined is Err <==> exists|k: int| 0 <= k < outcomes@.len() && #[trigger] outcomes@[k] is Err,
        joined matches Err(err) ==> exists|k: int|
            0 <= k < outcomes@.len() && #[trigger] outcomes@[k] == Err::<
                Option<Vec<String>>,
                Box<MessageErr>,
            >(err) && forall|j: int| 0 <= j < k ==> #[trigger] outcomes@[j] is Ok,
        joined matches Ok(list) ==> listed(list) == merged(partials_of(outcomes@)),
{
    let ghost all = outcomes@;
    let mut results: Option<Vec<String>> = None;
    for outcome in it: outcomes
        invariant
            it.seq() == all,
            forall|j: int| 0 <= j < it.index() ==> #[trigger] all[j] is Ok,
            listed(results) == merged(partials_of(all).take(it.index() as int)),
    {
        proof {
            let seen = partials_of(all).take(it.index() + 1);
            assert(seen.drop_last() =~= partials_of(all).take(it.index() as int));
            assert(seen.last() == partial_of(outcome));
        }
        match outcome {
            Ok(partial) => {
                gather(&mut results, partial);
            },
            Err(err) => {
                assert(all[it.index() as int] == Err::<Option<Vec<String>>, Box<MessageErr>>(err));
                return Err(err);
            },
        }
    }
    proof {
        assert(partials_of(all).take(all.len() as int) =~= partials_of(all));
    }
    Ok(results)
}

} // verus!
