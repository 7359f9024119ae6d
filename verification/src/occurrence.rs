//! Where one string occurs inside another.

use vstd::prelude::*;

verus! {

/// `needle` stands in `hay` at offset `at`.
pub open spec fn occurs_at<T>(hay: Seq<T>, needle: Seq<T>, at: int) -> bool {
    &&& 0 <= at
    &&& at + needle.len() <= hay.len()
    &&& hay.subrange(at, at + needle.len()) == needle
}

/// `needle` occurs somewhere in `hay`.
pub open spec fn occurs<T>(hay: Seq<T>, needle: Seq<T>) -> bool {
    exists|at: int| occurs_at(hay, needle, at)
}

/// `at` is the leftmost offset at which `needle` stands in `hay`.
pub open spec fn is_first_occurrence<T>(hay: Seq<T>, needle: Seq<T>, at: int) -> bool {
    &&& occurs_at(hay, needle, at)
    &&& forall|other: int| 0 <= other < at ==> !occurs_at(hay, needle, other)
}

/// `at` is the rightmost offset at which `needle` stands in `hay`.
pub open spec fn is_last_occurrence<T>(hay: Seq<T>, needle: Seq<T>, at: int) -> bool {
    &&& occurs_at(hay, needle, at)
    &&& forall|other: int| at < other ==> !occurs_at(hay, needle, other)
}

/// The leftmost offset at which `needle` stands in `hay`, if it occurs at all.
pub open spec fn first_occurrence<T>(hay: Seq<T>, needle: Seq<T>) -> Option<int> {
    if occurs(hay, needle) {
        Some(choose|at: int| is_first_occurrence(hay, needle, at))
    } else {
        None
    }
}

/// The rightmost offset at which `needle` stands in `hay`, if it occurs at all.
pub open spec fn last_occurrence<T>(hay: Seq<T>, needle: Seq<T>) -> Option<int> {
    if occurs(hay, needle) {
        Some(choose|at: int| is_last_occurrence(hay, needle, at))
    } else {
        None
    }
}

/// An offset held in a machine word, read as a mathematical integer.
pub open spec fn offset_of(found: Option<usize>) -> Option<int> {
    match found {
        Some(at) => Some(at as int),
        None => None,
    }
}

proof fn lemma_leftmost_exists<T>(hay: Seq<T>, needle: Seq<T>, at: int)
    requires
        occurs_at(hay, needle, at),
    ensures
        exists|first: int| is_first_occurrence(hay, needle, first),
    decreases at,
{
    if exists|other: int| 0 <= other < at && occurs_at(hay, needle, other) {
        let other = choose|other: int| 0 <= other < at && occurs_at(hay, needle, other);
        lemma_leftmost_exists(hay, needle, other);
    } else {
        assert(is_first_occurrence(hay, needle, at));
    }
}

proof fn lemma_rightmost_exists<T>(hay: Seq<T>, needle: Seq<T>, at: int)
    requires
        occurs_at(hay, needle, at),
    ensures
        exists|last: int| is_last_occurrence(hay, needle, last),
    decreases hay.len() - at,
{
    if exists|other: int| at < other && occurs_at(hay, needle, other) {
        let other = choose|other: int| at < other && occurs_at(hay, needle, other);
        lemma_rightmost_exists(hay, needle, other);
    } else {
        assert(is_last_occurrence(hay, needle, at));
    }
}

/// `first_occurrence` names the leftmost occurrence and nothing else:
/// it is `Some(at)` exactly when `at` is the leftmost occurrence, and
/// `None` exactly when there is no occurrence.
pub proof fn lemma_first_occurrence<T>(hay: Seq<T>, needle: Seq<T>)
    ensures
        forall|at: int|
            first_occurrence(hay, needle) == Some(at) <==> #[trigger] is_first_occurrence(
                hay,
                needle,
                at,
            ),
        first_occurrence(hay, needle) is None <==> !occurs(hay, needle),
        first_occurrence(hay, needle) matches Some(at) ==> is_first_occurrence(hay, needle, at),
{
    if occurs(hay, needle) {
        let some = choose|at: int| occurs_at(hay, needle, at);
        lemma_leftmost_exists(hay, needle, some);
        let first = choose|at: int| is_first_occurrence(hay, needle, at);
        assert forall|at: int| #[trigger] is_first_occurrence(hay, needle, at) implies at
            == first by {
            if at < first {
                assert(!occurs_at(hay, needle, at));
            } else if first < at {
                assert(!occurs_at(hay, needle, first));
            }
        }
    } else {
        assert forall|at: int| !#[trigger] is_first_occurrence(hay, needle, at) by {
            if is_first_occurrence(hay, needle, at) {
                assert(occurs_at(hay, needle, at));
            }
        }
    }
}

/// `last_occurrence` names the rightmost occurrence and nothing else.
pub proof fn lemma_last_occurrence<T>(hay: Seq<T>, needle: Seq<T>)
    ensures
        forall|at: int|
            last_occurrence(hay, needle) == Some(at) <==> #[trigger] is_last_occurrence(
                hay,
                needle,
                at,
            ),
        last_occurrence(hay, needle) is None <==> !occurs(hay, needle),
        last_occurrence(hay, needle) matches Some(at) ==> is_last_occurrence(hay, needle, at),
{
    if occurs(hay, needle) {
        let some = choose|at: int| occurs_at(hay, needle, at);
        lemma_rightmost_exists(hay, needle, some);
        let last = choose|at: int| is_last_occurrence(hay, needle, at);
        assert forall|at: int| #[trigger] is_last_occurrence(hay, needle, at) implies at
            == last by {
            if at < last {
                assert(!occurs_at(hay, needle, last));
            } else if last < at {
                assert(!occurs_at(hay, needle, at));
            }
        }
    } else {
        assert forall|at: int| !#[trigger] is_last_occurrence(hay, needle, at) by {
            if is_last_occurrence(hay, needle, at) {
                assert(occurs_at(hay, needle, at));
            }
        }
    }
}

/// An occurrence in what is left of `hay` after its first `from` items is an
/// occurrence in `hay`, `from` items further on, and the other way round.
pub proof fn lemma_occurs_further_on<T>(hay: Seq<T>, needle: Seq<T>, from: int, at: int)
    requires
        0 <= from <= hay.len(),
        0 <= at,
    ensures
        occurs_at(hay.skip(from), needle, at) <==> occurs_at(hay, needle, from + at),
{
    if at + needle.len() <= hay.len() - from {
        assert(hay.skip(from).subrange(at, at + needle.len()) =~= hay.subrange(
            from + at,
            from + at + needle.len(),
        ));
    }
}

/// What the strings searched here are made of, bytes or characters: values
/// of which two can be told apart.
pub trait Unit: Copy {
    /// Whether the two are the same.
    fn same_as(self, other: Self) -> (same: bool)
        ensures
            same == (self == other),
    ;
}

impl Unit for u8 {
    fn same_as(self, other: u8) -> (same: bool) {
        self == other
    }
}

impl Unit for char {
    fn same_as(self, other: char) -> (same: bool) {
        self == other
    }
}

/// Whether `needle` stands in `hay` at offset `at`.
pub fn stands_at<T: Unit>(hay: &[T], needle: &[T], at: usize) -> (yes: bool)
    requires
        at + needle@.len() <= hay@.len(),
    ensures
        yes == occurs_at(hay@, needle@, at as int),
{
    let bound: usize = hay.len();
    let mut k: usize = 0;
    while k < needle.len()
        invariant
            k <= needle@.len(),
            at + needle@.len() <= hay@.len(),
            hay@.len() == bound,
            forall|j: int| 0 <= j < k ==> hay@[at + j] == needle@[j],
        decreases needle@.len() - k,
    {
        if !hay[at + k].same_as(needle[k]) {
            proof {
                let window = hay@.subrange(at as int, at + needle@.len());
                assert(window[k as int] == hay@[at + k]);
            }
            return false;
        }
        k += 1;
    }
    assert(hay@.subrange(at as int, at + needle@.len()) =~= needle@);
    true
}

/// The leftmost offset from `from` on at which `needle` stands in `hay`.
pub fn find_from<T: Unit>(hay: &[T], needle: &[T], from: usize) -> (found: Option<usize>)
    requires
        from <= hay@.len(),
    ensures
        match found {
            Some(at) => from <= at && first_occurrence(hay@.skip(from as int), needle@) == Some(
                at - from,
            ),
            None => first_occurrence(hay@.skip(from as int), needle@) is None,
        },
{
    let ghost rest = hay@.skip(from as int);
    proof {
        lemma_first_occurrence(rest, needle@);
    }
    if needle.len() > hay.len() - from {
        assert(!occurs(rest, needle@));
        return None;
    }
    let last: usize = hay.len() - needle.len();
    let mut at: usize = from;
    loop
        invariant
            last == hay@.len() - needle@.len(),
            from <= at <= last,
            rest == hay@.skip(from as int),
            forall|other: int| 0 <= other < at - from ==> !occurs_at(rest, needle@, other),
        decreases last - at,
    {
        proof {
            lemma_occurs_further_on(hay@, needle@, from as int, at - from);
        }
        if stands_at(hay, needle, at) {
            assert(is_first_occurrence(rest, needle@, at - from));
            return Some(at);
        }
        if at == last {
            assert(!occurs(rest, needle@));
            return None;
        }
        at += 1;
    }
}

/// The leftmost offset at which `needle` stands in `hay`.
pub fn find_bytes(hay: &[u8], needle: &[u8]) -> (found: Option<usize>)
    ensures
        offset_of(found) == first_occurrence(hay@, needle@),
{
    assert(hay@.skip(0) =~= hay@);
    find_from(hay, needle, 0)
}

/// The rightmost offset at which `needle` stands in `hay`.
pub fn rfind_bytes(hay: &[u8], needle: &[u8]) -> (found: Option<usize>)
    ensures
        offset_of(found) == last_occurrence(hay@, needle@),
{
    proof {
        lemma_last_occurrence(hay@, needle@);
    }
    if needle.len() > hay.len() {
        assert(!occurs(hay@, needle@));
        return None;
    }
    let last: usize = hay.len() - needle.len();
    let mut at: usize = last;
    loop
        invariant
            last == hay@.len() - needle@.len(),
            at <= last,
            forall|other: int| at < other ==> !occurs_at(hay@, needle@, other),
        decreases at,
    {
        if stands_at(hay, needle, at) {
            assert(is_last_occurrence(hay@, needle@, at as int));
            return Some(at);
        }
        if at == 0 {
            assert(!occurs(hay@, needle@));
            return None;
        }
        at -= 1;
    }
}

} // verus!
