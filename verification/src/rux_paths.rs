//! Paths as texts: their parts, and what can be told from the parts.

use crate::letters::{chars_of, push_char, text_between, views};
use crate::runs::{cutting_of, runs};
use crate::rux_debug::{throw, MessageErr};
use crate::rux_texts::is_equals;
use vstd::prelude::*;
use vstd::string::StringExecFns;

verus! {

/// Whether `c` separates the parts of a path: a slash or a backslash.
pub open spec fn is_separator(c: char) -> bool {
    c == '/' || c == '\\'
}

/// The parts of a path. A path that starts with a separator has that
/// separator as its first part, the root; the other parts are the stretches
/// between separators, of which none is empty.
pub open spec fn parts_of(path: Seq<char>) -> Seq<Seq<char>> {
    let names = runs(path, |c: char| is_separator(c));
    if path.len() > 0 && is_separator(path[0]) {
        seq![seq![path[0]]] + names
    } else {
        names
    }
}

/// `std::path::MAIN_SEPARATOR` of the standard library: the separator that
/// the platform writes between the parts of a path, a slash or a backslash.
#[verifier::external_body]
fn main_separator() -> (sep: char)
    ensures
        is_separator(sep),
{
    std::path::MAIN_SEPARATOR
}

/// The separator that the platform writes between the parts of a path.
pub fn os_sep() -> (sep: char)
    ensures
        is_separator(sep),
{
    main_separator()
}

/// Splits a path into its parts.
pub fn path_parts(path: &str) -> (parts: Vec<String>)
    ensures
        views(parts@) == parts_of(path@),
{
    let ghost separates = |c: char| is_separator(c);
    let mut parts: Vec<String> = Vec::new();
    let mut name = String::new();
    let mut first = true;
    let ghost mut rooted = false;
    for c in it: path.chars()
        invariant
            it.seq() == path@,
            separates == (|c: char| is_separator(c)),
            first <==> it.index() == 0,
            rooted <==> it.index() > 0 && is_separator(path@[0]),
            name@ == cutting_of(path@.take(it.index() as int), separates).open,
            views(parts@) == (if rooted {
                seq![seq![path@[0]]]
            } else {
                seq![]
            }) + cutting_of(path@.take(it.index() as int), separates).done,
    {
        proof {
            let seen = path@.take(it.index() + 1);
            assert(seen.drop_last() =~= path@.take(it.index() as int));
            assert(seen.last() == c);
        }
        let ghost before = views(parts@);
        if c == '/' || c == '\\' {
            if first {
                let mut root = String::new();
                push_char(&mut root, c);
                parts.push(root);
                proof {
                    rooted = true;
                    assert(path@.take(0) =~= Seq::<char>::empty());
                    assert(views(parts@) =~= before.push(seq![c]));
                }
            } else if !name.as_str().is_empty() {
                parts.push(name);
                name = String::new();
                proof {
                    assert(views(parts@) =~= before.push(
                        cutting_of(path@.take(it.index() as int), separates).open,
                    ));
                }
            }
        } else {
            push_char(&mut name, c);
        }
        first = false;
        proof {
            let old_cut = cutting_of(path@.take(it.index() as int), separates);
            let new_cut = cutting_of(path@.take(it.index() + 1), separates);
            assert(new_cut == old_cut.cut(c, separates));
            assert(views(parts@) =~= (if rooted {
                seq![seq![path@[0]]]
            } else {
                seq![]
            }) + new_cut.done);
        }
    }
    proof {
        assert(path@.take(path@.len() as int) =~= path@);
    }
    if !name.as_str().is_empty() {
        let ghost before = views(parts@);
        parts.push(name);
        proof {
            assert(views(parts@) =~= before.push(cutting_of(path@, separates).open));
        }
    }
    assert(views(parts@) =~= parts_of(path@));
    parts
}

/// Whether `part` is a root: a separator and nothing else.
pub open spec fn is_root(part: Seq<char>) -> bool {
    part.len() == 1 && is_separator(part[0])
}

/// Whether `part` names a drive: it ends with a colon.
pub open spec fn is_drive(part: Seq<char>) -> bool {
    part.len() > 0 && part.last() == ':'
}

/// The texts of `parts` one after another, with `sep` between each two.
pub open spec fn joined(parts: Seq<Seq<char>>, sep: char) -> Seq<char>
    decreases parts.len(),
{
    if parts.len() == 0 {
        seq![]
    } else if parts.len() == 1 {
        parts[0]
    } else {
        joined(parts.drop_last(), sep).push(sep) + parts.last()
    }
}

/// The path that `parts` make on a platform that separates with `sep`.
/// After a root the other parts follow at once, separated by the root's own
/// separator; after a drive the parts are separated by backslashes; any
/// other parts are separated by `sep`.
pub open spec fn path_of(parts: Seq<Seq<char>>, sep: char) -> Seq<char> {
    if parts.len() == 0 {
        seq![]
    } else if is_root(parts[0]) {
        parts[0] + joined(parts.drop_first(), parts[0][0])
    } else if is_drive(parts[0]) {
        joined(parts, '\\')
    } else {
        joined(parts, sep)
    }
}

/// Whether the path that `parts` make is the same on every platform.
pub open spec fn is_anchored(parts: Seq<Seq<char>>) -> bool {
    parts.len() <= 1 || is_root(parts[0]) || is_drive(parts[0])
}

/// Joins `parts` from `from` on with `sep` between each two.
fn join_from(parts: &[String], from: usize, sep: char) -> (text: String)
    requires
        from <= parts@.len(),
    ensures
        text@ == joined(views(parts@).skip(from as int), sep),
{
    let ghost rest = views(parts@).skip(from as int);
    let mut text = String::new();
    let mut at: usize = from;
    while at < parts.len()
        invariant
            from <= at <= parts@.len(),
            rest == views(parts@).skip(from as int),
            text@ == joined(rest.take(at - from), sep),
        decreases parts@.len() - at,
    {
        proof {
            let seen = rest.take(at - from + 1);
            assert(seen.drop_last() =~= rest.take(at - from));
            assert(seen.last() == parts@[at as int]@);
            if at == from {
                assert(rest.take(0) =~= Seq::<Seq<char>>::empty());
                assert(text@ =~= Seq::<char>::empty());
            }
        }
        let ghost before = text@;
        if at > from {
            push_char(&mut text, sep);
        }
        text.append(parts[at].as_str());
        proof {
            if at == from {
                assert(text@ =~= parts@[at as int]@);
            }
        }
        at += 1;
    }
    assert(rest.take(at - from) =~= rest);
    text
}

/// Makes a path of `parts` with `sep` as the platform's separator.
pub fn path_parts_join_with(parts: &[String], sep: char) -> (path: String)
    ensures
        path@ == path_of(views(parts@), sep),
{
    if parts.len() == 0 {
        return String::new();
    }
    let first = chars_of(parts[0].as_str());
    if first.len() == 1 && (first[0] == '/' || first[0] == '\\') {
        let mut path = String::from_str(parts[0].as_str());
        let rest = join_from(parts, 1, first[0]);
        path.append(rest.as_str());
        assert(views(parts@).skip(1) =~= views(parts@).drop_first());
        path
    } else if first.len() > 0 && first[first.len() - 1] == ':' {
        let path = join_from(parts, 0, '\\');
        assert(views(parts@).skip(0) =~= views(parts@));
        path
    } else {
        let path = join_from(parts, 0, sep);
        assert(views(parts@).skip(0) =~= views(parts@));
        path
    }
}

/// Makes a path of `parts`, with the separator of the platform where the
/// parts start with neither a root nor a drive.
pub fn path_parts_join(parts: &[String]) -> (path: String)
    ensures
        exists|sep: char| is_separator(sep) && path@ == #[trigger] path_of(views(parts@), sep),
        is_anchored(views(parts@)) ==> path@ == path_of(views(parts@), '/'),
{
    let sep = os_sep();
    let path = path_parts_join_with(parts, sep);
    proof {
        if is_anchored(views(parts@)) {
            lemma_anchored_path(views(parts@), sep, '/');
        }
    }
    path
}

/// A path that starts with a root or a drive, or has a single part or none,
/// is made the same way whatever the platform's separator.
pub proof fn lemma_anchored_path(parts: Seq<Seq<char>>, one: char, other: char)
    requires
        is_anchored(parts),
    ensures
        path_of(parts, one) == path_of(parts, other),
{
}

/// The last part of a path, or nothing for a path without parts.
pub open spec fn name_of(path: Seq<char>) -> Seq<char> {
    if parts_of(path).len() == 0 {
        seq![]
    } else {
        parts_of(path).last()
    }
}

/// The name of what a path leads to: its last part.
pub fn path_name(path: &str) -> (name: String)
    ensures
        name@ == name_of(path@),
{
    let mut parts = path_parts(path);
    match parts.pop() {
        Some(name) => name,
        None => String::new(),
    }
}

/// Whether `at` is where the extension of `name` starts: at its last dot,
/// which is not its first character.
pub open spec fn is_extension_dot(name: Seq<char>, at: int) -> bool {
    &&& 0 < at < name.len()
    &&& name[at] == '.'
    &&& forall|later: int| at < later < name.len() ==> name[later] != '.'
}

/// A name without its extension: what stands before the last dot, or the
/// whole name where it has no dot or only starts with one.
pub open spec fn stem_of(name: Seq<char>) -> Seq<char> {
    if exists|at: int| is_extension_dot(name, at) {
        name.take(choose|at: int| is_extension_dot(name, at))
    } else {
        name
    }
}

/// The name of what a path leads to, without its extension.
pub fn path_stem(path: &str) -> (stem: String)
    ensures
        stem@ == stem_of(name_of(path@)),
{
    let name = path_name(path);
    let chars = chars_of(name.as_str());
    let mut at: usize = chars.len();
    while at > 1
        invariant
            at <= chars@.len(),
            chars@ == name_of(path@),
            forall|later: int| at <= later < chars@.len() ==> chars@[later] != '.',
        decreases at,
    {
        at -= 1;
        if chars[at] == '.' {
            proof {
                assert(is_extension_dot(chars@, at as int));
                let chosen = choose|dot: int| is_extension_dot(chars@, dot);
                assert(chosen == at) by {
                    if chosen < at {
                        assert(chars@[at as int] != '.');
                    } else if chosen > at {
                        assert(chars@[chosen] != '.');
                    }
                }
                assert(chars@.take(at as int) =~= chars@.subrange(0, at as int));
            }
            return text_between(&chars, 0, at);
        }
    }
    proof {
        assert forall|dot: int| !is_extension_dot(chars@, dot) by {
            if is_extension_dot(chars@, dot) {
                assert(chars@[dot] != '.');
            }
        }
    }
    name
}

/// The parts of the directory that holds what a path leads to: all parts
/// but the last.
pub open spec fn parent_parts(path: Seq<char>) -> Seq<Seq<char>> {
    parts_of(path).drop_last()
}

/// The directory that holds what a path leads to. A path of fewer than two
/// parts has none, which is an error.
pub fn path_parent(path: &str) -> (parent: Result<String, Box<MessageErr>>)
    ensures
        parent is Ok <==> parts_of(path@).len() >= 2,
        parent matches Ok(dir) ==> {
            &&& exists|sep: char|
                is_separator(sep) && dir@ == #[trigger] path_of(parent_parts(path@), sep)
            &&& is_anchored(parent_parts(path@)) ==> dir@ == path_of(parent_parts(path@), '/')
        },
        parent matches Err(err) ==> err@ == "Could not get the parent of the path"@,
{
    let mut parts = path_parts(path);
    if parts.len() < 2 {
        return Err(throw(String::from_str("Could not get the parent of the path")));
    }
    let ghost all = views(parts@);
    let _ = parts.pop();
    assert(views(parts@) =~= all.drop_last());
    let dir = path_parts_join(parts.as_slice());
    proof {
        let sep = choose|sep: char|
            is_separator(sep) && dir@ == #[trigger] path_of(views(parts@), sep);
        assert(dir@ == path_of(parent_parts(path@), sep));
    }
    Ok(dir)
}

/// Whether a path with these parts says by itself where it leads: it starts
/// with a root or with a drive.
pub open spec fn is_absolute(parts: Seq<Seq<char>>) -> bool {
    parts.len() > 0 && (is_root(parts[0]) || is_drive(parts[0]))
}

/// The parts that are left when `parts` are followed from `base`: a part
/// that is one dot stays where it is, a part that is two dots goes up by
/// one part, but never above the first, and any other part goes down into
/// it.
pub open spec fn resolved(base: Seq<Seq<char>>, parts: Seq<Seq<char>>) -> Seq<Seq<char>>
    decreases parts.len(),
{
    if parts.len() == 0 {
        base
    } else {
        let before = resolved(base, parts.drop_last());
        let part = parts.last();
        if part == "."@ {
            before
        } else if part == ".."@ {
            if before.len() > 1 {
                before.drop_last()
            } else {
                before
            }
        } else {
            before.push(part)
        }
    }
}

/// The parts of the place that `path` leads to when it is followed from the
/// directory `wd`. A path that starts with a root or a drive is followed
/// from there instead.
pub open spec fn absolute_parts(path: Seq<char>, wd: Seq<char>) -> Seq<Seq<char>> {
    let parts = parts_of(path);
    if is_absolute(parts) {
        resolved(seq![parts[0]], parts.drop_first())
    } else {
        resolved(parts_of(wd), parts)
    }
}

/// The path of the place that `path` leads to when it is followed from the
/// working directory `wd`.
pub fn path_absolute(path: &str, wd: &str) -> (whole: String)
    ensures
        exists|sep: char|
            is_separator(sep) && whole@ == #[trigger] path_of(absolute_parts(path@, wd@), sep),
        is_anchored(absolute_parts(path@, wd@)) ==> whole@ == path_of(
            absolute_parts(path@, wd@),
            '/',
        ),
{
    let parts = path_parts(path);
    let first = if parts.len() > 0 {
        chars_of(parts[0].as_str())
    } else {
        Vec::new()
    };
    let absolute = first.len() > 0 && (first[first.len() - 1] == ':' || (first.len() == 1 && (
        first[0] == '/' || first[0] == '\\')));
    assert(absolute == is_absolute(parts_of(path@)));
    let mut place: Vec<String> = if absolute {
        let mut place: Vec<String> = Vec::new();
        place.push(parts[0].clone());
        assert(views(place@) =~= seq![parts_of(path@)[0]]);
        place
    } else {
        path_parts(wd)
    };
    let from: usize = if absolute {
        1
    } else {
        0
    };
    let ghost base = views(place@);
    let ghost rest = parts_of(path@).skip(from as int);
    let mut at: usize = from;
    while at < parts.len()
        invariant
            from <= at <= parts@.len(),
            views(parts@) == parts_of(path@),
            rest == parts_of(path@).skip(from as int),
            absolute == is_absolute(parts_of(path@)),
            from == (if absolute {
                1int
            } else {
                0int
            }),
            absolute ==> base == seq![parts_of(path@)[0]],
            !absolute ==> base == parts_of(wd@),
            views(place@) == resolved(base, rest.take(at - from)),
        decreases parts@.len() - at,
    {
        let part = parts[at].as_str();
        proof {
            let seen = rest.take(at - from + 1);
            assert(seen.drop_last() =~= rest.take(at - from));
            assert(seen.last() == part@);
        }
        let ghost before = views(place@);
        if is_equals(part, ".") {
        } else if is_equals(part, "..") {
            if place.len() > 1 {
                let _ = place.pop();
                assert(views(place@) =~= before.drop_last());
            }
        } else {
            place.push(String::from_str(part));
            assert(views(place@) =~= before.push(part@));
        }
        at += 1;
    }
    proof {
        assert(rest.take(at - from) =~= rest);
        if absolute {
            assert(rest =~= parts_of(path@).drop_first());
        } else {
            assert(rest =~= parts_of(path@));
        }
    }
    let whole = path_parts_join(place.as_slice());
    proof {
        let sep = choose|sep: char|
            is_separator(sep) && whole@ == #[trigger] path_of(views(place@), sep);
        assert(whole@ == path_of(absolute_parts(path@, wd@), sep));
    }
    whole
}

} // verus!
