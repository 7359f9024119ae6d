//! What the path of the running program tells.

use crate::rux_debug::MessageErr;
use crate::rux_texts::is_equals;
use crate::rux_paths::{
    is_anchored, is_separator, name_of, parent_parts, parts_of, path_name, path_of, path_parent,
    path_stem, stem_of,
};
use vstd::prelude::*;
use vstd::string::StringExecFns;

verus! {

/// The directory that holds the program, given the path of the program. A
/// path of fewer than two parts names no directory, which is an error.
pub fn exe_dir(exe_path: &str) -> (dir: Result<String, Box<MessageErr>>)
    ensures
        dir is Ok <==> parts_of(exe_path@).len() >= 2,
        dir matches Ok(text) ==> {
            &&& exists|sep: char|
                is_separator(sep) && text@ == #[trigger] path_of(parent_parts(exe_path@), sep)
            &&& is_anchored(parent_parts(exe_path@)) ==> text@ == path_of(
                parent_parts(exe_path@),
                '/',
            )
        },
        dir matches Err(err) ==> err@ == "Could not get the parent of the path"@,
{
    path_parent(exe_path)
}

/// The file name of the program, given the path of the program.
pub fn exe_name(exe_path: &str) -> (name: String)
    ensures
        name@ == name_of(exe_path@),
{
    path_name(exe_path)
}

/// The file name of the program without its extension, given the path of
/// the program.
pub fn exe_stem(exe_path: &str) -> (stem: String)
    ensures
        stem@ == stem_of(name_of(exe_path@)),
{
    path_stem(exe_path)
}

/// The extension of programs with its dot, given the extension that the
/// platform gives programs: nothing where programs have no extension.
pub fn dot_exe_ext(exe_ext: &str) -> (dotted: String)
    ensures
        dotted@ == (if exe_ext@.len() == 0 {
            Seq::<char>::empty()
        } else {
            "."@ + exe_ext@
        }),
{
    if exe_ext.is_empty() {
        String::new()
    } else {
        let mut dotted = String::from_str(".");
        dotted.append(exe_ext);
        dotted
    }
}

/// Whether `os`, the name that the platform goes by, is that of Linux.
pub fn is_lin(os: &str) -> (yes: bool)
    ensures
        yes == (os@ == "linux"@),
{
    is_equals(os, "linux")
}

/// Whether `os`, the name that the platform goes by, is that of macOS.
pub fn is_mac(os: &str) -> (yes: bool)
    ensures
        yes == (os@ == "macos"@),
{
    is_equals(os, "macos")
}

/// Whether `os`, the name that the platform goes by, is that of Windows.
pub fn is_win(os: &str) -> (yes: bool)
    ensures
        yes == (os@ == "windows"@),
{
    is_equals(os, "windows")
}

/// What running a command comes to, given the code it ended with and what
/// it wrote: a code other than zero is an error with the message `failure`
/// unless `throw` says otherwise; else the code and the output are handed
/// on.
pub fn cmd_outcome(code: i32, output: String, throw: Option<bool>, failure: String) -> (outcome:
    Result<(i32, String), Box<MessageErr>>)
    ensures
        match outcome {
            Ok(done) => done.0 == code && done.1 == output && (code == 0 || throw == Some(false)),
            Err(err) => err@ == failure@ && code != 0 && throw != Some(false),
        },
{
    let throw = match throw {
        Some(throw) => throw,
        None => true,
    };
    if throw && code != 0 {
        return Err(crate::rux_debug::throw(failure));
    }
    Ok((code, output))
}

/// Whether what a command wrote is shown: it is, unless it is empty or
/// `print` says otherwise.
pub fn cmd_prints(output: &str, print: Option<bool>) -> (shown: bool)
    ensures
        shown == (output@.len() > 0 && print != Some(false)),
{
    let print = match print {
        Some(print) => print,
        None => true,
    };
    print && !output.is_empty()
}

} // verus!
