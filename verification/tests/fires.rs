use rubx::rux_debug::MessageErr;
use rubx::rux_fires::{exe_dir, exe_name, exe_stem};
use rubx::rux_paths::{
    os_sep, path_absolute, path_name, path_parent, path_parts, path_parts_join,
    path_parts_join_with, path_stem,
};

fn texts(items: &[&str]) -> Vec<String> {
    items.iter().map(|item| String::from(*item)).collect()
}

#[test]
fn what_the_path_of_the_program_tells() {
    assert_eq!(exe_dir("/usr/local/bin/tool"), Ok(String::from("/usr/local/bin")));
    assert_eq!(exe_name("/usr/local/bin/tool"), "tool");
    assert_eq!(exe_stem("/usr/local/bin/tool"), "tool");
    assert_eq!(exe_dir("C:\\Programs\\tool.exe"), Ok(String::from("C:\\Programs")));
    assert_eq!(exe_name("C:\\Programs\\tool.exe"), "tool.exe");
    assert_eq!(exe_stem("C:\\Programs\\tool.exe"), "tool");
    assert_eq!(
        exe_dir("tool"),
        Err(Box::new(MessageErr::new("Could not get the parent of the path")))
    );
}

#[test]
fn path_parts_drop_empty_stretches() {
    assert_eq!(path_parts(""), texts(&[]));
    assert_eq!(path_parts("/"), texts(&["/"]));
    assert_eq!(path_parts("\\"), texts(&["\\"]));
    assert_eq!(path_parts("//a///b/"), texts(&["/", "a", "b"]));
    assert_eq!(path_parts("a\\b/c"), texts(&["a", "b", "c"]));
    assert_eq!(path_parts("caf\u{e9}/\u{20ac}"), texts(&["caf\u{e9}", "\u{20ac}"]));
}

#[test]
fn path_parts_join_with_a_given_separator() {
    assert_eq!(path_parts_join_with(&texts(&[]), '/'), "");
    assert_eq!(path_parts_join_with(&texts(&["a"]), '/'), "a");
    assert_eq!(path_parts_join_with(&texts(&["a", "b", "c"]), '/'), "a/b/c");
    assert_eq!(path_parts_join_with(&texts(&["a", "b", "c"]), '\\'), "a\\b\\c");
    assert_eq!(path_parts_join_with(&texts(&["/", "a", "b"]), '\\'), "/a/b");
    assert_eq!(path_parts_join_with(&texts(&["\\", "a", "b"]), '/'), "\\a\\b");
    assert_eq!(path_parts_join_with(&texts(&["/"]), '\\'), "/");
    assert_eq!(path_parts_join_with(&texts(&["C:", "a", "b"]), '/'), "C:\\a\\b");
    assert_eq!(path_parts_join(&texts(&["/", "a"])), "/a");
}

#[test]
fn the_separator_of_the_platform() {
    assert!(os_sep() == '/' || os_sep() == '\\');
    assert_eq!(os_sep(), std::path::MAIN_SEPARATOR);
}

#[test]
fn names_and_stems() {
    assert_eq!(path_name("/a/b/c.txt"), "c.txt");
    assert_eq!(path_name("c.txt"), "c.txt");
    assert_eq!(path_name("/a/b/"), "b");
    assert_eq!(path_name("/"), "/");
    assert_eq!(path_name(""), "");
    assert_eq!(path_stem("/a/b/c.txt"), "c");
    assert_eq!(path_stem("/a/b/archive.tar.gz"), "archive.tar");
    assert_eq!(path_stem("/a/b/.hidden"), ".hidden");
    assert_eq!(path_stem("/a/b/.hidden.txt"), ".hidden");
    assert_eq!(path_stem("/a/b/noext"), "noext");
    assert_eq!(path_stem("/a/b/dot."), "dot");
    assert_eq!(path_stem(""), "");
}

#[test]
fn parents() {
    assert_eq!(path_parent("/a/b/c.txt"), Ok(String::from("/a/b")));
    assert_eq!(path_parent("/a"), Ok(String::from("/")));
    assert_eq!(path_parent("C:\\a\\b"), Ok(String::from("C:\\a")));
    assert_eq!(path_parent("a/b"), Ok(String::from("a")));
    let none = Err(Box::new(MessageErr::new("Could not get the parent of the path")));
    assert_eq!(path_parent("a"), none);
    assert_eq!(path_parent("/"), none);
    assert_eq!(path_parent(""), none);
}

#[test]
fn absolute_paths() {
    assert_eq!(path_absolute("test", "/home/pointel"), "/home/pointel/test");
    assert_eq!(path_absolute("./test", "/home/pointel"), "/home/pointel/test");
    assert_eq!(path_absolute("../test", "/home/pointel"), "/home/test");
    assert_eq!(path_absolute("../../../test", "/home/pointel"), "/test");
    assert_eq!(path_absolute("a/./b/../c", "/home"), "/home/a/c");
    assert_eq!(path_absolute("/etc/../var/log", "/home/pointel"), "/var/log");
    assert_eq!(path_absolute("C:\\a\\..\\b", "/home/pointel"), "C:\\b");
    assert_eq!(path_absolute("", "/home/pointel"), "/home/pointel");
    assert_eq!(path_absolute("x", "C:\\work"), "C:\\work\\x");
}

#[test]
fn the_extension_of_programs_with_its_dot() {
    assert_eq!(rubx::rux_fires::dot_exe_ext(""), "");
    assert_eq!(rubx::rux_fires::dot_exe_ext("exe"), ".exe");
}

#[test]
fn platforms_by_name() {
    assert!(rubx::rux_fires::is_lin("linux"));
    assert!(!rubx::rux_fires::is_lin("Linux"));
    assert!(!rubx::rux_fires::is_lin("macos"));
    assert!(rubx::rux_fires::is_mac("macos"));
    assert!(!rubx::rux_fires::is_mac("windows"));
    assert!(rubx::rux_fires::is_win("windows"));
    assert!(!rubx::rux_fires::is_win("linux"));
}

#[test]
fn what_a_command_comes_to() {
    let failure = || String::from("Result code from command is different than zero");
    let failed = Err(Box::new(MessageErr::of(failure())));
    let out = || String::from("out");
    assert_eq!(rubx::rux_fires::cmd_outcome(0, out(), None, failure()), Ok((0, out())));
    assert_eq!(rubx::rux_fires::cmd_outcome(0, out(), Some(true), failure()), Ok((0, out())));
    assert_eq!(rubx::rux_fires::cmd_outcome(0, out(), Some(false), failure()), Ok((0, out())));
    assert_eq!(rubx::rux_fires::cmd_outcome(2, out(), Some(false), failure()), Ok((2, out())));
    assert_eq!(rubx::rux_fires::cmd_outcome(2, out(), None, failure()), failed);
    assert_eq!(rubx::rux_fires::cmd_outcome(-1, out(), Some(true), failure()), failed);
    assert!(rubx::rux_fires::cmd_prints("out", None));
    assert!(rubx::rux_fires::cmd_prints("out", Some(true)));
    assert!(!rubx::rux_fires::cmd_prints("out", Some(false)));
    assert!(!rubx::rux_fires::cmd_prints("", None));
    assert!(!rubx::rux_fires::cmd_prints("", Some(true)));
}
