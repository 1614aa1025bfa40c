use schematic_diff::cli::{
    both_missing, directory_refused, forced_choice, is_first_report, is_rendered, kitty_choice,
    labels, last_kitty_flag, read_sides, side_path, tilde_rest, Sides,
};

fn args(list: &[&str]) -> Vec<String> {
    list.iter().map(|arg| arg.to_string()).collect()
}

fn parts(sides: Sides) -> (String, Option<String>, Option<String>, bool) {
    (sides.display, sides.before, sides.after, sides.standalone)
}

fn some(text: &str) -> Option<String> {
    Some(text.to_string())
}

#[test]
fn one_file_is_inspected() {
    assert_eq!(
        parts(read_sides(&args(&["a.nbt"])).unwrap()),
        ("a.nbt".to_string(), None, some("a.nbt"), true)
    );
    assert_eq!(
        parts(read_sides(&args(&["/dev/null"])).unwrap()),
        ("/dev/null".to_string(), None, some("/dev/null"), true)
    );
}

#[test]
fn two_files_are_compared() {
    let read = |a: &str, b: &str| parts(read_sides(&args(&[a, b])).unwrap());
    assert_eq!(read("a", "b"), ("a -> b".to_string(), some("a"), some("b"), true));
    assert_eq!(read("a", "/dev/null"), ("a".to_string(), some("a"), None, true));
    assert_eq!(read("/dev/null", "b"), ("b".to_string(), None, some("b"), true));
    assert_eq!(
        read("/dev/null", "/dev/null"),
        ("/dev/null -> /dev/null".to_string(), None, None, true)
    );
}

#[test]
fn git_calls_with_seven_or_nine_arguments() {
    let seven = ["path", "old", "hex", "mode", "new", "hex", "mode"];
    let expected = ("path".to_string(), some("old"), some("new"), false);
    assert_eq!(parts(read_sides(&args(&seven)).unwrap()), expected);
    let mut nine = seven.to_vec();
    nine.extend_from_slice(&["other", "index"]);
    assert_eq!(parts(read_sides(&args(&nine)).unwrap()), expected);
    let added = ["path", "/dev/null", ".", ".", "new", "hex", "mode"];
    assert_eq!(
        parts(read_sides(&args(&added)).unwrap()),
        ("path".to_string(), None, some("new"), false)
    );
}

#[test]
fn other_numbers_of_arguments_are_refused() {
    for count in [0, 3, 4, 5, 6, 8, 10] {
        let list = vec!["x".to_string(); count];
        let text = match read_sides(&list) {
            Ok(_) => panic!("{count} arguments were read"),
            Err(error) => error.to_text(),
        };
        assert_eq!(
            text,
            format!(
                "expected 1 or 2 file paths, or 7 arguments from git, got {count}\n\n\
                 Usage:\n    \
                 schematic-diff <file>                  Inspect a single schematic\n    \
                 schematic-diff <before> <after>        Diff two schematics directly\n    \
                 git diff <rev1>:<path> <rev2>:<path>   Diff revisions via git\n    \
                 git diff --no-index <before> <after>   Diff files via git"
            )
        );
    }
}

#[test]
fn refusals_name_the_path() {
    assert_eq!(
        directory_refused("dir").to_text(),
        "dir is a directory; comparing two directories is not supported"
    );
    assert_eq!(both_missing("a -> b").to_text(), "both sides of a -> b are missing");
    assert_eq!(side_path("/dev/null"), None);
    assert_eq!(side_path("/dev/null/"), some("/dev/null/"));
}

#[test]
fn the_last_flag_wins() {
    let both = args(&["--kitty", "x", "--no-kitty", "y"]);
    assert_eq!(last_kitty_flag(&both), Some(false));
    assert_eq!(last_kitty_flag(&args(&["--no-kitty", "--kitty"])), Some(true));
    assert_eq!(last_kitty_flag(&args(&["x"])), None);
    assert_eq!(kitty_choice(true, true, &both), Some(false));
    assert_eq!(kitty_choice(true, false, &both), Some(true));
    assert_eq!(kitty_choice(false, true, &both), Some(false));
    assert_eq!(kitty_choice(false, false, &both), None);
}

#[test]
fn a_tilde_stands_for_home() {
    assert_eq!(tilde_rest("~/pack.zip"), some("pack.zip"));
    assert_eq!(tilde_rest("~"), some(""));
    assert_eq!(tilde_rest("~user/x"), some("user/x"));
    assert_eq!(tilde_rest("/a/~"), None);
    assert_eq!(tilde_rest(""), None);
}

#[test]
fn a_condition_is_reported_at_the_first_path() {
    assert!(is_first_report(None));
    assert!(is_first_report(Some("1")));
    assert!(!is_first_report(Some("2")));
    assert!(!is_first_report(Some("")));
}

#[test]
fn a_missing_side_borrows_the_other_name() {
    let pair = |a: &str, b: &str| (a.to_string(), b.to_string());
    assert_eq!(labels(Some("a"), Some("b")), pair("a", "b"));
    assert_eq!(labels(Some("a"), None), pair("a", "a"));
    assert_eq!(labels(None, Some("b")), pair("b", "b"));
    assert_eq!(labels(None, None), pair("", ""));
}

#[test]
fn the_environment_forces_where_no_flag_does() {
    assert_eq!(forced_choice(None, Some("1")), Some(true));
    assert_eq!(forced_choice(None, Some("0")), Some(false));
    assert_eq!(forced_choice(None, Some("yes")), None);
    assert_eq!(forced_choice(None, None), None);
    assert_eq!(forced_choice(Some(false), Some("1")), Some(false));
    assert_eq!(forced_choice(Some(true), Some("0")), Some(true));
}

#[test]
fn images_are_rendered_unless_they_are_turned_off() {
    assert!(is_rendered(None));
    assert!(is_rendered(Some(true)));
    assert!(!is_rendered(Some(false)));
}
