//! The command line: what the positional arguments and the flags ask for.
//!
//! With `diff.external`, or a `diff.<driver>.command` selected by
//! `.gitattributes`, git invokes the tool once per changed path as:
//!
//! ```text
//! path old-file old-hex old-mode new-file new-hex new-mode
//! ```
//!
//! where `/dev/null` stands in for a side that does not exist. `git diff
//! --no-index` appends two more arguments, and the leading seven keep their
//! meaning.

use vstd::prelude::*;
use crate::error::{failure, Error};
use crate::palette::views;
use crate::text::{
    decimal, lemma_decimal_reads_back, lemma_number_is_told, occurs, push_decimal, same, tells_number,
    without_prefix,
};

verus! {

/// What is compared with what.
pub struct Sides {
    /// The path or paths being compared, used as the heading.
    pub display: String,
    pub before: Option<String>,
    pub after: Option<String>,
    /// Whether files were named by hand rather than by git.
    pub standalone: bool,
}

/// The text of an optional string.
pub open spec fn text_of(s: Option<String>) -> Option<Seq<char>> {
    match s {
        Some(s) => Some(s@),
        None => None,
    }
}

/// What is compared with what, as plain values.
pub struct Asked {
    pub display: Seq<char>,
    pub before: Option<Seq<char>>,
    pub after: Option<Seq<char>>,
    pub standalone: bool,
}

impl Sides {
    pub open spec fn asked(self) -> Asked {
        Asked {
            display: self.display@,
            before: text_of(self.before),
            after: text_of(self.after),
            standalone: self.standalone,
        }
    }
}

/// Git's `/dev/null` placeholder means that a side does not exist.
pub open spec fn side(raw: Seq<char>) -> Option<Seq<char>> {
    if raw == "/dev/null"@ {
        None
    } else {
        Some(raw)
    }
}

/// The heading for two files that were named by hand.
pub open spec fn pair_display(before: Option<Seq<char>>, after: Option<Seq<char>>) -> Seq<char> {
    match (before, after) {
        (Some(b), Some(a)) => b + " -> "@ + a,
        (Some(b), None) => b,
        (None, Some(a)) => a,
        (None, None) => "/dev/null -> /dev/null"@,
    }
}

/// What is said of a number of arguments that nobody calls the tool with.
pub open spec fn miscounted(count: nat) -> Seq<char> {
    "expected 1 or 2 file paths, or 7 arguments from git, got "@ + decimal(count)
        + "\n\nUsage:\n    schematic-diff <file>                  Inspect a single schematic\n    schematic-diff <before> <after>        Diff two schematics directly\n    git diff <rev1>:<path> <rev2>:<path>   Diff revisions via git\n    git diff --no-index <before> <after>   Diff files via git"@
}

/// What some positional arguments ask for.
pub open spec fn asks(args: Seq<Seq<char>>) -> Result<Asked, Seq<char>> {
    if args.len() == 1 {
        Ok(Asked { display: args[0], before: None, after: Some(args[0]), standalone: true })
    } else if args.len() == 2 {
        Ok(
            Asked {
                display: pair_display(side(args[0]), side(args[1])),
                before: side(args[0]),
                after: side(args[1]),
                standalone: true,
            },
        )
    } else if args.len() == 7 || args.len() == 9 {
        Ok(
            Asked {
                display: args[0],
                before: side(args[1]),
                after: side(args[4]),
                standalone: false,
            },
        )
    } else {
        Err(miscounted(args.len()))
    }
}

/// The two arguments that `git diff --no-index` appends change nothing.
pub proof fn lemma_appended_arguments_are_ignored(args: Seq<Seq<char>>)
    requires
        args.len() == 9,
    ensures
        asks(args) == asks(args.take(7)),
{
}

/// Treat git's `/dev/null` placeholder as "this side does not exist".
pub fn side_path(raw: &str) -> (r: Option<String>)
    ensures
        text_of(r) == side(raw@),
{
    if same(raw, "/dev/null") {
        None
    } else {
        Some(raw.to_owned())
    }
}

/// Read the positional arguments.
pub fn read_sides(args: &Vec<String>) -> (r: Result<Sides, Error>)
    ensures
        match asks(views(args@)) {
            Ok(asked) => r is Ok && r->Ok_0.asked() == asked,
            Err(words) => failure(r) == Some(words),
        },
{
    let count: usize = args.len();
    if count == 1 {
        let path = args[0].as_str();
        return Ok(
            Sides {
                display: path.to_owned(),
                before: None,
                after: Some(path.to_owned()),
                standalone: true,
            },
        );
    }
    if count == 2 {
        let before = side_path(args[0].as_str());
        let after = side_path(args[1].as_str());
        let display = match (&before, &after) {
            (Some(b), Some(a)) => {
                let mut text = b.as_str().to_owned();
                text.append(" -> ");
                text.append(a.as_str());
                text
            },
            (Some(b), None) => b.as_str().to_owned(),
            (None, Some(a)) => a.as_str().to_owned(),
            (None, None) => "/dev/null -> /dev/null".to_owned(),
        };
        return Ok(Sides { display, before, after, standalone: true });
    }
    if count == 7 || count == 9 {
        return Ok(
            Sides {
                display: args[0].as_str().to_owned(),
                before: side_path(args[1].as_str()),
                after: side_path(args[4].as_str()),
                standalone: false,
            },
        );
    }
    let mut text = "expected 1 or 2 file paths, or 7 arguments from git, got ".to_owned();
    push_decimal(&mut text, count as u64);
    text.append(
        "\n\nUsage:\n    schematic-diff <file>                  Inspect a single schematic\n    schematic-diff <before> <after>        Diff two schematics directly\n    git diff <rev1>:<path> <rev2>:<path>   Diff revisions via git\n    git diff --no-index <before> <after>   Diff files via git",
    );
    Err(Error::message(text))
}

/// Git's arguments name the two sides. The second and the fifth are the files before and
/// after the change, and a side is missing exactly where its argument is `/dev/null`. The
/// first is the path that is shown.
pub proof fn lemma_git_names_the_sides(args: &Vec<String>, r: Result<Sides, Error>)
    requires
        call_ensures(read_sides, (args,), r),
        args@.len() == 7 || args@.len() == 9,
    ensures
        r is Ok,
        r->Ok_0.display@ == args@[0]@,
        !r->Ok_0.standalone,
        r->Ok_0.before is None <==> args@[1]@ == "/dev/null"@,
        r->Ok_0.after is None <==> args@[4]@ == "/dev/null"@,
        r->Ok_0.before matches Some(path) ==> path@ == args@[1]@,
        r->Ok_0.after matches Some(path) ==> path@ == args@[4]@,
{
}

/// Two files that are named by hand are the sides in the order they are named in, and
/// both of those that are there are shown, the first before the second.
pub proof fn lemma_two_files_are_the_sides(args: &Vec<String>, r: Result<Sides, Error>)
    requires
        call_ensures(read_sides, (args,), r),
        args@.len() == 2,
    ensures
        r is Ok,
        r->Ok_0.standalone,
        r->Ok_0.before is None <==> args@[0]@ == "/dev/null"@,
        r->Ok_0.after is None <==> args@[1]@ == "/dev/null"@,
        r->Ok_0.before matches Some(path) ==> path@ == args@[0]@ && path@.is_prefix_of(
            r->Ok_0.display@,
        ),
        r->Ok_0.after matches Some(path) ==> path@ == args@[1]@ && path@.is_suffix_of(
            r->Ok_0.display@,
        ),
{
    let shown = r->Ok_0.display@;
    let (first, second) = (args@[0]@, args@[1]@);
    if r->Ok_0.before is Some {
        assert(shown.subrange(0, first.len() as int) =~= first);
        assert(shown.take(first.len() as int) =~= first);
    }
    if r->Ok_0.after is Some {
        assert(shown.subrange(shown.len() - second.len(), shown.len() as int) =~= second);
        assert(shown.skip(shown.len() - second.len()) =~= second);
    }
}

/// A single file is the build after a change of which the one before is missing, and it
/// is what is shown.
pub proof fn lemma_one_file_is_looked_at(args: &Vec<String>, r: Result<Sides, Error>)
    requires
        call_ensures(read_sides, (args,), r),
        args@.len() == 1,
    ensures
        r is Ok,
        r->Ok_0.standalone,
        r->Ok_0.before is None,
        r->Ok_0.after is Some,
        r->Ok_0.after->0@ == args@[0]@,
        r->Ok_0.display@ == args@[0]@,
{
}

/// No other number of arguments is taken, and the refusal tells the number.
#[verifier::rlimit(60)]
pub proof fn lemma_other_counts_are_refused(args: &Vec<String>, r: Result<Sides, Error>)
    requires
        call_ensures(read_sides, (args,), r),
    ensures
        r is Err <==> !(args@.len() == 1 || args@.len() == 2 || args@.len() == 7 || args@.len()
            == 9),
        r matches Err(error) ==> tells_number(error.text(), args@.len(), "\n"@),
{
    if r is Err {
        let text = r->Err_0.text();
        let head = "expected 1 or 2 file paths, or 7 arguments from git, got "@;
        reveal_strlit("expected 1 or 2 file paths, or 7 arguments from git, got ");
        reveal_strlit("\n");
        reveal_strlit(
            "\n\nUsage:\n    schematic-diff <file>                  Inspect a single schematic\n    schematic-diff <before> <after>        Diff two schematics directly\n    git diff <rev1>:<path> <rev2>:<path>   Diff revisions via git\n    git diff --no-index <before> <after>   Diff files via git",
        );
        let tail = miscounted(args@.len()).skip((head.len() + decimal(args@.len()).len()) as int);
        assert(text =~= head + decimal(args@.len()) + tail);
        lemma_number_is_told(head, args@.len(), "\n"@, tail.skip(1));
        assert(tail =~= "\n"@ + tail.skip(1));
        assert(head + decimal(args@.len()) + "\n"@ + tail.skip(1) =~= text);
    }
}

/// A side that is a directory is refused.
pub fn directory_refused(side: &str) -> (r: Error)
    ensures
        r.text() == side@ + " is a directory; comparing two directories is not supported"@,
{
    let mut text = side.to_owned();
    text.append(" is a directory; comparing two directories is not supported");
    Error::message(text)
}

/// A comparison of nothing with nothing is refused.
pub fn both_missing(display: &str) -> (r: Error)
    ensures
        r.text() == "both sides of "@ + display@ + " are missing"@,
{
    let mut text = "both sides of ".to_owned();
    text.append(display);
    text.append(" are missing");
    Error::message(text)
}

/// Which of `--kitty` and `--no-kitty` came last.
pub open spec fn last_flag(args: Seq<Seq<char>>) -> Option<bool>
    decreases args.len(),
{
    if args.len() == 0 {
        None
    } else if args.last() == "--kitty"@ {
        Some(true)
    } else if args.last() == "--no-kitty"@ {
        Some(false)
    } else {
        last_flag(args.drop_last())
    }
}

/// Which of `--kitty`/`--no-kitty` came last on the command line.
pub fn last_kitty_flag(args: &Vec<String>) -> (r: Option<bool>)
    ensures
        r == last_flag(views(args@)),
{
    let ghost all = views(args@);
    let mut left: usize = args.len();
    assert(all.take(left as int) =~= all);
    while left > 0
        invariant
            left <= args.len(),
            all == views(args@),
            last_flag(all) == last_flag(all.take(left as int)),
        decreases left,
    {
        let arg = args[left - 1].as_str();
        proof {
            assert(all.take(left as int).last() == arg@);
            assert(all.take(left as int).drop_last() =~= all.take(left - 1));
        }
        if same(arg, "--kitty") {
            return Some(true);
        }
        if same(arg, "--no-kitty") {
            return Some(false);
        }
        left = left - 1;
    }
    None
}

/// Of the flags among some arguments this is what the last one says: after it there is no
/// other, and where it says nothing there is none.
pub open spec fn is_last_word(args: Seq<String>, word: Option<bool>) -> bool {
    match word {
        Some(on) => exists|i: int|
            0 <= i < args.len() && (#[trigger] args[i])@ == (if on {
                "--kitty"@
            } else {
                "--no-kitty"@
            }) && forall|j: int|
                i < j < args.len() ==> (#[trigger] args[j])@ != "--kitty"@ && args[j]@
                    != "--no-kitty"@,
        None => forall|j: int|
            0 <= j < args.len() ==> (#[trigger] args[j])@ != "--kitty"@ && args[j]@
                != "--no-kitty"@,
    }
}

/// The flag that counts is the last one.
pub proof fn lemma_the_last_flag_counts(args: &Vec<String>, r: Option<bool>)
    requires
        call_ensures(last_kitty_flag, (args,), r),
    ensures
        is_last_word(args@, r),
{
    lemma_last_word(args, r);
}

proof fn lemma_last_word(args: &Vec<String>, r: Option<bool>)
    requires
        r == last_flag(views(args@)),
    ensures
        is_last_word(args@, r),
{
    let all = views(args@);
    let i = lemma_last_flag(all);
    if r is Some {
        assert(args@[i]@ == all[i]);
        assert forall|j: int| i < j < args@.len() implies (#[trigger] args@[j])@ != "--kitty"@
            && args@[j]@ != "--no-kitty"@ by {
            assert(all[j] == args@[j]@);
        }
    } else {
        assert forall|j: int| 0 <= j < args@.len() implies (#[trigger] args@[j])@ != "--kitty"@
            && args@[j]@ != "--no-kitty"@ by {
            assert(all[j] == args@[j]@);
        }
    }
}

proof fn lemma_last_flag(all: Seq<Seq<char>>) -> (i: int)
    ensures
        match last_flag(all) {
            Some(on) => 0 <= i < all.len() && all[i] == (if on {
                "--kitty"@
            } else {
                "--no-kitty"@
            }) && forall|j: int|
                i < j < all.len() ==> #[trigger] all[j] != "--kitty"@ && all[j] != "--no-kitty"@,
            None => forall|j: int|
                0 <= j < all.len() ==> #[trigger] all[j] != "--kitty"@ && all[j] != "--no-kitty"@,
        },
    decreases all.len(),
{
    if all.len() == 0 {
        0
    } else if all.last() == "--kitty"@ || all.last() == "--no-kitty"@ {
        all.len() - 1
    } else {
        let i = lemma_last_flag(all.drop_last());
        assert forall|j: int|
            0 <= j < all.len() && (last_flag(all) is Some ==> i < j) implies #[trigger] all[j]
            != "--kitty"@ && all[j] != "--no-kitty"@ by {
            if j < all.len() - 1 {
                assert(all.drop_last()[j] == all[j]);
            }
        }
        i
    }
}

/// A flag that is given alone is followed, and where both are given the last one is.
pub proof fn lemma_the_flags_are_followed(
    kitty: bool,
    no_kitty: bool,
    args: &Vec<String>,
    r: Option<bool>,
)
    requires
        call_ensures(kitty_choice, (kitty, no_kitty, args), r),
    ensures
        kitty && !no_kitty ==> r == Some(true),
        no_kitty && !kitty ==> r == Some(false),
        !kitty && !no_kitty ==> r is None,
        kitty && no_kitty ==> is_last_word(args@, r),
{
    if kitty && no_kitty {
        lemma_last_word(args, r);
    }
}

/// What the flags say goes before what the environment says, and the environment is
/// heard only where it says `1` or `0`.
pub proof fn lemma_flags_go_before_the_environment(
    flags: Option<bool>,
    variable: Option<&str>,
    r: Option<bool>,
)
    requires
        call_ensures(forced_choice, (flags, variable), r),
    ensures
        flags is Some ==> r == flags,
        flags is None ==> (r == Some(true) <==> variable is Some && variable->0@ == "1"@),
        flags is None ==> (r == Some(false) <==> variable is Some && variable->0@ == "0"@),
{
    reveal_strlit("0");
    reveal_strlit("1");
    assert("0"@[0] != "1"@[0]);
}

/// Images are left out exactly where they are turned off.
pub proof fn lemma_only_turning_off_leaves_images_out(forced: Option<bool>, r: bool)
    requires
        call_ensures(is_rendered, (forced,), r),
    ensures
        !r <==> forced is Some && !forced->0,
{
}

/// Whether images are forced on or off, by which of the two flags were given. Where
/// both were, the last one wins.
pub fn kitty_choice(kitty: bool, no_kitty: bool, args: &Vec<String>) -> (r: Option<bool>)
    ensures
        r == (if kitty && no_kitty {
            last_flag(views(args@))
        } else if kitty {
            Some(true)
        } else if no_kitty {
            Some(false)
        } else {
            None
        }),
{
    if kitty && no_kitty {
        last_kitty_flag(args)
    } else if kitty {
        Some(true)
    } else if no_kitty {
        Some(false)
    } else {
        None
    }
}

/// Whether an image is drawn at all: not where images are turned off.
pub fn is_rendered(forced: Option<bool>) -> (r: bool)
    ensures
        r == (forced != Some(false)),
{
    match forced {
        Some(on) => on,
        None => true,
    }
}

/// Whether images are forced on or off: by the flags, or else by the environment
/// variable `SCHEMATIC_DIFF_KITTY`, which says `1` for on and `0` for off.
pub fn forced_choice(flags: Option<bool>, variable: Option<&str>) -> (r: Option<bool>)
    ensures
        r == (match (flags, variable) {
            (Some(flag), _) => Some(flag),
            (None, Some(variable)) => if variable@ == "1"@ {
                Some(true)
            } else if variable@ == "0"@ {
                Some(false)
            } else {
                None
            },
            (None, None) => None,
        }),
{
    match (flags, variable) {
        (Some(flag), _) => Some(flag),
        (None, Some(variable)) => if same(variable, "1") {
            Some(true)
        } else if same(variable, "0") {
            Some(false)
        } else {
            None
        },
        (None, None) => None,
    }
}

/// What follows a leading `~` in a path, without the separator behind it.
pub open spec fn below_home(path: Seq<char>) -> Option<Seq<char>> {
    if "~/"@.is_prefix_of(path) {
        Some(path.skip("~/"@.len() as int))
    } else if "~"@.is_prefix_of(path) {
        Some(path.skip("~"@.len() as int))
    } else {
        None
    }
}

/// What follows a leading `~` in a user-supplied path.
///
/// The command line usually reaches this tool from a git config string, where
/// `--pack=~/pack.zip` looks right but arrives literally: a shell only expands `~`
/// at the start of a word, and here it follows the `=`. Expanding it is what lets a
/// config keep the home-relative path a person would write.
pub fn tilde_rest(path: &str) -> (r: Option<String>)
    ensures
        text_of(r) == below_home(path@),
{
    match without_prefix(path, "~/") {
        Some(rest) => {
            assert(path@.skip("~/"@.len() as int) =~= rest@);
            assert("~/"@.is_prefix_of(path@));
            return Some(rest);
        },
        None => {},
    }
    match without_prefix(path, "~") {
        Some(rest) => {
            assert(path@.skip("~"@.len() as int) =~= rest@);
            assert("~"@.is_prefix_of(path@));
            Some(rest)
        },
        None => None,
    }
}

/// A path below home is the tilde, the separator and the rest; what is left keeps all of
/// the path but these, and a path without a leading tilde is none.
pub proof fn lemma_tilde_is_all_that_is_taken_off(path: &str, r: Option<String>)
    requires
        call_ensures(tilde_rest, (path,), r),
    ensures
        r is Some <==> path@.len() > 0 && path@[0] == '~',
        r matches Some(rest) ==> path@ == seq!['~', '/'] + rest@ || (path@ == seq!['~'] + rest@
            && !(rest@.len() > 0 && rest@[0] == '/')),
{
    reveal_strlit("~/");
    reveal_strlit("~");
    assert("~/"@ =~= seq!['~', '/']);
    assert("~"@ =~= seq!['~']);
    if "~/"@.is_prefix_of(path@) {
        assert(path@ =~= "~/"@ + path@.skip(2));
        assert(path@[0] == '~');
    } else if "~"@.is_prefix_of(path@) {
        assert(path@ =~= "~"@ + path@.skip(1));
        assert(path@[0] == '~');
        if path@.len() > 1 && path@[1] == '/' {
            assert(path@.subrange(0, 2) =~= "~/"@);
            assert(path@.take(2) =~= "~/"@);
        }
    } else if path@.len() > 0 && path@[0] == '~' {
        assert(path@.subrange(0, 1) =~= "~"@);
        assert(path@.take(1) =~= "~"@);
    }
}

/// Whether a condition that is the same for every file of a `git diff` is reported
/// at this one. Git counts the paths of a diff, and only the first is told.
pub fn is_first_report(counter: Option<&str>) -> (r: bool)
    ensures
        r == (match counter {
            Some(counter) => counter@ == "1"@,
            None => true,
        }),
{
    match counter {
        Some(counter) => same(counter, "1"),
        None => true,
    }
}

/// The panel captions of two sides: each side's own name, or the other's where it
/// has none.
pub fn labels(before: Option<&str>, after: Option<&str>) -> (r: (String, String))
    ensures
        r.0@ == (match (before, after) {
            (Some(b), _) => b@,
            (None, Some(a)) => a@,
            (None, None) => Seq::empty(),
        }),
        r.1@ == (match (before, after) {
            (_, Some(a)) => a@,
            (Some(b), None) => b@,
            (None, None) => Seq::empty(),
        }),
{
    match (before, after) {
        (Some(b), Some(a)) => (b.to_owned(), a.to_owned()),
        (Some(b), None) => (b.to_owned(), b.to_owned()),
        (None, Some(a)) => (a.to_owned(), a.to_owned()),
        (None, None) => (String::new(), String::new()),
    }
}

/// Each side that is there has its own name as its caption.
pub proof fn lemma_sides_keep_their_names(
    before: Option<&str>,
    after: Option<&str>,
    r: (String, String),
)
    requires
        call_ensures(labels, (before, after), r),
    ensures
        before matches Some(name) ==> r.0@ == name@,
        after matches Some(name) ==> r.1@ == name@,
        before is None || after is None ==> r.0@ == r.1@,
{
}

/// Git's placeholder stands for a side that does not exist, and every other path for itself.
pub proof fn lemma_placeholder_is_no_side(raw: &str, r: Option<String>)
    requires
        call_ensures(side_path, (raw,), r),
    ensures
        r is None <==> raw@ == "/dev/null"@,
        r matches Some(path) ==> path@ == raw@,
{
}

/// A condition is reported once in a run: always outside of one that git counts, and at its
/// first path alone in one that it does.
pub proof fn lemma_only_the_first_path_reports(counter: &str, r: bool, alone: bool)
    requires
        call_ensures(is_first_report, (Some(counter),), r),
        call_ensures(is_first_report, (None,), alone),
    ensures
        alone,
        counter@ == decimal(1) ==> r,
        forall|n: nat| n != 1 && counter@ == #[trigger] decimal(n) ==> !r,
{
    reveal_strlit("1");
    assert("1"@ =~= decimal(1)) by {
        assert(decimal(1) =~= seq!['1']);
    }
    assert forall|n: nat| n != 1 && counter@ == #[trigger] decimal(n) implies !r by {
        lemma_decimal_reads_back(n);
        lemma_decimal_reads_back(1);
    }
}

/// A refusal names what it is about: the side that is a directory, or the path of which there
/// is neither side.
pub proof fn lemma_refusals_name_their_path(side: &str, directory: Error, missing: Error)
    requires
        call_ensures(directory_refused, (side,), directory),
        call_ensures(both_missing, (side,), missing),
    ensures
        side@.is_prefix_of(directory.text()),
        occurs(" is a directory"@, directory.text()),
        occurs(side@, missing.text()),
        occurs(" are missing"@, missing.text()),
{
    let words = " is a directory; comparing two directories is not supported"@;
    let n = side@.len() as int;
    assert(directory.text().subrange(0, n) =~= side@);
    reveal_strlit(" is a directory; comparing two directories is not supported");
    reveal_strlit(" is a directory");
    reveal_strlit("both sides of ");
    reveal_strlit(" are missing");
    assert(directory.text().subrange(n, n + " is a directory"@.len()) =~= " is a directory"@);
    let start = "both sides of "@.len() as int;
    assert(missing.text().subrange(start, start + side@.len()) =~= side@);
    assert(missing.text().subrange(start + n, start + n + " are missing"@.len())
        =~= " are missing"@);
}

} // verus!
