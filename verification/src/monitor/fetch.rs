//! The command that fetches a snapshot, and what is told of its failures.
//!
//! The command is run elsewhere. Here its arguments are put together, a
//! failed run is written down as one line of text, and that line is read
//! back into its parts.

use crate::monitor::data::formatter::{format_integer, spec_format_integer};
use crate::monitor::data::label::chars_of;
use crate::monitor::data::text::{
    blank, field, has_prefix, is_blank, lemma_field_from, lemma_fields_of_joined,
    lemma_integer_read_back, next_separator, parse_i32_between, spec_parse_i32, trim, trimmed,
};
use crate::monitor::state::CommandError;
use vstd::prelude::*;
use vstd::string::{StrSliceExecFns, StringExecFns};

verus! {

/// The views of `texts`.
pub open spec fn texts_of(texts: Seq<String>) -> Seq<Seq<char>> {
    Seq::new(texts.len(), |i: int| texts[i]@)
}

/// The words after the program's name that ask for the snapshot.
pub open spec fn dump_arguments() -> Seq<Seq<char>> {
    seq!["pg"@, "dump"@, "--format"@, "json-pretty"@]
}

/// The command that fetches a snapshot, word by word: the program `ceph`
/// with the words that ask for the snapshot, behind the words of the prefix
/// where there is one.
pub open spec fn spec_fetch_command(prefix: Option<Seq<Seq<char>>>) -> Seq<Seq<char>> {
    match prefix {
        Some(words) => words.push("ceph"@) + dump_arguments(),
        None => seq!["ceph"@] + dump_arguments(),
    }
}

/// The prefix as it counts: none where it has no word.
pub open spec fn counted(prefix_args: Option<&Vec<String>>) -> Option<Seq<Seq<char>>> {
    match prefix_args {
        Some(words) => if words@.len() > 0 {
            Some(texts_of(words@))
        } else {
            None
        },
        None => None,
    }
}

/// The command that fetches a snapshot, word by word; the first word is the
/// program to run.
pub fn fetch_command(prefix_args: Option<&Vec<String>>) -> (command: Vec<String>)
    ensures
        texts_of(command@) == spec_fetch_command(counted(prefix_args)),
{
    let mut command: Vec<String> = Vec::new();
    match prefix_args {
        Some(words) => {
            let mut i: usize = 0;
            while i < words.len()
                invariant
                    i <= words.len(),
                    command@.len() == i,
                    forall|k: int| 0 <= k < i ==> (#[trigger] command@[k])@ == words@[k]@,
                decreases words.len() - i,
            {
                command.push(words[i].clone());
                i = i + 1;
            }
            assert(texts_of(command@) =~= texts_of(words@));
        },
        None => {
            assert(texts_of(command@) =~= Seq::<Seq<char>>::empty());
        },
    }
    let ghost head = texts_of(command@);
    command.push("ceph".to_owned());
    command.push("pg".to_owned());
    command.push("dump".to_owned());
    command.push("--format".to_owned());
    command.push("json-pretty".to_owned());
    assert(texts_of(command@) =~= head.push("ceph"@) + dump_arguments());
    assert(Seq::<Seq<char>>::empty().push("ceph"@) =~= seq!["ceph"@]);
    command
}

/// `words` in one line, a space between each two.
pub open spec fn joined(words: Seq<Seq<char>>) -> Seq<char>
    decreases words.len(),
{
    if words.len() == 0 {
        Seq::empty()
    } else if words.len() == 1 {
        words[0]
    } else {
        joined(words.drop_last()) + " "@ + words.last()
    }
}

/// The command that fetches a snapshot as the user would type it.
pub open spec fn spec_command_line(prefix: Option<Seq<Seq<char>>>) -> Seq<char> {
    match prefix {
        Some(words) => joined(words) + " ceph pg dump --format json-pretty"@,
        None => "ceph pg dump --format json-pretty"@,
    }
}

/// The command that fetches a snapshot as the user would type it.
pub fn command_line(prefix_args: Option<&Vec<String>>) -> (line: String)
    ensures
        line@ == spec_command_line(counted(prefix_args)),
{
    match prefix_args {
        Some(words) => {
            if words.len() == 0 {
                return "ceph pg dump --format json-pretty".to_owned();
            }
            let mut line = words[0].clone();
            let mut i: usize = 1;
            assert(texts_of(words@).subrange(0, 1) =~= seq![words@[0]@]);
            while i < words.len()
                invariant
                    1 <= i <= words.len(),
                    line@ == joined(texts_of(words@).subrange(0, i as int)),
                decreases words.len() - i,
            {
                proof {
                    let next = texts_of(words@).subrange(0, i + 1);
                    assert(next.drop_last() =~= texts_of(words@).subrange(0, i as int));
                    assert(next.last() == words@[i as int]@);
                }
                line.append(" ");
                line.append(words[i].as_str());
                i = i + 1;
            }
            assert(texts_of(words@).subrange(0, i as int) =~= texts_of(words@));
            line.append(" ceph pg dump --format json-pretty");
            line
        },
        None => "ceph pg dump --format json-pretty".to_owned(),
    }
}

/// The mark that the line of a failed run begins with.
pub open spec fn command_error_mark() -> Seq<char> {
    "CommandError:"@
}

/// The exit code as it is written down: `-1` where the run gave none.
pub open spec fn code_or_unknown(exit_code: Option<i32>) -> int {
    match exit_code {
        Some(code) => code as int,
        None => -1,
    }
}

/// A failed run in one line: the mark, then the command line, the exit
/// code, the standard output and the standard error, a bar between each
/// two.
pub open spec fn spec_command_error_text(
    command: Seq<char>,
    exit_code: Option<i32>,
    stdout: Seq<char>,
    stderr: Seq<char>,
) -> Seq<char> {
    command_error_mark() + command + seq!['|'] + spec_format_integer(code_or_unknown(exit_code))
        + seq!['|'] + stdout + seq!['|'] + stderr
}

/// A failed run in one line.
pub fn command_error_text(command: &str, exit_code: Option<i32>, stdout: &str, stderr: &str) -> (text:
    String)
    ensures
        text@ == spec_command_error_text(command@, exit_code, stdout@, stderr@),
{
    proof {
        reveal_strlit("|");
    }
    let code: i64 = match exit_code {
        Some(code) => code as i64,
        None => -1,
    };
    let mut text = "CommandError:".to_owned();
    text.append(command);
    text.append("|");
    let written = format_integer(code);
    text.append(written.as_str());
    text.append("|");
    text.append(stdout);
    text.append("|");
    text.append(stderr);
    assert(text@ =~= spec_command_error_text(command@, exit_code, stdout@, stderr@));
    text
}

/// A snapshot that cannot be read, told in full: what the reader found
/// wrong, the trimmed output of the command, and its trimmed standard error
/// where that holds more than blank space.
pub open spec fn spec_parse_failure_text(
    diagnostic: Seq<char>,
    output: Seq<char>,
    stderr: Seq<char>,
) -> Seq<char> {
    let told = "Failed to parse ceph command output as JSON: "@ + diagnostic
        + "\n\nCommand output was:\n"@ + trimmed(output);
    if is_blank(stderr) {
        told
    } else {
        told + "\n\nStderr output:\n"@ + trimmed(stderr)
    }
}

/// A snapshot that cannot be read, told in full.
pub fn parse_failure_text(diagnostic: &str, output: &str, stderr: &str) -> (text: String)
    ensures
        text@ == spec_parse_failure_text(diagnostic@, output@, stderr@),
{
    let mut text = "Failed to parse ceph command output as JSON: ".to_owned();
    text.append(diagnostic);
    text.append("\n\nCommand output was:\n");
    let shown = trim(output);
    text.append(shown.as_str());
    let errors = chars_of(stderr);
    if !blank(&errors) {
        text.append("\n\nStderr output:\n");
        let more = trim(stderr);
        text.append(more.as_str());
    }
    assert(text@ =~= spec_parse_failure_text(diagnostic@, output@, stderr@));
    text
}

/// Why a line is not that of a failed run.
#[derive(Clone, Copy, Debug, PartialEq, Eq, Structural)]
pub struct InvalidCommandError;

impl InvalidCommandError {
    /// The reason in words.
    pub fn message(&self) -> (text: String)
        ensures
            text@ == "Invalid command error format"@,
    {
        "Invalid command error format".to_owned()
    }
}

/// The exit code that `text` writes: `-1` where it writes no number.
pub open spec fn exit_code_of(text: Seq<char>) -> i32 {
    match spec_parse_i32(text) {
        Some(code) => code,
        None => -1i32,
    }
}

/// Whether `error` is what the line `text` tells of a failed run: the
/// command line, the exit code, the standard output and the standard error
/// are the first four fields between bars, and the view is at the top.
pub open spec fn tells(text: Seq<char>, error: CommandError) -> bool {
    &&& field(text, '|', 3) is Some
    &&& Some(error.command@) == field(text, '|', 0)
    &&& Some(error.stdout@) == field(text, '|', 2)
    &&& Some(error.stderr@) == field(text, '|', 3)
    &&& match field(text, '|', 1) {
        Some(code) => error.exit_code == exit_code_of(code),
        None => false,
    }
    &&& error.scroll_offset == 0
}

/// Reads the line of a failed run, without its mark, back into its parts.
/// A line with fewer than four fields between bars is refused; fields after
/// the fourth are left out.
pub fn parse_command_error(error_str: &str) -> (parsed: Result<CommandError, InvalidCommandError>)
    ensures
        match parsed {
            Ok(error) => tells(error_str@, error),
            Err(_) => field(error_str@, '|', 3) is None,
        },
{
    let chars = chars_of(error_str);
    let n: usize = chars.len();
    let ghost text = chars@;
    assert(text.subrange(0, n as int) =~= text);
    // The ends of the first four fields.
    let e0: usize = next_separator(&chars, '|', 0);
    proof {
        lemma_field_from(text, '|', 0, e0 as int, 0);
        lemma_field_from(text, '|', 0, e0 as int, 1);
        lemma_field_from(text, '|', 0, e0 as int, 2);
    }
    if e0 >= n {
        return Err(InvalidCommandError);
    }
    let e1: usize = next_separator(&chars, '|', e0 + 1);
    proof {
        lemma_field_from(text, '|', e0 + 1, e1 as int, 0);
        lemma_field_from(text, '|', e0 + 1, e1 as int, 1);
    }
    if e1 >= n {
        return Err(InvalidCommandError);
    }
    let e2: usize = next_separator(&chars, '|', e1 + 1);
    proof {
        lemma_field_from(text, '|', e1 + 1, e2 as int, 0);
    }
    if e2 >= n {
        return Err(InvalidCommandError);
    }
    let e3: usize = next_separator(&chars, '|', e2 + 1);
    proof {
        lemma_field_from(text, '|', e2 + 1, e3 as int, 0);
    }
    let exit_code: i32 = match parse_i32_between(&chars, e0 + 1, e1) {
        Some(code) => code,
        None => -1,
    };
    Ok(
        CommandError {
            command: error_str.substring_char(0, e0).to_owned(),
            stdout: error_str.substring_char(e1 + 1, e2).to_owned(),
            stderr: error_str.substring_char(e2 + 1, e3).to_owned(),
            exit_code,
            scroll_offset: 0,
        },
    )
}

/// A failed run that is written in one line is read back as it was: the
/// line begins with the mark, and what follows the mark has the command
/// line, the exit code, the standard output and the standard error as its
/// four fields, provided that none of the three texts holds a bar.
pub proof fn lemma_command_error_read_back(
    command: Seq<char>,
    exit_code: Option<i32>,
    stdout: Seq<char>,
    stderr: Seq<char>,
)
    requires
        !command.contains('|'),
        !stdout.contains('|'),
        !stderr.contains('|'),
    ensures
        has_prefix(
            spec_command_error_text(command, exit_code, stdout, stderr),
            command_error_mark(),
        ),
        ({
            let line = spec_command_error_text(command, exit_code, stdout, stderr);
            let rest = line.subrange(command_error_mark().len() as int, line.len() as int);
            &&& field(rest, '|', 0) == Some(command)
            &&& field(rest, '|', 1) == Some(spec_format_integer(code_or_unknown(exit_code)))
            &&& exit_code_of(spec_format_integer(code_or_unknown(exit_code))) == code_or_unknown(
                exit_code,
            )
            &&& field(rest, '|', 2) == Some(stdout)
            &&& field(rest, '|', 3) == Some(stderr)
        }),
{
    let mark = command_error_mark();
    let code = spec_format_integer(code_or_unknown(exit_code));
    let line = spec_command_error_text(command, exit_code, stdout, stderr);
    let rest = line.subrange(mark.len() as int, line.len() as int);
    let after_command = code + seq!['|'] + stdout + seq!['|'] + stderr;
    let after_code = stdout + seq!['|'] + stderr;
    assert(line.subrange(0, mark.len() as int) =~= mark);
    assert(rest =~= command + seq!['|'] + after_command);
    assert(after_command =~= code + seq!['|'] + after_code);
    lemma_integer_read_back(code_or_unknown(exit_code), '|');
    lemma_fields_of_joined(command, '|', after_command, 0);
    lemma_fields_of_joined(command, '|', after_command, 1);
    lemma_fields_of_joined(command, '|', after_command, 2);
    lemma_fields_of_joined(code, '|', after_code, 0);
    lemma_fields_of_joined(code, '|', after_code, 1);
    lemma_fields_of_joined(stdout, '|', stderr, 0);
    lemma_fields_of_joined(stderr, '|', Seq::empty(), 0);
}

} // verus!
