//! The configuration builder: it drives the tokenizer over the lines of a
//! configuration and assembles the libraries.
//!
//! A library header closes the library before it and opens a new one. An
//! assignment sets the open library's source, its revision or a variable. A
//! step header is followed by the step's commands, which are stored with the
//! placeholders filled in from what the library holds at that point. The end
//! marker, or the end of the lines, closes the last library. What stands
//! before the first library header belongs to no library and is dropped. A
//! name that comes a second time, of a library, a variable or a step, keeps its
//! place and takes the later value.

use vstd::prelude::*;
use vstd::string::StrSliceExecFns;
use crate::config::{
    command_views,
    insert_library,
    insert_step,
    insert_variable,
    library_entries,
    new_libraries,
    new_steps,
    new_variables,
    Config,
    Library,
    LibraryView,
};
use crate::lex::{
    line_command,
    line_views,
    scan_command,
    scan_token,
    ConfigSyntaxError,
    Lexer,
    LineCommand,
    SyntaxErrorView,
    Token,
    TokenView,
};
use crate::ordered::put;
use crate::substitute::{substitute, substituted, substituted_all};
use crate::text::{chars_of, find_char, position_of, trimmed};

verus! {

/// The libraries of a configuration, in order: name and library.
pub type ConfigView = Seq<(Seq<char>, LibraryView)>;

/// What the builder holds while it reads: the libraries that are closed, and
/// the open one with its name.
pub struct Draft {
    pub libraries: ConfigView,
    pub open: Option<(Seq<char>, LibraryView)>,
}

/// A library of which nothing is known yet.
pub open spec fn blank_library() -> LibraryView {
    LibraryView {
        source: Seq::empty(),
        commit: Seq::empty(),
        variables: Seq::empty(),
        steps: Seq::empty(),
    }
}

/// The draft before the first line.
pub open spec fn first_draft() -> Draft {
    Draft { libraries: Seq::empty(), open: None }
}

/// The libraries of `draft` once the open one is closed.
pub open spec fn closed(draft: Draft) -> ConfigView {
    match draft.open {
        Some((name, library)) => put(draft.libraries, name, library),
        None => draft.libraries,
    }
}

/// `draft` after the library header `name`.
pub open spec fn opened(draft: Draft, name: Seq<char>) -> Draft {
    Draft { libraries: closed(draft), open: Some((name, blank_library())) }
}

/// `library` after the assignment of `value` to `key`.
pub open spec fn assigned(library: LibraryView, key: Seq<char>, value: Seq<char>) -> LibraryView {
    if key == "source"@ {
        LibraryView { source: value, ..library }
    } else if key == "commit"@ {
        LibraryView { commit: value, ..library }
    } else {
        LibraryView { variables: put(library.variables, key, value), ..library }
    }
}

/// `library` after the step `name` with the commands `commands` as written.
pub open spec fn with_step(library: LibraryView, name: Seq<char>, commands: Seq<Seq<char>>) ->
    LibraryView {
    LibraryView { steps: put(library.steps, name, substituted_all(commands, library)), ..library }
}

/// The open library, if there is one, replaced by `change` of it.
pub open spec fn changed_open(
    open: Option<(Seq<char>, LibraryView)>,
    change: spec_fn(LibraryView) -> LibraryView,
) -> Option<(Seq<char>, LibraryView)> {
    match open {
        Some((name, library)) => Some((name, change(library))),
        None => None,
    }
}

/// `draft` with its open library, if it has one, replaced by `change` of it.
pub open spec fn changed(draft: Draft, change: spec_fn(LibraryView) -> LibraryView) -> Draft {
    Draft { libraries: draft.libraries, open: changed_open(draft.open, change) }
}

/// The commands from line `pos` up to the next boundary, and the position of
/// that boundary.
pub open spec fn scan_commands(lines: Seq<Seq<char>>, pos: int) -> (Seq<Seq<char>>, int)
    decreases lines.len() - pos,
{
    if pos < 0 || pos >= lines.len() {
        (Seq::empty(), pos)
    } else {
        match line_command(trimmed(lines[pos])) {
            LineCommand::Skipped => scan_commands(lines, pos + 1),
            LineCommand::Boundary => (Seq::empty(), pos),
            LineCommand::Command(command) => {
                let (rest, end) = scan_commands(lines, pos + 1);
                (seq![command] + rest, end)
            },
        }
    }
}

/// The configuration that the lines from `pos` on make of `draft`.
pub open spec fn parsed_from(lines: Seq<Seq<char>>, pos: int, draft: Draft) -> Result<
    ConfigView,
    SyntaxErrorView,
>
    decreases lines.len() - pos,
    via parsed_from_decreases
{
    let (found, next) = scan_token(lines, pos);
    match found {
        Err(error) => Err(error),
        Ok(TokenView::EndOfFile) => Ok(closed(draft)),
        Ok(TokenView::EndOfConfig) => Ok(closed(draft)),
        Ok(TokenView::LibraryName(name)) => parsed_from(lines, next, opened(draft, name)),
        Ok(TokenView::KeyValue(key, value)) => parsed_from(
            lines,
            next,
            changed(draft, |library: LibraryView| assigned(library, key, value)),
        ),
        Ok(TokenView::Step(name)) => {
            let (commands, after) = scan_commands(lines, next);
            parsed_from(
                lines,
                after,
                changed(draft, |library: LibraryView| with_step(library, name, commands)),
            )
        },
    }
}

#[via_fn]
proof fn parsed_from_decreases(lines: Seq<Seq<char>>, pos: int, draft: Draft) {
    lemma_scan_token_advances(lines, pos);
    lemma_scan_commands_advances(lines, scan_token(lines, pos).1);
}

/// The configuration that `lines` describe.
pub open spec fn parsed(lines: Seq<Seq<char>>) -> Result<ConfigView, SyntaxErrorView> {
    parsed_from(lines, 0, first_draft())
}

/// A token is found past the position at which the search began, and within
/// the lines; only at their end is nothing consumed.
pub proof fn lemma_scan_token_advances(lines: Seq<Seq<char>>, pos: int)
    ensures
        0 <= pos <= lines.len() ==> pos <= scan_token(lines, pos).1 <= lines.len(),
        scan_token(lines, pos).0 != Ok::<TokenView, SyntaxErrorView>(TokenView::EndOfFile)
            ==> 0 <= pos < scan_token(lines, pos).1 <= lines.len(),
    decreases lines.len() - pos,
{
    if 0 <= pos < lines.len() {
        lemma_scan_token_advances(lines, pos + 1);
    }
}

/// A command is found past the position at which the search began, and
/// within the lines; where none is found, the position is that of the boundary
/// or the end of the lines.
pub proof fn lemma_scan_command_advances(lines: Seq<Seq<char>>, pos: int)
    ensures
        0 <= pos <= lines.len() ==> pos <= scan_command(lines, pos).1 <= lines.len(),
        scan_command(lines, pos).0 is Some ==> 0 <= pos < scan_command(lines, pos).1
            <= lines.len(),
    decreases lines.len() - pos,
{
    if 0 <= pos < lines.len() {
        lemma_scan_command_advances(lines, pos + 1);
    }
}

/// The commands of a step end at or after the position at which they began.
pub proof fn lemma_scan_commands_advances(lines: Seq<Seq<char>>, pos: int)
    ensures
        0 <= pos <= lines.len() ==> pos <= scan_commands(lines, pos).1 <= lines.len(),
        !(0 <= pos <= lines.len()) ==> scan_commands(lines, pos).1 == pos,
    decreases lines.len() - pos,
{
    if 0 <= pos < lines.len() {
        lemma_scan_commands_advances(lines, pos + 1);
    }
}

/// The commands of a step are what the command scanner finds, one after the
/// other, until it finds none.
pub proof fn lemma_scan_commands_unfold(lines: Seq<Seq<char>>, pos: int)
    ensures
        scan_commands(lines, pos) == match scan_command(lines, pos).0 {
            Some(command) => (
                seq![command] + scan_commands(lines, scan_command(lines, pos).1).0,
                scan_commands(lines, scan_command(lines, pos).1).1,
            ),
            None => (Seq::<Seq<char>>::empty(), scan_command(lines, pos).1),
        },
    decreases lines.len() - pos,
{
    if 0 <= pos < lines.len() {
        lemma_scan_commands_unfold(lines, pos + 1);
    }
}

/// The result of `parse` as a mathematical value.
pub open spec fn parse_outcome(r: Result<Config, ConfigSyntaxError>) -> Result<
    ConfigView,
    SyntaxErrorView,
> {
    match r {
        Ok(config) => Ok(config@),
        Err(error) => Err(error@),
    }
}

/// The open library of the builder as a mathematical value.
pub open spec fn open_view(open: Option<(String, Library)>) -> Option<(Seq<char>, LibraryView)> {
    match open {
        Some((name, library)) => Some((name@, library@)),
        None => None,
    }
}

/// The lines of `text`. A line ends at a line feed, which is not part of it,
/// nor is a carriage return just before the line feed. The last line needs no
/// line feed; after a last line feed no further line begins.
pub open spec fn split_lines(text: Seq<char>) -> Seq<Seq<char>>
    decreases text.len(),
{
    if text.len() == 0 {
        Seq::empty()
    } else {
        let at = position_of(text, '\n');
        if 0 <= at < text.len() {
            seq![without_return(text.take(at))] + split_lines(text.skip(at + 1))
        } else {
            seq![text]
        }
    }
}

/// `line` without the carriage return at its end, where it has one.
pub open spec fn without_return(line: Seq<char>) -> Seq<char> {
    if line.len() > 0 && line.last() == '\r' {
        line.drop_last()
    } else {
        line
    }
}

/// The lines of `text`.
pub fn lines_of(text: &str) -> (lines: Vec<&str>)
    ensures
        line_views(lines@) == split_lines(text@),
{
    let chars = chars_of(text);
    let n = chars.len();
    let mut lines: Vec<&str> = Vec::new();
    let mut start: usize = 0;
    assert(text@.skip(0) == text@);
    assert(line_views(lines@) + split_lines(text@) == split_lines(text@));
    while start < n
        invariant
            chars@ == text@,
            n == chars.len(),
            start <= n,
            split_lines(text@) == line_views(lines@) + split_lines(text@.skip(start as int)),
        decreases n - start,
    {
        let ghost rest = text@.skip(start as int);
        let ghost before = line_views(lines@);
        let at = find_char(&chars, start, n, '\n');
        assert(chars@.subrange(start as int, n as int) == rest);
        if at < n {
            let end = if at > start && chars[at - 1] == '\r' {
                at - 1
            } else {
                at
            };
            let line = text.substring_char(start, end);
            assert(rest.take(at - start) == text@.subrange(start as int, at as int));
            assert(line@ == without_return(rest.take(at - start)));
            assert(rest.skip(at - start + 1) == text@.skip(at + 1));
            lines.push(line);
            assert(line_views(lines@) == before + seq![line@]);
            start = at + 1;
        } else {
            let line = text.substring_char(start, n);
            assert(line@ == rest);
            lines.push(line);
            assert(line_views(lines@) == before + seq![line@]);
            start = n;
            assert(text@.skip(n as int).len() == 0);
        }
    }
    assert(text@.skip(start as int).len() == 0);
    lines
}

/// The commands from the lexer's position up to the next boundary, as they
/// are written.
fn collect_commands(lexer: &mut Lexer) -> (commands: Vec<String>)
    ensures
        final(lexer).lines() == old(lexer).lines(),
        command_views(commands@) == scan_commands(old(lexer).lines(), old(lexer).position()).0,
        final(lexer).position() == scan_commands(old(lexer).lines(), old(lexer).position()).1,
{
    let mut commands: Vec<String> = Vec::new();
    assert(command_views(commands@) + scan_commands(lexer.lines(), lexer.position()).0
        == scan_commands(lexer.lines(), lexer.position()).0);
    loop
        invariant_except_break
            lexer.lines() == old(lexer).lines(),
            scan_commands(old(lexer).lines(), old(lexer).position()).0 == command_views(commands@)
                + scan_commands(lexer.lines(), lexer.position()).0,
            scan_commands(old(lexer).lines(), old(lexer).position()).1 == scan_commands(
                lexer.lines(),
                lexer.position(),
            ).1,
        ensures
            lexer.lines() == old(lexer).lines(),
            command_views(commands@) == scan_commands(
                old(lexer).lines(),
                old(lexer).position(),
            ).0,
            lexer.position() == scan_commands(old(lexer).lines(), old(lexer).position()).1,
        decreases lexer.lines().len() - lexer.position(),
    {
        proof {
            lemma_scan_commands_unfold(lexer.lines(), lexer.position());
            lemma_scan_command_advances(lexer.lines(), lexer.position());
        }
        let ghost before = command_views(commands@);
        match lexer.next_command() {
            Some(command) => {
                commands.push(command);
                assert(command_views(commands@) == before + seq![command@]);
            },
            None => {
                break ;
            },
        }
    }
    commands
}

/// Each of `commands` with the placeholders of `library` filled in.
fn substitute_all(commands: &Vec<String>, library: &Library) -> (out: Vec<String>)
    ensures
        command_views(out@) == substituted_all(command_views(commands@), library@),
{
    let mut out: Vec<String> = Vec::new();
    let mut i: usize = 0;
    while i < commands.len()
        invariant
            i <= commands.len(),
            out.len() == i,
            forall|j: int|
                0 <= j < i ==> (#[trigger] out@[j])@ == substituted(commands@[j]@, library@),
        decreases commands.len() - i,
    {
        out.push(substitute(commands[i].as_str(), library));
        i += 1;
    }
    assert(command_views(out@) =~= substituted_all(command_views(commands@), library@));
    out
}

/// The configuration that `lines` describe, or the first step header
/// without a name.
pub fn parse_lines(lines: &[&str]) -> (result: Result<Config, ConfigSyntaxError>)
    ensures
        parse_outcome(result) == parsed(line_views(lines@)),
{
    let mut lexer = Lexer::new(lines);
    let mut libraries = new_libraries();
    let mut open: Option<(String, Library)> = None;
    loop
        invariant_except_break
            lexer.lines() == line_views(lines@),
            parsed(line_views(lines@)) == parsed_from(
                lexer.lines(),
                lexer.position(),
                Draft { libraries: library_entries(libraries), open: open_view(open) },
            ),
        ensures
            parsed(line_views(lines@)) == Ok::<ConfigView, SyntaxErrorView>(
                closed(Draft { libraries: library_entries(libraries), open: open_view(open) }),
            ),
        decreases lexer.lines().len() - lexer.position(),
    {
        proof {
            lemma_scan_token_advances(lexer.lines(), lexer.position());
        }
        let ghost draft = Draft { libraries: library_entries(libraries), open: open_view(open) };
        match lexer.next_token() {
            Err(error) => {
                return Err(error);
            },
            Ok(Token::EndOfFile) => {
                break ;
            },
            Ok(Token::EndOfConfig) => {
                break ;
            },
            Ok(Token::LibraryName(name)) => {
                if let Some((closing, library)) = open {
                    insert_library(&mut libraries, closing, library);
                }
                let library = Library {
                    source: String::new(),
                    commit: String::new(),
                    variables: new_variables(),
                    steps: new_steps(),
                };
                assert(library@ == blank_library());
                open = Some((name, library));
            },
            Ok(Token::KeyValue(key, value)) => {
                open =
                match open {
                    Some((name, mut library)) => {
                        if same_text(key.as_str(), "source") {
                            library.source = value;
                        } else if same_text(key.as_str(), "commit") {
                            library.commit = value;
                        } else {
                            insert_variable(&mut library.variables, key, value);
                        }
                        Some((name, library))
                    },
                    None => None,
                };
            },
            Ok(Token::Step(step)) => {
                proof {
                    lemma_scan_commands_advances(lexer.lines(), lexer.position());
                }
                let commands = collect_commands(&mut lexer);
                open =
                match open {
                    Some((name, mut library)) => {
                        let filled = substitute_all(&commands, &library);
                        insert_step(&mut library.steps, step, filled);
                        Some((name, library))
                    },
                    None => None,
                };
            },
        }
    }
    if let Some((closing, library)) = open {
        insert_library(&mut libraries, closing, library);
    }
    Ok(Config { libraries })
}

/// The configuration that `text` describes, or the first step header without
/// a name.
pub fn parse(text: &str) -> (result: Result<Config, ConfigSyntaxError>)
    ensures
        parse_outcome(result) == parsed(split_lines(text@)),
{
    let lines = lines_of(text);
    parse_lines(lines.as_slice())
}

/// Whether `a` and `b` are the same text.
fn same_text(a: &str, b: &str) -> (r: bool)
    ensures
        r == (a@ == b@),
{
    let x = chars_of(a);
    let y = chars_of(b);
    if x.len() != y.len() {
        return false;
    }
    let mut i: usize = 0;
    while i < x.len()
        invariant
            x@ == a@,
            y@ == b@,
            x.len() == y.len(),
            i <= x.len(),
            x@.take(i as int) == y@.take(i as int),
        decreases x.len() - i,
    {
        if x[i] != y[i] {
            assert(a@[i as int] != b@[i as int]);
            return false;
        }
        assert(x@.take(i + 1) == x@.take(i as int).push(x@[i as int]));
        assert(y@.take(i + 1) == y@.take(i as int).push(y@[i as int]));
        i += 1;
    }
    assert(x@.take(x.len() as int) == x@);
    assert(y@.take(y.len() as int) == y@);
    true
}

} // verus!
