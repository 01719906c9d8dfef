//! The tokenizer of the configuration language.
//!
//! A configuration is read line by line. In token mode a line is a library
//! header `[name]`, an assignment `key = value`, a step header `#name:`, the end
//! marker `%end`, or it is passed over. After a step header the lines are
//! read as commands until one opens something new.

use vstd::prelude::*;
use vstd::string::StrSliceExecFns;
use crate::text::{chars_of, find_char, position_of, trim_bounds, trimmed};

verus! {

/// What the tokenizer hands out.
#[derive(Debug, PartialEq)]
pub enum Token {
    /// `[name]`: a library begins.
    LibraryName(String),
    /// `key = value`.
    KeyValue(String, String),
    /// `#name:`: a step begins.
    Step(String),
    /// No line is left.
    EndOfFile,
    /// `%end`: the configuration ends here, whatever follows.
    EndOfConfig,
}

/// A token as a mathematical value.
pub enum TokenView {
    LibraryName(Seq<char>),
    KeyValue(Seq<char>, Seq<char>),
    Step(Seq<char>),
    EndOfFile,
    EndOfConfig,
}

impl View for Token {
    type V = TokenView;

    open spec fn view(&self) -> TokenView {
        match self {
            Token::LibraryName(name) => TokenView::LibraryName(name@),
            Token::KeyValue(key, value) => TokenView::KeyValue(key@, value@),
            Token::Step(name) => TokenView::Step(name@),
            Token::EndOfFile => TokenView::EndOfFile,
            Token::EndOfConfig => TokenView::EndOfConfig,
        }
    }
}

/// A step header without a name: the one thing the tokenizer refuses.
#[derive(Debug, PartialEq)]
pub struct ConfigSyntaxError {
    /// The number of the offending line, counted from 1.
    pub line: usize,
    /// The offending line as it was written.
    pub content: String,
}

/// A syntax error as a mathematical value.
pub struct SyntaxErrorView {
    pub line: int,
    pub content: Seq<char>,
}

impl View for ConfigSyntaxError {
    type V = SyntaxErrorView;

    open spec fn view(&self) -> SyntaxErrorView {
        SyntaxErrorView { line: self.line as int, content: self.content@ }
    }
}

/// The end marker, `%end`.
pub open spec fn end_marker() -> Seq<char> {
    seq!['%', 'e', 'n', 'd']
}

/// A comment: a line that begins with `/*` and ends with `*/`.
pub open spec fn is_comment(t: Seq<char>) -> bool {
    t.len() >= 2 && t[0] == '/' && t[1] == '*' && t[t.len() - 2] == '*' && t[t.len() - 1] == '/'
}

/// A line that neither mode looks at: an empty one or a comment.
pub open spec fn is_ignorable(t: Seq<char>) -> bool {
    t.len() == 0 || is_comment(t)
}

/// A step header: a line that begins with `#` and ends with `:`.
pub open spec fn is_step_header(t: Seq<char>) -> bool {
    t.len() > 0 && t[0] == '#' && t.last() == ':'
}

/// A library header: a line that begins with `[` and ends with `]`.
pub open spec fn is_library_header(t: Seq<char>) -> bool {
    t.len() > 0 && t[0] == '[' && t.last() == ']'
}

/// A line at which a list of commands ends: it begins with `#` or `[`, or is
/// the end marker.
pub open spec fn is_boundary(t: Seq<char>) -> bool {
    t.len() > 0 && (t[0] == '#' || t[0] == '[' || t == end_marker())
}

/// `t` without its first and last character.
pub open spec fn inner(t: Seq<char>) -> Seq<char> {
    t.subrange(1, t.len() - 1)
}

/// A value without one pair of double quotes around it, where it has one.
pub open spec fn unquoted(v: Seq<char>) -> Seq<char> {
    if v.len() >= 2 && v[0] == '"' && v.last() == '"' {
        inner(v)
    } else {
        v
    }
}

/// What one line is in token mode.
pub enum LineToken {
    /// The line is passed over.
    Skipped,
    /// The line is this token.
    Found(TokenView),
    /// The line is a step header without a name.
    Malformed,
}

/// What the trimmed line `t` is in token mode.
pub open spec fn line_token(t: Seq<char>) -> LineToken {
    if is_ignorable(t) {
        LineToken::Skipped
    } else if is_step_header(t) {
        if t.len() == 2 {
            LineToken::Malformed
        } else {
            LineToken::Found(TokenView::Step(inner(t)))
        }
    } else if is_library_header(t) {
        LineToken::Found(TokenView::LibraryName(inner(t)))
    } else if position_of(t, '=') < t.len() {
        let at = position_of(t, '=');
        LineToken::Found(
            TokenView::KeyValue(trimmed(t.take(at)), unquoted(trimmed(t.skip(at + 1)))),
        )
    } else if t == end_marker() {
        LineToken::Found(TokenView::EndOfConfig)
    } else {
        LineToken::Skipped
    }
}

/// What one line is in command mode.
pub enum LineCommand {
    /// The line is passed over.
    Skipped,
    /// The list of commands ends before this line.
    Boundary,
    /// The line is this command.
    Command(Seq<char>),
}

/// What the trimmed line `t` is in command mode.
pub open spec fn line_command(t: Seq<char>) -> LineCommand {
    if is_ignorable(t) {
        LineCommand::Skipped
    } else if is_boundary(t) {
        LineCommand::Boundary
    } else {
        LineCommand::Command(t)
    }
}

/// The token found from line `pos` on, and the position after it. Lines that
/// are passed over are consumed; so is the line of a token or of an error.
/// The end marker consumes all lines that follow it: after it no token is
/// found any more. At the end of the lines the position stays.
pub open spec fn scan_token(lines: Seq<Seq<char>>, pos: int) -> (
    Result<TokenView, SyntaxErrorView>,
    int,
)
    decreases lines.len() - pos,
{
    if pos < 0 || pos >= lines.len() {
        (Ok(TokenView::EndOfFile), pos)
    } else {
        match line_token(trimmed(lines[pos])) {
            LineToken::Skipped => scan_token(lines, pos + 1),
            LineToken::Found(TokenView::EndOfConfig) => (
                Ok(TokenView::EndOfConfig),
                lines.len() as int,
            ),
            LineToken::Found(token) => (Ok(token), pos + 1),
            LineToken::Malformed => (
                Err(SyntaxErrorView { line: pos + 1, content: lines[pos] }),
                pos + 1,
            ),
        }
    }
}

/// The command found from line `pos` on, and the position after it. Lines that
/// are passed over are consumed, and so is the line of a command. A boundary
/// is not: the position stays on it.
pub open spec fn scan_command(lines: Seq<Seq<char>>, pos: int) -> (Option<Seq<char>>, int)
    decreases lines.len() - pos,
{
    if pos < 0 || pos >= lines.len() {
        (None, pos)
    } else {
        match line_command(trimmed(lines[pos])) {
            LineCommand::Skipped => scan_command(lines, pos + 1),
            LineCommand::Boundary => (None, pos),
            LineCommand::Command(command) => (Some(command), pos + 1),
        }
    }
}

/// The lines of a slice of strings, each as its characters.
pub open spec fn line_views(lines: Seq<&str>) -> Seq<Seq<char>> {
    Seq::new(lines.len(), |i: int| lines[i]@)
}

/// The result of `next_token` as a mathematical value.
pub open spec fn token_outcome(r: Result<Token, ConfigSyntaxError>) -> Result<
    TokenView,
    SyntaxErrorView,
> {
    match r {
        Ok(token) => Ok(token@),
        Err(error) => Err(error@),
    }
}

/// The result of `next_command` as a mathematical value.
pub open spec fn command_outcome(r: Option<String>) -> Option<Seq<char>> {
    match r {
        Some(command) => Some(command@),
        None => None,
    }
}

/// One line, read in token mode.
enum TokenReading {
    Skipped,
    Found(Token),
    Malformed,
}

impl View for TokenReading {
    type V = LineToken;

    closed spec fn view(&self) -> LineToken {
        match self {
            TokenReading::Skipped => LineToken::Skipped,
            TokenReading::Found(token) => LineToken::Found(token@),
            TokenReading::Malformed => LineToken::Malformed,
        }
    }
}

/// One line, read in command mode.
enum CommandReading {
    Skipped,
    Boundary,
    Command(String),
}

impl View for CommandReading {
    type V = LineCommand;

    closed spec fn view(&self) -> LineCommand {
        match self {
            CommandReading::Skipped => LineCommand::Skipped,
            CommandReading::Boundary => LineCommand::Boundary,
            CommandReading::Command(command) => LineCommand::Command(command@),
        }
    }
}

/// Whether `chars[a..b]` is a comment.
fn comment_at(chars: &Vec<char>, a: usize, b: usize) -> (r: bool)
    requires
        a <= b <= chars.len(),
    ensures
        r == is_comment(chars@.subrange(a as int, b as int)),
{
    b - a >= 2 && chars[a] == '/' && chars[a + 1] == '*' && chars[b - 2] == '*' && chars[b - 1]
        == '/'
}

/// Whether `chars[a..b]` is the end marker.
fn end_marker_at(chars: &Vec<char>, a: usize, b: usize) -> (r: bool)
    requires
        a <= b <= chars.len(),
    ensures
        r == (chars@.subrange(a as int, b as int) == end_marker()),
{
    let r = b - a == 4 && chars[a] == '%' && chars[a + 1] == 'e' && chars[a + 2] == 'n' && chars[a
        + 3] == 'd';
    proof {
        let t = chars@.subrange(a as int, b as int);
        if r {
            assert(t =~= end_marker());
        } else if t == end_marker() {
            assert(t.len() == 4);
            assert(t[0] == chars@[a as int] && t[1] == chars@[a + 1]);
            assert(t[2] == chars@[a + 2] && t[3] == chars@[a + 3]);
            assert(t[0] == '%' && t[1] == 'e' && t[2] == 'n' && t[3] == 'd');
        }
    }
    r
}

/// Reads `line` in token mode.
fn read_token(line: &str) -> (r: TokenReading)
    ensures
        r@ == line_token(trimmed(line@)),
{
    let chars = chars_of(line);
    let (a, b) = trim_bounds(&chars, 0, chars.len());
    assert(chars@.subrange(0, chars.len() as int) == line@);
    let ghost t = chars@.subrange(a as int, b as int);
    if a == b || comment_at(&chars, a, b) {
        return TokenReading::Skipped;
    }
    let first = chars[a];
    let last = chars[b - 1];
    if first == '#' && last == ':' {
        if b - a == 2 {
            return TokenReading::Malformed;
        }
        assert(inner(t) == line@.subrange(a + 1, b - 1));
        return TokenReading::Found(Token::Step(line.substring_char(a + 1, b - 1).to_owned()));
    }
    if first == '[' && last == ']' {
        assert(inner(t) == line@.subrange(a + 1, b - 1));
        return TokenReading::Found(
            Token::LibraryName(line.substring_char(a + 1, b - 1).to_owned()),
        );
    }
    let at = find_char(&chars, a, b, '=');
    if at < b {
        let (key_from, key_to) = trim_bounds(&chars, a, at);
        let (from, to) = trim_bounds(&chars, at + 1, b);
        assert(t.take(at - a) == chars@.subrange(a as int, at as int));
        assert(t.skip(at - a + 1) == chars@.subrange(at + 1, b as int));
        let ghost value = chars@.subrange(from as int, to as int);
        let quoted = to - from >= 2 && chars[from] == '"' && chars[to - 1] == '"';
        let (value_from, value_to) = if quoted {
            (from + 1, to - 1)
        } else {
            (from, to)
        };
        assert(unquoted(value) == line@.subrange(value_from as int, value_to as int));
        let key = line.substring_char(key_from, key_to).to_owned();
        let value = line.substring_char(value_from, value_to).to_owned();
        return TokenReading::Found(Token::KeyValue(key, value));
    }
    if end_marker_at(&chars, a, b) {
        return TokenReading::Found(Token::EndOfConfig);
    }
    TokenReading::Skipped
}

/// Reads `line` in command mode.
fn read_command(line: &str) -> (r: CommandReading)
    ensures
        r@ == line_command(trimmed(line@)),
{
    let chars = chars_of(line);
    let (a, b) = trim_bounds(&chars, 0, chars.len());
    assert(chars@.subrange(0, chars.len() as int) == line@);
    if a == b || comment_at(&chars, a, b) {
        return CommandReading::Skipped;
    }
    let first = chars[a];
    if first == '#' || first == '[' || end_marker_at(&chars, a, b) {
        return CommandReading::Boundary;
    }
    CommandReading::Command(line.substring_char(a, b).to_owned())
}

/// A cursor over the lines of a configuration.
pub struct Lexer<'a> {
    lines: &'a [&'a str],
    current_line: usize,
}

impl<'a> Lexer<'a> {
    /// The cursor stands on a line or at the end of the lines.
    #[verifier::type_invariant]
    spec fn within_lines(self) -> bool {
        self.current_line <= self.lines@.len()
    }

    /// The lines that the lexer reads, each as its characters.
    pub closed spec fn lines(&self) -> Seq<Seq<char>> {
        line_views(self.lines@)
    }

    /// The index of the line that is read next.
    pub closed spec fn position(&self) -> int {
        self.current_line as int
    }

    /// A lexer at the first of `lines`.
    pub fn new(lines: &'a [&'a str]) -> (lexer: Self)
        ensures
            lexer.lines() == line_views(lines@),
            lexer.position() == 0,
            0 <= lexer.position() <= lexer.lines().len(),
    {
        Lexer { lines, current_line: 0 }
    }

    /// The next token, in token mode. A step header without a name is an error;
    /// its line is consumed like that of a token. After the end marker the
    /// lexer is at the end of its lines, whatever follows the marker.
    pub fn next_token(&mut self) -> (result: Result<Token, ConfigSyntaxError>)
        ensures
            final(self).lines() == old(self).lines(),
            token_outcome(result) == scan_token(old(self).lines(), old(self).position()).0,
            final(self).position() == scan_token(old(self).lines(), old(self).position()).1,
            0 <= final(self).position() <= final(self).lines().len(),
    {
        proof {
            use_type_invariant(&*self);
        }
        while self.current_line < self.lines.len()
            invariant
                self.lines == old(self).lines,
                self.current_line <= self.lines@.len(),
                scan_token(self.lines(), self.position()) == scan_token(
                    old(self).lines(),
                    old(self).position(),
                ),
            decreases self.lines.len() - self.current_line,
        {
            let line: &str = self.lines[self.current_line];
            self.current_line += 1;
            match read_token(line) {
                TokenReading::Skipped => {},
                TokenReading::Found(token) => {
                    if let Token::EndOfConfig = token {
                        self.current_line = self.lines.len();
                    }
                    return Ok(token);
                },
                TokenReading::Malformed => {
                    return Err(
                        ConfigSyntaxError { line: self.current_line, content: line.to_owned() },
                    );
                },
            }
        }
        Ok(Token::EndOfFile)
    }

    /// The next command, in command mode: `None` at a boundary, which is left
    /// for `next_token`, and at the end of the lines.
    pub fn next_command(&mut self) -> (result: Option<String>)
        ensures
            final(self).lines() == old(self).lines(),
            command_outcome(result) == scan_command(old(self).lines(), old(self).position()).0,
            final(self).position() == scan_command(old(self).lines(), old(self).position()).1,
            0 <= final(self).position() <= final(self).lines().len(),
    {
        proof {
            use_type_invariant(&*self);
        }
        while self.current_line < self.lines.len()
            invariant
                self.lines == old(self).lines,
                self.current_line <= self.lines@.len(),
                scan_command(self.lines(), self.position()) == scan_command(
                    old(self).lines(),
                    old(self).position(),
                ),
            decreases self.lines.len() - self.current_line,
        {
            let line: &str = self.lines[self.current_line];
            match read_command(line) {
                CommandReading::Skipped => {
                    self.current_line += 1;
                },
                CommandReading::Boundary => {
                    return None;
                },
                CommandReading::Command(command) => {
                    self.current_line += 1;
                    return Some(command);
                },
            }
        }
        None
    }
}

} // verus!
