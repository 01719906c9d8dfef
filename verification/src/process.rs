//! The process runner's arithmetic: how a command is handed to the shell, and
//! what is reported of a command that has run. Starting the shell and reading
//! its streams is left to the caller.

use vstd::prelude::*;
use vstd::string::{StrSliceExecFns, StringExecFns};
use vstd::utf8::encode_utf8;
use crate::config::command_views;

verus! {

/// The program to start for a command, and its arguments.
#[derive(Debug)]
pub struct ShellInvocation {
    pub program: String,
    pub arguments: Vec<String>,
}

/// How `command` is handed to the platform's shell, which reads it as shell
/// syntax: `sh -c command`, and on Windows `cmd /C command`.
pub fn shell_invocation(command: &str, windows: bool) -> (invocation: ShellInvocation)
    ensures
        invocation.program@ == (if windows {
            "cmd"@
        } else {
            "sh"@
        }),
        command_views(invocation.arguments@) == seq![
            if windows {
                "/C"@
            } else {
                "-c"@
            },
            command@,
        ],
{
    let (program, flag) = if windows {
        ("cmd", "/C")
    } else {
        ("sh", "-c")
    };
    let mut arguments: Vec<String> = Vec::new();
    arguments.push(flag.to_owned());
    arguments.push(command.to_owned());
    assert(command_views(arguments@) =~= seq![flag@, command@]);
    ShellInvocation { program: program.to_owned(), arguments }
}

/// What is known of a command after the attempt to run it.
#[derive(Debug)]
pub struct ExecutionResult {
    /// The exit code. `None` where there is none: the shell could not be
    /// started, or it did not end by exiting.
    pub exit_status: Option<i32>,
    /// What the command wrote to its standard output.
    pub captured_stdout: Vec<u8>,
    /// What the command wrote to its standard error.
    pub captured_stderr: Vec<u8>,
}

/// `lines`, each line but the first after a line feed.
pub open spec fn joined(lines: Seq<Seq<char>>) -> Seq<char>
    decreases lines.len(),
{
    if lines.len() == 0 {
        Seq::empty()
    } else if lines.len() == 1 {
        lines[0]
    } else {
        joined(lines.drop_last()) + seq!['\n'] + lines.last()
    }
}

/// The bytes captured from a stream: its lines, joined, in UTF-8. A stream of
/// which the lines could not be had counts as one without output.
pub open spec fn captured(buffer: Option<Seq<Seq<char>>>) -> Seq<u8> {
    match buffer {
        Some(lines) => encode_utf8(joined(lines)),
        None => Seq::empty(),
    }
}

/// The lines of a buffer, each as its characters.
pub open spec fn buffer_view(buffer: Option<&Vec<String>>) -> Option<Seq<Seq<char>>> {
    match buffer {
        Some(lines) => Some(command_views(lines@)),
        None => None,
    }
}

/// The bytes captured from a stream of which `buffer` holds the lines, in the
/// order in which they were read; `None` stands for a buffer that could not be
/// read.
pub fn collect_output(buffer: Option<&Vec<String>>) -> (out: Vec<u8>)
    ensures
        out@ == captured(buffer_view(buffer)),
{
    match buffer {
        None => Vec::new(),
        Some(lines) => {
            let ghost views = command_views(lines@);
            let mut text = String::new();
            let mut i: usize = 0;
            assert(views.take(0) =~= Seq::<Seq<char>>::empty());
            while i < lines.len()
                invariant
                    views == command_views(lines@),
                    i <= lines.len(),
                    text@ == joined(views.take(i as int)),
                decreases lines.len() - i,
            {
                if i > 0 {
                    proof {
                        reveal_strlit("\n");
                    }
                    assert("\n"@ =~= seq!['\n']);
                    text.append("\n");
                }
                assert(views.take(i + 1).drop_last() == views.take(i as int));
                assert(views.take(i + 1).last() == lines@[i as int]@);
                text.append(lines[i].as_str());
                assert(text@ == joined(views.take(i + 1))) by {
                    if i == 0 {
                        assert(Seq::<char>::empty() + lines@[0]@ =~= lines@[0]@);
                    }
                }
                i += 1;
            }
            assert(views.take(lines.len() as int) == views);
            text.as_str().as_bytes_vec()
        },
    }
}

impl ExecutionResult {
    /// Whether the command has succeeded: it has, where it exited with code 0.
    pub open spec fn success(&self) -> bool {
        self.exit_status == Some(0i32)
    }

    /// The result for a command for which the shell could not be started: no
    /// exit code, which is a failure, and no output.
    pub fn spawn_failed() -> (result: ExecutionResult)
        ensures
            result.exit_status is None,
            result.captured_stdout@ == Seq::<u8>::empty(),
            result.captured_stderr@ == Seq::<u8>::empty(),
            !result.success(),
    {
        ExecutionResult {
            exit_status: None,
            captured_stdout: Vec::new(),
            captured_stderr: Vec::new(),
        }
    }

    /// The result for a command that has run: its exit code, if it has one,
    /// and what was captured of its two streams. An exit code other than 0 is
    /// a result like any other.
    pub fn completed(
        exit_code: Option<i32>,
        stdout: Option<&Vec<String>>,
        stderr: Option<&Vec<String>>,
    ) -> (result: ExecutionResult)
        ensures
            result.exit_status == exit_code,
            result.captured_stdout@ == captured(buffer_view(stdout)),
            result.captured_stderr@ == captured(buffer_view(stderr)),
    {
        ExecutionResult {
            exit_status: exit_code,
            captured_stdout: collect_output(stdout),
            captured_stderr: collect_output(stderr),
        }
    }

    /// Whether the command has succeeded.
    pub fn succeeded(&self) -> (r: bool)
        ensures
            r == self.success(),
    {
        match self.exit_status {
            Some(code) => code == 0,
            None => false,
        }
    }
}

} // verus!
