//! One-shot shell commands: which process to start for a command, and what
//! to report once it has ended.
//!
//! Starting the process and waiting for it is the caller's part. The caller
//! asks here what to start, starts it, and hands back what the process wrote
//! or why it could not be started.

use crate::text::decode_lossy;
use crate::text::lossy_text;
use crate::text::trim_text;
use crate::text::trimmed;
use vstd::prelude::*;
use vstd::string::StringExecFns;
use vstd::utf8::decode_utf8;
use vstd::utf8::valid_utf8;

verus! {

/// The shells that a command can be handed to.
#[derive(Debug, Clone, Copy, PartialEq, Eq, Structural)]
pub enum ShellKind {
    /// The POSIX shell, `sh`.
    Posix,
    /// The Windows command interpreter, `cmd`.
    Windows,
}

/// The shell that a shell type names: `posix` names the POSIX shell, and
/// every other text, known or not, the Windows command interpreter.
pub open spec fn shell_kind_of(shell_type: Seq<char>) -> ShellKind {
    if shell_type == "posix"@ {
        ShellKind::Posix
    } else {
        ShellKind::Windows
    }
}

/// The program that runs a shell.
pub open spec fn shell_program(kind: ShellKind) -> Seq<char> {
    match kind {
        ShellKind::Posix => "sh"@,
        ShellKind::Windows => "cmd"@,
    }
}

/// The argument after which a shell takes a command line.
pub open spec fn command_flag(kind: ShellKind) -> Seq<char> {
    match kind {
        ShellKind::Posix => "-c"@,
        ShellKind::Windows => "/C"@,
    }
}

/// The command line by which a shell prints its working directory.
pub open spec fn directory_query(kind: ShellKind) -> Seq<char> {
    match kind {
        ShellKind::Posix => "pwd"@,
        ShellKind::Windows => "cd"@,
    }
}

/// A process to start: the program, its arguments in order, and the directory
/// to start it in. Without a directory it starts where the caller runs.
#[derive(Debug, PartialEq, Eq)]
pub struct Invocation {
    pub program: String,
    pub arguments: Vec<String>,
    pub working_directory: Option<String>,
}

/// The mathematical value of an `Invocation`.
pub struct InvocationView {
    pub program: Seq<char>,
    pub arguments: Seq<Seq<char>>,
    pub working_directory: Option<Seq<char>>,
}

impl View for Invocation {
    type V = InvocationView;

    open spec fn view(&self) -> InvocationView {
        InvocationView {
            program: self.program@,
            arguments: Seq::new(self.arguments@.len(), |i: int| self.arguments@[i]@),
            working_directory: match self.working_directory {
                Some(directory) => Some(directory@),
                None => None,
            },
        }
    }
}

/// What a process wrote before it ended, stream by stream.
#[derive(Debug, PartialEq, Eq)]
pub struct CapturedOutput {
    pub stdout: Vec<u8>,
    pub stderr: Vec<u8>,
}

/// What is reported of a command that ran.
#[derive(Debug, PartialEq, Eq)]
pub struct TerminalOutput {
    pub output: String,
    pub is_error: bool,
}

/// The mathematical value of a `TerminalOutput`.
pub struct TerminalOutputView {
    pub output: Seq<char>,
    pub is_error: bool,
}

impl View for TerminalOutput {
    type V = TerminalOutputView;

    open spec fn view(&self) -> TerminalOutputView {
        TerminalOutputView { output: self.output@, is_error: self.is_error }
    }
}

/// The process could not be started; the text is the operating system's.
#[derive(Debug, PartialEq, Eq)]
pub struct ExecutionError {
    pub message: String,
}

/// The process that runs `command` in the shell of the given kind.
pub open spec fn command_invocation(
    kind: ShellKind,
    command: Seq<char>,
    working_directory: Seq<char>,
) -> InvocationView {
    InvocationView {
        program: shell_program(kind),
        arguments: seq![command_flag(kind), command],
        working_directory: Some(working_directory),
    }
}

/// The process that asks the shell of the given kind where it stands.
pub open spec fn query_invocation(kind: ShellKind) -> InvocationView {
    InvocationView {
        program: shell_program(kind),
        arguments: seq![command_flag(kind), directory_query(kind)],
        working_directory: None,
    }
}

/// The report on a command given the texts of its two streams: the error
/// stream alone where it holds anything, else the success stream.
pub open spec fn report_of(stdout: Seq<char>, stderr: Seq<char>) -> TerminalOutputView {
    if stderr.len() > 0 {
        TerminalOutputView { output: stderr, is_error: true }
    } else {
        TerminalOutputView { output: stdout, is_error: false }
    }
}

/// Tells which shell a shell type names.
pub fn recognize_shell(shell_type: &str) -> (kind: ShellKind)
    ensures
        kind == shell_kind_of(shell_type@),
{
    let given = String::from_str(shell_type);
    let posix = String::from_str("posix");
    if given == posix {
        ShellKind::Posix
    } else {
        ShellKind::Windows
    }
}

/// The program and the flag of a shell, and the command line that asks it for
/// its working directory.
fn shell_words(kind: ShellKind) -> (words: (String, String, String))
    ensures
        words.0@ == shell_program(kind),
        words.1@ == command_flag(kind),
        words.2@ == directory_query(kind),
{
    match kind {
        ShellKind::Posix => (
            String::from_str("sh"),
            String::from_str("-c"),
            String::from_str("pwd"),
        ),
        ShellKind::Windows => (
            String::from_str("cmd"),
            String::from_str("/C"),
            String::from_str("cd"),
        ),
    }
}

/// Says which process runs `command`: the shell that `shell_type` names,
/// with the whole command line as one argument, started in
/// `working_directory`. Both are taken as given.
pub fn plan_command(shell_type: &str, command: String, working_directory: String) -> (plan:
    Invocation)
    ensures
        plan@ == command_invocation(shell_kind_of(shell_type@), command@, working_directory@),
{
    let (program, flag, _) = shell_words(recognize_shell(shell_type));
    let mut arguments: Vec<String> = Vec::new();
    arguments.push(flag);
    arguments.push(command);
    let plan = Invocation { program, arguments, working_directory: Some(working_directory) };
    assert(plan@.arguments =~= seq![command_flag(shell_kind_of(shell_type@)), command@]);
    plan
}

/// Says which process tells where the shell that `shell_type` names stands.
/// It is started without a directory of its own.
pub fn plan_directory_query(shell_type: &str) -> (plan: Invocation)
    ensures
        plan@ == query_invocation(shell_kind_of(shell_type@)),
{
    let kind = recognize_shell(shell_type);
    let (program, flag, query) = shell_words(kind);
    let mut arguments: Vec<String> = Vec::new();
    arguments.push(flag);
    arguments.push(query);
    let plan = Invocation { program, arguments, working_directory: None };
    assert(plan@.arguments =~= seq![command_flag(kind), directory_query(kind)]);
    plan
}

/// Reports on a command from the texts of its two streams. Whether the
/// process succeeded is not asked: what it wrote decides.
pub fn report_streams(stdout: String, stderr: String) -> (report: TerminalOutput)
    ensures
        report@ == report_of(stdout@, stderr@),
        report.is_error <==> stderr@.len() > 0,
        stderr@.len() == 0 ==> report.output@ == stdout@,
        stderr@.len() > 0 ==> report.output@ == stderr@,
{
    if !stderr.as_str().is_empty() {
        TerminalOutput { output: stderr, is_error: true }
    } else {
        TerminalOutput { output: stdout, is_error: false }
    }
}

/// Concludes a command. A process that could not be started is an error; one
/// that ran is reported on by what it wrote, whatever it wrote.
pub fn conclude_command(outcome: Result<CapturedOutput, String>) -> (r: Result<
    TerminalOutput,
    ExecutionError,
>)
    ensures
        match outcome {
            Ok(captured) => r matches Ok(report) && {
                &&& report@ == report_of(
                    lossy_text(captured.stdout@),
                    lossy_text(captured.stderr@),
                )
                &&& captured.stderr@.len() == 0 ==> !report.is_error && report.output@
                    == lossy_text(captured.stdout@)
                &&& captured.stderr@.len() == 0 && valid_utf8(captured.stdout@)
                    ==> report.output@ == decode_utf8(captured.stdout@)
                &&& lossy_text(captured.stderr@).len() > 0 ==> report.is_error && report.output@
                    == lossy_text(captured.stderr@)
            },
            Err(reason) => r matches Err(error) && error.message@ == reason@,
        },
{
    match outcome {
        Ok(captured) => {
            let stdout = decode_lossy(&captured.stdout);
            let stderr = decode_lossy(&captured.stderr);
            Ok(report_streams(stdout, stderr))
        },
        Err(reason) => Err(ExecutionError { message: reason }),
    }
}

/// Concludes a query for the working directory. A process that could not be
/// started is an error; of one that ran, the answer is what it wrote to its
/// success stream, trimmed. Its error stream is not looked at.
pub fn conclude_directory_query(outcome: Result<CapturedOutput, String>) -> (r: Result<
    String,
    ExecutionError,
>)
    ensures
        match outcome {
            Ok(captured) => r matches Ok(directory) && directory@ == trimmed(
                lossy_text(captured.stdout@),
            ),
            Err(reason) => r matches Err(error) && error.message@ == reason@,
        },
{
    match outcome {
        Ok(captured) => {
            let stdout = decode_lossy(&captured.stdout);
            Ok(trim_text(stdout.as_str()))
        },
        Err(reason) => Err(ExecutionError { message: reason }),
    }
}

} // verus!
