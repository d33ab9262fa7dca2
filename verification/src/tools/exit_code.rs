//! Exit codes and error reports.

use vstd::prelude::*;

verus! {

/// Exit codes for `bp send` and `bp recv` tools.
///
/// - 0: Operation completed successfully
/// - 1: Bundle transfer was refused by the BPA (XFER_REFUSE)
/// - 2: Connection, session, file I/O, or configuration error
#[derive(Debug, Clone, Copy, PartialEq, Eq, Structural)]
pub enum ExitCode {
    /// Operation completed successfully
    Success,
    /// Bundle transfer was refused by the BPA
    TransferRefused,
    /// Connection/configuration/I/O error
    Error,
}

impl ExitCode {
    /// The code that the process exits with.
    pub open spec fn status(self) -> i32 {
        match self {
            ExitCode::Success => 0,
            ExitCode::TransferRefused => 1,
            ExitCode::Error => 2,
        }
    }
}

impl From<ExitCode> for i32 {
    fn from(code: ExitCode) -> (r: i32) {
        match code {
            ExitCode::Success => 0,
            ExitCode::TransferRefused => 1,
            ExitCode::Error => 2,
        }
    }
}

impl vstd::std_specs::convert::FromSpecImpl<ExitCode> for i32 {
    open spec fn obeys_from_spec() -> bool {
        true
    }

    open spec fn from_spec(code: ExitCode) -> i32 {
        code.status()
    }
}

/// An error report: the line to print, and the code to exit with.
#[derive(Debug)]
pub struct Report {
    /// The line for the error output.
    pub message: String,
    /// The exit code.
    pub code: ExitCode,
}

/// What a tool is stopped by.
#[verifier::ext_equal]
pub enum Trouble {
    /// Any error, by its message.
    Plain(Seq<char>),
    /// A failure to connect to an address.
    Connection { addr: Seq<char>, reason: Seq<char> },
    /// A session that came to its end.
    Session { reason: Seq<char> },
    /// A bundle that was refused.
    Refusal { reason: Seq<char> },
    /// A file that cannot be read.
    File { path: Seq<char>, reason: Seq<char> },
}

/// The line for the error output.
pub open spec fn error_line(trouble: Trouble) -> Seq<char> {
    match trouble {
        Trouble::Plain(message) => "Error: "@ + message,
        Trouble::Connection { addr, reason } => "Error: "@ + ("Failed to connect to "@ + addr
            + ": "@ + reason),
        Trouble::Session { reason } => "Error: "@ + ("TCPCLv4 session terminated: "@ + reason),
        Trouble::Refusal { reason } => "Error: Bundle transfer refused: "@ + reason,
        Trouble::File { path, reason } => "Error: "@ + ("Cannot read file '"@ + path + "': "@
            + reason),
    }
}

/// The code to exit with.
pub open spec fn error_code(trouble: Trouble) -> ExitCode {
    if trouble is Refusal {
        ExitCode::TransferRefused
    } else {
        ExitCode::Error
    }
}

/// Report an error with [`ExitCode::Error`] (code 2).
///
/// This is the common path for connection failures, session errors, and file I/O errors.
pub fn report_error(msg: &str) -> (r: Report)
    ensures
        r.message@ == error_line(Trouble::Plain(msg@)),
        r.code == error_code(Trouble::Plain(msg@)),
{
    let mut message = String::from_str("Error: ");
    message.append(msg);
    Report { message, code: ExitCode::Error }
}

/// Report a connection failure with [`ExitCode::Error`] (code 2).
///
/// Format: `Error: Failed to connect to <addr>: <reason>`
pub fn report_connection_error(addr: &str, reason: &str) -> (r: Report)
    ensures
        r.message@ == error_line(Trouble::Connection { addr: addr@, reason: reason@ }),
        r.code == error_code(Trouble::Connection { addr: addr@, reason: reason@ }),
{
    let mut msg = String::from_str("Failed to connect to ");
    msg.append(addr);
    msg.append(": ");
    msg.append(reason);
    report_error(msg.as_str())
}

/// Report a TCPCLv4 session error with [`ExitCode::Error`] (code 2).
///
/// Format: `Error: TCPCLv4 session terminated: <reason>`
pub fn report_session_error(reason: &str) -> (r: Report)
    ensures
        r.message@ == error_line(Trouble::Session { reason: reason@ }),
        r.code == error_code(Trouble::Session { reason: reason@ }),
{
    let mut msg = String::from_str("TCPCLv4 session terminated: ");
    msg.append(reason);
    report_error(msg.as_str())
}

/// Report a bundle transfer refusal with [`ExitCode::TransferRefused`] (code 1).
///
/// Format: `Error: Bundle transfer refused: <reason>`
pub fn report_transfer_refused(reason: &str) -> (r: Report)
    ensures
        r.message@ == error_line(Trouble::Refusal { reason: reason@ }),
        r.code == error_code(Trouble::Refusal { reason: reason@ }),
{
    let mut message = String::from_str("Error: Bundle transfer refused: ");
    message.append(reason);
    Report { message, code: ExitCode::TransferRefused }
}

/// Report a file I/O error with [`ExitCode::Error`] (code 2).
///
/// Format: `Error: Cannot read file '<path>': <reason>`
pub fn report_file_error(path: &str, reason: &str) -> (r: Report)
    ensures
        r.message@ == error_line(Trouble::File { path: path@, reason: reason@ }),
        r.code == error_code(Trouble::File { path: path@, reason: reason@ }),
{
    let mut msg = String::from_str("Cannot read file '");
    msg.append(path);
    msg.append("': ");
    msg.append(reason);
    report_error(msg.as_str())
}

/// What a tool ends with: its own exit code, or a report of the error that
/// stopped it.
pub fn conclude(result: Result<ExitCode, String>) -> (r: (Option<String>, ExitCode))
    ensures
        match result {
            Ok(code) => r.0 is None && r.1 == code,
            Err(e) => r.0 is Some && r.0->0@ == error_line(Trouble::Plain(e@)) && r.1
                == error_code(Trouble::Plain(e@)),
        },
{
    match result {
        Ok(code) => (None, code),
        Err(e) => {
            let report = report_error(e.as_str());
            (Some(report.message), report.code)
        },
    }
}

/// Different exit codes give different statuses, and only success gives 0.
pub proof fn statuses_are_distinct(a: ExitCode, b: ExitCode)
    ensures
        a.status() == b.status() <==> a == b,
        a.status() == 0 <==> a == ExitCode::Success,
{
}

} // verus!
