//! The protocol between a caller and a worker process that runs one scan:
//! `<executable> --worker <root_path> <threshold_decimal>`, one JSON document
//! on standard output, and an exit status per failure class.
use vstd::prelude::*;
use crate::text::{decimal, decimal_string, parse_unsigned, same_text, trim_text, trimmed, unsigned_value};

verus! {

/// How the program was asked to run.
#[derive(Clone, Copy, Debug, PartialEq, Eq, Structural)]
pub enum ApplicationMode {
    Worker,
    Interactive,
}

/// The flag that selects worker mode.
pub fn worker_flag() -> (r: &'static str)
    ensures
        r@ == "--worker"@,
{
    "--worker"
}

/// The views of a list of strings.
pub open spec fn string_views(v: Seq<String>) -> Seq<Seq<char>> {
    v.map_values(|s: String| s@)
}

/// Worker mode is chosen exactly when the first argument after the program
/// name is the worker flag.
pub open spec fn mode_of(args: Seq<Seq<char>>) -> ApplicationMode {
    if args.len() > 1 && args[1] == "--worker"@ {
        ApplicationMode::Worker
    } else {
        ApplicationMode::Interactive
    }
}

pub fn determine_application_mode(arguments: &[String]) -> (r: ApplicationMode)
    ensures
        r == mode_of(string_views(arguments@)),
{
    if arguments.len() > 1 && same_text(arguments[1].as_str(), worker_flag()) {
        proof {
            assert(string_views(arguments@)[1] == arguments@[1]@);
        }
        ApplicationMode::Worker
    } else {
        proof {
            if arguments@.len() > 1 {
                assert(string_views(arguments@)[1] == arguments@[1]@);
            }
        }
        ApplicationMode::Interactive
    }
}

/// Why a worker run failed.
#[derive(Clone, Debug, PartialEq, Eq)]
pub enum WorkerError {
    /// Fewer than the three arguments after the program name.
    InvalidArguments,
    /// The scan itself failed, with its description.
    ScanError(String),
    /// The statistics could not be encoded, with the encoder's description.
    SerializationError(String),
}

impl WorkerError {
    /// The exit status that reports the failure: 1 for usage, 3 for the scan,
    /// 2 for the encoding.
    pub fn exit_status(&self) -> (r: i32)
        ensures
            r == match self {
                WorkerError::InvalidArguments => 1i32,
                WorkerError::ScanError(_) => 3i32,
                WorkerError::SerializationError(_) => 2i32,
            },
    {
        match self {
            WorkerError::InvalidArguments => 1,
            WorkerError::ScanError(_) => 3,
            WorkerError::SerializationError(_) => 2,
        }
    }

    /// The diagnostic printed to standard error.
    pub fn message(&self) -> (r: String)
        ensures
            r@ == match self {
                WorkerError::InvalidArguments => "Usage: --worker <folder_path> <min_size_bytes>"@,
                WorkerError::ScanError(m) => "Error saat scanning folder: "@ + m@,
                WorkerError::SerializationError(m) => "Error saat serialisasi JSON: "@ + m@,
            },
    {
        match self {
            WorkerError::InvalidArguments => String::from_str(
                "Usage: --worker <folder_path> <min_size_bytes>",
            ),
            WorkerError::ScanError(m) => {
                let mut t = String::from_str("Error saat scanning folder: ");
                t.append(m.as_str());
                t
            },
            WorkerError::SerializationError(m) => {
                let mut t = String::from_str("Error saat serialisasi JSON: ");
                t.append(m.as_str());
                t
            },
        }
    }
}

/// Worker mode needs the program name, the flag, a root path and a threshold.
pub fn validate_argument_count(arguments: &[String]) -> (r: Result<(), WorkerError>)
    ensures
        r is Ok <==> arguments@.len() >= 4,
        r matches Err(e) ==> e is InvalidArguments,
{
    if arguments.len() >= 4 {
        Ok(())
    } else {
        Err(WorkerError::InvalidArguments)
    }
}

/// The threshold that a worker reads from its argument: the decimal value,
/// or 0 where the text is not an unsigned 64-bit integer.
pub open spec fn threshold_of(text: Seq<char>) -> u64 {
    match unsigned_value(text) {
        Some(v) => v,
        None => 0,
    }
}

pub fn parse_minimum_bytes(bytes_string: &str) -> (r: u64)
    ensures
        r == threshold_of(bytes_string@),
{
    match parse_unsigned(bytes_string) {
        Some(v) => v,
        None => 0,
    }
}

/// The root path and threshold of a worker invocation.
pub fn parse_worker_arguments(arguments: &[String]) -> (r: Result<(String, u64), WorkerError>)
    ensures
        arguments@.len() < 4 ==> r matches Err(WorkerError::InvalidArguments),
        arguments@.len() >= 4 ==> (r matches Ok((folder, threshold)) && folder@ == arguments@[2]@
            && threshold == threshold_of(arguments@[3]@)),
{
    validate_argument_count(arguments)?;
    let folder = arguments[2].clone();
    let threshold = parse_minimum_bytes(arguments[3].as_str());
    Ok((folder, threshold))
}

/// The arguments that start a worker for `folder` and `min_bytes`.
pub fn worker_command_args(folder: &str, min_bytes: u64) -> (r: Vec<String>)
    ensures
        string_views(r@) == seq!["--worker"@, folder@, decimal(min_bytes as nat)],
{
    let mut r: Vec<String> = Vec::new();
    r.push(String::from_str(worker_flag()));
    r.push(String::from_str(folder));
    r.push(decimal_string(min_bytes));
    assert(string_views(r@) =~= seq!["--worker"@, folder@, decimal(min_bytes as nat)]);
    r
}

/// Why obtaining statistics from a worker process failed.
#[derive(Clone, Debug, PartialEq, Eq)]
pub enum DispatchError {
    /// The process could not be started, with the reason.
    Launch(String),
    /// The process exited unsuccessfully, with its trimmed standard error.
    WorkerFailed(String),
    /// Its standard output did not decode, with the decoder's description.
    InvalidOutput(String),
}

impl DispatchError {
    /// The error text handed to the caller.
    pub fn message(&self) -> (r: String)
        ensures
            r@ == match self {
                DispatchError::Launch(m) => "Gagal menjalankan worker process: "@ + m@,
                DispatchError::WorkerFailed(m) => "Worker process gagal: "@ + m@,
                DispatchError::InvalidOutput(m) => "Output JSON tidak valid dari worker: "@ + m@,
            },
    {
        let (prefix, m) = match self {
            DispatchError::Launch(m) => ("Gagal menjalankan worker process: ", m),
            DispatchError::WorkerFailed(m) => ("Worker process gagal: ", m),
            DispatchError::InvalidOutput(m) => ("Output JSON tidak valid dari worker: ", m),
        };
        let mut t = String::from_str(prefix);
        t.append(m.as_str());
        t
    }
}

/// What `String::from_utf8_lossy` gives for the bytes `b`.
pub uninterp spec fn lossy_of(b: Seq<u8>) -> Seq<char>;

/// Relies on `String::from_utf8_lossy`: the bytes decoded as UTF-8, with each
/// invalid sequence replaced; the result depends on the bytes alone.
#[verifier::external_body]
fn lossy_text(b: &[u8]) -> (r: String)
    ensures
        r@ == lossy_of(b@),
{
    String::from_utf8_lossy(b).into_owned()
}

/// The outcome of a finished worker process: its standard output as text
/// when it exited successfully, else a failure carrying its trimmed
/// standard error.
pub fn interpret_worker_exit(success: bool, stdout: &[u8], stderr: &[u8]) -> (r: Result<
    String,
    DispatchError,
>)
    ensures
        success ==> (r matches Ok(t) && t@ == lossy_of(stdout@)),
        !success ==> (r matches Err(DispatchError::WorkerFailed(m)) && m@ == trimmed(
            lossy_of(stderr@),
        )),
{
    if success {
        Ok(lossy_text(stdout))
    } else {
        let raw = lossy_text(stderr);
        Err(DispatchError::WorkerFailed(trim_text(raw.as_str())))
    }
}

} // verus!
