//! Error taxonomy.
//!
//! Every error maps to a stable, negative status code that crosses the C
//! boundary. The mapping is part of the public ABI and must never change.

use vstd::prelude::*;

verus! {

/// Stable status codes returned by every entry point of the C interface.
///
/// Success is zero; every failure is negative so callers can test `< 0`.
#[derive(Debug, Clone, Copy, PartialEq, Eq, Structural)]
pub enum PhoenixStatus {
    /// Operation completed successfully.
    Success,
    /// Unclassified internal failure.
    Error,
    /// A pointer was null, a length exceeded the documented limit, or an
    /// argument was otherwise rejected before any dereference took place.
    InvalidArgument,
    /// The requested key does not exist in the caller's snapshot.
    NotFound,
    /// A page failed CRC32 verification, or the file header is foreign.
    Corruption,
    /// Underlying I/O failure.
    Io,
    /// Write-write conflict under snapshot isolation; retry the transaction.
    Conflict,
    /// A panic was caught at the C boundary.
    Panic,
    /// The supplied transaction id is unknown or finished.
    TxnNotFound,
    /// A structural limit was reached (page or value cannot be stored).
    Full,
    /// The caller's scan callback asked to stop.
    Aborted,
    /// The file is locked by another process.
    Busy,
}

/// The integer that each status crosses the C boundary as.
pub open spec fn status_code(s: PhoenixStatus) -> int {
    match s {
        PhoenixStatus::Success => 0,
        PhoenixStatus::Error => -1,
        PhoenixStatus::InvalidArgument => -2,
        PhoenixStatus::NotFound => -3,
        PhoenixStatus::Corruption => -4,
        PhoenixStatus::Io => -5,
        PhoenixStatus::Conflict => -6,
        PhoenixStatus::Panic => -7,
        PhoenixStatus::TxnNotFound => -8,
        PhoenixStatus::Full => -9,
        PhoenixStatus::Aborted => -10,
        PhoenixStatus::Busy => -11,
    }
}

impl PhoenixStatus {
    /// The status as the C interface's integer.
    pub fn code(self) -> (c: i32)
        ensures
            c == status_code(self),
    {
        match self {
            PhoenixStatus::Success => 0,
            PhoenixStatus::Error => -1,
            PhoenixStatus::InvalidArgument => -2,
            PhoenixStatus::NotFound => -3,
            PhoenixStatus::Corruption => -4,
            PhoenixStatus::Io => -5,
            PhoenixStatus::Conflict => -6,
            PhoenixStatus::Panic => -7,
            PhoenixStatus::TxnNotFound => -8,
            PhoenixStatus::Full => -9,
            PhoenixStatus::Aborted => -10,
            PhoenixStatus::Busy => -11,
        }
    }
}

/// Internal error type, converted to [`PhoenixStatus`] at the C boundary.
#[derive(Debug)]
pub enum Error {
    /// I/O failure from the filesystem layer, described.
    Io(String),
    /// On-disk structure is not self-consistent (CRC, magic or bounds).
    Corruption(String),
    /// Key is absent from the visible snapshot.
    NotFound,
    /// Caller-supplied argument violates a documented precondition.
    InvalidArgument(String),
    /// Snapshot-isolation write-write conflict.
    Conflict,
    /// Unknown or already-finished transaction id.
    TxnNotFound(u64),
    /// Payload cannot be represented (exceeds structural limits).
    Full(String),
    /// Failure while encoding or decoding a serialised record.
    Serialization(String),
    /// Handle has already been closed.
    Closed,
    /// A scan was stopped by its callback.
    Aborted,
    /// The file is already open elsewhere.
    Busy(String),
}

/// The status that each error is reported as.
pub open spec fn status_of(e: Error) -> PhoenixStatus {
    match e {
        Error::Io(_) => PhoenixStatus::Io,
        Error::Corruption(_) => PhoenixStatus::Corruption,
        Error::NotFound => PhoenixStatus::NotFound,
        Error::InvalidArgument(_) => PhoenixStatus::InvalidArgument,
        Error::Conflict => PhoenixStatus::Conflict,
        Error::TxnNotFound(_) => PhoenixStatus::TxnNotFound,
        Error::Full(_) => PhoenixStatus::Full,
        Error::Serialization(_) => PhoenixStatus::Corruption,
        Error::Closed => PhoenixStatus::InvalidArgument,
        Error::Aborted => PhoenixStatus::Aborted,
        Error::Busy(_) => PhoenixStatus::Busy,
    }
}

impl Error {
    /// Maps this error onto its stable status code.
    pub fn status(&self) -> (s: PhoenixStatus)
        ensures
            s == status_of(*self),
    {
        match self {
            Error::Io(_) => PhoenixStatus::Io,
            Error::Corruption(_) => PhoenixStatus::Corruption,
            Error::NotFound => PhoenixStatus::NotFound,
            Error::InvalidArgument(_) => PhoenixStatus::InvalidArgument,
            Error::Conflict => PhoenixStatus::Conflict,
            Error::TxnNotFound(_) => PhoenixStatus::TxnNotFound,
            Error::Full(_) => PhoenixStatus::Full,
            Error::Serialization(_) => PhoenixStatus::Corruption,
            Error::Closed => PhoenixStatus::InvalidArgument,
            Error::Aborted => PhoenixStatus::Aborted,
            Error::Busy(_) => PhoenixStatus::Busy,
        }
    }

    /// Convenience constructor for corruption reports.
    pub fn corrupt(msg: &str) -> (e: Self)
        ensures
            e matches Error::Corruption(m) && m@ == msg@,
    {
        Error::Corruption(msg.to_owned())
    }

    /// Convenience constructor for argument validation failures.
    pub fn invalid(msg: &str) -> (e: Self)
        ensures
            e matches Error::InvalidArgument(m) && m@ == msg@,
    {
        Error::InvalidArgument(msg.to_owned())
    }

    /// Convenience constructor for exhausted structural limits.
    pub fn full(msg: &str) -> (e: Self)
        ensures
            e matches Error::Full(m) && m@ == msg@,
    {
        Error::Full(msg.to_owned())
    }

    /// Human-readable description.
    pub fn describe(&self) -> (s: String)
        ensures
            s@ == description(*self),
    {
        match self {
            Error::Io(m) => "io error: ".to_owned().concat(m.as_str()),
            Error::Corruption(m) => "corruption detected: ".to_owned().concat(m.as_str()),
            Error::NotFound => "key not found".to_owned(),
            Error::InvalidArgument(m) => "invalid argument: ".to_owned().concat(m.as_str()),
            Error::Conflict => "write-write conflict; retry transaction".to_owned(),
            Error::TxnNotFound(id) => {
                let mut s: String = "unknown or finished transaction ".to_owned();
                let digits: String = decimal_string(*id);
                s.append(digits.as_str());
                s
            },
            Error::Full(m) => "capacity exceeded: ".to_owned().concat(m.as_str()),
            Error::Serialization(m) => "serialization failure: ".to_owned().concat(m.as_str()),
            Error::Closed => "database handle is closed".to_owned(),
            Error::Aborted => "scan aborted by its callback".to_owned(),
            Error::Busy(m) => "database is busy: ".to_owned().concat(m.as_str()),
        }
    }
}

/// Decimal digits of `n`, most significant first.
pub open spec fn decimal(n: nat) -> Seq<char>
    decreases n,
{
    let digit = seq![(48 + n % 10) as char];
    if n < 10 {
        digit
    } else {
        decimal(n / 10) + digit
    }
}

/// Writes `n` in decimal.
pub fn decimal_string(n: u64) -> (s: String)
    ensures
        s@ == decimal(n as nat),
    decreases n,
{
    let digit: &str = digit_str(n % 10);
    if n < 10 {
        digit.to_owned()
    } else {
        decimal_string(n / 10).concat(digit)
    }
}

fn digit_str(d: u64) -> (s: &'static str)
    requires
        d < 10,
    ensures
        s@ == seq![(48 + d) as char],
{
    proof {
        reveal_strlit("0");
        reveal_strlit("1");
        reveal_strlit("2");
        reveal_strlit("3");
        reveal_strlit("4");
        reveal_strlit("5");
        reveal_strlit("6");
        reveal_strlit("7");
        reveal_strlit("8");
        reveal_strlit("9");
    }
    let s: &'static str = match d {
        0 => "0",
        1 => "1",
        2 => "2",
        3 => "3",
        4 => "4",
        5 => "5",
        6 => "6",
        7 => "7",
        8 => "8",
        _ => "9",
    };
    assert(s@ =~= seq![(48 + d) as char]);
    s
}

/// What [`Error::describe`] says of each error.
pub open spec fn description(e: Error) -> Seq<char> {
    match e {
        Error::Io(m) => "io error: "@ + m@,
        Error::Corruption(m) => "corruption detected: "@ + m@,
        Error::NotFound => "key not found"@,
        Error::InvalidArgument(m) => "invalid argument: "@ + m@,
        Error::Conflict => "write-write conflict; retry transaction"@,
        Error::TxnNotFound(id) => "unknown or finished transaction "@ + decimal(id as nat),
        Error::Full(m) => "capacity exceeded: "@ + m@,
        Error::Serialization(m) => "serialization failure: "@ + m@,
        Error::Closed => "database handle is closed"@,
        Error::Aborted => "scan aborted by its callback"@,
        Error::Busy(m) => "database is busy: "@ + m@,
    }
}

/// Every failure has a negative status, so a status can be told from a count.
pub proof fn law_failures_are_negative(e: Error)
    ensures
        status_code(status_of(e)) < 0,
{
}

/// Distinct statuses have distinct codes.
pub proof fn law_codes_are_distinct(a: PhoenixStatus, b: PhoenixStatus)
    ensures
        status_code(a) == status_code(b) ==> a == b,
{
}

/// Crate-wide result alias.
pub type Result<T> = std::result::Result<T, Error>;

} // verus!
