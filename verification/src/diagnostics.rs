//! The bounds of the local diagnostics log: its size and how many earlier
//! logs are kept. Writing the records is left to the caller.
use vstd::prelude::*;

verus! {

/// A log is emptied before it would grow past this many bytes.
pub const MAX_LOG_BYTES: u64 = 1048576;

/// How many earlier logs are kept besides the current one.
pub const KEPT_LOGS: usize = 7;

/// How many bytes the current log holds.
pub struct LogBudget {
    pub bytes: u64,
}

/// Whether a log of `bytes` bytes is emptied before a record of `len` bytes.
pub open spec fn restarts(bytes: nat, len: nat) -> bool {
    bytes + len > MAX_LOG_BYTES
}

/// How many bytes a log of `bytes` bytes holds after a record of `len` bytes.
pub open spec fn reserved(bytes: nat, len: nat) -> nat {
    if restarts(bytes, len) {
        len
    } else {
        bytes + len
    }
}

/// The log's content after the record `line` is written to `content`: the
/// record alone where it would carry the log past `MAX_LOG_BYTES`, and the
/// content followed by the record otherwise.
pub open spec fn log_after(content: Seq<u8>, line: Seq<u8>) -> Seq<u8> {
    if restarts(content.len(), line.len()) {
        line
    } else {
        content + line
    }
}

impl LogBudget {
    pub fn new() -> (b: LogBudget)
        ensures
            b.bytes == 0,
    {
        LogBudget { bytes: 0 }
    }

    /// Makes room for a record of `len` bytes; the answer says whether the
    /// log must be emptied before it is written. A log that holds at most
    /// `MAX_LOG_BYTES` still does afterwards, when the record is no larger.
    pub fn reserve(&mut self, len: u64) -> (restart: bool)
        requires
            old(self).bytes + len <= u64::MAX,
        ensures
            restart == restarts(old(self).bytes as nat, len as nat),
            final(self).bytes == reserved(old(self).bytes as nat, len as nat),
            old(self).bytes <= MAX_LOG_BYTES && len <= MAX_LOG_BYTES ==> final(self).bytes
                <= MAX_LOG_BYTES,
    {
        let restart = self.bytes + len > MAX_LOG_BYTES;
        if restart {
            self.bytes = 0;
        }
        self.bytes = self.bytes + len;
        restart
    }
}

/// A log whose budget counts its bytes keeps doing so when each record is
/// written as `reserve` directs, and stays within `MAX_LOG_BYTES`: where
/// the record would carry it past that, the log holds the record alone and
/// the older records are gone; otherwise the record follows them.
pub proof fn log_follows_its_budget(content: Seq<u8>, line: Seq<u8>)
    requires
        content.len() <= MAX_LOG_BYTES,
        line.len() <= MAX_LOG_BYTES,
    ensures
        log_after(content, line).len() == reserved(content.len(), line.len()),
        log_after(content, line).len() <= MAX_LOG_BYTES,
        restarts(content.len(), line.len()) ==> log_after(content, line) == line,
        !restarts(content.len(), line.len()) ==> log_after(content, line) == content + line,
{
}

/// How many of `count` earlier logs are removed, the oldest first, so that
/// at most `KEPT_LOGS` stay.
pub fn logs_to_remove(count: usize) -> (r: usize)
    ensures
        r == if count > KEPT_LOGS {
            count - KEPT_LOGS
        } else {
            0
        },
        count - r <= KEPT_LOGS,
{
    count.saturating_sub(KEPT_LOGS)
}

} // verus!
