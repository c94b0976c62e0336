//! What follows for callers from how operations are logged and failures are told.

use crate::dates::{date_text, Moment};
use crate::errors::{TrashError};
use crate::oplog::{log_empty, log_line, log_path, log_purge, log_restore, log_trash, read_log};
use crate::path::joined;
use crate::text::{decimal, lines, lossy, texts};
use vstd::prelude::*;
use vstd::utf8::encode_utf8;

verus! {

/// What is logged of each operation: its name, and then each thing behind its own name.
pub proof fn law_logged(
    path: &[u8],
    id: &str,
    command: Option<&str>,
    count: u64,
    trashed: String,
    restored: String,
    purged: String,
    emptied: String,
)
    requires
        call_ensures(log_trash, (path, id, command), trashed),
        call_ensures(log_restore, (id, path), restored),
        call_ensures(log_purge, (id,), purged),
        call_ensures(log_empty, (count, command), emptied),
    ensures
        command matches Some(c) ==> trashed@ == "TRASH id="@ + id@ + " path="@ + lossy(path@) + " cmd="@
            + c@,
        command is None ==> trashed@ == "TRASH id="@ + id@ + " path="@ + lossy(path@) + " cmd="@
            + "-"@,
        restored@ == "RESTORE id="@ + id@ + " to="@ + lossy(path@),
        purged@ == "PURGE id="@ + id@,
        command matches Some(c) ==> emptied@ == "EMPTY count="@ + decimal(count as nat) + " filter="@
            + c@,
        command is None ==> emptied@ == "EMPTY count="@ + decimal(count as nat) + " filter="@
            + "all"@,
{
}

/// A line of the log: the local time, the process, the message, and one line feed.
pub proof fn law_log_line(now: &Moment, pid: u32, message: &str, r: String)
    requires
        now.valid(),
        call_ensures(log_line, (now, pid, message), r),
    ensures
        r@ == date_text("%Y-%m-%dT%H:%M:%S"@, now.secs + now.offset, now.nanos as int) + " pid="@
            + decimal(pid as nat) + " "@ + message@ + "\n"@,
{
}

/// The log is read from its end: the last lines, in their order, and all of them where there
/// are no more than were asked for.
pub proof fn law_log_read(content: &str, max_lines: usize, r: Vec<String>)
    requires
        call_ensures(read_log, (content, max_lines), r),
    ensures
        r@.len() == (if lines(content@).len() <= max_lines {
            lines(content@).len()
        } else {
            max_lines as nat
        }),
        forall|k: int|
            0 <= k < r@.len() ==> #[trigger] texts(r@)[k] == lines(content@)[lines(content@).len()
                - r@.len() + k],
{
    assert(texts(r@).len() == r@.len());
}

/// The log lies in the home trash, out of the way of what is trashed.
pub proof fn law_log_path(home_trash: &[u8], r: Vec<u8>)
    requires
        call_ensures(log_path, (home_trash,), r),
    ensures
        r@ == joined(
            joined(home_trash@, encode_utf8(".trashd"@)),
            encode_utf8("operations.log"@),
        ),
{
}

/// Each failure is told by what happened and by what it happened to.
pub proof fn law_told(e: &TrashError, r: String)
    requires
        call_ensures(TrashError::message, (e,), r),
    ensures
        *e matches TrashError::Io(x) ==> r@ == "io error: "@ + x@,
        *e matches TrashError::NotFound(p) ==> r@ == "path does not exist: "@ + lossy(p@),
        *e matches TrashError::Excluded(p) ==> r@ == "path is in never-trash list: "@ + lossy(p@),
        *e matches TrashError::TooLarge { path, size_mb, limit_mb } ==> r@ == "file too large ("@
            + decimal(size_mb as nat) + " MB > "@ + decimal(limit_mb as nat) + " MB limit): "@ + lossy(
            path@,
        ),
        *e matches TrashError::Index(x) ==> r@ == "index error: "@ + x@,
        *e matches TrashError::EntryNotFound(n) ==> r@ == "trash entry not found: "@ + n@,
        *e matches TrashError::RestoreConflict(p) ==> r@ == "original path already exists: "@ + lossy(
            p@,
        ),
        *e matches TrashError::RestoreTraversal(p) ==> r@
            == "refusing to restore outside the original location (possible path traversal): "@
            + lossy(p@),
        *e matches TrashError::AmbiguousMatch { pattern, count } ==> r@ == "multiple matches for '"@
            + pattern@ + "': "@ + decimal(count as nat)
            + " items (use trash ID for exact match)"@,
        *e matches TrashError::HashMismatch { path, expected, actual } ==> r@
            == "hash mismatch for '"@ + lossy(path@) + "': expected "@ + expected@ + ", got "@
            + actual@,
        *e matches TrashError::Refused(p) ==> r@ == "refused: "@ + lossy(p@),
{
}

} // verus!
