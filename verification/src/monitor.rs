//! Watching filesystems for deletions: the events that the kernel reports, and the log.

use crate::path::{join, joined};
use crate::seqs::{same_run, to_vec};
use crate::text::{decimal, lossy, push_decimal, push_text, same_text, text_lossy};
use vstd::prelude::*;
use vstd::slice::slice_subrange;
use vstd::utf8::encode_utf8;

verus! {

/// How many bytes an event has before what follows it.
pub const EVENT_SIZE: usize = 24;

/// The version of events that is understood.
pub const EVENT_VERSION: u8 = 3;

pub const FAN_MOVED_FROM: u64 = 0x40;

pub const FAN_DELETE: u64 = 0x200;

pub const FAN_DELETE_SELF: u64 = 0x400;

/// Events were lost.
pub const FAN_Q_OVERFLOW: u64 = 0x4000;

/// The events that mean a deletion.
pub const DELETIONS: u64 = 0x600;

/// No descriptor came with an event.
pub const FAN_NOFD: i32 = -1;

/// The number that `n` bytes stand for, the lowest first.
pub open spec fn low_first(b: Seq<u8>, at: int, n: nat) -> nat
    decreases n,
{
    if n == 0 {
        0
    } else {
        b[at] as nat + 256 * low_first(b, at + 1, (n - 1) as nat)
    }
}

fn word16(b: &[u8], at: usize) -> (r: u16)
    requires
        at + 2 <= b@.len(),
    ensures
        r == low_first(b@, at as int, 2),
{
    reveal_with_fuel(low_first, 3);
    b[at] as u16 + 256 * (b[at + 1] as u16)
}

fn word32(b: &[u8], at: usize) -> (r: u32)
    requires
        at + 4 <= b@.len(),
    ensures
        r == low_first(b@, at as int, 4),
{
    reveal_with_fuel(low_first, 5);
    b[at] as u32 + 256 * (b[at + 1] as u32) + 65_536 * (b[at + 2] as u32) + 16_777_216 * (b[at + 3] as u32)
}

fn word64(b: &[u8], at: usize) -> (r: u64)
    requires
        at + 8 <= b@.len(),
    ensures
        r == low_first(b@, at as int, 8),
{
    let n: usize = b.len();
    assert(at + 8 <= n);
    let low: u32 = word32(b, at);
    let high: u32 = word32(b, at + 4);
    proof {
        let p = at as int;
        assert(low_first(b@, p, 8) == low_first(b@, p, 4) + 4_294_967_296 * low_first(b@, p + 4, 4)) by {
            reveal_with_fuel(low_first, 9);
        }
    }
    low as u64 + 4_294_967_296 * (high as u64)
}

/// An event that the kernel reports.
#[derive(Debug, Clone, Copy, PartialEq, Eq, Structural)]
pub struct FanEvent {
    pub mask: u64,
    /// A descriptor of what the event is about, where one came with it.
    pub fd: i32,
    pub pid: u32,
    /// Where the records behind the event begin in what was read.
    pub from: usize,
    /// Where they end.
    pub to: usize,
}

/// Where the records of an event stand: behind its head, up to its end. There are none
/// where it does not say so much of itself, or has not come whole.
pub open spec fn records_span(b: Seq<u8>, at: int) -> (int, int) {
    let whole = low_first(b, at, 4) as int;
    let head = low_first(b, at + 6, 2) as int;
    if EVENT_SIZE <= head <= whole && at + whole <= b.len() {
        (at + head, at + whole)
    } else {
        (0, 0)
    }
}

/// The event that stands at a place.
pub open spec fn event_at(b: Seq<u8>, at: int) -> FanEvent {
    FanEvent {
        mask: low_first(b, at + 8, 8) as u64,
        fd: (low_first(b, at + 16, 4) as u32) as i32,
        pid: low_first(b, at + 20, 4) as u32,
        from: records_span(b, at).0 as usize,
        to: records_span(b, at).1 as usize,
    }
}

/// The events that stand in what was read, from a place on: each tells how far it is to
/// the next. They end where no whole event is left, at one of another version, and at
/// one that leads no further.
pub open spec fn events_from(b: Seq<u8>, at: int) -> Seq<FanEvent>
    decreases b.len() - at,
{
    if at < 0 || at + EVENT_SIZE > b.len() || b[at + 4] != EVENT_VERSION {
        seq![]
    } else {
        let step = low_first(b, at, 4);
        if step == 0 || at + step > b.len() {
            seq![event_at(b, at)]
        } else {
            seq![event_at(b, at)] + events_from(b, at + step)
        }
    }
}

/// The other version that the events end at, if they do.
pub open spec fn odd_version_from(b: Seq<u8>, at: int) -> Option<u8>
    decreases b.len() - at,
{
    if at < 0 || at + EVENT_SIZE > b.len() {
        None
    } else if b[at + 4] != EVENT_VERSION {
        Some(b[at + 4])
    } else {
        let step = low_first(b, at, 4);
        if step == 0 || at + step > b.len() {
            None
        } else {
            odd_version_from(b, at + step)
        }
    }
}

/// Reads the events that the kernel reports, and the version that they end at where it
/// is not the one that is understood.
pub fn parse_events(b: &[u8]) -> (r: (Vec<FanEvent>, Option<u8>))
    ensures
        r.0@ == events_from(b@, 0),
        r.1 == odd_version_from(b@, 0),
{
    let n: usize = b.len();
    let mut out: Vec<FanEvent> = Vec::new();
    let mut at: usize = 0;
    assert(out@ + events_from(b@, 0) =~= events_from(b@, 0));
    while n >= EVENT_SIZE && at <= n - EVENT_SIZE
        invariant
            n == b@.len(),
            at <= n,
            out@ + events_from(b@, at as int) == events_from(b@, 0),
            odd_version_from(b@, at as int) == odd_version_from(b@, 0),
        decreases n - at,
    {
        if b[at + 4] != EVENT_VERSION {
            assert(out@ + events_from(b@, at as int) =~= out@);
            return (out, Some(b[at + 4]));
        }
        let step: u32 = word32(b, at);
        let ghost before = out@;
        let head: usize = word16(b, at + 6) as usize;
        let (from, to): (usize, usize) = if EVENT_SIZE <= head && head <= step as usize && step as usize
            <= n - at {
            (at + head, at + step as usize)
        } else {
            (0, 0)
        };
        let e = FanEvent {
            mask: word64(b, at + 8),
            fd: word32(b, at + 16) as i32,
            pid: word32(b, at + 20),
            from,
            to,
        };
        assert(e == event_at(b@, at as int));
        out.push(e);
        if step == 0 || step as usize > n - at {
            assert(before + events_from(b@, at as int) =~= out@);
            return (out, None);
        }
        assert(before + events_from(b@, at as int) =~= out@ + events_from(b@, at + step));
        at += step as usize;
    }
    assert(out@ + events_from(b@, at as int) =~= out@);
    (out, None)
}

/// A record of the directory and of the name in it that an event is about.
pub const DIR_AND_NAME: u8 = 2;

/// A record of the directory that an event is about.
pub const DIR_ONLY: u8 = 3;

/// How many bytes a record of a directory has before the handle's own.
pub const RECORD_SIZE: usize = 20;

/// The directory that an event without a descriptor is about.
#[derive(Debug)]
pub struct DirRecord {
    /// The filesystem that it is on.
    pub fsid: Vec<u8>,
    /// Its handle: the length, the type, and as many bytes.
    pub handle: Vec<u8>,
    /// The name of what was deleted in it, where that is told.
    pub name: Option<Vec<u8>>,
}

/// The directory that an event is about, as values.
#[verifier::ext_equal]
pub struct DirPlace {
    pub fsid: Seq<u8>,
    pub handle: Seq<u8>,
    pub name: Option<Seq<u8>>,
}

impl View for DirRecord {
    type V = DirPlace;

    open spec fn view(&self) -> DirPlace {
        DirPlace {
            fsid: self.fsid@,
            handle: self.handle@,
            name: match self.name {
                Some(n) => Some(n@),
                None => None,
            },
        }
    }
}

/// Where a text that a zero ends, ends: at the zero, or at a limit.
pub open spec fn zero_from(b: Seq<u8>, i: int, end: int) -> int
    decreases end - i,
{
    if i >= end || b[i] == 0 {
        i
    } else {
        zero_from(b, i + 1, end)
    }
}

/// The record that stands between two places, where it is one of a directory and its
/// handle has room in it.
pub open spec fn record_at(b: Seq<u8>, p: int, end: int) -> Option<DirPlace> {
    let h = p + RECORD_SIZE + low_first(b, p + 12, 4);
    if (b[p] != DIR_AND_NAME && b[p] != DIR_ONLY) || p + RECORD_SIZE > end || h > end {
        None
    } else {
        Some(
            DirPlace {
                fsid: b.subrange(p + 4, p + 12),
                handle: b.subrange(p + 12, h),
                name: if b[p] == DIR_AND_NAME {
                    Some(b.subrange(h, zero_from(b, h, end)))
                } else {
                    None
                },
            },
        )
    }
}

/// The first record of a directory among those that stand between two places, each of
/// which tells its length. They end where no whole record is left.
pub open spec fn dir_record_from(b: Seq<u8>, p: int, end: int) -> Option<DirPlace>
    decreases end - p,
{
    if p + 4 > end {
        None
    } else {
        let len = low_first(b, p + 2, 2);
        if len < 4 || p + len > end {
            None
        } else {
            match record_at(b, p, p + len) {
                Some(r) => Some(r),
                None => dir_record_from(b, p + len, end),
            }
        }
    }
}

fn read_record(b: &[u8], p: usize, end: usize) -> (r: Option<DirRecord>)
    requires
        p + 4 <= end <= b@.len(),
    ensures
        match r {
            Some(x) => record_at(b@, p as int, end as int) == Some(x@),
            None => record_at(b@, p as int, end as int) is None,
        },
{
    if (b[p] != DIR_AND_NAME && b[p] != DIR_ONLY) || end - p < RECORD_SIZE {
        return None;
    }
    let own: u32 = word32(b, p + 12);
    if own as usize > end - p - RECORD_SIZE {
        return None;
    }
    let h: usize = p + RECORD_SIZE + own as usize;
    let name = if b[p] == DIR_AND_NAME {
        let mut i: usize = h;
        while i < end && b[i] != 0
            invariant
                h <= i <= end <= b@.len(),
                zero_from(b@, h as int, end as int) == zero_from(b@, i as int, end as int),
            decreases end - i,
        {
            i += 1;
        }
        Some(to_vec(slice_subrange(b, h, i)))
    } else {
        None
    };
    Some(
        DirRecord {
            fsid: to_vec(slice_subrange(b, p + 4, p + 12)),
            handle: to_vec(slice_subrange(b, p + 12, h)),
            name,
        },
    )
}

/// The first record of a directory among those of an event in what was read.
pub open spec fn dir_place(b: Seq<u8>, e: FanEvent) -> Option<DirPlace> {
    if e.from <= e.to <= b.len() {
        dir_record_from(b, e.from as int, e.to as int)
    } else {
        None
    }
}

/// Reads the first record of a directory among those of an event.
pub fn dir_record(b: &[u8], e: &FanEvent) -> (r: Option<DirRecord>)
    ensures
        match r {
            Some(x) => dir_place(b@, *e) == Some(x@),
            None => dir_place(b@, *e) is None,
        },
{
    if e.from > e.to || e.to > b.len() {
        return None;
    }
    let end: usize = e.to;
    let mut p: usize = e.from;
    while end - p >= 4
        invariant
            p <= end <= b@.len(),
            dir_place(b@, *e) == dir_record_from(b@, p as int, end as int),
        decreases end - p,
    {
        let len: usize = word16(b, p + 2) as usize;
        if len < 4 || len > end - p {
            return None;
        }
        let r = read_record(b, p, p + len);
        if r.is_some() {
            return r;
        }
        p += len;
    }
    None
}

/// The path of what was deleted: that of the name in the directory, and that of the
/// directory where no name is told or the name is its own.
pub open spec fn deleted_at(dir: Seq<u8>, name: Option<Seq<u8>>) -> Seq<u8> {
    match name {
        Some(n) => if n.len() == 0 || n == encode_utf8("."@) {
            dir
        } else {
            joined(dir, n)
        },
        None => dir,
    }
}

/// The path of what was deleted, from that of the directory.
pub fn deleted_path(dir: &[u8], name: Option<&[u8]>) -> (r: Vec<u8>)
    ensures
        r@ == deleted_at(
            dir@,
            match name {
                Some(n) => Some(n@),
                None => None,
            },
        ),
{
    match name {
        Some(n) => {
            if n.len() == 0 || same_run(n, ".".as_bytes()) {
                to_vec(dir)
            } else {
                join(dir, n)
            }
        },
        None => to_vec(dir),
    }
}

/// What an event means.
#[derive(Debug, Clone, Copy, PartialEq, Eq, Structural)]
pub enum Notice {
    /// Events were lost.
    Overflow,
    /// Something was deleted.
    Deletion,
    /// Something else, as a renaming: it is not logged.
    Other,
}

pub open spec fn notice_of(mask: u64) -> Notice {
    if mask & FAN_Q_OVERFLOW != 0 {
        Notice::Overflow
    } else if mask & DELETIONS != 0 {
        Notice::Deletion
    } else {
        Notice::Other
    }
}

/// What an event means.
pub fn notice(e: &FanEvent) -> (r: Notice)
    ensures
        r == notice_of(e.mask),
{
    if e.mask & FAN_Q_OVERFLOW != 0 {
        Notice::Overflow
    } else if e.mask & DELETIONS != 0 {
        Notice::Deletion
    } else {
        Notice::Other
    }
}

/// An event is logged as a deletion where it has the bit of a deleted entry or that of a
/// deleted watched item, and no events were lost; being moved away alone is none.
pub proof fn law_renames_are_not_deletions(mask: u64)
    requires
        mask & FAN_Q_OVERFLOW == 0,
    ensures
        (notice_of(mask) is Deletion) == (mask & FAN_DELETE != 0 || mask & FAN_DELETE_SELF != 0),
        mask == FAN_MOVED_FROM ==> notice_of(mask) is Other,
{
    assert((mask & 0x600u64 != 0) == (mask & 0x200u64 != 0 || mask & 0x400u64 != 0)) by (bit_vector);
    assert(0x40u64 & 0x600u64 == 0) by (bit_vector);
}

/// A filesystem type is not watched: what it holds does not last, or lies elsewhere.
pub open spec fn unwatched(fstype: Seq<char>) -> bool {
    fstype == "tmpfs"@ || fstype == "ramfs"@ || fstype == "devtmpfs"@ || fstype == "overlay"@ || fstype
        == "squashfs"@
}

/// Whether a filesystem is watched.
pub fn watchable(fstype: &str) -> (r: bool)
    ensures
        r == !unwatched(fstype@),
{
    !(same_text(fstype, "tmpfs") || same_text(fstype, "ramfs") || same_text(fstype, "devtmpfs") || same_text(
        fstype,
        "overlay",
    ) || same_text(fstype, "squashfs"))
}

/// A deletion that was seen.
#[derive(Debug)]
pub struct DeletionEvent {
    pub path: Vec<u8>,
    pub pid: u32,
    pub process: String,
}

/// The line by which a deletion is logged.
pub open spec fn deletion_line(
    path: Seq<u8>,
    pid: u32,
    process: Seq<char>,
    skipped: bool,
) -> Seq<char> {
    let line = "[trashd-daemon] DELETE pid="@ + decimal(pid as nat) + " proc="@ + process + " path="@
        + lossy(path);
    if skipped {
        line + " (skipped)"@
    } else {
        line
    }
}

impl DeletionEvent {
    /// The line by which the deletion is logged; it says where the path is one that the
    /// settings keep out of the trash.
    pub fn log(&self, skipped: bool) -> (r: String)
        ensures
            r@ == deletion_line(self.path@, self.pid, self.process@, skipped),
    {
        let mut r: String = "[trashd-daemon] DELETE pid=".to_owned();
        push_decimal(&mut r, self.pid as u64);
        push_text(&mut r, " proc=");
        push_text(&mut r, self.process.as_str());
        push_text(&mut r, " path=");
        let p = text_lossy(self.path.as_slice());
        push_text(&mut r, p.as_str());
        if skipped {
            push_text(&mut r, " (skipped)");
        }
        r
    }
}

} // verus!
