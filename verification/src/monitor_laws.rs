//! What follows for callers from how the events of the kernel are read and logged.

use crate::monitor::{deleted_path, dir_place, dir_record_from, event_at, events_from, low_first, notice, odd_version_from, record_at, watchable, zero_from, DeletionEvent, FanEvent, Notice};
use crate::path::joined;
use crate::text::{decimal, lossy};
use vstd::prelude::*;
use vstd::utf8::encode_utf8;

verus! {

/// Numbers stand in what is read with the lowest byte first.
pub proof fn law_low_first(b: Seq<u8>, at: int)
    ensures
        low_first(b, at, 2) == b[at] + 256 * b[at + 1],
        low_first(b, at, 4) == b[at] + 0x100 * b[at + 1] + 0x1_0000 * b[at + 2] + 0x100_0000 * b[at
            + 3],
        low_first(b, at, 8) == low_first(b, at, 4) + 0x1_0000_0000 * low_first(b, at + 4, 4),
{
    reveal_with_fuel(low_first, 9);
}

/// An event has its length in four bytes, its version behind them, the length of its own
/// head, and then what happened, a descriptor and the process. It is read where its 24 bytes
/// are there and its version is the third; the next one stands where its length says.
pub proof fn law_event(b: Seq<u8>, at: int)
    requires
        0 <= at,
    ensures
        at + 24 > b.len() ==> events_from(b, at).len() == 0 && odd_version_from(b, at) is None,
        at + 24 <= b.len() && b[at + 4] != 3 ==> events_from(b, at).len() == 0 && odd_version_from(
            b,
            at,
        ) == Some(b[at + 4]),
        at + 24 <= b.len() && b[at + 4] == 3 ==> {
            let len = low_first(b, at, 4);
            let e = events_from(b, at)[0];
            &&& events_from(b, at).len() > 0
            &&& e.mask == low_first(b, at + 8, 8) as u64
            &&& e.fd == (low_first(b, at + 16, 4) as u32) as i32
            &&& e.pid == low_first(b, at + 20, 4) as u32
            &&& len == 0 || at + len > b.len() ==> events_from(b, at).len() == 1
                && odd_version_from(b, at) is None
            &&& len > 0 && at + len <= b.len() ==> events_from(b, at) == seq![e] + events_from(
                b,
                at + len,
            ) && odd_version_from(b, at) == odd_version_from(b, at + len)
        },
{
    reveal_with_fuel(events_from, 2);
    reveal_with_fuel(odd_version_from, 2);
}

/// The records of an event stand behind its head and up to its end, and lie in what was read;
/// an event that does not tell so has none.
pub proof fn law_records(b: Seq<u8>, at: int)
    requires
        0 <= at,
        at + 24 <= b.len(),
        b.len() <= usize::MAX,
    ensures
        ({
            let len = low_first(b, at, 4) as int;
            let head = low_first(b, at + 6, 2) as int;
            let e = event_at(b, at);
            if 24 <= head <= len && at + len <= b.len() {
                e.from == at + head && e.to == at + len
            } else {
                e.from == 0 && e.to == 0
            }
        }),
{
}

/// A record of a directory: of the second kind with a name, of the third without. It has
/// twenty bytes before those of the handle; the filesystem stands in eight of them, and the
/// handle is read with its length and type.
pub proof fn law_record(b: Seq<u8>, p: int, end: int)
    requires
        0 <= p,
        p + 20 <= end <= b.len(),
    ensures
        ({
            let h = p + 20 + low_first(b, p + 12, 4);
            &&& record_at(b, p, end) is Some <==> (b[p] == 2 || b[p] == 3) && h <= end
            &&& record_at(b, p, end) matches Some(d) ==> {
                &&& d.fsid == b.subrange(p + 4, p + 12)
                &&& d.handle == b.subrange(p + 12, h)
                &&& d.name is Some <==> b[p] == 2
                &&& d.name matches Some(n) ==> {
                    &&& h + n.len() <= end
                    &&& n == b.subrange(h, h + n.len())
                    &&& !n.contains(0)
                    &&& h + n.len() < end ==> b[h + n.len()] == 0
                }
            }
        }),
{
    let h = p + 20 + low_first(b, p + 12, 4);
    if h <= end {
        lemma_zero(b, h, end);
        let z = zero_from(b, h, end);
        let n = b.subrange(h, z);
        assert forall|k: int| 0 <= k < n.len() implies #[trigger] n[k] != 0 by {
            assert(n[k] == b[h + k]);
        }
    }
}

proof fn lemma_zero(b: Seq<u8>, i: int, end: int)
    requires
        0 <= i <= end <= b.len(),
    ensures
        i <= zero_from(b, i, end) <= end,
        forall|k: int| i <= k < zero_from(b, i, end) ==> #[trigger] b[k] != 0,
        zero_from(b, i, end) < end ==> b[zero_from(b, i, end)] == 0,
    decreases end - i,
{
    if i < end && b[i] != 0 {
        lemma_zero(b, i + 1, end);
    }
}

/// The first record of a directory counts: one of another kind is passed by its length, and
/// nothing is read past one that is shorter than its head or longer than what is left.
pub proof fn law_first_record(b: Seq<u8>, p: int, end: int)
    requires
        0 <= p <= end <= b.len(),
    ensures
        end - p < 4 ==> dir_record_from(b, p, end) is None,
        end - p >= 4 ==> {
            let len = low_first(b, p + 2, 2);
            &&& len < 4 || p + len > end ==> dir_record_from(b, p, end) is None
            &&& len >= 4 && p + len <= end ==> match record_at(b, p, p + len) {
                Some(d) => dir_record_from(b, p, end) == Some(d),
                None => dir_record_from(b, p, end) == dir_record_from(b, p + len, end),
            }
        },
{
    reveal_with_fuel(dir_record_from, 2);
}

/// The directory of an event is looked for between where its records begin and end, and
/// nowhere where that does not lie in what was read.
pub proof fn law_dir_place(b: Seq<u8>, e: FanEvent)
    ensures
        e.from > e.to || e.to > b.len() ==> dir_place(b, e) is None,
        e.from <= e.to && e.to <= b.len() ==> dir_place(b, e) == dir_record_from(
            b,
            e.from as int,
            e.to as int,
        ),
{
}

/// What was deleted is the entry of the directory where a name is told, and the directory
/// itself where none is, or where the name is empty or is `.`.
pub proof fn law_deleted_path(dir: &[u8], name: Option<&[u8]>, r: Vec<u8>)
    requires
        call_ensures(deleted_path, (dir, name), r),
    ensures
        name is None ==> r@ == dir@,
        name matches Some(n) ==> (n@.len() == 0 || n@ == encode_utf8("."@) ==> r@ == dir@) && (n@.len()
            > 0 && n@ != encode_utf8("."@) ==> r@ == joined(dir@, n@)),
{
}

/// Events that were lost are told before anything else; a deletion is the deletion of an
/// entry or of what is watched, and nothing else is.
pub proof fn law_notice(e: &FanEvent, r: Notice)
    requires
        call_ensures(notice, (e,), r),
    ensures
        r is Overflow <==> e.mask & 0x4000 != 0,
        r is Deletion <==> e.mask & 0x4000 == 0 && (e.mask & 0x200 != 0 || e.mask & 0x400 != 0),
{
    let m = e.mask;
    assert((m & 0x600u64 != 0) == (m & 0x200u64 != 0 || m & 0x400u64 != 0)) by (bit_vector);
}

/// The five kinds of filesystem that are not watched.
pub proof fn law_watchable(fstype: &str, r: bool)
    requires
        call_ensures(watchable, (fstype,), r),
    ensures
        !r <==> fstype@ == "tmpfs"@ || fstype@ == "ramfs"@ || fstype@ == "devtmpfs"@ || fstype@
            == "overlay"@ || fstype@ == "squashfs"@,
{
}

/// The line of a deletion, which ends by saying so where the path is kept out of the trash.
pub proof fn law_deletion_line(e: &DeletionEvent, plain: String, skipped: String)
    requires
        call_ensures(DeletionEvent::log, (e, false), plain),
        call_ensures(DeletionEvent::log, (e, true), skipped),
    ensures
        plain@ == "[trashd-daemon] DELETE pid="@ + decimal(e.pid as nat) + " proc="@ + e.process@
            + " path="@ + lossy(e.path@),
        skipped@ == plain@ + " (skipped)"@,
{
}

} // verus!
