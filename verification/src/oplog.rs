//! The log of operations: one line for each, with the time, the process and what was done.

use crate::dates::{date_text, Moment};
use crate::path::{join, joined};
use crate::text::{
    chars_of, decimal, lines, lines_of, lossy, push_decimal, push_text, string_of, text_lossy, texts, views,
};
use vstd::prelude::*;
use vstd::utf8::encode_utf8;

verus! {

pub open spec fn text_or(t: Option<&str>, d: Seq<char>) -> Seq<char> {
    match t {
        Some(x) => x@,
        None => d,
    }
}

/// What is logged of an item that was trashed.
pub fn log_trash(original_path: &[u8], trash_id: &str, command: Option<&str>) -> (r: String)
    ensures
        r@ == "TRASH id="@ + trash_id@ + " path="@ + lossy(original_path@) + " cmd="@ + text_or(
            command,
            "-"@,
        ),
{
    let mut r: String = "TRASH id=".to_owned();
    push_text(&mut r, trash_id);
    push_text(&mut r, " path=");
    let p = text_lossy(original_path);
    push_text(&mut r, p.as_str());
    push_text(&mut r, " cmd=");
    push_text(
        &mut r,
        match command {
            Some(c) => c,
            None => "-",
        },
    );
    r
}

/// What is logged of an item that was restored.
pub fn log_restore(trash_id: &str, restored_to: &[u8]) -> (r: String)
    ensures
        r@ == "RESTORE id="@ + trash_id@ + " to="@ + lossy(restored_to@),
{
    let mut r: String = "RESTORE id=".to_owned();
    push_text(&mut r, trash_id);
    push_text(&mut r, " to=");
    let p = text_lossy(restored_to);
    push_text(&mut r, p.as_str());
    r
}

/// What is logged of an item that was purged.
pub fn log_purge(trash_id: &str) -> (r: String)
    ensures
        r@ == "PURGE id="@ + trash_id@,
{
    let mut r: String = "PURGE id=".to_owned();
    push_text(&mut r, trash_id);
    r
}

/// What is logged of a trash that was emptied.
pub fn log_empty(count: u64, filter: Option<&str>) -> (r: String)
    ensures
        r@ == "EMPTY count="@ + decimal(count as nat) + " filter="@ + text_or(filter, "all"@),
{
    let mut r: String = "EMPTY count=".to_owned();
    push_decimal(&mut r, count);
    push_text(&mut r, " filter=");
    push_text(
        &mut r,
        match filter {
            Some(f) => f,
            None => "all",
        },
    );
    r
}

/// The line of the log for a message.
pub fn log_line(now: &Moment, pid: u32, message: &str) -> (r: String)
    requires
        now.valid(),
    ensures
        r@ == date_text("%Y-%m-%dT%H:%M:%S"@, now.wall(), now.nanos as int) + " pid="@ + decimal(
            pid as nat,
        ) + " "@ + message@ + "\n"@,
{
    let mut r = now.format("%Y-%m-%dT%H:%M:%S");
    push_text(&mut r, " pid=");
    push_decimal(&mut r, pid as u64);
    push_text(&mut r, " ");
    push_text(&mut r, message);
    push_text(&mut r, "\n");
    r
}

/// The last of a list, at most so many.
pub open spec fn last_of(ls: Seq<Seq<char>>, max: nat) -> Seq<Seq<char>> {
    if ls.len() <= max {
        ls
    } else {
        ls.skip(ls.len() - max)
    }
}

/// The last lines of the log, at most so many.
pub fn read_log(content: &str, max_lines: usize) -> (r: Vec<String>)
    ensures
        texts(r@) == last_of(lines(content@), max_lines as nat),
{
    let c = chars_of(content);
    let ls = lines_of(c.as_slice());
    let ghost all = views(ls@);
    let from: usize = if ls.len() <= max_lines {
        0
    } else {
        ls.len() - max_lines
    };
    assert(all.len() == ls@.len());
    let mut r: Vec<String> = Vec::new();
    let mut i: usize = from;
    assert(all.subrange(from as int, from as int) =~= seq![]);
    assert(texts(r@) =~= all.subrange(from as int, i as int));
    while i < ls.len()
        invariant
            from <= i <= ls@.len(),
            all == views(ls@),
            texts(r@) == all.subrange(from as int, i as int),
        decreases ls@.len() - i,
    {
        let ghost before = r@;
        r.push(string_of(ls[i].as_slice()));
        i += 1;
        assert(all[i - 1] == ls@[i - 1]@);
        assert(texts(r@) =~= texts(before).push(all[i - 1]));
        assert(all.subrange(from as int, i as int) =~= all.subrange(from as int, i - 1).push(
            all[i - 1],
        ));
    }
    assert(all.subrange(from as int, i as int) =~= last_of(all, max_lines as nat));
    r
}

/// Where the log is, in the home trash.
pub fn log_path(home_trash: &[u8]) -> (r: Vec<u8>)
    ensures
        r@ == joined(
            joined(home_trash@, encode_utf8(".trashd"@)),
            encode_utf8("operations.log"@),
        ),
{
    let d = join(home_trash, ".trashd".as_bytes());
    join(d.as_slice(), "operations.log".as_bytes())
}

} // verus!
