//! What holds of the text of records and of how they are read.

use crate::dates::{date_text, date_value, Moment};
use crate::percent::{decoded_text, encoded, Alphabet};
use crate::seqs::{lemma_find_from_is, lemma_push_contains};
use crate::text::{decimal, is_control, is_whitespace, lines, opt_text, unlines, unsigned_value};
use crate::text_laws::{blank, law_trim};
use crate::trashinfo::{
    climbs_at, climbs_up, decoded_path, field, first_number, first_text, last_date, line_of, opt_line,
    reading, record_lines, stripped_text, url_path, values, written, RawInfo, Record, TrashInfo,
};
use vstd::prelude::*;

verus! {

/// A text without its control characters: none is left, no other is lost, and a text without
/// any is left alone.
pub proof fn law_stripped(s: Seq<char>, c: char)
    ensures
        stripped_text(s).contains(c) <==> s.contains(c) && !is_control(c),
        stripped_text(s.push(c)) == (if is_control(c) {
            stripped_text(s)
        } else {
            stripped_text(s).push(c)
        }),
        stripped_text(seq![]).len() == 0,
    decreases s.len(),
{
    reveal(Seq::filter);
    assert(s.push(c).drop_last() =~= s);
    if s.len() > 0 {
        let rest = s.drop_last();
        law_stripped(rest, c);
        assert(s =~= rest.push(s.last()));
        lemma_push_contains(rest, s.last(), c);
        lemma_push_contains(stripped_text(rest), s.last(), c);
    }
}

proof fn lemma_unlines(a: Seq<Seq<char>>, b: Seq<Seq<char>>)
    ensures
        unlines(a + b) == unlines(a) + unlines(b),
    decreases b.len(),
{
    if b.len() == 0 {
        assert(a + b =~= a);
        assert(unlines(a) + unlines(b) =~= unlines(a));
    } else {
        lemma_unlines(a, b.drop_last());
        assert((a + b).drop_last() =~= a + b.drop_last());
        assert(unlines(a + b) =~= unlines(a) + unlines(b));
    }
}

/// A line of the file where there is something to say, and nothing where there is not.
pub open spec fn said(name: Seq<char>, value: Option<Seq<char>>) -> Seq<char> {
    match value {
        Some(v) => name + "="@ + v + "\n"@,
        None => seq![],
    }
}

proof fn lemma_said(name: Seq<char>, value: Option<Seq<char>>)
    ensures
        unlines(opt_line(name, value)) == said(name, value),
{
    reveal_strlit("=");
    reveal_strlit("\n");
    reveal_with_fuel(unlines, 2);
    if let Some(v) = value {
        let l = line_of(name, v);
        assert(seq![l].drop_last() =~= seq![]);
        assert(unlines(seq![l]) =~= l.push('\n'));
        assert(l.push('\n') =~= name + "="@ + v + "\n"@);
    }
}

/// The text of a record, line by line: the heading, the encoded path, the local time of the
/// deletion to the second, and of the rest what is known, each under its own name.
pub proof fn law_written(r: Record)
    ensures
        written(r) == "[Trash Info]"@ + "\n"@ + said(
            "Path"@,
            Some(encoded(Alphabet::Path, r.original_path)),
        ) + said(
            "DeletionDate"@,
            Some(
                date_text(
                    "%Y-%m-%dT%H:%M:%S"@,
                    r.deletion_date.secs + r.deletion_date.offset,
                    r.deletion_date.nanos as int,
                ),
            ),
        ) + said(
            "X-Trashd-Command"@,
            match r.command {
                Some(c) => Some(stripped_text(c)),
                None => None,
            },
        ) + said(
            "X-Trashd-PID"@,
            match r.pid {
                Some(n) => Some(decimal(n as nat)),
                None => None,
            },
        ) + said(
            "X-Trashd-Size"@,
            match r.size {
                Some(n) => Some(decimal(n as nat)),
                None => None,
            },
        ) + said("X-Trashd-Hash"@, r.sha256) + said("X-Trashd-Compressed"@, r.compressed),
{
    let date = date_text(
        "%Y-%m-%dT%H:%M:%S"@,
        r.deletion_date.secs + r.deletion_date.offset,
        r.deletion_date.nanos as int,
    );
    let path = Some(encoded(Alphabet::Path, r.original_path));
    let command = match r.command {
        Some(c) => Some(stripped_text(c)),
        None => None,
    };
    let pid = match r.pid {
        Some(n) => Some(decimal(n as nat)),
        None => None,
    };
    let size = match r.size {
        Some(n) => Some(decimal(n as nat)),
        None => None,
    };
    let h = seq!["[Trash Info]"@];
    let p = opt_line("Path"@, path);
    let d = opt_line("DeletionDate"@, Some(date));
    let c = opt_line("X-Trashd-Command"@, command);
    let i = opt_line("X-Trashd-PID"@, pid);
    let s = opt_line("X-Trashd-Size"@, size);
    let x = opt_line("X-Trashd-Hash"@, r.sha256);
    let z = opt_line("X-Trashd-Compressed"@, r.compressed);
    assert(record_lines(r) =~= h + p + d + c + i + s + x + z);
    lemma_unlines(h, p);
    lemma_unlines(h + p, d);
    lemma_unlines(h + p + d, c);
    lemma_unlines(h + p + d + c, i);
    lemma_unlines(h + p + d + c + i, s);
    lemma_unlines(h + p + d + c + i + s, x);
    lemma_unlines(h + p + d + c + i + s + x, z);
    lemma_said("Path"@, path);
    lemma_said("DeletionDate"@, Some(date));
    lemma_said("X-Trashd-Command"@, command);
    lemma_said("X-Trashd-PID"@, pid);
    lemma_said("X-Trashd-Size"@, size);
    lemma_said("X-Trashd-Hash"@, r.sha256);
    lemma_said("X-Trashd-Compressed"@, r.compressed);
    reveal_strlit("\n");
    reveal_with_fuel(unlines, 2);
    assert(h.drop_last() =~= seq![]);
    assert(unlines(h) =~= "[Trash Info]"@ + "\n"@);
}

/// What is written is the text of the record.
pub proof fn law_text(info: &TrashInfo, r: String)
    requires
        info.deletion_date.valid(),
        call_ensures(TrashInfo::to_trashinfo_string, (info,), r),
    ensures
        r@ == written(info@),
{
}

/// A line is read as what stands before its first equals sign and what stands behind it,
/// each without the white space around it; a line without one says nothing.
pub proof fn law_field(
    a: Seq<char>,
    name: Seq<char>,
    b: Seq<char>,
    c: Seq<char>,
    value: Seq<char>,
    d: Seq<char>,
)
    requires
        blank(a),
        blank(b),
        blank(c),
        blank(d),
        name.len() > 0,
        !is_whitespace(name[0]),
        !is_whitespace(name.last()),
        !name.contains('='),
        value.len() > 0,
        !is_whitespace(value[0]),
        !is_whitespace(value.last()),
    ensures
        field(a + name + b + seq!['='] + c + value + d) == Some((name, value)),
        field(a + name + b) is None,
{
    let l = name + b + seq!['='] + c + value;
    let line = a + name + b + seq!['='] + c + value + d;
    assert(line =~= a + l + d);
    assert(l[0] == name[0]);
    assert(l.last() == value.last());
    law_trim(a, l, d);
    let e = (name + b).len() as int;
    assert forall|k: int| 0 <= k < e implies l[k] != '=' by {
        if k < name.len() {
            assert(l[k] == name[k]);
            assert(name.contains(name[k]));
        } else {
            assert(l[k] == b[k - name.len()]);
            assert(is_whitespace(b[k - name.len()]));
        }
    }
    assert(l[e] == '=');
    lemma_find_from_is(l, '=', 0, e);
    let none: Seq<char> = seq![];
    assert(l.take(e) =~= none + name + b);
    law_trim(none, name, b);
    assert(l.skip(e + 1) =~= c + value + none);
    law_trim(c, value, none);
    law_trim(a, name, b);
    assert forall|k: int| 0 <= k < name.len() implies name[k] != '=' by {
        assert(name.contains(name[k]));
    }
    lemma_find_from_is(name, '=', 0, name.len() as int);
}

proof fn lemma_values(ls: Seq<Seq<char>>, line: Seq<char>, n: Seq<char>, alt: Seq<char>)
    ensures
        values(ls.push(line), n, alt) == (match field(line) {
            Some((name, v)) => if name == n || name == alt {
                values(ls, n, alt).push(v)
            } else {
                values(ls, n, alt)
            },
            None => values(ls, n, alt),
        }),
{
    assert(ls.push(line).drop_last() =~= ls);
}

proof fn lemma_pushed(vals: Seq<Seq<char>>, v: Seq<char>, max: nat)
    ensures
        first_number(vals.push(v), max) == (match first_number(vals, max) {
            Some(n) => Some(n),
            None => unsigned_value(v, max),
        }),
        last_date(vals.push(v)) == (match date_value(v) {
            Some(d) => Some(d),
            None => last_date(vals),
        }),
        first_text(vals.push(v)) == (match first_text(vals) {
            Some(t) => Some(t),
            None => Some(v),
        }),
{
    assert(vals.push(v).drop_last() =~= vals);
}

proof fn lemma_names_apart()
    ensures
        "Path"@.len() == 4,
        "DeletionDate"@.len() == 12,
        "X-Trashd-Command"@.len() == 16,
        "X-Trashd-PID"@.len() == 12,
        "X-Trashd-Size"@.len() == 13,
        "X-Trashd-Hash"@.len() == 13,
        "X-Trashd-SHA256"@.len() == 15,
        "X-Trashd-Compressed"@.len() == 19,
        "DeletionDate"@ != "X-Trashd-PID"@,
        "X-Trashd-Size"@ != "X-Trashd-Hash"@,
{
    reveal_strlit("Path");
    reveal_strlit("DeletionDate");
    reveal_strlit("X-Trashd-Command");
    reveal_strlit("X-Trashd-PID");
    reveal_strlit("X-Trashd-Size");
    reveal_strlit("X-Trashd-Hash");
    reveal_strlit("X-Trashd-SHA256");
    reveal_strlit("X-Trashd-Compressed");
    assert("DeletionDate"@[0] != "X-Trashd-PID"@[0]);
    assert("X-Trashd-Size"@[9] != "X-Trashd-Hash"@[9]);
}

/// How one more line changes what a file says. A later path and a later date replace an
/// earlier one, a date only where it is one; of the other fields the first that can be read
/// counts. The hash has two names. A line of no field changes nothing.
pub proof fn law_line_read(ls: Seq<Seq<char>>, line: Seq<char>)
    ensures
        reading(seq![]).original_path is None && reading(seq![]).wall is None,
        field(line) is None ==> reading(ls.push(line)) == reading(ls),
        field(line) matches Some(f) ==> {
            let g = reading(ls);
            let h = reading(ls.push(line));
            let (n, v) = f;
            &&& h.original_path == if n == "Path"@ {
                Some(v)
            } else {
                g.original_path
            }
            &&& h.wall == if n == "DeletionDate"@ && date_value(v) is Some {
                date_value(v)
            } else {
                g.wall
            }
            &&& h.command == if n == "X-Trashd-Command"@ && g.command is None {
                Some(stripped_text(v))
            } else {
                g.command
            }
            &&& h.pid == if n == "X-Trashd-PID"@ && g.pid is None {
                unsigned_value(v, 4294967295)
            } else {
                g.pid
            }
            &&& h.size == if n == "X-Trashd-Size"@ && g.size is None {
                unsigned_value(v, 18446744073709551615)
            } else {
                g.size
            }
            &&& h.sha256 == if (n == "X-Trashd-Hash"@ || n == "X-Trashd-SHA256"@) && g.sha256 is None {
                Some(v)
            } else {
                g.sha256
            }
            &&& h.compressed == if n == "X-Trashd-Compressed"@ && g.compressed is None {
                Some(v)
            } else {
                g.compressed
            }
        },
{
    lemma_names_apart();
    lemma_values(ls, line, "Path"@, "Path"@);
    lemma_values(ls, line, "DeletionDate"@, "DeletionDate"@);
    lemma_values(ls, line, "X-Trashd-Command"@, "X-Trashd-Command"@);
    lemma_values(ls, line, "X-Trashd-PID"@, "X-Trashd-PID"@);
    lemma_values(ls, line, "X-Trashd-Size"@, "X-Trashd-Size"@);
    lemma_values(ls, line, "X-Trashd-Hash"@, "X-Trashd-SHA256"@);
    lemma_values(ls, line, "X-Trashd-Compressed"@, "X-Trashd-Compressed"@);
    if let Some((n, v)) = field(line) {
        lemma_pushed(values(ls, "DeletionDate"@, "DeletionDate"@), v, 0);
        lemma_pushed(values(ls, "X-Trashd-Command"@, "X-Trashd-Command"@), v, 0);
        lemma_pushed(values(ls, "X-Trashd-PID"@, "X-Trashd-PID"@), v, u32::MAX as nat);
        lemma_pushed(values(ls, "X-Trashd-Size"@, "X-Trashd-Size"@), v, u64::MAX as nat);
        lemma_pushed(values(ls, "X-Trashd-Hash"@, "X-Trashd-SHA256"@), v, 0);
        lemma_pushed(values(ls, "X-Trashd-Compressed"@, "X-Trashd-Compressed"@), v, 0);
    }
}

/// A text climbs where `..` stands between separators or ends, and nowhere else.
pub proof fn law_climbs(a: Seq<char>, b: Seq<char>, t: Seq<char>)
    ensures
        (a.len() == 0 || a.last() == '/') && (b.len() == 0 || b[0] == '/') ==> climbs_up(
            a + seq!['.', '.'] + b,
        ),
        climbs_up(t) ==> exists|x: Seq<char>, y: Seq<char>|
            t == #[trigger] (x.push('.').push('.') + y) && (x.len() == 0 || x.last() == '/') && (
            y.len() == 0 || y[0] == '/'),
{
    if (a.len() == 0 || a.last() == '/') && (b.len() == 0 || b[0] == '/') {
        let s = a + seq!['.', '.'] + b;
        if b.len() > 0 {
            assert(s[a.len() as int + 2] == b[0]);
        }
        assert(climbs_at(s, a.len() as int));
    }
    if climbs_up(t) {
        let i = choose|i: int| climbs_at(t, i);
        let x = t.take(i);
        let y = t.skip(i + 2);
        assert(t =~= x.push('.').push('.') + y);
    }
}

/// Only a path from the root that does not climb is read as that of a file URL; in any other
/// text, and where no URL is made of it, the escapes alone are read.
pub proof fn law_decoded_path(t: Seq<char>)
    ensures
        t.len() == 0 || t[0] != '/' || climbs_up(t) ==> decoded_path(t) == decoded_text(t),
        t.len() > 0 && t[0] == '/' && !climbs_up(t) ==> match url_path(t) {
            Some(p) => decoded_path(t) == p,
            None => decoded_path(t) == decoded_text(t),
        },
{
}

/// A record that is begun says where the item was and when it went, and nothing else.
pub proof fn law_begun(path: Vec<u8>, moment: Moment, r: TrashInfo)
    requires
        call_ensures(TrashInfo::at, (path, moment), r),
    ensures
        r@.original_path == path@,
        r@.deletion_date == moment,
        r@.command is None && r@.pid is None && r@.size is None && r@.sha256 is None,
        r@.compressed is None,
{
}

/// A reading becomes a record at the moment that its date is taken for; nothing else of it
/// changes.
pub proof fn law_placed(info: RawInfo, m: Moment, r: TrashInfo)
    requires
        call_ensures(RawInfo::place, (info, m), r),
    ensures
        r@.deletion_date == m,
        r@.original_path == info.original_path@,
        r@.command == opt_text(info.command),
        r@.pid == info.pid,
        r@.size == info.size,
        r@.sha256 == opt_text(info.sha256),
        r@.compressed == opt_text(info.compressed),
{
}

/// A file is a record where it names a path and a date, and the date is taken for a moment:
/// then and only then there is a record, at that moment.
pub proof fn law_record_read(content: &str, m: Option<Moment>, r: Option<TrashInfo>)
    requires
        call_ensures(TrashInfo::read_at, (content, m), r),
    ensures
        r is Some <==> reading(lines(content@)).original_path is Some && reading(
            lines(content@),
        ).wall is Some && m is Some,
        r matches Some(info) ==> m == Some(info.deletion_date) && (reading(
            lines(content@),
        ).original_path matches Some(p) && info.original_path@ == decoded_path(p)),
{
}

} // verus!
