//! What the steps of a move and of a restore do to a filesystem, and what comes back.

use crate::dates::Moment;
use crate::errors::Failure;
use crate::job::{copies, recorded_path, removes_original, run, topdir_of, Kind, MoveStep, COPY_DEPTH_LIMIT};
use crate::path::{absolute, climbs, components, joined, same_path, under};
use crate::store::{data_path, destination, dir_listing, entry_of, info_dir, info_names, law_restored_where_it_stood, lemma_unlisted, record_path, restore_after, restore_copies, restore_removes, restore_run, DirContents, Entry, RestoreStep, StepOutcome};
use crate::text::texts;
use crate::trashinfo::{read_back, written, Record, TrashInfo};
use vstd::prelude::*;
use vstd::utf8::encode_utf8;

verus! {

/// An item of a filesystem, with all that is in it.
#[verifier::ext_equal]
pub enum Item {
    File { data: Seq<u8>, mode: u32 },
    Link { target: Seq<u8> },
    Fifo { mode: u32 },
    Device,
    Socket,
    Dir { mode: u32, entries: Map<Seq<u8>, Item> },
}

/// What stands at each path that is spoken of, by the components of the path.
pub type Disk = Map<Seq<Seq<u8>>, Item>;

pub open spec fn kind_of(i: Item) -> Kind {
    match i {
        Item::File { .. } => Kind::File,
        Item::Link { .. } => Kind::Symlink,
        Item::Fifo { .. } => Kind::Fifo,
        Item::Device => Kind::Device,
        Item::Socket => Kind::Socket,
        Item::Dir { .. } => Kind::Dir,
    }
}

pub open spec fn special(i: Item) -> bool {
    i is Device || i is Socket
}

/// `b` is what a copy of `a` that comes to its end leaves, from a directory at a depth: a
/// pipe gets the permissions that the mask leaves it, and what stands for a device or a
/// socket is left out of a directory. Nothing is said of a device or a socket that is
/// copied by itself.
pub open spec fn copy_of(a: Item, b: Item, depth: nat, mask: u32) -> bool
    decreases COPY_DEPTH_LIMIT + 1 - depth,
{
    match a {
        Item::File { .. } => a == b,
        Item::Link { .. } => a == b,
        Item::Fifo { mode } => b == (Item::Fifo { mode: mode & !mask }),
        Item::Device => true,
        Item::Socket => true,
        Item::Dir { mode, entries } => {
            &&& depth <= COPY_DEPTH_LIMIT
            &&& b matches Item::Dir { mode: m, entries: es } && {
                &&& m == mode
                &&& forall|n: Seq<u8>| #[trigger]
                    es.contains_key(n) <==> entries.contains_key(n) && !special(entries[n])
                &&& forall|n: Seq<u8>| #[trigger]
                    es.contains_key(n) ==> copy_of(entries[n], es[n], depth + 1, mask)
            }
        },
    }
}

/// An item that a copy keeps as it is: there is no device and no socket in it, no pipe
/// whose permissions the mask takes away, and no directory that lies too deep.
pub open spec fn plain(a: Item, depth: nat, mask: u32) -> bool
    decreases COPY_DEPTH_LIMIT + 1 - depth,
{
    match a {
        Item::File { .. } => true,
        Item::Link { .. } => true,
        Item::Fifo { mode } => mode & !mask == mode,
        Item::Device => false,
        Item::Socket => false,
        Item::Dir { entries, .. } => depth <= COPY_DEPTH_LIMIT && forall|n: Seq<u8>| #[trigger]
            entries.contains_key(n) ==> plain(entries[n], depth + 1, mask),
    }
}

/// The copy of a plain item is the item: of the same kind, with the same contents or
/// target and the same permissions, all the way down.
pub proof fn law_plain_copy(a: Item, b: Item, depth: nat, mask: u32)
    requires
        plain(a, depth, mask),
    ensures
        copy_of(a, b, depth, mask) <==> a == b,
    decreases COPY_DEPTH_LIMIT + 1 - depth,
{
    if let Item::Dir { mode, entries } = a {
        if let Item::Dir { mode: m, entries: es } = b {
            assert forall|n: Seq<u8>| entries.contains_key(n) implies (copy_of(
                #[trigger] entries[n],
                es[n],
                depth + 1,
                mask,
            ) <==> entries[n] == es[n]) && !special(entries[n]) by {
                law_plain_copy(entries[n], es[n], depth + 1, mask);
            }
            if copy_of(a, b, depth, mask) {
                assert forall|n: Seq<u8>| #[trigger] entries.contains_key(n) implies es.contains_key(
                    n,
                ) && es[n] == entries[n] by {
                    assert(!special(entries[n]));
                    assert(es.contains_key(n));
                }
                assert(es =~= entries);
            }
        }
    }
}

/// Two disks that differ at one place at most.
pub open spec fn same_but(a: Disk, b: Disk, at: Seq<Seq<u8>>) -> bool {
    a.remove(at) == b.remove(at)
}

/// A disk on which an item was renamed.
pub open spec fn renamed(d: Disk, from: Seq<Seq<u8>>, to: Seq<Seq<u8>>) -> Disk {
    d.remove(from).insert(to, d[from])
}

/// What a rename does: all or nothing.
pub open spec fn rename_made(ok: bool, a: Disk, b: Disk, from: Seq<Seq<u8>>, to: Seq<Seq<u8>>) -> bool {
    if ok {
        a.contains_key(from) && b == renamed(a, from, to)
    } else {
        b == a
    }
}

/// What a copy does; where it fails it may leave a part.
pub open spec fn copy_made(
    ok: bool,
    a: Disk,
    b: Disk,
    from: Seq<Seq<u8>>,
    to: Seq<Seq<u8>>,
    mask: u32,
) -> bool {
    &&& same_but(a, b, to)
    &&& ok ==> a.contains_key(from) && b.contains_key(to) && copy_of(a[from], b[to], 0, mask)
}

/// What a removal does; where it fails a part may be gone.
pub open spec fn removal_made(ok: bool, a: Disk, b: Disk, from: Seq<Seq<u8>>) -> bool {
    &&& same_but(a, b, from)
    &&& ok ==> !b.contains_key(from)
}

/// What a step of a move into the trash does to a disk.
pub open spec fn move_made(
    s: MoveStep,
    ok: bool,
    a: Disk,
    b: Disk,
    from: Seq<Seq<u8>>,
    to: Seq<Seq<u8>>,
    mask: u32,
) -> bool {
    if s == MoveStep::Rename {
        rename_made(ok, a, b, from, to)
    } else if copies(s) {
        copy_made(ok, a, b, from, to, mask)
    } else if removes_original(s) {
        removal_made(ok, a, b, from)
    } else {
        b == a
    }
}

/// The disks before, between and after the steps of a move, up to its end.
pub open spec fn moved_by(
    k: Kind,
    outcomes: Seq<bool>,
    disks: Seq<Disk>,
    from: Seq<Seq<u8>>,
    to: Seq<Seq<u8>>,
    mask: u32,
) -> bool
    decreases outcomes.len(),
{
    &&& disks.len() == outcomes.len() + 1
    &&& outcomes.len() > 0 ==> {
        &&& moved_by(k, outcomes.drop_last(), disks.drop_last(), from, to, mask)
        &&& move_made(
            run(k, outcomes.drop_last()),
            outcomes.last(),
            disks[disks.len() - 2],
            disks.last(),
            from,
            to,
            mask,
        )
    }
}

/// Where a move stands, by its step.
spec fn move_stands(
    s: MoveStep,
    first_ok: bool,
    a: Disk,
    b: Disk,
    from: Seq<Seq<u8>>,
    to: Seq<Seq<u8>>,
    mask: u32,
) -> bool {
    if s == MoveStep::Rename {
        b == a
    } else if copies(s) || s == MoveStep::Decline {
        !first_ok && b == a
    } else if removes_original(s) {
        !first_ok && same_but(a, b, to) && b.contains_key(to) && copy_of(a[from], b[to], 0, mask)
    } else if s == MoveStep::CleanUp {
        same_but(a, b, to)
    } else if s == MoveStep::Keep {
        b.contains_key(to) && copy_of(a[from], b[to], 0, mask) && same_but(
            a.remove(from),
            b.remove(from),
            to,
        )
    } else {
        if first_ok {
            b == renamed(a, from, to)
        } else {
            b.contains_key(to) && copy_of(a[from], b[to], 0, mask) && b == renamed(a, from, to).insert(
                to,
                b[to],
            )
        }
    }
}

proof fn lemma_move_stands(
    k: Kind,
    outcomes: Seq<bool>,
    disks: Seq<Disk>,
    from: Seq<Seq<u8>>,
    to: Seq<Seq<u8>>,
    mask: u32,
)
    requires
        moved_by(k, outcomes, disks, from, to, mask),
        disks[0].contains_key(from),
        from != to,
    ensures
        move_stands(
            run(k, outcomes),
            outcomes.len() > 0 && outcomes[0],
            disks[0],
            disks.last(),
            from,
            to,
            mask,
        ),
        run(k, outcomes) == MoveStep::Rename ==> outcomes.len() == 0,
    decreases outcomes.len(),
{
    if outcomes.len() > 0 {
        let o = outcomes.drop_last();
        let ds = disks.drop_last();
        lemma_move_stands(k, o, ds, from, to, mask);
        let s = run(k, o);
        let a = disks[0];
        let b = ds.last();
        let c = disks.last();
        assert(ds[0] == a);
        if o.len() == 0 {
            assert(outcomes[0] == outcomes.last());
        } else {
            assert(outcomes[0] == o[0]);
        }
        if copies(s) {
            assert(c.remove(to) =~= a.remove(to));
        } else if removes_original(s) {
            lemma_copied_then_removed(a, b, c, from, to);
        }
    }
}

/// A move that comes to its end puts the item into the trash as it was and changes nothing
/// else, where it was renamed or is one that a copy keeps. A move that fails leaves the
/// item where it stood; and where the item was copied but could not be removed, the copy is
/// whole.
pub proof fn law_move_keeps_item(
    k: Kind,
    outcomes: Seq<bool>,
    disks: Seq<Disk>,
    from: Seq<Seq<u8>>,
    to: Seq<Seq<u8>>,
    mask: u32,
)
    requires
        moved_by(k, outcomes, disks, from, to, mask),
        disks[0].contains_key(from),
        from != to,
    ensures
        run(k, outcomes) == MoveStep::Done && (outcomes[0] || plain(disks[0][from], 0, mask))
            ==> disks.last() == renamed(disks[0], from, to),
        run(k, outcomes) == MoveStep::CleanUp || run(k, outcomes) == MoveStep::Decline
            ==> disks.last().contains_key(from) && disks.last()[from] == disks[0][from],
        run(k, outcomes) == MoveStep::Keep && plain(disks[0][from], 0, mask)
            ==> disks.last().contains_key(to) && disks.last()[to] == disks[0][from],
{
    lemma_move_stands(k, outcomes, disks, from, to, mask);
    let a = disks[0];
    let b = disks.last();
    if plain(a[from], 0, mask) {
        law_plain_copy(a[from], b[to], 0, mask);
    }
    if run(k, outcomes) == MoveStep::Done && b[to] == a[from] {
        assert(renamed(a, from, to).insert(to, b[to]) =~= renamed(a, from, to));
    }
    if run(k, outcomes) == MoveStep::CleanUp {
        assert(a.remove(to).contains_key(from) && a.remove(to)[from] == a[from]);
        assert(b.remove(to).contains_key(from) && b.remove(to)[from] == b[from]);
    }
}

/// A move comes through where nothing but the rename fails, unless the item stands for a
/// device or a socket.
pub proof fn law_move_comes_through(k: Kind, outcomes: Seq<bool>)
    requires
        outcomes.len() >= 3,
        outcomes[0] || (k != Kind::Device && k != Kind::Socket),
        outcomes[1],
        outcomes[2],
    ensures
        run(k, outcomes) == MoveStep::Done,
    decreases outcomes.len(),
{
    reveal_with_fuel(run, 4);
    if outcomes.len() > 3 {
        law_move_comes_through(k, outcomes.drop_last());
    } else {
        assert(outcomes.drop_last().last() == outcomes[1]);
        assert(outcomes.drop_last().drop_last().last() == outcomes[0]);
    }
}

/// What a step of a move out of the trash does to a disk. The first looks whether something
/// stands at the destination.
pub open spec fn restore_made(
    s: RestoreStep,
    o: StepOutcome,
    a: Disk,
    b: Disk,
    from: Seq<Seq<u8>>,
    to: Seq<Seq<u8>>,
    mask: u32,
) -> bool {
    if s == RestoreStep::CheckFree {
        b == a && (o == StepOutcome::Fine <==> !a.contains_key(to))
    } else if s == RestoreStep::RenameFree || s == RestoreStep::Rename {
        rename_made(o == StepOutcome::Fine, a, b, from, to)
    } else if restore_copies(s) {
        copy_made(o == StepOutcome::Fine, a, b, from, to, mask)
    } else if restore_removes(s) {
        removal_made(o == StepOutcome::Fine, a, b, from)
    } else {
        b == a
    }
}

/// The disks before, between and after the steps of a restore, up to its end.
pub open spec fn restored_by(
    k: Kind,
    outcomes: Seq<StepOutcome>,
    disks: Seq<Disk>,
    from: Seq<Seq<u8>>,
    to: Seq<Seq<u8>>,
    mask: u32,
) -> bool
    decreases outcomes.len(),
{
    &&& disks.len() == outcomes.len() + 1
    &&& outcomes.len() > 0 ==> {
        &&& restored_by(k, outcomes.drop_last(), disks.drop_last(), from, to, mask)
        &&& restore_made(
            restore_run(k, outcomes.drop_last()),
            outcomes.last(),
            disks[disks.len() - 2],
            disks.last(),
            from,
            to,
            mask,
        )
    }
}

/// An item was renamed out of the trash, and not copied.
pub open spec fn renamed_out(outcomes: Seq<StepOutcome>) -> bool {
    &&& outcomes.len() >= 3
    &&& outcomes[2] == StepOutcome::Fine || (outcomes.len() >= 4 && outcomes[2]
        == StepOutcome::Unsupported && outcomes[3] == StepOutcome::Fine)
}

/// Where a restore stands, by its step.
spec fn restore_stands(
    s: RestoreStep,
    outcomes: Seq<StepOutcome>,
    a: Disk,
    b: Disk,
    from: Seq<Seq<u8>>,
    to: Seq<Seq<u8>>,
    mask: u32,
) -> bool {
    if s == RestoreStep::CheckFree {
        outcomes.len() == 0 && b == a
    } else if s == RestoreStep::MakeParent {
        outcomes.len() == 1 && b == a
    } else if s == RestoreStep::RenameFree {
        outcomes.len() == 2 && b == a
    } else if s == RestoreStep::Rename {
        outcomes.len() == 3 && outcomes[2] == StepOutcome::Unsupported && b == a
    } else if restore_copies(s) {
        &&& b == a
        &&& outcomes.len() == 3 ==> outcomes[2] == StepOutcome::Failed
        &&& outcomes.len() >= 3 && !renamed_out(outcomes)
    } else if restore_removes(s) {
        &&& outcomes.len() >= 4 && !renamed_out(outcomes)
        &&& same_but(a, b, to) && b.contains_key(to) && copy_of(a[from], b[to], 0, mask)
    } else if s == RestoreStep::Restored {
        if renamed_out(outcomes) {
            b == renamed(a, from, to)
        } else {
            &&& outcomes.len() >= 4
            &&& b.contains_key(to) && copy_of(a[from], b[to], 0, mask)
            &&& b == renamed(a, from, to).insert(to, b[to])
        }
    } else {
        s == RestoreStep::Conflict ==> b == a
    }
}

proof fn lemma_restore_stands(
    k: Kind,
    outcomes: Seq<StepOutcome>,
    disks: Seq<Disk>,
    from: Seq<Seq<u8>>,
    to: Seq<Seq<u8>>,
    mask: u32,
)
    requires
        restored_by(k, outcomes, disks, from, to, mask),
        disks[0].contains_key(from),
        from != to,
    ensures
        restore_stands(restore_run(k, outcomes), outcomes, disks[0], disks.last(), from, to, mask),
    decreases outcomes.len(),
{
    if outcomes.len() > 0 {
        let o = outcomes.drop_last();
        let ds = disks.drop_last();
        lemma_restore_stands(k, o, ds, from, to, mask);
        let s = restore_run(k, o);
        let a = disks[0];
        let b = ds.last();
        let c = disks.last();
        assert(ds[0] == a);
        assert(forall|i: int| 0 <= i < o.len() ==> o[i] == outcomes[i]);
        if restore_copies(s) {
            assert(c.remove(to) =~= a.remove(to));
        } else if restore_removes(s) {
            lemma_copied_then_removed(a, b, c, from, to);
        }
    }
}

/// What was copied and then removed was renamed, but for what the copy is.
proof fn lemma_copied_then_removed(
    a: Disk,
    b: Disk,
    c: Disk,
    from: Seq<Seq<u8>>,
    to: Seq<Seq<u8>>,
)
    requires
        a.contains_key(from),
        from != to,
        same_but(a, b, to),
        b.contains_key(to),
        same_but(b, c, from),
    ensures
        c.contains_key(to),
        c[to] == b[to],
        same_but(a.remove(from), c.remove(from), to),
        !c.contains_key(from) ==> c == renamed(a, from, to).insert(to, c[to]),
{
    assert(b.remove(from).contains_key(to) && b.remove(from)[to] == b[to]);
    assert(c.remove(from).contains_key(to) && c.remove(from)[to] == c[to]);
    assert(c.remove(from).remove(to) =~= b.remove(to).remove(from));
    assert(a.remove(to).remove(from) =~= a.remove(from).remove(to));
    if !c.contains_key(from) {
        let w = renamed(a, from, to).insert(to, c[to]);
        assert forall|q: Seq<Seq<u8>>| #[trigger] c.contains_key(q) == w.contains_key(q) && (
        c.contains_key(q) ==> c[q] == w[q]) by {
            if q != from && q != to {
                assert(c.remove(from).remove(to).contains_key(q) == c.contains_key(q));
                assert(a.remove(from).remove(to).contains_key(q) == a.contains_key(q));
                if c.contains_key(q) {
                    assert(c.remove(from).remove(to)[q] == c[q]);
                    assert(a.remove(from).remove(to)[q] == a[q]);
                }
            }
        }
        assert(c =~= w);
    }
}

/// A restore that comes to its end puts the item where it is restored to as it was and
/// changes nothing else, where it was renamed or is one that a copy keeps. One that finds
/// the destination taken changes nothing.
pub proof fn law_restore_keeps_item(
    k: Kind,
    outcomes: Seq<StepOutcome>,
    disks: Seq<Disk>,
    from: Seq<Seq<u8>>,
    to: Seq<Seq<u8>>,
    mask: u32,
)
    requires
        restored_by(k, outcomes, disks, from, to, mask),
        disks[0].contains_key(from),
        from != to,
    ensures
        restore_run(k, outcomes) == RestoreStep::Restored && (renamed_out(outcomes) || plain(
            disks[0][from],
            0,
            mask,
        )) ==> disks.last() == renamed(disks[0], from, to),
        restore_run(k, outcomes) == RestoreStep::Conflict ==> disks.last() == disks[0],
{
    lemma_restore_stands(k, outcomes, disks, from, to, mask);
    let a = disks[0];
    let b = disks.last();
    if plain(a[from], 0, mask) {
        law_plain_copy(a[from], b[to], 0, mask);
    }
    if restore_run(k, outcomes) == RestoreStep::Restored && b[to] == a[from] {
        assert(renamed(a, from, to).insert(to, b[to]) =~= renamed(a, from, to));
    }
}

/// A restore comes through where nothing but the renames fails and the destination is not
/// taken meanwhile.
pub proof fn law_restore_comes_through(k: Kind, outcomes: Seq<StepOutcome>)
    requires
        outcomes.len() >= 6,
        forall|i: int|
            0 <= i < outcomes.len() && outcomes[i] != StepOutcome::Fine ==> {
                let s = #[trigger] restore_run(k, outcomes.take(i));
                &&& s == RestoreStep::RenameFree || s == RestoreStep::Rename
                &&& outcomes[i] != StepOutcome::Taken
            },
    ensures
        restore_run(k, outcomes) == RestoreStep::Restored,
{
    reveal_with_fuel(restore_run, 2);
    assert(outcomes.take(0) =~= seq![]);
    assert(restore_run(k, outcomes.take(0)) == RestoreStep::CheckFree);
    lemma_restore_step(k, outcomes, 0);
    lemma_restore_step(k, outcomes, 1);
    lemma_restore_step(k, outcomes, 2);
    lemma_restore_step(k, outcomes, 3);
    lemma_restore_step(k, outcomes, 4);
    lemma_restore_step(k, outcomes, 5);
    lemma_restored_stays(k, outcomes, 6);
}

proof fn lemma_restore_step(k: Kind, outcomes: Seq<StepOutcome>, i: int)
    requires
        0 <= i < outcomes.len(),
    ensures
        restore_run(k, outcomes.take(i + 1)) == restore_after(
            restore_run(k, outcomes.take(i)),
            k,
            outcomes[i],
        ),
{
    assert(outcomes.take(i + 1).drop_last() =~= outcomes.take(i));
}

proof fn lemma_restored_stays(k: Kind, outcomes: Seq<StepOutcome>, i: int)
    requires
        0 <= i <= outcomes.len(),
        restore_run(k, outcomes.take(i)) == RestoreStep::Restored,
    ensures
        restore_run(k, outcomes) == RestoreStep::Restored,
    decreases outcomes.len() - i,
{
    if i < outcomes.len() {
        lemma_restore_step(k, outcomes, i);
        lemma_restored_stays(k, outcomes, i + 1);
    } else {
        assert(outcomes.take(i) =~= outcomes);
    }
}

/// What is read of a trash directory is what stands in it.
pub open spec fn read_from(disk: Disk, d: DirContents) -> bool {
    &&& forall|n: Seq<char>| #[trigger]
        texts(d.files@).contains(n) ==> disk.contains_key(components(data_path(d.trash@, n)))
    &&& forall|n: Seq<char>| #[trigger]
        info_names(d.infos@).contains(n) ==> disk.contains_key(
            components(joined(info_dir(d.trash@), encode_utf8(n))),
        )
}

/// An id without a record and without data is not listed.
pub proof fn law_gone_unlisted(
    disk: Disk,
    d: DirContents,
    id: Seq<char>,
    pattern: Option<Seq<char>>,
    now: Moment,
)
    requires
        read_from(disk, d),
        !disk.contains_key(components(data_path(d.trash@, id))),
        !disk.contains_key(components(record_path(d.trash@, id))),
    ensures
        forall|i: int|
            0 <= i < dir_listing(d, pattern, now).len() ==> (#[trigger] dir_listing(
                d,
                pattern,
                now,
            )[i]).id != id,
{
    assert(!texts(d.files@).contains(id));
    assert(!info_names(d.infos@).contains(id + ".trashinfo"@));
    lemma_unlisted(d, id, pattern, now);
}

/// What is trashed and then restored is back as it was, and so is all else: at its path
/// stands the item, of the same kind, with the same contents or target and permissions, and
/// its id is listed no more. That holds of an item that was only renamed, and of one that a
/// copy keeps.
pub proof fn law_trashed_and_restored(
    disk: Disk,
    p: Seq<u8>,
    trash: Seq<u8>,
    home: Seq<u8>,
    id: Seq<char>,
    record: Record,
    record_mode: u32,
    moves: Seq<bool>,
    moving: Seq<Disk>,
    info: TrashInfo,
    e: Entry,
    q: Seq<u8>,
    restores: Seq<StepOutcome>,
    restoring: Seq<Disk>,
    mask: u32,
)
    requires
        absolute(trash),
        absolute(p),
        !climbs(p),
        same_path(trash, home) || under(p, topdir_of(trash)),
        disk.contains_key(components(p)),
        // The id is claimed: its record is new, and there is no data of it.
        !disk.contains_key(components(record_path(trash, id))),
        record.original_path == recorded_path(trash, home, p),
        moving.len() > 0 && moving[0] == disk.insert(
            components(record_path(trash, id)),
            Item::File { data: encode_utf8(written(record)), mode: record_mode },
        ),
        !moving[0].contains_key(components(data_path(trash, id))),
        // The item is moved.
        moved_by(
            kind_of(disk[components(p)]),
            moves,
            moving,
            components(p),
            components(data_path(trash, id)),
            mask,
        ),
        run(kind_of(disk[components(p)]), moves) == MoveStep::Done,
        // Its record is read, and the entry restored to where it stood.
        read_back(record, info),
        entry_of(trash, id + ".trashinfo"@, Some(info@)) == Some(e),
        destination(e, None, home) == Ok::<Seq<u8>, Failure>(q),
        restoring.len() > 0 && restoring[0] == moving.last(),
        restored_by(
            kind_of(moving.last()[components(e.trashed_path)]),
            restores,
            restoring,
            components(e.trashed_path),
            components(q),
            mask,
        ),
        restore_run(kind_of(moving.last()[components(e.trashed_path)]), restores)
            == RestoreStep::Restored,
        plain(disk[components(p)], 0, mask) || (moves[0] && renamed_out(restores)),
    ensures
        same_path(q, p),
        restoring.last().remove(components(e.info_path)) == disk,
        forall|d: DirContents, now: Moment, i: int|
            d.trash@ == trash && read_from(disk, d) && 0 <= i < dir_listing(d, None, now).len() ==> (
            #[trigger] dir_listing(d, None, now)[i]).id != id,
{
    let at = components(p);
    let data = components(data_path(trash, id));
    let rec = components(record_path(trash, id));
    law_restored_where_it_stood(trash, home, p, id, record, info);
    assert(at != rec && at != data && rec != data);
    law_move_keeps_item(kind_of(disk[at]), moves, moving, at, data, mask);
    law_restore_keeps_item(kind_of(moving.last()[data]), restores, restoring, data, at, mask);
    assert(restoring.last().remove(rec) =~= disk);
    assert forall|d: DirContents, now: Moment, i: int|
        d.trash@ == trash && read_from(disk, d) && 0 <= i < dir_listing(d, None, now).len() implies (
    #[trigger] dir_listing(d, None, now)[i]).id != id by {
        law_gone_unlisted(disk, d, id, None, now);
    }
}

} // verus!
