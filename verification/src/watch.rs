//! what a poll of a directory watch reports.
//!
//! the file-system backend (in the companion crate) runs its own thread
//! and queues what it saw; a poll drains that queue and hands it here.
//! kinds are a deliberately small language: "create", "modify",
//! "delete", "rename", and "rescan" when events were dropped or too murky
//! to trust -- the consumer's cue to walk the tree again. a rename reports
//! both paths when the backend has them. paths are raw bytes, as unix
//! paths are.

use vstd::prelude::*;

verus! {

/// what a change was
#[derive(Copy, Clone, PartialEq, Eq, Debug, Structural)]
pub enum ChangeKind {
    Create,
    Modify,
    Delete,
    Rename,
    Rescan,
}

pub open spec fn kind_name(k: ChangeKind) -> Seq<char> {
    match k {
        ChangeKind::Create => "create"@,
        ChangeKind::Modify => "modify"@,
        ChangeKind::Delete => "delete"@,
        ChangeKind::Rename => "rename"@,
        ChangeKind::Rescan => "rescan"@,
    }
}

impl ChangeKind {
    /// the kind's word in the lua-facing language
    pub fn name(self) -> (s: &'static str)
        ensures
            s@ == kind_name(self),
    {
        match self {
            ChangeKind::Create => "create",
            ChangeKind::Modify => "modify",
            ChangeKind::Delete => "delete",
            ChangeKind::Rename => "rename",
            ChangeKind::Rescan => "rescan",
        }
    }
}

/// how the backend classified an event
#[derive(Copy, Clone, PartialEq, Eq, Debug, Structural)]
pub enum EventKind {
    Create,
    Remove,
    /// a modification that is a rename
    Rename,
    /// any other modification
    Modify,
    /// a read: nothing changed
    Access,
    /// something the backend could not classify
    Unknown,
}

/// one event of the backend
pub struct FsEvent {
    pub kind: EventKind,
    /// the backend says changes may have been missed
    pub need_rescan: bool,
    pub paths: Vec<Vec<u8>>,
}

/// one item of the backend's queue: an event, or an error (which means
/// changes may have been missed)
pub enum Received {
    Event(FsEvent),
    Error,
}

/// one reported change
pub struct Change {
    pub kind: &'static str,
    pub path: Vec<u8>,
}

/// the changes one queue item stands for, in order: a rescan of the root
/// for an error, a backend asking for one, or an event it cannot
/// classify; nothing for a read; otherwise one change per path
pub open spec fn item_changes(item: Received, root: Seq<u8>) -> Seq<(ChangeKind, Seq<u8>)> {
    match item {
        Received::Error => seq![(ChangeKind::Rescan, root)],
        Received::Event(e) => if e.need_rescan {
            seq![(ChangeKind::Rescan, root)]
        } else {
            match e.kind {
                EventKind::Access => Seq::empty(),
                EventKind::Unknown => seq![(ChangeKind::Rescan, root)],
                _ => e.paths@.map_values(|p: Vec<u8>| (event_change(e.kind), p@)),
            }
        },
    }
}

pub open spec fn event_change(k: EventKind) -> ChangeKind {
    match k {
        EventKind::Create => ChangeKind::Create,
        EventKind::Remove => ChangeKind::Delete,
        EventKind::Rename => ChangeKind::Rename,
        _ => ChangeKind::Modify,
    }
}

pub open spec fn items_changes(items: Seq<Received>, root: Seq<u8>) -> Seq<(ChangeKind, Seq<u8>)>
    decreases items.len(),
{
    if items.len() == 0 {
        Seq::empty()
    } else {
        items_changes(items.drop_last(), root) + item_changes(items.last(), root)
    }
}

/// everything a poll saw, in order: a rescan first when the queue
/// overflowed since the last poll, then each item's changes, then one
/// rescan when the backend turned out to be gone (unless it already was)
pub open spec fn poll_changes(
    root: Seq<u8>,
    overflowed: bool,
    items: Seq<Received>,
    disconnected: bool,
    dead: bool,
) -> Seq<(ChangeKind, Seq<u8>)> {
    (if overflowed {
        seq![(ChangeKind::Rescan, root)]
    } else {
        Seq::empty()
    }) + items_changes(items, root) + (if disconnected && !dead {
        seq![(ChangeKind::Rescan, root)]
    } else {
        Seq::empty()
    })
}

/// the first occurrence of each element, in order: fs activity comes in
/// bursts of duplicates, and a poll keeps one of each
pub open spec fn dedup<T>(s: Seq<T>) -> Seq<T>
    decreases s.len(),
{
    if s.len() == 0 {
        Seq::empty()
    } else {
        let d = dedup(s.drop_last());
        if d.contains(s.last()) {
            d
        } else {
            d.push(s.last())
        }
    }
}

pub open spec fn change_view(c: Change) -> (Seq<char>, Seq<u8>) {
    (c.kind@, c.path@)
}

pub open spec fn named(s: Seq<(ChangeKind, Seq<u8>)>) -> Seq<(Seq<char>, Seq<u8>)> {
    s.map_values(|e: (ChangeKind, Seq<u8>)| (kind_name(e.0), e.1))
}

pub open spec fn entry_view(e: (ChangeKind, Vec<u8>)) -> (ChangeKind, Seq<u8>) {
    (e.0, e.1@)
}

fn same_bytes(a: &Vec<u8>, b: &Vec<u8>) -> (r: bool)
    ensures
        r == (a@ == b@),
{
    if a.len() != b.len() {
        return false;
    }
    let mut i: usize = 0;
    while i < a.len()
        invariant
            i <= a@.len(),
            a@.len() == b@.len(),
            forall|k: int| 0 <= k < i ==> a@[k] == b@[k],
        decreases a@.len() - i,
    {
        if a[i] != b[i] {
            return false;
        }
        i = i + 1;
    }
    assert(a@ =~= b@);
    true
}

/// adds a change unless an equal one is already there
fn push_change(out: &mut Vec<(ChangeKind, Vec<u8>)>, kind: ChangeKind, path: Vec<u8>)
    ensures
        final(out)@.map_values(|e: (ChangeKind, Vec<u8>)| entry_view(e)) == (if old(out)@.map_values(
            |e: (ChangeKind, Vec<u8>)| entry_view(e),
        ).contains((kind, path@)) {
            old(out)@.map_values(|e: (ChangeKind, Vec<u8>)| entry_view(e))
        } else {
            old(out)@.map_values(|e: (ChangeKind, Vec<u8>)| entry_view(e)).push((kind, path@))
        }),
{
    let ghost before = out@.map_values(|e: (ChangeKind, Vec<u8>)| entry_view(e));
    let mut i: usize = 0;
    while i < out.len()
        invariant
            i <= out@.len(),
            before == out@.map_values(|e: (ChangeKind, Vec<u8>)| entry_view(e)),
            forall|k: int| 0 <= k < i ==> before[k] != (kind, path@),
        decreases out@.len() - i,
    {
        if out[i].0 == kind && same_bytes(&out[i].1, &path) {
            assert(before[i as int] == (kind, path@));
            return;
        }
        i = i + 1;
    }
    assert(!before.contains((kind, path@)));
    let ghost p = path@;
    out.push((kind, path));
    assert(out@.map_values(|e: (ChangeKind, Vec<u8>)| entry_view(e)) =~= before.push((kind, p)));
}

/// the deduplicated changes after one more item
proof fn lemma_dedup_push<T>(s: Seq<T>, x: T)
    ensures
        dedup(s.push(x)) == (if dedup(s).contains(x) {
            dedup(s)
        } else {
            dedup(s).push(x)
        }),
{
    assert(s.push(x).drop_last() =~= s);
}

/// pushes every change of one queue item
fn push_item(out: &mut Vec<(ChangeKind, Vec<u8>)>, item: &Received, root: &Vec<u8>, Ghost(seen): Ghost<Seq<(ChangeKind, Seq<u8>)>>)
    requires
        old(out)@.map_values(|e: (ChangeKind, Vec<u8>)| entry_view(e)) == dedup(seen),
    ensures
        final(out)@.map_values(|e: (ChangeKind, Vec<u8>)| entry_view(e)) == dedup(seen + item_changes(*item, root@)),
{
    let rescan = match item {
        Received::Error => true,
        Received::Event(e) => e.need_rescan || e.kind == EventKind::Unknown,
    };
    if rescan {
        proof {
            lemma_dedup_push(seen, (ChangeKind::Rescan, root@));
            assert(seen + item_changes(*item, root@) =~= seen.push((ChangeKind::Rescan, root@)));
        }
        push_change(out, ChangeKind::Rescan, root.clone());
        return;
    }
    match item {
        Received::Error => {},
        Received::Event(e) => {
            if e.kind == EventKind::Access {
                assert(seen + item_changes(*item, root@) =~= seen);
                return;
            }
            let kind = match e.kind {
                EventKind::Create => ChangeKind::Create,
                EventKind::Remove => ChangeKind::Delete,
                EventKind::Rename => ChangeKind::Rename,
                _ => ChangeKind::Modify,
            };
            let ghost all = item_changes(*item, root@);
            assert(all == e.paths@.map_values(|p: Vec<u8>| (kind, p@)));
            let mut i: usize = 0;
            while i < e.paths.len()
                invariant
                    i <= e.paths@.len(),
                    all == e.paths@.map_values(|p: Vec<u8>| (kind, p@)),
                    out@.map_values(|e: (ChangeKind, Vec<u8>)| entry_view(e)) == dedup(seen + all.take(i as int)),
                decreases e.paths@.len() - i,
            {
                proof {
                    lemma_dedup_push(seen + all.take(i as int), all[i as int]);
                    assert(seen + all.take(i + 1) =~= (seen + all.take(i as int)).push(all[i as int]));
                }
                let path = vstd::slice::slice_to_vec(e.paths[i].as_slice());
                push_change(out, kind, path);
                i = i + 1;
            }
            assert(all.take(i as int) =~= all);
        },
    }
}

/// one poll's report: every change the backend queued since the last
/// poll (`items`), each once, in the order first seen; a rescan first if
/// the queue `overflowed`, and a single rescan when the backend turned
/// out `disconnected` and was not already known to be `dead`. afterwards
/// the backend is known dead once it has disconnected
pub fn collect_changes(
    root: &Vec<u8>,
    overflowed: bool,
    items: &Vec<Received>,
    disconnected: bool,
    dead: &mut bool,
) -> (changes: Vec<Change>)
    ensures
        changes@.map_values(|c: Change| change_view(c)) == named(
            dedup(poll_changes(root@, overflowed, items@, disconnected, *old(dead))),
        ),
        *final(dead) == (*old(dead) || disconnected),
{
    let mut out: Vec<(ChangeKind, Vec<u8>)> = Vec::new();
    let ghost head: Seq<(ChangeKind, Seq<u8>)> = if overflowed {
        seq![(ChangeKind::Rescan, root@)]
    } else {
        Seq::empty()
    };
    assert(out@.map_values(|e: (ChangeKind, Vec<u8>)| entry_view(e)) =~= dedup(Seq::<(ChangeKind, Seq<u8>)>::empty()));
    if overflowed {
        proof {
            lemma_dedup_push(Seq::<(ChangeKind, Seq<u8>)>::empty(), (ChangeKind::Rescan, root@));
            assert(Seq::<(ChangeKind, Seq<u8>)>::empty().push((ChangeKind::Rescan, root@)) =~= head);
        }
        push_change(&mut out, ChangeKind::Rescan, root.clone());
    }
    let mut i: usize = 0;
    while i < items.len()
        invariant
            i <= items@.len(),
            out@.map_values(|e: (ChangeKind, Vec<u8>)| entry_view(e)) == dedup(head + items_changes(items@.take(i as int), root@)),
        decreases items@.len() - i,
    {
        proof {
            assert(items@.take(i + 1).drop_last() =~= items@.take(i as int));
            assert(head + items_changes(items@.take(i + 1), root@) =~= (head + items_changes(
                items@.take(i as int),
                root@,
            )) + item_changes(items@[i as int], root@));
        }
        push_item(&mut out, &items[i], root, Ghost(head + items_changes(items@.take(i as int), root@)));
        i = i + 1;
    }
    assert(items@.take(i as int) =~= items@);
    let ghost middle = head + items_changes(items@, root@);
    if disconnected && !*dead {
        proof {
            lemma_dedup_push(middle, (ChangeKind::Rescan, root@));
            assert(poll_changes(root@, overflowed, items@, disconnected, *old(dead)) =~= middle.push((ChangeKind::Rescan, root@)));
        }
        push_change(&mut out, ChangeKind::Rescan, root.clone());
    } else {
        assert(poll_changes(root@, overflowed, items@, disconnected, *old(dead)) =~= middle);
    }
    if disconnected {
        *dead = true;
    }
    let ghost found = out@.map_values(|e: (ChangeKind, Vec<u8>)| entry_view(e));
    let mut changes: Vec<Change> = Vec::new();
    let mut k: usize = 0;
    while k < out.len()
        invariant
            k <= out@.len(),
            found == out@.map_values(|e: (ChangeKind, Vec<u8>)| entry_view(e)),
            changes@.map_values(|c: Change| change_view(c)) == named(found.take(k as int)),
        decreases out@.len() - k,
    {
        let kind = out[k].0.name();
        let path = vstd::slice::slice_to_vec(out[k].1.as_slice());
        let ghost before = changes@;
        assert(found[k as int] == entry_view(out@[k as int]));
        assert(named(found.take(k + 1)) =~= named(found.take(k as int)).push(
            (kind_name(found[k as int].0), found[k as int].1),
        ));
        let c = Change { kind, path };
        changes.push(c);
        assert(changes@.map_values(|c: Change| change_view(c)) =~= before.map_values(
            |c: Change| change_view(c),
        ).push(change_view(c)));
        assert(changes@.map_values(|c: Change| change_view(c)) =~= named(found.take(k + 1)));
        k = k + 1;
    }
    assert(found.take(k as int) =~= found);
    changes
}

/// a poll never reports the same change twice
pub proof fn lemma_dedup_is_distinct<T>(s: Seq<T>)
    ensures
        forall|i: int, j: int| 0 <= i < j < dedup(s).len() ==> dedup(s)[i] != dedup(s)[j],
    decreases s.len(),
{
    if s.len() > 0 {
        lemma_dedup_is_distinct(s.drop_last());
        let d = dedup(s.drop_last());
        if !d.contains(s.last()) {
            assert forall|i: int| 0 <= i < d.len() implies d[i] != s.last() by {
                if d[i] == s.last() {
                    assert(d.contains(s.last()));
                }
            }
            assert(dedup(s) == d.push(s.last()));
        }
    }
}

proof fn lemma_contains_last<T>(s: Seq<T>, x: T)
    requires
        s.len() > 0,
    ensures
        s.contains(x) <==> (s.drop_last().contains(x) || s.last() == x),
{
    if s.contains(x) && s.last() != x {
        let i = choose|i: int| 0 <= i < s.len() && s[i] == x;
        assert(s.drop_last()[i] == x);
    }
    if s.drop_last().contains(x) {
        let i = choose|i: int| 0 <= i < s.drop_last().len() && s.drop_last()[i] == x;
        assert(s[i] == x);
    }
    if s.last() == x {
        assert(s[s.len() - 1] == x);
    }
}

/// nor loses one: every change seen is reported, and only those
pub proof fn lemma_dedup_keeps_every_change<T>(s: Seq<T>, x: T)
    ensures
        dedup(s).contains(x) <==> s.contains(x),
    decreases s.len(),
{
    if s.len() > 0 {
        lemma_dedup_keeps_every_change(s.drop_last(), x);
        lemma_contains_last(s, x);
        let d = dedup(s.drop_last());
        if d.contains(s.last()) {
            lemma_dedup_keeps_every_change(s.drop_last(), s.last());
        } else {
            lemma_contains_last(d.push(s.last()), x);
            assert(d.push(s.last()).drop_last() =~= d);
        }
    }
}

/// a backend that dies says "rescan" once, and a poll after that, with
/// nothing queued, reports nothing
pub proof fn lemma_a_dead_backend_rescans_once(root: Seq<u8>)
    ensures
        dedup(poll_changes(root, false, Seq::empty(), true, false)) == seq![(ChangeKind::Rescan, root)],
        dedup(poll_changes(root, false, Seq::empty(), true, true)) == Seq::<(ChangeKind, Seq<u8>)>::empty(),
{
    let once = poll_changes(root, false, Seq::empty(), true, false);
    let nothing = Seq::<(ChangeKind, Seq<u8>)>::empty();
    assert(items_changes(Seq::<Received>::empty(), root) == nothing);
    assert(once =~= seq![(ChangeKind::Rescan, root)]);
    assert(once.drop_last() =~= nothing);
    assert(dedup(nothing) == nothing);
    assert(!nothing.contains(once.last()));
    assert(nothing.push(once.last()) =~= seq![(ChangeKind::Rescan, root)]);
    assert(poll_changes(root, false, Seq::empty(), true, true) =~= nothing);
}

} // verus!
