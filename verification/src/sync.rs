//! Deciding what to do when a vault exists in more than one place.
//!
//! A pure function: take what this machine holds now, what the server holds
//! now, and what the two agreed on last time, and return work. Comparing two
//! snapshots can say that they differ but never which of them moved, so a
//! third is kept: local against base says whether this machine changed
//! something, remote against base says whether another one did, and only when
//! both did is there anything to resolve.
//!
//! A deletion never wins over an edit. A rename and an edit compose. Anything
//! else that both sides changed keeps this machine's version where it is and
//! writes the other one beside it.

use crate::note;
use crate::note::NoteId;
use crate::ordered;
use crate::ordered::TextMap;
use crate::paths;
use crate::text;
use vstd::prelude::*;

verus! {

// ---- the hash ----

/// A fingerprint of a note's bytes: the whole file, so a change to frontmatter
/// that nothing else would notice still syncs.
#[derive(Debug, Clone, Copy, PartialEq, Eq, PartialOrd, Ord, Hash, Structural)]
pub struct Hash(pub u64);

/// FNV-1a over some bytes.
pub open spec fn fnv(bytes: Seq<u8>) -> u64
    decreases bytes.len(),
{
    if bytes.len() == 0 {
        0xcbf29ce484222325
    } else {
        (fnv(bytes.drop_last()) ^ (bytes.last() as u64)).wrapping_mul(0x100000001b3)
    }
}

impl Hash {
    /// The fingerprint of a text.
    pub fn of(text: &str) -> (r: Self)
        ensures
            r.0 == fnv(vstd::utf8::encode_utf8(text@)),
    {
        let bytes = text.as_bytes();
        let mut hash: u64 = 0xcbf29ce484222325;
        let mut i: usize = 0;
        while i < bytes.len()
            invariant
                i <= bytes@.len(),
                hash == fnv(bytes@.take(i as int)),
            decreases bytes@.len() - i,
        {
            assert(bytes@.take(i + 1).drop_last() =~= bytes@.take(i as int));
            hash = (hash ^ (bytes[i] as u64)).wrapping_mul(0x100000001b3);
            i = i + 1;
        }
        assert(bytes@.take(bytes@.len() as int) =~= bytes@);
        Hash(hash)
    }
}

/// What one side holds: every note it has, by id, with the hash of its bytes.
pub type Snapshot = TextMap<NoteId, Hash>;

/// What a snapshot says of one id.
pub open spec fn held(side: Map<Seq<char>, Hash>, id: Seq<char>) -> Option<Hash> {
    if side.contains_key(id) {
        Some(side[id])
    } else {
        None
    }
}

fn look(side: &Snapshot, id: &NoteId) -> (r: Option<Hash>)
    ensures
        r == held(side@, id@),
{
    match side.get(id.as_str()) {
        Some(h) => Some(*h),
        None => None,
    }
}

// ---- the plan ----

/// Both sides edited the same note into different text.
#[derive(Debug, Clone, PartialEq, Eq)]
pub struct Conflict {
    /// The note as it stands here. It is left exactly where it is.
    pub id: NoteId,
    /// Where the other side's version is written, beside it.
    pub copy: NoteId,
}

impl View for Conflict {
    type V = (Seq<char>, Seq<char>);

    open spec fn view(&self) -> (Seq<char>, Seq<char>) {
        (self.id@, self.copy@)
    }
}

/// The work one pass should do. Empty in every field is the steady state.
#[derive(Debug, Clone, PartialEq, Eq)]
pub struct Plan {
    /// Send this machine's version up.
    pub push: Vec<NoteId>,
    /// Take the server's version down.
    pub pull: Vec<NoteId>,
    /// Remove locally, because another machine deleted it and nothing here
    /// disagreed.
    pub delete_local: Vec<NoteId>,
    /// Remove on the server, because this machine deleted it and nothing there
    /// disagreed.
    pub delete_remote: Vec<NoteId>,
    /// A rename another machine made, to apply here.
    pub rename_local: Vec<(NoteId, NoteId)>,
    /// Both sides changed the same note.
    pub conflicts: Vec<Conflict>,
}

/// A plan, by the texts of its ids.
#[verifier::ext_equal]
pub struct Work {
    pub push: Seq<Seq<char>>,
    pub pull: Seq<Seq<char>>,
    pub delete_local: Seq<Seq<char>>,
    pub delete_remote: Seq<Seq<char>>,
    pub rename_local: Seq<(Seq<char>, Seq<char>)>,
    pub conflicts: Seq<(Seq<char>, Seq<char>)>,
}

/// The texts of some pairs of ids.
pub open spec fn pairs(s: Seq<(NoteId, NoteId)>) -> Seq<(Seq<char>, Seq<char>)> {
    Seq::new(s.len(), |i: int| (s[i].0@, s[i].1@))
}

impl View for Plan {
    type V = Work;

    open spec fn view(&self) -> Work {
        Work {
            push: text::views(self.push@),
            pull: text::views(self.pull@),
            delete_local: text::views(self.delete_local@),
            delete_remote: text::views(self.delete_remote@),
            rename_local: pairs(self.rename_local@),
            conflicts: text::views(self.conflicts@),
        }
    }
}

/// A plan with nothing in it.
pub open spec fn nothing() -> Work {
    Work {
        push: seq![],
        pull: seq![],
        delete_local: seq![],
        delete_remote: seq![],
        rename_local: seq![],
        conflicts: seq![],
    }
}

impl Default for Plan {
    fn default() -> (r: Self)
        ensures
            r@ == nothing(),
    {
        let r = Plan {
            push: Vec::new(),
            pull: Vec::new(),
            delete_local: Vec::new(),
            delete_remote: Vec::new(),
            rename_local: Vec::new(),
            conflicts: Vec::new(),
        };
        assert(r@ =~= nothing());
        r
    }
}

impl Plan {
    /// Whether there is nothing to do.
    pub fn is_empty(&self) -> (r: bool)
        ensures
            r == (self@ == nothing()),
    {
        let r = self.push.len() == 0 && self.pull.len() == 0 && self.delete_local.len() == 0
            && self.delete_remote.len() == 0 && self.rename_local.len() == 0
            && self.conflicts.len() == 0;
        proof {
            if r {
                assert(self@ =~= nothing());
            }
            assert(self@.push.len() == self.push@.len());
            assert(self@.pull.len() == self.pull@.len());
            assert(self@.delete_local.len() == self.delete_local@.len());
            assert(self@.delete_remote.len() == self.delete_remote@.len());
            assert(self@.rename_local.len() == self.rename_local@.len());
            assert(self@.conflicts.len() == self.conflicts@.len());
        }
        r
    }

    /// How many notes this pass touches.
    pub fn len(&self) -> (n: usize)
        requires
            self@.push.len() + self@.pull.len() + self@.delete_local.len()
                + self@.delete_remote.len() + self@.rename_local.len() + self@.conflicts.len()
                <= usize::MAX,
        ensures
            n == self@.push.len() + self@.pull.len() + self@.delete_local.len()
                + self@.delete_remote.len() + self@.rename_local.len() + self@.conflicts.len(),
    {
        self.push.len() + self.pull.len() + self.delete_local.len() + self.delete_remote.len()
            + self.rename_local.len() + self.conflicts.len()
    }
}

// ---- conflict copies ----

/// The title of a conflict copy.
pub open spec fn conflict_title(id: Seq<char>, from: Seq<char>, date: Seq<char>) -> Seq<char> {
    note::title(id) + " (conflict "@ + date + " from "@ + from + ")"@
}

/// Where the other side's version of a conflicted note is written.
pub open spec fn conflict_path(id: Seq<char>, from: Seq<char>, date: Seq<char>) -> Seq<char> {
    let name = conflict_title(id, from, date) + ".md"@;
    match paths::folder(id) {
        Some(folder) if folder.len() > 0 => paths::relative(folder + seq!['/'] + name),
        _ => paths::relative(name),
    }
}

/// Where the other side's version of a conflicted note is written.
///
/// The name carries the provenance. A different title also means the copy
/// cannot steal links to the original: it is a note about a note, not a second
/// answer to the same name.
pub fn conflict_id(id: &NoteId, from: &str, date: &str) -> (r: NoteId)
    ensures
        r@ == conflict_path(id@, from@, date@),
{
    let mut name = text::chars_of(id.title());
    text::extend(&mut name, &text::chars_of(" (conflict "));
    text::extend(&mut name, &text::chars_of(date));
    text::extend(&mut name, &text::chars_of(" from "));
    text::extend(&mut name, &text::chars_of(from));
    text::extend(&mut name, &text::chars_of(")"));
    text::extend(&mut name, &text::chars_of(".md"));
    assert(name@ =~= conflict_title(id@, from@, date@) + ".md"@);
    match id.folder() {
        Some(folder) => {
            let mut path = text::chars_of(folder);
            if path.len() > 0 {
                path.push('/');
                text::extend(&mut path, &name);
                assert(path@ =~= folder@ + seq!['/'] + name@);
                NoteId::from_relative(text::string_of(&path).as_str())
            } else {
                NoteId::from_relative(text::string_of(&name).as_str())
            }
        },
        None => NoteId::from_relative(text::string_of(&name).as_str()),
    }
}

// ---- renames ----

/// Whether an id is the target of one of some renames.
pub open spec fn is_target(found: Seq<(Seq<char>, Seq<char>)>, id: Seq<char>) -> bool {
    exists|i: int| 0 <= i < found.len() && (#[trigger] found[i]).1 == id
}

/// Whether an id is the source of one of some renames.
pub open spec fn is_source(found: Seq<(Seq<char>, Seq<char>)>, id: Seq<char>) -> bool {
    exists|i: int| 0 <= i < found.len() && (#[trigger] found[i]).0 == id
}

/// Whether `to` is new in `after`, holds the content `hash`, and nothing has
/// been renamed to it yet.
pub open spec fn is_free(
    base: Map<Seq<char>, Hash>,
    after: Map<Seq<char>, Hash>,
    hash: Hash,
    found: Seq<(Seq<char>, Seq<char>)>,
    to: Seq<char>,
) -> bool {
    !base.contains_key(to) && held(after, to) == Some(hash) && !is_target(found, to)
}

/// The first of some ids that is free.
pub open spec fn first_free(
    base: Map<Seq<char>, Hash>,
    after: Map<Seq<char>, Hash>,
    hash: Hash,
    found: Seq<(Seq<char>, Seq<char>)>,
    ids: Seq<Seq<char>>,
) -> Option<Seq<char>>
    decreases ids.len(),
{
    if ids.len() == 0 {
        None
    } else {
        match first_free(base, after, hash, found, ids.drop_last()) {
            Some(to) => Some(to),
            None => if is_free(base, after, hash, found, ids.last()) {
                Some(ids.last())
            } else {
                None
            },
        }
    }
}

/// The renames among some ids of `base`, looked for in turn.
pub open spec fn renames_among(
    base: Map<Seq<char>, Hash>,
    after: Map<Seq<char>, Hash>,
    ids: Seq<Seq<char>>,
) -> Seq<(Seq<char>, Seq<char>)>
    decreases ids.len(),
{
    if ids.len() == 0 {
        seq![]
    } else {
        let found = renames_among(base, after, ids.drop_last());
        let id = ids.last();
        if after.contains_key(id) {
            found
        } else {
            match first_free(base, after, base[id], found, ordered::ascending(after.dom())) {
                Some(to) => found.push((id, to)),
                None => found,
            }
        }
    }
}

/// Notes that are gone from `after` but whose content turned up under a new id.
pub open spec fn renamed(
    base: Map<Seq<char>, Hash>,
    after: Map<Seq<char>, Hash>,
) -> Seq<(Seq<char>, Seq<char>)> {
    renames_among(base, after, ordered::ascending(base.dom()))
}

fn has_target(found: &Vec<(NoteId, NoteId)>, id: &NoteId) -> (r: bool)
    ensures
        r == is_target(pairs(found@), id@),
{
    let mut i: usize = 0;
    while i < found.len()
        invariant
            i <= found@.len(),
            forall|j: int| 0 <= j < i ==> (#[trigger] pairs(found@)[j]).1 != id@,
        decreases found@.len() - i,
    {
        if found[i].1.same(id) {
            assert(pairs(found@)[i as int].1 == id@);
            return true;
        }
        i = i + 1;
    }
    false
}

fn has_source(found: &Vec<(NoteId, NoteId)>, id: &NoteId) -> (r: bool)
    ensures
        r == is_source(pairs(found@), id@),
{
    let mut i: usize = 0;
    while i < found.len()
        invariant
            i <= found@.len(),
            forall|j: int| 0 <= j < i ==> (#[trigger] pairs(found@)[j]).0 != id@,
        decreases found@.len() - i,
    {
        if found[i].0.same(id) {
            assert(pairs(found@)[i as int].0 == id@);
            return true;
        }
        i = i + 1;
    }
    false
}

fn find_free(base: &Snapshot, after: &Snapshot, hash: Hash, found: &Vec<(NoteId, NoteId)>) -> (r:
    Option<NoteId>)
    ensures
        match r {
            Some(to) => first_free(
                base@,
                after@,
                hash,
                pairs(found@),
                ordered::ascending(after@.dom()),
            ) == Some(to@),
            None => first_free(
                base@,
                after@,
                hash,
                pairs(found@),
                ordered::ascending(after@.dom()),
            ) is None,
        },
{
    let n = after.len();
    let ghost ids = ordered::ascending(after@.dom());
    let ghost mut answer: Option<Seq<char>> = None;
    let mut r: Option<NoteId> = None;
    let mut i: usize = 0;
    while i < n
        invariant
            i <= n == ids.len(),
            ids == ordered::ascending(after@.dom()),
            answer == first_free(base@, after@, hash, pairs(found@), ids.take(i as int)),
            match r {
                Some(to) => answer == Some(to@),
                None => answer is None,
            },
        decreases n - i,
    {
        assert(ids.take(i + 1).drop_last() =~= ids.take(i as int));
        if r.is_none() {
            let to = after.key(i);
            if !base.contains(to.as_str()) && *after.value(i) == hash && !has_target(found, to) {
                r = Some(to.clone());
            }
        }
        proof {
            answer = first_free(base@, after@, hash, pairs(found@), ids.take(i + 1));
        }
        i = i + 1;
    }
    assert(ids.take(n as int) =~= ids);
    r
}

/// Notes that are gone from `after` but whose content turned up under a new id.
///
/// Two notes with identical text renamed at once cannot be told apart. The
/// first free candidate is as good as any, and the content is the same either
/// way.
pub fn renames(base: &Snapshot, after: &Snapshot) -> (found: Vec<(NoteId, NoteId)>)
    ensures
        pairs(found@) == renamed(base@, after@),
{
    let mut found: Vec<(NoteId, NoteId)> = Vec::new();
    let n = base.len();
    let ghost ids = ordered::ascending(base@.dom());
    let mut i: usize = 0;
    assert(pairs(found@) =~= renames_among(base@, after@, ids.take(0)));
    while i < n
        invariant
            i <= n == ids.len(),
            ids == ordered::ascending(base@.dom()),
            pairs(found@) == renames_among(base@, after@, ids.take(i as int)),
        decreases n - i,
    {
        assert(ids.take(i + 1).drop_last() =~= ids.take(i as int));
        let id = base.key(i);
        if !after.contains(id.as_str()) {
            let hash = *base.value(i);
            let ghost before = pairs(found@);
            match find_free(base, after, hash, &found) {
                Some(to) => {
                    let ghost target = to@;
                    found.push((id.clone(), to));
                    assert(pairs(found@) =~= before.push((id@, target)));
                },
                None => {},
            }
        }
        i = i + 1;
    }
    assert(ids.take(n as int) =~= ids);
    found
}

// ---- one pass ----

/// The renames another machine made that this one did not also make: a rename
/// of the same note on both sides is left to the comparison of ids.
pub open spec fn carried(
    there: Seq<(Seq<char>, Seq<char>)>,
    here: Seq<(Seq<char>, Seq<char>)>,
) -> Seq<(Seq<char>, Seq<char>)>
    decreases there.len(),
{
    if there.len() == 0 {
        seq![]
    } else {
        let before = carried(there.drop_last(), here);
        if is_source(here, there.last().0) {
            before
        } else {
            before.push(there.last())
        }
    }
}

/// The new names this machine gave that the other side has not seen yet.
pub open spec fn announced(
    here: Seq<(Seq<char>, Seq<char>)>,
    remote: Map<Seq<char>, Hash>,
) -> Seq<Seq<char>>
    decreases here.len(),
{
    if here.len() == 0 {
        seq![]
    } else {
        let before = announced(here.drop_last(), remote);
        if remote.contains_key(here.last().1) {
            before
        } else {
            before.push(here.last().1)
        }
    }
}

/// Whether the other side changed a note it still holds.
pub open spec fn edited_there(
    base: Map<Seq<char>, Hash>,
    remote: Map<Seq<char>, Hash>,
    id: Seq<char>,
) -> bool {
    remote.contains_key(id) && held(base, id) != held(remote, id)
}

/// The old names this machine gave up that the other side still holds as they
/// were.
pub open spec fn retired(
    base: Map<Seq<char>, Hash>,
    here: Seq<(Seq<char>, Seq<char>)>,
    remote: Map<Seq<char>, Hash>,
) -> Seq<Seq<char>>
    decreases here.len(),
{
    if here.len() == 0 {
        seq![]
    } else {
        let before = retired(base, here.drop_last(), remote);
        let id = here.last().0;
        if remote.contains_key(id) && !edited_there(base, remote, id) {
            before.push(id)
        } else {
            before
        }
    }
}

/// Whether the renames account for an id. A note renamed here and edited there
/// is still open under its old name: the edit comes down.
pub open spec fn is_settled(
    base: Map<Seq<char>, Hash>,
    remote: Map<Seq<char>, Hash>,
    moved_here: Seq<(Seq<char>, Seq<char>)>,
    moved_there: Seq<(Seq<char>, Seq<char>)>,
    id: Seq<char>,
) -> bool {
    ||| is_source(carried(moved_there, moved_here), id)
    ||| is_target(carried(moved_there, moved_here), id)
    ||| is_target(moved_here, id)
    ||| is_source(moved_here, id) && !edited_there(base, remote, id)
}

/// What becomes of one id.
#[derive(Debug, Clone, Copy, PartialEq, Eq, Structural)]
pub enum Fate {
    /// Both sides agree.
    Keep,
    /// This machine's version goes up.
    Push,
    /// The other side's version comes down.
    Pull,
    /// It is removed here.
    DeleteLocal,
    /// It is removed there.
    DeleteRemote,
    /// Both versions are kept.
    Conflict,
}

/// What becomes of an id that was `was` and is now `here` and `there`.
pub open spec fn fate(was: Option<Hash>, here: Option<Hash>, there: Option<Hash>) -> Fate {
    if here == there {
        Fate::Keep
    } else if there == was {
        if here is Some {
            Fate::Push
        } else {
            Fate::DeleteRemote
        }
    } else if here == was {
        if there is Some {
            Fate::Pull
        } else {
            Fate::DeleteLocal
        }
    } else if here is None {
        Fate::Pull
    } else if there is None {
        Fate::Push
    } else {
        Fate::Conflict
    }
}

fn same_hash(a: Option<Hash>, b: Option<Hash>) -> (r: bool)
    ensures
        r == (a == b),
{
    match (a, b) {
        (Some(x), Some(y)) => x == y,
        (None, None) => true,
        _ => false,
    }
}

fn fate_of(was: Option<Hash>, here: Option<Hash>, there: Option<Hash>) -> (r: Fate)
    ensures
        r == fate(was, here, there),
{
    let changed_here = !same_hash(here, was);
    let changed_there = !same_hash(there, was);
    match (changed_here, changed_there) {
        (false, false) => Fate::Keep,
        (true, false) => match here {
            Some(_) => Fate::Push,
            None => Fate::DeleteRemote,
        },
        (false, true) => match there {
            Some(_) => Fate::Pull,
            None => Fate::DeleteLocal,
        },
        (true, true) => match (here, there) {
            (Some(a), Some(b)) => if a == b {
                Fate::Keep
            } else {
                Fate::Conflict
            },
            (None, Some(_)) => Fate::Pull,
            (Some(_), None) => Fate::Push,
            (None, None) => Fate::Keep,
        },
    }
}

/// A plan with the fate of one more id in it.
pub open spec fn with_fate(
    work: Work,
    fate: Fate,
    id: Seq<char>,
    from: Seq<char>,
    date: Seq<char>,
) -> Work {
    match fate {
        Fate::Keep => work,
        Fate::Push => Work { push: work.push.push(id), ..work },
        Fate::Pull => Work { pull: work.pull.push(id), ..work },
        Fate::DeleteLocal => Work { delete_local: work.delete_local.push(id), ..work },
        Fate::DeleteRemote => Work { delete_remote: work.delete_remote.push(id), ..work },
        Fate::Conflict => Work {
            conflicts: work.conflicts.push((id, conflict_path(id, from, date))),
            ..work
        },
    }
}

/// The plan once the renames are in it.
pub open spec fn opening(
    base: Map<Seq<char>, Hash>,
    local: Map<Seq<char>, Hash>,
    remote: Map<Seq<char>, Hash>,
) -> Work {
    Work {
        rename_local: carried(renamed(base, remote), renamed(base, local)),
        push: announced(renamed(base, local), remote),
        delete_remote: retired(base, renamed(base, local), remote),
        ..nothing()
    }
}

/// The plan once some ids have been looked at.
pub open spec fn walked(
    base: Map<Seq<char>, Hash>,
    local: Map<Seq<char>, Hash>,
    remote: Map<Seq<char>, Hash>,
    from: Seq<char>,
    date: Seq<char>,
    ids: Seq<Seq<char>>,
) -> Work
    decreases ids.len(),
{
    if ids.len() == 0 {
        opening(base, local, remote)
    } else {
        let before = walked(base, local, remote, from, date, ids.drop_last());
        let id = ids.last();
        if is_settled(base, remote, renamed(base, local), renamed(base, remote), id) {
            before
        } else {
            with_fate(
                before,
                fate(held(base, id), held(local, id), held(remote, id)),
                id,
                from,
                date,
            )
        }
    }
}

/// Every id that any of the three snapshots holds.
pub open spec fn all_ids(
    base: Map<Seq<char>, Hash>,
    local: Map<Seq<char>, Hash>,
    remote: Map<Seq<char>, Hash>,
) -> Set<Seq<char>> {
    base.dom().union(local.dom()).union(remote.dom())
}

/// What one pass should do.
pub open spec fn planned(
    base: Map<Seq<char>, Hash>,
    local: Map<Seq<char>, Hash>,
    remote: Map<Seq<char>, Hash>,
    from: Seq<char>,
    date: Seq<char>,
) -> Work {
    walked(
        base,
        local,
        remote,
        from,
        date,
        ordered::ascending(all_ids(base, local, remote)),
    )
}

fn gather(ids: &mut TextMap<NoteId, ()>, side: &Snapshot)
    ensures
        final(ids)@.dom() == old(ids)@.dom().union(side@.dom()),
{
    let n = side.len();
    let ghost all = ordered::ascending(side@.dom());
    proof {
        ordered::lemma_ascending(side@.dom());
    }
    let mut i: usize = 0;
    assert(ids@.dom() =~= old(ids)@.dom().union(all.take(0).to_set()));
    while i < n
        invariant
            i <= n == all.len(),
            all == ordered::ascending(side@.dom()),
            ids@.dom() == old(ids)@.dom().union(all.take(i as int).to_set()),
        decreases n - i,
    {
        let id = side.key(i);
        proof {
            let a = all.take(i as int);
            let b = all.take(i + 1);
            assert(b =~= a.push(id@));
            assert(b.to_set() =~= a.to_set().insert(id@)) by {
                assert forall|t: Seq<char>| b.to_set().contains(t) == a.to_set().insert(
                    id@,
                ).contains(t) by {
                    if a.to_set().contains(t) {
                        let k = choose|k: int| 0 <= k < a.len() && a[k] == t;
                        assert(b[k] == t);
                    }
                    assert(b[i as int] == id@);
                    if b.to_set().contains(t) {
                        let k = choose|k: int| 0 <= k < b.len() && b[k] == t;
                        if k < i {
                            assert(a[k] == t);
                        }
                    }
                }
            }
        }
        ids.insert(id.clone(), ());
        assert(ids@.dom() =~= old(ids)@.dom().union(all.take(i + 1).to_set()));
        i = i + 1;
    }
    assert(all.take(n as int) =~= all);
}

/// Decide what one pass should do.
///
/// `base` is what the two sides agreed on at the end of the last pass. An
/// empty one is a first pass, where everything on both sides is new to the
/// other.
pub fn plan(base: &Snapshot, local: &Snapshot, remote: &Snapshot, from: &str, date: &str) -> (r:
    Plan)
    ensures
        r@ == planned(base@, local@, remote@, from@, date@),
{
    let mut plan = Plan::default();
    let moved_here = renames(base, local);
    let moved_there = renames(base, remote);
    let ghost here = pairs(moved_here@);
    let ghost there = pairs(moved_there@);

    let mut i: usize = 0;
    while i < moved_there.len()
        invariant
            i <= moved_there@.len(),
            here == pairs(moved_here@),
            there == pairs(moved_there@),
            plan@ == (Work { rename_local: carried(there.take(i as int), here), ..nothing() }),
        decreases moved_there@.len() - i,
    {
        assert(there.take(i + 1).drop_last() =~= there.take(i as int));
        let (old_id, new_id) = &moved_there[i];
        let ghost before = plan@;
        if !has_source(&moved_here, old_id) {
            plan.rename_local.push((old_id.clone(), new_id.clone()));
            assert(plan@ =~= (Work {
                rename_local: before.rename_local.push(there[i as int]),
                ..before
            }));
        }
        i = i + 1;
    }
    assert(there.take(there.len() as int) =~= there);
    let ghost renames_done = plan@.rename_local;

    let mut i: usize = 0;
    while i < moved_here.len()
        invariant
            i <= moved_here@.len(),
            here == pairs(moved_here@),
            plan@ == (Work {
                rename_local: renames_done,
                push: announced(here.take(i as int), remote@),
                delete_remote: retired(base@, here.take(i as int), remote@),
                ..nothing()
            }),
        decreases moved_here@.len() - i,
    {
        assert(here.take(i + 1).drop_last() =~= here.take(i as int));
        let (old_id, new_id) = &moved_here[i];
        let ghost before = plan@;
        if !remote.contains(new_id.as_str()) {
            plan.push.push(new_id.clone());
            assert(plan@ =~= (Work { push: before.push.push(here[i as int].1), ..before }));
        }
        let ghost before = plan@;
        if remote.contains(old_id.as_str()) && same_hash(look(base, old_id), look(remote, old_id)) {
            plan.delete_remote.push(old_id.clone());
            assert(plan@ =~= (Work {
                delete_remote: before.delete_remote.push(here[i as int].0),
                ..before
            }));
        }
        i = i + 1;
    }
    assert(here.take(here.len() as int) =~= here);

    let mut ids: TextMap<NoteId, ()> = TextMap::new();
    gather(&mut ids, base);
    gather(&mut ids, local);
    gather(&mut ids, remote);
    assert(ids@.dom() =~= all_ids(base@, local@, remote@));
    let ghost order = ordered::ascending(ids@.dom());
    let n = ids.len();
    let mut i: usize = 0;
    assert(plan@ =~= walked(base@, local@, remote@, from@, date@, order.take(0)));
    while i < n
        invariant
            i <= n == order.len(),
            order == ordered::ascending(ids@.dom()),
            here == pairs(moved_here@),
            here == renamed(base@, local@),
            there == renamed(base@, remote@),
            renames_done == carried(there, here),
            plan@.rename_local == renames_done,
            plan@ == walked(base@, local@, remote@, from@, date@, order.take(i as int)),
        decreases n - i,
    {
        assert(order.take(i + 1).drop_last() =~= order.take(i as int));
        let id = ids.key(i);
        let was = look(base, id);
        let is_here = look(local, id);
        let is_there = look(remote, id);
        let edited = is_there.is_some() && !same_hash(was, is_there);
        let settled = has_source(&plan.rename_local, id) || has_target(&plan.rename_local, id)
            || has_target(&moved_here, id) || (has_source(&moved_here, id) && !edited);
        let ghost before = plan@;
        if !settled {
            let f = fate_of(was, is_here, is_there);
            match f {
                Fate::Keep => {},
                Fate::Push => {
                    plan.push.push(id.clone());
                },
                Fate::Pull => {
                    plan.pull.push(id.clone());
                },
                Fate::DeleteLocal => {
                    plan.delete_local.push(id.clone());
                },
                Fate::DeleteRemote => {
                    plan.delete_remote.push(id.clone());
                },
                Fate::Conflict => {
                    plan.conflicts.push(
                        Conflict { id: id.clone(), copy: conflict_id(id, from, date) },
                    );
                },
            }
            assert(plan@ =~= with_fate(before, f, id@, from@, date@));
        }
        i = i + 1;
    }
    assert(order.take(n as int) =~= order);
    plan
}

// ---- what holds of every hash ----

/// Every byte of a text counts in its hash, whatever byte it is: the hash of
/// nothing is the offset basis, and one more byte takes the hash, xors the byte
/// into it and multiplies by the prime, modulo two to the sixty-fourth.
pub proof fn lemma_every_byte_counts(bytes: Seq<u8>, byte: u8)
    ensures
        fnv(Seq::<u8>::empty()) == 0xcbf29ce484222325u64,
        fnv(bytes.push(byte)) as int == ((fnv(bytes) ^ (byte as u64)) as int * 0x100000001b3)
            % 0x1_0000_0000_0000_0000,
{
    assert(bytes.push(byte).drop_last() =~= bytes);
    assert(bytes.push(byte).last() == byte);
}

proof fn lemma_multiplied_apart(x: u64, y: u64)
    requires
        x != y,
    ensures
        (x as int * 0x100000001b3) % 0x1_0000_0000_0000_0000 != (y as int * 0x100000001b3)
            % 0x1_0000_0000_0000_0000,
{
    let m: int = 0x1_0000_0000_0000_0000;
    let p: int = 0x100000001b3;
    if (x as int * p) % m == (y as int * p) % m {
        let d = x as int - y as int;
        let k = (x as int * p) / m - (y as int * p) / m;
        assert(d * p == k * m);
        let e = k * 0xce965057aff6957b - 887285111055 * d;
        assert(d == m * e);
    }
}

proof fn lemma_step_apart(g: u64, h: u64, a: u8, b: u8)
    requires
        (g == h) != (a == b),
    ensures
        ((g ^ (a as u64)) as int * 0x100000001b3) % 0x1_0000_0000_0000_0000 != ((h ^ (
        b as u64)) as int * 0x100000001b3) % 0x1_0000_0000_0000_0000,
{
    let x = g ^ (a as u64);
    let y = h ^ (b as u64);
    let c = a as u64;
    let d = b as u64;
    if g == h {
        assert(c != d ==> g ^ c != g ^ d) by (bit_vector);
    } else {
        assert(g != h ==> g ^ c != h ^ c) by (bit_vector);
    }
    lemma_multiplied_apart(x, y);
}

/// Two files of one length that differ in a single byte have different hashes,
/// wherever it stands and whatever the two bytes are.
pub proof fn lemma_one_byte_makes_a_difference(a: Seq<u8>, b: Seq<u8>, at: int)
    requires
        a.len() == b.len(),
        0 <= at < a.len(),
        a[at] != b[at],
        forall|i: int| 0 <= i < a.len() && i != at ==> a[i] == b[i],
    ensures
        fnv(a) != fnv(b),
    decreases a.len(),
{
    let c = a.drop_last();
    let d = b.drop_last();
    assert(a =~= c.push(a.last()));
    assert(b =~= d.push(b.last()));
    lemma_every_byte_counts(c, a.last());
    lemma_every_byte_counts(d, b.last());
    if at == a.len() - 1 {
        assert(c =~= d);
        lemma_step_apart(fnv(c), fnv(d), a.last(), b.last());
    } else {
        assert(a.last() == b.last());
        lemma_one_byte_makes_a_difference(c, d, at);
        lemma_step_apart(fnv(c), fnv(d), a.last(), b.last());
    }
}

/// Files with different hashes keep them different whatever is appended to
/// both.
pub proof fn lemma_what_follows_keeps_files_apart(a: Seq<u8>, b: Seq<u8>, more: Seq<u8>)
    requires
        fnv(a) != fnv(b),
    ensures
        fnv(a + more) != fnv(b + more),
    decreases more.len(),
{
    if more.len() == 0 {
        assert(a + more =~= a);
        assert(b + more =~= b);
    } else {
        let rest = more.drop_last();
        let last = more.last();
        lemma_what_follows_keeps_files_apart(a, b, rest);
        lemma_every_byte_counts(a + rest, last);
        lemma_every_byte_counts(b + rest, last);
        assert(a + more =~= (a + rest).push(last));
        assert(b + more =~= (b + rest).push(last));
        lemma_step_apart(fnv(a + rest), fnv(b + rest), last, last);
    }
}

// ---- what holds of every rename ----

/// Whether some renames are sound: each takes a note that is gone to a new
/// note with its content, and no note is renamed or arrived at twice.
pub open spec fn is_sound(
    base: Map<Seq<char>, Hash>,
    after: Map<Seq<char>, Hash>,
    found: Seq<(Seq<char>, Seq<char>)>,
) -> bool {
    &&& forall|i: int|
        0 <= i < found.len() ==> {
            let (old_id, new_id) = #[trigger] found[i];
            &&& base.contains_key(old_id)
            &&& !after.contains_key(old_id)
            &&& !base.contains_key(new_id)
            &&& held(after, new_id) == Some(base[old_id])
        }
    &&& forall|i: int, j: int|
        0 <= i < j < found.len() ==> (#[trigger] found[i]).0 != (#[trigger] found[j]).0
            && found[i].1 != found[j].1
}

proof fn lemma_first_free(
    base: Map<Seq<char>, Hash>,
    after: Map<Seq<char>, Hash>,
    hash: Hash,
    found: Seq<(Seq<char>, Seq<char>)>,
    ids: Seq<Seq<char>>,
)
    ensures
        match first_free(base, after, hash, found, ids) {
            Some(to) => is_free(base, after, hash, found, to),
            None => forall|i: int|
                0 <= i < ids.len() ==> !is_free(base, after, hash, found, #[trigger] ids[i]),
        },
    decreases ids.len(),
{
    if ids.len() > 0 {
        lemma_first_free(base, after, hash, found, ids.drop_last());
        if first_free(base, after, hash, found, ids) is None {
            assert forall|i: int| 0 <= i < ids.len() implies !is_free(
                base,
                after,
                hash,
                found,
                #[trigger] ids[i],
            ) by {
                if i < ids.len() - 1 {
                    assert(ids.drop_last()[i] == ids[i]);
                }
            }
        }
    }
}

proof fn lemma_renames_among(
    base: Map<Seq<char>, Hash>,
    after: Map<Seq<char>, Hash>,
    ids: Seq<Seq<char>>,
)
    requires
        after.dom().finite(),
        ids.no_duplicates(),
        forall|i: int| 0 <= i < ids.len() ==> base.contains_key(#[trigger] ids[i]),
    ensures
        is_sound(base, after, renames_among(base, after, ids)),
        forall|id: Seq<char>|
            is_source(renames_among(base, after, ids), id) ==> #[trigger] ids.contains(id),
        forall|id: Seq<char>, to: Seq<char>|
            #![trigger ids.contains(id), after.contains_key(to)]
            ids.contains(id) && !after.contains_key(id) && !is_source(
                renames_among(base, after, ids),
                id,
            ) ==> !is_free(base, after, base[id], renames_among(base, after, ids), to),
    decreases ids.len(),
{
    let found = renames_among(base, after, ids);
    if ids.len() > 0 {
        let rest = ids.drop_last();
        let id = ids.last();
        assert forall|i: int| 0 <= i < rest.len() implies base.contains_key(
            #[trigger] rest[i],
        ) by {
            assert(rest[i] == ids[i]);
        }
        lemma_renames_among(base, after, rest);
        let before = renames_among(base, after, rest);
        let news = ordered::ascending(after.dom());
        ordered::lemma_ascending(after.dom());
        lemma_first_free(base, after, base[id], before, news);
        assert(!rest.contains(id));
        assert forall|t: Seq<char>| #[trigger] ids.contains(t) implies t == id || rest.contains(
            t,
        ) by {
            let k = choose|k: int| 0 <= k < ids.len() && ids[k] == t;
            if k < rest.len() {
                assert(rest[k] == t);
            }
        }
        assert forall|t: Seq<char>| rest.contains(t) implies #[trigger] ids.contains(t) by {
            let k = choose|k: int| 0 <= k < rest.len() && rest[k] == t;
            assert(ids[k] == t);
        }
        assert(ids[ids.len() - 1] == id);
        if !after.contains_key(id) && first_free(base, after, base[id], before, news) is Some {
            let to = first_free(base, after, base[id], before, news)->0;
            assert(found == before.push((id, to)));
            assert forall|i: int, j: int| 0 <= i < j < found.len() implies (#[trigger] found[i]).0
                != (#[trigger] found[j]).0 && found[i].1 != found[j].1 by {
                assert(found[i] == before[i]);
                if j < before.len() {
                    assert(found[j] == before[j]);
                } else {
                    assert(is_source(before, before[i].0));
                    assert(rest.contains(before[i].0));
                    if before[i].1 == to {
                        assert(is_target(before, to));
                    }
                }
            }
            assert forall|t: Seq<char>| is_source(found, t) implies #[trigger] ids.contains(t) by {
                let i = choose|i: int| 0 <= i < found.len() && (#[trigger] found[i]).0 == t;
                if i < before.len() {
                    assert(before[i].0 == t);
                    assert(is_source(before, t));
                    assert(rest.contains(t));
                }
            }
            assert forall|t: Seq<char>, u: Seq<char>|
                #![trigger ids.contains(t), after.contains_key(u)]
                ids.contains(t) && !after.contains_key(t) && !is_source(found, t) implies !is_free(
                base,
                after,
                base[t],
                found,
                u,
            ) by {
                assert(found[before.len() as int] == (id, to));
                assert(t != id);
                assert(rest.contains(t));
                if is_source(before, t) {
                    let i = choose|i: int| 0 <= i < before.len() && (#[trigger] before[i]).0 == t;
                    assert(found[i].0 == t);
                }
                assert(!is_free(base, after, base[t], before, u)) by {
                    let _ = after.contains_key(u);
                }
                if is_target(before, u) {
                    let i = choose|i: int| 0 <= i < before.len() && (#[trigger] before[i]).1 == u;
                    assert(found[i].1 == u);
                }
            }
        } else {
            assert(found == before);
            assert forall|t: Seq<char>, u: Seq<char>|
                #![trigger ids.contains(t), after.contains_key(u)]
                ids.contains(t) && !after.contains_key(t) && !is_source(found, t) implies !is_free(
                base,
                after,
                base[t],
                found,
                u,
            ) by {
                if t == id {
                    if after.contains_key(u) {
                        assert(news.to_set().contains(u));
                        let k = choose|k: int| 0 <= k < news.len() && news[k] == u;
                        assert(!is_free(base, after, base[id], before, news[k]));
                    }
                } else {
                    assert(rest.contains(t));
                }
            }
        }
    }
}

/// Every rename that is found takes a note that is gone to a new note with the
/// same content, and no two share a source or a target.
pub proof fn lemma_renames_are_sound(base: Map<Seq<char>, Hash>, after: Map<Seq<char>, Hash>)
    requires
        base.dom().finite(),
        after.dom().finite(),
    ensures
        is_sound(base, after, renamed(base, after)),
{
    lemma_base_ids(base);
    lemma_renames_among(base, after, ordered::ascending(base.dom()));
}

/// A note that is gone and was not renamed left no content that some rename
/// does not already account for: none is read as deleted while its text waits
/// under a new name.
pub proof fn lemma_renames_are_complete(
    base: Map<Seq<char>, Hash>,
    after: Map<Seq<char>, Hash>,
    id: Seq<char>,
    to: Seq<char>,
)
    requires
        base.dom().finite(),
        after.dom().finite(),
        base.contains_key(id),
        !after.contains_key(id),
        !is_source(renamed(base, after), id),
        !base.contains_key(to),
        held(after, to) == Some(base[id]),
    ensures
        is_target(renamed(base, after), to),
{
    lemma_base_ids(base);
    let ids = ordered::ascending(base.dom());
    lemma_renames_among(base, after, ids);
    ordered::lemma_ascending(base.dom());
    assert(ids.to_set().contains(id));
    assert(ids.contains(id));
    let _ = after.contains_key(to);
    assert(!is_free(base, after, base[id], renamed(base, after), to));
}

proof fn lemma_base_ids(base: Map<Seq<char>, Hash>)
    requires
        base.dom().finite(),
    ensures
        ordered::ascending(base.dom()).no_duplicates(),
        forall|i: int|
            0 <= i < ordered::ascending(base.dom()).len() ==> base.contains_key(
                #[trigger] ordered::ascending(base.dom())[i],
            ),
{
    let ids = ordered::ascending(base.dom());
    ordered::lemma_ascending_apart(base.dom());
    assert forall|i: int| 0 <= i < ids.len() implies base.contains_key(#[trigger] ids[i]) by {
        assert(ids.contains(ids[i]));
    }
}

/// Renames are looked for in the order of the old ids, and of several notes
/// with one content the first goes to the first: among renames of the same
/// content the new ids are in order too, and a new note that nothing was
/// renamed to comes behind those that something was.
pub proof fn lemma_renames_keep_the_order(base: Map<Seq<char>, Hash>, after: Map<Seq<char>, Hash>)
    requires
        base.dom().finite(),
        after.dom().finite(),
    ensures
        ({
            let found = renamed(base, after);
            &&& forall|i: int, j: int|
                0 <= i < j < found.len() ==> ordered::precedes(
                    (#[trigger] found[i]).0,
                    (#[trigger] found[j]).0,
                ) && (base[found[i].0] == base[found[j].0] ==> ordered::precedes(
                    found[i].1,
                    found[j].1,
                ))
            &&& forall|i: int, to: Seq<char>|
                #![trigger found[i], after.contains_key(to)]
                0 <= i < found.len() && after.contains_key(to) && !base.contains_key(to)
                    && after[to] == base[found[i].0] && !is_target(found, to) ==> ordered::precedes(
                    found[i].1,
                    to,
                )
        }),
{
    lemma_base_ids(base);
    ordered::lemma_ascending(base.dom());
    lemma_renames_among_order(base, after, ordered::ascending(base.dom()));
}

proof fn lemma_renames_among_order(
    base: Map<Seq<char>, Hash>,
    after: Map<Seq<char>, Hash>,
    ids: Seq<Seq<char>>,
)
    requires
        after.dom().finite(),
        ordered::is_ascending(ids),
        ids.no_duplicates(),
        forall|i: int| 0 <= i < ids.len() ==> base.contains_key(#[trigger] ids[i]),
    ensures
        ({
            let found = renames_among(base, after, ids);
            &&& forall|i: int| 0 <= i < found.len() ==> ids.contains((#[trigger] found[i]).0)
            &&& forall|i: int, j: int|
                0 <= i < j < found.len() ==> ordered::precedes(
                    (#[trigger] found[i]).0,
                    (#[trigger] found[j]).0,
                ) && (base[found[i].0] == base[found[j].0] ==> ordered::precedes(
                    found[i].1,
                    found[j].1,
                ))
            &&& forall|i: int, to: Seq<char>|
                #![trigger found[i], after.contains_key(to)]
                0 <= i < found.len() && after.contains_key(to) && !base.contains_key(to)
                    && after[to] == base[found[i].0] && !is_target(found, to) ==> ordered::precedes(
                    found[i].1,
                    to,
                )
        }),
    decreases ids.len(),
{
    let found = renames_among(base, after, ids);
    if ids.len() > 0 {
        let rest = ids.drop_last();
        let id = ids[ids.len() - 1];
        assert forall|i: int, j: int| 0 <= i < j < rest.len() implies ordered::precedes(
            #[trigger] rest[i],
            #[trigger] rest[j],
        ) by {
            assert(rest[i] == ids[i] && rest[j] == ids[j]);
        }
        assert forall|i: int| 0 <= i < rest.len() implies base.contains_key(
            #[trigger] rest[i],
        ) by {
            assert(rest[i] == ids[i]);
        }
        lemma_renames_among_order(base, after, rest);
        lemma_renames_among(base, after, rest);
        let before = renames_among(base, after, rest);
        let news = ordered::ascending(after.dom());
        ordered::lemma_ascending(after.dom());
        lemma_first_free(base, after, base[id], before, news);
        assert forall|i: int| 0 <= i < before.len() implies ids.contains((#[trigger] before[i]).0)
            && ordered::precedes(before[i].0, id) by {
            let k = choose|k: int| 0 <= k < rest.len() && rest[k] == before[i].0;
            assert(ids[k] == before[i].0);
            assert(ordered::precedes(ids[k], ids[ids.len() - 1]));
        }
        if !after.contains_key(id) && first_free(base, after, base[id], before, news) is Some {
            let to = first_free(base, after, base[id], before, news)->0;
            assert(found == before.push((id, to)));
            lemma_first_free_is_first(base, after, base[id], before, news);
            let n = choose|n: int|
                0 <= n < news.len() && #[trigger] news[n] == to && forall|k: int|
                    0 <= k < n ==> !is_free(base, after, base[id], before, #[trigger] news[k]);
            assert(ids.contains(id));
            assert forall|i: int, j: int| 0 <= i < j < found.len() implies ordered::precedes(
                (#[trigger] found[i]).0,
                (#[trigger] found[j]).0,
            ) && (base[found[i].0] == base[found[j].0] ==> ordered::precedes(
                found[i].1,
                found[j].1,
            )) by {
                assert(found[i] == before[i]);
                if j < before.len() {
                    assert(found[j] == before[j]);
                } else if base[found[i].0] == base[id] {
                    assert(after.contains_key(to));
                    assert(!is_target(before, to));
                }
            }
            assert forall|i: int, other: Seq<char>|
                #![trigger found[i], after.contains_key(other)]
                0 <= i < found.len() && after.contains_key(other) && !base.contains_key(other)
                    && after[other] == base[found[i].0] && !is_target(
                    found,
                    other,
                ) implies ordered::precedes(found[i].1, other) by {
                if is_target(before, other) {
                    let k = choose|k: int|
                        0 <= k < before.len() && (#[trigger] before[k]).1 == other;
                    assert(found[k].1 == other);
                }
                if i < before.len() {
                    assert(found[i] == before[i]);
                } else {
                    assert(found[i].1 == to);
                    assert(news.to_set().contains(other));
                    let k = choose|k: int| 0 <= k < news.len() && news[k] == other;
                    assert(is_free(base, after, base[id], before, news[k]));
                    assert(other != to);
                    assert(n < k);
                    assert(ordered::precedes(news[n], news[k]));
                }
            }
        }
    }
}

proof fn lemma_first_free_is_first(
    base: Map<Seq<char>, Hash>,
    after: Map<Seq<char>, Hash>,
    hash: Hash,
    found: Seq<(Seq<char>, Seq<char>)>,
    ids: Seq<Seq<char>>,
)
    requires
        first_free(base, after, hash, found, ids) is Some,
    ensures
        exists|n: int|
            0 <= n < ids.len() && #[trigger] ids[n] == first_free(
                base,
                after,
                hash,
                found,
                ids,
            )->0 && is_free(base, after, hash, found, ids[n]) && forall|k: int|
                0 <= k < n ==> !is_free(base, after, hash, found, #[trigger] ids[k]),
    decreases ids.len(),
{
    let rest = ids.drop_last();
    if first_free(base, after, hash, found, rest) is Some {
        lemma_first_free_is_first(base, after, hash, found, rest);
        let n = choose|n: int|
            0 <= n < rest.len() && #[trigger] rest[n] == first_free(
                base,
                after,
                hash,
                found,
                rest,
            )->0 && is_free(base, after, hash, found, rest[n]) && forall|k: int|
                0 <= k < n ==> !is_free(base, after, hash, found, #[trigger] rest[k]);
        assert(ids[n] == rest[n]);
        assert forall|k: int| 0 <= k < n implies !is_free(
            base,
            after,
            hash,
            found,
            #[trigger] ids[k],
        ) by {
            assert(ids[k] == rest[k]);
        }
    } else {
        lemma_first_free(base, after, hash, found, rest);
        let n = ids.len() - 1;
        assert(ids[n] == ids.last());
        assert forall|k: int| 0 <= k < n implies !is_free(
            base,
            after,
            hash,
            found,
            #[trigger] ids[k],
        ) by {
            assert(ids[k] == rest[k]);
        }
    }
}

// ---- what holds of every plan ----

/// What becomes of an id that no rename accounts for.
pub open spec fn fate_in(
    base: Map<Seq<char>, Hash>,
    local: Map<Seq<char>, Hash>,
    remote: Map<Seq<char>, Hash>,
    id: Seq<char>,
) -> Fate {
    if is_settled(base, remote, renamed(base, local), renamed(base, remote), id) {
        Fate::Keep
    } else {
        fate(held(base, id), held(local, id), held(remote, id))
    }
}

proof fn lemma_walked(
    base: Map<Seq<char>, Hash>,
    local: Map<Seq<char>, Hash>,
    remote: Map<Seq<char>, Hash>,
    from: Seq<char>,
    date: Seq<char>,
    ids: Seq<Seq<char>>,
    id: Seq<char>,
)
    ensures
        ({
            let work = walked(base, local, remote, from, date, ids);
            let start = opening(base, local, remote);
            let f = fate_in(base, local, remote, id);
            let seen = ids.contains(id);
            &&& work.rename_local == start.rename_local
            &&& work.push.contains(id) == (start.push.contains(id) || seen && f == Fate::Push)
            &&& work.pull.contains(id) == (seen && f == Fate::Pull)
            &&& work.delete_local.contains(id) == (seen && f == Fate::DeleteLocal)
            &&& work.delete_remote.contains(id) == (start.delete_remote.contains(id) || seen && f
                == Fate::DeleteRemote)
            &&& forall|copy: Seq<char>| #[trigger]
                work.conflicts.contains((id, copy)) == (seen && f == Fate::Conflict && copy
                    == conflict_path(id, from, date))
        }),
    decreases ids.len(),
{
    broadcast use vstd::seq_lib::group_seq_properties;

    if ids.len() > 0 {
        lemma_walked(base, local, remote, from, date, ids.drop_last(), id);
        assert(ids =~= ids.drop_last().push(ids.last()));
        assert(ids.contains(id) == (ids.drop_last().contains(id) || id == ids.last()));
    }
}

proof fn lemma_ids(
    base: Map<Seq<char>, Hash>,
    local: Map<Seq<char>, Hash>,
    remote: Map<Seq<char>, Hash>,
    id: Seq<char>,
)
    requires
        base.dom().finite(),
        local.dom().finite(),
        remote.dom().finite(),
    ensures
        ordered::ascending(all_ids(base, local, remote)).contains(id) == (base.contains_key(id)
            || local.contains_key(id) || remote.contains_key(id)),
{
    let ids = ordered::ascending(all_ids(base, local, remote));
    ordered::lemma_ascending(all_ids(base, local, remote));
    assert(ids.contains(id) == ids.to_set().contains(id));
}

proof fn lemma_retired(
    base: Map<Seq<char>, Hash>,
    here: Seq<(Seq<char>, Seq<char>)>,
    remote: Map<Seq<char>, Hash>,
    id: Seq<char>,
)
    ensures
        retired(base, here, remote).contains(id) == (is_source(here, id) && remote.contains_key(id)
            && !edited_there(base, remote, id)),
    decreases here.len(),
{
    broadcast use vstd::seq_lib::group_seq_properties;

    if here.len() > 0 {
        lemma_retired(base, here.drop_last(), remote, id);
        lemma_source_last(here, id);
    }
}

proof fn lemma_announced(
    here: Seq<(Seq<char>, Seq<char>)>,
    remote: Map<Seq<char>, Hash>,
    id: Seq<char>,
)
    ensures
        announced(here, remote).contains(id) == (is_target(here, id) && !remote.contains_key(id)),
    decreases here.len(),
{
    broadcast use vstd::seq_lib::group_seq_properties;

    if here.len() > 0 {
        lemma_announced(here.drop_last(), remote, id);
        lemma_source_last(here, id);
    }
}

proof fn lemma_source_last(s: Seq<(Seq<char>, Seq<char>)>, id: Seq<char>)
    requires
        s.len() > 0,
    ensures
        is_source(s, id) == (is_source(s.drop_last(), id) || s.last().0 == id),
        is_target(s, id) == (is_target(s.drop_last(), id) || s.last().1 == id),
{
    let d = s.drop_last();
    if is_source(d, id) {
        let i = choose|i: int| 0 <= i < d.len() && (#[trigger] d[i]).0 == id;
        assert(s[i].0 == id);
    }
    if is_target(d, id) {
        let i = choose|i: int| 0 <= i < d.len() && (#[trigger] d[i]).1 == id;
        assert(s[i].1 == id);
    }
    if is_source(s, id) && s.last().0 != id {
        let i = choose|i: int| 0 <= i < s.len() && (#[trigger] s[i]).0 == id;
        assert(d[i].0 == id);
    }
    if is_target(s, id) && s.last().1 != id {
        let i = choose|i: int| 0 <= i < s.len() && (#[trigger] s[i]).1 == id;
        assert(d[i].1 == id);
    }
    assert(s[s.len() - 1] == s.last());
}

proof fn lemma_carried(
    there: Seq<(Seq<char>, Seq<char>)>,
    here: Seq<(Seq<char>, Seq<char>)>,
    id: Seq<char>,
)
    ensures
        is_source(carried(there, here), id) == (is_source(there, id) && !is_source(here, id)),
        is_target(carried(there, here), id) ==> is_target(there, id),
    decreases there.len(),
{
    if there.len() > 0 {
        lemma_carried(there.drop_last(), here, id);
        lemma_source_last(there, id);
        let c = carried(there, here);
        if !is_source(here, there.last().0) {
            lemma_source_last(c, id);
            assert(c.drop_last() =~= carried(there.drop_last(), here));
        }
    }
}

/// A deletion never wins over an edit: a note is removed on one side only
/// where that side still holds exactly what both last agreed on, and the other
/// side holds it no longer.
pub proof fn lemma_a_deletion_never_wins_over_an_edit(
    base: Map<Seq<char>, Hash>,
    local: Map<Seq<char>, Hash>,
    remote: Map<Seq<char>, Hash>,
    from: Seq<char>,
    date: Seq<char>,
    id: Seq<char>,
)
    requires
        base.dom().finite(),
        local.dom().finite(),
        remote.dom().finite(),
    ensures
        planned(base, local, remote, from, date).delete_local.contains(id) ==> {
            &&& held(local, id) == held(base, id)
            &&& local.contains_key(id)
            &&& !remote.contains_key(id)
        },
        planned(base, local, remote, from, date).delete_remote.contains(id) ==> {
            &&& held(remote, id) == held(base, id)
            &&& remote.contains_key(id)
            &&& !local.contains_key(id)
        },
{
    let ids = ordered::ascending(all_ids(base, local, remote));
    lemma_walked(base, local, remote, from, date, ids, id);
    lemma_retired(base, renamed(base, local), remote, id);
    lemma_renames_are_sound(base, local);
}

/// A note that one side deleted and the other edited comes back to the side
/// that deleted it, unless it was only renamed.
pub proof fn lemma_an_edit_survives_a_deletion(
    base: Map<Seq<char>, Hash>,
    local: Map<Seq<char>, Hash>,
    remote: Map<Seq<char>, Hash>,
    from: Seq<char>,
    date: Seq<char>,
    id: Seq<char>,
)
    requires
        base.dom().finite(),
        local.dom().finite(),
        remote.dom().finite(),
        base.contains_key(id),
    ensures
        !local.contains_key(id) && remote.contains_key(id) && remote[id] != base[id] ==> planned(
            base,
            local,
            remote,
            from,
            date,
        ).pull.contains(id),
        !remote.contains_key(id) && local.contains_key(id) && local[id] != base[id] && !is_source(
            renamed(base, remote),
            id,
        ) ==> planned(base, local, remote, from, date).push.contains(id),
{
    let ids = ordered::ascending(all_ids(base, local, remote));
    lemma_walked(base, local, remote, from, date, ids, id);
    lemma_ids(base, local, remote, id);
    let here = renamed(base, local);
    let there = renamed(base, remote);
    lemma_renames_are_sound(base, local);
    lemma_renames_are_sound(base, remote);
    lemma_carried(there, here, id);
    if is_target(there, id) {
        let i = choose|i: int| 0 <= i < there.len() && (#[trigger] there[i]).1 == id;
    }
    if is_target(here, id) {
        let i = choose|i: int| 0 <= i < here.len() && (#[trigger] here[i]).1 == id;
    }
    if is_source(there, id) {
        let i = choose|i: int| 0 <= i < there.len() && (#[trigger] there[i]).0 == id;
    }
    if is_source(here, id) {
        let i = choose|i: int| 0 <= i < here.len() && (#[trigger] here[i]).0 == id;
    }
}

/// A rename elsewhere composes with whatever was done here: a note renamed
/// there and not here is renamed here too, and is neither deleted nor made a
/// conflict of, edited here or not.
pub proof fn lemma_a_rename_and_an_edit_compose(
    base: Map<Seq<char>, Hash>,
    local: Map<Seq<char>, Hash>,
    remote: Map<Seq<char>, Hash>,
    from: Seq<char>,
    date: Seq<char>,
    old_id: Seq<char>,
    new_id: Seq<char>,
)
    requires
        base.dom().finite(),
        local.dom().finite(),
        remote.dom().finite(),
        renamed(base, remote).contains((old_id, new_id)),
        !is_source(renamed(base, local), old_id),
    ensures
        ({
            let work = planned(base, local, remote, from, date);
            &&& work.rename_local.contains((old_id, new_id))
            &&& !work.delete_local.contains(old_id)
            &&& !work.delete_local.contains(new_id)
            &&& forall|copy: Seq<char>| !#[trigger] work.conflicts.contains((old_id, copy))
            &&& forall|copy: Seq<char>| !#[trigger] work.conflicts.contains((new_id, copy))
        }),
{
    let ids = ordered::ascending(all_ids(base, local, remote));
    let here = renamed(base, local);
    let there = renamed(base, remote);
    lemma_walked(base, local, remote, from, date, ids, old_id);
    lemma_walked(base, local, remote, from, date, ids, new_id);
    lemma_carried_pair(there, here, (old_id, new_id));
    let c = carried(there, here);
    let i = choose|i: int| 0 <= i < c.len() && c[i] == (old_id, new_id);
    assert(c[i].0 == old_id && c[i].1 == new_id);
    assert(is_source(c, old_id) && is_target(c, new_id));
}

proof fn lemma_carried_pair(
    there: Seq<(Seq<char>, Seq<char>)>,
    here: Seq<(Seq<char>, Seq<char>)>,
    pair: (Seq<char>, Seq<char>),
)
    ensures
        carried(there, here).contains(pair) == (there.contains(pair) && !is_source(here, pair.0)),
    decreases there.len(),
{
    broadcast use vstd::seq_lib::group_seq_properties;

    if there.len() > 0 {
        lemma_carried_pair(there.drop_last(), here, pair);
        assert(there =~= there.drop_last().push(there.last()));
    }
}

/// A conflict is only ever a note that both sides hold, with two texts, each
/// of them different from what was agreed on; and the note is otherwise left
/// alone.
pub proof fn lemma_a_conflict_is_genuine(
    base: Map<Seq<char>, Hash>,
    local: Map<Seq<char>, Hash>,
    remote: Map<Seq<char>, Hash>,
    from: Seq<char>,
    date: Seq<char>,
    id: Seq<char>,
    copy: Seq<char>,
)
    requires
        base.dom().finite(),
        local.dom().finite(),
        remote.dom().finite(),
        planned(base, local, remote, from, date).conflicts.contains((id, copy)),
    ensures
        copy == conflict_path(id, from, date),
        local.contains_key(id),
        remote.contains_key(id),
        local[id] != remote[id],
        held(base, id) != Some(local[id]),
        held(base, id) != Some(remote[id]),
        ({
            let work = planned(base, local, remote, from, date);
            &&& !work.push.contains(id)
            &&& !work.pull.contains(id)
            &&& !work.delete_local.contains(id)
            &&& !work.delete_remote.contains(id)
            &&& !is_source(work.rename_local, id)
            &&& !is_target(work.rename_local, id)
        }),
{
    let ids = ordered::ascending(all_ids(base, local, remote));
    lemma_walked(base, local, remote, from, date, ids, id);
    lemma_retired(base, renamed(base, local), remote, id);
    lemma_announced(renamed(base, local), remote, id);
    lemma_renames_are_sound(base, local);
}

proof fn lemma_walked_keeps(
    base: Map<Seq<char>, Hash>,
    side: Map<Seq<char>, Hash>,
    from: Seq<char>,
    date: Seq<char>,
    ids: Seq<Seq<char>>,
)
    ensures
        walked(base, side, side, from, date, ids) == opening(base, side, side),
    decreases ids.len(),
{
    if ids.len() > 0 {
        lemma_walked_keeps(base, side, from, date, ids.drop_last());
    }
}

/// Where both sides hold the same notes with the same content there is nothing
/// to do, whatever each of them did to get there: edited, deleted, renamed, or
/// nothing at all.
pub proof fn lemma_agreement_plans_nothing(
    base: Map<Seq<char>, Hash>,
    side: Map<Seq<char>, Hash>,
    from: Seq<char>,
    date: Seq<char>,
)
    requires
        base.dom().finite(),
        side.dom().finite(),
    ensures
        planned(base, side, side, from, date) == nothing(),
{
    let ids = ordered::ascending(all_ids(base, side, side));
    lemma_walked_keeps(base, side, from, date, ids);
    let moved = renamed(base, side);
    lemma_renames_are_sound(base, side);
    lemma_nothing_carried(moved, moved);
    lemma_nothing_to_announce(base, side, moved);
    assert(opening(base, side, side) =~= nothing());
}

proof fn lemma_nothing_carried(
    there: Seq<(Seq<char>, Seq<char>)>,
    here: Seq<(Seq<char>, Seq<char>)>,
)
    requires
        forall|i: int| 0 <= i < there.len() ==> is_source(here, (#[trigger] there[i]).0),
    ensures
        carried(there, here) == Seq::<(Seq<char>, Seq<char>)>::empty(),
    decreases there.len(),
{
    if there.len() > 0 {
        assert forall|i: int| 0 <= i < there.drop_last().len() implies is_source(
            here,
            (#[trigger] there.drop_last()[i]).0,
        ) by {
            assert(there[i] == there.drop_last()[i]);
        }
        lemma_nothing_carried(there.drop_last(), here);
        assert(there[there.len() - 1] == there.last());
    }
}

proof fn lemma_nothing_to_announce(
    base: Map<Seq<char>, Hash>,
    side: Map<Seq<char>, Hash>,
    moved: Seq<(Seq<char>, Seq<char>)>,
)
    requires
        is_sound(base, side, moved),
    ensures
        announced(moved, side) == Seq::<Seq<char>>::empty(),
        retired(base, moved, side) == Seq::<Seq<char>>::empty(),
{
    if announced(moved, side).len() > 0 {
        let id = announced(moved, side)[0];
        lemma_announced(moved, side, id);
        assert(announced(moved, side).contains(id));
    }
    if retired(base, moved, side).len() > 0 {
        let id = retired(base, moved, side)[0];
        lemma_retired(base, moved, side, id);
        assert(retired(base, moved, side).contains(id));
    }
    assert(announced(moved, side) =~= Seq::<Seq<char>>::empty());
    assert(retired(base, moved, side) =~= Seq::<Seq<char>>::empty());
}

/// A quiet vault plans nothing.
pub proof fn lemma_a_quiet_vault_plans_nothing(
    base: Map<Seq<char>, Hash>,
    from: Seq<char>,
    date: Seq<char>,
)
    requires
        base.dom().finite(),
    ensures
        planned(base, base, base, from, date) == nothing(),
{
    lemma_agreement_plans_nothing(base, base, from, date);
}

/// A first pass deletes and renames nothing: what only this side holds goes
/// up, what only the other side holds comes down, and the same name with
/// different text is a conflict.
pub proof fn lemma_a_first_pass_only_adds(
    local: Map<Seq<char>, Hash>,
    remote: Map<Seq<char>, Hash>,
    from: Seq<char>,
    date: Seq<char>,
    id: Seq<char>,
)
    requires
        local.dom().finite(),
        remote.dom().finite(),
    ensures
        ({
            let work = planned(Map::empty(), local, remote, from, date);
            &&& work.rename_local.len() == 0
            &&& !work.delete_local.contains(id)
            &&& !work.delete_remote.contains(id)
            &&& work.push.contains(id) == (local.contains_key(id) && !remote.contains_key(id))
            &&& work.pull.contains(id) == (remote.contains_key(id) && !local.contains_key(id))
            &&& work.conflicts.contains((id, conflict_path(id, from, date))) == (
            local.contains_key(id) && remote.contains_key(id) && local[id] != remote[id])
        }),
{
    let base = Map::<Seq<char>, Hash>::empty();
    let ids = ordered::ascending(all_ids(base, local, remote));
    lemma_renames_are_sound(base, local);
    lemma_renames_are_sound(base, remote);
    let here = renamed(base, local);
    let there = renamed(base, remote);
    if here.len() > 0 {
        assert(base.contains_key(here[0].0));
    }
    if there.len() > 0 {
        assert(base.contains_key(there[0].0));
    }
    lemma_walked(base, local, remote, from, date, ids, id);
    lemma_ids(base, local, remote, id);
    lemma_announced(here, remote, id);
    lemma_retired(base, here, remote, id);
}

/// The two sides mirror each other: where neither renamed anything, what one
/// machine would push the other would pull, and what one would remove there
/// the other would remove here.
pub proof fn lemma_the_two_sides_mirror(
    base: Map<Seq<char>, Hash>,
    local: Map<Seq<char>, Hash>,
    remote: Map<Seq<char>, Hash>,
    from: Seq<char>,
    date: Seq<char>,
)
    requires
        renamed(base, local).len() == 0,
        renamed(base, remote).len() == 0,
    ensures
        ({
            let work = planned(base, local, remote, from, date);
            let mirror = planned(base, remote, local, from, date);
            &&& work.push == mirror.pull
            &&& work.pull == mirror.push
            &&& work.delete_local == mirror.delete_remote
            &&& work.delete_remote == mirror.delete_local
            &&& work.conflicts == mirror.conflicts
        }),
{
    assert(all_ids(base, local, remote) =~= all_ids(base, remote, local));
    lemma_walked_mirror(
        base,
        local,
        remote,
        from,
        date,
        ordered::ascending(all_ids(base, local, remote)),
    );
}

proof fn lemma_walked_mirror(
    base: Map<Seq<char>, Hash>,
    local: Map<Seq<char>, Hash>,
    remote: Map<Seq<char>, Hash>,
    from: Seq<char>,
    date: Seq<char>,
    ids: Seq<Seq<char>>,
)
    requires
        renamed(base, local).len() == 0,
        renamed(base, remote).len() == 0,
    ensures
        ({
            let work = walked(base, local, remote, from, date, ids);
            let mirror = walked(base, remote, local, from, date, ids);
            &&& work.push == mirror.pull
            &&& work.pull == mirror.push
            &&& work.delete_local == mirror.delete_remote
            &&& work.delete_remote == mirror.delete_local
            &&& work.conflicts == mirror.conflicts
        }),
    decreases ids.len(),
{
    if ids.len() > 0 {
        lemma_walked_mirror(base, local, remote, from, date, ids.drop_last());
    }
}

/// What becomes of a note that neither side renamed or renamed something to. It
/// goes up where it is here, differently from there, and the other side left it
/// as it was or removed what was edited here; it comes down in the mirror case;
/// it is removed from the side that still holds it as it was when the other no
/// longer does; and it is a conflict where all three are different texts.
pub proof fn lemma_what_becomes_of_a_note(
    base: Map<Seq<char>, Hash>,
    local: Map<Seq<char>, Hash>,
    remote: Map<Seq<char>, Hash>,
    from: Seq<char>,
    date: Seq<char>,
    id: Seq<char>,
)
    requires
        base.dom().finite(),
        local.dom().finite(),
        remote.dom().finite(),
        !is_source(renamed(base, local), id),
        !is_target(renamed(base, local), id),
        !is_source(renamed(base, remote), id),
        !is_target(renamed(base, remote), id),
    ensures
        ({
            let work = planned(base, local, remote, from, date);
            let in_base = base.contains_key(id);
            let here = local.contains_key(id);
            let there = remote.contains_key(id);
            let same = here == there && (here ==> local[id] == remote[id]);
            let kept_here = here == in_base && (here ==> local[id] == base[id]);
            let kept_there = there == in_base && (there ==> remote[id] == base[id]);
            &&& work.push.contains(id) == (here && !same && (kept_there || !there && !kept_here))
            &&& work.pull.contains(id) == (there && !same && !kept_there && (kept_here || !here))
            &&& work.delete_local.contains(id) == (here && !there && kept_here)
            &&& work.delete_remote.contains(id) == (there && !here && kept_there)
            &&& in_conflict(work).contains(id) == (here && there && !same && !kept_here
                && !kept_there)
        }),
{
    let ids = ordered::ascending(all_ids(base, local, remote));
    let here = renamed(base, local);
    let there = renamed(base, remote);
    let work = planned(base, local, remote, from, date);
    lemma_walked(base, local, remote, from, date, ids, id);
    lemma_ids(base, local, remote, id);
    lemma_announced(here, remote, id);
    lemma_retired(base, here, remote, id);
    lemma_carried(there, here, id);
    lemma_in_conflict(work, id);
    assert(work.conflicts.contains((id, conflict_path(id, from, date))) == (fate_in(
        base,
        local,
        remote,
        id,
    ) == Fate::Conflict && ids.contains(id)));
}

/// A file that changed by one byte here and nowhere else goes up, and nothing
/// else is done about it.
pub proof fn lemma_a_file_changed_here_is_pushed(
    base: Map<Seq<char>, Hash>,
    local: Map<Seq<char>, Hash>,
    remote: Map<Seq<char>, Hash>,
    from: Seq<char>,
    date: Seq<char>,
    id: Seq<char>,
    was: Seq<u8>,
    now: Seq<u8>,
    at: int,
)
    requires
        base.dom().finite(),
        local.dom().finite(),
        remote.dom().finite(),
        base.contains_key(id) && base[id] == Hash(fnv(was)),
        remote.contains_key(id) && remote[id] == Hash(fnv(was)),
        local.contains_key(id) && local[id] == Hash(fnv(now)),
        was.len() == now.len(),
        0 <= at < was.len(),
        was[at] != now[at],
        forall|i: int| 0 <= i < was.len() && i != at ==> was[i] == now[i],
    ensures
        ({
            let work = planned(base, local, remote, from, date);
            &&& work.push.contains(id)
            &&& !work.pull.contains(id)
            &&& !work.delete_local.contains(id)
            &&& !work.delete_remote.contains(id)
            &&& !in_conflict(work).contains(id)
        }),
{
    lemma_one_byte_makes_a_difference(was, now, at);
    lemma_renames_are_sound(base, local);
    lemma_renames_are_sound(base, remote);
    lemma_no_end(base, local, id);
    lemma_no_end(base, remote, id);
    lemma_what_becomes_of_a_note(base, local, remote, from, date, id);
}

proof fn lemma_no_end(base: Map<Seq<char>, Hash>, after: Map<Seq<char>, Hash>, id: Seq<char>)
    requires
        is_sound(base, after, renamed(base, after)),
        base.contains_key(id),
        after.contains_key(id),
    ensures
        !is_source(renamed(base, after), id),
        !is_target(renamed(base, after), id),
{
    let found = renamed(base, after);
    if is_source(found, id) {
        let i = choose|i: int| 0 <= i < found.len() && (#[trigger] found[i]).0 == id;
    }
    if is_target(found, id) {
        let i = choose|i: int| 0 <= i < found.len() && (#[trigger] found[i]).1 == id;
    }
}

/// A rename made here goes up as one: the new name is pushed unless the other
/// side has it already, and the old one is removed there if it is still held as
/// it was. If it was edited there instead the edit comes down under the old
/// name. Neither name is deleted here or made a conflict of.
pub proof fn lemma_a_rename_here_goes_up(
    base: Map<Seq<char>, Hash>,
    local: Map<Seq<char>, Hash>,
    remote: Map<Seq<char>, Hash>,
    from: Seq<char>,
    date: Seq<char>,
    old_id: Seq<char>,
    new_id: Seq<char>,
)
    requires
        base.dom().finite(),
        local.dom().finite(),
        remote.dom().finite(),
        renamed(base, local).contains((old_id, new_id)),
    ensures
        ({
            let work = planned(base, local, remote, from, date);
            let there = remote.contains_key(old_id);
            &&& work.push.contains(new_id) == !remote.contains_key(new_id)
            &&& work.delete_remote.contains(old_id) == (there && remote[old_id] == base[old_id])
            &&& work.pull.contains(old_id) == (there && remote[old_id] != base[old_id])
            &&& !work.delete_local.contains(old_id) && !work.delete_local.contains(new_id)
            &&& !in_conflict(work).contains(old_id) && !in_conflict(work).contains(new_id)
            &&& !is_source(work.rename_local, old_id)
        }),
{
    let ids = ordered::ascending(all_ids(base, local, remote));
    let here = renamed(base, local);
    let there = renamed(base, remote);
    let work = planned(base, local, remote, from, date);
    let k = choose|k: int| 0 <= k < here.len() && here[k] == (old_id, new_id);
    assert(here[k].0 == old_id && here[k].1 == new_id);
    assert(is_source(here, old_id) && is_target(here, new_id));
    lemma_renames_are_sound(base, local);
    lemma_renames_are_sound(base, remote);
    lemma_walked(base, local, remote, from, date, ids, old_id);
    lemma_walked(base, local, remote, from, date, ids, new_id);
    lemma_ids(base, local, remote, old_id);
    lemma_announced(here, remote, old_id);
    lemma_announced(here, remote, new_id);
    lemma_retired(base, here, remote, old_id);
    lemma_retired(base, here, remote, new_id);
    lemma_carried(there, here, old_id);
    lemma_in_conflict(work, old_id);
    lemma_in_conflict(work, new_id);
    if is_target(there, old_id) {
        let i = choose|i: int| 0 <= i < there.len() && (#[trigger] there[i]).1 == old_id;
        assert(!base.contains_key(there[i].1));
    }
    if is_target(here, old_id) {
        let i = choose|i: int| 0 <= i < here.len() && (#[trigger] here[i]).1 == old_id;
        assert(!base.contains_key(here[i].1));
    }
}

/// The notes in conflict.
pub open spec fn in_conflict(work: Work) -> Seq<Seq<char>> {
    work.conflicts.map_values(|c: (Seq<char>, Seq<char>)| c.0)
}

/// Every id that a plan does something about: those that go up, come down or
/// are removed on either side, those in conflict, and both ends of the renames.
pub open spec fn touched(work: Work) -> Seq<Seq<char>> {
    work.push + work.pull + work.delete_local + work.delete_remote + in_conflict(work)
        + work.rename_local.map_values(|r: (Seq<char>, Seq<char>)| r.0)
        + work.rename_local.map_values(|r: (Seq<char>, Seq<char>)| r.1)
}

proof fn lemma_one_more(s: Seq<Seq<char>>, id: Seq<char>)
    requires
        s.no_duplicates(),
        !s.contains(id),
    ensures
        s.push(id).no_duplicates(),
{
    let t = s.push(id);
    assert forall|i: int, j: int| 0 <= i < t.len() && 0 <= j < t.len() && i != j implies t[i]
        != t[j] by {
        if i < s.len() {
            assert(s.contains(s[i]));
        }
        if j < s.len() {
            assert(s.contains(s[j]));
        }
    }
}

proof fn lemma_apart(a: Seq<Seq<char>>, b: Seq<Seq<char>>)
    requires
        a.no_duplicates(),
        b.no_duplicates(),
        forall|id: Seq<char>| #[trigger] a.contains(id) ==> !b.contains(id),
    ensures
        (a + b).no_duplicates(),
        forall|id: Seq<char>| #[trigger]
            (a + b).contains(id) == (a.contains(id) || b.contains(id)),
{
    broadcast use vstd::seq_lib::group_seq_properties;

    assert forall|i: int, j: int| 0 <= i < a.len() && 0 <= j < b.len() implies a[i] != b[j] by {
        assert(a.contains(a[i]));
        assert(b.contains(b[j]));
    }
    vstd::seq_lib::lemma_no_dup_in_concat(a, b);
}

proof fn lemma_opening_once(
    base: Map<Seq<char>, Hash>,
    here: Seq<(Seq<char>, Seq<char>)>,
    remote: Map<Seq<char>, Hash>,
)
    requires
        forall|i: int, j: int|
            0 <= i < j < here.len() ==> (#[trigger] here[i]).0 != (#[trigger] here[j]).0
                && here[i].1 != here[j].1,
    ensures
        announced(here, remote).no_duplicates(),
        retired(base, here, remote).no_duplicates(),
    decreases here.len(),
{
    if here.len() > 0 {
        let rest = here.drop_last();
        assert forall|i: int, j: int| 0 <= i < j < rest.len() implies (#[trigger] rest[i]).0 != (
        #[trigger] rest[j]).0 && rest[i].1 != rest[j].1 by {
            assert(rest[i] == here[i] && rest[j] == here[j]);
        }
        lemma_opening_once(base, rest, remote);
        let last = here[here.len() - 1];
        assert(!is_target(rest, last.1)) by {
            if is_target(rest, last.1) {
                let i = choose|i: int| 0 <= i < rest.len() && (#[trigger] rest[i]).1 == last.1;
                assert(rest[i] == here[i]);
            }
        }
        assert(!is_source(rest, last.0)) by {
            if is_source(rest, last.0) {
                let i = choose|i: int| 0 <= i < rest.len() && (#[trigger] rest[i]).0 == last.0;
                assert(rest[i] == here[i]);
            }
        }
        lemma_announced(rest, remote, last.1);
        lemma_retired(base, rest, remote, last.0);
        if !remote.contains_key(last.1) {
            lemma_one_more(announced(rest, remote), last.1);
        }
        if remote.contains_key(last.0) && !edited_there(base, remote, last.0) {
            lemma_one_more(retired(base, rest, remote), last.0);
        }
    }
}

proof fn lemma_carried_once(
    there: Seq<(Seq<char>, Seq<char>)>,
    here: Seq<(Seq<char>, Seq<char>)>,
)
    requires
        forall|i: int, j: int|
            0 <= i < j < there.len() ==> (#[trigger] there[i]).0 != (#[trigger] there[j]).0
                && there[i].1 != there[j].1,
    ensures
        forall|i: int, j: int|
            0 <= i < j < carried(there, here).len() ==> (#[trigger] carried(there, here)[i]).0 != (
            #[trigger] carried(there, here)[j]).0 && carried(there, here)[i].1 != carried(
                there,
                here,
            )[j].1,
        forall|i: int|
            0 <= i < carried(there, here).len() ==> there.contains(
                #[trigger] carried(there, here)[i],
            ),
    decreases there.len(),
{
    if there.len() > 0 {
        let rest = there.drop_last();
        assert forall|i: int, j: int| 0 <= i < j < rest.len() implies (#[trigger] rest[i]).0 != (
        #[trigger] rest[j]).0 && rest[i].1 != rest[j].1 by {
            assert(rest[i] == there[i] && rest[j] == there[j]);
        }
        lemma_carried_once(rest, here);
        let before = carried(rest, here);
        let now = carried(there, here);
        assert forall|i: int| 0 <= i < now.len() implies there.contains(#[trigger] now[i]) && (i
            < before.len() ==> rest.contains(now[i])) by {
            if i < before.len() {
                assert(now[i] == before[i]);
                let k = choose|k: int| 0 <= k < rest.len() && rest[k] == before[i];
                assert(there[k] == now[i]);
            } else {
                assert(there[there.len() - 1] == now[i]);
            }
        }
        assert forall|i: int, j: int| 0 <= i < j < now.len() implies (#[trigger] now[i]).0 != (
        #[trigger] now[j]).0 && now[i].1 != now[j].1 by {
            assert(now[i] == before[i]);
            if j < before.len() {
                assert(now[j] == before[j]);
            } else {
                let k = choose|k: int| 0 <= k < rest.len() && rest[k] == now[i];
                assert(there[k] == now[i]);
                assert(there[there.len() - 1] == now[j]);
            }
        }
    }
}

proof fn lemma_walked_once(
    base: Map<Seq<char>, Hash>,
    local: Map<Seq<char>, Hash>,
    remote: Map<Seq<char>, Hash>,
    from: Seq<char>,
    date: Seq<char>,
    ids: Seq<Seq<char>>,
)
    requires
        ids.no_duplicates(),
        is_sound(base, local, renamed(base, local)),
    ensures
        ({
            let work = walked(base, local, remote, from, date, ids);
            &&& work.push.no_duplicates()
            &&& work.pull.no_duplicates()
            &&& work.delete_local.no_duplicates()
            &&& work.delete_remote.no_duplicates()
            &&& in_conflict(work).no_duplicates()
        }),
    decreases ids.len(),
{
    let here = renamed(base, local);
    if ids.len() == 0 {
        lemma_opening_once(base, here, remote);
    } else {
        let rest = ids.drop_last();
        let id = ids[ids.len() - 1];
        assert(!rest.contains(id));
        lemma_walked_once(base, local, remote, from, date, rest);
        let before = walked(base, local, remote, from, date, rest);
        lemma_walked(base, local, remote, from, date, rest, id);
        lemma_announced(here, remote, id);
        lemma_retired(base, here, remote, id);
        lemma_in_conflict(before, id);
        if !is_settled(base, remote, here, renamed(base, remote), id) {
            match fate(held(base, id), held(local, id), held(remote, id)) {
                Fate::Keep => {},
                Fate::Push => lemma_one_more(before.push, id),
                Fate::Pull => lemma_one_more(before.pull, id),
                Fate::DeleteLocal => lemma_one_more(before.delete_local, id),
                Fate::DeleteRemote => lemma_one_more(before.delete_remote, id),
                Fate::Conflict => {
                    lemma_one_more(in_conflict(before), id);
                    let now = walked(base, local, remote, from, date, ids);
                    assert(in_conflict(now) =~= in_conflict(before).push(id));
                },
            }
        }
    }
}

proof fn lemma_in_conflict(work: Work, id: Seq<char>)
    ensures
        in_conflict(work).contains(id) == exists|copy: Seq<char>| #[trigger]
            work.conflicts.contains((id, copy)),
{
    let ids = in_conflict(work);
    if ids.contains(id) {
        let k = choose|k: int| 0 <= k < ids.len() && ids[k] == id;
        assert(work.conflicts[k] == (id, work.conflicts[k].1));
        assert(work.conflicts.contains((id, work.conflicts[k].1)));
    }
    if exists|copy: Seq<char>| #[trigger] work.conflicts.contains((id, copy)) {
        let copy = choose|copy: Seq<char>| #[trigger] work.conflicts.contains((id, copy));
        let k = choose|k: int| 0 <= k < work.conflicts.len() && work.conflicts[k] == (id, copy);
        assert(ids[k] == id);
    }
}

/// A plan gives each id one thing to do: none occurs twice among what goes up,
/// what comes down, what is removed on either side, what is in conflict, and
/// both ends of the renames.
pub proof fn lemma_every_id_has_one_action(
    base: Map<Seq<char>, Hash>,
    local: Map<Seq<char>, Hash>,
    remote: Map<Seq<char>, Hash>,
    from: Seq<char>,
    date: Seq<char>,
)
    requires
        base.dom().finite(),
        local.dom().finite(),
        remote.dom().finite(),
    ensures
        touched(planned(base, local, remote, from, date)).no_duplicates(),
{
    let ids = ordered::ascending(all_ids(base, local, remote));
    let work = planned(base, local, remote, from, date);
    let here = renamed(base, local);
    let there = renamed(base, remote);
    lemma_renames_are_sound(base, local);
    lemma_renames_are_sound(base, remote);
    ordered::lemma_ascending_apart(all_ids(base, local, remote));
    lemma_walked_once(base, local, remote, from, date, ids);
    lemma_walked(base, local, remote, from, date, ids, seq![]);
    let moved = carried(there, here);
    assert(work.rename_local == moved);
    lemma_carried_once(there, here);
    let sources = moved.map_values(|r: (Seq<char>, Seq<char>)| r.0);
    let targets = moved.map_values(|r: (Seq<char>, Seq<char>)| r.1);
    assert(sources.no_duplicates()) by {
        assert forall|i: int, j: int| 0 <= i < sources.len() && 0 <= j < sources.len() && i
            != j implies sources[i] != sources[j] by {
            if i < j {
                assert(moved[i].0 != moved[j].0);
            } else {
                assert(moved[j].0 != moved[i].0);
            }
        }
    }
    assert(targets.no_duplicates()) by {
        assert forall|i: int, j: int| 0 <= i < targets.len() && 0 <= j < targets.len() && i
            != j implies targets[i] != targets[j] by {
            if i < j {
                assert(moved[i].1 != moved[j].1);
            } else {
                assert(moved[j].1 != moved[i].1);
            }
        }
    }
    assert forall|id: Seq<char>|
        #![trigger sources.contains(id)]
        #![trigger targets.contains(id)]
        (sources.contains(id) ==> is_source(moved, id) && base.contains_key(id)
            && !remote.contains_key(id)) && (targets.contains(id) ==> is_target(moved, id)
            && !base.contains_key(id) && remote.contains_key(id)) by {
        if sources.contains(id) {
            let k = choose|k: int| 0 <= k < sources.len() && sources[k] == id;
            assert(moved[k].0 == id);
            let n = choose|n: int| 0 <= n < there.len() && there[n] == moved[k];
            assert(there[n].0 == id);
        }
        if targets.contains(id) {
            let k = choose|k: int| 0 <= k < targets.len() && targets[k] == id;
            assert(moved[k].1 == id);
            let n = choose|n: int| 0 <= n < there.len() && there[n] == moved[k];
            assert(there[n].1 == id);
        }
    }
    assert forall|id: Seq<char>| #[trigger] in_one_place(work, sources, targets, id) by {
        lemma_walked(base, local, remote, from, date, ids, id);
        lemma_announced(here, remote, id);
        lemma_retired(base, here, remote, id);
        lemma_in_conflict(work, id);
        lemma_carried(there, here, id);
        if is_target(here, id) {
            let i = choose|i: int| 0 <= i < here.len() && (#[trigger] here[i]).1 == id;
            assert(!base.contains_key(here[i].1));
        }
        if is_source(here, id) {
            let i = choose|i: int| 0 <= i < here.len() && (#[trigger] here[i]).0 == id;
            assert(base.contains_key(here[i].0));
        }
        let _ = sources.contains(id);
        let _ = targets.contains(id);
    }
    assert forall|id: Seq<char>| #[trigger] work.push.contains(id) implies !work.pull.contains(
        id,
    ) by {
        assert(in_one_place(work, sources, targets, id));
    }
    lemma_apart(work.push, work.pull);
    let a = work.push + work.pull;
    assert forall|id: Seq<char>| #[trigger] a.contains(id) implies !work.delete_local.contains(
        id,
    ) by {
        assert(in_one_place(work, sources, targets, id));
    }
    lemma_apart(a, work.delete_local);
    let b = a + work.delete_local;
    assert forall|id: Seq<char>| #[trigger] b.contains(id) implies !work.delete_remote.contains(
        id,
    ) by {
        assert(in_one_place(work, sources, targets, id));
    }
    lemma_apart(b, work.delete_remote);
    let c = b + work.delete_remote;
    assert forall|id: Seq<char>| #[trigger] c.contains(id) implies !in_conflict(work).contains(
        id,
    ) by {
        assert(in_one_place(work, sources, targets, id));
    }
    lemma_apart(c, in_conflict(work));
    let d = c + in_conflict(work);
    assert forall|id: Seq<char>| #[trigger] d.contains(id) implies !sources.contains(id) by {
        assert(in_one_place(work, sources, targets, id));
    }
    lemma_apart(d, sources);
    let e = d + sources;
    assert forall|id: Seq<char>| #[trigger] e.contains(id) implies !targets.contains(id) by {
        assert(in_one_place(work, sources, targets, id));
    }
    lemma_apart(e, targets);
}

spec fn in_one_place(
    work: Work,
    sources: Seq<Seq<char>>,
    targets: Seq<Seq<char>>,
    id: Seq<char>,
) -> bool {
    let push = work.push.contains(id);
    let pull = work.pull.contains(id);
    let here = work.delete_local.contains(id);
    let there = work.delete_remote.contains(id);
    let both = in_conflict(work).contains(id);
    let old_id = sources.contains(id);
    let new_id = targets.contains(id);
    &&& push ==> !pull && !here && !there && !both && !old_id && !new_id
    &&& pull ==> !here && !there && !both && !old_id && !new_id
    &&& here ==> !there && !both && !old_id && !new_id
    &&& there ==> !both && !old_id && !new_id
    &&& both ==> !old_id && !new_id
    &&& old_id ==> !new_id
}

/// A conflict copy cannot answer to the original's title, and stands in the
/// folder its note is in.
pub proof fn lemma_a_conflict_copy_has_its_own_title(
    id: Seq<char>,
    from: Seq<char>,
    date: Seq<char>,
)
    requires
        !from.contains('/'),
        !date.contains('/'),
    ensures
        note::title(conflict_path(id, from, date)) == note::title(id) + " (conflict "@ + date
            + " from "@ + from + ")"@,
        note::title(conflict_path(id, from, date)) != note::title(id),
        match paths::folder(id) {
            Some(folder) if folder.len() > 0 => paths::folder(conflict_path(id, from, date)) == Some(
                paths::relative(folder),
            ),
            _ => paths::folder(conflict_path(id, from, date)) is None,
        },
{
    let stem = conflict_title(id, from, date);
    let name = stem + ".md"@;
    reveal_strlit(" (conflict ");
    reveal_strlit(" from ");
    reveal_strlit(")");
    reveal_strlit(".md");
    note::lemma_title_is_one_component(id);
    assert forall|i: int| 0 <= i < name.len() implies name[i] != '/' by {
        let a = note::title(id).len() as int;
        let b = a + 11;
        let c = b + date.len();
        let d = c + 6;
        let e = d + from.len();
        if i < a {
            assert(name[i] == note::title(id)[i]);
        } else if b <= i < c {
            assert(name[i] == date[i - b]);
        } else if d <= i < e {
            assert(name[i] == from[i - d]);
        }
    }
    assert(name.len() > 1);
    assert(note::without_md(name) =~= stem) by {
        assert(seq!['.', 'm', 'd'] =~= name.subrange(name.len() - 3, name.len() as int));
    }
    match paths::folder(id) {
        Some(folder) if folder.len() > 0 => {
            paths::lemma_relative_of_child(folder, name);
        },
        _ => {
            paths::lemma_relative_of_name(name);
        },
    }
}

} // verus!
