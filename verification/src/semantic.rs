//! Vectors for the notes, and the bookkeeping that keeps them honest.
//!
//! Everything here is derived: the store can be deleted at any time and the
//! only cost is embedding the notes again.
//!
//! Catching up is a pure function. [`plan`] is handed what the vault holds now
//! and what the store holds now, and says what to do: embed these, carry these
//! across, forget these. A rescan produces the same plan whatever the change
//! came from.
//!
//! The store is keyed by the id of a note, and each entry carries the digest
//! of the text that was embedded. The id says *which note*, the digest says
//! *which version of it*: the same id with another digest was edited, another
//! id with the same digest was moved.
//!
//! A vector is carried as the bit patterns of its numbers: nothing here
//! computes with them.

use crate::index;
use crate::index::Index;
use crate::note;
use crate::note::NoteId;
use crate::ordered;
use crate::ordered::TextMap;
use crate::paths;
use crate::ranked;
use crate::ranked::{Ranked, Scored};
use crate::server::Chunks;
use crate::sync;
use crate::text;
use vstd::prelude::*;

verus! {

// ---- digests ----

/// The content fingerprint of a note, as it was embedded.
///
/// FNV-1a: this value is written to disk and compared against on the next
/// launch, so it has to be stable.
#[derive(Debug, Clone, Copy, PartialEq, Eq, PartialOrd, Ord, Hash, Structural)]
pub struct Digest(pub u64);

impl Digest {
    /// The fingerprint of a text.
    pub fn of(text: &str) -> (r: Self)
        ensures
            r.0 == sync::fnv(vstd::utf8::encode_utf8(text@)),
    {
        Digest(sync::Hash::of(text).0)
    }
}

// ---- chunks ----

/// How much text goes into one vector. The small embedding models take 512
/// tokens, and about this many characters is a conservative 512 tokens.
pub const CHUNK_CHARS: usize = 2000;

/// A note is split into at most this many chunks.
pub const MAX_CHUNKS: usize = 16;

/// Chunks that are complete, and the one that is being gathered.
#[verifier::ext_equal]
pub struct Gathering {
    pub done: Seq<Seq<char>>,
    pub current: Seq<char>,
}

/// The chunk being gathered made complete, under the title, unless there is
/// nothing in it.
pub open spec fn flushed(title: Seq<char>, g: Gathering) -> Gathering {
    let body = text::trim(g.current);
    Gathering {
        done: if body.len() > 0 {
            g.done.push(title + "\n\n"@ + body)
        } else {
            g.done
        },
        current: seq![],
    }
}

/// A block longer than a chunk, cut at the budget.
pub open spec fn cut(title: Seq<char>, g: Gathering, rest: Seq<char>) -> Gathering
    decreases rest.len(),
{
    if rest.len() == 0 {
        g
    } else if rest.len() <= CHUNK_CHARS {
        flushed(title, Gathering { done: g.done, current: g.current + rest })
    } else {
        let piece = rest.take(CHUNK_CHARS as int);
        cut(
            title,
            flushed(title, Gathering { done: g.done, current: g.current + piece }),
            rest.skip(CHUNK_CHARS as int),
        )
    }
}

/// One more block gathered. A heading starts a new chunk, and so does a block
/// that would make the chunk too long.
pub open spec fn with_block(title: Seq<char>, g: Gathering, block: Seq<char>) -> Gathering {
    let b = text::trim(block);
    if b.len() == 0 {
        g
    } else {
        let h = if (b[0] == '#' || g.current.len() + b.len() > CHUNK_CHARS) && g.current.len()
            > 0 {
            flushed(title, g)
        } else {
            g
        };
        if b.len() > CHUNK_CHARS {
            cut(title, h, b)
        } else if h.current.len() > 0 {
            Gathering { done: h.done, current: h.current + "\n\n"@ + b }
        } else {
            Gathering { done: h.done, current: b }
        }
    }
}

/// Some blocks gathered.
pub open spec fn gathered(title: Seq<char>, blocks: Seq<Seq<char>>) -> Gathering
    decreases blocks.len(),
{
    if blocks.len() == 0 {
        Gathering { done: seq![], current: seq![] }
    } else {
        with_block(title, gathered(title, blocks.drop_last()), blocks.last())
    }
}

/// The pieces of a note that get embedded.
pub open spec fn pieces(title: Seq<char>, prose: Seq<char>) -> Seq<Seq<char>> {
    let all = flushed(title, gathered(title, text::split_text(prose, "\n\n"@))).done;
    if all.len() == 0 && text::trim(title).len() > 0 {
        seq![title]
    } else {
        ranked::first(all, MAX_CHUNKS as int)
    }
}

fn flush(title: &Vec<char>, done: &mut Vec<String>, current: &Vec<char>)
    ensures
        text::views(final(done)@) == flushed(
            title@,
            (Gathering { done: text::views(old(done)@), current: current@ }),
        ).done,
{
    let body = text::trim_chars(current);
    if body.len() > 0 {
        let mut chunk = text::part(title, 0, title.len());
        assert(chunk@ =~= title@);
        text::extend(&mut chunk, &text::chars_of("\n\n"));
        text::extend(&mut chunk, &body);
        let chunk = text::string_of(&chunk);
        proof {
            text::lemma_views_push(done@, chunk);
        }
        done.push(chunk);
    }
}

fn cut_block(title: &Vec<char>, done: &mut Vec<String>, block: &Vec<char>)
    requires
        block@.len() > 0,
    ensures
        (Gathering { done: text::views(final(done)@), current: seq![] }) == cut(
            title@,
            (Gathering { done: text::views(old(done)@), current: seq![] }),
            block@,
        ),
{
    let ghost start = Gathering { done: text::views(done@), current: seq![] };
    let mut rest = text::part(block, 0, block.len());
    assert(rest@ =~= block@);
    while rest.len() > CHUNK_CHARS
        invariant
            rest@.len() > 0,
            cut(title@, start, block@) == cut(
                title@,
                (Gathering { done: text::views(done@), current: seq![] }),
                rest@,
            ),
        decreases rest@.len(),
    {
        let n = rest.len();
        let piece = text::part(&rest, 0, CHUNK_CHARS);
        let next = text::part(&rest, CHUNK_CHARS, n);
        assert(piece@ =~= rest@.take(CHUNK_CHARS as int));
        assert(next@ =~= rest@.skip(CHUNK_CHARS as int));
        assert(Seq::<char>::empty() + piece@ =~= piece@);
        flush(title, done, &piece);
        rest = next;
    }
    assert(Seq::<char>::empty() + rest@ =~= rest@);
    flush(title, done, &rest);
}

/// Split a note into the pieces that get embedded.
///
/// Headings first, because a heading is the author saying where one subject
/// ends; then paragraphs, when a section is longer than a chunk. A section
/// under the budget is one chunk.
///
/// The title is prepended to every chunk: a chunk in the middle of a long note
/// often does not name what it is about.
pub fn chunks(title: &str, prose: &str) -> (r: Vec<String>)
    ensures
        text::views(r@) == pieces(title@, prose@),
{
    let name = text::chars_of(title);
    let sep = text::chars_of("\n\n");
    proof {
        reveal_strlit("\n\n");
    }
    let blocks = text::split_with(&text::chars_of(prose), &sep);
    let ghost all = text::views(blocks@);
    let mut done: Vec<String> = Vec::new();
    let mut current: Vec<char> = Vec::new();
    let mut i: usize = 0;
    assert((Gathering { done: text::views(done@), current: current@ }) =~= gathered(
        title@,
        all.take(0),
    ));
    while i < blocks.len()
        invariant
            i <= blocks@.len(),
            all == text::views(blocks@),
            name@ == title@,
            sep@ == "\n\n"@,
            (Gathering { done: text::views(done@), current: current@ }) == gathered(
                title@,
                all.take(i as int),
            ),
        decreases blocks@.len() - i,
    {
        let ghost g = Gathering { done: text::views(done@), current: current@ };
        assert(all.take(i + 1).drop_last() =~= all.take(i as int));
        assert(all.take(i + 1).last() == blocks@[i as int]@);
        let b = text::trim_chars(&blocks[i]);
        if b.len() > 0 {
            let full = b.len() > CHUNK_CHARS || current.len() > CHUNK_CHARS - b.len();
            if (b[0] == '#' || full) && current.len() > 0 {
                flush(&name, &mut done, &current);
                current = Vec::new();
            }
            if b.len() > CHUNK_CHARS {
                assert(current@ =~= seq![]);
                cut_block(&name, &mut done, &b);
            } else {
                if current.len() > 0 {
                    text::extend(&mut current, &sep);
                }
                let ghost before = current@;
                text::extend(&mut current, &b);
                assert(Seq::<char>::empty() + b@ =~= b@);
            }
        }
        assert((Gathering { done: text::views(done@), current: current@ }) =~= with_block(
            title@,
            g,
            blocks@[i as int]@,
        ));
        i = i + 1;
    }
    assert(all.take(all.len() as int) =~= all);
    flush(&name, &mut done, &current);
    assert(text::views(done@).len() == done@.len());
    if done.len() == 0 && text::trim_chars(&name).len() > 0 {
        let only = text::string_of(&name);
        proof {
            text::lemma_views_push(done@, only);
        }
        done.push(only);
        assert(text::views(done@) =~= seq![title@]);
    } else {
        let ghost whole = text::views(done@);
        if done.len() > MAX_CHUNKS {
            done.truncate(MAX_CHUNKS);
            assert(text::views(done@) =~= whole.take(MAX_CHUNKS as int));
        }
    }
    done
}

/// The fingerprint of a note as it would be embedded: taken over the chunks
/// rather than the file, so an edit that changes nothing about the text that
/// reaches the model costs nothing.
pub open spec fn digest(title: Seq<char>, prose: Seq<char>) -> Digest {
    Digest(
        sync::fnv(vstd::utf8::encode_utf8(text::join(pieces(title, prose), seq!['\u{1}']))),
    )
}

/// The fingerprint of a note as it would be embedded.
pub fn digest_of(title: &str, prose: &str) -> (r: Digest)
    ensures
        r == digest(title@, prose@),
{
    let list = chunks(title, prose);
    let ghost all = text::views(list@);
    let mut out: Vec<char> = Vec::new();
    let mut i: usize = 0;
    while i < list.len()
        invariant
            i <= list@.len(),
            all == text::views(list@),
            out@ == text::join(all.take(i as int), seq!['\u{1}']),
        decreases list@.len() - i,
    {
        assert(all.take(i + 1).drop_last() =~= all.take(i as int));
        if i > 0 {
            out.push('\u{1}');
        }
        text::extend(&mut out, &text::chars_of(list[i].as_str()));
        assert(out@ =~= text::join(all.take(i + 1), seq!['\u{1}']));
        i = i + 1;
    }
    assert(all.take(all.len() as int) =~= all);
    Digest::of(text::string_of(&out).as_str())
}

// ---- the store ----

/// One note's vectors, and the version of the note they describe.
#[derive(Debug, PartialEq, Eq)]
pub struct Embedded {
    pub digest: Digest,
    /// One unit vector per chunk, in the order the chunks appear in the note.
    pub chunks: Chunks,
}

/// One note's vectors, by their bits.
#[verifier::ext_equal]
pub struct EmbeddedView {
    pub digest: Digest,
    pub chunks: Seq<Seq<u32>>,
}

impl View for Embedded {
    type V = EmbeddedView;

    open spec fn view(&self) -> EmbeddedView {
        EmbeddedView { digest: self.digest, chunks: text::views(self.chunks@) }
    }
}

/// The vectors that are held.
///
/// `model` is part of the store because vectors from two models are not
/// comparable. When it changes the store is emptied rather than migrated.
#[derive(Debug, PartialEq, Eq)]
pub struct Store {
    /// Which model produced these vectors, as the server names it.
    pub model: String,
    pub notes: TextMap<NoteId, Embedded>,
}

/// The vectors that are held, by note.
#[verifier::ext_equal]
pub struct StoreView {
    pub model: Seq<char>,
    pub notes: Map<Seq<char>, EmbeddedView>,
}

impl View for Store {
    type V = StoreView;

    open spec fn view(&self) -> StoreView {
        StoreView { model: self.model@, notes: ordered::value_views(self.notes@) }
    }
}

/// A store pointed at a model.
pub open spec fn with_model(store: StoreView, model: Seq<char>) -> StoreView {
    if store.model == model {
        store
    } else {
        StoreView { model, notes: Map::empty() }
    }
}

impl Default for Store {
    /// A store with no vectors, for no model.
    fn default() -> (r: Self)
        ensures
            r@ == (StoreView { model: seq![], notes: Map::empty() }),
    {
        let r = Store { model: String::new(), notes: TextMap::new() };
        assert(r@ =~= (StoreView { model: seq![], notes: Map::empty() }));
        r
    }
}

impl Store {
    /// A store with no vectors, for a model.
    pub fn new(model: &str) -> (r: Self)
        ensures
            r@ == (StoreView { model: model@, notes: Map::empty() }),
    {
        let r = Store { model: text::string_of(&text::chars_of(model)), notes: TextMap::new() };
        assert(r@ =~= (StoreView { model: model@, notes: Map::empty() }));
        r
    }

    /// How many notes have vectors.
    pub fn len(&self) -> (n: usize)
        ensures
            self@.notes.dom().finite(),
            n == self@.notes.dom().len(),
    {
        assert(self@.notes.dom() =~= self.notes@.dom());
        self.notes.len()
    }

    /// Whether none has.
    pub fn is_empty(&self) -> (r: bool)
        ensures
            r == (self@.notes == Map::<Seq<char>, EmbeddedView>::empty()),
    {
        let r = self.len() == 0;
        proof {
            if r {
                assert(self@.notes =~= Map::<Seq<char>, EmbeddedView>::empty());
            }
        }
        r
    }

    /// Whether a note has vectors.
    pub fn contains(&self, id: &NoteId) -> (r: bool)
        ensures
            r == self@.notes.contains_key(id@),
    {
        self.notes.contains(id.as_str())
    }

    /// The vectors of a note.
    pub fn get(&self, id: &NoteId) -> (r: Option<&Embedded>)
        ensures
            match r {
                Some(e) => self@.notes.contains_key(id@) && e@ == self@.notes[id@],
                None => !self@.notes.contains_key(id@),
            },
    {
        self.notes.get(id.as_str())
    }

    /// The notes that have vectors, in order.
    pub fn ids(&self) -> (r: Vec<NoteId>)
        ensures
            text::views(r@) == ordered::ascending(self@.notes.dom()),
    {
        assert(self@.notes.dom() =~= self.notes@.dom());
        let n = self.notes.len();
        let ghost order = ordered::ascending(self.notes@.dom());
        let mut r: Vec<NoteId> = Vec::new();
        let mut i: usize = 0;
        while i < n
            invariant
                i <= n == order.len(),
                order == ordered::ascending(self.notes@.dom()),
                text::views(r@) == order.take(i as int),
            decreases n - i,
        {
            let id = self.notes.key(i).clone();
            proof {
                text::lemma_views_push(r@, id);
                assert(order.take(i + 1) =~= order.take(i as int).push(id@));
            }
            r.push(id);
            i = i + 1;
        }
        assert(order.take(n as int) =~= order);
        r
    }

    /// Point the store at a model, emptying it if that is a different one.
    ///
    /// Reports whether anything was thrown away.
    pub fn set_model(&mut self, model: &str) -> (r: bool)
        ensures
            final(self)@ == with_model(old(self)@, model@),
            r == (old(self)@.model != model@ && old(self)@.notes != Map::<
                Seq<char>,
                EmbeddedView,
            >::empty()),
    {
        if text::same(self.model.as_str(), model) {
            return false;
        }
        let had = !self.is_empty();
        *self = Store::new(model);
        had
    }

    /// Keep the vectors of a note, one for each of its chunks.
    pub fn insert(&mut self, id: &NoteId, digest: Digest, chunks: Chunks)
        ensures
            final(self)@ == (StoreView {
                model: old(self)@.model,
                notes: old(self)@.notes.insert(
                    id@,
                    (EmbeddedView { digest, chunks: text::views(chunks@) }),
                ),
            }),
    {
        let e = Embedded { digest, chunks };
        proof {
            ordered::lemma_value_views_insert(self.notes@, id@, e);
        }
        self.notes.insert(id.clone(), e);
    }
}

// ---- the nearest notes ----

/// The strongest of some similarities.
pub open spec fn strongest(similarities: Seq<u32>) -> Option<u32>
    decreases similarities.len(),
{
    if similarities.len() == 0 {
        None
    } else {
        match strongest(similarities.drop_last()) {
            Some(best) => if best >= similarities.last() {
                Some(best)
            } else {
                Some(similarities.last())
            },
            None => Some(similarities.last()),
        }
    }
}

/// Some notes, each with its strongest similarity, those that have none left
/// out.
pub open spec fn similar(ids: Seq<Seq<char>>, chunks: Map<Seq<char>, Seq<u32>>) -> Seq<
    (Seq<char>, u32),
>
    decreases ids.len(),
{
    if ids.len() == 0 {
        seq![]
    } else {
        let before = similar(ids.drop_last(), chunks);
        let id = ids.last();
        if chunks.contains_key(id) && strongest(chunks[id]) is Some {
            before.push((id, strongest(chunks[id])->0))
        } else {
            before
        }
    }
}

fn strongest_of(similarities: &Vec<u32>) -> (r: Option<u32>)
    ensures
        r == strongest(similarities@),
{
    let ghost all = similarities@;
    let mut best: Option<u32> = None;
    let mut i: usize = 0;
    assert(all.take(0) =~= seq![]);
    while i < similarities.len()
        invariant
            i <= similarities@.len(),
            all == similarities@,
            best == strongest(all.take(i as int)),
        decreases similarities@.len() - i,
    {
        assert(all.take(i + 1).drop_last() =~= all.take(i as int));
        assert(all.take(i + 1).last() == all[i as int]);
        let one = similarities[i];
        best = match best {
            Some(b) => if b >= one {
                Some(b)
            } else {
                Some(one)
            },
            None => Some(one),
        };
        i = i + 1;
    }
    assert(all.take(all.len() as int) =~= all);
    best
}

impl Store {
    /// The notes nearest to a query, nearest first, given how similar each of
    /// their chunks is to it, by whole numbers that order as the similarities
    /// do. A note scores as its best chunk, not its average.
    ///
    /// `floor` is the least similarity worth returning: a query about nothing in
    /// the vault returns nothing rather than the least unrelated note.
    pub fn nearest(&self, chunks: &TextMap<NoteId, Vec<u32>>, floor: u32, limit: usize) -> (r: Vec<
        Scored,
    >)
        ensures
            text::views(r@) == ranked::best(
                similar(
                    ordered::ascending(self@.notes.dom()),
                    ordered::value_views(chunks@),
                ),
                floor,
                limit as int,
            ),
    {
        let ids = self.ids();
        let ghost order = text::views(ids@);
        let ghost known = ordered::value_views(chunks@);
        let mut scored: Vec<Scored> = Vec::new();
        let mut i: usize = 0;
        assert(order.len() == ids@.len());
        assert(text::views(scored@) =~= similar(order.take(0), known));
        while i < ids.len()
            invariant
                i <= ids@.len() == order.len(),
                order == text::views(ids@),
                known == ordered::value_views(chunks@),
                text::views(scored@) == similar(order.take(i as int), known),
            decreases ids@.len() - i,
        {
            assert(order.take(i + 1).drop_last() =~= order.take(i as int));
            assert(order.take(i + 1).last() == ids@[i as int]@);
            if let Some(found) = chunks.get(ids[i].as_str()) {
                assert(known[ids@[i as int]@] == found@);
                if let Some(score) = strongest_of(found) {
                    let one = Scored { id: ids[i].clone(), score };
                    proof {
                        text::lemma_views_push(scored@, one);
                    }
                    scored.push(one);
                }
            }
            i = i + 1;
        }
        assert(order.take(order.len() as int) =~= order);
        ranked::shortlist(scored, floor, limit)
    }
}

// ---- the plan ----

/// What a note is currently worth embedding: its id, and the fingerprint of
/// the text that would go to the model.
#[derive(Debug, PartialEq, Eq)]
pub struct Wanted {
    pub id: NoteId,
    pub digest: Digest,
}

impl View for Wanted {
    type V = (Seq<char>, Digest);

    open spec fn view(&self) -> (Seq<char>, Digest) {
        (self.id@, self.digest)
    }
}

impl Ranked for Wanted {
    /// By id, so that a plan does not depend on the order in which the vault is
    /// listed.
    open spec fn before(a: (Seq<char>, Digest), b: (Seq<char>, Digest)) -> bool {
        ordered::precedes(a.0, b.0) || (a.0 == b.0 && a.1.0 < b.1.0)
    }

    fn goes_before(&self, other: &Self) -> (r: bool) {
        ordered::comes_before(self.id.as_str(), other.id.as_str()) || (self.id.same(&other.id)
            && self.digest.0 < other.digest.0)
    }
}

/// A note that moved: the same content under a new id.
#[derive(Debug, PartialEq, Eq)]
pub struct Moved {
    pub from: NoteId,
    pub to: NoteId,
}

impl View for Moved {
    type V = (Seq<char>, Seq<char>);

    open spec fn view(&self) -> (Seq<char>, Seq<char>) {
        (self.from@, self.to@)
    }
}

/// The work needed to bring the store level with the vault. Empty in every
/// field is the normal steady state.
#[derive(Debug, PartialEq, Eq)]
pub struct Plan {
    /// Notes with no usable vectors: new, edited, or never embedded.
    pub embed: Vec<NoteId>,
    /// Notes whose vectors exist under another id and can be carried across.
    pub moved: Vec<Moved>,
    /// Ids the vault no longer has.
    pub drop: Vec<NoteId>,
}

/// The work needed, by the texts of the ids.
#[verifier::ext_equal]
pub struct Work {
    pub embed: Seq<Seq<char>>,
    pub moved: Seq<(Seq<char>, Seq<char>)>,
    pub drop: Seq<Seq<char>>,
}

impl View for Plan {
    type V = Work;

    open spec fn view(&self) -> Work {
        Work {
            embed: text::views(self.embed@),
            moved: text::views(self.moved@),
            drop: text::views(self.drop@),
        }
    }
}

/// No work.
pub open spec fn nothing() -> Work {
    Work { embed: seq![], moved: seq![], drop: seq![] }
}

impl Default for Plan {
    fn default() -> (r: Self)
        ensures
            r@ == nothing(),
    {
        let r = Plan { embed: Vec::new(), moved: Vec::new(), drop: Vec::new() };
        assert(r@ =~= nothing());
        r
    }
}

impl Plan {
    /// Whether there is nothing to do.
    pub fn is_empty(&self) -> (r: bool)
        ensures
            r == (self@ == nothing()),
    {
        let r = self.embed.len() == 0 && self.moved.len() == 0 && self.drop.len() == 0;
        proof {
            if r {
                assert(self@ =~= nothing());
            }
            assert(self@.embed.len() == self.embed@.len());
            assert(self@.moved.len() == self.moved@.len());
            assert(self@.drop.len() == self.drop@.len());
        }
        r
    }

    /// How many notes this plan has the model embed. A move costs none.
    pub fn embeddings(&self) -> (n: usize)
        ensures
            n == self@.embed.len(),
    {
        self.embed.len()
    }
}

/// Whether the vault lists an id.
pub open spec fn is_live(wanted: Seq<(Seq<char>, Digest)>, id: Seq<char>) -> bool {
    exists|i: int| 0 <= i < wanted.len() && (#[trigger] wanted[i]).0 == id
}

/// Whether the vectors of an id have been carried to another.
pub open spec fn is_claimed(moved: Seq<(Seq<char>, Seq<char>)>, id: Seq<char>) -> bool {
    exists|i: int| 0 <= i < moved.len() && (#[trigger] moved[i]).0 == id
}

/// Whether an id that is stored is gone from the vault, and not carried
/// anywhere.
pub open spec fn is_orphan(
    wanted: Seq<(Seq<char>, Digest)>,
    moved: Seq<(Seq<char>, Seq<char>)>,
    id: Seq<char>,
) -> bool {
    !is_live(wanted, id) && !is_claimed(moved, id)
}

/// The last of some ids that is an orphan with this content.
pub open spec fn last_orphan(
    notes: Map<Seq<char>, EmbeddedView>,
    wanted: Seq<(Seq<char>, Digest)>,
    moved: Seq<(Seq<char>, Seq<char>)>,
    digest: Digest,
    ids: Seq<Seq<char>>,
) -> Option<Seq<char>>
    decreases ids.len(),
{
    if ids.len() == 0 {
        None
    } else if is_orphan(wanted, moved, ids.last()) && notes[ids.last()].digest == digest {
        Some(ids.last())
    } else {
        last_orphan(notes, wanted, moved, digest, ids.drop_last())
    }
}

/// A plan with one more note of the vault in it.
pub open spec fn with_want(
    notes: Map<Seq<char>, EmbeddedView>,
    wanted: Seq<(Seq<char>, Digest)>,
    work: Work,
    want: (Seq<char>, Digest),
) -> Work {
    if notes.contains_key(want.0) {
        if notes[want.0].digest == want.1 {
            work
        } else {
            Work { embed: work.embed.push(want.0), ..work }
        }
    } else {
        match last_orphan(
            notes,
            wanted,
            work.moved,
            want.1,
            ordered::ascending(notes.dom()),
        ) {
            Some(from) => Work { moved: work.moved.push((from, want.0)), ..work },
            None => Work { embed: work.embed.push(want.0), ..work },
        }
    }
}

/// A plan with some notes of the vault in it.
pub open spec fn with_wants(
    notes: Map<Seq<char>, EmbeddedView>,
    wanted: Seq<(Seq<char>, Digest)>,
    among: Seq<(Seq<char>, Digest)>,
) -> Work
    decreases among.len(),
{
    if among.len() == 0 {
        nothing()
    } else {
        with_want(notes, wanted, with_wants(notes, wanted, among.drop_last()), among.last())
    }
}

/// Those of some ids that are orphans.
pub open spec fn orphans(
    wanted: Seq<(Seq<char>, Digest)>,
    moved: Seq<(Seq<char>, Seq<char>)>,
    ids: Seq<Seq<char>>,
) -> Seq<Seq<char>>
    decreases ids.len(),
{
    if ids.len() == 0 {
        ids
    } else if is_orphan(wanted, moved, ids.last()) {
        orphans(wanted, moved, ids.drop_last()).push(ids.last())
    } else {
        orphans(wanted, moved, ids.drop_last())
    }
}

/// The plan for a vault listed in order.
pub open spec fn planned_in_order(
    notes: Map<Seq<char>, EmbeddedView>,
    wanted: Seq<(Seq<char>, Digest)>,
) -> Work {
    let work = with_wants(notes, wanted, wanted);
    Work { drop: orphans(wanted, work.moved, ordered::ascending(notes.dom())), ..work }
}

/// What it would take to bring a store level with a vault.
pub open spec fn planned(
    notes: Map<Seq<char>, EmbeddedView>,
    wanted: Seq<(Seq<char>, Digest)>,
) -> Work {
    planned_in_order(notes, ranked::ranked::<Wanted>(wanted))
}

fn live(wanted: &Vec<Wanted>, id: &NoteId) -> (r: bool)
    ensures
        r == is_live(text::views(wanted@), id@),
{
    let ghost all = text::views(wanted@);
    let mut i: usize = 0;
    while i < wanted.len()
        invariant
            i <= wanted@.len(),
            all == text::views(wanted@),
            forall|j: int| 0 <= j < i ==> (#[trigger] all[j]).0 != id@,
        decreases wanted@.len() - i,
    {
        if wanted[i].id.same(id) {
            assert(all[i as int].0 == id@);
            return true;
        }
        assert(all[i as int].0 != id@);
        i = i + 1;
    }
    false
}

fn claimed(moved: &Vec<Moved>, id: &NoteId) -> (r: bool)
    ensures
        r == is_claimed(text::views(moved@), id@),
{
    let ghost all = text::views(moved@);
    let mut i: usize = 0;
    while i < moved.len()
        invariant
            i <= moved@.len(),
            all == text::views(moved@),
            forall|j: int| 0 <= j < i ==> (#[trigger] all[j]).0 != id@,
        decreases moved@.len() - i,
    {
        if moved[i].from.same(id) {
            assert(all[i as int].0 == id@);
            return true;
        }
        assert(all[i as int].0 != id@);
        i = i + 1;
    }
    false
}

fn find_orphan(store: &Store, wanted: &Vec<Wanted>, moved: &Vec<Moved>, digest: Digest) -> (r:
    Option<NoteId>)
    ensures
        match r {
            Some(id) => last_orphan(
                store@.notes,
                text::views(wanted@),
                text::views(moved@),
                digest,
                ordered::ascending(store@.notes.dom()),
            ) == Some(id@),
            None => last_orphan(
                store@.notes,
                text::views(wanted@),
                text::views(moved@),
                digest,
                ordered::ascending(store@.notes.dom()),
            ) is None,
        },
{
    assert(store@.notes.dom() =~= store.notes@.dom());
    let n = store.notes.len();
    let ghost order = ordered::ascending(store.notes@.dom());
    let ghost w = text::views(wanted@);
    let ghost m = text::views(moved@);
    let ghost answer = last_orphan(store@.notes, w, m, digest, order);
    let mut i: usize = n;
    assert(order.take(n as int) =~= order);
    while i > 0
        invariant
            i <= n == order.len(),
            order == ordered::ascending(store.notes@.dom()),
            store@.notes.dom() == store.notes@.dom(),
            w == text::views(wanted@),
            m == text::views(moved@),
            answer == last_orphan(store@.notes, w, m, digest, order),
            answer == last_orphan(store@.notes, w, m, digest, order.take(i as int)),
        decreases i,
    {
        assert(order.take(i as int).drop_last() =~= order.take(i - 1));
        let id = store.notes.key(i - 1);
        let e = store.notes.value(i - 1);
        assert(order.take(i as int).last() == id@);
        assert(store@.notes[id@] == e@);
        if e.digest == digest && !live(wanted, id) && !claimed(moved, id) {
            return Some(id.clone());
        }
        i = i - 1;
    }
    None
}

fn copy_wanted(wanted: &[Wanted]) -> (r: Vec<Wanted>)
    ensures
        text::views(r@) == text::views(wanted@),
{
    let ghost all = text::views(wanted@);
    let mut r: Vec<Wanted> = Vec::new();
    let mut i: usize = 0;
    while i < wanted.len()
        invariant
            i <= wanted@.len(),
            all == text::views(wanted@),
            text::views(r@) == all.take(i as int),
        decreases wanted@.len() - i,
    {
        let w = Wanted { id: wanted[i].id.clone(), digest: wanted[i].digest };
        proof {
            text::lemma_views_push(r@, w);
            assert(all.take(i + 1) =~= all.take(i as int).push(w@));
        }
        r.push(w);
        i = i + 1;
    }
    assert(all.take(all.len() as int) =~= all);
    r
}

/// What it would take to bring `store` level with `wanted`.
///
/// Pure, and total: every id in either input ends up in exactly one of the
/// plan's three lists or in none of them, and the result does not depend on
/// the order `wanted` arrives in.
pub fn plan(store: &Store, wanted: &[Wanted]) -> (r: Plan)
    ensures
        r@ == planned(store@.notes, text::views(wanted@)),
{
    let wanted = ranked::rank(copy_wanted(wanted));
    let ghost w = text::views(wanted@);
    let ghost notes = store@.notes;
    let mut plan = Plan::default();
    let mut i: usize = 0;
    assert(plan@ =~= with_wants(notes, w, w.take(0)));
    while i < wanted.len()
        invariant
            i <= wanted@.len(),
            w == text::views(wanted@),
            notes == store@.notes,
            plan@ == with_wants(notes, w, w.take(i as int)),
        decreases wanted@.len() - i,
    {
        assert(w.take(i + 1).drop_last() =~= w.take(i as int));
        let want = &wanted[i];
        assert(w.take(i + 1).last() == want@);
        let ghost before = plan@;
        match store.get(&want.id) {
            Some(e) => {
                if e.digest != want.digest {
                    plan.embed.push(want.id.clone());
                    assert(plan@ =~= (Work { embed: before.embed.push(want.id@), ..before }));
                }
            },
            None => match find_orphan(store, &wanted, &plan.moved, want.digest) {
                Some(from) => {
                    let ghost old_id = from@;
                    plan.moved.push(Moved { from, to: want.id.clone() });
                    assert(plan@ =~= (Work {
                        moved: before.moved.push((old_id, want.id@)),
                        ..before
                    }));
                },
                None => {
                    plan.embed.push(want.id.clone());
                    assert(plan@ =~= (Work { embed: before.embed.push(want.id@), ..before }));
                },
            },
        }
        i = i + 1;
    }
    assert(w.take(w.len() as int) =~= w);
    let ids = store.ids();
    let ghost order = text::views(ids@);
    let ghost work = plan@;
    let mut drop: Vec<NoteId> = Vec::new();
    let mut i: usize = 0;
    assert(text::views(drop@) =~= orphans(w, work.moved, order.take(0)));
    while i < ids.len()
        invariant
            i <= ids@.len(),
            order == text::views(ids@),
            w == text::views(wanted@),
            work == plan@,
            text::views(drop@) == orphans(w, work.moved, order.take(i as int)),
        decreases ids@.len() - i,
    {
        assert(order.take(i + 1).drop_last() =~= order.take(i as int));
        let id = &ids[i];
        assert(order.take(i + 1).last() == id@);
        if !live(&wanted, id) && !claimed(&plan.moved, id) {
            let copy = id.clone();
            proof {
                text::lemma_views_push(drop@, copy);
            }
            drop.push(copy);
        }
        i = i + 1;
    }
    assert(order.take(order.len() as int) =~= order);
    plan.drop = drop;
    assert(plan@ =~= planned_in_order(notes, w));
    plan
}

// ---- carrying a plan out ----

/// Vectors once some moves have been made.
pub open spec fn carried(
    notes: Map<Seq<char>, EmbeddedView>,
    moved: Seq<(Seq<char>, Seq<char>)>,
) -> Map<Seq<char>, EmbeddedView>
    decreases moved.len(),
{
    if moved.len() == 0 {
        notes
    } else {
        let before = carried(notes, moved.drop_last());
        let (from, to) = moved.last();
        if before.contains_key(from) {
            before.remove(from).insert(to, before[from])
        } else {
            before
        }
    }
}

/// Vectors without those of some notes.
pub open spec fn without(
    notes: Map<Seq<char>, EmbeddedView>,
    ids: Seq<Seq<char>>,
) -> Map<Seq<char>, EmbeddedView>
    decreases ids.len(),
{
    if ids.len() == 0 {
        notes
    } else {
        without(notes, ids.drop_last()).remove(ids.last())
    }
}

/// Vectors once a plan's moves and drops have been made.
pub open spec fn applied(notes: Map<Seq<char>, EmbeddedView>, work: Work) -> Map<
    Seq<char>,
    EmbeddedView,
> {
    without(carried(notes, work.moved), work.drop)
}

impl Store {
    /// Carry out a plan's bookkeeping: the moves and the drops.
    ///
    /// The embeddings are left to the caller because they need a model and this
    /// does not.
    pub fn apply(&mut self, plan: &Plan)
        ensures
            final(self)@ == (StoreView {
                model: old(self)@.model,
                notes: applied(old(self)@.notes, plan@),
            }),
    {
        let ghost start = self@;
        let ghost moved = plan@.moved;
        let mut i: usize = 0;
        while i < plan.moved.len()
            invariant
                i <= plan.moved@.len(),
                moved == text::views(plan.moved@),
                self@.model == start.model,
                self@.notes == carried(start.notes, moved.take(i as int)),
            decreases plan.moved@.len() - i,
        {
            assert(moved.take(i + 1).drop_last() =~= moved.take(i as int));
            let m = &plan.moved[i];
            assert(moved.take(i + 1).last() == m@);
            let ghost before = self.notes@;
            match self.notes.remove(m.from.as_str()) {
                Some(e) => {
                    proof {
                        assert(ordered::value_views(before.remove(m.from@))
                            =~= ordered::value_views(before).remove(m.from@));
                        ordered::lemma_value_views_insert(self.notes@, m.to@, e);
                    }
                    self.notes.insert(m.to.clone(), e);
                },
                None => {
                    assert(before.remove(m.from@) =~= before);
                },
            }
            i = i + 1;
        }
        assert(moved.take(moved.len() as int) =~= moved);
        let ghost halfway = self@.notes;
        let ghost drop = plan@.drop;
        let mut i: usize = 0;
        while i < plan.drop.len()
            invariant
                i <= plan.drop@.len(),
                drop == text::views(plan.drop@),
                self@.model == start.model,
                self@.notes == without(halfway, drop.take(i as int)),
            decreases plan.drop@.len() - i,
        {
            assert(drop.take(i + 1).drop_last() =~= drop.take(i as int));
            let id = &plan.drop[i];
            assert(drop.take(i + 1).last() == id@);
            let ghost before = self.notes@;
            self.notes.remove(id.as_str());
            assert(ordered::value_views(before.remove(id@)) =~= ordered::value_views(
                before,
            ).remove(id@));
            i = i + 1;
        }
        assert(drop.take(drop.len() as int) =~= drop);
    }
}

/// The text of a note in an index.
pub open spec fn prose_of(entries: Map<Seq<char>, index::EntryView>, id: Seq<char>) -> Seq<char> {
    match index::found(entries, id) {
        Some(e) => e.text,
        None => seq![],
    }
}

/// What a vault currently wants embedded.
pub open spec fn wanted_of(entries: Map<Seq<char>, index::EntryView>) -> Seq<(Seq<char>, Digest)> {
    ordered::ascending(entries.dom()).map_values(
        |id: Seq<char>| (id, digest(note::title(id), prose_of(entries, id))),
    )
}

/// What the vault currently wants embedded.
pub fn wanted(index: &Index) -> (r: Vec<Wanted>)
    ensures
        text::views(r@) == wanted_of(index@),
{
    let ids = index.ids();
    let ghost order = text::views(ids@);
    let ghost want = wanted_of(index@);
    let mut r: Vec<Wanted> = Vec::new();
    let mut i: usize = 0;
    assert(text::views(r@) =~= want.take(0));
    while i < ids.len()
        invariant
            i <= ids@.len(),
            order == text::views(ids@),
            order == ordered::ascending(index@.dom()),
            want == wanted_of(index@),
            text::views(r@) == want.take(i as int),
        decreases ids@.len() - i,
    {
        let id = &ids[i];
        assert(order[i as int] == id@);
        let w = Wanted { id: id.clone(), digest: digest_of(id.title(), index.text(id)) };
        proof {
            text::lemma_views_push(r@, w);
            assert(want[i as int] == w@);
            assert(want.take(i + 1) =~= want.take(i as int).push(want[i as int]));
        }
        r.push(w);
        i = i + 1;
    }
    assert(want.take(ids@.len() as int) =~= want);
    r
}

/// Why embedding did not happen. One string: every caller's recovery is the
/// same, leave the note unembedded and try again next time.
#[derive(Debug, PartialEq, Eq)]
pub struct EmbedError(pub String);

impl EmbedError {
    /// The error as text.
    pub fn text(&self) -> (r: &str)
        ensures
            r@ == self.0@,
    {
        self.0.as_str()
    }
}

/// The vectors in a reply, if it holds any, by their bits.
pub open spec fn reply_view(reply: Result<Chunks, EmbedError>) -> Option<Seq<Seq<u32>>> {
    match reply {
        Ok(vectors) => Some(text::views(vectors@)),
        Err(_) => None,
    }
}

/// Whether a result is the first vector of a reply to one text: an error stays
/// the error it is, and a reply without a vector becomes one.
pub open spec fn is_first(
    reply: Result<Chunks, EmbedError>,
    r: Result<Vec<u32>, EmbedError>,
) -> bool {
    match (reply, r) {
        (Ok(vectors), Ok(v)) => vectors@.len() > 0 && v@ == vectors@[0]@,
        (Ok(vectors), Err(e)) => vectors@.len() == 0 && e.0@
            == "no vector came back for the query"@,
        (Err(e), r) => r == Err::<Vec<u32>, EmbedError>(e),
    }
}

/// The first vector of a reply to one text.
pub fn first_vector(reply: Result<Chunks, EmbedError>) -> (r: Result<Vec<u32>, EmbedError>)
    ensures
        is_first(reply, r),
{
    match reply {
        Ok(vectors) => {
            let mut vectors = vectors;
            if vectors.len() > 0 {
                Ok(vectors.remove(0))
            } else {
                Err(
                    EmbedError(
                        text::string_of(&text::chars_of("no vector came back for the query")),
                    ),
                )
            }
        },
        Err(e) => Err(e),
    }
}

/// Where vectors come from.
///
/// A trait because the thing on the other side is a model server on the
/// network, and everything here has to work without one. Synchronous on
/// purpose: the caller runs it on a worker thread.
pub trait Embedder {
    /// What the server calls the model, so the store can tell when it changed.
    fn model(&self) -> (r: String);

    /// One unit vector per text, in order. Anything else is a protocol error
    /// and the caller treats it as a failure.
    fn embed(&self, texts: &Vec<String>) -> (r: Result<Chunks, EmbedError>);

    /// Embed a *question* rather than a passage: the retrieval models worth
    /// running locally are trained asymmetrically. A model with no such
    /// convention says nothing, and then the question is embedded as the one
    /// passage it is: the result is the first vector of the reply.
    fn embed_query(&self, query: &str) -> (r: Result<Vec<u32>, EmbedError>)
        default_ensures
            exists|texts: Vec<String>, reply: Result<Chunks, EmbedError>| #[trigger]
                call_ensures(Self::embed, (self, &texts), reply) && text::views(texts@)
                    == seq![query@] && is_first(reply, r),
    {
        let mut texts: Vec<String> = Vec::new();
        texts.push(text::string_of(&text::chars_of(query)));
        assert(text::views(texts@) =~= seq![query@]);
        let reply = self.embed(&texts);
        assert(call_ensures(Self::embed, (self, &texts), reply));
        first_vector(reply)
    }
}

/// What one catch-up pass did.
#[derive(Debug, Clone, Copy, PartialEq, Eq, Structural)]
pub struct Report {
    pub embedded: usize,
    pub moved: usize,
    pub dropped: usize,
    /// Notes still waiting for a model, because the server stopped answering
    /// part way through. Not an error: the next pass picks them up.
    pub pending: usize,
    /// The store was emptied because the model changed underneath it.
    pub reset: bool,
}

/// A report of nothing.
pub open spec fn quiet() -> Report {
    Report { embedded: 0, moved: 0, dropped: 0, pending: 0, reset: false }
}

impl Default for Report {
    fn default() -> (r: Self)
        ensures
            r == quiet(),
    {
        Report { embedded: 0, moved: 0, dropped: 0, pending: 0, reset: false }
    }
}

impl Report {
    /// Whether nothing happened. A quiet vault reports nothing at all, which is
    /// what makes it safe to run a pass after every rescan.
    pub fn is_quiet(&self) -> (r: bool)
        ensures
            r == (*self == quiet()),
    {
        self.embedded == 0 && self.moved == 0 && self.dropped == 0 && self.pending == 0
            && !self.reset
    }
}

/// How far a pass has come with the notes to embed.
#[verifier::ext_equal]
pub struct Pass {
    pub notes: Map<Seq<char>, EmbeddedView>,
    pub embedded: nat,
    /// How many replies were used.
    pub used: nat,
    /// Whether the server stopped answering.
    pub stopped: bool,
}

/// A pass with one more note looked at, given the reply to it. A note with
/// nothing to embed is passed over without asking.
pub open spec fn with_reply(
    pass: Pass,
    id: Seq<char>,
    prose: Seq<char>,
    reply: Option<Seq<Seq<u32>>>,
) -> Pass {
    let texts = pieces(note::title(id), prose);
    if pass.stopped || texts.len() == 0 {
        pass
    } else {
        match reply {
            Some(vectors) if vectors.len() == texts.len() => Pass {
                notes: pass.notes.insert(
                    id,
                    EmbeddedView { digest: digest(note::title(id), prose), chunks: vectors },
                ),
                embedded: pass.embedded + 1,
                used: pass.used + 1,
                stopped: false,
            },
            _ => Pass { used: pass.used + 1, stopped: true, ..pass },
        }
    }
}

/// A pass over some notes to embed, given the replies in the order in which
/// they came.
pub open spec fn passed(
    notes: Map<Seq<char>, EmbeddedView>,
    entries: Map<Seq<char>, index::EntryView>,
    ids: Seq<Seq<char>>,
    replies: Seq<Option<Seq<Seq<u32>>>>,
) -> Pass
    decreases ids.len(),
{
    if ids.len() == 0 {
        Pass { notes, embedded: 0, used: 0, stopped: false }
    } else {
        let before = passed(notes, entries, ids.drop_last(), replies);
        let id = ids.last();
        with_reply(before, id, prose_of(entries, id), replies[before.used as int])
    }
}

/// What is asked about some notes to embed, in turn.
pub open spec fn asked(
    entries: Map<Seq<char>, index::EntryView>,
    ids: Seq<Seq<char>>,
) -> Seq<Seq<Seq<char>>>
    decreases ids.len(),
{
    if ids.len() == 0 {
        seq![]
    } else {
        let before = asked(entries, ids.drop_last());
        let texts = pieces(note::title(ids.last()), prose_of(entries, ids.last()));
        if texts.len() > 0 {
            before.push(texts)
        } else {
            before
        }
    }
}

/// What the store needs under a model, moves and drops made.
pub open spec fn levelled(
    store: StoreView,
    entries: Map<Seq<char>, index::EntryView>,
    model: Seq<char>,
) -> (Work, Map<Seq<char>, EmbeddedView>) {
    let notes = with_model(store, model).notes;
    let work = planned(notes, wanted_of(entries));
    (work, applied(notes, work))
}

/// What a whole pass comes to, given what the model is called and what it
/// replied.
pub open spec fn caught_up(
    store: StoreView,
    entries: Map<Seq<char>, index::EntryView>,
    model: Seq<char>,
    replies: Seq<Option<Seq<Seq<u32>>>>,
) -> (StoreView, Report) {
    let (work, notes) = levelled(store, entries, model);
    let pass = passed(notes, entries, work.embed, replies);
    (
        StoreView { model, notes: pass.notes },
        Report {
            embedded: pass.embedded as usize,
            moved: work.moved.len() as usize,
            dropped: work.drop.len() as usize,
            pending: if pass.stopped {
                (work.embed.len() - pass.embedded) as usize
            } else {
                0
            },
            reset: store.model != model && store.notes != Map::<Seq<char>, EmbeddedView>::empty(),
        },
    )
}

/// Whether a model may be called something.
pub open spec fn is_name<E: Embedder>(embedder: E, model: Seq<char>) -> bool {
    exists|r: String| #[trigger] call_ensures(E::model, (&embedder,), r) && r@ == model
}

/// Whether a reply is one that a model may give to some texts.
pub open spec fn is_answer<E: Embedder>(
    embedder: E,
    texts: Seq<Seq<char>>,
    reply: Option<Seq<Seq<u32>>>,
) -> bool {
    exists|handed: Vec<String>, r: Result<Chunks, EmbedError>| #[trigger]
        call_ensures(E::embed, (&embedder, &handed), r) && text::views(handed@) == texts
            && reply_view(r) == reply
}

/// Whether some replies are what a model may have answered to what it was
/// asked, in turn.
pub open spec fn are_answers<E: Embedder>(
    embedder: E,
    asked: Seq<Seq<Seq<char>>>,
    replies: Seq<Option<Seq<Seq<u32>>>>,
) -> bool {
    replies.len() <= asked.len() && forall|i: int|
        0 <= i < replies.len() ==> is_answer(embedder, asked[i], #[trigger] replies[i])
}

/// Take the reply to one note's texts into the store. `false` is a reply that
/// is no use: the pass ends there.
pub fn absorb(
    store: &mut Store,
    id: &NoteId,
    prose: &str,
    texts: usize,
    reply: Result<Chunks, EmbedError>,
) -> (r: bool)
    ensures
        match reply_view(reply) {
            Some(vectors) if vectors.len() == texts => r && final(store)@ == (StoreView {
                model: old(store)@.model,
                notes: old(store)@.notes.insert(
                    id@,
                    (EmbeddedView { digest: digest(note::title(id@), prose@), chunks: vectors }),
                ),
            }),
            _ => !r && final(store)@ == old(store)@,
        },
{
    match reply {
        Ok(vectors) => {
            assert(text::views(vectors@).len() == vectors@.len());
            if vectors.len() == texts {
                store.insert(id, digest_of(id.title(), prose), vectors);
                true
            } else {
                false
            }
        },
        Err(_) => false,
    }
}

proof fn lemma_passed_ignores_later_replies(
    notes: Map<Seq<char>, EmbeddedView>,
    entries: Map<Seq<char>, index::EntryView>,
    ids: Seq<Seq<char>>,
    replies: Seq<Option<Seq<Seq<u32>>>>,
    more: Option<Seq<Seq<u32>>>,
)
    requires
        passed(notes, entries, ids, replies).used <= replies.len(),
    ensures
        passed(notes, entries, ids, replies.push(more)) == passed(notes, entries, ids, replies),
    decreases ids.len(),
{
    if ids.len() > 0 {
        let before = passed(notes, entries, ids.drop_last(), replies);
        assert(before.used <= passed(notes, entries, ids, replies).used);
        lemma_passed_ignores_later_replies(notes, entries, ids.drop_last(), replies, more);
        let id = ids.last();
        let texts = pieces(note::title(id), prose_of(entries, id));
        if !before.stopped && texts.len() > 0 {
            assert(before.used < replies.len());
        }
    }
}

/// Bring the store level with the vault, embedding whatever is missing.
///
/// The whole lifecycle in one call: notice what changed, carry moves across,
/// forget what is gone, embed the rest. A server that stops answering ends the
/// pass rather than failing it: what was embedded stays embedded, the rest is
/// reported as pending, and the next pass resumes.
pub fn catch_up<E: Embedder>(store: &mut Store, index: &Index, embedder: &E) -> (r: Report)
    ensures
        exists|model: Seq<char>, replies: Seq<Option<Seq<Seq<u32>>>>|
            is_name(*embedder, model) && are_answers(
                *embedder,
                asked(index@, levelled(old(store)@, index@, model).0.embed),
                replies,
            ) && passed(
                levelled(old(store)@, index@, model).1,
                index@,
                levelled(old(store)@, index@, model).0.embed,
                replies,
            ).used == replies.len() && #[trigger] caught_up(old(store)@, index@, model, replies) == (final(store)@, r),
{
    let ghost start = store@;
    let ghost entries = index@;
    let name = embedder.model();
    let ghost model = name@;
    assert(call_ensures(E::model, (embedder,), name));
    assert(is_name(*embedder, model));
    let reset = store.set_model(name.as_str());
    let wanted = wanted(index);
    let work = plan(store, &wanted);
    let ghost w = work@;
    store.apply(&work);
    let ghost notes = store@.notes;
    assert((w, notes) == levelled(start, entries, model));
    let ghost mut replies: Seq<Option<Seq<Seq<u32>>>> = seq![];
    let mut embedded: usize = 0;
    let mut pending: usize = 0;
    let mut stopped = false;
    let mut i: usize = 0;
    let n = work.embed.len();
    assert(asked(entries, w.embed.take(0)) =~= seq![]);
    while i < n && !stopped
        invariant
            i <= n == work.embed@.len(),
            entries == index@,
            w.embed == text::views(work.embed@),
            store@.model == model,
            embedded <= i,
            ({
                let p = passed(notes, entries, w.embed.take(i as int), replies);
                &&& p.notes == store@.notes
                &&& p.embedded == embedded
                &&& p.used == replies.len()
                &&& p.stopped == stopped
            }),
            !stopped ==> pending == 0 && replies.len() == asked(
                entries,
                w.embed.take(i as int),
            ).len(),
            stopped ==> pending == n - embedded,
            replies.len() <= asked(entries, w.embed.take(i as int)).len(),
            forall|k: int|
                0 <= k < replies.len() ==> is_answer(
                    *embedder,
                    asked(entries, w.embed.take(i as int))[k],
                    #[trigger] replies[k],
                ),
        decreases n - i,
    {
        let ghost before = w.embed.take(i as int);
        let ghost now = w.embed.take(i + 1);
        assert(now.drop_last() =~= before);
        let id = &work.embed[i];
        assert(now.last() == id@);
        let prose = index.text(id);
        assert(prose@ == prose_of(entries, id@));
        let texts = chunks(id.title(), prose);
        assert(text::views(texts@).len() == texts@.len());
        if texts.len() > 0 {
            let reply = embedder.embed(&texts);
            let ghost view = reply_view(reply);
            assert(call_ensures(E::embed, (embedder, &texts), reply));
            assert(is_answer(*embedder, text::views(texts@), view));
            let taken = absorb(store, id, prose, texts.len(), reply);
            proof {
                lemma_passed_ignores_later_replies(notes, entries, before, replies, view);
                replies = replies.push(view);
                assert(asked(entries, now) == asked(entries, before).push(text::views(texts@)));
            }
            if taken {
                embedded = embedded + 1;
            } else {
                pending = n - embedded;
                stopped = true;
            }
        }
        i = i + 1;
    }
    proof {
        let embed = w.embed;
        let done = embed.take(i as int);
        if stopped {
            lemma_passed_stays_stopped(notes, entries, embed, i as int, replies);
            lemma_asked_grows(entries, embed, i as int);
        } else {
            assert(done =~= embed);
        }
    }
    let r = Report { embedded, moved: work.moved.len(), dropped: work.drop.len(), pending, reset };
    assert(caught_up(start, entries, model, replies) == (store@, r));
    assert(are_answers(*embedder, asked(entries, w.embed), replies));
    r
}

proof fn lemma_passed_stays_stopped(
    notes: Map<Seq<char>, EmbeddedView>,
    entries: Map<Seq<char>, index::EntryView>,
    ids: Seq<Seq<char>>,
    n: int,
    replies: Seq<Option<Seq<Seq<u32>>>>,
)
    requires
        0 <= n <= ids.len(),
        passed(notes, entries, ids.take(n), replies).stopped,
    ensures
        passed(notes, entries, ids, replies) == passed(notes, entries, ids.take(n), replies),
    decreases ids.len(),
{
    if n < ids.len() {
        assert(ids.drop_last().take(n) =~= ids.take(n));
        lemma_passed_stays_stopped(notes, entries, ids.drop_last(), n, replies);
    } else {
        assert(ids.take(n) =~= ids);
    }
}

proof fn lemma_asked_grows(
    entries: Map<Seq<char>, index::EntryView>,
    ids: Seq<Seq<char>>,
    n: int,
)
    requires
        0 <= n <= ids.len(),
    ensures
        asked(entries, ids.take(n)).len() <= asked(entries, ids).len(),
        forall|k: int|
            0 <= k < asked(entries, ids.take(n)).len() ==> #[trigger] asked(
                entries,
                ids.take(n),
            )[k] == asked(entries, ids)[k],
    decreases ids.len(),
{
    if n < ids.len() {
        assert(ids.drop_last().take(n) =~= ids.take(n));
        lemma_asked_grows(entries, ids.drop_last(), n);
    } else {
        assert(ids.take(n) =~= ids);
    }
}

// ---- where the store is kept ----

/// The character of a hexadecimal digit.
pub open spec fn hex_digit(d: nat) -> char {
    if d < 10 {
        ((48 + d) as u8) as char
    } else {
        ((87 + d) as u8) as char
    }
}

/// A number in so many hexadecimal digits.
pub open spec fn hex(n: nat, width: nat) -> Seq<char>
    decreases width,
{
    if width == 0 {
        seq![]
    } else {
        hex(n / 16, (width - 1) as nat).push(hex_digit(n % 16))
    }
}

fn hex_of(n: u64, width: u8) -> (out: Vec<char>)
    ensures
        out@ == hex(n as nat, width as nat),
    decreases width,
{
    if width == 0 {
        return Vec::new();
    }
    let mut out = hex_of(n / 16, width - 1);
    let d = (n % 16) as u8;
    let c = if d < 10 {
        (48 + d) as char
    } else {
        (87 + d) as char
    };
    out.push(c);
    out
}

/// Where a vault's vectors are cached: in the user's cache directory, under a
/// name made of the vault's path, so two vaults have two stores and neither is
/// inside a vault.
pub open spec fn store_path(
    vault: Seq<char>,
    cache: Option<Seq<char>>,
    home: Option<Seq<char>>,
) -> Seq<char> {
    let base = match (cache, home) {
        (Some(cache), _) => cache,
        (None, Some(home)) => paths::joined(home, ".cache"@),
        (None, None) => "."@,
    };
    let name = "vectors-"@ + hex(
        sync::fnv(vstd::utf8::encode_utf8(vault)) as nat,
        16,
    ) + ".json"@;
    paths::joined(paths::joined(base, "brain"@), name)
}

/// Where a vault's vectors are cached, given the cache directory and the home
/// directory, where they are known.
pub fn default_store_path(vault: &str, cache: Option<&str>, home: Option<&str>) -> (r: String)
    ensures
        r@ == store_path(
            vault@,
            match cache {
                Some(c) => Some(c@),
                None => None,
            },
            match home {
                Some(h) => Some(h@),
                None => None,
            },
        ),
{
    let mut path = match cache {
        Some(c) => text::chars_of(c),
        None => match home {
            Some(h) => {
                let mut p = text::chars_of(h);
                paths::join(&mut p, &text::chars_of(".cache"));
                p
            },
            None => text::chars_of("."),
        },
    };
    paths::join(&mut path, &text::chars_of("brain"));
    let mut name = text::chars_of("vectors-");
    text::extend(&mut name, &hex_of(Digest::of(vault).0, 16));
    text::extend(&mut name, &text::chars_of(".json"));
    paths::join(&mut path, &name);
    text::string_of(&path)
}

// ---- what holds of every plan ----

/// Whether vectors are carried to an id.
pub open spec fn is_moved_to(moved: Seq<(Seq<char>, Seq<char>)>, id: Seq<char>) -> bool {
    exists|i: int| 0 <= i < moved.len() && (#[trigger] moved[i]).1 == id
}

/// Whether no id is listed twice.
pub open spec fn are_distinct(wanted: Seq<(Seq<char>, Digest)>) -> bool {
    forall|i: int, j: int|
        0 <= i < j < wanted.len() ==> (#[trigger] wanted[i]).0 != (#[trigger] wanted[j]).0
}

proof fn lemma_last_orphan(
    notes: Map<Seq<char>, EmbeddedView>,
    wanted: Seq<(Seq<char>, Digest)>,
    moved: Seq<(Seq<char>, Seq<char>)>,
    digest: Digest,
    ids: Seq<Seq<char>>,
)
    ensures
        match last_orphan(notes, wanted, moved, digest, ids) {
            Some(id) => ids.contains(id) && is_orphan(wanted, moved, id) && notes[id].digest
                == digest,
            None => true,
        },
    decreases ids.len(),
{
    if ids.len() > 0 {
        lemma_last_orphan(notes, wanted, moved, digest, ids.drop_last());
        assert(ids[ids.len() - 1] == ids.last());
        if let Some(id) = last_orphan(notes, wanted, moved, digest, ids.drop_last()) {
            let k = choose|k: int| 0 <= k < ids.drop_last().len() && ids.drop_last()[k] == id;
            assert(ids[k] == id);
        }
    }
}

/// Whether some moves are sound: each takes the vectors of a note that is gone
/// to a note that has none, wants exactly that content, and no vectors are
/// carried twice.
pub open spec fn are_sound(
    notes: Map<Seq<char>, EmbeddedView>,
    wanted: Seq<(Seq<char>, Digest)>,
    moved: Seq<(Seq<char>, Seq<char>)>,
) -> bool {
    &&& forall|i: int|
        0 <= i < moved.len() ==> {
            let (from, to) = #[trigger] moved[i];
            &&& notes.contains_key(from)
            &&& !is_live(wanted, from)
            &&& !notes.contains_key(to)
            &&& wanted.contains((to, notes[from].digest))
        }
    &&& forall|i: int, j: int|
        0 <= i < j < moved.len() ==> (#[trigger] moved[i]).0 != (#[trigger] moved[j]).0
}

proof fn lemma_with_wants(
    notes: Map<Seq<char>, EmbeddedView>,
    wanted: Seq<(Seq<char>, Digest)>,
    n: int,
)
    requires
        notes.dom().finite(),
        are_distinct(wanted),
        0 <= n <= wanted.len(),
    ensures
        ({
            let among = wanted.take(n);
            let work = with_wants(notes, wanted, among);
            &&& work.drop.len() == 0
            &&& are_sound(notes, wanted, work.moved)
            &&& forall|id: Seq<char>| #[trigger]
                is_moved_to(work.moved, id) ==> is_live(among, id) && !notes.contains_key(id)
            &&& forall|i: int, j: int|
                0 <= i < j < work.moved.len() ==> (#[trigger] work.moved[i]).1 != (
                #[trigger] work.moved[j]).1
            &&& forall|id: Seq<char>| #[trigger]
                work.embed.contains(id) ==> is_live(among, id) && !is_moved_to(work.moved, id)
            &&& forall|k: int|
                0 <= k < n ==> {
                    let (id, digest) = #[trigger] wanted[k];
                    if notes.contains_key(id) {
                        work.embed.contains(id) == (notes[id].digest != digest)
                    } else {
                        work.embed.contains(id) || is_moved_to(work.moved, id)
                    }
                }
        }),
    decreases n,
{
    let among = wanted.take(n);
    let work = with_wants(notes, wanted, among);
    if n == 0 {
        assert(among =~= Seq::<(Seq<char>, Digest)>::empty());
    } else {
        lemma_with_wants(notes, wanted, n - 1);
        let rest = wanted.take(n - 1);
        assert(among.drop_last() =~= rest);
        let before = with_wants(notes, wanted, rest);
        let want = wanted[n - 1];
        let (id, digest) = want;
        assert(among.last() == want);
        assert forall|t: Seq<char>| is_live(rest, t) implies is_live(among, t) && t != id by {
            let k = choose|k: int| 0 <= k < rest.len() && (#[trigger] rest[k]).0 == t;
            assert(among[k].0 == t);
            assert(wanted[k] == rest[k]);
            assert(wanted[k].0 != wanted[n - 1].0);
        }
        assert(is_live(among, id)) by {
            assert(among[n - 1].0 == id);
        }
        assert(!is_live(rest, id));
        assert(!before.embed.contains(id));
        assert(!is_moved_to(before.moved, id));
        let order = ordered::ascending(notes.dom());
        lemma_last_orphan(notes, wanted, before.moved, digest, order);
        ordered::lemma_ascending(notes.dom());
        if notes.contains_key(id) && notes[id].digest == digest {
            assert(work == before);
        } else if notes.contains_key(id) || last_orphan(
            notes,
            wanted,
            before.moved,
            digest,
            order,
        ) is None {
            assert(work.embed == before.embed.push(id));
            assert(work.moved == before.moved);
            lemma_push_contains(before.embed, id);
        } else {
            let from = last_orphan(notes, wanted, before.moved, digest, order)->0;
            assert(work.embed == before.embed);
            assert(work.moved == before.moved.push((from, id)));
            assert(order.to_set().contains(from));
            lemma_push_moved(before.moved, (from, id));
            assert(wanted[n - 1] == (id, notes[from].digest));
            assert(wanted.contains((id, notes[from].digest)));
            assert forall|i: int| 0 <= i < work.moved.len() implies {
                let (f, t) = #[trigger] work.moved[i];
                &&& notes.contains_key(f)
                &&& !is_live(wanted, f)
                &&& !notes.contains_key(t)
                &&& wanted.contains((t, notes[f].digest))
            } by {
                if i < before.moved.len() {
                    assert(work.moved[i] == before.moved[i]);
                }
            }
            assert forall|i: int, j: int| 0 <= i < j < work.moved.len() implies (
            #[trigger] work.moved[i]).0 != (#[trigger] work.moved[j]).0 by {
                assert(work.moved[i] == before.moved[i]);
                if j < before.moved.len() {
                    assert(work.moved[j] == before.moved[j]);
                } else if before.moved[i].0 == from {
                    assert(is_claimed(before.moved, from));
                }
            }
            assert forall|i: int, j: int| 0 <= i < j < work.moved.len() implies (
            #[trigger] work.moved[i]).1 != (#[trigger] work.moved[j]).1 by {
                assert(work.moved[i] == before.moved[i]);
                if j < before.moved.len() {
                    assert(work.moved[j] == before.moved[j]);
                } else if before.moved[i].1 == id {
                    assert(is_moved_to(before.moved, id));
                }
            }
        }
        assert forall|k: int| 0 <= k < n implies {
            let (t, d) = #[trigger] wanted[k];
            if notes.contains_key(t) {
                work.embed.contains(t) == (notes[t].digest != d)
            } else {
                work.embed.contains(t) || is_moved_to(work.moved, t)
            }
        } by {
            if k < n - 1 {
                assert(wanted[k].0 != wanted[n - 1].0);
            }
        }
    }
}

proof fn lemma_push_contains(s: Seq<Seq<char>>, x: Seq<char>)
    ensures
        forall|t: Seq<char>| #[trigger] s.push(x).contains(t) == (s.contains(t) || t == x),
{
    broadcast use vstd::seq_lib::group_seq_properties;

}

proof fn lemma_push_moved(s: Seq<(Seq<char>, Seq<char>)>, x: (Seq<char>, Seq<char>))
    ensures
        forall|t: Seq<char>| #[trigger]
            is_moved_to(s.push(x), t) == (is_moved_to(s, t) || t == x.1),
        forall|t: Seq<char>| #[trigger]
            is_claimed(s.push(x), t) == (is_claimed(s, t) || t == x.0),
{
    let p = s.push(x);
    assert(p[s.len() as int] == x);
    assert forall|t: Seq<char>| #[trigger] is_moved_to(p, t) == (is_moved_to(s, t) || t == x.1) by {
        if is_moved_to(s, t) {
            let i = choose|i: int| 0 <= i < s.len() && (#[trigger] s[i]).1 == t;
            assert(p[i].1 == t);
        }
        if is_moved_to(p, t) && t != x.1 {
            let i = choose|i: int| 0 <= i < p.len() && (#[trigger] p[i]).1 == t;
            assert(s[i].1 == t);
        }
    }
    assert forall|t: Seq<char>| #[trigger] is_claimed(p, t) == (is_claimed(s, t) || t == x.0) by {
        if is_claimed(s, t) {
            let i = choose|i: int| 0 <= i < s.len() && (#[trigger] s[i]).0 == t;
            assert(p[i].0 == t);
        }
        if is_claimed(p, t) && t != x.0 {
            let i = choose|i: int| 0 <= i < p.len() && (#[trigger] p[i]).0 == t;
            assert(s[i].0 == t);
        }
    }
}

proof fn lemma_orphans(
    wanted: Seq<(Seq<char>, Digest)>,
    moved: Seq<(Seq<char>, Seq<char>)>,
    ids: Seq<Seq<char>>,
    id: Seq<char>,
)
    ensures
        orphans(wanted, moved, ids).contains(id) == (ids.contains(id) && is_orphan(
            wanted,
            moved,
            id,
        )),
    decreases ids.len(),
{
    broadcast use vstd::seq_lib::group_seq_properties;

    if ids.len() > 0 {
        lemma_orphans(wanted, moved, ids.drop_last(), id);
        assert(ids =~= ids.drop_last().push(ids.last()));
        assert(ids.contains(id) == (ids.drop_last().contains(id) || id == ids.last()));
    }
}

proof fn lemma_wanted_order()
    ensures
        ranked::is_order::<Wanted>(),
        forall|x: (Seq<char>, Digest), y: (Seq<char>, Digest)|
            x != y ==> #[trigger] Wanted::before(x, y) || Wanted::before(y, x),
{
    assert forall|a: (Seq<char>, Digest)| !#[trigger] Wanted::before(a, a) by {
        ordered::lemma_precedes_irreflexive(a.0);
    }
    assert forall|a: (Seq<char>, Digest), b: (Seq<char>, Digest), c: (Seq<char>, Digest)|
        #![trigger Wanted::before(a, b), Wanted::before(b, c)]
        Wanted::before(a, b) && Wanted::before(b, c) implies Wanted::before(a, c) by {
        if ordered::precedes(a.0, b.0) && ordered::precedes(b.0, c.0) {
            ordered::lemma_precedes_transitive(a.0, b.0, c.0);
        }
    }
    assert forall|x: (Seq<char>, Digest), y: (Seq<char>, Digest)|
        x != y implies #[trigger] Wanted::before(x, y) || Wanted::before(y, x) by {
        ordered::lemma_precedes_total(x.0, y.0);
        if x.0 == y.0 {
            assert(x.1.0 != y.1.0);
        }
    }
    assert forall|a: (Seq<char>, Digest), b: (Seq<char>, Digest), c: (Seq<char>, Digest)|
        #![trigger Wanted::before(a, b), Wanted::before(b, c)]
        !Wanted::before(a, b) && !Wanted::before(b, c) implies !Wanted::before(a, c) by {
        if Wanted::before(a, c) && a != b && b != c {
            assert(Wanted::before(b, a));
            assert(Wanted::before(c, b));
            if ordered::precedes(b.0, a.0) && ordered::precedes(c.0, b.0) {
                ordered::lemma_precedes_transitive(c.0, b.0, a.0);
            }
            assert(Wanted::before(c, a));
            if ordered::precedes(a.0, c.0) && ordered::precedes(c.0, a.0) {
                ordered::lemma_precedes_transitive(a.0, c.0, a.0);
            }
            ordered::lemma_precedes_irreflexive(a.0);
        }
    }
}

/// The plan does not depend on the order in which the vault is listed.
pub proof fn lemma_a_plan_does_not_depend_on_the_listing(
    notes: Map<Seq<char>, EmbeddedView>,
    a: Seq<(Seq<char>, Digest)>,
    b: Seq<(Seq<char>, Digest)>,
)
    requires
        a.to_multiset() == b.to_multiset(),
    ensures
        planned(notes, a) == planned(notes, b),
{
    lemma_wanted_order();
    ranked::lemma_ranked_unique::<Wanted>(a, b);
}

proof fn lemma_ranked_wanted(wanted: Seq<(Seq<char>, Digest)>)
    requires
        are_distinct(wanted),
    ensures
        are_distinct(ranked::ranked::<Wanted>(wanted)),
        forall|id: Seq<char>| #[trigger]
            is_live(ranked::ranked::<Wanted>(wanted), id) == is_live(wanted, id),
        forall|w: (Seq<char>, Digest)| #[trigger]
            ranked::ranked::<Wanted>(wanted).contains(w) == wanted.contains(w),
{
    let r = ranked::ranked::<Wanted>(wanted);
    ranked::lemma_ranked_multiset::<Wanted>(wanted);
    assert forall|w: (Seq<char>, Digest)| #[trigger] r.contains(w) == wanted.contains(w) by {
        ranked::lemma_ranked_contains::<Wanted>(wanted, w);
    }
    assert forall|id: Seq<char>| #[trigger] is_live(r, id) == is_live(wanted, id) by {
        if is_live(r, id) {
            let i = choose|i: int| 0 <= i < r.len() && (#[trigger] r[i]).0 == id;
            assert(r.contains(r[i]));
            let j = choose|j: int| 0 <= j < wanted.len() && wanted[j] == r[i];
            assert(wanted[j].0 == id);
        }
        if is_live(wanted, id) {
            let i = choose|i: int| 0 <= i < wanted.len() && (#[trigger] wanted[i]).0 == id;
            assert(wanted.contains(wanted[i]));
            assert(r.contains(wanted[i]));
            let j = choose|j: int| 0 <= j < r.len() && r[j] == wanted[i];
            assert(r[j].0 == id);
        }
    }
    assert(wanted.no_duplicates()) by {
        assert forall|i: int, j: int|
            0 <= i < wanted.len() && 0 <= j < wanted.len() && i != j implies wanted[i]
            != wanted[j] by {
            if i < j {
                assert(wanted[i].0 != wanted[j].0);
            } else {
                assert(wanted[j].0 != wanted[i].0);
            }
        }
    }
    assert(r.no_duplicates()) by {
        broadcast use vstd::seq_lib::group_to_multiset_ensures;

        wanted.lemma_multiset_has_no_duplicates();
        assert forall|x: (Seq<char>, Digest)| r.to_multiset().contains(x) implies
            r.to_multiset().count(x) == 1 by {
            assert(wanted.to_multiset().contains(x));
        }
        r.lemma_multiset_has_no_duplicates_conv();
    }
    assert forall|i: int, j: int| 0 <= i < j < r.len() implies (#[trigger] r[i]).0 != (
    #[trigger] r[j]).0 by {
        assert(r.contains(r[i]) && r.contains(r[j]));
        assert(wanted.contains(r[i]) && wanted.contains(r[j]));
        let a = choose|a: int| 0 <= a < wanted.len() && wanted[a] == r[i];
        let b = choose|b: int| 0 <= b < wanted.len() && wanted[b] == r[j];
        assert(r[i] != r[j]);
        if a < b {
            assert(wanted[a].0 != wanted[b].0);
        } else {
            assert(wanted[b].0 != wanted[a].0);
        }
    }
}

/// Every id ends up in exactly one place. One that the vault and the store
/// both have is embedded again if its content changed, and is otherwise left
/// alone; one that only the vault has is embedded or has vectors carried to
/// it, not both; one that only the store has is carried from or dropped, not
/// both; and no other id is anywhere.
pub proof fn lemma_every_id_has_one_place(
    notes: Map<Seq<char>, EmbeddedView>,
    wanted: Seq<(Seq<char>, Digest)>,
    id: Seq<char>,
)
    requires
        notes.dom().finite(),
        are_distinct(wanted),
    ensures
        ({
            let work = planned(notes, wanted);
            let embedded = work.embed.contains(id);
            let from = is_claimed(work.moved, id);
            let to = is_moved_to(work.moved, id);
            let dropped = work.drop.contains(id);
            if is_live(wanted, id) {
                if notes.contains_key(id) {
                    !to && !from && !dropped && (!embedded <==> wanted.contains(
                        (id, notes[id].digest),
                    ))
                } else {
                    !from && !dropped && (embedded <==> !to)
                }
            } else if notes.contains_key(id) {
                !embedded && !to && (from <==> !dropped)
            } else {
                !embedded && !to && !from && !dropped
            }
        }),
{
    let w = ranked::ranked::<Wanted>(wanted);
    lemma_ranked_wanted(wanted);
    assert(w.take(w.len() as int) =~= w);
    lemma_with_wants(notes, w, w.len() as int);
    let work = planned(notes, wanted);
    let order = ordered::ascending(notes.dom());
    ordered::lemma_ascending(notes.dom());
    assert(order.contains(id) == order.to_set().contains(id));
    lemma_orphans(w, work.moved, order, id);
    if is_claimed(work.moved, id) {
        let i = choose|i: int| 0 <= i < work.moved.len() && (#[trigger] work.moved[i]).0 == id;
    }
    if is_live(w, id) {
        let k = choose|k: int| 0 <= k < w.len() && (#[trigger] w[k]).0 == id;
        assert(w.contains(w[k]));
        if notes.contains_key(id) {
            if wanted.contains((id, notes[id].digest)) {
                assert(w.contains((id, notes[id].digest)));
                let j = choose|j: int| 0 <= j < w.len() && w[j] == (id, notes[id].digest);
                if j < k {
                    assert(w[j].0 != w[k].0);
                } else if k < j {
                    assert(w[k].0 != w[j].0);
                }
            }
        }
    }
}

/// Vectors are only ever carried to the same content: a move costs no
/// embedding, and never gives a note the vectors of another text.
pub proof fn lemma_a_move_keeps_the_content(
    notes: Map<Seq<char>, EmbeddedView>,
    wanted: Seq<(Seq<char>, Digest)>,
)
    requires
        notes.dom().finite(),
        are_distinct(wanted),
    ensures
        are_sound(notes, wanted, planned(notes, wanted).moved),
{
    let w = ranked::ranked::<Wanted>(wanted);
    lemma_ranked_wanted(wanted);
    assert(w.take(w.len() as int) =~= w);
    lemma_with_wants(notes, w, w.len() as int);
    let moved = planned(notes, wanted).moved;
    assert forall|i: int| 0 <= i < moved.len() implies {
        let (from, to) = #[trigger] moved[i];
        &&& notes.contains_key(from)
        &&& !is_live(wanted, from)
        &&& !notes.contains_key(to)
        &&& wanted.contains((to, notes[from].digest))
    } by {
        let (from, to) = moved[i];
        assert(w.contains((to, notes[from].digest)));
        assert(!is_live(w, from));
    }
}

proof fn lemma_carried(
    notes: Map<Seq<char>, EmbeddedView>,
    wanted: Seq<(Seq<char>, Digest)>,
    moved: Seq<(Seq<char>, Seq<char>)>,
)
    requires
        are_sound(notes, wanted, moved),
        forall|i: int, j: int|
            0 <= i < j < moved.len() ==> (#[trigger] moved[i]).1 != (#[trigger] moved[j]).1,
    ensures
        forall|id: Seq<char>| #[trigger]
            carried(notes, moved).contains_key(id) == ((notes.contains_key(id) && !is_claimed(
                moved,
                id,
            )) || is_moved_to(moved, id)),
        forall|id: Seq<char>| #[trigger]
            notes.contains_key(id) && !is_claimed(moved, id) ==> carried(notes, moved)[id]
                == notes[id],
        forall|i: int|
            0 <= i < moved.len() ==> carried(notes, moved)[(#[trigger] moved[i]).1]
                == notes[moved[i].0],
    decreases moved.len(),
{
    if moved.len() > 0 {
        let rest = moved.drop_last();
        let (from, to) = moved.last();
        assert(moved[moved.len() - 1] == (from, to));
        assert(are_sound(notes, wanted, rest)) by {
            assert forall|i: int| 0 <= i < rest.len() implies {
                let (f, t) = #[trigger] rest[i];
                &&& notes.contains_key(f)
                &&& !is_live(wanted, f)
                &&& !notes.contains_key(t)
                &&& wanted.contains((t, notes[f].digest))
            } by {
                assert(rest[i] == moved[i]);
            }
            assert forall|i: int, j: int| 0 <= i < j < rest.len() implies (#[trigger] rest[i]).0
                != (#[trigger] rest[j]).0 by {
                assert(rest[i] == moved[i] && rest[j] == moved[j]);
            }
        }
        assert forall|i: int, j: int| 0 <= i < j < rest.len() implies (#[trigger] rest[i]).1 != (
        #[trigger] rest[j]).1 by {
            assert(rest[i] == moved[i] && rest[j] == moved[j]);
        }
        lemma_carried(notes, wanted, rest);
        assert(moved =~= rest.push((from, to)));
        lemma_push_moved(rest, (from, to));
        let before = carried(notes, rest);
        let now = carried(notes, moved);
        assert(!is_claimed(rest, from)) by {
            if is_claimed(rest, from) {
                let i = choose|i: int| 0 <= i < rest.len() && (#[trigger] rest[i]).0 == from;
                assert(moved[i].0 != moved[moved.len() - 1].0);
            }
        }
        assert(!is_moved_to(rest, to)) by {
            if is_moved_to(rest, to) {
                let i = choose|i: int| 0 <= i < rest.len() && (#[trigger] rest[i]).1 == to;
                assert(moved[i].1 != moved[moved.len() - 1].1);
            }
        }
        assert(notes.contains_key(from));
        assert(before.contains_key(from));
        assert(before[from] == notes[from]);
        assert(!notes.contains_key(to));
        assert(from != to);
        assert forall|i: int| 0 <= i < moved.len() implies now[(#[trigger] moved[i]).1]
            == notes[moved[i].0] by {
            if i < rest.len() {
                assert(rest[i] == moved[i]);
                assert(moved[i].1 != moved[moved.len() - 1].1);
                assert(!notes.contains_key(moved[i].1));
            }
        }
        assert forall|id: Seq<char>| #[trigger]
            now.contains_key(id) == ((notes.contains_key(id) && !is_claimed(moved, id))
                || is_moved_to(moved, id)) by {
            assert(before.contains_key(id) == ((notes.contains_key(id) && !is_claimed(rest, id))
                || is_moved_to(rest, id)));
            if id == from && is_moved_to(rest, from) {
                let i = choose|i: int| 0 <= i < rest.len() && (#[trigger] rest[i]).1 == from;
                assert(!notes.contains_key(rest[i].1));
            }
        }
    }
}

proof fn lemma_without(
    notes: Map<Seq<char>, EmbeddedView>,
    ids: Seq<Seq<char>>,
    id: Seq<char>,
)
    ensures
        without(notes, ids).contains_key(id) == (notes.contains_key(id) && !ids.contains(id)),
        without(notes, ids).contains_key(id) ==> without(notes, ids)[id] == notes[id],
    decreases ids.len(),
{
    broadcast use vstd::seq_lib::group_seq_properties;

    if ids.len() > 0 {
        lemma_without(notes, ids.drop_last(), id);
        assert(ids =~= ids.drop_last().push(ids.last()));
        assert(ids.contains(id) == (ids.drop_last().contains(id) || id == ids.last()));
    }
}

/// Applying a plan leaves the store holding live notes and nothing else, and
/// every live note that is not still to be embedded with vectors of the
/// content it has now.
pub proof fn lemma_applying_a_plan_leaves_only_live_notes(
    notes: Map<Seq<char>, EmbeddedView>,
    wanted: Seq<(Seq<char>, Digest)>,
    id: Seq<char>,
)
    requires
        notes.dom().finite(),
        are_distinct(wanted),
    ensures
        ({
            let work = planned(notes, wanted);
            let now = applied(notes, work);
            &&& now.contains_key(id) ==> is_live(wanted, id)
            &&& is_live(wanted, id) && !work.embed.contains(id) ==> now.contains_key(id)
                && wanted.contains((id, now[id].digest))
        }),
{
    let work = planned(notes, wanted);
    let w = ranked::ranked::<Wanted>(wanted);
    lemma_ranked_wanted(wanted);
    assert(w.take(w.len() as int) =~= w);
    lemma_with_wants(notes, w, w.len() as int);
    lemma_a_move_keeps_the_content(notes, wanted);
    lemma_carried(notes, wanted, work.moved);
    lemma_every_id_has_one_place(notes, wanted, id);
    let halfway = carried(notes, work.moved);
    lemma_without(halfway, work.drop, id);
    if is_moved_to(work.moved, id) {
        let i = choose|i: int| 0 <= i < work.moved.len() && (#[trigger] work.moved[i]).1 == id;
        assert(halfway[id] == notes[work.moved[i].0]);
        assert(wanted.contains((id, notes[work.moved[i].0].digest)));
        let k = choose|k: int|
            0 <= k < wanted.len() && wanted[k] == (id, notes[work.moved[i].0].digest);
        assert(wanted[k].0 == id);
    }
}

/// A store that is level with the vault needs nothing: a rescan on a quiet
/// vault is free.
pub proof fn lemma_a_level_store_needs_nothing(
    notes: Map<Seq<char>, EmbeddedView>,
    wanted: Seq<(Seq<char>, Digest)>,
)
    requires
        notes.dom().finite(),
        are_distinct(wanted),
        forall|id: Seq<char>| #[trigger] notes.contains_key(id) ==> is_live(wanted, id),
        forall|i: int|
            0 <= i < wanted.len() ==> notes.contains_key((#[trigger] wanted[i]).0)
                && notes[wanted[i].0].digest == wanted[i].1,
    ensures
        planned(notes, wanted) == nothing(),
{
    let work = planned(notes, wanted);
    if work.embed.len() > 0 {
        let id = work.embed[0];
        lemma_every_id_has_one_place(notes, wanted, id);
        assert(work.embed.contains(id));
        if is_live(wanted, id) {
            let k = choose|k: int| 0 <= k < wanted.len() && (#[trigger] wanted[k]).0 == id;
            assert(wanted.contains((id, notes[id].digest)));
        }
    }
    if work.moved.len() > 0 {
        let id = work.moved[0].0;
        lemma_every_id_has_one_place(notes, wanted, id);
        assert(is_claimed(work.moved, id));
    }
    if work.drop.len() > 0 {
        let id = work.drop[0];
        lemma_every_id_has_one_place(notes, wanted, id);
        assert(work.drop.contains(id));
    }
    assert(work =~= nothing());
}

proof fn lemma_passed(
    notes: Map<Seq<char>, EmbeddedView>,
    entries: Map<Seq<char>, index::EntryView>,
    ids: Seq<Seq<char>>,
    replies: Seq<Option<Seq<Seq<u32>>>>,
    id: Seq<char>,
)
    requires
        !passed(notes, entries, ids, replies).stopped,
        forall|i: int|
            0 <= i < ids.len() ==> pieces(
                note::title(#[trigger] ids[i]),
                prose_of(entries, ids[i]),
            ).len() > 0,
    ensures
        ({
            let now = passed(notes, entries, ids, replies).notes;
            &&& now.contains_key(id) == (notes.contains_key(id) || ids.contains(id))
            &&& ids.contains(id) ==> now[id].digest == digest(
                note::title(id),
                prose_of(entries, id),
            )
            &&& notes.contains_key(id) && !ids.contains(id) ==> now[id] == notes[id]
        }),
    decreases ids.len(),
{
    broadcast use vstd::seq_lib::group_seq_properties;

    if ids.len() > 0 {
        let rest = ids.drop_last();
        assert forall|i: int| 0 <= i < rest.len() implies pieces(
            note::title(#[trigger] rest[i]),
            prose_of(entries, rest[i]),
        ).len() > 0 by {
            assert(rest[i] == ids[i]);
        }
        assert(!passed(notes, entries, rest, replies).stopped);
        lemma_passed(notes, entries, rest, replies, id);
        assert(ids =~= rest.push(ids.last()));
        assert(ids.contains(id) == (rest.contains(id) || id == ids.last()));
        assert(ids[ids.len() - 1] == ids.last());
    }
}

proof fn lemma_wanted_of(entries: Map<Seq<char>, index::EntryView>)
    requires
        entries.dom().finite(),
    ensures
        are_distinct(wanted_of(entries)),
        forall|id: Seq<char>| #[trigger]
            is_live(wanted_of(entries), id) == entries.contains_key(id),
        forall|i: int|
            0 <= i < wanted_of(entries).len() ==> (#[trigger] wanted_of(entries)[i]).1 == digest(
                note::title(wanted_of(entries)[i].0),
                prose_of(entries, wanted_of(entries)[i].0),
            ) && entries.contains_key(wanted_of(entries)[i].0),
{
    let order = ordered::ascending(entries.dom());
    ordered::lemma_ascending(entries.dom());
    let w = wanted_of(entries);
    assert forall|i: int, j: int| 0 <= i < j < w.len() implies (#[trigger] w[i]).0 != (
    #[trigger] w[j]).0 by {
        assert(ordered::precedes(order[i], order[j]));
        ordered::lemma_precedes_irreflexive(order[i]);
    }
    assert forall|id: Seq<char>| #[trigger] is_live(w, id) == entries.contains_key(id) by {
        if is_live(w, id) {
            let i = choose|i: int| 0 <= i < w.len() && (#[trigger] w[i]).0 == id;
            assert(order[i] == id);
            assert(order.to_set().contains(order[i]));
        }
        if entries.contains_key(id) {
            assert(order.to_set().contains(id));
            let i = choose|i: int| 0 <= i < order.len() && order[i] == id;
            assert(w[i].0 == id);
        }
    }
    assert forall|i: int| 0 <= i < w.len() implies (#[trigger] w[i]).1 == digest(
        note::title(w[i].0),
        prose_of(entries, w[i].0),
    ) && entries.contains_key(w[i].0) by {
        assert(order.to_set().contains(order[i]));
    }
}

/// After a pass that the server saw through, a second pass does nothing and
/// asks the model nothing, whatever it would have replied.
pub proof fn lemma_a_second_pass_is_quiet(
    store: StoreView,
    entries: Map<Seq<char>, index::EntryView>,
    model: Seq<char>,
    replies: Seq<Option<Seq<Seq<u32>>>>,
    later: Seq<Option<Seq<Seq<u32>>>>,
)
    requires
        entries.dom().finite(),
        store.notes.dom().finite(),
        ({
            let (work, notes) = levelled(store, entries, model);
            !passed(notes, entries, work.embed, replies).stopped
        }),
        forall|id: Seq<char>| #[trigger]
            entries.contains_key(id) ==> pieces(note::title(id), prose_of(entries, id)).len() > 0,
    ensures
        ({
            let level = caught_up(store, entries, model, replies).0;
            &&& caught_up(level, entries, model, later) == (level, quiet())
            &&& levelled(level, entries, model).0.embed.len() == 0
        }),
{
    let first = with_model(store, model).notes;
    assert(first.dom().finite());
    let wanted = wanted_of(entries);
    let (work, notes) = levelled(store, entries, model);
    let now = passed(notes, entries, work.embed, replies).notes;
    lemma_wanted_of(entries);
    assert forall|i: int| 0 <= i < work.embed.len() implies pieces(
        note::title(#[trigger] work.embed[i]),
        prose_of(entries, work.embed[i]),
    ).len() > 0 by {
        let id = work.embed[i];
        lemma_every_id_has_one_place(first, wanted, id);
        assert(work.embed.contains(id));
        assert(is_live(wanted, id));
    }
    assert forall|id: Seq<char>| #[trigger] now.contains_key(id) implies is_live(wanted, id) by {
        lemma_passed(notes, entries, work.embed, replies, id);
        lemma_applying_a_plan_leaves_only_live_notes(first, wanted, id);
        lemma_every_id_has_one_place(first, wanted, id);
    }
    assert forall|i: int| 0 <= i < wanted.len() implies now.contains_key((#[trigger] wanted[i]).0)
        && now[wanted[i].0].digest == wanted[i].1 by {
        let id = wanted[i].0;
        assert(is_live(wanted, id));
        lemma_passed(notes, entries, work.embed, replies, id);
        lemma_applying_a_plan_leaves_only_live_notes(first, wanted, id);
        if !work.embed.contains(id) {
            let k = choose|k: int| 0 <= k < wanted.len() && wanted[k] == (id, notes[id].digest);
            if k < i {
                assert(wanted[k].0 != wanted[i].0);
            } else if i < k {
                assert(wanted[i].0 != wanted[k].0);
            }
        }
    }
    assert(now.dom().subset_of(entries.dom())) by {
        assert forall|id: Seq<char>| now.dom().contains(id) implies entries.dom().contains(id) by {
            assert(now.contains_key(id));
            assert(is_live(wanted, id));
        }
    }
    vstd::set_lib::lemma_set_subset_finite(entries.dom(), now.dom());
    lemma_a_level_store_needs_nothing(now, wanted);
    let level = StoreView { model, notes: now };
    assert(applied(now, nothing()) == now);
    assert(caught_up(level, entries, model, later).0 =~= level);
}

/// Whether a reply has a vector for each of the texts it replies to.
pub open spec fn is_full(texts: Seq<Seq<char>>, reply: Option<Seq<Seq<u32>>>) -> bool {
    reply is Some && reply->0.len() == texts.len()
}

proof fn lemma_asked(entries: Map<Seq<char>, index::EntryView>, ids: Seq<Seq<char>>)
    requires
        forall|i: int|
            0 <= i < ids.len() ==> text::trim(note::title(#[trigger] ids[i])).len() > 0,
    ensures
        asked(entries, ids).len() == ids.len(),
        forall|i: int|
            0 <= i < ids.len() ==> #[trigger] asked(entries, ids)[i] == pieces(
                note::title(ids[i]),
                prose_of(entries, ids[i]),
            ),
        forall|i: int|
            0 <= i < ids.len() ==> pieces(
                note::title(#[trigger] ids[i]),
                prose_of(entries, ids[i]),
            ).len() > 0,
    decreases ids.len(),
{
    if ids.len() > 0 {
        let rest = ids.drop_last();
        assert forall|i: int| 0 <= i < rest.len() implies text::trim(
            note::title(#[trigger] rest[i]),
        ).len() > 0 by {
            assert(rest[i] == ids[i]);
        }
        lemma_asked(entries, rest);
        assert(ids[ids.len() - 1] == ids.last());
        assert forall|i: int| 0 <= i < ids.len() implies pieces(
            note::title(#[trigger] ids[i]),
            prose_of(entries, ids[i]),
        ).len() > 0 && asked(entries, ids)[i] == pieces(
            note::title(ids[i]),
            prose_of(entries, ids[i]),
        ) by {
            if i < rest.len() {
                assert(rest[i] == ids[i]);
                assert(asked(entries, rest)[i] == asked(entries, ids)[i]);
            }
        }
    }
}

/// Some notes with others embedded: each with the version it has now and the
/// vectors that came back for it.
pub open spec fn with_embedded(
    notes: Map<Seq<char>, EmbeddedView>,
    entries: Map<Seq<char>, index::EntryView>,
    ids: Seq<Seq<char>>,
    replies: Seq<Option<Seq<Seq<u32>>>>,
) -> Map<Seq<char>, EmbeddedView>
    decreases ids.len(),
{
    if ids.len() == 0 {
        notes
    } else {
        let id = ids.last();
        with_embedded(notes, entries, ids.drop_last(), replies).insert(
            id,
            EmbeddedView {
                digest: digest(note::title(id), prose_of(entries, id)),
                chunks: replies[ids.len() - 1]->0,
            },
        )
    }
}

proof fn lemma_passed_while_answered(
    notes: Map<Seq<char>, EmbeddedView>,
    entries: Map<Seq<char>, index::EntryView>,
    ids: Seq<Seq<char>>,
    replies: Seq<Option<Seq<Seq<u32>>>>,
    n: int,
)
    requires
        0 <= n <= ids.len(),
        n <= replies.len(),
        forall|i: int|
            0 <= i < ids.len() ==> text::trim(note::title(#[trigger] ids[i])).len() > 0,
        forall|i: int|
            0 <= i < n ==> is_full(
                pieces(note::title(ids[i]), prose_of(entries, ids[i])),
                #[trigger] replies[i],
            ),
    ensures
        ({
            let p = passed(notes, entries, ids.take(n), replies);
            &&& p.embedded == n
            &&& p.used == n
            &&& !p.stopped
            &&& p.notes == with_embedded(notes, entries, ids.take(n), replies)
        }),
    decreases n,
{
    if n > 0 {
        assert(ids.take(n).drop_last() =~= ids.take(n - 1));
        lemma_passed_while_answered(notes, entries, ids, replies, n - 1);
        lemma_asked(entries, ids);
        assert(ids.take(n).last() == ids[n - 1]);
        assert(is_full(
            pieces(note::title(ids[n - 1]), prose_of(entries, ids[n - 1])),
            replies[n - 1],
        ));
    }
}

proof fn lemma_used_grows(
    notes: Map<Seq<char>, EmbeddedView>,
    entries: Map<Seq<char>, index::EntryView>,
    ids: Seq<Seq<char>>,
    replies: Seq<Option<Seq<Seq<u32>>>>,
    n: int,
)
    requires
        0 <= n <= ids.len(),
    ensures
        passed(notes, entries, ids.take(n), replies).used <= passed(
            notes,
            entries,
            ids,
            replies,
        ).used,
    decreases ids.len(),
{
    if n < ids.len() {
        assert(ids.drop_last().take(n) =~= ids.take(n));
        lemma_used_grows(notes, entries, ids.drop_last(), replies, n);
    } else {
        assert(ids.take(n) =~= ids);
    }
}

/// A model that stops answering ends the pass there. Where it answered the
/// first so many notes in full and not the next, those notes are embedded, the
/// rest are pending, it was asked once more than it answered, and the moves
/// and the drops were made all the same.
pub proof fn lemma_a_pass_ends_where_the_model_stops(
    store: StoreView,
    entries: Map<Seq<char>, index::EntryView>,
    model: Seq<char>,
    replies: Seq<Option<Seq<Seq<u32>>>>,
    answered: int,
)
    requires
        entries.dom().finite(),
        store.notes.dom().finite(),
        forall|id: Seq<char>| #[trigger]
            entries.contains_key(id) ==> text::trim(note::title(id)).len() > 0,
        ({
            let (work, notes) = levelled(store, entries, model);
            &&& 0 <= answered < work.embed.len()
            &&& passed(notes, entries, work.embed, replies).used == replies.len()
            &&& replies.len() <= asked(entries, work.embed).len()
            &&& forall|i: int| #![trigger replies[i]]
                0 <= i < replies.len() ==> (i < answered ==> is_full(
                    asked(entries, work.embed)[i],
                    replies[i],
                )) && (i == answered ==> !is_full(asked(entries, work.embed)[i], replies[i]))
        }),
    ensures
        replies.len() == answered + 1,
        ({
            let (work, notes) = levelled(store, entries, model);
            let (now, report) = caught_up(store, entries, model, replies);
            &&& report.embedded == answered as usize
            &&& report.pending == (work.embed.len() - answered) as usize
            &&& report.moved == work.moved.len() as usize
            &&& report.dropped == work.drop.len() as usize
            &&& now.notes == with_embedded(notes, entries, work.embed.take(answered), replies)
        }),
{
    let (work, notes) = levelled(store, entries, model);
    let ids = work.embed;
    lemma_to_embed_are_live(store, entries, model);
    lemma_asked(entries, ids);
    assert forall|i: int| 0 <= i < replies.len() && i < answered implies is_full(
        pieces(note::title(ids[i]), prose_of(entries, ids[i])),
        #[trigger] replies[i],
    ) by {
        assert(asked(entries, ids)[i] == pieces(note::title(ids[i]), prose_of(entries, ids[i])));
    }
    if replies.len() <= answered {
        let n = replies.len() as int;
        lemma_passed_while_answered(notes, entries, ids, replies, n);
        assert(ids.take(n + 1).drop_last() =~= ids.take(n));
        assert(ids.take(n + 1).last() == ids[n]);
        lemma_used_grows(notes, entries, ids, replies, n + 1);
    } else {
        let n = answered;
        lemma_passed_while_answered(notes, entries, ids, replies, n);
        assert(ids.take(n + 1).drop_last() =~= ids.take(n));
        assert(ids.take(n + 1).last() == ids[n]);
        assert(asked(entries, ids)[n] == pieces(note::title(ids[n]), prose_of(entries, ids[n])));
        assert(!is_full(asked(entries, ids)[n], replies[n]));
        lemma_passed_stays_stopped(notes, entries, ids, n + 1, replies);
    }
}

/// A pass that the model sees through leaves the store level with the vault:
/// it holds the notes of the vault and no others, each in the version it has
/// now; nothing is pending, and a second pass is quiet, asks the model nothing
/// and leaves the store as it is.
pub proof fn lemma_a_pass_the_model_sees_through(
    store: StoreView,
    entries: Map<Seq<char>, index::EntryView>,
    model: Seq<char>,
    replies: Seq<Option<Seq<Seq<u32>>>>,
    later: Seq<Option<Seq<Seq<u32>>>>,
)
    requires
        entries.dom().finite(),
        store.notes.dom().finite(),
        forall|id: Seq<char>| #[trigger]
            entries.contains_key(id) ==> text::trim(note::title(id)).len() > 0,
        ({
            let (work, notes) = levelled(store, entries, model);
            &&& passed(notes, entries, work.embed, replies).used == replies.len()
            &&& replies.len() <= asked(entries, work.embed).len()
            &&& forall|i: int|
                0 <= i < replies.len() ==> is_full(
                    asked(entries, work.embed)[i],
                    #[trigger] replies[i],
                )
        }),
    ensures
        ({
            let (now, report) = caught_up(store, entries, model, replies);
            let work = levelled(store, entries, model).0;
            &&& replies.len() == work.embed.len()
            &&& report.embedded == work.embed.len() as usize
            &&& report.pending == 0
            &&& now.model == model
            &&& now.notes.dom() == entries.dom()
            &&& forall|id: Seq<char>| #[trigger]
                entries.contains_key(id) ==> now.notes[id].digest == digest(
                    note::title(id),
                    prose_of(entries, id),
                )
            &&& caught_up(now, entries, model, later) == (now, quiet())
            &&& levelled(now, entries, model).0.embed.len() == 0
            &&& asked(entries, levelled(now, entries, model).0.embed).len() == 0
        }),
{
    let (work, notes) = levelled(store, entries, model);
    lemma_to_embed_are_live(store, entries, model);
    lemma_passed_in_full(notes, entries, work.embed, replies);
    lemma_a_second_pass_is_quiet(store, entries, model, replies, later);
    let now = passed(notes, entries, work.embed, replies).notes;
    assert forall|id: Seq<char>| #[trigger] entries.contains_key(id) implies now.contains_key(id)
        && now[id].digest == digest(note::title(id), prose_of(entries, id)) by {
        lemma_levelled_note(store, entries, model, replies, id);
    }
    assert forall|id: Seq<char>| #[trigger] now.contains_key(id) implies entries.contains_key(
        id,
    ) by {
        lemma_levelled_note(store, entries, model, replies, id);
    }
    assert(now.dom() =~= entries.dom());
}

proof fn lemma_to_embed_are_live(
    store: StoreView,
    entries: Map<Seq<char>, index::EntryView>,
    model: Seq<char>,
)
    requires
        entries.dom().finite(),
        store.notes.dom().finite(),
    ensures
        forall|i: int|
            0 <= i < levelled(store, entries, model).0.embed.len() ==> entries.contains_key(
                #[trigger] levelled(store, entries, model).0.embed[i],
            ),
{
    let first = with_model(store, model).notes;
    assert(first.dom().finite());
    let ids = levelled(store, entries, model).0.embed;
    let wanted = wanted_of(entries);
    lemma_wanted_of(entries);
    assert forall|i: int| 0 <= i < ids.len() implies entries.contains_key(#[trigger] ids[i]) by {
        lemma_every_id_has_one_place(first, wanted, ids[i]);
        assert(ids.contains(ids[i]));
        assert(is_live(wanted, ids[i]));
    }
}

proof fn lemma_passed_in_full(
    notes: Map<Seq<char>, EmbeddedView>,
    entries: Map<Seq<char>, index::EntryView>,
    ids: Seq<Seq<char>>,
    replies: Seq<Option<Seq<Seq<u32>>>>,
)
    requires
        forall|i: int|
            0 <= i < ids.len() ==> text::trim(note::title(#[trigger] ids[i])).len() > 0,
        passed(notes, entries, ids, replies).used == replies.len(),
        replies.len() <= asked(entries, ids).len(),
        forall|i: int|
            0 <= i < replies.len() ==> is_full(asked(entries, ids)[i], #[trigger] replies[i]),
    ensures
        replies.len() == ids.len(),
        passed(notes, entries, ids, replies).embedded == ids.len(),
        !passed(notes, entries, ids, replies).stopped,
{
    lemma_asked(entries, ids);
    assert forall|i: int| 0 <= i < replies.len() implies is_full(
        pieces(note::title(ids[i]), prose_of(entries, ids[i])),
        #[trigger] replies[i],
    ) by {
        assert(asked(entries, ids)[i] == pieces(note::title(ids[i]), prose_of(entries, ids[i])));
    }
    let n = replies.len() as int;
    lemma_passed_while_answered(notes, entries, ids, replies, n);
    if n < ids.len() {
        assert(ids.take(n + 1).drop_last() =~= ids.take(n));
        assert(ids.take(n + 1).last() == ids[n]);
        lemma_used_grows(notes, entries, ids, replies, n + 1);
    }
    assert(ids.take(n) =~= ids);
}

proof fn lemma_levelled_note(
    store: StoreView,
    entries: Map<Seq<char>, index::EntryView>,
    model: Seq<char>,
    replies: Seq<Option<Seq<Seq<u32>>>>,
    id: Seq<char>,
)
    requires
        entries.dom().finite(),
        store.notes.dom().finite(),
        forall|id: Seq<char>| #[trigger]
            entries.contains_key(id) ==> text::trim(note::title(id)).len() > 0,
        ({
            let (work, notes) = levelled(store, entries, model);
            !passed(notes, entries, work.embed, replies).stopped
        }),
    ensures
        ({
            let (work, notes) = levelled(store, entries, model);
            let now = passed(notes, entries, work.embed, replies).notes;
            &&& now.contains_key(id) == entries.contains_key(id)
            &&& entries.contains_key(id) ==> now[id].digest == digest(
                note::title(id),
                prose_of(entries, id),
            )
        }),
{
    let first = with_model(store, model).notes;
    assert(first.dom().finite());
    let (work, notes) = levelled(store, entries, model);
    let ids = work.embed;
    let wanted = wanted_of(entries);
    lemma_wanted_of(entries);
    lemma_to_embed_are_live(store, entries, model);
    lemma_asked(entries, ids);
    lemma_passed(notes, entries, ids, replies, id);
    lemma_applying_a_plan_leaves_only_live_notes(first, wanted, id);
    assert(is_live(wanted, id) == entries.contains_key(id));
    if ids.contains(id) {
        let k = choose|k: int| 0 <= k < ids.len() && ids[k] == id;
        assert(entries.contains_key(ids[k]));
    } else if entries.contains_key(id) {
        let k = choose|k: int| 0 <= k < wanted.len() && wanted[k] == (id, notes[id].digest);
        assert(wanted[k].0 == id);
    }
}

/// A note scores as its best chunk: as one of them, and as no less than any.
pub proof fn lemma_a_note_scores_as_its_best_chunk(similarities: Seq<u32>)
    ensures
        similarities.len() == 0 <==> strongest(similarities) is None,
        strongest(similarities) is Some ==> similarities.contains(strongest(similarities)->0),
        forall|i: int|
            0 <= i < similarities.len() ==> strongest(similarities)->0 >= #[trigger] similarities[i],
    decreases similarities.len(),
{
    if similarities.len() > 0 {
        let rest = similarities.drop_last();
        lemma_a_note_scores_as_its_best_chunk(rest);
        let best = strongest(similarities)->0;
        assert(similarities[similarities.len() - 1] == similarities.last());
        if strongest(rest) is Some && best == strongest(rest)->0 {
            let k = choose|k: int| 0 <= k < rest.len() && rest[k] == best;
            assert(similarities[k] == best);
        }
        assert forall|i: int| 0 <= i < similarities.len() implies best
            >= #[trigger] similarities[i] by {
            if i < rest.len() {
                assert(rest[i] == similarities[i]);
            }
        }
    }
}

// ---- what holds of every chunk ----

/// How long what stands under the title of a chunk can be: two blocks that
/// just fit, and the blank line between them.
pub const LONGEST_CHUNK: usize = 2002;

/// Whether a chunk is the title and, under it, something that fits.
pub open spec fn is_chunk(title: Seq<char>, chunk: Seq<char>) -> bool {
    (title + "\n\n"@).is_prefix_of(chunk) && title.len() + 2 < chunk.len() <= title.len() + 2
        + LONGEST_CHUNK
}

/// Whether everything gathered so far is in bounds.
pub open spec fn is_within(title: Seq<char>, g: Gathering) -> bool {
    g.current.len() <= LONGEST_CHUNK && forall|i: int|
        0 <= i < g.done.len() ==> is_chunk(title, #[trigger] g.done[i])
}

proof fn lemma_flushed(title: Seq<char>, g: Gathering)
    requires
        is_within(title, g),
    ensures
        is_within(title, flushed(title, g)),
        flushed(title, g).current.len() == 0,
{
    let body = text::trim(g.current);
    text::lemma_trim_len(g.current);
    reveal_strlit("\n\n");
    let chunk = title + "\n\n"@ + body;
    assert(title + "\n\n"@ =~= chunk.subrange(0, (title + "\n\n"@).len() as int));
    let now = flushed(title, g);
    assert forall|i: int| 0 <= i < now.done.len() implies is_chunk(
        title,
        #[trigger] now.done[i],
    ) by {
        if i < g.done.len() {
            assert(now.done[i] == g.done[i]);
        }
    }
}

proof fn lemma_cut(title: Seq<char>, g: Gathering, rest: Seq<char>)
    requires
        is_within(title, g),
        g.current.len() == 0,
    ensures
        is_within(title, cut(title, g, rest)),
        cut(title, g, rest).current.len() == 0,
    decreases rest.len(),
{
    if rest.len() > 0 {
        if rest.len() <= CHUNK_CHARS {
            lemma_flushed(title, Gathering { done: g.done, current: g.current + rest });
        } else {
            let h = Gathering { done: g.done, current: g.current + rest.take(CHUNK_CHARS as int) };
            lemma_flushed(title, h);
            lemma_cut(title, flushed(title, h), rest.skip(CHUNK_CHARS as int));
        }
    }
}

proof fn lemma_gathered(title: Seq<char>, blocks: Seq<Seq<char>>)
    ensures
        is_within(title, gathered(title, blocks)),
    decreases blocks.len(),
{
    if blocks.len() > 0 {
        let g = gathered(title, blocks.drop_last());
        lemma_gathered(title, blocks.drop_last());
        lemma_flushed(title, g);
        let b = text::trim(blocks.last());
        let h = if (b[0] == '#' || g.current.len() + b.len() > CHUNK_CHARS) && g.current.len()
            > 0 {
            flushed(title, g)
        } else {
            g
        };
        reveal_strlit("\n\n");
        if b.len() > CHUNK_CHARS {
            lemma_cut(title, h, b);
        }
    }
}

/// A note is never split into more chunks than the cap, and every chunk names
/// the note and fits the budget, but for a note of which there is only a
/// title: that is its one chunk.
pub proof fn lemma_chunks_fit_and_name_their_note(title: Seq<char>, prose: Seq<char>)
    ensures
        pieces(title, prose).len() <= MAX_CHUNKS,
        pieces(title, prose) == seq![title] || forall|i: int|
            0 <= i < pieces(title, prose).len() ==> is_chunk(
                title,
                #[trigger] pieces(title, prose)[i],
            ),
        pieces(title, prose).len() == 0 ==> text::trim(title).len() == 0,
{
    let blocks = text::split_text(prose, "\n\n"@);
    let g = gathered(title, blocks);
    lemma_gathered(title, blocks);
    lemma_flushed(title, g);
    let all = flushed(title, g).done;
    if !(all.len() == 0 && text::trim(title).len() > 0) {
        assert forall|i: int| 0 <= i < pieces(title, prose).len() implies is_chunk(
            title,
            #[trigger] pieces(title, prose)[i],
        ) by {
            assert(pieces(title, prose)[i] == all[i]);
        }
    }
}

/// What is written in some chunks under their titles, one behind the other.
pub open spec fn written_in(title: Seq<char>, chunks: Seq<Seq<char>>) -> Seq<char>
    decreases chunks.len(),
{
    if chunks.len() == 0 {
        seq![]
    } else {
        written_in(title, chunks.drop_last()) + text::ink(
            chunks.last().skip(title.len() as int + 2),
        )
    }
}

/// What is written in some blocks, one behind the other.
spec fn written(blocks: Seq<Seq<char>>) -> Seq<char>
    decreases blocks.len(),
{
    if blocks.len() == 0 {
        seq![]
    } else {
        written(blocks.drop_last()) + text::ink(blocks.last())
    }
}

spec fn written_so_far(title: Seq<char>, g: Gathering) -> Seq<char> {
    written_in(title, g.done) + text::ink(g.current)
}

proof fn lemma_no_ink()
    ensures
        text::ink("\n\n"@) == Seq::<char>::empty(),
        text::ink(seq![]) == Seq::<char>::empty(),
        "\n\n"@.len() == 2,
{
    reveal_strlit("\n\n");
    let two = "\n\n"@;
    assert(two.drop_last().drop_last() =~= Seq::<char>::empty());
    reveal_with_fuel(text::ink, 3);
}

proof fn lemma_flushed_ink(title: Seq<char>, g: Gathering)
    ensures
        written_in(title, flushed(title, g).done) == written_so_far(title, g),
        flushed(title, g).current.len() == 0,
        written_so_far(title, flushed(title, g)) == written_so_far(title, g),
{
    lemma_no_ink();
    text::lemma_ink_trim(g.current);
    let body = text::trim(g.current);
    let now = flushed(title, g);
    let w = written_in(title, g.done);
    if body.len() > 0 {
        let chunk = title + "\n\n"@ + body;
        assert(chunk.skip(title.len() as int + 2) =~= body);
        assert(now.done.drop_last() =~= g.done);
    } else {
        assert(body =~= seq![]);
        assert(w + text::ink(g.current) =~= w);
    }
    let n = written_in(title, now.done);
    assert(n + text::ink(now.current) =~= n);
}

proof fn lemma_cut_ink(title: Seq<char>, g: Gathering, rest: Seq<char>)
    ensures
        written_so_far(title, cut(title, g, rest)) == written_so_far(title, g) + text::ink(rest),
    decreases rest.len(),
{
    lemma_no_ink();
    let w = written_in(title, g.done);
    if rest.len() == 0 {
        assert(rest =~= seq![]);
        assert(written_so_far(title, g) + text::ink(rest) =~= written_so_far(title, g));
    } else if rest.len() <= CHUNK_CHARS {
        let h = Gathering { done: g.done, current: g.current + rest };
        lemma_flushed_ink(title, h);
        text::lemma_ink_add(g.current, rest);
        assert(w + (text::ink(g.current) + text::ink(rest)) =~= w + text::ink(g.current)
            + text::ink(rest));
    } else {
        let piece = rest.take(CHUNK_CHARS as int);
        let more = rest.skip(CHUNK_CHARS as int);
        let h = Gathering { done: g.done, current: g.current + piece };
        lemma_flushed_ink(title, h);
        lemma_cut_ink(title, flushed(title, h), more);
        text::lemma_ink_add(g.current, piece);
        text::lemma_ink_add(piece, more);
        assert(piece + more =~= rest);
        assert(w + (text::ink(g.current) + text::ink(piece)) + text::ink(more) =~= w + text::ink(
            g.current,
        ) + (text::ink(piece) + text::ink(more)));
    }
}

proof fn lemma_gathered_ink(title: Seq<char>, blocks: Seq<Seq<char>>)
    ensures
        written_so_far(title, gathered(title, blocks)) == written(blocks),
    decreases blocks.len(),
{
    lemma_no_ink();
    if blocks.len() == 0 {
        assert(written_so_far(title, gathered(title, blocks)) =~= written(blocks));
    } else {
        let g = gathered(title, blocks.drop_last());
        lemma_gathered_ink(title, blocks.drop_last());
        let b = text::trim(blocks.last());
        text::lemma_ink_trim(blocks.last());
        lemma_flushed_ink(title, g);
        if b.len() == 0 {
            assert(b =~= seq![]);
            assert(written(blocks) =~= written(blocks.drop_last()));
        } else {
            let h = if (b[0] == '#' || g.current.len() + b.len() > CHUNK_CHARS) && g.current.len()
                > 0 {
                flushed(title, g)
            } else {
                g
            };
            let w = written_in(title, h.done);
            if b.len() > CHUNK_CHARS {
                lemma_cut_ink(title, h, b);
            } else if h.current.len() > 0 {
                let gap = h.current + "\n\n"@;
                text::lemma_ink_add(h.current, "\n\n"@);
                text::lemma_ink_add(gap, b);
                assert(text::ink(gap) =~= text::ink(h.current));
                assert(w + (text::ink(h.current) + text::ink(b)) =~= w + text::ink(h.current)
                    + text::ink(b));
            } else {
                assert(h.current =~= seq![]);
                assert(w + text::ink(h.current) =~= w);
            }
        }
    }
}

proof fn lemma_written_first(block: Seq<char>, rest: Seq<Seq<char>>)
    ensures
        written(seq![block] + rest) == text::ink(block) + written(rest),
    decreases rest.len(),
{
    let all = seq![block] + rest;
    if rest.len() == 0 {
        assert(all.drop_last() =~= Seq::<Seq<char>>::empty());
        assert(all.last() == block);
        reveal_with_fuel(written, 2);
        assert(written(all) =~= text::ink(block) + written(rest));
    } else {
        lemma_written_first(block, rest.drop_last());
        assert(all.drop_last() =~= seq![block] + rest.drop_last());
        assert(all.last() == rest.last());
        assert(written(all) =~= text::ink(block) + written(rest));
    }
}

proof fn lemma_split_ink(s: Seq<char>)
    ensures
        written(text::split_text(s, "\n\n"@)) == text::ink(s),
    decreases s.len(),
{
    let sep = "\n\n"@;
    lemma_no_ink();
    text::lemma_find_text(s, sep, 0);
    match text::find_text(s, sep, 0) {
        None => {
            let none = Seq::<Seq<char>>::empty();
            lemma_written_first(s, none);
            assert(seq![s] + none =~= seq![s]);
            assert(text::ink(s) + written(none) =~= text::ink(s));
        },
        Some(i) => {
            let before = s.take(i);
            let after = s.skip(i + 2);
            lemma_split_ink(after);
            lemma_written_first(before, text::split_text(after, sep));
            text::lemma_ink_add(before, sep);
            text::lemma_ink_add(before + sep, after);
            assert(before + sep + after =~= s) by {
                assert(s.subrange(i, i + 2) == sep);
                assert forall|k: int| i <= k < i + 2 implies s[k] == sep[k - i] by {
                    assert(s.subrange(i, i + 2)[k - i] == s[k]);
                }
            }
            assert(text::ink(before) + text::ink(sep) =~= text::ink(before));
        },
    }
}

proof fn lemma_written_take(title: Seq<char>, chunks: Seq<Seq<char>>, n: int)
    requires
        0 <= n <= chunks.len(),
    ensures
        written_in(title, chunks.take(n)).is_prefix_of(written_in(title, chunks)),
    decreases chunks.len(),
{
    let some = written_in(title, chunks.take(n));
    let all = written_in(title, chunks);
    if n == chunks.len() {
        assert(chunks.take(n) =~= chunks);
        assert(some =~= all.subrange(0, some.len() as int));
    } else {
        let rest = chunks.drop_last();
        lemma_written_take(title, rest, n);
        assert(rest.take(n) =~= chunks.take(n));
        let most = written_in(title, rest);
        assert(some == most.subrange(0, some.len() as int));
        assert(some =~= all.subrange(0, some.len() as int));
    }
}

/// Splitting a note into chunks loses, repeats and reorders nothing that is
/// written in it: under the titles stands, whitespace aside, how the text
/// begins, and all of it where there are fewer chunks than the cap. A note of
/// which only the title is a chunk has nothing written in it.
pub proof fn lemma_chunks_lose_nothing(title: Seq<char>, prose: Seq<char>)
    ensures
        ({
            let all = pieces(title, prose);
            if all == seq![title] {
                text::ink(prose).len() == 0
            } else {
                &&& written_in(title, all).is_prefix_of(text::ink(prose))
                &&& all.len() < MAX_CHUNKS ==> written_in(title, all) == text::ink(prose)
            }
        }),
{
    let blocks = text::split_text(prose, "\n\n"@);
    let g = gathered(title, blocks);
    let done = flushed(title, g).done;
    let all = pieces(title, prose);
    lemma_split_ink(prose);
    lemma_gathered_ink(title, blocks);
    lemma_flushed_ink(title, g);
    assert(written_in(title, done) == text::ink(prose));
    lemma_gathered(title, blocks);
    lemma_flushed(title, g);
    if all == seq![title] && done.len() > 0 {
        assert(all[0] == done[0]);
        assert(is_chunk(title, done[0]));
        assert(seq![title][0] == title);
    }
    if done.len() > MAX_CHUNKS {
        lemma_written_take(title, done, MAX_CHUNKS as int);
    } else {
        lemma_written_take(title, done, done.len() as int);
        assert(done.take(done.len() as int) =~= done);
    }
}

// ---- how a note is cut up ----

/// A short block joins the chunk that is being gathered, an empty line between
/// them, as long as both come to no more than two thousand characters and it
/// is no heading. A heading, or a block for which there is no room, completes
/// the chunk and begins another. A blank block changes nothing.
pub proof fn lemma_a_block_joins_while_there_is_room(
    title: Seq<char>,
    blocks: Seq<Seq<char>>,
    block: Seq<char>,
)
    requires
        text::trim(block).len() <= 2000,
    ensures
        ({
            let g = gathered(title, blocks);
            let now = gathered(title, blocks.push(block));
            let b = text::trim(block);
            let body = text::trim(g.current);
            if b.len() == 0 {
                now == g
            } else if g.current.len() == 0 {
                now.done == g.done && now.current == b
            } else if b[0] != '#' && g.current.len() + b.len() <= 2000 {
                now.done == g.done && now.current == g.current + "\n\n"@ + b
            } else {
                &&& now.current == b
                &&& body.len() > 0 ==> now.done == g.done.push(title + "\n\n"@ + body)
                &&& body.len() == 0 ==> now.done == g.done
            }
        }),
{
    assert(blocks.push(block).drop_last() =~= blocks);
    assert(blocks.push(block).last() == block);
}

/// What is left of a block once so many pieces of two thousand characters are
/// cut off, under the title, blank pieces left out.
pub open spec fn slices(title: Seq<char>, block: Seq<char>) -> Seq<Seq<char>>
    decreases block.len(),
{
    if block.len() == 0 {
        seq![]
    } else {
        let piece = if block.len() <= 2000 {
            block
        } else {
            block.take(2000)
        };
        (if text::trim(piece).len() > 0 {
            seq![title + "\n\n"@ + text::trim(piece)]
        } else {
            seq![]
        }) + slices(title, block.skip(piece.len() as int))
    }
}

proof fn lemma_cut_slices(title: Seq<char>, done: Seq<Seq<char>>, rest: Seq<char>)
    ensures
        cut(title, (Gathering { done, current: seq![] }), rest) == (Gathering {
            done: done + slices(title, rest),
            current: seq![],
        }),
    decreases rest.len(),
{
    let g = Gathering { done, current: seq![] };
    if rest.len() == 0 {
        assert(done + slices(title, rest) =~= done);
    } else if rest.len() <= 2000 {
        assert(g.current + rest =~= rest);
        assert(rest.skip(rest.len() as int) =~= Seq::<char>::empty());
        assert(slices(title, rest.skip(rest.len() as int)) =~= seq![]);
        let r = flushed(title, Gathering { done, current: rest });
        assert(cut(title, g, rest) == r);
        assert(r.done =~= done + slices(title, rest));
    } else {
        let piece = rest.take(2000);
        assert(g.current + piece =~= piece);
        let r = flushed(title, Gathering { done, current: piece });
        assert(r.current =~= Seq::<char>::empty());
        lemma_cut_slices(title, r.done, rest.skip(2000));
        assert(r.done + slices(title, rest.skip(2000)) =~= done + slices(title, rest));
    }
}

/// A block of more than two thousand characters is cut at every two
/// thousandth, each piece a chunk of its own, and completes what was gathered
/// before it.
pub proof fn lemma_a_long_block_is_cut_every_two_thousand_characters(
    title: Seq<char>,
    blocks: Seq<Seq<char>>,
    block: Seq<char>,
)
    requires
        text::trim(block).len() > 2000,
    ensures
        ({
            let g = gathered(title, blocks);
            let now = gathered(title, blocks.push(block));
            let b = text::trim(block);
            let body = text::trim(g.current);
            &&& now.current.len() == 0
            &&& now.done == if body.len() > 0 {
                g.done.push(title + "\n\n"@ + body) + slices(title, b)
            } else {
                g.done + slices(title, b)
            }
        }),
{
    assert(blocks.push(block).drop_last() =~= blocks);
    assert(blocks.push(block).last() == block);
    let g = gathered(title, blocks);
    let b = text::trim(block);
    let h = if g.current.len() > 0 {
        flushed(title, g)
    } else {
        g
    };
    assert(h.current =~= Seq::<char>::empty());
    if g.current.len() == 0 {
        text::lemma_trim_len(g.current);
    }
    lemma_cut_slices(title, h.done, b);
}

/// The pieces of a note are what its blocks, which empty lines separate, are
/// gathered to, the first sixteen of them; and the title alone where there is
/// nothing in the text.
pub proof fn lemma_a_note_is_cut_at_its_empty_lines(title: Seq<char>, prose: Seq<char>)
    ensures
        ({
            let g = gathered(title, text::split_text(prose, "\n\n"@));
            let body = text::trim(g.current);
            let all = if body.len() > 0 {
                g.done.push(title + "\n\n"@ + body)
            } else {
                g.done
            };
            pieces(title, prose) == if all.len() > 16 {
                all.take(16)
            } else if all.len() > 0 || text::trim(title).len() == 0 {
                all
            } else {
                seq![title]
            }
        }),
        gathered(title, seq![]).done == Seq::<Seq<char>>::empty(),
        gathered(title, seq![]).current == Seq::<char>::empty(),
{
}

/// No chunk but the title alone has more than two thousand and two characters
/// behind its title, and there are at most sixteen.
pub proof fn lemma_chunks_are_few_and_short(title: Seq<char>, prose: Seq<char>)
    ensures
        pieces(title, prose).len() <= 16,
        pieces(title, prose) == seq![title] || forall|i: int|
            0 <= i < pieces(title, prose).len() ==> (title + "\n\n"@).is_prefix_of(
                #[trigger] pieces(title, prose)[i],
            ) && pieces(title, prose)[i].len() <= title.len() + 2 + 2002,
{
    lemma_chunks_fit_and_name_their_note(title, prose);
}

/// What a note is known by is the hash of its pieces, a byte that is in no
/// text between them.
pub proof fn lemma_a_digest_is_of_all_pieces(title: Seq<char>, prose: Seq<char>)
    ensures
        digest(title, prose).0 == sync::fnv(
            vstd::utf8::encode_utf8(text::join(pieces(title, prose), seq!['\u{1}'])),
        ),
{
}

/// A note that has vectors for its chunks is as similar as the best of them,
/// and one that has none is left out.
pub proof fn lemma_notes_without_vectors_are_left_out(
    a: Seq<Seq<char>>,
    id: Seq<char>,
    b: Seq<Seq<char>>,
    chunks: Map<Seq<char>, Seq<u32>>,
)
    ensures
        similar(a.push(id) + b, chunks) == similar(a, chunks) + (if chunks.contains_key(id)
            && chunks[id].len() > 0 {
            seq![(id, strongest(chunks[id])->0)]
        } else {
            seq![]
        }) + similar(b, chunks),
        similar(seq![], chunks) == Seq::<(Seq<char>, u32)>::empty(),
    decreases b.len(),
{
    let all = a.push(id) + b;
    let here = if chunks.contains_key(id) && chunks[id].len() > 0 {
        seq![(id, strongest(chunks[id])->0)]
    } else {
        seq![]
    };
    lemma_a_note_scores_as_its_best_chunk(chunks[id]);
    if b.len() == 0 {
        assert(all =~= a.push(id));
        assert(all.drop_last() =~= a);
    } else {
        lemma_notes_without_vectors_are_left_out(a, id, b.drop_last(), chunks);
        assert(all.drop_last() =~= a.push(id) + b.drop_last());
    }
    assert(similar(all, chunks) =~= similar(a, chunks) + here + similar(b, chunks));
}

/// Vectors of one model are worth nothing to another: a store keeps its notes
/// under the model it is for, and loses them all under any other.
pub proof fn lemma_another_model_keeps_nothing(store: StoreView, model: Seq<char>, id: Seq<char>)
    ensures
        with_model(store, model).model == model,
        store.model == model ==> with_model(store, model).notes == store.notes,
        store.model != model ==> !with_model(store, model).notes.contains_key(id),
{
}

// ---- which vectors are kept ----

proof fn lemma_last_orphan_is_last(
    notes: Map<Seq<char>, EmbeddedView>,
    wanted: Seq<(Seq<char>, Digest)>,
    moved: Seq<(Seq<char>, Seq<char>)>,
    digest: Digest,
    ids: Seq<Seq<char>>,
)
    requires
        ordered::is_ascending(ids),
    ensures
        forall|id: Seq<char>| #[trigger]
            ids.contains(id) && is_orphan(wanted, moved, id) && notes[id].digest == digest ==> (
            match last_orphan(notes, wanted, moved, digest, ids) {
                Some(last) => id == last || ordered::precedes(id, last),
                None => false,
            }),
    decreases ids.len(),
{
    if ids.len() > 0 {
        let rest = ids.drop_last();
        let n = ids.len() - 1;
        assert forall|i: int, j: int| 0 <= i < j < rest.len() implies ordered::precedes(
            #[trigger] rest[i],
            #[trigger] rest[j],
        ) by {
            assert(ordered::precedes(ids[i], ids[j]));
        }
        lemma_last_orphan_is_last(notes, wanted, moved, digest, rest);
        assert forall|id: Seq<char>| #[trigger]
            ids.contains(id) && is_orphan(wanted, moved, id) && notes[id].digest == digest implies (
        match last_orphan(notes, wanted, moved, digest, ids) {
            Some(last) => id == last || ordered::precedes(id, last),
            None => false,
        }) by {
            let k = choose|k: int| 0 <= k < ids.len() && ids[k] == id;
            if k < n {
                assert(rest[k] == id);
                assert(rest.contains(id));
                assert(ordered::precedes(ids[k], ids[n]));
            }
        }
    }
}

proof fn lemma_with_wants_moves(
    notes: Map<Seq<char>, EmbeddedView>,
    wanted: Seq<(Seq<char>, Digest)>,
    n: int,
)
    requires
        notes.dom().finite(),
        are_distinct(wanted),
        0 <= n <= wanted.len(),
    ensures
        ({
            let work = with_wants(notes, wanted, wanted.take(n));
            &&& forall|k: int, from: Seq<char>|
                #![trigger wanted[k], notes.contains_key(from)]
                0 <= k < n && work.embed.contains(wanted[k].0) && !notes.contains_key(wanted[k].0)
                    && notes.contains_key(from) && !is_live(wanted, from) && notes[from].digest
                    == wanted[k].1 ==> is_claimed(work.moved, from)
            &&& forall|i: int, other: Seq<char>|
                #![trigger work.moved[i], notes.contains_key(other)]
                0 <= i < work.moved.len() && notes.contains_key(other) && !is_live(wanted, other)
                    && notes[other].digest == notes[work.moved[i].0].digest && ordered::precedes(
                    work.moved[i].0,
                    other,
                ) ==> is_claimed(work.moved.take(i), other)
        }),
    decreases n,
{
    let among = wanted.take(n);
    let work = with_wants(notes, wanted, among);
    if n == 0 {
        assert(among =~= Seq::<(Seq<char>, Digest)>::empty());
    } else {
        lemma_with_wants_moves(notes, wanted, n - 1);
        lemma_with_wants(notes, wanted, n - 1);
        lemma_with_wants(notes, wanted, n);
        let rest = wanted.take(n - 1);
        assert(among.drop_last() =~= rest);
        assert(among.last() == wanted[n - 1]);
        let before = with_wants(notes, wanted, rest);
        let (id, digest) = wanted[n - 1];
        let order = ordered::ascending(notes.dom());
        ordered::lemma_ascending(notes.dom());
        ordered::lemma_ascending_apart(notes.dom());
        lemma_last_orphan(notes, wanted, before.moved, digest, order);
        lemma_last_orphan_is_last(notes, wanted, before.moved, digest, order);
        assert forall|t: Seq<char>| is_live(rest, t) implies t != id by {
            let k = choose|k: int| 0 <= k < rest.len() && (#[trigger] rest[k]).0 == t;
            assert(wanted[k] == rest[k]);
            assert(wanted[k].0 != wanted[n - 1].0);
        }
        let orphan = last_orphan(notes, wanted, before.moved, digest, order);
        if !notes.contains_key(id) && orphan is Some {
            lemma_push_moved(before.moved, (orphan->0, id));
        }
        lemma_push_contains(before.embed, id);
        assert forall|k: int, from: Seq<char>|
            #![trigger wanted[k], notes.contains_key(from)]
            0 <= k < n && work.embed.contains(wanted[k].0) && !notes.contains_key(wanted[k].0)
                && notes.contains_key(from) && !is_live(wanted, from) && notes[from].digest
                == wanted[k].1 implies is_claimed(work.moved, from) by {
            if k < n - 1 {
                assert(wanted[k].0 != wanted[n - 1].0);
                assert(before.embed.contains(wanted[k].0));
                assert(is_claimed(before.moved, from));
            } else {
                assert(order.contains(from));
                assert(orphan is None);
                assert(!is_orphan(wanted, before.moved, from));
            }
        }
        assert forall|i: int, other: Seq<char>|
            #![trigger work.moved[i], notes.contains_key(other)]
            0 <= i < work.moved.len() && notes.contains_key(other) && !is_live(wanted, other)
                && notes[other].digest == notes[work.moved[i].0].digest && ordered::precedes(
                work.moved[i].0,
                other,
            ) implies is_claimed(work.moved.take(i), other) by {
            if i < before.moved.len() {
                assert(work.moved[i] == before.moved[i]);
                assert(work.moved.take(i) =~= before.moved.take(i));
            } else {
                assert(work.moved.take(i) =~= before.moved);
                let from = orphan->0;
                assert(work.moved[i] == (from, id));
                assert(order.contains(other));
                if is_orphan(wanted, before.moved, other) {
                    ordered::lemma_precedes_irreflexive(from);
                    assert(other == from || ordered::precedes(other, from));
                    if other != from {
                        ordered::lemma_precedes_transitive(from, other, from);
                    }
                }
            }
        }
    }
}

/// Nothing is embedded whose vectors are there under another name: where a note
/// that is new is embedded, every note that is gone and had the same content
/// has been moved to another. Of several such notes the last by id is moved
/// first.
pub proof fn lemma_nothing_is_embedded_that_could_be_moved(
    notes: Map<Seq<char>, EmbeddedView>,
    wanted: Seq<(Seq<char>, Digest)>,
    k: int,
    from: Seq<char>,
)
    requires
        notes.dom().finite(),
        are_distinct(wanted),
        0 <= k < wanted.len(),
        notes.contains_key(from),
        !is_live(wanted, from),
    ensures
        ({
            let work = planned(notes, wanted);
            &&& work.embed.contains(wanted[k].0) && !notes.contains_key(wanted[k].0)
                && notes[from].digest == wanted[k].1 ==> is_claimed(work.moved, from)
            &&& forall|i: int|
                0 <= i < work.moved.len() && notes[(#[trigger] work.moved[i]).0].digest
                    == notes[from].digest && ordered::precedes(work.moved[i].0, from)
                    ==> is_claimed(work.moved.take(i), from)
        }),
{
    let sorted = ranked::ranked::<Wanted>(wanted);
    lemma_ranked_wanted(wanted);
    lemma_with_wants_moves(notes, sorted, sorted.len() as int);
    assert(sorted.take(sorted.len() as int) =~= sorted);
    let work = planned(notes, wanted);
    assert(work.moved == with_wants(notes, sorted, sorted).moved);
    assert(work.embed == with_wants(notes, sorted, sorted).embed);
    assert(wanted.contains(wanted[k]));
    assert(sorted.contains(wanted[k]));
    let j = choose|j: int| 0 <= j < sorted.len() && sorted[j] == wanted[k];
    assert(!is_live(sorted, from));
}

/// Making a plan's moves and drops keeps the vectors of every note that stays,
/// puts those of a note that was moved under its new name, and has nothing
/// under the names that are gone.
pub proof fn lemma_vectors_follow_their_note(
    notes: Map<Seq<char>, EmbeddedView>,
    wanted: Seq<(Seq<char>, Digest)>,
    id: Seq<char>,
)
    requires
        notes.dom().finite(),
        are_distinct(wanted),
    ensures
        ({
            let work = planned(notes, wanted);
            let now = applied(notes, work);
            &&& is_live(wanted, id) && notes.contains_key(id) ==> now.contains_key(id) && now[id]
                == notes[id]
            &&& !is_live(wanted, id) ==> !now.contains_key(id)
            &&& forall|i: int|
                0 <= i < work.moved.len() ==> now.contains_key((#[trigger] work.moved[i]).1)
                    && now[work.moved[i].1] == notes[work.moved[i].0]
        }),
{
    let work = planned(notes, wanted);
    let now = applied(notes, work);
    lemma_every_id_has_one_place(notes, wanted, id);
    lemma_applying_a_plan_leaves_only_live_notes(notes, wanted, id);
    lemma_a_move_keeps_the_content(notes, wanted);
    let sorted = ranked::ranked::<Wanted>(wanted);
    lemma_ranked_wanted(wanted);
    lemma_with_wants(notes, sorted, sorted.len() as int);
    assert(sorted.take(sorted.len() as int) =~= sorted);
    assert(work.moved == with_wants(notes, sorted, sorted).moved);
    lemma_carried(notes, sorted, work.moved);
    lemma_without(carried(notes, work.moved), work.drop, id);
    assert forall|i: int| 0 <= i < work.moved.len() implies now.contains_key(
        (#[trigger] work.moved[i]).1,
    ) && now[work.moved[i].1] == notes[work.moved[i].0] by {
        let to = work.moved[i].1;
        assert(is_moved_to(work.moved, to));
        lemma_every_id_has_one_place(notes, wanted, to);
        lemma_without(carried(notes, work.moved), work.drop, to);
    }
}

// ---- the name of a store ----

/// What a hexadecimal digit is worth.
pub open spec fn hex_worth(c: char) -> int {
    if '0' <= c && c <= '9' {
        c as int - '0' as int
    } else if 'a' <= c && c <= 'f' {
        c as int - 'a' as int + 10
    } else {
        -1
    }
}

/// What some hexadecimal digits are worth.
pub open spec fn hex_value(s: Seq<char>) -> int
    decreases s.len(),
{
    if s.len() == 0 {
        0
    } else {
        16 * hex_value(s.drop_last()) + hex_worth(s.last())
    }
}

proof fn lemma_hex(n: nat, width: nat)
    ensures
        hex(n, width).len() == width,
        forall|i: int| 0 <= i < width ==> 0 <= hex_worth(#[trigger] hex(n, width)[i]) < 16,
        n < vstd::arithmetic::power::pow(16, width) ==> hex_value(hex(n, width)) == n,
    decreases width,
{
    if width == 0 {
        assert(vstd::arithmetic::power::pow(16, 0) == 1) by {
            vstd::arithmetic::power::lemma_pow0(16);
        }
    } else {
        let w = (width - 1) as nat;
        lemma_hex(n / 16, w);
        vstd::arithmetic::power::lemma_pow_adds(16, 1, w);
        vstd::arithmetic::power::lemma_pow1(16);
        assert(vstd::arithmetic::power::pow(16, width) == 16 * vstd::arithmetic::power::pow(16, w));
        let all = hex(n, width);
        assert(all.drop_last() =~= hex(n / 16, w));
        assert(all.last() == hex_digit(n % 16));
        assert(hex_worth(hex_digit(n % 16)) == n % 16);
        assert forall|i: int| 0 <= i < width implies 0 <= hex_worth(#[trigger] all[i]) < 16 by {
            if i < w {
                assert(all[i] == hex(n / 16, w)[i]);
            }
        }
    }
}

/// A vault's store is in `brain` under the cache directory, or under `.cache`
/// in the home directory if there is none, or under the working directory if
/// there is no home either; and its name is `vectors-`, the hash of the
/// vault's path in sixteen hexadecimal digits, and `.json`.
pub proof fn lemma_a_store_is_named_by_its_vault(
    vault: Seq<char>,
    cache: Option<Seq<char>>,
    home: Option<Seq<char>>,
)
    ensures
        exists|base: Seq<char>, digits: Seq<char>|
            #![trigger paths::joined(
                paths::joined(base, "brain"@),
                "vectors-"@ + digits + ".json"@,
            )]
            {
                &&& store_path(vault, cache, home) == paths::joined(
                    paths::joined(base, "brain"@),
                    "vectors-"@ + digits + ".json"@,
                )
                &&& cache is Some ==> base == cache->0
                &&& cache is None && home is Some ==> base == paths::joined(home->0, ".cache"@)
                &&& cache is None && home is None ==> base == "."@
                &&& digits.len() == 16
                &&& forall|i: int| 0 <= i < 16 ==> 0 <= hex_worth(#[trigger] digits[i]) < 16
                &&& hex_value(digits) == sync::fnv(vstd::utf8::encode_utf8(vault))
            },
{
    let n = sync::fnv(vstd::utf8::encode_utf8(vault));
    let digits = hex(n as nat, 16);
    lemma_hex(n as nat, 16);
    assert(vstd::arithmetic::power::pow(16, 16) == 0x1_0000_0000_0000_0000) by {
        reveal(vstd::arithmetic::power::pow);
        reveal_with_fuel(vstd::arithmetic::power::pow, 17);
    }
    let base = match (cache, home) {
        (Some(cache), _) => cache,
        (None, Some(home)) => paths::joined(home, ".cache"@),
        (None, None) => "."@,
    };
    assert(store_path(vault, cache, home) == paths::joined(
        paths::joined(base, "brain"@),
        "vectors-"@ + digits + ".json"@,
    ));
}

/// A pass says that it started afresh exactly if there was something to lose
/// and it was another model's, and counts what it moved and dropped.
pub proof fn lemma_what_a_pass_reports(
    store: StoreView,
    entries: Map<Seq<char>, index::EntryView>,
    model: Seq<char>,
    replies: Seq<Option<Seq<Seq<u32>>>>,
    id: Seq<char>,
)
    requires
        store.notes.contains_key(id),
    ensures
        ({
            let (now, report) = caught_up(store, entries, model, replies);
            &&& report.reset == (store.model != model)
            &&& now.model == model
        }),
{
}

} // verus!
