//! What the vault means, derived from what the vault contains.
//!
//! Titles, aliases, tags, the link graph and the text to search. All of it is
//! derived: the files are canonical and this can be thrown away and rebuilt at
//! any time.
//!
//! Creating a note changes how *other* notes' links resolve, so the graph is
//! rebuilt after any change rather than patched. The per-note work, scanning a
//! body for links and tags, is what is kept.

use crate::markdown;
use crate::markdown::{Link, Scan};
use crate::note;
use crate::note::{Note, NoteId};
use crate::ordered;
use crate::ordered::TextMap;
use crate::paths;
use crate::text;
use vstd::prelude::*;

verus! {

// ---- what is kept of one note ----

/// Everything derived from one note.
#[derive(Debug)]
pub struct Entry {
    title: String,
    aliases: Vec<String>,
    tags: Vec<String>,
    links: Vec<Link>,
    embeds: Vec<String>,
    /// The body with markup stripped, which is what full-text search reads.
    text: String,
    excerpt: String,
}

/// Everything derived from one note, by its texts.
#[verifier::ext_equal]
pub struct EntryView {
    pub title: Seq<char>,
    pub aliases: Seq<Seq<char>>,
    pub tags: Seq<Seq<char>>,
    pub links: Seq<markdown::LinkView>,
    pub embeds: Seq<Seq<char>>,
    pub text: Seq<char>,
    pub excerpt: Seq<char>,
}

impl View for Entry {
    type V = EntryView;

    closed spec fn view(&self) -> EntryView {
        EntryView {
            title: self.title@,
            aliases: text::views(self.aliases@),
            tags: text::views(self.tags@),
            links: text::views(self.links@),
            embeds: text::views(self.embeds@),
            text: self.text@,
            excerpt: self.excerpt@,
        }
    }
}

/// How many characters of a note are shown beside its title.
pub const EXCERPT: usize = 120;

/// Everything derived from a note and one scan of its body.
pub open spec fn entry(note: note::NoteView, scan: markdown::ScanView) -> EntryView {
    EntryView {
        title: note::title(note.id),
        aliases: note::aliases(note),
        tags: note::every_tag(note, scan.tags),
        links: scan.links,
        embeds: scan.embeds,
        text: scan.text,
        excerpt: note::excerpt(scan.text, note::title(note.id), EXCERPT as int),
    }
}

impl Entry {
    /// Everything derived from a note, from a single scan of it.
    pub fn of(note: &Note, scan: Scan) -> (r: Self)
        ensures
            r@ == entry(note@, scan@),
    {
        let title = text::string_of(&text::chars_of(note.title()));
        let excerpt = note::excerpt_of(scan.text.as_str(), title.as_str(), EXCERPT);
        Entry {
            title,
            aliases: note.aliases(),
            tags: note.tags(&scan.tags),
            links: scan.links,
            embeds: scan.embeds,
            text: scan.text,
            excerpt,
        }
    }
}

// ---- lists of notes under a name ----

/// Some notes, in order.
#[derive(Debug, PartialEq, Eq)]
pub struct Ids {
    pub ids: Vec<NoteId>,
}

impl View for Ids {
    type V = Seq<Seq<char>>;

    open spec fn view(&self) -> Seq<Seq<char>> {
        text::views(self.ids@)
    }
}

/// A link pointing *at* a note, and the line it was written on.
#[derive(Debug, PartialEq, Eq)]
pub struct Backlink {
    pub from: NoteId,
    /// The line holding the link, with its markup stripped, so it can be read
    /// without opening anything.
    pub context: String,
}

impl View for Backlink {
    type V = (Seq<char>, Seq<char>);

    open spec fn view(&self) -> (Seq<char>, Seq<char>) {
        (self.from@, self.context@)
    }
}

/// Some backlinks, in order.
#[derive(Debug, PartialEq, Eq)]
pub struct Backlinks {
    pub links: Vec<Backlink>,
}

impl View for Backlinks {
    type V = Seq<(Seq<char>, Seq<char>)>;

    open spec fn view(&self) -> Seq<(Seq<char>, Seq<char>)> {
        text::views(self.links@)
    }
}

/// What is listed under a name, if anything is.
pub open spec fn listed<A>(m: Map<Seq<char>, Seq<A>>, name: Seq<char>) -> Seq<A> {
    if m.contains_key(name) {
        m[name]
    } else {
        seq![]
    }
}

/// One more thing listed under a name.
pub open spec fn with<A>(m: Map<Seq<char>, Seq<A>>, name: Seq<char>, item: A) -> Map<
    Seq<char>,
    Seq<A>,
> {
    m.insert(name, listed(m, name).push(item))
}

fn list_id(m: &mut TextMap<String, Ids>, name: String, id: &NoteId)
    ensures
        ordered::value_views(final(m)@) == with(ordered::value_views(old(m)@), name@, id@),
{
    let ghost before = m@;
    let mut ids = match m.remove(name.as_str()) {
        Some(ids) => ids,
        None => {
            let ids = Ids { ids: Vec::new() };
            assert(ids@ =~= Seq::<Seq<char>>::empty());
            ids
        },
    };
    assert(ids@ == listed(ordered::value_views(before), name@));
    let copy = id.clone();
    proof {
        text::lemma_views_push(ids.ids@, copy);
    }
    ids.ids.push(copy);
    proof {
        ordered::lemma_value_views_insert(m@, name@, ids);
        assert(ordered::value_views(before.remove(name@)).insert(name@, ids@)
            =~= ordered::value_views(before).insert(name@, ids@));
    }
    m.insert(name, ids);
}

fn list_link(m: &mut TextMap<NoteId, Backlinks>, target: NoteId, link: Backlink)
    ensures
        ordered::value_views(final(m)@) == with(ordered::value_views(old(m)@), target@, link@),
{
    let ghost before = m@;
    let mut links = match m.remove(target.as_str()) {
        Some(links) => links,
        None => {
            let links = Backlinks { links: Vec::new() };
            assert(links@ =~= Seq::<(Seq<char>, Seq<char>)>::empty());
            links
        },
    };
    assert(links@ == listed(ordered::value_views(before), target@));
    proof {
        text::lemma_views_push(links.links@, link);
    }
    links.links.push(link);
    proof {
        ordered::lemma_value_views_insert(m@, target@, links);
        assert(ordered::value_views(before.remove(target@)).insert(target@, links@)
            =~= ordered::value_views(before).insert(target@, links@));
    }
    m.insert(target, links);
}

// ---- names and tags ----

/// The names a note answers to: its title and its aliases, lowercased.
pub open spec fn names_of(entry: EntryView) -> Seq<Seq<char>> {
    seq![text::lowercase(entry.title)] + entry.aliases.map_values(
        |alias: Seq<char>| text::lowercase(alias),
    )
}

/// One note listed under some names, once under each.
pub open spec fn with_names(
    m: Map<Seq<char>, Seq<Seq<char>>>,
    names: Seq<Seq<char>>,
    id: Seq<char>,
) -> Map<Seq<char>, Seq<Seq<char>>>
    decreases names.len(),
{
    if names.len() == 0 {
        m
    } else {
        let before = with_names(m, names.drop_last(), id);
        if listed(before, names.last()).contains(id) {
            before
        } else {
            with(before, names.last(), id)
        }
    }
}

/// The notes answering to each name, among some notes.
pub open spec fn names_among(
    entries: Map<Seq<char>, EntryView>,
    ids: Seq<Seq<char>>,
) -> Map<Seq<char>, Seq<Seq<char>>>
    decreases ids.len(),
{
    if ids.len() == 0 {
        Map::empty()
    } else {
        with_names(
            names_among(entries, ids.drop_last()),
            names_of(entries[ids.last()]),
            ids.last(),
        )
    }
}

/// The notes answering to each name, lowercased.
pub open spec fn names(entries: Map<Seq<char>, EntryView>) -> Map<Seq<char>, Seq<Seq<char>>> {
    names_among(entries, ordered::ascending(entries.dom()))
}

/// One note listed under some tags.
pub open spec fn with_tags(
    m: Map<Seq<char>, Seq<Seq<char>>>,
    tags: Seq<Seq<char>>,
    id: Seq<char>,
) -> Map<Seq<char>, Seq<Seq<char>>>
    decreases tags.len(),
{
    if tags.len() == 0 {
        m
    } else {
        with(with_tags(m, tags.drop_last(), id), text::lowercase(tags.last()), id)
    }
}

/// The notes carrying each tag, among some notes.
pub open spec fn tagged_among(
    entries: Map<Seq<char>, EntryView>,
    ids: Seq<Seq<char>>,
) -> Map<Seq<char>, Seq<Seq<char>>>
    decreases ids.len(),
{
    if ids.len() == 0 {
        Map::empty()
    } else {
        with_tags(
            tagged_among(entries, ids.drop_last()),
            entries[ids.last()].tags,
            ids.last(),
        )
    }
}

/// The notes carrying each tag, lowercased.
pub open spec fn tagged(entries: Map<Seq<char>, EntryView>) -> Map<Seq<char>, Seq<Seq<char>>> {
    tagged_among(entries, ordered::ascending(entries.dom()))
}

// ---- resolving a link ----

/// What a `[[link]]` points at.
#[derive(Debug, PartialEq, Eq)]
pub enum Resolution {
    /// Exactly one note answers to this name.
    Note(NoteId),
    /// Several do. Reported rather than guessed at: picking one silently means
    /// a link that quietly points at the wrong note forever.
    Ambiguous(Vec<NoteId>),
    /// Nothing does: a link to a note that has not been written yet.
    Missing,
}

/// What a link points at, by the texts of the ids.
pub enum ResolutionView {
    Note(Seq<char>),
    Ambiguous(Seq<Seq<char>>),
    Missing,
}

impl View for Resolution {
    type V = ResolutionView;

    open spec fn view(&self) -> ResolutionView {
        match self {
            Resolution::Note(id) => ResolutionView::Note(id@),
            Resolution::Ambiguous(ids) => ResolutionView::Ambiguous(text::views(ids@)),
            Resolution::Missing => ResolutionView::Missing,
        }
    }
}

/// The path a link target spells, with or without its extension.
pub open spec fn target_path(target: Seq<char>) -> Seq<char> {
    paths::relative(
        if ".md"@.is_suffix_of(target) {
            target
        } else {
            target + ".md"@
        },
    )
}

/// What some candidates for a link come to. A note linking to its own title
/// means itself, whatever else shares the name.
pub open spec fn chosen(candidates: Seq<Seq<char>>, from: Option<Seq<char>>) -> ResolutionView {
    if candidates.len() == 0 {
        ResolutionView::Missing
    } else if candidates.len() == 1 {
        ResolutionView::Note(candidates[0])
    } else {
        match from {
            Some(from) if candidates.contains(from) => ResolutionView::Note(from),
            _ => ResolutionView::Ambiguous(candidates),
        }
    }
}

/// Whether a note has a name for its title, lowercased.
pub open spec fn is_called(
    entries: Map<Seq<char>, EntryView>,
    id: Seq<char>,
    name: Seq<char>,
) -> bool {
    entries.contains_key(id) && text::lowercase(entries[id].title) == name
}

/// Those of some notes that have a name for their title, lowercased.
pub open spec fn called(
    entries: Map<Seq<char>, EntryView>,
    ids: Seq<Seq<char>>,
    name: Seq<char>,
) -> Seq<Seq<char>>
    decreases ids.len(),
{
    if ids.len() == 0 {
        seq![]
    } else {
        let before = called(entries, ids.drop_last(), name);
        if is_called(entries, ids.last(), name) {
            before.push(ids.last())
        } else {
            before
        }
    }
}

/// The candidates for a name: the notes that have it for their title, and if
/// there are none those that have it for an alias.
pub open spec fn candidates(entries: Map<Seq<char>, EntryView>, name: Seq<char>) -> Seq<
    Seq<char>,
> {
    let answering = listed(names(entries), name);
    let titled = called(entries, answering, name);
    if titled.len() > 0 {
        titled
    } else {
        answering
    }
}

/// What `target` points at, from a link written in `from`: an exact vault
/// path, then a title, then an alias.
pub open spec fn resolved(
    entries: Map<Seq<char>, EntryView>,
    target: Seq<char>,
    from: Option<Seq<char>>,
) -> ResolutionView {
    let wanted = text::trim(target);
    if wanted.len() == 0 {
        ResolutionView::Missing
    } else if entries.contains_key(target_path(wanted)) {
        ResolutionView::Note(target_path(wanted))
    } else {
        chosen(candidates(entries, text::lowercase(wanted)), from)
    }
}

// ---- the link graph ----

/// Who links to each note, and which targets resolve to nothing.
#[verifier::ext_equal]
pub struct Graph {
    pub backlinks: Map<Seq<char>, Seq<(Seq<char>, Seq<char>)>>,
    pub missing: Map<Seq<char>, Seq<Seq<char>>>,
}

/// A graph with one more link in it.
pub open spec fn with_link(
    graph: Graph,
    entries: Map<Seq<char>, EntryView>,
    id: Seq<char>,
    link: markdown::LinkView,
) -> Graph {
    match resolved(entries, link.target, Some(id)) {
        ResolutionView::Note(target) => if target == id {
            graph
        } else {
            Graph {
                backlinks: with(graph.backlinks, target, (id, text::trim(link.line))),
                ..graph
            }
        },
        ResolutionView::Ambiguous(_) => graph,
        ResolutionView::Missing => Graph {
            missing: with(graph.missing, link.target, id),
            ..graph
        },
    }
}

/// A graph with some links of a note in it.
pub open spec fn with_links(
    graph: Graph,
    entries: Map<Seq<char>, EntryView>,
    id: Seq<char>,
    links: Seq<markdown::LinkView>,
) -> Graph
    decreases links.len(),
{
    if links.len() == 0 {
        graph
    } else {
        with_link(with_links(graph, entries, id, links.drop_last()), entries, id, links.last())
    }
}

/// The graph of the links of some notes.
pub open spec fn graph_among(entries: Map<Seq<char>, EntryView>, ids: Seq<Seq<char>>) -> Graph
    decreases ids.len(),
{
    if ids.len() == 0 {
        Graph { backlinks: Map::empty(), missing: Map::empty() }
    } else {
        with_links(
            graph_among(entries, ids.drop_last()),
            entries,
            ids.last(),
            entries[ids.last()].links,
        )
    }
}

/// The graph of all links.
pub open spec fn graph(entries: Map<Seq<char>, EntryView>) -> Graph {
    graph_among(entries, ordered::ascending(entries.dom()))
}

// ---- the index ----

/// Everything derived from the vault.
#[derive(Debug)]
pub struct Index {
    entries: TextMap<NoteId, Entry>,
    /// Lowercased title or alias to the notes answering to it.
    names: TextMap<String, Ids>,
    /// Lowercased tag to the notes carrying it.
    tags: TextMap<String, Ids>,
    backlinks: TextMap<NoteId, Backlinks>,
    /// Links that resolve to nothing, so that creating them can be offered.
    missing: TextMap<String, Ids>,
}

impl View for Index {
    type V = Map<Seq<char>, EntryView>;

    closed spec fn view(&self) -> Map<Seq<char>, EntryView> {
        ordered::value_views(self.entries@)
    }
}

impl Index {
    #[verifier::type_invariant]
    spec fn is_derived(self) -> bool {
        let entries = ordered::value_views(self.entries@);
        &&& ordered::value_views(self.names@) == names(entries)
        &&& ordered::value_views(self.tags@) == tagged(entries)
        &&& ordered::value_views(self.backlinks@) == graph(entries).backlinks
        &&& ordered::value_views(self.missing@) == graph(entries).missing
    }
}

fn lowered(s: &str) -> (r: String)
    ensures
        r@ == text::lowercase(s@),
{
    s.to_lowercase()
}

fn holds_id(ids: &Vec<NoteId>, id: &NoteId) -> (r: bool)
    ensures
        r == text::views(ids@).contains(id@),
{
    let ghost all = text::views(ids@);
    let mut i: usize = 0;
    while i < ids.len()
        invariant
            i <= ids@.len(),
            all == text::views(ids@),
            forall|j: int| 0 <= j < i ==> (#[trigger] all[j]) != id@,
        decreases ids@.len() - i,
    {
        if ids[i].same(id) {
            assert(all[i as int] == id@);
            return true;
        }
        assert(all[i as int] != id@);
        i = i + 1;
    }
    false
}

fn copy_ids(ids: &Vec<NoteId>) -> (r: Vec<NoteId>)
    ensures
        text::views(r@) == text::views(ids@),
{
    let ghost all = text::views(ids@);
    let mut r: Vec<NoteId> = Vec::new();
    let mut i: usize = 0;
    while i < ids.len()
        invariant
            i <= ids@.len(),
            all == text::views(ids@),
            text::views(r@) == all.take(i as int),
        decreases ids@.len() - i,
    {
        let id = ids[i].clone();
        proof {
            text::lemma_views_push(r@, id);
            assert(all.take(i + 1) =~= all.take(i as int).push(id@));
        }
        r.push(id);
        i = i + 1;
    }
    assert(all.take(all.len() as int) =~= all);
    r
}

fn add_name(m: &mut TextMap<String, Ids>, name: String, id: &NoteId)
    ensures
        ordered::value_views(final(m)@) == (if listed(
            ordered::value_views(old(m)@),
            name@,
        ).contains(id@) {
            ordered::value_views(old(m)@)
        } else {
            with(ordered::value_views(old(m)@), name@, id@)
        }),
{
    let there = match m.get(name.as_str()) {
        Some(ids) => holds_id(&ids.ids, id),
        None => false,
    };
    if !there {
        list_id(m, name, id);
    }
}

fn add_names(m: &mut TextMap<String, Ids>, entry: &Entry, id: &NoteId)
    ensures
        ordered::value_views(final(m)@) == with_names(
            ordered::value_views(old(m)@),
            names_of(entry@),
            id@,
        ),
{
    let ghost start = ordered::value_views(m@);
    let ghost all = names_of(entry@);
    proof {
        assert(all.take(1).drop_last() =~= Seq::<Seq<char>>::empty());
        reveal_with_fuel(with_names, 2);
    }
    add_name(m, lowered(entry.title.as_str()), id);
    let mut i: usize = 0;
    while i < entry.aliases.len()
        invariant
            i <= entry.aliases@.len(),
            all == names_of(entry@),
            all.len() == entry.aliases@.len() + 1,
            ordered::value_views(m@) == with_names(start, all.take(i + 1), id@),
        decreases entry.aliases@.len() - i,
    {
        assert(all.take(i + 2).drop_last() =~= all.take(i + 1));
        assert(all.take(i + 2).last() == text::lowercase(entry.aliases@[i as int]@));
        add_name(m, lowered(entry.aliases[i].as_str()), id);
        i = i + 1;
    }
    assert(all.take(all.len() as int) =~= all);
}

fn add_tags(m: &mut TextMap<String, Ids>, tags: &Vec<String>, id: &NoteId)
    ensures
        ordered::value_views(final(m)@) == with_tags(
            ordered::value_views(old(m)@),
            text::views(tags@),
            id@,
        ),
{
    let ghost start = ordered::value_views(m@);
    let ghost all = text::views(tags@);
    let mut i: usize = 0;
    while i < tags.len()
        invariant
            i <= tags@.len(),
            all == text::views(tags@),
            ordered::value_views(m@) == with_tags(start, all.take(i as int), id@),
        decreases tags@.len() - i,
    {
        assert(all.take(i + 1).drop_last() =~= all.take(i as int));
        list_id(m, lowered(tags[i].as_str()), id);
        i = i + 1;
    }
    assert(all.take(all.len() as int) =~= all);
}

/// What `target` points at, given the notes there are and the names they
/// answer to.
fn resolve_in(
    entries: &TextMap<NoteId, Entry>,
    names: &TextMap<String, Ids>,
    target: &str,
    from: Option<&NoteId>,
) -> (r: Resolution)
    requires
        ordered::value_views(names@) == self::names(ordered::value_views(entries@)),
    ensures
        r@ == resolved(
            ordered::value_views(entries@),
            target@,
            match from {
                Some(f) => Some(f@),
                None => None,
            },
        ),
{
    let wanted = text::trim_chars(&text::chars_of(target));
    if wanted.len() == 0 {
        return Resolution::Missing;
    }
    let md = text::chars_of(".md");
    let mut path = text::part(&wanted, 0, wanted.len());
    assert(path@ =~= wanted@);
    if !text::ends(&wanted, &md) {
        text::extend(&mut path, &md);
    }
    let as_path = NoteId::from_relative(text::string_of(&path).as_str());
    if entries.contains(as_path.as_str()) {
        return Resolution::Note(as_path);
    }
    let name = lowered(text::string_of(&wanted).as_str());
    let ghost all = ordered::value_views(entries@);
    let ghost known = ordered::value_views(names@);
    match names.get(name.as_str()) {
        None => {
            assert(called(all, listed(known, name@), name@).len() == 0);
            Resolution::Missing
        },
        Some(answering) => {
            assert(answering@ == known[name@]);
            let titled = titled_among(entries, &answering.ids, name.as_str());
            assert(text::views(titled@).len() == titled@.len());
            if titled.len() > 0 {
                choose_from(&titled, from)
            } else {
                choose_from(&answering.ids, from)
            }
        },
    }
}

/// What some candidates for a link come to.
fn choose_from(ids: &Vec<NoteId>, from: Option<&NoteId>) -> (r: Resolution)
    ensures
        r@ == chosen(
            text::views(ids@),
            match from {
                Some(f) => Some(f@),
                None => None,
            },
        ),
{
    assert(text::views(ids@).len() == ids@.len());
    if ids.len() == 0 {
        Resolution::Missing
    } else if ids.len() == 1 {
        let only = ids[0].clone();
        assert(only@ == text::views(ids@)[0]);
        Resolution::Note(only)
    } else {
        match from {
            Some(f) => if holds_id(ids, f) {
                Resolution::Note(f.clone())
            } else {
                Resolution::Ambiguous(copy_ids(ids))
            },
            None => Resolution::Ambiguous(copy_ids(ids)),
        }
    }
}

/// Those of some notes that have a name for their title, lowercased.
fn titled_among(entries: &TextMap<NoteId, Entry>, ids: &Vec<NoteId>, name: &str) -> (r: Vec<NoteId>)
    ensures
        text::views(r@) == called(ordered::value_views(entries@), text::views(ids@), name@),
{
    let ghost all = ordered::value_views(entries@);
    let ghost order = text::views(ids@);
    let mut r: Vec<NoteId> = Vec::new();
    let mut i: usize = 0;
    assert(text::views(r@) =~= called(all, order.take(0), name@));
    while i < ids.len()
        invariant
            i <= ids@.len() == order.len(),
            all == ordered::value_views(entries@),
            order == text::views(ids@),
            text::views(r@) == called(all, order.take(i as int), name@),
        decreases ids@.len() - i,
    {
        assert(order.take(i + 1).drop_last() =~= order.take(i as int));
        assert(order[i as int] == ids@[i as int]@);
        if let Some(entry) = entries.get(ids[i].as_str()) {
            assert(all[order[i as int]] == entry@);
            if text::same(lowered(entry.title.as_str()).as_str(), name) {
                let id = ids[i].clone();
                proof {
                    text::lemma_views_push(r@, id);
                }
                r.push(id);
            }
        }
        i = i + 1;
    }
    assert(order.take(order.len() as int) =~= order);
    r
}

fn add_links(
    backlinks: &mut TextMap<NoteId, Backlinks>,
    missing: &mut TextMap<String, Ids>,
    entries: &TextMap<NoteId, Entry>,
    names: &TextMap<String, Ids>,
    id: &NoteId,
    links: &Vec<Link>,
)
    requires
        ordered::value_views(names@) == self::names(ordered::value_views(entries@)),
    ensures
        (Graph {
            backlinks: ordered::value_views(final(backlinks)@),
            missing: ordered::value_views(final(missing)@),
        }) == with_links(
            (Graph {
                backlinks: ordered::value_views(old(backlinks)@),
                missing: ordered::value_views(old(missing)@),
            }),
            ordered::value_views(entries@),
            id@,
            text::views(links@),
        ),
{
    let ghost start = Graph {
        backlinks: ordered::value_views(backlinks@),
        missing: ordered::value_views(missing@),
    };
    let ghost all = text::views(links@);
    let ghost known = ordered::value_views(entries@);
    let mut i: usize = 0;
    while i < links.len()
        invariant
            i <= links@.len(),
            all == text::views(links@),
            known == ordered::value_views(entries@),
            ordered::value_views(names@) == self::names(known),
            (Graph {
                backlinks: ordered::value_views(backlinks@),
                missing: ordered::value_views(missing@),
            }) == with_links(start, known, id@, all.take(i as int)),
        decreases links@.len() - i,
    {
        assert(all.take(i + 1).drop_last() =~= all.take(i as int));
        let link = &links[i];
        assert(all.take(i + 1).last() == link@);
        match resolve_in(entries, names, link.target.as_str(), Some(id)) {
            Resolution::Note(target) => {
                if !target.same(id) {
                    let backlink = Backlink {
                        from: id.clone(),
                        context: text::trimmed(link.line.as_str()),
                    };
                    list_link(backlinks, target, backlink);
                }
            },
            Resolution::Ambiguous(_) => {},
            Resolution::Missing => {
                list_id(missing, link.target.clone(), id);
            },
        }
        i = i + 1;
    }
    assert(all.take(all.len() as int) =~= all);
}

impl Index {
    /// Recompute names, tags and the link graph from the per-note entries.
    fn rebuild_graph(entries: TextMap<NoteId, Entry>) -> (r: Self)
        ensures
            r@ == ordered::value_views(entries@),
    {
        let ghost known = ordered::value_views(entries@);
        let ghost order = ordered::ascending(known.dom());
        assert(known.dom() =~= entries@.dom());
        let n = entries.len();
        let mut names: TextMap<String, Ids> = TextMap::new();
        let mut tags: TextMap<String, Ids> = TextMap::new();
        assert(ordered::value_views(names@) =~= Map::<Seq<char>, Seq<Seq<char>>>::empty());
        let mut i: usize = 0;
        while i < n
            invariant
                i <= n == order.len(),
                known == ordered::value_views(entries@),
                known.dom() == entries@.dom(),
                order == ordered::ascending(known.dom()),
                ordered::value_views(names@) == names_among(known, order.take(i as int)),
                ordered::value_views(tags@) == tagged_among(known, order.take(i as int)),
            decreases n - i,
        {
            assert(order.take(i + 1).drop_last() =~= order.take(i as int));
            let id = entries.key(i);
            let entry = entries.value(i);
            assert(known[id@] == entry@);
            add_names(&mut names, entry, id);
            add_tags(&mut tags, &entry.tags, id);
            i = i + 1;
        }
        assert(order.take(n as int) =~= order);

        // Resolution needs the names complete, so linking is a second pass.
        let mut backlinks: TextMap<NoteId, Backlinks> = TextMap::new();
        let mut missing: TextMap<String, Ids> = TextMap::new();
        assert(ordered::value_views(backlinks@) =~= Map::<
            Seq<char>,
            Seq<(Seq<char>, Seq<char>)>,
        >::empty());
        assert(ordered::value_views(missing@) =~= Map::<Seq<char>, Seq<Seq<char>>>::empty());
        let mut i: usize = 0;
        while i < n
            invariant
                i <= n == order.len(),
                known == ordered::value_views(entries@),
                known.dom() == entries@.dom(),
                order == ordered::ascending(known.dom()),
                ordered::value_views(names@) == self::names(known),
                (Graph {
                    backlinks: ordered::value_views(backlinks@),
                    missing: ordered::value_views(missing@),
                }) == graph_among(known, order.take(i as int)),
            decreases n - i,
        {
            assert(order.take(i + 1).drop_last() =~= order.take(i as int));
            let id = entries.key(i);
            let entry = entries.value(i);
            assert(known[id@] == entry@);
            add_links(&mut backlinks, &mut missing, &entries, &names, id, &entry.links);
            i = i + 1;
        }
        assert(order.take(n as int) =~= order);
        Index { entries, names, tags, backlinks, missing }
    }

    /// An index of nothing.
    pub fn new() -> (r: Self)
        ensures
            r@ == Map::<Seq<char>, EntryView>::empty(),
    {
        let entries: TextMap<NoteId, Entry> = TextMap::new();
        assert(ordered::value_views(entries@) =~= Map::<Seq<char>, EntryView>::empty());
        Index::rebuild_graph(entries)
    }
}

/// Some notes with the scans of their bodies, by their texts.
pub open spec fn pair_views(notes: Seq<(Note, Scan)>) -> Seq<(note::NoteView, markdown::ScanView)> {
    Seq::new(notes.len(), |i: int| (notes[i].0@, notes[i].1@))
}

/// The entries of some notes, a later note in place of an earlier with the
/// same id.
pub open spec fn entries_of(notes: Seq<(note::NoteView, markdown::ScanView)>) -> Map<
    Seq<char>,
    EntryView,
>
    decreases notes.len(),
{
    if notes.len() == 0 {
        Map::empty()
    } else {
        let (note, scan) = notes.last();
        entries_of(notes.drop_last()).insert(note.id, entry(note, scan))
    }
}

/// The entries once a note has moved to another id.
pub open spec fn renamed(
    entries: Map<Seq<char>, EntryView>,
    from: Seq<char>,
    to: Seq<char>,
) -> Map<Seq<char>, EntryView> {
    if entries.contains_key(from) {
        entries.remove(from).insert(to, EntryView { title: note::title(to), ..entries[from] })
    } else {
        entries
    }
}

/// The texts of a set, as a set.
pub open spec fn carriers(tags: Map<Seq<char>, Seq<Seq<char>>>, ancestor: Seq<char>) -> Set<
    Seq<char>,
> {
    Set::new(
        |id: Seq<char>|
            exists|tag: Seq<char>| #[trigger]
                tags.contains_key(tag) && ancestors(tag).contains(ancestor)
                    && tags[tag].contains(id),
    )
}

/// The tags that some parts of a tag nest in: `project`, `project/brain`.
pub open spec fn nested(parts: Seq<Seq<char>>) -> Seq<Seq<char>>
    decreases parts.len(),
{
    if parts.len() == 0 {
        seq![]
    } else {
        let before = nested(parts.drop_last());
        let part = parts.last();
        if before.len() > 0 && before.last().len() > 0 {
            before.push(before.last() + seq!['/'] + part)
        } else {
            before.push(part)
        }
    }
}

/// `project/brain/ui` yields `project`, `project/brain`, `project/brain/ui`.
pub open spec fn ancestors(tag: Seq<char>) -> Seq<Seq<char>> {
    nested(text::split_on(tag, '/'))
}

/// Every tag there is and every tag one nests in.
pub open spec fn all_tags(tags: Map<Seq<char>, Seq<Seq<char>>>) -> Set<Seq<char>> {
    Set::new(
        |a: Seq<char>|
            exists|tag: Seq<char>| #[trigger]
                tags.contains_key(tag) && ancestors(tag).contains(a),
    )
}

/// Every tag in order, with how many notes carry it or one nested beneath it.
pub open spec fn tag_counts(tags: Map<Seq<char>, Seq<Seq<char>>>) -> Seq<(Seq<char>, nat)> {
    ordered::ascending(all_tags(tags)).map_values(|a: Seq<char>| (a, carriers(tags, a).len()))
}

/// A tag without the hashes before it.
pub open spec fn unhashed(tag: Seq<char>) -> Seq<char>
    decreases tag.len(),
{
    if tag.len() > 0 && tag[0] == '#' {
        unhashed(tag.skip(1))
    } else {
        tag
    }
}

/// Whether a tag is another or nested beneath it.
pub open spec fn is_under(tag: Seq<char>, wanted: Seq<char>) -> bool {
    tag == wanted || wanted.push('/').is_prefix_of(tag)
}

/// The notes carrying a tag or any tag nested beneath it.
pub open spec fn under(tags: Map<Seq<char>, Seq<Seq<char>>>, wanted: Seq<char>) -> Set<Seq<char>> {
    Set::new(
        |id: Seq<char>|
            exists|tag: Seq<char>| #[trigger]
                tags.contains_key(tag) && is_under(tag, wanted) && tags[tag].contains(id),
    )
}

/// The attachments that some notes embed.
pub open spec fn embedded(entries: Map<Seq<char>, EntryView>) -> Set<Seq<char>> {
    Set::new(
        |name: Seq<char>|
            exists|id: Seq<char>| #[trigger]
                entries.contains_key(id) && entries[id].embeds.contains(name),
    )
}

/// What is known of a note, if it is in the index.
pub open spec fn found(entries: Map<Seq<char>, EntryView>, id: Seq<char>) -> Option<EntryView> {
    if entries.contains_key(id) {
        Some(entries[id])
    } else {
        None
    }
}

impl Index {
    /// Index a vault: its notes, each with a scan of its body.
    pub fn build(notes: Vec<(Note, Scan)>) -> (r: Self)
        ensures
            r@ == entries_of(pair_views(notes@)),
    {
        let ghost all = pair_views(notes@);
        let mut notes = notes;
        let mut entries: TextMap<NoteId, Entry> = TextMap::new();
        let ghost mut done: int = 0;
        assert(ordered::value_views(entries@) =~= entries_of(all.take(0)));
        while notes.len() > 0
            invariant
                0 <= done <= all.len(),
                pair_views(notes@) == all.skip(done),
                ordered::value_views(entries@) == entries_of(all.take(done)),
            decreases notes@.len(),
        {
            let ghost left = notes@;
            assert(pair_views(left).len() == all.skip(done).len());
            let (note, scan) = notes.remove(0);
            proof {
                assert(pair_views(left)[0] == all.skip(done)[0]);
                assert(all.take(done + 1).drop_last() =~= all.take(done));
                assert(pair_views(notes@) =~= all.skip(done + 1)) by {
                    assert forall|i: int| 0 <= i < notes@.len() implies #[trigger] pair_views(
                        notes@,
                    )[i] == all.skip(done + 1)[i] by {
                        assert(pair_views(left)[i + 1] == all.skip(done)[i + 1]);
                    }
                }
            }
            let entry = Entry::of(&note, scan);
            proof {
                ordered::lemma_value_views_insert(entries@, note.id@, entry);
                done = done + 1;
            }
            entries.insert(note.id, entry);
        }
        assert(all.take(done) =~= all);
        Index::rebuild_graph(entries)
    }

    fn take_entries(&mut self) -> (r: TextMap<NoteId, Entry>)
        ensures
            ordered::value_views(r@) == old(self)@,
            final(self)@ == Map::<Seq<char>, EntryView>::empty(),
    {
        let mut taken = Index::new();
        std::mem::swap(&mut taken, self);
        taken.entries
    }

    /// Add or replace one note.
    pub fn update(&mut self, note: &Note, scan: Scan)
        ensures
            final(self)@ == old(self)@.insert(note@.id, entry(note@, scan@)),
    {
        let mut entries = self.take_entries();
        let e = Entry::of(note, scan);
        proof {
            ordered::lemma_value_views_insert(entries@, note.id@, e);
        }
        entries.insert(note.id.clone(), e);
        *self = Index::rebuild_graph(entries);
    }

    /// Forget one note.
    pub fn remove(&mut self, id: &NoteId)
        ensures
            final(self)@ == old(self)@.remove(id@),
    {
        let mut entries = self.take_entries();
        let ghost before = entries@;
        entries.remove(id.as_str());
        assert(ordered::value_views(before.remove(id@)) =~= ordered::value_views(before).remove(
            id@,
        ));
        *self = Index::rebuild_graph(entries);
    }

    /// Move a note's derived data to a new id, for a rename.
    pub fn rename(&mut self, from: &NoteId, to: &NoteId)
        ensures
            final(self)@ == renamed(old(self)@, from@, to@),
    {
        let mut entries = self.take_entries();
        let ghost before = entries@;
        match entries.remove(from.as_str()) {
            Some(entry) => {
                let moved = Entry {
                    title: text::string_of(&text::chars_of(to.title())),
                    aliases: entry.aliases,
                    tags: entry.tags,
                    links: entry.links,
                    embeds: entry.embeds,
                    text: entry.text,
                    excerpt: entry.excerpt,
                };
                proof {
                    assert(ordered::value_views(before.remove(from@)) =~= ordered::value_views(
                        before,
                    ).remove(from@));
                    assert(moved@ =~= (EntryView { title: note::title(to@), ..entry@ }));
                    ordered::lemma_value_views_insert(entries@, to@, moved);
                }
                entries.insert(to.clone(), moved);
            },
            None => {
                assert(before.remove(from@) =~= before);
            },
        }
        *self = Index::rebuild_graph(entries);
    }

    /// How many notes there are.
    pub fn len(&self) -> (n: usize)
        ensures
            self@.dom().finite(),
            n == self@.dom().len(),
    {
        assert(self@.dom() =~= self.entries@.dom());
        self.entries.len()
    }

    /// Whether there are none.
    pub fn is_empty(&self) -> (r: bool)
        ensures
            r == (self@ == Map::<Seq<char>, EntryView>::empty()),
    {
        let r = self.len() == 0;
        proof {
            if r {
                assert(self@ =~= Map::<Seq<char>, EntryView>::empty());
            }
        }
        r
    }

    /// Every note, in order.
    pub fn ids(&self) -> (r: Vec<NoteId>)
        ensures
            text::views(r@) == ordered::ascending(self@.dom()),
    {
        assert(self@.dom() =~= self.entries@.dom());
        let n = self.entries.len();
        let ghost order = ordered::ascending(self@.dom());
        let mut r: Vec<NoteId> = Vec::new();
        let mut i: usize = 0;
        while i < n
            invariant
                i <= n == order.len(),
                order == ordered::ascending(self.entries@.dom()),
                text::views(r@) == order.take(i as int),
            decreases n - i,
        {
            let id = self.entries.key(i).clone();
            proof {
                text::lemma_views_push(r@, id);
                assert(order.take(i + 1) =~= order.take(i as int).push(id@));
            }
            r.push(id);
            i = i + 1;
        }
        assert(order.take(n as int) =~= order);
        r
    }

    /// Whether a note is in the index.
    pub fn contains(&self, id: &NoteId) -> (r: bool)
        ensures
            r == self@.contains_key(id@),
    {
        self.entries.contains(id.as_str())
    }

    /// The summary of a note, or nothing for one that is not there.
    pub fn excerpt(&self, id: &NoteId) -> (r: &str)
        ensures
            r@ == (match found(self@, id@) {
                Some(e) => e.excerpt,
                None => seq![],
            }),
    {
        match self.entries.get(id.as_str()) {
            Some(e) => e.excerpt.as_str(),
            None => {
                proof {
                    reveal_strlit("");
                }
                assert(""@ =~= Seq::<char>::empty());
                ""
            },
        }
    }

    /// The text of a note with its markup stripped, or nothing for one that is
    /// not there.
    pub fn text(&self, id: &NoteId) -> (r: &str)
        ensures
            r@ == (match found(self@, id@) {
                Some(e) => e.text,
                None => seq![],
            }),
    {
        match self.entries.get(id.as_str()) {
            Some(e) => e.text.as_str(),
            None => {
                proof {
                    reveal_strlit("");
                }
                assert(""@ =~= Seq::<char>::empty());
                ""
            },
        }
    }

    /// The aliases of a note.
    pub fn aliases_of(&self, id: &NoteId) -> (r: Vec<String>)
        ensures
            text::views(r@) == (match found(self@, id@) {
                Some(e) => e.aliases,
                None => seq![],
            }),
    {
        match self.entries.get(id.as_str()) {
            Some(e) => text::copy_all(&e.aliases),
            None => {
                let r: Vec<String> = Vec::new();
                assert(text::views(r@) =~= seq![]);
                r
            },
        }
    }

    /// The tags of a note.
    pub fn tags_of(&self, id: &NoteId) -> (r: Vec<String>)
        ensures
            text::views(r@) == (match found(self@, id@) {
                Some(e) => e.tags,
                None => seq![],
            }),
    {
        match self.entries.get(id.as_str()) {
            Some(e) => text::copy_all(&e.tags),
            None => {
                let r: Vec<String> = Vec::new();
                assert(text::views(r@) =~= seq![]);
                r
            },
        }
    }

    /// What `target` points at, from a link written in `from`.
    ///
    /// Tried in order: an exact vault path, then a title, then an alias. The
    /// path form is first so `[[Meetings/Standup]]` disambiguates two notes
    /// that share a title, which is the only reason to write it that way.
    pub fn resolve(&self, target: &str, from: Option<&NoteId>) -> (r: Resolution)
        ensures
            r@ == resolved(
                self@,
                target@,
                match from {
                    Some(f) => Some(f@),
                    None => None,
                },
            ),
    {
        proof {
            use_type_invariant(self);
        }
        resolve_in(&self.entries, &self.names, target, from)
    }

    /// Every note linking to this one, with the line the link is on.
    pub fn backlinks(&self, id: &NoteId) -> (r: Option<&Backlinks>)
        ensures
            match r {
                Some(links) => graph(self@).backlinks.contains_key(id@) && links@ == graph(
                    self@,
                ).backlinks[id@],
                None => !graph(self@).backlinks.contains_key(id@),
            },
    {
        proof {
            use_type_invariant(self);
        }
        let ghost known = ordered::value_views(self.backlinks@);
        self.backlinks.get(id.as_str())
    }

    /// Link targets that resolve to nothing, with the notes that want them.
    pub fn missing(&self) -> (r: &TextMap<String, Ids>)
        ensures
            ordered::value_views(r@) == graph(self@).missing,
    {
        proof {
            use_type_invariant(self);
        }
        &self.missing
    }

    /// Every tag in the vault, lowercased, in order, with its note count.
    ///
    /// Nested tags contribute to their parents: one note tagged
    /// `#project/brain` puts `project` in the list too.
    pub fn tags(&self) -> (r: Vec<(String, usize)>)
        ensures
            Seq::new(r@.len(), |i: int| (r@[i].0@, r@[i].1 as nat)) == tag_counts(tagged(self@)),
    {
        proof {
            use_type_invariant(self);
        }
        let ghost tags = ordered::value_views(self.tags@);
        assert(tags == tagged(self@));
        let set = collect_tags(&self.tags);
        let ghost order = ordered::ascending(all_tags(tags));
        let ghost wanted = tag_counts(tags);
        let n = set.len();
        let mut r: Vec<(String, usize)> = Vec::new();
        let mut i: usize = 0;
        while i < n
            invariant
                i <= n == order.len(),
                tags == ordered::value_views(self.tags@),
                set@.dom() == all_tags(tags),
                order == ordered::ascending(all_tags(tags)),
                wanted == tag_counts(tags),
                r@.len() == i,
                forall|j: int|
                    0 <= j < i ==> wanted[j] == ((#[trigger] r@[j]).0@, r@[j].1 as nat),
            decreases n - i,
        {
            let tag = set.key(i);
            let ids = collect_carriers(&self.tags, tag.as_str());
            let count = ids.len();
            let name = tag.clone();
            r.push((name, count));
            assert(wanted[i as int] == (order[i as int], carriers(tags, order[i as int]).len()));
            i = i + 1;
        }
        assert(wanted.len() == order.len());
        assert(Seq::new(r@.len(), |i: int| (r@[i].0@, r@[i].1 as nat)) =~= wanted);
        r
    }

    /// The notes carrying `tag` or any tag nested beneath it.
    pub fn notes_tagged(&self, tag: &str) -> (r: Vec<NoteId>)
        ensures
            text::views(r@) == ordered::ascending(
                under(tagged(self@), text::lowercase(unhashed(tag@))),
            ),
    {
        proof {
            use_type_invariant(self);
        }
        let ghost tags = ordered::value_views(self.tags@);
        let chars = text::chars_of(tag);
        let mut from: usize = 0;
        assert(chars@.skip(0) =~= chars@);
        while from < chars.len() && chars[from] == '#'
            invariant
                from <= chars@.len(),
                unhashed(chars@) == unhashed(chars@.skip(from as int)),
            decreases chars@.len() - from,
        {
            assert(chars@.skip(from as int).skip(1) =~= chars@.skip(from + 1));
            from = from + 1;
        }
        let rest = text::part(&chars, from, chars.len());
        assert(rest@ =~= unhashed(tag@));
        let wanted = text::chars_of(lowered(text::string_of(&rest).as_str()).as_str());
        let set = collect_under(&self.tags, &wanted);
        let n = set.len();
        let ghost order = ordered::ascending(set@.dom());
        let mut r: Vec<NoteId> = Vec::new();
        let mut i: usize = 0;
        while i < n
            invariant
                i <= n == order.len(),
                order == ordered::ascending(set@.dom()),
                text::views(r@) == order.take(i as int),
            decreases n - i,
        {
            let id = set.key(i).clone();
            proof {
                text::lemma_views_push(r@, id);
                assert(order.take(i + 1) =~= order.take(i as int).push(id@));
            }
            r.push(id);
            i = i + 1;
        }
        assert(order.take(n as int) =~= order);
        r
    }

    /// Attachment filenames referenced by at least one note.
    pub fn referenced_attachments(&self) -> (r: TextMap<String, ()>)
        ensures
            r@.dom() == embedded(self@),
    {
        let n = self.entries.len();
        let ghost known = self@;
        let ghost order = ordered::ascending(self.entries@.dom());
        let mut r: TextMap<String, ()> = TextMap::new();
        let mut i: usize = 0;
        while i < n
            invariant
                i <= n == order.len(),
                known == ordered::value_views(self.entries@),
                order == ordered::ascending(self.entries@.dom()),
                forall|name: Seq<char>| #[trigger]
                    r@.dom().contains(name) <==> exists|k: int|
                        0 <= k < i && known[#[trigger] order[k]].embeds.contains(name),
            decreases n - i,
        {
            let entry = self.entries.value(i);
            let ghost id = order[i as int];
            assert(known[id] == entry@);
            let ghost before = r@.dom();
            add_texts(&mut r, &entry.embeds);
            assert forall|name: Seq<char>| #[trigger] r@.dom().contains(name) <==> exists|k: int|
                0 <= k < i + 1 && known[#[trigger] order[k]].embeds.contains(name) by {
                if before.contains(name) {
                    let k = choose|k: int|
                        0 <= k < i && known[#[trigger] order[k]].embeds.contains(name);
                    assert(known[order[k]].embeds.contains(name));
                }
                if entry@.embeds.contains(name) {
                    assert(known[order[i as int]].embeds.contains(name));
                }
            }
            i = i + 1;
        }
        proof {
            ordered::lemma_ascending(self.entries@.dom());
            assert forall|name: Seq<char>| r@.dom().contains(name) == embedded(self@).contains(
                name,
            ) by {
                if r@.dom().contains(name) {
                    let k = choose|k: int|
                        0 <= k < n && known[#[trigger] order[k]].embeds.contains(name);
                    assert(order.to_set().contains(order[k]));
                    assert(known.contains_key(order[k]));
                }
                if embedded(self@).contains(name) {
                    let id = choose|id: Seq<char>| #[trigger]
                        known.contains_key(id) && known[id].embeds.contains(name);
                    assert(order.to_set().contains(id));
                    let k = choose|k: int| 0 <= k < order.len() && order[k] == id;
                    assert(known[order[k]].embeds.contains(name));
                }
            }
            assert(r@.dom() =~= embedded(self@));
        }
        r
    }
}

/// Put texts into a set.
pub fn add_texts(set: &mut TextMap<String, ()>, texts: &Vec<String>)
    ensures
        forall|t: Seq<char>| #[trigger]
            final(set)@.dom().contains(t) <==> old(set)@.dom().contains(t) || text::views(
                texts@,
            ).contains(t),
{
    let ghost all = text::views(texts@);
    let ghost before = set@.dom();
    let mut i: usize = 0;
    while i < texts.len()
        invariant
            i <= texts@.len(),
            all == text::views(texts@),
            forall|t: Seq<char>| #[trigger]
                set@.dom().contains(t) <==> before.contains(t) || exists|k: int|
                    0 <= k < i && #[trigger] all[k] == t,
        decreases texts@.len() - i,
    {
        let ghost now = set@.dom();
        let t = texts[i].clone();
        assert(all[i as int] == t@);
        set.insert(t, ());
        i = i + 1;
    }
}

fn add_ids(set: &mut TextMap<NoteId, ()>, ids: &Vec<NoteId>)
    ensures
        forall|t: Seq<char>| #[trigger]
            final(set)@.dom().contains(t) <==> old(set)@.dom().contains(t) || text::views(
                ids@,
            ).contains(t),
{
    let ghost all = text::views(ids@);
    let ghost before = set@.dom();
    let mut i: usize = 0;
    while i < ids.len()
        invariant
            i <= ids@.len(),
            all == text::views(ids@),
            forall|t: Seq<char>| #[trigger]
                set@.dom().contains(t) <==> before.contains(t) || exists|k: int|
                    0 <= k < i && #[trigger] all[k] == t,
        decreases ids@.len() - i,
    {
        let id = ids[i].clone();
        assert(all[i as int] == id@);
        set.insert(id, ());
        i = i + 1;
    }
}

fn ancestors_of(tag: &str) -> (r: Vec<String>)
    ensures
        text::views(r@) == ancestors(tag@),
{
    let parts = text::split_chars(&text::chars_of(tag), '/');
    let ghost all = text::views(parts@);
    let mut r: Vec<String> = Vec::new();
    let mut current: Vec<char> = Vec::new();
    let mut i: usize = 0;
    assert(text::views(r@) =~= nested(all.take(0)));
    while i < parts.len()
        invariant
            i <= parts@.len(),
            all == text::views(parts@),
            text::views(r@) == nested(all.take(i as int)),
            i == 0 ==> current@.len() == 0,
            i > 0 ==> nested(all.take(i as int)).len() > 0 && current@ == nested(
                all.take(i as int),
            ).last(),
            i == 0 ==> nested(all.take(i as int)).len() == 0,
        decreases parts@.len() - i,
    {
        assert(all.take(i + 1).drop_last() =~= all.take(i as int));
        let ghost was = current@;
        if current.len() > 0 {
            current.push('/');
        }
        text::extend(&mut current, &parts[i]);
        assert(current@ =~= if was.len() > 0 {
            was + seq!['/'] + all[i as int]
        } else {
            all[i as int]
        });
        let name = text::string_of(&current);
        proof {
            text::lemma_views_push(r@, name);
        }
        r.push(name);
        i = i + 1;
    }
    assert(all.take(all.len() as int) =~= all);
    r
}

fn collect_tags(tags: &TextMap<String, Ids>) -> (r: TextMap<String, ()>)
    ensures
        r@.dom() == all_tags(ordered::value_views(tags@)),
{
    let ghost known = ordered::value_views(tags@);
    let ghost order = ordered::ascending(tags@.dom());
    let n = tags.len();
    let mut r: TextMap<String, ()> = TextMap::new();
    let mut i: usize = 0;
    while i < n
        invariant
            i <= n == order.len(),
            order == ordered::ascending(tags@.dom()),
            forall|a: Seq<char>| #[trigger]
                r@.dom().contains(a) <==> exists|k: int|
                    0 <= k < i && ancestors(#[trigger] order[k]).contains(a),
        decreases n - i,
    {
        let tag = tags.key(i);
        assert(tag@ == order[i as int]);
        let ghost before = r@.dom();
        add_texts(&mut r, &ancestors_of(tag.as_str()));
        assert forall|a: Seq<char>| #[trigger] r@.dom().contains(a) <==> exists|k: int|
            0 <= k < i + 1 && ancestors(#[trigger] order[k]).contains(a) by {
            if before.contains(a) {
                let k = choose|k: int| 0 <= k < i && ancestors(#[trigger] order[k]).contains(a);
                assert(ancestors(order[k]).contains(a));
            }
            if ancestors(tag@).contains(a) {
                assert(ancestors(order[i as int]).contains(a));
            }
        }
        i = i + 1;
    }
    proof {
        ordered::lemma_ascending(tags@.dom());
        assert forall|a: Seq<char>| r@.dom().contains(a) == all_tags(known).contains(a) by {
            if r@.dom().contains(a) {
                let k = choose|k: int| 0 <= k < n && ancestors(#[trigger] order[k]).contains(a);
                assert(order.to_set().contains(order[k]));
                assert(known.contains_key(order[k]));
            }
            if all_tags(known).contains(a) {
                let tag = choose|tag: Seq<char>| #[trigger]
                    known.contains_key(tag) && ancestors(tag).contains(a);
                assert(order.to_set().contains(tag));
                let k = choose|k: int| 0 <= k < order.len() && order[k] == tag;
                assert(ancestors(order[k]).contains(a));
            }
        }
        assert(r@.dom() =~= all_tags(known));
    }
    r
}

fn collect_carriers(tags: &TextMap<String, Ids>, ancestor: &str) -> (r: TextMap<NoteId, ()>)
    ensures
        r@.dom() == carriers(ordered::value_views(tags@), ancestor@),
{
    let ghost known = ordered::value_views(tags@);
    let ghost order = ordered::ascending(tags@.dom());
    let n = tags.len();
    let mut r: TextMap<NoteId, ()> = TextMap::new();
    let mut i: usize = 0;
    while i < n
        invariant
            i <= n == order.len(),
            known == ordered::value_views(tags@),
            order == ordered::ascending(tags@.dom()),
            forall|id: Seq<char>| #[trigger]
                r@.dom().contains(id) <==> exists|k: int|
                    0 <= k < i && ancestors(#[trigger] order[k]).contains(ancestor@)
                        && known[order[k]].contains(id),
        decreases n - i,
    {
        let tag = tags.key(i);
        let ids = tags.value(i);
        assert(tag@ == order[i as int]);
        assert(known[tag@] == ids@);
        let ghost before = r@.dom();
        let here = text::has_text(&ancestors_of(tag.as_str()), ancestor);
        if here {
            add_ids(&mut r, &ids.ids);
        }
        assert forall|id: Seq<char>| #[trigger] r@.dom().contains(id) <==> exists|k: int|
            0 <= k < i + 1 && ancestors(#[trigger] order[k]).contains(ancestor@)
                && known[order[k]].contains(id) by {
            if before.contains(id) {
                let k = choose|k: int|
                    0 <= k < i && ancestors(#[trigger] order[k]).contains(ancestor@)
                        && known[order[k]].contains(id);
                assert(ancestors(order[k]).contains(ancestor@));
            }
            if here && ids@.contains(id) {
                assert(ancestors(order[i as int]).contains(ancestor@));
            }
        }
        i = i + 1;
    }
    proof {
        ordered::lemma_ascending(tags@.dom());
        assert forall|id: Seq<char>| r@.dom().contains(id) == carriers(
            known,
            ancestor@,
        ).contains(id) by {
            if r@.dom().contains(id) {
                let k = choose|k: int|
                    0 <= k < n && ancestors(#[trigger] order[k]).contains(ancestor@)
                        && known[order[k]].contains(id);
                assert(order.to_set().contains(order[k]));
                assert(known.contains_key(order[k]));
            }
            if carriers(known, ancestor@).contains(id) {
                let tag = choose|tag: Seq<char>| #[trigger]
                    known.contains_key(tag) && ancestors(tag).contains(ancestor@)
                        && known[tag].contains(id);
                assert(order.to_set().contains(tag));
                let k = choose|k: int| 0 <= k < order.len() && order[k] == tag;
                assert(ancestors(order[k]).contains(ancestor@));
            }
        }
        assert(r@.dom() =~= carriers(known, ancestor@));
    }
    r
}

fn collect_under(tags: &TextMap<String, Ids>, wanted: &Vec<char>) -> (r: TextMap<NoteId, ()>)
    ensures
        r@.dom() == under(ordered::value_views(tags@), wanted@),
{
    let ghost known = ordered::value_views(tags@);
    let ghost order = ordered::ascending(tags@.dom());
    let n = tags.len();
    let mut prefix = text::part(wanted, 0, wanted.len());
    assert(prefix@ =~= wanted@);
    prefix.push('/');
    let mut r: TextMap<NoteId, ()> = TextMap::new();
    let mut i: usize = 0;
    while i < n
        invariant
            i <= n == order.len(),
            known == ordered::value_views(tags@),
            order == ordered::ascending(tags@.dom()),
            prefix@ == wanted@.push('/'),
            forall|id: Seq<char>| #[trigger]
                r@.dom().contains(id) <==> exists|k: int|
                    0 <= k < i && is_under(#[trigger] order[k], wanted@)
                        && known[order[k]].contains(id),
        decreases n - i,
    {
        let tag = tags.key(i);
        let ids = tags.value(i);
        assert(tag@ == order[i as int]);
        assert(known[tag@] == ids@);
        let ghost before = r@.dom();
        let chars = text::chars_of(tag.as_str());
        let here = text::same_chars(&chars, wanted) || text::begins(&chars, &prefix);
        if here {
            add_ids(&mut r, &ids.ids);
        }
        assert forall|id: Seq<char>| #[trigger] r@.dom().contains(id) <==> exists|k: int|
            0 <= k < i + 1 && is_under(#[trigger] order[k], wanted@) && known[order[k]].contains(
                id,
            ) by {
            if before.contains(id) {
                let k = choose|k: int|
                    0 <= k < i && is_under(#[trigger] order[k], wanted@)
                        && known[order[k]].contains(id);
                assert(is_under(order[k], wanted@));
            }
            if here && ids@.contains(id) {
                assert(is_under(order[i as int], wanted@));
            }
        }
        i = i + 1;
    }
    proof {
        ordered::lemma_ascending(tags@.dom());
        assert forall|id: Seq<char>| r@.dom().contains(id) == under(known, wanted@).contains(
            id,
        ) by {
            if r@.dom().contains(id) {
                let k = choose|k: int|
                    0 <= k < n && is_under(#[trigger] order[k], wanted@)
                        && known[order[k]].contains(id);
                assert(order.to_set().contains(order[k]));
                assert(known.contains_key(order[k]));
            }
            if under(known, wanted@).contains(id) {
                let tag = choose|tag: Seq<char>| #[trigger]
                    known.contains_key(tag) && is_under(tag, wanted@) && known[tag].contains(id);
                assert(order.to_set().contains(tag));
                let k = choose|k: int| 0 <= k < order.len() && order[k] == tag;
                assert(is_under(order[k], wanted@));
            }
        }
        assert(r@.dom() =~= under(known, wanted@));
    }
    r
}

// ---- what holds of every index ----

proof fn lemma_with_names(
    m: Map<Seq<char>, Seq<Seq<char>>>,
    names: Seq<Seq<char>>,
    id: Seq<char>,
    name: Seq<char>,
)
    ensures
        forall|other: Seq<char>| #[trigger]
            listed(with_names(m, names, id), name).contains(other) == (listed(m, name).contains(
                other,
            ) || (other == id && names.contains(name))),
        listed(m, name).no_duplicates() ==> listed(
            with_names(m, names, id),
            name,
        ).no_duplicates(),
    decreases names.len(),
{
    broadcast use vstd::seq_lib::group_seq_properties;

    if names.len() > 0 {
        lemma_with_names(m, names.drop_last(), id, name);
        assert(names =~= names.drop_last().push(names.last()));
        assert(names.contains(name) == (names.drop_last().contains(name) || name
            == names.last()));
        let before = with_names(m, names.drop_last(), id);
        let now = with_names(m, names, id);
        let here = name == names.last() && !listed(before, name).contains(id);
        assert(listed(now, name) == if here {
            listed(before, name).push(id)
        } else {
            listed(before, name)
        });
        assert forall|other: Seq<char>| #[trigger] listed(now, name).contains(other) == (listed(
            m,
            name,
        ).contains(other) || (other == id && names.contains(name))) by {
            if here {
                assert(listed(now, name).contains(other) == (listed(before, name).contains(other)
                    || other == id));
            }
            assert(listed(before, name).contains(other) == (listed(m, name).contains(other) || (
            other == id && names.drop_last().contains(name))));
        }
    }
}

proof fn lemma_names_among(
    entries: Map<Seq<char>, EntryView>,
    ids: Seq<Seq<char>>,
    name: Seq<char>,
)
    ensures
        forall|id: Seq<char>| #[trigger]
            listed(names_among(entries, ids), name).contains(id) == (ids.contains(id) && names_of(
                entries[id],
            ).contains(name)),
        listed(names_among(entries, ids), name).no_duplicates(),
    decreases ids.len(),
{
    broadcast use vstd::seq_lib::group_seq_properties;

    if ids.len() > 0 {
        let rest = ids.drop_last();
        lemma_names_among(entries, rest, name);
        lemma_with_names(
            names_among(entries, rest),
            names_of(entries[ids.last()]),
            ids.last(),
            name,
        );
        assert(ids =~= rest.push(ids.last()));
        assert forall|id: Seq<char>| ids.contains(id) == (rest.contains(id) || id
            == ids.last()) by {}
    }
}

/// Under each name stand exactly the notes that answer to it, each once.
pub proof fn lemma_a_name_lists_whoever_answers_to_it(
    entries: Map<Seq<char>, EntryView>,
    name: Seq<char>,
)
    requires
        entries.dom().finite(),
    ensures
        forall|id: Seq<char>| #[trigger]
            listed(names(entries), name).contains(id) == (entries.contains_key(id) && names_of(
                entries[id],
            ).contains(name)),
        listed(names(entries), name).no_duplicates(),
{
    let ids = ordered::ascending(entries.dom());
    ordered::lemma_ascending(entries.dom());
    lemma_names_among(entries, ids, name);
    assert forall|id: Seq<char>| #[trigger] listed(names(entries), name).contains(id) == (
    entries.contains_key(id) && names_of(entries[id]).contains(name)) by {
        assert(ids.contains(id) == ids.to_set().contains(id));
    }
}

/// Whether a note has a name for its title or an alias, lowercased.
pub open spec fn answers(
    entries: Map<Seq<char>, EntryView>,
    id: Seq<char>,
    name: Seq<char>,
) -> bool {
    entries.contains_key(id) && names_of(entries[id]).contains(name)
}

proof fn lemma_called(entries: Map<Seq<char>, EntryView>, ids: Seq<Seq<char>>, name: Seq<char>)
    ensures
        forall|id: Seq<char>| #[trigger]
            called(entries, ids, name).contains(id) == (ids.contains(id) && is_called(
                entries,
                id,
                name,
            )),
        ids.no_duplicates() ==> called(entries, ids, name).no_duplicates(),
    decreases ids.len(),
{
    broadcast use vstd::seq_lib::group_seq_properties;

    if ids.len() > 0 {
        let rest = ids.drop_last();
        lemma_called(entries, rest, name);
        assert(ids =~= rest.push(ids.last()));
        let before = called(entries, rest, name);
        let now = called(entries, ids, name);
        assert forall|id: Seq<char>| #[trigger] now.contains(id) == (ids.contains(id) && is_called(
            entries,
            id,
            name,
        )) by {
            assert(ids.contains(id) == (rest.contains(id) || id == ids.last()));
            assert(before.contains(id) == (rest.contains(id) && is_called(entries, id, name)));
        }
        if ids.no_duplicates() {
            assert(!rest.contains(ids.last()));
            assert(!before.contains(ids.last()));
        }
    }
}

/// The candidates for a name are the notes that have it for their title, and
/// only if there are none those that have it for an alias; each is one once.
pub proof fn lemma_a_title_comes_before_an_alias(
    entries: Map<Seq<char>, EntryView>,
    name: Seq<char>,
)
    requires
        entries.dom().finite(),
    ensures
        (exists|id: Seq<char>| #[trigger] is_called(entries, id, name)) ==> forall|id: Seq<char>|
            #[trigger] candidates(entries, name).contains(id) == is_called(entries, id, name),
        !(exists|id: Seq<char>| #[trigger] is_called(entries, id, name)) ==> forall|id: Seq<char>|
            #[trigger] candidates(entries, name).contains(id) == answers(entries, id, name),
        candidates(entries, name).no_duplicates(),
{
    lemma_a_name_lists_whoever_answers_to_it(entries, name);
    let answering = listed(names(entries), name);
    lemma_called(entries, answering, name);
    let titled = called(entries, answering, name);
    assert forall|id: Seq<char>| #[trigger] titled.contains(id) == is_called(entries, id, name) by {
        if is_called(entries, id, name) {
            assert(names_of(entries[id])[0] == name);
            assert(answering.contains(id));
        }
        if titled.contains(id) {
            assert(answering.contains(id));
        }
    }
    if titled.len() > 0 {
        assert(titled.contains(titled[0]));
        assert(is_called(entries, titled[0], name));
    }
    if exists|id: Seq<char>| #[trigger] is_called(entries, id, name) {
        let id = choose|id: Seq<char>| #[trigger] is_called(entries, id, name);
        assert(titled.contains(id));
    }
}

/// A link is never guessed at. One note is meant only if it is there, and then
/// by its path, by its title, or by an alias where nothing has that for its
/// title; several are reported if and only if at least two notes have the
/// title, or none has and at least two the alias, and the link is in none of
/// them; and nothing is meant only if nothing answers.
pub proof fn lemma_a_link_is_never_guessed_at(
    entries: Map<Seq<char>, EntryView>,
    target: Seq<char>,
    from: Option<Seq<char>>,
)
    requires
        entries.dom().finite(),
        text::trim(target).len() > 0,
    ensures
        ({
            let path = target_path(text::trim(target));
            let name = text::lowercase(text::trim(target));
            let titled = exists|id: Seq<char>| #[trigger] is_called(entries, id, name);
            match resolved(entries, target, from) {
                ResolutionView::Note(id) => entries.contains_key(id) && (id == path || (if titled {
                    is_called(entries, id, name)
                } else {
                    answers(entries, id, name)
                })),
                ResolutionView::Ambiguous(ids) => {
                    &&& !entries.contains_key(path)
                    &&& ids.len() >= 2
                    &&& ids.no_duplicates()
                    &&& from is Some ==> !ids.contains(from->0)
                    &&& titled ==> forall|id: Seq<char>| #[trigger]
                        ids.contains(id) == is_called(entries, id, name)
                    &&& !titled ==> forall|id: Seq<char>| #[trigger]
                        ids.contains(id) == answers(entries, id, name)
                },
                ResolutionView::Missing => !entries.contains_key(path) && forall|id: Seq<char>| !(
                #[trigger] answers(entries, id, name)),
            }
        }),
{
    let name = text::lowercase(text::trim(target));
    lemma_a_title_comes_before_an_alias(entries, name);
    lemma_a_name_lists_whoever_answers_to_it(entries, name);
    let c = candidates(entries, name);
    if c.len() == 1 {
        assert(c.contains(c[0]));
    }
    if c.len() == 0 {
        let answering = listed(names(entries), name);
        assert(answering.len() == 0);
        assert forall|id: Seq<char>| !(#[trigger] answers(entries, id, name)) by {
            assert(!answering.contains(id));
        }
    }
}

/// A path disambiguates: a link that spells the path of a note means that
/// note, whatever else shares its title, and wherever the link is written.
pub proof fn lemma_a_path_comes_first(
    entries: Map<Seq<char>, EntryView>,
    target: Seq<char>,
    from: Option<Seq<char>>,
)
    requires
        text::trim(target).len() > 0,
        entries.contains_key(target_path(text::trim(target))),
    ensures
        resolved(entries, target, from) == ResolutionView::Note(target_path(text::trim(target))),
{
}

/// Whether a link of a note points at another note, and stands on a line.
pub open spec fn points(
    entries: Map<Seq<char>, EntryView>,
    links: Seq<markdown::LinkView>,
    id: Seq<char>,
    to: Seq<char>,
    context: Seq<char>,
) -> bool {
    exists|i: int|
        0 <= i < links.len() && resolved(entries, (#[trigger] links[i]).target, Some(id))
            == ResolutionView::Note(to) && text::trim(links[i].line) == context
}

/// Whether a link of a note has a target and points at nothing.
pub open spec fn dangles(
    entries: Map<Seq<char>, EntryView>,
    links: Seq<markdown::LinkView>,
    id: Seq<char>,
    target: Seq<char>,
) -> bool {
    exists|i: int|
        0 <= i < links.len() && resolved(entries, (#[trigger] links[i]).target, Some(id))
            == ResolutionView::Missing && links[i].target == target
}

proof fn lemma_with_links(
    graph: Graph,
    entries: Map<Seq<char>, EntryView>,
    id: Seq<char>,
    links: Seq<markdown::LinkView>,
    to: Seq<char>,
    from: Seq<char>,
    context: Seq<char>,
    target: Seq<char>,
)
    ensures
        listed(with_links(graph, entries, id, links).backlinks, to).contains((from, context)) == (
        listed(graph.backlinks, to).contains((from, context)) || (from == id && to != id && points(
            entries,
            links,
            id,
            to,
            context,
        ))),
        listed(with_links(graph, entries, id, links).missing, target).contains(from) == (listed(
            graph.missing,
            target,
        ).contains(from) || (from == id && dangles(entries, links, id, target))),
    decreases links.len(),
{
    broadcast use vstd::seq_lib::group_seq_properties;

    if links.len() > 0 {
        let rest = links.drop_last();
        let link = links.last();
        lemma_with_links(graph, entries, id, rest, to, from, context, target);
        assert(links[links.len() - 1] == link);
        let here = resolved(entries, link.target, Some(id)) == ResolutionView::Note(to)
            && text::trim(link.line) == context;
        assert(points(entries, links, id, to, context) == (points(
            entries,
            rest,
            id,
            to,
            context,
        ) || here)) by {
            if points(entries, rest, id, to, context) {
                let i = choose|i: int|
                    0 <= i < rest.len() && resolved(
                        entries,
                        (#[trigger] rest[i]).target,
                        Some(id),
                    ) == ResolutionView::Note(to) && text::trim(rest[i].line) == context;
                assert(links[i] == rest[i]);
            }
            if points(entries, links, id, to, context) && !here {
                let i = choose|i: int|
                    0 <= i < links.len() && resolved(
                        entries,
                        (#[trigger] links[i]).target,
                        Some(id),
                    ) == ResolutionView::Note(to) && text::trim(links[i].line) == context;
                assert(links[i] == rest[i]);
            }
        }
        let lost = resolved(entries, link.target, Some(id)) == ResolutionView::Missing
            && link.target == target;
        assert(dangles(entries, links, id, target) == (dangles(entries, rest, id, target)
            || lost)) by {
            if dangles(entries, rest, id, target) {
                let i = choose|i: int|
                    0 <= i < rest.len() && resolved(
                        entries,
                        (#[trigger] rest[i]).target,
                        Some(id),
                    ) == ResolutionView::Missing && rest[i].target == target;
                assert(links[i] == rest[i]);
            }
            if dangles(entries, links, id, target) && !lost {
                let i = choose|i: int|
                    0 <= i < links.len() && resolved(
                        entries,
                        (#[trigger] links[i]).target,
                        Some(id),
                    ) == ResolutionView::Missing && links[i].target == target;
                assert(links[i] == rest[i]);
            }
        }
    }
}

proof fn lemma_graph_among(
    entries: Map<Seq<char>, EntryView>,
    ids: Seq<Seq<char>>,
    to: Seq<char>,
    from: Seq<char>,
    context: Seq<char>,
    target: Seq<char>,
)
    ensures
        listed(graph_among(entries, ids).backlinks, to).contains((from, context)) == (
        ids.contains(from) && to != from && points(
            entries,
            entries[from].links,
            from,
            to,
            context,
        )),
        listed(graph_among(entries, ids).missing, target).contains(from) == (ids.contains(from)
            && dangles(entries, entries[from].links, from, target)),
    decreases ids.len(),
{
    broadcast use vstd::seq_lib::group_seq_properties;

    if ids.len() > 0 {
        let rest = ids.drop_last();
        let id = ids.last();
        lemma_graph_among(entries, rest, to, from, context, target);
        lemma_with_links(
            graph_among(entries, rest),
            entries,
            id,
            entries[id].links,
            to,
            from,
            context,
            target,
        );
        assert(ids =~= rest.push(id));
        assert(ids.contains(from) == (rest.contains(from) || from == id));
    }
}

/// The backlinks of a note are exactly the links of *other* notes that point
/// at it, each with the line it stands on: a note never backlinks to itself.
pub proof fn lemma_backlinks_are_the_links_that_point_here(
    entries: Map<Seq<char>, EntryView>,
    to: Seq<char>,
    from: Seq<char>,
    context: Seq<char>,
)
    requires
        entries.dom().finite(),
    ensures
        listed(graph(entries).backlinks, to).contains((from, context)) == (entries.contains_key(
            from,
        ) && to != from && points(entries, entries[from].links, from, to, context)),
{
    let ids = ordered::ascending(entries.dom());
    ordered::lemma_ascending(entries.dom());
    lemma_graph_among(entries, ids, to, from, context, seq![]);
    assert(ids.contains(from) == ids.to_set().contains(from));
}

/// A target is missing for exactly the notes that link to it and find nothing.
pub proof fn lemma_missing_links_are_the_ones_that_find_nothing(
    entries: Map<Seq<char>, EntryView>,
    target: Seq<char>,
    from: Seq<char>,
)
    requires
        entries.dom().finite(),
    ensures
        listed(graph(entries).missing, target).contains(from) == (entries.contains_key(from)
            && dangles(entries, entries[from].links, from, target)),
{
    let ids = ordered::ascending(entries.dom());
    ordered::lemma_ascending(entries.dom());
    lemma_graph_among(entries, ids, seq![], from, seq![], target);
    assert(ids.contains(from) == ids.to_set().contains(from));
}

/// Creating a note resolves the links that were already written to its path:
/// none of them is missing any more.
pub proof fn lemma_creating_a_note_resolves_what_was_missing(
    entries: Map<Seq<char>, EntryView>,
    target: Seq<char>,
    e: EntryView,
    from: Seq<char>,
)
    requires
        entries.dom().finite(),
        text::trim(target).len() > 0,
    ensures
        !listed(
            graph(entries.insert(target_path(text::trim(target)), e)).missing,
            target,
        ).contains(from),
{
    let now = entries.insert(target_path(text::trim(target)), e);
    lemma_missing_links_are_the_ones_that_find_nothing(now, target, from);
}

proof fn lemma_nested(parts: Seq<Seq<char>>)
    requires
        parts.len() > 0,
        parts[0].len() > 0,
    ensures
        nested(parts).len() == parts.len(),
        forall|k: int|
            0 <= k < parts.len() ==> #[trigger] nested(parts)[k] == text::join(
                parts.take(k + 1),
                seq!['/'],
            ),
        forall|k: int| 0 <= k < parts.len() ==> (#[trigger] nested(parts)[k]).len() > 0,
    decreases parts.len(),
{
    let sep = seq!['/'];
    if parts.len() == 1 {
        assert(parts.drop_last() =~= Seq::<Seq<char>>::empty());
        reveal_with_fuel(nested, 2);
        assert(parts.take(1) =~= parts);
    } else {
        let rest = parts.drop_last();
        lemma_nested(rest);
        let n = nested(parts);
        let b = nested(rest);
        assert forall|k: int| 0 <= k < parts.len() implies #[trigger] n[k] == text::join(
            parts.take(k + 1),
            sep,
        ) by {
            if k < rest.len() {
                assert(n[k] == b[k]);
                assert(parts.take(k + 1) =~= rest.take(k + 1));
            } else {
                assert(parts.take(k + 1) =~= parts);
                assert(rest.take(rest.len() as int) =~= rest);
                assert(b.last() == b[rest.len() - 1]);
                assert(b[rest.len() - 1] == text::join(rest, sep));
            }
        }
        assert forall|k: int| 0 <= k < parts.len() implies (#[trigger] n[k]).len() > 0 by {
            if k < rest.len() {
                assert(n[k] == b[k]);
            }
        }
    }
}

proof fn lemma_join_take(parts: Seq<Seq<char>>, k: int)
    requires
        0 < k < parts.len(),
    ensures
        text::join(parts.take(k), seq!['/']).push('/').is_prefix_of(
            text::join(parts, seq!['/']),
        ),
    decreases parts.len(),
{
    let sep = seq!['/'];
    let rest = parts.drop_last();
    let head = text::join(parts.take(k), sep).push('/');
    let whole = text::join(parts, sep);
    if k == parts.len() - 1 {
        assert(parts.take(k) =~= rest);
        assert(head =~= whole.subrange(0, head.len() as int));
    } else {
        lemma_join_take(rest, k);
        assert(rest.take(k) =~= parts.take(k));
        let short = text::join(rest, sep);
        assert(head =~= short.subrange(0, head.len() as int));
        assert(head =~= whole.subrange(0, head.len() as int));
    }
}

proof fn lemma_ancestors(tag: Seq<char>, a: Seq<char>)
    requires
        tag.len() > 0,
        tag[0] != '/',
        a.len() > 0,
    ensures
        ancestors(tag).contains(a) == is_under(tag, a),
{
    let parts = text::split_on(tag, '/');
    let sep = seq!['/'];
    text::lemma_split_nonempty(tag, '/');
    text::lemma_join_split(tag, '/');
    paths::lemma_split_opens(tag);
    lemma_nested(parts);
    if ancestors(tag).contains(a) {
        let k = choose|k: int| 0 <= k < parts.len() && nested(parts)[k] == a;
        if k == parts.len() - 1 {
            assert(parts.take(k + 1) =~= parts);
        } else {
            lemma_join_take(parts, k + 1);
        }
    }
    if is_under(tag, a) {
        if tag == a {
            assert(parts.take(parts.len() as int) =~= parts);
            assert(nested(parts)[parts.len() - 1] == a);
        } else {
            let rest = tag.skip(a.len() as int + 1);
            assert(tag =~= a.push('/') + rest) by {
                assert(a.push('/') =~= tag.subrange(0, a.len() as int + 1));
            }
            text::lemma_split_concat(a, '/', rest);
            text::lemma_split_nonempty(a, '/');
            text::lemma_split_nonempty(rest, '/');
            let m = text::split_on(a, '/').len() as int;
            assert(parts.take(m) =~= text::split_on(a, '/'));
            text::lemma_join_split(a, '/');
            assert(nested(parts)[m - 1] == a);
        }
    }
}

/// The count beside a tag is the number of notes that filtering by it shows:
/// a parent counts the notes of the tags beneath it.
pub proof fn lemma_a_tag_counts_what_it_filters_to(
    tags: Map<Seq<char>, Seq<Seq<char>>>,
    tag: Seq<char>,
)
    requires
        tag.len() > 0,
        forall|t: Seq<char>| #[trigger] tags.contains_key(t) ==> t.len() > 0 && t[0] != '/',
    ensures
        carriers(tags, tag) == under(tags, tag),
{
    assert forall|id: Seq<char>| carriers(tags, tag).contains(id) == under(tags, tag).contains(
        id,
    ) by {
        if carriers(tags, tag).contains(id) {
            let t = choose|t: Seq<char>| #[trigger]
                tags.contains_key(t) && ancestors(t).contains(tag) && tags[t].contains(id);
            lemma_ancestors(t, tag);
            assert(tags.contains_key(t));
        }
        if under(tags, tag).contains(id) {
            let t = choose|t: Seq<char>| #[trigger]
                tags.contains_key(t) && is_under(t, tag) && tags[t].contains(id);
            lemma_ancestors(t, tag);
            assert(tags.contains_key(t));
        }
    }
    assert(carriers(tags, tag) =~= under(tags, tag));
}

/// The tags of a note, lowercased.
pub open spec fn lowered_tags(entry: EntryView) -> Seq<Seq<char>> {
    entry.tags.map_values(|tag: Seq<char>| text::lowercase(tag))
}

proof fn lemma_with_tags(
    m: Map<Seq<char>, Seq<Seq<char>>>,
    tags: Seq<Seq<char>>,
    id: Seq<char>,
    tag: Seq<char>,
)
    ensures
        forall|other: Seq<char>| #[trigger]
            listed(with_tags(m, tags, id), tag).contains(other) == (listed(m, tag).contains(other)
                || (other == id && tags.map_values(
                |tag: Seq<char>| text::lowercase(tag),
            ).contains(tag))),
        with_tags(m, tags, id).contains_key(tag) == (m.contains_key(tag) || tags.map_values(
            |tag: Seq<char>| text::lowercase(tag),
        ).contains(tag)),
        m.dom().finite() ==> with_tags(m, tags, id).dom().finite(),
    decreases tags.len(),
{
    broadcast use vstd::seq_lib::group_seq_properties;

    let lower = |tag: Seq<char>| text::lowercase(tag);
    let lows = tags.map_values(lower);
    if tags.len() > 0 {
        let rest = tags.drop_last();
        lemma_with_tags(m, rest, id, tag);
        let fewer = rest.map_values(lower);
        let last = text::lowercase(tags.last());
        assert(lows =~= fewer.push(last));
        assert(lows.contains(tag) == (fewer.contains(tag) || tag == last));
        let before = with_tags(m, rest, id);
        let now = with_tags(m, tags, id);
        assert(listed(now, tag) == if tag == last {
            listed(before, tag).push(id)
        } else {
            listed(before, tag)
        });
        assert forall|other: Seq<char>| #[trigger] listed(now, tag).contains(other) == (listed(
            m,
            tag,
        ).contains(other) || (other == id && lows.contains(tag))) by {
            if tag == last {
                assert(listed(now, tag).contains(other) == (listed(before, tag).contains(other)
                    || other == id));
            }
            assert(listed(before, tag).contains(other) == (listed(m, tag).contains(other) || (
            other == id && fewer.contains(tag))));
        }
    }
}

proof fn lemma_tagged_among(
    entries: Map<Seq<char>, EntryView>,
    ids: Seq<Seq<char>>,
    tag: Seq<char>,
)
    ensures
        forall|id: Seq<char>| #[trigger]
            listed(tagged_among(entries, ids), tag).contains(id) == (ids.contains(id)
                && lowered_tags(entries[id]).contains(tag)),
        tagged_among(entries, ids).contains_key(tag) ==> exists|id: Seq<char>|
            ids.contains(id) && #[trigger] lowered_tags(entries[id]).contains(tag),
        tagged_among(entries, ids).dom().finite(),
    decreases ids.len(),
{
    broadcast use vstd::seq_lib::group_seq_properties;

    if ids.len() > 0 {
        let rest = ids.drop_last();
        let id = ids.last();
        lemma_tagged_among(entries, rest, tag);
        lemma_with_tags(tagged_among(entries, rest), entries[id].tags, id, tag);
        assert(ids =~= rest.push(id));
        assert forall|other: Seq<char>| ids.contains(other) == (rest.contains(other) || other
            == id) by {}
        if tagged_among(entries, ids).contains_key(tag) {
            if tagged_among(entries, rest).contains_key(tag) {
                let other = choose|other: Seq<char>|
                    rest.contains(other) && #[trigger] lowered_tags(entries[other]).contains(tag);
                assert(ids.contains(other) && lowered_tags(entries[other]).contains(tag));
            } else {
                assert(ids.contains(id) && lowered_tags(entries[id]).contains(tag));
            }
        }
    }
}

/// Under each tag stand exactly the notes that carry it, and there is no tag
/// that no note carries.
pub proof fn lemma_a_tag_lists_whoever_carries_it(
    entries: Map<Seq<char>, EntryView>,
    tag: Seq<char>,
)
    requires
        entries.dom().finite(),
    ensures
        forall|id: Seq<char>| #[trigger]
            listed(tagged(entries), tag).contains(id) == (entries.contains_key(id)
                && lowered_tags(entries[id]).contains(tag)),
        tagged(entries).contains_key(tag) ==> exists|id: Seq<char>| #[trigger]
            entries.contains_key(id) && lowered_tags(entries[id]).contains(tag),
        tagged(entries).dom().finite(),
{
    let ids = ordered::ascending(entries.dom());
    ordered::lemma_ascending(entries.dom());
    lemma_tagged_among(entries, ids, tag);
    assert forall|id: Seq<char>| ids.contains(id) == #[trigger] entries.contains_key(id) by {
        assert(ids.contains(id) == ids.to_set().contains(id));
    }
    assert forall|id: Seq<char>| #[trigger] listed(tagged(entries), tag).contains(id) == (
    entries.contains_key(id) && lowered_tags(entries[id]).contains(tag)) by {
        assert(ids.contains(id) == entries.contains_key(id));
    }
    if tagged(entries).contains_key(tag) {
        let id = choose|id: Seq<char>|
            ids.contains(id) && #[trigger] lowered_tags(entries[id]).contains(tag);
        assert(entries.contains_key(id));
    }
}

proof fn lemma_all_tags_finite(tags: Map<Seq<char>, Seq<Seq<char>>>)
    requires
        tags.dom().finite(),
    ensures
        all_tags(tags).finite(),
    decreases tags.dom().len(),
{
    if tags.dom().len() == 0 {
        assert forall|a: Seq<char>| !all_tags(tags).contains(a) by {
            if all_tags(tags).contains(a) {
                let tag = choose|tag: Seq<char>| #[trigger]
                    tags.contains_key(tag) && ancestors(tag).contains(a);
                assert(tags.dom().contains(tag));
            }
        }
        assert(all_tags(tags) =~= Set::empty());
    } else {
        let tag = tags.dom().choose();
        let rest = tags.remove(tag);
        assert(rest.dom() =~= tags.dom().remove(tag));
        lemma_all_tags_finite(rest);
        let more = ancestors(tag).to_set();
        vstd::seq_lib::seq_to_set_is_finite(ancestors(tag));
        assert(all_tags(tags) =~= all_tags(rest).union(more)) by {
            assert forall|a: Seq<char>| all_tags(tags).contains(a) == (all_tags(rest).contains(a)
                || more.contains(a)) by {
                if all_tags(tags).contains(a) {
                    let t = choose|t: Seq<char>| #[trigger]
                        tags.contains_key(t) && ancestors(t).contains(a);
                    if t != tag {
                        assert(rest.contains_key(t));
                    }
                }
                if all_tags(rest).contains(a) {
                    let t = choose|t: Seq<char>| #[trigger]
                        rest.contains_key(t) && ancestors(t).contains(a);
                    assert(tags.contains_key(t));
                }
                if more.contains(a) {
                    assert(tags.contains_key(tag));
                }
            }
        }
    }
}

/// Whether every tag of every note begins, lowercased, with a character that
/// neither separates nor marks tags.
pub open spec fn tags_are_plain(entries: Map<Seq<char>, EntryView>) -> bool {
    forall|id: Seq<char>, tag: Seq<char>|
        #![trigger lowered_tags(entries[id]).contains(tag)]
        entries.contains_key(id) && lowered_tags(entries[id]).contains(tag) ==> tag.len() > 0
            && tag[0] != '/' && tag[0] != '#'
}

/// Whether every tag of every note is ASCII.
pub open spec fn tags_are_ascii(entries: Map<Seq<char>, EntryView>) -> bool {
    forall|id: Seq<char>, i: int|
        #![trigger entries[id].tags[i]]
        entries.contains_key(id) && 0 <= i < entries[id].tags.len() ==> text::all_ascii(
            entries[id].tags[i],
        )
}

/// The tags as they are listed. Their names ascend, each counts at least one
/// note and as many as filtering by it shows; with a tag stand the tags it
/// nests in, and every tag of every note is there, lowercased. (Filtering
/// lowercases what it is given, which leaves a listed tag as it is where the
/// notes' tags are ASCII.)
pub proof fn lemma_tags_are_listed_with_what_they_nest_in(entries: Map<Seq<char>, EntryView>)
    requires
        entries.dom().finite(),
        tags_are_plain(entries),
    ensures
        ({
            let r = tag_counts(tagged(entries));
            &&& forall|i: int, j: int|
                0 <= i < j < r.len() ==> ordered::precedes(
                    (#[trigger] r[i]).0,
                    (#[trigger] r[j]).0,
                )
            &&& forall|i: int|
                0 <= i < r.len() ==> (#[trigger] r[i]).1 >= 1 && r[i].1 == under(
                    tagged(entries),
                    r[i].0,
                ).len()
            &&& tags_are_ascii(entries) ==> forall|i: int|
                0 <= i < r.len() ==> text::lowercase(unhashed((#[trigger] r[i]).0)) == r[i].0
            &&& forall|i: int, k: int|
                0 <= i < r.len() && 0 <= k < r[i].0.len() && #[trigger] r[i].0[k] == '/'
                    ==> all_tags(tagged(entries)).contains(r[i].0.take(k))
            &&& forall|id: Seq<char>, tag: Seq<char>|
                #![trigger lowered_tags(entries[id]).contains(tag)]
                entries.contains_key(id) && lowered_tags(entries[id]).contains(tag) ==> all_tags(
                    tagged(entries),
                ).contains(tag)
            &&& forall|tag: Seq<char>| #[trigger]
                all_tags(tagged(entries)).contains(tag) == exists|i: int|
                    0 <= i < r.len() && (#[trigger] r[i]).0 == tag
        }),
{
    let tags = tagged(entries);
    let set = all_tags(tags);
    let order = ordered::ascending(set);
    let r = tag_counts(tags);
    lemma_a_tag_lists_whoever_carries_it(entries, seq![]);
    lemma_all_tags_finite(tags);
    ordered::lemma_ascending(set);
    assert forall|t: Seq<char>| #[trigger] tags.contains_key(t) implies t.len() > 0 && t[0] != '/'
        && t[0] != '#' by {
        lemma_a_tag_lists_whoever_carries_it(entries, t);
        let id = choose|id: Seq<char>| #[trigger]
            entries.contains_key(id) && lowered_tags(entries[id]).contains(t);
        assert(lowered_tags(entries[id]).contains(t));
    }
    assert forall|a: Seq<char>| set.contains(a) == order.contains(a) by {
        assert(order.to_set().contains(a) == order.contains(a));
    }
    assert forall|i: int| 0 <= i < r.len() implies set.contains((#[trigger] r[i]).0) by {
        assert(r[i].0 == order[i]);
        assert(order.contains(order[i]));
    }
    assert forall|i: int| 0 <= i < r.len() implies (#[trigger] r[i]).1 >= 1 && r[i].1 == under(
        tags,
        r[i].0,
    ).len() && r[i].0.len() > 0 by {
        lemma_a_listed_tag(entries, r[i].0);
        lemma_a_tag_counts_what_it_filters_to(tags, r[i].0);
    }
    assert forall|i: int, k: int|
        0 <= i < r.len() && 0 <= k < r[i].0.len() && #[trigger] r[i].0[k] == '/' implies set.contains(
    r[i].0.take(k)) by {
        let a = r[i].0;
        assert(set.contains(a));
        let t = choose|t: Seq<char>| #[trigger] tags.contains_key(t) && ancestors(t).contains(a);
        lemma_a_listed_tag(entries, a);
        lemma_ancestors(t, a);
        assert(a[0] == t[0]) by {
            if t != a {
                assert(a.push('/') == t.subrange(0, a.len() as int + 1));
                assert(a.push('/')[0] == t[0]);
            }
        }
        let b = a.take(k);
        assert(is_under(t, b)) by {
            assert(b.push('/') =~= a.subrange(0, k + 1));
            if t != a {
                assert(a.push('/') == t.subrange(0, a.len() as int + 1));
                assert(b.push('/') =~= t.subrange(0, k + 1)) by {
                    assert forall|m: int| 0 <= m < k + 1 implies b.push('/')[m] == t[m] by {
                        assert(a.push('/')[m] == t[m]);
                    }
                }
            }
        }
        lemma_ancestors(t, b);
    }
    assert forall|id: Seq<char>, tag: Seq<char>|
        #![trigger lowered_tags(entries[id]).contains(tag)]
        entries.contains_key(id) && lowered_tags(entries[id]).contains(tag) implies set.contains(
        tag,
    ) by {
        lemma_a_tag_lists_whoever_carries_it(entries, tag);
        assert(listed(tags, tag).contains(id));
        assert(tags.contains_key(tag));
        lemma_ancestors(tag, tag);
    }
    assert forall|tag: Seq<char>| #[trigger] set.contains(tag) == exists|i: int|
        0 <= i < r.len() && (#[trigger] r[i]).0 == tag by {
        if set.contains(tag) {
            let i = choose|i: int| 0 <= i < order.len() && order[i] == tag;
            assert(r[i].0 == tag);
        }
    }
    if tags_are_ascii(entries) {
        assert forall|i: int| 0 <= i < r.len() implies text::lowercase(
            unhashed((#[trigger] r[i]).0),
        ) == r[i].0 by {
            lemma_a_listed_tag_is_lower(entries, r[i].0);
        }
    }
}

proof fn lemma_a_listed_tag(entries: Map<Seq<char>, EntryView>, a: Seq<char>)
    requires
        entries.dom().finite(),
        tags_are_plain(entries),
        all_tags(tagged(entries)).contains(a),
    ensures
        a.len() > 0,
        carriers(tagged(entries), a).finite(),
        carriers(tagged(entries), a).len() >= 1,
{
    let tags = tagged(entries);
    let t = choose|t: Seq<char>| #[trigger] tags.contains_key(t) && ancestors(t).contains(a);
    lemma_a_tag_lists_whoever_carries_it(entries, t);
    let id = choose|id: Seq<char>| #[trigger]
        entries.contains_key(id) && lowered_tags(entries[id]).contains(t);
    assert(lowered_tags(entries[id]).contains(t));
    assert(listed(tags, t).contains(id));
    let all = carriers(tags, a);
    assert(all.contains(id)) by {
        assert(tags.contains_key(t) && ancestors(t).contains(a) && tags[t].contains(id));
    }
    assert(all.subset_of(entries.dom())) by {
        assert forall|other: Seq<char>| all.contains(other) implies entries.dom().contains(
            other,
        ) by {
            let u = choose|u: Seq<char>| #[trigger]
                tags.contains_key(u) && ancestors(u).contains(a) && tags[u].contains(other);
            lemma_a_tag_lists_whoever_carries_it(entries, u);
            assert(listed(tags, u).contains(other));
        }
    }
    vstd::set_lib::lemma_set_subset_finite(entries.dom(), all);
    if all.len() == 0 {
        all.lemma_len0_is_empty();
        assert(all.contains(id));
    }
    let parts = text::split_on(t, '/');
    text::lemma_split_nonempty(t, '/');
    paths::lemma_split_opens(t);
    lemma_nested(parts);
    let k = choose|k: int| 0 <= k < parts.len() && nested(parts)[k] == a;
    assert(nested(parts)[k].len() > 0);
}

proof fn lemma_a_listed_tag_is_lower(entries: Map<Seq<char>, EntryView>, a: Seq<char>)
    requires
        entries.dom().finite(),
        tags_are_plain(entries),
        tags_are_ascii(entries),
        all_tags(tagged(entries)).contains(a),
    ensures
        text::lowercase(unhashed(a)) == a,
{
    let tags = tagged(entries);
    let t = choose|t: Seq<char>| #[trigger] tags.contains_key(t) && ancestors(t).contains(a);
    lemma_a_tag_lists_whoever_carries_it(entries, t);
    let id = choose|id: Seq<char>| #[trigger]
        entries.contains_key(id) && lowered_tags(entries[id]).contains(t);
    let lows = lowered_tags(entries[id]);
    assert(lows.contains(t));
    let n = choose|n: int| 0 <= n < lows.len() && lows[n] == t;
    let written = entries[id].tags[n];
    assert(text::all_ascii(written));
    text::lemma_lowercase_again(written);
    assert(t == text::lowercase(written));
    lemma_a_listed_tag(entries, a);
    lemma_ancestors(t, a);
    assert(a == t.subrange(0, a.len() as int)) by {
        if t != a {
            assert(a.push('/') == t.subrange(0, a.len() as int + 1));
            assert forall|m: int| 0 <= m < a.len() implies a[m] == t[m] by {
                assert(a.push('/')[m] == t[m]);
            }
            assert(a =~= t.subrange(0, a.len() as int));
        } else {
            assert(a =~= t.subrange(0, a.len() as int));
        }
    }
    assert(a[0] == t[0]);
    text::lemma_lowercase_part(t, 0, a.len() as int);
    assert(unhashed(a) == a);
}

// ---- what a note's name and links mean ----

/// A note answers to its title and to each of its aliases, whatever their case.
pub proof fn lemma_a_note_answers_to_its_title_and_aliases(
    entries: Map<Seq<char>, EntryView>,
    id: Seq<char>,
    name: Seq<char>,
)
    requires
        entries.contains_key(id),
    ensures
        is_called(entries, id, name) == (text::lowercase(entries[id].title) == name),
        answers(entries, id, name) == (text::lowercase(entries[id].title) == name || exists|i: int|
            0 <= i < entries[id].aliases.len() && text::lowercase(
                #[trigger] entries[id].aliases[i],
            ) == name),
{
    let e = entries[id];
    let all = names_of(e);
    let low = e.aliases.map_values(|alias: Seq<char>| text::lowercase(alias));
    if text::lowercase(e.title) == name {
        assert(all[0] == name);
    }
    if exists|i: int|
        0 <= i < e.aliases.len() && text::lowercase(#[trigger] e.aliases[i]) == name {
        let i = choose|i: int|
            0 <= i < e.aliases.len() && text::lowercase(#[trigger] e.aliases[i]) == name;
        assert(low[i] == name);
        assert(all[i + 1] == name);
    }
    if all.contains(name) {
        let k = choose|k: int| 0 <= k < all.len() && all[k] == name;
        if k > 0 {
            assert(low[k - 1] == name);
            assert(text::lowercase(e.aliases[k - 1]) == name);
        }
    }
}

proof fn lemma_one_candidate(s: Seq<Seq<char>>, id: Seq<char>)
    requires
        s.no_duplicates(),
        forall|x: Seq<char>| #[trigger] s.contains(x) == (x == id),
    ensures
        s == seq![id],
{
    assert(s.contains(id));
    let k = choose|k: int| 0 <= k < s.len() && s[k] == id;
    if s.len() > 1 {
        let j: int = if k == 0 {
            1
        } else {
            0
        };
        assert(s.contains(s[j]));
        assert(s[j] == s[k]);
    }
    assert(s =~= seq![id]);
}

/// A link goes to the one note that is called what it says, whatever the case
/// and the space around it; a note that has it as an alias does not matter
/// then.
pub proof fn lemma_a_link_goes_to_the_one_note_called_that(
    entries: Map<Seq<char>, EntryView>,
    target: Seq<char>,
    from: Option<Seq<char>>,
    id: Seq<char>,
)
    requires
        entries.dom().finite(),
        text::trim(target).len() > 0,
        !entries.contains_key(target_path(text::trim(target))),
        entries.contains_key(id),
        text::lowercase(entries[id].title) == text::lowercase(text::trim(target)),
        forall|other: Seq<char>| #[trigger]
            entries.contains_key(other) && other != id ==> text::lowercase(entries[other].title)
                != text::lowercase(text::trim(target)),
    ensures
        resolved(entries, target, from) == ResolutionView::Note(id),
{
    let name = text::lowercase(text::trim(target));
    assert(is_called(entries, id, name));
    lemma_a_title_comes_before_an_alias(entries, name);
    let s = candidates(entries, name);
    assert forall|x: Seq<char>| #[trigger] s.contains(x) == (x == id) by {
        assert(s.contains(x) == is_called(entries, x, name));
    }
    lemma_one_candidate(s, id);
}

/// Where no note is called what a link says, it goes to the one note that has
/// it as an alias.
pub proof fn lemma_a_link_goes_to_the_one_note_with_that_alias(
    entries: Map<Seq<char>, EntryView>,
    target: Seq<char>,
    from: Option<Seq<char>>,
    id: Seq<char>,
    i: int,
)
    requires
        entries.dom().finite(),
        text::trim(target).len() > 0,
        !entries.contains_key(target_path(text::trim(target))),
        entries.contains_key(id),
        0 <= i < entries[id].aliases.len(),
        text::lowercase(entries[id].aliases[i]) == text::lowercase(text::trim(target)),
        forall|other: Seq<char>| #[trigger]
            entries.contains_key(other) ==> text::lowercase(entries[other].title)
                != text::lowercase(text::trim(target)),
        forall|other: Seq<char>, k: int|
            #![trigger entries[other].aliases[k]]
            entries.contains_key(other) && other != id && 0 <= k < entries[other].aliases.len()
                ==> text::lowercase(entries[other].aliases[k]) != text::lowercase(
                text::trim(target),
            ),
    ensures
        resolved(entries, target, from) == ResolutionView::Note(id),
{
    let name = text::lowercase(text::trim(target));
    assert forall|x: Seq<char>| !#[trigger] is_called(entries, x, name) by {
        if entries.contains_key(x) {
            lemma_a_note_answers_to_its_title_and_aliases(entries, x, name);
        }
    }
    lemma_a_title_comes_before_an_alias(entries, name);
    let s = candidates(entries, name);
    assert forall|x: Seq<char>| #[trigger] s.contains(x) == (x == id) by {
        assert(s.contains(x) == answers(entries, x, name));
        if entries.contains_key(x) {
            lemma_a_note_answers_to_its_title_and_aliases(entries, x, name);
        }
        if x == id {
            assert(text::lowercase(entries[id].aliases[i]) == name);
        }
    }
    lemma_one_candidate(s, id);
}

/// Of several notes that are called what a link says, the one it is written in
/// is meant if it is among them. If it is not, the link could mean any of
/// them, and no other.
pub proof fn lemma_a_link_among_namesakes(
    entries: Map<Seq<char>, EntryView>,
    target: Seq<char>,
    from: Option<Seq<char>>,
    a: Seq<char>,
    b: Seq<char>,
)
    requires
        entries.dom().finite(),
        text::trim(target).len() > 0,
        !entries.contains_key(target_path(text::trim(target))),
        a != b,
        entries.contains_key(a),
        entries.contains_key(b),
        text::lowercase(entries[a].title) == text::lowercase(text::trim(target)),
        text::lowercase(entries[b].title) == text::lowercase(text::trim(target)),
    ensures
        ({
            let name = text::lowercase(text::trim(target));
            let called = |id: Seq<char>|
                entries.contains_key(id) && text::lowercase(entries[id].title) == name;
            if from is Some && called(from->0) {
                resolved(entries, target, from) == ResolutionView::Note(from->0)
            } else {
                resolved(entries, target, from) matches ResolutionView::Ambiguous(ids)
                    && ids.no_duplicates() && forall|id: Seq<char>| #[trigger]
                    ids.contains(id) == called(id)
            }
        }),
{
    let name = text::lowercase(text::trim(target));
    let called = |id: Seq<char>|
        entries.contains_key(id) && text::lowercase(entries[id].title) == name;
    assert(is_called(entries, a, name));
    assert(is_called(entries, b, name));
    lemma_a_title_comes_before_an_alias(entries, name);
    let s = candidates(entries, name);
    assert forall|id: Seq<char>| #[trigger] s.contains(id) == called(id) by {
        assert(s.contains(id) == is_called(entries, id, name));
    }
    assert(s.contains(a) && s.contains(b));
    let i = choose|i: int| 0 <= i < s.len() && s[i] == a;
    let j = choose|j: int| 0 <= j < s.len() && s[j] == b;
    assert(s.len() >= 2);
}

/// A link to nothing, or to a name that nothing answers to and that is no
/// path, is missing.
pub proof fn lemma_a_link_that_nothing_answers_to_is_missing(
    entries: Map<Seq<char>, EntryView>,
    target: Seq<char>,
    from: Option<Seq<char>>,
)
    requires
        entries.dom().finite(),
        text::trim(target).len() == 0 || (!entries.contains_key(target_path(text::trim(target)))
            && forall|id: Seq<char>| #[trigger]
            entries.contains_key(id) ==> text::lowercase(entries[id].title) != text::lowercase(
                text::trim(target),
            ) && forall|k: int|
                0 <= k < entries[id].aliases.len() ==> text::lowercase(
                    #[trigger] entries[id].aliases[k],
                ) != text::lowercase(text::trim(target))),
    ensures
        resolved(entries, target, from) == ResolutionView::Missing,
{
    if text::trim(target).len() > 0 {
        let name = text::lowercase(text::trim(target));
        assert forall|x: Seq<char>| !#[trigger] answers(entries, x, name) by {
            if entries.contains_key(x) {
                lemma_a_note_answers_to_its_title_and_aliases(entries, x, name);
            }
        }
        lemma_a_link_is_never_guessed_at(entries, target, from);
        match resolved(entries, target, from) {
            ResolutionView::Note(id) => {
                assert(!answers(entries, id, name));
                lemma_a_note_answers_to_its_title_and_aliases(entries, id, name);
            },
            ResolutionView::Ambiguous(ids) => {
                assert(ids.contains(ids[0]));
                assert(!answers(entries, ids[0], name));
                lemma_a_note_answers_to_its_title_and_aliases(entries, ids[0], name);
            },
            ResolutionView::Missing => {},
        }
    }
}

/// A link may name a path with `.md` or without.
pub proof fn lemma_a_link_may_leave_out_the_extension(path: Seq<char>)
    requires
        !".md"@.is_suffix_of(path),
    ensures
        target_path(path) == paths::relative(path + ".md"@),
        target_path(path + ".md"@) == target_path(path),
{
    let whole = path + ".md"@;
    assert(whole.skip(whole.len() - ".md"@.len()) =~= ".md"@);
    assert(".md"@.is_suffix_of(whole));
}

/// What an index knows of a note is what the note and the scan of its body say,
/// with an excerpt of a hundred and twenty characters.
pub proof fn lemma_what_an_entry_holds(note: note::NoteView, scan: markdown::ScanView)
    ensures
        ({
            let e = entry(note, scan);
            &&& e.title == note::title(note.id)
            &&& e.links == scan.links
            &&& e.embeds == scan.embeds
            &&& e.text == scan.text
            &&& e.excerpt == note::excerpt(scan.text, note::title(note.id), 120)
            &&& e.tags == note::every_tag(note, scan.tags)
            &&& match note.frontmatter {
                Some(block) => e.aliases == block.values.aliases,
                None => e.aliases.len() == 0,
            }
        }),
{
}

/// An index of some notes holds each of them, as the last of those with its id
/// says, and nothing else.
pub proof fn lemma_the_last_note_of_an_id_counts(
    notes: Seq<(note::NoteView, markdown::ScanView)>,
    k: int,
)
    requires
        0 <= k < notes.len(),
        forall|j: int| k < j < notes.len() ==> (#[trigger] notes[j]).0.id != notes[k].0.id,
    ensures
        entries_of(notes).contains_key(notes[k].0.id),
        entries_of(notes)[notes[k].0.id] == entry(notes[k].0, notes[k].1),
    decreases notes.len(),
{
    if k < notes.len() - 1 {
        let rest = notes.drop_last();
        assert(notes[notes.len() - 1] == notes.last());
        assert forall|j: int| k < j < rest.len() implies (#[trigger] rest[j]).0.id
            != rest[k].0.id by {
            assert(rest[j] == notes[j]);
        }
        lemma_the_last_note_of_an_id_counts(rest, k);
    }
}

/// An index holds no note that it was not given.
pub proof fn lemma_an_index_holds_only_what_it_was_given(
    notes: Seq<(note::NoteView, markdown::ScanView)>,
    id: Seq<char>,
)
    requires
        forall|k: int| 0 <= k < notes.len() ==> (#[trigger] notes[k]).0.id != id,
    ensures
        !entries_of(notes).contains_key(id),
    decreases notes.len(),
{
    if notes.len() > 0 {
        let rest = notes.drop_last();
        assert(notes[notes.len() - 1] == notes.last());
        assert forall|k: int| 0 <= k < rest.len() implies (#[trigger] rest[k]).0.id != id by {
            assert(rest[k] == notes[k]);
        }
        lemma_an_index_holds_only_what_it_was_given(rest, id);
    }
}

/// Renaming a note moves what is known of it to the new name, where its title
/// is the new one, and touches no other note.
pub proof fn lemma_a_rename_moves_what_is_known(
    entries: Map<Seq<char>, EntryView>,
    from: Seq<char>,
    to: Seq<char>,
    other: Seq<char>,
)
    requires
        entries.contains_key(from),
        other != to,
    ensures
        ({
            let r = renamed(entries, from, to);
            &&& r.contains_key(to)
            &&& r[to].title == note::title(to)
            &&& r[to].aliases == entries[from].aliases
            &&& r[to].tags == entries[from].tags
            &&& r[to].links == entries[from].links
            &&& r[to].embeds == entries[from].embeds
            &&& r[to].text == entries[from].text
            &&& r[to].excerpt == entries[from].excerpt
            &&& r.contains_key(other) == (entries.contains_key(other) && other != from)
            &&& r.contains_key(other) ==> r[other] == entries[other]
        }),
{
}

/// Each link of a note that goes to another is a backlink there, with its line,
/// in the order of the links; each that finds nothing is missing under its
/// target as it is written; and no other is either.
pub proof fn lemma_what_a_link_adds(
    before: Graph,
    entries: Map<Seq<char>, EntryView>,
    id: Seq<char>,
    links: Seq<markdown::LinkView>,
    link: markdown::LinkView,
    name: Seq<char>,
)
    ensures
        ({
            let was = with_links(before, entries, id, links);
            let now = with_links(before, entries, id, links.push(link));
            let goes = resolved(entries, link.target, Some(id));
            &&& listed(now.backlinks, name) == if goes == ResolutionView::Note(name) && name != id {
                listed(was.backlinks, name).push((id, text::trim(link.line)))
            } else {
                listed(was.backlinks, name)
            }
            &&& listed(now.missing, name) == if goes == ResolutionView::Missing && name
                == link.target {
                listed(was.missing, name).push(id)
            } else {
                listed(was.missing, name)
            }
        }),
        with_links(before, entries, id, seq![]) == before,
{
    assert(links.push(link).drop_last() =~= links);
}

/// The links of an index are those of its notes, one after the other.
pub proof fn lemma_links_are_taken_note_by_note(
    entries: Map<Seq<char>, EntryView>,
    ids: Seq<Seq<char>>,
    id: Seq<char>,
)
    ensures
        graph_among(entries, ids.push(id)) == with_links(
            graph_among(entries, ids),
            entries,
            id,
            entries[id].links,
        ),
        graph_among(entries, seq![]).backlinks == Map::<Seq<char>, Seq<(Seq<char>, Seq<char>)>>::empty(),
        graph_among(entries, seq![]).missing == Map::<Seq<char>, Seq<Seq<char>>>::empty(),
{
    assert(ids.push(id).drop_last() =~= ids);
}

/// A tag finds the notes that carry it or a tag under it: one that goes on with
/// a slash. A tag that merely begins with the same letters is not under it.
pub proof fn lemma_a_tag_finds_what_is_under_it(
    entries: Map<Seq<char>, EntryView>,
    wanted: Seq<char>,
    id: Seq<char>,
)
    requires
        entries.dom().finite(),
    ensures
        under(tagged(entries), wanted).contains(id) == (entries.contains_key(id) && exists|i: int|
            0 <= i < entries[id].tags.len() && ({
                let tag = text::lowercase(#[trigger] entries[id].tags[i]);
                tag == wanted || (tag.len() > wanted.len() && tag.take(wanted.len() as int)
                    == wanted && tag[wanted.len() as int] == '/')
            })),
{
    let tags = tagged(entries);
    if under(tags, wanted).contains(id) {
        let tag = choose|tag: Seq<char>| #[trigger]
            tags.contains_key(tag) && is_under(tag, wanted) && tags[tag].contains(id);
        lemma_a_tag_lists_whoever_carries_it(entries, tag);
        assert(listed(tags, tag).contains(id));
        let low = lowered_tags(entries[id]);
        let i = choose|i: int| 0 <= i < low.len() && low[i] == tag;
        assert(text::lowercase(entries[id].tags[i]) == tag);
        if tag != wanted {
            let n = wanted.len() as int;
            assert(wanted.push('/').is_prefix_of(tag));
            assert(tag.take(n + 1) =~= wanted.push('/'));
            assert(tag.take(n) =~= tag.take(n + 1).take(n));
            assert(wanted.push('/').take(n) =~= wanted);
            assert(tag[n] == tag.take(n + 1)[n]);
        }
    }
    if entries.contains_key(id) && exists|i: int|
        0 <= i < entries[id].tags.len() && ({
            let tag = text::lowercase(#[trigger] entries[id].tags[i]);
            tag == wanted || (tag.len() > wanted.len() && tag.take(wanted.len() as int) == wanted
                && tag[wanted.len() as int] == '/')
        }) {
        let i = choose|i: int|
            0 <= i < entries[id].tags.len() && ({
                let tag = text::lowercase(#[trigger] entries[id].tags[i]);
                tag == wanted || (tag.len() > wanted.len() && tag.take(wanted.len() as int)
                    == wanted && tag[wanted.len() as int] == '/')
            });
        let tag = text::lowercase(entries[id].tags[i]);
        let low = lowered_tags(entries[id]);
        assert(low[i] == tag);
        assert(low.contains(tag));
        lemma_a_tag_lists_whoever_carries_it(entries, tag);
        assert(listed(tags, tag).contains(id));
        assert(tags.contains_key(tag));
        if tag != wanted {
            let n = wanted.len() as int;
            assert forall|k: int| 0 <= k < n + 1 implies wanted.push('/')[k] == tag[k] by {
                if k < n {
                    assert(tag.take(n)[k] == tag[k]);
                }
            }
            assert(wanted.push('/') =~= tag.subrange(0, n + 1));
            assert(wanted.push('/').is_prefix_of(tag));
        }
        assert(is_under(tag, wanted));
    }
}

/// A tag may be asked for with hashes before it or without.
pub proof fn lemma_a_tag_may_be_asked_for_with_a_hash(tag: Seq<char>)
    ensures
        unhashed(seq!['#'] + tag) == unhashed(tag),
        tag.len() == 0 || tag[0] != '#' ==> unhashed(tag) == tag,
{
    assert((seq!['#'] + tag).skip(1) =~= tag);
}

/// A tag counts for itself and for each tag it is under: what is before each of
/// its slashes.
pub proof fn lemma_a_tag_counts_for_what_it_is_under(parts: Seq<Seq<char>>, part: Seq<char>)
    requires
        forall|i: int| 0 <= i < parts.len() ==> (#[trigger] parts[i]).len() > 0,
    ensures
        nested(parts.push(part)) == if parts.len() == 0 {
            seq![part]
        } else {
            nested(parts).push(text::join(parts, seq!['/']) + seq!['/'] + part)
        },
        parts.len() > 0 ==> nested(parts).len() > 0 && nested(parts).last() == text::join(
            parts,
            seq!['/'],
        ),
    decreases parts.len(),
{
    assert(parts.push(part).drop_last() =~= parts);
    if parts.len() > 0 {
        let rest = parts.drop_last();
        assert(parts =~= rest.push(parts.last()));
        assert forall|i: int| 0 <= i < rest.len() implies (#[trigger] rest[i]).len() > 0 by {
            assert(rest[i] == parts[i]);
        }
        lemma_a_tag_counts_for_what_it_is_under(rest, parts.last());
        assert(parts[parts.len() - 1].len() > 0);
        assert(nested(parts).last() =~= text::join(parts, seq!['/']));
        assert(nested(parts).last().len() > 0);
    } else {
        reveal_with_fuel(nested, 2);
        assert(nested(parts.push(part)) =~= seq![part]);
    }
}

/// An attachment is referenced exactly if a note embeds it.
pub proof fn lemma_an_attachment_is_referenced_by_who_embeds_it(
    entries: Map<Seq<char>, EntryView>,
    name: Seq<char>,
)
    ensures
        embedded(entries).contains(name) == exists|id: Seq<char>, i: int|
            entries.contains_key(id) && 0 <= i < entries[id].embeds.len()
                && #[trigger] entries[id].embeds[i] == name,
{
    if embedded(entries).contains(name) {
        let id = choose|id: Seq<char>| #[trigger]
            entries.contains_key(id) && entries[id].embeds.contains(name);
        let i = choose|i: int| 0 <= i < entries[id].embeds.len() && entries[id].embeds[i] == name;
        assert(entries[id].embeds[i] == name);
    }
    if exists|id: Seq<char>, i: int|
        entries.contains_key(id) && 0 <= i < entries[id].embeds.len()
            && #[trigger] entries[id].embeds[i] == name {
        let (id, i) = choose|id: Seq<char>, i: int|
            entries.contains_key(id) && 0 <= i < entries[id].embeds.len()
                && #[trigger] entries[id].embeds[i] == name;
        assert(entries[id].embeds.contains(name));
    }
}

} // verus!
