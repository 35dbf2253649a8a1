//! The sidebar's shape: folders, and the notes inside them.
//!
//! The vault is the tree. Nothing here is stored: a folder exists because a
//! directory does, a note sits under a folder because its path says so, and the
//! order within a folder comes from a sort the user picked.
//!
//! Which folders are open is the one piece of view state, and it is the
//! caller's: it is handed in, and a flat list of rows comes back, so that
//! whatever draws the rows never walks a tree.

use crate::index;
use crate::note;
use crate::note::NoteId;
use crate::ordered;
use crate::ordered::TextMap;
use crate::paths;
use crate::ranked;
use crate::ranked::Ranked;
use crate::text;
use vstd::prelude::*;

verus! {

// ---- how notes are ordered ----

/// How notes are ordered inside a folder.
///
/// Folders are always alphabetical whichever of these is chosen: a folder has
/// no useful date of its own.
#[derive(Debug, Clone, Copy, PartialEq, Eq, Structural)]
pub enum Sort {
    Name,
    Modified,
    Created,
}

impl Default for Sort {
    fn default() -> (r: Self)
        ensures
            r == Sort::Name,
    {
        Sort::Name
    }
}

/// What a sort is called in the config.
pub open spec fn sort_name(sort: Sort) -> Seq<char> {
    match sort {
        Sort::Name => "name"@,
        Sort::Modified => "modified"@,
        Sort::Created => "created"@,
    }
}

/// The sort of a name, the default one for a name that is none.
pub open spec fn sort_called(name: Seq<char>) -> Sort {
    if name == "modified"@ {
        Sort::Modified
    } else if name == "created"@ {
        Sort::Created
    } else {
        Sort::Name
    }
}

impl Sort {
    /// What the sort is called in the config.
    pub fn as_str(self) -> (r: &'static str)
        ensures
            r@ == sort_name(self),
    {
        match self {
            Sort::Name => "name",
            Sort::Modified => "modified",
            Sort::Created => "created",
        }
    }

    /// Parse what was stored in the config. An unknown value is the default
    /// rather than an error: a config from a future version must not stop the
    /// sidebar drawing.
    pub fn from_name(name: &str) -> (r: Self)
        ensures
            r == sort_called(name@),
    {
        if text::same(name, "modified") {
            Sort::Modified
        } else if text::same(name, "created") {
            Sort::Created
        } else {
            Sort::Name
        }
    }
}

/// A sort survives being written to the config and read back.
pub proof fn lemma_a_sort_round_trips(sort: Sort)
    ensures
        sort_called(sort_name(sort)) == sort,
{
    reveal_strlit("name");
    reveal_strlit("modified");
    reveal_strlit("created");
    assert("name"@.len() == 4 && "modified"@.len() == 8 && "created"@.len() == 7);
}

// ---- what the sidebar is given, and what it shows ----

/// A note as the sidebar needs it: what to show, and what to sort by.
///
/// The times are seconds since the epoch, and `0` means the filesystem did not
/// say: an unknown time sorts last rather than first.
#[derive(Debug, Clone, PartialEq, Eq)]
pub struct Listed {
    pub id: NoteId,
    pub excerpt: String,
    pub modified: u64,
    pub created: u64,
}

/// What is known of a listed note.
pub struct ListedView {
    pub id: Seq<char>,
    pub excerpt: Seq<char>,
    pub modified: u64,
    pub created: u64,
}

impl View for Listed {
    type V = ListedView;

    open spec fn view(&self) -> ListedView {
        ListedView {
            id: self.id@,
            excerpt: self.excerpt@,
            modified: self.modified,
            created: self.created,
        }
    }
}

impl Listed {
    /// A note with no timestamps, for callers that only ever sort by name.
    pub fn new(id: NoteId, excerpt: String) -> (r: Self)
        ensures
            r@ == (ListedView { id: id@, excerpt: excerpt@, modified: 0, created: 0 }),
    {
        Listed { id, excerpt, modified: 0, created: 0 }
    }
}

/// One line of the sidebar.
#[derive(Debug, Clone, PartialEq, Eq)]
pub enum Row {
    Folder {
        /// Vault-relative, `/` separated. The folder's identity.
        path: String,
        /// The last segment, which is what the row shows.
        name: String,
        depth: usize,
        /// Notes anywhere beneath it, so a closed folder still says how much
        /// it holds.
        notes: usize,
        expanded: bool,
    },
    Note { id: NoteId, excerpt: String, depth: usize },
}

/// What a line of the sidebar says.
pub enum RowView {
    Folder { path: Seq<char>, name: Seq<char>, depth: nat, notes: nat, expanded: bool },
    Note { id: Seq<char>, excerpt: Seq<char>, depth: nat },
}

impl View for Row {
    type V = RowView;

    open spec fn view(&self) -> RowView {
        match *self {
            Row::Folder { path, name, depth, notes, expanded } => RowView::Folder {
                path: path@,
                name: name@,
                depth: depth as nat,
                notes: notes as nat,
                expanded,
            },
            Row::Note { id, excerpt, depth } => RowView::Note {
                id: id@,
                excerpt: excerpt@,
                depth: depth as nat,
            },
        }
    }
}

/// How far in a row is drawn.
pub open spec fn depth_of(row: RowView) -> nat {
    match row {
        RowView::Folder { path, name, depth, notes, expanded } => depth,
        RowView::Note { id, excerpt, depth } => depth,
    }
}

impl Row {
    /// How far in the row is drawn.
    pub fn depth(&self) -> (r: usize)
        ensures
            r == depth_of(self@),
    {
        match self {
            Row::Folder { path: _, name: _, depth, notes: _, expanded: _ } => *depth,
            Row::Note { id: _, excerpt: _, depth } => *depth,
        }
    }
}

// ---- folders ----

/// The folders that the pieces of a path nest in, the empty ones left out.
pub open spec fn trail(pieces: Seq<Seq<char>>) -> Seq<Seq<char>>
    decreases pieces.len(),
{
    if pieces.len() == 0 {
        seq![]
    } else {
        let before = trail(pieces.drop_last());
        let piece = pieces.last();
        if piece.len() == 0 {
            before
        } else if before.len() > 0 {
            before.push(before.last() + seq!['/'] + piece)
        } else {
            before.push(piece)
        }
    }
}

/// `a/b/c` yields `a`, `a/b`, `a/b/c`.
pub open spec fn ancestors(path: Seq<char>) -> Seq<Seq<char>> {
    trail(text::split_on(path, '/'))
}

/// `a/b/c` yields `a`, `a/b`, `a/b/c`.
pub fn ancestors_of(path: &str) -> (r: Vec<String>)
    ensures
        text::views(r@) == ancestors(path@),
{
    let pieces = text::split_chars(&text::chars_of(path), '/');
    let ghost all = text::views(pieces@);
    let mut r: Vec<String> = Vec::new();
    let mut current: Vec<char> = Vec::new();
    let mut i: usize = 0;
    assert(text::views(r@) =~= trail(all.take(0)));
    while i < pieces.len()
        invariant
            i <= pieces@.len(),
            all == text::views(pieces@),
            text::views(r@) == trail(all.take(i as int)),
            r@.len() == 0 ==> current@.len() == 0,
            r@.len() > 0 ==> current@.len() > 0 && current@ == text::views(r@).last(),
        decreases pieces@.len() - i,
    {
        assert(all.take(i + 1).drop_last() =~= all.take(i as int));
        assert(all.take(i + 1).last() == all[i as int]);
        if pieces[i].len() > 0 {
            let ghost was = current@;
            if current.len() > 0 {
                current.push('/');
            }
            text::extend(&mut current, &pieces[i]);
            assert(current@ =~= if was.len() > 0 {
                was + seq!['/'] + all[i as int]
            } else {
                all[i as int]
            });
            let name = text::string_of(&current);
            proof {
                text::lemma_views_push(r@, name);
            }
            r.push(name);
        }
        i = i + 1;
    }
    assert(all.take(all.len() as int) =~= all);
    r
}

/// The folder that something is in, empty for the root.
pub open spec fn home(path: Seq<char>) -> Seq<char> {
    match paths::folder(path) {
        Some(folder) => folder,
        None => seq![],
    }
}

/// Whether a folder is right inside another.
pub open spec fn is_child(path: Seq<char>, folder: Seq<char>) -> bool {
    path.len() > 0 && home(path) == folder
}

/// Whether `into` is `folder` or sits beneath it.
pub open spec fn within(folder: Seq<char>, into: Seq<char>) -> bool {
    folder == into || folder.push('/').is_prefix_of(into)
}

/// Whether `into` is `folder` or sits beneath it.
///
/// A folder cannot be dropped inside itself: the move would fail or, worse,
/// succeed on some filesystems and lose the subtree.
pub fn is_within(folder: &str, into: &str) -> (r: bool)
    ensures
        r == within(folder@, into@),
{
    if text::same(folder, into) {
        return true;
    }
    let mut prefix = text::chars_of(folder);
    prefix.push('/');
    text::begins(&text::chars_of(into), &prefix)
}

/// Everything a sidebar is drawn from.
pub struct Tree {
    /// Every folder there is, in order.
    pub known: Seq<Seq<char>>,
    pub notes: Seq<ListedView>,
    pub expanded: Set<Seq<char>>,
    pub sort: Sort,
}

/// The folders there are: those that were named, those that notes are in, and
/// the ancestors of either.
pub open spec fn known(notes: Seq<ListedView>, folders: Seq<Seq<char>>) -> Set<Seq<char>> {
    Set::new(
        |folder: Seq<char>|
            (exists|i: int|
                0 <= i < folders.len() && ancestors(#[trigger] folders[i]).contains(folder)) || (
            exists|i: int|
                0 <= i < notes.len() && ancestors(home((#[trigger] notes[i]).id)).contains(folder)),
    )
}

/// The tree of some notes and folders.
pub open spec fn tree(
    notes: Seq<ListedView>,
    folders: Seq<Seq<char>>,
    expanded: Set<Seq<char>>,
    sort: Sort,
) -> Tree {
    Tree { known: ordered::ascending(known(notes, folders)), notes, expanded, sort }
}

/// The folders right inside one, in order.
pub open spec fn subfolders(known: Seq<Seq<char>>, folder: Seq<char>) -> Seq<Seq<char>>
    decreases known.len(),
{
    if known.len() == 0 {
        seq![]
    } else {
        let before = subfolders(known.drop_last(), folder);
        if is_child(known.last(), folder) {
            before.push(known.last())
        } else {
            before
        }
    }
}

/// How many notes are in a folder or anywhere beneath it.
pub open spec fn count(known: Seq<Seq<char>>, notes: Seq<ListedView>, path: Seq<char>) -> nat
    decreases notes.len(),
{
    if notes.len() == 0 {
        0
    } else {
        let before = count(known, notes.drop_last(), path);
        let folder = home(notes.last().id);
        if within(path, folder) && known.contains(folder) {
            before + 1
        } else {
            before
        }
    }
}

/// The notes right inside a folder, as they came.
pub open spec fn contents(notes: Seq<ListedView>, folder: Seq<char>, sort: Sort) -> Seq<PlacedView>
    decreases notes.len(),
{
    if notes.len() == 0 {
        seq![]
    } else {
        let before = contents(notes.drop_last(), folder, sort);
        if home(notes.last().id) == folder {
            before.push(placed_note(notes.last(), sort))
        } else {
            before
        }
    }
}

// ---- the notes of one folder ----

/// A note of a folder, and what its place there rests on.
#[derive(Debug)]
pub struct Placed {
    /// The time that the sort goes by, if it goes by one.
    pub time: u64,
    /// The title without regard to case.
    pub name: String,
    pub id: NoteId,
    pub excerpt: String,
}

/// What a note's place in its folder rests on.
pub struct PlacedView {
    pub time: u64,
    pub name: Seq<char>,
    pub id: Seq<char>,
    pub excerpt: Seq<char>,
}

impl View for Placed {
    type V = PlacedView;

    open spec fn view(&self) -> PlacedView {
        PlacedView {
            time: self.time,
            name: self.name@,
            id: self.id@,
            excerpt: self.excerpt@,
        }
    }
}

impl Ranked for Placed {
    /// Newest first for the two time sorts, because "recently" is the point of
    /// asking for them. Ties fall back to the name, so the list never
    /// reshuffles between two notes written in the same second.
    open spec fn before(a: PlacedView, b: PlacedView) -> bool {
        if a.time != b.time {
            a.time > b.time
        } else if a.name != b.name {
            ordered::precedes(a.name, b.name)
        } else {
            ordered::precedes(a.id, b.id)
        }
    }

    fn goes_before(&self, other: &Self) -> (r: bool) {
        if self.time != other.time {
            self.time > other.time
        } else if !text::same(self.name.as_str(), other.name.as_str()) {
            ordered::comes_before(self.name.as_str(), other.name.as_str())
        } else {
            ordered::comes_before(self.id.as_str(), other.id.as_str())
        }
    }
}

/// The time that a sort goes by.
pub open spec fn time_of(note: ListedView, sort: Sort) -> u64 {
    match sort {
        Sort::Name => 0,
        Sort::Modified => note.modified,
        Sort::Created => note.created,
    }
}

/// A note, and what its place in its folder rests on.
pub open spec fn placed_note(note: ListedView, sort: Sort) -> PlacedView {
    PlacedView {
        time: time_of(note, sort),
        name: text::lowercase(note::title(note.id)),
        id: note.id,
        excerpt: note.excerpt,
    }
}

/// The rows of some notes.
pub open spec fn note_rows(notes: Seq<PlacedView>, depth: nat) -> Seq<RowView> {
    notes.map_values(
        |note: PlacedView| RowView::Note { id: note.id, excerpt: note.excerpt, depth },
    )
}

// ---- the rows ----

/// The length of the longest of some paths.
pub open spec fn longest(paths: Seq<Seq<char>>) -> nat
    decreases paths.len(),
{
    if paths.len() == 0 {
        0
    } else {
        let before = longest(paths.drop_last());
        if paths.last().len() > before {
            paths.last().len()
        } else {
            before
        }
    }
}

/// How much longer than a folder's path a path in the tree can be.
pub open spec fn room(known: Seq<Seq<char>>, folder: Seq<char>) -> nat {
    if folder.len() <= longest(known) {
        (longest(known) + 1 - folder.len()) as nat
    } else {
        0
    }
}

/// A folder is deeper in the tree than the one it is in.
pub proof fn lemma_deeper(known: Seq<Seq<char>>, folder: Seq<char>, i: int)
    requires
        0 <= i < subfolders(known, folder).len(),
    ensures
        ({
            let path = subfolders(known, folder)[i];
            &&& known.contains(path)
            &&& is_child(path, folder)
            &&& path.len() > folder.len()
            &&& path.len() <= longest(known)
            &&& room(known, path) < room(known, folder)
        }),
    decreases known.len(),
{
    if known.len() > 0 {
        let rest = known.drop_last();
        let before = subfolders(rest, folder);
        if i < before.len() {
            lemma_deeper(rest, folder, i);
            assert(known =~= rest.push(known.last()));
            let path = before[i];
            let k = choose|k: int| 0 <= k < rest.len() && rest[k] == path;
            assert(known[k] == path);
        } else {
            text::lemma_find_last(known.last(), '/');
            assert(known[known.len() - 1] == known.last());
        }
    }
}

/// The row of a folder.
pub open spec fn folder_row(tree: Tree, path: Seq<char>, depth: nat) -> RowView {
    RowView::Folder {
        path,
        name: paths::file_name(path),
        depth,
        notes: count(tree.known, tree.notes, path),
        expanded: tree.expanded.contains(path),
    }
}

/// The rows of the first `n` folders in one, each followed by what is in it if
/// it is open.
pub open spec fn folder_rows(tree: Tree, folder: Seq<char>, n: int, depth: nat) -> Seq<RowView>
    decreases room(tree.known, folder), n,
{
    let inside = subfolders(tree.known, folder);
    if n <= 0 || n > inside.len() {
        seq![]
    } else {
        proof {
            lemma_deeper(tree.known, folder, n - 1);
        }
        let path = inside[n - 1];
        let before = folder_rows(tree, folder, n - 1, depth).push(folder_row(tree, path, depth));
        if tree.expanded.contains(path) {
            before + branch(tree, path, depth + 1)
        } else {
            before
        }
    }
}

/// What is in a folder. Folders first, then the notes sitting directly in it:
/// the order that keeps a folder's own notes from being lost between its
/// subfolders.
pub open spec fn branch(tree: Tree, folder: Seq<char>, depth: nat) -> Seq<RowView>
    decreases room(tree.known, folder), subfolders(tree.known, folder).len() + 1,
{
    folder_rows(tree, folder, subfolders(tree.known, folder).len() as int, depth) + note_rows(
        ranked::ranked::<Placed>(contents(tree.notes, folder, tree.sort)),
        depth,
    )
}

fn count_of(known: &TextMap<String, ()>, notes: &[Listed], path: &str) -> (n: usize)
    requires
        known@.dom().finite(),
    ensures
        n == count(ordered::ascending(known@.dom()), text::views(notes@), path@),
        n <= notes@.len(),
{
    let ghost order = ordered::ascending(known@.dom());
    let ghost all = text::views(notes@);
    proof {
        ordered::lemma_ascending(known@.dom());
    }
    let mut n: usize = 0;
    let mut i: usize = 0;
    while i < notes.len()
        invariant
            n <= i <= notes@.len(),
            all == text::views(notes@),
            order.to_set() == known@.dom(),
            n == count(order, all.take(i as int), path@),
        decreases notes@.len() - i,
    {
        assert(all.take(i + 1).drop_last() =~= all.take(i as int));
        assert(all.take(i + 1).last() == notes@[i as int]@);
        let folder = match notes[i].id.folder() {
            Some(folder) => folder,
            None => "",
        };
        proof {
            reveal_strlit("");
            assert(folder@ =~= home(notes@[i as int].id@));
            assert(order.contains(folder@) == order.to_set().contains(folder@));
        }
        if is_within(path, folder) && known.contains(folder) {
            n = n + 1;
        }
        i = i + 1;
    }
    assert(all.take(all.len() as int) =~= all);
    n
}

fn children_of(known: &TextMap<String, ()>, folder: &str) -> (r: Vec<String>)
    ensures
        known@.dom().finite(),
        text::views(r@) == subfolders(ordered::ascending(known@.dom()), folder@),
{
    let ghost order = ordered::ascending(known@.dom());
    let n = known.len();
    let mut r: Vec<String> = Vec::new();
    let mut i: usize = 0;
    assert(text::views(r@) =~= subfolders(order.take(0), folder@));
    while i < n
        invariant
            i <= n == order.len(),
            order == ordered::ascending(known@.dom()),
            text::views(r@) == subfolders(order.take(i as int), folder@),
        decreases n - i,
    {
        let path = known.key(i);
        assert(order.take(i + 1).drop_last() =~= order.take(i as int));
        assert(order.take(i + 1).last() == path@);
        let chars = text::chars_of(path.as_str());
        let end: usize = match text::last_position_of(&chars, '/') {
            Some(at) => at,
            None => 0,
        };
        let parent = text::part(&chars, 0, end);
        assert(parent@ =~= home(path@));
        if chars.len() > 0 && text::same_chars(&parent, &text::chars_of(folder)) {
            let copy = path.clone();
            proof {
                text::lemma_views_push(r@, copy);
            }
            r.push(copy);
        }
        i = i + 1;
    }
    assert(order.take(n as int) =~= order);
    r
}

fn contents_of(notes: &[Listed], folder: &str, sort: Sort) -> (r: Vec<Placed>)
    ensures
        text::views(r@) == contents(text::views(notes@), folder@, sort),
{
    let ghost all = text::views(notes@);
    let mut r: Vec<Placed> = Vec::new();
    let mut i: usize = 0;
    assert(text::views(r@) =~= contents(all.take(0), folder@, sort));
    while i < notes.len()
        invariant
            i <= notes@.len(),
            all == text::views(notes@),
            text::views(r@) == contents(all.take(i as int), folder@, sort),
        decreases notes@.len() - i,
    {
        assert(all.take(i + 1).drop_last() =~= all.take(i as int));
        assert(all.take(i + 1).last() == notes@[i as int]@);
        let note = &notes[i];
        let here = match note.id.folder() {
            Some(folder) => folder,
            None => "",
        };
        proof {
            reveal_strlit("");
            assert(here@ =~= home(note.id@));
        }
        if text::same(here, folder) {
            let time: u64 = match sort {
                Sort::Name => 0,
                Sort::Modified => note.modified,
                Sort::Created => note.created,
            };
            let placed = Placed {
                time,
                name: note.id.title().to_lowercase(),
                id: note.id.clone(),
                excerpt: note.excerpt.clone(),
            };
            assert(placed@ == placed_note(note@, sort));
            proof {
                text::lemma_views_push(r@, placed);
            }
            r.push(placed);
        }
        i = i + 1;
    }
    assert(all.take(all.len() as int) =~= all);
    r
}

fn emit(
    folder: &str,
    depth: usize,
    known: &TextMap<String, ()>,
    notes: &[Listed],
    expanded: &TextMap<String, ()>,
    sort: Sort,
    out: &mut Vec<Row>,
)
    requires
        depth <= folder@.len(),
    ensures
        ({
            let tree = Tree {
                known: ordered::ascending(known@.dom()),
                notes: text::views(notes@),
                expanded: expanded@.dom(),
                sort,
            };
            text::views(final(out)@) == text::views(old(out)@) + branch(
                tree,
                folder@,
                depth as nat,
            )
        }),
    decreases room(ordered::ascending(known@.dom()), folder@),
{
    let ghost tree = Tree {
        known: ordered::ascending(known@.dom()),
        notes: text::views(notes@),
        expanded: expanded@.dom(),
        sort,
    };
    let ghost before = text::views(out@);
    let inside = children_of(known, folder);
    let ghost subs = subfolders(tree.known, folder@);
    assert(subs.len() == inside@.len());
    let mut i: usize = 0;
    assert(before =~= before + folder_rows(tree, folder@, 0, depth as nat));
    while i < inside.len()
        invariant
            i <= inside@.len(),
            known@.dom().finite(),
            depth <= folder@.len(),
            tree == (Tree {
                known: ordered::ascending(known@.dom()),
                notes: text::views(notes@),
                expanded: expanded@.dom(),
                sort,
            }),
            subs == subfolders(tree.known, folder@),
            subs == text::views(inside@),
            subs.len() == inside@.len(),
            text::views(out@) == before + folder_rows(tree, folder@, i as int, depth as nat),
        decreases inside@.len() - i,
    {
        let path = &inside[i];
        assert(path@ == subs[i as int]);
        proof {
            lemma_deeper(tree.known, folder@, i as int);
        }
        let open = expanded.contains(path.as_str());
        let chars = text::chars_of(path.as_str());
        let from: usize = match text::last_position_of(&chars, '/') {
            Some(at) => at + 1,
            None => 0,
        };
        let name = text::part(&chars, from, chars.len());
        assert(name@ =~= paths::file_name(path@));
        let row = Row::Folder {
            path: path.clone(),
            name: text::string_of(&name),
            depth,
            notes: count_of(known, notes, path.as_str()),
            expanded: open,
        };
        assert(row@ == folder_row(tree, path@, depth as nat));
        proof {
            text::lemma_views_push(out@, row);
        }
        out.push(row);
        let ghost so_far = folder_rows(tree, folder@, i as int, depth as nat).push(
            folder_row(tree, path@, depth as nat),
        );
        assert(text::views(out@) =~= before + so_far);
        if open {
            assert(path@.len() == chars@.len());
            emit(path.as_str(), depth + 1, known, notes, expanded, sort, out);
            assert(text::views(out@) =~= before + (so_far + branch(
                tree,
                path@,
                (depth + 1) as nat,
            )));
        }
        i = i + 1;
    }
    let here = ranked::rank(contents_of(notes, folder, sort));
    let ghost order = text::views(here@);
    let ghost folders = text::views(out@);
    let mut k: usize = 0;
    assert(folders =~= folders + note_rows(order.take(0), depth as nat));
    while k < here.len()
        invariant
            k <= here@.len(),
            order == text::views(here@),
            text::views(out@) == folders + note_rows(order.take(k as int), depth as nat),
        decreases here@.len() - k,
    {
        let note = &here[k];
        assert(order[k as int] == note@);
        let row = Row::Note { id: note.id.clone(), excerpt: note.excerpt.clone(), depth };
        proof {
            text::lemma_views_push(out@, row);
            assert(note_rows(order.take(k + 1), depth as nat) =~= note_rows(
                order.take(k as int),
                depth as nat,
            ).push(row@));
        }
        let ghost was = text::views(out@);
        out.push(row);
        assert(text::views(out@) =~= folders + note_rows(order.take(k + 1), depth as nat));
        k = k + 1;
    }
    assert(order.take(order.len() as int) =~= order);
    assert(text::views(out@) =~= before + branch(tree, folder@, depth as nat));
}

/// The rows to draw, top to bottom.
///
/// `folders` carries directories that hold no notes: those exist on disk and
/// have to appear. Ancestors are implied: a note at `a/b/c.md` puts both `a`
/// and `a/b` in the tree whether or not anyone listed them.
pub fn rows(
    notes: &[Listed],
    folders: &[String],
    expanded: &TextMap<String, ()>,
    sort: Sort,
) -> (r: Vec<Row>)
    ensures
        text::views(r@) == branch(
            tree(text::views(notes@), text::views(folders@), expanded@.dom(), sort),
            seq![],
            0,
        ),
{
    let ghost listed = text::views(notes@);
    let ghost named = text::views(folders@);
    let mut all: TextMap<String, ()> = TextMap::new();
    let mut i: usize = 0;
    while i < folders.len()
        invariant
            i <= folders@.len(),
            named == text::views(folders@),
            forall|f: Seq<char>| #[trigger]
                all@.dom().contains(f) <==> exists|k: int|
                    0 <= k < i && ancestors(#[trigger] named[k]).contains(f),
        decreases folders@.len() - i,
    {
        let ghost was = all@.dom();
        assert(named[i as int] == folders@[i as int]@);
        index::add_texts(&mut all, &ancestors_of(folders[i].as_str()));
        assert forall|f: Seq<char>| #[trigger] all@.dom().contains(f) <==> exists|k: int|
            0 <= k < i + 1 && ancestors(#[trigger] named[k]).contains(f) by {
            if was.contains(f) {
                let k = choose|k: int| 0 <= k < i && ancestors(#[trigger] named[k]).contains(f);
                assert(ancestors(named[k]).contains(f));
            }
            if ancestors(named[i as int]).contains(f) {
                assert(ancestors(named[i as int]).contains(f));
            }
        }
        i = i + 1;
    }
    let mut j: usize = 0;
    while j < notes.len()
        invariant
            j <= notes@.len(),
            listed == text::views(notes@),
            forall|f: Seq<char>| #[trigger]
                all@.dom().contains(f) <==> (exists|k: int|
                    0 <= k < named.len() && ancestors(#[trigger] named[k]).contains(f)) || (exists|
                    k: int,
                | 0 <= k < j && ancestors(home((#[trigger] listed[k]).id)).contains(f)),
        decreases notes@.len() - j,
    {
        let ghost was = all@.dom();
        let folder = match notes[j].id.folder() {
            Some(folder) => folder,
            None => "",
        };
        proof {
            reveal_strlit("");
            assert(folder@ =~= home(notes@[j as int].id@));
            assert(listed[j as int] == notes@[j as int]@);
        }
        index::add_texts(&mut all, &ancestors_of(folder));
        assert forall|f: Seq<char>| #[trigger] all@.dom().contains(f) <==> (exists|k: int|
            0 <= k < named.len() && ancestors(#[trigger] named[k]).contains(f)) || (exists|k: int|
            0 <= k < j + 1 && ancestors(home((#[trigger] listed[k]).id)).contains(f)) by {
            if was.contains(f) && !(exists|k: int|
                0 <= k < named.len() && ancestors(#[trigger] named[k]).contains(f)) {
                let k = choose|k: int|
                    0 <= k < j && ancestors(home((#[trigger] listed[k]).id)).contains(f);
                assert(ancestors(home(listed[k].id)).contains(f));
            }
            if ancestors(home(listed[j as int].id)).contains(f) {
                assert(ancestors(home(listed[j as int].id)).contains(f));
            }
        }
        j = j + 1;
    }
    assert(all@.dom() =~= known(listed, named));
    let mut out: Vec<Row> = Vec::new();
    proof {
        reveal_strlit("");
        assert(""@ =~= seq![]);
    }
    emit("", 0, &all, notes, expanded, sort, &mut out);
    assert(text::views(out@) =~= branch(
        tree(listed, named, expanded@.dom(), sort),
        seq![],
        0,
    ));
    out
}

// ---- what holds of every tree ----

proof fn lemma_trail(pieces: Seq<Seq<char>>)
    requires
        forall|i: int| 0 <= i < pieces.len() ==> !(#[trigger] pieces[i]).contains('/'),
    ensures
        forall|i: int| 0 <= i < trail(pieces).len() ==> (#[trigger] trail(pieces)[i]).len() > 0,
        trail(pieces).len() > 0 ==> home(trail(pieces)[0]).len() == 0,
        forall|i: int|
            0 < i < trail(pieces).len() ==> home(#[trigger] trail(pieces)[i]) == trail(
                pieces,
            )[i - 1],
    decreases pieces.len(),
{
    if pieces.len() > 0 {
        let rest = pieces.drop_last();
        assert forall|i: int| 0 <= i < rest.len() implies !(#[trigger] rest[i]).contains('/') by {
            assert(rest[i] == pieces[i]);
        }
        lemma_trail(rest);
        let before = trail(rest);
        let piece = pieces.last();
        assert(piece == pieces[pieces.len() - 1]);
        if piece.len() > 0 {
            if before.len() > 0 {
                let all = before.last() + seq!['/'] + piece;
                assert(all =~= before.last().push('/') + piece);
                text::lemma_find_last_append(before.last(), '/', piece);
                assert(home(all) =~= before.last());
            } else {
                text::lemma_find_last(piece, '/');
                assert(forall|j: int| 0 <= j < piece.len() ==> piece.contains(#[trigger] piece[j]));
            }
        }
    }
}

/// The tree holds the ancestors of whatever it holds: the folder of a folder
/// is the root or a folder of its own.
pub proof fn lemma_ancestors_are_in_the_tree(
    notes: Seq<ListedView>,
    folders: Seq<Seq<char>>,
    path: Seq<char>,
)
    requires
        known(notes, folders).contains(path),
    ensures
        path.len() > 0,
        home(path).len() == 0 || known(notes, folders).contains(home(path)),
{
    let from = if exists|i: int|
        0 <= i < folders.len() && ancestors(#[trigger] folders[i]).contains(path) {
        let i = choose|i: int|
            0 <= i < folders.len() && ancestors(#[trigger] folders[i]).contains(path);
        folders[i]
    } else {
        let i = choose|i: int|
            0 <= i < notes.len() && ancestors(home((#[trigger] notes[i]).id)).contains(path);
        home(notes[i].id)
    };
    let line = ancestors(from);
    assert(line.contains(path));
    text::lemma_split_pieces(from, '/');
    lemma_trail(text::split_on(from, '/'));
    let k = choose|k: int| 0 <= k < line.len() && line[k] == path;
    if k > 0 {
        assert(home(line[k]) == line[k - 1]);
        assert(line.contains(line[k - 1]));
    } else {
        assert(home(line[0]).len() == 0);
    }
}

proof fn lemma_subfolders(known: Seq<Seq<char>>, folder: Seq<char>)
    requires
        ordered::is_ascending(known),
    ensures
        ordered::is_ascending(subfolders(known, folder)),
        forall|path: Seq<char>| #[trigger]
            subfolders(known, folder).contains(path) <==> known.contains(path) && is_child(
                path,
                folder,
            ),
    decreases known.len(),
{
    if known.len() > 0 {
        let rest = known.drop_last();
        assert forall|i: int, j: int| 0 <= i < j < rest.len() implies ordered::precedes(
            #[trigger] rest[i],
            #[trigger] rest[j],
        ) by {
            assert(ordered::precedes(known[i], known[j]));
        }
        lemma_subfolders(rest, folder);
        let before = subfolders(rest, folder);
        let now = subfolders(known, folder);
        assert(known =~= rest.push(known.last()));
        assert forall|i: int, j: int| 0 <= i < j < now.len() implies ordered::precedes(
            #[trigger] now[i],
            #[trigger] now[j],
        ) by {
            assert(now[i] == before[i]);
            if j < before.len() {
                assert(now[j] == before[j]);
                assert(ordered::precedes(before[i], before[j]));
            } else {
                assert(before.contains(before[i]));
                let k = choose|k: int| 0 <= k < rest.len() && rest[k] == before[i];
                assert(ordered::precedes(known[k], known[known.len() - 1]));
            }
        }
        assert forall|path: Seq<char>| #[trigger] now.contains(path) <==> known.contains(path)
            && is_child(path, folder) by {
            broadcast use vstd::seq_lib::group_seq_properties;

            assert(known.contains(path) == (rest.contains(path) || path == known.last()));
            if is_child(known.last(), folder) {
                assert(now == before.push(known.last()));
                assert(now.contains(path) == (before.contains(path) || path == known.last()));
            }
        }
    }
}

/// Folders are alphabetical whatever the notes are sorted by, and a folder
/// holds exactly those that are right inside it.
pub proof fn lemma_folders_are_alphabetical(
    notes: Seq<ListedView>,
    folders: Seq<Seq<char>>,
    folder: Seq<char>,
)
    requires
        known(notes, folders).finite(),
    ensures
        ({
            let inside = subfolders(ordered::ascending(known(notes, folders)), folder);
            &&& ordered::is_ascending(inside)
            &&& forall|path: Seq<char>| #[trigger]
                inside.contains(path) <==> known(notes, folders).contains(path) && is_child(
                    path,
                    folder,
                )
        }),
{
    let all = ordered::ascending(known(notes, folders));
    ordered::lemma_ascending(known(notes, folders));
    lemma_subfolders(all, folder);
    assert forall|path: Seq<char>| all.contains(path) == known(notes, folders).contains(path) by {
        assert(all.to_set().contains(path) == known(notes, folders).contains(path));
    }
}

/// A note whose time is unknown does not claim to be the newest.
pub proof fn lemma_an_unknown_time_is_never_the_newest(
    unknown: ListedView,
    dated: ListedView,
    sort: Sort,
)
    requires
        time_of(unknown, sort) == 0,
        time_of(dated, sort) > 0,
    ensures
        Placed::before(placed_note(dated, sort), placed_note(unknown, sort)),
        !Placed::before(placed_note(unknown, sort), placed_note(dated, sort)),
{
}

proof fn lemma_places_are_an_order()
    ensures
        ranked::is_order::<Placed>(),
{
    assert forall|a: PlacedView| !#[trigger] Placed::before(a, a) by {
        ordered::lemma_precedes_irreflexive(a.id);
    }
    assert forall|a: PlacedView, b: PlacedView, c: PlacedView|
        #![trigger Placed::before(a, b), Placed::before(b, c)]
        Placed::before(a, b) && Placed::before(b, c) implies Placed::before(a, c) by {
        ordered::lemma_precedes_irreflexive(a.name);
        if ordered::precedes(a.name, b.name) && ordered::precedes(b.name, c.name) {
            ordered::lemma_precedes_transitive(a.name, b.name, c.name);
        }
        if ordered::precedes(b.name, a.name) && ordered::precedes(a.name, b.name) {
            ordered::lemma_precedes_transitive(a.name, b.name, a.name);
        }
        if ordered::precedes(a.id, b.id) && ordered::precedes(b.id, c.id) {
            ordered::lemma_precedes_transitive(a.id, b.id, c.id);
        }
    }
    assert forall|a: PlacedView, b: PlacedView, c: PlacedView|
        #![trigger Placed::before(a, b), Placed::before(b, c)]
        !Placed::before(a, b) && !Placed::before(b, c) implies !Placed::before(a, c) by {
        if a.time == b.time && b.time == c.time {
            ordered::lemma_precedes_total(a.name, b.name);
            ordered::lemma_precedes_total(b.name, c.name);
            if !ordered::precedes(a.name, b.name) && !ordered::precedes(b.name, c.name) {
                ordered::lemma_not_precedes_transitive(a.name, b.name, c.name);
            }
            if !ordered::precedes(a.id, b.id) && !ordered::precedes(b.id, c.id) {
                ordered::lemma_not_precedes_transitive(a.id, b.id, c.id);
            }
            if a.name == c.name && a.name != b.name {
                ordered::lemma_precedes_transitive(b.name, a.name, b.name);
                ordered::lemma_precedes_irreflexive(b.name);
            }
        }
    }
}

/// The notes of a folder never reshuffle: as long as no note is listed twice,
/// the order they are shown in does not depend on the order they came in.
pub proof fn lemma_the_notes_of_a_folder_never_reshuffle(a: Seq<PlacedView>, b: Seq<PlacedView>)
    requires
        a.to_multiset() == b.to_multiset(),
        forall|i: int, j: int|
            0 <= i < j < a.len() ==> (#[trigger] a[i]).id != (#[trigger] a[j]).id,
    ensures
        ranked::ranked::<Placed>(a) == ranked::ranked::<Placed>(b),
        ranked::in_order::<Placed>(ranked::ranked::<Placed>(a)),
{
    let leq = |x: PlacedView, y: PlacedView|
        Placed::before(x, y) || (!Placed::before(y, x) && !ordered::precedes(
            y.excerpt,
            x.excerpt,
        ));
    lemma_places_are_an_order();
    ranked::lemma_ranked_multiset::<Placed>(a);
    ranked::lemma_ranked_multiset::<Placed>(b);
    ranked::lemma_ranked_in_order::<Placed>(a);
    ranked::lemma_ranked_in_order::<Placed>(b);
    assert(vstd::relations::total_ordering(leq)) by {
        assert forall|x: PlacedView| #[trigger] leq(x, x) by {
            ordered::lemma_precedes_irreflexive(x.excerpt);
        }
        assert forall|x: PlacedView, y: PlacedView, z: PlacedView|
            #![trigger leq(x, y), leq(y, z)]
            leq(x, y) && leq(y, z) implies leq(x, z) by {
            lemma_ties(x, y);
            lemma_ties(y, z);
            lemma_ties(x, z);
            if !Placed::before(x, y) && !Placed::before(y, z) {
                ordered::lemma_not_precedes_transitive(z.excerpt, y.excerpt, x.excerpt);
            }
        }
        assert forall|x: PlacedView, y: PlacedView|
            #![trigger leq(x, y), leq(y, x)]
            leq(x, y) && leq(y, x) implies x == y by {
            lemma_ties(x, y);
            ordered::lemma_precedes_total(x.excerpt, y.excerpt);
            if Placed::before(x, y) && Placed::before(y, x) {
                assert(Placed::before(x, x));
            }
        }
        assert forall|x: PlacedView, y: PlacedView|
            #![trigger leq(x, y), leq(y, x)]
            leq(x, y) || leq(y, x) by {
            if ordered::precedes(x.excerpt, y.excerpt) && ordered::precedes(y.excerpt, x.excerpt) {
                ordered::lemma_precedes_transitive(x.excerpt, y.excerpt, x.excerpt);
                ordered::lemma_precedes_irreflexive(x.excerpt);
            }
        }
    }
    lemma_distinct_by_multiset(a, ranked::ranked::<Placed>(a));
    lemma_distinct_by_multiset(a, ranked::ranked::<Placed>(b));
    assert forall|s: Seq<PlacedView>|
        #![trigger vstd::relations::sorted_by(s, leq)]
        ranked::in_order::<Placed>(s) && (forall|i: int, j: int|
            0 <= i < j < s.len() ==> (#[trigger] s[i]).id != (
            #[trigger] s[j]).id) implies vstd::relations::sorted_by(s, leq) by {
        assert forall|i: int, j: int| 0 <= i < j < s.len() implies #[trigger] leq(s[i], s[j]) by {
            lemma_ties(s[i], s[j]);
        }
    }
    assert(vstd::relations::sorted_by(ranked::ranked::<Placed>(a), leq));
    assert(vstd::relations::sorted_by(ranked::ranked::<Placed>(b), leq));
    vstd::seq_lib::lemma_sorted_unique(
        ranked::ranked::<Placed>(a),
        ranked::ranked::<Placed>(b),
        leq,
    );
}

proof fn lemma_ties(x: PlacedView, y: PlacedView)
    ensures
        !Placed::before(x, y) && !Placed::before(y, x) ==> x.time == y.time && x.name == y.name
            && x.id == y.id,
{
    ordered::lemma_precedes_total(x.name, y.name);
    ordered::lemma_precedes_total(x.id, y.id);
}

proof fn lemma_distinct_by_multiset(a: Seq<PlacedView>, b: Seq<PlacedView>)
    requires
        a.to_multiset() == b.to_multiset(),
        forall|i: int, j: int|
            0 <= i < j < a.len() ==> (#[trigger] a[i]).id != (#[trigger] a[j]).id,
    ensures
        forall|i: int, j: int|
            0 <= i < j < b.len() ==> (#[trigger] b[i]).id != (#[trigger] b[j]).id,
{
    broadcast use vstd::seq_lib::group_to_multiset_ensures;

    assert(a.no_duplicates());
    a.lemma_multiset_has_no_duplicates();
    assert(b.no_duplicates()) by {
        b.lemma_multiset_has_no_duplicates_conv();
    }
    assert forall|i: int, j: int| 0 <= i < j < b.len() implies (#[trigger] b[i]).id != (
    #[trigger] b[j]).id by {
        assert(b.to_multiset().contains(b[i]) && b.to_multiset().contains(b[j]));
        assert(a.contains(b[i]) && a.contains(b[j]));
        let k = choose|k: int| 0 <= k < a.len() && a[k] == b[i];
        let l = choose|l: int| 0 <= l < a.len() && a[l] == b[j];
        assert(b[i] != b[j]);
        assert(k != l);
        if k < l {
            assert(a[k].id != a[l].id);
        } else {
            assert(a[l].id != a[k].id);
        }
    }
}

/// Whether a list of folders is one that holds the ancestors of whatever it
/// holds, each folder once.
pub open spec fn is_tree(known: Seq<Seq<char>>) -> bool {
    ordered::is_ascending(known) && forall|path: Seq<char>| #[trigger]
        known.contains(path) ==> path.len() > 0 && (home(path).len() == 0 || known.contains(
            home(path),
        ))
}

/// The folders that a sidebar is drawn from are a tree.
pub proof fn lemma_a_tree_is_one(
    notes: Seq<ListedView>,
    folders: Seq<Seq<char>>,
    expanded: Set<Seq<char>>,
    sort: Sort,
)
    requires
        known(notes, folders).finite(),
    ensures
        is_tree(tree(notes, folders, expanded, sort).known),
{
    let set = known(notes, folders);
    let all = ordered::ascending(set);
    ordered::lemma_ascending(set);
    assert forall|path: Seq<char>| #[trigger] all.contains(path) implies path.len() > 0 && (home(
        path,
    ).len() == 0 || all.contains(home(path))) by {
        assert(all.to_set().contains(path));
        lemma_ancestors_are_in_the_tree(notes, folders, path);
        if home(path).len() > 0 {
            assert(all.to_set().contains(home(path)));
        }
    }
}

/// The folder right inside `path` that `folder`, somewhere beneath it, is in.
proof fn lemma_on_the_way(known: Seq<Seq<char>>, path: Seq<char>, folder: Seq<char>) -> (child: Seq<
    char,
>)
    requires
        is_tree(known),
        path.len() > 0,
        known.contains(folder),
        within(path, folder),
        folder != path,
    ensures
        known.contains(child),
        is_child(child, path),
        within(child, folder),
    decreases folder.len(),
{
    text::lemma_find_last(folder, '/');
    assert(folder[path.len() as int] == '/') by {
        assert(path.push('/')[path.len() as int] == folder[path.len() as int]);
    }
    let at = text::find_last(folder, '/')->0;
    assert(path =~= folder.take(path.len() as int)) by {
        assert(path.push('/') == folder.take((path.len() + 1) as int));
        assert forall|i: int| 0 <= i < path.len() implies path[i] == folder[i] by {
            assert(path.push('/')[i] == folder.take((path.len() + 1) as int)[i]);
        }
    }
    if at == path.len() {
        folder
    } else {
        let parent = home(folder);
        assert(parent == folder.take(at));
        assert(path.push('/') =~= parent.take((path.len() + 1) as int)) by {
            assert(path.push('/') =~= folder.take((path.len() + 1) as int));
        }
        assert(path.push('/').is_prefix_of(parent));
        let child = lemma_on_the_way(known, path, parent);
        assert(within(child, folder)) by {
            if child == parent {
                assert(child.push('/') =~= folder.take(at + 1));
            } else {
                assert(child.push('/') =~= folder.take((child.len() + 1) as int)) by {
                    assert(child.push('/') == parent.take((child.len() + 1) as int));
                    assert(parent.take((child.len() + 1) as int) =~= folder.take((child.len() + 1) as int));
                }
            }
        }
        child
    }
}

proof fn lemma_one_way(path: Seq<char>, a: Seq<char>, b: Seq<char>, folder: Seq<char>)
    requires
        path.len() > 0,
        is_child(a, path),
        is_child(b, path),
        within(a, folder),
        within(b, folder),
    ensures
        a == b,
    decreases a.len(),
{
    if a.len() > b.len() {
        lemma_one_way(path, b, a, folder);
    } else {
        text::lemma_find_last(a, '/');
        text::lemma_find_last(b, '/');
        lemma_prefix(a, folder);
        lemma_prefix(b, folder);
        if a.len() < b.len() {
            assert(a != folder);
            assert(folder[a.len() as int] == '/') by {
                assert(a.push('/') == folder.take((a.len() + 1) as int));
                assert(a.push('/')[a.len() as int] == folder.take((a.len() + 1) as int)[a.len() as int]);
            }
            assert(b[a.len() as int] == folder.take(b.len() as int)[a.len() as int]);
        }
    }
}

proof fn lemma_prefix(folder: Seq<char>, into: Seq<char>)
    requires
        within(folder, into),
    ensures
        folder.len() <= into.len(),
        folder == into.take(folder.len() as int),
{
    if folder == into {
        assert(folder =~= into.take(folder.len() as int));
    } else {
        assert(folder.push('/') == into.take((folder.len() + 1) as int));
        assert(folder =~= into.take(folder.len() as int)) by {
            assert forall|i: int| 0 <= i < folder.len() implies folder[i] == into[i] by {
                assert(folder.push('/')[i] == into.take((folder.len() + 1) as int)[i]);
            }
        }
    }
}

proof fn lemma_inside(path: Seq<char>, child: Seq<char>, folder: Seq<char>)
    requires
        path.len() > 0,
        is_child(child, path),
        within(child, folder),
    ensures
        within(path, folder),
        folder != path,
{
    text::lemma_find_last(child, '/');
    lemma_prefix(child, folder);
    let at = path.len() as int;
    assert(child.take(at) =~= path);
    assert(path.push('/') =~= folder.take(at + 1)) by {
        assert(child == folder.take(child.len() as int));
        assert forall|i: int| 0 <= i < at + 1 implies path.push('/')[i] == folder[i] by {
            assert(child[i] == folder.take(child.len() as int)[i]);
            if i < at {
                assert(child.take(at)[i] == child[i]);
            }
        }
    }
}

/// How many notes are right inside a folder.
pub open spec fn own(notes: Seq<ListedView>, path: Seq<char>) -> nat
    decreases notes.len(),
{
    if notes.len() == 0 {
        0
    } else {
        own(notes.drop_last(), path) + if home(notes.last().id) == path {
            1nat
        } else {
            0
        }
    }
}

/// How many notes are in any of some folders or beneath one.
pub open spec fn total(known: Seq<Seq<char>>, notes: Seq<ListedView>, paths: Seq<Seq<char>>) -> nat
    decreases paths.len(),
{
    if paths.len() == 0 {
        0
    } else {
        total(known, notes, paths.drop_last()) + count(known, notes, paths.last())
    }
}

proof fn lemma_total_step(known: Seq<Seq<char>>, notes: Seq<ListedView>, paths: Seq<Seq<char>>, path: Seq<char>)
    requires
        notes.len() > 0,
        path.len() > 0,
        ordered::is_ascending(paths),
        forall|i: int| 0 <= i < paths.len() ==> is_child(#[trigger] paths[i], path),
    ensures
        ({
            let folder = home(notes.last().id);
            let inside = exists|i: int| 0 <= i < paths.len() && within(#[trigger] paths[i], folder);
            total(known, notes, paths) == total(known, notes.drop_last(), paths) + if inside
                && known.contains(folder) {
                1nat
            } else {
                0
            }
        }),
    decreases paths.len(),
{
    if paths.len() > 0 {
        let rest = paths.drop_last();
        let folder = home(notes.last().id);
        assert forall|i: int, j: int| 0 <= i < j < rest.len() implies ordered::precedes(
            #[trigger] rest[i],
            #[trigger] rest[j],
        ) by {
            assert(ordered::precedes(paths[i], paths[j]));
        }
        assert forall|i: int| 0 <= i < rest.len() implies is_child(#[trigger] rest[i], path) by {
            assert(is_child(paths[i], path));
        }
        lemma_total_step(known, notes, rest, path);
        assert(paths[paths.len() - 1] == paths.last());
        if exists|i: int| 0 <= i < rest.len() && within(#[trigger] rest[i], folder) {
            let i = choose|i: int| 0 <= i < rest.len() && within(#[trigger] rest[i], folder);
            assert(paths[i] == rest[i]);
            assert(ordered::precedes(paths[i], paths[paths.len() - 1]));
            if within(paths.last(), folder) {
                lemma_one_way(path, paths[i], paths.last(), folder);
                ordered::lemma_precedes_irreflexive(paths[i]);
            }
        } else {
            assert forall|i: int| 0 <= i < paths.len() - 1 implies !within(
                #[trigger] paths[i],
                folder,
            ) by {
                assert(rest[i] == paths[i]);
            }
        }
    }
}

proof fn lemma_total_empty(known: Seq<Seq<char>>, paths: Seq<Seq<char>>)
    ensures
        total(known, seq![], paths) == 0,
    decreases paths.len(),
{
    if paths.len() > 0 {
        lemma_total_empty(known, paths.drop_last());
    }
}

/// A folder counts every note beneath it, not only its own: its count is that
/// of the notes right inside it and of the folders right inside it together.
pub proof fn lemma_a_folder_counts_every_note_beneath_it(
    known: Seq<Seq<char>>,
    notes: Seq<ListedView>,
    path: Seq<char>,
)
    requires
        is_tree(known),
        known.contains(path),
    ensures
        count(known, notes, path) == own(notes, path) + total(
            known,
            notes,
            subfolders(known, path),
        ),
    decreases notes.len(),
{
    let inside = subfolders(known, path);
    if notes.len() == 0 {
        assert(notes =~= seq![]);
        lemma_total_empty(known, inside);
    } else {
        lemma_a_folder_counts_every_note_beneath_it(known, notes.drop_last(), path);
        lemma_subfolders(known, path);
        assert forall|i: int| 0 <= i < inside.len() implies is_child(#[trigger] inside[i], path) by {
            assert(inside.contains(inside[i]));
        }
        lemma_total_step(known, notes, inside, path);
        let folder = home(notes.last().id);
        if exists|i: int| 0 <= i < inside.len() && within(#[trigger] inside[i], folder) {
            let i = choose|i: int| 0 <= i < inside.len() && within(#[trigger] inside[i], folder);
            lemma_inside(path, inside[i], folder);
        } else if known.contains(folder) && within(path, folder) && folder != path {
            let child = lemma_on_the_way(known, path, folder);
            assert(inside.contains(child));
            let i = choose|i: int| 0 <= i < inside.len() && inside[i] == child;
            assert(within(inside[i], folder));
        }
    }
}

/// Whether a folder and every folder it is in are open.
pub open spec fn is_open(tree: Tree, folder: Seq<char>) -> bool
    decreases folder.len(),
{
    folder.len() == 0 || {
        proof {
            text::lemma_find_last(folder, '/');
        }
        tree.known.contains(folder) && tree.expanded.contains(folder) && is_open(tree, home(folder))
    }
}

/// How deep in the tree a folder is.
pub open spec fn level(folder: Seq<char>) -> nat
    decreases folder.len(),
{
    if folder.len() == 0 {
        0
    } else {
        proof {
            text::lemma_find_last(folder, '/');
        }
        level(home(folder)) + 1
    }
}

/// Whether some rows show a note at a depth.
pub open spec fn shows(rows: Seq<RowView>, id: Seq<char>, depth: nat) -> bool {
    exists|k: int|
        #![trigger rows[k]]
        0 <= k < rows.len() && (rows[k] matches RowView::Note { id: shown, excerpt: _, depth: at }
            && shown == id && at == depth)
}

proof fn lemma_contents(notes: Seq<ListedView>, folder: Seq<char>, sort: Sort)
    ensures
        forall|i: int|
            0 <= i < notes.len() && home((#[trigger] notes[i]).id) == folder ==> contents(
                notes,
                folder,
                sort,
            ).contains(placed_note(notes[i], sort)),
        forall|k: int|
            0 <= k < contents(notes, folder, sort).len() ==> home(
                (#[trigger] contents(notes, folder, sort)[k]).id,
            ) == folder,
    decreases notes.len(),
{
    broadcast use vstd::seq_lib::group_seq_properties;

    if notes.len() > 0 {
        let rest = notes.drop_last();
        lemma_contents(rest, folder, sort);
        assert forall|i: int|
            0 <= i < notes.len() && home((#[trigger] notes[i]).id) == folder implies contents(
            notes,
            folder,
            sort,
        ).contains(placed_note(notes[i], sort)) by {
            if i < rest.len() {
                assert(rest[i] == notes[i]);
            }
        }
        let before = contents(rest, folder, sort);
        let now = contents(notes, folder, sort);
        assert forall|k: int| 0 <= k < now.len() implies home((#[trigger] now[k]).id)
            == folder by {
            if k < before.len() {
                assert(now[k] == before[k]);
            }
        }
    }
}

proof fn lemma_shown_are_open(tree: Tree, folder: Seq<char>, k: int)
    requires
        is_open(tree, folder),
        0 <= k < branch(tree, folder, level(folder)).len(),
    ensures
        branch(tree, folder, level(folder))[k] matches RowView::Note { id, excerpt: _, depth }
            ==> is_open(tree, home(id)) && depth == level(home(id)),
    decreases room(tree.known, folder), subfolders(tree.known, folder).len() + 1,
{
    let n = subfolders(tree.known, folder).len() as int;
    let folders = folder_rows(tree, folder, n, level(folder));
    if k < folders.len() {
        lemma_shown_in_folders(tree, folder, n, k);
    } else {
        let here = contents(tree.notes, folder, tree.sort);
        let order = ranked::ranked::<Placed>(here);
        let at = k - folders.len();
        lemma_contents(tree.notes, folder, tree.sort);
        ranked::lemma_ranked_contains::<Placed>(here, order[at]);
        assert(order.contains(order[at]));
        let j = choose|j: int| 0 <= j < here.len() && here[j] == order[at];
        assert(home(here[j].id) == folder);
    }
}

proof fn lemma_shown_in_folders(tree: Tree, folder: Seq<char>, n: int, k: int)
    requires
        is_open(tree, folder),
        0 <= k < folder_rows(tree, folder, n, level(folder)).len(),
    ensures
        folder_rows(tree, folder, n, level(folder))[k] matches RowView::Note {
            id,
            excerpt: _,
            depth,
        } ==> is_open(tree, home(id)) && depth == level(home(id)),
    decreases room(tree.known, folder), n,
{
    let inside = subfolders(tree.known, folder);
    let before = folder_rows(tree, folder, n - 1, level(folder));
    lemma_deeper(tree.known, folder, n - 1);
    let path = inside[n - 1];
    if k < before.len() {
        lemma_shown_in_folders(tree, folder, n - 1, k);
    } else if k > before.len() {
        assert(level(path) == level(folder) + 1);
        assert(is_open(tree, path));
        lemma_shown_are_open(tree, path, k - before.len() - 1);
    }
}

proof fn lemma_folder_rows_hold(tree: Tree, folder: Seq<char>, n: int, m: int, k: int)
    requires
        0 <= n <= m <= subfolders(tree.known, folder).len(),
        0 <= k < folder_rows(tree, folder, n, level(folder)).len(),
    ensures
        k < folder_rows(tree, folder, m, level(folder)).len(),
        folder_rows(tree, folder, m, level(folder))[k] == folder_rows(
            tree,
            folder,
            n,
            level(folder),
        )[k],
    decreases m - n,
{
    if n < m {
        lemma_folder_rows_hold(tree, folder, n, m - 1, k);
    }
}

proof fn lemma_open_are_shown(tree: Tree, folder: Seq<char>, id: Seq<char>, depth: nat)
    requires
        ordered::is_ascending(tree.known),
        is_open(tree, folder),
        shows(branch(tree, folder, level(folder)), id, depth),
    ensures
        shows(branch(tree, seq![], 0), id, depth),
    decreases folder.len(),
{
    if folder.len() > 0 {
        text::lemma_find_last(folder, '/');
        let parent = home(folder);
        let inside = subfolders(tree.known, parent);
        lemma_subfolders(tree.known, parent);
        assert(inside.contains(folder));
        let at = choose|at: int| 0 <= at < inside.len() && inside[at] == folder;
        let upper = folder_rows(tree, parent, at + 1, level(parent));
        let before = folder_rows(tree, parent, at, level(parent));
        let own = branch(tree, folder, level(folder));
        assert(upper == before.push(folder_row(tree, folder, level(parent))) + own);
        let k = choose|k: int|
            #![trigger own[k]]
            0 <= k < own.len() && (own[k] matches RowView::Note { id: shown, excerpt: _, depth: to }
                && shown == id && to == depth);
        let there: int = before.len() + 1 + k;
        assert(upper[there] == own[k]);
        lemma_folder_rows_hold(tree, parent, at + 1, inside.len() as int, there);
        assert(branch(tree, parent, level(parent))[there] == own[k]);
        assert(shows(branch(tree, parent, level(parent)), id, depth));
        lemma_open_are_shown(tree, parent, id, depth);
    } else {
        assert(folder =~= seq![]);
    }
}

/// A closed folder hides its notes and an open one shows them: a note is on a
/// row exactly when its folder and every folder that is in are open, and then
/// it is drawn as deep as it lies.
pub proof fn lemma_a_note_is_shown_when_all_on_its_way_is_open(tree: Tree, i: int)
    requires
        is_tree(tree.known),
        0 <= i < tree.notes.len(),
    ensures
        ({
            let id = tree.notes[i].id;
            let rows = branch(tree, seq![], 0);
            &&& is_open(tree, home(id)) == shows(rows, id, level(home(id)))
            &&& forall|depth: nat| #[trigger]
                shows(rows, id, depth) ==> is_open(tree, home(id)) && depth == level(home(id))
        }),
{
    let id = tree.notes[i].id;
    let rows = branch(tree, seq![], 0);
    let folder = home(id);
    if is_open(tree, folder) {
        let here = contents(tree.notes, folder, tree.sort);
        let order = ranked::ranked::<Placed>(here);
        let placed = placed_note(tree.notes[i], tree.sort);
        lemma_contents(tree.notes, folder, tree.sort);
        ranked::lemma_ranked_contains::<Placed>(here, placed);
        let k = choose|k: int| 0 <= k < order.len() && order[k] == placed;
        let n = subfolders(tree.known, folder).len() as int;
        let folders = folder_rows(tree, folder, n, level(folder));
        let own = branch(tree, folder, level(folder));
        assert(own[folders.len() + k] == note_rows(order, level(folder))[k]);
        assert(shows(own, id, level(folder)));
        lemma_open_are_shown(tree, folder, id, level(folder));
    }
    assert forall|depth: nat| #[trigger] shows(rows, id, depth) implies is_open(tree, folder)
        && depth == level(folder) by {
        let k = choose|k: int|
            #![trigger rows[k]]
            0 <= k < rows.len() && (rows[k] matches RowView::Note { id: shown, excerpt: _, depth: at }
                && shown == id && at == depth);
        let root = Seq::<char>::empty();
        assert(level(root) == 0);
        lemma_shown_are_open(tree, root, k);
    }
}

// ---- what a sidebar shows where ----

/// The folders on the way to a path are what is before each of its slashes, and
/// the path itself.
pub proof fn lemma_the_way_to_a_path(names: Seq<Seq<char>>)
    requires
        names.len() > 0,
        forall|i: int|
            0 <= i < names.len() ==> (#[trigger] names[i]).len() > 0 && !names[i].contains('/'),
    ensures
        ({
            let way = ancestors(text::join(names, seq!['/']));
            way.len() == names.len() && forall|i: int|
                0 <= i < names.len() ==> #[trigger] way[i] == text::join(
                    names.take(i + 1),
                    seq!['/'],
                )
        }),
{
    text::lemma_split_join(names, '/');
    lemma_trail_of(names);
}

proof fn lemma_trail_of(names: Seq<Seq<char>>)
    requires
        forall|i: int| 0 <= i < names.len() ==> (#[trigger] names[i]).len() > 0,
    ensures
        trail(names).len() == names.len(),
        forall|i: int|
            0 <= i < names.len() ==> #[trigger] trail(names)[i] == text::join(
                names.take(i + 1),
                seq!['/'],
            ),
    decreases names.len(),
{
    if names.len() > 0 {
        let rest = names.drop_last();
        let n = rest.len() as int;
        assert(names[n].len() > 0);
        assert forall|i: int| 0 <= i < rest.len() implies (#[trigger] rest[i]).len() > 0 by {
            assert(rest[i] == names[i]);
        }
        lemma_trail_of(rest);
        assert(names.take(n + 1) =~= names);
        assert forall|i: int| 0 <= i < names.len() implies #[trigger] trail(names)[i] == text::join(
            names.take(i + 1),
            seq!['/'],
        ) by {
            if i < n {
                assert(trail(names)[i] == trail(rest)[i]);
                assert(rest.take(i + 1) =~= names.take(i + 1));
            } else if n > 0 {
                assert(rest.take(n) =~= rest);
                assert(trail(rest).last() == trail(rest)[n - 1]);
            } else {
                assert(names.drop_last() =~= Seq::<Seq<char>>::empty());
            }
        }
    }
}

/// Empty parts of a path are no folders.
pub proof fn lemma_empty_parts_are_no_folders(parts: Seq<Seq<char>>)
    ensures
        trail(parts.push(seq![])) == trail(parts),
{
    assert(parts.push(seq![]).drop_last() =~= parts);
}

/// Something is within a folder if it is that folder or goes on behind it with
/// a slash; a name that merely begins the same is not.
pub proof fn lemma_what_is_within_a_folder(folder: Seq<char>, into: Seq<char>)
    ensures
        within(folder, into) == (into == folder || (into.len() > folder.len() && into.take(
            folder.len() as int,
        ) == folder && into[folder.len() as int] == '/')),
{
    let n = folder.len() as int;
    if folder.push('/').is_prefix_of(into) {
        assert(into.take(n + 1) =~= folder.push('/'));
        assert(into.take(n) =~= into.take(n + 1).take(n));
        assert(folder.push('/').take(n) =~= folder);
        assert(into[n] == into.take(n + 1)[n]);
    }
    if into.len() > n && into.take(n) == folder && into[n] == '/' {
        assert forall|k: int| 0 <= k < n + 1 implies folder.push('/')[k] == into[k] by {
            if k < n {
                assert(into.take(n)[k] == into[k]);
            }
        }
        assert(folder.push('/') =~= into.subrange(0, n + 1));
    }
}

/// What is right inside a folder is the folder's path, a slash and a name; what
/// is right inside the root is a name.
pub proof fn lemma_what_is_right_inside_a_folder(folder: Seq<char>, name: Seq<char>)
    requires
        name.len() > 0,
        !name.contains('/'),
    ensures
        is_child(folder + seq!['/'] + name, folder),
        is_child(name, seq![]),
        home(folder + seq!['/'] + name) == folder,
        home(name) == Seq::<char>::empty(),
{
    paths::lemma_the_last_slash_parts_a_path(folder, name);
}

/// A folder counts the notes that are within it, wherever in it they are.
pub proof fn lemma_a_folder_counts_what_is_within_it(
    known: Seq<Seq<char>>,
    notes: Seq<ListedView>,
    note: ListedView,
    path: Seq<char>,
)
    requires
        known.contains(home(note.id)),
    ensures
        ({
            let folder = home(note.id);
            count(known, notes.push(note), path) == count(known, notes, path) + if folder == path
                || (folder.len() > path.len() && folder.take(path.len() as int) == path
                && folder[path.len() as int] == '/') {
                1int
            } else {
                0int
            }
        }),
        count(known, seq![], path) == 0,
{
    assert(notes.push(note).drop_last() =~= notes);
    lemma_what_is_within_a_folder(path, home(note.id));
}

/// The notes of a folder are those that are right inside it, in the order of
/// their times, the latest first, if they are sorted by time; else, and among
/// those of one time, in the order of their titles whatever the case, and then
/// of their ids.
pub proof fn lemma_what_notes_are_sorted_by(
    notes: Seq<ListedView>,
    folder: Seq<char>,
    sort: Sort,
    i: int,
    j: int,
)
    requires
        0 <= i < j < ranked::ranked::<Placed>(contents(notes, folder, sort)).len(),
    ensures
        ({
            let r = ranked::ranked::<Placed>(contents(notes, folder, sort));
            let (a, b) = (r[i], r[j]);
            &&& exists|k: int|
                0 <= k < notes.len() && home((#[trigger] notes[k]).id) == folder && a.id
                    == notes[k].id && a.excerpt == notes[k].excerpt && a.name == text::lowercase(
                    note::title(notes[k].id),
                ) && a.time == (match sort {
                    Sort::Name => 0,
                    Sort::Modified => notes[k].modified,
                    Sort::Created => notes[k].created,
                })
            &&& a.time > b.time || (a.time == b.time && (ordered::precedes(a.name, b.name) || (
            a.name == b.name && (ordered::precedes(a.id, b.id) || a.id == b.id))))
        }),
{
    let s = contents(notes, folder, sort);
    let r = ranked::ranked::<Placed>(s);
    lemma_places_are_an_order();
    ranked::lemma_ranked_in_order::<Placed>(s);
    assert(!Placed::before(r[j], r[i]));
    ordered::lemma_precedes_total(r[i].name, r[j].name);
    ordered::lemma_precedes_total(r[i].id, r[j].id);
    ranked::lemma_ranked_contains::<Placed>(s, r[i]);
    assert(r.contains(r[i]));
    lemma_contents_of(notes, folder, sort, r[i]);
}

proof fn lemma_contents_of(
    notes: Seq<ListedView>,
    folder: Seq<char>,
    sort: Sort,
    placed: PlacedView,
)
    requires
        contents(notes, folder, sort).contains(placed),
    ensures
        exists|k: int|
            0 <= k < notes.len() && home((#[trigger] notes[k]).id) == folder && placed
                == placed_note(notes[k], sort),
    decreases notes.len(),
{
    let rest = notes.drop_last();
    let s = contents(notes, folder, sort);
    let before = contents(rest, folder, sort);
    let k = choose|k: int| 0 <= k < s.len() && s[k] == placed;
    assert(notes[notes.len() - 1] == notes.last());
    if k < before.len() {
        assert(before[k] == placed);
        assert(before.contains(placed));
        lemma_contents_of(rest, folder, sort, placed);
        let m = choose|m: int|
            0 <= m < rest.len() && home((#[trigger] rest[m]).id) == folder && placed
                == placed_note(rest[m], sort);
        assert(notes[m] == rest[m]);
    } else {
        assert(home(notes[notes.len() - 1].id) == folder);
    }
}

/// Every note is among the notes of the folder it is right inside.
pub proof fn lemma_every_note_is_in_its_folder(
    notes: Seq<ListedView>,
    note: ListedView,
    folder: Seq<char>,
    sort: Sort,
)
    ensures
        contents(notes.push(note), folder, sort).len() == contents(notes, folder, sort).len() + if home(
            note.id,
        ) == folder {
            1int
        } else {
            0int
        },
        home(note.id) == folder ==> contents(notes.push(note), folder, sort).last().id == note.id,
        contents(seq![], folder, sort).len() == 0,
{
    assert(notes.push(note).drop_last() =~= notes);
}

/// A folder's rows are its folders and then its notes. Each folder has a row
/// with its name, how many notes are within it and whether it is open, and if
/// it is, what is in it one deeper; a closed folder shows nothing of it.
pub proof fn lemma_a_row_for_each_folder_and_note(
    tree: Tree,
    folder: Seq<char>,
    n: int,
    depth: nat,
)
    requires
        0 < n <= subfolders(tree.known, folder).len(),
    ensures
        ({
            let inside = subfolders(tree.known, folder);
            let path = inside[n - 1];
            let row = RowView::Folder {
                path,
                name: paths::file_name(path),
                depth,
                notes: count(tree.known, tree.notes, path),
                expanded: tree.expanded.contains(path),
            };
            &&& folder_rows(tree, folder, n, depth) == folder_rows(tree, folder, n - 1, depth)
                + seq![row] + (if tree.expanded.contains(path) {
                branch(tree, path, depth + 1)
            } else {
                seq![]
            })
            &&& folder_rows(tree, folder, 0, depth) == Seq::<RowView>::empty()
        }),
{
    let inside = subfolders(tree.known, folder);
    let path = inside[n - 1];
    let before = folder_rows(tree, folder, n - 1, depth);
    lemma_deeper(tree.known, folder, n - 1);
    let row = folder_row(tree, path, depth);
    assert(before.push(row) =~= before + seq![row]);
    assert(folder_rows(tree, folder, n, depth) =~= before + seq![row] + (
    if tree.expanded.contains(path) {
        branch(tree, path, depth + 1)
    } else {
        seq![]
    }));
}

/// The notes of a folder come behind its folders, each with its excerpt.
pub proof fn lemma_notes_come_behind_folders(tree: Tree, folder: Seq<char>, depth: nat, i: int)
    requires
        0 <= i < contents(tree.notes, folder, tree.sort).len(),
    ensures
        ({
            let sorted = ranked::ranked::<Placed>(contents(tree.notes, folder, tree.sort));
            let first = folder_rows(
                tree,
                folder,
                subfolders(tree.known, folder).len() as int,
                depth,
            );
            let rows = branch(tree, folder, depth);
            &&& rows.len() == first.len() + sorted.len()
            &&& sorted.len() == contents(tree.notes, folder, tree.sort).len()
            &&& rows.take(first.len() as int) == first
            &&& rows[first.len() + i] == (RowView::Note {
                id: sorted[i].id,
                excerpt: sorted[i].excerpt,
                depth,
            })
        }),
{
    let s = contents(tree.notes, folder, tree.sort);
    ranked::lemma_ranked_multiset::<Placed>(s);
    let first = folder_rows(tree, folder, subfolders(tree.known, folder).len() as int, depth);
    assert(branch(tree, folder, depth).take(first.len() as int) =~= first);
}

/// A sort that nobody has heard of is by name.
pub proof fn lemma_an_unknown_sort_is_by_name(name: Seq<char>)
    requires
        name != "modified"@,
        name != "created"@,
    ensures
        sort_called(name) == Sort::Name,
        sort_called("modified"@) == Sort::Modified,
        sort_called("created"@) == Sort::Created,
{
    reveal_strlit("modified");
    reveal_strlit("created");
    assert("modified"@.len() != "created"@.len());
}

} // verus!
