//! The notebook: everything done to a vault, with nothing that draws and
//! nothing that touches a disk.
//!
//! It holds the vault, the index, the open note, the sidebar's state, and every
//! rule about what happens when one of them changes. A shell owns a `Notebook`
//! and is reduced to four jobs: hand it what the user did, read and write the
//! files it names and hand back what came of that, ask it what to display, and
//! turn the outcome it returns into words and redraws.
//!
//! # Why the methods return outcomes
//!
//! A mutation says what happened to the vault, not what to put on screen:
//! [`Renamed`] carries how many links were rewritten, not the sentence about
//! them. What two shells must agree on is what happened, so that is what
//! crosses the line.

use crate::bm25;
use crate::bm25::Bm25;
use crate::config;
use crate::config::{Config, ConfigView};
use crate::index;
use crate::index::{Index, Resolution};
use crate::markdown;
use crate::markdown::Scan;
use crate::note;
use crate::note::{Note, NoteId};
use crate::ordered;
use crate::ordered::TextMap;
use crate::paths;
use crate::ranked;
use crate::ranked::Ranked;
use crate::search;
use crate::semantic;
use crate::semantic::Store;
use crate::text;
use crate::tree;
use crate::tree::{Listed, Row, Sort};
use crate::vault;
use crate::vault::{Problem, Vault, VaultError};
use vstd::prelude::*;

verus! {

// ---- what happened ----

/// What a palette query is matched against.
#[derive(Debug, Clone, Copy, PartialEq, Eq, Structural)]
pub enum Mode {
    /// Titles, aliases and paths, fuzzily.
    Title,
    /// The text of every note.
    Text,
}

impl Default for Mode {
    fn default() -> (r: Self)
        ensures
            r == Mode::Title,
    {
        Mode::Title
    }
}

/// Why an operation on the vault did not happen.
///
/// "There is no vault open" is not a [`VaultError`], for there is no path to
/// name, but it is the same kind of answer to the same question.
#[derive(Debug)]
pub enum Failed {
    /// Asked to change a vault when none is open. Every such call is a no-op.
    NoVault,
    Vault(VaultError),
}

/// Why an operation did not happen, by its texts.
pub enum FailedView {
    NoVault,
    Vault(Problem),
}

impl View for Failed {
    type V = FailedView;

    open spec fn view(&self) -> FailedView {
        match *self {
            Failed::NoVault => FailedView::NoVault,
            Failed::Vault(error) => FailedView::Vault(error@),
        }
    }
}

impl Failed {
    /// What to say of it.
    pub fn message(&self) -> (r: String)
        ensures
            r@ == (match self@ {
                FailedView::NoVault => "no vault is open"@,
                FailedView::Vault(problem) => vault::told(problem),
            }),
    {
        match self {
            Failed::NoVault => text::string_of(&text::chars_of("no vault is open")),
            Failed::Vault(error) => error.message(),
        }
    }
}

/// What [`Notebook::save_now`] did.
#[derive(Debug)]
pub enum Saved {
    /// Nothing was waiting to be written.
    Clean,
    Written,
    /// The note is still dirty, so the next tick tries again. A note that
    /// failed to save must not be quietly forgotten.
    Failed(VaultError),
}

/// What a save did, by its texts.
pub enum SavedView {
    Clean,
    Written,
    Failed(Problem),
}

impl View for Saved {
    type V = SavedView;

    open spec fn view(&self) -> SavedView {
        match *self {
            Saved::Clean => SavedView::Clean,
            Saved::Written => SavedView::Written,
            Saved::Failed(error) => SavedView::Failed(error@),
        }
    }
}

/// What [`Notebook::rename_note`] did.
#[derive(Debug)]
pub enum Renamed {
    /// No open note, no vault, or the title did not change.
    Unchanged,
    Done {
        to: NoteId,
        /// Inbound links rewritten to the new title: those of the notes that
        /// were rewritten.
        links: usize,
    },
    Failed(VaultError),
}

/// What a rename did, by its texts.
pub enum RenamedView {
    Unchanged,
    Done { to: Seq<char>, links: nat },
    Failed(Problem),
}

impl View for Renamed {
    type V = RenamedView;

    open spec fn view(&self) -> RenamedView {
        match *self {
            Renamed::Unchanged => RenamedView::Unchanged,
            Renamed::Done { to, links } => RenamedView::Done { to: to@, links: links as nat },
            Renamed::Failed(error) => RenamedView::Failed(error@),
        }
    }
}

/// What [`Notebook::move_note`] did.
#[derive(Debug)]
pub enum Moved {
    /// Already there, or there is no vault.
    Unchanged,
    Done {
        to: NoteId,
        /// Empty for the vault root.
        destination: String,
    },
    Failed(VaultError),
}

/// What a move did, by its texts.
pub enum MovedView {
    Unchanged,
    Done { to: Seq<char>, destination: Seq<char> },
    Failed(Problem),
}

impl View for Moved {
    type V = MovedView;

    open spec fn view(&self) -> MovedView {
        match *self {
            Moved::Unchanged => MovedView::Unchanged,
            Moved::Done { to, destination } => MovedView::Done {
                to: to@,
                destination: destination@,
            },
            Moved::Failed(error) => MovedView::Failed(error@),
        }
    }
}

/// What [`Notebook::absorb_external_changes`] found.
///
/// The open note is the delicate part: reloading it would throw away whatever
/// is being typed.
#[derive(Debug, PartialEq, Eq)]
pub enum External {
    /// Nothing was open, or the file is what was last seen. The vault around it
    /// has still been taken on.
    Quiet,
    /// The open note was reloaded from disk, because nothing local was unsaved.
    Reloaded,
    /// The open note changed on disk *and* has unsaved local edits. Both
    /// versions still exist: this is the one case that has to be asked about.
    Diverged { id: NoteId, on_disk: String },
    /// The open note is no longer in the vault. It is still open here.
    Vanished { id: NoteId },
}

/// What a look at the vault found, by its texts.
pub enum ExternalView {
    Quiet,
    Reloaded,
    Diverged { id: Seq<char>, on_disk: Seq<char> },
    Vanished { id: Seq<char> },
}

impl View for External {
    type V = ExternalView;

    open spec fn view(&self) -> ExternalView {
        match *self {
            External::Quiet => ExternalView::Quiet,
            External::Reloaded => ExternalView::Reloaded,
            External::Diverged { id, on_disk } => ExternalView::Diverged {
                id: id@,
                on_disk: on_disk@,
            },
            External::Vanished { id } => ExternalView::Vanished { id: id@ },
        }
    }
}

/// What the banner is saying, when more than one thing could be wrong at once.
///
/// The order of the variants is the priority order. [`Alert::NotSaving`]
/// outranks the others because it is the only one where work is being lost
/// *now*: in both of the others the two versions are safely on disk and in the
/// editor.
#[derive(Debug, PartialEq, Eq)]
pub enum Alert {
    /// Writing the open note is failing, and the note is still dirty.
    NotSaving(String),
    /// The open note changed on disk and has unsaved local edits.
    /// [`Notebook::take_disk_version`] picks theirs and doing nothing keeps
    /// yours.
    Diverged(NoteId),
    /// The open note's file is gone from the vault. It is still in the editor,
    /// and [`Notebook::restore_open_note`] writes it back.
    Vanished(NoteId),
}

/// What the banner is saying, by its texts.
pub enum AlertView {
    NotSaving(Seq<char>),
    Diverged(Seq<char>),
    Vanished(Seq<char>),
}

impl View for Alert {
    type V = AlertView;

    open spec fn view(&self) -> AlertView {
        match *self {
            Alert::NotSaving(message) => AlertView::NotSaving(message@),
            Alert::Diverged(id) => AlertView::Diverged(id@),
            Alert::Vanished(id) => AlertView::Vanished(id@),
        }
    }
}

/// What came of the files handed to [`Notebook::attach_files`].
#[derive(Debug, PartialEq, Eq)]
pub struct Attached {
    /// Names to insert as embeds, in the order they were dropped.
    pub names: Vec<String>,
    pub failures: usize,
}

// ---- the index, and what is counted over it ----

/// The index, and the counts over it that a search goes by. They are derived
/// from it and rebuilt with it.
#[derive(Debug)]
pub struct Shelf {
    index: Index,
    lexical: Bm25,
}

impl View for Shelf {
    type V = Map<Seq<char>, index::EntryView>;

    closed spec fn view(&self) -> Map<Seq<char>, index::EntryView> {
        self.index@
    }
}

impl Shelf {
    #[verifier::type_invariant]
    spec fn is_counted(self) -> bool {
        self.lexical@ == bm25::documents(self.index@)
    }

    /// The shelf of an index.
    pub fn new(index: Index) -> (r: Self)
        ensures
            r@ == index@,
    {
        let lexical = Bm25::build(&index);
        Shelf { index, lexical }
    }

    /// The index.
    pub fn index(&self) -> (r: &Index)
        ensures
            r@ == self@,
    {
        &self.index
    }

    /// The counts over the index as it is now.
    pub fn lexical(&self) -> (r: &Bm25)
        ensures
            r@ == bm25::documents(self@),
    {
        proof {
            use_type_invariant(self);
        }
        &self.lexical
    }

    fn take(&mut self) -> (r: Index)
        ensures
            r@ == old(self)@,
    {
        let mut other = Shelf::new(Index::new());
        std::mem::swap(self, &mut other);
        other.index
    }

    /// Add or replace one note.
    pub fn update(&mut self, note: &Note, scan: Scan)
        ensures
            final(self)@ == old(self)@.insert(note@.id, index::entry(note@, scan@)),
    {
        let mut index = self.take();
        index.update(note, scan);
        *self = Shelf::new(index);
    }

    /// Forget one note.
    pub fn remove(&mut self, id: &NoteId)
        ensures
            final(self)@ == old(self)@.remove(id@),
    {
        let mut index = self.take();
        index.remove(id);
        *self = Shelf::new(index);
    }

    /// Move a note to a new id.
    pub fn rename(&mut self, from: &NoteId, to: &NoteId)
        ensures
            final(self)@ == index::renamed(old(self)@, from@, to@),
    {
        let mut index = self.take();
        index.rename(from, to);
        *self = Shelf::new(index);
    }
}

// ---- the notebook ----

/// The note in the editor.
#[derive(Debug)]
pub struct Open {
    /// The note as it stands, including unsaved edits.
    pub note: Note,
    /// Its text as it last stood *on disk*, whether it was put there or read
    /// from there. A watcher cannot tell whose write it is reporting, so this
    /// is what tells one's own saves apart from somebody else's edit.
    pub on_disk: String,
}

/// The note in the editor, by its texts.
#[verifier::ext_equal]
pub struct OpenView {
    pub note: note::NoteView,
    pub on_disk: Seq<char>,
}

impl View for Open {
    type V = OpenView;

    open spec fn view(&self) -> OpenView {
        OpenView { note: self.note@, on_disk: self.on_disk@ }
    }
}

/// Everything that is known about one vault.
///
/// Not `Clone`: two of these over one folder would be two writers and two
/// indexes disagreeing about the same notes.
#[derive(Debug)]
pub struct Notebook {
    pub config: Config,
    pub config_path: String,
    pub vault: Option<Vault>,
    pub shelf: Shelf,
    /// The note in the editor, if any.
    pub open: Option<Open>,
    pub dirty: bool,
    /// The tag filtering the note list, if any.
    pub filter: Option<String>,
    /// What the sidebar's search entry holds. While it is not empty the sidebar
    /// shows results rather than the tree.
    pub query: String,
    /// Which folders are open in the sidebar.
    pub expanded: TextMap<String, ()>,
    pub sort: Sort,
    /// The folder a new note goes in: whichever was last chosen in the sidebar,
    /// falling back to the open note's.
    pub target_folder: Option<String>,
    /// The vectors, and where they are cached. Derived data: losing the file
    /// costs one pass of embedding.
    pub vectors: Store,
    pub vectors_path: Option<String>,
    /// The last query embedded, and the bits of its vector.
    pub query_vector: Option<(String, Vec<u32>)>,
    /// The three conditions the banner can be reporting. Held separately,
    /// because they arise and clear independently.
    pub not_saving: Option<String>,
    pub diverged: Option<NoteId>,
    pub vanished: Option<NoteId>,
}

/// Everything that is known about one vault, by its texts.
#[verifier::ext_equal]
pub struct NotebookView {
    pub config: ConfigView,
    pub config_path: Seq<char>,
    pub vault: Option<Seq<char>>,
    pub index: Map<Seq<char>, index::EntryView>,
    pub open: Option<OpenView>,
    pub dirty: bool,
    pub filter: Option<Seq<char>>,
    pub query: Seq<char>,
    pub expanded: Set<Seq<char>>,
    pub sort: Sort,
    pub target_folder: Option<Seq<char>>,
    pub vectors: semantic::StoreView,
    pub vectors_path: Option<Seq<char>>,
    pub query_vector: Option<(Seq<char>, Seq<u32>)>,
    pub not_saving: Option<Seq<char>>,
    pub diverged: Option<Seq<char>>,
    pub vanished: Option<Seq<char>>,
}

/// The view of a value that may not be there.
pub open spec fn view_of<T: View>(x: Option<T>) -> Option<T::V> {
    match x {
        Some(x) => Some(x@),
        None => None,
    }
}

impl View for Notebook {
    type V = NotebookView;

    open spec fn view(&self) -> NotebookView {
        NotebookView {
            config: self.config@,
            config_path: self.config_path@,
            vault: view_of(self.vault),
            index: self.shelf@,
            open: view_of(self.open),
            dirty: self.dirty,
            filter: view_of(self.filter),
            query: self.query@,
            expanded: self.expanded@.dom(),
            sort: self.sort,
            target_folder: view_of(self.target_folder),
            vectors: self.vectors@,
            vectors_path: view_of(self.vectors_path),
            query_vector: match self.query_vector {
                Some((query, vector)) => Some((query@, vector@)),
                None => None,
            },
            not_saving: view_of(self.not_saving),
            diverged: view_of(self.diverged),
            vanished: view_of(self.vanished),
        }
    }
}

/// A notebook with nothing in it.
pub open spec fn blank() -> NotebookView {
    NotebookView {
        config: config::blank(0),
        config_path: seq![],
        vault: None,
        index: Map::empty(),
        open: None,
        dirty: false,
        filter: None,
        query: seq![],
        expanded: Set::empty(),
        sort: Sort::Name,
        target_folder: None,
        vectors: semantic::StoreView { model: seq![], notes: Map::empty() },
        vectors_path: None,
        query_vector: None,
        not_saving: None,
        diverged: None,
        vanished: None,
    }
}

impl Default for Notebook {
    fn default() -> (r: Self)
        ensures
            r@ == blank(),
    {
        let r = Notebook {
            config: Config::default(),
            config_path: String::new(),
            vault: None,
            shelf: Shelf::new(Index::new()),
            open: None,
            dirty: false,
            filter: None,
            query: String::new(),
            expanded: TextMap::new(),
            sort: Sort::Name,
            target_folder: None,
            vectors: Store::default(),
            vectors_path: None,
            query_vector: None,
            not_saving: None,
            diverged: None,
            vanished: None,
        };
        assert(r@ =~= blank());
        r
    }
}

// ---- configuration ----

/// The notebook once a config was read.
pub open spec fn configured(
    nb: NotebookView,
    path: Seq<char>,
    config: ConfigView,
    is_folder: bool,
) -> NotebookView {
    NotebookView {
        config,
        config_path: path,
        vault: match config.vault {
            Some(root) => if is_folder {
                Some(root)
            } else {
                None
            },
            None => nb.vault,
        },
        sort: tree::sort_called(config.sort),
        expanded: config.expanded_folders.to_set(),
        ..nb
    }
}

/// The config once the view state is folded into it.
pub open spec fn folded(nb: NotebookView) -> ConfigView {
    ConfigView {
        sort: tree::sort_name(nb.sort),
        expanded_folders: ordered::ascending(nb.expanded),
        ..nb.config
    }
}

fn set_of(texts: &Vec<String>) -> (r: TextMap<String, ()>)
    ensures
        r@.dom() == text::views(texts@).to_set(),
{
    let mut r: TextMap<String, ()> = TextMap::new();
    index::add_texts(&mut r, texts);
    assert(r@.dom() =~= text::views(texts@).to_set());
    r
}

fn keys_of(set: &TextMap<String, ()>) -> (r: Vec<String>)
    ensures
        text::views(r@) == ordered::ascending(set@.dom()),
{
    let ghost order = ordered::ascending(set@.dom());
    let n = set.len();
    let mut r: Vec<String> = Vec::new();
    let mut i: usize = 0;
    while i < n
        invariant
            i <= n == order.len(),
            order == ordered::ascending(set@.dom()),
            text::views(r@) == order.take(i as int),
        decreases n - i,
    {
        let key = set.key(i).clone();
        proof {
            text::lemma_views_push(r@, key);
            assert(order.take(i + 1) =~= order.take(i as int).push(key@));
        }
        r.push(key);
        i = i + 1;
    }
    assert(order.take(n as int) =~= order);
    r
}

fn copied(s: &str) -> (r: String)
    ensures
        r@ == s@,
{
    text::string_of(&text::chars_of(s))
}

fn copied_option(s: &Option<String>) -> (r: Option<String>)
    ensures
        view_of(r) == view_of(*s),
{
    match s {
        Some(s) => Some(s.clone()),
        None => None,
    }
}

impl Notebook {
    /// Take on a config that was read, and whatever vault it names, given
    /// whether that is a folder.
    ///
    /// A configured folder that no longer exists leaves the notebook without a
    /// vault rather than with a broken one.
    pub fn load_config(&mut self, path: String, config: Config, is_folder: bool)
        ensures
            final(self)@ == configured(old(self)@, path@, config@, is_folder),
    {
        let ghost before = self@;
        self.config_path = path;
        if let Some(root) = &config.vault {
            self.vault = if is_folder {
                Some(Vault::new(root.clone()))
            } else {
                None
            };
        }
        self.sort = Sort::from_name(config.sort.as_str());
        self.expanded = set_of(&config.expanded_folders);
        self.config = config;
        assert(self@ =~= configured(before, path@, config@, is_folder));
    }

    /// Fold the view state that lives in the notebook into the config, which is
    /// then what is to be written back.
    pub fn save_config(&mut self)
        ensures
            final(self)@ == (NotebookView { config: folded(old(self)@), ..old(self)@ }),
    {
        let ghost before = self@;
        self.config.sort = copied(self.sort.as_str());
        self.config.expanded_folders = keys_of(&self.expanded);
        assert(self@ =~= (NotebookView { config: folded(before), ..before }));
    }

    /// The config.
    pub fn config(&self) -> (r: &Config)
        ensures
            r@ == self@.config,
    {
        &self.config
    }

    /// The config, to be changed.
    pub fn config_mut(&mut self) -> (r: &mut Config)
        ensures
            r@ == old(self)@.config,
            final(self)@ == (NotebookView { config: final(r)@, ..old(self)@ }),
    {
        &mut self.config
    }

    /// Where the embedding server is, or `None` when semantic search is off.
    ///
    /// Off is a configured empty string, not a missing key: a vault with no
    /// server reachable behaves the same as one with the feature turned off.
    pub fn embedding_url(&self, default: &str) -> (r: Option<String>)
        ensures
            view_of(r) == config::embedding_server(self@.config, default@),
    {
        self.config.embedding_server(default)
    }

    /// The shared vector store and its token, if both are configured.
    pub fn shared_vectors(&self) -> (r: Option<(String, String)>)
        ensures
            match r {
                Some((url, token)) => config::vector_server(self@.config) == Some((url@, token@)),
                None => config::vector_server(self@.config) is None,
            },
    {
        self.config.vector_server()
    }

    // ---- the vault ----

    /// The vault, if one is open.
    pub fn vault(&self) -> (r: Option<&Vault>)
        ensures
            match r {
                Some(vault) => self@.vault == Some(vault@),
                None => self@.vault is None,
            },
    {
        self.vault.as_ref()
    }

    /// The folder the vault is.
    pub fn vault_root(&self) -> (r: Option<String>)
        ensures
            view_of(r) == self@.vault,
    {
        match &self.vault {
            Some(vault) => Some(copied(vault.root())),
            None => None,
        }
    }

    /// Whether a vault is open.
    pub fn has_vault(&self) -> (r: bool)
        ensures
            r == (self@.vault is Some),
    {
        self.vault.is_some()
    }
}

/// The notebook with nothing on its banner.
pub open spec fn calm(nb: NotebookView) -> NotebookView {
    NotebookView { not_saving: None, diverged: None, vanished: None, ..nb }
}

/// The notebook once pointed at another folder.
pub open spec fn pointed(nb: NotebookView, root: Seq<char>) -> NotebookView {
    NotebookView {
        open: None,
        dirty: false,
        vault: Some(root),
        config: ConfigView { vault: Some(root), last_note: None, ..nb.config },
        ..calm(nb)
    }
}

/// The notebook once its vault was scanned.
pub open spec fn rescanned(
    nb: NotebookView,
    notes: Seq<(note::NoteView, markdown::ScanView)>,
) -> NotebookView {
    NotebookView {
        index: if nb.vault is Some {
            index::entries_of(notes)
        } else {
            Map::empty()
        },
        ..nb
    }
}

/// The notebook once a note was read into the editor.
pub open spec fn loaded(
    nb: NotebookView,
    id: Seq<char>,
    bytes: Result<Vec<u8>, String>,
) -> NotebookView {
    match nb.vault {
        None => nb,
        Some(root) => match vault::opened(root, id, bytes) {
            Err(_) => NotebookView { open: None, ..calm(nb) },
            Ok(note) => NotebookView {
                open: Some(OpenView { note, on_disk: note::contents(note) }),
                config: ConfigView { last_note: Some(id), ..nb.config },
                target_folder: Some(tree::home(id)),
                expanded: nb.expanded.union(tree::ancestors(tree::home(id)).to_set()),
                ..calm(nb)
            },
        },
    }
}

/// What is wrong with a note that was to be read into the editor.
pub open spec fn load_problem(
    nb: NotebookView,
    id: Seq<char>,
    bytes: Result<Vec<u8>, String>,
) -> Option<Problem> {
    match nb.vault {
        None => None,
        Some(root) => match vault::opened(root, id, bytes) {
            Err(problem) => Some(problem),
            Ok(_) => None,
        },
    }
}

/// The notebook once its vault was scanned again and the open note, if it
/// survived, was read again.
pub open spec fn reloaded(
    nb: NotebookView,
    notes: Seq<(note::NoteView, markdown::ScanView)>,
    bytes: Result<Vec<u8>, String>,
) -> NotebookView {
    let now = rescanned(nb, notes);
    match now.open {
        None => now,
        Some(open) => if now.index.contains_key(open.note.id) {
            loaded(now, open.note.id, bytes)
        } else {
            NotebookView { open: None, ..now }
        },
    }
}

/// What the banner says, highest priority first.
pub open spec fn alert_of(nb: NotebookView) -> Option<AlertView> {
    match nb.not_saving {
        Some(message) => Some(AlertView::NotSaving(message)),
        None => match nb.diverged {
            Some(id) => Some(AlertView::Diverged(id)),
            None => match nb.vanished {
                Some(id) => Some(AlertView::Vanished(id)),
                None => None,
            },
        },
    }
}

/// The notebook once something changed the vault from outside, and what that
/// came to: `notes` is the vault as it is now and `bytes` the open note's file.
pub open spec fn absorbed(
    nb: NotebookView,
    notes: Seq<(note::NoteView, markdown::ScanView)>,
    bytes: Result<Vec<u8>, String>,
) -> (NotebookView, ExternalView) {
    let now = rescanned(nb, notes);
    match now.open {
        None => (now, ExternalView::Quiet),
        Some(open) => {
            let id = open.note.id;
            if !now.index.contains_key(id) {
                (NotebookView { vanished: Some(id), ..now }, ExternalView::Vanished { id })
            } else {
                let here = NotebookView { vanished: None, ..now };
                match here.vault {
                    None => (here, ExternalView::Quiet),
                    Some(root) => match vault::opened(root, id, bytes) {
                        Err(_) => (here, ExternalView::Quiet),
                        Ok(note) => {
                            let on_disk = note::contents(note);
                            if open.on_disk == on_disk {
                                (here, ExternalView::Quiet)
                            } else if nb.dirty {
                                (
                                    NotebookView {
                                        open: Some(OpenView { note: open.note, on_disk }),
                                        diverged: Some(id),
                                        ..here
                                    },
                                    ExternalView::Diverged { id, on_disk },
                                )
                            } else {
                                (
                                    NotebookView {
                                        open: Some(OpenView { note, on_disk }),
                                        diverged: None,
                                        ..here
                                    },
                                    ExternalView::Reloaded,
                                )
                            }
                        },
                    },
                }
            }
        },
    }
}

/// The notebook once the version on disk was taken, if it could be.
pub open spec fn conceded(nb: NotebookView, bytes: Result<Vec<u8>, String>) -> Option<
    NotebookView,
> {
    match (nb.open, nb.vault) {
        (Some(open), Some(root)) => match vault::opened(root, open.note.id, bytes) {
            Ok(note) => Some(
                NotebookView {
                    open: Some(OpenView { note, on_disk: note::contents(note) }),
                    dirty: false,
                    diverged: None,
                    ..nb
                },
            ),
            Err(_) => None,
        },
        _ => None,
    }
}

/// The notebook once the open note was written back to a path it had
/// disappeared from, if it could be.
pub open spec fn restored(
    nb: NotebookView,
    wrote: Result<(), VaultError>,
    scan: markdown::ScanView,
) -> Option<NotebookView> {
    match (nb.open, nb.vault) {
        (Some(open), Some(_)) => if wrote is Ok {
            Some(
                NotebookView {
                    open: Some(OpenView { note: open.note, on_disk: note::contents(open.note) }),
                    index: nb.index.insert(open.note.id, index::entry(open.note, scan)),
                    dirty: false,
                    vanished: None,
                    ..nb
                },
            )
        } else {
            None
        },
        _ => None,
    }
}

/// What a notebook is after something that may not have been possible.
pub open spec fn or_else(now: Option<NotebookView>, before: NotebookView) -> NotebookView {
    match now {
        Some(now) => now,
        None => before,
    }
}

/// The notebook once the banner's offer was taken up.
pub open spec fn resolved(
    nb: NotebookView,
    bytes: Result<Vec<u8>, String>,
    wrote: Result<(), VaultError>,
    scan: markdown::ScanView,
) -> Option<NotebookView> {
    match alert_of(nb) {
        Some(AlertView::Diverged(_)) => conceded(nb, bytes),
        Some(AlertView::Vanished(_)) => restored(nb, wrote, scan),
        _ => None,
    }
}

impl Notebook {
    fn clear_alerts(&mut self)
        ensures
            final(self)@ == calm(old(self)@),
    {
        let ghost before = self@;
        self.not_saving = None;
        self.diverged = None;
        self.vanished = None;
        assert(self@ =~= calm(before));
    }

    /// Point at a different vault folder. What its vectors are and what is in
    /// it is still to be handed over.
    pub fn set_vault(&mut self, root: &str)
        ensures
            final(self)@ == pointed(old(self)@, root@),
    {
        let ghost before = self@;
        self.open = None;
        self.dirty = false;
        self.clear_alerts();
        self.vault = Some(Vault::new(copied(root)));
        self.config.vault = Some(copied(root));
        self.config.last_note = None;
        assert(self@ =~= pointed(before, root@));
    }

    /// Rebuild the index from what a scan of the folder gave.
    pub fn rescan(&mut self, notes: Vec<(Note, Scan)>)
        ensures
            final(self)@ == rescanned(old(self)@, index::pair_views(notes@)),
    {
        let ghost before = self@;
        let ghost pairs = index::pair_views(notes@);
        if self.vault.is_some() {
            self.shelf = Shelf::new(Index::build(notes));
        } else {
            self.shelf = Shelf::new(Index::new());
        }
        assert(self@ =~= rescanned(before, pairs));
    }

    /// Read a note into the editor, given its file's bytes. Switching notes is
    /// the caller's cue to flush and save the one being left.
    ///
    /// Every banner condition is about the note being left, so none of them
    /// survives opening another one. A note that the tree cannot show, from a
    /// link, a search result or the last session, is revealed.
    pub fn load_note(&mut self, id: &NoteId, bytes: Result<Vec<u8>, String>) -> (r: Result<
        (),
        VaultError,
    >)
        ensures
            final(self)@ == loaded(old(self)@, id@, bytes),
            match r {
                Ok(_) => load_problem(old(self)@, id@, bytes) is None,
                Err(error) => load_problem(old(self)@, id@, bytes) == Some(error@),
            },
    {
        let ghost before = self@;
        let outcome = match &self.vault {
            None => return Ok(()),
            Some(vault) => vault.read(id, bytes),
        };
        self.clear_alerts();
        match outcome {
            Ok(note) => {
                let on_disk = note.to_text();
                self.open = Some(Open { note, on_disk });
                self.config.last_note = Some(copied(id.as_str()));
                let folder = match id.folder() {
                    Some(folder) => folder,
                    None => "",
                };
                proof {
                    reveal_strlit("");
                    assert(folder@ =~= tree::home(id@));
                }
                self.target_folder = Some(copied(folder));
                let ghost expanded = self.expanded@.dom();
                index::add_texts(&mut self.expanded, &tree::ancestors_of(folder));
                assert(self.expanded@.dom() =~= expanded.union(
                    tree::ancestors(tree::home(id@)).to_set(),
                ));
                assert(self@ =~= loaded(before, id@, bytes));
                Ok(())
            },
            Err(error) => {
                self.open = None;
                assert(self@ =~= loaded(before, id@, bytes));
                Err(error)
            },
        }
    }

    /// The vault was scanned again: put the open note back if it survived,
    /// given its file's bytes.
    pub fn reload_vault(&mut self, notes: Vec<(Note, Scan)>, bytes: Result<Vec<u8>, String>)
        ensures
            final(self)@ == reloaded(old(self)@, index::pair_views(notes@), bytes),
    {
        self.rescan(notes);
        match self.open_note_id() {
            None => {},
            Some(id) => if self.shelf.index().contains(&id) {
                let _ = self.load_note(&id, bytes);
            } else {
                let ghost before = self@;
                self.open = None;
                assert(self@ =~= (NotebookView { open: None, ..before }));
            },
        }
    }

    /// What the banner should be reporting, if anything.
    pub fn alert(&self) -> (r: Option<Alert>)
        ensures
            view_of(r) == alert_of(self@),
    {
        if let Some(message) = &self.not_saving {
            return Some(Alert::NotSaving(message.clone()));
        }
        if let Some(id) = &self.diverged {
            return Some(Alert::Diverged(id.clone()));
        }
        match &self.vanished {
            Some(id) => Some(Alert::Vanished(id.clone())),
            None => None,
        }
    }

    /// Act on whatever the banner is offering: `bytes` is the open note's file,
    /// and `wrote` what came of writing the open note, each of which goes
    /// unused where the banner does not offer it. `false` when there is nothing
    /// to do, which is the save-failure case: the next tick retries by itself.
    pub fn resolve_alert(
        &mut self,
        bytes: Result<Vec<u8>, String>,
        wrote: Result<(), VaultError>,
        scan: Scan,
    ) -> (r: bool)
        ensures
            r == (resolved(old(self)@, bytes, wrote, scan@) is Some),
            final(self)@ == or_else(resolved(old(self)@, bytes, wrote, scan@), old(self)@),
    {
        match self.alert() {
            Some(Alert::Diverged(_)) => self.take_disk_version(bytes),
            Some(Alert::Vanished(_)) => self.restore_open_note(wrote, scan),
            Some(Alert::NotSaving(_)) => false,
            None => false,
        }
    }

    /// Something changed the vault from outside. Take it on, given the vault as
    /// it is now and the open note's file.
    ///
    /// An event is not a change. A watcher fires for one's own saves as loudly
    /// as for anyone else's, so what counts is whether the file differs from
    /// what was last put there or read from there.
    pub fn absorb_external_changes(
        &mut self,
        notes: Vec<(Note, Scan)>,
        bytes: Result<Vec<u8>, String>,
    ) -> (r: External)
        ensures
            (final(self)@, r@) == absorbed(old(self)@, index::pair_views(notes@), bytes),
    {
        let ghost start = self@;
        let ghost pairs = index::pair_views(notes@);
        self.rescan(notes);
        let ghost now = self@;
        let id = match self.open_note_id() {
            None => return External::Quiet,
            Some(id) => id,
        };
        if !self.shelf.index().contains(&id) {
            self.vanished = Some(id.clone());
            assert(self@ =~= (NotebookView { vanished: Some(id@), ..now }));
            return External::Vanished { id };
        }
        self.vanished = None;
        let ghost here = self@;
        assert(here =~= (NotebookView { vanished: None, ..now }));
        let note = match &self.vault {
            None => return External::Quiet,
            Some(vault) => match vault.read(&id, bytes) {
                Err(_) => return External::Quiet,
                Ok(note) => note,
            },
        };
        let on_disk = note.to_text();
        match self.open.take() {
            None => External::Quiet,
            Some(open) => {
                if text::same(open.on_disk.as_str(), on_disk.as_str()) {
                    self.open = Some(open);
                    assert(self@ =~= here);
                    return External::Quiet;
                }
                if self.dirty {
                    self.open = Some(Open { note: open.note, on_disk: on_disk.clone() });
                    self.diverged = Some(id.clone());
                    assert(self@ =~= absorbed(start, pairs, bytes).0);
                    return External::Diverged { id, on_disk };
                }
                self.open = Some(Open { note, on_disk });
                self.diverged = None;
                assert(self@ =~= absorbed(start, pairs, bytes).0);
                External::Reloaded
            },
        }
    }

    /// Take the version on disk and drop the unsaved local edits, given the
    /// open note's file.
    ///
    /// The counterpart to keeping them is doing nothing: the next save writes
    /// what was typed over the file.
    pub fn take_disk_version(&mut self, bytes: Result<Vec<u8>, String>) -> (r: bool)
        ensures
            r == (conceded(old(self)@, bytes) is Some),
            final(self)@ == or_else(conceded(old(self)@, bytes), old(self)@),
    {
        let ghost before = self@;
        let id = match self.open_note_id() {
            None => return false,
            Some(id) => id,
        };
        let note = match &self.vault {
            None => return false,
            Some(vault) => match vault.read(&id, bytes) {
                Err(_) => return false,
                Ok(note) => note,
            },
        };
        let on_disk = note.to_text();
        self.open = Some(Open { note, on_disk });
        self.dirty = false;
        self.diverged = None;
        assert(self@ =~= conceded(before, bytes)->0);
        true
    }

    /// Write the open note back to a path it has disappeared from, given what
    /// came of writing it and a scan of its body.
    ///
    /// The editor is holding the only copy left, and without this the only way
    /// to get it back on disk is to type a character and wait.
    pub fn restore_open_note(&mut self, wrote: Result<(), VaultError>, scan: Scan) -> (r: bool)
        ensures
            r == (restored(old(self)@, wrote, scan@) is Some),
            final(self)@ == or_else(restored(old(self)@, wrote, scan@), old(self)@),
    {
        let ghost before = self@;
        if self.vault.is_none() || self.open.is_none() || wrote.is_err() {
            return false;
        }
        match self.open.take() {
            None => false,
            Some(open) => {
                let on_disk = open.note.to_text();
                self.shelf.update(&open.note, scan);
                self.open = Some(Open { note: open.note, on_disk });
                self.dirty = false;
                self.vanished = None;
                assert(self@ =~= restored(before, wrote, scan@)->0);
                true
            },
        }
    }
}

// ---- the open note ----

/// Where the open note is, if one is open.
pub open spec fn open_id(nb: NotebookView) -> Option<Seq<char>> {
    match nb.open {
        Some(open) => Some(open.note.id),
        None => None,
    }
}

/// The notebook once the note that was open last was opened again, if it is
/// still there.
pub open spec fn reopened(nb: NotebookView, bytes: Result<Vec<u8>, String>) -> NotebookView {
    match nb.config.last_note {
        None => nb,
        Some(last) => {
            let id = paths::relative(last);
            if nb.index.contains_key(id) {
                loaded(nb, id, bytes)
            } else {
                nb
            }
        },
    }
}

/// The notebook once the editor's text was copied into the open note.
pub open spec fn flushed(nb: NotebookView, body: Seq<char>) -> NotebookView {
    match nb.open {
        None => nb,
        Some(open) => {
            let edited = note::read(open.note.id, body);
            if edited == open.note {
                nb
            } else {
                NotebookView {
                    open: Some(OpenView { note: edited, on_disk: open.on_disk }),
                    dirty: true,
                    ..nb
                }
            }
        },
    }
}

/// Whether the open note is to be written.
pub open spec fn is_unsaved(nb: NotebookView) -> bool {
    nb.dirty && nb.vault is Some && nb.open is Some
}

/// The notebook once a save was tried, and what that came to.
pub open spec fn saved(
    nb: NotebookView,
    wrote: Result<(), VaultError>,
    scan: markdown::ScanView,
) -> (NotebookView, SavedView) {
    if !nb.dirty {
        (nb, SavedView::Clean)
    } else if !is_unsaved(nb) {
        (NotebookView { dirty: false, ..nb }, SavedView::Clean)
    } else {
        let note = nb.open->0.note;
        match wrote {
            Ok(_) => (
                NotebookView {
                    dirty: false,
                    open: Some(OpenView { note, on_disk: note::contents(note) }),
                    index: nb.index.insert(note.id, index::entry(note, scan)),
                    ..calm(nb)
                },
                SavedView::Written,
            ),
            Err(error) => (
                NotebookView { not_saving: Some(vault::told(error@)), ..nb },
                SavedView::Failed(error@),
            ),
        }
    }
}

impl Notebook {
    /// Where the open note is.
    pub fn open_note_id(&self) -> (r: Option<NoteId>)
        ensures
            view_of(r) == open_id(self@),
    {
        match &self.open {
            Some(open) => Some(open.note.id.clone()),
            None => None,
        }
    }

    /// The open note's full text, frontmatter included.
    pub fn open_note_text(&self) -> (r: Option<(NoteId, String)>)
        ensures
            match r {
                Some((id, text)) => self@.open is Some && id@ == self@.open->0.note.id && text@
                    == note::contents(self@.open->0.note),
                None => self@.open is None,
            },
    {
        match &self.open {
            Some(open) => Some((open.note.id.clone(), open.note.to_text())),
            None => None,
        }
    }

    /// The open note as it stands.
    pub fn open_note(&self) -> (r: Option<&Note>)
        ensures
            match r {
                Some(note) => self@.open is Some && note@ == self@.open->0.note,
                None => self@.open is None,
            },
    {
        match &self.open {
            Some(open) => Some(&open.note),
            None => None,
        }
    }

    /// The note to reopen, if it is still there: whatever was open when the
    /// last session ended.
    pub fn last_note(&self) -> (r: Option<NoteId>)
        ensures
            match r {
                Some(id) => self@.config.last_note is Some && id@ == paths::relative(
                    self@.config.last_note->0,
                ) && self@.index.contains_key(id@),
                None => self@.config.last_note is None || !self@.index.contains_key(
                    paths::relative(self@.config.last_note->0),
                ),
            },
    {
        match &self.config.last_note {
            None => None,
            Some(last) => {
                let id = NoteId::from_relative(last.as_str());
                if self.shelf.index().contains(&id) {
                    Some(id)
                } else {
                    None
                }
            },
        }
    }

    /// Reopen whatever was open when the last session ended, given its file's
    /// bytes.
    pub fn restore_last_note(&mut self, bytes: Result<Vec<u8>, String>) -> (r: Option<NoteId>)
        ensures
            final(self)@ == reopened(old(self)@, bytes),
            match r {
                Some(id) => old(self)@.config.last_note is Some && id@ == paths::relative(
                    old(self)@.config.last_note->0,
                ) && old(self)@.index.contains_key(id@) && load_problem(
                    old(self)@,
                    id@,
                    bytes,
                ) is None,
                None => old(self)@.config.last_note is None || {
                    let id = paths::relative(old(self)@.config.last_note->0);
                    !old(self)@.index.contains_key(id) || load_problem(
                        old(self)@,
                        id,
                        bytes,
                    ) is Some
                },
            },
    {
        match self.last_note() {
            None => None,
            Some(id) => match self.load_note(&id, bytes) {
                Ok(_) => Some(id),
                Err(_) => None,
            },
        }
    }

    /// The editor's text changed.
    pub fn mark_edited(&mut self)
        ensures
            final(self)@ == (NotebookView { dirty: true, ..old(self)@ }),
    {
        let ghost before = self@;
        self.dirty = true;
        assert(self@ =~= (NotebookView { dirty: true, ..before }));
    }

    /// Whether there is something to write.
    pub fn is_dirty(&self) -> (r: bool)
        ensures
            r == self@.dirty,
    {
        self.dirty
    }

    /// Copy the editor's text into the open note. Nothing is written.
    ///
    /// The editor holds the whole file, so the frontmatter is split out of it
    /// again rather than carried alongside.
    pub fn flush(&mut self, body: &str)
        ensures
            final(self)@ == flushed(old(self)@, body@),
    {
        let ghost before = self@;
        match self.open.take() {
            None => {
                assert(self@ =~= before);
            },
            Some(open) => {
                let edited = Note::from_text(open.note.id.clone(), body);
                if edited.same(&open.note) {
                    self.open = Some(open);
                    assert(self@ =~= before);
                } else {
                    self.open = Some(Open { note: edited, on_disk: open.on_disk });
                    self.dirty = true;
                    assert(self@ =~= flushed(before, body@));
                }
            },
        }
    }

    /// The note to be written, if there is one.
    pub fn unsaved(&self) -> (r: Option<&Note>)
        ensures
            match r {
                Some(note) => is_unsaved(self@) && note@ == self@.open->0.note,
                None => !is_unsaved(self@),
            },
    {
        if self.dirty && self.vault.is_some() {
            self.open_note()
        } else {
            None
        }
    }

    /// A save was tried: `wrote` is what came of writing [`Self::unsaved`], and
    /// goes unused if there is nothing to write, and `scan` a scan of its body.
    ///
    /// A successful write settles all three banner conditions: saving is
    /// evidently working, the file exists, and a divergence has just been
    /// decided in favour of what was on screen.
    pub fn save_now(&mut self, wrote: Result<(), VaultError>, scan: Scan) -> (r: Saved)
        ensures
            (final(self)@, r@) == saved(old(self)@, wrote, scan@),
    {
        let ghost before = self@;
        if !self.dirty {
            return Saved::Clean;
        }
        if self.vault.is_none() || self.open.is_none() {
            self.dirty = false;
            assert(self@ =~= (NotebookView { dirty: false, ..before }));
            return Saved::Clean;
        }
        match wrote {
            Err(error) => {
                self.not_saving = Some(error.message());
                assert(self@ =~= saved(before, wrote, scan@).0);
                Saved::Failed(error)
            },
            Ok(_) => match self.open.take() {
                None => Saved::Clean,
                Some(open) => {
                    self.dirty = false;
                    let on_disk = open.note.to_text();
                    self.shelf.update(&open.note, scan);
                    self.open = Some(Open { note: open.note, on_disk });
                    self.clear_alerts();
                    assert(self@ =~= saved(before, wrote, scan@).0);
                    Saved::Written
                },
            },
        }
    }
}

// ---- vectors ----

/// The notebook once its vectors were read.
pub open spec fn with_vectors(
    nb: NotebookView,
    cache: Option<Seq<char>>,
    home: Option<Seq<char>>,
    store: semantic::StoreView,
) -> NotebookView {
    match nb.vault {
        None => NotebookView { vectors: blank().vectors, vectors_path: None, ..nb },
        Some(root) => NotebookView {
            vectors: store,
            vectors_path: Some(semantic::store_path(root, cache, home)),
            ..nb
        },
    }
}

/// A text that may not be there.
pub open spec fn text_in(s: Option<&str>) -> Option<Seq<char>> {
    match s {
        Some(s) => Some(s@),
        None => None,
    }
}

impl Notebook {
    /// Point the vector store at the current vault: `store` is what was cached
    /// where the vault's vectors are, given the cache directory and the home
    /// directory.
    pub fn load_vectors(&mut self, cache: Option<&str>, home: Option<&str>, store: Store)
        ensures
            final(self)@ == with_vectors(old(self)@, text_in(cache), text_in(home), store@),
    {
        let ghost before = self@;
        match &self.vault {
            None => {
                self.vectors = Store::default();
                self.vectors_path = None;
            },
            Some(vault) => {
                self.vectors_path = Some(semantic::default_store_path(vault.root(), cache, home));
                self.vectors = store;
            },
        }
        assert(self@ =~= with_vectors(before, text_in(cache), text_in(home), store@));
    }

    /// The index and store a catch-up pass should run against.
    pub fn catch_up_input(&self) -> (r: (&Index, &Store))
        ensures
            r.0@ == self@.index,
            r.1@ == self@.vectors,
    {
        (self.shelf.index(), &self.vectors)
    }

    /// Take on the store a pass produced. Where it is to be written out is
    /// returned, if anywhere.
    pub fn absorb_vectors(&mut self, store: Store) -> (r: Option<String>)
        ensures
            final(self)@ == (NotebookView { vectors: store@, ..old(self)@ }),
            view_of(r) == old(self)@.vectors_path,
    {
        let ghost before = self@;
        self.vectors = store;
        assert(self@ =~= (NotebookView { vectors: store@, ..before }));
        copied_option(&self.vectors_path)
    }

    /// The vectors as they stand.
    pub fn vectors(&self) -> (r: &Store)
        ensures
            r@ == self@.vectors,
    {
        &self.vectors
    }

    /// Whether there are any.
    pub fn has_vectors(&self) -> (r: bool)
        ensures
            r == (self@.vectors.notes != Map::<Seq<char>, semantic::EmbeddedView>::empty()),
    {
        !self.vectors.is_empty()
    }

    /// Remember the vector for a query, so the next search can fuse with it.
    pub fn set_query_vector(&mut self, query: String, vector: Vec<u32>)
        ensures
            final(self)@ == (NotebookView {
                query_vector: Some((query@, vector@)),
                ..old(self)@
            }),
    {
        let ghost before = self@;
        self.query_vector = Some((query, vector));
        assert(self@ =~= (NotebookView { query_vector: Some((query@, vector@)), ..before }));
    }

    /// The vector for a query, if it is the one that was embedded last.
    pub fn vector_for(&self, query: &str) -> (r: Option<&Vec<u32>>)
        ensures
            match r {
                Some(vector) => self@.query_vector == Some((query@, vector@)),
                None => self@.query_vector is None || (self@.query_vector->Some_0).0 != query@,
            },
    {
        match &self.query_vector {
            None => None,
            Some((embedded, vector)) => if text::same(embedded.as_str(), query) {
                Some(vector)
            } else {
                None
            },
        }
    }
}

// ---- what the sidebar shows ----

/// The notes the tag filter leaves, before any search.
pub open spec fn tagged_ids(nb: NotebookView) -> Seq<Seq<char>> {
    match nb.filter {
        Some(tag) => ordered::ascending(
            index::under(index::tagged(nb.index), text::lowercase(index::unhashed(tag))),
        ),
        None => ordered::ascending(nb.index.dom()),
    }
}

/// Whether the sidebar is showing results rather than the tree.
pub open spec fn searching(nb: NotebookView) -> bool {
    text::trim(nb.query).len() > 0
}

/// The summary of a note, empty for one that is not there.
pub open spec fn excerpt_in(entries: Map<Seq<char>, index::EntryView>, id: Seq<char>) -> Seq<char> {
    match index::found(entries, id) {
        Some(entry) => entry.excerpt,
        None => seq![],
    }
}

/// Some notes, each with its summary.
pub open spec fn with_excerpts(
    entries: Map<Seq<char>, index::EntryView>,
    ids: Seq<Seq<char>>,
) -> Seq<(Seq<char>, Seq<char>)> {
    ids.map_values(|id: Seq<char>| (id, excerpt_in(entries, id)))
}

/// How many notes of either kind a sidebar search looks at.
pub const LOOKED_AT: usize = 50;

/// The line to show of a note found by its text.
pub open spec fn first_snippet(found: search::TextMatchView) -> Seq<char> {
    if found.snippets.len() > 0 {
        found.snippets[0].text
    } else {
        seq![]
    }
}

/// The line of a note that a search by text matched, if it did.
pub open spec fn matching_line(found: Seq<search::TextMatchView>, id: Seq<char>) -> Option<
    Seq<char>,
>
    decreases found.len(),
{
    if found.len() == 0 {
        None
    } else {
        match matching_line(found.drop_last(), id) {
            Some(line) => Some(line),
            None => if found.last().id == id {
                Some(first_snippet(found.last()))
            } else {
                None
            },
        }
    }
}

/// What is shown of a note found by its title: the line that matched if its
/// text did too, so that the row says why it is there, and else its summary.
pub open spec fn said_of(
    entries: Map<Seq<char>, index::EntryView>,
    texts: Seq<search::TextMatchView>,
    id: Seq<char>,
) -> Seq<char> {
    match matching_line(texts, id) {
        Some(line) => line,
        None => excerpt_in(entries, id),
    }
}

/// The notes that a query finds by any of their names.
pub open spec fn named(
    entries: Map<Seq<char>, index::EntryView>,
    query: Seq<char>,
    limit: int,
) -> Seq<search::TitleMatchView> {
    ranked::first(
        ranked::ranked::<search::TitleMatch>(
            search::name_matches(entries, ordered::ascending(entries.dom()), text::trim(query)),
        ),
        limit,
    )
}

/// The rows of the notes found by their titles, those that are allowed, given
/// what was found by text.
pub open spec fn title_rows(
    entries: Map<Seq<char>, index::EntryView>,
    allowed: Seq<Seq<char>>,
    found: Seq<search::TitleMatchView>,
    texts: Seq<search::TextMatchView>,
) -> Seq<(Seq<char>, Seq<char>)>
    decreases found.len(),
{
    if found.len() == 0 {
        seq![]
    } else {
        let before = title_rows(entries, allowed, found.drop_last(), texts);
        let id = found.last().id;
        if allowed.contains(id) {
            before.push((id, said_of(entries, texts, id)))
        } else {
            before
        }
    }
}

/// Whether a note is on some rows.
pub open spec fn is_on(rows: Seq<(Seq<char>, Seq<char>)>, id: Seq<char>) -> bool {
    exists|i: int| 0 <= i < rows.len() && (#[trigger] rows[i]).0 == id
}

/// Some rows and then those of the notes found by their texts, those that are
/// allowed and not there yet.
pub open spec fn text_rows(
    rows: Seq<(Seq<char>, Seq<char>)>,
    allowed: Seq<Seq<char>>,
    found: Seq<search::TextMatchView>,
) -> Seq<(Seq<char>, Seq<char>)>
    decreases found.len(),
{
    if found.len() == 0 {
        rows
    } else {
        let before = text_rows(rows, allowed, found.drop_last());
        let id = found.last().id;
        if allowed.contains(id) && !is_on(before, id) {
            before.push((id, first_snippet(found.last())))
        } else {
            before
        }
    }
}

/// What the sidebar search matched, best first.
pub open spec fn results(nb: NotebookView) -> Seq<(Seq<char>, Seq<char>)> {
    let query = text::trim(nb.query);
    if query.len() == 0 {
        seq![]
    } else {
        let texts = search::text_results(nb.index, query, LOOKED_AT as int);
        text_rows(
            title_rows(
                nb.index,
                tagged_ids(nb),
                search::title_results(nb.index, query, LOOKED_AT as int),
                texts,
            ),
            tagged_ids(nb),
            texts,
        )
    }
}

/// The notes the sidebar is showing.
pub open spec fn shown(nb: NotebookView) -> Seq<(Seq<char>, Seq<char>)> {
    if searching(nb) {
        results(nb)
    } else {
        with_excerpts(nb.index, tagged_ids(nb))
    }
}

/// Some rows, by their texts.
pub open spec fn row_views(rows: Seq<(NoteId, String)>) -> Seq<(Seq<char>, Seq<char>)> {
    Seq::new(rows.len(), |i: int| (rows[i].0@, rows[i].1@))
}

/// Whether every path in the index is one that can be scored.
pub open spec fn fits(nb: NotebookView) -> bool {
    forall|id: Seq<char>| #[trigger] nb.index.contains_key(id) ==> id.len() <= search::LONGEST_PATH
}

/// A note as the tree needs it.
pub open spec fn listed_note(
    nb: NotebookView,
    times: Map<Seq<char>, (u64, u64)>,
    id: Seq<char>,
) -> tree::ListedView {
    let (modified, created) = if nb.sort == Sort::Name || nb.vault is None || !times.contains_key(
        id,
    ) {
        (0u64, 0u64)
    } else {
        times[id]
    };
    tree::ListedView { id, excerpt: excerpt_in(nb.index, id), modified, created }
}

/// The folders that some notes are in, and those that those are in.
pub open spec fn folders_of(ids: Seq<Seq<char>>) -> Set<Seq<char>> {
    Set::new(
        |folder: Seq<char>|
            exists|i: int|
                0 <= i < ids.len() && tree::ancestors(tree::home(#[trigger] ids[i])).contains(
                    folder,
                ),
    )
}

/// What the sidebar's tree is drawn from.
///
/// A tag filter is a question about notes, not about folders. So the empty
/// folders drop out of the tree while one is on rather than sitting there
/// claiming to hold something, and every folder that does hold a match is
/// opened: a filter whose results are behind a chevron looks like it found
/// nothing.
pub open spec fn sidebar(
    nb: NotebookView,
    times: Map<Seq<char>, (u64, u64)>,
    folders: Seq<Seq<char>>,
) -> tree::Tree {
    tree::tree(
        tagged_ids(nb).map_values(|id: Seq<char>| listed_note(nb, times, id)),
        if nb.filter is None && nb.vault is Some {
            folders
        } else {
            seq![]
        },
        if nb.filter is Some {
            folders_of(tagged_ids(nb))
        } else {
            nb.expanded
        },
        nb.sort,
    )
}

/// The tag that a filter asks for.
pub open spec fn wanted_tag(tag: Seq<char>) -> Seq<char> {
    text::lowercase(index::unhashed(tag))
}

/// Whether some note carries a tag.
pub open spec fn is_carried(nb: NotebookView, tag: Seq<char>) -> bool {
    ordered::ascending(
        index::under(index::tagged(nb.index), text::lowercase(index::unhashed(tag))),
    ).len() > 0
}

/// The notebook once its list was filtered.
pub open spec fn filtered(nb: NotebookView, tag: Option<Seq<char>>) -> NotebookView {
    NotebookView {
        filter: match tag {
            Some(tag) => if is_carried(nb, wanted_tag(tag)) {
                Some(wanted_tag(tag))
            } else {
                None
            },
            None => None,
        },
        ..nb
    }
}

/// The notebook once a folder was opened or closed.
pub open spec fn toggled(nb: NotebookView, path: Seq<char>) -> NotebookView {
    NotebookView {
        expanded: if nb.expanded.contains(path) {
            nb.expanded.remove(path)
        } else {
            nb.expanded.insert(path)
        },
        target_folder: Some(path),
        ..nb
    }
}

fn unhash(tag: &str) -> (r: String)
    ensures
        r@ == index::unhashed(tag@),
{
    let chars = text::chars_of(tag);
    let mut from: usize = 0;
    assert(chars@.skip(0) =~= chars@);
    while from < chars.len() && chars[from] == '#'
        invariant
            from <= chars@.len(),
            index::unhashed(chars@) == index::unhashed(chars@.skip(from as int)),
        decreases chars@.len() - from,
    {
        assert(chars@.skip(from as int).skip(1) =~= chars@.skip(from + 1));
        from = from + 1;
    }
    let rest = text::part(&chars, from, chars.len());
    assert(rest@ =~= index::unhashed(tag@));
    text::string_of(&rest)
}

fn holds(ids: &Vec<NoteId>, id: &NoteId) -> (r: bool)
    ensures
        r == text::views(ids@).contains(id@),
{
    let ghost all = text::views(ids@);
    let mut i: usize = 0;
    while i < ids.len()
        invariant
            i <= ids@.len(),
            all == text::views(ids@),
            forall|j: int| 0 <= j < i ==> #[trigger] all[j] != id@,
        decreases ids@.len() - i,
    {
        if ids[i].same(id) {
            assert(all[i as int] == id@);
            return true;
        }
        assert(all[i as int] != id@);
        i = i + 1;
    }
    false
}

fn snippet_in(found: &search::TextMatch) -> (r: String)
    ensures
        r@ == first_snippet(found@),
{
    let r = if found.snippets.len() > 0 {
        assert(text::views(found.snippets@)[0] == found.snippets@[0]@);
        copied(found.snippets[0].text.as_str())
    } else {
        String::new()
    };
    assert(r@ =~= first_snippet(found@));
    r
}

fn line_matched(found: &Vec<search::TextMatch>, id: &NoteId) -> (r: Option<String>)
    ensures
        view_of(r) == matching_line(text::views(found@), id@),
{
    let ghost all = text::views(found@);
    let mut i: usize = 0;
    assert(all.len() == found@.len());
    while i < found.len()
        invariant
            i <= found@.len() == all.len(),
            all == text::views(found@),
            matching_line(all.take(i as int), id@) is None,
        decreases found@.len() - i,
    {
        assert(all.take(i + 1).drop_last() =~= all.take(i as int));
        assert(all.take(i + 1).last() == found@[i as int]@);
        if found[i].id.same(id) {
            let line = snippet_in(&found[i]);
            proof {
                lemma_matching_line(all, i + 1, id@);
            }
            return Some(line);
        }
        i = i + 1;
    }
    assert(all.take(all.len() as int) =~= all);
    None
}

proof fn lemma_matching_line(found: Seq<search::TextMatchView>, n: int, id: Seq<char>)
    requires
        0 <= n <= found.len(),
        matching_line(found.take(n), id) is Some,
    ensures
        matching_line(found, id) == matching_line(found.take(n), id),
    decreases found.len() - n,
{
    if n < found.len() {
        assert(found.take(n + 1).drop_last() =~= found.take(n));
        lemma_matching_line(found, n + 1, id);
    } else {
        assert(found.take(n) =~= found);
    }
}

fn is_row(rows: &Vec<(NoteId, String)>, id: &NoteId) -> (r: bool)
    ensures
        r == is_on(row_views(rows@), id@),
{
    let ghost all = row_views(rows@);
    let mut i: usize = 0;
    while i < rows.len()
        invariant
            i <= rows@.len(),
            all == row_views(rows@),
            forall|j: int| 0 <= j < i ==> (#[trigger] all[j]).0 != id@,
        decreases rows@.len() - i,
    {
        if rows[i].0.same(id) {
            assert(all[i as int].0 == id@);
            return true;
        }
        assert(all[i as int].0 != id@);
        i = i + 1;
    }
    false
}

impl Notebook {
    /// Whether the sidebar is showing results rather than the tree.
    pub fn is_searching(&self) -> (r: bool)
        ensures
            r == searching(self@),
    {
        text::trim_chars(&text::chars_of(self.query.as_str())).len() > 0
    }

    fn tagged_ids(&self) -> (r: Vec<NoteId>)
        ensures
            text::views(r@) == tagged_ids(self@),
    {
        match &self.filter {
            Some(tag) => self.shelf.index().notes_tagged(tag.as_str()),
            None => self.shelf.index().ids(),
        }
    }

    /// The notes the sidebar is showing: every note, or the ones carrying the
    /// active tag, or the ones matching the search, in path order so folders
    /// group and nothing ever reshuffles, unless a search has ranked them.
    pub fn listed_notes(&self) -> (r: Vec<(NoteId, String)>)
        requires
            searching(self@) ==> fits(self@),
        ensures
            row_views(r@) == shown(self@),
    {
        if self.is_searching() {
            return self.search_results();
        }
        let ids = self.tagged_ids();
        let ghost wanted = with_excerpts(self@.index, tagged_ids(self@));
        let mut r: Vec<(NoteId, String)> = Vec::new();
        let mut i: usize = 0;
        assert(text::views(ids@).len() == ids@.len());
        assert(row_views(r@) =~= wanted.take(0));
        while i < ids.len()
            invariant
                i <= ids@.len() == wanted.len(),
                text::views(ids@) == tagged_ids(self@),
                wanted == with_excerpts(self@.index, tagged_ids(self@)),
                row_views(r@) == wanted.take(i as int),
            decreases ids@.len() - i,
        {
            let id = ids[i].clone();
            assert(text::views(ids@)[i as int] == id@);
            let excerpt = copied(self.shelf.index().excerpt(&id));
            assert(wanted[i as int] == (id@, excerpt@));
            let ghost was = r@;
            r.push((id, excerpt));
            assert(row_views(r@) =~= row_views(was).push((id@, excerpt@)));
            assert(wanted.take(i + 1) =~= wanted.take(i as int).push(wanted[i as int]));
            i = i + 1;
        }
        assert(wanted.take(wanted.len() as int) =~= wanted);
        r
    }

    /// What the sidebar search matched, best first.
    ///
    /// Titles before text, because someone typing into a list of notes is
    /// usually reaching for one they can name. A note matched by both appears
    /// once, at its title rank, with the matching line as its excerpt so the
    /// row says why it is there.
    pub fn search_results(&self) -> (r: Vec<(NoteId, String)>)
        requires
            searching(self@) ==> fits(self@),
        ensures
            row_views(r@) == results(self@),
    {
        let query = text::trimmed(self.query.as_str());
        let mut out: Vec<(NoteId, String)> = Vec::new();
        if text::chars_of(query.as_str()).len() == 0 {
            assert(row_views(out@) =~= seq![]);
            return out;
        }
        let allowed = self.tagged_ids();
        let ghost entries = self@.index;
        let ghost allow = tagged_ids(self@);
        let titles = search::by_title(self.shelf.index(), query.as_str(), LOOKED_AT);
        let ghost by_title = text::views(titles@);
        assert(by_title == search::title_results(entries, query@, LOOKED_AT as int));
        let texts = search::by_text(self.shelf.index(), query.as_str(), LOOKED_AT);
        let ghost by_text = text::views(texts@);
        let mut i: usize = 0;
        assert(by_title.len() == titles@.len());
        assert(row_views(out@) =~= title_rows(entries, allow, by_title.take(0), by_text));
        while i < titles.len()
            invariant
                i <= titles@.len() == by_title.len(),
                by_title == text::views(titles@),
                by_text == text::views(texts@),
                entries == self@.index,
                text::views(allowed@) == allow,
                row_views(out@) == title_rows(entries, allow, by_title.take(i as int), by_text),
            decreases titles@.len() - i,
        {
            assert(by_title.take(i + 1).drop_last() =~= by_title.take(i as int));
            assert(by_title.take(i + 1).last() == titles@[i as int]@);
            let id = &titles[i].id;
            if holds(&allowed, id) {
                let excerpt = match line_matched(&texts, id) {
                    Some(line) => line,
                    None => copied(self.shelf.index().excerpt(id)),
                };
                assert(excerpt@ == said_of(entries, by_text, id@));
                let ghost was = out@;
                let id = id.clone();
                out.push((id, excerpt));
                assert(row_views(out@) =~= row_views(was).push((id@, excerpt@)));
            }
            i = i + 1;
        }
        assert(by_title.take(by_title.len() as int) =~= by_title);
        let ghost rows = row_views(out@);
        let mut k: usize = 0;
        assert(by_text.len() == texts@.len());
        assert(by_text.take(0) =~= seq![]);
        while k < texts.len()
            invariant
                k <= texts@.len() == by_text.len(),
                by_text == text::views(texts@),
                text::views(allowed@) == allow,
                row_views(out@) == text_rows(rows, allow, by_text.take(k as int)),
            decreases texts@.len() - k,
        {
            assert(by_text.take(k + 1).drop_last() =~= by_text.take(k as int));
            assert(by_text.take(k + 1).last() == texts@[k as int]@);
            let found = &texts[k];
            if holds(&allowed, &found.id) && !is_row(&out, &found.id) {
                let excerpt = snippet_in(found);
                let ghost was = out@;
                let id = found.id.clone();
                out.push((id, excerpt));
                assert(row_views(out@) =~= row_views(was).push((id@, excerpt@)));
            }
            k = k + 1;
        }
        assert(by_text.take(by_text.len() as int) =~= by_text);
        out
    }

    /// The sidebar's tree, folders and all: `times` holds when each note was
    /// last modified and when it was created, where a sort goes by that, and
    /// `folders` the folders on disk.
    pub fn sidebar_rows(&self, times: &TextMap<NoteId, (u64, u64)>, folders: &Vec<String>) -> (r:
        Vec<Row>)
        ensures
            text::views(r@) == tree::branch(
                sidebar(self@, times@, text::views(folders@)),
                seq![],
                0,
            ),
    {
        let ids = self.tagged_ids();
        let ghost order = tagged_ids(self@);
        let ghost wanted = order.map_values(|id: Seq<char>| listed_note(self@, times@, id));
        let mut notes: Vec<Listed> = Vec::new();
        let mut opened: TextMap<String, ()> = TextMap::new();
        let mut i: usize = 0;
        assert(text::views(ids@).len() == ids@.len());
        assert(text::views(notes@) =~= wanted.take(0));
        while i < ids.len()
            invariant
                i <= ids@.len() == order.len() == wanted.len(),
                text::views(ids@) == order,
                wanted == order.map_values(|id: Seq<char>| listed_note(self@, times@, id)),
                text::views(notes@) == wanted.take(i as int),
                forall|folder: Seq<char>| #[trigger]
                    opened@.dom().contains(folder) <==> exists|k: int|
                        0 <= k < i && tree::ancestors(tree::home(#[trigger] order[k])).contains(
                            folder,
                        ),
            decreases ids@.len() - i,
        {
            let id = ids[i].clone();
            assert(order[i as int] == id@);
            let mut modified: u64 = 0;
            let mut created: u64 = 0;
            if self.sort != Sort::Name && self.vault.is_some() {
                if let Some(found) = times.get(id.as_str()) {
                    modified = found.0;
                    created = found.1;
                }
            }
            let folder = match id.folder() {
                Some(folder) => folder,
                None => "",
            };
            proof {
                reveal_strlit("");
                assert(folder@ =~= tree::home(id@));
            }
            let ghost was = opened@.dom();
            index::add_texts(&mut opened, &tree::ancestors_of(folder));
            assert forall|folder: Seq<char>| #[trigger] opened@.dom().contains(folder) <==> exists|
                k: int,
            |
                0 <= k < i + 1 && tree::ancestors(tree::home(#[trigger] order[k])).contains(
                    folder,
                ) by {
                if was.contains(folder) {
                    let k = choose|k: int|
                        0 <= k < i && tree::ancestors(tree::home(#[trigger] order[k])).contains(
                            folder,
                        );
                    assert(tree::ancestors(tree::home(order[k])).contains(folder));
                }
                if tree::ancestors(tree::home(order[i as int])).contains(folder) {
                    assert(tree::ancestors(tree::home(order[i as int])).contains(folder));
                }
            }
            let excerpt = copied(self.shelf.index().excerpt(&id));
            let listed = Listed { id, excerpt, modified, created };
            assert(listed@ == listed_note(self@, times@, order[i as int]));
            assert(wanted[i as int] == listed@);
            proof {
                text::lemma_views_push(notes@, listed);
                assert(wanted.take(i + 1) =~= wanted.take(i as int).push(wanted[i as int]));
            }
            notes.push(listed);
            i = i + 1;
        }
        assert(wanted.take(wanted.len() as int) =~= wanted);
        assert(opened@.dom() =~= folders_of(order));
        let none: Vec<String> = Vec::new();
        assert(text::views(none@) =~= seq![]);
        if self.filter.is_some() {
            tree::rows(&notes, &none, &opened, self.sort)
        } else if self.vault.is_some() {
            tree::rows(&notes, folders, &self.expanded, self.sort)
        } else {
            tree::rows(&notes, &none, &self.expanded, self.sort)
        }
    }

    /// Every tag in the vault, with its note count.
    pub fn tags(&self) -> (r: Vec<(String, usize)>)
        ensures
            Seq::new(r@.len(), |i: int| (r@[i].0@, r@[i].1 as nat)) == index::tag_counts(
                index::tagged(self@.index),
            ),
    {
        self.shelf.index().tags()
    }

    /// The tag the list is filtered by.
    pub fn active_tag(&self) -> (r: Option<String>)
        ensures
            view_of(r) == self@.filter,
    {
        copied_option(&self.filter)
    }

    /// Show only notes carrying `tag`, or all of them.
    ///
    /// A tag that no longer exists clears the filter rather than showing an
    /// empty list with no way out. `false` means exactly that happened.
    pub fn filter_by_tag(&mut self, tag: Option<&str>) -> (r: bool)
        ensures
            final(self)@ == filtered(old(self)@, text_in(tag)),
            r == (tag is None || is_carried(old(self)@, wanted_tag(tag->0@))),
    {
        let ghost before = self@;
        match tag {
            None => {
                self.filter = None;
                assert(self@ =~= filtered(before, None));
                true
            },
            Some(tag) => {
                let wanted = unhash(tag).as_str().to_lowercase();
                let found = self.shelf.index().notes_tagged(wanted.as_str());
                assert(text::views(found@).len() == found@.len());
                let known = found.len() > 0;
                self.filter = if known {
                    Some(wanted)
                } else {
                    None
                };
                assert(self@ =~= filtered(before, Some(tag@)));
                known
            },
        }
    }

    /// Open or close a folder, and make it where the next new note goes.
    pub fn toggle_folder(&mut self, path: &str)
        ensures
            final(self)@ == toggled(old(self)@, path@),
    {
        let ghost before = self@;
        if self.expanded.contains(path) {
            self.expanded.remove(path);
            assert(self.expanded@.dom() =~= before.expanded.remove(path@));
        } else {
            self.expanded.insert(copied(path), ());
            assert(self.expanded@.dom() =~= before.expanded.insert(path@));
        }
        self.target_folder = Some(copied(path));
        assert(self@ =~= toggled(before, path@));
    }

    /// How notes are sorted.
    pub fn sort(&self) -> (r: Sort)
        ensures
            r == self@.sort,
    {
        self.sort
    }

    /// Sort notes another way.
    pub fn set_sort(&mut self, sort: Sort)
        ensures
            final(self)@ == (NotebookView { sort, ..old(self)@ }),
    {
        let ghost before = self@;
        self.sort = sort;
        assert(self@ =~= (NotebookView { sort, ..before }));
    }

    /// What the sidebar's search entry holds.
    pub fn query(&self) -> (r: &str)
        ensures
            r@ == self@.query,
    {
        self.query.as_str()
    }

    /// Filter the sidebar by what was typed into its search entry. `false` when
    /// nothing changed, so the rebuild can be skipped.
    pub fn set_query(&mut self, query: &str) -> (r: bool)
        ensures
            final(self)@ == (NotebookView { query: query@, ..old(self)@ }),
            r == (old(self)@.query != query@),
    {
        let ghost before = self@;
        if text::same(self.query.as_str(), query) {
            assert(self@ =~= (NotebookView { query: query@, ..before }));
            return false;
        }
        self.query = copied(query);
        assert(self@ =~= (NotebookView { query: query@, ..before }));
        true
    }
}

// ---- links and search ----

/// One palette row: a note, what to say about it, and which part to highlight.
#[derive(Debug, Clone, PartialEq, Eq)]
pub struct Hit {
    /// The note's id, reported verbatim when the row is chosen.
    pub id: String,
    pub title: String,
    /// The folder, or the matching line in text mode.
    pub detail: String,
    /// Character range within `detail` to mark, if any.
    pub highlight: Option<(usize, usize)>,
}

/// One palette row, by its texts.
#[verifier::ext_equal]
pub struct HitView {
    pub id: Seq<char>,
    pub title: Seq<char>,
    pub detail: Seq<char>,
    pub highlight: Option<(int, int)>,
}

impl View for Hit {
    type V = HitView;

    open spec fn view(&self) -> HitView {
        HitView {
            id: self.id@,
            title: self.title@,
            detail: self.detail@,
            highlight: match self.highlight {
                Some((start, end)) => Some((start as int, end as int)),
                None => None,
            },
        }
    }
}

/// The row of a note found by its title: its folder is shown, since two notes
/// can share a title and the path is the only thing telling them apart.
pub open spec fn title_hit(id: Seq<char>) -> HitView {
    HitView { id, title: note::title(id), detail: tree::home(id), highlight: None }
}

/// The row of a note found by its text. It is underlined where the words are,
/// and not at all when the vectors found it and the words are not there.
pub open spec fn text_hit(hit: search::HitView, query: Seq<char>) -> HitView {
    HitView {
        id: hit.id,
        title: note::title(hit.id),
        detail: hit.snippet,
        highlight: search::highlight(hit.snippet, query),
    }
}

/// How many completions are offered for a link.
pub const OFFERED: usize = 16;

/// How many rows the palette has.
pub const PALETTE: usize = 30;

/// The titles of some matches, one note's left out.
pub open spec fn titles_but(found: Seq<search::TitleMatchView>, open: Option<Seq<char>>) -> Seq<
    Seq<char>,
>
    decreases found.len(),
{
    if found.len() == 0 {
        seq![]
    } else {
        let before = titles_but(found.drop_last(), open);
        let id = found.last().id;
        if open == Some(id) {
            before
        } else {
            before.push(note::title(id))
        }
    }
}

/// The links that point at the open note, each with the line it is on.
pub open spec fn links_here(nb: NotebookView) -> Seq<(Seq<char>, Seq<char>)> {
    match open_id(nb) {
        None => seq![],
        Some(id) => index::listed(index::graph(nb.index).backlinks, id),
    }
}

/// Whether the vector for a query is still to be had.
pub open spec fn wants_embedding(nb: NotebookView, query: Seq<char>) -> bool {
    match nb.query_vector {
        Some((embedded, _)) => embedded != query,
        None => true,
    }
}

impl Notebook {
    /// Candidates for a `[[` completion, by title, alias and path. Linking a
    /// note to itself is never what was meant.
    pub fn link_candidates(&self, query: &str) -> (r: Vec<String>)
        requires
            search::names_fit(self@.index),
        ensures
            text::views(r@) == titles_but(
                named(self@.index, query@, 16),
                open_id(self@),
            ),
    {
        assert(self@.index == self.shelf@);
        let found = search::by_name(self.shelf.index(), query, OFFERED);
        let ghost all = text::views(found@);
        let ghost open = open_id(self@);
        let here = self.open_note_id();
        let mut r: Vec<String> = Vec::new();
        let mut i: usize = 0;
        assert(text::views(r@) =~= titles_but(all.take(0), open));
        while i < found.len()
            invariant
                i <= found@.len(),
                all == text::views(found@),
                view_of(here) == open,
                text::views(r@) == titles_but(all.take(i as int), open),
            decreases found@.len() - i,
        {
            assert(all.take(i + 1).drop_last() =~= all.take(i as int));
            assert(all.take(i + 1).last() == found@[i as int]@);
            let id = &found[i].id;
            let own = match &here {
                Some(open) => open.same(id),
                None => false,
            };
            if !own {
                let title = copied(id.title());
                proof {
                    text::lemma_views_push(r@, title);
                }
                r.push(title);
            }
            i = i + 1;
        }
        assert(all.take(all.len() as int) =~= all);
        r
    }

    /// What a `[[link]]` points at. The shell decides whether that means open
    /// it, offer to write it, or ask which of two was meant.
    pub fn resolve_link(&self, target: &str) -> (r: Resolution)
        ensures
            r@ == index::resolved(self@.index, target@, open_id(self@)),
    {
        match &self.open {
            Some(open) => self.shelf.index().resolve(target, Some(&open.note.id)),
            None => self.shelf.index().resolve(target, None),
        }
    }

    /// The notes linking to the open one, each with the line it was linked
    /// from.
    pub fn backlinks_of_open_note(&self) -> (r: Vec<(NoteId, String)>)
        ensures
            row_views(r@) == links_here(self@),
    {
        let mut r: Vec<(NoteId, String)> = Vec::new();
        assert(row_views(r@) =~= seq![]);
        let id = match self.open_note_id() {
            None => return r,
            Some(id) => id,
        };
        let links = match self.shelf.index().backlinks(&id) {
            None => return r,
            Some(links) => &links.links,
        };
        let ghost all = text::views(links@);
        let mut i: usize = 0;
        while i < links.len()
            invariant
                i <= links@.len(),
                all == text::views(links@),
                row_views(r@) == all.take(i as int),
            decreases links@.len() - i,
        {
            let from = links[i].from.clone();
            let context = links[i].context.clone();
            assert(all[i as int] == (from@, context@));
            let ghost was = r@;
            r.push((from, context));
            assert(row_views(r@) =~= row_views(was).push((from@, context@)));
            assert(all.take(i + 1) =~= all.take(i as int).push(all[i as int]));
            i = i + 1;
        }
        assert(all.take(all.len() as int) =~= all);
        r
    }

    /// Answer a palette query, and say whether the query's vector is still to
    /// be had.
    ///
    /// In text mode `found` is what the hybrid search found; it goes unused in
    /// title mode. The vector half of that is whatever is already known about
    /// the query, so the first answer is lexical and the fused one replaces it
    /// a moment later.
    pub fn search(&self, query: &str, mode: Mode, found: &Vec<search::Hit>) -> (r: (Vec<Hit>, bool))
        requires
            mode == Mode::Title ==> search::names_fit(self@.index),
        ensures
            mode == Mode::Title ==> text::views(r.0@) == named(
                self@.index,
                query@,
                30,
            ).map_values(|m: search::TitleMatchView| title_hit(m.id)) && !r.1,
            mode == Mode::Text ==> text::views(r.0@) == text::views(found@).map_values(
                |hit: search::HitView| text_hit(hit, query@),
            ) && r.1 == wants_embedding(self@, query@),
    {
        match mode {
            Mode::Title => (self.title_hits(query), false),
            Mode::Text => (text_hits(found, query), self.vector_for(query).is_none()),
        }
    }

    fn title_hits(&self, query: &str) -> (r: Vec<Hit>)
        requires
            search::names_fit(self@.index),
        ensures
            text::views(r@) == named(self@.index, query@, 30).map_values(
                |m: search::TitleMatchView| title_hit(m.id),
            ),
    {
        assert(self@.index == self.shelf@);
        let found = search::by_name(self.shelf.index(), query, PALETTE);
        let ghost all = text::views(found@);
        let ghost wanted = all.map_values(|m: search::TitleMatchView| title_hit(m.id));
        let mut r: Vec<Hit> = Vec::new();
        let mut i: usize = 0;
        assert(text::views(r@) =~= wanted.take(0));
        while i < found.len()
            invariant
                i <= found@.len() == wanted.len(),
                all == text::views(found@),
                wanted == all.map_values(|m: search::TitleMatchView| title_hit(m.id)),
                text::views(r@) == wanted.take(i as int),
            decreases found@.len() - i,
        {
            let id = &found[i].id;
            assert(all[i as int].id == id@);
            let folder = match id.folder() {
                Some(folder) => folder,
                None => "",
            };
            proof {
                reveal_strlit("");
                assert(folder@ =~= tree::home(id@));
            }
            let hit = Hit {
                id: copied(id.as_str()),
                title: copied(id.title()),
                detail: copied(folder),
                highlight: None,
            };
            assert(hit@ =~= wanted[i as int]);
            proof {
                text::lemma_views_push(r@, hit);
                assert(wanted.take(i + 1) =~= wanted.take(i as int).push(wanted[i as int]));
            }
            r.push(hit);
            i = i + 1;
        }
        assert(wanted.take(wanted.len() as int) =~= wanted);
        r
    }
}

fn text_hits(found: &Vec<search::Hit>, query: &str) -> (r: Vec<Hit>)
    ensures
        text::views(r@) == text::views(found@).map_values(
            |hit: search::HitView| text_hit(hit, query@),
        ),
{
    let ghost all = text::views(found@);
    let ghost wanted = all.map_values(|hit: search::HitView| text_hit(hit, query@));
    let mut r: Vec<Hit> = Vec::new();
    let mut i: usize = 0;
    assert(text::views(r@) =~= wanted.take(0));
    while i < found.len()
        invariant
            i <= found@.len() == wanted.len(),
            all == text::views(found@),
            wanted == all.map_values(|hit: search::HitView| text_hit(hit, query@)),
            text::views(r@) == wanted.take(i as int),
        decreases found@.len() - i,
    {
        let one = &found[i];
        assert(all[i as int] == one@);
        let hit = Hit {
            id: copied(one.id.as_str()),
            title: copied(one.id.title()),
            detail: one.snippet.clone(),
            highlight: search::highlight_of(one.snippet.as_str(), query),
        };
        assert(hit@ =~= wanted[i as int]);
        proof {
            text::lemma_views_push(r@, hit);
            assert(wanted.take(i + 1) =~= wanted.take(i as int).push(wanted[i as int]));
        }
        r.push(hit);
        i = i + 1;
    }
    assert(wanted.take(wanted.len() as int) =~= wanted);
    r
}

// ---- attachments ----

/// The names that were attached.
pub open spec fn attached_names(tried: Seq<Result<String, VaultError>>) -> Seq<Seq<char>>
    decreases tried.len(),
{
    if tried.len() == 0 {
        seq![]
    } else {
        let before = attached_names(tried.drop_last());
        match tried.last() {
            Ok(name) => before.push(name@),
            Err(_) => before,
        }
    }
}

/// A file in the attachments.
#[derive(Debug)]
pub struct Name {
    pub name: String,
}

impl View for Name {
    type V = Seq<char>;

    open spec fn view(&self) -> Seq<char> {
        self.name@
    }
}

impl Ranked for Name {
    open spec fn before(a: Seq<char>, b: Seq<char>) -> bool {
        ordered::precedes(a, b)
    }

    fn goes_before(&self, other: &Self) -> (r: bool) {
        ordered::comes_before(self.name.as_str(), other.name.as_str())
    }
}

/// The files that are neither hidden nor referred to.
pub open spec fn unreferenced(files: Seq<Seq<char>>, referenced: Set<Seq<char>>) -> Seq<Seq<char>>
    decreases files.len(),
{
    if files.len() == 0 {
        seq![]
    } else {
        let before = unreferenced(files.drop_last(), referenced);
        let name = files.last();
        if (name.len() > 0 && name[0] == '.') || referenced.contains(name) {
            before
        } else {
            before.push(name)
        }
    }
}

/// The attachments that no note refers to, in order.
pub open spec fn unused(nb: NotebookView, files: Seq<Seq<char>>) -> Seq<Seq<char>> {
    if nb.vault is None {
        seq![]
    } else {
        ranked::ranked::<Name>(unreferenced(files, index::embedded(nb.index)))
    }
}

impl Notebook {
    /// Files were copied into the vault: `tried` holds, for each, the name it
    /// got or why it could not be. The names come back to be embedded.
    pub fn attach_files(&self, tried: Vec<Result<String, VaultError>>) -> (r: Attached)
        ensures
            self@.vault is None ==> r.names@.len() == 0 && r.failures == 0,
            self@.vault is Some ==> text::views(r.names@) == attached_names(tried@)
                && r.names@.len() + r.failures == tried@.len(),
    {
        let mut names: Vec<String> = Vec::new();
        let mut failures: usize = 0;
        if self.vault.is_none() {
            return Attached { names, failures };
        }
        let mut tried = tried;
        let ghost all = tried@;
        let total = tried.len();
        let ghost mut done: int = 0;
        assert(text::views(names@) =~= attached_names(all.take(0)));
        while tried.len() > 0
            invariant
                0 <= done <= all.len() == total,
                tried@ == all.skip(done),
                text::views(names@) == attached_names(all.take(done)),
                names@.len() + failures == done,
            decreases tried@.len(),
        {
            let one = tried.remove(0);
            assert(one == all[done]);
            assert(tried@ =~= all.skip(done + 1));
            assert(all.take(done + 1).drop_last() =~= all.take(done));
            match one {
                Ok(name) => {
                    proof {
                        text::lemma_views_push(names@, name);
                    }
                    names.push(name);
                },
                Err(_) => {
                    failures = failures + 1;
                },
            }
            proof {
                done = done + 1;
            }
        }
        assert(all.take(done) =~= all);
        Attached { names, failures }
    }

    /// The attachments that no note refers to, given the files there are.
    pub fn unused_attachments(&self, files: &Vec<String>) -> (r: Vec<String>)
        ensures
            text::views(r@) == unused(self@, text::views(files@)),
    {
        let mut r: Vec<String> = Vec::new();
        assert(text::views(r@) =~= seq![]);
        if self.vault.is_none() {
            return r;
        }
        let referenced = self.shelf.index().referenced_attachments();
        let ghost all = text::views(files@);
        let ghost refs = index::embedded(self@.index);
        let mut left: Vec<Name> = Vec::new();
        let mut i: usize = 0;
        assert(text::views(left@) =~= unreferenced(all.take(0), refs));
        while i < files.len()
            invariant
                i <= files@.len(),
                all == text::views(files@),
                referenced@.dom() == refs,
                text::views(left@) == unreferenced(all.take(i as int), refs),
            decreases files@.len() - i,
        {
            assert(all.take(i + 1).drop_last() =~= all.take(i as int));
            assert(all.take(i + 1).last() == files@[i as int]@);
            let name = files[i].as_str();
            let chars = text::chars_of(name);
            if !(chars.len() > 0 && chars[0] == '.') && !referenced.contains(name) {
                let one = Name { name: copied(name) };
                proof {
                    text::lemma_views_push(left@, one);
                }
                left.push(one);
            }
            i = i + 1;
        }
        assert(all.take(all.len() as int) =~= all);
        let sorted = ranked::rank(left);
        let ghost order = text::views(sorted@);
        let mut k: usize = 0;
        while k < sorted.len()
            invariant
                k <= sorted@.len(),
                order == text::views(sorted@),
                text::views(r@) == order.take(k as int),
            decreases sorted@.len() - k,
        {
            let name = sorted[k].name.clone();
            assert(order[k as int] == name@);
            proof {
                text::lemma_views_push(r@, name);
                assert(order.take(k + 1) =~= order.take(k as int).push(name@));
            }
            r.push(name);
            k = k + 1;
        }
        assert(order.take(order.len() as int) =~= order);
        r
    }
}

// ---- creating, renaming, deleting ----

/// `parent` and `name` as one vault-relative path. An empty parent is the vault
/// root, where a leading `/` would name something outside it.
pub open spec fn under(parent: Seq<char>, name: Seq<char>) -> Seq<char> {
    if parent.len() == 0 {
        name
    } else {
        parent + seq!['/'] + name
    }
}

/// `parent` and `name` as one vault-relative path.
pub fn join(parent: &str, name: &str) -> (r: String)
    ensures
        r@ == under(parent@, name@),
{
    let mut out = text::chars_of(parent);
    if out.len() > 0 {
        out.push('/');
    }
    text::extend(&mut out, &text::chars_of(name));
    assert(out@ =~= under(parent@, name@));
    text::string_of(&out)
}

/// Where a new note or folder goes.
pub open spec fn current(nb: NotebookView) -> Seq<char> {
    match nb.target_folder {
        Some(folder) => folder,
        None => match open_id(nb) {
            Some(id) => tree::home(id),
            None => seq![],
        },
    }
}

/// What is put behind a title at an attempt to name a note by it.
pub open spec fn suffix(attempt: nat) -> Seq<char> {
    if attempt == 0 {
        seq![]
    } else {
        seq![' '] + text::decimal(attempt + 1)
    }
}

/// The id tried for a title at an attempt: the title, and then the title with a
/// number behind it.
pub open spec fn attempt_id(folder: Seq<char>, title: Seq<char>, attempt: nat) -> Seq<char> {
    paths::relative(under(folder, title + suffix(attempt) + ".md"@))
}

/// Whether an attempt is the first whose id is free.
pub open spec fn is_first_free(
    folder: Seq<char>,
    title: Seq<char>,
    taken: Set<Seq<char>>,
    attempt: nat,
) -> bool {
    &&& !taken.contains(attempt_id(folder, title, attempt))
    &&& forall|k: nat| k < attempt ==> taken.contains(#[trigger] attempt_id(folder, title, k))
}

/// A free id for a title, suffixed if that name is taken.
pub open spec fn free_id(folder: Seq<char>, title: Seq<char>, taken: Set<Seq<char>>) -> Seq<char> {
    attempt_id(
        folder,
        title,
        choose|attempt: nat| is_first_free(folder, title, taken, attempt),
    )
}

/// The part of an id that does not change from one attempt to the next.
spec fn shared(folder: Seq<char>, title: Seq<char>) -> Seq<char> {
    let whole = under(folder, title);
    match text::find_last(whole, '/') {
        None => seq![],
        Some(i) => if i == 0 {
            seq!['/', '/']
        } else {
            paths::relative(whole.take(i)) + seq!['/']
        },
    }
}

proof fn lemma_attempt(folder: Seq<char>, title: Seq<char>, attempt: nat)
    ensures
        attempt_id(folder, title, attempt) == shared(folder, title) + (paths::file_name(
            under(folder, title),
        ) + suffix(attempt) + ".md"@),
{
    reveal_strlit(".md");
    let whole = under(folder, title);
    let tail = suffix(attempt) + ".md"@;
    let last = paths::file_name(whole);
    let name = last + suffix(attempt) + ".md"@;
    let full = under(folder, title + suffix(attempt) + ".md"@);
    assert(full =~= whole + tail);
    text::lemma_find_last(whole, '/');
    assert forall|k: int| 0 <= k < suffix(attempt).len() implies suffix(attempt)[k] != '/' by {
        if k > 0 {
            lemma_digits(attempt + 1, k - 1);
        }
    }
    assert forall|k: int| 0 <= k < name.len() implies name[k] != '/' by {
        if k < last.len() {
            match text::find_last(whole, '/') {
                Some(i) => {
                    assert(last[k] == whole[k + i + 1]);
                },
                None => {},
            }
        } else if k < last.len() + suffix(attempt).len() {
            assert(name[k] == suffix(attempt)[k - last.len()]);
        }
    }
    assert(name.len() >= 3);
    assert(name != seq!['.']);
    match text::find_last(whole, '/') {
        None => {
            assert(full =~= name);
            paths::lemma_relative_of_name(name);
            assert(paths::relative(full) =~= shared(folder, title) + name);
        },
        Some(i) => {
            assert(full =~= whole.take(i) + seq!['/'] + name);
            if i > 0 {
                paths::lemma_relative_of_child(whole.take(i), name);
                assert(paths::relative(full) =~= shared(folder, title) + name);
            } else {
                let none = Seq::<char>::empty();
                assert(full =~= none.push('/') + name);
                assert(!name.contains('/'));
                text::lemma_split_append(none, '/', name);
                assert(text::split_on(none, '/') =~= seq![none]);
                let pieces = seq![none].push(name);
                assert(pieces.drop_last() =~= seq![none]);
                assert(seq![none].drop_last() =~= Seq::<Seq<char>>::empty());
                reveal_with_fuel(paths::named, 3);
                assert(paths::named(pieces) =~= seq![name]);
                let parts = paths::components(full);
                assert(parts =~= seq![seq!['/'], name]);
                assert(parts.drop_last() =~= seq![seq!['/']]);
                reveal_with_fuel(text::join, 2);
                assert(paths::relative(full) =~= shared(folder, title) + name);
            }
        },
    }
}

proof fn lemma_digits(n: nat, k: int)
    requires
        0 <= k < text::decimal(n).len(),
    ensures
        text::decimal(n)[k] != '/',
    decreases n,
{
    assert(text::digit(n % 10) as int == 48 + n % 10);
    if n >= 10 {
        if k < text::decimal(n / 10).len() {
            lemma_digits(n / 10, k);
        }
    }
}

/// No two attempts to name a note try one id.
pub proof fn lemma_no_id_is_tried_twice(folder: Seq<char>, title: Seq<char>, a: nat, b: nat)
    requires
        attempt_id(folder, title, a) == attempt_id(folder, title, b),
    ensures
        a == b,
{
    lemma_attempt(folder, title, a);
    lemma_attempt(folder, title, b);
    let start = shared(folder, title) + paths::file_name(under(folder, title));
    let x = attempt_id(folder, title, a);
    let y = attempt_id(folder, title, b);
    assert(x =~= start + suffix(a) + ".md"@);
    assert(y =~= start + suffix(b) + ".md"@);
    assert(suffix(a).len() == suffix(b).len());
    assert(suffix(a) =~= x.subrange(start.len() as int, (start.len() + suffix(a).len()) as int));
    assert(suffix(b) =~= y.subrange(start.len() as int, (start.len() + suffix(b).len()) as int));
    if a > 0 {
        assert(suffix(a).len() > 0);
        assert(b > 0);
        assert(text::decimal(a + 1) =~= suffix(a).skip(1));
        assert(text::decimal(b + 1) =~= suffix(b).skip(1));
        text::lemma_decimal(a + 1, b + 1);
    } else if b > 0 {
        assert(suffix(b).len() > 0);
    }
}

proof fn lemma_attempts_run_out(folder: Seq<char>, title: Seq<char>, taken: Set<Seq<char>>, n: nat)
    requires
        taken.finite(),
        forall|k: nat| k < n ==> taken.contains(#[trigger] attempt_id(folder, title, k)),
    ensures
        n <= taken.len(),
{
    let tried = Seq::new(n, |k: int| attempt_id(folder, title, k as nat));
    assert(tried.no_duplicates()) by {
        assert forall|i: int, j: int|
            0 <= i < tried.len() && 0 <= j < tried.len() && i != j implies tried[i]
            != tried[j] by {
            if tried[i] == tried[j] {
                lemma_no_id_is_tried_twice(folder, title, i as nat, j as nat);
            }
        }
    }
    tried.unique_seq_to_set();
    assert(tried.to_set().subset_of(taken)) by {
        assert forall|id: Seq<char>| tried.to_set().contains(id) implies taken.contains(id) by {
            let i = choose|i: int| 0 <= i < tried.len() && tried[i] == id;
            assert(taken.contains(attempt_id(folder, title, i as nat)));
        }
    }
    vstd::set_lib::lemma_len_subset(tried.to_set(), taken);
}

/// There is always a free id for a title, and it is the one that is taken.
pub proof fn lemma_a_free_id_is_free(
    folder: Seq<char>,
    title: Seq<char>,
    taken: Set<Seq<char>>,
    attempt: nat,
)
    requires
        is_first_free(folder, title, taken, attempt),
    ensures
        free_id(folder, title, taken) == attempt_id(folder, title, attempt),
        !taken.contains(free_id(folder, title, taken)),
{
    let other = choose|attempt: nat| is_first_free(folder, title, taken, attempt);
    assert(is_first_free(folder, title, taken, other));
    if other < attempt {
        assert(taken.contains(attempt_id(folder, title, other)));
    } else if attempt < other {
        assert(taken.contains(attempt_id(folder, title, attempt)));
    }
}

/// A free id for `title`, suffixed if that name is taken.
pub fn unique_id(folder: &str, title: &str, taken: &TextMap<NoteId, ()>) -> (r: NoteId)
    requires
        taken@.dom().len() < u64::MAX - 1,
    ensures
        r@ == free_id(folder@, title@, taken@.dom()),
        !taken@.contains_key(r@),
{
    let n = taken.len();
    let mut attempt: u64 = 0;
    loop
        invariant
            n == taken@.dom().len(),
            n < u64::MAX - 1,
            taken@.dom().finite(),
            attempt <= n,
            forall|k: nat|
                k < attempt ==> taken@.dom().contains(
                    #[trigger] attempt_id(folder@, title@, k),
                ),
        decreases n - attempt,
    {
        let mut name = text::chars_of(title);
        if attempt > 0 {
            name.push(' ');
            text::extend(&mut name, &text::decimal_of(attempt + 1));
        }
        assert(name@ =~= title@ + suffix(attempt as nat));
        text::extend(&mut name, &text::chars_of(".md"));
        let id = NoteId::from_relative(join(folder, text::string_of(&name).as_str()).as_str());
        assert(id@ == attempt_id(folder@, title@, attempt as nat));
        if !taken.contains(id.as_str()) {
            proof {
                lemma_a_free_id_is_free(folder@, title@, taken@.dom(), attempt as nat);
            }
            return id;
        }
        proof {
            lemma_attempts_run_out(folder@, title@, taken@.dom(), (attempt + 1) as nat);
        }
        attempt = attempt + 1;
    }
}

/// The notebook once a note was created, and where it is or why it is not.
pub open spec fn created(
    nb: NotebookView,
    id: Seq<char>,
    made: Result<(), VaultError>,
    scan: markdown::ScanView,
    bytes: Result<Vec<u8>, String>,
) -> (NotebookView, Result<Seq<char>, FailedView>) {
    if nb.vault is None {
        (nb, Err(FailedView::NoVault))
    } else {
        match made {
            Err(error) => (nb, Err(FailedView::Vault(error@))),
            Ok(_) => {
                let note = note::read(id, seq![]);
                let now = NotebookView {
                    index: nb.index.insert(id, index::entry(note, scan)),
                    ..nb
                };
                (
                    loaded(now, id, bytes),
                    match load_problem(now, id, bytes) {
                        Some(problem) => Err(FailedView::Vault(problem)),
                        None => Ok(id),
                    },
                )
            },
        }
    }
}

/// A result, by its texts.
pub open spec fn result_view<T: View, E: View>(r: Result<T, E>) -> Result<T::V, E::V> {
    match r {
        Ok(x) => Ok(x@),
        Err(e) => Err(e@),
    }
}

/// What a rename is about.
#[derive(Debug)]
pub struct Renaming {
    pub from: NoteId,
    pub to: NoteId,
    /// The notes with a link to rewrite, once for each link.
    pub inbound: Vec<NoteId>,
}

/// What a rename is about, by its texts.
pub struct RenamingView {
    pub from: Seq<char>,
    pub to: Seq<char>,
    pub inbound: Seq<Seq<char>>,
}

impl View for Renaming {
    type V = RenamingView;

    open spec fn view(&self) -> RenamingView {
        RenamingView { from: self.from@, to: self.to@, inbound: text::views(self.inbound@) }
    }
}

/// Where a note goes when it gets another title.
pub open spec fn retitled(id: Seq<char>, title: Seq<char>) -> Seq<char> {
    match paths::folder(id) {
        Some(folder) => paths::relative(folder + seq!['/'] + title + ".md"@),
        None => paths::relative(title + ".md"@),
    }
}

/// What renaming the open note is about, if there is anything to do.
pub open spec fn renaming(nb: NotebookView, title: Seq<char>) -> Option<RenamingView> {
    match (nb.vault, open_id(nb)) {
        (Some(_), Some(from)) => if note::title(from) == title {
            None
        } else {
            Some(
                RenamingView {
                    from,
                    to: retitled(from, title),
                    inbound: index::listed(index::graph(nb.index).backlinks, from).map_values(
                        |link: (Seq<char>, Seq<char>)| link.0,
                    ),
                },
            )
        },
        _ => None,
    }
}

/// The entries once some notes were written.
pub open spec fn with_notes(
    entries: Map<Seq<char>, index::EntryView>,
    notes: Seq<(note::NoteView, markdown::ScanView)>,
) -> Map<Seq<char>, index::EntryView>
    decreases notes.len(),
{
    if notes.len() == 0 {
        entries
    } else {
        let (note, scan) = notes.last();
        with_notes(entries, notes.drop_last()).insert(note.id, index::entry(note, scan))
    }
}

/// The notebook with its open note at another id.
pub open spec fn followed(nb: NotebookView, to: Seq<char>) -> NotebookView {
    match nb.open {
        None => nb,
        Some(open) => NotebookView {
            open: Some(
                OpenView {
                    note: note::NoteView { id: to, ..open.note },
                    on_disk: open.on_disk,
                },
            ),
            config: ConfigView { last_note: Some(to), ..nb.config },
            ..nb
        },
    }
}

/// Whether a note is among some.
pub open spec fn is_among(
    notes: Seq<(note::NoteView, markdown::ScanView)>,
    id: Seq<char>,
) -> bool {
    exists|i: int| 0 <= i < notes.len() && (#[trigger] notes[i]).0.id == id
}

/// How many of some links are in notes that were rewritten.
pub open spec fn repointed(
    inbound: Seq<Seq<char>>,
    rewritten: Seq<(note::NoteView, markdown::ScanView)>,
) -> nat
    decreases inbound.len(),
{
    if inbound.len() == 0 {
        0
    } else {
        repointed(inbound.drop_last(), rewritten) + (if is_among(rewritten, inbound.last()) {
            1nat
        } else {
            0nat
        })
    }
}

/// The notebook once the open note was renamed, and what that came to.
pub open spec fn renamed(
    nb: NotebookView,
    title: Seq<char>,
    moved: Result<(), VaultError>,
    rewritten: Seq<(note::NoteView, markdown::ScanView)>,
) -> (NotebookView, RenamedView) {
    match renaming(nb, title) {
        None => (nb, RenamedView::Unchanged),
        Some(renaming) => match moved {
            Err(error) => (nb, RenamedView::Failed(error@)),
            Ok(_) => (
                followed(
                    NotebookView {
                        index: with_notes(
                            index::renamed(nb.index, renaming.from, renaming.to),
                            rewritten,
                        ),
                        ..nb
                    },
                    renaming.to,
                ),
                RenamedView::Done {
                    to: renaming.to,
                    links: repointed(renaming.inbound, rewritten),
                },
            ),
        },
    }
}

fn is_written(notes: &Vec<(Note, Scan)>, id: &NoteId) -> (r: bool)
    ensures
        r == is_among(index::pair_views(notes@), id@),
{
    let ghost all = index::pair_views(notes@);
    let mut i: usize = 0;
    while i < notes.len()
        invariant
            i <= notes@.len() == all.len(),
            all == index::pair_views(notes@),
            forall|k: int| 0 <= k < i ==> (#[trigger] all[k]).0.id != id@,
        decreases notes@.len() - i,
    {
        assert(all[i as int].0 == notes@[i as int].0@);
        if notes[i].0.id.same(id) {
            return true;
        }
        i = i + 1;
    }
    false
}

fn count_repointed(inbound: &Vec<NoteId>, rewritten: &Vec<(Note, Scan)>) -> (n: usize)
    ensures
        n == repointed(text::views(inbound@), index::pair_views(rewritten@)),
{
    let ghost all = text::views(inbound@);
    let mut n: usize = 0;
    let mut i: usize = 0;
    while i < inbound.len()
        invariant
            i <= inbound@.len() == all.len(),
            all == text::views(inbound@),
            n <= i,
            n == repointed(all.take(i as int), index::pair_views(rewritten@)),
        decreases inbound@.len() - i,
    {
        assert(all.take(i + 1).drop_last() =~= all.take(i as int));
        assert(all.take(i + 1).last() == inbound@[i as int]@);
        if is_written(rewritten, &inbound[i]) {
            n = n + 1;
        }
        i = i + 1;
    }
    assert(all.take(all.len() as int) =~= all);
    n
}

/// The notebook once the open note was deleted, and which it was or why it was
/// not.
pub open spec fn deleted(nb: NotebookView, removed: Result<(), VaultError>) -> (
    NotebookView,
    Result<Seq<char>, FailedView>,
) {
    match (nb.vault, open_id(nb)) {
        (Some(_), Some(id)) => {
            let now = NotebookView { dirty: false, open: None, ..calm(nb) };
            match removed {
                Err(error) => (now, Err(FailedView::Vault(error@))),
                Ok(_) => (
                    NotebookView {
                        index: now.index.remove(id),
                        config: ConfigView { last_note: None, ..now.config },
                        ..now
                    },
                    Ok(id),
                ),
            }
        },
        _ => (nb, Err(FailedView::NoVault)),
    }
}

/// Where a note goes when it is moved to a folder.
pub open spec fn destined(id: Seq<char>, folder: Seq<char>) -> Seq<char> {
    paths::relative(under(folder, note::title(id) + ".md"@))
}

/// The notebook once a note was moved, and what that came to.
pub open spec fn moved(
    nb: NotebookView,
    id: Seq<char>,
    folder: Seq<char>,
    outcome: Result<(), VaultError>,
) -> (NotebookView, MovedView) {
    if nb.vault is None || tree::home(id) == folder {
        (nb, MovedView::Unchanged)
    } else {
        match outcome {
            Err(error) => (nb, MovedView::Failed(error@)),
            Ok(_) => {
                let to = destined(id, folder);
                let now = NotebookView { index: index::renamed(nb.index, id, to), ..nb };
                let here = if open_id(nb) == Some(id) {
                    followed(now, to)
                } else {
                    now
                };
                (
                    NotebookView {
                        expanded: here.expanded.union(tree::ancestors(tree::home(to)).to_set()),
                        ..here
                    },
                    MovedView::Done { to, destination: folder },
                )
            },
        }
    }
}

impl Notebook {
    /// Where a new note or folder goes: whichever folder was last chosen in the
    /// sidebar, and otherwise beside the open note, so working inside a folder
    /// keeps you there.
    pub fn current_folder(&self) -> (r: String)
        ensures
            r@ == current(self@),
    {
        if let Some(folder) = &self.target_folder {
            return folder.clone();
        }
        match &self.open {
            Some(open) => match open.note.id.folder() {
                Some(folder) => copied(folder),
                None => {
                    let r = String::new();
                    assert(r@ =~= seq![]);
                    r
                },
            },
            None => {
                let r = String::new();
                assert(r@ =~= seq![]);
                r
            },
        }
    }

    /// A new note was written at `id`, which is [`unique_id`]'s for its folder
    /// and title: take it on and open it, given what came of writing it, a scan
    /// of its body and its file's bytes.
    pub fn create_note_in(
        &mut self,
        id: &NoteId,
        made: Result<(), VaultError>,
        scan: Scan,
        bytes: Result<Vec<u8>, String>,
    ) -> (r: Result<NoteId, Failed>)
        ensures
            (final(self)@, result_view(r)) == created(old(self)@, id@, made, scan@, bytes),
    {
        let ghost before = self@;
        if self.vault.is_none() {
            return Err(Failed::NoVault);
        }
        if let Err(error) = made {
            return Err(Failed::Vault(error));
        }
        let note = Note::from_text(id.clone(), "");
        proof {
            reveal_strlit("");
            assert(""@ =~= seq![]);
        }
        self.shelf.update(&note, scan);
        assert(self@ =~= (NotebookView {
            index: before.index.insert(id@, index::entry(note@, scan@)),
            ..before
        }));
        match self.load_note(id, bytes) {
            Ok(_) => Ok(id.clone()),
            Err(error) => Err(Failed::Vault(error)),
        }
    }

    /// What renaming the open note to `title` is about: from where to where the
    /// file moves, and the notes pointing here, whose links are to be
    /// rewritten. `None` if there is nothing to do.
    pub fn renaming(&self, title: &str) -> (r: Option<Renaming>)
        ensures
            view_of(r) == renaming(self@, title@),
    {
        if self.vault.is_none() {
            return None;
        }
        let from = match self.open_note_id() {
            None => return None,
            Some(from) => from,
        };
        if text::same(from.title(), title) {
            return None;
        }
        let mut path = match from.folder() {
            Some(folder) => {
                let mut path = text::chars_of(folder);
                path.push('/');
                path
            },
            None => Vec::new(),
        };
        text::extend(&mut path, &text::chars_of(title));
        text::extend(&mut path, &text::chars_of(".md"));
        assert(path@ =~= match paths::folder(from@) {
            Some(folder) => folder + seq!['/'] + title@ + ".md"@,
            None => title@ + ".md"@,
        });
        let to = NoteId::from_relative(text::string_of(&path).as_str());
        let ghost links = index::listed(index::graph(self@.index).backlinks, from@);
        let ghost wanted = links.map_values(|link: (Seq<char>, Seq<char>)| link.0);
        let mut inbound: Vec<NoteId> = Vec::new();
        assert(text::views(inbound@) =~= wanted.take(0));
        if let Some(found) = self.shelf.index().backlinks(&from) {
            let mut i: usize = 0;
            assert(text::views(found.links@).len() == found.links@.len());
            while i < found.links.len()
                invariant
                    i <= found.links@.len() == wanted.len(),
                    links == text::views(found.links@),
                    wanted == links.map_values(|link: (Seq<char>, Seq<char>)| link.0),
                    text::views(inbound@) == wanted.take(i as int),
                decreases found.links@.len() - i,
            {
                let id = found.links[i].from.clone();
                assert(links[i as int] == found.links@[i as int]@);
                assert(wanted[i as int] == id@);
                proof {
                    text::lemma_views_push(inbound@, id);
                    assert(wanted.take(i + 1) =~= wanted.take(i as int).push(wanted[i as int]));
                }
                inbound.push(id);
                i = i + 1;
            }
        }
        assert(wanted.take(wanted.len() as int) =~= wanted);
        Some(Renaming { from, to, inbound })
    }

    fn follow(&mut self, to: &NoteId)
        ensures
            final(self)@ == followed(old(self)@, to@),
    {
        let ghost before = self@;
        match self.open.take() {
            None => {
                assert(self@ =~= before);
            },
            Some(open) => {
                let note = Note {
                    id: to.clone(),
                    frontmatter: open.note.frontmatter,
                    body: open.note.body,
                };
                self.open = Some(Open { note, on_disk: open.on_disk });
                self.config.last_note = Some(copied(to.as_str()));
                assert(self@ =~= followed(before, to@));
            },
        }
    }

    /// The open note was renamed and every link that pointed at it repointed:
    /// `moved` is what came of moving the file, and `rewritten` the notes whose
    /// links were rewritten and written, each with a scan of its body.
    pub fn rename_note(
        &mut self,
        title: &str,
        moved: Result<(), VaultError>,
        rewritten: Vec<(Note, Scan)>,
    ) -> (r: Renamed)
        ensures
            (final(self)@, r@) == renamed(
                old(self)@,
                title@,
                moved,
                index::pair_views(rewritten@),
            ),
    {
        let ghost before = self@;
        let renaming = match self.renaming(title) {
            None => return Renamed::Unchanged,
            Some(renaming) => renaming,
        };
        if let Err(error) = moved {
            return Renamed::Failed(error);
        }
        let ghost pairs = index::pair_views(rewritten@);
        let ghost start = index::renamed(before.index, renaming.from@, renaming.to@);
        self.shelf.rename(&renaming.from, &renaming.to);
        let links = count_repointed(&renaming.inbound, &rewritten);
        let mut rewritten = rewritten;
        let ghost mut done: int = 0;
        assert(pairs.take(0) =~= seq![]);
        assert(index::pair_views(rewritten@) =~= pairs.skip(0));
        assert(self@ =~= (NotebookView { index: with_notes(start, pairs.take(0)), ..before }));
        while rewritten.len() > 0
            invariant
                0 <= done <= pairs.len(),
                index::pair_views(rewritten@) == pairs.skip(done),
                self@ == (NotebookView { index: with_notes(start, pairs.take(done)), ..before }),
            decreases rewritten@.len(),
        {
            let ghost left = index::pair_views(rewritten@);
            assert(left.len() == pairs.skip(done).len());
            let (note, scan) = rewritten.remove(0);
            proof {
                assert(left[0] == pairs.skip(done)[0]);
                assert(pairs[done] == (note@, scan@));
                assert(index::pair_views(rewritten@) =~= left.skip(1));
                assert(left.skip(1) =~= pairs.skip(done + 1));
                assert(pairs.take(done + 1).drop_last() =~= pairs.take(done));
                assert(pairs.take(done + 1).last() == pairs[done]);
            }
            self.shelf.update(&note, scan);
            proof {
                done = done + 1;
            }
            assert(self@ =~= (NotebookView {
                index: with_notes(start, pairs.take(done)),
                ..before
            }));
        }
        assert(pairs.take(done) =~= pairs);
        self.follow(&renaming.to);
        Renamed::Done { to: renaming.to, links }
    }

    /// The open note was deleted: `removed` is what came of removing its file.
    /// The pending write is dropped, or the next tick would recreate the file.
    pub fn delete_open_note(&mut self, removed: Result<(), VaultError>) -> (r: Result<
        NoteId,
        Failed,
    >)
        ensures
            (final(self)@, result_view(r)) == deleted(old(self)@, removed),
    {
        let ghost before = self@;
        if self.vault.is_none() {
            return Err(Failed::NoVault);
        }
        let id = match self.open_note_id() {
            None => return Err(Failed::NoVault),
            Some(id) => id,
        };
        self.dirty = false;
        self.open = None;
        self.clear_alerts();
        assert(self@ =~= (NotebookView { dirty: false, open: None, ..calm(before) }));
        if let Err(error) = removed {
            return Err(Failed::Vault(error));
        }
        self.shelf.remove(&id);
        self.config.last_note = None;
        assert(self@ =~= deleted(before, removed).0);
        Ok(id)
    }

    /// Where a note goes when it is moved to a folder. `None` if it stays where
    /// it is.
    pub fn destination(&self, id: &NoteId, folder: &str) -> (r: Option<NoteId>)
        ensures
            match r {
                Some(to) => self@.vault is Some && tree::home(id@) != folder@ && to@ == destined(
                    id@,
                    folder@,
                ),
                None => self@.vault is None || tree::home(id@) == folder@,
            },
    {
        if self.vault.is_none() {
            return None;
        }
        let here = match id.folder() {
            Some(folder) => folder,
            None => "",
        };
        proof {
            reveal_strlit("");
            assert(here@ =~= tree::home(id@));
        }
        if text::same(here, folder) {
            return None;
        }
        let mut name = text::chars_of(id.title());
        text::extend(&mut name, &text::chars_of(".md"));
        Some(NoteId::from_relative(join(folder, text::string_of(&name).as_str()).as_str()))
    }

    /// A note was moved to a folder, keeping its title: `outcome` is what came
    /// of moving its file.
    ///
    /// Inbound links are left alone: they resolve by title, and the title has
    /// not changed.
    pub fn move_note(&mut self, id: &NoteId, folder: &str, outcome: Result<(), VaultError>) -> (r:
        Moved)
        ensures
            (final(self)@, r@) == moved(old(self)@, id@, folder@, outcome),
    {
        let ghost before = self@;
        let to = match self.destination(id, folder) {
            None => return Moved::Unchanged,
            Some(to) => to,
        };
        if let Err(error) = outcome {
            return Moved::Failed(error);
        }
        let was_open = match self.open_note_id() {
            Some(open) => open.same(id),
            None => false,
        };
        self.shelf.rename(id, &to);
        assert(self@ =~= (NotebookView {
            index: index::renamed(before.index, id@, to@),
            ..before
        }));
        if was_open {
            self.follow(&to);
        }
        let ghost here = self@;
        self.expand_to(&to);
        assert(self@ =~= moved(before, id@, folder@, outcome).0);
        Moved::Done { to, destination: copied(folder) }
    }

    fn expand_to(&mut self, id: &NoteId)
        ensures
            final(self)@ == (NotebookView {
                expanded: old(self)@.expanded.union(tree::ancestors(tree::home(id@)).to_set()),
                ..old(self)@
            }),
    {
        let ghost before = self@;
        let folder = match id.folder() {
            Some(folder) => folder,
            None => "",
        };
        proof {
            reveal_strlit("");
            assert(folder@ =~= tree::home(id@));
        }
        index::add_texts(&mut self.expanded, &tree::ancestors_of(folder));
        assert(self.expanded@.dom() =~= before.expanded.union(
            tree::ancestors(tree::home(id@)).to_set(),
        ));
        assert(self@ =~= (NotebookView {
            expanded: before.expanded.union(tree::ancestors(tree::home(id@)).to_set()),
            ..before
        }));
    }
}

// ---- folders ----

/// Where a path is once a folder was moved, if it was in that folder.
pub open spec fn relocated(path: Seq<char>, from: Seq<char>, to: Seq<char>) -> Option<Seq<char>> {
    if path == from {
        Some(to)
    } else if from.push('/').is_prefix_of(path) {
        Some(to + seq!['/'] + path.skip((from.len() + 1) as int))
    } else {
        None
    }
}

/// Where a path is once a folder was moved.
pub open spec fn carried(path: Seq<char>, from: Seq<char>, to: Seq<char>) -> Seq<char> {
    match relocated(path, from, to) {
        Some(path) => path,
        None => path,
    }
}

/// Where some paths are once a folder was moved.
pub open spec fn carried_all(paths: Set<Seq<char>>, from: Seq<char>, to: Seq<char>) -> Set<
    Seq<char>,
> {
    Set::new(
        |path: Seq<char>|
            exists|old: Seq<char>| #[trigger]
                paths.contains(old) && carried(old, from, to) == path,
    )
}

/// The note to open again once a folder was moved: the open one, if it was in
/// there.
pub open spec fn reopening(nb: NotebookView, from: Seq<char>, to: Seq<char>) -> Option<Seq<char>> {
    match open_id(nb) {
        None => None,
        Some(id) => match relocated(id, from, to) {
            Some(path) => Some(paths::relative(path)),
            None => None,
        },
    }
}

/// The notebook once a folder was made.
pub open spec fn with_folder(nb: NotebookView, path: Seq<char>) -> NotebookView {
    NotebookView {
        expanded: nb.expanded.union(tree::ancestors(path).to_set()),
        target_folder: Some(path),
        ..nb
    }
}

/// The notebook once a folder was deleted.
pub open spec fn without_folder(nb: NotebookView, path: Seq<char>) -> NotebookView {
    NotebookView {
        expanded: nb.expanded.remove(path),
        target_folder: match nb.target_folder {
            Some(target) => if tree::within(path, target) {
                None
            } else {
                Some(target)
            },
            None => None,
        },
        ..nb
    }
}

/// The notebook once a folder was moved: anything that named a path in it now
/// names the path it has there.
pub open spec fn with_moved_folder(
    nb: NotebookView,
    from: Seq<char>,
    to: Seq<char>,
    notes: Seq<(note::NoteView, markdown::ScanView)>,
    bytes: Result<Vec<u8>, String>,
) -> NotebookView {
    let now = rescanned(
        NotebookView {
            expanded: carried_all(nb.expanded, from, to).union(tree::ancestors(to).to_set()),
            target_folder: match nb.target_folder {
                Some(target) => Some(carried(target, from, to)),
                None => None,
            },
            ..nb
        },
        notes,
    );
    match reopening(nb, from, to) {
        None => now,
        Some(id) => loaded(
            NotebookView { config: ConfigView { last_note: Some(id), ..now.config }, ..now },
            id,
            bytes,
        ),
    }
}

/// Why a folder was not changed, if it was not.
pub open spec fn folder_problem(nb: NotebookView, outcome: Result<(), VaultError>) -> Option<
    FailedView,
> {
    if nb.vault is None {
        Some(FailedView::NoVault)
    } else {
        match outcome {
            Ok(_) => None,
            Err(error) => Some(FailedView::Vault(error@)),
        }
    }
}

fn relocate(path: &str, from: &str, to: &str) -> (r: Option<String>)
    ensures
        view_of(r) == relocated(path@, from@, to@),
{
    if text::same(path, from) {
        return Some(copied(to));
    }
    let chars = text::chars_of(path);
    let mut prefix = text::chars_of(from);
    prefix.push('/');
    if !text::begins(&chars, &prefix) {
        return None;
    }
    let rest = text::part(&chars, prefix.len(), chars.len());
    assert(rest@ =~= path@.skip((from@.len() + 1) as int));
    let mut out = text::chars_of(to);
    out.push('/');
    text::extend(&mut out, &rest);
    assert(out@ =~= to@ + seq!['/'] + path@.skip((from@.len() + 1) as int));
    Some(text::string_of(&out))
}

fn carry(path: &str, from: &str, to: &str) -> (r: String)
    ensures
        r@ == carried(path@, from@, to@),
{
    match relocate(path, from, to) {
        Some(path) => path,
        None => copied(path),
    }
}

fn carry_all(paths: &TextMap<String, ()>, from: &str, to: &str) -> (r: TextMap<String, ()>)
    ensures
        r@.dom() == carried_all(paths@.dom(), from@, to@),
{
    let ghost order = ordered::ascending(paths@.dom());
    let n = paths.len();
    let mut r: TextMap<String, ()> = TextMap::new();
    let mut i: usize = 0;
    while i < n
        invariant
            i <= n == order.len(),
            order == ordered::ascending(paths@.dom()),
            forall|path: Seq<char>| #[trigger]
                r@.dom().contains(path) <==> exists|k: int|
                    0 <= k < i && carried(#[trigger] order[k], from@, to@) == path,
        decreases n - i,
    {
        let ghost was = r@.dom();
        let path = carry(paths.key(i).as_str(), from, to);
        let ghost new = path@;
        r.insert(path, ());
        assert forall|path: Seq<char>| #[trigger] r@.dom().contains(path) <==> exists|k: int|
            0 <= k < i + 1 && carried(#[trigger] order[k], from@, to@) == path by {
            if was.contains(path) {
                let k = choose|k: int|
                    0 <= k < i && carried(#[trigger] order[k], from@, to@) == path;
                assert(carried(order[k], from@, to@) == path);
            }
            if path == new {
                assert(carried(order[i as int], from@, to@) == path);
            }
        }
        i = i + 1;
    }
    proof {
        ordered::lemma_ascending(paths@.dom());
        assert forall|path: Seq<char>| r@.dom().contains(path) == carried_all(
            paths@.dom(),
            from@,
            to@,
        ).contains(path) by {
            if r@.dom().contains(path) {
                let k = choose|k: int|
                    0 <= k < n && carried(#[trigger] order[k], from@, to@) == path;
                assert(order.to_set().contains(order[k]));
                assert(paths@.dom().contains(order[k]));
            }
            if carried_all(paths@.dom(), from@, to@).contains(path) {
                let old = choose|old: Seq<char>| #[trigger]
                    paths@.dom().contains(old) && carried(old, from@, to@) == path;
                assert(order.to_set().contains(old));
                let k = choose|k: int| 0 <= k < order.len() && order[k] == old;
                assert(carried(order[k], from@, to@) == path);
            }
        }
        assert(r@.dom() =~= carried_all(paths@.dom(), from@, to@));
    }
    r
}

impl Notebook {
    /// A folder was made in another: `made` is what came of making its
    /// directory. It is opened, and opened all the way down to it: a folder
    /// made and not shown is a folder you go looking for.
    pub fn create_folder(&mut self, parent: &str, name: &str, made: Result<(), VaultError>) -> (r:
        Result<String, Failed>)
        ensures
            match folder_problem(old(self)@, made) {
                Some(failed) => result_view(r) == Err::<Seq<char>, FailedView>(failed)
                    && final(self)@ == old(self)@,
                None => result_view(r) == Ok::<Seq<char>, FailedView>(under(parent@, name@))
                    && final(self)@ == with_folder(old(self)@, under(parent@, name@)),
            },
    {
        let ghost before = self@;
        if self.vault.is_none() {
            return Err(Failed::NoVault);
        }
        if let Err(error) = made {
            return Err(Failed::Vault(error));
        }
        let path = join(parent, name);
        index::add_texts(&mut self.expanded, &tree::ancestors_of(path.as_str()));
        assert(self.expanded@.dom() =~= before.expanded.union(tree::ancestors(path@).to_set()));
        self.target_folder = Some(path.clone());
        assert(self@ =~= with_folder(before, path@));
        Ok(path)
    }

    /// A folder was deleted: `removed` is what came of removing its directory.
    /// A remembered target folder that has just stopped existing is dropped.
    pub fn delete_folder(&mut self, path: &str, removed: Result<(), VaultError>) -> (r: Result<
        (),
        Failed,
    >)
        ensures
            match folder_problem(old(self)@, removed) {
                Some(failed) => r is Err && r->Err_0@ == failed && final(self)@ == old(self)@,
                None => r is Ok && final(self)@ == without_folder(old(self)@, path@),
            },
    {
        let ghost before = self@;
        if self.vault.is_none() {
            return Err(Failed::NoVault);
        }
        if let Err(error) = removed {
            return Err(Failed::Vault(error));
        }
        self.expanded.remove(path);
        assert(self.expanded@.dom() =~= before.expanded.remove(path@));
        let stale = match &self.target_folder {
            Some(target) => tree::is_within(path, target.as_str()),
            None => false,
        };
        if stale {
            self.target_folder = None;
        }
        assert(self@ =~= without_folder(before, path@));
        Ok(())
    }

    /// Where a folder goes when it gets another name: it stays in the folder it
    /// is in.
    pub fn rename_folder(path: &str, name: &str) -> (r: String)
        ensures
            r@ == under(tree::home(path@), name@),
    {
        let chars = text::chars_of(path);
        let end: usize = match text::last_position_of(&chars, '/') {
            Some(at) => at,
            None => 0,
        };
        let parent = text::part(&chars, 0, end);
        assert(parent@ =~= tree::home(path@));
        join(text::string_of(&parent).as_str(), name)
    }

    /// The note to read again once a folder was moved: the open one, if it was
    /// in there.
    pub fn reopening(&self, from: &str, to: &str) -> (r: Option<NoteId>)
        ensures
            view_of(r) == reopening(self@, from@, to@),
    {
        match &self.open {
            None => None,
            Some(open) => match relocate(open.note.id.as_str(), from, to) {
                None => None,
                Some(path) => Some(NoteId::from_relative(path.as_str())),
            },
        }
    }

    /// A folder was moved or renamed: take the notebook's own state with it.
    /// `outcome` is what came of moving the directory, `notes` the vault as it
    /// is now, and `bytes` the file of [`Self::reopening`]'s note.
    ///
    /// The index is rebuilt rather than patched: every note under the folder
    /// changes id at once.
    pub fn relocate_folder(
        &mut self,
        from: &str,
        to: &str,
        outcome: Result<(), VaultError>,
        notes: Vec<(Note, Scan)>,
        bytes: Result<Vec<u8>, String>,
    ) -> (r: Result<(), Failed>)
        ensures
            if old(self)@.vault is Some && from@ == to@ {
                r is Ok && final(self)@ == old(self)@
            } else {
                match folder_problem(old(self)@, outcome) {
                    Some(failed) => r is Err && r->Err_0@ == failed && final(self)@ == old(self)@,
                    None => r is Ok && final(self)@ == with_moved_folder(
                        old(self)@,
                        from@,
                        to@,
                        index::pair_views(notes@),
                        bytes,
                    ),
                }
            },
    {
        let ghost before = self@;
        let ghost pairs = index::pair_views(notes@);
        if self.vault.is_none() {
            return Err(Failed::NoVault);
        }
        if text::same(from, to) {
            return Ok(());
        }
        if let Err(error) = outcome {
            return Err(Failed::Vault(error));
        }
        let reopen = self.reopening(from, to);
        self.expanded = carry_all(&self.expanded, from, to);
        let ghost held = self.expanded@.dom();
        index::add_texts(&mut self.expanded, &tree::ancestors_of(to));
        assert(self.expanded@.dom() =~= held.union(tree::ancestors(to@).to_set()));
        let target = match &self.target_folder {
            Some(target) => Some(carry(target.as_str(), from, to)),
            None => None,
        };
        self.target_folder = target;
        let ghost here = NotebookView {
            expanded: carried_all(before.expanded, from@, to@).union(
                tree::ancestors(to@).to_set(),
            ),
            target_folder: match before.target_folder {
                Some(target) => Some(carried(target, from@, to@)),
                None => None,
            },
            ..before
        };
        assert(self@ =~= here);
        self.rescan(notes);
        let ghost now = self@;
        if let Some(id) = reopen {
            self.config.last_note = Some(copied(id.as_str()));
            assert(self@ =~= (NotebookView {
                config: ConfigView { last_note: Some(id@), ..now.config },
                ..now
            }));
            let _ = self.load_note(&id, bytes);
        }
        Ok(())
    }
}

// ---- what holds of every notebook ----

/// Without a vault nothing is changed: every operation on it is refused.
pub proof fn lemma_without_a_vault_nothing_changes(
    nb: NotebookView,
    id: Seq<char>,
    name: Seq<char>,
    outcome: Result<(), VaultError>,
    notes: Seq<(note::NoteView, markdown::ScanView)>,
    scan: markdown::ScanView,
    bytes: Result<Vec<u8>, String>,
)
    requires
        nb.vault is None,
    ensures
        created(nb, id, outcome, scan, bytes) == (
            nb,
            Err::<Seq<char>, FailedView>(FailedView::NoVault),
        ),
        deleted(nb, outcome) == (nb, Err::<Seq<char>, FailedView>(FailedView::NoVault)),
        renamed(nb, name, outcome, notes) == (nb, RenamedView::Unchanged),
        moved(nb, id, name, outcome) == (nb, MovedView::Unchanged),
        folder_problem(nb, outcome) == Some(FailedView::NoVault),
        conceded(nb, bytes) is None,
        restored(nb, outcome, scan) is None,
        loaded(nb, id, bytes) == nb,
{
}

/// A failing save outranks a divergence and a divergence a vanished file: what
/// is lost now is told first.
pub proof fn lemma_what_is_lost_now_is_told_first(nb: NotebookView)
    ensures
        nb.not_saving is Some <==> alert_of(nb) is Some && alert_of(nb)->0 is NotSaving,
        nb.not_saving is None && nb.diverged is Some <==> alert_of(nb) is Some && alert_of(nb)
            ->0 is Diverged,
        nb.not_saving is None && nb.diverged is None && nb.vanished is Some <==> alert_of(
            nb,
        ) is Some && alert_of(nb)->0 is Vanished,
        alert_of(nb) is None <==> calm(nb) == nb,
{
    if alert_of(nb) is None {
        assert(calm(nb) =~= nb);
    }
}

/// A note that failed to save is not forgotten: it is still open as it was,
/// still to be written, and the banner says so.
pub proof fn lemma_a_failed_save_is_not_forgotten(
    nb: NotebookView,
    error: VaultError,
    scan: markdown::ScanView,
)
    requires
        is_unsaved(nb),
    ensures
        ({
            let (now, outcome) = saved(nb, Err(error), scan);
            &&& outcome == SavedView::Failed(error@)
            &&& is_unsaved(now)
            &&& now.open == nb.open
            &&& alert_of(now) == Some(AlertView::NotSaving(vault::told(error@)))
        }),
{
}

/// A save that succeeds leaves nothing to write and nothing on the banner, and
/// the index knows the note as it was written.
pub proof fn lemma_a_save_settles_everything(nb: NotebookView, scan: markdown::ScanView)
    requires
        is_unsaved(nb),
    ensures
        ({
            let (now, outcome) = saved(nb, Ok(()), scan);
            let note = nb.open->0.note;
            &&& outcome == SavedView::Written
            &&& !now.dirty
            &&& alert_of(now) is None
            &&& now.index.contains_key(note.id)
            &&& now.index[note.id] == index::entry(note, scan)
            &&& saved(now, Ok(()), scan) == (now, SavedView::Clean)
        }),
{
}

/// Whatever changes outside, what was typed and not saved stays in the editor
/// and stays to be saved.
pub proof fn lemma_unsaved_edits_survive_external_changes(
    nb: NotebookView,
    notes: Seq<(note::NoteView, markdown::ScanView)>,
    bytes: Result<Vec<u8>, String>,
)
    requires
        nb.dirty,
    ensures
        ({
            let (now, _) = absorbed(nb, notes, bytes);
            &&& now.dirty
            &&& now.open is Some == nb.open is Some
            &&& nb.open is Some ==> now.open->0.note == nb.open->0.note
        }),
{
}

/// One's own save is not reported as an external change: once a note was
/// written and its file holds what was written, a look at the vault finds
/// nothing and leaves the open note alone.
pub proof fn lemma_a_save_is_no_external_change(
    nb: NotebookView,
    scan: markdown::ScanView,
    notes: Seq<(note::NoteView, markdown::ScanView)>,
    bytes: Result<Vec<u8>, String>,
)
    requires
        is_unsaved(nb),
        index::entries_of(notes).contains_key(nb.open->0.note.id),
        bytes is Ok,
        bytes->Ok_0@ == vstd::utf8::encode_utf8(note::contents(nb.open->0.note)),
    ensures
        ({
            let (now, _) = saved(nb, Ok(()), scan);
            let (then, outcome) = absorbed(now, notes, bytes);
            &&& outcome == ExternalView::Quiet
            &&& then.open == now.open
            &&& alert_of(then) is None
        }),
{
    let note = nb.open->0.note;
    let file = note::contents(note);
    vstd::utf8::encode_utf8_valid_utf8(file);
    vstd::utf8::encode_utf8_decode_utf8(file);
    note::lemma_a_note_round_trips(note.id, file);
}

/// A divergence is settled by taking either side: the version on disk leaves
/// nothing to save, and saving writes what was typed.
pub proof fn lemma_a_divergence_is_settled_by_either_side(
    nb: NotebookView,
    bytes: Result<Vec<u8>, String>,
    scan: markdown::ScanView,
)
    requires
        is_unsaved(nb),
    ensures
        match conceded(nb, bytes) {
            Some(now) => now.diverged is None && !now.dirty && vault::opened(
                nb.vault->0,
                nb.open->0.note.id,
                bytes,
            ) == Ok::<note::NoteView, Problem>(now.open->0.note),
            None => vault::opened(nb.vault->0, nb.open->0.note.id, bytes) is Err,
        },
        saved(nb, Ok(()), scan).0.diverged is None,
        saved(nb, Ok(()), scan).0.open->0.note == nb.open->0.note,
{
}

/// Opening another note clears the previous one's banner.
pub proof fn lemma_opening_a_note_clears_the_banner(
    nb: NotebookView,
    id: Seq<char>,
    bytes: Result<Vec<u8>, String>,
)
    requires
        nb.vault is Some,
    ensures
        alert_of(loaded(nb, id, bytes)) is None,
{
}

/// An opened note is on a row of the tree: every folder on its way is open.
pub proof fn lemma_an_opened_note_is_revealed(
    nb: NotebookView,
    id: Seq<char>,
    bytes: Result<Vec<u8>, String>,
)
    requires
        nb.vault is Some,
        load_problem(nb, id, bytes) is None,
    ensures
        forall|i: int|
            0 <= i < tree::ancestors(tree::home(id)).len() ==> loaded(
                nb,
                id,
                bytes,
            ).expanded.contains(#[trigger] tree::ancestors(tree::home(id))[i]),
        open_id(loaded(nb, id, bytes)) == Some(id),
{
    let line = tree::ancestors(tree::home(id));
    assert forall|i: int| 0 <= i < line.len() implies loaded(nb, id, bytes).expanded.contains(
        #[trigger] line[i],
    ) by {
        assert(line.to_set().contains(line[i]));
    }
}

/// A deleted note is not written back: nothing is left to save.
pub proof fn lemma_a_deleted_note_stays_deleted(nb: NotebookView, removed: Result<(), VaultError>)
    requires
        nb.vault is Some,
        nb.open is Some,
    ensures
        ({
            let (now, _) = deleted(nb, removed);
            &&& !is_unsaved(now)
            &&& now.open is None
            &&& removed is Ok ==> !now.index.contains_key(nb.open->0.note.id)
        }),
{
}

/// The sort and the open folders survive a restart.
pub proof fn lemma_the_view_survives_a_restart(
    nb: NotebookView,
    next: NotebookView,
    path: Seq<char>,
    is_folder: bool,
)
    requires
        nb.expanded.finite(),
    ensures
        configured(next, path, folded(nb), is_folder).sort == nb.sort,
        configured(next, path, folded(nb), is_folder).expanded == nb.expanded,
{
    tree::lemma_a_sort_round_trips(nb.sort);
    ordered::lemma_ascending(nb.expanded);
}

/// A tag filter never shows an empty list: a tag that no note carries clears
/// it.
pub proof fn lemma_a_filter_always_shows_something(nb: NotebookView, tag: Option<Seq<char>>)
    ensures
        filtered(nb, tag).filter is Some ==> tagged_ids(filtered(nb, tag)).len() > 0,
{
}

/// Toggling a folder twice leaves the folders as they were.
pub proof fn lemma_toggling_twice_changes_no_folder(nb: NotebookView, path: Seq<char>)
    ensures
        toggled(toggled(nb, path), path).expanded == nb.expanded,
{
    assert(toggled(toggled(nb, path), path).expanded =~= nb.expanded);
}

/// Whatever was in a folder that was moved is where it was once the folder is
/// moved back.
pub proof fn lemma_a_folder_moved_back_is_as_it_was(
    path: Seq<char>,
    from: Seq<char>,
    to: Seq<char>,
)
    requires
        tree::within(from, path),
    ensures
        relocated(path, from, to) is Some,
        tree::within(to, carried(path, from, to)),
        carried(carried(path, from, to), to, from) == path,
{
    if path == from {
    } else {
        let rest = path.skip((from.len() + 1) as int);
        let there = to + seq!['/'] + rest;
        assert(path =~= from.push('/') + rest);
        assert(to.push('/') =~= there.subrange(0, (to.len() + 1) as int));
        assert(there.skip((to.len() + 1) as int) =~= rest);
        assert(there.len() > to.len());
        assert(from + seq!['/'] + rest =~= path);
    }
}

/// Moving a note keeps its title, which is what links go by, and puts it in the
/// folder.
pub proof fn lemma_a_move_keeps_the_title(id: Seq<char>, folder: Seq<char>)
    ensures
        note::title(destined(id, folder)) == note::title(id),
        tree::home(destined(id, folder)) == paths::relative(folder),
{
    note::lemma_title_is_one_component(id);
    lemma_named_note(folder, note::title(id));
}

proof fn lemma_named_note(folder: Seq<char>, title: Seq<char>)
    requires
        forall|i: int| 0 <= i < title.len() ==> title[i] != '/',
    ensures
        note::title(paths::relative(under(folder, title + ".md"@))) == title,
        tree::home(paths::relative(under(folder, title + ".md"@))) == paths::relative(folder),
{
    reveal_strlit(".md");
    let name = title + ".md"@;
    assert(seq!['.', 'm', 'd'] =~= name.subrange(name.len() - 3, name.len() as int));
    assert(note::without_md(name) =~= title);
    if folder.len() == 0 {
        paths::lemma_relative_of_name(name);
        let none = Seq::<char>::empty();
        assert(folder =~= none);
        assert(text::split_on(none, '/') =~= seq![none]);
        assert(seq![none].drop_last() =~= Seq::<Seq<char>>::empty());
        reveal_with_fuel(paths::named, 2);
        assert(paths::components(none) =~= Seq::<Seq<char>>::empty());
        assert(paths::relative(folder) =~= none);
    } else {
        paths::lemma_relative_of_child(folder, name);
    }
}

/// A renamed note has the title it was given and stays in the folder it was in.
pub proof fn lemma_a_rename_gives_the_title(id: Seq<char>, title: Seq<char>)
    requires
        forall|i: int| 0 <= i < title.len() ==> title[i] != '/',
    ensures
        note::title(retitled(id, title)) == title,
        paths::folder(id) is Some && paths::folder(id)->0.len() > 0 ==> tree::home(
            retitled(id, title),
        ) == paths::relative(tree::home(id)),
        paths::folder(id) is None ==> tree::home(retitled(id, title)).len() == 0,
{
    match paths::folder(id) {
        Some(folder) => {
            let text = folder + seq!['/'] + title + ".md"@;
            if folder.len() > 0 {
                lemma_named_note(folder, title);
                assert(text =~= under(folder, title + ".md"@));
            } else {
                lemma_attempt_at_root(title);
                assert(text =~= seq!['/'] + (title + ".md"@));
            }
        },
        None => {
            lemma_named_note(seq![], title);
            let none = Seq::<char>::empty();
            assert(text::split_on(none, '/') =~= seq![none]);
            assert(seq![none].drop_last() =~= Seq::<Seq<char>>::empty());
            reveal_with_fuel(paths::named, 2);
            assert(paths::components(none) =~= Seq::<Seq<char>>::empty());
            assert(paths::relative(none) =~= none);
        },
    }
}

#[verifier::spinoff_prover]
proof fn lemma_path_at_root(title: Seq<char>)
    requires
        forall|i: int| 0 <= i < title.len() ==> title[i] != '/',
    ensures
        paths::relative(seq!['/'] + (title + ".md"@)) == seq!['/', '/'] + (title + ".md"@),
{
    let none = Seq::<char>::empty();
    let name = title + ".md"@;
    let whole = seq!['/'] + title;
    assert(!title.contains('/'));
    assert(text::find_last(whole, '/') == Some(0int)) by {
        text::lemma_find_last_append(none, '/', title);
        assert(whole =~= none.push('/') + title);
    }
    lemma_attempt(none, whole, 0);
    assert(paths::file_name(whole) =~= title);
    assert(title + suffix(0) + ".md"@ =~= name);
    assert(whole + suffix(0) + ".md"@ =~= seq!['/'] + name);
}

#[verifier::spinoff_prover]
proof fn lemma_attempt_at_root(title: Seq<char>)
    requires
        forall|i: int| 0 <= i < title.len() ==> title[i] != '/',
    ensures
        note::title(paths::relative(seq!['/'] + (title + ".md"@))) == title,
{
    let name = title + ".md"@;
    let id = paths::relative(seq!['/'] + name);
    lemma_path_at_root(title);
    assert(!name.contains('/')) by {
        reveal_strlit(".md");
        assert forall|i: int| 0 <= i < name.len() implies name[i] != '/' by {
            if i >= title.len() {
                assert(name[i] == ".md"@[i - title.len()]);
            }
        }
    }
    assert(paths::file_name(id) == name) by {
        let one = seq!['/'];
        assert(id =~= one.push('/') + name);
        text::lemma_find_last_append(one, '/', name);
        assert(id.skip(2) =~= name);
    }
    assert(note::without_md(name) == title) by {
        reveal_strlit(".md");
        assert(seq!['.', 'm', 'd'] =~= name.subrange(name.len() - 3, name.len() as int));
        assert(name.take(name.len() - 3) =~= title);
    }
}

proof fn lemma_title_matches(ids: Seq<Seq<char>>, query: Seq<char>)
    requires
        ids.no_duplicates(),
    ensures
        are_distinct(search::title_matches(ids, query)),
        forall|i: int|
            0 <= i < search::title_matches(ids, query).len() ==> ids.contains(
                (#[trigger] search::title_matches(ids, query)[i]).id,
            ),
    decreases ids.len(),
{
    if ids.len() > 0 {
        let rest = ids.drop_last();
        lemma_title_matches(rest, query);
        let before = search::title_matches(rest, query);
        let now = search::title_matches(ids, query);
        assert(ids =~= rest.push(ids.last()));
        assert forall|i: int| 0 <= i < now.len() implies ids.contains((#[trigger] now[i]).id) by {
            if i < before.len() {
                assert(rest.contains(before[i].id));
                let k = choose|k: int| 0 <= k < rest.len() && rest[k] == before[i].id;
                assert(ids[k] == now[i].id);
            } else {
                assert(ids[ids.len() - 1] == now[i].id);
            }
        }
        assert forall|i: int, j: int| 0 <= i < j < now.len() implies (#[trigger] now[i]).id != (
        #[trigger] now[j]).id by {
            if j >= before.len() {
                assert(rest.contains(before[i].id));
                let k = choose|k: int| 0 <= k < rest.len() && rest[k] == before[i].id;
                assert(ids[k] != ids[ids.len() - 1]);
            } else {
                assert(before[i].id != before[j].id);
            }
        }
    }
}

/// Whether no note is matched twice.
pub open spec fn are_distinct(found: Seq<search::TitleMatchView>) -> bool {
    forall|i: int, j: int|
        0 <= i < j < found.len() ==> (#[trigger] found[i]).id != (#[trigger] found[j]).id
}

proof fn lemma_ranked_titles(found: Seq<search::TitleMatchView>)
    requires
        are_distinct(found),
    ensures
        are_distinct(ranked::ranked::<search::TitleMatch>(found)),
{
    broadcast use vstd::seq_lib::group_to_multiset_ensures;

    let order = ranked::ranked::<search::TitleMatch>(found);
    ranked::lemma_ranked_multiset::<search::TitleMatch>(found);
    assert(found.no_duplicates());
    found.lemma_multiset_has_no_duplicates();
    assert(order.no_duplicates()) by {
        order.lemma_multiset_has_no_duplicates_conv();
    }
    assert forall|i: int, j: int| 0 <= i < j < order.len() implies (#[trigger] order[i]).id != (
    #[trigger] order[j]).id by {
        assert(order.to_multiset().contains(order[i]) && order.to_multiset().contains(order[j]));
        assert(found.contains(order[i]) && found.contains(order[j]));
        let k = choose|k: int| 0 <= k < found.len() && found[k] == order[i];
        let l = choose|l: int| 0 <= l < found.len() && found[l] == order[j];
        assert(order[i] != order[j]);
        if k < l {
            assert(found[k].id != found[l].id);
        } else if l < k {
            assert(found[l].id != found[k].id);
        }
    }
}

/// Whether no note is on two rows.
pub open spec fn are_apart(rows: Seq<(Seq<char>, Seq<char>)>) -> bool {
    forall|i: int, j: int|
        0 <= i < j < rows.len() ==> (#[trigger] rows[i]).0 != (#[trigger] rows[j]).0
}

proof fn lemma_title_rows(
    entries: Map<Seq<char>, index::EntryView>,
    allowed: Seq<Seq<char>>,
    found: Seq<search::TitleMatchView>,
    texts: Seq<search::TextMatchView>,
)
    requires
        are_distinct(found),
    ensures
        are_apart(title_rows(entries, allowed, found, texts)),
        forall|id: Seq<char>| #[trigger]
            is_on(title_rows(entries, allowed, found, texts), id) ==> exists|k: int|
                0 <= k < found.len() && (#[trigger] found[k]).id == id,
    decreases found.len(),
{
    if found.len() > 0 {
        let rest = found.drop_last();
        assert(are_distinct(rest)) by {
            assert forall|i: int, j: int| 0 <= i < j < rest.len() implies (#[trigger] rest[i]).id
                != (#[trigger] rest[j]).id by {
                assert(found[i].id != found[j].id);
            }
        }
        lemma_title_rows(entries, allowed, rest, texts);
        let before = title_rows(entries, allowed, rest, texts);
        let now = title_rows(entries, allowed, found, texts);
        let n = found.len() - 1;
        assert forall|id: Seq<char>| #[trigger] is_on(now, id) implies exists|k: int|
            0 <= k < found.len() && (#[trigger] found[k]).id == id by {
            let i = choose|i: int| 0 <= i < now.len() && (#[trigger] now[i]).0 == id;
            if i < before.len() {
                assert(before[i].0 == id);
                assert(is_on(before, id));
                let k = choose|k: int| 0 <= k < rest.len() && (#[trigger] rest[k]).id == id;
                assert(found[k].id == id);
            } else {
                assert(found[n].id == id);
            }
        }
        assert forall|i: int, j: int| 0 <= i < j < now.len() implies (#[trigger] now[i]).0 != (
        #[trigger] now[j]).0 by {
            assert(before[i] == now[i]);
            if j < before.len() {
                assert(before[i].0 != before[j].0);
            } else {
                assert(is_on(before, before[i].0));
                let k = choose|k: int|
                    0 <= k < rest.len() && (#[trigger] rest[k]).id == before[i].0;
                assert(found[k].id != found[n].id);
            }
        }
    }
}

proof fn lemma_text_rows(
    rows: Seq<(Seq<char>, Seq<char>)>,
    allowed: Seq<Seq<char>>,
    found: Seq<search::TextMatchView>,
)
    requires
        are_apart(rows),
    ensures
        are_apart(text_rows(rows, allowed, found)),
        rows.is_prefix_of(text_rows(rows, allowed, found)),
    decreases found.len(),
{
    if found.len() > 0 {
        lemma_text_rows(rows, allowed, found.drop_last());
        let before = text_rows(rows, allowed, found.drop_last());
        let now = text_rows(rows, allowed, found);
        assert(rows =~= now.subrange(0, rows.len() as int)) by {
            assert(rows == before.subrange(0, rows.len() as int));
        }
        assert forall|i: int, j: int| 0 <= i < j < now.len() implies (#[trigger] now[i]).0 != (
        #[trigger] now[j]).0 by {
            assert(before[i] == now[i]);
            if j < before.len() {
                assert(before[i].0 != before[j].0);
            } else if before[i].0 == now[j].0 {
                assert(is_on(before, now[j].0));
            }
        }
    } else {
        assert(rows =~= rows.subrange(0, rows.len() as int));
    }
}

/// A sidebar search puts the notes found by their titles before those found by
/// their texts, and lists each once.
pub proof fn lemma_titles_come_before_texts(nb: NotebookView)
    requires
        nb.index.dom().finite(),
    ensures
        are_apart(results(nb)),
        searching(nb) ==> title_rows(
            nb.index,
            tagged_ids(nb),
            search::title_results(nb.index, text::trim(nb.query), LOOKED_AT as int),
            search::text_results(nb.index, text::trim(nb.query), LOOKED_AT as int),
        ).is_prefix_of(results(nb)),
{
    let query = text::trim(nb.query);
    let order = ordered::ascending(nb.index.dom());
    ordered::lemma_ascending(nb.index.dom());
    assert(order.no_duplicates()) by {
        assert forall|i: int, j: int| 0 <= i < order.len() && 0 <= j < order.len() && i
            != j implies order[i] != order[j] by {
            if i < j {
                assert(ordered::precedes(order[i], order[j]));
            } else {
                assert(ordered::precedes(order[j], order[i]));
            }
            ordered::lemma_precedes_irreflexive(order[i]);
        }
    }
    let wanted = text::trim(query);
    lemma_title_matches(order, wanted);
    let matches = search::title_matches(order, wanted);
    lemma_ranked_titles(matches);
    let all = ranked::ranked::<search::TitleMatch>(matches);
    let found = search::title_results(nb.index, query, LOOKED_AT as int);
    assert(are_distinct(found)) by {
        assert forall|i: int, j: int| 0 <= i < j < found.len() implies (#[trigger] found[i]).id != (
        #[trigger] found[j]).id by {
            assert(found[i] == all[i] && found[j] == all[j]);
        }
    }
    let texts = search::text_results(nb.index, query, LOOKED_AT as int);
    lemma_title_rows(nb.index, tagged_ids(nb), found, texts);
    lemma_text_rows(
        title_rows(nb.index, tagged_ids(nb), found, texts),
        tagged_ids(nb),
        texts,
    );
}

// ---- what each thing done to a notebook changes ----

/// Whether two notebooks differ in nothing but their notes: the open one, what
/// is known of the others, and what there is to be told of them.
pub open spec fn is_set_up_alike(a: NotebookView, b: NotebookView) -> bool {
    &&& a.config == b.config
    &&& a.config_path == b.config_path
    &&& a.vault == b.vault
    &&& a.filter == b.filter
    &&& a.query == b.query
    &&& a.expanded == b.expanded
    &&& a.sort == b.sort
    &&& a.target_folder == b.target_folder
    &&& a.vectors == b.vectors
    &&& a.vectors_path == b.vectors_path
    &&& a.query_vector == b.query_vector
}

/// What came of a change outside, given that the open note's file was read: it
/// is taken where nothing is unsaved; where something is, both sides are kept
/// and the reader is told; and nothing happened where the file is what it was.
pub proof fn lemma_what_a_change_outside_does(
    nb: NotebookView,
    notes: Seq<(note::NoteView, markdown::ScanView)>,
    bytes: Vec<u8>,
)
    requires
        nb.vault is Some,
        nb.open is Some,
        index::entries_of(notes).contains_key(nb.open->0.note.id),
        vstd::utf8::valid_utf8(bytes@),
    ensures
        ({
            let (now, outcome) = absorbed(nb, notes, Ok(bytes));
            let open = nb.open->0;
            let id = open.note.id;
            let file = vstd::utf8::decode_utf8(bytes@);
            &&& is_set_up_alike(now, nb)
            &&& now.index == index::entries_of(notes)
            &&& now.dirty == nb.dirty
            &&& now.vanished is None
            &&& now.not_saving == nb.not_saving
            &&& if file == open.on_disk {
                &&& outcome == ExternalView::Quiet
                &&& now.open == nb.open
                &&& now.diverged == nb.diverged
            } else if nb.dirty {
                &&& outcome == ExternalView::Diverged { id, on_disk: file }
                &&& now.open == Some(OpenView { note: open.note, on_disk: file })
                &&& now.diverged == Some(id)
            } else {
                &&& outcome == ExternalView::Reloaded
                &&& now.open == Some(OpenView { note: note::read(id, file), on_disk: file })
                &&& now.diverged is None
            }
        }),
{
    let file = vstd::utf8::decode_utf8(bytes@);
    note::lemma_a_note_round_trips(nb.open->0.note.id, file);
}

/// An open note that is gone from the vault stays open, and the reader is told.
pub proof fn lemma_a_note_that_is_gone_stays_open(
    nb: NotebookView,
    notes: Seq<(note::NoteView, markdown::ScanView)>,
    bytes: Result<Vec<u8>, String>,
)
    requires
        nb.vault is Some,
        nb.open is Some,
        !index::entries_of(notes).contains_key(nb.open->0.note.id),
    ensures
        ({
            let (now, outcome) = absorbed(nb, notes, bytes);
            let id = nb.open->0.note.id;
            &&& outcome == ExternalView::Vanished { id }
            &&& now.vanished == Some(id)
            &&& now.open == nb.open
            &&& now.dirty == nb.dirty
            &&& is_set_up_alike(now, nb)
            &&& now.index == index::entries_of(notes)
        }),
{
}

/// Without an open note a change outside changes only what is known of the
/// notes.
pub proof fn lemma_a_change_outside_with_nothing_open(
    nb: NotebookView,
    notes: Seq<(note::NoteView, markdown::ScanView)>,
    bytes: Result<Vec<u8>, String>,
)
    requires
        nb.vault is Some,
        nb.open is None,
    ensures
        absorbed(nb, notes, bytes) == (
            NotebookView { index: index::entries_of(notes), ..nb },
            ExternalView::Quiet,
        ),
{
}

/// Text that was edited becomes the open note, unsaved; text that was not
/// leaves the notebook as it is.
pub proof fn lemma_what_an_edit_does(nb: NotebookView, body: Seq<char>)
    requires
        nb.open is Some,
    ensures
        ({
            let now = flushed(nb, body);
            let open = nb.open->0;
            &&& body == note::contents(open.note) && open.note == note::read(
                open.note.id,
                body,
            ) ==> now == nb
            &&& body != note::contents(open.note) ==> now.dirty && now.open == Some(
                OpenView { note: note::read(open.note.id, body), on_disk: open.on_disk },
            )
            &&& now.open is Some && note::contents(now.open->0.note) == body
            &&& is_set_up_alike(now, nb)
            &&& now.index == nb.index
            &&& alert_of(now) == alert_of(nb)
        }),
{
    note::lemma_a_note_round_trips(nb.open->0.note.id, body);
}

/// A save touches nothing but the note, what is known of it and the banner: it
/// knows then what is in the file.
pub proof fn lemma_a_save_touches_nothing_else(
    nb: NotebookView,
    wrote: Result<(), VaultError>,
    scan: markdown::ScanView,
    other: Seq<char>,
)
    requires
        nb.open is Some,
        other != nb.open->0.note.id,
    ensures
        ({
            let (now, outcome) = saved(nb, wrote, scan);
            &&& is_set_up_alike(now, nb)
            &&& now.open is Some && now.open->0.note == nb.open->0.note
            &&& now.index.contains_key(other) == nb.index.contains_key(other)
            &&& nb.index.contains_key(other) ==> now.index[other] == nb.index[other]
            &&& !nb.dirty ==> outcome == SavedView::Clean && now == nb
            &&& outcome is Written ==> now.open->0.on_disk == note::contents(nb.open->0.note)
            &&& outcome is Failed ==> now.open == nb.open && now.index == nb.index && now.dirty
        }),
{
}

/// Opening a note reads it, remembers it, and shows where it is; one that
/// cannot be read leaves none open. Nothing else changes.
pub proof fn lemma_what_opening_a_note_does(
    nb: NotebookView,
    id: Seq<char>,
    bytes: Result<Vec<u8>, String>,
)
    requires
        nb.vault is Some,
    ensures
        ({
            let now = loaded(nb, id, bytes);
            let readable = bytes is Ok && vstd::utf8::valid_utf8(bytes->Ok_0@);
            let file = vstd::utf8::decode_utf8(bytes->Ok_0@);
            &&& now.vault == nb.vault && now.index == nb.index && now.dirty == nb.dirty
            &&& now.filter == nb.filter && now.query == nb.query && now.sort == nb.sort
            &&& now.vectors == nb.vectors && now.vectors_path == nb.vectors_path
                && now.query_vector == nb.query_vector && now.config_path == nb.config_path
            &&& if readable {
                &&& now.open == Some(OpenView { note: note::read(id, file), on_disk: file })
                &&& now.config == ConfigView { last_note: Some(id), ..nb.config }
                &&& now.target_folder == Some(tree::home(id))
                &&& forall|folder: Seq<char>| #[trigger]
                    now.expanded.contains(folder) == (nb.expanded.contains(folder)
                        || tree::ancestors(tree::home(id)).contains(folder))
            } else {
                &&& now.open is None
                &&& now.config == nb.config
                &&& now.target_folder == nb.target_folder
                &&& now.expanded == nb.expanded
            }
        }),
{
    if bytes is Ok {
        note::lemma_a_note_round_trips(id, vstd::utf8::decode_utf8(bytes->Ok_0@));
    }
    let way = tree::ancestors(tree::home(id));
    assert(forall|folder: Seq<char>| way.to_set().contains(folder) == way.contains(folder));
}

/// The vault a config names is the one that is open, if there is such a folder.
pub proof fn lemma_a_config_names_its_vault(
    nb: NotebookView,
    path: Seq<char>,
    config: ConfigView,
    is_folder: bool,
)
    ensures
        ({
            let now = configured(nb, path, config, is_folder);
            &&& now.config == config && now.config_path == path
            &&& config.vault is Some && is_folder ==> now.vault == config.vault
            &&& config.vault is Some && !is_folder ==> now.vault is None
            &&& config.vault is None ==> now.vault == nb.vault
            &&& now.sort == tree::sort_called(config.sort)
            &&& forall|folder: Seq<char>| #[trigger]
                now.expanded.contains(folder) == config.expanded_folders.contains(folder)
            &&& now.open == nb.open && now.index == nb.index && now.query == nb.query
                && now.filter == nb.filter && now.dirty == nb.dirty
        }),
{
}

/// What is remembered of the view is its sort and its open folders, in order,
/// and nothing else of the config changes.
pub proof fn lemma_what_is_remembered_of_the_view(nb: NotebookView)
    ensures
        folded(nb) == (ConfigView {
            sort: match nb.sort {
                Sort::Name => "name"@,
                Sort::Modified => "modified"@,
                Sort::Created => "created"@,
            },
            expanded_folders: ordered::ascending(nb.expanded),
            ..nb.config
        }),
{
}

/// Another vault starts with no note open, none remembered, and nothing
/// unsaved.
pub proof fn lemma_another_vault_starts_afresh(nb: NotebookView, root: Seq<char>)
    ensures
        ({
            let now = pointed(nb, root);
            &&& now.vault == Some(root)
            &&& now.config == ConfigView { vault: Some(root), last_note: None, ..nb.config }
            &&& now.open is None && !now.dirty
            &&& alert_of(now) is None
            &&& now.index == nb.index && now.query == nb.query && now.filter == nb.filter
            &&& now.expanded == nb.expanded && now.sort == nb.sort
        }),
{
}

/// A vault that is read again has its open note read again, or closed if it is
/// gone.
pub proof fn lemma_a_vault_read_again(
    nb: NotebookView,
    notes: Seq<(note::NoteView, markdown::ScanView)>,
    bytes: Result<Vec<u8>, String>,
)
    requires
        nb.vault is Some,
    ensures
        ({
            let now = reloaded(nb, notes, bytes);
            let fresh = NotebookView { index: index::entries_of(notes), ..nb };
            &&& now.index == index::entries_of(notes)
            &&& nb.open is None ==> now == fresh
            &&& nb.open is Some && index::entries_of(notes).contains_key(nb.open->0.note.id)
                ==> now == loaded(fresh, nb.open->0.note.id, bytes)
            &&& nb.open is Some && !index::entries_of(notes).contains_key(nb.open->0.note.id)
                ==> now == (NotebookView { open: None, ..fresh })
        }),
{
}

/// The note that was open last is opened again if it is still there.
pub proof fn lemma_the_last_note_is_opened_again(nb: NotebookView, bytes: Result<Vec<u8>, String>)
    ensures
        match nb.config.last_note {
            Some(last) => if nb.index.contains_key(paths::relative(last)) {
                reopened(nb, bytes) == loaded(nb, paths::relative(last), bytes)
            } else {
                reopened(nb, bytes) == nb
            },
            None => reopened(nb, bytes) == nb,
        },
{
}

/// Settling a divergence takes the file's side; settling a disappearance writes
/// the note again; there is nothing to settle about what could not be saved.
pub proof fn lemma_how_a_banner_is_settled(
    nb: NotebookView,
    bytes: Result<Vec<u8>, String>,
    wrote: Result<(), VaultError>,
    scan: markdown::ScanView,
)
    requires
        nb.vault is Some,
        nb.open is Some,
    ensures
        ({
            let now = resolved(nb, bytes, wrote, scan);
            let open = nb.open->0;
            let file = vstd::utf8::decode_utf8(bytes->Ok_0@);
            &&& nb.not_saving is Some ==> now is None
            &&& nb.not_saving is None && nb.diverged is Some ==> if bytes is Ok
                && vstd::utf8::valid_utf8(bytes->Ok_0@) {
                now == Some(
                    NotebookView {
                        open: Some(
                            OpenView { note: note::read(open.note.id, file), on_disk: file },
                        ),
                        dirty: false,
                        diverged: None,
                        ..nb
                    },
                )
            } else {
                now is None
            }
            &&& nb.not_saving is None && nb.diverged is None && nb.vanished is Some ==> if wrote is Ok {
                now == Some(
                    NotebookView {
                        open: Some(
                            OpenView { note: open.note, on_disk: note::contents(open.note) },
                        ),
                        index: nb.index.insert(open.note.id, index::entry(open.note, scan)),
                        dirty: false,
                        vanished: None,
                        ..nb
                    },
                )
            } else {
                now is None
            }
            &&& alert_of(nb) is None ==> now is None
        }),
{
    if bytes is Ok {
        note::lemma_a_note_round_trips(
            nb.open->0.note.id,
            vstd::utf8::decode_utf8(bytes->Ok_0@),
        );
    }
}

/// A vault's vectors are the store that was read, at the place that is the
/// vault's; without a vault there are none.
pub proof fn lemma_vectors_are_the_vaults_own(
    nb: NotebookView,
    cache: Option<Seq<char>>,
    home: Option<Seq<char>>,
    store: semantic::StoreView,
    id: Seq<char>,
)
    ensures
        ({
            let now = with_vectors(nb, cache, home, store);
            &&& nb.vault is Some ==> now.vectors == store && now.vectors_path == Some(
                semantic::store_path(nb.vault->0, cache, home),
            )
            &&& nb.vault is None ==> !now.vectors.notes.contains_key(id) && now.vectors_path is None
            &&& now.index == nb.index && now.open == nb.open && now.config == nb.config
                && now.vault == nb.vault && now.query_vector == nb.query_vector
        }),
{
}

// ---- what the sidebar lists ----

/// The notes listed are those of the vault, or those under the tag that was
/// chosen, in the order of their ids.
pub proof fn lemma_which_notes_are_listed(nb: NotebookView, id: Seq<char>)
    requires
        nb.index.dom().finite(),
    ensures
        nb.filter is None ==> tagged_ids(nb).contains(id) == nb.index.contains_key(id),
        nb.filter is Some ==> tagged_ids(nb).contains(id) == (nb.index.contains_key(id) && exists|
            i: int,
        |
            0 <= i < nb.index[id].tags.len() && ({
                let tag = text::lowercase(#[trigger] nb.index[id].tags[i]);
                let wanted = text::lowercase(index::unhashed(nb.filter->0));
                tag == wanted || (tag.len() > wanted.len() && tag.take(wanted.len() as int)
                    == wanted && tag[wanted.len() as int] == '/')
            })),
        ordered::is_ascending(tagged_ids(nb)),
{
    ordered::lemma_ascending(nb.index.dom());
    ordered::lemma_ascending_apart(nb.index.dom());
    if let Some(tag) = nb.filter {
        let wanted = text::lowercase(index::unhashed(tag));
        let all = index::under(index::tagged(nb.index), wanted);
        assert(all.subset_of(nb.index.dom())) by {
            assert forall|x: Seq<char>| all.contains(x) implies nb.index.dom().contains(x) by {
                index::lemma_a_tag_finds_what_is_under_it(nb.index, wanted, x);
            }
        }
        vstd::set_lib::lemma_len_subset(all, nb.index.dom());
        ordered::lemma_ascending(all);
        ordered::lemma_ascending_apart(all);
        index::lemma_a_tag_finds_what_is_under_it(nb.index, wanted, id);
    }
}

/// A search lists, of the fifty best by title and the fifty best by text, those
/// that are allowed: first those found by title, then the others; each with the
/// first line in which the text was found, or else with its excerpt.
pub proof fn lemma_what_a_search_lists(nb: NotebookView)
    requires
        text::trim(nb.query).len() > 0,
    ensures
        ({
            let texts = search::text_results(nb.index, text::trim(nb.query), 50);
            let titles = search::title_results(nb.index, text::trim(nb.query), 50);
            &&& shown(nb) == text_rows(
                title_rows(nb.index, tagged_ids(nb), titles, texts),
                tagged_ids(nb),
                texts,
            )
            &&& searching(nb)
        }),
{
}

/// A row for each note found by title that is allowed.
pub proof fn lemma_a_row_for_each_title(
    entries: Map<Seq<char>, index::EntryView>,
    allowed: Seq<Seq<char>>,
    found: Seq<search::TitleMatchView>,
    m: search::TitleMatchView,
    texts: Seq<search::TextMatchView>,
)
    ensures
        title_rows(entries, allowed, found.push(m), texts) == if allowed.contains(m.id) {
            title_rows(entries, allowed, found, texts).push((m.id, said_of(entries, texts, m.id)))
        } else {
            title_rows(entries, allowed, found, texts)
        },
        title_rows(entries, allowed, seq![], texts).len() == 0,
{
    assert(found.push(m).drop_last() =~= found);
}

/// A row for each note found by text that is allowed and has none yet, with the
/// first line in which the text was found.
pub proof fn lemma_a_row_for_each_text(
    rows: Seq<(Seq<char>, Seq<char>)>,
    allowed: Seq<Seq<char>>,
    found: Seq<search::TextMatchView>,
    m: search::TextMatchView,
)
    requires
        m.snippets.len() > 0,
    ensures
        ({
            let before = text_rows(rows, allowed, found);
            text_rows(rows, allowed, found.push(m)) == if allowed.contains(m.id) && (forall|i: int|
                0 <= i < before.len() ==> (#[trigger] before[i]).0 != m.id) {
                before.push((m.id, m.snippets[0].text))
            } else {
                before
            }
        }),
        text_rows(rows, allowed, seq![]) == rows,
{
    assert(found.push(m).drop_last() =~= found);
}

/// What is said of a note is the first line of it that was found, and its
/// excerpt if none was.
pub proof fn lemma_what_is_said_of_a_note(
    entries: Map<Seq<char>, index::EntryView>,
    texts: Seq<search::TextMatchView>,
    id: Seq<char>,
    k: int,
)
    requires
        0 <= k <= texts.len(),
        forall|i: int| 0 <= i < k ==> (#[trigger] texts[i]).id != id,
        k < texts.len() ==> texts[k].id == id && texts[k].snippets.len() > 0,
        entries.contains_key(id),
    ensures
        said_of(entries, texts, id) == if k < texts.len() {
            texts[k].snippets[0].text
        } else {
            entries[id].excerpt
        },
{
    lemma_matching_line_is_first(texts, id, k);
}

proof fn lemma_matching_line_is_first(texts: Seq<search::TextMatchView>, id: Seq<char>, k: int)
    requires
        0 <= k <= texts.len(),
        forall|i: int| 0 <= i < k ==> (#[trigger] texts[i]).id != id,
        k < texts.len() ==> texts[k].id == id && texts[k].snippets.len() > 0,
    ensures
        matching_line(texts, id) == if k < texts.len() {
            Some(texts[k].snippets[0].text)
        } else {
            None
        },
    decreases texts.len(),
{
    if texts.len() > 0 {
        let rest = texts.drop_last();
        let n = rest.len() as int;
        assert(texts[n] == texts.last());
        assert(forall|i: int| 0 <= i < n ==> #[trigger] rest[i] == texts[i]);
        if k < n {
            assert(rest[k].id == id);
            lemma_matching_line_is_first(rest, id, k);
        } else {
            lemma_matching_line_is_first(rest, id, n);
        }
    }
}

/// A note in the sidebar has its excerpt, and its times only where the notes
/// are sorted by time.
pub proof fn lemma_what_the_sidebar_knows_of_a_note(
    nb: NotebookView,
    times: Map<Seq<char>, (u64, u64)>,
    id: Seq<char>,
)
    requires
        nb.index.contains_key(id),
    ensures
        ({
            let n = listed_note(nb, times, id);
            &&& n.id == id && n.excerpt == nb.index[id].excerpt
            &&& nb.sort != Sort::Name && nb.vault is Some && times.contains_key(id) ==> n.modified
                == times[id].0 && n.created == times[id].1
            &&& nb.sort == Sort::Name || nb.vault is None || !times.contains_key(id) ==> n.modified
                == 0 && n.created == 0
        }),
{
}

/// A filtered sidebar shows the notes that carry the tag, with all their
/// folders open and no others; an unfiltered one shows every folder there is,
/// open or closed as it was left.
pub proof fn lemma_a_filter_opens_the_way_to_its_notes(
    nb: NotebookView,
    times: Map<Seq<char>, (u64, u64)>,
    folders: Seq<Seq<char>>,
    i: int,
    folder: Seq<char>,
)
    requires
        0 <= i < tagged_ids(nb).len(),
    ensures
        ({
            let side = sidebar(nb, times, folders);
            let shown = if nb.filter is None && nb.vault is Some {
                folders
            } else {
                seq![]
            };
            &&& side.notes.len() == tagged_ids(nb).len()
            &&& side.notes[i] == listed_note(nb, times, tagged_ids(nb)[i])
            &&& side.sort == nb.sort
            &&& side.known == ordered::ascending(tree::known(side.notes, shown))
            &&& nb.filter is None ==> side.expanded == nb.expanded
            &&& nb.filter is Some && tree::ancestors(tree::home(tagged_ids(nb)[i])).contains(folder)
                ==> side.expanded.contains(folder)
            &&& nb.filter is Some && side.expanded.contains(folder) ==> exists|k: int|
                0 <= k < tagged_ids(nb).len() && tree::ancestors(
                    tree::home(#[trigger] tagged_ids(nb)[k]),
                ).contains(folder)
        }),
{
}

/// A tag becomes the filter, in lower case and without its hashes, if a note
/// carries it, and else there is no filter.
pub proof fn lemma_what_a_filter_is(nb: NotebookView, tag: Seq<char>)
    ensures
        ({
            let now = filtered(nb, Some(tag));
            let wanted = text::lowercase(index::unhashed(tag));
            &&& now.filter is Some ==> now.filter->0 == wanted
            &&& now.filter is Some == (ordered::ascending(
                index::under(index::tagged(nb.index), text::lowercase(index::unhashed(wanted))),
            ).len() > 0)
            &&& now == (NotebookView { filter: now.filter, ..nb })
            &&& filtered(nb, None) == (NotebookView { filter: None, ..nb })
        }),
{
}

/// A folder that is toggled opens if it was closed and closes if it was open,
/// no other does, and new notes go there.
pub proof fn lemma_what_toggling_a_folder_does(
    nb: NotebookView,
    path: Seq<char>,
    other: Seq<char>,
)
    requires
        other != path,
    ensures
        ({
            let now = toggled(nb, path);
            &&& now.expanded.contains(path) == !nb.expanded.contains(path)
            &&& now.expanded.contains(other) == nb.expanded.contains(other)
            &&& now.target_folder == Some(path)
            &&& now == (NotebookView {
                expanded: now.expanded,
                target_folder: now.target_folder,
                ..nb
            })
        }),
{
}

/// A completion is the title of each note found, but not of the open one.
pub proof fn lemma_a_note_is_not_offered_to_itself(
    found: Seq<search::TitleMatchView>,
    m: search::TitleMatchView,
    open: Option<Seq<char>>,
)
    ensures
        titles_but(found.push(m), open) == if open == Some(m.id) {
            titles_but(found, open)
        } else {
            titles_but(found, open).push(note::title(m.id))
        },
        titles_but(seq![], open).len() == 0,
{
    assert(found.push(m).drop_last() =~= found);
}

/// A row found by title says what folder it is in, and one found by text shows
/// the line, underlined where the query is.
pub proof fn lemma_what_a_row_of_the_palette_says(hit: search::HitView, query: Seq<char>)
    ensures
        title_hit(hit.id) == (HitView {
            id: hit.id,
            title: note::title(hit.id),
            detail: tree::home(hit.id),
            highlight: None,
        }),
        text_hit(hit, query) == (HitView {
            id: hit.id,
            title: note::title(hit.id),
            detail: hit.snippet,
            highlight: search::highlight(hit.snippet, query),
        }),
{
}

/// A query is to be embedded unless it was the last one that was.
pub proof fn lemma_a_query_is_embedded_once(nb: NotebookView, query: Seq<char>, vector: Seq<u32>)
    ensures
        wants_embedding(nb, query) == !(nb.query_vector is Some && (nb.query_vector->Some_0).0
            == query),
        !wants_embedding(NotebookView { query_vector: Some((query, vector)), ..nb }, query),
{
}

/// The links that point at the open note are its backlinks.
pub proof fn lemma_which_links_point_here(nb: NotebookView)
    ensures
        nb.open is None ==> links_here(nb).len() == 0,
        nb.open is Some ==> links_here(nb) == index::listed(
            index::graph(nb.index).backlinks,
            nb.open->0.note.id,
        ),
{
}

// ---- attachments ----

/// What was attached is what did not fail, in order.
pub proof fn lemma_what_failed_is_not_attached(
    tried: Seq<Result<String, VaultError>>,
    one: Result<String, VaultError>,
)
    ensures
        attached_names(tried.push(one)) == match one {
            Ok(name) => attached_names(tried).push(name@),
            Err(_) => attached_names(tried),
        },
        attached_names(seq![]).len() == 0,
{
    assert(tried.push(one).drop_last() =~= tried);
}

/// An attachment is unused if no note embeds it; one whose name begins with a
/// dot is not looked at. They are listed in order.
pub proof fn lemma_which_attachments_are_unused(
    nb: NotebookView,
    files: Seq<Seq<char>>,
    name: Seq<char>,
)
    requires
        nb.vault is Some,
    ensures
        unused(nb, files).contains(name) == (files.contains(name) && (name.len() == 0 || name[0]
            != '.') && !index::embedded(nb.index).contains(name)),
        forall|i: int, j: int|
            0 <= i < j < unused(nb, files).len() ==> (#[trigger] unused(nb, files)[i])
                == #[trigger] unused(nb, files)[j] || ordered::precedes(
                unused(nb, files)[i],
                unused(nb, files)[j],
            ),
{
    let s = unreferenced(files, index::embedded(nb.index));
    let r = unused(nb, files);
    lemma_unreferenced(files, index::embedded(nb.index), name);
    ranked::lemma_ranked_contains::<Name>(s, name);
    assert(ranked::is_order::<Name>()) by {
        assert forall|a: Seq<char>| !#[trigger] Name::before(a, a) by {
            ordered::lemma_precedes_irreflexive(a);
        }
        assert forall|a: Seq<char>, b: Seq<char>, c: Seq<char>|
            #![trigger Name::before(a, b), Name::before(b, c)]
            Name::before(a, b) && Name::before(b, c) implies Name::before(a, c) by {
            ordered::lemma_precedes_transitive(a, b, c);
        }
        assert forall|a: Seq<char>, b: Seq<char>, c: Seq<char>|
            #![trigger Name::before(a, b), Name::before(b, c)]
            !Name::before(a, b) && !Name::before(b, c) implies !Name::before(a, c) by {
            ordered::lemma_not_precedes_transitive(a, b, c);
        }
    }
    ranked::lemma_ranked_in_order::<Name>(s);
    assert forall|i: int, j: int| 0 <= i < j < r.len() implies (#[trigger] r[i]) == #[trigger] r[j]
        || ordered::precedes(r[i], r[j]) by {
        assert(!Name::before(r[j], r[i]));
        ordered::lemma_precedes_total(r[i], r[j]);
    }
}

proof fn lemma_unreferenced(files: Seq<Seq<char>>, referenced: Set<Seq<char>>, name: Seq<char>)
    ensures
        unreferenced(files, referenced).contains(name) == (files.contains(name) && (name.len() == 0
            || name[0] != '.') && !referenced.contains(name)),
    decreases files.len(),
{
    if files.len() > 0 {
        let rest = files.drop_last();
        let last = files.last();
        lemma_unreferenced(rest, referenced, name);
        let before = unreferenced(rest, referenced);
        let now = unreferenced(files, referenced);
        assert(files[files.len() - 1] == last);
        if files.contains(name) && name != last {
            let k = choose|k: int| 0 <= k < files.len() && files[k] == name;
            assert(rest[k] == name);
        }
        if rest.contains(name) {
            let k = choose|k: int| 0 <= k < rest.len() && rest[k] == name;
            assert(files[k] == name);
        }
        if before.contains(name) {
            let k = choose|k: int| 0 <= k < before.len() && before[k] == name;
            assert(now[k] == name);
        }
        if now.contains(name) {
            let k = choose|k: int| 0 <= k < now.len() && now[k] == name;
            if k < before.len() {
                assert(before[k] == name);
            }
        }
        if name == last && (name.len() == 0 || name[0] != '.') && !referenced.contains(name) {
            assert(now[now.len() - 1] == name);
        }
    }
}

// ---- making, renaming and moving ----

/// A new note goes to the folder that was last pointed at, or else to that of
/// the open note, or else to the root.
pub proof fn lemma_where_a_new_note_goes(nb: NotebookView)
    ensures
        nb.target_folder is Some ==> current(nb) == nb.target_folder->0,
        nb.target_folder is None && nb.open is Some ==> current(nb) == tree::home(
            nb.open->0.note.id,
        ),
        nb.target_folder is None && nb.open is None ==> current(nb).len() == 0,
{
}

/// A note that is to be called something is called just that, or that and the
/// first number from two on that makes its id a new one.
pub proof fn lemma_what_a_new_note_is_called(folder: Seq<char>, title: Seq<char>, attempt: nat)
    ensures
        ({
            let name = if attempt == 0 {
                title + ".md"@
            } else {
                title + (seq![' '] + text::decimal(attempt + 1)) + ".md"@
            };
            attempt_id(folder, title, attempt) == paths::relative(
                if folder.len() == 0 {
                    name
                } else {
                    folder + seq!['/'] + name
                },
            )
        }),
{
    if attempt == 0 {
        assert(title + suffix(0) + ".md"@ =~= title + ".md"@);
    }
}

/// A note that was made is empty, known to the index and opened.
pub proof fn lemma_what_making_a_note_does(
    nb: NotebookView,
    id: Seq<char>,
    made: Result<(), VaultError>,
    scan: markdown::ScanView,
    bytes: Result<Vec<u8>, String>,
)
    requires
        nb.vault is Some,
    ensures
        ({
            let (now, r) = created(nb, id, made, scan, bytes);
            let known = NotebookView {
                index: nb.index.insert(id, index::entry(note::read(id, seq![]), scan)),
                ..nb
            };
            match made {
                Err(error) => now == nb && r == Err::<Seq<char>, FailedView>(
                    FailedView::Vault(error@),
                ),
                Ok(_) => now == loaded(known, id, bytes) && match vault::opened(
                    nb.vault->0,
                    id,
                    bytes,
                ) {
                    Ok(_) => r == Ok::<Seq<char>, FailedView>(id),
                    Err(problem) => r == Err::<Seq<char>, FailedView>(FailedView::Vault(problem)),
                },
            }
        }),
{
}

/// A note that was renamed is under its new name, in the index and open, with
/// everything else of it as it was; the notes whose links were rewritten are
/// known as they are now, and each link to it that was is counted. A failed
/// rename changes nothing.
pub proof fn lemma_what_renaming_a_note_does(
    nb: NotebookView,
    title: Seq<char>,
    outcome: Result<(), VaultError>,
    rewritten: Seq<(note::NoteView, markdown::ScanView)>,
)
    requires
        nb.vault is Some,
        nb.open is Some,
    ensures
        ({
            let (now, r) = renamed(nb, title, outcome, rewritten);
            let open = nb.open->0;
            let from = open.note.id;
            let to = match paths::folder(from) {
                Some(folder) => paths::relative(folder + seq!['/'] + title + ".md"@),
                None => paths::relative(title + ".md"@),
            };
            let links = index::listed(index::graph(nb.index).backlinks, from);
            if note::title(from) == title {
                now == nb && r == RenamedView::Unchanged
            } else {
                match outcome {
                    Err(error) => now == nb && r == RenamedView::Failed(error@),
                    Ok(_) => {
                        &&& now == (NotebookView {
                            index: with_notes(index::renamed(nb.index, from, to), rewritten),
                            open: Some(
                                OpenView {
                                    note: note::NoteView { id: to, ..open.note },
                                    on_disk: open.on_disk,
                                },
                            ),
                            config: ConfigView { last_note: Some(to), ..nb.config },
                            ..nb
                        })
                        &&& r == RenamedView::Done {
                            to,
                            links: repointed(
                                links.map_values(|link: (Seq<char>, Seq<char>)| link.0),
                                rewritten,
                            ),
                        }
                    },
                }
            }
        }),
{
}

/// Each link counts whose note was rewritten.
pub proof fn lemma_each_rewritten_link_counts(
    inbound: Seq<Seq<char>>,
    id: Seq<char>,
    rewritten: Seq<(note::NoteView, markdown::ScanView)>,
)
    ensures
        repointed(inbound.push(id), rewritten) == repointed(inbound, rewritten) + if exists|i: int|
            0 <= i < rewritten.len() && (#[trigger] rewritten[i]).0.id == id {
            1int
        } else {
            0int
        },
        repointed(seq![], rewritten) == 0,
{
    assert(inbound.push(id).drop_last() =~= inbound);
}

/// Notes that were rewritten are known as they were last rewritten, and no
/// others change.
pub proof fn lemma_rewritten_notes_are_known_anew(
    entries: Map<Seq<char>, index::EntryView>,
    notes: Seq<(note::NoteView, markdown::ScanView)>,
    note: note::NoteView,
    scan: markdown::ScanView,
)
    ensures
        with_notes(entries, notes.push((note, scan))) == with_notes(entries, notes).insert(
            note.id,
            index::entry(note, scan),
        ),
        with_notes(entries, seq![]) == entries,
{
    assert(notes.push((note, scan)).drop_last() =~= notes);
}

/// A note that was deleted is closed and forgotten; one that could not be is
/// closed and still known.
pub proof fn lemma_what_deleting_a_note_does(nb: NotebookView, removed: Result<(), VaultError>)
    requires
        nb.vault is Some,
        nb.open is Some,
    ensures
        ({
            let (now, r) = deleted(nb, removed);
            let id = nb.open->0.note.id;
            &&& now.open is None && !now.dirty && alert_of(now) is None
            &&& now.vault == nb.vault && now.expanded == nb.expanded && now.query == nb.query
                && now.filter == nb.filter && now.target_folder == nb.target_folder
            &&& match removed {
                Ok(_) => {
                    &&& r == Ok::<Seq<char>, FailedView>(id)
                    &&& now.index == nb.index.remove(id)
                    &&& now.config == ConfigView { last_note: None, ..nb.config }
                },
                Err(error) => {
                    &&& r == Err::<Seq<char>, FailedView>(FailedView::Vault(error@))
                    &&& now.index == nb.index
                    &&& now.config == nb.config
                },
            }
        }),
{
}

/// A note that was moved is under its new folder, in the index and, if it is
/// the open one, open, and the way to it is shown. One that is there already
/// and one that could not be moved change nothing.
pub proof fn lemma_what_moving_a_note_does(
    nb: NotebookView,
    id: Seq<char>,
    folder: Seq<char>,
    outcome: Result<(), VaultError>,
    other: Seq<char>,
)
    requires
        nb.vault is Some,
    ensures
        ({
            let (now, r) = moved(nb, id, folder, outcome);
            let name = note::title(id) + ".md"@;
            let to = paths::relative(
                if folder.len() == 0 {
                    name
                } else {
                    folder + seq!['/'] + name
                },
            );
            let mine = nb.open is Some && nb.open->0.note.id == id;
            if tree::home(id) == folder {
                now == nb && r == MovedView::Unchanged
            } else {
                match outcome {
                    Err(error) => now == nb && r == MovedView::Failed(error@),
                    Ok(_) => {
                        &&& r == MovedView::Done { to, destination: folder }
                        &&& now.index == index::renamed(nb.index, id, to)
                        &&& now.expanded.contains(other) == (nb.expanded.contains(other)
                            || tree::ancestors(tree::home(to)).contains(other))
                        &&& mine ==> now.open == Some(
                            OpenView {
                                note: note::NoteView { id: to, ..nb.open->0.note },
                                on_disk: nb.open->0.on_disk,
                            },
                        ) && now.config == ConfigView { last_note: Some(to), ..nb.config }
                        &&& !mine ==> now.open == nb.open && now.config == nb.config
                        &&& now.dirty == nb.dirty && now.vault == nb.vault && now.query == nb.query
                            && now.filter == nb.filter && now.target_folder == nb.target_folder
                    },
                }
            }
        }),
{
}

/// What is in a folder that moves moves with it, and nothing else does: not
/// what merely begins with the same letters.
pub proof fn lemma_what_moves_with_a_folder(
    rest: Seq<char>,
    path: Seq<char>,
    from: Seq<char>,
    to: Seq<char>,
)
    ensures
        relocated(from, from, to) == Some(to),
        relocated(from + seq!['/'] + rest, from, to) == Some(to + seq!['/'] + rest),
        !tree::within(from, path) ==> relocated(path, from, to) is None && carried(path, from, to)
            == path,
{
    let inside = from + seq!['/'] + rest;
    assert(from.push('/') =~= inside.subrange(0, from.len() as int + 1));
    assert(from.push('/').is_prefix_of(inside));
    assert(inside.skip((from.len() + 1) as int) =~= rest);
    assert(inside.len() > from.len());
}

/// A folder that was made is open with all on the way to it, and new notes go
/// there.
pub proof fn lemma_a_new_folder_is_open(nb: NotebookView, path: Seq<char>, other: Seq<char>)
    ensures
        ({
            let now = with_folder(nb, path);
            &&& now.expanded.contains(other) == (nb.expanded.contains(other) || tree::ancestors(
                path,
            ).contains(other))
            &&& now.target_folder == Some(path)
            &&& now == (NotebookView {
                expanded: now.expanded,
                target_folder: now.target_folder,
                ..nb
            })
        }),
{
}

/// A folder that is gone is not open, and new notes go neither there nor into
/// anything that was in it.
pub proof fn lemma_a_folder_that_is_gone_is_closed(
    nb: NotebookView,
    path: Seq<char>,
    other: Seq<char>,
)
    ensures
        ({
            let now = without_folder(nb, path);
            &&& now.expanded.contains(other) == (nb.expanded.contains(other) && other != path)
            &&& match nb.target_folder {
                Some(target) => now.target_folder == if tree::within(path, target) {
                    None
                } else {
                    Some(target)
                },
                None => now.target_folder is None,
            }
            &&& now == (NotebookView {
                expanded: now.expanded,
                target_folder: now.target_folder,
                ..nb
            })
        }),
{
}

/// A folder that was moved takes with it which of its folders are open, where
/// new notes go, and the open note; the way to it is shown.
pub proof fn lemma_what_moving_a_folder_does(
    nb: NotebookView,
    from: Seq<char>,
    to: Seq<char>,
    notes: Seq<(note::NoteView, markdown::ScanView)>,
    bytes: Result<Vec<u8>, String>,
    old: Seq<char>,
)
    requires
        nb.vault is Some,
    ensures
        ({
            let now = with_moved_folder(nb, from, to, notes, bytes);
            let mine = nb.open is Some && tree::within(from, nb.open->0.note.id);
            &&& now.index == index::entries_of(notes)
            &&& nb.expanded.contains(old) ==> now.expanded.contains(carried(old, from, to))
            &&& tree::ancestors(to).contains(old) ==> now.expanded.contains(old)
            &&& !mine ==> now.open == nb.open && now.config == nb.config
            &&& !mine && nb.target_folder is Some ==> now.target_folder == Some(
                carried(nb.target_folder->0, from, to),
            )
            &&& mine && bytes is Ok && vstd::utf8::valid_utf8(bytes->Ok_0@) ==> open_id(now)
                == Some(paths::relative(carried(nb.open->0.note.id, from, to)))
        }),
{
    if nb.expanded.contains(old) {
        assert(carried_all(nb.expanded, from, to).contains(carried(old, from, to)));
    }
    if tree::ancestors(to).contains(old) {
        assert(tree::ancestors(to).to_set().contains(old));
    }
}

} // verus!
