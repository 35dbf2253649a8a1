//! The folder of notes: what is in it, where it is kept, and what may be done
//! to it.
//!
//! Whatever reads and writes the files asks here first where a note is, which
//! entries of a folder to look at, and whether a note may be created or moved;
//! and hands back what it found, which comes out as notes and problems.
//!
//! # Durability
//!
//! A save writes to a temporary file in the same directory and renames it over
//! the target. A crash mid-save therefore leaves either the old note or the new
//! one, never a half-written one. The rename is atomic only within a
//! filesystem, which is why the temporary file is a sibling of its target.

use crate::note;
use crate::note::{Note, NoteId};
use crate::paths;
use crate::text;
use crate::tree;
use vstd::prelude::*;

verus! {

/// The app's own cache directory inside the vault.
pub const CACHE_DIR: &'static str = ".brain";

/// Where dropped files are copied.
pub const ATTACHMENTS_DIR: &'static str = "attachments";

// ---- what can go wrong ----

/// Why something could not be done to the vault.
#[derive(Debug, PartialEq, Eq)]
pub enum VaultError {
    /// The path is outside the vault, or names something that is not a file.
    NotInVault(String),
    /// A note already exists where one was about to be created.
    Exists(NoteId),
    /// The file is not valid UTF-8. Encodings are not guessed at.
    NotText(NoteId),
    /// A folder that was to be deleted holds something.
    FolderNotEmpty(String),
    /// A folder was to be moved inside itself.
    IntoItself(String),
    /// The filesystem refused, and what it said.
    Io { path: String, source: String },
}

/// Why something could not be done to the vault, by its texts.
pub enum Problem {
    NotInVault(Seq<char>),
    Exists(Seq<char>),
    NotText(Seq<char>),
    FolderNotEmpty(Seq<char>),
    IntoItself(Seq<char>),
    Io { path: Seq<char>, source: Seq<char> },
}

impl View for VaultError {
    type V = Problem;

    open spec fn view(&self) -> Problem {
        match *self {
            VaultError::NotInVault(path) => Problem::NotInVault(path@),
            VaultError::Exists(id) => Problem::Exists(id@),
            VaultError::NotText(id) => Problem::NotText(id@),
            VaultError::FolderNotEmpty(path) => Problem::FolderNotEmpty(path@),
            VaultError::IntoItself(path) => Problem::IntoItself(path@),
            VaultError::Io { path, source } => Problem::Io { path: path@, source: source@ },
        }
    }
}

/// What is said of a problem.
pub open spec fn told(problem: Problem) -> Seq<char> {
    match problem {
        Problem::NotInVault(path) => path + " is not inside the vault"@,
        Problem::Exists(id) => id + " already exists"@,
        Problem::NotText(id) => id + " is not UTF-8 text"@,
        Problem::FolderNotEmpty(path) => path + " is not empty"@,
        Problem::IntoItself(path) => path + " cannot be moved inside itself"@,
        Problem::Io { path, source } => path + ": "@ + source,
    }
}

fn followed(start: &str, rest: &str) -> (r: String)
    ensures
        r@ == start@ + rest@,
{
    let mut out = text::chars_of(start);
    text::extend(&mut out, &text::chars_of(rest));
    text::string_of(&out)
}

impl VaultError {
    /// What to say of it.
    pub fn message(&self) -> (r: String)
        ensures
            r@ == told(self@),
    {
        match self {
            VaultError::NotInVault(path) => followed(path.as_str(), " is not inside the vault"),
            VaultError::Exists(id) => followed(id.as_str(), " already exists"),
            VaultError::NotText(id) => followed(id.as_str(), " is not UTF-8 text"),
            VaultError::FolderNotEmpty(path) => followed(path.as_str(), " is not empty"),
            VaultError::IntoItself(path) => followed(
                path.as_str(),
                " cannot be moved inside itself",
            ),
            VaultError::Io { path, source } => followed(
                followed(path.as_str(), ": ").as_str(),
                source.as_str(),
            ),
        }
    }
}

// ---- where things are ----

/// Where something is kept. A path that is absolute stands for itself.
pub open spec fn place(root: Seq<char>, path: Seq<char>) -> Seq<char> {
    if path.len() > 0 && path[0] == '/' {
        path
    } else {
        paths::joined(root, path)
    }
}

/// Whether a name is that of a note: something, and then `.md`.
pub open spec fn is_note_name(name: Seq<char>) -> bool {
    name.len() > 3 && ".md"@.is_suffix_of(name)
}

/// Whether some components, from the vault's root down, lead to a note: none of
/// them hidden, and the last one a note's name.
pub open spec fn leads_to_a_note(parts: Seq<Seq<char>>) -> bool {
    parts.len() > 0 && is_note_name(parts.last()) && forall|i: int|
        0 <= i < parts.len() ==> (#[trigger] parts[i])[0] != '.'
}

/// The id of a path, if it is that of a note inside the vault.
pub open spec fn id_at(root: Seq<char>, path: Seq<char>) -> Option<Seq<char>> {
    let top = paths::components(root);
    let all = paths::components(path);
    let parts = all.skip(top.len() as int);
    if top.is_prefix_of(all) && leads_to_a_note(parts) {
        Some(text::join(parts, seq!['/']))
    } else {
        None
    }
}

/// The sibling of a file that a save writes first.
pub open spec fn temporary(path: Seq<char>) -> Seq<char> {
    paths::with_extension(path, "md.tmp"@)
}

/// What a save puts where.
#[derive(Debug, PartialEq, Eq)]
pub struct Write {
    pub path: String,
    pub temporary: String,
    pub text: String,
}

/// What a save puts where, by its texts.
pub struct WriteView {
    pub path: Seq<char>,
    pub temporary: Seq<char>,
    pub text: Seq<char>,
}

impl View for Write {
    type V = WriteView;

    open spec fn view(&self) -> WriteView {
        WriteView { path: self.path@, temporary: self.temporary@, text: self.text@ }
    }
}

/// What saving a note puts where.
pub open spec fn saving(root: Seq<char>, note: note::NoteView) -> WriteView {
    WriteView {
        path: place(root, note.id),
        temporary: temporary(place(root, note.id)),
        text: note::contents(note),
    }
}

// ---- what a scan finds ----

/// What to do with an entry of a folder.
#[derive(Debug, PartialEq, Eq)]
pub enum Visit {
    /// It is nothing to do with notes.
    Skip,
    /// It is a folder to look into.
    Enter,
    /// It is a note to read.
    Read(NoteId),
}

/// What to do with an entry of a folder, by its text.
pub enum VisitView {
    Skip,
    Enter,
    Read(Seq<char>),
}

impl View for Visit {
    type V = VisitView;

    open spec fn view(&self) -> VisitView {
        match *self {
            Visit::Skip => VisitView::Skip,
            Visit::Enter => VisitView::Enter,
            Visit::Read(id) => VisitView::Read(id@),
        }
    }
}

/// What to do with the entry called `name` at `path`.
pub open spec fn visiting(
    root: Seq<char>,
    path: Seq<char>,
    name: Seq<char>,
    is_folder: bool,
) -> VisitView {
    if name.len() > 0 && name[0] == '.' {
        VisitView::Skip
    } else if is_folder {
        VisitView::Enter
    } else {
        match id_at(root, path) {
            Some(id) => VisitView::Read(id),
            None => VisitView::Skip,
        }
    }
}

/// What came of something that a scan looked at.
#[derive(Debug)]
pub enum Found {
    /// A note's file, and its bytes or why they could not be read.
    File { id: NoteId, bytes: Result<Vec<u8>, String> },
    /// Something that could not be looked at.
    Unreadable { path: String, source: String },
}

/// The note in a file, or what is wrong with it.
pub open spec fn opened(root: Seq<char>, id: Seq<char>, bytes: Result<Vec<u8>, String>) -> Result<
    note::NoteView,
    Problem,
> {
    match bytes {
        Err(source) => Err(Problem::Io { path: place(root, id), source: source@ }),
        Ok(bytes) => if vstd::utf8::valid_utf8(bytes@) {
            Ok(note::read(id, vstd::utf8::decode_utf8(bytes@)))
        } else {
            Err(Problem::NotText(id))
        },
    }
}

/// The note in something that was found, or what is wrong with it.
pub open spec fn taken(root: Seq<char>, found: Found) -> Result<note::NoteView, Problem> {
    match found {
        Found::File { id, bytes } => opened(root, id@, bytes),
        Found::Unreadable { path, source } => Err(Problem::Io { path: path@, source: source@ }),
    }
}

/// The notes among what was found.
pub open spec fn notes_in(root: Seq<char>, found: Seq<Found>) -> Seq<note::NoteView>
    decreases found.len(),
{
    if found.len() == 0 {
        seq![]
    } else {
        let before = notes_in(root, found.drop_last());
        match taken(root, found.last()) {
            Ok(note) => before.push(note),
            Err(_) => before,
        }
    }
}

/// The problems among what was found.
pub open spec fn problems_in(root: Seq<char>, found: Seq<Found>) -> Seq<Problem>
    decreases found.len(),
{
    if found.len() == 0 {
        seq![]
    } else {
        let before = problems_in(root, found.drop_last());
        match taken(root, found.last()) {
            Ok(_) => before,
            Err(problem) => before.push(problem),
        }
    }
}

// ---- the vault ----

/// A folder of Markdown files.
#[derive(Debug, Clone)]
pub struct Vault {
    pub root: String,
}

impl View for Vault {
    type V = Seq<char>;

    open spec fn view(&self) -> Seq<char> {
        self.root@
    }
}

impl Vault {
    /// The vault in a folder.
    pub fn new(root: String) -> (r: Self)
        ensures
            r@ == root@,
    {
        Vault { root }
    }

    /// The folder it is.
    pub fn root(&self) -> (r: &str)
        ensures
            r@ == self@,
    {
        self.root.as_str()
    }

    fn at(&self, path: &str) -> (r: String)
        ensures
            r@ == place(self@, path@),
    {
        let chars = text::chars_of(path);
        if chars.len() > 0 && chars[0] == '/' {
            return text::string_of(&chars);
        }
        let mut out = text::chars_of(self.root.as_str());
        paths::join(&mut out, &chars);
        text::string_of(&out)
    }

    /// Where a note is kept.
    pub fn path_of(&self, id: &NoteId) -> (r: String)
        ensures
            r@ == place(self@, id@),
    {
        self.at(id.as_str())
    }

    /// The id of a path inside the vault, or `None` if it is outside it, is not
    /// a `.md` file, or lives somewhere notes are not looked for.
    pub fn id_of(&self, path: &str) -> (r: Option<NoteId>)
        ensures
            match r {
                Some(id) => id_at(self@, path@) == Some(id@),
                None => id_at(self@, path@) is None,
            },
    {
        let top = paths::components_of(&text::chars_of(self.root.as_str()));
        let all = paths::components_of(&text::chars_of(path));
        let ghost top_view = text::views(top@);
        let ghost all_view = text::views(all@);
        let ghost parts = all_view.skip(top_view.len() as int);
        if top.len() > all.len() {
            assert(!top_view.is_prefix_of(all_view));
            return None;
        }
        let mut i: usize = 0;
        while i < top.len()
            invariant
                i <= top@.len() <= all@.len(),
                top_view == text::views(top@),
                all_view == text::views(all@),
                top_view == paths::components(self@),
                all_view == paths::components(path@),
                forall|j: int| 0 <= j < i ==> top_view[j] == #[trigger] all_view[j],
            decreases top@.len() - i,
        {
            assert(top_view[i as int] == top@[i as int]@);
            assert(all_view[i as int] == all@[i as int]@);
            if !text::same_chars(&top[i], &all[i]) {
                assert(!top_view.is_prefix_of(all_view)) by {
                    if top_view.is_prefix_of(all_view) {
                        assert(all_view.subrange(0, top_view.len() as int)[i as int]
                            == all_view[i as int]);
                    }
                }
                return None;
            }
            i = i + 1;
        }
        assert(top_view =~= all_view.subrange(0, top_view.len() as int));
        let mut rest: Vec<Vec<char>> = Vec::new();
        let from = top.len();
        let mut k: usize = from;
        assert(text::views(rest@) =~= parts.take(0));
        while k < all.len()
            invariant
                from == top_view.len(),
                from <= k <= all@.len(),
                all_view == text::views(all@),
                all_view == paths::components(path@),
                top_view == paths::components(self@),
                parts == all_view.skip(from as int),
                text::views(rest@) == parts.take(k - from),
                forall|j: int| 0 <= j < k - from ==> (#[trigger] parts[j])[0] != '.',
            decreases all@.len() - k,
        {
            let part = &all[k];
            assert(parts[k - from] == part@);
            proof {
                paths::lemma_components_named(path@);
            }
            if part.len() > 0 && part[0] == '.' {
                assert(parts[k - from][0] == '.');
                return None;
            }
            assert(all_view[k as int].len() > 0);
            let copy = text::part(part, 0, part.len());
            assert(copy@ =~= part@);
            proof {
                text::lemma_views_push(rest@, copy);
                assert(parts.take(k - from + 1) =~= parts.take(k - from).push(copy@));
            }
            rest.push(copy);
            k = k + 1;
        }
        assert(parts.take(parts.len() as int) =~= parts);
        assert(text::views(rest@).len() == rest@.len());
        if rest.len() == 0 {
            return None;
        }
        let last = &rest[rest.len() - 1];
        assert(last@ == text::views(rest@)[rest@.len() - 1]);
        let md = text::chars_of(".md");
        if last.len() > 3 && text::ends(last, &md) {
            Some(NoteId::stored(text::string_of(&text::join_chars(&rest, '/'))))
        } else {
            None
        }
    }

    /// What to do with the entry called `name` at `path`, when the vault is
    /// walked. Dotfiles, the cache and `.git` are skipped by name, so that a
    /// vault that is also a git repository does not scan its own objects.
    pub fn visit(&self, path: &str, name: &str, is_folder: bool) -> (r: Visit)
        ensures
            r@ == visiting(self@, path@, name@, is_folder),
    {
        let chars = text::chars_of(name);
        if chars.len() > 0 && chars[0] == '.' {
            Visit::Skip
        } else if is_folder {
            Visit::Enter
        } else {
            match self.id_of(path) {
                Some(id) => Visit::Read(id),
                None => Visit::Skip,
            }
        }
    }

    /// The note in a file, given the file's bytes or why they could not be
    /// read.
    pub fn read(&self, id: &NoteId, bytes: Result<Vec<u8>, String>) -> (r: Result<Note, VaultError>)
        ensures
            match r {
                Ok(note) => opened(self@, id@, bytes) == Ok::<note::NoteView, Problem>(note@),
                Err(error) => opened(self@, id@, bytes) == Err::<note::NoteView, Problem>(error@),
            },
    {
        match bytes {
            Err(source) => Err(VaultError::Io { path: self.path_of(id), source }),
            Ok(bytes) => match String::from_utf8(bytes) {
                Ok(contents) => Ok(Note::from_text(id.clone(), contents.as_str())),
                Err(_) => Err(VaultError::NotText(id.clone())),
            },
        }
    }

    /// Every note in what a walk of the vault found, and what could not be
    /// read.
    ///
    /// Unreadable files are skipped rather than failing the scan: one file with
    /// the wrong permissions must not stop the app opening. They come back in
    /// the second half so that it can be said once, rather than silently
    /// showing an incomplete vault.
    pub fn scan(&self, found: Vec<Found>) -> (r: (Vec<Note>, Vec<VaultError>))
        ensures
            text::views(r.0@) == notes_in(self@, found@),
            text::views(r.1@) == problems_in(self@, found@),
    {
        let mut found = found;
        let ghost all = found@;
        let ghost mut done: int = 0;
        let mut notes: Vec<Note> = Vec::new();
        let mut problems: Vec<VaultError> = Vec::new();
        assert(text::views(notes@) =~= notes_in(self@, all.take(0)));
        assert(text::views(problems@) =~= problems_in(self@, all.take(0)));
        while found.len() > 0
            invariant
                0 <= done <= all.len(),
                found@ == all.skip(done),
                text::views(notes@) == notes_in(self@, all.take(done)),
                text::views(problems@) == problems_in(self@, all.take(done)),
            decreases found@.len(),
        {
            let item = found.remove(0);
            assert(item == all[done]);
            assert(found@ =~= all.skip(done + 1));
            assert(all.take(done + 1).drop_last() =~= all.take(done));
            let outcome = match item {
                Found::File { id, bytes } => self.read(&id, bytes),
                Found::Unreadable { path, source } => Err(VaultError::Io { path, source }),
            };
            match outcome {
                Ok(note) => {
                    proof {
                        text::lemma_views_push(notes@, note);
                    }
                    notes.push(note);
                },
                Err(problem) => {
                    proof {
                        text::lemma_views_push(problems@, problem);
                    }
                    problems.push(problem);
                },
            }
            proof {
                done = done + 1;
            }
        }
        assert(all.take(done) =~= all);
        (notes, problems)
    }

    /// What saving a note puts where.
    pub fn write(&self, note: &Note) -> (r: Write)
        ensures
            r@ == saving(self@, note@),
    {
        let path = self.path_of(&note.id);
        proof {
            reveal_strlit("md.tmp");
        }
        let temporary = paths::extended(path.as_str(), "md.tmp");
        Write { path, temporary, text: note.to_text() }
    }

    /// A new note and what saving it puts where, given whether there is
    /// something in its place: a note that is already there is not overwritten.
    pub fn create(&self, id: &NoteId, contents: &str, exists: bool) -> (r: Result<
        (Note, Write),
        VaultError,
    >)
        ensures
            match r {
                Ok((note, write)) => !exists && note@ == note::read(id@, contents@) && write@
                    == saving(self@, note@),
                Err(error) => exists && error@ == Problem::Exists(id@),
            },
    {
        if exists {
            return Err(VaultError::Exists(id.clone()));
        }
        let note = Note::from_text(id.clone(), contents);
        let write = self.write(&note);
        Ok((note, write))
    }

    /// From where to where a note is moved, given whether there is something
    /// there: an existing note is not clobbered.
    pub fn rename(&self, from: &NoteId, to: &NoteId, exists: bool) -> (r: Result<
        (String, String),
        VaultError,
    >)
        ensures
            match r {
                Ok((source, target)) => !exists && source@ == place(self@, from@) && target@
                    == place(self@, to@),
                Err(error) => exists && error@ == Problem::Exists(to@),
            },
    {
        if exists {
            return Err(VaultError::Exists(to.clone()));
        }
        Ok((self.path_of(from), self.path_of(to)))
    }

    /// The file to remove when a note is deleted.
    pub fn delete(&self, id: &NoteId) -> (r: String)
        ensures
            r@ == place(self@, id@),
    {
        self.path_of(id)
    }

    /// The directory to make for a folder.
    pub fn create_folder(&self, path: &str) -> (r: String)
        ensures
            r@ == place(self@, path@),
    {
        self.at(path)
    }

    /// The directory to remove when a folder is deleted, given whether it holds
    /// anything: only an empty one is.
    pub fn delete_folder(&self, path: &str, holds: bool) -> (r: Result<String, VaultError>)
        ensures
            match r {
                Ok(directory) => !holds && directory@ == place(self@, path@),
                Err(error) => holds && error@ == Problem::FolderNotEmpty(path@),
            },
    {
        if holds {
            return Err(VaultError::FolderNotEmpty(text::string_of(&text::chars_of(path))));
        }
        Ok(self.at(path))
    }

    /// From where to where a folder is moved: never inside itself.
    pub fn move_folder(&self, from: &str, to: &str) -> (r: Result<(String, String), VaultError>)
        ensures
            match r {
                Ok((source, target)) => !tree::within(from@, to@) && source@ == place(self@, from@)
                    && target@ == place(self@, to@),
                Err(error) => tree::within(from@, to@) && error@ == Problem::IntoItself(from@),
            },
    {
        if tree::is_within(from, to) {
            return Err(VaultError::IntoItself(text::string_of(&text::chars_of(from))));
        }
        Ok((self.at(from), self.at(to)))
    }
}

// ---- attachments ----

/// The name that a dropped file is kept under at an attempt: its own, and then
/// its own with a number put before its extension.
pub open spec fn candidate(name: Seq<char>, attempt: nat) -> Seq<char> {
    if attempt == 0 {
        name
    } else {
        let end = match text::find_last(name, '.') {
            Some(i) => i,
            None => name.len() as int,
        };
        name.take(end) + "-"@ + text::decimal(attempt) + name.skip(end)
    }
}

/// What becomes of a dropped file at a name.
#[derive(Debug, Clone, Copy, PartialEq, Eq, Structural)]
pub enum Slot {
    /// The same bytes are there already.
    Here,
    /// Nothing is there: it goes here.
    Free,
    /// Something else is there: the next name is tried.
    Taken,
}

/// What becomes of a dropped file at a name, given what is there.
pub open spec fn slot(held: Option<Seq<u8>>, bytes: Seq<u8>) -> Slot {
    match held {
        None => Slot::Free,
        Some(there) => if there == bytes {
            Slot::Here
        } else {
            Slot::Taken
        },
    }
}

/// A file being copied into the vault: what it is called, and how many names
/// were tried.
#[derive(Debug)]
pub struct Attaching {
    pub name: String,
    pub attempt: u64,
}

impl Attaching {
    /// Begin with a dropped file.
    pub fn new(source: &str) -> (r: Result<Self, VaultError>)
        ensures
            match r {
                Ok(a) => paths::last_name(source@) == Some(a.name@) && a.attempt == 0,
                Err(error) => paths::last_name(source@) is None && error@ == Problem::NotInVault(source@),
            },
    {
        match paths::last_name_of(&text::chars_of(source)) {
            Some(name) => Ok(Attaching { name: text::string_of(&name), attempt: 0 }),
            None => Err(VaultError::NotInVault(text::string_of(&text::chars_of(source)))),
        }
    }

    /// The name to look at.
    pub fn candidate(&self) -> (r: String)
        ensures
            r@ == candidate(self.name@, self.attempt as nat),
    {
        if self.attempt == 0 {
            return self.name.clone();
        }
        let name = text::chars_of(self.name.as_str());
        let end: usize = match text::last_position_of(&name, '.') {
            Some(i) => i,
            None => name.len(),
        };
        let mut out = text::part(&name, 0, end);
        assert(out@ =~= name@.take(end as int));
        text::extend(&mut out, &text::chars_of("-"));
        text::extend(&mut out, &text::decimal_of(self.attempt));
        let rest = text::part(&name, end, name.len());
        assert(rest@ =~= name@.skip(end as int));
        text::extend(&mut out, &rest);
        text::string_of(&out)
    }

    /// What becomes of the file at the name looked at, given what is there: if
    /// it is taken, the next name is looked at.
    ///
    /// A name already in use by identical content is reused rather than
    /// duplicated; one in use by different content gets a numeric suffix, so
    /// dropping two files called `screenshot.png` keeps both.
    pub fn try_at(&mut self, held: Option<&[u8]>, bytes: &[u8]) -> (r: Slot)
        requires
            old(self).attempt < u64::MAX,
        ensures
            r == slot(
                match held {
                    Some(there) => Some(there@),
                    None => None,
                },
                bytes@,
            ),
            final(self).name@ == old(self).name@,
            final(self).attempt == old(self).attempt + if r == Slot::Taken {
                1int
            } else {
                0
            },
    {
        match held {
            None => Slot::Free,
            Some(there) => if same_bytes(there, bytes) {
                Slot::Here
            } else {
                self.attempt = self.attempt + 1;
                Slot::Taken
            },
        }
    }
}

fn same_bytes(a: &[u8], b: &[u8]) -> (r: bool)
    ensures
        r == (a@ == b@),
{
    if a.len() != b.len() {
        return false;
    }
    let mut i: usize = 0;
    while i < a.len()
        invariant
            i <= a@.len() == b@.len(),
            forall|j: int| 0 <= j < i ==> a@[j] == b@[j],
        decreases a@.len() - i,
    {
        if a[i] != b[i] {
            return false;
        }
        i = i + 1;
    }
    assert(a@ =~= b@);
    true
}

// ---- what holds of every vault ----

/// One unreadable file does not hide the others: everything found comes back,
/// as a note or as a problem.
pub proof fn lemma_a_scan_loses_nothing(root: Seq<char>, found: Seq<Found>)
    ensures
        notes_in(root, found).len() + problems_in(root, found).len() == found.len(),
    decreases found.len(),
{
    if found.len() > 0 {
        lemma_a_scan_loses_nothing(root, found.drop_last());
    }
}

/// Whether an id is one that a vault issues: no part of it empty, hidden or
/// holding a separator, and the last one a note's name.
pub open spec fn is_issued(id: Seq<char>) -> bool {
    let parts = text::split_on(id, '/');
    leads_to_a_note(parts) && forall|i: int|
        0 <= i < parts.len() ==> (#[trigger] parts[i]).len() > 0
}

/// A note is found again where it is kept: the id of its path is the id it has.
pub proof fn lemma_a_note_is_found_where_it_is_kept(root: Seq<char>, id: Seq<char>)
    requires
        is_issued(id),
    ensures
        id_at(root, place(root, id)) == Some(id),
{
    let parts = text::split_on(id, '/');
    text::lemma_split_pieces(id, '/');
    text::lemma_split_nonempty(id, '/');
    text::lemma_join_split(id, '/');
    paths::lemma_join_first(parts);
    assert forall|i: int| 0 <= i < parts.len() implies paths::is_plain(#[trigger] parts[i]) by {
        if parts[i].contains('/') {
            let j = choose|j: int| 0 <= j < parts[i].len() && parts[i][j] == '/';
            assert(parts[i][j] != '/');
        }
        assert(parts[i] != seq!['.']);
    }
    lemma_joined_at_once(root, parts);
    paths::lemma_joined_all_components(root, parts);
    assert(id[0] != '/') by {
        assert(paths::is_plain(parts[0]));
        assert(parts[0].contains(parts[0][0]));
    }
    let top = paths::components(root);
    let all = paths::components(place(root, id));
    assert(all == top + parts);
    assert(all.skip(top.len() as int) =~= parts);
    assert(top =~= all.subrange(0, top.len() as int));
}

proof fn lemma_joined_at_once(root: Seq<char>, parts: Seq<Seq<char>>)
    requires
        parts.len() > 0,
        forall|i: int| 0 <= i < parts.len() ==> paths::is_plain(#[trigger] parts[i]),
    ensures
        paths::joined_all(root, parts) == paths::joined(root, text::join(parts, seq!['/'])),
        text::join(parts, seq!['/']).len() > 0,
        text::join(parts, seq!['/']).last() != '/',
    decreases parts.len(),
{
    let rest = parts.drop_last();
    let last = parts.last();
    assert(parts[parts.len() - 1] == last);
    assert(last.last() != '/') by {
        assert(last.contains(last.last()));
    }
    if parts.len() == 1 {
        assert(rest =~= seq![]);
        reveal_with_fuel(paths::joined_all, 2);
    } else {
        assert forall|i: int| 0 <= i < rest.len() implies paths::is_plain(#[trigger] rest[i]) by {
            assert(rest[i] == parts[i]);
        }
        lemma_joined_at_once(root, rest);
        let before = text::join(rest, seq!['/']);
        assert(paths::joined(root, before).last() == before.last());
        assert(paths::joined_all(root, parts) =~= paths::joined(
            root,
            before + seq!['/'] + last,
        ));
    }
}

/// A save's temporary file is a sibling of its target, so that the rename that
/// ends the save stays within one filesystem.
pub proof fn lemma_a_temporary_file_is_a_sibling(path: Seq<char>)
    ensures
        ({
            let there = paths::components(path);
            let here = paths::components(temporary(path));
            here.len() == there.len() && here.drop_last() == there.drop_last()
        }),
{
    reveal_strlit("md.tmp");
    paths::lemma_another_extension_is_a_sibling(path, "md.tmp"@);
}

/// No two attempts try one name, so a free one is reached: there are only so
/// many files to be in the way.
pub proof fn lemma_no_name_is_tried_twice(name: Seq<char>, a: nat, b: nat)
    requires
        candidate(name, a) == candidate(name, b),
    ensures
        a == b,
{
    reveal_strlit("-");
    let end = match text::find_last(name, '.') {
        Some(i) => i,
        None => name.len() as int,
    };
    text::lemma_find_last(name, '.');
    if a > 0 && b > 0 {
        let x = candidate(name, a);
        let y = candidate(name, b);
        let n = text::decimal(a).len() as int;
        assert(text::decimal(b).len() == n);
        assert(text::decimal(a) =~= x.subrange(end + 1, end + 1 + n));
        assert(text::decimal(b) =~= y.subrange(end + 1, end + 1 + n));
        text::lemma_decimal(a, b);
    }
}

/// What the attachments are after a dropped file was looked at under a name.
pub open spec fn with_attachment(
    held: Map<Seq<char>, Seq<u8>>,
    name: Seq<char>,
    bytes: Seq<u8>,
) -> Map<Seq<char>, Seq<u8>> {
    let there = if held.contains_key(name) {
        Some(held[name])
    } else {
        None
    };
    if slot(there, bytes) == Slot::Free {
        held.insert(name, bytes)
    } else {
        held
    }
}

/// Two different files with one name both survive: whatever is in the folder
/// stays as it is, and the dropped file is there under the name it was given.
pub proof fn lemma_an_attachment_never_overwrites(
    held: Map<Seq<char>, Seq<u8>>,
    name: Seq<char>,
    bytes: Seq<u8>,
    other: Seq<char>,
)
    ensures
        ({
            let there = if held.contains_key(name) {
                Some(held[name])
            } else {
                None
            };
            let now = with_attachment(held, name, bytes);
            &&& held.contains_key(other) ==> now.contains_key(other) && now[other] == held[other]
            &&& slot(there, bytes) != Slot::Taken ==> now.contains_key(name) && now[name] == bytes
        }),
{
}

// ---- what is a note, and where things go ----

/// A file is a note of a vault exactly if it is inside the vault, neither it nor
/// a folder on the way begins with a dot, and its name goes on before `.md`; its
/// id is the way to it.
pub proof fn lemma_what_is_a_note(root: Seq<char>, path: Seq<char>, parts: Seq<Seq<char>>)
    requires
        parts.len() > 0,
        paths::components(path) == paths::components(root) + parts,
    ensures
        ({
            let name = parts.last();
            let n = name.len() as int;
            let good = n > 3 && name[n - 3] == '.' && name[n - 2] == 'm' && name[n - 1] == 'd'
                && forall|i: int| 0 <= i < parts.len() ==> (#[trigger] parts[i])[0] != '.';
            id_at(root, path) == if good {
                Some(text::join(parts, seq!['/']))
            } else {
                None
            }
        }),
{
    reveal_strlit(".md");
    let top = paths::components(root);
    let all = paths::components(path);
    assert(all.skip(top.len() as int) =~= parts);
    assert(top =~= all.subrange(0, top.len() as int));
    assert(top.is_prefix_of(all));
    let name = parts.last();
    let n = name.len() as int;
    if n > 3 {
        let tail = name.subrange(n - 3, n);
        assert(tail[0] == name[n - 3] && tail[1] == name[n - 2] && tail[2] == name[n - 1]);
        if name[n - 3] == '.' && name[n - 2] == 'm' && name[n - 1] == 'd' {
            assert(tail =~= ".md"@);
        }
    }
}

/// A file outside a vault is no note of it, nor is the vault itself.
pub proof fn lemma_nothing_outside_is_a_note(root: Seq<char>, path: Seq<char>)
    requires
        !(exists|parts: Seq<Seq<char>>|
            parts.len() > 0 && paths::components(path) == #[trigger] (paths::components(root)
                + parts)),
    ensures
        id_at(root, path) is None,
{
    let top = paths::components(root);
    let all = paths::components(path);
    if id_at(root, path) is Some {
        let parts = all.skip(top.len() as int);
        assert(all =~= top + parts);
    }
}

/// A walk of a vault passes over whatever begins with a dot, goes into every
/// other folder, and reads every other file that is a note.
pub proof fn lemma_what_a_walk_does(
    root: Seq<char>,
    path: Seq<char>,
    name: Seq<char>,
    is_folder: bool,
)
    ensures
        name.len() > 0 && name[0] == '.' ==> visiting(root, path, name, is_folder)
            == VisitView::Skip,
        (name.len() == 0 || name[0] != '.') && is_folder ==> visiting(root, path, name, is_folder)
            == VisitView::Enter,
        (name.len() == 0 || name[0] != '.') && !is_folder ==> visiting(root, path, name, is_folder)
            == (if id_at(root, path) is Some {
            VisitView::Read(id_at(root, path)->0)
        } else {
            VisitView::Skip
        }),
{
}

/// Another name for an attachment that is there already has a dash and a number
/// before its extension, or at its end if it has none.
pub proof fn lemma_another_name_has_a_number(stem: Seq<char>, extension: Seq<char>, n: nat)
    requires
        !extension.contains('.'),
        n > 0,
    ensures
        candidate(stem + seq!['.'] + extension, n) == stem + seq!['-'] + text::decimal(n) + (seq![
            '.',
        ] + extension),
        candidate(extension, n) == extension + seq!['-'] + text::decimal(n),
        candidate(extension, 0) == extension,
{
    reveal_strlit("-");
    assert("-"@ =~= seq!['-']);
    let name = stem + seq!['.'] + extension;
    assert(name =~= stem.push('.') + extension);
    text::lemma_find_last_append(stem, '.', extension);
    assert(name.take(stem.len() as int) =~= stem);
    assert(name.skip(stem.len() as int) =~= seq!['.'] + extension);
    text::lemma_find_last(extension, '.');
    if let Some(i) = text::find_last(extension, '.') {
        assert(extension.contains(extension[i]));
    }
    assert(extension.take(extension.len() as int) =~= extension);
    assert(candidate(extension, n) =~= extension + seq!['-'] + text::decimal(n));
}

/// A name is free if nothing is there, settled if the same bytes are, and taken
/// if others are.
pub proof fn lemma_a_name_is_taken_by_other_bytes(there: Seq<u8>, bytes: Seq<u8>)
    ensures
        slot(None, bytes) == Slot::Free,
        there == bytes ==> slot(Some(there), bytes) == Slot::Here,
        there != bytes ==> slot(Some(there), bytes) == Slot::Taken,
{
}

/// What is inside a vault is at its path behind the vault's; an absolute path
/// stays what it is.
pub proof fn lemma_a_place_is_behind_its_root(root: Seq<char>, path: Seq<char>)
    requires
        root.len() > 0,
        root.last() != '/',
    ensures
        path.len() > 0 && path[0] == '/' ==> place(root, path) == path,
        path.len() > 0 && path[0] != '/' ==> place(root, path) == root + seq!['/'] + path,
{
}

/// A note is staged beside its file, under its name with `.md.tmp` for its
/// extension, and what is written is all of it.
pub proof fn lemma_a_note_is_staged_beside_its_file(root: Seq<char>, note: note::NoteView)
    ensures
        ({
            let w = saving(root, note);
            &&& w.path == place(root, note.id)
            &&& w.text == note::contents(note)
            &&& match paths::last_name(w.path) {
                Some(name) => paths::components(w.temporary) == paths::components(
                    w.path,
                ).drop_last().push(
                    name.take(paths::stem_end(name)) + seq!['.', 'm', 'd', '.', 't', 'm', 'p'],
                ),
                None => w.temporary == w.path,
            }
        }),
{
    reveal_strlit("md.tmp");
    let w = saving(root, note);
    paths::lemma_another_extension_is_a_sibling(w.path, "md.tmp"@);
    if let Some(name) = paths::last_name(w.path) {
        assert(name.take(paths::stem_end(name)) + seq!['.'] + "md.tmp"@ =~= name.take(
            paths::stem_end(name),
        ) + seq!['.', 'm', 'd', '.', 't', 'm', 'p']);
    }
}

/// Each thing a scan finds is a note or a problem, in the order they are found;
/// bytes that are no text are a problem, and text is a note, read as it stands.
pub proof fn lemma_a_scan_takes_each_in_turn(root: Seq<char>, found: Seq<Found>, one: Found)
    ensures
        match one {
            Found::File { id, bytes: Ok(bytes) } => if vstd::utf8::valid_utf8(bytes@) {
                &&& notes_in(root, found.push(one)) == notes_in(root, found).push(
                    note::read(id@, vstd::utf8::decode_utf8(bytes@)),
                )
                &&& problems_in(root, found.push(one)) == problems_in(root, found)
            } else {
                &&& notes_in(root, found.push(one)) == notes_in(root, found)
                &&& problems_in(root, found.push(one)) == problems_in(root, found).push(
                    Problem::NotText(id@),
                )
            },
            Found::File { id, bytes: Err(source) } => {
                &&& notes_in(root, found.push(one)) == notes_in(root, found)
                &&& problems_in(root, found.push(one)) == problems_in(root, found).push(
                    Problem::Io { path: place(root, id@), source: source@ },
                )
            },
            Found::Unreadable { path, source } => {
                &&& notes_in(root, found.push(one)) == notes_in(root, found)
                &&& problems_in(root, found.push(one)) == problems_in(root, found).push(
                    Problem::Io { path: path@, source: source@ },
                )
            },
        },
        notes_in(root, seq![]).len() == 0,
        problems_in(root, seq![]).len() == 0,
{
    assert(found.push(one).drop_last() =~= found);
}

/// Every problem is told with what it is about before it.
pub proof fn lemma_a_problem_names_what_it_is_about(what: Seq<char>, source: Seq<char>)
    ensures
        told(Problem::NotInVault(what)) == what + " is not inside the vault"@,
        told(Problem::Exists(what)) == what + " already exists"@,
        told(Problem::NotText(what)) == what + " is not UTF-8 text"@,
        told(Problem::FolderNotEmpty(what)) == what + " is not empty"@,
        told(Problem::IntoItself(what)) == what + " cannot be moved inside itself"@,
        told(Problem::Io { path: what, source }) == what + ": "@ + source,
{
}

} // verus!
