//! Whole scenarios against a vault that is held in memory.

use brain::config::{Config, Reading, SCHEMA_VERSION};
use brain::index::Resolution;
use brain::markdown::{Link, Scan};
use brain::note::{Note, NoteId};
use brain::notebook::{
    join, unique_id, Alert, External, Failed, Mode, Moved, Notebook, Renamed, Saved,
};
use brain::ordered::TextMap;
use brain::search;
use brain::semantic::{default_store_path, Digest, Store};
use brain::tree::{Row, Sort};
use brain::vault::{Found, VaultError, Visit};
use std::collections::{BTreeMap, BTreeSet};

/// A scan of a body, good enough for the notes below: `[[links]]`,
/// `![[embeds]]`, `#tags`, `**bold**` and headings.
fn scanned(body: &str) -> Scan {
    let mut links = Vec::new();
    let mut embeds = Vec::new();
    let mut tags = Vec::new();
    let mut lines = Vec::new();
    for line in body.split('\n') {
        let unmarked = line.trim_start_matches('#');
        let mut rest = if unmarked.len() < line.len() && unmarked.starts_with(' ') {
            unmarked.trim_start()
        } else {
            line
        };
        let mut out = String::new();
        let mut targets: Vec<String> = Vec::new();
        while let Some(c) = rest.chars().next() {
            if rest.starts_with("![[") && rest.contains("]]") {
                let end = rest.find("]]").expect("an end");
                embeds.push(rest[3..end].split('|').next().unwrap_or("").to_string());
                rest = &rest[end + 2..];
                continue;
            }
            if rest.starts_with("[[") && rest.contains("]]") {
                let end = rest.find("]]").expect("an end");
                let target = rest[2..end].split('|').next().unwrap_or("").to_string();
                out.push_str(rest[2..end].split('|').last().unwrap_or(""));
                targets.push(target);
                rest = &rest[end + 2..];
                continue;
            }
            if rest.starts_with("**") {
                rest = &rest[2..];
                continue;
            }
            if c == '#' && (out.is_empty() || out.ends_with(' ')) {
                let tag: String = rest[1..]
                    .chars()
                    .take_while(|c| c.is_alphanumeric() || "_-/".contains(*c))
                    .collect();
                if !tag.is_empty() {
                    tags.push(tag);
                }
            }
            out.push(c);
            rest = &rest[c.len_utf8()..];
        }
        for target in targets {
            links.push(Link {
                target,
                start: 0,
                end: 0,
                line: out.clone(),
            });
        }
        lines.push(out);
    }
    Scan {
        links,
        embeds,
        tags,
        text: lines.join("\n"),
    }
}

/// Files and folders by their paths in the vault, and the notebook over them.
struct Shell {
    files: BTreeMap<String, String>,
    folders: BTreeSet<String>,
    read_only: bool,
    notebook: Notebook,
}

const ROOT: &str = "/vault";

impl Shell {
    fn new(notes: &[(&str, &str)]) -> Self {
        let mut shell = Shell {
            files: BTreeMap::new(),
            folders: BTreeSet::new(),
            read_only: false,
            notebook: Notebook::default(),
        };
        for (path, text) in notes {
            shell.files.insert(path.to_string(), text.to_string());
        }
        shell.notebook.set_vault(ROOT);
        let notes = shell.scan();
        shell.notebook.rescan(notes);
        shell
    }

    fn bytes(&self, id: &NoteId) -> Result<Vec<u8>, String> {
        match self.files.get(id.as_str()) {
            Some(text) => Ok(text.clone().into_bytes()),
            None => Err("no such file".to_string()),
        }
    }

    /// The open note's file.
    fn open_bytes(&self) -> Result<Vec<u8>, String> {
        match self.notebook.open_note_id() {
            Some(id) => self.bytes(&id),
            None => Err("nothing is open".to_string()),
        }
    }

    fn scan(&self) -> Vec<(Note, Scan)> {
        let Some(vault) = self.notebook.vault() else {
            return Vec::new();
        };
        let mut found = Vec::new();
        for path in self.files.keys() {
            let name = path.rsplit('/').next().unwrap_or(path);
            if let Visit::Read(id) = vault.visit(&format!("{ROOT}/{path}"), name, false) {
                let bytes = self.bytes(&id);
                found.push(Found::File { id, bytes });
            }
        }
        let (notes, _) = vault.scan(found);
        notes
            .into_iter()
            .map(|note| {
                let scan = scanned(&note.body);
                (note, scan)
            })
            .collect()
    }

    fn put(&mut self, note: &Note) -> Result<(), VaultError> {
        let vault = self.notebook.vault().expect("a vault");
        let write = vault.write(note);
        if self.read_only {
            return Err(VaultError::Io {
                path: write.temporary,
                source: "permission denied".to_string(),
            });
        }
        self.files.insert(note.id.as_str().to_string(), write.text);
        Ok(())
    }

    fn load_note(&mut self, path: &str) -> Result<(), VaultError> {
        let bytes = self.bytes(&id(path));
        self.notebook.load_note(&id(path), bytes)
    }

    fn absorb(&mut self) -> External {
        let (notes, bytes) = (self.scan(), self.open_bytes());
        self.notebook.absorb_external_changes(notes, bytes)
    }

    fn write_unsaved(&mut self) -> (Result<(), VaultError>, Scan) {
        match self.notebook.unsaved() {
            None => (Ok(()), scanned("")),
            Some(note) => {
                let copy = Note::from_text(note.id.clone(), &note.to_text());
                let scan = scanned(&copy.body);
                (self.put(&copy), scan)
            }
        }
    }

    fn save_now(&mut self) -> Saved {
        let (wrote, scan) = self.write_unsaved();
        self.notebook.save_now(wrote, scan)
    }

    fn resolve_alert(&mut self) -> bool {
        let bytes = self.open_bytes();
        let (wrote, scan) = match (self.notebook.alert(), self.notebook.open_note_text()) {
            (Some(Alert::Vanished(_)), Some((id, text))) => {
                let note = Note::from_text(id, &text);
                let scan = scanned(&note.body);
                (self.put(&note), scan)
            }
            _ => (Ok(()), scanned("")),
        };
        self.notebook.resolve_alert(bytes, wrote, scan)
    }

    fn create_note_in(&mut self, folder: &str, title: &str) -> Result<NoteId, Failed> {
        let mut taken = TextMap::new();
        for path in self.files.keys() {
            taken.insert(id(path), ());
        }
        let id = unique_id(folder, title, &taken);
        let made = match self.notebook.vault() {
            None => Ok(()),
            Some(vault) => match vault.create(&id, "", self.files.contains_key(id.as_str())) {
                Err(error) => Err(error),
                Ok((note, _)) => self.put(&note),
            },
        };
        let bytes = self.bytes(&id);
        self.notebook.create_note_in(&id, made, scanned(""), bytes)
    }

    fn move_file(&mut self, from: &NoteId, to: &NoteId) -> Result<(), VaultError> {
        let vault = self.notebook.vault().expect("a vault");
        vault.rename(from, to, self.files.contains_key(to.as_str()))?;
        match self.files.remove(from.as_str()) {
            Some(text) => {
                self.files.insert(to.as_str().to_string(), text);
                Ok(())
            }
            None => Err(VaultError::Io {
                path: to.as_str().to_string(),
                source: "no such file".to_string(),
            }),
        }
    }

    fn rename_note(&mut self, title: &str) -> Renamed {
        let Some(renaming) = self.notebook.renaming(title) else {
            return self.notebook.rename_note(title, Ok(()), Vec::new());
        };
        let moved = self.move_file(&renaming.from, &renaming.to);
        let mut rewritten = Vec::new();
        if moved.is_ok() {
            for inbound in &renaming.inbound {
                let Some(text) = self.files.get(inbound.as_str()).cloned() else {
                    continue;
                };
                let mut note = Note::from_text(inbound.clone(), &text);
                let old = format!("[[{}]]", renaming.from.title());
                if !note.body.contains(&old) {
                    continue;
                }
                note.body = note
                    .body
                    .replace(&old, &format!("[[{}]]", renaming.to.title()));
                if self.put(&note).is_ok() {
                    let scan = scanned(&note.body);
                    rewritten.push((note, scan));
                }
            }
        }
        self.notebook.rename_note(title, moved, rewritten)
    }

    fn move_note(&mut self, id: &NoteId, folder: &str) -> Moved {
        let outcome = match self.notebook.destination(id, folder) {
            Some(to) => self.move_file(id, &to),
            None => Ok(()),
        };
        self.notebook.move_note(id, folder, outcome)
    }

    fn delete_open_note(&mut self) -> Result<NoteId, Failed> {
        if let Some(id) = self.notebook.open_note_id() {
            self.files.remove(id.as_str());
        }
        self.notebook.delete_open_note(Ok(()))
    }

    fn create_folder(&mut self, parent: &str, name: &str) -> Result<String, Failed> {
        self.folders.insert(join(parent, name));
        self.notebook.create_folder(parent, name, Ok(()))
    }

    fn delete_folder(&mut self, path: &str) -> Result<(), Failed> {
        let prefix = format!("{path}/");
        let holds = self.files.keys().any(|file| file.starts_with(&prefix));
        let removed = match self.notebook.vault() {
            None => Ok(()),
            Some(vault) => vault.delete_folder(path, holds).map(|_| ()),
        };
        if removed.is_ok() {
            self.folders.remove(path);
        }
        self.notebook.delete_folder(path, removed)
    }

    fn relocate_folder(&mut self, from: &str, to: &str) -> Result<(), Failed> {
        let outcome = match self.notebook.vault() {
            None => Ok(()),
            Some(vault) => vault.move_folder(from, to).map(|_| ()),
        };
        if outcome.is_ok() {
            let prefix = format!("{from}/");
            let all: Vec<String> = self.files.keys().cloned().collect();
            for path in all {
                if let Some(rest) = path.strip_prefix(&prefix) {
                    let text = self.files.remove(&path).expect("a file");
                    self.files.insert(format!("{to}/{rest}"), text);
                }
            }
        }
        let notes = self.scan();
        let bytes = match self.notebook.reopening(from, to) {
            Some(id) => self.bytes(&id),
            None => Err("nothing to reopen".to_string()),
        };
        self.notebook
            .relocate_folder(from, to, outcome, notes, bytes)
    }

    fn listed(&self) -> Vec<String> {
        self.notebook
            .listed_notes()
            .into_iter()
            .map(|(id, _)| id.as_str().to_string())
            .collect()
    }

    fn read(&self, path: &str) -> &str {
        &self.files[path]
    }

    fn open_text(&self) -> Option<String> {
        self.notebook.open_note_text().map(|(_, text)| text)
    }
}

fn id(path: &str) -> NoteId {
    NoteId::from_relative(path)
}

#[test]
fn a_vault_opens_with_every_note_listed() {
    let shell = Shell::new(&[
        ("Rust ownership.md", "Moves are destructive."),
        ("Meetings/standup.md", "Hold the release."),
    ]);

    assert_eq!(
        shell.listed(),
        vec!["Meetings/standup.md", "Rust ownership.md"]
    );
}

#[test]
fn a_new_note_is_created_in_a_folder_and_opened() {
    let mut shell = Shell::new(&[]);
    shell.create_folder("", "Meetings").expect("create folder");

    let id = shell
        .create_note_in("Meetings", "Standup")
        .expect("create note");

    assert_eq!(id.as_str(), "Meetings/Standup.md");
    assert_eq!(shell.notebook.open_note_id(), Some(id));
    assert_eq!(shell.read("Meetings/Standup.md"), "");
}

#[test]
fn a_second_note_of_the_same_name_is_suffixed_rather_than_clobbering() {
    let mut shell = Shell::new(&[("Standup.md", "the first one")]);

    let id = shell.create_note_in("", "Standup").expect("create note");

    assert_eq!(id.as_str(), "Standup 2.md");
}

#[test]
fn editing_and_saving_writes_the_file_and_updates_the_index() {
    let mut shell = Shell::new(&[("Note.md", "before")]);
    shell.load_note("Note.md").expect("open");

    shell.notebook.flush("after, with #atag");
    assert!(
        shell.notebook.is_dirty(),
        "a changed body did not mark dirty"
    );

    assert!(matches!(shell.save_now(), Saved::Written));
    assert_eq!(shell.read("Note.md"), "after, with #atag");
    assert!(!shell.notebook.is_dirty());

    // The index saw it without a rescan: the tag is already searchable.
    assert_eq!(shell.notebook.tags(), vec![("atag".to_string(), 1)]);
}

#[test]
fn saving_an_unchanged_note_writes_nothing() {
    let mut shell = Shell::new(&[("Note.md", "text")]);
    shell.load_note("Note.md").expect("open");

    shell.notebook.flush("text");
    assert!(matches!(shell.save_now(), Saved::Clean));
}

#[test]
fn renaming_rewrites_every_inbound_link_and_says_how_many() {
    let mut shell = Shell::new(&[
        ("Ownership.md", "the note itself"),
        ("A.md", "see [[Ownership]] for this"),
        ("B.md", "also [[Ownership]]"),
        ("C.md", "unrelated"),
    ]);
    shell.load_note("Ownership.md").expect("open");

    let outcome = shell.rename_note("Borrowing");

    let Renamed::Done { to, links } = outcome else {
        panic!("expected a rename, got {outcome:?}");
    };
    assert_eq!(to.as_str(), "Borrowing.md");
    assert_eq!(links, 2);
    assert!(shell.read("A.md").contains("[[Borrowing]]"));
    assert!(shell.read("B.md").contains("[[Borrowing]]"));
    assert_eq!(shell.read("C.md"), "unrelated");
    // The editor followed the file.
    assert_eq!(
        shell
            .notebook
            .open_note_id()
            .map(|id| id.as_str().to_string()),
        Some("Borrowing.md".to_string())
    );
}

#[test]
fn renaming_to_the_same_title_does_nothing() {
    let mut shell = Shell::new(&[("Note.md", "text")]);
    shell.load_note("Note.md").expect("open");

    assert!(matches!(shell.rename_note("Note"), Renamed::Unchanged));
}

#[test]
fn moving_a_note_leaves_its_inbound_links_alone() {
    let mut shell = Shell::new(&[("Ownership.md", "the note"), ("A.md", "see [[Ownership]]")]);
    shell.create_folder("", "Rust").expect("create folder");

    let outcome = shell.move_note(&id("Ownership.md"), "Rust");

    let Moved::Done { to, destination } = outcome else {
        panic!("expected a move, got {outcome:?}");
    };
    assert_eq!(to.as_str(), "Rust/Ownership.md");
    assert_eq!(destination, "Rust");
    // Links resolve by title and the title did not change, so nothing was
    // rewritten: the whole reason a move is cheap.
    assert_eq!(shell.read("A.md"), "see [[Ownership]]");
}

#[test]
fn moving_a_note_to_where_it_already_is_does_nothing() {
    let mut shell = Shell::new(&[("Rust/Ownership.md", "the note")]);

    assert!(matches!(
        shell.move_note(&id("Rust/Ownership.md"), "Rust"),
        Moved::Unchanged
    ));
}

#[test]
fn deleting_the_open_note_clears_it_and_forgets_it() {
    let mut shell = Shell::new(&[("Note.md", "text")]);
    shell.load_note("Note.md").expect("open");

    let deleted = shell.delete_open_note().expect("delete");

    assert_eq!(deleted.as_str(), "Note.md");
    assert_eq!(shell.notebook.open_note_id(), None);
    assert!(!shell.files.contains_key("Note.md"));
    assert!(shell.notebook.listed_notes().is_empty());
    // The pending write was dropped, or a later save would recreate the file.
    assert!(!shell.notebook.is_dirty());
}

#[test]
fn a_folder_is_deleted_only_when_empty() {
    let mut shell = Shell::new(&[("Meetings/standup.md", "text")]);

    let outcome = shell.delete_folder("Meetings");
    assert!(
        matches!(outcome, Err(Failed::Vault(VaultError::FolderNotEmpty(_)))),
        "a folder holding a note was deleted: {outcome:?}"
    );

    shell.files.remove("Meetings/standup.md");
    assert!(shell.delete_folder("Meetings").is_ok());
}

#[test]
fn renaming_a_folder_takes_its_notes_with_it() {
    let mut shell = Shell::new(&[("Meetings/standup.md", "text")]);
    shell.load_note("Meetings/standup.md").expect("open");

    let to = Notebook::rename_folder("Meetings", "Standups");
    shell.relocate_folder("Meetings", &to).expect("rename");

    assert!(shell.files.contains_key("Standups/standup.md"));
    assert!(!shell.files.contains_key("Meetings/standup.md"));
    // The open note followed the folder rather than being left pointing at a
    // path that no longer exists.
    assert_eq!(
        shell
            .notebook
            .open_note_id()
            .map(|id| id.as_str().to_string()),
        Some("Standups/standup.md".to_string())
    );
}

#[test]
fn a_folder_cannot_be_moved_inside_itself() {
    let mut shell = Shell::new(&[("A/B/note.md", "text")]);

    let outcome = shell.relocate_folder("A", "A/B/A");
    assert!(
        matches!(outcome, Err(Failed::Vault(VaultError::IntoItself(_)))),
        "a folder was moved into itself: {outcome:?}"
    );
}

#[test]
fn an_operation_without_a_vault_says_so_rather_than_naming_a_path() {
    let mut notebook = Notebook::default();
    let nothing = || Err("nothing was read".to_string());

    assert!(matches!(
        notebook.create_note_in(&id("Note.md"), Ok(()), scanned(""), nothing()),
        Err(Failed::NoVault)
    ));
    assert_eq!(Failed::NoVault.message(), "no vault is open");
    assert!(matches!(
        notebook.create_folder("", "Folder", Ok(())),
        Err(Failed::NoVault)
    ));
    assert!(matches!(
        notebook.delete_folder("Folder", Ok(())),
        Err(Failed::NoVault)
    ));
    assert!(matches!(
        notebook.relocate_folder("A", "B", Ok(()), Vec::new(), nothing()),
        Err(Failed::NoVault)
    ));
    assert!(matches!(
        notebook.delete_open_note(Ok(())),
        Err(Failed::NoVault)
    ));
    assert!(matches!(
        notebook.move_note(&id("Note.md"), "Folder", Ok(())),
        Moved::Unchanged
    ));
    assert!(!notebook.take_disk_version(nothing()));
    assert!(!notebook.restore_open_note(Ok(()), scanned("")));
    assert!(!notebook.has_vault());
}

// ---- what the watcher brings in ----

#[test]
fn an_external_change_to_an_unedited_open_note_is_taken_on_silently() {
    let mut shell = Shell::new(&[("Note.md", "before")]);
    shell.load_note("Note.md").expect("open");

    shell.files.insert("Note.md".into(), "after".into());

    assert!(matches!(shell.absorb(), External::Reloaded));
    assert_eq!(shell.open_text(), Some("after".to_string()));
}

#[test]
fn an_external_change_beside_unsaved_edits_diverges_rather_than_choosing() {
    let mut shell = Shell::new(&[("Note.md", "before")]);
    shell.load_note("Note.md").expect("open");
    shell.notebook.flush("what I typed");

    shell.files.insert("Note.md".into(), "what they typed".into());

    let outcome = shell.absorb();
    let External::Diverged {
        id: diverged,
        on_disk,
    } = outcome
    else {
        panic!("expected a divergence, got {outcome:?}");
    };
    assert_eq!(diverged.as_str(), "Note.md");
    assert_eq!(on_disk, "what they typed");
    // Neither side was thrown away: the editor still holds what was typed.
    assert_eq!(shell.open_text(), Some("what I typed".to_string()));
    assert_eq!(shell.read("Note.md"), "what they typed");
}

#[test]
fn taking_the_disk_version_drops_the_local_edits() {
    let mut shell = Shell::new(&[("Note.md", "before")]);
    shell.load_note("Note.md").expect("open");
    shell.notebook.flush("what I typed");
    shell.files.insert("Note.md".into(), "what they typed".into());
    shell.absorb();

    let bytes = shell.open_bytes();
    assert!(shell.notebook.take_disk_version(bytes));

    assert_eq!(shell.open_text(), Some("what they typed".to_string()));
    assert!(
        !shell.notebook.is_dirty(),
        "the resolved note was still dirty"
    );
}

#[test]
fn brains_own_save_is_not_reported_as_an_external_change() {
    let mut shell = Shell::new(&[("Note.md", "before")]);
    shell.load_note("Note.md").expect("open");
    shell.notebook.flush("after");
    shell.save_now();

    // The watcher fires for one's own write as loudly as for anyone else's.
    assert!(matches!(shell.absorb(), External::Quiet));
}

#[test]
fn a_note_deleted_outside_brain_stays_open_and_says_so() {
    let mut shell = Shell::new(&[("Note.md", "text")]);
    shell.load_note("Note.md").expect("open");

    shell.files.remove("Note.md");

    let outcome = shell.absorb();
    let External::Vanished { id: gone } = outcome else {
        panic!("expected a vanishing, got {outcome:?}");
    };
    assert_eq!(gone.as_str(), "Note.md");
    // Still open here: losing what is on screen because a file moved is worse
    // than showing a note that no longer has a file.
    assert!(shell.notebook.open_note_text().is_some());
}

// ---- what the banner says, when several things are wrong ----

#[test]
fn a_divergence_puts_a_reload_offer_on_the_banner() {
    let mut shell = Shell::new(&[("Note.md", "before")]);
    shell.load_note("Note.md").expect("open");
    shell.notebook.flush("what I typed");
    shell.files.insert("Note.md".into(), "what they typed".into());

    shell.absorb();

    assert_eq!(shell.notebook.alert(), Some(Alert::Diverged(id("Note.md"))));
}

#[test]
fn resolving_a_divergence_takes_the_disk_version_and_clears_the_banner() {
    let mut shell = Shell::new(&[("Note.md", "before")]);
    shell.load_note("Note.md").expect("open");
    shell.notebook.flush("what I typed");
    shell.files.insert("Note.md".into(), "what they typed".into());
    shell.absorb();

    assert!(shell.resolve_alert());

    assert_eq!(shell.open_text(), Some("what they typed".to_string()));
    assert_eq!(shell.notebook.alert(), None);
}

#[test]
fn saving_through_a_divergence_keeps_your_version_and_clears_the_banner() {
    let mut shell = Shell::new(&[("Note.md", "before")]);
    shell.load_note("Note.md").expect("open");
    shell.notebook.flush("what I typed");
    shell.files.insert("Note.md".into(), "what they typed".into());
    shell.absorb();

    // Doing nothing is how you keep your own edits, and the next save is what
    // "nothing" turns into.
    assert!(matches!(shell.save_now(), Saved::Written));

    assert_eq!(shell.read("Note.md"), "what I typed");
    assert_eq!(shell.notebook.alert(), None);
}

#[test]
fn restoring_a_vanished_note_writes_it_back() {
    let mut shell = Shell::new(&[("Note.md", "the only copy")]);
    shell.load_note("Note.md").expect("open");
    shell.files.remove("Note.md");
    shell.absorb();

    assert_eq!(shell.notebook.alert(), Some(Alert::Vanished(id("Note.md"))));
    assert!(shell.resolve_alert());

    assert_eq!(shell.read("Note.md"), "the only copy");
    assert_eq!(shell.notebook.alert(), None);
    // And it is back in the index, not just back on disk.
    assert_eq!(shell.notebook.listed_notes().len(), 1);
}

#[test]
fn a_vanished_note_that_comes_back_clears_itself() {
    let mut shell = Shell::new(&[("Note.md", "text")]);
    shell.load_note("Note.md").expect("open");
    shell.files.remove("Note.md");
    shell.absorb();
    assert!(shell.notebook.alert().is_some());

    // Restored from the trash, or a checkout that undid the delete.
    shell.files.insert("Note.md".into(), "text".into());
    shell.absorb();

    assert_eq!(shell.notebook.alert(), None);
}

#[test]
fn opening_another_note_clears_the_previous_one_s_banner() {
    let mut shell = Shell::new(&[("A.md", "before"), ("B.md", "other")]);
    shell.load_note("A.md").expect("open");
    shell.notebook.flush("what I typed");
    shell.files.insert("A.md".into(), "what they typed".into());
    shell.absorb();
    assert!(shell.notebook.alert().is_some());

    shell.load_note("B.md").expect("open");

    assert_eq!(shell.notebook.alert(), None);
}

#[test]
fn a_save_failure_outranks_a_divergence() {
    let mut shell = Shell::new(&[("Note.md", "before")]);
    shell.load_note("Note.md").expect("open");
    shell.notebook.flush("what I typed");
    shell.files.insert("Note.md".into(), "what they typed".into());
    shell.absorb();
    assert!(matches!(shell.notebook.alert(), Some(Alert::Diverged(_))));

    // Writing now fails: the vault cannot take the temporary file.
    shell.read_only = true;
    let outcome = shell.save_now();

    assert!(matches!(outcome, Saved::Failed(_)), "the write succeeded");
    // Work is being lost *now*; in a divergence both versions are safe. A save
    // failure hidden behind a divergence would be a lost note.
    assert!(
        matches!(shell.notebook.alert(), Some(Alert::NotSaving(_))),
        "the divergence was still on the banner: {:?}",
        shell.notebook.alert()
    );
    assert_eq!(
        shell.notebook.alert(),
        Some(Alert::NotSaving(
            "/vault/Note.md.tmp: permission denied".to_string()
        ))
    );
    assert!(!shell.resolve_alert(), "there is nothing to do but wait");

    // The divergence is still there when saving works again.
    shell.read_only = false;
    assert!(shell.notebook.is_dirty());
    assert!(matches!(shell.save_now(), Saved::Written));
    assert_eq!(shell.notebook.alert(), None);
}

// ---- what the sidebar asks for ----

#[test]
fn a_tag_filter_narrows_the_list_and_an_unknown_tag_clears_itself() {
    let mut shell = Shell::new(&[
        ("A.md", "about #rust"),
        ("B.md", "about #python"),
        ("C.md", "about nothing"),
    ]);

    assert!(shell.notebook.filter_by_tag(Some("rust")));
    assert_eq!(shell.listed(), vec!["A.md"]);
    assert_eq!(shell.notebook.active_tag(), Some("rust".to_string()));

    // A tag nothing carries clears the filter rather than showing an empty
    // list with no way out of it.
    assert!(!shell.notebook.filter_by_tag(Some("haskell")));
    assert_eq!(shell.notebook.listed_notes().len(), 3);

    assert!(shell.notebook.filter_by_tag(Some("#Python")));
    assert_eq!(shell.listed(), vec!["B.md"]);
    assert!(shell.notebook.filter_by_tag(None));
    assert_eq!(shell.notebook.active_tag(), None);
}

#[test]
fn the_sidebar_search_puts_title_matches_before_text_matches() {
    let mut shell = Shell::new(&[
        ("Ownership.md", "nothing relevant here"),
        ("Other.md", "a note about ownership"),
    ]);

    assert!(shell.notebook.set_query("ownership"));
    let results: Vec<String> = shell
        .notebook
        .search_results()
        .into_iter()
        .map(|(id, _)| id.as_str().to_string())
        .collect();
    assert_eq!(results, vec!["Ownership.md", "Other.md"]);
    assert!(shell.notebook.is_searching());
    assert_eq!(shell.notebook.query(), "ownership");
    assert_eq!(shell.listed(), results);

    // Setting the same query again is not a change, so the shell can skip the
    // rebuild.
    assert!(!shell.notebook.set_query("ownership"));
}

#[test]
fn a_new_note_lands_in_the_folder_last_worked_in() {
    let mut shell = Shell::new(&[]);
    shell.create_folder("", "Meetings").expect("create folder");

    // Creating the folder is enough to aim at it; so is opening a note in one.
    assert_eq!(shell.notebook.current_folder(), "Meetings");

    let folder = shell.notebook.current_folder();
    let id = shell.create_note_in(&folder, "Standup").expect("create");
    assert_eq!(id.as_str(), "Meetings/Standup.md");
}

#[test]
fn half_a_shared_vector_store_configuration_is_none_at_all() {
    let mut shell = Shell::new(&[]);

    assert_eq!(shell.notebook.shared_vectors(), None);

    // A URL with no token cannot authenticate and a token with no URL has
    // nowhere to go. Either alone is a mistake nobody would see a message
    // about, so neither is half-honoured.
    shell.notebook.config_mut().vectors_url = Some("http://nas:8082".into());
    assert_eq!(shell.notebook.shared_vectors(), None);

    shell.notebook.config_mut().vectors_token = Some("  ".into());
    assert_eq!(shell.notebook.shared_vectors(), None);

    shell.notebook.config_mut().vectors_token = Some("a-token".into());
    assert_eq!(
        shell.notebook.shared_vectors(),
        Some(("http://nas:8082".to_string(), "a-token".to_string()))
    );
}

#[test]
fn a_link_to_a_missing_note_resolves_to_missing() {
    let shell = Shell::new(&[("A.md", "see [[Nowhere]]")]);

    assert!(matches!(
        shell.notebook.resolve_link("Nowhere"),
        Resolution::Missing
    ));
}

#[test]
fn a_note_never_offers_itself_as_a_link_candidate() {
    let mut shell = Shell::new(&[("Ownership.md", "text"), ("Ownership notes.md", "text")]);
    shell.load_note("Ownership.md").expect("open");

    let candidates = shell.notebook.link_candidates("Owner");

    assert!(
        !candidates.contains(&"Ownership".to_string()),
        "the open note offered itself: {candidates:?}"
    );
    assert!(candidates.contains(&"Ownership notes".to_string()));
}

// ---- the rest ----

#[test]
fn taken_names_are_counted_past() {
    let mut taken = TextMap::new();
    for path in ["Work/A.md", "Work/A 2.md", "Work/A 3.md", "A 2.md"] {
        taken.insert(id(path), ());
    }
    assert_eq!(unique_id("Work", "A", &taken).as_str(), "Work/A 4.md");
    assert_eq!(unique_id("", "A", &taken).as_str(), "A.md");
    taken.insert(id("A.md"), ());
    assert_eq!(unique_id("", "A", &taken).as_str(), "A 3.md");
}

#[test]
fn a_path_is_joined_without_a_leading_slash() {
    assert_eq!(join("", "A"), "A");
    assert_eq!(join("Work", "A"), "Work/A");
    assert_eq!(Notebook::rename_folder("Work/Deep", "New"), "Work/New");
    assert_eq!(Notebook::rename_folder("Deep", "New"), "New");
}

#[test]
fn a_failed_rename_changes_nothing() {
    let mut shell = Shell::new(&[("A.md", "see [[B]]"), ("B.md", "text")]);
    shell.load_note("A.md").expect("open");
    let outcome = shell.rename_note("B");
    assert!(matches!(
        outcome,
        Renamed::Failed(VaultError::Exists(ref taken)) if taken.as_str() == "B.md"
    ));
    assert_eq!(shell.notebook.open_note_id(), Some(id("A.md")));
    assert_eq!(shell.read("B.md"), "text");
}

#[test]
fn a_failed_move_changes_nothing() {
    let mut shell = Shell::new(&[("A.md", "one"), ("Work/A.md", "two")]);
    assert!(matches!(
        shell.move_note(&id("A.md"), "Work"),
        Moved::Failed(VaultError::Exists(_))
    ));
    assert_eq!(shell.listed(), vec!["A.md", "Work/A.md"]);
}

#[test]
fn a_note_that_cannot_be_read_is_not_opened() {
    let mut shell = Shell::new(&[("A.md", "one")]);
    shell.load_note("A.md").expect("open");
    assert!(matches!(
        shell.load_note("Gone.md"),
        Err(VaultError::Io { .. })
    ));
    assert_eq!(shell.notebook.open_note_id(), None);
}

#[test]
fn a_folder_that_is_deleted_is_no_longer_aimed_at() {
    let mut shell = Shell::new(&[]);
    shell.create_folder("", "Work").expect("create folder");
    shell.create_folder("Work", "Deep").expect("create folder");
    assert_eq!(shell.notebook.current_folder(), "Work/Deep");
    shell.delete_folder("Work").expect("delete folder");
    assert_eq!(shell.notebook.current_folder(), "");
}

#[test]
fn whatever_was_in_a_moved_folder_moves_with_it() {
    let mut shell = Shell::new(&[("Work/Deep/A.md", "one"), ("Working/B.md", "two")]);
    shell.notebook.toggle_folder("Work");
    shell.notebook.toggle_folder("Work/Deep");
    shell.notebook.toggle_folder("Working");
    shell.notebook.toggle_folder("Work/Deep");
    shell.notebook.toggle_folder("Work/Deep");

    shell.relocate_folder("Work", "Archive/Work").expect("move");

    assert_eq!(shell.notebook.current_folder(), "Archive/Work/Deep");
    shell.notebook.save_config();
    assert_eq!(
        shell.notebook.config().expanded_folders,
        ["Archive", "Archive/Work", "Archive/Work/Deep", "Working"]
    );
}

#[test]
fn the_view_survives_a_restart() {
    let mut shell = Shell::new(&[("Work/A.md", "one")]);
    shell.load_note("Work/A.md").expect("open");
    shell.notebook.set_sort(Sort::Created);
    shell.notebook.save_config();
    let config = shell.notebook.config().clone();
    assert_eq!(config.sort, "created");
    assert_eq!(config.expanded_folders, ["Work"]);
    assert_eq!(config.last_note, Some("Work/A.md".to_string()));
    assert_eq!(config.vault, Some(ROOT.to_string()));

    let mut next = Notebook::default();
    next.load_config("/config.json".to_string(), config, true);
    assert_eq!(next.sort(), Sort::Created);
    assert_eq!(next.vault_root(), Some(ROOT.to_string()));
    next.rescan(shell.scan());
    let bytes = shell.bytes(&id("Work/A.md"));
    assert_eq!(next.last_note(), Some(id("Work/A.md")));
    assert_eq!(next.restore_last_note(bytes), Some(id("Work/A.md")));
    assert_eq!(next.open_note_id(), Some(id("Work/A.md")));
}

#[test]
fn a_configured_folder_that_is_gone_leaves_no_vault() {
    let mut config = Config::default_new();
    config.vault = Some("/gone".to_string());
    let mut notebook = Notebook::default();
    notebook.load_config("/config.json".to_string(), config.clone(), false);
    assert!(notebook.vault().is_none());
    notebook.set_vault("/other");
    notebook.load_config("/config.json".to_string(), config, false);
    assert!(notebook.vault().is_none());
}

#[test]
fn a_last_note_that_is_gone_is_not_reopened() {
    let mut shell = Shell::new(&[("A.md", "one")]);
    shell.notebook.config_mut().last_note = Some("Gone.md".to_string());
    let bytes = shell.bytes(&id("A.md"));
    assert_eq!(shell.notebook.restore_last_note(bytes), None);
    assert_eq!(shell.notebook.open_note_id(), None);
}

#[test]
fn a_filtered_tree_opens_what_it_found_and_hides_what_is_empty() {
    let mut shell = Shell::new(&[("Work/Deep/A.md", "#rust"), ("B.md", "plain")]);
    let times = TextMap::new();
    let folders = vec!["Empty".to_string()];
    let shape = |rows: Vec<Row>| -> Vec<String> {
        rows.iter()
            .map(|row| match row {
                Row::Folder { name, depth, .. } => format!("{depth}:{name}/"),
                Row::Note { id, depth, .. } => format!("{depth}:{}", id.title()),
            })
            .collect()
    };

    assert_eq!(
        shape(shell.notebook.sidebar_rows(&times, &folders)),
        ["0:Empty/", "0:Work/", "0:B"]
    );
    assert!(shell.notebook.filter_by_tag(Some("rust")));
    assert_eq!(
        shape(shell.notebook.sidebar_rows(&times, &folders)),
        ["0:Work/", "1:Deep/", "2:A"]
    );
}

#[test]
fn times_count_only_for_a_sort_that_goes_by_them() {
    let mut shell = Shell::new(&[("A.md", "one"), ("B.md", "two")]);
    let mut times = TextMap::new();
    times.insert(id("A.md"), (1u64, 9u64));
    times.insert(id("B.md"), (5u64, 2u64));
    let first = |shell: &Shell| match &shell.notebook.sidebar_rows(&times, &Vec::new())[0] {
        Row::Note { id, .. } => id.as_str().to_string(),
        other => panic!("expected a note, got {other:?}"),
    };
    assert_eq!(first(&shell), "A.md");
    shell.notebook.set_sort(Sort::Modified);
    assert_eq!(first(&shell), "B.md");
    shell.notebook.set_sort(Sort::Created);
    assert_eq!(first(&shell), "A.md");
}

#[test]
fn opening_a_note_reveals_it() {
    let mut shell = Shell::new(&[("Work/Deep/A.md", "one")]);
    shell.load_note("Work/Deep/A.md").expect("open");
    let rows = shell.notebook.sidebar_rows(&TextMap::new(), &Vec::new());
    assert!(rows
        .iter()
        .any(|row| matches!(row, Row::Note { depth: 2, .. })));
    assert_eq!(shell.notebook.current_folder(), "Work/Deep");
}

#[test]
fn the_links_to_the_open_note_are_listed() {
    let mut shell = Shell::new(&[("A.md", "see [[B]] here"), ("B.md", "text")]);
    assert!(shell.notebook.backlinks_of_open_note().is_empty());
    shell.load_note("B.md").expect("open");
    assert_eq!(
        shell.notebook.backlinks_of_open_note(),
        vec![(id("A.md"), "see B here".to_string())]
    );
    assert_eq!(
        shell.notebook.resolve_link("A"),
        Resolution::Note(id("A.md"))
    );
}

#[test]
fn the_palette_shows_folders_for_titles_and_lines_for_texts() {
    let mut shell = Shell::new(&[("Work/Ownership.md", "moves are destructive")]);
    let (hits, wants) = shell.notebook.search("owner", Mode::Title, &Vec::new());
    assert_eq!(hits.len(), 1);
    assert_eq!(hits[0].id, "Work/Ownership.md");
    assert_eq!(hits[0].title, "Ownership");
    assert_eq!(hits[0].detail, "Work");
    assert_eq!(hits[0].highlight, None);
    assert!(!wants);

    let found = vec![search::Hit {
        id: id("Work/Ownership.md"),
        score: 1,
        lexical: Some(0),
        semantic: None,
        similarity: None,
        snippet: "moves are destructive".to_string(),
    }];
    let (hits, wants) = shell.notebook.search("destructive", Mode::Text, &found);
    assert_eq!(hits[0].detail, "moves are destructive");
    assert_eq!(hits[0].highlight, Some((10, 21)));
    assert!(wants);

    shell
        .notebook
        .set_query_vector("destructive".to_string(), vec![1, 2]);
    let (_, wants) = shell.notebook.search("destructive", Mode::Text, &found);
    assert!(!wants);
    assert_eq!(shell.notebook.vector_for("destructive"), Some(&vec![1, 2]));
    assert_eq!(shell.notebook.vector_for("other"), None);
    assert_eq!(Mode::default(), Mode::Title);
}

#[test]
fn attached_files_come_back_by_name() {
    let shell = Shell::new(&[("A.md", "![[used.png]]")]);
    let tried = vec![
        Ok("one.png".to_string()),
        Err(VaultError::NotInVault("/".to_string())),
        Ok("two.png".to_string()),
    ];
    let attached = shell.notebook.attach_files(tried);
    assert_eq!(attached.names, ["one.png", "two.png"]);
    assert_eq!(attached.failures, 1);

    let files = ["used.png", "b.png", ".hidden", "a.png"].map(str::to_string);
    assert_eq!(
        shell.notebook.unused_attachments(&files.to_vec()),
        ["a.png", "b.png"]
    );
    assert!(Notebook::default()
        .unused_attachments(&files.to_vec())
        .is_empty());
    let nothing = Notebook::default().attach_files(vec![Ok("one.png".to_string())]);
    assert!(nothing.names.is_empty());
}

#[test]
fn vectors_belong_to_the_vault() {
    let mut shell = Shell::new(&[]);
    assert!(!shell.notebook.has_vectors());
    let mut store = Store::new("m");
    store.insert(&id("A.md"), Digest::of("a"), vec![vec![1]]);
    shell
        .notebook
        .load_vectors(Some("/cache"), None, store);
    assert!(shell.notebook.has_vectors());
    assert_eq!(shell.notebook.vectors().len(), 1);
    let (index, vectors) = shell.notebook.catch_up_input();
    assert!(index.is_empty());
    assert_eq!(vectors.model, "m");
    let path = shell.notebook.absorb_vectors(Store::new("n"));
    assert_eq!(path, Some(default_store_path(ROOT, Some("/cache"), None)));
    assert_eq!(shell.notebook.vectors().model, "n");

    let mut none = Notebook::default();
    none.load_vectors(Some("/cache"), None, Store::new("m"));
    assert_eq!(none.vectors().model, "");
    assert_eq!(none.absorb_vectors(Store::new("n")), None);
}

#[test]
fn semantic_search_is_off_when_its_server_is_nowhere() {
    let mut notebook = Notebook::default();
    assert_eq!(
        notebook.embedding_url("http://localhost"),
        Some("http://localhost".to_string())
    );
    notebook.config_mut().embedding_url = Some("  ".to_string());
    assert_eq!(notebook.embedding_url("http://localhost"), None);
    notebook.config_mut().embedding_url = Some("http://nas".to_string());
    assert_eq!(
        notebook.embedding_url("http://localhost"),
        Some("http://nas".to_string())
    );
}

#[test]
fn a_reloaded_vault_puts_the_open_note_back_if_it_survived() {
    let mut shell = Shell::new(&[("A.md", "one"), ("B.md", "two")]);
    shell.load_note("A.md").expect("open");
    shell.files.insert("A.md".into(), "three".into());
    let (notes, bytes) = (shell.scan(), shell.open_bytes());
    shell.notebook.reload_vault(notes, bytes);
    assert_eq!(shell.open_text(), Some("three".to_string()));

    shell.files.remove("A.md");
    let (notes, bytes) = (shell.scan(), shell.open_bytes());
    shell.notebook.reload_vault(notes, bytes);
    assert_eq!(shell.notebook.open_note_id(), None);
}

#[test]
fn an_edit_without_a_note_is_nothing_to_save() {
    let mut notebook = Notebook::default();
    notebook.mark_edited();
    assert!(notebook.is_dirty());
    assert!(matches!(
        notebook.save_now(Ok(()), scanned("")),
        Saved::Clean
    ));
    assert!(!notebook.is_dirty());
    notebook.flush("typed into nothing");
    assert!(!notebook.is_dirty());
    assert!(notebook.open_note().is_none());
}

#[test]
fn a_first_run_has_a_config_of_this_version() {
    let (config, _) = Config::load("/config.json", Reading::Missing);
    assert_eq!(config.version, SCHEMA_VERSION);
}

#[test]
fn a_note_matched_by_both_says_why_it_is_there() {
    let mut shell = Shell::new(&[
        ("Ownership.md", "An opening.\n\nThe rules of ownership."),
        ("Owners.md", "Nothing of the kind."),
    ]);
    shell.notebook.set_query("ownership");
    assert_eq!(
        shell.notebook.search_results(),
        vec![(id("Ownership.md"), "The rules of ownership.".to_string())]
    );
    shell.notebook.set_query("own");
    assert_eq!(
        shell.notebook.search_results(),
        vec![
            (id("Owners.md"), "Nothing of the kind.".to_string()),
            (id("Ownership.md"), "The rules of ownership.".to_string()),
        ]
    );
}

#[test]
fn completion_and_the_palette_know_a_note_by_its_aliases() {
    let mut shell = Shell::new(&[
        ("Rust ownership.md", "---\naliases: [Borrowing]\n---\n"),
        ("Other.md", ""),
    ]);
    assert_eq!(shell.notebook.link_candidates("borrow"), ["Rust ownership"]);
    let (hits, _) = shell.notebook.search("borrow", Mode::Title, &Vec::new());
    assert_eq!(hits.len(), 1);
    assert_eq!(hits[0].title, "Rust ownership");
    shell.load_note("Rust ownership.md").expect("open");
    assert!(shell.notebook.link_candidates("borrow").is_empty());
}

#[test]
fn every_link_that_was_repointed_is_counted() {
    let mut shell = Shell::new(&[
        ("Ownership.md", "the note itself"),
        ("A.md", "see [[Ownership]] and [[Ownership]]"),
        ("B.md", "also [[Ownership]]"),
    ]);
    shell.load_note("Ownership.md").expect("open");
    assert!(matches!(
        shell.rename_note("Borrowing"),
        Renamed::Done { links: 3, .. }
    ));
    assert_eq!(shell.read("A.md"), "see [[Borrowing]] and [[Borrowing]]");
}
