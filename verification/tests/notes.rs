//! A vault of notes on the far side of a network.

use brain::notes::{note, path_of, visible, wrote, BadId, Deed, Listed, Vault, Wrote};
use brain::sync;
use std::collections::BTreeMap;

/// A folder of files that is not on any disk, and the vault in it.
struct Folder {
    vault: Vault,
    files: BTreeMap<String, String>,
}

impl Folder {
    fn new() -> Self {
        Folder {
            vault: Vault::new("/vault".to_string()),
            files: BTreeMap::new(),
        }
    }

    fn held(&self, id: &str) -> Option<String> {
        match path_of("/vault", id) {
            Ok(path) => self.files.get(&path).cloned(),
            Err(_) => None,
        }
    }

    fn write(&mut self, id: &str, text: &str, base: Option<u64>) -> Wrote {
        let held = self.held(id);
        let deed = self.vault.write(id, text, base, held.as_deref());
        if let Deed::Write { path, .. } = &deed {
            self.files.insert(path.clone(), text.to_string());
        }
        wrote(deed, None)
    }

    fn delete(&mut self, id: &str, base: Option<u64>) -> Wrote {
        let held = self.held(id);
        let deed = self.vault.delete(id, base, held.as_deref());
        if let Deed::Remove { path, .. } = &deed {
            self.files.remove(path);
        }
        wrote(deed, None)
    }

    fn read(&self, id: &str) -> Option<String> {
        self.vault.read(id, self.held(id)).map(|found| found.text)
    }

    fn list(&self) -> Vec<Listed> {
        let files: Vec<(String, String)> = self
            .files
            .iter()
            .map(|(path, text)| (path["/vault/".len()..].to_string(), text.clone()))
            .filter(|(path, _)| path.split('/').all(visible) && note(path))
            .collect();
        self.vault.list(&files)
    }
}

fn hash(text: &str) -> u64 {
    sync::Hash::of(text).0
}

#[test]
fn a_note_written_can_be_listed_and_read_back() {
    let mut vault = Folder::new();

    assert_eq!(vault.write("A.md", "text", None), Wrote::Done(hash("text")));

    assert_eq!(
        vault.list(),
        vec![Listed {
            id: "A.md".into(),
            hash: hash("text")
        }]
    );
    assert_eq!(vault.read("A.md").expect("read"), "text");
}

#[test]
fn a_note_in_a_folder_keeps_its_slashes() {
    let mut vault = Folder::new();
    vault.write("Meetings/Standup.md", "text", None);

    assert_eq!(vault.list()[0].id, "Meetings/Standup.md");
}

#[test]
fn a_write_over_something_that_moved_on_is_refused_with_what_is_there() {
    let mut vault = Folder::new();
    vault.write("A.md", "first", None);
    let theirs = hash("first");

    // A client that never saw "first" thinks the note is new.
    assert_eq!(
        vault.write("A.md", "mine", None),
        Wrote::Stale(Some(theirs))
    );
    // And one that saw an older version is refused the same way.
    assert_eq!(
        vault.write("A.md", "mine", Some(hash("older"))),
        Wrote::Stale(Some(theirs))
    );
    // The file is untouched: the server never picks a winner.
    assert_eq!(vault.read("A.md").expect("read"), "first");

    // Knowing what is there is what makes the write land.
    assert!(matches!(
        vault.write("A.md", "mine", Some(theirs)),
        Wrote::Done(_)
    ));
}

#[test]
fn deleting_something_that_moved_on_is_refused() {
    let mut vault = Folder::new();
    vault.write("A.md", "first", None);

    assert_eq!(
        vault.delete("A.md", Some(hash("older"))),
        Wrote::Stale(Some(hash("first")))
    );
    assert!(vault.read("A.md").is_some());
}

#[test]
fn deleting_something_already_gone_is_not_an_error() {
    let mut vault = Folder::new();

    assert_eq!(vault.delete("A.md", None), Wrote::Done(0));
}

#[test]
fn deleting_the_last_note_in_a_folder_takes_the_folder_with_it() {
    let mut vault = Folder::new();
    vault.write("Meetings/Deep/Standup.md", "text", None);

    let deed = vault.vault.delete(
        "Meetings/Deep/Standup.md",
        Some(hash("text")),
        Some("text"),
    );
    match deed {
        Deed::Remove { path, folders } => {
            assert_eq!(path, "/vault/Meetings/Deep/Standup.md");
            // From the deepest up, and never the vault root.
            assert_eq!(folders, ["/vault/Meetings/Deep", "/vault/Meetings"]);
        }
        other => panic!("expected a removal, got {other:?}"),
    }
}

#[test]
fn writing_exactly_what_is_there_is_not_a_write() {
    let mut vault = Folder::new();
    let there = hash("text");
    vault.write("A.md", "text", None);

    assert_eq!(
        vault.write("A.md", "text", Some(there)),
        Wrote::Done(there)
    );
    assert!(matches!(
        vault.vault.write("A.md", "text", Some(there), Some("text")),
        Deed::Answer(_)
    ));
}

#[test]
fn dotfiles_are_not_notes() {
    let mut vault = Folder::new();
    vault
        .files
        .insert("/vault/.git/config.md".to_string(), "not a note".to_string());
    vault
        .files
        .insert("/vault/.hidden.md".to_string(), "not a note".to_string());
    vault.write("A.md", "a note", None);

    assert_eq!(vault.list().len(), 1);
}

#[test]
fn an_id_that_climbs_out_of_the_vault_is_refused() {
    for id in [
        "../escape.md",
        "a/../../escape.md",
        "/etc/passwd.md",
        "a/./b.md",
        "..\\escape.md",
        "",
        "no-extension",
        "a//b.md",
        "a/.hidden.md",
        ".brain/state.md",
        "a/b.md\0.md",
    ] {
        assert_eq!(
            path_of("/vault", id),
            Err(BadId),
            "{id:?} was allowed through"
        );
    }
}

#[test]
fn an_ordinary_id_is_allowed() {
    assert_eq!(
        path_of("/vault", "Meetings/2026-07-30 standup.md"),
        Ok("/vault/Meetings/2026-07-30 standup.md".to_string())
    );
    assert_eq!(path_of("/vault", "A.md"), Ok("/vault/A.md".to_string()));
}

#[test]
fn a_bad_id_never_reaches_the_filesystem() {
    let mut vault = Folder::new();

    assert_eq!(
        vault.write("../escape.md", "text", None),
        Wrote::Rejected(BadId)
    );
    assert_eq!(vault.delete("../escape.md", None), Wrote::Rejected(BadId));
    assert!(vault.read("../escape.md").is_none());
    assert!(vault
        .vault
        .read("../escape.md", Some("text".to_string()))
        .is_none());
}

#[test]
fn an_id_of_any_length_is_not_allowed() {
    let long = format!("{}.md", "a".repeat(1021));
    assert!(path_of("/vault", &long).is_ok());
    let longer = format!("{}.md", "a".repeat(1022));
    assert_eq!(path_of("/vault", &longer), Err(BadId));
}

#[test]
fn a_write_goes_by_way_of_a_temporary_file() {
    let vault = Vault::new("/vault".to_string());
    assert_eq!(vault.root(), "/vault");
    match vault.write("a/B.md", "text", None, None) {
        Deed::Write {
            path,
            temporary,
            hash: written,
        } => {
            assert_eq!(path, "/vault/a/B.md");
            assert_eq!(temporary, "/vault/a/B.md.tmp");
            assert_eq!(written, hash("text"));
        }
        other => panic!("expected a write, got {other:?}"),
    }
}

#[test]
fn a_write_that_fails_says_why() {
    let vault = Vault::new("/vault".to_string());
    let deed = vault.write("A.md", "text", None, None);
    assert_eq!(
        wrote(deed, Some("disk full".to_string())),
        Wrote::Failed("disk full".to_string())
    );
}

#[test]
fn everything_written_is_listed_in_order_and_nothing_else() {
    let mut folder = Folder::new();
    folder
        .files
        .insert("/vault/.git/config.md".to_string(), "not a note".to_string());
    folder
        .files
        .insert("/vault/.hidden.md".to_string(), "not a note".to_string());
    let notes = [("b.md", "two"), ("a/z.md", "three"), ("B.md", ""), ("a.md", "two")];
    for (id, text) in notes {
        assert_eq!(folder.write(id, text, None), Wrote::Done(hash(text)));
    }
    let listed: Vec<(String, u64)> = folder
        .list()
        .into_iter()
        .map(|listed| (listed.id, listed.hash))
        .collect();
    assert_eq!(
        listed,
        [
            ("B.md".to_string(), hash("")),
            ("a.md".to_string(), hash("two")),
            ("a/z.md".to_string(), hash("three")),
            ("b.md".to_string(), hash("two")),
        ]
    );
    for (id, text) in notes {
        assert_eq!(folder.read(id).as_deref(), Some(text));
    }
}
