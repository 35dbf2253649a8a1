//! The vault's rules and the config, without a disk.

use brain::config::{default_path, Config, ConfigError, LoadOutcome, Reading, SCHEMA_VERSION};
use brain::note::{Note, NoteId};
use brain::vault::{
    Attaching, Found, Slot, Vault, VaultError, Visit, ATTACHMENTS_DIR, CACHE_DIR,
};
use std::collections::BTreeMap;

fn id(path: &str) -> NoteId {
    NoteId::from_relative(path)
}

fn vault() -> Vault {
    Vault::new("/vault".to_string())
}

/// The ids a walk of some files, by their paths, comes to read.
fn walked(vault: &Vault, files: &[&str]) -> Vec<String> {
    let mut read = Vec::new();
    for file in files {
        let parts: Vec<&str> = file.split('/').collect();
        let mut path = vault.root().to_string();
        for (depth, name) in parts.iter().enumerate() {
            path = format!("{path}/{name}");
            match vault.visit(&path, name, depth + 1 < parts.len()) {
                Visit::Skip => break,
                Visit::Enter => {}
                Visit::Read(id) => read.push(id.as_str().to_string()),
            }
        }
    }
    read
}

#[test]
fn a_written_note_reads_back_identically() {
    let source = "---\ntags: [rust]\n---\n\n# Title\n\nProse.\n";
    let (_, write) = vault()
        .create(&id("Note.md"), source, false)
        .expect("create");
    assert_eq!(write.path, "/vault/Note.md");

    let read = vault()
        .read(&id("Note.md"), Ok(write.text.into_bytes()))
        .expect("read");
    assert_eq!(read.to_text(), source);
}

#[test]
fn scanning_finds_notes_in_folders_and_ignores_everything_else() {
    assert_eq!(
        walked(
            &vault(),
            &[
                "Meetings/Standup.md",
                "Top.md",
                "attachments/d.png",
                ".brain/index.json",
                ".hidden.md",
            ]
        ),
        ["Meetings/Standup.md", "Top.md"]
    );
    assert_eq!(ATTACHMENTS_DIR, "attachments");
    assert_eq!(CACHE_DIR, ".brain");
}

#[test]
fn a_vault_that_is_a_git_repository_does_not_scan_its_own_objects() {
    assert_eq!(
        walked(&vault(), &["Note.md", ".git/objects/deadbeef.md"]).len(),
        1
    );
}

#[test]
fn scanning_an_empty_folder_is_not_an_error() {
    let (notes, problems) = vault().scan(Vec::new());
    assert!(notes.is_empty());
    assert!(problems.is_empty());
}

#[test]
fn creating_over_an_existing_note_is_refused() {
    assert!(matches!(
        vault().create(&id("Note.md"), "second", true),
        Err(VaultError::Exists(_))
    ));
}

#[test]
fn renaming_moves_the_file_and_can_create_a_folder() {
    assert_eq!(
        vault()
            .rename(&id("Note.md"), &id("Archive/Note.md"), false)
            .expect("rename"),
        (
            "/vault/Note.md".to_string(),
            "/vault/Archive/Note.md".to_string()
        )
    );
}

#[test]
fn renaming_onto_an_existing_note_is_refused() {
    assert!(matches!(
        vault().rename(&id("A.md"), &id("B.md"), true),
        Err(VaultError::Exists(taken)) if taken == id("B.md")
    ));
}

#[test]
fn a_save_goes_by_way_of_a_file_beside_its_target() {
    let write = vault().write(&Note::from_text(id("a/Note.md"), "body"));
    assert_eq!(write.path, "/vault/a/Note.md");
    assert_eq!(write.temporary, "/vault/a/Note.md.tmp");
    assert_eq!(write.text, "body");
}

#[test]
fn a_file_that_is_not_utf8_is_reported_not_guessed_at() {
    let bad = vec![0xff, 0xfe, 0x00];
    assert!(matches!(
        vault().read(&id("Bad.md"), Ok(bad.clone())),
        Err(VaultError::NotText(_))
    ));
    // The scan reports it and carries on with the rest of the vault.
    let (notes, problems) = vault().scan(vec![
        Found::File {
            id: id("Bad.md"),
            bytes: Ok(bad),
        },
        Found::File {
            id: id("Good.md"),
            bytes: Ok(b"good".to_vec()),
        },
    ]);
    assert_eq!(notes.len(), 1);
    assert_eq!(problems.len(), 1);
}

#[test]
fn ids_are_only_issued_for_notes_inside_the_vault() {
    let vault = vault();
    assert_eq!(vault.id_of("/vault/Note.md"), Some(id("Note.md")));
    assert_eq!(vault.id_of("/vault/a/b.md"), Some(id("a/b.md")));
    assert_eq!(vault.id_of("/vault/d.png"), None);
    assert_eq!(vault.id_of("/vault/.brain/x.md"), None);
    assert_eq!(vault.id_of("/elsewhere/Note.md"), None);
}

/// Copy a file into the attachments, as a shell does.
fn attach(held: &mut BTreeMap<String, Vec<u8>>, source: &str, bytes: &[u8]) -> String {
    let mut attaching = Attaching::new(source).expect("a name");
    loop {
        let name = attaching.candidate();
        let there = held.get(&name).map(|bytes| bytes.as_slice());
        match attaching.try_at(there, bytes) {
            Slot::Here => return name,
            Slot::Free => {
                held.insert(name.clone(), bytes.to_vec());
                return name;
            }
            Slot::Taken => {}
        }
    }
}

#[test]
fn an_attachment_is_copied_in_and_named_once() {
    let mut held = BTreeMap::new();
    assert_eq!(
        attach(&mut held, "/tmp/outside.png", b"image bytes"),
        "outside.png"
    );
    assert_eq!(held["outside.png"], b"image bytes");

    // The same file again is the same attachment, not a second copy.
    assert_eq!(
        attach(&mut held, "/tmp/outside.png", b"image bytes"),
        "outside.png"
    );
    assert_eq!(held.len(), 1);
}

#[test]
fn two_different_files_with_one_name_both_survive() {
    let mut held = BTreeMap::new();
    assert_eq!(
        attach(&mut held, "/a/screenshot.png", b"one"),
        "screenshot.png"
    );
    assert_eq!(
        attach(&mut held, "/b/screenshot.png", b"two"),
        "screenshot-1.png"
    );
    assert_eq!(
        attach(&mut held, "/c/screenshot.png", b"three"),
        "screenshot-2.png"
    );
    assert_eq!(held["screenshot.png"], b"one");
}

#[test]
fn a_name_without_an_extension_is_numbered_at_its_end() {
    let mut held = BTreeMap::new();
    assert_eq!(attach(&mut held, "README", b"one"), "README");
    assert_eq!(attach(&mut held, "README", b"two"), "README-1");
    assert_eq!(attach(&mut held, "a.tar.gz", b"one"), "a.tar.gz");
    assert_eq!(attach(&mut held, "a.tar.gz", b"two"), "a.tar-1.gz");
}

#[test]
fn what_names_no_file_is_not_attached() {
    for source in ["", "/", "..", "a/..", "."] {
        assert!(
            matches!(Attaching::new(source), Err(VaultError::NotInVault(ref path)) if path == source),
            "{source:?}"
        );
    }
}

#[test]
fn a_note_is_found_again_where_it_is_kept() {
    let vault = vault();
    for path in ["A.md", "a/b/C d.md", "x.y.md"] {
        assert_eq!(vault.id_of(&vault.path_of(&id(path))), Some(id(path)));
    }
    assert_eq!(vault.id_of("/vault/.md"), None);
    assert_eq!(vault.id_of("/vault"), None);
    assert_eq!(vault.id_of("/vaultier/A.md"), None);
    assert_eq!(vault.delete(&id("a/B.md")), "/vault/a/B.md");
}

#[test]
fn folders_are_made_and_moved_inside_the_vault() {
    let vault = vault();
    assert_eq!(vault.create_folder("a/b"), "/vault/a/b");
    assert_eq!(
        vault.delete_folder("a", false).expect("delete"),
        "/vault/a"
    );
    assert!(matches!(
        vault.delete_folder("a", true),
        Err(VaultError::FolderNotEmpty(_))
    ));
    assert_eq!(
        vault.move_folder("a", "b/a").expect("move"),
        ("/vault/a".to_string(), "/vault/b/a".to_string())
    );
    assert!(matches!(
        vault.move_folder("a", "a/b"),
        Err(VaultError::IntoItself(_))
    ));
}

#[test]
fn every_problem_can_be_told() {
    let cases = [
        (
            VaultError::NotInVault("/x".to_string()),
            "/x is not inside the vault",
        ),
        (VaultError::Exists(id("A.md")), "A.md already exists"),
        (VaultError::NotText(id("A.md")), "A.md is not UTF-8 text"),
        (
            VaultError::FolderNotEmpty("Work".to_string()),
            "Work is not empty",
        ),
        (
            VaultError::IntoItself("Work".to_string()),
            "Work cannot be moved inside itself",
        ),
        (
            VaultError::Io {
                path: "/x".to_string(),
                source: "denied".to_string(),
            },
            "/x: denied",
        ),
    ];
    for (problem, told) in cases {
        assert_eq!(problem.message(), told);
    }
}

#[test]
fn what_a_walk_could_not_look_at_is_a_problem() {
    let (notes, problems) = vault().scan(vec![
        Found::Unreadable {
            path: "/vault/locked".to_string(),
            source: "denied".to_string(),
        },
        Found::File {
            id: id("A.md"),
            bytes: Err("gone".to_string()),
        },
    ]);
    assert!(notes.is_empty());
    assert_eq!(
        problems,
        vec![
            VaultError::Io {
                path: "/vault/locked".to_string(),
                source: "denied".to_string()
            },
            VaultError::Io {
                path: "/vault/A.md".to_string(),
                source: "gone".to_string()
            },
        ]
    );
}

// ---- the config ----

#[test]
fn a_missing_config_is_a_first_run_not_an_error() {
    let (config, outcome) = Config::load("/c/config.json", Reading::Missing);
    assert_eq!(outcome, LoadOutcome::Fresh);
    assert_eq!(config.vault, None);
    assert_eq!(config.version, SCHEMA_VERSION);
}

#[test]
fn a_config_that_was_read_is_the_one_to_go_on_with() {
    let mut config = Config::default_new();
    config.vault = Some("/home/someone/Notes".to_string());
    config.last_note = Some("Rust ownership.md".to_string());
    config.window_width = Some(1100);
    let (read, outcome) = Config::load("/c/config.json", Reading::Read(config.clone()));
    assert_eq!(outcome, LoadOutcome::Loaded);
    assert_eq!(read, config);
}

#[test]
fn an_unreadable_config_is_set_aside_not_deleted() {
    let (config, outcome) = Config::load("/c/config.json", Reading::Garbled);
    assert_eq!(config.vault, None);
    assert_eq!(
        outcome,
        LoadOutcome::Recovered {
            backup: "/c/config.json.corrupt".to_string()
        }
    );
}

#[test]
fn a_config_is_written_beside_itself_first() {
    assert_eq!(Config::staging("/c/config.json"), "/c/config.json.tmp");
}

#[test]
fn the_default_path_follows_xdg() {
    assert_eq!(
        default_path(Some("/tmp/xdg"), Some("/home/someone")),
        "/tmp/xdg/brain/config.json"
    );
    assert_eq!(
        default_path(None, Some("/home/someone")),
        "/home/someone/.config/brain/config.json"
    );
    assert_eq!(default_path(None, None), "./brain/config.json");
}

#[test]
fn a_config_that_cannot_be_written_says_why() {
    let io = ConfigError::Io {
        path: "/c".to_string(),
        source: "denied".to_string(),
    };
    assert_eq!(io.message(), "/c: denied");
    assert_eq!(
        ConfigError::Serialize("too deep".to_string()).message(),
        "too deep"
    );
}

#[test]
fn a_config_says_nothing_of_itself() {
    let config = Config::default();
    assert_eq!(config.version, 0);
    assert_eq!(config.sort, "");
    assert!(config.expanded_folders.is_empty());
    assert!(!config.window_maximized);
}
