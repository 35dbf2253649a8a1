//! The sidebar's rows.

use brain::note::NoteId;
use brain::ordered::TextMap;
use brain::tree::{ancestors_of, is_within, rows, Listed, Row, Sort};

fn listed(path: &str, modified: u64, created: u64) -> Listed {
    Listed {
        id: NoteId::from_relative(path),
        excerpt: String::new(),
        modified,
        created,
    }
}

fn open(paths: &[&str]) -> TextMap<String, ()> {
    let mut set = TextMap::new();
    for path in paths {
        set.insert(path.to_string(), ());
    }
    set
}

/// The rows as `depth:name`, which is what a sidebar looks like.
fn shape(rows: &[Row]) -> Vec<String> {
    rows.iter()
        .map(|row| match row {
            Row::Folder { name, depth, .. } => format!("{depth}:{name}/"),
            Row::Note { id, depth, .. } => format!("{depth}:{}", id.title()),
        })
        .collect()
}

#[test]
fn a_closed_folder_hides_its_notes_and_an_open_one_shows_them() {
    let notes = [
        listed("Meetings/Standup.md", 0, 0),
        listed("Inbox.md", 0, 0),
    ];

    let closed = rows(&notes, &[], &open(&[]), Sort::Name);
    assert_eq!(shape(&closed), ["0:Meetings/", "0:Inbox"]);

    let opened = rows(&notes, &[], &open(&["Meetings"]), Sort::Name);
    assert_eq!(shape(&opened), ["0:Meetings/", "1:Standup", "0:Inbox"]);
}

#[test]
fn folders_come_before_the_notes_beside_them() {
    let notes = [
        listed("Apple.md", 0, 0),
        listed("Zebra/Note.md", 0, 0),
        listed("Banana.md", 0, 0),
    ];
    assert_eq!(
        shape(&rows(&notes, &[], &open(&[]), Sort::Name)),
        ["0:Zebra/", "0:Apple", "0:Banana"]
    );
}

#[test]
fn ancestors_appear_even_when_nothing_named_them() {
    let notes = [listed("a/b/c/Deep.md", 0, 0)];
    assert_eq!(
        shape(&rows(
            &notes,
            &[],
            &open(&["a", "a/b", "a/b/c"]),
            Sort::Name
        )),
        ["0:a/", "1:b/", "2:c/", "3:Deep"]
    );
}

#[test]
fn an_empty_folder_on_disk_is_still_a_folder() {
    let rows = rows(&[], &["Archive".to_string()], &open(&[]), Sort::Name);
    assert_eq!(shape(&rows), ["0:Archive/"]);
}

#[test]
fn a_folder_counts_every_note_beneath_it_not_only_its_own() {
    let notes = [
        listed("Work/A.md", 0, 0),
        listed("Work/Deep/B.md", 0, 0),
        listed("Work/Deep/C.md", 0, 0),
    ];
    let rows = rows(&notes, &[], &open(&[]), Sort::Name);
    match &rows[0] {
        Row::Folder { notes, .. } => assert_eq!(*notes, 3),
        other => panic!("expected a folder, got {other:?}"),
    }
}

#[test]
fn sorting_by_time_puts_the_newest_first_and_folders_stay_alphabetical() {
    let notes = [
        listed("Old.md", 100, 300),
        listed("New.md", 300, 100),
        listed("Middle.md", 200, 200),
    ];
    assert_eq!(
        shape(&rows(&notes, &[], &open(&[]), Sort::Modified)),
        ["0:New", "0:Middle", "0:Old"]
    );
    assert_eq!(
        shape(&rows(&notes, &[], &open(&[]), Sort::Created)),
        ["0:Old", "0:Middle", "0:New"]
    );
}

#[test]
fn notes_with_the_same_time_keep_a_stable_order() {
    let notes = [listed("B.md", 5, 5), listed("A.md", 5, 5)];
    assert_eq!(
        shape(&rows(&notes, &[], &open(&[]), Sort::Modified)),
        ["0:A", "0:B"]
    );
}

#[test]
fn a_note_whose_time_is_unknown_does_not_claim_to_be_the_newest() {
    let notes = [listed("Unknown.md", 0, 0), listed("Known.md", 10, 10)];
    assert_eq!(
        shape(&rows(&notes, &[], &open(&[]), Sort::Modified)),
        ["0:Known", "0:Unknown"]
    );
}

#[test]
fn names_sort_without_regard_to_case() {
    let notes = [listed("apple.md", 0, 0), listed("Banana.md", 0, 0)];
    assert_eq!(
        shape(&rows(&notes, &[], &open(&[]), Sort::Name)),
        ["0:apple", "0:Banana"]
    );
}

#[test]
fn an_empty_vault_is_no_rows_and_no_panic() {
    assert!(rows(&[], &[], &open(&[]), Sort::Name).is_empty());
}

#[test]
fn a_folder_is_within_itself_and_its_descendants_only() {
    assert!(is_within("Work", "Work"));
    assert!(is_within("Work", "Work/Deep"));
    assert!(!is_within("Work", "Working"));
    assert!(!is_within("Work", "Other"));
    assert!(!is_within("Work/Deep", "Work"));
}

#[test]
fn a_sort_round_trips_through_the_config_and_a_stranger_is_the_default() {
    for sort in [Sort::Name, Sort::Modified, Sort::Created] {
        assert_eq!(Sort::from_name(sort.as_str()), sort);
    }
    assert_eq!(
        Sort::from_name("whatever the next version writes"),
        Sort::Name
    );
}

#[test]
fn a_path_is_made_of_its_ancestors() {
    assert_eq!(ancestors_of("a/b/c"), ["a", "a/b", "a/b/c"]);
    assert_eq!(ancestors_of("//a//b/"), ["a", "a/b"]);
    assert!(ancestors_of("").is_empty());
}

#[test]
fn a_row_says_all_there_is_to_say() {
    let notes = [
        listed("Work/A.md", 0, 0),
        listed("Work/Deep/B.md", 0, 0),
        listed("C.md", 0, 0),
    ];
    let rows = rows(&notes, &["Zoo".to_string()], &open(&["Work"]), Sort::Name);
    assert_eq!(
        rows[0],
        Row::Folder {
            path: "Work".to_string(),
            name: "Work".to_string(),
            depth: 0,
            notes: 2,
            expanded: true,
        }
    );
    assert_eq!(
        rows[1],
        Row::Folder {
            path: "Work/Deep".to_string(),
            name: "Deep".to_string(),
            depth: 1,
            notes: 1,
            expanded: false,
        }
    );
    assert_eq!(shape(&rows), ["0:Work/", "1:Deep/", "1:A", "0:Zoo/", "0:C"]);
    assert_eq!(rows[2].depth(), 1);
    assert_eq!(rows[3].depth(), 0);
}

#[test]
fn the_order_notes_are_listed_in_does_not_matter() {
    let forwards = [listed("a.md", 3, 0), listed("b.md", 3, 0), listed("c.md", 7, 0)];
    let backwards = [listed("c.md", 7, 0), listed("b.md", 3, 0), listed("a.md", 3, 0)];
    for sort in [Sort::Name, Sort::Modified, Sort::Created] {
        assert_eq!(
            rows(&forwards, &[], &open(&[]), sort),
            rows(&backwards, &[], &open(&[]), sort)
        );
    }
    assert_eq!(
        shape(&rows(&backwards, &[], &open(&[]), Sort::Modified)),
        ["0:c", "0:a", "0:b"]
    );
}

#[test]
fn a_listed_note_without_times_has_none() {
    let note = Listed::new(NoteId::from_relative("A.md"), "says".to_string());
    assert_eq!((note.modified, note.created), (0, 0));
    assert_eq!(note.excerpt, "says");
}

#[test]
fn the_default_sort_is_by_name() {
    assert_eq!(Sort::default(), Sort::Name);
}
