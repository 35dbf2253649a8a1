//! The index: links, tags, attachments, and what is derived from each note.

use brain::index::{Index, Resolution};
use brain::markdown::{line_holding, Link, Scan};
use brain::note::{Note, NoteId};

/// A scan of a body, good enough for the notes below: `[[links]]`,
/// `![[embeds]]`, `#tags`, `**bold**` and headings.
fn scanned(body: &str) -> Scan {
    let mut links = Vec::new();
    let mut embeds = Vec::new();
    let mut tags = Vec::new();
    let mut lines = Vec::new();
    for line in body.split('\n') {
        let unmarked = line.trim_start_matches('#');
        let mut rest = if unmarked.len() < line.len() && unmarked.starts_with(' ') {
            unmarked.trim_start()
        } else {
            line
        };
        let mut out = String::new();
        let mut targets: Vec<String> = Vec::new();
        while let Some(c) = rest.chars().next() {
            if rest.starts_with("![[") && rest.contains("]]") {
                let end = rest.find("]]").expect("an end");
                embeds.push(rest[3..end].split('|').next().unwrap_or("").to_string());
                rest = &rest[end + 2..];
                continue;
            }
            if rest.starts_with("[[") && rest.contains("]]") {
                let end = rest.find("]]").expect("an end");
                let target = rest[2..end].split('|').next().unwrap_or("").to_string();
                out.push_str(rest[2..end].split('|').last().unwrap_or(""));
                targets.push(target);
                rest = &rest[end + 2..];
                continue;
            }
            if rest.starts_with("**") {
                rest = &rest[2..];
                continue;
            }
            if c == '#' && (out.is_empty() || out.ends_with(' ')) {
                let tag: String = rest[1..]
                    .chars()
                    .take_while(|c| c.is_alphanumeric() || "_-/".contains(*c))
                    .collect();
                if !tag.is_empty() {
                    tags.push(tag);
                }
            }
            out.push(c);
            rest = &rest[c.len_utf8()..];
        }
        for target in targets {
            links.push(Link {
                target,
                start: 0,
                end: 0,
                line: out.clone(),
            });
        }
        lines.push(out);
    }
    Scan {
        links,
        embeds,
        tags,
        text: lines.join("\n"),
    }
}

fn note(path: &str, text: &str) -> (Note, Scan) {
    let note = Note::from_text(NoteId::from_relative(path), text);
    let scan = scanned(&note.body);
    (note, scan)
}

fn id(path: &str) -> NoteId {
    NoteId::from_relative(path)
}

fn linking(index: &Index, path: &str) -> Vec<(String, String)> {
    match index.backlinks(&id(path)) {
        None => Vec::new(),
        Some(found) => found
            .links
            .iter()
            .map(|link| (link.from.as_str().to_string(), link.context.clone()))
            .collect(),
    }
}

#[test]
fn a_link_resolves_to_a_note_by_title() {
    let index = Index::build(vec![
        note("Rust ownership.md", "See [[Borrow checker]]."),
        note("Borrow checker.md", ""),
    ]);
    assert_eq!(
        index.resolve("Borrow checker", None),
        Resolution::Note(id("Borrow checker.md"))
    );
}

#[test]
fn resolution_ignores_case_but_not_words() {
    let index = Index::build(vec![note("Rust Ownership.md", "")]);
    assert_eq!(
        index.resolve("rust ownership", None),
        Resolution::Note(id("Rust Ownership.md"))
    );
    assert_eq!(index.resolve("rustownership", None), Resolution::Missing);
}

#[test]
fn an_alias_resolves_too() {
    let index = Index::build(vec![note(
        "Rust ownership.md",
        "---\naliases: [Ownership, Moves]\n---\n",
    )]);
    assert_eq!(
        index.resolve("Moves", None),
        Resolution::Note(id("Rust ownership.md"))
    );
}

#[test]
fn two_notes_with_one_title_are_ambiguous_not_guessed_at() {
    let index = Index::build(vec![
        note("Work/Standup.md", ""),
        note("Personal/Standup.md", ""),
    ]);
    match index.resolve("Standup", None) {
        Resolution::Ambiguous(candidates) => assert_eq!(candidates.len(), 2),
        other => panic!("expected ambiguity, got {other:?}"),
    }
}

#[test]
fn a_path_disambiguates_a_shared_title() {
    let index = Index::build(vec![
        note("Work/Standup.md", ""),
        note("Personal/Standup.md", ""),
    ]);
    assert_eq!(
        index.resolve("Work/Standup", None),
        Resolution::Note(id("Work/Standup.md"))
    );
    // With or without the extension.
    assert_eq!(
        index.resolve("Work/Standup.md", None),
        Resolution::Note(id("Work/Standup.md"))
    );
}

#[test]
fn a_link_to_nothing_is_missing_and_remembered() {
    let index = Index::build(vec![note("A.md", "See [[Not written yet]].")]);
    assert_eq!(index.resolve("Not written yet", None), Resolution::Missing);
    assert_eq!(
        index.missing().get("Not written yet").map(|found| &found.ids),
        Some(&vec![id("A.md")])
    );
}

#[test]
fn backlinks_carry_the_line_they_were_written_on() {
    let index = Index::build(vec![
        note("A.md", "# A\n\nMoves are destructive, see [[B]] for why.\n"),
        note("B.md", ""),
    ]);
    let backlinks = index.backlinks(&id("B.md")).expect("backlinks");
    assert_eq!(backlinks.links.len(), 1);
    assert_eq!(backlinks.links[0].from, id("A.md"));
    assert_eq!(
        backlinks.links[0].context,
        "Moves are destructive, see B for why."
    );
}

#[test]
fn a_note_does_not_backlink_to_itself() {
    let index = Index::build(vec![note("A.md", "See [[A]].")]);
    assert!(linking(&index, "A.md").is_empty());
}

#[test]
fn creating_a_note_resolves_links_that_were_already_written() {
    let mut index = Index::build(vec![note("A.md", "See [[B]].")]);
    assert!(linking(&index, "B.md").is_empty());

    let (written, scan) = note("B.md", "");
    index.update(&written, scan);
    assert_eq!(linking(&index, "B.md").len(), 1);
    assert_eq!(index.missing().len(), 0);
}

#[test]
fn deleting_a_note_turns_its_inbound_links_back_into_missing_ones() {
    let mut index = Index::build(vec![note("A.md", "See [[B]]."), note("B.md", "")]);
    index.remove(&id("B.md"));
    assert_eq!(index.resolve("B", None), Resolution::Missing);
    assert!(index.missing().contains("B"));
}

#[test]
fn renaming_moves_the_notes_derived_data_to_the_new_title() {
    let mut index = Index::build(vec![note("Old.md", "body")]);
    index.rename(&id("Old.md"), &id("New.md"));
    assert_eq!(index.resolve("New", None), Resolution::Note(id("New.md")));
    assert_eq!(index.resolve("Old", None), Resolution::Missing);
}

#[test]
fn tags_come_from_frontmatter_and_body_and_nest() {
    let index = Index::build(vec![
        note("A.md", "---\ntags: [rust]\n---\nAbout #project/brain.\n"),
        note("B.md", "More #project/planner work.\n"),
    ]);
    assert_eq!(
        index.tags(),
        vec![
            ("project".to_string(), 2),
            ("project/brain".to_string(), 1),
            ("project/planner".to_string(), 1),
            ("rust".to_string(), 1),
        ]
    );
}

#[test]
fn filtering_by_a_parent_tag_includes_its_children() {
    let index = Index::build(vec![
        note("A.md", "#project/brain"),
        note("B.md", "#project/planner"),
        note("C.md", "#rust"),
    ]);
    assert_eq!(index.notes_tagged("project"), vec![id("A.md"), id("B.md")]);
    assert_eq!(index.notes_tagged("#project/brain"), vec![id("A.md")]);
    assert!(index.notes_tagged("nothing").is_empty());
}

#[test]
fn embeds_are_tracked_so_orphaned_attachments_can_be_found() {
    let index = Index::build(vec![note(
        "A.md",
        "![[diagram.png]] and ![[notes.pdf|x]]",
    )]);
    let referenced = index.referenced_attachments();
    assert!(referenced.contains("diagram.png"));
    assert!(referenced.contains("notes.pdf"));
}

#[test]
fn an_empty_vault_answers_everything_without_panicking() {
    let index = Index::build(Vec::new());
    assert!(index.is_empty());
    assert_eq!(index.resolve("anything", None), Resolution::Missing);
    assert!(linking(&index, "nothing.md").is_empty());
    assert!(index.tags().is_empty());
}

#[test]
fn an_index_knows_its_notes() {
    let index = Index::build(vec![
        note("B.md", "# B\n\nThe **text** of it.\n"),
        note("A.md", "---\ntags: [Rust]\n---\n#rust and #other\n"),
    ]);
    assert_eq!(index.len(), 2);
    assert_eq!(index.ids(), vec![id("A.md"), id("B.md")]);
    assert!(index.contains(&id("A.md")));
    assert!(!index.contains(&id("C.md")));
    assert_eq!(index.excerpt(&id("B.md")), "The text of it.");
    assert_eq!(index.excerpt(&id("C.md")), "");
    assert_eq!(index.text(&id("B.md")), "B\n\nThe text of it.\n");
    assert_eq!(index.text(&id("C.md")), "");
    assert_eq!(index.tags_of(&id("A.md")), ["Rust", "other"]);
    assert!(index.tags_of(&id("C.md")).is_empty());
}

#[test]
fn an_index_of_nothing_is_empty() {
    assert!(Index::new().is_empty());
}

#[test]
fn a_tag_counts_the_notes_it_filters_to() {
    let index = Index::build(vec![
        note("A.md", "#a/b #a/c"),
        note("B.md", "#A"),
        note("C.md", "#ab"),
    ]);
    for (tag, count) in index.tags() {
        assert_eq!(index.notes_tagged(&tag).len(), count, "{tag}");
    }
}

#[test]
fn tags_are_listed_in_order_with_what_they_nest_in() {
    let index = Index::build(vec![
        note("A.md", "#Project/Brain/Core #zeta"),
        note("B.md", "#project"),
        note("C.md", "#alpha/one"),
    ]);
    let listed = index.tags();
    let names: Vec<&str> = listed.iter().map(|(tag, _)| tag.as_str()).collect();
    assert_eq!(
        names,
        ["alpha", "alpha/one", "project", "project/brain", "project/brain/core", "zeta"]
    );
    let counts: Vec<usize> = listed.iter().map(|(_, count)| *count).collect();
    assert_eq!(counts, [1, 1, 2, 1, 1, 1]);
    for (tag, count) in listed {
        assert_eq!(index.notes_tagged(&tag).len(), count);
    }
}

#[test]
fn the_line_around_an_offset_is_found() {
    let body = "one\ntwö [[x]]\nthree";
    assert_eq!(line_holding(body, 0), "one");
    assert_eq!(line_holding(body, 8), "twö [[x]]");
    assert_eq!(line_holding(body, 100), "three");
}

#[test]
fn a_title_comes_before_an_alias() {
    let index = Index::build(vec![
        note("Moves.md", ""),
        note("Rust ownership.md", "---\naliases: [Moves, Owning]\n---\n"),
        note("Leasing.md", "---\naliases: [owning]\n---\n"),
    ]);
    assert_eq!(
        index.resolve("moves", None),
        Resolution::Note(id("Moves.md"))
    );
    // Two aliases are ambiguous, but for a note that has one of them.
    assert!(matches!(
        index.resolve("Owning", None),
        Resolution::Ambiguous(ids) if ids == [id("Leasing.md"), id("Rust ownership.md")]
    ));
    assert_eq!(
        index.resolve("Owning", Some(&id("Leasing.md"))),
        Resolution::Note(id("Leasing.md"))
    );
    assert_eq!(
        index.aliases_of(&id("Rust ownership.md")),
        ["Moves", "Owning"]
    );
    assert!(index.aliases_of(&id("Moves.md")).is_empty());
}
