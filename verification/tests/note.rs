//! Notes, their identities and their metadata blocks.

use brain::date::Date;
use brain::frontmatter::{split, Frontmatter};
use brain::note::{excerpt_of, Note, NoteId};
use chrono::{Datelike, NaiveDate};

fn id(path: &str) -> NoteId {
    NoteId::from_relative(path)
}

fn date(text: &str) -> Option<Date> {
    let day = NaiveDate::parse_from_str(text, "%Y-%m-%d").ok()?;
    Date::new(day.year(), day.month(), day.day())
}

#[test]
fn an_id_is_a_relative_path_with_forward_slashes() {
    assert_eq!(id("Meetings/standup.md").as_str(), "Meetings/standup.md");
    assert_eq!(id("Meetings/standup.md").title(), "standup");
    assert_eq!(id("Meetings/standup.md").folder(), Some("Meetings"));
    assert_eq!(id("note.md").folder(), None);
    assert_eq!(id("note.md").title(), "note");
}

#[test]
fn a_title_is_the_filename_and_nothing_else() {
    let note = Note::from_text(id("Rust ownership.md"), "# Something else\n");
    assert_eq!(note.title(), "Rust ownership");
}

#[test]
fn a_note_round_trips_byte_for_byte() {
    for source in [
        "# Title\n\nProse.\n",
        "---\ntags: [rust]\n---\n\n# Title\n",
        "",
        "no trailing newline",
        "---\ntags:\n  - rust\n---\nbody",
    ] {
        let note = Note::from_text(id("n.md"), source);
        assert_eq!(note.to_text(), source, "{source:?}");
    }
}

#[test]
fn tags_come_from_both_frontmatter_and_body() {
    let note = Note::from_text(
        id("n.md"),
        "---\ntags: [rust]\n---\nAbout #learning and #rust again.\n",
    );
    let found = vec!["learning".to_string(), "rust".to_string()];
    assert_eq!(note.tags(&found), ["rust", "learning"]);
}

#[test]
fn tags_are_deduplicated_case_insensitively() {
    let note = Note::from_text(id("n.md"), "---\ntags: [Rust]\n---\n#rust\n");
    assert_eq!(note.tags(&vec!["rust".to_string()]), ["Rust"]);
}

#[test]
fn an_excerpt_is_the_first_line_of_prose_without_markup() {
    let note = Note::from_text(
        id("n.md"),
        "---\ntags: [a]\n---\n\n# Ownership\n\nMoves are **destructive**.\n",
    );
    assert_eq!(
        note.excerpt("\nOwnership\n\nMoves are destructive.\n", 80),
        "Ownership"
    );

    let bodyless = Note::from_text(id("n.md"), "");
    assert_eq!(bodyless.excerpt("", 80), "");
}

#[test]
fn an_excerpt_skips_a_heading_that_only_repeats_the_title() {
    let note = Note::from_text(
        id("Rust ownership.md"),
        "# Rust ownership\n\nMoves are destructive.\n",
    );
    assert_eq!(
        note.excerpt("Rust ownership\n\nMoves are destructive.\n", 80),
        "Moves are destructive."
    );

    // A note that is only its own title still has to say something.
    let bare = Note::from_text(id("Rust ownership.md"), "# Rust ownership\n");
    assert_eq!(bare.excerpt("Rust ownership\n", 80), "");

    // A heading that is not the title is real content.
    let other = Note::from_text(id("Notes.md"), "# Ownership\n\nProse.\n");
    assert_eq!(other.excerpt("Ownership\n\nProse.\n", 80), "Ownership");
}

#[test]
fn a_long_excerpt_is_cut_on_a_character_boundary() {
    let note = Note::from_text(id("n.md"), "🎉🎉🎉🎉 and more");
    assert_eq!(note.excerpt("🎉🎉🎉🎉 and more", 4), "🎉🎉🎉🎉…");
    assert_eq!(excerpt_of("one two", "n", 3), "one…");
    assert_eq!(excerpt_of("one", "n", 3), "one");
}

#[test]
fn an_id_is_the_same_however_its_path_was_written() {
    assert_eq!(id("a//b/./c.md").as_str(), "a/b/c.md");
    assert_eq!(id("a/b/c.md/").as_str(), "a/b/c.md");
    assert_eq!(NoteId::from_relative(id("a//b.md").as_str()), id("a/b.md"));
    assert_eq!(id("a/b.md").to_path(), "a/b.md");
}

#[test]
fn a_stored_id_is_taken_as_it_is() {
    assert_eq!(NoteId::stored("a//b.md".to_string()).as_str(), "a//b.md");
}

#[test]
fn notes_are_the_same_only_if_their_blocks_are() {
    let one = Note::from_text(id("n.md"), "---\ntags: [a]\n---\nbody");
    let same = Note::from_text(id("n.md"), "---\ntags: [a]\n---\nbody");
    let spaced = Note::from_text(id("n.md"), "---\ntags:  [a]\n---\nbody");
    let other = Note::from_text(id("n.md"), "---\ntags: [a]\n---\nother");
    assert!(one.same(&same));
    assert!(!one.same(&spaced));
    assert!(!one.same(&other));
    assert!(!one.same(&Note::new(id("n.md"))));
}

#[test]
fn a_new_note_is_empty() {
    let note = Note::new(id("n.md"));
    assert_eq!(note.to_text(), "");
    assert!(note.aliases().is_empty());
}

#[test]
fn a_note_without_frontmatter_is_all_body() {
    let (frontmatter, body) = split("# Title\n\nProse.");
    assert!(frontmatter.is_none());
    assert_eq!(body, "# Title\n\nProse.");
}

#[test]
fn the_four_known_keys_are_read() {
    let source = "---\ntags: [rust, learning]\naliases: [Ownership]\n\
                  created: 2026-07-30\nupdated: 2026-07-31\n---\n# Title\n";
    let (frontmatter, body) = split(source);
    let frontmatter = frontmatter.expect("frontmatter");
    assert_eq!(frontmatter.tags, ["rust", "learning"]);
    assert_eq!(frontmatter.aliases, ["Ownership"]);
    assert_eq!(frontmatter.created, date("2026-07-30"));
    assert_eq!(frontmatter.updated, date("2026-07-31"));
    assert_eq!(body, "# Title\n");
}

#[test]
fn tags_are_read_in_every_form_people_write_them() {
    for source in [
        "---\ntags: [rust, learning]\n---\n",
        "---\ntags: rust, learning\n---\n",
        "---\ntags:\n  - rust\n  - learning\n---\n",
        "---\ntags: [\"rust\", 'learning']\n---\n",
    ] {
        let (frontmatter, _) = split(source);
        assert_eq!(
            frontmatter.expect("frontmatter").tags,
            ["rust", "learning"],
            "{source:?}"
        );
    }
}

#[test]
fn an_unterminated_block_is_not_frontmatter() {
    let source = "---\ntags: [rust]\n\nstill writing";
    let (frontmatter, body) = split(source);
    assert!(frontmatter.is_none());
    assert_eq!(body, source);
}

#[test]
fn a_rule_further_down_is_not_frontmatter() {
    let source = "Prose.\n\n---\n\nMore.";
    assert!(split(source).0.is_none());
}

#[test]
fn reading_and_writing_without_editing_changes_no_bytes() {
    for source in [
        "---\ntags: [rust]\n---\n# Title\n",
        "---\ntags:\n  - rust\n  - learning\naliases: [A]\n---\nbody\n",
        "---\ntags:   [ rust ,learning ]\n---\n",
        "---\ncreated: 2026-07-30\n---\n",
        "---   \ntags: [a]\n---   \n",
        "---\n\ntags: [a]\n\n---\n",
    ] {
        let (frontmatter, body) = split(source);
        let frontmatter = frontmatter.expect("frontmatter");
        let round_tripped = format!("{}{body}", frontmatter.render());
        assert_eq!(round_tripped, source, "round trip changed {source:?}");
    }
}

#[test]
fn unknown_keys_survive_a_save_untouched() {
    let source = "---\npublish: true\ncssclass: wide\ntags: [rust]\n\
                  banner: \"img.png\"\n---\nbody\n";
    let (frontmatter, body) = split(source);
    let mut frontmatter = frontmatter.expect("frontmatter");
    frontmatter.tags = vec!["rust".into(), "notes".into()];

    let written = format!("{}{body}", frontmatter.render());
    assert!(written.contains("publish: true"));
    assert!(written.contains("cssclass: wide"));
    assert!(written.contains("banner: \"img.png\""));
    assert!(written.contains("tags: [rust, notes]"));
}

#[test]
fn an_unparseable_known_value_is_left_exactly_as_written() {
    let source = "---\ncreated: last tuesday\n---\nbody\n";
    let (frontmatter, body) = split(source);
    let frontmatter = frontmatter.expect("frontmatter");
    assert_eq!(frontmatter.created, None);
    assert_eq!(format!("{}{body}", frontmatter.render()), source);
}

#[test]
fn only_the_edited_key_is_rewritten() {
    let source = "---\ntags:\n  - rust\naliases:   [ Ownership ]\n---\nbody\n";
    let (frontmatter, body) = split(source);
    let mut frontmatter = frontmatter.expect("frontmatter");
    frontmatter.tags.push("learning".into());

    let written = format!("{}{body}", frontmatter.render());
    assert!(written.contains("tags: [rust, learning]"), "{written:?}");
    // Untouched, so its odd spacing and inline form survive.
    assert!(written.contains("aliases:   [ Ownership ]"), "{written:?}");
}

#[test]
fn a_key_set_for_the_first_time_is_appended() {
    let source = "---\ntags: [rust]\n---\nbody\n";
    let (frontmatter, body) = split(source);
    let mut frontmatter = frontmatter.expect("frontmatter");
    frontmatter.updated = date("2026-07-31");

    assert_eq!(
        format!("{}{body}", frontmatter.render()),
        "---\ntags: [rust]\nupdated: 2026-07-31\n---\nbody\n"
    );
}

#[test]
fn clearing_the_last_value_removes_the_block_entirely() {
    let source = "---\ntags: [rust]\n---\nbody\n";
    let (frontmatter, _) = split(source);
    let mut frontmatter = frontmatter.expect("frontmatter");
    frontmatter.tags.clear();
    assert_eq!(frontmatter.render(), "");
}

#[test]
fn clearing_one_key_of_several_drops_just_that_line() {
    let source = "---\ntags: [rust]\naliases: [A]\n---\n";
    let (frontmatter, _) = split(source);
    let mut frontmatter = frontmatter.expect("frontmatter");
    frontmatter.aliases.clear();
    assert_eq!(frontmatter.render(), "---\ntags: [rust]\n---\n");
}

#[test]
fn frontmatter_holding_only_unknown_keys_is_not_empty() {
    let (frontmatter, _) = split("---\npublish: true\n---\nbody\n");
    let frontmatter = frontmatter.expect("frontmatter");
    assert!(!frontmatter.is_empty());
    assert_eq!(frontmatter.render(), "---\npublish: true\n---\n");
}

#[test]
fn tags_with_spaces_keep_their_quotes_stripped_but_their_words() {
    let (frontmatter, _) = split("---\ntags: [\"deep work\", rust]\n---\n");
    assert_eq!(
        frontmatter.expect("frontmatter").tags,
        ["deep work", "rust"]
    );
}

#[test]
fn an_empty_block_yields_empty_values() {
    let (frontmatter, body) = split("---\n---\nbody\n");
    let frontmatter = frontmatter.expect("frontmatter");
    assert!(frontmatter.tags.is_empty());
    assert!(frontmatter.is_empty());
    assert_eq!(body, "body\n");
}

#[test]
fn splitting_never_panics_on_partial_input() {
    // Every prefix of a note gets typed at some point.
    let source = "---\ntags: [rust]\ncreated: 2026-07-30\n---\n# Title\n";
    for length in 0..=source.len() {
        let prefix = &source[..length];
        let (frontmatter, body) = split(prefix);
        if let Some(frontmatter) = frontmatter {
            assert_eq!(format!("{}{body}", frontmatter.render()), prefix);
        }
    }
}

#[test]
fn a_block_made_from_nothing_is_written_whole() {
    let mut frontmatter = Frontmatter::default();
    assert_eq!(frontmatter.render(), "");
    frontmatter.tags = vec!["rust".to_string()];
    frontmatter.created = date("2024-02-29");
    assert_eq!(
        frontmatter.render(),
        "---\ntags: [rust]\ncreated: 2024-02-29\n---\n"
    );
}

#[test]
fn a_date_in_another_shape_leaves_the_value_unset_and_its_line_alone() {
    for source in [
        "---\ncreated: 2026-7-3\n---\nbody\n",
        "---\ncreated: +2026-07-03\nupdated: 2026-07- 3\n---\nbody\n",
    ] {
        let (frontmatter, body) = split(source);
        let mut frontmatter = frontmatter.expect("frontmatter");
        assert_eq!(frontmatter.created, None);
        assert_eq!(frontmatter.updated, None);
        frontmatter.tags.push("rust".into());
        let written = format!("{}{body}", frontmatter.render());
        assert!(written.contains(source.lines().nth(1).expect("a line")));
    }
}

#[test]
fn a_day_that_is_not_in_the_calendar_is_no_date() {
    assert!(Date::new(2023, 2, 29).is_none());
    assert!(Date::new(2024, 2, 29).is_some());
    assert!(Date::new(1900, 2, 29).is_none());
    assert!(Date::new(2000, 2, 29).is_some());
    assert!(Date::new(2026, 13, 1).is_none());
    assert!(Date::new(2026, 4, 31).is_none());
    assert!(Date::new(2026, 4, 0).is_none());
}

#[test]
fn a_date_is_written_as_it_is_read() {
    let day = Date::parse("2026-07-30").expect("a date");
    assert_eq!(day.text(), "2026-07-30");
    assert_eq!(Date::new(2026, 7, 30), Some(day));
    assert_eq!(Date::new(33, 1, 2).expect("a date").text(), "0033-01-02");
    assert_eq!(Date::new(12345, 1, 2).expect("a date").text(), "+12345-01-02");
    assert_eq!(Date::new(-1, 1, 2).expect("a date").text(), "-0001-01-02");
    assert_eq!(Date::parse("0033-01-02"), Date::new(33, 1, 2));
    for text in [
        "30/07/2026",
        "2026-7-30",
        "2026-07-3",
        "+2026-07-30",
        "2026-02-30",
        "2026-13-01",
        "2026-00-10",
        " 2026-07-30",
        "2026-07-300",
        "",
    ] {
        assert_eq!(Date::parse(text), None, "{text}");
    }
}

#[test]
fn a_block_with_nothing_in_it_is_written_back_as_it_was() {
    for source in [
        "---\n---\nbody\n",
        "---\n\n  \n---  \nbody",
        "---\n---",
        "---\ntags:\n---\n",
    ] {
        let note = Note::from_text(NoteId::from_relative("A.md"), source);
        assert_eq!(note.to_text(), source);
    }
    // One that was emptied is not.
    let mut note = Note::from_text(NoteId::from_relative("A.md"), "---\ntags: [a]\n---\nbody");
    note.frontmatter.as_mut().expect("frontmatter").tags.clear();
    assert_eq!(note.to_text(), "body");
}

#[test]
fn a_tag_is_listed_once_wherever_it_is_repeated() {
    let note = Note::from_text(id("A.md"), "---\ntags: [rust, Rust, deep]\n---\n");
    let found = ["DEEP", "new", "rust", "New"].map(str::to_string);
    assert_eq!(note.tags(&found.to_vec()), ["rust", "deep", "new"]);
}
