//! Planning what to push, pull, rename and delete.

use brain::note::NoteId;
use brain::ordered::TextMap;
use brain::sync;
use brain::sync::{conflict_id, plan, renames, Conflict, Plan, Snapshot};
use std::collections::BTreeSet;

fn id(path: &str) -> NoteId {
    NoteId::from_relative(path)
}

fn snapshot(notes: &[(&str, &str)]) -> Snapshot {
    let mut all = TextMap::new();
    for (path, text) in notes {
        all.insert(id(path), sync::Hash::of(text));
    }
    all
}

fn plan_of(base: &Snapshot, local: &Snapshot, remote: &Snapshot) -> Plan {
    plan(base, local, remote, "phone", "2026-08-04")
}

#[test]
fn a_quiet_vault_plans_nothing() {
    let both = snapshot(&[("A.md", "one"), ("B.md", "two")]);

    assert!(plan_of(&both, &both, &both).is_empty());
}

#[test]
fn a_first_pass_pushes_what_is_here_and_pulls_what_is_there() {
    let base = snapshot(&[]);
    let local = snapshot(&[("A.md", "mine")]);
    let remote = snapshot(&[("B.md", "theirs")]);

    let plan = plan_of(&base, &local, &remote);

    assert_eq!(plan.push, vec![id("A.md")]);
    assert_eq!(plan.pull, vec![id("B.md")]);
    assert!(plan.conflicts.is_empty());
}

#[test]
fn an_edit_on_one_side_only_moves_one_way() {
    let base = snapshot(&[("A.md", "before")]);
    let local = snapshot(&[("A.md", "after")]);

    let plan = plan_of(&base, &local, &base);
    assert_eq!(plan.push, vec![id("A.md")]);
    assert!(plan.pull.is_empty());

    // And the mirror image, which is the case that gets written backwards.
    let plan = plan_of(&base, &base, &local);
    assert_eq!(plan.pull, vec![id("A.md")]);
    assert!(plan.push.is_empty());
}

#[test]
fn a_deletion_on_one_side_only_is_carried_across() {
    let base = snapshot(&[("A.md", "text")]);
    let gone = snapshot(&[]);

    assert_eq!(plan_of(&base, &gone, &base).delete_remote, vec![id("A.md")]);
    assert_eq!(plan_of(&base, &base, &gone).delete_local, vec![id("A.md")]);
}

#[test]
fn both_sides_reaching_the_same_text_is_agreement_not_conflict() {
    let base = snapshot(&[("A.md", "before")]);
    let same = snapshot(&[("A.md", "after")]);

    assert!(plan_of(&base, &same, &same).is_empty());
}

#[test]
fn both_sides_deleting_is_agreement_too() {
    let base = snapshot(&[("A.md", "text")]);
    let gone = snapshot(&[]);

    assert!(plan_of(&base, &gone, &gone).is_empty());
}

#[test]
fn a_deletion_never_wins_over_an_edit() {
    let base = snapshot(&[("A.md", "before")]);
    let edited = snapshot(&[("A.md", "after")]);
    let gone = snapshot(&[]);

    // Deleted here, edited there: take it back.
    let plan = plan_of(&base, &gone, &edited);
    assert_eq!(plan.pull, vec![id("A.md")]);
    assert!(plan.delete_local.is_empty());
    assert!(plan.delete_remote.is_empty());

    // Edited here, deleted there: put it back.
    let plan = plan_of(&base, &edited, &gone);
    assert_eq!(plan.push, vec![id("A.md")]);
    assert!(plan.delete_local.is_empty());
    assert!(plan.delete_remote.is_empty());
}

#[test]
fn a_rename_elsewhere_is_applied_here_as_a_rename() {
    let base = snapshot(&[("Ownership.md", "the text")]);
    let renamed = snapshot(&[("Borrowing.md", "the text")]);

    let plan = plan_of(&base, &base, &renamed);

    // Not a delete and a download: the content is already right.
    assert_eq!(
        plan.rename_local,
        vec![(id("Ownership.md"), id("Borrowing.md"))]
    );
    assert!(plan.pull.is_empty());
    assert!(plan.delete_local.is_empty());
}

#[test]
fn a_rename_here_goes_up_under_its_new_name() {
    let base = snapshot(&[("Ownership.md", "the text")]);
    let renamed = snapshot(&[("Borrowing.md", "the text")]);

    let plan = plan_of(&base, &renamed, &base);

    assert_eq!(plan.push, vec![id("Borrowing.md")]);
    assert_eq!(plan.delete_remote, vec![id("Ownership.md")]);
    assert!(plan.conflicts.is_empty());
}

#[test]
fn a_rename_and_an_edit_compose_rather_than_fight() {
    // One machine renamed the note; another edited it under the old name.
    let base = snapshot(&[("Ownership.md", "before")]);
    let local = snapshot(&[("Ownership.md", "after")]);
    let remote = snapshot(&[("Borrowing.md", "before")]);

    let plan = plan_of(&base, &local, &remote);

    // The rename applies, and the edit is still pushed: both changes survive,
    // and neither is a conflict to ask about.
    assert_eq!(
        plan.rename_local,
        vec![(id("Ownership.md"), id("Borrowing.md"))]
    );
    assert!(
        plan.conflicts.is_empty(),
        "a rename beside an edit was treated as a conflict: {plan:?}"
    );
    assert!(
        plan.delete_local.is_empty(),
        "the edited note was going to be deleted: {plan:?}"
    );
}

#[test]
fn a_rename_to_the_same_name_on_both_sides_is_not_a_disagreement() {
    let base = snapshot(&[("Ownership.md", "the text")]);
    let renamed = snapshot(&[("Borrowing.md", "the text")]);

    let plan = plan_of(&base, &renamed, &renamed);

    assert!(plan.rename_local.is_empty());
    assert!(plan.conflicts.is_empty());
    assert!(plan.push.is_empty(), "{plan:?}");
}

#[test]
fn different_text_on_both_sides_becomes_a_note_beside_it() {
    let base = snapshot(&[("Ownership.md", "before")]);
    let local = snapshot(&[("Ownership.md", "what I typed")]);
    let remote = snapshot(&[("Ownership.md", "what they typed")]);

    let plan = plan_of(&base, &local, &remote);

    assert_eq!(
        plan.conflicts,
        vec![Conflict {
            id: id("Ownership.md"),
            copy: id("Ownership (conflict 2026-08-04 from phone).md"),
        }]
    );
    // The note being typed on stays exactly where it is.
    assert!(plan.pull.is_empty());
    assert!(plan.delete_local.is_empty());
}

#[test]
fn a_conflict_copy_stays_in_the_folder_its_note_is_in() {
    let copy = conflict_id(&id("Meetings/Standup.md"), "laptop", "2026-08-04");

    assert_eq!(
        copy.as_str(),
        "Meetings/Standup (conflict 2026-08-04 from laptop).md"
    );
}

#[test]
fn a_conflict_copy_cannot_answer_to_the_original_s_title() {
    let original = id("Ownership.md");
    let copy = conflict_id(&original, "phone", "2026-08-04");

    // Links resolve by title, so a copy sharing one would make every
    // `[[Ownership]]` ambiguous, which is a report, not a link.
    assert_ne!(copy.title(), original.title());
}

#[test]
fn a_conflicted_note_at_the_vault_root_gets_no_leading_slash() {
    assert_eq!(
        conflict_id(&id("A.md"), "phone", "2026-08-04").as_str(),
        "A (conflict 2026-08-04 from phone).md"
    );
}

#[test]
fn the_hash_notices_a_change_no_model_would() {
    // Over the file, not the stripped text: retagging a note changes nothing a
    // model reads and everything about what should sync.
    let before = sync::Hash::of("---\ntags: [rust]\n---\n\nbody");
    let after = sync::Hash::of("---\ntags: [rust, learning]\n---\n\nbody");

    assert_ne!(before, after);
}

#[test]
fn the_same_text_hashes_the_same_way_twice() {
    assert_eq!(sync::Hash::of("the same"), sync::Hash::of("the same"));
    assert_ne!(sync::Hash::of("the same"), sync::Hash::of("the sane"));
}

#[test]
fn two_notes_renamed_at_once_are_not_swapped_into_each_others_places() {
    // Identical text under two names cannot say which became which. What
    // matters is that both end up renamed and neither is lost.
    let base = snapshot(&[("A.md", "same"), ("B.md", "same")]);
    let remote = snapshot(&[("C.md", "same"), ("D.md", "same")]);

    let plan = plan_of(&base, &base, &remote);

    assert_eq!(plan.rename_local.len(), 2);
    assert!(plan.delete_local.is_empty(), "{plan:?}");
    let sources: BTreeSet<&NoteId> = plan.rename_local.iter().map(|(from, _)| from).collect();
    assert_eq!(sources.len(), 2, "one note was renamed twice: {plan:?}");
}

#[test]
fn the_hash_is_the_one_everybody_computes() {
    // FNV-1a, 64 bits: the offset basis for nothing at all, and two published
    // values.
    assert_eq!(sync::Hash::of("").0, 0xcbf2_9ce4_8422_2325);
    assert_eq!(sync::Hash::of("a").0, 0xaf63_dc4c_8601_ec8c);
    assert_eq!(sync::Hash::of("foobar").0, 0x8594_4171_f739_67e8);
}

#[test]
fn an_edit_survives_a_rename_made_here() {
    let base = snapshot(&[("Ownership.md", "before")]);
    let local = snapshot(&[("Borrowing.md", "before")]);
    let remote = snapshot(&[("Ownership.md", "after")]);

    let plan = plan_of(&base, &local, &remote);

    // The edit made elsewhere is not deleted along with the old name.
    assert!(plan.delete_remote.is_empty(), "{plan:?}");
    assert_eq!(plan.pull, vec![id("Ownership.md")]);
    assert_eq!(plan.push, vec![id("Borrowing.md")]);
}

#[test]
fn renames_are_told_from_deletions_by_what_the_notes_hold() {
    let base = snapshot(&[("A.md", "one"), ("B.md", "two")]);
    let now = snapshot(&[("C.md", "one"), ("D.md", "other")]);

    let found = renames(&base, &now);

    assert_eq!(found, vec![(id("A.md"), id("C.md"))]);
}

#[test]
fn a_plan_counts_everything_in_it() {
    let plan = Plan::default();
    assert!(plan.is_empty());
    assert_eq!(plan.len(), 0);

    let base = snapshot(&[("Gone.md", "text")]);
    let local = snapshot(&[("Gone.md", "text"), ("New.md", "new")]);
    let remote = snapshot(&[]);
    let plan = plan_of(&base, &local, &remote);
    assert!(!plan.is_empty());
    assert_eq!(plan.len(), 2);
}

#[test]
fn swapping_the_sides_swaps_the_plan() {
    let base = snapshot(&[("A.md", "before"), ("B.md", "text")]);
    let one = snapshot(&[("A.md", "after"), ("B.md", "text"), ("C.md", "new")]);
    let other = snapshot(&[("A.md", "before")]);

    let there = plan_of(&base, &one, &other);
    let back = plan_of(&base, &other, &one);

    assert_eq!(there.push, back.pull);
    assert_eq!(there.pull, back.push);
    assert_eq!(there.delete_local, back.delete_remote);
}

#[test]
fn every_id_has_one_action() {
    let base = snapshot(&[
        ("gone here.md", "1"),
        ("gone there.md", "2"),
        ("moved here.md", "3"),
        ("moved there.md", "4"),
        ("moved and edited.md", "5"),
        ("both.md", "6"),
        ("twice.md", "7"),
    ]);
    let local = snapshot(&[
        ("gone there.md", "2"),
        ("new here.md", "3"),
        ("moved there.md", "4 edited"),
        ("renamed.md", "5"),
        ("both.md", "6 here"),
        ("twice here.md", "7"),
        ("fresh here.md", "8"),
    ]);
    let remote = snapshot(&[
        ("gone here.md", "1"),
        ("moved here.md", "3"),
        ("new there.md", "4"),
        ("moved and edited.md", "5 edited"),
        ("both.md", "6 there"),
        ("twice there.md", "7"),
        ("fresh there.md", "9"),
    ]);
    let plan = plan_of(&base, &local, &remote);
    let mut touched: Vec<&NoteId> = Vec::new();
    touched.extend(&plan.push);
    touched.extend(&plan.pull);
    touched.extend(&plan.delete_local);
    touched.extend(&plan.delete_remote);
    touched.extend(plan.conflicts.iter().map(|conflict| &conflict.id));
    touched.extend(plan.rename_local.iter().flat_map(|(from, to)| [from, to]));
    let once: BTreeSet<&str> = touched.iter().map(|id| id.as_str()).collect();
    assert_eq!(once.len(), touched.len());
    assert_eq!(
        plan.rename_local,
        [(id("moved there.md"), id("new there.md"))]
    );
    assert_eq!(plan.delete_local, [id("gone there.md")]);
    assert_eq!(plan.delete_remote, [id("moved here.md"), id("gone here.md")]);
    assert!(plan.pull.contains(&id("moved and edited.md")));
    assert_eq!(plan.conflicts.len(), 1);
}
