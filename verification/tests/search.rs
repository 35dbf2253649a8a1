//! Searching: by title, by text, by counts, by vectors, and by both.

use brain::bm25::{is_stopword, stopwords, tokenize, Bm25};
use brain::index::Index;
use brain::markdown::{Link, Scan};
use brain::note::{Note, NoteId};
use brain::ordered::TextMap;
use brain::ranked::{rank, shortlist, Scored};
use brain::search::{
    by_name, by_text, by_title, depth, finish, fuse, highlight_of, Hit, TitleMatch, SNIPPETS_PER_NOTE,
};
use brain::semantic::{
    catch_up, chunks, default_store_path, digest_of, first_vector, plan, wanted, Digest,
    EmbedError, Embedder, Moved, Plan, Store, Wanted, CHUNK_CHARS, MAX_CHUNKS,
};
use brain::server::Chunks;
use std::cell::RefCell;

/// A scan of a body, good enough for the notes below: `[[links]]`,
/// `![[embeds]]`, `#tags`, `**bold**` and headings.
fn scanned(body: &str) -> Scan {
    let mut links = Vec::new();
    let mut embeds = Vec::new();
    let mut tags = Vec::new();
    let mut lines = Vec::new();
    for line in body.split('\n') {
        let unmarked = line.trim_start_matches('#');
        let mut rest = if unmarked.len() < line.len() && unmarked.starts_with(' ') {
            unmarked.trim_start()
        } else {
            line
        };
        let mut out = String::new();
        let mut targets: Vec<String> = Vec::new();
        while let Some(c) = rest.chars().next() {
            if rest.starts_with("![[") && rest.contains("]]") {
                let end = rest.find("]]").expect("an end");
                embeds.push(rest[3..end].split('|').next().unwrap_or("").to_string());
                rest = &rest[end + 2..];
                continue;
            }
            if rest.starts_with("[[") && rest.contains("]]") {
                let end = rest.find("]]").expect("an end");
                let target = rest[2..end].split('|').next().unwrap_or("").to_string();
                out.push_str(rest[2..end].split('|').last().unwrap_or(""));
                targets.push(target);
                rest = &rest[end + 2..];
                continue;
            }
            if rest.starts_with("**") {
                rest = &rest[2..];
                continue;
            }
            if c == '#' && (out.is_empty() || out.ends_with(' ')) {
                let tag: String = rest[1..]
                    .chars()
                    .take_while(|c| c.is_alphanumeric() || "_-/".contains(*c))
                    .collect();
                if !tag.is_empty() {
                    tags.push(tag);
                }
            }
            out.push(c);
            rest = &rest[c.len_utf8()..];
        }
        for target in targets {
            links.push(Link {
                target,
                start: 0,
                end: 0,
                line: out.clone(),
            });
        }
        lines.push(out);
    }
    Scan {
        links,
        embeds,
        tags,
        text: lines.join("\n"),
    }
}

fn index(notes: &[(&str, &str)]) -> Index {
    Index::build(
        notes
            .iter()
            .map(|(path, text)| {
                let note = Note::from_text(NoteId::from_relative(path), text);
                let scan = scanned(&note.body);
                (note, scan)
            })
            .collect(),
    )
}

fn id(path: &str) -> NoteId {
    NoteId::from_relative(path)
}

fn titles(matches: &[TitleMatch]) -> Vec<&str> {
    matches.iter().map(|m| m.id.title()).collect()
}

/// A whole number that orders as the float does.
fn key(value: f32) -> u32 {
    let bits = value.to_bits();
    if bits >> 31 == 1 {
        !bits
    } else {
        bits | 0x8000_0000
    }
}

/// The float that a key stands for.
fn unkey(key: u32) -> f32 {
    if key >> 31 == 1 {
        f32::from_bits(key & 0x7fff_ffff)
    } else {
        f32::from_bits(!key)
    }
}

const K1: f32 = 1.2;
const B: f32 = 0.75;
const NOISE: f32 = 0.1;
const RRF_K: f32 = 60.0;
const SEMANTIC_FLOOR: f32 = 0.55;

fn scored(bm25: &Bm25, query: &str, limit: usize) -> Vec<Scored> {
    let total = bm25.len() as f32;
    let average = if bm25.is_empty() {
        0.0
    } else {
        bm25.lengths().iter().map(|n| *n as f32).sum::<f32>() / total
    };
    let mut all = Vec::new();
    let mut best = 0.0f32;
    for found in bm25.search(query) {
        let mut score = 0.0f32;
        for term in &found.matches {
            let containing = term.containing as f32;
            let idf = ((total - containing + 0.5) / (containing + 0.5) + 1.0).ln();
            let frequency = term.count as f32;
            let normalised = 1.0 - B + B * (found.length as f32 / average.max(1.0));
            score += idf * (frequency * (K1 + 1.0)) / (frequency + K1 * normalised);
        }
        if score > 0.0 {
            best = best.max(score);
            all.push(Scored {
                id: found.id,
                score: key(score),
            });
        }
    }
    shortlist(all, key(best * NOISE), limit)
}

fn ranked(bm25: &Bm25, query: &str) -> Vec<String> {
    scored(bm25, query, 10)
        .iter()
        .map(|one| one.id.title().to_string())
        .collect()
}

fn normalise(vector: &[f32]) -> Vec<f32> {
    let length = vector.iter().map(|v| v * v).sum::<f32>().sqrt();
    if length == 0.0 || !length.is_finite() {
        return vector.to_vec();
    }
    vector.iter().map(|v| v / length).collect()
}

fn dot(a: &[f32], b: &[u32]) -> f32 {
    if a.len() != b.len() {
        return f32::NEG_INFINITY;
    }
    a.iter().zip(b).map(|(x, y)| x * f32::from_bits(*y)).sum()
}

fn unit_bits(vectors: &[Vec<f32>]) -> Chunks {
    vectors
        .iter()
        .map(|vector| normalise(vector).iter().map(|v| v.to_bits()).collect())
        .collect()
}

fn nearest(store: &Store, query: &[f32], floor: f32, limit: usize) -> Vec<(NoteId, f32)> {
    let query = normalise(query);
    let mut similar = TextMap::new();
    for note in store.ids() {
        let embedded = store.get(&note).expect("a note the store lists");
        let keys = embedded
            .chunks
            .iter()
            .map(|chunk| key(dot(&query, chunk)))
            .collect();
        similar.insert(note, keys);
    }
    store
        .nearest(&similar, key(floor), limit)
        .into_iter()
        .map(|one| (one.id, unkey(one.score)))
        .collect()
}

fn hybrid(
    index: &Index,
    lexical: &Bm25,
    semantic: Option<(&Store, &[f32])>,
    query: &str,
    limit: usize,
) -> Vec<Hit> {
    let keyword = scored(lexical, query, depth(limit));
    let vectors: Vec<Scored> = match semantic {
        Some((store, vector)) => nearest(store, vector, SEMANTIC_FLOOR, depth(limit))
            .into_iter()
            .map(|(id, score)| Scored {
                id,
                score: key(score),
            })
            .collect(),
        None => Vec::new(),
    };
    let mut hits = fuse(&keyword, &vectors);
    for hit in &mut hits {
        let mut score = 0.0f32;
        for rank in [hit.lexical, hit.semantic].into_iter().flatten() {
            score += 1.0 / (RRF_K + rank as f32 + 1.0);
        }
        hit.score = key(score);
    }
    finish(index, hits, query, limit)
}

// ---- titles ----

#[test]
fn an_exact_title_ranks_first() {
    let index = index(&[
        ("Rust ownership notes.md", ""),
        ("Rust.md", ""),
        ("Trusted sources.md", ""),
    ]);
    assert_eq!(titles(&by_title(&index, "rust", 10))[0], "Rust");
}

#[test]
fn initials_find_a_multi_word_title() {
    let index = index(&[("Rust ownership.md", ""), ("Random other stuff.md", "")]);
    assert_eq!(titles(&by_title(&index, "ro", 10))[0], "Rust ownership");
}

#[test]
fn a_subsequence_matches_but_out_of_order_does_not() {
    let index = index(&[("Rust ownership.md", "")]);
    assert_eq!(by_title(&index, "rsown", 10).len(), 1);
    assert!(by_title(&index, "ownrust", 10).is_empty());
    assert!(by_title(&index, "zzz", 10).is_empty());
}

#[test]
fn a_path_matches_when_the_title_alone_does_not() {
    let index = index(&[("Meetings/Standup.md", "")]);
    assert_eq!(by_title(&index, "meet/stand", 10).len(), 1);
}

#[test]
fn matched_positions_come_back_for_highlighting() {
    let index = index(&[("Rust.md", "")]);
    let matched = by_title(&index, "rt", 10);
    assert_eq!(matched[0].positions, vec![0, 3]);
}

#[test]
fn an_empty_query_lists_everything_in_a_stable_order() {
    let index = index(&[("B.md", ""), ("A.md", "")]);
    assert_eq!(titles(&by_title(&index, "", 10)), ["A", "B"]);
}

#[test]
fn results_are_limited_and_the_order_never_reshuffles() {
    let index = index(&[("A one.md", ""), ("A two.md", ""), ("A three.md", "")]);
    let first = by_title(&index, "a", 2);
    assert_eq!(first.len(), 2);
    assert_eq!(first, by_title(&index, "a", 2));
}

// ---- texts ----

#[test]
fn full_text_search_returns_the_lines_it_matched() {
    let index = index(&[(
        "Rust.md",
        "# Rust\n\nMoves are destructive.\n\nBorrowing is not.\n",
    )]);
    let matched = by_text(&index, "destructive", 10);
    assert_eq!(matched.len(), 1);
    assert_eq!(matched[0].hits, 1);
    assert_eq!(matched[0].snippets[0].text, "Moves are destructive.");
    let snippet = &matched[0].snippets[0];
    assert_eq!(&snippet.text[snippet.start..snippet.end], "destructive");
}

#[test]
fn full_text_search_ignores_case_and_counts_every_hit() {
    let index = index(&[("A.md", "Rust and rust and RUST.\nrust again.\n")]);
    assert_eq!(by_text(&index, "rust", 10)[0].hits, 4);
}

#[test]
fn full_text_search_matches_fragments_not_only_words() {
    let index = index(&[("A.md", "see example.com/some_path for more")]);
    assert_eq!(by_text(&index, "some_pa", 10).len(), 1);
}

#[test]
fn full_text_search_reads_the_stripped_body_not_the_markup() {
    let index = index(&[("A.md", "Moves are **destructive** here.")]);
    assert_eq!(by_text(&index, "are destructive", 10).len(), 1);
}

#[test]
fn a_note_named_after_the_query_outranks_one_merely_mentioning_it() {
    let index = index(&[
        ("Mentions.md", "ownership ownership ownership ownership"),
        ("Ownership.md", "a single mention of ownership"),
    ]);
    assert_eq!(by_text(&index, "ownership", 10)[0].id.title(), "Ownership");
}

#[test]
fn snippets_are_capped_so_results_do_not_become_a_document() {
    let body = "needle\n".repeat(20);
    let index = index(&[("A.md", &body)]);
    let matched = by_text(&index, "needle", 10);
    assert_eq!(matched[0].hits, 20);
    assert_eq!(matched[0].snippets.len(), SNIPPETS_PER_NOTE);
}

#[test]
fn an_empty_query_finds_no_text() {
    let index = index(&[("A.md", "anything")]);
    assert!(by_text(&index, "", 10).is_empty());
    assert!(by_text(&index, "   ", 10).is_empty());
}

#[test]
fn searching_is_multibyte_safe() {
    let index = index(&[("Café.md", "Héllo wörld 🎉 and café")]);
    assert_eq!(by_title(&index, "café", 10).len(), 1);
    let matched = by_text(&index, "wörld", 10);
    let snippet = &matched[0].snippets[0];
    assert_eq!(
        snippet
            .text
            .chars()
            .skip(snippet.start)
            .take(snippet.end - snippet.start)
            .collect::<String>(),
        "wörld"
    );
}

#[test]
fn a_range_is_in_the_characters_that_are_shown() {
    let one = index(&[("A.md", "\u{130}x")]);
    let found = by_text(&one, "x", 10);
    assert_eq!(found.len(), 1);
    assert_eq!(found[0].id, id("A.md"));
    assert_eq!(found[0].hits, 1);
    assert_eq!(found[0].snippets.len(), 1);
    let snippet = &found[0].snippets[0];
    assert_eq!(snippet.text, "\u{130}x");
    assert_eq!((snippet.start, snippet.end), (1, 2));
    let indented = index(&[("A.md", "  \u{130} Rust, rust ")]);
    let found = by_text(&indented, " RUST ", 10);
    let ranges: Vec<(usize, usize)> = found[0]
        .snippets
        .iter()
        .map(|snippet| (snippet.start, snippet.end))
        .collect();
    assert_eq!(found[0].snippets[0].text, "\u{130} Rust, rust");
    assert_eq!(ranges, [(2, 6), (8, 12)]);
}

#[test]
fn asking_for_fewer_gives_the_first_of_more() {
    let index = index(&[
        ("rust.md", "rust"),
        ("b.md", "rust rust rust rust"),
        ("c.md", "rust"),
        ("a.md", "rust rust"),
        ("none.md", "milk"),
    ]);
    let all = by_text(&index, "rust", 10);
    let order: Vec<&str> = all.iter().map(|found| found.id.as_str()).collect();
    assert_eq!(order, ["rust.md", "b.md", "a.md", "c.md"]);
    assert_eq!(all[1].hits, 4);
    assert_eq!(all[1].snippets.len(), SNIPPETS_PER_NOTE);
    assert_eq!(all[2].snippets.len(), 2);
    for limit in 0..5 {
        assert_eq!(by_text(&index, "rust", limit), all[..limit.min(4)]);
        assert_eq!(by_text(&index, " RuSt ", limit), all[..limit.min(4)]);
    }
    let titles = by_title(&index, "", 10);
    assert_eq!(titles.len(), 5);
    assert!(titles.iter().all(|found| found.score == 0));
    for limit in 0..6 {
        assert_eq!(by_title(&index, "", limit), titles[..limit.min(5)]);
    }
}

#[test]
fn a_title_is_found_exactly_when_the_path_holds_the_query_in_order() {
    let index = index(&[("Work/Rust ownership.md", ""), ("Milk.md", "")]);
    let found = by_title(&index, " RSOWN ", 10);
    assert_eq!(titles(&found), ["Rust ownership"]);
    assert_eq!(found[0].positions, [0, 2, 5, 6, 7]);
    let by_path = by_title(&index, "workrust", 10);
    assert_eq!(titles(&by_path), ["Rust ownership"]);
    assert!(by_path[0].positions.is_empty());
    assert!(by_title(&index, "nwo rust", 10).is_empty());
}

// ---- counts ----

#[test]
fn tokenizing_splits_on_anything_that_is_not_a_letter_or_digit() {
    assert_eq!(
        tokenize("Rust's ownership — moves, borrows (2024)."),
        ["rust", "s", "ownership", "moves", "borrows", "2024"]
    );
    assert_eq!(tokenize("café Übung"), ["café", "übung"]);
    assert!(tokenize("   ---   ").is_empty());
}

#[test]
fn a_note_that_says_it_more_often_ranks_higher() {
    let bm25 = Bm25::build(&index(&[
        ("Once.md", "ownership is mentioned once here"),
        ("Often.md", "ownership ownership ownership ownership"),
    ]));
    assert_eq!(ranked(&bm25, "ownership"), ["Often", "Once"]);
}

#[test]
fn a_long_note_does_not_win_for_being_long() {
    let padding = "unrelated words about other subjects ".repeat(100);
    let bm25 = Bm25::build(&index(&[
        ("Padded.md", &format!("ownership {padding}")),
        ("Focused.md", "ownership"),
    ]));
    assert_eq!(ranked(&bm25, "ownership"), ["Focused", "Padded"]);
}

#[test]
fn a_word_in_every_note_counts_for_much_less_than_a_rare_one() {
    let bm25 = Bm25::build(&index(&[
        ("A.md", "rust ownership rules"),
        ("B.md", "rust borrow checker"),
        ("C.md", "rust lifetime elision"),
    ]));
    let common = scored(&bm25, "rust", 10);
    let rare = scored(&bm25, "elision", 10);
    assert_eq!(common.len(), 3, "it is in every note");
    assert!(
        unkey(rare[0].score) > unkey(common[0].score) * 2.0,
        "a rare term should be worth far more: {rare:?} vs {common:?}"
    );
}

#[test]
fn a_query_of_nothing_but_function_words_asks_for_nothing() {
    let bm25 = Bm25::build(&index(&[("A.md", "the ownership rules of the compiler")]));
    assert!(bm25.search("what is it about").is_empty());
}

#[test]
fn a_note_named_after_the_query_beats_one_that_merely_mentions_it() {
    let bm25 = Bm25::build(&index(&[
        ("Mentions.md", "ownership comes up here in passing"),
        ("Ownership.md", "the subject of this note"),
    ]));
    assert_eq!(ranked(&bm25, "ownership")[0], "Ownership");
}

#[test]
fn a_folder_name_is_part_of_what_a_note_is_about() {
    let bm25 = Bm25::build(&index(&[
        ("Meetings/Tuesday.md", "we talked about the roadmap"),
        ("Other.md", "nothing to do with it"),
    ]));
    assert_eq!(ranked(&bm25, "meetings"), ["Tuesday"]);
}

#[test]
fn several_query_terms_add_up() {
    let bm25 = Bm25::build(&index(&[
        ("Both.md", "ownership and borrowing together"),
        ("One.md", "ownership alone"),
    ]));
    assert_eq!(ranked(&bm25, "ownership borrowing"), ["Both", "One"]);
}

#[test]
fn a_query_made_only_of_common_words_finds_nothing() {
    let bm25 = Bm25::build(&index(&[
        ("A.md", "the ownership rules of the compiler"),
        ("B.md", "the borrow checker and the rules"),
        ("C.md", "the lifetime of a reference"),
        ("D.md", "the standard library of the language"),
    ]));
    assert!(ranked(&bm25, "the tax treatment of a holiday").is_empty());
    // But a real word still finds its note.
    assert_eq!(ranked(&bm25, "borrow"), ["B"]);
}

#[test]
fn a_match_an_order_of_magnitude_below_the_best_is_dropped() {
    let bm25 = Bm25::build(&index(&[
        (
            "Sourdough.md",
            "the dough is dense and flat so shape it cold",
        ),
        ("Gpus.md", "the card is full so the model comes down"),
        ("Rust.md", "ownership and borrowing"),
        ("Standup.md", "we agreed to hold the release"),
    ]));
    assert_eq!(
        ranked(&bm25, "why is my bread so flat and dense"),
        ["Sourdough"]
    );
}

#[test]
fn a_vault_too_small_to_judge_still_matches_its_own_words() {
    let bm25 = Bm25::build(&index(&[("A.md", "the ownership"), ("B.md", "the borrow")]));
    assert_eq!(ranked(&bm25, "the ownership"), ["A"]);
}

#[test]
fn a_function_word_is_not_evidence_however_rare_it_looks() {
    let bm25 = Bm25::build(&index(&[
        ("Sourdough.md", "bake it in a covered pot"),
        ("Rust.md", "ownership rules"),
        ("Gpus.md", "the card is full"),
        ("Standup.md", "hold the release"),
    ]));
    assert!(ranked(&bm25, "the tax treatment of a holiday let in Cornwall").is_empty());
    assert_eq!(ranked(&bm25, "covered pot"), ["Sourdough"]);
}

#[test]
fn the_word_list_is_sorted_so_it_can_be_searched() {
    let mut sorted = stopwords();
    sorted.sort_unstable();
    assert_eq!(stopwords(), sorted);
    assert!(is_stopword("the") && is_stopword("your") && !is_stopword("ownership"));
    assert!(stopwords().iter().all(|word| is_stopword(word)));
}

#[test]
fn a_note_containing_none_of_the_words_does_not_appear() {
    let bm25 = Bm25::build(&index(&[("A.md", "ownership"), ("B.md", "unrelated")]));
    assert_eq!(ranked(&bm25, "ownership"), ["A"]);
    assert!(bm25.search("nothing here matches").is_empty());
    assert!(bm25.search("").is_empty());
}

#[test]
fn an_empty_vault_ranks_nothing_and_does_not_divide_by_zero() {
    let bm25 = Bm25::build(&index(&[]));
    assert!(bm25.is_empty());
    assert!(bm25.search("anything").is_empty());
}

#[test]
fn ties_are_broken_by_id_so_results_never_reshuffle() {
    let bm25 = Bm25::build(&index(&[("B.md", "same words"), ("A.md", "same words")]));
    assert_eq!(ranked(&bm25, "same words"), ["A", "B"]);
    assert_eq!(scored(&bm25, "same", 10), scored(&bm25, "same", 10));
}

#[test]
fn markup_is_not_searchable_but_the_words_inside_it_are() {
    let bm25 = Bm25::build(&index(&[("A.md", "Moves are **destructive** here.")]));
    assert_eq!(ranked(&bm25, "destructive"), ["A"]);
}

#[test]
fn the_evidence_says_how_often_and_where() {
    let bm25 = Bm25::build(&index(&[
        ("Rust.md", "rust and rust"),
        ("Other.md", "no mention"),
    ]));
    assert_eq!(bm25.len(), 2);
    let found = bm25.search("Rust");
    assert_eq!(found.len(), 1);
    assert_eq!(found[0].id, id("Rust.md"));
    // Twice in the body, and a name counts for four.
    assert_eq!(found[0].matches[0].count, 6);
    assert_eq!(found[0].matches[0].containing, 1);
    // Three words of body, and the two words of the path four times each.
    assert_eq!(found[0].length, 11);
}

// ---- both halves ----

/// A store where each note is given a vector directly.
fn vectors(notes: &[(&str, [f32; 2])]) -> Store {
    let mut store = Store::new("test-model");
    for (path, vector) in notes {
        store.insert(
            &id(path),
            Digest::of(path),
            unit_bits(&[vector.to_vec()]),
        );
    }
    store
}

fn ids(hits: &[Hit]) -> Vec<&str> {
    hits.iter().map(|hit| hit.id.title()).collect()
}

#[test]
fn with_no_model_hybrid_search_is_bm25_and_still_works() {
    let index = index(&[
        ("Ownership.md", "moves are destructive"),
        ("Other.md", "nothing relevant"),
    ]);
    let lexical = Bm25::build(&index);
    let hits = hybrid(&index, &lexical, None, "destructive", 5);
    assert_eq!(ids(&hits), ["Ownership"]);
    assert_eq!(hits[0].lexical, Some(0));
    assert_eq!(hits[0].semantic, None);
}

#[test]
fn without_vectors_the_order_is_the_lexical_one() {
    let index = index(&[
        ("A.md", "server rust"),
        ("B.md", "rust rust rust"),
        ("C.md", "rust rust server server"),
        ("D.md", "milk"),
        ("E.md", "milk"),
        ("F.md", "milk"),
        ("G.md", "milk"),
    ]);
    let lexical = Bm25::build(&index);
    for limit in 1..5 {
        let found = scored(&lexical, "rust server", limit);
        let hits = hybrid(&index, &lexical, None, "rust server", limit);
        let wanted: Vec<&NoteId> = found.iter().map(|scored| &scored.id).collect();
        let got: Vec<&NoteId> = hits.iter().map(|hit| &hit.id).collect();
        assert_eq!(got, wanted);
        assert!(!got.is_empty());
        for (rank, hit) in hits.iter().enumerate() {
            assert_eq!(hit.lexical, Some(rank));
            assert_eq!(hit.semantic, None);
            assert_eq!(hit.similarity, None);
        }
    }
}

#[test]
fn the_evidence_is_of_different_notes_in_order() {
    let index = index(&[
        ("rust/A.md", "the server"),
        ("B.md", "rust"),
        ("C.md", "the milk"),
        ("D.md", "milk"),
        ("E.md", "milk"),
    ]);
    let lexical = Bm25::build(&index);
    let evidence = lexical.search("the rust server");
    let found: Vec<&str> = evidence.iter().map(|found| found.id.as_str()).collect();
    assert_eq!(found, ["B.md", "rust/A.md"]);
    let all = scored(&lexical, "the rust server", 10);
    for limit in 0..3 {
        assert_eq!(scored(&lexical, "the rust server", limit), all[..limit.min(2)]);
    }
}

#[test]
fn a_paraphrase_is_found_when_the_words_never_appear() {
    let index = index(&[
        ("Ownership.md", "moves are destructive"),
        ("Shopping.md", "milk, bread, eggs"),
    ]);
    let lexical = Bm25::build(&index);
    let store = vectors(&[("Ownership.md", [1.0, 0.0]), ("Shopping.md", [0.0, 1.0])]);

    let query = [1.0, 0.0];
    assert!(
        lexical.search("copy semantics").is_empty(),
        "the lexical half must genuinely miss this"
    );
    let hits = hybrid(
        &index,
        &lexical,
        Some((&store, &query)),
        "copy semantics",
        5,
    );
    assert_eq!(ids(&hits), ["Ownership"]);
    assert_eq!(hits[0].semantic, Some(0));
    assert_eq!(hits[0].lexical, None);
}

#[test]
fn a_note_both_halves_like_outranks_one_only_half_of_them_does() {
    let index = index(&[
        ("Agreed.md", "ownership and borrowing"),
        ("Lexical.md", "ownership in passing"),
        ("Semantic.md", "an unrelated wording entirely"),
    ]);
    let lexical = Bm25::build(&index);
    let store = vectors(&[
        ("Agreed.md", [1.0, 0.0]),
        ("Lexical.md", [0.0, 1.0]),
        ("Semantic.md", [0.9, 0.1]),
    ]);

    let hits = hybrid(
        &index,
        &lexical,
        Some((&store, &[1.0, 0.0])),
        "ownership",
        5,
    );
    assert_eq!(ids(&hits)[0], "Agreed");
    assert!(hits[0].lexical.is_some() && hits[0].semantic.is_some());
    // And a note only one half named still appears: fusion adds, it does not
    // intersect.
    assert!(ids(&hits).contains(&"Semantic"));
}

#[test]
fn a_query_about_nothing_in_the_vault_returns_nothing() {
    let index = index(&[("A.md", "rust ownership"), ("B.md", "borrow checker")]);
    let lexical = Bm25::build(&index);
    let store = vectors(&[("A.md", [1.0, 0.0]), ("B.md", [1.0, 0.0])]);

    let hits = hybrid(
        &index,
        &lexical,
        Some((&store, &[0.0, 1.0])),
        "sourdough starter hydration",
        5,
    );
    assert!(hits.is_empty(), "{hits:?}");
}

#[test]
fn a_hit_carries_a_line_worth_reading_however_it_was_found() {
    let index = index(&[(
        "Ownership.md",
        "# Ownership\n\nMoves are destructive.\n\nBorrows are not.\n",
    )]);
    let lexical = Bm25::build(&index);

    // Lexical: the line the words are on.
    let found = hybrid(&index, &lexical, None, "destructive", 5);
    assert_eq!(found[0].snippet, "Moves are destructive.");

    // Semantic only: no line contains the query, so the excerpt stands in
    // rather than the best hit showing an empty row.
    let store = vectors(&[("Ownership.md", [1.0, 0.0])]);
    let paraphrased = hybrid(
        &index,
        &lexical,
        Some((&store, &[1.0, 0.0])),
        "copy semantics",
        5,
    );
    assert_eq!(paraphrased[0].snippet, index.excerpt(&paraphrased[0].id));
    assert!(!paraphrased[0].snippet.is_empty());
}

#[test]
fn a_highlight_covers_the_phrase_when_it_is_there_and_a_word_when_it_is_not() {
    assert_eq!(
        highlight_of("one mutable borrow", "mutable borrow"),
        Some((4, 18))
    );
    // Only one of the words is on the line: underline the longest, which is
    // the one carrying the meaning.
    assert_eq!(
        highlight_of("one mutable thing", "mutable borrow"),
        Some((4, 11))
    );
    // Nothing to underline: a hit the vectors found.
    assert_eq!(
        highlight_of("moves are destructive", "copy semantics"),
        None
    );
}

#[test]
fn a_highlight_is_in_the_characters_of_the_snippet() {
    assert_eq!(highlight_of("\u{130}x", "x"), Some((1, 2)));
    assert_eq!(highlight_of("\u{130}\u{130} Rust", "rust"), Some((3, 7)));
}

#[test]
fn a_highlight_is_measured_in_characters_not_bytes() {
    let (start, end) = highlight_of("café wörld", "wörld").expect("a range");
    let underlined: String = "café wörld".chars().skip(start).take(end - start).collect();
    assert_eq!(underlined, "wörld");
}

#[test]
fn the_same_query_twice_gives_the_same_order() {
    let index = index(&[("A.md", "same words"), ("B.md", "same words")]);
    let lexical = Bm25::build(&index);
    let store = vectors(&[("A.md", [1.0, 0.0]), ("B.md", [1.0, 0.0])]);
    let run = || hybrid(&index, &lexical, Some((&store, &[1.0, 0.0])), "same", 5);
    assert_eq!(run(), run());
    assert_eq!(ids(&run()), ["A", "B"]);
}

#[test]
fn hybrid_respects_its_limit() {
    let notes: Vec<(String, String)> = (0..20)
        .map(|n| {
            let body = if n % 4 == 0 {
                format!("ownership, filler {n}")
            } else {
                format!("filler {n}")
            };
            (format!("N{n}.md"), body)
        })
        .collect();
    let borrowed: Vec<(&str, &str)> = notes
        .iter()
        .map(|(path, body)| (path.as_str(), body.as_str()))
        .collect();
    let index = index(&borrowed);
    let lexical = Bm25::build(&index);
    assert_eq!(hybrid(&index, &lexical, None, "ownership", 3).len(), 3);
}

#[test]
fn each_half_looks_deeper_than_the_limit() {
    assert_eq!(depth(5), 40);
    assert_eq!(depth(0), 0);
    assert_eq!(depth(usize::MAX), usize::MAX);
}

#[test]
fn the_best_come_first_and_the_worst_are_dropped() {
    let scored = |path: &str, score: u32| Scored {
        id: id(path),
        score,
    };
    let all = vec![
        scored("B.md", 5),
        scored("A.md", 5),
        scored("C.md", 9),
        scored("D.md", 1),
    ];
    let best = shortlist(all, 2, 10);
    assert_eq!(
        best,
        vec![scored("C.md", 9), scored("A.md", 5), scored("B.md", 5)]
    );
    assert_eq!(shortlist(best, 0, 1), vec![scored("C.md", 9)]);
    assert_eq!(
        rank(vec![scored("B.md", 1), scored("A.md", 1)]),
        vec![scored("A.md", 1), scored("B.md", 1)]
    );
}

// ---- vectors ----

fn want(path: &str, text: &str) -> Wanted {
    Wanted {
        id: id(path),
        digest: Digest::of(text),
    }
}

/// A store holding one vector per note, so plans are readable.
fn store(notes: &[(&str, &str)]) -> Store {
    let mut store = Store::new("test-model");
    for (path, text) in notes {
        store.insert(&id(path), Digest::of(text), unit_bits(&[vec![1.0, 0.0]]));
    }
    store
}

fn paths(ids: &[NoteId]) -> Vec<&str> {
    ids.iter().map(NoteId::as_str).collect()
}

#[test]
fn a_vault_that_has_not_changed_is_no_work_at_all() {
    let store = store(&[("A.md", "alpha"), ("B.md", "beta")]);
    let plan = plan(&store, &[want("A.md", "alpha"), want("B.md", "beta")]);
    assert!(plan.is_empty(), "{plan:?}");
}

#[test]
fn a_new_note_is_embedded_and_nothing_else_is() {
    let store = store(&[("A.md", "alpha")]);
    let plan = plan(&store, &[want("A.md", "alpha"), want("New.md", "new")]);
    assert_eq!(paths(&plan.embed), ["New.md"]);
    assert!(plan.drop.is_empty());
}

#[test]
fn an_edited_note_is_re_embedded() {
    let store = store(&[("A.md", "alpha")]);
    let plan = plan(&store, &[want("A.md", "alpha, rewritten")]);
    assert_eq!(paths(&plan.embed), ["A.md"]);
    assert!(plan.moved.is_empty());
}

#[test]
fn a_deleted_note_is_dropped() {
    let store = store(&[("A.md", "alpha"), ("B.md", "beta")]);
    let plan = plan(&store, &[want("A.md", "alpha")]);
    assert_eq!(paths(&plan.drop), ["B.md"]);
    assert!(plan.embed.is_empty());
}

#[test]
fn a_moved_note_keeps_its_vectors_and_costs_no_embedding() {
    let store = store(&[("Inbox/A.md", "alpha")]);
    let plan = plan(&store, &[want("Archive/A.md", "alpha")]);
    assert_eq!(
        plan.moved,
        [Moved {
            from: id("Inbox/A.md"),
            to: id("Archive/A.md"),
        }]
    );
    assert_eq!(plan.embeddings(), 0);
    assert!(plan.drop.is_empty(), "a move is not a delete");
}

#[test]
fn a_note_that_moved_and_was_edited_is_re_embedded_not_carried() {
    let store = store(&[("Inbox/A.md", "alpha")]);
    let plan = plan(&store, &[want("Archive/A.md", "alpha and more")]);
    assert_eq!(paths(&plan.embed), ["Archive/A.md"]);
    assert_eq!(paths(&plan.drop), ["Inbox/A.md"]);
    assert!(plan.moved.is_empty());
}

#[test]
fn two_notes_with_identical_content_do_not_steal_each_others_vectors() {
    let store = store(&[("A.md", "same"), ("B.md", "same")]);
    let plan = plan(&store, &[want("A.md", "same"), want("C.md", "same")]);
    assert_eq!(
        plan.moved,
        [Moved {
            from: id("B.md"),
            to: id("C.md")
        }]
    );
    assert!(plan.drop.is_empty());
    assert!(plan.embed.is_empty());
}

#[test]
fn a_whole_folder_moving_costs_nothing() {
    let store = store(&[
        ("Work/A.md", "a"),
        ("Work/B.md", "b"),
        ("Work/Deep/C.md", "c"),
    ]);
    let wanted = [
        want("Archive/Work/A.md", "a"),
        want("Archive/Work/B.md", "b"),
        want("Archive/Work/Deep/C.md", "c"),
    ];
    let plan = plan(&store, &wanted);
    assert_eq!(plan.moved.len(), 3);
    assert_eq!(plan.embeddings(), 0);
    assert!(plan.drop.is_empty());
}

#[test]
fn the_plan_does_not_depend_on_the_order_the_vault_is_listed_in() {
    let store = store(&[("A.md", "a"), ("B.md", "b")]);
    let forwards = plan(&store, &[want("A2.md", "a"), want("B2.md", "b")]);
    let backwards = plan(&store, &[want("B2.md", "b"), want("A2.md", "a")]);
    let mut a = forwards.moved;
    let mut b = backwards.moved;
    a.sort_by(|x, y| x.to.cmp(&y.to));
    b.sort_by(|x, y| x.to.cmp(&y.to));
    assert_eq!(a, b);
}

#[test]
fn applying_a_plan_leaves_the_store_holding_exactly_the_live_notes() {
    let mut store = store(&[("A.md", "a"), ("Gone.md", "g"), ("Old/C.md", "c")]);
    let wanted = [
        want("A.md", "a"),
        want("New/C.md", "c"),
        want("Fresh.md", "f"),
    ];
    let work = plan(&store, &wanted);
    store.apply(&work);

    assert!(store.contains(&id("A.md")), "untouched note kept");
    assert!(store.contains(&id("New/C.md")), "moved note carried across");
    assert!(!store.contains(&id("Old/C.md")), "old id gone");
    assert!(!store.contains(&id("Gone.md")), "deleted note pruned");
    assert!(
        !store.contains(&id("Fresh.md")),
        "new note not embedded yet"
    );
    assert_eq!(paths(&work.embed), ["Fresh.md"]);

    // And once the embedding is done, the vault is level: a second plan is
    // empty, so a rescan on a quiet vault is free.
    store.insert(
        &id("Fresh.md"),
        Digest::of("f"),
        unit_bits(&[vec![1.0, 0.0]]),
    );
    assert!(plan(&store, &wanted).is_empty());
}

#[test]
fn changing_the_model_empties_the_store() {
    let mut store = store(&[("A.md", "a")]);
    assert!(store.set_model("other-model"));
    assert!(store.is_empty());
    assert!(
        !store.set_model("other-model"),
        "no churn on the same model"
    );

    let plan = plan(&store, &[want("A.md", "a")]);
    assert_eq!(paths(&plan.embed), ["A.md"]);
}

#[test]
fn nearest_ranks_by_similarity_and_honours_the_floor() {
    let mut store = Store::new("m");
    store.insert(
        &id("Close.md"),
        Digest::of("c"),
        unit_bits(&[vec![1.0, 0.0]]),
    );
    store.insert(
        &id("Middle.md"),
        Digest::of("m"),
        unit_bits(&[vec![1.0, 1.0]]),
    );
    store.insert(&id("Far.md"), Digest::of("f"), unit_bits(&[vec![0.0, 1.0]]));

    let hits = nearest(&store, &[1.0, 0.0], 0.0, 10);
    assert_eq!(
        paths(&hits.iter().map(|h| h.0.clone()).collect::<Vec<_>>()),
        ["Close.md", "Middle.md", "Far.md"]
    );

    // A query about nothing in the vault returns nothing, rather than the
    // least unrelated note.
    let filtered = nearest(&store, &[1.0, 0.0], 0.9, 10);
    assert_eq!(filtered.len(), 1);
    assert_eq!(filtered[0].0, id("Close.md"));
}

#[test]
fn a_note_scores_as_its_best_chunk_not_its_average() {
    let mut store = Store::new("m");
    store.insert(
        &id("Long.md"),
        Digest::of("l"),
        unit_bits(&[vec![0.0, 1.0], vec![1.0, 0.0], vec![0.0, 1.0]]),
    );
    store.insert(
        &id("Vague.md"),
        Digest::of("v"),
        unit_bits(&[vec![0.7, 0.7]]),
    );

    let hits = nearest(&store, &[1.0, 0.0], 0.0, 10);
    assert_eq!(hits[0].0, id("Long.md"));
    assert!((hits[0].1 - 1.0).abs() < 1e-6);
}

#[test]
fn vectors_of_the_wrong_width_do_not_match_and_do_not_panic() {
    let mut store = Store::new("m");
    store.insert(
        &id("A.md"),
        Digest::of("a"),
        unit_bits(&[vec![1.0, 0.0, 0.0]]),
    );
    assert!(nearest(&store, &[1.0, 0.0], -1.0, 10).is_empty());
}

#[test]
fn a_short_note_is_one_chunk_and_carries_its_title() {
    let chunks = chunks("Local inference", "The model runs on the 5090.");
    assert_eq!(chunks.len(), 1);
    assert!(chunks[0].starts_with("Local inference"));
    assert!(chunks[0].contains("runs on the 5090"));
}

#[test]
fn headings_start_new_chunks_so_a_section_is_searchable_on_its_own() {
    let text = "Intro paragraph.\n\n# Servers\n\nThe 5090 holds one model.\n\n# Costs\n\nTokens are cheap.";
    let chunks = chunks("Notes", text);
    assert_eq!(chunks.len(), 3);
    assert!(chunks[1].contains("Servers"));
    assert!(chunks[2].contains("Costs"));
    // Every chunk names the note, since a chunk is read without it.
    assert!(chunks.iter().all(|chunk| chunk.starts_with("Notes")));
}

#[test]
fn a_long_note_is_split_rather_than_truncated() {
    let paragraph = "word ".repeat(300); // ~1500 chars
    let text = format!("{paragraph}\n\n{paragraph}\n\n{paragraph}");
    let chunks = chunks("Long", &text);
    assert!(chunks.len() >= 3, "got {} chunks", chunks.len());
    assert!(chunks
        .iter()
        .all(|chunk| chunk.chars().count() <= CHUNK_CHARS + "Long\n\n".len() + 1));
}

#[test]
fn chunks_lose_repeat_and_reorder_nothing_but_whitespace() {
    let mut text = String::from("  # One\n\n\n\n");
    for n in 0..900 {
        text.push_str(&format!("word{n}"));
        text.push_str(if n % 200 == 0 { "\n\n# Head\n" } else { " \t" });
    }
    text.push_str(&"x".repeat(CHUNK_CHARS * 2 + 7));
    let split = chunks("Long", &text);
    assert!(split.len() > 3 && split.len() < MAX_CHUNKS);
    let ink = |s: &str| s.split_whitespace().collect::<String>();
    let under: String = split.iter().map(|chunk| ink(&chunk["Long\n\n".len()..])).collect();
    assert_eq!(under, ink(&text));
    let short = "one\n\n two \n\n\n\n# three\nfour\n";
    let under: String = chunks("T", short).iter().map(|chunk| ink(&chunk[3..])).collect();
    assert_eq!(under, "onetwo#threefour");
    let many = "# h\n\n".repeat(40);
    let under: String = chunks("T", &many).iter().map(|chunk| ink(&chunk[3..])).collect();
    assert_eq!(under, "#h".repeat(MAX_CHUNKS));
    assert_eq!(chunks("T", " \n\n\t"), ["T"]);
}

#[test]
fn one_enormous_paragraph_is_cut_on_a_character_boundary() {
    let text = "é".repeat(CHUNK_CHARS * 2 + 10);
    let chunks = chunks("Wide", &text);
    assert!(chunks.len() >= 2);
    // Reassembling drops the titles, and what is left is the original.
    let joined: String = chunks
        .iter()
        .map(|chunk| chunk.trim_start_matches("Wide\n\n"))
        .collect();
    assert_eq!(joined, text);
}

#[test]
fn a_note_is_never_split_into_more_chunks_than_the_cap() {
    let text = (0..100)
        .map(|n| format!("# Heading {n}\n\nBody {n}."))
        .collect::<Vec<_>>()
        .join("\n\n");
    assert_eq!(chunks("Huge", &text).len(), MAX_CHUNKS);
}

#[test]
fn an_empty_note_still_has_its_title_to_match_on() {
    assert_eq!(chunks("Untitled thought", ""), ["Untitled thought"]);
    assert!(chunks("", "").is_empty());
}

/// An embedder that needs no server: each text becomes a vector of its own word
/// counts over a fixed vocabulary, which is enough for "the same note embeds
/// the same way" and "a different note does not".
struct Fake {
    model: String,
    /// How many texts it has been asked to embed, so a test can assert that a
    /// move cost nothing.
    calls: RefCell<usize>,
    /// Refuse everything after this many texts, standing in for a server that
    /// goes away part way through.
    fails_after: Option<usize>,
}

impl Fake {
    fn new() -> Self {
        Self {
            model: "fake-embed".to_string(),
            calls: RefCell::new(0),
            fails_after: None,
        }
    }

    fn failing_after(texts: usize) -> Self {
        Self {
            fails_after: Some(texts),
            ..Self::new()
        }
    }

    fn calls(&self) -> usize {
        *self.calls.borrow()
    }
}

impl Embedder for Fake {
    fn model(&self) -> String {
        self.model.clone()
    }

    fn embed(&self, texts: &Vec<String>) -> Result<Chunks, EmbedError> {
        let mut calls = self.calls.borrow_mut();
        if self.fails_after.is_some_and(|limit| *calls >= limit) {
            return Err(EmbedError("the server went away".into()));
        }
        *calls += texts.len();
        let vectors: Vec<Vec<f32>> = texts
            .iter()
            .map(|text| {
                ["rust", "milk", "server"]
                    .iter()
                    .map(|word| text.matches(word).count() as f32 + 0.1)
                    .collect()
            })
            .collect();
        Ok(unit_bits(&vectors))
    }
}

/// Answers the first so many calls in full, and the next with the wrong number
/// of vectors.
struct Halting {
    answers: usize,
    asked: std::cell::RefCell<usize>,
}

impl Embedder for Halting {
    fn model(&self) -> String {
        "halting".to_string()
    }

    fn embed(&self, texts: &Vec<String>) -> Result<Chunks, EmbedError> {
        *self.asked.borrow_mut() += 1;
        if *self.asked.borrow() > self.answers {
            return Ok(Vec::new());
        }
        Ok(texts.iter().map(|_| vec![1u32]).collect())
    }
}

#[test]
fn a_pass_ends_where_the_model_stops() {
    let index = index(&[("A.md", "a"), ("B.md", "b"), ("C.md", "c"), ("New.md", "kept")]);
    for answers in 0..3usize {
        let embedder = Halting {
            answers,
            asked: std::cell::RefCell::new(0),
        };
        let mut store = Store::new("halting");
        store.insert(&id("Old.md"), digest_of("New", "kept"), vec![vec![7]]);
        store.insert(&id("Gone.md"), digest_of("Gone", "gone"), vec![vec![8]]);
        let report = catch_up(&mut store, &index, &embedder);
        assert_eq!(report.embedded, answers);
        assert_eq!(report.pending, 3 - answers);
        assert_eq!((report.moved, report.dropped), (1, 1));
        assert_eq!(*embedder.asked.borrow(), answers + 1);
        assert_eq!(store.len(), answers + 1);
        assert_eq!(store.get(&id("New.md")).expect("moved").chunks, [[7]]);
        for (name, text) in [("A", "a"), ("B", "b"), ("C", "c")].iter().take(answers) {
            let held = store.get(&id(&format!("{name}.md"))).expect("embedded");
            assert_eq!(held.digest, digest_of(name, text));
        }
    }
}

#[test]
fn a_pass_the_model_sees_through_leaves_the_store_level() {
    let index = index(&[("A.md", "a"), ("Sub/B.md", "b"), ("C.md", "")]);
    let embedder = Halting {
        answers: 3,
        asked: std::cell::RefCell::new(0),
    };
    let mut store = Store::default();
    store.insert(&id("Gone.md"), digest_of("Gone", "gone"), vec![vec![8]]);
    let first = catch_up(&mut store, &index, &embedder);
    assert_eq!((first.embedded, first.pending), (3, 0));
    assert_eq!(store.ids(), index.ids());
    for note in index.ids() {
        let held = store.get(&note).expect("embedded");
        assert_eq!(held.digest, digest_of(note.title(), index.text(&note)));
    }
    assert!(catch_up(&mut store, &index, &embedder).is_quiet());
    assert_eq!(*embedder.asked.borrow(), 3);
    assert_eq!(store.len(), 3);
}

#[test]
fn a_first_pass_embeds_the_vault_and_a_second_does_nothing() {
    let index = index(&[("A.md", "rust rust"), ("B.md", "milk")]);
    let embedder = Fake::new();
    let mut store = Store::default();

    let first = catch_up(&mut store, &index, &embedder);
    assert_eq!(first.embedded, 2);
    assert_eq!(store.len(), 2);
    assert_eq!(store.model, "fake-embed");

    // The property that makes it safe to run after every rescan: a quiet vault
    // is free, so nothing re-embeds on a timer.
    let calls = embedder.calls();
    let second = catch_up(&mut store, &index, &embedder);
    assert!(second.is_quiet(), "{second:?}");
    assert_eq!(embedder.calls(), calls, "a quiet vault called the model");
}

#[test]
fn an_edit_re_embeds_only_the_note_that_changed() {
    let embedder = Fake::new();
    let mut store = Store::default();
    catch_up(
        &mut store,
        &index(&[("A.md", "rust"), ("B.md", "milk")]),
        &embedder,
    );
    let calls = embedder.calls();

    let edited = index(&[("A.md", "rust rust rust"), ("B.md", "milk")]);
    let report = catch_up(&mut store, &edited, &embedder);
    assert_eq!(report.embedded, 1);
    assert_eq!(embedder.calls(), calls + 1, "B was embedded again");
}

#[test]
fn a_move_costs_no_model_time_at_all() {
    let embedder = Fake::new();
    let mut store = Store::default();
    catch_up(&mut store, &index(&[("Inbox/A.md", "rust")]), &embedder);
    let calls = embedder.calls();

    let moved = index(&[("Archive/Inbox/A.md", "rust")]);
    let report = catch_up(&mut store, &moved, &embedder);
    assert_eq!(report.moved, 1);
    assert_eq!(report.embedded, 0);
    assert_eq!(embedder.calls(), calls);
    assert!(store.contains(&id("Archive/Inbox/A.md")));
    assert!(!store.contains(&id("Inbox/A.md")));
}

#[test]
fn a_deleted_note_stops_being_searchable() {
    let embedder = Fake::new();
    let mut store = Store::default();
    catch_up(
        &mut store,
        &index(&[("A.md", "rust"), ("B.md", "milk")]),
        &embedder,
    );

    let report = catch_up(&mut store, &index(&[("A.md", "rust")]), &embedder);
    assert_eq!(report.dropped, 1);
    assert!(!store.contains(&id("B.md")));
    assert_eq!(store.len(), 1);
}

#[test]
fn the_whole_vault_disappearing_empties_the_store_rather_than_stranding_it() {
    let embedder = Fake::new();
    let mut store = Store::default();
    catch_up(
        &mut store,
        &index(&[("A.md", "rust"), ("B.md", "milk")]),
        &embedder,
    );
    let report = catch_up(&mut store, &index(&[]), &embedder);
    assert_eq!(report.dropped, 2);
    assert!(store.is_empty());
}

#[test]
fn a_server_that_goes_away_leaves_a_usable_store_and_work_to_resume() {
    let index = index(&[
        ("A.md", "rust"),
        ("B.md", "milk"),
        ("C.md", "server"),
        ("D.md", "rust milk"),
    ]);
    let mut store = Store::default();
    let dying = Fake::failing_after(2);

    let report = catch_up(&mut store, &index, &dying);
    assert_eq!(report.embedded, 2);
    assert_eq!(report.pending, 2);
    assert_eq!(store.len(), 2);

    // And the next pass, against a server that works, finishes the job without
    // redoing what was already done.
    let working = Fake::new();
    let resumed = catch_up(&mut store, &index, &working);
    assert_eq!(resumed.embedded, 2);
    assert_eq!(working.calls(), 2, "the first half was embedded again");
    assert_eq!(store.len(), 4);
    assert!(catch_up(&mut store, &index, &working).is_quiet());
}

#[test]
fn swapping_the_model_re_embeds_the_vault_and_says_so() {
    let index = index(&[("A.md", "rust")]);
    let mut store = Store::default();
    catch_up(&mut store, &index, &Fake::new());

    let other = Fake {
        model: "a-different-model".into(),
        ..Fake::new()
    };
    let report = catch_up(&mut store, &index, &other);
    assert!(report.reset);
    assert_eq!(report.embedded, 1);
    assert_eq!(store.model, "a-different-model");
}

#[test]
fn what_was_embedded_is_what_gets_found() {
    let index = index(&[
        ("Rust.md", "rust rust rust"),
        ("Shopping.md", "milk milk milk"),
    ]);
    let embedder = Fake::new();
    let mut store = Store::default();
    catch_up(&mut store, &index, &embedder);

    let query: Vec<f32> = embedder
        .embed_query("rust")
        .expect("embed")
        .iter()
        .map(|bits| f32::from_bits(*bits))
        .collect();
    let hits = nearest(&store, &query, 0.5, 5);
    assert_eq!(hits[0].0, id("Rust.md"));
}

#[test]
fn two_vaults_do_not_share_one_cache() {
    let one = default_store_path("/home/someone/Notes", None, Some("/home/someone"));
    let two = default_store_path("/home/someone/Work", None, Some("/home/someone"));
    assert_ne!(one, two);
    assert!(one.starts_with("/home/someone/.cache/brain/vectors-"));
    assert!(two.starts_with("/home/someone/.cache/brain/vectors-"));
    assert!(one.ends_with(".json"));
    // And nothing is written inside the vault itself.
    assert!(!one.starts_with("/home/someone/Notes"));
    assert!(
        default_store_path("/v", Some("/tmp/xdg"), None).starts_with("/tmp/xdg/brain/vectors-")
    );
    assert!(default_store_path("/v", None, None).starts_with("./brain/vectors-"));
}

#[test]
fn the_digest_follows_the_text_that_is_embedded_not_the_file() {
    let same = digest_of("A", "one\n\ntwo");
    assert_eq!(same, digest_of("A", "one\n\ntwo"));
    assert_ne!(same, digest_of("A", "one\n\nthree"));
    // The title is part of what is embedded, so renaming a note is a real
    // change to its vectors, which is why a rename re-embeds and a move does
    // not.
    assert_ne!(same, digest_of("B", "one\n\ntwo"));
    // Whitespace around a block is not.
    assert_eq!(same, digest_of("A", "  one  \n\n  two  "));
}

#[test]
fn what_is_wanted_is_every_note_with_its_digest() {
    let index = index(&[("B.md", "two"), ("A.md", "one")]);
    let all = wanted(&index);
    assert_eq!(all.len(), 2);
    assert_eq!(all[0].id, id("A.md"));
    assert_eq!(all[0].digest, digest_of("A", "one"));
}

#[test]
fn a_plan_of_nothing_is_empty() {
    assert!(Plan::default().is_empty());
    assert_eq!(Plan::default().embeddings(), 0);
}

#[test]
fn a_query_that_gets_no_vector_is_an_error() {
    assert_eq!(first_vector(Ok(vec![vec![1, 2]])), Ok(vec![1, 2]));
    assert_eq!(
        first_vector(Ok(Vec::new())).expect_err("no vector").text(),
        "no vector came back for the query"
    );
    let error = Err(EmbedError("gone".to_string()));
    assert_eq!(first_vector(error).expect_err("an error").text(), "gone");
}

#[test]
fn the_notes_with_vectors_are_listed_in_order() {
    let store = store(&[("B.md", "b"), ("A.md", "a")]);
    assert_eq!(paths(&store.ids()), ["A.md", "B.md"]);
    assert!(store.get(&id("C.md")).is_none());
    assert_eq!(
        store.get(&id("A.md")).expect("vectors").digest,
        Digest::of("a")
    );
}

#[test]
fn a_note_is_found_by_any_of_its_names() {
    let index = index(&[
        ("Rust ownership.md", "---\naliases: [Borrowing rules, Moves]\n---\n"),
        ("Motorways.md", ""),
        ("Moves/Dance.md", ""),
    ]);
    assert!(by_title(&index, "borrow", 10).is_empty());
    let found = by_name(&index, "borrow", 10);
    assert_eq!(titles(&found), ["Rust ownership"]);
    // 15 for the first character, 8 for each that follows on, and what is left
    // of the alias counted in fours.
    assert_eq!(found[0].score, 15 + 5 * 8 - (15 - 6) / 4);
    assert!(found[0].positions.is_empty());
    // An alias is as good as a title, and a path is not.
    assert_eq!(
        titles(&by_name(&index, "moves", 10)),
        ["Rust ownership", "Dance"]
    );
    assert_eq!(by_name(&index, "", 10), by_title(&index, "", 10));
}
