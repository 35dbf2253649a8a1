//! The line scanner, and the texts and paths that everything rests on.

use brain::markdown::{line_holding, LineState, ListLevels, Marker, Parsed, Span, Style};
use brain::ordered::{comes_before, order_of, order_of_chars, Order};
use brain::paths;
use brain::scan::{bullet_len, find, ordered_len};
use brain::text;

fn chars(text: &str) -> Vec<char> {
    text.chars().collect()
}

/// Scan a whole note, line by line.
fn scan(note: &str) -> (Parsed, LineState) {
    let lines: Vec<Vec<char>> = note.split('\n').map(chars).collect();
    let mut state = if note.starts_with("---\n") {
        LineState::Frontmatter
    } else {
        LineState::Normal
    };
    let mut parsed = Parsed::new();
    let mut list = ListLevels::new();
    let mut offset = 0;
    for (i, text) in lines.iter().enumerate() {
        let next = lines.get(i + 1).map(|next| next.as_slice());
        state = brain::scan::line(text, offset, state, i == 0, next, &mut list, &mut parsed);
        offset += text.len() + 1;
    }
    (parsed, state)
}

/// What each styled run of a note reads, with its style.
fn styled(note: &str) -> Vec<(String, Style)> {
    let all = chars(note);
    scan(note)
        .0
        .spans
        .iter()
        .map(|span| (all[span.start..span.end].iter().collect(), span.style))
        .collect()
}

/// What each marker of a note reads.
fn markers(note: &str) -> Vec<String> {
    let all = chars(note);
    scan(note)
        .0
        .markers
        .iter()
        .map(|marker| all[marker.start..marker.end].iter().collect())
        .collect()
}

fn expect(note: &str, spans: &[(&str, Style)]) {
    let spans: Vec<(String, Style)> = spans
        .iter()
        .map(|(text, style)| (text.to_string(), *style))
        .collect();
    assert_eq!(styled(note), spans, "{note:?}");
}

#[test]
fn frontmatter_is_one_block_with_its_delimiters() {
    expect(
        "---\ntags: [a]\n---\ntext",
        &[
            ("---", Style::Frontmatter),
            ("tags: [a]", Style::Frontmatter),
            ("---", Style::Frontmatter),
        ],
    );
    // Only the first line opens it.
    expect("a\n---\nb", &[("---", Style::Rule)]);
    assert_eq!(scan("---\nopen").1, LineState::Frontmatter);
    // A closing delimiter may have blanks behind it, but not before it.
    assert_eq!(scan("---\n---  \nx").1, LineState::Normal);
    assert_eq!(scan("---\n ---\nx").1, LineState::Frontmatter);
}

#[test]
fn a_fence_hides_itself_and_styles_what_it_holds() {
    let note = "```rust\nlet x = *y*;\n```\n*z*";
    expect(
        note,
        &[("let x = *y*;", Style::CodeBlock), ("z", Style::Italic)],
    );
    assert_eq!(markers(note), ["```rust", "```", "*", "*"]);
    assert_eq!(scan("~~~\ncode").1, LineState::Fence);
}

#[test]
fn a_rule_is_three_of_a_kind() {
    for rule in ["---", "***", "___", "- - -", " ****"] {
        expect(&format!("a\n{rule}"), &[(rule, Style::Rule)]);
    }
    expect("a\n--", &[]);
    expect("a\n-*-", &[]);
}

#[test]
fn a_table_needs_its_delimiter_row() {
    expect(
        "| a | b |\n|---|:-:|\n| 1 | *2* |\nprose",
        &[
            ("| a | b |", Style::TableRow),
            ("|---|:-:|", Style::TableDelimiter),
            ("| 1 | *2* |", Style::TableRow),
            ("2", Style::Italic),
        ],
    );
    expect("| a | b |\nprose", &[]);
    expect("yes | no\n|---|---|", &[]);
    // What ends a table is scanned as what it is.
    expect(
        "| a |\n|---|\n# head",
        &[
            ("| a |", Style::TableRow),
            ("|---|", Style::TableDelimiter),
            ("head", Style::Heading(1)),
        ],
    );
}

#[test]
fn headings_go_to_six() {
    expect("# one", &[("one", Style::Heading(1))]);
    expect("###### six", &[("six", Style::Heading(6))]);
    expect("####### seven", &[]);
    expect("#tight", &[("#tight", Style::Tag)]);
    assert_eq!(markers("## two"), ["## "]);
    expect(
        "# with *stress*",
        &[("with *stress*", Style::Heading(1)), ("stress", Style::Italic)],
    );
}

#[test]
fn a_quote_hides_its_angle() {
    expect("> said", &[("said", Style::Quote)]);
    expect(">said", &[("said", Style::Quote)]);
    assert_eq!(markers("> said"), ["> "]);
    assert_eq!(markers(">said"), [">"]);
}

#[test]
fn list_items_are_nested_by_their_indents() {
    expect(
        "- a\n  - b\n    1. c\n  * d\n+ e",
        &[
            ("a", Style::ListItem(0)),
            ("b", Style::ListItem(1)),
            ("c", Style::ListItem(2)),
            ("d", Style::ListItem(1)),
            ("e", Style::ListItem(0)),
        ],
    );
    // The blanks before a bullet are syntax; the bullet is not.
    assert_eq!(markers("- a\n  - b"), ["  "]);
    // A blank line keeps the list, and so does an indented one; a line at the
    // left edge ends it.
    expect(
        "- a\n\n  more\n  - b\nend\n  - c",
        &[
            ("a", Style::ListItem(0)),
            ("b", Style::ListItem(1)),
            ("c", Style::ListItem(0)),
        ],
    );
}

#[test]
fn a_checkbox_is_a_task() {
    expect(
        "- [ ] open",
        &[("[ ]", Style::Task(false)), (" open", Style::ListItem(0))],
    );
    expect(
        "1. [X] done",
        &[("[X]", Style::Task(true)), (" done", Style::ListItem(0))],
    );
    expect("- [y] neither", &[("[y] neither", Style::ListItem(0))]);
    expect("- [x]tight", &[("[x]tight", Style::ListItem(0))]);
}

#[test]
fn code_wins_over_everything() {
    expect("`*a* [[b]]`", &[("*a* [[b]]", Style::Code)]);
    assert_eq!(markers("`a`"), ["`", "`"]);
    expect("`open", &[]);
}

#[test]
fn embeds_and_links_show_what_is_read() {
    expect("![[a.png]]", &[("a.png", Style::Embed)]);
    assert_eq!(markers("![[a.png]]"), ["![[", "]]"]);
    expect("![[]]", &[]);
    expect("[[Target]]", &[("Target", Style::WikiLink)]);
    expect("[[Target|shown]]", &[("shown", Style::WikiLink)]);
    assert_eq!(markers("[[Target|shown]]"), ["[[Target|", "]]"]);
    expect("[[Target|]]", &[]);
    expect("[label](target)", &[("label", Style::Link)]);
    assert_eq!(markers("[label](target)"), ["[", "](target)"]);
    expect("[label] (target)", &[]);
    expect("[](target)", &[]);
}

#[test]
fn a_bare_address_leaves_the_sentence_its_punctuation() {
    expect("see https://a.b/c.", &[("https://a.b/c", Style::Link)]);
    expect("(http://a)", &[("http://a", Style::Link)]);
    expect("xhttps://a", &[]);
    expect("https://", &[]);
    expect("https://...", &[]);
    expect("httpx://a", &[]);
}

#[test]
fn a_tag_begins_a_word_with_a_letter() {
    expect("about #rust, #a/b-c", &[("#rust", Style::Tag), ("#a/b-c", Style::Tag)]);
    expect("C# foo#bar #404", &[]);
    expect("#project/ #dash-", &[("#project", Style::Tag), ("#dash", Style::Tag)]);
}

#[test]
fn emphasis_hugs_what_it_stresses() {
    expect(
        "**b** __b__ ~~s~~ *i* _i_",
        &[
            ("b", Style::Bold),
            ("b", Style::Bold),
            ("s", Style::Strikethrough),
            ("i", Style::Italic),
            ("i", Style::Italic),
        ],
    );
    assert_eq!(markers("**b**"), ["**", "**"]);
    expect("a * b * c", &[]);
    expect("****", &[("****", Style::Rule)]);
    expect("a ****", &[]);
    expect("*open", &[]);
}

#[test]
fn every_line_stays_within_itself() {
    let note = "# a\n- [ ] *b* [[c|d]]\n| e |\n|---|\n> `f` #g";
    let all = chars(note);
    let (parsed, _) = scan(note);
    for span in &parsed.spans {
        assert!(span.start < span.end && span.end <= all.len());
        assert!(!all[span.start..span.end].contains(&'\n'));
    }
    for marker in &parsed.markers {
        assert!(marker.start < marker.end && marker.end <= all.len());
        assert!(!all[marker.start..marker.end].contains(&'\n'));
    }
}

#[test]
fn bullets_and_numbers_have_a_length() {
    assert_eq!(bullet_len(&chars("- a")), Some(2));
    assert_eq!(bullet_len(&chars("* a")), Some(2));
    assert_eq!(bullet_len(&chars("+ a")), Some(2));
    assert_eq!(bullet_len(&chars("*a*")), None);
    assert_eq!(bullet_len(&[]), None);
    assert_eq!(ordered_len(&chars("1. a")), Some(3));
    assert_eq!(ordered_len(&chars("12) a")), Some(4));
    assert_eq!(ordered_len(&chars("1.a")), None);
    assert_eq!(ordered_len(&chars(". a")), None);
    assert_eq!(ordered_len(&chars("1")), None);
}

#[test]
fn a_needle_is_found_at_or_after_a_place() {
    let text = chars("a]b]]");
    assert_eq!(find(&text, 0, &[']']), Some(1));
    assert_eq!(find(&text, 2, &[']']), Some(3));
    assert_eq!(find(&text, 0, &[']', ']']), Some(3));
    assert_eq!(find(&text, 4, &[']', ']']), None);
    assert_eq!(find(&text, 9, &[']']), None);
}

#[test]
fn levels_stay_nested() {
    let mut list = ListLevels::new();
    assert_eq!(list.depth(0), 0);
    assert_eq!(list.depth(4), 1);
    assert_eq!(list.depth(2), 1);
    assert_eq!(list.depth(2), 1);
    assert_eq!(list.depth(0), 0);
    list.clear();
    assert_eq!(list.depth(6), 0);
}

#[test]
fn empty_runs_are_not_kept() {
    let mut parsed = Parsed::new();
    parsed.push_span(3, 3, Style::Code);
    parsed.push_marker(4, 2);
    parsed.push_span(1, 2, Style::Code);
    parsed.push_marker(0, 1);
    assert_eq!(
        parsed.spans,
        [Span {
            start: 1,
            end: 2,
            style: Style::Code
        }]
    );
    assert_eq!(parsed.markers, [Marker { start: 0, end: 1 }]);
}

#[test]
fn an_offset_lies_on_one_line() {
    let body = "one\ntwo\n\nfour";
    assert_eq!(line_holding(body, 0), "one");
    assert_eq!(line_holding(body, 3), "one");
    assert_eq!(line_holding(body, 5), "two");
    assert_eq!(line_holding(body, 8), "");
    assert_eq!(line_holding(body, 99), "four");
}

// ---- texts ----

#[test]
fn texts_turn_into_characters_and_bytes() {
    assert_eq!(text::chars_of("a\u{e9}"), ['a', '\u{e9}']);
    assert_eq!(text::string_of(&['a', '\u{e9}']), "a\u{e9}");
    assert_eq!(text::bytes_of("a\u{e9}"), [0x61, 0xc3, 0xa9]);
    assert_eq!(text::part(&chars("abcd"), 1, 3), ['b', 'c']);
    let mut out = chars("ab");
    text::extend(&mut out, &['c']);
    assert_eq!(out, ['a', 'b', 'c']);
    assert!(text::same("ab", "ab") && !text::same("ab", "aB"));
    assert!(text::same_chars(&['a'], &['a']) && !text::same_chars(&['a'], &[]));
}

#[test]
fn blanks_are_trimmed_at_either_end() {
    let text = chars("\u{a0} a b\t\n");
    assert_eq!(text::leading_white(&text), 2);
    assert_eq!(text::trimmed_end(&text), 5);
    assert_eq!(text::trim_chars(&text), chars("a b"));
    assert_eq!(text::trimmed(" \u{3000}"), "");
}

#[test]
fn texts_are_split_and_joined() {
    assert_eq!(
        text::split_chars(&chars("a,,b"), ','),
        [chars("a"), chars(""), chars("b")]
    );
    assert_eq!(text::split_chars(&[], ','), [chars("")]);
    assert_eq!(
        text::split_with(&chars("a--b-c"), &chars("--")),
        [chars("a"), chars("b-c")]
    );
    assert_eq!(text::join_chars(&[chars("a"), chars("b")], '/'), chars("a/b"));
    assert_eq!(
        text::join_with(&[chars("a"), chars("b")], &chars(", ")),
        chars("a, b")
    );
    assert_eq!(
        text::lines_of(&chars("a\r\nb\n\nc\n")),
        [chars("a"), chars("b"), chars(""), chars("c")]
    );
    assert_eq!(
        text::words_of(&chars(" a\u{2003}b \n")),
        [chars("a"), chars("b")]
    );
}

#[test]
fn places_are_counted_from_the_start() {
    let text = chars("abcabc");
    assert_eq!(text::position_of(&text, 'b', 2), Some(4));
    assert_eq!(text::position_of(&text, 'x', 0), None);
    assert_eq!(text::last_position_of(&text, 'a'), Some(3));
    assert_eq!(text::position_of_text(&text, &chars("ca"), 0), Some(2));
    assert!(text::is_at(&text, &chars("bc"), 4) && !text::is_at(&text, &chars("bc"), 5));
    assert!(text::has_char(&text, 'c') && !text::has_char(&text, 'd'));
    assert!(text::begins(&text, &chars("ab")) && !text::begins(&text, &chars("b")));
    assert!(text::ends(&text, &chars("bc")) && !text::ends(&text, &chars("b")));
    assert!(text::alike_chars(&chars("Ab"), &chars("aB")));
    assert!(!text::alike_chars(&chars("\u{c9}"), &chars("\u{e9}")));
}

#[test]
fn numbers_are_written_and_read_in_decimal() {
    assert_eq!(text::decimal_of(0), ['0']);
    assert_eq!(text::decimal_of(1205), chars("1205"));
    assert_eq!(text::number_of(&chars("1205")), Some(1205));
    assert_eq!(text::number_of(&chars("+7")), Some(7));
    assert_eq!(text::number_of(&chars("-7")), None);
    assert_eq!(text::number_of(&chars("")), None);
    assert_eq!(text::number_of(&chars("+")), None);
    assert_eq!(text::number_of(&chars("99999999999999999999999")), None);
}

#[test]
fn lists_of_texts_are_copied_and_searched() {
    let texts = vec!["a".to_string(), "b".to_string()];
    assert_eq!(text::copy_all(&texts), texts);
    assert!(text::has_text(&texts, "b") && !text::has_text(&texts, "c"));
}

#[test]
fn texts_are_ordered_by_their_characters() {
    assert!(comes_before("a", "b") && comes_before("a", "ab") && comes_before("Z", "a"));
    assert!(!comes_before("a", "a"));
    assert!(matches!(order_of("a", "a"), Order::Same));
    assert!(matches!(order_of_chars(&['b'], &['a']), Order::After));
}

// ---- paths ----

#[test]
fn a_path_is_its_components() {
    assert_eq!(
        paths::components_of(&chars("/a//./b/")),
        [chars("/"), chars("a"), chars("b")]
    );
    assert_eq!(paths::components_of(&chars("./a")), [chars("."), chars("a")]);
    assert_eq!(
        paths::join_all(&chars("/a"), &[chars("b"), chars("c")]),
        chars("/a/b/c")
    );
    let mut path = chars("/");
    paths::join(&mut path, &['a']);
    assert_eq!(path, chars("/a"));
}

#[test]
fn an_extension_is_put_in_place_of_the_last() {
    assert_eq!(paths::extended("/a/b.md", "md.tmp"), "/a/b.md.tmp");
    assert_eq!(paths::extended("/a.b/c", "tmp"), "/a.b/c.tmp");
    assert_eq!(paths::extended(".hidden", "tmp"), ".hidden.tmp");
    assert_eq!(paths::extended("/vault/.", "md.tmp"), "/vault.md.tmp");
    assert_eq!(paths::extended("a.json/", "json.tmp"), "a.json.tmp");
    assert_eq!(paths::extended("/a//b.md/.//", "tmp"), "/a//b.tmp");
    assert_eq!(paths::extended("a/b.md", ""), "a/b");
    for path in ["/", "/.", "..", "a/..", ".", "./", ""] {
        assert_eq!(paths::extended(path, "tmp"), path);
        assert_eq!(std::path::Path::new(path).with_extension("tmp"), std::path::Path::new(path));
    }
    for path in ["/vault/.", "a.json/", "/a//b.md/.//", ".hidden", "a/...", "x.y.z"] {
        assert_eq!(
            paths::extended(path, "json.tmp"),
            std::path::Path::new(path).with_extension("json.tmp").to_string_lossy()
        );
    }
}
