//! The line scanner: which characters of a line are syntax, and how the rest
//! are styled.

use crate::markdown;
use crate::markdown::{LineState, ListLevels, Parsed, Style};
use crate::text;
use vstd::prelude::*;

verus! {

// ---- what kind of line a line is ----

/// How many times a character stands at the start of a line.
pub open spec fn leading(line: Seq<char>, c: char) -> nat
    decreases line.len(),
{
    if line.len() > 0 && line[0] == c {
        1 + leading(line.skip(1), c)
    } else {
        0
    }
}

/// How many times a character stands in a line.
pub open spec fn count(line: Seq<char>, c: char) -> nat
    decreases line.len(),
{
    if line.len() == 0 {
        0
    } else {
        count(line.drop_last(), c) + if line.last() == c {
            1nat
        } else {
            0nat
        }
    }
}

/// A line without the spaces it begins with.
pub open spec fn unindented(line: Seq<char>) -> Seq<char> {
    line.skip(leading(line, ' ') as int)
}

/// ``` or ~~~ , optionally with a language after it.
pub open spec fn is_fence(line: Seq<char>) -> bool {
    let rest = unindented(line);
    seq!['`', '`', '`'].is_prefix_of(rest) || seq!['~', '~', '~'].is_prefix_of(rest)
}

/// Exactly `---`, the frontmatter delimiter.
pub open spec fn is_delimiter(line: Seq<char>) -> bool {
    text::trim_end(line) == "---"@
}

/// A line without its whitespace.
pub open spec fn solid(line: Seq<char>) -> Seq<char>
    decreases line.len(),
{
    if line.len() == 0 {
        line
    } else if text::white(line.last()) {
        solid(line.drop_last())
    } else {
        solid(line.drop_last()).push(line.last())
    }
}

/// A thematic break: three or more of `-`, `*` or `_` and nothing else.
pub open spec fn is_rule(line: Seq<char>) -> bool {
    let s = solid(line);
    s.len() >= 3 && (s[0] == '-' || s[0] == '*' || s[0] == '_') && forall|i: int|
        0 <= i < s.len() ==> #[trigger] s[i] == s[0]
}

/// A row of a table: `| a | b |`. A leading pipe is required: reading a
/// sentence with a pipe in it as a table is the worse failure.
pub open spec fn is_table_row(line: Seq<char>) -> bool {
    let rest = unindented(line);
    rest.len() > 0 && rest[0] == '|' && count(rest, '|') >= 2
}

/// A text without the pipes it begins with.
pub open spec fn unpiped_start(s: Seq<char>) -> Seq<char> {
    s.skip(leading(s, '|') as int)
}

/// A text without the pipes it ends with.
pub open spec fn unpiped_end(s: Seq<char>) -> Seq<char>
    decreases s.len(),
{
    if s.len() > 0 && s.last() == '|' {
        unpiped_end(s.drop_last())
    } else {
        s
    }
}

/// A cell of a delimiter row: dashes and alignment colons.
pub open spec fn is_delimiter_cell(cell: Seq<char>) -> bool {
    let s = text::trim(cell);
    s.contains('-') && forall|i: int|
        0 <= i < s.len() ==> #[trigger] s[i] == '-' || s[i] == ':'
}

/// The cells of a row.
pub open spec fn cells(line: Seq<char>) -> Seq<Seq<char>> {
    text::split_on(unpiped_end(unpiped_start(text::trim(line))), '|')
}

/// The row under a table's header: `|---|:--:|`.
pub open spec fn is_table_delimiter(line: Seq<char>) -> bool {
    is_table_row(line) && forall|i: int|
        0 <= i < cells(line).len() ==> is_delimiter_cell(#[trigger] cells(line)[i])
}

fn leading_of(line: &[char], c: char) -> (n: usize)
    ensures
        n == leading(line@, c),
        n <= line@.len(),
        forall|i: int| 0 <= i < n ==> line@[i] == c,
        n < line@.len() ==> line@[n as int] != c,
{
    let mut n: usize = 0;
    assert(line@.skip(0) =~= line@);
    while n < line.len() && line[n] == c
        invariant
            n <= line@.len(),
            leading(line@, c) == n + leading(line@.skip(n as int), c),
            forall|i: int| 0 <= i < n ==> line@[i] == c,
        decreases line@.len() - n,
    {
        assert(line@.skip(n as int).skip(1) =~= line@.skip(n + 1));
        n = n + 1;
    }
    n
}

fn count_of(line: &[char], c: char) -> (n: usize)
    ensures
        n == count(line@, c),
{
    let mut n: usize = 0;
    let mut i: usize = 0;
    while i < line.len()
        invariant
            i <= line@.len(),
            n <= i,
            n == count(line@.take(i as int), c),
        decreases line@.len() - i,
    {
        assert(line@.take(i + 1).drop_last() =~= line@.take(i as int));
        if line[i] == c {
            n = n + 1;
        }
        i = i + 1;
    }
    assert(line@.take(line@.len() as int) =~= line@);
    n
}

fn unindent(line: &[char]) -> (out: Vec<char>)
    ensures
        out@ == unindented(line@),
{
    let n = leading_of(line, ' ');
    let out = text::part(line, n, line.len());
    assert(out@ =~= unindented(line@));
    out
}

fn fence(line: &[char]) -> (r: bool)
    ensures
        r == is_fence(line@),
{
    let rest = unindent(line);
    let ticks = ['`', '`', '`'];
    let tildes = ['~', '~', '~'];
    assert(ticks@ =~= seq!['`', '`', '`']);
    assert(tildes@ =~= seq!['~', '~', '~']);
    text::begins(&rest, &ticks) || text::begins(&rest, &tildes)
}

fn delimiter(line: &[char]) -> (r: bool)
    ensures
        r == is_delimiter(line@),
{
    let n = text::trimmed_end(line);
    let head = text::part(line, 0, n);
    assert(head@ =~= text::trim_end(line@));
    text::same_chars(&head, &text::chars_of("---"))
}

fn rule(line: &[char]) -> (r: bool)
    ensures
        r == is_rule(line@),
{
    let mut s: Vec<char> = Vec::new();
    let mut i: usize = 0;
    assert(s@ =~= solid(line@.take(0)));
    while i < line.len()
        invariant
            i <= line@.len(),
            s@ == solid(line@.take(i as int)),
        decreases line@.len() - i,
    {
        assert(line@.take(i + 1).drop_last() =~= line@.take(i as int));
        if !line[i].is_whitespace() {
            s.push(line[i]);
        }
        i = i + 1;
    }
    assert(line@.take(line@.len() as int) =~= line@);
    if s.len() < 3 {
        return false;
    }
    let first = s[0];
    if first != '-' && first != '*' && first != '_' {
        return false;
    }
    let mut i: usize = 0;
    while i < s.len()
        invariant
            i <= s@.len(),
            s@.len() >= 3,
            s@ == solid(line@),
            first == s@[0],
            forall|j: int| 0 <= j < i ==> s@[j] == first,
        decreases s@.len() - i,
    {
        if s[i] != first {
            return false;
        }
        i = i + 1;
    }
    true
}

fn table_row_line(line: &[char]) -> (r: bool)
    ensures
        r == is_table_row(line@),
{
    let rest = unindent(line);
    rest.len() > 0 && rest[0] == '|' && count_of(&rest, '|') >= 2
}

fn delimiter_cell(cell: &[char]) -> (r: bool)
    ensures
        r == is_delimiter_cell(cell@),
{
    let s = text::trim_chars(cell);
    if !text::has_char(&s, '-') {
        return false;
    }
    let mut i: usize = 0;
    while i < s.len()
        invariant
            i <= s@.len(),
            s@ == text::trim(cell@),
            forall|j: int| 0 <= j < i ==> s@[j] == '-' || s@[j] == ':',
        decreases s@.len() - i,
    {
        if s[i] != '-' && s[i] != ':' {
            return false;
        }
        i = i + 1;
    }
    true
}

fn table_delimiter(line: &[char]) -> (r: bool)
    ensures
        r == is_table_delimiter(line@),
{
    if !table_row_line(line) {
        return false;
    }
    let t = text::trim_chars(line);
    let from = leading_of(&t, '|');
    let s = text::part(&t, from, t.len());
    assert(s@ =~= unpiped_start(t@));
    let mut to: usize = s.len();
    assert(s@.take(to as int) =~= s@);
    while to > 0 && s[to - 1] == '|'
        invariant
            to <= s@.len(),
            unpiped_end(s@) == unpiped_end(s@.take(to as int)),
        decreases to,
    {
        assert(s@.take(to as int).drop_last() =~= s@.take(to - 1));
        to = to - 1;
    }
    let inner = text::part(&s, 0, to);
    assert(inner@ =~= unpiped_end(s@));
    let pieces = text::split_chars(&inner, '|');
    let ghost all = text::views(pieces@);
    let mut i: usize = 0;
    while i < pieces.len()
        invariant
            i <= pieces@.len(),
            all == text::views(pieces@),
            all == cells(line@),
            forall|j: int| 0 <= j < i ==> is_delimiter_cell(#[trigger] all[j]),
        decreases pieces@.len() - i,
    {
        assert(all[i as int] == pieces@[i as int]@);
        if !delimiter_cell(&pieces[i]) {
            return false;
        }
        i = i + 1;
    }
    true
}

// ---- what a line begins with ----

/// `#` to `######` followed by a space.
pub open spec fn heading_level(line: Seq<char>) -> Option<u8> {
    let hashes = leading(line, '#') as int;
    if 1 <= hashes <= 6 && hashes < line.len() && line[hashes] == ' ' {
        Some(hashes as u8)
    } else {
        None
    }
}

/// `- `, `* ` or `+ `. Not `*emphasis*`, which has no space.
pub open spec fn bullet_length(line: Seq<char>) -> Option<int> {
    if line.len() >= 2 && (line[0] == '-' || line[0] == '*' || line[0] == '+') && line[1] == ' ' {
        Some(2)
    } else {
        None
    }
}

/// How many digits a line begins with.
pub open spec fn digits(line: Seq<char>) -> nat
    decreases line.len(),
{
    if line.len() > 0 && text::is_digit(line[0]) {
        1 + digits(line.skip(1))
    } else {
        0
    }
}

/// `1. ` / `12) `
pub open spec fn ordered_length(line: Seq<char>) -> Option<int> {
    let n = digits(line) as int;
    if n > 0 && n + 1 < line.len() && (line[n] == '.' || line[n] == ')') && line[n + 1] == ' ' {
        Some(n + 2)
    } else {
        None
    }
}

/// The length of a list marker.
pub open spec fn item_length(line: Seq<char>) -> Option<int> {
    match bullet_length(line) {
        Some(n) => Some(n),
        None => ordered_length(line),
    }
}

/// `[ ] ` or `[x] ` immediately after a bullet, and whether it is ticked. The
/// space belongs to the content.
pub open spec fn checkbox(line: Seq<char>) -> Option<bool> {
    if line.len() >= 4 && line[0] == '[' && line[2] == ']' && line[3] == ' ' {
        if line[1] == ' ' {
            Some(false)
        } else if line[1] == 'x' || line[1] == 'X' {
            Some(true)
        } else {
            None
        }
    } else {
        None
    }
}

fn heading(line: &[char]) -> (r: Option<u8>)
    ensures
        r == heading_level(line@),
{
    let hashes = leading_of(line, '#');
    if 1 <= hashes && hashes <= 6 && hashes < line.len() && line[hashes] == ' ' {
        Some(hashes as u8)
    } else {
        None
    }
}

/// The length of a bullet, if a line begins with one.
pub fn bullet_len(line: &[char]) -> (r: Option<usize>)
    ensures
        match r {
            Some(n) => bullet_length(line@) == Some(n as int),
            None => bullet_length(line@) is None,
        },
{
    if line.len() >= 2 && (line[0] == '-' || line[0] == '*' || line[0] == '+') && line[1] == ' ' {
        Some(2)
    } else {
        None
    }
}

/// The length of a number and its full stop or bracket, if a line begins with
/// one.
pub fn ordered_len(line: &[char]) -> (r: Option<usize>)
    ensures
        match r {
            Some(n) => ordered_length(line@) == Some(n as int) && n <= line@.len(),
            None => ordered_length(line@) is None,
        },
{
    let mut n: usize = 0;
    assert(line@.skip(0) =~= line@);
    while n < line.len() && '0' <= line[n] && line[n] <= '9'
        invariant
            n <= line@.len(),
            digits(line@) == n + digits(line@.skip(n as int)),
        decreases line@.len() - n,
    {
        assert(line@.skip(n as int).skip(1) =~= line@.skip(n + 1));
        n = n + 1;
    }
    assert(digits(line@) == n);
    let len = line.len();
    if n > 0 && n < len && n + 1 < len && (line[n] == '.' || line[n] == ')') && line[n + 1] == ' ' {
        Some(n + 2)
    } else {
        None
    }
}

fn item_len(line: &[char]) -> (r: Option<usize>)
    ensures
        match r {
            Some(n) => item_length(line@) == Some(n as int) && n <= line@.len(),
            None => item_length(line@) is None,
        },
{
    match bullet_len(line) {
        Some(n) => Some(n),
        None => ordered_len(line),
    }
}

fn ticked(line: &[char]) -> (r: Option<bool>)
    ensures
        r == checkbox(line@),
{
    if line.len() >= 4 && line[0] == '[' && line[2] == ']' && line[3] == ' ' {
        if line[1] == ' ' {
            Some(false)
        } else if line[1] == 'x' || line[1] == 'X' {
            Some(true)
        } else {
            None
        }
    } else {
        None
    }
}

// ---- within a line ----

/// Whether `i` begins a word, so that `C#` and `foo#bar` are not tags and a URL
/// glued to the end of a word is not a link.
pub open spec fn is_word_start(line: Seq<char>, i: int) -> bool {
    i == 0 || opens_word(line[i - 1])
}

/// Whether a word may follow a character directly.
pub open spec fn opens_word(c: char) -> bool {
    text::white(c) || c == '(' || c == '[' || c == '{' || c == '"' || c == '\'' || c == '>'
}

/// `` `code` ``
pub open spec fn code(line: Seq<char>, i: int, offset: int, marks: markdown::Marks) -> Option<
    (int, markdown::Marks),
> {
    if line[i] != '`' {
        None
    } else {
        match text::find_text(line, seq!['`'], i + 1) {
            None => None,
            Some(close) => {
                let a = markdown::with_marker(marks, offset + i, offset + i + 1);
                let b = markdown::with_span(a, offset + i + 1, offset + close, Style::Code);
                let c = markdown::with_marker(b, offset + close, offset + close + 1);
                Some((close + 1, c))
            },
        }
    }
}

/// `![[attachment.png]]`: the brackets are syntax, the filename is not.
pub open spec fn embed(line: Seq<char>, i: int, offset: int, marks: markdown::Marks) -> Option<
    (int, markdown::Marks),
> {
    if !text::stands_at(line, seq!['!', '[', '['], i) {
        None
    } else {
        match text::find_text(line, seq![']', ']'], i + 3) {
            None => None,
            Some(close) => if close == i + 3 {
                None
            } else {
                let a = markdown::with_marker(marks, offset + i, offset + i + 3);
                let b = markdown::with_span(a, offset + i + 3, offset + close, Style::Embed);
                let c = markdown::with_marker(b, offset + close, offset + close + 2);
                Some((close + 2, c))
            },
        }
    }
}

/// Where the text of a wikilink starts that is shown: behind its pipe, if it
/// has one.
pub open spec fn display_start(line: Seq<char>, i: int, close: int) -> int {
    match text::find_text(line.take(close), seq!['|'], i + 2) {
        Some(pipe) => pipe + 1,
        None => i + 2,
    }
}

/// `[[Target]]` or `[[Target|shown instead]]`.
pub open spec fn wikilink(line: Seq<char>, i: int, offset: int, marks: markdown::Marks) -> Option<
    (int, markdown::Marks),
> {
    if !text::stands_at(line, seq!['[', '['], i) {
        None
    } else {
        match text::find_text(line, seq![']', ']'], i + 2) {
            None => None,
            Some(close) => {
                let shown = display_start(line, i, close);
                if close == i + 2 || shown >= close {
                    None
                } else {
                    let a = markdown::with_marker(marks, offset + i, offset + shown);
                    let b = markdown::with_span(a, offset + shown, offset + close, Style::WikiLink);
                    let c = markdown::with_marker(b, offset + close, offset + close + 2);
                    Some((close + 2, c))
                }
            },
        }
    }
}

/// `[label](target)`: the label is what you read, the rest is syntax.
pub open spec fn link(line: Seq<char>, i: int, offset: int, marks: markdown::Marks) -> Option<
    (int, markdown::Marks),
> {
    if line[i] != '[' {
        None
    } else {
        match text::find_text(line, seq![']'], i + 1) {
            None => None,
            Some(label) => if label == i + 1 || label + 1 >= line.len() || line[label + 1] != '(' {
                None
            } else {
                match text::find_text(line, seq![')'], label + 2) {
                    None => None,
                    Some(close) => {
                        let a = markdown::with_marker(marks, offset + i, offset + i + 1);
                        let b = markdown::with_span(a, offset + i + 1, offset + label, Style::Link);
                        let c = markdown::with_marker(b, offset + label, offset + close + 1);
                        Some((close + 1, c))
                    },
                }
            },
        }
    }
}

/// Where the word that holds a position ends.
pub open spec fn word_end(line: Seq<char>, i: int) -> int
    decreases line.len() - i,
{
    if i < 0 || i >= line.len() || text::white(line[i]) {
        i
    } else {
        word_end(line, i + 1)
    }
}

/// Whether a character at the end of a URL belongs to the sentence.
pub open spec fn is_punctuation(c: char) -> bool {
    c == '.' || c == ',' || c == ';' || c == ':' || c == '!' || c == '?' || c == ')' || c == ']'
}

/// Where a URL ends, sentence punctuation left out.
pub open spec fn url_end(line: Seq<char>, i: int, end: int) -> int
    decreases end,
{
    if end > i && end > 0 && is_punctuation(line[end - 1]) {
        url_end(line, i, end - 1)
    } else {
        end
    }
}

/// The length of the scheme of a URL.
pub open spec fn scheme(line: Seq<char>, i: int) -> Option<int> {
    if text::stands_at(line, "https://"@, i) {
        Some(8)
    } else if text::stands_at(line, "http://"@, i) {
        Some(7)
    } else {
        None
    }
}

/// A bare `https://…`. A scheme with no host is not a link yet.
pub open spec fn url(line: Seq<char>, i: int, offset: int, marks: markdown::Marks) -> Option<
    (int, markdown::Marks),
> {
    match scheme(line, i) {
        Some(n) if is_word_start(line, i) => {
            let end = url_end(line, i, word_end(line, i));
            if end <= i + n {
                None
            } else {
                Some((end, markdown::with_span(marks, offset + i, offset + end, Style::Link)))
            }
        },
        _ => None,
    }
}

/// Whether a character may stand in a tag.
pub open spec fn is_tag_char(c: char) -> bool {
    text::alphanumeric(c) || c == '-' || c == '_' || c == '/'
}

/// Where the characters of a tag end.
pub open spec fn tag_end(line: Seq<char>, i: int) -> int
    decreases line.len() - i,
{
    if i < 0 || i >= line.len() || !is_tag_char(line[i]) {
        i
    } else {
        tag_end(line, i + 1)
    }
}

/// Where a tag ends, stray slashes and dashes left out.
pub open spec fn tag_trimmed(line: Seq<char>, start: int, end: int) -> int
    decreases end,
{
    if end > start && end > 0 && (line[end - 1] == '/' || line[end - 1] == '-') {
        tag_trimmed(line, start, end - 1)
    } else {
        end
    }
}

/// `#tag`, `#nested/tag`. A digit first would make "#1 priority" a tag, which
/// is not what anyone writing it meant.
pub open spec fn tag(line: Seq<char>, i: int, offset: int, marks: markdown::Marks) -> Option<
    (int, markdown::Marks),
> {
    if line[i] != '#' || !is_word_start(line, i) || i + 1 >= line.len() || !text::alphabetic(
        line[i + 1],
    ) {
        None
    } else {
        let end = tag_trimmed(line, i + 1, tag_end(line, i + 1));
        Some((end, markdown::with_span(marks, offset + i, offset + end, Style::Tag)))
    }
}

/// A run between two of a delimiter, which must hug it: no whitespace behind
/// the opener or before the closer.
pub open spec fn emphasised(
    line: Seq<char>,
    i: int,
    offset: int,
    marks: markdown::Marks,
    delimiter: Seq<char>,
    style: Style,
) -> Option<(int, markdown::Marks)> {
    let start = i + delimiter.len();
    if !text::stands_at(line, delimiter, i) {
        None
    } else {
        match text::find_text(line, delimiter, start) {
            None => None,
            Some(close) => if close == start || text::white(line[start]) || text::white(
                line[close - 1],
            ) {
                None
            } else {
                let a = markdown::with_marker(marks, offset + i, offset + start);
                let b = markdown::with_span(a, offset + start, offset + close, style);
                let c = markdown::with_marker(
                    b,
                    offset + close,
                    offset + close + delimiter.len(),
                );
                Some((close + delimiter.len(), c))
            },
        }
    }
}

/// Bold, strikethrough and italic. Two-character delimiters are tried first, or
/// `**x**` would read as an empty italic followed by stray asterisks.
pub open spec fn emphasis(line: Seq<char>, i: int, offset: int, marks: markdown::Marks) -> Option<
    (int, markdown::Marks),
> {
    if let Some(hit) = emphasised(line, i, offset, marks, seq!['*', '*'], Style::Bold) {
        Some(hit)
    } else if let Some(hit) = emphasised(line, i, offset, marks, seq!['_', '_'], Style::Bold) {
        Some(hit)
    } else if let Some(hit) = emphasised(
        line,
        i,
        offset,
        marks,
        seq!['~', '~'],
        Style::Strikethrough,
    ) {
        Some(hit)
    } else if let Some(hit) = emphasised(line, i, offset, marks, seq!['*'], Style::Italic) {
        Some(hit)
    } else {
        emphasised(line, i, offset, marks, seq!['_'], Style::Italic)
    }
}

/// What stands at a position, and where to go on behind it.
///
/// Order is significance: code wins over everything because nothing inside it
/// is formatting; embeds before wikilinks because `![[` is a prefix problem;
/// wikilinks before links because both start with a bracket.
pub open spec fn hit(line: Seq<char>, i: int, offset: int, marks: markdown::Marks) -> Option<
    (int, markdown::Marks),
> {
    if let Some(hit) = code(line, i, offset, marks) {
        Some(hit)
    } else if let Some(hit) = embed(line, i, offset, marks) {
        Some(hit)
    } else if let Some(hit) = wikilink(line, i, offset, marks) {
        Some(hit)
    } else if let Some(hit) = link(line, i, offset, marks) {
        Some(hit)
    } else if let Some(hit) = url(line, i, offset, marks) {
        Some(hit)
    } else if let Some(hit) = tag(line, i, offset, marks) {
        Some(hit)
    } else {
        emphasis(line, i, offset, marks)
    }
}

proof fn lemma_word_end(line: Seq<char>, i: int)
    requires
        0 <= i <= line.len(),
    ensures
        i <= word_end(line, i) <= line.len(),
    decreases line.len() - i,
{
    if i < line.len() && !text::white(line[i]) {
        lemma_word_end(line, i + 1);
    }
}

proof fn lemma_url_end(line: Seq<char>, i: int, end: int)
    requires
        0 <= i <= end,
    ensures
        i <= url_end(line, i, end) <= end,
    decreases end,
{
    if end > i && is_punctuation(line[end - 1]) {
        lemma_url_end(line, i, end - 1);
    }
}

proof fn lemma_tag_end(line: Seq<char>, i: int)
    requires
        0 <= i <= line.len(),
    ensures
        i <= tag_end(line, i) <= line.len(),
    decreases line.len() - i,
{
    if i < line.len() && is_tag_char(line[i]) {
        lemma_tag_end(line, i + 1);
    }
}

proof fn lemma_tag_trimmed(line: Seq<char>, start: int, end: int)
    requires
        0 <= start <= end,
    ensures
        start <= tag_trimmed(line, start, end) <= end,
    decreases end,
{
    if end > start && (line[end - 1] == '/' || line[end - 1] == '-') {
        lemma_tag_trimmed(line, start, end - 1);
    }
}

/// Whether a scan differs from an earlier one only by what lies between two
/// offsets.
pub open spec fn adds_within(
    before: markdown::Marks,
    after: markdown::Marks,
    from: int,
    to: int,
) -> bool {
    &&& before.spans.is_prefix_of(after.spans)
    &&& before.markers.is_prefix_of(after.markers)
    &&& forall|i: int|
        before.spans.len() <= i < after.spans.len() ==> {
            let span = #[trigger] after.spans[i];
            from <= span.start < span.end <= to
        }
    &&& forall|i: int|
        before.markers.len() <= i < after.markers.len() ==> {
            let marker = #[trigger] after.markers[i];
            from <= marker.0 < marker.1 <= to
        }
}

proof fn lemma_adds_nothing(marks: markdown::Marks, from: int, to: int)
    ensures
        adds_within(marks, marks, from, to),
{
    assert(marks.spans =~= marks.spans.subrange(0, marks.spans.len() as int));
    assert(marks.markers =~= marks.markers.subrange(0, marks.markers.len() as int));
}

proof fn lemma_adds_span(
    before: markdown::Marks,
    after: markdown::Marks,
    from: int,
    to: int,
    start: int,
    end: int,
    style: Style,
)
    requires
        adds_within(before, after, from, to),
        from <= start,
        end <= to,
    ensures
        adds_within(before, markdown::with_span(after, start, end, style), from, to),
{
    let now = markdown::with_span(after, start, end, style);
    assert(before.spans =~= now.spans.subrange(0, before.spans.len() as int));
}

proof fn lemma_adds_marker(
    before: markdown::Marks,
    after: markdown::Marks,
    from: int,
    to: int,
    start: int,
    end: int,
)
    requires
        adds_within(before, after, from, to),
        from <= start,
        end <= to,
    ensures
        adds_within(before, markdown::with_marker(after, start, end), from, to),
{
    let now = markdown::with_marker(after, start, end);
    assert(before.markers =~= now.markers.subrange(0, before.markers.len() as int));
}

proof fn lemma_adds_then(
    a: markdown::Marks,
    b: markdown::Marks,
    c: markdown::Marks,
    from: int,
    to: int,
)
    requires
        adds_within(a, b, from, to),
        adds_within(b, c, from, to),
    ensures
        adds_within(a, c, from, to),
{
    assert(a.spans =~= c.spans.subrange(0, a.spans.len() as int)) by {
        assert forall|i: int| 0 <= i < a.spans.len() implies a.spans[i] == c.spans[i] by {
            assert(a.spans[i] == b.spans.subrange(0, a.spans.len() as int)[i]);
            assert(b.spans[i] == c.spans.subrange(0, b.spans.len() as int)[i]);
        }
    }
    assert(a.markers =~= c.markers.subrange(0, a.markers.len() as int)) by {
        assert forall|i: int| 0 <= i < a.markers.len() implies a.markers[i] == c.markers[i] by {
            assert(a.markers[i] == b.markers.subrange(0, a.markers.len() as int)[i]);
            assert(b.markers[i] == c.markers.subrange(0, b.markers.len() as int)[i]);
        }
    }
    assert forall|i: int| a.spans.len() <= i < c.spans.len() implies {
        let span = #[trigger] c.spans[i];
        from <= span.start < span.end <= to
    } by {
        if i < b.spans.len() {
            assert(b.spans[i] == c.spans.subrange(0, b.spans.len() as int)[i]);
        }
    }
    assert forall|i: int| a.markers.len() <= i < c.markers.len() implies {
        let marker = #[trigger] c.markers[i];
        from <= marker.0 < marker.1 <= to
    } by {
        if i < b.markers.len() {
            assert(b.markers[i] == c.markers.subrange(0, b.markers.len() as int)[i]);
        }
    }
}

proof fn lemma_emphasised(
    line: Seq<char>,
    i: int,
    offset: int,
    marks: markdown::Marks,
    delimiter: Seq<char>,
    style: Style,
)
    requires
        0 <= i < line.len(),
        delimiter.len() > 0,
    ensures
        match emphasised(line, i, offset, marks, delimiter, style) {
            Some((next, now)) => i < next <= line.len() && adds_within(
                marks,
                now,
                offset,
                offset + line.len(),
            ),
            None => true,
        },
{
    let start = i + delimiter.len();
    text::lemma_find_text(line, delimiter, start);
    if let Some((next, now)) = emphasised(line, i, offset, marks, delimiter, style) {
        let close = text::find_text(line, delimiter, start)->0;
        let end = offset + line.len();
        lemma_adds_nothing(marks, offset, end);
        let a = markdown::with_marker(marks, offset + i, offset + start);
        lemma_adds_marker(marks, marks, offset, end, offset + i, offset + start);
        let b = markdown::with_span(a, offset + start, offset + close, style);
        lemma_adds_span(marks, a, offset, end, offset + start, offset + close, style);
        lemma_adds_marker(
            marks,
            b,
            offset,
            end,
            offset + close,
            offset + close + delimiter.len(),
        );
    }
}

/// Whatever stands at a position ends behind it and within the line, and so
/// does everything it marks: a scan cannot stall and cannot overrun.
pub proof fn lemma_a_scan_moves_on(line: Seq<char>, i: int, offset: int, marks: markdown::Marks)
    requires
        0 <= i < line.len(),
    ensures
        match hit(line, i, offset, marks) {
            Some((next, now)) => i < next <= line.len() && adds_within(
                marks,
                now,
                offset,
                offset + line.len(),
            ),
            None => true,
        },
{
    let end = offset + line.len();
    lemma_adds_nothing(marks, offset, end);
    if let Some((next, now)) = code(line, i, offset, marks) {
        text::lemma_find_text(line, seq!['`'], i + 1);
        let close = text::find_text(line, seq!['`'], i + 1)->0;
        let a = markdown::with_marker(marks, offset + i, offset + i + 1);
        lemma_adds_marker(marks, marks, offset, end, offset + i, offset + i + 1);
        let b = markdown::with_span(a, offset + i + 1, offset + close, Style::Code);
        lemma_adds_span(marks, a, offset, end, offset + i + 1, offset + close, Style::Code);
        lemma_adds_marker(marks, b, offset, end, offset + close, offset + close + 1);
    } else if let Some((next, now)) = embed(line, i, offset, marks) {
        text::lemma_find_text(line, seq![']', ']'], i + 3);
        let close = text::find_text(line, seq![']', ']'], i + 3)->0;
        let a = markdown::with_marker(marks, offset + i, offset + i + 3);
        lemma_adds_marker(marks, marks, offset, end, offset + i, offset + i + 3);
        let b = markdown::with_span(a, offset + i + 3, offset + close, Style::Embed);
        lemma_adds_span(marks, a, offset, end, offset + i + 3, offset + close, Style::Embed);
        lemma_adds_marker(marks, b, offset, end, offset + close, offset + close + 2);
    } else if let Some((next, now)) = wikilink(line, i, offset, marks) {
        text::lemma_find_text(line, seq![']', ']'], i + 2);
        let close = text::find_text(line, seq![']', ']'], i + 2)->0;
        text::lemma_find_text(line.take(close), seq!['|'], i + 2);
        let shown = display_start(line, i, close);
        let a = markdown::with_marker(marks, offset + i, offset + shown);
        lemma_adds_marker(marks, marks, offset, end, offset + i, offset + shown);
        let b = markdown::with_span(a, offset + shown, offset + close, Style::WikiLink);
        lemma_adds_span(marks, a, offset, end, offset + shown, offset + close, Style::WikiLink);
        lemma_adds_marker(marks, b, offset, end, offset + close, offset + close + 2);
    } else if let Some((next, now)) = link(line, i, offset, marks) {
        text::lemma_find_text(line, seq![']'], i + 1);
        let label = text::find_text(line, seq![']'], i + 1)->0;
        text::lemma_find_text(line, seq![')'], label + 2);
        let close = text::find_text(line, seq![')'], label + 2)->0;
        let a = markdown::with_marker(marks, offset + i, offset + i + 1);
        lemma_adds_marker(marks, marks, offset, end, offset + i, offset + i + 1);
        let b = markdown::with_span(a, offset + i + 1, offset + label, Style::Link);
        lemma_adds_span(marks, a, offset, end, offset + i + 1, offset + label, Style::Link);
        lemma_adds_marker(marks, b, offset, end, offset + label, offset + close + 1);
    } else if let Some((next, now)) = url(line, i, offset, marks) {
        lemma_word_end(line, i);
        lemma_url_end(line, i, word_end(line, i));
        lemma_adds_span(marks, marks, offset, end, offset + i, offset + next, Style::Link);
    } else if let Some((next, now)) = tag(line, i, offset, marks) {
        lemma_tag_end(line, i + 1);
        lemma_tag_trimmed(line, i + 1, tag_end(line, i + 1));
        lemma_adds_span(marks, marks, offset, end, offset + i, offset + next, Style::Tag);
    } else {
        lemma_emphasised(line, i, offset, marks, seq!['*', '*'], Style::Bold);
        lemma_emphasised(line, i, offset, marks, seq!['_', '_'], Style::Bold);
        lemma_emphasised(line, i, offset, marks, seq!['~', '~'], Style::Strikethrough);
        lemma_emphasised(line, i, offset, marks, seq!['*'], Style::Italic);
        lemma_emphasised(line, i, offset, marks, seq!['_'], Style::Italic);
    }
}

/// Everything within a line from a position on: emphasis, code spans, links,
/// wikilinks, embeds and tags.
pub open spec fn inline(line: Seq<char>, i: int, offset: int, marks: markdown::Marks) -> markdown::Marks
    decreases line.len() - i,
{
    if i < 0 || i >= line.len() {
        marks
    } else {
        proof {
            lemma_a_scan_moves_on(line, i, offset, marks);
        }
        match hit(line, i, offset, marks) {
            Some((next, now)) => inline(line, next, offset, now),
            None => inline(line, i + 1, offset, marks),
        }
    }
}

fn word_start(line: &[char], i: usize) -> (r: bool)
    requires
        i < line@.len(),
    ensures
        r == is_word_start(line@, i as int),
{
    if i == 0 {
        return true;
    }
    let c = line[i - 1];
    c.is_whitespace() || c == '(' || c == '[' || c == '{' || c == '"' || c == '\'' || c == '>'
}

/// Index of the next occurrence of `needle` at or after `from`.
pub fn find(line: &[char], from: usize, needle: &[char]) -> (r: Option<usize>)
    requires
        needle@.len() > 0,
    ensures
        match r {
            Some(i) => text::find_text(line@, needle@, from as int) == Some(i as int) && from <= i
                && i + needle@.len() <= line@.len(),
            None => text::find_text(line@, needle@, from as int) is None,
        },
{
    text::position_of_text(line, needle, from)
}

fn try_code(line: &[char], i: usize, offset: usize, parsed: &mut Parsed) -> (r: Option<usize>)
    requires
        i < line@.len(),
        offset + line@.len() <= usize::MAX,
    ensures
        match r {
            Some(next) => code(line@, i as int, offset as int, old(parsed)@) == Some(
                (next as int, final(parsed)@),
            ),
            None => code(line@, i as int, offset as int, old(parsed)@) is None && final(parsed)@
                == old(parsed)@,
        },
{
    if line[i] != '`' {
        return None;
    }
    let tick = ['`'];
    assert(tick@ =~= seq!['`']);
    match find(line, i + 1, &tick) {
        None => None,
        Some(close) => {
            parsed.push_marker(offset + i, offset + i + 1);
            parsed.push_span(offset + i + 1, offset + close, Style::Code);
            parsed.push_marker(offset + close, offset + close + 1);
            Some(close + 1)
        },
    }
}

fn try_embed(line: &[char], i: usize, offset: usize, parsed: &mut Parsed) -> (r: Option<usize>)
    requires
        i < line@.len(),
        offset + line@.len() <= usize::MAX,
    ensures
        match r {
            Some(next) => embed(line@, i as int, offset as int, old(parsed)@) == Some(
                (next as int, final(parsed)@),
            ),
            None => embed(line@, i as int, offset as int, old(parsed)@) is None && final(parsed)@
                == old(parsed)@,
        },
{
    let open = ['!', '[', '['];
    let shut = [']', ']'];
    assert(open@ =~= seq!['!', '[', '[']);
    assert(shut@ =~= seq![']', ']']);
    if !text::is_at(line, &open, i) {
        return None;
    }
    match find(line, i + 3, &shut) {
        None => None,
        Some(close) => {
            if close == i + 3 {
                return None;
            }
            parsed.push_marker(offset + i, offset + i + 3);
            parsed.push_span(offset + i + 3, offset + close, Style::Embed);
            parsed.push_marker(offset + close, offset + close + 2);
            Some(close + 2)
        },
    }
}

fn try_wikilink(line: &[char], i: usize, offset: usize, parsed: &mut Parsed) -> (r: Option<usize>)
    requires
        i < line@.len(),
        offset + line@.len() <= usize::MAX,
    ensures
        match r {
            Some(next) => wikilink(line@, i as int, offset as int, old(parsed)@) == Some(
                (next as int, final(parsed)@),
            ),
            None => wikilink(line@, i as int, offset as int, old(parsed)@) is None && final(parsed)@
                == old(parsed)@,
        },
{
    let open = ['[', '['];
    let shut = [']', ']'];
    let bar = ['|'];
    assert(open@ =~= seq!['[', '[']);
    assert(shut@ =~= seq![']', ']']);
    assert(bar@ =~= seq!['|']);
    if !text::is_at(line, &open, i) {
        return None;
    }
    match find(line, i + 2, &shut) {
        None => None,
        Some(close) => {
            if close == i + 2 {
                return None;
            }
            let head = text::part(line, 0, close);
            assert(head@ =~= line@.take(close as int));
            let shown: usize = match find(&head, i + 2, &bar) {
                Some(pipe) => pipe + 1,
                None => i + 2,
            };
            if shown >= close {
                return None;
            }
            parsed.push_marker(offset + i, offset + shown);
            parsed.push_span(offset + shown, offset + close, Style::WikiLink);
            parsed.push_marker(offset + close, offset + close + 2);
            Some(close + 2)
        },
    }
}

fn try_link(line: &[char], i: usize, offset: usize, parsed: &mut Parsed) -> (r: Option<usize>)
    requires
        i < line@.len(),
        offset + line@.len() <= usize::MAX,
    ensures
        match r {
            Some(next) => link(line@, i as int, offset as int, old(parsed)@) == Some(
                (next as int, final(parsed)@),
            ),
            None => link(line@, i as int, offset as int, old(parsed)@) is None && final(parsed)@
                == old(parsed)@,
        },
{
    if line[i] != '[' {
        return None;
    }
    let shut = [']'];
    let round = [')'];
    assert(shut@ =~= seq![']']);
    assert(round@ =~= seq![')']);
    match find(line, i + 1, &shut) {
        None => None,
        Some(label) => {
            if label == i + 1 || label + 1 >= line.len() || line[label + 1] != '(' {
                return None;
            }
            match find(line, label + 2, &round) {
                None => None,
                Some(close) => {
                    parsed.push_marker(offset + i, offset + i + 1);
                    parsed.push_span(offset + i + 1, offset + label, Style::Link);
                    parsed.push_marker(offset + label, offset + close + 1);
                    Some(close + 1)
                },
            }
        },
    }
}

fn try_url(line: &[char], i: usize, offset: usize, parsed: &mut Parsed) -> (r: Option<usize>)
    requires
        i < line@.len(),
        offset + line@.len() <= usize::MAX,
    ensures
        match r {
            Some(next) => url(line@, i as int, offset as int, old(parsed)@) == Some(
                (next as int, final(parsed)@),
            ),
            None => url(line@, i as int, offset as int, old(parsed)@) is None && final(parsed)@
                == old(parsed)@,
        },
{
    if !word_start(line, i) {
        return None;
    }
    let n: usize = if text::is_at(line, &text::chars_of("https://"), i) {
        8
    } else if text::is_at(line, &text::chars_of("http://"), i) {
        7
    } else {
        return None;
    };
    proof {
        reveal_strlit("https://");
        reveal_strlit("http://");
    }
    let mut end: usize = i;
    while end < line.len() && !line[end].is_whitespace()
        invariant
            i <= end <= line@.len(),
            word_end(line@, i as int) == word_end(line@, end as int),
        decreases line@.len() - end,
    {
        end = end + 1;
    }
    let ghost whole = end as int;
    while end > i && (line[end - 1] == '.' || line[end - 1] == ',' || line[end - 1] == ';'
        || line[end - 1] == ':' || line[end - 1] == '!' || line[end - 1] == '?' || line[end - 1]
        == ')' || line[end - 1] == ']')
        invariant
            i <= end <= line@.len(),
            url_end(line@, i as int, whole) == url_end(line@, i as int, end as int),
        decreases end,
    {
        end = end - 1;
    }
    if end - i <= n {
        return None;
    }
    parsed.push_span(offset + i, offset + end, Style::Link);
    Some(end)
}

fn try_tag(line: &[char], i: usize, offset: usize, parsed: &mut Parsed) -> (r: Option<usize>)
    requires
        i < line@.len(),
        offset + line@.len() <= usize::MAX,
    ensures
        match r {
            Some(next) => tag(line@, i as int, offset as int, old(parsed)@) == Some(
                (next as int, final(parsed)@),
            ),
            None => tag(line@, i as int, offset as int, old(parsed)@) is None && final(parsed)@
                == old(parsed)@,
        },
{
    let len = line.len();
    if line[i] != '#' || !word_start(line, i) || i + 1 >= len || !line[i + 1].is_alphabetic() {
        return None;
    }
    let mut end: usize = i + 1;
    while end < len && (line[end].is_alphanumeric() || line[end] == '-' || line[end] == '_'
        || line[end] == '/')
        invariant
            i < end <= line@.len() == len,
            tag_end(line@, i + 1) == tag_end(line@, end as int),
        decreases line@.len() - end,
    {
        end = end + 1;
    }
    let ghost whole = end as int;
    while end > i + 1 && (line[end - 1] == '/' || line[end - 1] == '-')
        invariant
            i < end <= line@.len() == len,
            i < len,
            tag_trimmed(line@, i + 1, whole) == tag_trimmed(line@, i + 1, end as int),
        decreases end,
    {
        end = end - 1;
    }
    parsed.push_span(offset + i, offset + end, Style::Tag);
    Some(end)
}

fn try_between(
    line: &[char],
    i: usize,
    offset: usize,
    parsed: &mut Parsed,
    delimiter: &[char],
    style: Style,
) -> (r: Option<usize>)
    requires
        i < line@.len(),
        offset + line@.len() <= usize::MAX,
        delimiter@.len() > 0,
    ensures
        match r {
            Some(next) => emphasised(
                line@,
                i as int,
                offset as int,
                old(parsed)@,
                delimiter@,
                style,
            ) == Some((next as int, final(parsed)@)),
            None => emphasised(
                line@,
                i as int,
                offset as int,
                old(parsed)@,
                delimiter@,
                style,
            ) is None && final(parsed)@ == old(parsed)@,
        },
{
    if !text::is_at(line, delimiter, i) {
        return None;
    }
    let len = line.len();
    let start = i + delimiter.len();
    match find(line, start, delimiter) {
        None => None,
        Some(close) => {
            if close == start || line[start].is_whitespace() || line[close - 1].is_whitespace() {
                return None;
            }
            parsed.push_marker(offset + i, offset + start);
            parsed.push_span(offset + start, offset + close, style);
            parsed.push_marker(offset + close, offset + close + delimiter.len());
            Some(close + delimiter.len())
        },
    }
}

fn try_emphasis(line: &[char], i: usize, offset: usize, parsed: &mut Parsed) -> (r: Option<usize>)
    requires
        i < line@.len(),
        offset + line@.len() <= usize::MAX,
    ensures
        match r {
            Some(next) => emphasis(line@, i as int, offset as int, old(parsed)@) == Some(
                (next as int, final(parsed)@),
            ),
            None => emphasis(line@, i as int, offset as int, old(parsed)@) is None && final(parsed)@
                == old(parsed)@,
        },
{
    let stars = ['*', '*'];
    let lows = ['_', '_'];
    let tildes = ['~', '~'];
    let star = ['*'];
    let low = ['_'];
    assert(stars@ =~= seq!['*', '*']);
    assert(lows@ =~= seq!['_', '_']);
    assert(tildes@ =~= seq!['~', '~']);
    assert(star@ =~= seq!['*']);
    assert(low@ =~= seq!['_']);
    if let Some(next) = try_between(line, i, offset, parsed, &stars, Style::Bold) {
        return Some(next);
    }
    if let Some(next) = try_between(line, i, offset, parsed, &lows, Style::Bold) {
        return Some(next);
    }
    if let Some(next) = try_between(line, i, offset, parsed, &tildes, Style::Strikethrough) {
        return Some(next);
    }
    if let Some(next) = try_between(line, i, offset, parsed, &star, Style::Italic) {
        return Some(next);
    }
    try_between(line, i, offset, parsed, &low, Style::Italic)
}

fn try_all(line: &[char], i: usize, offset: usize, parsed: &mut Parsed) -> (r: Option<usize>)
    requires
        i < line@.len(),
        offset + line@.len() <= usize::MAX,
    ensures
        match r {
            Some(next) => hit(line@, i as int, offset as int, old(parsed)@) == Some(
                (next as int, final(parsed)@),
            ),
            None => hit(line@, i as int, offset as int, old(parsed)@) is None && final(parsed)@
                == old(parsed)@,
        },
{
    if let Some(next) = try_code(line, i, offset, parsed) {
        return Some(next);
    }
    if let Some(next) = try_embed(line, i, offset, parsed) {
        return Some(next);
    }
    if let Some(next) = try_wikilink(line, i, offset, parsed) {
        return Some(next);
    }
    if let Some(next) = try_link(line, i, offset, parsed) {
        return Some(next);
    }
    if let Some(next) = try_url(line, i, offset, parsed) {
        return Some(next);
    }
    if let Some(next) = try_tag(line, i, offset, parsed) {
        return Some(next);
    }
    try_emphasis(line, i, offset, parsed)
}

fn scan_inline(line: &[char], offset: usize, parsed: &mut Parsed)
    requires
        offset + line@.len() <= usize::MAX,
    ensures
        final(parsed)@ == inline(line@, 0, offset as int, old(parsed)@),
{
    let ghost wanted = inline(line@, 0, offset as int, parsed@);
    let mut i: usize = 0;
    while i < line.len()
        invariant
            i <= line@.len(),
            offset + line@.len() <= usize::MAX,
            inline(line@, i as int, offset as int, parsed@) == wanted,
        decreases line@.len() - i,
    {
        proof {
            lemma_a_scan_moves_on(line@, i as int, offset as int, parsed@);
        }
        match try_all(line, i, offset, parsed) {
            Some(next) => {
                i = next;
            },
            None => {
                i = i + 1;
            },
        }
    }
}

// ---- a whole line ----

/// A table row: the pipes stay visible, the cells are styled inline.
pub open spec fn table_row(line: Seq<char>, offset: int, marks: markdown::Marks) -> markdown::Marks {
    inline(
        line,
        0,
        offset,
        markdown::with_span(marks, offset, offset + line.len(), Style::TableRow),
    )
}

/// What a line begins with: where its content starts, how it is styled as a
/// whole, and the marks made on the way.
pub struct Opening {
    pub start: int,
    pub style: Option<Style>,
    pub levels: Seq<usize>,
    pub marks: markdown::Marks,
}

/// What the line that begins with `indent` spaces begins with behind them.
pub open spec fn opening(
    line: Seq<char>,
    offset: int,
    levels: Seq<usize>,
    marks: markdown::Marks,
) -> Opening {
    let indent = leading(line, ' ') as int;
    let rest = line.skip(indent);
    let at = offset + indent;
    let kept = if item_length(rest) is None && indent == 0 {
        seq![]
    } else {
        levels
    };
    if let Some(level) = heading_level(rest) {
        let n = level + 1;
        Opening {
            start: indent + n,
            style: Some(Style::Heading(level)),
            levels: kept,
            marks: markdown::with_marker(marks, at, at + n),
        }
    } else if rest.len() > 0 && rest[0] == '>' {
        let n: int = if rest.len() > 1 && rest[1] == ' ' {
            2
        } else {
            1
        };
        Opening {
            start: indent + n,
            style: Some(Style::Quote),
            levels: kept,
            marks: markdown::with_marker(marks, at, at + n),
        }
    } else if let Some(n) = item_length(rest) {
        let now = markdown::nested(kept, indent as usize);
        let style = Some(Style::ListItem((now.len() - 1) as usize));
        let marked = markdown::with_marker(marks, offset, at);
        match checkbox(rest.skip(n)) {
            Some(ticked) => Opening {
                start: indent + n + 3,
                style,
                levels: now,
                marks: markdown::with_span(marked, at + n, at + n + 3, Style::Task(ticked)),
            },
            None => Opening { start: indent + n, style, levels: now, marks: marked },
        }
    } else {
        Opening { start: indent, style: None, levels: kept, marks }
    }
}

/// A normal line: block prefix, then inline styling of what follows it. A
/// blank line separates items but does not end the list.
pub open spec fn content(
    line: Seq<char>,
    offset: int,
    levels: Seq<usize>,
    marks: markdown::Marks,
) -> (Seq<usize>, markdown::Marks) {
    if line.len() == 0 {
        (levels, marks)
    } else {
        let open = opening(line, offset, levels, marks);
        let styled = match open.style {
            Some(style) => markdown::with_span(
                open.marks,
                offset + open.start,
                offset + line.len(),
                style,
            ),
            None => open.marks,
        };
        (open.levels, inline(line.skip(open.start), 0, offset + open.start, styled))
    }
}

/// Where a scan stands between two lines.
pub struct Standing {
    pub state: LineState,
    pub levels: Seq<usize>,
    pub marks: markdown::Marks,
}

/// Whether the line after this one makes it the header of a table.
pub open spec fn heads_table(next: Option<Seq<char>>) -> bool {
    match next {
        Some(next) => is_table_delimiter(next),
        None => false,
    }
}

/// A line that begins in no block.
pub open spec fn normal_line(
    line: Seq<char>,
    offset: int,
    next: Option<Seq<char>>,
    levels: Seq<usize>,
    marks: markdown::Marks,
) -> Standing {
    let end = offset + line.len();
    if is_fence(line) {
        Standing {
            state: LineState::Fence,
            levels,
            marks: markdown::with_marker(marks, offset, end),
        }
    } else if is_rule(line) {
        Standing {
            state: LineState::Normal,
            levels,
            marks: markdown::with_span(marks, offset, end, Style::Rule),
        }
    } else if is_table_row(line) && heads_table(next) {
        Standing { state: LineState::Table, levels, marks: table_row(line, offset, marks) }
    } else {
        let (levels, marks) = content(line, offset, levels, marks);
        Standing { state: LineState::Normal, levels, marks }
    }
}

/// One line, and the state the next line begins in.
pub open spec fn scanned(
    line: Seq<char>,
    offset: int,
    state: LineState,
    first: bool,
    next: Option<Seq<char>>,
    levels: Seq<usize>,
    marks: markdown::Marks,
) -> Standing {
    let end = offset + line.len();
    match state {
        LineState::Frontmatter => Standing {
            state: if !first && is_delimiter(line) {
                LineState::Normal
            } else {
                LineState::Frontmatter
            },
            levels,
            marks: markdown::with_span(marks, offset, end, Style::Frontmatter),
        },
        LineState::Fence => if is_fence(line) {
            Standing {
                state: LineState::Normal,
                levels,
                marks: markdown::with_marker(marks, offset, end),
            }
        } else {
            Standing {
                state: LineState::Fence,
                levels,
                marks: markdown::with_span(marks, offset, end, Style::CodeBlock),
            }
        },
        LineState::Table => if is_table_delimiter(line) {
            Standing {
                state: LineState::Table,
                levels,
                marks: markdown::with_span(marks, offset, end, Style::TableDelimiter),
            }
        } else if is_table_row(line) {
            Standing { state: LineState::Table, levels, marks: table_row(line, offset, marks) }
        } else {
            normal_line(line, offset, next, levels, marks)
        },
        LineState::Normal => normal_line(line, offset, next, levels, marks),
    }
}

fn scan_table_row(line: &[char], offset: usize, parsed: &mut Parsed)
    requires
        offset + line@.len() <= usize::MAX,
    ensures
        final(parsed)@ == table_row(line@, offset as int, old(parsed)@),
{
    parsed.push_span(offset, offset + line.len(), Style::TableRow);
    scan_inline(line, offset, parsed);
}

fn scan_content(line: &[char], offset: usize, list: &mut ListLevels, parsed: &mut Parsed)
    requires
        offset + line@.len() <= usize::MAX,
    ensures
        (final(list)@, final(parsed)@) == content(
            line@,
            offset as int,
            old(list)@,
            old(parsed)@,
        ),
{
    let len = line.len();
    if len == 0 {
        return ;
    }
    let ghost open = opening(line@, offset as int, list@, parsed@);
    let indent = leading_of(line, ' ');
    let rest = text::part(line, indent, len);
    assert(rest@ =~= line@.skip(indent as int));
    let item = item_len(&rest);
    if item.is_none() && indent == 0 {
        list.clear();
    }
    let at = offset + indent;
    let mut start: usize = indent;
    let mut style: Option<Style> = None;
    if let Some(level) = heading(&rest) {
        let n = level as usize + 1;
        parsed.push_marker(at, at + n);
        start = indent + n;
        style = Some(Style::Heading(level));
    } else if rest.len() > 0 && rest[0] == '>' {
        let n: usize = if rest.len() > 1 && rest[1] == ' ' {
            2
        } else {
            1
        };
        parsed.push_marker(at, at + n);
        start = indent + n;
        style = Some(Style::Quote);
    } else if let Some(n) = item {
        parsed.push_marker(offset, at);
        style = Some(Style::ListItem(list.depth(indent)));
        let after = text::part(&rest, n, rest.len());
        assert(after@ =~= rest@.skip(n as int));
        match ticked(&after) {
            Some(done) => {
                parsed.push_span(at + n, at + n + 3, Style::Task(done));
                start = indent + n + 3;
            },
            None => {
                start = indent + n;
            },
        }
    }
    assert(start == open.start);
    assert(style == open.style);
    assert(parsed@ == open.marks);
    assert(list@ =~= open.levels);
    if let Some(style) = style {
        parsed.push_span(offset + start, offset + len, style);
    }
    let tail = text::part(line, start, len);
    assert(tail@ =~= line@.skip(start as int));
    scan_inline(&tail, offset + start, parsed);
}

fn scan_normal(
    chars: &[char],
    offset: usize,
    next: Option<&[char]>,
    list: &mut ListLevels,
    parsed: &mut Parsed,
) -> (r: LineState)
    requires
        offset + chars@.len() <= usize::MAX,
    ensures
        (Standing { state: r, levels: final(list)@, marks: final(parsed)@ }) == normal_line(
            chars@,
            offset as int,
            match next {
                Some(n) => Some(n@),
                None => None,
            },
            old(list)@,
            old(parsed)@,
        ),
{
    let end = offset + chars.len();
    if fence(chars) {
        parsed.push_marker(offset, end);
        return LineState::Fence;
    }
    if rule(chars) {
        parsed.push_span(offset, end, Style::Rule);
        return LineState::Normal;
    }
    let heads = match next {
        Some(n) => table_delimiter(n),
        None => false,
    };
    if table_row_line(chars) && heads {
        scan_table_row(chars, offset, parsed);
        return LineState::Table;
    }
    scan_content(chars, offset, list, parsed);
    LineState::Normal
}

/// Scan one line, and report the state the *next* line begins in.
///
/// `first` marks the note's opening line, which is the only place a `---` can
/// open frontmatter rather than draw a thematic break. `next` is the line
/// after this one, which only tables need: a row of pipes is a table header if
/// and only if a delimiter row follows it.
pub fn line(
    chars: &[char],
    offset: usize,
    state: LineState,
    first: bool,
    next: Option<&[char]>,
    list: &mut ListLevels,
    parsed: &mut Parsed,
) -> (r: LineState)
    requires
        offset + chars@.len() <= usize::MAX,
    ensures
        (Standing { state: r, levels: final(list)@, marks: final(parsed)@ }) == scanned(
            chars@,
            offset as int,
            state,
            first,
            match next {
                Some(n) => Some(n@),
                None => None,
            },
            old(list)@,
            old(parsed)@,
        ),
{
    let end = offset + chars.len();
    match state {
        LineState::Frontmatter => {
            parsed.push_span(offset, end, Style::Frontmatter);
            if !first && delimiter(chars) {
                LineState::Normal
            } else {
                LineState::Frontmatter
            }
        },
        LineState::Fence => {
            if fence(chars) {
                parsed.push_marker(offset, end);
                LineState::Normal
            } else {
                parsed.push_span(offset, end, Style::CodeBlock);
                LineState::Fence
            }
        },
        LineState::Table => {
            if table_delimiter(chars) {
                parsed.push_span(offset, end, Style::TableDelimiter);
                LineState::Table
            } else if table_row_line(chars) {
                scan_table_row(chars, offset, parsed);
                LineState::Table
            } else {
                scan_normal(chars, offset, next, list, parsed)
            }
        },
        LineState::Normal => scan_normal(chars, offset, next, list, parsed),
    }
}

// ---- what holds of every line ----

proof fn lemma_inline_within(line: Seq<char>, i: int, offset: int, marks: markdown::Marks)
    ensures
        adds_within(marks, inline(line, i, offset, marks), offset, offset + line.len()),
    decreases line.len() - i,
{
    let end = offset + line.len();
    lemma_adds_nothing(marks, offset, end);
    if 0 <= i < line.len() {
        lemma_a_scan_moves_on(line, i, offset, marks);
        match hit(line, i, offset, marks) {
            Some((next, now)) => {
                lemma_inline_within(line, next, offset, now);
                lemma_adds_then(marks, now, inline(line, next, offset, now), offset, end);
            },
            None => {
                lemma_inline_within(line, i + 1, offset, marks);
            },
        }
    }
}

proof fn lemma_leading(line: Seq<char>, c: char)
    ensures
        leading(line, c) <= line.len(),
    decreases line.len(),
{
    if line.len() > 0 && line[0] == c {
        lemma_leading(line.skip(1), c);
    }
}

proof fn lemma_wider(
    before: markdown::Marks,
    after: markdown::Marks,
    from: int,
    to: int,
    wider_from: int,
    wider_to: int,
)
    requires
        adds_within(before, after, from, to),
        wider_from <= from,
        to <= wider_to,
    ensures
        adds_within(before, after, wider_from, wider_to),
{
}

proof fn lemma_content_within(
    line: Seq<char>,
    offset: int,
    levels: Seq<usize>,
    marks: markdown::Marks,
)
    ensures
        adds_within(marks, content(line, offset, levels, marks).1, offset, offset + line.len()),
{
    let end = offset + line.len();
    lemma_adds_nothing(marks, offset, end);
    if line.len() > 0 {
        let open = opening(line, offset, levels, marks);
        let indent = leading(line, ' ') as int;
        lemma_leading(line, ' ');
        let rest = line.skip(indent);
        let at = offset + indent;
        lemma_leading(rest, '#');
        if let Some(level) = heading_level(rest) {
            lemma_adds_marker(marks, marks, offset, end, at, at + level + 1);
        } else if rest.len() > 0 && rest[0] == '>' {
            lemma_adds_marker(marks, marks, offset, end, at, offset + open.start);
        } else if let Some(n) = item_length(rest) {
            lemma_adds_marker(marks, marks, offset, end, offset, at);
            let marked = markdown::with_marker(marks, offset, at);
            if let Some(done) = checkbox(rest.skip(n)) {
                lemma_adds_span(marks, marked, offset, end, at + n, at + n + 3, Style::Task(done));
            }
        }
        assert(open.start <= line.len());
        let styled = match open.style {
            Some(style) => {
                lemma_adds_span(
                    marks,
                    open.marks,
                    offset,
                    end,
                    offset + open.start,
                    end,
                    style,
                );
                markdown::with_span(open.marks, offset + open.start, end, style)
            },
            None => open.marks,
        };
        let tail = line.skip(open.start);
        lemma_inline_within(tail, 0, offset + open.start, styled);
        let last = inline(tail, 0, offset + open.start, styled);
        lemma_wider(styled, last, offset + open.start, end, offset, end);
        lemma_adds_then(marks, styled, last, offset, end);
    }
}

/// Scanning a line marks nothing outside it, marks no empty run, and leaves
/// what was marked before as it was.
pub proof fn lemma_a_line_is_marked_within_itself(
    line: Seq<char>,
    offset: int,
    state: LineState,
    first: bool,
    next: Option<Seq<char>>,
    levels: Seq<usize>,
    marks: markdown::Marks,
)
    ensures
        adds_within(
            marks,
            scanned(line, offset, state, first, next, levels, marks).marks,
            offset,
            offset + line.len(),
        ),
{
    let end = offset + line.len();
    lemma_adds_nothing(marks, offset, end);
    lemma_adds_marker(marks, marks, offset, end, offset, end);
    lemma_adds_span(marks, marks, offset, end, offset, end, Style::Frontmatter);
    lemma_adds_span(marks, marks, offset, end, offset, end, Style::CodeBlock);
    lemma_adds_span(marks, marks, offset, end, offset, end, Style::TableDelimiter);
    lemma_adds_span(marks, marks, offset, end, offset, end, Style::Rule);
    lemma_adds_span(marks, marks, offset, end, offset, end, Style::TableRow);
    let row = markdown::with_span(marks, offset, end, Style::TableRow);
    lemma_inline_within(line, 0, offset, row);
    lemma_adds_then(marks, row, inline(line, 0, offset, row), offset, end);
    lemma_content_within(line, offset, levels, marks);
}

// ---- what each piece of syntax means ----

/// A scan with some more spans and markers in it.
pub open spec fn plus(
    marks: markdown::Marks,
    spans: Seq<markdown::SpanView>,
    markers: Seq<(int, int)>,
) -> markdown::Marks {
    markdown::Marks { spans: marks.spans + spans, markers: marks.markers + markers }
}

/// A span.
pub open spec fn span(start: int, end: int, style: Style) -> markdown::SpanView {
    markdown::SpanView { start, end, style }
}

/// Whether a word may begin at a position: at the start of the line, behind
/// whitespace, and behind an opening bracket, a quote or an angle bracket.
pub open spec fn may_begin(line: Seq<char>, i: int) -> bool {
    i == 0 || text::white(line[i - 1]) || line[i - 1] == '(' || line[i - 1] == '[' || line[i - 1]
        == '{' || line[i - 1] == '"' || line[i - 1] == '\'' || line[i - 1] == '>'
}

proof fn lemma_stands_one(line: Seq<char>, c: char, j: int)
    ensures
        text::stands_at(line, seq![c], j) == (0 <= j < line.len() && line[j] == c),
{
    if 0 <= j < line.len() {
        let part = line.subrange(j, j + 1);
        if line[j] == c {
            assert(part =~= seq![c]);
        }
        if part == seq![c] {
            assert(part[0] == c);
        }
    }
}

proof fn lemma_stands_two(line: Seq<char>, c: char, d: char, j: int)
    ensures
        text::stands_at(line, seq![c, d], j) == (0 <= j && j + 1 < line.len() && line[j] == c
            && line[j + 1] == d),
{
    if 0 <= j && j + 1 < line.len() {
        let part = line.subrange(j, j + 2);
        if line[j] == c && line[j + 1] == d {
            assert(part =~= seq![c, d]);
        }
        if part == seq![c, d] {
            assert(part[0] == c && part[1] == d);
        }
    }
}

proof fn lemma_stands_three(line: Seq<char>, c: char, d: char, e: char, j: int)
    ensures
        text::stands_at(line, seq![c, d, e], j) == (0 <= j && j + 2 < line.len() && line[j] == c
            && line[j + 1] == d && line[j + 2] == e),
{
    if 0 <= j && j + 2 < line.len() {
        let part = line.subrange(j, j + 3);
        if line[j] == c && line[j + 1] == d && line[j + 2] == e {
            assert(part =~= seq![c, d, e]);
        }
        if part == seq![c, d, e] {
            assert(part[0] == c && part[1] == d && part[2] == e);
        }
    }
}

proof fn lemma_found_at(line: Seq<char>, needle: Seq<char>, from: int, at: int)
    requires
        0 <= from <= at,
        text::stands_at(line, needle, at),
        forall|j: int| from <= j < at ==> !text::stands_at(line, needle, j),
    ensures
        text::find_text(line, needle, from) == Some(at),
{
    text::lemma_find_text(line, needle, from);
}

proof fn lemma_found_one(line: Seq<char>, c: char, from: int, at: int)
    requires
        0 <= from <= at < line.len(),
        line[at] == c,
        forall|j: int| from <= j < at ==> line[j] != c,
    ensures
        text::find_text(line, seq![c], from) == Some(at),
{
    lemma_stands_one(line, c, at);
    assert forall|j: int| from <= j < at implies !text::stands_at(line, seq![c], j) by {
        lemma_stands_one(line, c, j);
    }
    lemma_found_at(line, seq![c], from, at);
}

proof fn lemma_found_two(line: Seq<char>, c: char, d: char, from: int, at: int)
    requires
        0 <= from <= at,
        at + 1 < line.len(),
        line[at] == c,
        line[at + 1] == d,
        forall|j: int| from <= j < at ==> !(line[j] == c && #[trigger] line[j + 1] == d),
    ensures
        text::find_text(line, seq![c, d], from) == Some(at),
{
    lemma_stands_two(line, c, d, at);
    assert forall|j: int| from <= j < at implies !text::stands_at(line, seq![c, d], j) by {
        lemma_stands_two(line, c, d, j);
        let _ = line[j + 1];
    }
    lemma_found_at(line, seq![c, d], from, at);
}

proof fn lemma_no_scheme(line: Seq<char>, i: int)
    requires
        0 <= i < line.len(),
        line[i] != 'h',
    ensures
        scheme(line, i) is None,
{
    reveal_strlit("https://");
    reveal_strlit("http://");
    if text::stands_at(line, "https://"@, i) {
        assert(line.subrange(i, i + 8)[0] == line[i]);
    }
    if text::stands_at(line, "http://"@, i) {
        assert(line.subrange(i, i + 7)[0] == line[i]);
    }
}

proof fn lemma_no_emphasis(line: Seq<char>, i: int, offset: int, marks: markdown::Marks)
    requires
        0 <= i < line.len(),
        line[i] != '*',
        line[i] != '_',
        line[i] != '~' || i + 1 >= line.len() || line[i + 1] != '~',
    ensures
        emphasis(line, i, offset, marks) is None,
{
    lemma_stands_two(line, '*', '*', i);
    lemma_stands_two(line, '_', '_', i);
    lemma_stands_two(line, '~', '~', i);
    lemma_stands_one(line, '*', i);
    lemma_stands_one(line, '_', i);
}

proof fn lemma_no_brackets(line: Seq<char>, i: int, offset: int, marks: markdown::Marks)
    requires
        0 <= i < line.len(),
    ensures
        line[i] != '!' ==> embed(line, i, offset, marks) is None,
        line[i] != '[' ==> wikilink(line, i, offset, marks) is None && link(
            line,
            i,
            offset,
            marks,
        ) is None,
        i + 1 >= line.len() || line[i + 1] != '[' ==> wikilink(line, i, offset, marks) is None
            && embed(line, i, offset, marks) is None,
{
    lemma_stands_three(line, '!', '[', '[', i);
    lemma_stands_two(line, '[', '[', i);
}

/// Ordinary characters are only themselves: the scan goes on behind one that
/// begins no syntax.
pub proof fn lemma_ordinary_text_is_left_alone(
    line: Seq<char>,
    i: int,
    offset: int,
    marks: markdown::Marks,
)
    requires
        0 <= i < line.len(),
        line[i] != '`' && line[i] != '!' && line[i] != '[' && line[i] != '#' && line[i] != '*'
            && line[i] != '_' && line[i] != '~',
        line[i] != 'h' || !may_begin(line, i),
    ensures
        inline(line, i, offset, marks) == inline(line, i + 1, offset, marks),
{
    lemma_no_brackets(line, i, offset, marks);
    lemma_no_emphasis(line, i, offset, marks);
    if line[i] != 'h' {
        lemma_no_scheme(line, i);
    }
}

/// A scan that has come to the end of a line adds nothing more.
pub proof fn lemma_a_scan_ends_with_the_line(
    line: Seq<char>,
    offset: int,
    marks: markdown::Marks,
)
    ensures
        inline(line, line.len() as int, offset, marks) == marks,
{
}

/// Between two backticks, with none between them, is code: it is styled, the
/// backticks are hidden, and nothing in it is looked at again.
pub proof fn lemma_code_is_between_backticks(
    line: Seq<char>,
    i: int,
    close: int,
    offset: int,
    marks: markdown::Marks,
)
    requires
        0 <= i,
        i + 1 < close < line.len(),
        line[i] == '`',
        line[close] == '`',
        forall|j: int| i < j < close ==> line[j] != '`',
    ensures
        inline(line, i, offset, marks) == inline(
            line,
            close + 1,
            offset,
            plus(
                marks,
                seq![span(offset + i + 1, offset + close, Style::Code)],
                seq![(offset + i, offset + i + 1), (offset + close, offset + close + 1)],
            ),
        ),
{
    lemma_found_one(line, '`', i + 1, close);
    let now = (code(line, i, offset, marks)->Some_0).1;
    assert(now =~= plus(
        marks,
        seq![span(offset + i + 1, offset + close, Style::Code)],
        seq![(offset + i, offset + i + 1), (offset + close, offset + close + 1)],
    ));
}

/// Between `![[` and the first `]]` stands an attachment: its name is styled and
/// the brackets are hidden.
pub proof fn lemma_an_embed_is_between_its_brackets(
    line: Seq<char>,
    i: int,
    close: int,
    offset: int,
    marks: markdown::Marks,
)
    requires
        0 <= i,
        i + 3 < close,
        close + 1 < line.len(),
        line[i] == '!' && line[i + 1] == '[' && line[i + 2] == '[',
        line[close] == ']' && line[close + 1] == ']',
        forall|j: int| i + 3 <= j < close ==> !(line[j] == ']' && #[trigger] line[j + 1] == ']'),
    ensures
        inline(line, i, offset, marks) == inline(
            line,
            close + 2,
            offset,
            plus(
                marks,
                seq![span(offset + i + 3, offset + close, Style::Embed)],
                seq![(offset + i, offset + i + 3), (offset + close, offset + close + 2)],
            ),
        ),
{
    lemma_stands_three(line, '!', '[', '[', i);
    lemma_found_two(line, ']', ']', i + 3, close);
    let now = (embed(line, i, offset, marks)->Some_0).1;
    assert(now =~= plus(
        marks,
        seq![span(offset + i + 3, offset + close, Style::Embed)],
        seq![(offset + i, offset + i + 3), (offset + close, offset + close + 2)],
    ));
}

/// Between `[[` and the first `]]` stands a link to a note. What is styled is
/// what is behind its first pipe, or all of it where there is none; the
/// brackets and what is before the pipe are hidden.
pub proof fn lemma_a_wikilink_shows_what_is_behind_its_pipe(
    line: Seq<char>,
    i: int,
    shown: int,
    close: int,
    offset: int,
    marks: markdown::Marks,
)
    requires
        0 <= i,
        i + 2 <= shown < close,
        close + 1 < line.len(),
        line[i] == '[' && line[i + 1] == '[',
        line[close] == ']' && line[close + 1] == ']',
        forall|j: int| i + 2 <= j < close ==> !(line[j] == ']' && #[trigger] line[j + 1] == ']'),
        if shown == i + 2 {
            forall|j: int| i + 2 <= j < close ==> line[j] != '|'
        } else {
            line[shown - 1] == '|' && forall|j: int| i + 2 <= j < shown - 1 ==> line[j] != '|'
        },
    ensures
        inline(line, i, offset, marks) == inline(
            line,
            close + 2,
            offset,
            plus(
                marks,
                seq![span(offset + shown, offset + close, Style::WikiLink)],
                seq![(offset + i, offset + shown), (offset + close, offset + close + 2)],
            ),
        ),
{
    lemma_no_brackets(line, i, offset, marks);
    lemma_stands_two(line, '[', '[', i);
    lemma_found_two(line, ']', ']', i + 2, close);
    let head = line.take(close);
    if shown == i + 2 {
        text::lemma_find_text(head, seq!['|'], i + 2);
        if let Some(p) = text::find_text(head, seq!['|'], i + 2) {
            lemma_stands_one(head, '|', p);
            assert(line[p] == head[p]);
        }
    } else {
        assert(head[shown - 1] == line[shown - 1]);
        assert forall|j: int| i + 2 <= j < shown - 1 implies head[j] != '|' by {
            assert(head[j] == line[j]);
        }
        lemma_found_one(head, '|', i + 2, shown - 1);
    }
    let now = (wikilink(line, i, offset, marks)->Some_0).1;
    assert(now =~= plus(
        marks,
        seq![span(offset + shown, offset + close, Style::WikiLink)],
        seq![(offset + i, offset + shown), (offset + close, offset + close + 2)],
    ));
}

/// A label in brackets with an address in round ones behind it is a link: the
/// label is styled, and the rest is hidden.
pub proof fn lemma_a_link_shows_its_label(
    line: Seq<char>,
    i: int,
    label: int,
    close: int,
    offset: int,
    marks: markdown::Marks,
)
    requires
        0 <= i,
        i + 1 < label,
        label + 1 < close < line.len(),
        line[i] == '[' && line[i + 1] != '[',
        line[label] == ']' && line[label + 1] == '(',
        line[close] == ')',
        forall|j: int| i < j < label ==> line[j] != ']',
        forall|j: int| label + 2 <= j < close ==> line[j] != ')',
    ensures
        inline(line, i, offset, marks) == inline(
            line,
            close + 1,
            offset,
            plus(
                marks,
                seq![span(offset + i + 1, offset + label, Style::Link)],
                seq![(offset + i, offset + i + 1), (offset + label, offset + close + 1)],
            ),
        ),
{
    lemma_no_brackets(line, i, offset, marks);
    lemma_found_one(line, ']', i + 1, label);
    lemma_found_one(line, ')', label + 2, close);
    let now = (link(line, i, offset, marks)->Some_0).1;
    assert(now =~= plus(
        marks,
        seq![span(offset + i + 1, offset + label, Style::Link)],
        seq![(offset + i, offset + i + 1), (offset + label, offset + close + 1)],
    ));
}

/// Whether a character at the end of an address belongs to the sentence.
pub open spec fn ends_sentence(c: char) -> bool {
    c == '.' || c == ',' || c == ';' || c == ':' || c == '!' || c == '?' || c == ')' || c == ']'
}

proof fn lemma_word_end_at(line: Seq<char>, i: int, end: int)
    requires
        0 <= i <= end <= line.len(),
        forall|j: int| i <= j < end ==> !text::white(#[trigger] line[j]),
        end < line.len() ==> text::white(line[end]),
    ensures
        word_end(line, i) == end,
    decreases end - i,
{
    if i < end {
        assert(!text::white(line[i]));
        lemma_word_end_at(line, i + 1, end);
    }
}

proof fn lemma_url_end_at(line: Seq<char>, i: int, end: int, word: int)
    requires
        0 <= i < end <= word <= line.len(),
        !ends_sentence(line[end - 1]),
        forall|j: int| end <= j < word ==> ends_sentence(#[trigger] line[j]),
    ensures
        url_end(line, i, word) == end,
    decreases word - end,
{
    if end < word {
        assert(ends_sentence(line[word - 1]));
        lemma_url_end_at(line, i, end, word - 1);
    }
}

/// A bare address at the start of a word is a link up to the end of the word,
/// without the punctuation that the sentence ends with: `host` is where the
/// host begins, behind `http://` or `https://`, and something is left of it.
pub proof fn lemma_a_bare_address_is_a_link(
    line: Seq<char>,
    i: int,
    host: int,
    end: int,
    word: int,
    offset: int,
    marks: markdown::Marks,
)
    requires
        0 <= i < host < end <= word <= line.len(),
        may_begin(line, i),
        line.subrange(i, host) == "http://"@ || line.subrange(i, host) == "https://"@,
        forall|j: int| i <= j < word ==> !text::white(#[trigger] line[j]),
        word < line.len() ==> text::white(line[word]),
        !ends_sentence(line[end - 1]),
        forall|j: int| end <= j < word ==> ends_sentence(#[trigger] line[j]),
    ensures
        inline(line, i, offset, marks) == inline(
            line,
            end,
            offset,
            plus(marks, seq![span(offset + i, offset + end, Style::Link)], seq![]),
        ),
{
    reveal_strlit("https://");
    reveal_strlit("http://");
    assert(line.subrange(i, host)[0] == line[i]);
    lemma_no_brackets(line, i, offset, marks);
    lemma_word_end_at(line, i, word);
    lemma_url_end_at(line, i, end, word);
    if line.subrange(i, host) == "http://"@ {
        assert(host == i + 7);
        if text::stands_at(line, "https://"@, i) {
            assert(line.subrange(i, i + 8)[4] == line[i + 4]);
            assert(line.subrange(i, i + 7)[4] == line[i + 4]);
        }
    } else {
        assert(host == i + 8);
    }
    let now = (url(line, i, offset, marks)->Some_0).1;
    assert(now =~= plus(marks, seq![span(offset + i, offset + end, Style::Link)], seq![]));
}

proof fn lemma_tag_end_at(line: Seq<char>, i: int, end: int)
    requires
        0 <= i <= end <= line.len(),
        forall|j: int|
            i <= j < end ==> text::alphanumeric(#[trigger] line[j]) || line[j] == '-' || line[j]
                == '_' || line[j] == '/',
        end < line.len() ==> !(text::alphanumeric(line[end]) || line[end] == '-' || line[end]
            == '_' || line[end] == '/'),
    ensures
        tag_end(line, i) == end,
    decreases end - i,
{
    if i < end {
        let _ = line[i];
        assert(is_tag_char(line[i]));
        lemma_tag_end_at(line, i + 1, end);
    }
}

proof fn lemma_tag_trimmed_at(line: Seq<char>, start: int, end: int, last: int)
    requires
        0 <= start < end <= last <= line.len(),
        line[end - 1] != '/' && line[end - 1] != '-',
        forall|j: int| end <= j < last ==> #[trigger] line[j] == '/' || line[j] == '-',
    ensures
        tag_trimmed(line, start, last) == end,
    decreases last - end,
{
    if end < last {
        let _ = line[last - 1];
        lemma_tag_trimmed_at(line, start, end, last - 1);
    }
}

/// A hash at the start of a word with a letter behind it is a tag: it goes on
/// over letters, digits, dashes, underscores and slashes, and the dashes and
/// slashes at its end are left out of it.
pub proof fn lemma_a_tag_begins_with_a_letter(
    line: Seq<char>,
    i: int,
    end: int,
    last: int,
    offset: int,
    marks: markdown::Marks,
)
    requires
        0 <= i,
        i + 1 < end <= last <= line.len(),
        line[i] == '#',
        may_begin(line, i),
        text::alphabetic(line[i + 1]),
        forall|j: int|
            i < j < last ==> text::alphanumeric(#[trigger] line[j]) || line[j] == '-' || line[j]
                == '_' || line[j] == '/',
        last < line.len() ==> !(text::alphanumeric(line[last]) || line[last] == '-' || line[last]
            == '_' || line[last] == '/'),
        line[end - 1] != '/' && line[end - 1] != '-',
        forall|j: int| end <= j < last ==> #[trigger] line[j] == '/' || line[j] == '-',
    ensures
        inline(line, i, offset, marks) == inline(
            line,
            end,
            offset,
            plus(marks, seq![span(offset + i, offset + end, Style::Tag)], seq![]),
        ),
{
    lemma_no_brackets(line, i, offset, marks);
    lemma_no_scheme(line, i);
    lemma_tag_end_at(line, i + 1, last);
    lemma_tag_trimmed_at(line, i + 1, end, last);
    let now = (tag(line, i, offset, marks)->Some_0).1;
    assert(now =~= plus(marks, seq![span(offset + i, offset + end, Style::Tag)], seq![]));
}

/// A hash in the middle of a word, or with no letter behind it, is no tag.
pub proof fn lemma_a_hash_alone_is_no_tag(
    line: Seq<char>,
    i: int,
    offset: int,
    marks: markdown::Marks,
)
    requires
        0 <= i < line.len(),
        line[i] == '#',
        !may_begin(line, i) || i + 1 >= line.len() || !text::alphabetic(line[i + 1]),
    ensures
        inline(line, i, offset, marks) == inline(line, i + 1, offset, marks),
{
    lemma_no_brackets(line, i, offset, marks);
    lemma_no_scheme(line, i);
    lemma_no_emphasis(line, i, offset, marks);
}

/// How a pair of delimiters styles what is between it: two asterisks or two
/// underscores bold, two tildes struck through.
pub open spec fn pair_style(c: char) -> Style {
    if c == '~' {
        Style::Strikethrough
    } else {
        Style::Bold
    }
}

/// Text between two doubled delimiters that hug it is bold or struck through:
/// it is styled and the delimiters are hidden.
pub proof fn lemma_doubled_delimiters_stress_what_they_hug(
    line: Seq<char>,
    i: int,
    c: char,
    close: int,
    offset: int,
    marks: markdown::Marks,
)
    requires
        0 <= i,
        i + 2 < close,
        close + 1 < line.len(),
        c == '*' || c == '_' || c == '~',
        line[i] == c && line[i + 1] == c,
        line[close] == c && line[close + 1] == c,
        forall|j: int| i + 2 <= j < close ==> !(line[j] == c && #[trigger] line[j + 1] == c),
        !text::white(line[i + 2]) && !text::white(line[close - 1]),
    ensures
        inline(line, i, offset, marks) == inline(
            line,
            close + 2,
            offset,
            plus(
                marks,
                seq![span(offset + i + 2, offset + close, pair_style(c))],
                seq![(offset + i, offset + i + 2), (offset + close, offset + close + 2)],
            ),
        ),
{
    lemma_no_brackets(line, i, offset, marks);
    lemma_no_scheme(line, i);
    lemma_stands_two(line, '*', '*', i);
    lemma_stands_two(line, '_', '_', i);
    lemma_stands_two(line, '~', '~', i);
    lemma_found_two(line, c, c, i + 2, close);
    assert(seq![c, c].len() == 2);
    let now = (emphasised(line, i, offset, marks, seq![c, c], pair_style(c))->Some_0).1;
    assert(now =~= plus(
        marks,
        seq![span(offset + i + 2, offset + close, pair_style(c))],
        seq![(offset + i, offset + i + 2), (offset + close, offset + close + 2)],
    ));
}

/// Text between two single asterisks or underscores that hug it is italic: it
/// is styled and the delimiters are hidden.
pub proof fn lemma_single_delimiters_slant_what_they_hug(
    line: Seq<char>,
    i: int,
    c: char,
    close: int,
    offset: int,
    marks: markdown::Marks,
)
    requires
        0 <= i,
        i + 1 < close < line.len(),
        c == '*' || c == '_',
        line[i] == c && line[i + 1] != c,
        line[close] == c,
        forall|j: int| i < j < close ==> line[j] != c,
        !text::white(line[i + 1]) && !text::white(line[close - 1]),
    ensures
        inline(line, i, offset, marks) == inline(
            line,
            close + 1,
            offset,
            plus(
                marks,
                seq![span(offset + i + 1, offset + close, Style::Italic)],
                seq![(offset + i, offset + i + 1), (offset + close, offset + close + 1)],
            ),
        ),
{
    lemma_no_brackets(line, i, offset, marks);
    lemma_no_scheme(line, i);
    lemma_stands_two(line, '*', '*', i);
    lemma_stands_two(line, '_', '_', i);
    lemma_stands_two(line, '~', '~', i);
    lemma_stands_one(line, '*', i);
    lemma_stands_one(line, '_', i);
    lemma_found_one(line, c, i + 1, close);
    assert(seq![c].len() == 1);
    let now = (emphasised(line, i, offset, marks, seq![c], Style::Italic)->Some_0).1;
    assert(now =~= plus(
        marks,
        seq![span(offset + i + 1, offset + close, Style::Italic)],
        seq![(offset + i, offset + i + 1), (offset + close, offset + close + 1)],
    ));
}

/// A delimiter with whitespace behind it stresses nothing.
pub proof fn lemma_a_loose_delimiter_stresses_nothing(
    line: Seq<char>,
    i: int,
    offset: int,
    marks: markdown::Marks,
)
    requires
        0 <= i,
        i + 1 < line.len(),
        line[i] == '*' || line[i] == '_' || line[i] == '~',
        text::white(line[i + 1]),
    ensures
        inline(line, i, offset, marks) == inline(line, i + 1, offset, marks),
{
    lemma_no_brackets(line, i, offset, marks);
    lemma_no_scheme(line, i);
    lemma_stands_two(line, '*', '*', i);
    lemma_stands_two(line, '_', '_', i);
    lemma_stands_two(line, '~', '~', i);
    lemma_stands_one(line, '*', i);
    lemma_stands_one(line, '_', i);
    assert(seq!['*'].len() == 1);
    assert(seq!['_'].len() == 1);
}

// ---- what each kind of line means ----

/// Whether a text is nothing but spaces.
pub open spec fn is_spaces(s: Seq<char>) -> bool {
    forall|i: int| 0 <= i < s.len() ==> #[trigger] s[i] == ' '
}

/// Whether a line is spaces and then three backticks or three tildes.
pub open spec fn opens_fence(line: Seq<char>) -> bool {
    exists|n: int|
        0 <= n && n + 2 < line.len() && is_spaces(#[trigger] line.take(n)) && line[n] == line[n
            + 1] && line[n] == line[n + 2] && (line[n] == '`' || line[n] == '~')
}

/// Whether a line is, whitespace aside, three or more of one of `-`, `*`, `_`.
pub open spec fn is_break(line: Seq<char>) -> bool {
    let ink = text::ink(line);
    &&& ink.len() >= 3
    &&& ink[0] == '-' || ink[0] == '*' || ink[0] == '_'
    &&& forall|i: int| 0 <= i < ink.len() ==> #[trigger] ink[i] == ink[0]
}

/// Whether a line is spaces, a pipe, and has another pipe behind it.
pub open spec fn has_pipes(line: Seq<char>) -> bool {
    exists|n: int, m: int|
        0 <= n < m < line.len() && is_spaces(#[trigger] line.take(n)) && line[n] == '|'
            && #[trigger] line[m] == '|'
}

/// Whether a text begins with one to six hashes and a space.
pub open spec fn begins_heading(s: Seq<char>, n: int) -> bool {
    1 <= n <= 6 && n < s.len() && s[n] == ' ' && forall|i: int| 0 <= i < n ==> #[trigger] s[i] == '#'
}

/// Whether a text is a bullet or a number with its full stop or bracket, and a
/// space.
pub open spec fn is_item_marker(m: Seq<char>) -> bool {
    let n = m.len();
    &&& n >= 2 && m[n - 1] == ' '
    &&& if n == 2 {
        m[0] == '-' || m[0] == '*' || m[0] == '+'
    } else {
        (m[n - 2] == '.' || m[n - 2] == ')') && forall|i: int|
            0 <= i < n - 2 ==> '0' <= #[trigger] m[i] && m[i] <= '9'
    }
}

proof fn lemma_leading_run(line: Seq<char>, c: char, n: int)
    requires
        0 <= n <= line.len(),
        forall|i: int| 0 <= i < n ==> line[i] == c,
        n < line.len() ==> line[n] != c,
    ensures
        leading(line, c) == n,
    decreases n,
{
    if n > 0 {
        let rest = line.skip(1);
        assert forall|i: int| 0 <= i < n - 1 implies rest[i] == c by {
            assert(rest[i] == line[i + 1]);
        }
        lemma_leading_run(rest, c, n - 1);
    }
}

proof fn lemma_leading_is_run(line: Seq<char>, c: char)
    ensures
        leading(line, c) <= line.len(),
        forall|i: int| 0 <= i < leading(line, c) ==> line[i] == c,
        leading(line, c) < line.len() ==> line[leading(line, c) as int] != c,
    decreases line.len(),
{
    if line.len() > 0 && line[0] == c {
        let rest = line.skip(1);
        lemma_leading_is_run(rest, c);
        assert forall|i: int| 0 <= i < leading(line, c) implies line[i] == c by {
            if i > 0 {
                assert(rest[i - 1] == line[i]);
            }
        }
    }
}

proof fn lemma_fence(line: Seq<char>)
    ensures
        is_fence(line) == opens_fence(line),
{
    lemma_leading_is_run(line, ' ');
    let k = leading(line, ' ') as int;
    let rest = unindented(line);
    let ticks = seq!['`', '`', '`'];
    let waves = seq!['~', '~', '~'];
    if is_fence(line) {
        assert(k + 2 < line.len());
        let part = rest.subrange(0, 3);
        assert(part[0] == line[k] && part[1] == line[k + 1] && part[2] == line[k + 2]);
        assert(is_spaces(line.take(k)));
    }
    if opens_fence(line) {
        let n = choose|n: int|
            0 <= n && n + 2 < line.len() && is_spaces(#[trigger] line.take(n)) && line[n]
                == line[n + 1] && line[n] == line[n + 2] && (line[n] == '`' || line[n] == '~');
        lemma_spaces_then(line, n);
        assert(rest.subrange(0, 3) =~= seq![line[n], line[n], line[n]]);
    }
}

proof fn lemma_spaces_then(line: Seq<char>, n: int)
    requires
        0 <= n < line.len(),
        is_spaces(line.take(n)),
        line[n] != ' ',
    ensures
        leading(line, ' ') == n,
        unindented(line) == line.skip(n),
{
    assert forall|i: int| 0 <= i < n implies line[i] == ' ' by {
        assert(line.take(n)[i] == ' ');
    }
    lemma_leading_run(line, ' ', n);
}

proof fn lemma_break(line: Seq<char>)
    ensures
        is_rule(line) == is_break(line),
{
    lemma_solid(line);
}

proof fn lemma_solid(line: Seq<char>)
    ensures
        solid(line) == text::ink(line),
    decreases line.len(),
{
    if line.len() > 0 {
        lemma_solid(line.drop_last());
    }
}

proof fn lemma_count_some(line: Seq<char>, c: char)
    ensures
        count(line, c) > 0 <==> line.contains(c),
    decreases line.len(),
{
    if line.len() > 0 {
        let rest = line.drop_last();
        lemma_count_some(rest, c);
        if rest.contains(c) {
            let k = choose|k: int| 0 <= k < rest.len() && rest[k] == c;
            assert(line[k] == c);
        }
        if line.contains(c) && line.last() != c {
            let k = choose|k: int| 0 <= k < line.len() && line[k] == c;
            assert(rest[k] == c);
        }
        if line.last() == c {
            assert(line[line.len() - 1] == c);
        }
    }
}

proof fn lemma_count_first(line: Seq<char>, c: char)
    requires
        line.len() > 0,
    ensures
        count(line, c) == count(line.skip(1), c) + if line[0] == c {
            1nat
        } else {
            0nat
        },
    decreases line.len(),
{
    if line.len() == 1 {
        assert(line.drop_last() =~= Seq::<char>::empty());
        assert(line.skip(1) =~= Seq::<char>::empty());
        reveal_with_fuel(count, 2);
    } else {
        lemma_count_first(line.drop_last(), c);
        assert(line.drop_last().skip(1) =~= line.skip(1).drop_last());
    }
}

proof fn lemma_pipes(line: Seq<char>)
    ensures
        is_table_row(line) == has_pipes(line),
{
    lemma_leading_is_run(line, ' ');
    let k = leading(line, ' ') as int;
    let rest = unindented(line);
    if rest.len() > 0 {
        lemma_count_first(rest, '|');
        lemma_count_some(rest.skip(1), '|');
    }
    if is_table_row(line) {
        let tail = rest.skip(1);
        let j = choose|j: int| 0 <= j < tail.len() && tail[j] == '|';
        assert(tail[j] == line[k + 1 + j]);
        assert(rest[0] == line[k]);
        assert(is_spaces(line.take(k)));
        assert(line[k + 1 + j] == '|');
    }
    if has_pipes(line) {
        let (n, m) = choose|n: int, m: int|
            0 <= n < m < line.len() && is_spaces(#[trigger] line.take(n)) && line[n] == '|'
                && #[trigger] line[m] == '|';
        lemma_spaces_then(line, n);
        assert(rest[0] == '|');
        assert(rest.skip(1)[m - n - 1] == '|');
    }
}

/// Inside a fence every line is code, as it stands, until a line that is a
/// fence itself; and a fence is hidden and opens one where there was none.
pub proof fn lemma_a_fence_holds_code(
    line: Seq<char>,
    offset: int,
    first: bool,
    next: Option<Seq<char>>,
    levels: Seq<usize>,
    marks: markdown::Marks,
)
    requires
        line.len() > 0,
    ensures
        ({
            let end = offset + line.len();
            let inside = scanned(line, offset, LineState::Fence, first, next, levels, marks);
            let outside = scanned(line, offset, LineState::Normal, first, next, levels, marks);
            if opens_fence(line) {
                &&& inside.state == LineState::Normal
                &&& outside.state == LineState::Fence
                &&& inside.marks == plus(marks, seq![], seq![(offset, end)])
                &&& outside.marks == plus(marks, seq![], seq![(offset, end)])
            } else {
                &&& inside.state == LineState::Fence
                &&& outside.state != LineState::Fence
                &&& inside.marks == plus(
                    marks,
                    seq![span(offset, end, Style::CodeBlock)],
                    seq![],
                )
            }
        }),
{
    lemma_fence(line);
    let end = offset + line.len();
    assert(markdown::with_marker(marks, offset, end) =~= plus(
        marks,
        seq![],
        seq![(offset, end)],
    ));
    assert(markdown::with_span(marks, offset, end, Style::CodeBlock) =~= plus(
        marks,
        seq![span(offset, end, Style::CodeBlock)],
        seq![],
    ));
}

/// Within the metadata block every line is styled whole, and the block ends
/// with the first line, other than the one that opens it, that is three dashes.
pub proof fn lemma_frontmatter_ends_at_its_dashes(
    line: Seq<char>,
    offset: int,
    first: bool,
    next: Option<Seq<char>>,
    levels: Seq<usize>,
    marks: markdown::Marks,
)
    requires
        line.len() > 0,
    ensures
        ({
            let r = scanned(line, offset, LineState::Frontmatter, first, next, levels, marks);
            let dashes = line.len() >= 3 && line[0] == '-' && line[1] == '-' && line[2] == '-'
                && text::is_blank(line.skip(3));
            &&& r.state == if dashes && !first {
                LineState::Normal
            } else {
                LineState::Frontmatter
            }
            &&& r.marks == plus(
                marks,
                seq![span(offset, offset + line.len(), Style::Frontmatter)],
                seq![],
            )
        }),
{
    crate::frontmatter::lemma_dashes(line);
    assert(markdown::with_span(marks, offset, offset + line.len(), Style::Frontmatter) =~= plus(
        marks,
        seq![span(offset, offset + line.len(), Style::Frontmatter)],
        seq![],
    ));
}

/// Three or more of one of `-`, `*` and `_` on a line of their own, whatever
/// whitespace is between them, are a rule.
pub proof fn lemma_a_rule_is_three_of_a_kind(
    line: Seq<char>,
    offset: int,
    first: bool,
    next: Option<Seq<char>>,
    levels: Seq<usize>,
    marks: markdown::Marks,
)
    requires
        is_break(line),
    ensures
        ({
            let r = scanned(line, offset, LineState::Normal, first, next, levels, marks);
            &&& r.state == LineState::Normal
            &&& r.levels == levels
            &&& r.marks == plus(
                marks,
                seq![span(offset, offset + line.len(), Style::Rule)],
                seq![],
            )
        }),
{
    lemma_break(line);
    lemma_fence(line);
    text::lemma_ink_len(line);
    if opens_fence(line) {
        let n = choose|n: int|
            0 <= n && n + 2 < line.len() && is_spaces(#[trigger] line.take(n)) && line[n]
                == line[n + 1] && line[n] == line[n + 2] && (line[n] == '`' || line[n] == '~');
        text::lemma_ink_holds(line, n);
    }
    assert(markdown::with_span(marks, offset, offset + line.len(), Style::Rule) =~= plus(
        marks,
        seq![span(offset, offset + line.len(), Style::Rule)],
        seq![],
    ));
}

/// Whether a line is the row under a table's header: spaces, cells of dashes
/// and colons with at least one dash, each with at most whitespace around it,
/// pipes before, between and behind them, and whitespace.
pub open spec fn is_delimiter_row(
    line: Seq<char>,
    before: Seq<char>,
    inner: Seq<Seq<char>>,
    after: Seq<char>,
) -> bool {
    &&& is_spaces(before)
    &&& text::is_blank(after)
    &&& inner.len() > 0
    &&& line == before + (seq!['|'] + text::join(inner, seq!['|']) + seq!['|']) + after
    &&& forall|i: int| 0 <= i < inner.len() ==> is_dash_cell(#[trigger] inner[i])
}

/// Whether a text is dashes and colons with at least one dash, with at most
/// whitespace around them.
pub open spec fn is_dash_cell(cell: Seq<char>) -> bool {
    exists|a: Seq<char>, core: Seq<char>, b: Seq<char>|
        text::is_blank(a) && text::is_blank(b) && core.contains('-') && (forall|k: int|
            0 <= k < core.len() ==> #[trigger] core[k] == '-' || core[k] == ':') && cell
            == #[trigger] (a + core + b)
}

proof fn lemma_dash_cell(cell: Seq<char>)
    requires
        is_dash_cell(cell),
    ensures
        is_delimiter_cell(cell),
        cell.len() > 0,
        !cell.contains('|'),
{
    let (a, core, b) = choose|a: Seq<char>, core: Seq<char>, b: Seq<char>|
        text::is_blank(a) && text::is_blank(b) && core.contains('-') && (forall|k: int|
            0 <= k < core.len() ==> #[trigger] core[k] == '-' || core[k] == ':') && cell
            == #[trigger] (a + core + b);
    let d = choose|d: int| 0 <= d < core.len() && core[d] == '-';
    assert(core[0] == '-' || core[0] == ':');
    assert(core[core.len() - 1] == '-' || core[core.len() - 1] == ':');
    text::lemma_trim_around(a, core, b);
    if cell.contains('|') {
        let k = choose|k: int| 0 <= k < cell.len() && cell[k] == '|';
        if k < a.len() {
            assert(text::white(a[k]));
        } else if k < a.len() + core.len() {
            assert(core[k - a.len()] == '|');
        } else {
            assert(text::white(b[k - a.len() - core.len()]));
        }
    }
}

proof fn lemma_delimiter_row(
    line: Seq<char>,
    before: Seq<char>,
    inner: Seq<Seq<char>>,
    after: Seq<char>,
)
    requires
        is_delimiter_row(line, before, inner, after),
    ensures
        is_table_delimiter(line),
        has_pipes(line),
{
    let list = text::join(inner, seq!['|']);
    let core = seq!['|'] + list + seq!['|'];
    let n = before.len() as int;
    assert(line.take(n) =~= before);
    assert(line[n] == '|');
    assert(line[n + 1 + list.len()] == '|');
    assert(has_pipes(line));
    lemma_pipes(line);
    assert(text::is_blank(before));
    text::lemma_trim_around(before, core, after);
    assert forall|i: int| 0 <= i < inner.len() implies is_delimiter_cell(#[trigger] inner[i])
        && inner[i].len() > 0 && !inner[i].contains('|') by {
        lemma_dash_cell(inner[i]);
    }
    lemma_join_edges(inner);
    assert(core[1] == list[0]);
    lemma_leading_run(core, '|', 1);
    let tail = unpiped_start(core);
    assert(tail =~= list + seq!['|']);
    assert(tail.drop_last() =~= list);
    assert(unpiped_end(list) == list);
    assert(unpiped_end(tail) == list);
    text::lemma_split_join(inner, '|');
}

proof fn lemma_join_edges(inner: Seq<Seq<char>>)
    requires
        inner.len() > 0,
        forall|i: int|
            0 <= i < inner.len() ==> (#[trigger] inner[i]).len() > 0 && !inner[i].contains('|'),
    ensures
        text::join(inner, seq!['|']).len() > 0,
        text::join(inner, seq!['|'])[0] != '|',
        text::join(inner, seq!['|']).last() != '|',
    decreases inner.len(),
{
    let last = inner[inner.len() - 1];
    assert(last.contains(last.last()));
    assert(inner[0].contains(inner[0][0]));
    if inner.len() > 1 {
        let rest = inner.drop_last();
        assert forall|i: int| 0 <= i < rest.len() implies (#[trigger] rest[i]).len() > 0
            && !rest[i].contains('|') by {
            assert(rest[i] == inner[i]);
        }
        lemma_join_edges(rest);
    }
}

/// A row of pipes heads a table where the row under it is the delimiter row:
/// it is styled as a row, and a table has begun.
pub proof fn lemma_a_table_begins_over_its_delimiter_row(
    line: Seq<char>,
    offset: int,
    first: bool,
    next: Seq<char>,
    before: Seq<char>,
    inner: Seq<Seq<char>>,
    after: Seq<char>,
    levels: Seq<usize>,
    marks: markdown::Marks,
)
    requires
        has_pipes(line),
        is_delimiter_row(next, before, inner, after),
    ensures
        ({
            let r = scanned(line, offset, LineState::Normal, first, Some(next), levels, marks);
            &&& r.state == LineState::Table
            &&& r.marks == inline(
                line,
                0,
                offset,
                plus(
                    marks,
                    seq![span(offset, offset + line.len(), Style::TableRow)],
                    seq![],
                ),
            )
        }),
{
    lemma_delimiter_row(next, before, inner, after);
    lemma_pipes(line);
    lemma_piped(line);
    assert(markdown::with_span(marks, offset, offset + line.len(), Style::TableRow) =~= plus(
        marks,
        seq![span(offset, offset + line.len(), Style::TableRow)],
        seq![],
    ));
}

proof fn lemma_piped(line: Seq<char>)
    requires
        has_pipes(line),
    ensures
        !is_fence(line),
        !is_rule(line),
{
    lemma_fence(line);
    lemma_break(line);
    let (n, m) = choose|n: int, m: int|
        0 <= n < m < line.len() && is_spaces(#[trigger] line.take(n)) && line[n] == '|'
            && #[trigger] line[m] == '|';
    lemma_spaces_then(line, n);
    text::lemma_ink_holds(line, n);
    if opens_fence(line) {
        let k = choose|k: int|
            0 <= k && k + 2 < line.len() && is_spaces(#[trigger] line.take(k)) && line[k]
                == line[k + 1] && line[k] == line[k + 2] && (line[k] == '`' || line[k] == '~');
        lemma_spaces_then(line, k);
    }
    if is_break(line) {
        let ink = text::ink(line);
        let k = choose|k: int| 0 <= k < ink.len() && ink[k] == line[n];
        assert(ink[k] == ink[0]);
    }
}

/// A table goes on row by row: its delimiter row is styled as one, other rows
/// of pipes as rows, and a line that is no row is read as if there were no
/// table.
pub proof fn lemma_a_table_goes_on_row_by_row(
    line: Seq<char>,
    offset: int,
    first: bool,
    next: Option<Seq<char>>,
    levels: Seq<usize>,
    marks: markdown::Marks,
)
    ensures
        ({
            let r = scanned(line, offset, LineState::Table, first, next, levels, marks);
            let end = offset + line.len();
            &&& forall|before: Seq<char>, inner: Seq<Seq<char>>, after: Seq<char>| #[trigger]
                is_delimiter_row(line, before, inner, after) ==> r.state == LineState::Table
                    && r.marks == plus(
                    marks,
                    seq![span(offset, end, Style::TableDelimiter)],
                    seq![],
                )
            &&& has_pipes(line) && (exists|k: int|
                0 <= k < line.len() && #[trigger] line[k] != '|' && line[k] != '-' && line[k]
                    != ':' && !text::white(line[k])) ==> r.state == LineState::Table && r.marks
                == inline(
                line,
                0,
                offset,
                plus(marks, seq![span(offset, end, Style::TableRow)], seq![]),
            )
            &&& !has_pipes(line) ==> r == scanned(
                line,
                offset,
                LineState::Normal,
                first,
                next,
                levels,
                marks,
            )
        }),
{
    let r = scanned(line, offset, LineState::Table, first, next, levels, marks);
    let end = offset + line.len();
    lemma_pipes(line);
    assert forall|before: Seq<char>, inner: Seq<Seq<char>>, after: Seq<char>| #[trigger]
        is_delimiter_row(line, before, inner, after) implies r.state == LineState::Table && r.marks
        == plus(marks, seq![span(offset, end, Style::TableDelimiter)], seq![]) by {
        lemma_delimiter_row(line, before, inner, after);
        assert(markdown::with_span(marks, offset, end, Style::TableDelimiter) =~= plus(
            marks,
            seq![span(offset, end, Style::TableDelimiter)],
            seq![],
        ));
    }
    if has_pipes(line) {
        assert(line.len() > 0);
        assert(markdown::with_span(marks, offset, end, Style::TableRow) =~= plus(
            marks,
            seq![span(offset, end, Style::TableRow)],
            seq![],
        ));
        if exists|k: int|
            0 <= k < line.len() && #[trigger] line[k] != '|' && line[k] != '-' && line[k] != ':'
                && !text::white(line[k]) {
            let k = choose|k: int|
                0 <= k < line.len() && #[trigger] line[k] != '|' && line[k] != '-' && line[k]
                    != ':' && !text::white(line[k]);
            lemma_other_text_is_no_delimiter(line, k);
        }
    }
}

proof fn lemma_other_text_is_no_delimiter(line: Seq<char>, k: int)
    requires
        0 <= k < line.len(),
        line[k] != '|' && line[k] != '-' && line[k] != ':' && !text::white(line[k]),
    ensures
        !is_table_delimiter(line),
{
    let c = line[k];
    text::lemma_ink_trim(line);
    text::lemma_ink_holds(line, k);
    let s = text::trim(line);
    assert(s.contains(c)) by {
        text::lemma_ink_of(s, c);
    }
    let a = unpiped_start(s);
    lemma_unpiped_keeps(s, c);
    text::lemma_split_holds(unpiped_end(a), '|', c);
    let all = cells(line);
    let i = choose|i: int| 0 <= i < all.len() && (#[trigger] all[i]).contains(c);
    let cell = all[i];
    let j = choose|j: int| 0 <= j < cell.len() && cell[j] == c;
    text::lemma_ink_holds(cell, j);
    text::lemma_ink_trim(cell);
    text::lemma_ink_of(text::trim(cell), c);
    let t = text::trim(cell);
    let m = choose|m: int| 0 <= m < t.len() && t[m] == c;
    assert(!(t[m] == '-' || t[m] == ':'));
}

proof fn lemma_unpiped_keeps(s: Seq<char>, c: char)
    requires
        s.contains(c),
        c != '|',
    ensures
        unpiped_end(unpiped_start(s)).contains(c),
{
    lemma_leading_is_run(s, '|');
    let k = choose|k: int| 0 <= k < s.len() && s[k] == c;
    let n = leading(s, '|') as int;
    let a = unpiped_start(s);
    assert(a[k - n] == c);
    lemma_unpiped_end_keeps(a, c);
}

proof fn lemma_unpiped_end_keeps(s: Seq<char>, c: char)
    requires
        s.contains(c),
        c != '|',
    ensures
        unpiped_end(s).contains(c),
    decreases s.len(),
{
    if s.len() > 0 && s.last() == '|' {
        let k = choose|k: int| 0 <= k < s.len() && s[k] == c;
        assert(s.drop_last()[k] == c);
        lemma_unpiped_end_keeps(s.drop_last(), c);
    }
}

proof fn lemma_content_line(line: Seq<char>, n: int)
    requires
        0 <= n < line.len(),
        is_spaces(line.take(n)),
        line[n] != ' ' && line[n] != '`' && line[n] != '~' && line[n] != '|',
    ensures
        !is_fence(line),
        !is_table_row(line),
        leading(line, ' ') == n,
{
    lemma_fence(line);
    lemma_pipes(line);
    lemma_spaces_then(line, n);
    if opens_fence(line) {
        let k = choose|k: int|
            0 <= k && k + 2 < line.len() && is_spaces(#[trigger] line.take(k)) && line[k]
                == line[k + 1] && line[k] == line[k + 2] && (line[k] == '`' || line[k] == '~');
        lemma_spaces_then(line, k);
    }
    if has_pipes(line) {
        let (k, m) = choose|k: int, m: int|
            0 <= k < m < line.len() && is_spaces(#[trigger] line.take(k)) && line[k] == '|'
                && #[trigger] line[m] == '|';
        lemma_spaces_then(line, k);
    }
}

proof fn lemma_no_break(line: Seq<char>, k: int)
    requires
        0 <= k < line.len(),
        !text::white(line[k]),
        line[k] != '-' && line[k] != '*' && line[k] != '_',
    ensures
        !is_rule(line),
{
    lemma_break(line);
    text::lemma_ink_holds(line, k);
    if is_break(line) {
        let ink = text::ink(line);
        let j = choose|j: int| 0 <= j < ink.len() && ink[j] == line[k];
        assert(ink[j] == ink[0]);
    }
}

proof fn lemma_heading(s: Seq<char>, n: int)
    requires
        begins_heading(s, n),
    ensures
        heading_level(s) == Some(n as u8),
{
    assert forall|i: int| 0 <= i < n implies s[i] == '#' by {}
    lemma_leading_run(s, '#', n);
}

/// One to six hashes and a space begin a heading of that level: they are
/// hidden, and what is behind them is styled and scanned.
pub proof fn lemma_hashes_and_a_space_are_a_heading(
    line: Seq<char>,
    indent: int,
    n: int,
    offset: int,
    first: bool,
    next: Option<Seq<char>>,
    levels: Seq<usize>,
    marks: markdown::Marks,
)
    requires
        0 <= indent,
        is_spaces(line.take(indent)),
        begins_heading(line.skip(indent), n),
        indent + n + 1 < line.len(),
    ensures
        ({
            let r = scanned(line, offset, LineState::Normal, first, next, levels, marks);
            let start = indent + n + 1;
            &&& r.state == LineState::Normal
            &&& r.levels == if indent == 0 {
                Seq::<usize>::empty()
            } else {
                levels
            }
            &&& r.marks == inline(
                line.skip(start),
                0,
                offset + start,
                plus(
                    marks,
                    seq![span(offset + start, offset + line.len(), Style::Heading(n as u8))],
                    seq![(offset + indent, offset + start)],
                ),
            )
        }),
{
    let rest = line.skip(indent);
    assert(rest[0] == '#');
    assert(line[indent] == rest[0]);
    lemma_content_line(line, indent);
    lemma_no_break(line, indent);
    lemma_heading(rest, n);
    let start = indent + n + 1;
    assert(markdown::with_span(
        markdown::with_marker(marks, offset + indent, offset + start),
        offset + start,
        offset + line.len(),
        Style::Heading(n as u8),
    ) =~= plus(
        marks,
        seq![span(offset + start, offset + line.len(), Style::Heading(n as u8))],
        seq![(offset + indent, offset + start)],
    ));
}

/// An angle bracket begins a quote: it is hidden with the space behind it, if
/// there is one, and what is behind it is styled and scanned.
pub proof fn lemma_an_angle_bracket_begins_a_quote(
    line: Seq<char>,
    indent: int,
    offset: int,
    first: bool,
    next: Option<Seq<char>>,
    levels: Seq<usize>,
    marks: markdown::Marks,
)
    requires
        0 <= indent,
        indent + 2 < line.len(),
        is_spaces(line.take(indent)),
        line[indent] == '>',
    ensures
        ({
            let r = scanned(line, offset, LineState::Normal, first, next, levels, marks);
            let start = if line[indent + 1] == ' ' {
                indent + 2
            } else {
                indent + 1
            };
            &&& r.state == LineState::Normal
            &&& r.levels == if indent == 0 {
                Seq::<usize>::empty()
            } else {
                levels
            }
            &&& r.marks == inline(
                line.skip(start),
                0,
                offset + start,
                plus(
                    marks,
                    seq![span(offset + start, offset + line.len(), Style::Quote)],
                    seq![(offset + indent, offset + start)],
                ),
            )
        }),
{
    let rest = line.skip(indent);
    assert(rest[0] == '>' && rest[1] == line[indent + 1]);
    lemma_content_line(line, indent);
    lemma_no_break(line, indent);
    lemma_leading_run(rest, '#', 0);
    let start = if line[indent + 1] == ' ' {
        indent + 2
    } else {
        indent + 1
    };
    assert(markdown::with_span(
        markdown::with_marker(marks, offset + indent, offset + start),
        offset + start,
        offset + line.len(),
        Style::Quote,
    ) =~= plus(
        marks,
        seq![span(offset + start, offset + line.len(), Style::Quote)],
        seq![(offset + indent, offset + start)],
    ));
}

proof fn lemma_digits_run(s: Seq<char>, n: int)
    requires
        0 <= n <= s.len(),
        forall|i: int| 0 <= i < n ==> '0' <= #[trigger] s[i] && s[i] <= '9',
        n < s.len() ==> !('0' <= s[n] && s[n] <= '9'),
    ensures
        digits(s) == n,
    decreases n,
{
    if n > 0 {
        let _ = s[0];
        let rest = s.skip(1);
        assert forall|i: int| 0 <= i < n - 1 implies '0' <= #[trigger] rest[i] && rest[i]
            <= '9' by {
            assert(rest[i] == s[i + 1]);
        }
        assert(n < s.len() ==> rest[n - 1] == s[n]);
        lemma_digits_run(rest, n - 1);
    }
}

proof fn lemma_digits_is_run(s: Seq<char>)
    ensures
        digits(s) <= s.len(),
        forall|i: int| 0 <= i < digits(s) ==> '0' <= #[trigger] s[i] && s[i] <= '9',
        digits(s) < s.len() ==> !('0' <= s[digits(s) as int] && s[digits(s) as int] <= '9'),
    decreases s.len(),
{
    if s.len() > 0 && text::is_digit(s[0]) {
        let rest = s.skip(1);
        lemma_digits_is_run(rest);
        assert forall|i: int| 0 <= i < digits(s) implies '0' <= #[trigger] s[i] && s[i] <= '9' by {
            if i > 0 {
                assert(rest[i - 1] == s[i]);
            }
        }
    }
}

proof fn lemma_item_marker(s: Seq<char>, n: int)
    requires
        0 <= n <= s.len(),
        is_item_marker(s.take(n)),
    ensures
        item_length(s) == Some(n),
{
    let m = s.take(n);
    assert(forall|i: int| 0 <= i < n ==> #[trigger] m[i] == s[i]);
    if n == 2 {
        assert(s[0] == m[0] && s[1] == m[1]);
    } else {
        assert forall|i: int| 0 <= i < n - 2 implies '0' <= #[trigger] s[i] && s[i] <= '9' by {
            assert(m[i] == s[i]);
        }
        assert(m[n - 2] == s[n - 2] && m[n - 1] == s[n - 1]);
        lemma_digits_run(s, n - 2);
        assert('0' <= s[0] && s[0] <= '9');
    }
}

proof fn lemma_item_marker_found(s: Seq<char>)
    ensures
        item_length(s) is Some ==> is_item_marker(s.take(item_length(s)->0)) && 0 < item_length(
            s,
        )->0 <= s.len(),
{
    lemma_digits_is_run(s);
    if let Some(n) = item_length(s) {
        let m = s.take(n);
        assert(forall|i: int| 0 <= i < n ==> #[trigger] m[i] == s[i]);
        assert(m[n - 1] == s[n - 1]);
        assert(m[0] == s[0]);
        if n > 2 {
            assert(m[n - 2] == s[n - 2]);
            assert forall|i: int| 0 <= i < n - 2 implies '0' <= #[trigger] m[i] && m[i] <= '9' by {
                assert(s[i] == m[i]);
            }
        } else {
            if bullet_length(s) is None {
                assert(digits(s) == 0);
            }
        }
    }
}

/// Behind a bullet or a number stands a list item, nested in the items above it
/// that are indented less. A box behind that, with a space in it or an `x` of
/// either case, and a space behind it, is a task, ticked where it holds an `x`;
/// no other box is one. The indent is hidden, and what is behind is scanned.
#[verifier::spinoff_prover]
pub proof fn lemma_a_box_behind_a_bullet_is_a_task(
    line: Seq<char>,
    indent: int,
    n: int,
    offset: int,
    first: bool,
    next: Option<Seq<char>>,
    levels: Seq<usize>,
    marks: markdown::Marks,
)
    requires
        0 <= indent,
        0 <= n,
        indent + n < line.len(),
        is_spaces(line.take(indent)),
        is_item_marker(line.subrange(indent, indent + n)),
        !is_break(line),
        indent <= usize::MAX,
        markdown::is_nesting(levels),
    ensures
        ({
            let r = scanned(line, offset, LineState::Normal, first, next, levels, marks);
            let box_at = indent + n;
            let boxed = box_at + 3 < line.len() && line[box_at] == '[' && line[box_at + 2] == ']'
                && line[box_at + 3] == ' ';
            let c = line[box_at + 1];
            let task = boxed && (c == ' ' || c == 'x' || c == 'X');
            let start = if task {
                box_at + 3
            } else {
                box_at
            };
            let depth = r.levels.len() - 1;
            let item = span(
                offset + start,
                offset + line.len(),
                Style::ListItem(depth as usize),
            );
            let hidden = if indent > 0 {
                seq![(offset, offset + indent)]
            } else {
                seq![]
            };
            &&& r.state == LineState::Normal
            &&& 0 <= depth <= levels.len()
            &&& r.levels == levels.take(depth).push(indent as usize)
            &&& forall|i: int| 0 <= i < depth ==> levels[i] < indent
            &&& forall|i: int| depth <= i < levels.len() ==> levels[i] >= indent
            &&& r.marks == inline(
                line.skip(start),
                0,
                offset + start,
                plus(
                    marks,
                    if task {
                        seq![
                            span(offset + box_at, offset + box_at + 3, Style::Task(c != ' ')),
                            item,
                        ]
                    } else {
                        seq![item]
                    },
                    hidden,
                ),
            )
        }),
{
    lemma_item_begins(line, indent, n);
    lemma_break(line);
    markdown::lemma_an_item_is_nested_in_those_indented_less(levels, indent as usize);
    let box_at = indent + n;
    let ticked = checkbox(line.skip(indent).skip(n));
    let depth = markdown::nested(levels, indent as usize).len() - 1;
    lemma_item_marks(marks, offset, indent, box_at, line.len() as int, depth as usize, ticked);
    assert(line.skip(indent).skip(n) =~= line.skip(box_at));
}

proof fn lemma_item_begins(line: Seq<char>, indent: int, n: int)
    requires
        0 <= indent,
        0 <= n,
        indent + n < line.len(),
        is_spaces(line.take(indent)),
        is_item_marker(line.subrange(indent, indent + n)),
    ensures
        ({
            let rest = line.skip(indent);
            let box_at = indent + n;
            let boxed = box_at + 3 < line.len() && line[box_at] == '[' && line[box_at + 2] == ']'
                && line[box_at + 3] == ' ';
            let c = line[box_at + 1];
            &&& leading(line, ' ') == indent
            &&& !is_fence(line) && !is_table_row(line)
            &&& heading_level(rest) is None
            &&& rest[0] != '>'
            &&& item_length(rest) == Some(n)
            &&& checkbox(rest.skip(n)) == if boxed && (c == ' ' || c == 'x' || c == 'X') {
                Some(c != ' ')
            } else {
                None
            }
        }),
{
    let rest = line.skip(indent);
    let m = line.subrange(indent, indent + n);
    assert(rest.take(n) =~= m);
    assert(m[0] == line[indent]);
    lemma_item_first(m);
    lemma_content_line(line, indent);
    lemma_item_marker(rest, n);
    assert(rest[0] == line[indent]);
    lemma_leading_run(rest, '#', 0);
    let box_at = indent + n;
    let after = rest.skip(n);
    assert(after =~= line.skip(box_at));
    if box_at + 3 < line.len() {
        assert(after[0] == line[box_at] && after[1] == line[box_at + 1] && after[2] == line[box_at
            + 2] && after[3] == line[box_at + 3]);
    }
}

proof fn lemma_item_marks(
    marks: markdown::Marks,
    offset: int,
    indent: int,
    box_at: int,
    end: int,
    depth: usize,
    ticked: Option<bool>,
)
    requires
        0 <= indent <= box_at < end,
        ticked is Some ==> box_at + 3 < end,
    ensures
        ({
            let marked = markdown::with_marker(marks, offset, offset + indent);
            let hidden = if indent > 0 {
                seq![(offset, offset + indent)]
            } else {
                seq![]
            };
            match ticked {
                Some(done) => markdown::with_span(
                    markdown::with_span(
                        marked,
                        offset + box_at,
                        offset + box_at + 3,
                        Style::Task(done),
                    ),
                    offset + (box_at + 3),
                    offset + end,
                    Style::ListItem(depth),
                ) == plus(
                    marks,
                    seq![
                        span(offset + box_at, offset + box_at + 3, Style::Task(done)),
                        span(offset + (box_at + 3), offset + end, Style::ListItem(depth)),
                    ],
                    hidden,
                ),
                None => markdown::with_span(
                    marked,
                    offset + box_at,
                    offset + end,
                    Style::ListItem(depth),
                ) == plus(
                    marks,
                    seq![span(offset + box_at, offset + end, Style::ListItem(depth))],
                    hidden,
                ),
            }
        }),
{
    let marked = markdown::with_marker(marks, offset, offset + indent);
    let hidden = if indent > 0 {
        seq![(offset, offset + indent)]
    } else {
        seq![]
    };
    match ticked {
        Some(done) => {
            let a = markdown::with_span(
                marked,
                offset + box_at,
                offset + box_at + 3,
                Style::Task(done),
            );
            let b = markdown::with_span(
                a,
                offset + (box_at + 3),
                offset + end,
                Style::ListItem(depth),
            );
            assert(b =~= plus(
                marks,
                seq![
                    span(offset + box_at, offset + box_at + 3, Style::Task(done)),
                    span(offset + (box_at + 3), offset + end, Style::ListItem(depth)),
                ],
                hidden,
            ));
        },
        None => {
            let b = markdown::with_span(
                marked,
                offset + box_at,
                offset + end,
                Style::ListItem(depth),
            );
            assert(b =~= plus(
                marks,
                seq![span(offset + box_at, offset + end, Style::ListItem(depth))],
                hidden,
            ));
        },
    }
}

proof fn lemma_item_first(m: Seq<char>)
    requires
        is_item_marker(m),
    ensures
        m[0] == '-' || m[0] == '*' || m[0] == '+' || ('0' <= m[0] && m[0] <= '9') || m[0] == '.'
            || m[0] == ')',
        m.len() > 2 ==> '0' <= m[0] && m[0] <= '9',
{
}

/// A line that is none of these is a paragraph: only what stands in it is
/// scanned, and it ends a list unless it is indented.
pub proof fn lemma_any_other_line_is_a_paragraph(
    line: Seq<char>,
    indent: int,
    offset: int,
    first: bool,
    next: Option<Seq<char>>,
    levels: Seq<usize>,
    marks: markdown::Marks,
)
    requires
        0 <= indent < line.len(),
        is_spaces(line.take(indent)),
        line[indent] != ' ' && line[indent] != '>' && line[indent] != '|',
        !opens_fence(line),
        !is_break(line),
        forall|n: int| !#[trigger] begins_heading(line.skip(indent), n),
        forall|n: int|
            0 <= n <= line.len() - indent ==> !is_item_marker(
                #[trigger] line.skip(indent).take(n),
            ),
    ensures
        ({
            let r = scanned(line, offset, LineState::Normal, first, next, levels, marks);
            &&& r.state == LineState::Normal
            &&& r.levels == if indent == 0 {
                Seq::<usize>::empty()
            } else {
                levels
            }
            &&& r.marks == inline(line.skip(indent), 0, offset + indent, marks)
        }),
{
    let rest = line.skip(indent);
    assert(rest[0] == line[indent]);
    lemma_fence(line);
    lemma_break(line);
    lemma_pipes(line);
    lemma_spaces_then(line, indent);
    if has_pipes(line) {
        let (k, m) = choose|k: int, m: int|
            0 <= k < m < line.len() && is_spaces(#[trigger] line.take(k)) && line[k] == '|'
                && #[trigger] line[m] == '|';
        lemma_spaces_then(line, k);
    }
    lemma_leading_is_run(rest, '#');
    if heading_level(rest) is Some {
        let n = leading(rest, '#') as int;
        assert forall|i: int| 0 <= i < n implies #[trigger] rest[i] == '#' by {}
        assert(begins_heading(rest, n));
    }
    lemma_item_marker_found(rest);
    if let Some(n) = item_length(rest) {
        assert(is_item_marker(rest.take(n)));
    }
}

/// An empty line separates what is around it and does nothing else: it does
/// not end a list.
pub proof fn lemma_an_empty_line_does_not_end_a_list(
    offset: int,
    first: bool,
    next: Option<Seq<char>>,
    levels: Seq<usize>,
    marks: markdown::Marks,
)
    ensures
        scanned(seq![], offset, LineState::Normal, first, next, levels, marks) == (Standing {
            state: LineState::Normal,
            levels,
            marks,
        }),
{
    let line = Seq::<char>::empty();
    lemma_fence(line);
    lemma_break(line);
    lemma_pipes(line);
    text::lemma_ink_len(line);
}

/// Whether a style is one of those that stand within a line.
pub open spec fn stands_within(style: Style) -> bool {
    ||| style is Code
    ||| style is Embed
    ||| style is WikiLink
    ||| style is Link
    ||| style is Tag
    ||| style is Bold
    ||| style is Strikethrough
    ||| style is Italic
}

proof fn lemma_hit_style(line: Seq<char>, i: int, offset: int, marks: markdown::Marks)
    ensures
        match hit(line, i, offset, marks) {
            Some((_, now)) => now.spans == marks.spans || (now.spans.len() == marks.spans.len() + 1
                && now.spans.drop_last() == marks.spans && stands_within(now.spans.last().style)),
            None => true,
        },
{
    if let Some((_, now)) = hit(line, i, offset, marks) {
        if now.spans.len() == marks.spans.len() + 1 {
            assert(now.spans.drop_last() =~= marks.spans);
        }
    }
}

proof fn lemma_inline_styles(line: Seq<char>, i: int, offset: int, marks: markdown::Marks)
    ensures
        ({
            let r = inline(line, i, offset, marks);
            &&& marks.spans.len() <= r.spans.len()
            &&& forall|k: int| 0 <= k < marks.spans.len() ==> #[trigger] r.spans[k] == marks.spans[k]
            &&& forall|k: int|
                marks.spans.len() <= k < r.spans.len() ==> stands_within(
                    (#[trigger] r.spans[k]).style,
                )
        }),
    decreases line.len() - i,
{
    if 0 <= i < line.len() {
        lemma_a_scan_moves_on(line, i, offset, marks);
        lemma_hit_style(line, i, offset, marks);
        match hit(line, i, offset, marks) {
            Some((next, now)) => {
                lemma_inline_styles(line, next, offset, now);
                let r = inline(line, next, offset, now);
                assert forall|k: int| 0 <= k < marks.spans.len() implies #[trigger] r.spans[k]
                    == marks.spans[k] by {
                    assert(r.spans[k] == now.spans[k]);
                    assert(now.spans != marks.spans ==> now.spans.drop_last()[k] == marks.spans[k]);
                }
                assert forall|k: int| marks.spans.len() <= k < r.spans.len() implies stands_within(
                    (#[trigger] r.spans[k]).style,
                ) by {
                    if k < now.spans.len() {
                        assert(r.spans[k] == now.spans[k]);
                    }
                }
            },
            None => {
                lemma_inline_styles(line, i + 1, offset, marks);
            },
        }
    }
}

/// Behind a bullet or a number, brackets around one character and a space make
/// a task of the item exactly if the character is a space or an `x` of either
/// case: one that is done exactly if it is no space. The span is the brackets',
/// and there is no other task on the line.
pub proof fn lemma_a_task_is_done_unless_its_box_is_empty(
    line: Seq<char>,
    indent: int,
    n: int,
    offset: int,
    first: bool,
    next: Option<Seq<char>>,
    levels: Seq<usize>,
    marks: markdown::Marks,
)
    requires
        0 <= indent <= usize::MAX,
        0 <= n,
        indent + n + 3 < line.len(),
        is_spaces(line.take(indent)),
        is_item_marker(line.subrange(indent, indent + n)),
        line[indent + n] == '[',
        line[indent + n + 2] == ']',
        line[indent + n + 3] == ' ',
        markdown::is_nesting(levels),
    ensures
        ({
            let spans = scanned(
                line,
                offset,
                LineState::Normal,
                first,
                next,
                levels,
                marks,
            ).marks.spans;
            let added = spans.skip(marks.spans.len() as int);
            let c = line[indent + n + 1];
            let boxed = offset + indent + n;
            &&& forall|s: markdown::SpanView| #[trigger]
                added.contains(s) && s.style is Task ==> s == span(
                    boxed,
                    boxed + 3,
                    Style::Task(c != ' '),
                )
            &&& added.contains(span(boxed, boxed + 3, Style::Task(c != ' '))) == (c == ' ' || c
                == 'x' || c == 'X')
        }),
{
    lemma_no_break(line, indent + n);
    lemma_break(line);
    lemma_a_box_behind_a_bullet_is_a_task(line, indent, n, offset, first, next, levels, marks);
    let r = scanned(line, offset, LineState::Normal, first, next, levels, marks);
    let c = line[indent + n + 1];
    let task = c == ' ' || c == 'x' || c == 'X';
    let boxed = offset + indent + n;
    let wanted = span(boxed, boxed + 3, Style::Task(c != ' '));
    let start = if task {
        indent + n + 3
    } else {
        indent + n
    };
    let depth = r.levels.len() - 1;
    let item = span(offset + start, offset + line.len(), Style::ListItem(depth as usize));
    let hidden = if indent > 0 {
        seq![(offset, offset + indent)]
    } else {
        seq![]
    };
    let more = if task {
        seq![wanted, item]
    } else {
        seq![item]
    };
    let before = plus(marks, more, hidden);
    lemma_inline_styles(line.skip(start), 0, offset + start, before);
    let added = r.marks.spans.skip(marks.spans.len() as int);
    assert forall|s: markdown::SpanView| #[trigger]
        added.contains(s) && s.style is Task implies task && s == wanted by {
        let k = choose|k: int| 0 <= k < added.len() && added[k] == s;
        let at = marks.spans.len() + k;
        assert(r.marks.spans[at] == s);
        if at < before.spans.len() {
            assert(before.spans[at] == more[k]);
        }
    }
    if task {
        let at = marks.spans.len() as int;
        assert(before.spans[at] == more[0]);
        assert(r.marks.spans[at] == before.spans[at]);
        assert(added[0] == wanted);
    }
}

} // verus!
