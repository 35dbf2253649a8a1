//! The `---` metadata block at the top of a note.
//!
//! Four keys are understood, `tags`, `aliases`, `created` and `updated`, and
//! everything else is preserved verbatim. The supported subset is
//! line-oriented `key: value` and `[a, b]` lists.
//!
//! Read a note and write it back without editing it, and the bytes are the
//! same. So an unedited block goes back as it was; and of an edited one a line
//! is rendered anew only when its value has actually changed, and is otherwise
//! emitted as it was found, whatever its spacing or quoting.

use crate::date;
use crate::date::Date;
use crate::text;
use vstd::prelude::*;

verus! {

// ---- keys ----

/// The four keys that are understood.
#[derive(Debug, Clone, Copy, PartialEq, Eq, Structural)]
pub enum Key {
    Tags,
    Aliases,
    Created,
    Updated,
}

/// The name of a key.
pub open spec fn name(key: Key) -> Seq<char> {
    match key {
        Key::Tags => "tags"@,
        Key::Aliases => "aliases"@,
        Key::Created => "created"@,
        Key::Updated => "updated"@,
    }
}

/// The key of a name.
pub open spec fn parse_key(s: Seq<char>) -> Option<Key> {
    if s == "tags"@ {
        Some(Key::Tags)
    } else if s == "aliases"@ {
        Some(Key::Aliases)
    } else if s == "created"@ {
        Some(Key::Created)
    } else if s == "updated"@ {
        Some(Key::Updated)
    } else {
        None
    }
}

impl Key {
    fn parse(s: &[char]) -> (r: Option<Key>)
        ensures
            r == parse_key(s@),
    {
        if text::same_chars(s, &text::chars_of("tags")) {
            Some(Key::Tags)
        } else if text::same_chars(s, &text::chars_of("aliases")) {
            Some(Key::Aliases)
        } else if text::same_chars(s, &text::chars_of("created")) {
            Some(Key::Created)
        } else if text::same_chars(s, &text::chars_of("updated")) {
            Some(Key::Updated)
        } else {
            None
        }
    }

    fn name(self) -> (r: &'static str)
        ensures
            r@ == name(self),
    {
        match self {
            Key::Tags => "tags",
            Key::Aliases => "aliases",
            Key::Created => "created",
            Key::Updated => "updated",
        }
    }
}

/// Each key is found again by its name.
pub proof fn lemma_a_key_is_found_by_its_name(key: Key)
    ensures
        parse_key(name(key)) == Some(key),
{
    reveal_strlit("tags");
    reveal_strlit("aliases");
    reveal_strlit("created");
    reveal_strlit("updated");
    assert("tags"@.len() == 4 && "aliases"@.len() == 7 && "created"@.len() == 7);
    assert("aliases"@[0] == 'a' && "created"@[0] == 'c' && "updated"@[0] == 'u');
}

// ---- lines ----

/// Whether a line opens or closes a block.
pub open spec fn is_rule(line: Seq<char>) -> bool {
    text::trim_end(line) == "---"@
}

/// Whether a character may stand in the name of a key.
pub open spec fn is_name_char(c: char) -> bool {
    text::alphanumeric(c) || c == '_'
}

/// The key name at the start of a line, whether or not it is understood.
pub open spec fn key_name(line: Seq<char>) -> Option<Seq<char>> {
    if line.len() > 0 && text::white(line[0]) {
        None
    } else {
        match text::find_char(line, ':', 0) {
            None => None,
            Some(i) => {
                if i > 0 && forall|j: int| 0 <= j < i ==> is_name_char(#[trigger] line[j]) {
                    Some(line.take(i))
                } else {
                    None
                }
            },
        }
    }
}

/// The key a line belongs to, if it is one of the four.
pub open spec fn key_of(line: Seq<char>) -> Option<Key> {
    match key_name(line) {
        Some(name) => parse_key(name),
        None => None,
    }
}

/// An indented line, or a `- item` belonging to the key above it.
pub open spec fn is_continuation(line: Seq<char>) -> bool {
    (line.len() > 0 && text::white(line[0])) || "- "@.is_prefix_of(text::trim_start(line))
}

fn rule(line: &[char]) -> (r: bool)
    ensures
        r == is_rule(line@),
{
    let n = text::trimmed_end(line);
    let head = text::part(line, 0, n);
    assert(head@ =~= text::trim_end(line@));
    text::same_chars(&head, &text::chars_of("---"))
}

fn key_name_end(line: &[char]) -> (r: Option<usize>)
    ensures
        match r {
            Some(i) => i <= line@.len() && key_name(line@) == Some(line@.take(i as int)),
            None => key_name(line@) is None,
        },
{
    if line.len() > 0 && line[0].is_whitespace() {
        return None;
    }
    match text::position_of(line, ':', 0) {
        None => None,
        Some(i) => {
            if i == 0 {
                return None;
            }
            let mut j: usize = 0;
            while j < i
                invariant
                    j <= i < line@.len(),
                    text::find_char(line@, ':', 0) == Some(i as int),
                    !(line@.len() > 0 && text::white(line@[0])),
                    forall|k: int| 0 <= k < j ==> is_name_char(#[trigger] line@[k]),
                decreases i - j,
            {
                let c = line[j];
                if !(c.is_alphanumeric() || c == '_') {
                    assert(!is_name_char(line@[j as int]));
                    return None;
                }
                j = j + 1;
            }
            Some(i)
        },
    }
}

fn find_key(line: &[char]) -> (r: Option<Key>)
    ensures
        r == key_of(line@),
{
    match key_name_end(line) {
        None => None,
        Some(i) => {
            let name = text::part(line, 0, i);
            assert(name@ =~= line@.take(i as int));
            Key::parse(&name)
        },
    }
}

fn continuation(line: &[char]) -> (r: bool)
    ensures
        r == is_continuation(line@),
{
    if line.len() > 0 && line[0].is_whitespace() {
        return true;
    }
    let n = text::leading_white(line);
    let rest = text::part(line, n, line.len());
    assert(rest@ =~= text::trim_start(line@));
    text::begins(&rest, &text::chars_of("- "))
}

// ---- entries ----

/// One `key:` and any indented lines belonging to it, or a line that means
/// nothing here and is carried through untouched.
#[derive(Debug, PartialEq, Eq)]
struct Entry {
    key: Option<Key>,
    lines: Vec<Vec<char>>,
}

/// An entry, by its texts.
#[verifier::ext_equal]
pub struct EntryView {
    pub key: Option<Key>,
    pub lines: Seq<Seq<char>>,
}

impl View for Entry {
    type V = EntryView;

    closed spec fn view(&self) -> EntryView {
        EntryView { key: self.key, lines: text::views(self.lines@) }
    }
}

/// Whether an entry takes in a line that continues it.
pub open spec fn takes(entry: EntryView, line: Seq<char>) -> bool {
    entry.lines.len() > 0 && key_name(entry.lines[0]) is Some && is_continuation(line)
}

/// Lines gathered into entries: a `key:` line owns the indented lines under
/// it.
pub open spec fn grouped(lines: Seq<Seq<char>>) -> Seq<EntryView>
    decreases lines.len(),
{
    if lines.len() == 0 {
        seq![]
    } else {
        let before = grouped(lines.drop_last());
        let line = lines.last();
        if before.len() > 0 && takes(before.last(), line) {
            before.drop_last().push(
                EntryView { key: before.last().key, lines: before.last().lines.push(line) },
            )
        } else {
            before.push(EntryView { key: key_of(line), lines: seq![line] })
        }
    }
}

fn group(pieces: &Vec<Vec<char>>, from: usize, to: usize) -> (entries: Vec<Entry>)
    requires
        from <= to <= pieces@.len(),
    ensures
        text::views(entries@) == grouped(text::views(pieces@).subrange(from as int, to as int)),
{
    let ghost all = text::views(pieces@);
    let mut entries: Vec<Entry> = Vec::new();
    let mut i: usize = from;
    assert(text::views(entries@) =~= grouped(all.subrange(from as int, from as int)));
    while i < to
        invariant
            from <= i <= to <= pieces@.len(),
            all == text::views(pieces@),
            text::views(entries@) == grouped(all.subrange(from as int, i as int)),
        decreases to - i,
    {
        let line = &pieces[i];
        let ghost before = text::views(entries@);
        proof {
            let now = all.subrange(from as int, i + 1);
            assert(now.drop_last() =~= all.subrange(from as int, i as int));
            assert(now.last() == line@);
        }
        let copy = text::part(line, 0, line.len());
        assert(copy@ =~= line@);
        let n = entries.len();
        let mut taken = false;
        if n > 0 {
            let last = &entries[n - 1];
            assert(before.last() == last@);
            if last.lines.len() > 0 {
                let opened = key_name_end(&last.lines[0]).is_some();
                taken = opened && continuation(line);
            }
            assert(taken == takes(before.last(), line@));
        }
        if taken {
            let mut last = entries.pop().unwrap();
            proof {
                assert(last@ == before.last());
                text::lemma_views_push(last.lines@, copy);
            }
            last.lines.push(copy);
            assert(last@ =~= (EntryView {
                key: before.last().key,
                lines: before.last().lines.push(line@),
            }));
            assert(text::views(entries@) =~= before.drop_last());
            proof {
                text::lemma_views_push(entries@, last);
            }
            entries.push(last);
        } else {
            let mut lines: Vec<Vec<char>> = Vec::new();
            lines.push(copy);
            let entry = Entry { key: find_key(line), lines };
            assert(entry@ =~= (EntryView { key: key_of(line@), lines: seq![line@] }));
            proof {
                text::lemma_views_push(entries@, entry);
            }
            entries.push(entry);
        }
        i = i + 1;
    }
    entries
}

// ---- values ----

/// Whether a text stands between two characters.
pub open spec fn is_between(s: Seq<char>, open: char, close: char) -> bool {
    s.len() >= 2 && s[0] == open && s.last() == close
}

/// A scalar without the whitespace around it and the quotes people put round
/// tags with spaces in.
pub open spec fn cleaned(value: Seq<char>) -> Seq<char> {
    let s = text::trim(value);
    if is_between(s, '"', '"') || is_between(s, '\'', '\'') {
        text::trim(s.subrange(1, s.len() - 1))
    } else {
        text::trim(s)
    }
}

/// The pieces of a list, cleaned, without the empty ones.
pub open spec fn cleaned_all(pieces: Seq<Seq<char>>) -> Seq<Seq<char>>
    decreases pieces.len(),
{
    if pieces.len() == 0 {
        seq![]
    } else {
        let before = cleaned_all(pieces.drop_last());
        let item = cleaned(pieces.last());
        if item.len() > 0 {
            before.push(item)
        } else {
            before
        }
    }
}

/// What the `- item` lines among some lines hold.
pub open spec fn bullets(lines: Seq<Seq<char>>) -> Seq<Seq<char>>
    decreases lines.len(),
{
    if lines.len() == 0 {
        seq![]
    } else {
        let before = bullets(lines.drop_last());
        let line = text::trim(lines.last());
        if "- "@.is_prefix_of(line) {
            before.push(line.skip(2))
        } else {
            before
        }
    }
}

/// What stands behind the colon of a line.
pub open spec fn inline_value(line: Seq<char>) -> Option<Seq<char>> {
    match text::find_char(line, ':', 0) {
        Some(i) => Some(text::trim(line.skip(i + 1))),
        None => None,
    }
}

/// `[a, b]`, `a, b`, or a block of `- item` lines beneath the key.
pub open spec fn list_value(lines: Seq<Seq<char>>) -> Seq<Seq<char>> {
    match inline_value(lines[0]) {
        Some(inline) if inline.len() > 0 => {
            let inner = if is_between(inline, '[', ']') {
                inline.subrange(1, inline.len() - 1)
            } else {
                inline
            };
            cleaned_all(text::split_on(inner, ','))
        },
        _ => cleaned_all(bullets(lines.skip(1))),
    }
}

/// A `YYYY-MM-DD` date. Anything else leaves the value unset.
pub open spec fn date_value(lines: Seq<Seq<char>>) -> Option<Date> {
    match inline_value(lines[0]) {
        Some(inline) => date::dated(cleaned(inline)),
        None => None,
    }
}

fn clean(value: &[char]) -> (out: Vec<char>)
    ensures
        out@ == cleaned(value@),
{
    let s = text::trim_chars(value);
    let n = s.len();
    if n >= 2 && ((s[0] == '"' && s[n - 1] == '"') || (s[0] == '\'' && s[n - 1] == '\'')) {
        text::trim_chars(&text::part(&s, 1, n - 1))
    } else {
        text::trim_chars(&s)
    }
}

fn clean_all(pieces: &Vec<Vec<char>>) -> (out: Vec<String>)
    ensures
        text::views(out@) == cleaned_all(text::views(pieces@)),
{
    let ghost all = text::views(pieces@);
    let mut out: Vec<String> = Vec::new();
    let mut i: usize = 0;
    assert(text::views(out@) =~= cleaned_all(all.take(0)));
    while i < pieces.len()
        invariant
            i <= pieces@.len(),
            all == text::views(pieces@),
            text::views(out@) == cleaned_all(all.take(i as int)),
        decreases pieces@.len() - i,
    {
        assert(all.take(i + 1).drop_last() =~= all.take(i as int));
        assert(all.take(i + 1).last() == pieces@[i as int]@);
        let item = clean(&pieces[i]);
        if item.len() > 0 {
            let item = text::string_of(&item);
            proof {
                text::lemma_views_push(out@, item);
            }
            out.push(item);
        }
        i = i + 1;
    }
    assert(all.take(all.len() as int) =~= all);
    out
}

fn bullets_of(lines: &Vec<Vec<char>>) -> (out: Vec<Vec<char>>)
    requires
        lines@.len() > 0,
    ensures
        text::views(out@) == bullets(text::views(lines@).skip(1)),
{
    let ghost all = text::views(lines@).skip(1);
    let mut out: Vec<Vec<char>> = Vec::new();
    let mut i: usize = 1;
    let mark = text::chars_of("- ");
    proof {
        reveal_strlit("- ");
    }
    assert(text::views(out@) =~= bullets(all.take(0)));
    while i < lines.len()
        invariant
            1 <= i <= lines@.len(),
            all == text::views(lines@).skip(1),
            mark@ == "- "@,
            mark@.len() == 2,
            text::views(out@) == bullets(all.take(i - 1)),
        decreases lines@.len() - i,
    {
        assert(all.take(i as int).drop_last() =~= all.take(i - 1));
        assert(all.take(i as int).last() == lines@[i as int]@);
        let line = text::trim_chars(&lines[i]);
        if text::begins(&line, &mark) {
            let item = text::part(&line, 2, line.len());
            assert(item@ =~= line@.skip(2));
            proof {
                text::lemma_views_push(out@, item);
            }
            out.push(item);
        }
        i = i + 1;
    }
    assert(all.take(lines@.len() - 1) =~= all);
    out
}

fn inline_of(line: &Vec<char>) -> (r: Option<Vec<char>>)
    ensures
        match r {
            Some(v) => inline_value(line@) == Some(v@),
            None => inline_value(line@) is None,
        },
{
    let n = line.len();
    match text::position_of(line, ':', 0) {
        Some(i) => {
            let rest = text::part(line, i + 1, n);
            assert(rest@ =~= line@.skip(i + 1));
            Some(text::trim_chars(&rest))
        },
        None => None,
    }
}

fn read_list(lines: &Vec<Vec<char>>) -> (out: Vec<String>)
    requires
        lines@.len() > 0,
    ensures
        text::views(out@) == list_value(text::views(lines@)),
{
    assert(text::views(lines@)[0] == lines@[0]@);
    match inline_of(&lines[0]) {
        Some(inline) => {
            let n = inline.len();
            if n > 0 {
                if n >= 2 && inline[0] == '[' && inline[n - 1] == ']' {
                    clean_all(&text::split_chars(&text::part(&inline, 1, n - 1), ','))
                } else {
                    clean_all(&text::split_chars(&inline, ','))
                }
            } else {
                clean_all(&bullets_of(lines))
            }
        },
        None => clean_all(&bullets_of(lines)),
    }
}

fn read_date(lines: &Vec<Vec<char>>) -> (r: Option<Date>)
    requires
        lines@.len() > 0,
    ensures
        r == date_value(text::views(lines@)),
{
    assert(text::views(lines@)[0] == lines@[0]@);
    match inline_of(&lines[0]) {
        Some(inline) => Date::parse(text::string_of(&clean(&inline)).as_str()),
        None => None,
    }
}

/// The values of the four keys.
#[verifier::ext_equal]
pub struct Values {
    pub tags: Seq<Seq<char>>,
    pub aliases: Seq<Seq<char>>,
    pub created: Option<Date>,
    pub updated: Option<Date>,
}

/// No values.
pub open spec fn no_values() -> Values {
    Values { tags: seq![], aliases: seq![], created: None, updated: None }
}

/// The values some entries hold, a later entry of a key in place of an earlier.
pub open spec fn values_of(entries: Seq<EntryView>) -> Values
    decreases entries.len(),
{
    if entries.len() == 0 {
        no_values()
    } else {
        let before = values_of(entries.drop_last());
        let lines = entries.last().lines;
        match entries.last().key {
            None => before,
            Some(Key::Tags) => Values { tags: list_value(lines), ..before },
            Some(Key::Aliases) => Values { aliases: list_value(lines), ..before },
            Some(Key::Created) => Values { created: date_value(lines), ..before },
            Some(Key::Updated) => Values { updated: date_value(lines), ..before },
        }
    }
}

/// The values as they were read, to tell "unchanged" from "edited".
#[derive(Debug, PartialEq, Eq)]
struct Read {
    tags: Vec<String>,
    aliases: Vec<String>,
    created: Option<Date>,
    updated: Option<Date>,
}

impl View for Read {
    type V = Values;

    closed spec fn view(&self) -> Values {
        Values {
            tags: text::views(self.tags@),
            aliases: text::views(self.aliases@),
            created: self.created,
            updated: self.updated,
        }
    }
}

fn read_values(entries: &Vec<Entry>) -> (r: Read)
    requires
        forall|i: int| 0 <= i < entries@.len() ==> (#[trigger] entries@[i]).lines@.len() > 0,
    ensures
        r@ == values_of(text::views(entries@)),
{
    let ghost all = text::views(entries@);
    let mut r = Read { tags: Vec::new(), aliases: Vec::new(), created: None, updated: None };
    let mut i: usize = 0;
    assert(r@ =~= values_of(all.take(0)));
    while i < entries.len()
        invariant
            i <= entries@.len(),
            all == text::views(entries@),
            forall|i: int| 0 <= i < entries@.len() ==> (#[trigger] entries@[i]).lines@.len() > 0,
            r@ == values_of(all.take(i as int)),
        decreases entries@.len() - i,
    {
        assert(all.take(i + 1).drop_last() =~= all.take(i as int));
        assert(all.take(i + 1).last() == entries@[i as int]@);
        let entry = &entries[i];
        assert(entries@[i as int].lines@.len() > 0);
        match entry.key {
            None => {},
            Some(Key::Tags) => {
                r.tags = read_list(&entry.lines);
            },
            Some(Key::Aliases) => {
                r.aliases = read_list(&entry.lines);
            },
            Some(Key::Created) => {
                r.created = read_date(&entry.lines);
            },
            Some(Key::Updated) => {
                r.updated = read_date(&entry.lines);
            },
        }
        i = i + 1;
    }
    assert(all.take(all.len() as int) =~= all);
    r
}

// ---- the block ----

/// What a block held when it was read, so unchanged lines survive a save byte
/// for byte and unknown keys survive at all.
#[derive(Debug, PartialEq, Eq)]
pub struct Source {
    entries: Vec<Entry>,
    /// The values as they were read.
    original: Option<Read>,
    /// The delimiter lines exactly as written, which may carry trailing
    /// spaces.
    open: Vec<char>,
    close: Vec<char>,
    /// Whether the closing delimiter was followed by a newline. A note whose
    /// last byte is the `-` of `---` is a real state, and adding a newline
    /// there would be an edit.
    close_newline: bool,
}

/// A note's metadata block.
#[derive(Debug, PartialEq, Eq)]
pub struct Frontmatter {
    pub tags: Vec<String>,
    pub aliases: Vec<String>,
    pub created: Option<Date>,
    pub updated: Option<Date>,
    /// The block as it was read.
    pub source: Source,
}

/// The parts of a block that only a read fills in.
#[verifier::ext_equal]
pub struct Found {
    pub entries: Seq<EntryView>,
    pub original: Option<Values>,
    pub open: Seq<char>,
    pub close: Seq<char>,
    pub close_newline: bool,
}

/// A block, by its texts.
#[verifier::ext_equal]
pub struct Block {
    pub values: Values,
    pub found: Found,
}

impl View for Source {
    type V = Found;

    closed spec fn view(&self) -> Found {
        Found {
            entries: text::views(self.entries@),
            original: match self.original {
                Some(read) => Some(read@),
                None => None,
            },
            open: self.open@,
            close: self.close@,
            close_newline: self.close_newline,
        }
    }
}

impl View for Frontmatter {
    type V = Block;

    open spec fn view(&self) -> Block {
        Block {
            values: Values {
                tags: text::views(self.tags@),
                aliases: text::views(self.aliases@),
                created: self.created,
                updated: self.updated,
            },
            found: self.source@,
        }
    }
}

/// The block of a note that has none yet.
pub open spec fn fresh() -> Block {
    Block {
        values: no_values(),
        found: Found {
            entries: seq![],
            original: None,
            open: "---"@,
            close: "---"@,
            close_newline: true,
        },
    }
}

/// Whether a key has a value.
pub open spec fn is_set(values: Values, key: Key) -> bool {
    match key {
        Key::Tags => values.tags.len() > 0,
        Key::Aliases => values.aliases.len() > 0,
        Key::Created => values.created is Some,
        Key::Updated => values.updated is Some,
    }
}

/// Whether a key's value differs from what was read.
pub open spec fn is_changed(block: Block, key: Key) -> bool {
    match block.found.original {
        None => true,
        Some(original) => match key {
            Key::Tags => block.values.tags != original.tags,
            Key::Aliases => block.values.aliases != original.aliases,
            Key::Created => block.values.created != original.created,
            Key::Updated => block.values.updated != original.updated,
        },
    }
}

/// Whether an entry would leave nothing in the block.
pub open spec fn leaves_nothing(block: Block, entry: EntryView) -> bool {
    match entry.key {
        Some(key) => !is_set(block.values, key) && is_changed(block, key),
        None => forall|i: int|
            0 <= i < entry.lines.len() ==> text::trim(#[trigger] entry.lines[i]).len() == 0,
    }
}

/// Whether there is nothing worth writing a block for.
pub open spec fn is_empty(block: Block) -> bool {
    &&& !is_set(block.values, Key::Tags)
    &&& !is_set(block.values, Key::Aliases)
    &&& !is_set(block.values, Key::Created)
    &&& !is_set(block.values, Key::Updated)
    &&& forall|i: int|
        0 <= i < block.found.entries.len() ==> leaves_nothing(
            block,
            #[trigger] block.found.entries[i],
        )
}

/// The canonical line for a key, if it has a value.
pub open spec fn line_for(values: Values, key: Key) -> Option<Seq<char>> {
    if !is_set(values, key) {
        None
    } else {
        let value = match key {
            Key::Tags => seq!['['] + text::join(values.tags, ", "@) + seq![']'],
            Key::Aliases => seq!['['] + text::join(values.aliases, ", "@) + seq![']'],
            Key::Created => date::show(values.created->0),
            Key::Updated => date::show(values.updated->0),
        };
        Some(name(key) + ": "@ + value)
    }
}

/// Some lines, each with a line feed behind it.
pub open spec fn lines_text(lines: Seq<Seq<char>>) -> Seq<char>
    decreases lines.len(),
{
    if lines.len() == 0 {
        seq![]
    } else {
        lines_text(lines.drop_last()) + lines.last() + seq!['\n']
    }
}

/// A line that may be there, with its line feed.
pub open spec fn line_text(line: Option<Seq<char>>) -> Seq<char> {
    match line {
        Some(line) => line + seq!['\n'],
        None => seq![],
    }
}

/// An entry as it is written: as it was found, unless its value changed.
pub open spec fn entry_text(block: Block, entry: EntryView) -> Seq<char> {
    match entry.key {
        Some(key) if is_changed(block, key) => line_text(line_for(block.values, key)),
        _ => lines_text(entry.lines),
    }
}

/// Some entries as they are written.
pub open spec fn entries_text(block: Block, entries: Seq<EntryView>) -> Seq<char>
    decreases entries.len(),
{
    if entries.len() == 0 {
        seq![]
    } else {
        entries_text(block, entries.drop_last()) + entry_text(block, entries.last())
    }
}

/// Whether an entry of a key is among some entries.
pub open spec fn has_key(entries: Seq<EntryView>, key: Key) -> bool {
    exists|i: int| 0 <= i < entries.len() && (#[trigger] entries[i]).key == Some(key)
}

/// The line of a key set for the first time.
pub open spec fn new_text(block: Block, key: Key) -> Seq<char> {
    if has_key(block.found.entries, key) {
        seq![]
    } else {
        line_text(line_for(block.values, key))
    }
}

/// What is written behind the entries: the keys set for the first time, and
/// the closing delimiter.
pub open spec fn tail_text(block: Block) -> Seq<char> {
    new_text(block, Key::Tags) + new_text(block, Key::Aliases) + new_text(block, Key::Created)
        + new_text(block, Key::Updated) + block.found.close + (if block.found.close_newline {
        seq!['\n']
    } else {
        seq![]
    })
}

/// The block with everything that is in it.
pub open spec fn whole(block: Block) -> Seq<char> {
    block.found.open + seq!['\n'] + entries_text(block, block.found.entries) + tail_text(block)
}

/// The block as text.
pub open spec fn rendered(block: Block) -> Seq<char> {
    if is_empty(block) {
        seq![]
    } else {
        whole(block)
    }
}

/// Whether the values are those that were read.
pub open spec fn is_untouched(block: Block) -> bool {
    block.found.original == Some(block.values)
}

/// The block as it goes into a file: one that was not edited goes back as it
/// was, even if there is nothing in it.
pub open spec fn written(block: Block) -> Seq<char> {
    if is_untouched(block) {
        whole(block)
    } else {
        rendered(block)
    }
}

// ---- taking a note apart ----

/// The first line at or after `from` that closes a block.
pub open spec fn closing(lines: Seq<Seq<char>>, from: int) -> Option<int>
    decreases lines.len() - from,
{
    if from < 0 || from >= lines.len() {
        None
    } else if is_rule(lines[from]) {
        Some(from)
    } else {
        closing(lines, from + 1)
    }
}

/// The block whose closing line is at `end`.
pub open spec fn block_at(lines: Seq<Seq<char>>, end: int) -> Block {
    let entries = grouped(lines.subrange(1, end));
    Block {
        values: values_of(entries),
        found: Found {
            entries,
            original: Some(values_of(entries)),
            open: lines[0],
            close: lines[end],
            close_newline: end < lines.len() - 1,
        },
    }
}

/// A note's metadata block and its body. An unterminated block is none.
pub open spec fn parts(note: Seq<char>) -> (Option<Block>, Seq<char>) {
    let lines = text::split_on(note, '\n');
    if is_rule(lines[0]) {
        match closing(lines, 1) {
            Some(end) => (
                Some(block_at(lines, end)),
                text::join(lines.skip(end + 1), seq!['\n']),
            ),
            None => (None, note),
        }
    } else {
        (None, note)
    }
}

proof fn lemma_grouped_lines(lines: Seq<Seq<char>>)
    ensures
        forall|i: int| 0 <= i < grouped(lines).len() ==> (#[trigger] grouped(lines)[i]).lines.len()
            > 0,
    decreases lines.len(),
{
    if lines.len() > 0 {
        lemma_grouped_lines(lines.drop_last());
    }
}

/// The text before a line of a note is its earlier lines, each with its line
/// feed.
pub proof fn lemma_join_lines(lines: Seq<Seq<char>>, k: int)
    requires
        0 <= k < lines.len(),
    ensures
        text::join(lines, seq!['\n']) == lines_text(lines.take(k)) + text::join(
            lines.skip(k),
            seq!['\n'],
        ),
    decreases k,
{
    let sep = seq!['\n'];
    if k == 0 {
        assert(lines.skip(0) =~= lines);
        assert(lines.take(0) =~= Seq::<Seq<char>>::empty());
        assert(lines_text(lines.take(0)) + text::join(lines.skip(0), sep) =~= text::join(
            lines,
            sep,
        ));
    } else {
        lemma_join_lines(lines, k - 1);
        let rest = lines.skip(k - 1);
        text::lemma_join_first(rest, sep);
        assert(rest.skip(1) =~= lines.skip(k));
        assert(lines.take(k).drop_last() =~= lines.take(k - 1));
        assert(lines.take(k).last() == lines[k - 1]);
        assert(text::join(lines, sep) =~= lines_text(lines.take(k)) + text::join(
            lines.skip(k),
            sep,
        ));
    }
}

/// Split a note into its metadata block and its body.
///
/// The body is returned as written, starting at the first character after the
/// closing delimiter's newline. A note with no frontmatter yields `None` and
/// the whole text.
pub fn split(note: &str) -> (r: (Option<Frontmatter>, &str))
    ensures
        r.1@ == parts(note@).1,
        match r.0 {
            Some(f) => parts(note@).0 == Some(f@),
            None => parts(note@).0 is None,
        },
{
    let chars = text::chars_of(note);
    let length = chars.len();
    let pieces = text::split_chars(&chars, '\n');
    let ghost all = text::views(pieces@);
    assert(all[0] == pieces@[0]@);
    if !rule(&pieces[0]) {
        return (None, note);
    }
    let n = pieces.len();
    let mut consumed: usize = 0;
    let mut k: usize = 0;
    let mut found = false;
    proof {
        text::lemma_join_split(note@, '\n');
        lemma_join_lines(all, 0);
        assert(all.take(0) =~= Seq::<Seq<char>>::empty());
    }
    while k + 1 < n && !found
        invariant
            k < n == pieces@.len(),
            all == text::views(pieces@),
            all == text::split_on(note@, '\n'),
            length == note@.len(),
            note@ == text::join(all, seq!['\n']),
            consumed == lines_text(all.take(k as int)).len(),
            found ==> k > 0 && is_rule(all[k as int]) && closing(all, 1) == Some(k as int),
            !found ==> closing(all, 1) == closing(all, k + 1),
        decreases n - k, !found as int,
    {
        proof {
            lemma_join_lines(all, k + 1);
            assert(all.take(k + 1).drop_last() =~= all.take(k as int));
        }
        consumed = consumed + pieces[k].len() + 1;
        k = k + 1;
        found = rule(&pieces[k]);
        assert(all[k as int] == pieces@[k as int]@);
    }
    if !found {
        return (None, note);
    }
    proof {
        lemma_join_lines(all, k as int);
        if k + 1 < n {
            lemma_join_lines(all, k + 1);
            assert(all.take(k + 1).drop_last() =~= all.take(k as int));
        } else {
            assert(all.skip(k as int) =~= seq![all[k as int]]);
        }
    }
    let close_newline = k + 1 < n;
    let start: usize = consumed + pieces[k].len() + if close_newline {
        1
    } else {
        0
    };
    let body = note.substring_char(start, length);
    proof {
        let rest = text::join(all.skip(k + 1), seq!['\n']);
        if close_newline {
            assert(note@ == lines_text(all.take(k + 1)) + rest);
        } else {
            assert(all.skip(k + 1) =~= Seq::<Seq<char>>::empty());
        }
        assert(body@ =~= rest);
    }
    let entries = group(&pieces, 1, k);
    proof {
        lemma_grouped_lines(all.subrange(1, k as int));
        assert forall|i: int| 0 <= i < entries@.len() implies (#[trigger] entries@[i]).lines@.len()
            > 0 by {
            let g = grouped(all.subrange(1, k as int));
            assert(g[i] == entries@[i]@);
        }
    }
    let values = read_values(&entries);
    let open = text::part(&pieces[0], 0, pieces[0].len());
    let close = text::part(&pieces[k], 0, pieces[k].len());
    assert(open@ =~= all[0]);
    assert(close@ =~= all[k as int]);
    let f = Frontmatter {
        tags: text::copy_all(&values.tags),
        aliases: text::copy_all(&values.aliases),
        created: values.created,
        updated: values.updated,
        source: Source { entries, original: Some(values), open, close, close_newline },
    };
    assert(f@ =~= block_at(all, k as int));
    (Some(f), body)
}

// ---- writing the block ----

fn same_list(a: &Vec<String>, b: &Vec<String>) -> (r: bool)
    ensures
        r == (text::views(a@) == text::views(b@)),
{
    if a.len() != b.len() {
        assert(text::views(a@).len() != text::views(b@).len());
        return false;
    }
    let mut i: usize = 0;
    while i < a.len()
        invariant
            i <= a@.len() == b@.len(),
            forall|j: int| 0 <= j < i ==> (#[trigger] text::views(a@)[j]) == text::views(b@)[j],
        decreases a@.len() - i,
    {
        if a[i] != b[i] {
            assert(text::views(a@)[i as int] != text::views(b@)[i as int]);
            return false;
        }
        i = i + 1;
    }
    assert(text::views(a@) =~= text::views(b@));
    true
}

fn same_date(a: Option<Date>, b: Option<Date>) -> (r: bool)
    ensures
        r == (a == b),
{
    match (a, b) {
        (Some(x), Some(y)) => x == y,
        (None, None) => true,
        _ => false,
    }
}

fn same_lines(a: &Vec<Vec<char>>, b: &Vec<Vec<char>>) -> (r: bool)
    ensures
        r == (text::views(a@) == text::views(b@)),
{
    if a.len() != b.len() {
        assert(text::views(a@).len() != text::views(b@).len());
        return false;
    }
    let mut i: usize = 0;
    while i < a.len()
        invariant
            i <= a@.len() == b@.len(),
            forall|j: int| 0 <= j < i ==> (#[trigger] text::views(a@)[j]) == text::views(b@)[j],
        decreases a@.len() - i,
    {
        if !text::same_chars(&a[i], &b[i]) {
            assert(text::views(a@)[i as int] != text::views(b@)[i as int]);
            return false;
        }
        i = i + 1;
    }
    assert(text::views(a@) =~= text::views(b@));
    true
}

fn same_key(a: Option<Key>, b: Option<Key>) -> (r: bool)
    ensures
        r == (a == b),
{
    match (a, b) {
        (Some(x), Some(y)) => x == y,
        (None, None) => true,
        _ => false,
    }
}

fn same_entries(a: &Vec<Entry>, b: &Vec<Entry>) -> (r: bool)
    ensures
        r == (text::views(a@) == text::views(b@)),
{
    if a.len() != b.len() {
        assert(text::views(a@).len() != text::views(b@).len());
        return false;
    }
    let mut i: usize = 0;
    while i < a.len()
        invariant
            i <= a@.len() == b@.len(),
            forall|j: int| 0 <= j < i ==> (#[trigger] text::views(a@)[j]) == text::views(b@)[j],
        decreases a@.len() - i,
    {
        let same = same_key(a[i].key, b[i].key) && same_lines(&a[i].lines, &b[i].lines);
        assert(text::views(a@)[i as int] == a@[i as int]@);
        assert(text::views(b@)[i as int] == b@[i as int]@);
        if !same {
            assert(text::views(a@)[i as int] != text::views(b@)[i as int]);
            return false;
        }
        i = i + 1;
    }
    assert(text::views(a@) =~= text::views(b@));
    true
}

fn same_read(a: &Option<Read>, b: &Option<Read>) -> (r: bool)
    ensures
        r == ((match *a {
            Some(x) => Some(x@),
            None => None,
        }) == (match *b {
            Some(x) => Some(x@),
            None => None,
        })),
{
    match (a, b) {
        (Some(x), Some(y)) => same_list(&x.tags, &y.tags) && same_list(&x.aliases, &y.aliases)
            && same_date(x.created, y.created) && same_date(x.updated, y.updated),
        (None, None) => true,
        _ => false,
    }
}

fn chars_of_all(texts: &Vec<String>) -> (out: Vec<Vec<char>>)
    ensures
        text::views(out@) == text::views(texts@),
{
    let ghost all = text::views(texts@);
    let mut out: Vec<Vec<char>> = Vec::new();
    let mut i: usize = 0;
    while i < texts.len()
        invariant
            i <= texts@.len(),
            all == text::views(texts@),
            text::views(out@) == all.take(i as int),
        decreases texts@.len() - i,
    {
        let chars = text::chars_of(texts[i].as_str());
        proof {
            text::lemma_views_push(out@, chars);
            assert(all.take(i + 1) =~= all.take(i as int).push(chars@));
        }
        out.push(chars);
        i = i + 1;
    }
    assert(all.take(all.len() as int) =~= all);
    out
}

fn push_lines(out: &mut Vec<char>, lines: &Vec<Vec<char>>)
    ensures
        final(out)@ == old(out)@ + lines_text(text::views(lines@)),
{
    let ghost all = text::views(lines@);
    let ghost start = out@;
    let mut i: usize = 0;
    assert(out@ =~= start + lines_text(all.take(0)));
    while i < lines.len()
        invariant
            i <= lines@.len(),
            all == text::views(lines@),
            out@ == start + lines_text(all.take(i as int)),
        decreases lines@.len() - i,
    {
        assert(all.take(i + 1).drop_last() =~= all.take(i as int));
        text::extend(out, &lines[i]);
        out.push('\n');
        assert(out@ =~= start + lines_text(all.take(i + 1)));
        i = i + 1;
    }
    assert(all.take(all.len() as int) =~= all);
}

impl Default for Frontmatter {
    /// The block of a note that has none yet.
    fn default() -> (r: Self)
        ensures
            r@ == fresh(),
    {
        let r = Frontmatter {
            tags: Vec::new(),
            aliases: Vec::new(),
            created: None,
            updated: None,
            source: Source {
                entries: Vec::new(),
                original: None,
                open: text::chars_of("---"),
                close: text::chars_of("---"),
                close_newline: true,
            },
        };
        assert(r@ =~= fresh());
        r
    }
}

impl Frontmatter {
    fn is_set(&self, key: Key) -> (r: bool)
        ensures
            r == is_set(self@.values, key),
    {
        match key {
            Key::Tags => self.tags.len() > 0,
            Key::Aliases => self.aliases.len() > 0,
            Key::Created => self.created.is_some(),
            Key::Updated => self.updated.is_some(),
        }
    }

    fn changed(&self, key: Key) -> (r: bool)
        ensures
            r == is_changed(self@, key),
    {
        match &self.source.original {
            None => true,
            Some(original) => match key {
                Key::Tags => !same_list(&self.tags, &original.tags),
                Key::Aliases => !same_list(&self.aliases, &original.aliases),
                Key::Created => !same_date(self.created, original.created),
                Key::Updated => !same_date(self.updated, original.updated),
            },
        }
    }

    fn leaves_nothing(&self, entry: &Entry) -> (r: bool)
        ensures
            r == leaves_nothing(self@, entry@),
    {
        match entry.key {
            Some(key) => !self.is_set(key) && self.changed(key),
            None => {
                let ghost all = text::views(entry.lines@);
                let mut i: usize = 0;
                while i < entry.lines.len()
                    invariant
                        i <= entry.lines@.len(),
                        all == text::views(entry.lines@),
                        all == entry@.lines,
                        entry.key is None,
                        entry@.key is None,
                        forall|j: int| 0 <= j < i ==> text::trim(#[trigger] all[j]).len() == 0,
                    decreases entry.lines@.len() - i,
                {
                    assert(all[i as int] == entry.lines@[i as int]@);
                    if text::trim_chars(&entry.lines[i]).len() > 0 {
                        return false;
                    }
                    i = i + 1;
                }
                true
            },
        }
    }

    /// Whether this is the same block as another: the same values, read from
    /// the same lines.
    pub fn same(&self, other: &Frontmatter) -> (r: bool)
        ensures
            r == (self@ == other@),
    {
        let a = &self.source;
        let b = &other.source;
        let r = same_list(&self.tags, &other.tags) && same_list(&self.aliases, &other.aliases)
            && same_date(self.created, other.created) && same_date(self.updated, other.updated)
            && same_entries(&a.entries, &b.entries) && same_read(&a.original, &b.original)
            && text::same_chars(&a.open, &b.open) && text::same_chars(&a.close, &b.close)
            && a.close_newline == b.close_newline;
        assert(r ==> self@ =~= other@);
        r
    }

    /// Whether there is nothing worth writing a `---` block for.
    ///
    /// A known key stops counting only when it was *cleared*. One that is
    /// unset because its value never parsed is still being written back
    /// verbatim, so the block still has content.
    pub fn is_empty(&self) -> (r: bool)
        ensures
            r == is_empty(self@),
    {
        if self.tags.len() > 0 || self.aliases.len() > 0 || self.created.is_some()
            || self.updated.is_some() {
            assert(is_set(self@.values, Key::Tags) || is_set(self@.values, Key::Aliases) || is_set(
                self@.values,
                Key::Created,
            ) || is_set(self@.values, Key::Updated));
            return false;
        }
        let ghost all = self@.found.entries;
        let mut i: usize = 0;
        while i < self.source.entries.len()
            invariant
                i <= self.source.entries@.len(),
                all == text::views(self.source.entries@),
                all == self@.found.entries,
                forall|j: int| 0 <= j < i ==> leaves_nothing(self@, #[trigger] all[j]),
            decreases self.source.entries@.len() - i,
        {
            assert(all[i as int] == self.source.entries@[i as int]@);
            if !self.leaves_nothing(&self.source.entries[i]) {
                return false;
            }
            i = i + 1;
        }
        true
    }

    fn line_for(&self, key: Key) -> (r: Option<Vec<char>>)
        ensures
            match r {
                Some(line) => line_for(self@.values, key) == Some(line@),
                None => line_for(self@.values, key) is None,
            },
    {
        if !self.is_set(key) {
            return None;
        }
        let value: Vec<char> = match key {
            Key::Tags => bracketed(&self.tags),
            Key::Aliases => bracketed(&self.aliases),
            Key::Created => match &self.created {
                Some(date) => text::chars_of(date.text().as_str()),
                None => Vec::new(),
            },
            Key::Updated => match &self.updated {
                Some(date) => text::chars_of(date.text().as_str()),
                None => Vec::new(),
            },
        };
        let mut line = text::chars_of(key.name());
        text::extend(&mut line, &text::chars_of(": "));
        text::extend(&mut line, &value);
        Some(line)
    }

    fn push_line_for(&self, out: &mut Vec<char>, key: Key)
        ensures
            final(out)@ == old(out)@ + line_text(line_for(self@.values, key)),
    {
        match self.line_for(key) {
            Some(line) => {
                text::extend(out, &line);
                out.push('\n');
                assert(out@ =~= old(out)@ + (line@ + seq!['\n']));
            },
            None => {
                assert(out@ =~= old(out)@ + Seq::<char>::empty());
            },
        }
    }

    fn has_key(&self, key: Key) -> (r: bool)
        ensures
            r == has_key(self@.found.entries, key),
    {
        let ghost all = self@.found.entries;
        let mut i: usize = 0;
        while i < self.source.entries.len()
            invariant
                i <= self.source.entries@.len(),
                all == text::views(self.source.entries@),
                all == self@.found.entries,
                forall|j: int| 0 <= j < i ==> (#[trigger] all[j]).key != Some(key),
            decreases self.source.entries@.len() - i,
        {
            assert(all[i as int] == self.source.entries@[i as int]@);
            let here = match self.source.entries[i].key {
                Some(k) => k == key,
                None => false,
            };
            if here {
                assert(all[i as int].key == Some(key));
                return true;
            }
            i = i + 1;
        }
        false
    }

    fn push_new(&self, out: &mut Vec<char>, key: Key)
        ensures
            final(out)@ == old(out)@ + new_text(self@, key),
    {
        if !self.has_key(key) {
            self.push_line_for(out, key);
        } else {
            assert(out@ =~= old(out)@ + Seq::<char>::empty());
        }
    }

    fn push_entry(&self, out: &mut Vec<char>, entry: &Entry)
        ensures
            final(out)@ == old(out)@ + entry_text(self@, entry@),
    {
        let changed = match entry.key {
            Some(key) => self.changed(key),
            None => false,
        };
        if changed {
            match entry.key {
                Some(key) => {
                    self.push_line_for(out, key);
                },
                None => {},
            }
        } else {
            push_lines(out, &entry.lines);
        }
    }

    /// The block as text, delimiters included.
    ///
    /// Empty frontmatter renders as the empty string rather than an empty
    /// block, so clearing the last tag removes the `---` rather than leaving a
    /// pair of delimiters behind.
    pub fn render(&self) -> (r: String)
        ensures
            r@ == rendered(self@),
    {
        if self.is_empty() {
            String::new()
        } else {
            self.whole()
        }
    }

    fn untouched(&self) -> (r: bool)
        ensures
            r == is_untouched(self@),
    {
        let r = !self.changed(Key::Tags) && !self.changed(Key::Aliases) && !self.changed(
            Key::Created,
        ) && !self.changed(Key::Updated);
        proof {
            if r {
                assert(self@.found.original->0 =~= self@.values);
            }
        }
        r
    }

    /// The block as it goes into a file. Read and written back without an edit,
    /// it is the same to the byte, even if there is nothing in it: a save must
    /// never produce a change that was not asked for.
    pub fn written(&self) -> (r: String)
        ensures
            r@ == written(self@),
    {
        if self.untouched() {
            self.whole()
        } else {
            self.render()
        }
    }

    fn whole(&self) -> (r: String)
        ensures
            r@ == whole(self@),
    {
        let mut out = text::part(&self.source.open, 0, self.source.open.len());
        assert(out@ =~= self@.found.open);
        out.push('\n');
        let ghost start = out@;
        let ghost all = self@.found.entries;
        let mut i: usize = 0;
        assert(out@ =~= start + entries_text(self@, all.take(0)));
        while i < self.source.entries.len()
            invariant
                i <= self.source.entries@.len(),
                all == text::views(self.source.entries@),
                all == self@.found.entries,
                out@ == start + entries_text(self@, all.take(i as int)),
            decreases self.source.entries@.len() - i,
        {
            assert(all.take(i + 1).drop_last() =~= all.take(i as int));
            assert(all.take(i + 1).last() == self.source.entries@[i as int]@);
            self.push_entry(&mut out, &self.source.entries[i]);
            assert(out@ =~= start + entries_text(self@, all.take(i + 1)));
            i = i + 1;
        }
        assert(all.take(all.len() as int) =~= all);
        self.push_tail(&mut out);
        text::string_of(&out)
    }

    fn push_tail(&self, out: &mut Vec<char>)
        ensures
            final(out)@ == old(out)@ + tail_text(self@),
    {
        let mut tail: Vec<char> = Vec::new();
        self.push_new(&mut tail, Key::Tags);
        assert(tail@ =~= new_text(self@, Key::Tags));
        self.push_new(&mut tail, Key::Aliases);
        self.push_new(&mut tail, Key::Created);
        self.push_new(&mut tail, Key::Updated);
        text::extend(&mut tail, &self.source.close);
        let ghost before = tail@;
        if self.source.close_newline {
            tail.push('\n');
            assert(tail@ =~= before + seq!['\n']);
        } else {
            assert(tail@ =~= before + Seq::<char>::empty());
        }
        text::extend(out, &tail);
    }
}

fn bracketed(texts: &Vec<String>) -> (out: Vec<char>)
    ensures
        out@ == seq!['['] + text::join(text::views(texts@), ", "@) + seq![']'],
{
    let mut out: Vec<char> = Vec::new();
    out.push('[');
    text::extend(&mut out, &text::join_with(&chars_of_all(texts), &text::chars_of(", ")));
    out.push(']');
    assert(out@ =~= seq!['['] + text::join(text::views(texts@), ", "@) + seq![']']);
    out
}

// ---- what holds of every block ----

/// Every line of some entries, in order.
pub open spec fn all_lines(entries: Seq<EntryView>) -> Seq<Seq<char>>
    decreases entries.len(),
{
    if entries.len() == 0 {
        seq![]
    } else {
        all_lines(entries.drop_last()) + entries.last().lines
    }
}

/// Gathering lines into entries loses none of them and keeps their order.
pub proof fn lemma_grouping_keeps_every_line(lines: Seq<Seq<char>>)
    ensures
        all_lines(grouped(lines)) == lines,
    decreases lines.len(),
{
    if lines.len() > 0 {
        lemma_grouping_keeps_every_line(lines.drop_last());
        let before = grouped(lines.drop_last());
        let now = grouped(lines);
        let line = lines.last();
        assert(lines =~= lines.drop_last().push(line));
        if before.len() > 0 && takes(before.last(), line) {
            assert(now.drop_last() =~= before.drop_last());
            assert(all_lines(now) =~= lines);
        } else {
            assert(now.drop_last() =~= before);
            assert(all_lines(now) =~= lines);
        }
    } else {
        assert(all_lines(grouped(lines)) =~= lines);
    }
}

proof fn lemma_lines_text_append(a: Seq<Seq<char>>, b: Seq<Seq<char>>)
    ensures
        lines_text(a + b) == lines_text(a) + lines_text(b),
    decreases b.len(),
{
    if b.len() == 0 {
        assert(a + b =~= a);
        assert(lines_text(a) + lines_text(b) =~= lines_text(a));
    } else {
        lemma_lines_text_append(a, b.drop_last());
        assert((a + b).drop_last() =~= a + b.drop_last());
        assert((a + b).last() == b.last());
        assert(lines_text(a + b) =~= lines_text(a) + lines_text(b));
    }
}

proof fn lemma_unedited_entries(block: Block, entries: Seq<EntryView>)
    requires
        forall|key: Key| !#[trigger] is_changed(block, key),
    ensures
        entries_text(block, entries) == lines_text(all_lines(entries)),
    decreases entries.len(),
{
    if entries.len() > 0 {
        lemma_unedited_entries(block, entries.drop_last());
        lemma_lines_text_append(all_lines(entries.drop_last()), entries.last().lines);
    }
}

proof fn lemma_set_values_have_entries(entries: Seq<EntryView>, key: Key)
    ensures
        is_set(values_of(entries), key) ==> has_key(entries, key),
    decreases entries.len(),
{
    if entries.len() > 0 && is_set(values_of(entries), key) {
        let rest = entries.drop_last();
        lemma_set_values_have_entries(rest, key);
        if entries.last().key == Some(key) {
            assert(entries[entries.len() - 1].key == Some(key));
        } else {
            assert(is_set(values_of(rest), key));
            let i = choose|i: int| 0 <= i < rest.len() && (#[trigger] rest[i]).key == Some(key);
            assert(entries[i].key == Some(key));
        }
    }
}

proof fn lemma_closing(lines: Seq<Seq<char>>, from: int)
    requires
        0 <= from,
        closing(lines, from) is Some,
    ensures
        from <= closing(lines, from)->0 < lines.len(),
        is_rule(lines[closing(lines, from)->0]),
    decreases lines.len() - from,
{
    if from < lines.len() && !is_rule(lines[from]) {
        lemma_closing(lines, from + 1);
    }
}

/// Reading a note and writing it back without editing it gives the same text.
pub proof fn lemma_an_unedited_note_is_written_back_as_it_was(note: Seq<char>)
    ensures
        match parts(note) {
            (Some(block), body) => written(block) + body == note,
            (None, body) => body == note,
        },
{
    if let (Some(block), body) = parts(note) {
        let lines = text::split_on(note, '\n');
        let sep = seq!['\n'];
        let end = closing(lines, 1)->0;
        let n = lines.len();
        lemma_closing(lines, 1);
        let raw = lines.subrange(1, end);
        let entries = grouped(raw);
        assert forall|key: Key| !#[trigger] is_changed(block, key) by {}
        lemma_unedited_entries(block, entries);
        lemma_grouping_keeps_every_line(raw);
        lemma_set_values_have_entries(entries, Key::Tags);
        lemma_set_values_have_entries(entries, Key::Aliases);
        lemma_set_values_have_entries(entries, Key::Created);
        lemma_set_values_have_entries(entries, Key::Updated);
        text::lemma_join_split(note, '\n');
        lemma_join_lines(lines, end);
        assert(lines.take(end) =~= seq![lines[0]] + raw);
        lemma_lines_text_append(seq![lines[0]], raw);
        assert(seq![lines[0]].drop_last() =~= Seq::<Seq<char>>::empty());
        reveal_with_fuel(lines_text, 2);
        assert(lines_text(seq![lines[0]]) =~= lines[0] + sep);
        let rest = lines.skip(end);
        if end < n - 1 {
            text::lemma_join_first(rest, sep);
            assert(rest.skip(1) =~= lines.skip(end + 1));
        } else {
            assert(rest =~= seq![lines[end]]);
            assert(lines.skip(end + 1) =~= Seq::<Seq<char>>::empty());
        }
        assert(written(block) + body =~= note);
    }
}

/// A block that was read has nothing in it exactly if every line in it is
/// blank.
pub proof fn lemma_only_a_blank_block_is_empty(note: Seq<char>)
    requires
        parts(note).0 is Some,
    ensures
        ({
            let block = parts(note).0->0;
            is_empty(block) == forall|i: int|
                0 <= i < all_lines(block.found.entries).len() ==> text::trim(
                    #[trigger] all_lines(block.found.entries)[i],
                ).len() == 0
        }),
{
    let lines = text::split_on(note, '\n');
    let end = closing(lines, 1)->0;
    lemma_closing(lines, 1);
    let raw = lines.subrange(1, end);
    let block = parts(note).0->0;
    let entries = block.found.entries;
    lemma_grouped_lines(raw);
    lemma_grouped_keys(raw);
    if is_empty(block) {
        assert forall|i: int| 0 <= i < all_lines(entries).len() implies text::trim(
            #[trigger] all_lines(entries)[i],
        ).len() == 0 by {
            let (e, l) = lemma_line_in_entry(entries, i);
            assert(leaves_nothing(block, entries[e]));
            if let Some(key) = entries[e].key {
                assert(!is_changed(block, key));
            }
        }
    } else if forall|i: int|
        0 <= i < all_lines(entries).len() ==> text::trim(#[trigger] all_lines(entries)[i]).len()
            == 0 {
        lemma_blank_entries(entries);
        assert forall|i: int| 0 <= i < entries.len() implies (#[trigger] entries[i]).key is None by {
            let first = entries[i].lines[0];
            assert(text::trim(first).len() == 0);
            lemma_blank_has_no_key(first);
        }
        assert forall|key: Key| !has_key(entries, key) by {}
        lemma_set_values_have_entries(entries, Key::Tags);
        lemma_set_values_have_entries(entries, Key::Aliases);
        lemma_set_values_have_entries(entries, Key::Created);
        lemma_set_values_have_entries(entries, Key::Updated);
        assert forall|i: int| 0 <= i < entries.len() implies leaves_nothing(
            block,
            #[trigger] entries[i],
        ) by {
            assert(entries[i].key is None);
        }
    }
}

proof fn lemma_grouped_keys(lines: Seq<Seq<char>>)
    ensures
        forall|i: int|
            0 <= i < grouped(lines).len() ==> (#[trigger] grouped(lines)[i]).lines.len() > 0
                && grouped(lines)[i].key == key_of(grouped(lines)[i].lines[0]),
    decreases lines.len(),
{
    if lines.len() > 0 {
        lemma_grouped_keys(lines.drop_last());
    }
}

proof fn lemma_line_in_entry(entries: Seq<EntryView>, i: int) -> (r: (int, int))
    requires
        0 <= i < all_lines(entries).len(),
    ensures
        0 <= r.0 < entries.len(),
        0 <= r.1 < entries[r.0].lines.len(),
        entries[r.0].lines[r.1] == all_lines(entries)[i],
    decreases entries.len(),
{
    let rest = entries.drop_last();
    let n = all_lines(rest).len();
    if i < n {
        let (e, l) = lemma_line_in_entry(rest, i);
        assert(rest[e] == entries[e]);
        (e, l)
    } else {
        (entries.len() - 1, i - n)
    }
}

proof fn lemma_blank_entries(entries: Seq<EntryView>)
    requires
        forall|i: int|
            0 <= i < all_lines(entries).len() ==> text::trim(
                #[trigger] all_lines(entries)[i],
            ).len() == 0,
    ensures
        forall|e: int, l: int|
            0 <= e < entries.len() && 0 <= l < entries[e].lines.len() ==> text::trim(
                #[trigger] entries[e].lines[l],
            ).len() == 0,
    decreases entries.len(),
{
    if entries.len() > 0 {
        let rest = entries.drop_last();
        let all = all_lines(entries);
        let n = all_lines(rest).len();
        assert forall|i: int| 0 <= i < n implies text::trim(
            #[trigger] all_lines(rest)[i],
        ).len() == 0 by {
            assert(all[i] == all_lines(rest)[i]);
        }
        lemma_blank_entries(rest);
        assert forall|e: int, l: int|
            0 <= e < entries.len() && 0 <= l < entries[e].lines.len() implies text::trim(
            #[trigger] entries[e].lines[l],
        ).len() == 0 by {
            if e < rest.len() {
                assert(rest[e].lines[l] == entries[e].lines[l]);
            } else {
                assert(all[n + l] == entries[e].lines[l]);
            }
        }
    }
}

proof fn lemma_blank_has_no_key(line: Seq<char>)
    requires
        text::trim(line).len() == 0,
    ensures
        key_name(line) is None,
{
    text::lemma_find_char(line, ':', 0);
    if line.len() > 0 && !text::white(line[0]) {
        assert(text::trim_start(line) == line);
        lemma_trim_end_keeps_first(line);
    }
}

proof fn lemma_trim_end_keeps_first(line: Seq<char>)
    requires
        line.len() > 0,
        !text::white(line[0]),
    ensures
        text::trim_end(line).len() > 0,
    decreases line.len(),
{
    if text::white(line.last()) {
        lemma_trim_end_keeps_first(line.drop_last());
    }
}

proof fn lemma_entries_text_holds(block: Block, entries: Seq<EntryView>, i: int) -> (r: (
    Seq<char>,
    Seq<char>,
))
    requires
        0 <= i < entries.len(),
    ensures
        entries_text(block, entries) == r.0 + entry_text(block, entries[i]) + r.1,
    decreases entries.len(),
{
    let rest = entries.drop_last();
    if i == entries.len() - 1 {
        let none = Seq::<char>::empty();
        assert(entries_text(block, entries) =~= entries_text(block, rest) + entry_text(
            block,
            entries[i],
        ) + none);
        (entries_text(block, rest), none)
    } else {
        let (a, b) = lemma_entries_text_holds(block, rest, i);
        assert(rest[i] == entries[i]);
        let c = b + entry_text(block, entries.last());
        assert(entries_text(block, entries) =~= a + entry_text(block, entries[i]) + c);
        (a, c)
    }
}

/// What is not understood, and what was not edited, survives a save untouched:
/// whatever the values are now, the lines of such an entry stand in the
/// written block as they were found.
pub proof fn lemma_what_was_not_edited_survives_a_save(block: Block, i: int)
    requires
        !is_empty(block),
        0 <= i < block.found.entries.len(),
        match block.found.entries[i].key {
            Some(key) => !is_changed(block, key),
            None => true,
        },
    ensures
        exists|before: Seq<char>, after: Seq<char>|
            rendered(block) == #[trigger] (before + lines_text(block.found.entries[i].lines)
                + after),
{
    lemma_rendered_holds_entry(block, i);
}

/// An edited key is written in its canonical form, and a cleared one not at
/// all, in the place where it stood.
pub proof fn lemma_an_edited_key_is_written_anew(block: Block, i: int, key: Key)
    requires
        !is_empty(block),
        0 <= i < block.found.entries.len(),
        block.found.entries[i].key == Some(key),
        is_changed(block, key),
    ensures
        exists|before: Seq<char>, after: Seq<char>|
            rendered(block) == #[trigger] (before + line_text(line_for(block.values, key))
                + after),
{
    lemma_rendered_holds_entry(block, i);
}

proof fn lemma_rendered_holds_entry(block: Block, i: int)
    requires
        !is_empty(block),
        0 <= i < block.found.entries.len(),
    ensures
        exists|before: Seq<char>, after: Seq<char>|
            rendered(block) == #[trigger] (before + entry_text(block, block.found.entries[i])
                + after),
{
    let entry = entry_text(block, block.found.entries[i]);
    let (a, b) = lemma_entries_text_holds(block, block.found.entries, i);
    lemma_regroup(block.found.open + seq!['\n'], a, entry, b, tail_text(block));
}

proof fn lemma_regroup(
    head: Seq<char>,
    a: Seq<char>,
    entry: Seq<char>,
    b: Seq<char>,
    tail: Seq<char>,
)
    ensures
        head + (a + entry + b) + tail == (head + a) + entry + (b + tail),
{
    assert(head + (a + entry + b) + tail =~= (head + a) + entry + (b + tail));
}

// ---- what is read out of a block ----

/// Whether a line is three dashes with at most whitespace behind them.
pub open spec fn is_dashes(line: Seq<char>) -> bool {
    line.len() >= 3 && line[0] == '-' && line[1] == '-' && line[2] == '-' && text::is_blank(
        line.skip(3),
    )
}

/// Whether some lines are a note that begins with a block: three dashes, lines
/// that are not, and three dashes at `end`.
pub open spec fn is_fenced(lines: Seq<Seq<char>>, end: int) -> bool {
    &&& 0 < end < lines.len()
    &&& is_dashes(lines[0])
    &&& is_dashes(lines[end])
    &&& forall|i: int| 0 < i < end ==> !is_dashes(#[trigger] lines[i])
    &&& forall|i: int| 0 <= i < lines.len() ==> !(#[trigger] lines[i]).contains('\n')
}

/// Whether what is written for a value is its text, or its text in a pair of
/// quotes, whitespace within them allowed.
pub open spec fn stands_for(written: Seq<char>, value: Seq<char>) -> bool {
    let n = written.len();
    let quoted = n >= 2 && written[0] == written[n - 1] && (written[0] == '"' || written[0]
        == '\'');
    if quoted {
        exists|a: Seq<char>, b: Seq<char>|
            text::is_blank(a) && text::is_blank(b) && written.subrange(1, n - 1) == #[trigger] (a
                + value + b)
    } else {
        written == value && n > 0
    }
}

/// Whether a value is written somewhere with at most whitespace around it; no
/// value is nothing but whitespace.
pub open spec fn reads_as(raw: Seq<char>, value: Seq<char>) -> bool {
    if value.len() == 0 {
        text::is_blank(raw)
    } else {
        &&& !text::white(value[0]) && !text::white(value.last())
        &&& exists|a: Seq<char>, written: Seq<char>, b: Seq<char>|
            text::is_blank(a) && text::is_blank(b) && stands_for(written, value) && raw
                == #[trigger] (a + written + b)
    }
}

/// The values that are not empty, in order.
pub open spec fn present(values: Seq<Seq<char>>) -> Seq<Seq<char>> {
    values.filter(|v: Seq<char>| v.len() > 0)
}

/// Whether a line goes on with what the line above it began: it is indented, or
/// it is an item.
pub open spec fn goes_on(line: Seq<char>) -> bool {
    line.len() > 0 && text::white(line[0]) || line.len() > 1 && line[0] == '-' && line[1] == ' '
}

/// Whether a line sets a key of some name.
pub open spec fn sets(line: Seq<char>, word: Seq<char>) -> bool {
    word.push(':').is_prefix_of(line)
}

/// A line opens or closes a block exactly if it is three dashes with at most
/// whitespace behind them.
pub proof fn lemma_dashes(line: Seq<char>)
    ensures
        is_rule(line) == is_dashes(line),
{
    reveal_strlit("---");
    let three = "---"@;
    text::lemma_trim_end_is_take(line);
    if is_dashes(line) {
        assert(line =~= three + line.skip(3));
        let none = Seq::<char>::empty();
        text::lemma_trim_around(none, three, line.skip(3));
    }
    if is_rule(line) {
        let rest = line.skip(3);
        assert(line.take(3) =~= three);
        assert(line[0] == line.take(3)[0] && line[1] == line.take(3)[1] && line[2] == line.take(
            3,
        )[2]);
        lemma_tail_blank(line);
        assert forall|i: int| 0 <= i < rest.len() implies text::white(#[trigger] rest[i]) by {
            assert(rest[i] == line[i + 3]);
        }
    }
}

proof fn lemma_tail_blank(s: Seq<char>)
    ensures
        forall|i: int| text::trim_end(s).len() <= i < s.len() ==> text::white(#[trigger] s[i]),
    decreases s.len(),
{
    if s.len() > 0 && text::white(s.last()) {
        let rest = s.drop_last();
        lemma_tail_blank(rest);
        assert forall|i: int| text::trim_end(s).len() <= i < s.len() implies text::white(
            #[trigger] s[i],
        ) by {
            if i < rest.len() {
                assert(s[i] == rest[i]);
            }
        }
    }
}

proof fn lemma_closing_at(lines: Seq<Seq<char>>, from: int, end: int)
    requires
        0 <= from <= end < lines.len(),
        is_rule(lines[end]),
        forall|i: int| from <= i < end ==> !is_rule(#[trigger] lines[i]),
    ensures
        closing(lines, from) == Some(end),
    decreases end - from,
{
    if from < end {
        lemma_closing_at(lines, from + 1, end);
    }
}

proof fn lemma_not_closing(lines: Seq<Seq<char>>, from: int)
    requires
        0 <= from,
        forall|i: int| from <= i < lines.len() ==> !is_rule(#[trigger] lines[i]),
    ensures
        closing(lines, from) is None,
    decreases lines.len() - from,
{
    if from < lines.len() {
        lemma_not_closing(lines, from + 1);
    }
}

/// A note that begins with three dashes has a block up to the next line of
/// three dashes, and its body is what comes behind that line.
pub proof fn lemma_a_block_ends_at_the_next_dashes(lines: Seq<Seq<char>>, end: int)
    requires
        is_fenced(lines, end),
    ensures
        ({
            let note = text::join(lines, seq!['\n']);
            &&& parts(note).0 is Some
            &&& parts(note).1 == text::join(lines.skip(end + 1), seq!['\n'])
            &&& parts(note).0->0.found.open == lines[0]
            &&& parts(note).0->0.found.close == lines[end]
            &&& parts(note).0->0.found.close_newline == (end < lines.len() - 1)
            &&& parts(note).0->0.found.original == Some(parts(note).0->0.values)
            &&& all_lines(parts(note).0->0.found.entries) == lines.subrange(1, end)
        }),
{
    lemma_fenced(lines, end);
    lemma_grouping_keeps_every_line(lines.subrange(1, end));
}

proof fn lemma_fenced(lines: Seq<Seq<char>>, end: int)
    requires
        is_fenced(lines, end),
    ensures
        parts(text::join(lines, seq!['\n'])) == (
            Some(block_at(lines, end)),
            text::join(lines.skip(end + 1), seq!['\n']),
        ),
{
    text::lemma_split_join(lines, '\n');
    lemma_dashes(lines[0]);
    lemma_dashes(lines[end]);
    assert forall|i: int| 1 <= i < end implies !is_rule(#[trigger] lines[i]) by {
        lemma_dashes(lines[i]);
    }
    lemma_closing_at(lines, 1, end);
}

/// A note whose first line is not three dashes has no block, and neither has
/// one whose block is never closed: it is all body.
pub proof fn lemma_an_open_block_is_none(lines: Seq<Seq<char>>)
    requires
        lines.len() > 0,
        forall|i: int| 0 <= i < lines.len() ==> !(#[trigger] lines[i]).contains('\n'),
        !is_dashes(lines[0]) || forall|i: int| 0 < i < lines.len() ==> !is_dashes(
            #[trigger] lines[i],
        ),
    ensures
        parts(text::join(lines, seq!['\n'])) == (
            None::<Block>,
            text::join(lines, seq!['\n']),
        ),
{
    text::lemma_split_join(lines, '\n');
    lemma_dashes(lines[0]);
    if is_dashes(lines[0]) {
        assert forall|i: int| 1 <= i < lines.len() implies !is_rule(#[trigger] lines[i]) by {
            lemma_dashes(lines[i]);
        }
        lemma_not_closing(lines, 1);
    }
}

proof fn lemma_reads_as(raw: Seq<char>, value: Seq<char>)
    requires
        reads_as(raw, value),
    ensures
        cleaned(raw) == value,
{
    let none = Seq::<char>::empty();
    if value.len() == 0 {
        assert(raw =~= raw + none + none);
        text::lemma_trim_around(raw, none, none);
        assert(value =~= none);
        text::lemma_trim_nothing(none);
    } else {
        let (a, written, b) = choose|a: Seq<char>, written: Seq<char>, b: Seq<char>|
            text::is_blank(a) && text::is_blank(b) && stands_for(written, value) && raw
                == #[trigger] (a + written + b);
        let n = written.len();
        text::lemma_trim_around(a, written, b);
        let quoted = n >= 2 && written[0] == written[n - 1] && (written[0] == '"' || written[0]
            == '\'');
        if quoted {
            let (c, d) = choose|c: Seq<char>, d: Seq<char>|
                text::is_blank(c) && text::is_blank(d) && written.subrange(1, n - 1)
                    == #[trigger] (c + value + d);
            text::lemma_trim_around(c, value, d);
        } else {
            text::lemma_trim_nothing(written);
        }
    }
}

proof fn lemma_read_all(raws: Seq<Seq<char>>, values: Seq<Seq<char>>)
    requires
        raws.len() == values.len(),
        forall|i: int| 0 <= i < raws.len() ==> reads_as(#[trigger] raws[i], values[i]),
    ensures
        cleaned_all(raws) == present(values),
    decreases raws.len(),
{
    reveal(Seq::filter);
    if raws.len() > 0 {
        let r = raws.drop_last();
        let v = values.drop_last();
        assert forall|i: int| 0 <= i < r.len() implies reads_as(#[trigger] r[i], v[i]) by {
            assert(r[i] == raws[i] && v[i] == values[i]);
        }
        lemma_read_all(r, v);
        assert(reads_as(raws[raws.len() - 1], values[values.len() - 1]));
        lemma_reads_as(raws.last(), values.last());
    } else {
        assert(present(values) =~= cleaned_all(raws));
    }
}

/// Whether a line is an item: whitespace, a dash, a space and what is written
/// for a value.
pub open spec fn is_item(line: Seq<char>, value: Seq<char>) -> bool {
    exists|indent: Seq<char>, raw: Seq<char>|
        text::is_blank(indent) && reads_as(raw, value) && line == #[trigger] (indent + "- "@ + raw)
}

proof fn lemma_item(line: Seq<char>, value: Seq<char>)
    requires
        is_item(line, value),
    ensures
        is_continuation(line),
        ({
            let t = text::trim(line);
            if value.len() > 0 {
                "- "@.is_prefix_of(t) && cleaned(t.skip(2)) == value
            } else {
                "- "@.is_prefix_of(t) ==> cleaned(t.skip(2)) == value
            }
        }),
{
    reveal_strlit("- ");
    let (indent, raw) = choose|indent: Seq<char>, raw: Seq<char>|
        text::is_blank(indent) && reads_as(raw, value) && line == #[trigger] (indent + "- "@ + raw);
    let none = Seq::<char>::empty();
    let dash = seq!['-', ' '];
    assert("- "@ =~= dash);
    if indent.len() > 0 {
        assert(text::white(indent[0]));
        assert(line[0] == indent[0]);
    } else {
        assert(line =~= dash + raw);
        assert(line[0] == '-');
        assert(text::trim_start(line) == line);
        assert(dash =~= line.subrange(0, 2));
    }
    if value.len() == 0 {
        let one = seq!['-'];
        let rest = seq![' '] + raw;
        assert(text::is_blank(rest)) by {
            assert forall|i: int| 0 <= i < rest.len() implies text::white(#[trigger] rest[i]) by {
                if i > 0 {
                    assert(rest[i] == raw[i - 1]);
                }
            }
        }
        assert(line =~= indent + one + rest);
        text::lemma_trim_around(indent, one, rest);
    } else {
        let (a, written, b) = choose|a: Seq<char>, written: Seq<char>, b: Seq<char>|
            text::is_blank(a) && text::is_blank(b) && stands_for(written, value) && raw
                == #[trigger] (a + written + b);
        let core = dash + a + written;
        assert(written.len() > 0);
        assert(core.last() == written.last());
        assert(line =~= indent + core + b);
        lemma_written_edges(written, value);
        text::lemma_trim_around(indent, core, b);
        assert(dash =~= core.subrange(0, 2));
        assert(core.skip(2) =~= a + written + none);
        assert(reads_as(core.skip(2), value));
        lemma_reads_as(core.skip(2), value);
    }
}

proof fn lemma_written_edges(written: Seq<char>, value: Seq<char>)
    requires
        stands_for(written, value),
        value.len() > 0,
        !text::white(value[0]) && !text::white(value.last()),
    ensures
        written.len() > 0,
        !text::white(written[0]),
        !text::white(written.last()),
{
}

proof fn lemma_bullets(lines: Seq<Seq<char>>, values: Seq<Seq<char>>)
    requires
        lines.len() == values.len(),
        forall|i: int| 0 <= i < lines.len() ==> is_item(#[trigger] lines[i], values[i]),
    ensures
        cleaned_all(bullets(lines)) == present(values),
    decreases lines.len(),
{
    reveal(Seq::filter);
    if lines.len() > 0 {
        let r = lines.drop_last();
        let v = values.drop_last();
        assert forall|i: int| 0 <= i < r.len() implies is_item(#[trigger] r[i], v[i]) by {
            assert(r[i] == lines[i] && v[i] == values[i]);
        }
        lemma_bullets(r, v);
        assert(is_item(lines[lines.len() - 1], values[values.len() - 1]));
        lemma_item(lines.last(), values.last());
        let line = text::trim(lines.last());
        if "- "@.is_prefix_of(line) {
            assert(bullets(lines).drop_last() =~= bullets(r));
        }
    } else {
        assert(bullets(lines) =~= seq![]);
        assert(present(values) =~= cleaned_all(bullets(lines)));
    }
}

proof fn lemma_grouped_append(a: Seq<Seq<char>>, b: Seq<Seq<char>>)
    requires
        b.len() > 0 ==> !is_continuation(b[0]),
    ensures
        grouped(a + b) == grouped(a) + grouped(b),
        b.len() > 0 ==> grouped(b).len() > 0,
    decreases b.len(),
{
    if b.len() == 0 {
        assert(a + b =~= a);
        assert(grouped(a) + grouped(b) =~= grouped(a));
    } else {
        let rest = b.drop_last();
        lemma_grouped_append(a, rest);
        assert((a + b).drop_last() =~= a + rest);
        assert((a + b).last() == b.last());
        let before = grouped(a) + grouped(rest);
        if rest.len() == 0 {
            assert(b.last() == b[0]);
            assert(before =~= grouped(a));
            assert(grouped(a + b) =~= grouped(a) + grouped(b));
        } else {
            assert(rest[0] == b[0]);
            assert(before.last() == grouped(rest).last());
            assert(grouped(a + b) =~= grouped(a) + grouped(b));
        }
    }
}

proof fn lemma_grouped_under(line: Seq<char>, under: Seq<Seq<char>>)
    requires
        key_name(line) is Some,
        forall|i: int| 0 <= i < under.len() ==> is_continuation(#[trigger] under[i]),
    ensures
        grouped(seq![line] + under) == seq![
            EntryView { key: key_of(line), lines: seq![line] + under },
        ],
    decreases under.len(),
{
    let all = seq![line] + under;
    if under.len() == 0 {
        assert(all.drop_last() =~= Seq::<Seq<char>>::empty());
        assert(all =~= seq![line]);
        reveal_with_fuel(grouped, 2);
    } else {
        let rest = under.drop_last();
        assert forall|i: int| 0 <= i < rest.len() implies is_continuation(#[trigger] rest[i]) by {
            assert(rest[i] == under[i]);
        }
        lemma_grouped_under(line, rest);
        assert(all.drop_last() =~= seq![line] + rest);
        assert(is_continuation(under[under.len() - 1]));
        assert((seq![line] + rest).push(under.last()) =~= all);
        assert(grouped(all) =~= seq![
            EntryView { key: key_of(line), lines: seq![line] + under },
        ]);
    }
}

proof fn lemma_first_lines(lines: Seq<Seq<char>>)
    ensures
        forall|i: int|
            0 <= i < grouped(lines).len() ==> (#[trigger] grouped(lines)[i]).lines.len() > 0
                && lines.contains(grouped(lines)[i].lines[0]) && grouped(lines)[i].key == key_of(
                grouped(lines)[i].lines[0],
            ),
    decreases lines.len(),
{
    if lines.len() > 0 {
        let rest = lines.drop_last();
        lemma_first_lines(rest);
        let g = grouped(lines);
        let b = grouped(rest);
        assert forall|i: int| 0 <= i < g.len() implies (#[trigger] g[i]).lines.len() > 0
            && lines.contains(g[i].lines[0]) && g[i].key == key_of(g[i].lines[0]) by {
            if i < b.len() {
                assert(g[i].lines[0] == b[i].lines[0]);
                let k = choose|k: int| 0 <= k < rest.len() && rest[k] == b[i].lines[0];
                assert(lines[k] == g[i].lines[0]);
            } else {
                assert(lines[lines.len() - 1] == g[i].lines[0]);
            }
        }
    }
}

spec fn value_of(key: Key, lines: Seq<Seq<char>>, values: Values) -> bool {
    match key {
        Key::Tags => values.tags == list_value(lines),
        Key::Aliases => values.aliases == list_value(lines),
        Key::Created => values.created == date_value(lines),
        Key::Updated => values.updated == date_value(lines),
    }
}

proof fn lemma_values_from(a: Seq<EntryView>, e: EntryView, c: Seq<EntryView>, key: Key)
    requires
        e.key == Some(key),
        forall|i: int| 0 <= i < c.len() ==> (#[trigger] c[i]).key != Some(key),
    ensures
        value_of(key, e.lines, values_of(a + seq![e] + c)),
    decreases c.len(),
{
    let all = a + seq![e] + c;
    if c.len() == 0 {
        assert(all.last() == e);
    } else {
        let rest = c.drop_last();
        assert forall|i: int| 0 <= i < rest.len() implies (#[trigger] rest[i]).key != Some(
            key,
        ) by {
            assert(rest[i] == c[i]);
        }
        lemma_values_from(a, e, rest, key);
        assert(all.drop_last() =~= a + seq![e] + rest);
        assert(all.last() == c[c.len() - 1]);
    }
}

proof fn lemma_key_lines(line: Seq<char>, key: Key)
    ensures
        key_of(line) == Some(key) ==> sets(line, name(key)),
        sets(line, name(key)) ==> key_name(line) is Some && key_of(line) == Some(key)
            && !is_continuation(line) && inline_value(line) == Some(
            text::trim(line.skip(name(key).len() as int + 1)),
        ),
{
    reveal_strlit("tags");
    reveal_strlit("aliases");
    reveal_strlit("created");
    reveal_strlit("updated");
    reveal_strlit("- ");
    text::lemma_find_char(line, ':', 0);
    let word = name(key);
    let n = word.len() as int;
    if key_of(line) == Some(key) {
        let i = text::find_char(line, ':', 0)->0;
        assert(line.take(i) == word);
        assert(word.push(':') =~= line.subrange(0, n + 1));
    }
    if sets(line, word) {
        assert(word.push(':') == line.subrange(0, n + 1));
        assert forall|k: int| 0 <= k < n implies line[k] == #[trigger] word[k] by {
            assert(word.push(':')[k] == line[k]);
        }
        assert(word.push(':')[n] == line[n]);
        assert forall|k: int| 0 <= k < n implies is_name_char(#[trigger] line[k]) && line[k]
            != ':' by {
            assert(line[k] == word[k]);
        }
        let i = text::find_char(line, ':', 0)->0;
        assert(i == n);
        assert(line.take(n) =~= word);
        assert(line[0] == word[0]);
        assert(text::trim_start(line) == line);
        if "- "@.is_prefix_of(line) {
            assert("- "@ == line.subrange(0, 2));
            assert("- "@[0] == line[0]);
        }
        lemma_a_key_is_found_by_its_name(key);
    }
}

/// Whether the key of some name is set by the line at `at` and the lines that
/// follow it up to `to`, and by none after that: those that follow go on with
/// it, the next does not.
pub open spec fn is_set_at(
    lines: Seq<Seq<char>>,
    end: int,
    word: Seq<char>,
    at: int,
    to: int,
) -> bool {
    &&& 0 < at < to <= end
    &&& sets(lines[at], word)
    &&& forall|i: int| at < i < to ==> goes_on(#[trigger] lines[i])
    &&& to < end ==> !goes_on(lines[to])
    &&& forall|i: int| to <= i < end ==> !sets(#[trigger] lines[i], word)
}

proof fn lemma_goes_on(line: Seq<char>)
    ensures
        goes_on(line) ==> is_continuation(line),
        is_continuation(line) ==> goes_on(line),
{
    reveal_strlit("- ");
    let dash = "- "@;
    if line.len() > 0 && !text::white(line[0]) {
        assert(text::trim_start(line) == line);
        if dash.is_prefix_of(line) {
            assert(dash == line.subrange(0, 2));
            assert(dash[0] == line[0] && dash[1] == line[1]);
        }
        if goes_on(line) {
            assert(dash =~= line.subrange(0, 2));
        }
    }
}

proof fn lemma_set_at(lines: Seq<Seq<char>>, end: int, key: Key, at: int, to: int)
    requires
        is_fenced(lines, end),
        is_set_at(lines, end, name(key), at, to),
    ensures
        parts(text::join(lines, seq!['\n'])).0 is Some,
        value_of(
            key,
            lines.subrange(at, to),
            parts(text::join(lines, seq!['\n'])).0->0.values,
        ),
{
    lemma_fenced(lines, end);
    let raw = lines.subrange(1, end);
    let a = lines.subrange(1, at);
    let under = lines.subrange(at + 1, to);
    let b = seq![lines[at]] + under;
    let c = lines.subrange(to, end);
    assert(raw =~= a + (b + c));
    assert(b =~= lines.subrange(at, to));
    lemma_key_lines(lines[at], key);
    assert((b + c)[0] == lines[at]);
    lemma_grouped_append(a, b + c);
    if c.len() > 0 {
        assert(c[0] == lines[to]);
        lemma_goes_on(lines[to]);
    }
    lemma_grouped_append(b, c);
    assert forall|i: int| 0 <= i < under.len() implies is_continuation(#[trigger] under[i]) by {
        assert(under[i] == lines[at + 1 + i]);
        lemma_goes_on(under[i]);
    }
    lemma_grouped_under(lines[at], under);
    let e = EntryView { key: key_of(lines[at]), lines: b };
    lemma_first_lines(c);
    let after = grouped(c);
    assert forall|i: int| 0 <= i < after.len() implies (#[trigger] after[i]).key != Some(key) by {
        let first = after[i].lines[0];
        let k = choose|k: int| 0 <= k < c.len() && c[k] == first;
        assert(c[k] == lines[to + k]);
        lemma_key_lines(first, key);
    }
    assert(grouped(a) + (seq![e] + after) =~= grouped(a) + seq![e] + after);
    lemma_values_from(grouped(a), e, after, key);
}

/// A list that stands under its key is read whatever its indent: where nothing
/// stands behind `tags:` or `aliases:` and each line that goes on with it is
/// whitespace, a dash, a space and an item, the value is those items, in order,
/// without the whitespace and the quotes around them and without the empty
/// ones.
pub proof fn lemma_a_list_under_its_key_is_read(
    lines: Seq<Seq<char>>,
    end: int,
    at: int,
    to: int,
    values: Seq<Seq<char>>,
)
    requires
        is_fenced(lines, end),
        values.len() == to - at - 1,
        forall|i: int| at < i < to ==> is_item(#[trigger] lines[i], values[i - at - 1]),
    ensures
        ({
            let read = parts(text::join(lines, seq!['\n'])).0->0.values;
            &&& is_set_at(lines, end, "tags"@, at, to) && text::is_blank(
                lines[at].skip("tags"@.len() as int + 1),
            ) ==> read.tags == present(values)
            &&& is_set_at(lines, end, "aliases"@, at, to) && text::is_blank(
                lines[at].skip("aliases"@.len() as int + 1),
            ) ==> read.aliases == present(values)
        }),
{
    if is_set_at(lines, end, "tags"@, at, to) && text::is_blank(
        lines[at].skip("tags"@.len() as int + 1),
    ) {
        lemma_set_at(lines, end, Key::Tags, at, to);
        lemma_key_lines(lines[at], Key::Tags);
        lemma_list_under(lines.subrange(at, to), values, Key::Tags);
    }
    if is_set_at(lines, end, "aliases"@, at, to) && text::is_blank(
        lines[at].skip("aliases"@.len() as int + 1),
    ) {
        lemma_set_at(lines, end, Key::Aliases, at, to);
        lemma_key_lines(lines[at], Key::Aliases);
        lemma_list_under(lines.subrange(at, to), values, Key::Aliases);
    }
}

proof fn lemma_list_under(lines: Seq<Seq<char>>, values: Seq<Seq<char>>, key: Key)
    requires
        lines.len() == values.len() + 1,
        inline_value(lines[0]) == Some(text::trim(lines[0].skip(name(key).len() as int + 1))),
        text::is_blank(lines[0].skip(name(key).len() as int + 1)),
        forall|i: int| 0 < i < lines.len() ==> is_item(#[trigger] lines[i], values[i - 1]),
    ensures
        list_value(lines) == present(values),
{
    let none = Seq::<char>::empty();
    let tail = lines[0].skip(name(key).len() as int + 1);
    text::lemma_trim_around(tail, none, none);
    assert(tail + none + none =~= tail);
    let under = lines.skip(1);
    assert forall|i: int| 0 <= i < under.len() implies is_item(#[trigger] under[i], values[i]) by {
        assert(under[i] == lines[i + 1]);
    }
    lemma_bullets(under, values);
}

/// A list that stands behind its key is read with brackets and without: where
/// `[`, items with commas between them and `]` stand behind `tags:` or
/// `aliases:`, or such items that do not begin with a bracket, the value is
/// those items, in order, without the whitespace and the quotes around them and
/// without the empty ones.
pub proof fn lemma_a_list_behind_its_key_is_read(
    lines: Seq<Seq<char>>,
    end: int,
    at: int,
    to: int,
    before: Seq<char>,
    raws: Seq<Seq<char>>,
    after: Seq<char>,
    values: Seq<Seq<char>>,
)
    requires
        is_fenced(lines, end),
        text::is_blank(before),
        text::is_blank(after),
        raws.len() == values.len(),
        raws.len() > 0,
        forall|i: int|
            0 <= i < raws.len() ==> reads_as(#[trigger] raws[i], values[i]) && !raws[i].contains(
                ',',
            ),
    ensures
        ({
            let read = parts(text::join(lines, seq!['\n'])).0->0.values;
            let list = text::join(raws, seq![',']);
            let bracketed = before + (seq!['['] + list + seq![']']) + after;
            let bare = before + list + after;
            let is_bare = list.len() > 0 && !text::white(list[0]) && !text::white(list.last())
                && list[0] != '[';
            &&& is_set_at(lines, end, "tags"@, at, to) && (lines[at] == "tags:"@ + bracketed
                || is_bare && lines[at] == "tags:"@ + bare) ==> read.tags == present(values)
            &&& is_set_at(lines, end, "aliases"@, at, to) && (lines[at] == "aliases:"@ + bracketed
                || is_bare && lines[at] == "aliases:"@ + bare) ==> read.aliases == present(values)
        }),
{
    reveal_strlit("tags");
    reveal_strlit("aliases");
    reveal_strlit("tags:");
    reveal_strlit("aliases:");
    let list = text::join(raws, seq![',']);
    let core = seq!['['] + list + seq![']'];
    let bracketed = before + core + after;
    let bare = before + list + after;
    let is_bare = list.len() > 0 && !text::white(list[0]) && !text::white(list.last()) && list[0]
        != '[';
    text::lemma_split_join(raws, ',');
    lemma_read_all(raws, values);
    text::lemma_trim_around(before, core, after);
    if is_bare {
        text::lemma_trim_around(before, list, after);
    }
    assert(core.subrange(1, core.len() - 1) =~= list);
    assert forall|key: Key, tail: Seq<char>|
        (tail == bracketed || is_bare && tail == bare) && is_set_at(
            lines,
            end,
            #[trigger] name(key),
            at,
            to,
        ) && lines[at].skip(name(key).len() as int + 1) == #[trigger] id_text(
            tail,
        ) implies list_value(lines.subrange(at, to)) == present(values) by {
        lemma_key_lines(lines[at], key);
        assert(lines.subrange(at, to)[0] == lines[at]);
    }
    if is_set_at(lines, end, "tags"@, at, to) && (lines[at] == "tags:"@ + bracketed || is_bare
        && lines[at] == "tags:"@ + bare) {
        assert(name(Key::Tags) == "tags"@);
        lemma_set_at(lines, end, Key::Tags, at, to);
        if lines[at] == "tags:"@ + bracketed {
            assert(lines[at].skip(5) =~= id_text(bracketed));
        } else {
            assert(lines[at].skip(5) =~= id_text(bare));
        }
    }
    if is_set_at(lines, end, "aliases"@, at, to) && (lines[at] == "aliases:"@ + bracketed
        || is_bare && lines[at] == "aliases:"@ + bare) {
        assert(name(Key::Aliases) == "aliases"@);
        lemma_set_at(lines, end, Key::Aliases, at, to);
        if lines[at] == "aliases:"@ + bracketed {
            assert(lines[at].skip(8) =~= id_text(bracketed));
        } else {
            assert(lines[at].skip(8) =~= id_text(bare));
        }
    }
}

/// A date is read from behind its key, quoted or not, whatever whitespace is
/// around it, if it is one.
pub proof fn lemma_a_date_behind_its_key_is_read(
    lines: Seq<Seq<char>>,
    end: int,
    at: int,
    to: int,
    raw: Seq<char>,
    value: Seq<char>,
)
    requires
        is_fenced(lines, end),
        reads_as(raw, value),
    ensures
        ({
            let read = parts(text::join(lines, seq!['\n'])).0->0.values;
            &&& is_set_at(lines, end, "created"@, at, to) && lines[at] == "created:"@ + raw
                ==> read.created == date::dated(value)
            &&& is_set_at(lines, end, "updated"@, at, to) && lines[at] == "updated:"@ + raw
                ==> read.updated == date::dated(value)
        }),
{
    reveal_strlit("created");
    reveal_strlit("updated");
    reveal_strlit("created:");
    reveal_strlit("updated:");
    lemma_reads_as(raw, value);
    text::lemma_trim_again(raw);
    if is_set_at(lines, end, "created"@, at, to) && lines[at] == "created:"@ + raw {
        assert(name(Key::Created) == "created"@);
        lemma_set_at(lines, end, Key::Created, at, to);
        lemma_key_lines(lines[at], Key::Created);
        assert(lines[at].skip(8) =~= raw);
        assert(lines.subrange(at, to)[0] == lines[at]);
    }
    if is_set_at(lines, end, "updated"@, at, to) && lines[at] == "updated:"@ + raw {
        assert(name(Key::Updated) == "updated"@);
        lemma_set_at(lines, end, Key::Updated, at, to);
        lemma_key_lines(lines[at], Key::Updated);
        assert(lines[at].skip(8) =~= raw);
        assert(lines.subrange(at, to)[0] == lines[at]);
    }
}

/// A key that no line of the block sets has no value.
pub proof fn lemma_a_key_without_a_line_is_unset(lines: Seq<Seq<char>>, end: int)
    requires
        is_fenced(lines, end),
    ensures
        ({
            let read = parts(text::join(lines, seq!['\n'])).0->0.values;
            &&& (forall|i: int| 0 < i < end ==> !sets(#[trigger] lines[i], "tags"@))
                ==> read.tags.len() == 0
            &&& (forall|i: int| 0 < i < end ==> !sets(#[trigger] lines[i], "aliases"@))
                ==> read.aliases.len() == 0
            &&& (forall|i: int| 0 < i < end ==> !sets(#[trigger] lines[i], "created"@))
                ==> read.created is None
            &&& (forall|i: int| 0 < i < end ==> !sets(#[trigger] lines[i], "updated"@))
                ==> read.updated is None
        }),
{
    lemma_fenced(lines, end);
    let raw = lines.subrange(1, end);
    let entries = grouped(raw);
    lemma_first_lines(raw);
    assert forall|key: Key|
        (forall|i: int| 0 < i < end ==> !sets(#[trigger] lines[i], name(key))) implies !is_set(
        values_of(entries),
        #[trigger] id_key(key),
    ) by {
        assert(!has_key(entries, key)) by {
            if has_key(entries, key) {
                let i = choose|i: int|
                    0 <= i < entries.len() && (#[trigger] entries[i]).key == Some(key);
                let first = entries[i].lines[0];
                let k = choose|k: int| 0 <= k < raw.len() && raw[k] == first;
                assert(raw[k] == lines[k + 1]);
                lemma_key_lines(first, key);
            }
        }
        lemma_set_values_have_entries(entries, key);
    }
    let _ = id_key(Key::Tags);
    let _ = id_key(Key::Aliases);
    let _ = id_key(Key::Created);
    let _ = id_key(Key::Updated);
}

spec fn id_key(key: Key) -> Key {
    key
}

spec fn id_text(s: Seq<char>) -> Seq<char> {
    s
}

// ---- what is written of a block ----

/// A list as a line: `tags: [a, b]`, or no line where there is nothing in it.
pub open spec fn as_list_line(word: Seq<char>, items: Seq<Seq<char>>) -> Seq<char> {
    if items.len() == 0 {
        seq![]
    } else {
        word + ": ["@ + text::join(items, ", "@) + "]\n"@
    }
}

/// A date as a line: `created: 2026-07-30`, or no line where there is none.
pub open spec fn as_date_line(word: Seq<char>, day: Option<Date>) -> Seq<char> {
    match day {
        None => seq![],
        Some(day) => word + ": "@ + date::show(day) + "\n"@,
    }
}

/// What stands for each entry in a block that was read and then edited: the
/// lines as they were found, but one line, or none, for a key whose value is
/// another now.
pub open spec fn is_rewritten(
    was: Values,
    now: Values,
    entries: Seq<EntryView>,
    pieces: Seq<Seq<char>>,
) -> bool {
    &&& pieces.len() == entries.len()
    &&& forall|i: int|
        0 <= i < entries.len() ==> #[trigger] pieces[i] == (match entries[i].key {
            Some(Key::Tags) if was.tags != now.tags => as_list_line("tags"@, now.tags),
            Some(Key::Aliases) if was.aliases != now.aliases => as_list_line(
                "aliases"@,
                now.aliases,
            ),
            Some(Key::Created) if was.created != now.created => as_date_line(
                "created"@,
                now.created,
            ),
            Some(Key::Updated) if was.updated != now.updated => as_date_line(
                "updated"@,
                now.updated,
            ),
            _ => lines_text(entries[i].lines),
        })
}

/// Texts one behind the other.
pub open spec fn in_turn(pieces: Seq<Seq<char>>) -> Seq<char>
    decreases pieces.len(),
{
    if pieces.len() == 0 {
        seq![]
    } else {
        in_turn(pieces.drop_last()) + pieces.last()
    }
}

/// Whether some entry is of a key.
pub open spec fn mentions(entries: Seq<EntryView>, key: Key) -> bool {
    exists|i: int| 0 <= i < entries.len() && (#[trigger] entries[i]).key == Some(key)
}

/// What is written of a block that was read and edited: its opening line, what
/// stands for each entry in its place, a line for each key that has a value now
/// and no entry, in the order tags, aliases, created, updated, and its closing
/// line.
pub proof fn lemma_an_edited_block_is_written_in_place(block: Block, pieces: Seq<Seq<char>>)
    requires
        block.found.original is Some,
        !is_empty(block),
        is_rewritten(block.found.original->0, block.values, block.found.entries, pieces),
    ensures
        ({
            let entries = block.found.entries;
            let now = block.values;
            let none = Seq::<char>::empty();
            rendered(block) == block.found.open + seq!['\n'] + in_turn(pieces) + (if mentions(
                entries,
                Key::Tags,
            ) {
                none
            } else {
                as_list_line("tags"@, now.tags)
            }) + (if mentions(entries, Key::Aliases) {
                none
            } else {
                as_list_line("aliases"@, now.aliases)
            }) + (if mentions(entries, Key::Created) {
                none
            } else {
                as_date_line("created"@, now.created)
            }) + (if mentions(entries, Key::Updated) {
                none
            } else {
                as_date_line("updated"@, now.updated)
            }) + block.found.close + (if block.found.close_newline {
                seq!['\n']
            } else {
                none
            })
        }),
{
    let entries = block.found.entries;
    lemma_lines_as_written(block.values);
    lemma_entries_in_turn(block, entries, pieces);
    let now = block.values;
    let none = Seq::<char>::empty();
    let head = block.found.open + seq!['\n'] + in_turn(pieces);
    let t = new_text(block, Key::Tags);
    let a = new_text(block, Key::Aliases);
    let c = new_text(block, Key::Created);
    let u = new_text(block, Key::Updated);
    let end = if block.found.close_newline {
        seq!['\n']
    } else {
        none
    };
    lemma_in_a_row(head, t, a, c, u, block.found.close, end);
    assert(mentions(entries, Key::Tags) == has_key(entries, Key::Tags));
    assert(mentions(entries, Key::Aliases) == has_key(entries, Key::Aliases));
    assert(mentions(entries, Key::Created) == has_key(entries, Key::Created));
    assert(mentions(entries, Key::Updated) == has_key(entries, Key::Updated));
}

proof fn lemma_in_a_row(
    head: Seq<char>,
    t: Seq<char>,
    a: Seq<char>,
    c: Seq<char>,
    u: Seq<char>,
    close: Seq<char>,
    end: Seq<char>,
)
    ensures
        head + (t + a + c + u + close + end) == head + t + a + c + u + close + end,
{
    assert(head + (t + a + c + u + close + end) =~= head + t + a + c + u + close + end);
}

proof fn lemma_lines_as_written(values: Values)
    ensures
        line_text(line_for(values, Key::Tags)) == as_list_line("tags"@, values.tags),
        line_text(line_for(values, Key::Aliases)) == as_list_line("aliases"@, values.aliases),
        line_text(line_for(values, Key::Created)) == as_date_line("created"@, values.created),
        line_text(line_for(values, Key::Updated)) == as_date_line("updated"@, values.updated),
{
    reveal_strlit(": [");
    reveal_strlit("]\n");
    reveal_strlit(": ");
    reveal_strlit("\n");
    assert(line_text(line_for(values, Key::Tags)) =~= as_list_line("tags"@, values.tags));
    assert(line_text(line_for(values, Key::Aliases)) =~= as_list_line(
        "aliases"@,
        values.aliases,
    ));
    assert(line_text(line_for(values, Key::Created)) =~= as_date_line(
        "created"@,
        values.created,
    ));
    assert(line_text(line_for(values, Key::Updated)) =~= as_date_line(
        "updated"@,
        values.updated,
    ));
}

proof fn lemma_entries_in_turn(block: Block, entries: Seq<EntryView>, pieces: Seq<Seq<char>>)
    requires
        block.found.original is Some,
        is_rewritten(block.found.original->0, block.values, entries, pieces),
    ensures
        entries_text(block, entries) == in_turn(pieces),
    decreases entries.len(),
{
    lemma_lines_as_written(block.values);
    if entries.len() > 0 {
        let e = entries.drop_last();
        let p = pieces.drop_last();
        assert forall|i: int| 0 <= i < e.len() implies #[trigger] p[i] == pieces[i] && e[i]
            == entries[i] by {}
        lemma_entries_in_turn(block, e, p);
        assert(pieces[pieces.len() - 1] == entry_text(block, entries[entries.len() - 1]));
    }
}

/// A block is dropped when there is nothing left to say in it: no key has a
/// value, and each entry is blank lines or a key that had one when it was read.
pub proof fn lemma_clearing_the_last_value_drops_the_block(block: Block)
    requires
        block.found.original is Some,
    ensures
        ({
            let was = block.found.original->0;
            let now = block.values;
            let nothing = now.tags.len() == 0 && now.aliases.len() == 0 && now.created is None
                && now.updated is None && forall|i: int| #![trigger block.found.entries[i]]
                0 <= i < block.found.entries.len() ==> (match block.found.entries[i].key {
                    Some(Key::Tags) => was.tags.len() > 0,
                    Some(Key::Aliases) => was.aliases.len() > 0,
                    Some(Key::Created) => was.created is Some,
                    Some(Key::Updated) => was.updated is Some,
                    None => forall|k: int|
                        0 <= k < block.found.entries[i].lines.len() ==> text::is_blank(
                            #[trigger] block.found.entries[i].lines[k],
                        ),
                });
            &&& nothing ==> rendered(block) == Seq::<char>::empty()
            &&& !nothing ==> rendered(block).len() > 0 && block.found.open.push(
                '\n',
            ).is_prefix_of(rendered(block))
        }),
{
    let was = block.found.original->0;
    let now = block.values;
    let entries = block.found.entries;
    assert forall|i: int| 0 <= i < entries.len() && (#[trigger] entries[i]).key is None implies (
    forall|k: int| 0 <= k < entries[i].lines.len() ==> text::is_blank(
        #[trigger] entries[i].lines[k],
    )) == leaves_nothing(block, entries[i]) by {
        let lines = entries[i].lines;
        assert forall|k: int| 0 <= k < lines.len() implies text::is_blank(#[trigger] lines[k])
            == (text::trim(lines[k]).len() == 0) by {
            lemma_blank(lines[k]);
        }
        if leaves_nothing(block, entries[i]) {
            assert forall|k: int| 0 <= k < entries[i].lines.len() implies text::is_blank(
                #[trigger] entries[i].lines[k],
            ) by {
                assert(text::trim(lines[k]).len() == 0);
            }
        }
    }
    assert(now.tags.len() == 0 ==> (was.tags != now.tags) == (was.tags.len() > 0)) by {
        if now.tags.len() == 0 && was.tags.len() == 0 {
            assert(was.tags =~= now.tags);
        }
    }
    assert(now.aliases.len() == 0 ==> (was.aliases != now.aliases) == (was.aliases.len() > 0)) by {
        if now.aliases.len() == 0 && was.aliases.len() == 0 {
            assert(was.aliases =~= now.aliases);
        }
    }
    if is_empty(block) {
        assert forall|i: int| #![trigger entries[i]] 0 <= i < entries.len() implies (
        match entries[i].key {
            Some(Key::Tags) => was.tags.len() > 0,
            Some(Key::Aliases) => was.aliases.len() > 0,
            Some(Key::Created) => was.created is Some,
            Some(Key::Updated) => was.updated is Some,
            None => forall|k: int|
                0 <= k < entries[i].lines.len() ==> text::is_blank(#[trigger] entries[i].lines[k]),
        }) by {
            assert(leaves_nothing(block, entries[i]));
        }
    } else {
        let open = block.found.open.push('\n');
        assert(open =~= rendered(block).subrange(0, open.len() as int));
    }
}

proof fn lemma_blank(s: Seq<char>)
    ensures
        text::is_blank(s) == (text::trim(s).len() == 0),
{
    let none = Seq::<char>::empty();
    if text::is_blank(s) {
        text::lemma_trim_around(s, none, none);
        assert(s + none + none =~= s);
    }
    if text::trim(s).len() == 0 {
        text::lemma_ink_trim(s);
        lemma_inkless(s);
        assert(text::trim(s) =~= none);
    }
}

proof fn lemma_inkless(s: Seq<char>)
    ensures
        text::ink(s).len() == 0 ==> text::is_blank(s),
    decreases s.len(),
{
    if s.len() > 0 && text::ink(s).len() == 0 {
        let rest = s.drop_last();
        lemma_inkless(rest);
        assert forall|i: int| 0 <= i < s.len() implies text::white(#[trigger] s[i]) by {
            if i < rest.len() {
                assert(rest[i] == s[i]);
            }
        }
    }
}

/// What a new block is written as: three dashes, a line for each key that has a
/// value, in the order tags, aliases, created, updated, and three dashes.
pub proof fn lemma_a_new_block_is_written_from_its_values(values: Values)
    ensures
        ({
            let block = Block { values, found: fresh().found };
            let inner = as_list_line("tags"@, values.tags) + as_list_line(
                "aliases"@,
                values.aliases,
            ) + as_date_line("created"@, values.created) + as_date_line(
                "updated"@,
                values.updated,
            );
            rendered(block) == if inner.len() == 0 {
                Seq::<char>::empty()
            } else {
                "---\n"@ + inner + "---\n"@
            }
        }),
{
    reveal_strlit("---\n");
    reveal_strlit("---");
    reveal_strlit("\n");
    reveal_strlit("]\n");
    lemma_lines_as_written(values);
    let block = Block { values, found: fresh().found };
    let t = as_list_line("tags"@, values.tags);
    let a = as_list_line("aliases"@, values.aliases);
    let c = as_date_line("created"@, values.created);
    let u = as_date_line("updated"@, values.updated);
    assert(!has_key(block.found.entries, Key::Tags));
    assert(!has_key(block.found.entries, Key::Aliases));
    assert(!has_key(block.found.entries, Key::Created));
    assert(!has_key(block.found.entries, Key::Updated));
    if !is_empty(block) {
        assert("---"@ + seq!['\n'] =~= "---\n"@);
        assert(rendered(block) =~= "---\n"@ + (t + a + c + u) + "---\n"@);
    }
}

} // verus!
