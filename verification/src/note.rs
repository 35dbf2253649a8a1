//! One note: what it is, and how its text turns into it and back.

use crate::frontmatter;
use crate::frontmatter::Frontmatter;
use crate::ordered;
use crate::paths;
use crate::text;
use vstd::prelude::*;

verus! {

// ---- identities ----

/// A name without the `.md` it ends in.
pub open spec fn without_md(name: Seq<char>) -> Seq<char> {
    if seq!['.', 'm', 'd'].is_suffix_of(name) {
        name.take(name.len() - 3)
    } else {
        name
    }
}

/// The title of the note at a path.
pub open spec fn title(path: Seq<char>) -> Seq<char> {
    without_md(paths::file_name(path))
}

/// A note's identity: its path relative to the vault root, with `/` separators.
///
/// The file *is* the note, so the path is the identity: there is no generated
/// id to keep in sync with it. Renaming a note therefore changes its id, which
/// is why renaming also rewrites inbound links.
#[derive(Debug, PartialEq, Eq, PartialOrd, Ord, Hash)]
pub struct NoteId(String);

impl View for NoteId {
    type V = Seq<char>;

    closed spec fn view(&self) -> Seq<char> {
        self.0@
    }
}

impl Clone for NoteId {
    fn clone(&self) -> (r: Self)
        ensures
            r == *self,
    {
        NoteId(self.0.clone())
    }
}

impl ordered::Text for NoteId {
    fn text(&self) -> (r: &str) {
        self.0.as_str()
    }
}

impl NoteId {
    /// From a vault-relative path. Separators are normalised, so an id means
    /// the same thing whatever wrote it.
    pub fn from_relative(path: &str) -> (id: Self)
        ensures
            id@ == paths::relative(path@),
    {
        let parts = paths::components_of(&text::chars_of(path));
        NoteId(text::string_of(&text::join_chars(&parts, '/')))
    }

    /// The id whose path is exactly this text, as one stored earlier is.
    pub fn stored(path: String) -> (id: Self)
        ensures
            id@ == path@,
    {
        NoteId(path)
    }

    /// The path as text.
    pub fn as_str(&self) -> (r: &str)
        ensures
            r@ == self@,
    {
        self.0.as_str()
    }

    /// The relative path, for joining onto the vault root.
    pub fn to_path(&self) -> (r: String)
        ensures
            r@ == self@,
    {
        self.0.clone()
    }

    /// The filename without its `.md`, which is the note's title.
    pub fn title(&self) -> (r: &str)
        ensures
            r@ == title(self@),
    {
        let path = text::chars_of(self.0.as_str());
        let len = path.len();
        let from: usize = match text::last_position_of(&path, '/') {
            Some(i) => i + 1,
            None => 0,
        };
        let name = text::part(&path, from, len);
        assert(name@ =~= paths::file_name(path@));
        let md = ['.', 'm', 'd'];
        assert(md@ =~= seq!['.', 'm', 'd']);
        let to: usize = if text::ends(&name, &md) {
            len - 3
        } else {
            len
        };
        let r = self.0.as_str().substring_char(from, to);
        assert(r@ =~= title(self@));
        r
    }

    /// The containing folder, or `None` at the vault root.
    pub fn folder(&self) -> (r: Option<&str>)
        ensures
            match r {
                Some(f) => paths::folder(self@) == Some(f@),
                None => paths::folder(self@) is None,
            },
    {
        let path = text::chars_of(self.0.as_str());
        match text::last_position_of(&path, '/') {
            Some(i) => {
                let r = self.0.as_str().substring_char(0, i);
                assert(r@ =~= path@.take(i as int));
                Some(r)
            },
            None => None,
        }
    }

    /// Whether this is the same id as another.
    pub fn same(&self, other: &NoteId) -> (r: bool)
        ensures
            r == (self@ == other@),
    {
        self.0 == other.0
    }
}

// ---- what holds of every identity ----

/// A title is one component: it holds no separator.
pub proof fn lemma_title_is_one_component(path: Seq<char>)
    ensures
        forall|i: int| 0 <= i < title(path).len() ==> title(path)[i] != '/',
{
    text::lemma_find_last(path, '/');
    let name = paths::file_name(path);
    assert forall|i: int| 0 <= i < name.len() implies name[i] != '/' by {
        match text::find_last(path, '/') {
            Some(k) => {
                assert(name[i] == path[k + 1 + i]);
            },
            None => {},
        }
    }
}

// ---- the note ----

/// A note, as read from disk.
#[derive(Debug, PartialEq, Eq)]
pub struct Note {
    pub id: NoteId,
    /// The metadata block, if the file has one.
    pub frontmatter: Option<Frontmatter>,
    /// Everything after the metadata block, verbatim.
    pub body: String,
}

/// A note, by its texts.
#[verifier::ext_equal]
pub struct NoteView {
    pub id: Seq<char>,
    pub frontmatter: Option<frontmatter::Block>,
    pub body: Seq<char>,
}

impl View for Note {
    type V = NoteView;

    open spec fn view(&self) -> NoteView {
        NoteView {
            id: self.id@,
            frontmatter: match self.frontmatter {
                Some(f) => Some(f@),
                None => None,
            },
            body: self.body@,
        }
    }
}

/// The note that a file's contents make.
pub open spec fn read(id: Seq<char>, contents: Seq<char>) -> NoteView {
    let (frontmatter, body) = frontmatter::parts(contents);
    NoteView { id, frontmatter, body }
}

/// The contents of the file of a note.
pub open spec fn contents(note: NoteView) -> Seq<char> {
    match note.frontmatter {
        Some(block) => frontmatter::written(block) + note.body,
        None => note.body,
    }
}

/// The aliases of a note.
pub open spec fn aliases(note: NoteView) -> Seq<Seq<char>> {
    match note.frontmatter {
        Some(block) => block.values.aliases,
        None => seq![],
    }
}

/// The tags in a note's metadata block.
pub open spec fn own_tags(note: NoteView) -> Seq<Seq<char>> {
    match note.frontmatter {
        Some(block) => block.values.tags,
        None => seq![],
    }
}

/// Whether a tag is among some tags, whatever the case of its letters.
pub open spec fn has_tag(tags: Seq<Seq<char>>, tag: Seq<char>) -> bool {
    exists|i: int| 0 <= i < tags.len() && text::alike(#[trigger] tags[i], tag)
}

/// Some tags and then those of others that are not among them yet.
pub open spec fn merged(tags: Seq<Seq<char>>, more: Seq<Seq<char>>) -> Seq<Seq<char>>
    decreases more.len(),
{
    if more.len() == 0 {
        tags
    } else {
        let before = merged(tags, more.drop_last());
        if has_tag(before, more.last()) {
            before
        } else {
            before.push(more.last())
        }
    }
}

/// Every tag on a note: those of its metadata block, and then those that were
/// found in its body, each once.
pub open spec fn every_tag(note: NoteView, found: Seq<Seq<char>>) -> Seq<Seq<char>> {
    merged(merged(seq![], own_tags(note)), found)
}

/// The first of some lines that has something to say beyond the title.
pub open spec fn first_prose(lines: Seq<Seq<char>>, title: Seq<char>) -> Seq<char>
    decreases lines.len(),
{
    if lines.len() == 0 {
        seq![]
    } else {
        let line = text::trim(lines[0]);
        if line.len() > 0 && !text::alike(line, title) {
            line
        } else {
            first_prose(lines.skip(1), title)
        }
    }
}

/// A line cut to a limit, with an ellipsis where something was cut off.
pub open spec fn cut(line: Seq<char>, limit: int) -> Seq<char> {
    if line.len() <= limit {
        line
    } else {
        line.take(limit).push('\u{2026}')
    }
}

/// A one-line summary of a text: its first line that is not just the title.
pub open spec fn excerpt(prose: Seq<char>, title: Seq<char>, limit: int) -> Seq<char> {
    cut(first_prose(text::lines(prose), title), limit)
}

fn has_tag_in(tags: &Vec<String>, tag: &[char]) -> (r: bool)
    ensures
        r == has_tag(text::views(tags@), tag@),
{
    let ghost all = text::views(tags@);
    let mut i: usize = 0;
    while i < tags.len()
        invariant
            i <= tags@.len(),
            all == text::views(tags@),
            forall|j: int| 0 <= j < i ==> !text::alike(#[trigger] all[j], tag@),
        decreases tags@.len() - i,
    {
        if text::alike_chars(&text::chars_of(tags[i].as_str()), tag) {
            assert(text::alike(all[i as int], tag@));
            return true;
        }
        assert(!text::alike(all[i as int], tag@));
        i = i + 1;
    }
    false
}

/// Put tags behind others, leaving out those that are there already.
pub fn merge(tags: &mut Vec<String>, more: &Vec<String>)
    ensures
        text::views(final(tags)@) == merged(text::views(old(tags)@), text::views(more@)),
{
    let ghost start = text::views(tags@);
    let ghost all = text::views(more@);
    let mut i: usize = 0;
    while i < more.len()
        invariant
            i <= more@.len(),
            all == text::views(more@),
            text::views(tags@) == merged(start, all.take(i as int)),
        decreases more@.len() - i,
    {
        assert(all.take(i + 1).drop_last() =~= all.take(i as int));
        assert(all.take(i + 1).last() == more@[i as int]@);
        if !has_tag_in(tags, &text::chars_of(more[i].as_str())) {
            let tag = more[i].clone();
            proof {
                text::lemma_views_push(tags@, tag);
            }
            tags.push(tag);
        }
        i = i + 1;
    }
    assert(all.take(all.len() as int) =~= all);
}

/// A one-line summary of a text whose markup is stripped, for search results
/// and link pickers.
///
/// Most notes open with a heading repeating their own title, and a row that
/// says the same thing twice says half as much as it takes up. That line is
/// skipped.
pub fn excerpt_of(prose: &str, title: &str, limit: usize) -> (r: String)
    ensures
        r@ == excerpt(prose@, title@, limit as int),
{
    let lines = text::lines_of(&text::chars_of(prose));
    let name = text::chars_of(title);
    let ghost all = text::views(lines@);
    let mut i: usize = 0;
    assert(all.skip(0) =~= all);
    while i < lines.len()
        invariant
            i <= lines@.len(),
            all == text::views(lines@),
            all == text::lines(prose@),
            name@ == title@,
            first_prose(all, title@) == first_prose(all.skip(i as int), title@),
        decreases lines@.len() - i,
    {
        let line = text::trim_chars(&lines[i]);
        assert(all.skip(i as int)[0] == lines@[i as int]@);
        assert(all.skip(i as int).skip(1) =~= all.skip(i + 1));
        if line.len() > 0 && !text::alike_chars(&line, &name) {
            if line.len() <= limit {
                return text::string_of(&line);
            }
            let mut short = text::part(&line, 0, limit);
            assert(short@ =~= line@.take(limit as int));
            short.push('\u{2026}');
            return text::string_of(&short);
        }
        i = i + 1;
    }
    assert(first_prose(all, title@) =~= Seq::<char>::empty());
    String::new()
}

impl Note {
    /// Parse a note from a file's contents.
    pub fn from_text(id: NoteId, contents: &str) -> (r: Self)
        ensures
            r@ == read(id@, contents@),
    {
        let (frontmatter, body) = frontmatter::split(contents);
        let r = Note { id, frontmatter, body: text::string_of(&text::chars_of(body)) };
        assert(r@ =~= read(id@, contents@));
        r
    }

    /// An empty note at `id`.
    pub fn new(id: NoteId) -> (r: Self)
        ensures
            r@ == (NoteView { id: id@, frontmatter: None, body: seq![] }),
    {
        let r = Note { id, frontmatter: None, body: String::new() };
        assert(r@ =~= (NoteView { id: id@, frontmatter: None, body: seq![] }));
        r
    }

    /// The file's contents. The same as what was read when nothing was edited.
    pub fn to_text(&self) -> (r: String)
        ensures
            r@ == contents(self@),
    {
        match &self.frontmatter {
            Some(frontmatter) => {
                let mut out = text::chars_of(frontmatter.written().as_str());
                text::extend(&mut out, &text::chars_of(self.body.as_str()));
                text::string_of(&out)
            },
            None => self.body.clone(),
        }
    }

    /// Whether this is the same note as another, its metadata block included.
    pub fn same(&self, other: &Note) -> (r: bool)
        ensures
            r == (self@ == other@),
    {
        let block = match (&self.frontmatter, &other.frontmatter) {
            (Some(a), Some(b)) => a.same(b),
            (None, None) => true,
            _ => false,
        };
        let r = block && self.id.same(&other.id) && text::same(
            self.body.as_str(),
            other.body.as_str(),
        );
        assert(r ==> self@ =~= other@);
        r
    }

    /// The note's title.
    pub fn title(&self) -> (r: &str)
        ensures
            r@ == title(self@.id),
    {
        self.id.title()
    }

    /// Frontmatter aliases, which resolve as alternative link targets.
    pub fn aliases(&self) -> (r: Vec<String>)
        ensures
            text::views(r@) == aliases(self@),
    {
        match &self.frontmatter {
            Some(f) => text::copy_all(&f.aliases),
            None => {
                let r: Vec<String> = Vec::new();
                assert(text::views(r@) =~= aliases(self@));
                r
            },
        }
    }

    /// Every tag on the note: frontmatter and body, deduplicated, in the order
    /// they are encountered. `found` is what a scan of the body found.
    pub fn tags(&self, found: &Vec<String>) -> (r: Vec<String>)
        ensures
            text::views(r@) == every_tag(self@, text::views(found@)),
    {
        let mut r: Vec<String> = Vec::new();
        assert(text::views(r@) =~= seq![]);
        if let Some(f) = &self.frontmatter {
            merge(&mut r, &f.tags);
        }
        merge(&mut r, found);
        r
    }

    /// A one-line summary. `prose` is the body with its markup stripped.
    pub fn excerpt(&self, prose: &str, limit: usize) -> (r: String)
        ensures
            r@ == excerpt(prose@, title(self@.id), limit as int),
    {
        excerpt_of(prose, self.title(), limit)
    }
}

// ---- what holds of every note ----

/// A note that was read and not edited is written back as it was.
pub proof fn lemma_a_note_round_trips(id: Seq<char>, file: Seq<char>)
    ensures
        contents(read(id, file)) == file,
{
    frontmatter::lemma_an_unedited_note_is_written_back_as_it_was(file);
}

proof fn lemma_merged_tags(tags: Seq<Seq<char>>, more: Seq<Seq<char>>)
    ensures
        tags.is_prefix_of(merged(tags, more)),
        forall|i: int| 0 <= i < more.len() ==> has_tag(merged(tags, more), #[trigger] more[i]),
        forall|i: int, j: int|
            0 <= i < j < merged(tags, more).len() && tags.len() <= j ==> !text::alike(
                #[trigger] merged(tags, more)[i],
                #[trigger] merged(tags, more)[j],
            ),
    decreases more.len(),
{
    let now = merged(tags, more);
    if more.len() == 0 {
        assert(tags =~= now.subrange(0, tags.len() as int));
    } else {
        let rest = more.drop_last();
        lemma_merged_tags(tags, rest);
        let before = merged(tags, rest);
        assert(tags =~= now.subrange(0, tags.len() as int)) by {
            assert(tags =~= before.subrange(0, tags.len() as int));
        }
        assert forall|i: int| 0 <= i < more.len() implies has_tag(now, #[trigger] more[i]) by {
            if i < rest.len() {
                assert(rest[i] == more[i]);
                let k = choose|k: int|
                    0 <= k < before.len() && text::alike(#[trigger] before[k], rest[i]);
                assert(now[k] == before[k]);
            } else if !has_tag(before, more[i]) {
                assert(now[before.len() as int] == more[i]);
            }
        }
        assert forall|i: int, j: int|
            0 <= i < j < now.len() && tags.len() <= j implies !text::alike(
            #[trigger] now[i],
            #[trigger] now[j],
        ) by {
            if j < before.len() {
                assert(now[i] == before[i] && now[j] == before[j]);
            } else {
                assert(now[i] == before[i]);
                assert(now[j] == more.last());
            }
        }
    }
}

/// No tag of a note is repeated, whatever the case of its letters, and none is
/// left out.
pub proof fn lemma_every_tag_is_listed_once(note: NoteView, found: Seq<Seq<char>>)
    ensures
        ({
            let all = every_tag(note, found);
            &&& forall|i: int| 0 <= i < found.len() ==> has_tag(all, #[trigger] found[i])
            &&& forall|i: int|
                0 <= i < own_tags(note).len() ==> has_tag(all, #[trigger] own_tags(note)[i])
            &&& forall|i: int, j: int|
                0 <= i < j < all.len() ==> !text::alike(#[trigger] all[i], #[trigger] all[j])
        }),
{
    let own = own_tags(note);
    let first = merged(seq![], own);
    let all = every_tag(note, found);
    lemma_merged_tags(seq![], own);
    lemma_merged_tags(first, found);
    assert(first == all.subrange(0, first.len() as int));
    assert forall|i: int| 0 <= i < own.len() implies has_tag(all, #[trigger] own[i]) by {
        let k = choose|k: int| 0 <= k < first.len() && text::alike(#[trigger] first[k], own[i]);
        assert(all[k] == first[k]);
    }
    assert forall|i: int, j: int| 0 <= i < j < all.len() implies !text::alike(
        #[trigger] all[i],
        #[trigger] all[j],
    ) by {
        if j < first.len() {
            assert(all[i] == first[i] && all[j] == first[j]);
        }
    }
}

/// An excerpt is never longer than its limit and the ellipsis.
pub proof fn lemma_an_excerpt_is_short(prose: Seq<char>, title: Seq<char>, limit: int)
    requires
        0 <= limit,
    ensures
        excerpt(prose, title, limit).len() <= limit + 1,
{
}

// ---- what a note is called and shows ----

/// A note is called what its file is, without its folder and without `.md`.
pub proof fn lemma_a_note_is_called_what_its_file_is(dir: Seq<char>, name: Seq<char>)
    requires
        !name.contains('/'),
    ensures
        title(dir + seq!['/'] + (name + ".md"@)) == name,
        title(name + ".md"@) == name,
        !seq!['.', 'm', 'd'].is_suffix_of(name) ==> title(name) == name && title(
            dir + seq!['/'] + name,
        ) == name,
{
    reveal_strlit(".md");
    let file = name + ".md"@;
    assert(!file.contains('/')) by {
        if file.contains('/') {
            let i = choose|i: int| 0 <= i < file.len() && file[i] == '/';
            if i < name.len() {
                assert(name.contains(name[i]));
            }
        }
    }
    paths::lemma_the_last_slash_parts_a_path(dir, file);
    paths::lemma_the_last_slash_parts_a_path(dir, name);
    assert(seq!['.', 'm', 'd'] =~= ".md"@);
    assert(file.skip(file.len() - 3) =~= ".md"@);
    assert(seq!['.', 'm', 'd'].is_suffix_of(file));
    assert(file.take(file.len() - 3) =~= name);
}

/// The tags of a note are those of its metadata and then those of its text,
/// each as it is first spelled: one is listed unless one before it is the same
/// but for the case of its letters.
pub proof fn lemma_a_tag_is_listed_as_it_is_first_spelled(
    tags: Seq<Seq<char>>,
    a: Seq<Seq<char>>,
    tag: Seq<char>,
)
    ensures
        merged(tags, a.push(tag)) == if exists|i: int|
            0 <= i < merged(tags, a).len() && text::alike(#[trigger] merged(tags, a)[i], tag) {
            merged(tags, a)
        } else {
            merged(tags, a).push(tag)
        },
        merged(tags, seq![]) == tags,
{
    assert(a.push(tag).drop_last() =~= a);
}

/// All tags of a note are its own, merged, and then those that its text has.
pub proof fn lemma_own_tags_come_first(note: NoteView, found: Seq<Seq<char>>)
    ensures
        every_tag(note, found) == merged(
            seq![],
            (match note.frontmatter {
                Some(block) => block.values.tags,
                None => seq![],
            }) + found,
        ),
{
    let own = own_tags(note);
    lemma_merged_in_turn(seq![], own, found);
}

proof fn lemma_merged_in_turn(tags: Seq<Seq<char>>, a: Seq<Seq<char>>, b: Seq<Seq<char>>)
    ensures
        merged(merged(tags, a), b) == merged(tags, a + b),
    decreases b.len(),
{
    if b.len() == 0 {
        assert(a + b =~= a);
    } else {
        assert((a + b).drop_last() =~= a + b.drop_last());
        lemma_merged_in_turn(tags, a, b.drop_last());
    }
}

/// An excerpt is the first line of a text that says something and does not
/// just repeat the title, trimmed; of a longer one the first so many characters
/// and an ellipsis. A text without one has none.
pub proof fn lemma_an_excerpt_is_the_first_line_that_says_something(
    prose: Seq<char>,
    title: Seq<char>,
    limit: int,
    k: int,
)
    requires
        0 <= limit,
        0 <= k <= text::lines(prose).len(),
        forall|i: int|
            0 <= i < k ==> text::trim(#[trigger] text::lines(prose)[i]).len() == 0 || text::alike(
                text::trim(text::lines(prose)[i]),
                title,
            ),
        k < text::lines(prose).len() ==> text::trim(text::lines(prose)[k]).len() > 0
            && !text::alike(text::trim(text::lines(prose)[k]), title),
    ensures
        ({
            let line = text::trim(text::lines(prose)[k]);
            excerpt(prose, title, limit) == if k == text::lines(prose).len() {
                Seq::<char>::empty()
            } else if line.len() <= limit {
                line
            } else {
                line.take(limit) + seq!['\u{2026}']
            }
        }),
{
    lemma_first_prose(text::lines(prose), title, k);
    let line = text::trim(text::lines(prose)[k]);
    if k < text::lines(prose).len() && line.len() > limit {
        assert(line.take(limit).push('\u{2026}') =~= line.take(limit) + seq!['\u{2026}']);
    }
}

proof fn lemma_first_prose(lines: Seq<Seq<char>>, title: Seq<char>, k: int)
    requires
        0 <= k <= lines.len(),
        forall|i: int|
            0 <= i < k ==> text::trim(#[trigger] lines[i]).len() == 0 || text::alike(
                text::trim(lines[i]),
                title,
            ),
        k < lines.len() ==> text::trim(lines[k]).len() > 0 && !text::alike(
            text::trim(lines[k]),
            title,
        ),
    ensures
        first_prose(lines, title) == if k == lines.len() {
            Seq::<char>::empty()
        } else {
            text::trim(lines[k])
        },
    decreases k,
{
    if k > 0 {
        let rest = lines.skip(1);
        let _ = text::trim(lines[0]);
        assert forall|i: int| 0 <= i < k - 1 implies text::trim(#[trigger] rest[i]).len() == 0
            || text::alike(text::trim(rest[i]), title) by {
            assert(rest[i] == lines[i + 1]);
        }
        lemma_first_prose(rest, title, k - 1);
    }
}

} // verus!
