//! Finding notes: by title for the quick-open palette, by text for everything
//! else, and by both words and meaning at once.
//!
//! All of it reads the [`Index`] and builds no structure of its own. A linear
//! scan over a personal vault is microseconds.

use crate::bm25;
use crate::index;
use crate::index::Index;
use crate::note;
use crate::note::NoteId;
use crate::ordered;
use crate::ordered::TextMap;
use crate::ranked;
use crate::ranked::{Ranked, Scored};
use crate::text;
use vstd::prelude::*;

verus! {

// ---- by title ----

/// A note matched by name, ranked.
#[derive(Debug, PartialEq, Eq)]
pub struct TitleMatch {
    pub id: NoteId,
    pub score: i32,
    /// Which characters of the title the query matched, for highlighting.
    pub positions: Vec<usize>,
}

/// A note matched by name, in numbers without bound.
#[verifier::ext_equal]
pub struct TitleMatchView {
    pub id: Seq<char>,
    pub score: int,
    pub positions: Seq<int>,
}

/// Some positions, in numbers without bound.
pub open spec fn ints(s: Seq<usize>) -> Seq<int> {
    Seq::new(s.len(), |i: int| s[i] as int)
}

impl View for TitleMatch {
    type V = TitleMatchView;

    open spec fn view(&self) -> TitleMatchView {
        TitleMatchView {
            id: self.id@,
            score: self.score as int,
            positions: ints(self.positions@),
        }
    }
}

impl Ranked for TitleMatch {
    /// Highest score first; ties alphabetically, so the list never reshuffles
    /// between identical queries.
    open spec fn before(a: TitleMatchView, b: TitleMatchView) -> bool {
        a.score > b.score || (a.score == b.score && ordered::precedes(a.id, b.id))
    }

    fn goes_before(&self, other: &Self) -> (r: bool) {
        self.score > other.score || (self.score == other.score && ordered::comes_before(
            self.id.as_str(),
            other.id.as_str(),
        ))
    }
}

/// A text with each of its characters in lower case.
pub open spec fn lowered(s: Seq<char>) -> Seq<char>
    decreases s.len(),
{
    if s.len() == 0 {
        s
    } else {
        lowered(s.drop_last()) + text::lower_char(s.last())
    }
}

/// Where a character first stands at or after a position, whatever its case.
pub open spec fn find_folded(s: Seq<char>, c: char, from: int) -> Option<int>
    decreases s.len() - from,
{
    if from < 0 || from >= s.len() {
        None
    } else if text::lower_char(s[from]) == text::lower_char(c) {
        Some(from)
    } else {
        find_folded(s, c, from + 1)
    }
}

/// A subsequence match as far as it has come.
#[verifier::ext_equal]
pub struct Progress {
    pub score: int,
    pub positions: Seq<int>,
    pub at: int,
}

/// What a character that matches at a position is worth: matching the first
/// character is a strong signal, the start of a word a good one, and so is one
/// that follows the match before it; everything skipped over costs.
pub open spec fn worth(haystack: Seq<char>, before: Progress, found: int) -> int {
    (if found == 0 {
        15int
    } else if !text::alphanumeric(haystack[found - 1]) {
        10int
    } else {
        0int
    }) + (if before.positions.len() > 0 && before.positions.last() == found - 1 {
        8int
    } else {
        0int
    }) - (found - before.at)
}

/// A subsequence match of some characters, or none if they do not appear in
/// order.
pub open spec fn progress(haystack: Seq<char>, needles: Seq<char>) -> Option<Progress>
    decreases needles.len(),
{
    if needles.len() == 0 {
        Some(Progress { score: 0, positions: seq![], at: 0 })
    } else {
        match progress(haystack, needles.drop_last()) {
            None => None,
            Some(before) => match find_folded(haystack, needles.last(), before.at) {
                None => None,
                Some(found) => Some(
                    Progress {
                        score: before.score + worth(haystack, before, found),
                        positions: before.positions.push(found),
                        at: found + 1,
                    },
                ),
            },
        }
    }
}

/// The score of a candidate for a query, and where the query matched. Shorter
/// candidates win.
pub open spec fn score(candidate: Seq<char>, query: Seq<char>) -> Option<(int, Seq<int>)> {
    let needles = lowered(query);
    match progress(candidate, needles) {
        Some(p) => Some((p.score - (candidate.len() - needles.len()) / 4, p.positions)),
        None => None,
    }
}

/// How a note matches a query: by its title, or else, and lower down, by its
/// path.
pub open spec fn title_match(id: Seq<char>, query: Seq<char>) -> Option<TitleMatchView> {
    if query.len() == 0 {
        Some(TitleMatchView { id, score: 0, positions: seq![] })
    } else {
        match score(note::title(id), query) {
            Some((score, positions)) => Some(TitleMatchView { id, score, positions }),
            None => match score(id, query) {
                Some((score, _)) => Some(
                    TitleMatchView { id, score: score - 20, positions: seq![] },
                ),
                None => None,
            },
        }
    }
}

/// How some notes match a query, those that do not left out.
pub open spec fn title_matches(ids: Seq<Seq<char>>, query: Seq<char>) -> Seq<TitleMatchView>
    decreases ids.len(),
{
    if ids.len() == 0 {
        seq![]
    } else {
        let before = title_matches(ids.drop_last(), query);
        match title_match(ids.last(), query) {
            Some(m) => before.push(m),
            None => before,
        }
    }
}

/// What a search by title finds, in order.
pub open spec fn title_results(
    entries: Map<Seq<char>, index::EntryView>,
    query: Seq<char>,
    limit: int,
) -> Seq<TitleMatchView> {
    ranked::first(
        ranked::ranked::<TitleMatch>(
            title_matches(ordered::ascending(entries.dom()), text::trim(query)),
        ),
        limit,
    )
}

fn lower(s: &str) -> (r: Vec<char>)
    ensures
        r@ == lowered(s@),
{
    let chars = text::chars_of(s);
    let mut r: Vec<char> = Vec::new();
    let mut i: usize = 0;
    assert(r@ =~= lowered(s@.take(0)));
    while i < chars.len()
        invariant
            i <= chars@.len(),
            chars@ == s@,
            r@ == lowered(s@.take(i as int)),
        decreases chars@.len() - i,
    {
        assert(s@.take(i + 1).drop_last() =~= s@.take(i as int));
        text::extend(&mut r, &text::lower_of_char(chars[i]));
        i = i + 1;
    }
    assert(s@.take(s@.len() as int) =~= s@);
    r
}

fn position_folded(s: &[char], c: char, from: usize) -> (r: Option<usize>)
    ensures
        match r {
            Some(i) => find_folded(s@, c, from as int) == Some(i as int) && from <= i < s@.len(),
            None => find_folded(s@, c, from as int) is None,
        },
{
    let wanted = text::lower_of_char(c);
    let mut i: usize = from;
    while i < s.len()
        invariant
            from <= i,
            wanted@ == text::lower_char(c),
            find_folded(s@, c, from as int) == find_folded(s@, c, i as int),
        decreases s@.len() - i,
    {
        if text::same_chars(&text::lower_of_char(s[i]), &wanted) {
            return Some(i);
        }
        i = i + 1;
    }
    None
}

/// The longest path that can be scored: what keeps a score in its type.
pub const LONGEST_PATH: usize = 0x580_0000;

proof fn lemma_progress_none(haystack: Seq<char>, needles: Seq<char>, n: int)
    requires
        0 <= n <= needles.len(),
        progress(haystack, needles.take(n)) is None,
    ensures
        progress(haystack, needles) is None,
    decreases needles.len(),
{
    if n < needles.len() {
        assert(needles.drop_last().take(n) =~= needles.take(n));
        lemma_progress_none(haystack, needles.drop_last(), n);
    } else {
        assert(needles.take(n) =~= needles);
    }
}

fn score_of(candidate: &str, query: &str) -> (r: Option<(i32, Vec<usize>)>)
    requires
        candidate@.len() <= LONGEST_PATH,
    ensures
        match r {
            Some((s, positions)) => score(candidate@, query@) == Some(
                (s as int, ints(positions@)),
            ) && -0x4000_0000 <= s <= 0x7f00_0000,
            None => score(candidate@, query@) is None,
        },
{
    let haystack = text::chars_of(candidate);
    let needles = lower(query);
    let mut positions: Vec<usize> = Vec::new();
    let mut total: i32 = 0;
    let mut at: usize = 0;
    let mut i: usize = 0;
    assert(needles@.take(0) =~= Seq::<char>::empty());
    assert(ints(positions@) =~= seq![]);
    while i < needles.len()
        invariant
            i <= needles@.len(),
            i <= at <= haystack@.len() <= LONGEST_PATH,
            haystack@ == candidate@,
            needles@ == lowered(query@),
            positions@.len() == i,
            -(at as int) <= total <= 23 * i,
            progress(haystack@, needles@.take(i as int)) == Some(
                Progress { score: total as int, positions: ints(positions@), at: at as int },
            ),
        decreases needles@.len() - i,
    {
        assert(needles@.take(i + 1).drop_last() =~= needles@.take(i as int));
        let ghost before = Progress {
            score: total as int,
            positions: ints(positions@),
            at: at as int,
        };
        let found = match position_folded(&haystack, needles[i], at) {
            Some(found) => found,
            None => {
                proof {
                    lemma_progress_none(haystack@, needles@, i + 1);
                }
                return None;
            },
        };
        let ghost was = total;
        if found == 0 {
            total = total + 15;
        } else if !haystack[found - 1].is_alphanumeric() {
            total = total + 10;
        }
        let n = positions.len();
        if n > 0 && found > 0 && positions[n - 1] == found - 1 {
            assert(ints(positions@).last() == positions@[n - 1]);
            total = total + 8;
        }
        proof {
            if n > 0 {
                assert(ints(positions@).last() == positions@[n - 1]);
            }
        }
        total = total - (found - at) as i32;
        assert(total == was + worth(haystack@, before, found as int));
        let ghost p = ints(positions@);
        positions.push(found);
        assert(ints(positions@) =~= p.push(found as int));
        at = found + 1;
        i = i + 1;
    }
    assert(needles@.take(needles@.len() as int) =~= needles@);
    let spare = (haystack.len() - needles.len()) as i32;
    Some((total - spare / 4, positions))
}

fn match_title(id: &NoteId, query: &str) -> (r: Option<TitleMatch>)
    requires
        id@.len() <= LONGEST_PATH,
    ensures
        match r {
            Some(m) => title_match(id@, query@) == Some(m@),
            None => title_match(id@, query@) is None,
        },
{
    if query.is_empty() {
        let m = TitleMatch { id: id.clone(), score: 0, positions: Vec::new() };
        assert(m@.positions =~= seq![]);
        return Some(m);
    }
    proof {
        text::lemma_find_last(id@, '/');
    }
    match score_of(id.title(), query) {
        Some((score, positions)) => Some(TitleMatch { id: id.clone(), score, positions }),
        None => match score_of(id.as_str(), query) {
            Some((score, _)) => {
                let m = TitleMatch { id: id.clone(), score: score - 20, positions: Vec::new() };
                assert(m@.positions =~= seq![]);
                Some(m)
            },
            None => None,
        },
    }
}

/// Rank notes by how well their title or path matches `query`.
///
/// A subsequence match, so "rsown" finds "Rust ownership", with the ranking
/// biased towards matches that start a word and matches that run together.
pub fn by_title(index: &Index, query: &str, limit: usize) -> (r: Vec<TitleMatch>)
    requires
        forall|id: Seq<char>| #[trigger] index@.contains_key(id) ==> id.len() <= LONGEST_PATH,
    ensures
        text::views(r@) == title_results(index@, query@, limit as int),
{
    let wanted = text::trimmed(query);
    let ids = index.ids();
    let n = index.len();
    let ghost order = text::views(ids@);
    proof {
        ordered::lemma_ascending(index@.dom());
        assert(order.len() == ids@.len());
    }
    let mut found: Vec<TitleMatch> = Vec::new();
    let mut i: usize = 0;
    assert(text::views(found@) =~= seq![]);
    while i < n
        invariant
            i <= n == ids@.len(),
            order == text::views(ids@),
            order.to_set() == index@.dom(),
            forall|id: Seq<char>| #[trigger] index@.contains_key(id) ==> id.len() <= LONGEST_PATH,
            wanted@ == text::trim(query@),
            text::views(found@) == title_matches(order.take(i as int), wanted@),
        decreases n - i,
    {
        assert(order.take(i + 1).drop_last() =~= order.take(i as int));
        let id = &ids[i];
        proof {
            assert(order[i as int] == id@);
            assert(order.to_set().contains(id@));
            assert(index@.contains_key(id@));
        }
        match match_title(id, wanted.as_str()) {
            Some(m) => {
                proof {
                    text::lemma_views_push(found@, m);
                }
                found.push(m);
            },
            None => {},
        }
        i = i + 1;
    }
    assert(order.take(n as int) =~= order);
    let mut r = ranked::rank(found);
    let ghost all = text::views(r@);
    assert(all.len() == r@.len());
    if r.len() > limit {
        r.truncate(limit);
        assert(text::views(r@) =~= all.take(limit as int));
    }
    r
}

// ---- by any name ----

/// The best score of a query among some aliases.
pub open spec fn alias_score(aliases: Seq<Seq<char>>, query: Seq<char>) -> Option<int>
    decreases aliases.len(),
{
    if aliases.len() == 0 {
        None
    } else {
        let before = alias_score(aliases.drop_last(), query);
        match score(aliases.last(), query) {
            None => before,
            Some((score, _)) => match before {
                Some(best) if best >= score => Some(best),
                _ => Some(score),
            },
        }
    }
}

/// How a note matches a query: by its title, or else by the alias that does so
/// best, or else, and lower down, by its path.
pub open spec fn name_match(id: Seq<char>, aliases: Seq<Seq<char>>, query: Seq<char>) -> Option<
    TitleMatchView,
> {
    if query.len() == 0 || score(note::title(id), query) is Some {
        title_match(id, query)
    } else {
        match alias_score(aliases, query) {
            Some(score) => Some(TitleMatchView { id, score, positions: seq![] }),
            None => title_match(id, query),
        }
    }
}

/// How some notes match a query by any of their names, those that do not left
/// out.
pub open spec fn name_matches(
    entries: Map<Seq<char>, index::EntryView>,
    ids: Seq<Seq<char>>,
    query: Seq<char>,
) -> Seq<TitleMatchView>
    decreases ids.len(),
{
    if ids.len() == 0 {
        seq![]
    } else {
        let before = name_matches(entries, ids.drop_last(), query);
        match name_match(ids.last(), entries[ids.last()].aliases, query) {
            Some(m) => before.push(m),
            None => before,
        }
    }
}

/// Whether every name in an index is one that can be scored.
pub open spec fn names_fit(entries: Map<Seq<char>, index::EntryView>) -> bool {
    forall|id: Seq<char>| #[trigger]
        entries.contains_key(id) ==> id.len() <= LONGEST_PATH && forall|i: int|
            0 <= i < entries[id].aliases.len() ==> (#[trigger] entries[id].aliases[i]).len()
                <= LONGEST_PATH
}

fn score_of_aliases(aliases: &Vec<String>, query: &str) -> (r: Option<i32>)
    requires
        forall|i: int|
            0 <= i < aliases@.len() ==> (#[trigger] text::views(aliases@)[i]).len()
                <= LONGEST_PATH,
    ensures
        match r {
            Some(s) => alias_score(text::views(aliases@), query@) == Some(s as int),
            None => alias_score(text::views(aliases@), query@) is None,
        },
{
    let ghost all = text::views(aliases@);
    let mut best: Option<i32> = None;
    let mut i: usize = 0;
    assert(all.len() == aliases@.len());
    while i < aliases.len()
        invariant
            i <= aliases@.len() == all.len(),
            all == text::views(aliases@),
            forall|i: int| 0 <= i < all.len() ==> (#[trigger] all[i]).len() <= LONGEST_PATH,
            match best {
                Some(s) => alias_score(all.take(i as int), query@) == Some(s as int),
                None => alias_score(all.take(i as int), query@) is None,
            },
        decreases aliases@.len() - i,
    {
        assert(all.take(i + 1).drop_last() =~= all.take(i as int));
        assert(all.take(i + 1).last() == all[i as int]);
        if let Some((score, _)) = score_of(aliases[i].as_str(), query) {
            best = match best {
                Some(least) if least >= score => Some(least),
                _ => Some(score),
            };
        }
        i = i + 1;
    }
    assert(all.take(all.len() as int) =~= all);
    best
}

fn match_name(id: &NoteId, aliases: &Vec<String>, query: &str) -> (r: Option<TitleMatch>)
    requires
        id@.len() <= LONGEST_PATH,
        forall|i: int|
            0 <= i < aliases@.len() ==> (#[trigger] text::views(aliases@)[i]).len()
                <= LONGEST_PATH,
    ensures
        match r {
            Some(m) => name_match(id@, text::views(aliases@), query@) == Some(m@),
            None => name_match(id@, text::views(aliases@), query@) is None,
        },
{
    proof {
        text::lemma_find_last(id@, '/');
    }
    if !query.is_empty() && score_of(id.title(), query).is_none() {
        if let Some(score) = score_of_aliases(aliases, query) {
            let m = TitleMatch { id: id.clone(), score, positions: Vec::new() };
            assert(m@.positions =~= seq![]);
            return Some(m);
        }
    }
    match_title(id, query)
}

/// Rank notes by how well their title, an alias or their path matches `query`,
/// as [`by_title`] does.
pub fn by_name(index: &Index, query: &str, limit: usize) -> (r: Vec<TitleMatch>)
    requires
        names_fit(index@),
    ensures
        text::views(r@) == ranked::first(
            ranked::ranked::<TitleMatch>(
                name_matches(index@, ordered::ascending(index@.dom()), text::trim(query@)),
            ),
            limit as int,
        ),
{
    let wanted = text::trimmed(query);
    let ids = index.ids();
    let n = index.len();
    let ghost order = text::views(ids@);
    proof {
        ordered::lemma_ascending(index@.dom());
        assert(order.len() == ids@.len());
    }
    let mut found: Vec<TitleMatch> = Vec::new();
    let mut i: usize = 0;
    assert(text::views(found@) =~= seq![]);
    while i < n
        invariant
            i <= n == ids@.len(),
            order == text::views(ids@),
            order.to_set() == index@.dom(),
            names_fit(index@),
            wanted@ == text::trim(query@),
            text::views(found@) == name_matches(index@, order.take(i as int), wanted@),
        decreases n - i,
    {
        assert(order.take(i + 1).drop_last() =~= order.take(i as int));
        let id = &ids[i];
        proof {
            assert(order[i as int] == id@);
            assert(order.to_set().contains(id@));
            assert(index@.contains_key(id@));
        }
        let aliases = index.aliases_of(id);
        match match_name(id, &aliases, wanted.as_str()) {
            Some(m) => {
                proof {
                    text::lemma_views_push(found@, m);
                }
                found.push(m);
            },
            None => {},
        }
        i = i + 1;
    }
    assert(order.take(n as int) =~= order);
    let mut r = ranked::rank(found);
    let ghost all = text::views(r@);
    assert(all.len() == r@.len());
    if r.len() > limit {
        r.truncate(limit);
        assert(text::views(r@) =~= all.take(limit as int));
    }
    r
}

// ---- by text ----

/// One line a query appeared on.
#[derive(Debug, PartialEq, Eq)]
pub struct Snippet {
    pub text: String,
    /// Character range of the match within `text`.
    pub start: usize,
    pub end: usize,
}

/// One line a query appeared on, by its text.
#[verifier::ext_equal]
pub struct SnippetView {
    pub text: Seq<char>,
    pub start: usize,
    pub end: usize,
}

impl View for Snippet {
    type V = SnippetView;

    open spec fn view(&self) -> SnippetView {
        SnippetView { text: self.text@, start: self.start, end: self.end }
    }
}

/// A note matched by its text, with the lines the query appears on.
#[derive(Debug, PartialEq, Eq)]
pub struct TextMatch {
    pub id: NoteId,
    pub hits: usize,
    pub snippets: Vec<Snippet>,
}

/// A note matched by its text.
#[verifier::ext_equal]
pub struct TextMatchView {
    pub id: Seq<char>,
    pub hits: usize,
    pub snippets: Seq<SnippetView>,
}

impl View for TextMatch {
    type V = TextMatchView;

    open spec fn view(&self) -> TextMatchView {
        TextMatchView { id: self.id@, hits: self.hits, snippets: text::views(self.snippets@) }
    }
}

/// How many lines of context to keep per note. More than this and the results
/// list becomes a document in its own right.
pub const SNIPPETS_PER_NOTE: usize = 3;

/// A number that is no larger than the machine can hold.
pub open spec fn capped(n: int) -> usize {
    if n <= usize::MAX {
        n as usize
    } else {
        usize::MAX
    }
}

/// Every place from a position on where a text stands, none overlapping the
/// one before it.
pub open spec fn places(s: Seq<char>, needle: Seq<char>, from: int) -> Seq<int>
    decreases s.len() + 1 - from,
    when needle.len() > 0 && from >= 0
{
    proof {
        text::lemma_find_text(s, needle, from);
    }
    match text::find_text(s, needle, from) {
        None => seq![],
        Some(at) => seq![at] + places(s, needle, at + needle.len()),
    }
}

/// The most characters of a line that take no more than a number of places
/// once they are lowercased.
pub open spec fn chars_before(line: Seq<char>, places: int) -> int
    decreases line.len(),
{
    if line.len() == 0 || text::lowercase(line).len() <= places {
        line.len() as int
    } else {
        chars_before(line.drop_last(), places)
    }
}

/// The fewest characters of a line, past some of them, that take at least a
/// number of places once they are lowercased.
pub open spec fn chars_through(line: Seq<char>, places: int, past: int) -> int
    decreases line.len() - past,
{
    if past >= line.len() || text::lowercase(line.take(past)).len() >= places {
        past
    } else {
        chars_through(line, places, past + 1)
    }
}

/// Where in a line a run of its lowercased form comes from: lowercasing can
/// make several characters of one.
pub open spec fn range_of(line: Seq<char>, start: int, end: int) -> (int, int) {
    (chars_before(line, start), chars_through(line, end, 0))
}

/// A position in a line, measured from past its indent.
pub open spec fn past_indent(line: Seq<char>, at: int) -> usize {
    let indent = line.len() - text::trim_start(line).len();
    if at > indent {
        capped(at - indent)
    } else {
        0
    }
}

/// The snippet of a match at a place in a lowercased line. Trimming shifts the
/// match, so the range is measured against the trimmed line that is shown.
pub open spec fn snippet(line: Seq<char>, query: Seq<char>, at: int) -> SnippetView {
    let (start, end) = range_of(line, at, at + query.len());
    SnippetView {
        text: text::trim(line),
        start: past_indent(line, start),
        end: past_indent(line, end),
    }
}

/// The snippets of a line.
pub open spec fn line_snippets(line: Seq<char>, query: Seq<char>, places: Seq<int>) -> Seq<
    SnippetView,
> {
    places.map_values(|at: int| snippet(line, query, at))
}

/// The snippets of some lines.
pub open spec fn snippets(lines: Seq<Seq<char>>, query: Seq<char>) -> Seq<SnippetView>
    decreases lines.len(),
{
    if lines.len() == 0 {
        seq![]
    } else {
        let line = lines.last();
        snippets(lines.drop_last(), query) + line_snippets(
            line,
            query,
            places(text::lowercase(line), query, 0),
        )
    }
}

/// How a note matches a query that is in its text: every place counts, and the
/// first few are shown.
pub open spec fn text_match(id: Seq<char>, prose: Seq<char>, query: Seq<char>) -> TextMatchView {
    let all = snippets(text::lines(prose), query);
    TextMatchView {
        id,
        hits: capped(all.len() as int),
        snippets: ranked::first(all, SNIPPETS_PER_NOTE as int),
    }
}

/// How some notes match a query, those that do not left out.
pub open spec fn text_matches(
    entries: Map<Seq<char>, index::EntryView>,
    ids: Seq<Seq<char>>,
    query: Seq<char>,
) -> Seq<(bool, TextMatchView)>
    decreases ids.len(),
{
    if ids.len() == 0 {
        seq![]
    } else {
        let before = text_matches(entries, ids.drop_last(), query);
        let id = ids.last();
        let m = text_match(id, entries[id].text, query);
        if m.hits > 0 {
            before.push((is_titled(id, query), m))
        } else {
            before
        }
    }
}

/// Whether a note is called what a query asks for.
pub open spec fn is_titled(id: Seq<char>, query: Seq<char>) -> bool {
    text::find_text(text::lowercase(note::title(id)), query, 0) is Some
}

/// A match, and whether the note is called that.
#[derive(Debug)]
pub struct Titled {
    pub titled: bool,
    pub found: TextMatch,
}

impl View for Titled {
    type V = (bool, TextMatchView);

    open spec fn view(&self) -> (bool, TextMatchView) {
        (self.titled, self.found@)
    }
}

impl Ranked for Titled {
    /// A title match outranks a body match: searching for "ownership" when a
    /// note is called that means you want the note, not every mention of it.
    open spec fn before(a: (bool, TextMatchView), b: (bool, TextMatchView)) -> bool {
        if a.0 != b.0 {
            a.0
        } else if a.1.hits != b.1.hits {
            a.1.hits > b.1.hits
        } else {
            ordered::precedes(a.1.id, b.1.id)
        }
    }

    fn goes_before(&self, other: &Self) -> (r: bool) {
        if self.titled != other.titled {
            self.titled
        } else if self.found.hits != other.found.hits {
            self.found.hits > other.found.hits
        } else {
            ordered::comes_before(self.found.id.as_str(), other.found.id.as_str())
        }
    }
}

/// What a search of all texts finds, in order.
pub open spec fn text_results(
    entries: Map<Seq<char>, index::EntryView>,
    query: Seq<char>,
    limit: int,
) -> Seq<TextMatchView> {
    let wanted = text::lowercase(text::trim(query));
    if wanted.len() == 0 {
        seq![]
    } else {
        ranked::first(
            ranked::ranked::<Titled>(
                text_matches(entries, ordered::ascending(entries.dom()), wanted),
            ),
            limit,
        ).map_values(|m: (bool, TextMatchView)| m.1)
    }
}

fn places_of(s: &[char], needle: &[char]) -> (r: Vec<usize>)
    requires
        needle@.len() > 0,
    ensures
        ints(r@) == places(s@, needle@, 0),
        forall|i: int| 0 <= i < r@.len() ==> #[trigger] r@[i] + needle@.len() <= s@.len(),
{
    let mut r: Vec<usize> = Vec::new();
    let mut from: usize = 0;
    let mut more = true;
    assert(ints(r@) + places(s@, needle@, 0) =~= places(s@, needle@, 0));
    while more
        invariant
            needle@.len() > 0,
            more ==> ints(r@) + places(s@, needle@, from as int) == places(s@, needle@, 0),
            !more ==> ints(r@) == places(s@, needle@, 0),
            forall|i: int| 0 <= i < r@.len() ==> #[trigger] r@[i] + needle@.len() <= s@.len(),
        decreases
            s@.len() + 1 - from,
            if more {
                1int
            } else {
                0int
            },
    {
        match text::position_of_text(s, needle, from) {
            None => {
                assert(ints(r@) + places(s@, needle@, from as int) =~= ints(r@));
                more = false;
            },
            Some(at) => {
                let len = s.len();
                let ghost before = ints(r@);
                r.push(at);
                proof {
                    assert(ints(r@) =~= before.push(at as int));
                    assert(before + places(s@, needle@, from as int) =~= before.push(at as int)
                        + places(s@, needle@, at + needle@.len()));
                }
                from = at + needle.len();
            },
        }
    }
    r
}

fn lowered_len(line: &[char], n: usize) -> (r: usize)
    requires
        n <= line@.len(),
    ensures
        r == text::lowercase(line@.take(n as int)).len(),
{
    let prefix = text::part(line, 0, n);
    assert(prefix@ =~= line@.take(n as int));
    text::chars_of(text::string_of(&prefix).as_str().to_lowercase().as_str()).len()
}

fn find_range(line: &[char], start: usize, end: usize) -> (r: (usize, usize))
    ensures
        range_of(line@, start as int, end as int) == (r.0 as int, r.1 as int),
        r.0 <= line@.len(),
        r.1 <= line@.len(),
{
    let mut from: usize = line.len();
    assert(line@.take(from as int) =~= line@);
    while from > 0 && lowered_len(line, from) > start
        invariant
            from <= line@.len(),
            chars_before(line@, start as int) == chars_before(
                line@.take(from as int),
                start as int,
            ),
        decreases from,
    {
        assert(line@.take(from as int).drop_last() =~= line@.take(from - 1));
        from = from - 1;
    }
    let mut to: usize = 0;
    while to < line.len() && lowered_len(line, to) < end
        invariant
            to <= line@.len(),
            chars_through(line@, end as int, 0) == chars_through(line@, end as int, to as int),
        decreases line@.len() - to,
    {
        to = to + 1;
    }
    (from, to)
}

fn snippet_at(line: &Vec<char>, query: &Vec<char>, at: usize) -> (r: Snippet)
    requires
        at + query@.len() <= usize::MAX,
    ensures
        r@ == snippet(line@, query@, at as int),
{
    let (from, to) = find_range(line, at, at + query.len());
    let indent = text::leading_white(line);
    let start: usize = if from > indent {
        from - indent
    } else {
        0
    };
    let end: usize = if to > indent {
        to - indent
    } else {
        0
    };
    Snippet { text: text::string_of(&text::trim_chars(line)), start, end }
}

fn match_text(id: &NoteId, prose: &str, query: &Vec<char>) -> (r: TextMatch)
    requires
        query@.len() > 0,
    ensures
        r@ == text_match(id@, prose@, query@),
{
    let lines = text::lines_of(&text::chars_of(prose));
    let ghost all = text::views(lines@);
    let mut hits: usize = 0;
    let mut kept: Vec<Snippet> = Vec::new();
    let mut i: usize = 0;
    let ghost mut done: Seq<SnippetView> = seq![];
    assert(text::views(kept@) =~= ranked::first(done, 3));
    while i < lines.len()
        invariant
            i <= lines@.len(),
            all == text::views(lines@),
            query@.len() > 0,
            done == snippets(all.take(i as int), query@),
            hits == capped(done.len() as int),
            text::views(kept@) == ranked::first(done, 3),
        decreases lines@.len() - i,
    {
        assert(all.take(i + 1).drop_last() =~= all.take(i as int));
        let line = &lines[i];
        assert(all.take(i + 1).last() == line@);
        let low = text::chars_of(text::string_of(line).as_str().to_lowercase().as_str());
        let width = low.len();
        let found = places_of(&low, query);
        let ghost here = places(low@, query@, 0);
        let ghost start = done;
        let mut j: usize = 0;
        proof {
            assert(line_snippets(line@, query@, here.take(0)) =~= seq![]);
            assert(start + line_snippets(line@, query@, here.take(0)) =~= done);
        }
        while j < found.len()
            invariant
                j <= found@.len(),
                here == ints(found@),
                low@ == text::lowercase(line@),
                width == low@.len(),
                forall|k: int|
                    0 <= k < found@.len() ==> #[trigger] found@[k] + query@.len() <= low@.len(),
                done == start + line_snippets(line@, query@, here.take(j as int)),
                hits == capped(done.len() as int),
                text::views(kept@) == ranked::first(done, 3),
            decreases found@.len() - j,
        {
            let ghost next = snippet(line@, query@, found@[j as int] as int);
            proof {
                assert(line_snippets(line@, query@, here.take(j + 1)) =~= line_snippets(
                    line@,
                    query@,
                    here.take(j as int),
                ).push(next));
                assert(start + line_snippets(line@, query@, here.take(j + 1)) =~= done.push(next));
            }
            assert(text::views(kept@).len() == kept@.len());
            if kept.len() < SNIPPETS_PER_NOTE {
                let s = snippet_at(line, query, found[j]);
                proof {
                    text::lemma_views_push(kept@, s);
                }
                kept.push(s);
                assert(text::views(kept@) =~= ranked::first(done.push(next), 3));
            } else {
                assert(ranked::first(done, 3) =~= ranked::first(done.push(next), 3));
            }
            if hits < usize::MAX {
                hits = hits + 1;
            }
            proof {
                done = done.push(next);
            }
            j = j + 1;
        }
        proof {
            assert(here.take(found@.len() as int) =~= here);
            assert(done == snippets(all.take(i + 1), query@));
        }
        i = i + 1;
    }
    assert(all.take(all.len() as int) =~= all);
    TextMatch { id: id.clone(), hits, snippets: kept }
}

/// Find `query` in the text of every note.
///
/// Case-insensitive substring matching. Not word-boundary matching: people
/// search notes for fragments, and a word-boundary search silently fails on
/// all of them.
pub fn by_text(index: &Index, query: &str, limit: usize) -> (r: Vec<TextMatch>)
    ensures
        text::views(r@) == text_results(index@, query@, limit as int),
{
    let low = text::trimmed(query).as_str().to_lowercase();
    let wanted = text::chars_of(low.as_str());
    let mut r: Vec<TextMatch> = Vec::new();
    if wanted.len() == 0 {
        assert(text::views(r@) =~= seq![]);
        return r;
    }
    let ids = index.ids();
    let n = index.len();
    let ghost order = text::views(ids@);
    proof {
        ordered::lemma_ascending(index@.dom());
        assert(order.len() == ids@.len());
    }
    let mut found: Vec<Titled> = Vec::new();
    let mut i: usize = 0;
    assert(text::views(found@) =~= seq![]);
    while i < n
        invariant
            i <= n == ids@.len(),
            order == text::views(ids@),
            order.to_set() == index@.dom(),
            wanted@.len() > 0,
            text::views(found@) == text_matches(index@, order.take(i as int), wanted@),
        decreases n - i,
    {
        assert(order.take(i + 1).drop_last() =~= order.take(i as int));
        let id = &ids[i];
        proof {
            assert(order[i as int] == id@);
            assert(order.to_set().contains(id@));
        }
        let m = match_text(id, index.text(id), &wanted);
        if m.hits > 0 {
            let title = text::chars_of(id.title().to_lowercase().as_str());
            let titled = text::position_of_text(&title, &wanted, 0).is_some();
            let t = Titled { titled, found: m };
            proof {
                text::lemma_views_push(found@, t);
            }
            found.push(t);
        }
        i = i + 1;
    }
    assert(order.take(n as int) =~= order);
    let mut all = ranked::rank(found);
    let ghost in_order = text::views(all@);
    assert(in_order.len() == all@.len());
    if all.len() > limit {
        all.truncate(limit);
        assert(text::views(all@) =~= in_order.take(limit as int));
    }
    let ghost kept = ranked::first(in_order, limit as int);
    let ghost results = kept.map_values(|m: (bool, TextMatchView)| m.1);
    let ghost mut done: int = 0;
    assert(kept.skip(0) =~= kept);
    assert(text::views(r@) =~= results.take(0));
    while all.len() > 0
        invariant
            0 <= done <= kept.len(),
            text::views(all@) == kept.skip(done),
            results == kept.map_values(|m: (bool, TextMatchView)| m.1),
            text::views(r@) == results.take(done),
        decreases all@.len(),
    {
        let ghost left = all@;
        assert(text::views(left).len() == kept.skip(done).len());
        let t = all.remove(0);
        proof {
            assert(text::views(left)[0] == kept.skip(done)[0]);
            assert(text::views(all@) =~= kept.skip(done + 1)) by {
                assert forall|k: int| 0 <= k < all@.len() implies #[trigger] text::views(all@)[k]
                    == kept.skip(done + 1)[k] by {
                    assert(text::views(left)[k + 1] == kept.skip(done)[k + 1]);
                }
            }
            text::lemma_views_push(r@, t.found);
            assert(results.take(done + 1) =~= results.take(done).push(results[done]));
            done = done + 1;
        }
        r.push(t.found);
    }
    assert(results.take(done) =~= results);
    r
}

// ---- by words and meaning ----

/// How deep each half searches before fusing, as a multiple of the limit. A
/// note ranked 30th lexically and 2nd semantically is exactly the result
/// hybrid search exists to surface, so the fusion has to be able to see it.
pub const DEPTH: usize = 8;

/// How deep each half searches for so many results.
pub fn depth(limit: usize) -> (r: usize)
    ensures
        r == (if limit * 8 <= usize::MAX {
            limit * 8
        } else {
            usize::MAX as int
        }),
{
    if limit <= usize::MAX / DEPTH {
        limit * DEPTH
    } else {
        usize::MAX
    }
}

/// One note found by hybrid search, and why.
///
/// The ranks are carried through rather than folded away: "both halves agreed"
/// and "only the vectors liked this" are different degrees of confidence.
#[derive(Debug, PartialEq, Eq)]
pub struct Hit {
    pub id: NoteId,
    /// A whole number that orders as the fused score does. Comparable within
    /// one result set and meaningless outside it.
    pub score: u32,
    /// Where the lexical half ranked it, if it named it at all.
    pub lexical: Option<usize>,
    /// Where the semantic half ranked it.
    pub semantic: Option<usize>,
    /// A whole number that orders as the similarity behind `semantic` does.
    pub similarity: Option<u32>,
    /// A line worth showing.
    pub snippet: String,
}

/// One note found by hybrid search, by its texts.
#[verifier::ext_equal]
pub struct HitView {
    pub id: Seq<char>,
    pub score: u32,
    pub lexical: Option<usize>,
    pub semantic: Option<usize>,
    pub similarity: Option<u32>,
    pub snippet: Seq<char>,
}

impl View for Hit {
    type V = HitView;

    open spec fn view(&self) -> HitView {
        HitView {
            id: self.id@,
            score: self.score,
            lexical: self.lexical,
            semantic: self.semantic,
            similarity: self.similarity,
            snippet: self.snippet@,
        }
    }
}

impl Ranked for Hit {
    /// The higher score first; ties by id, so that two notes never swap
    /// between identical queries.
    open spec fn before(a: HitView, b: HitView) -> bool {
        a.score > b.score || (a.score == b.score && ordered::precedes(a.id, b.id))
    }

    fn goes_before(&self, other: &Self) -> (r: bool) {
        self.score > other.score || (self.score == other.score && ordered::comes_before(
            self.id.as_str(),
            other.id.as_str(),
        ))
    }
}

/// Where a ranking names a note.
pub open spec fn rank_of(ranking: Seq<(Seq<char>, u32)>, id: Seq<char>) -> Option<int>
    decreases ranking.len(),
{
    if ranking.len() == 0 {
        None
    } else if ranking.last().0 == id {
        Some(ranking.len() - 1)
    } else {
        rank_of(ranking.drop_last(), id)
    }
}

/// The notes that a ranking names.
pub open spec fn named(ranking: Seq<(Seq<char>, u32)>) -> Set<Seq<char>> {
    Set::new(|id: Seq<char>| rank_of(ranking, id) is Some)
}

/// A rank as it is carried.
pub open spec fn as_rank(rank: Option<int>) -> Option<usize> {
    match rank {
        Some(r) => Some(r as usize),
        None => None,
    }
}

/// A note as two rankings name it, before it is scored.
pub open spec fn fused_hit(
    keyword: Seq<(Seq<char>, u32)>,
    vectors: Seq<(Seq<char>, u32)>,
    id: Seq<char>,
) -> HitView {
    HitView {
        id,
        score: 0,
        lexical: as_rank(rank_of(keyword, id)),
        semantic: as_rank(rank_of(vectors, id)),
        similarity: match rank_of(vectors, id) {
            Some(r) => Some(vectors[r].1),
            None => None,
        },
        snippet: seq![],
    }
}

/// Two rankings fused: every note that either names, with where each does.
pub open spec fn fused(
    keyword: Seq<(Seq<char>, u32)>,
    vectors: Seq<(Seq<char>, u32)>,
) -> Seq<HitView> {
    ordered::ascending(named(keyword).union(named(vectors))).map_values(
        |id: Seq<char>| fused_hit(keyword, vectors, id),
    )
}

fn find_rank(ranking: &Vec<Scored>, id: &NoteId) -> (r: Option<usize>)
    ensures
        match r {
            Some(k) => rank_of(text::views(ranking@), id@) == Some(k as int) && k < ranking@.len(),
            None => rank_of(text::views(ranking@), id@) is None,
        },
{
    let ghost all = text::views(ranking@);
    let mut i: usize = ranking.len();
    assert(all.take(i as int) =~= all);
    while i > 0
        invariant
            i <= ranking@.len(),
            all == text::views(ranking@),
            rank_of(all, id@) == rank_of(all.take(i as int), id@),
        decreases i,
    {
        assert(all.take(i as int).drop_last() =~= all.take(i - 1));
        assert(all.take(i as int).last() == ranking@[i - 1]@);
        if ranking[i - 1].id.same(id) {
            return Some(i - 1);
        }
        i = i - 1;
    }
    None
}

fn add_named(set: &mut TextMap<NoteId, ()>, ranking: &Vec<Scored>)
    ensures
        final(set)@.dom() == old(set)@.dom().union(named(text::views(ranking@))),
{
    let ghost all = text::views(ranking@);
    let ghost start = set@.dom();
    let mut i: usize = 0;
    assert(set@.dom() =~= start.union(named(all.take(0))));
    while i < ranking.len()
        invariant
            i <= ranking@.len(),
            all == text::views(ranking@),
            set@.dom() == start.union(named(all.take(i as int))),
        decreases ranking@.len() - i,
    {
        assert(all.take(i + 1).drop_last() =~= all.take(i as int));
        let id = ranking[i].id.clone();
        assert(all.take(i + 1).last().0 == id@);
        set.insert(id, ());
        assert(set@.dom() =~= start.union(named(all.take(i + 1)))) by {
            assert forall|t: Seq<char>| named(all.take(i + 1)).contains(t) == (t == id@ || named(
                all.take(i as int),
            ).contains(t)) by {}
        }
        i = i + 1;
    }
    assert(all.take(all.len() as int) =~= all);
}

/// Fuse a lexical ranking with a semantic one: one hit for every note that
/// either names, not yet scored. With no semantic ranking the answer is the
/// lexical one alone.
pub fn fuse(keyword: &Vec<Scored>, vectors: &Vec<Scored>) -> (r: Vec<Hit>)
    ensures
        text::views(r@) == fused(text::views(keyword@), text::views(vectors@)),
{
    let ghost k = text::views(keyword@);
    let ghost v = text::views(vectors@);
    let mut set: TextMap<NoteId, ()> = TextMap::new();
    add_named(&mut set, keyword);
    add_named(&mut set, vectors);
    let ghost ids = named(k).union(named(v));
    assert(set@.dom() =~= ids);
    let ghost order = ordered::ascending(ids);
    let ghost wanted = fused(k, v);
    let n = set.len();
    let mut r: Vec<Hit> = Vec::new();
    let mut i: usize = 0;
    assert(text::views(r@) =~= wanted.take(0));
    while i < n
        invariant
            i <= n == order.len(),
            k == text::views(keyword@),
            v == text::views(vectors@),
            set@.dom() == ids,
            order == ordered::ascending(ids),
            wanted == fused(k, v),
            ids == named(k).union(named(v)),
            text::views(r@) == wanted.take(i as int),
        decreases n - i,
    {
        let id = set.key(i);
        let lexical = find_rank(keyword, id);
        let semantic = find_rank(vectors, id);
        let similarity: Option<u32> = match semantic {
            Some(rank) => Some(vectors[rank].score),
            None => None,
        };
        let hit = Hit {
            id: id.clone(),
            score: 0,
            lexical,
            semantic,
            similarity,
            snippet: String::new(),
        };
        proof {
            if let Some(rank) = semantic {
                assert(v[rank as int] == vectors@[rank as int]@);
            }
            assert(hit@ =~= fused_hit(k, v, id@));
            assert(wanted[i as int] == fused_hit(k, v, order[i as int]));
            text::lemma_views_push(r@, hit);
            assert(wanted.take(i + 1) =~= wanted.take(i as int).push(wanted[i as int]));
        }
        r.push(hit);
        i = i + 1;
    }
    assert(wanted.take(n as int) =~= wanted);
    r
}

/// How many of some terms a line contains, each as often as it is asked for.
pub open spec fn term_hits(terms: Seq<Seq<char>>, words: Seq<Seq<char>>) -> nat
    decreases terms.len(),
{
    if terms.len() == 0 {
        0
    } else {
        term_hits(terms.drop_last(), words) + if words.contains(terms.last()) {
            1nat
        } else {
            0nat
        }
    }
}

/// The last of the lines with the most hits, and how many it has.
pub open spec fn best_line(lines: Seq<Seq<char>>, terms: Seq<Seq<char>>) -> Option<
    (nat, Seq<char>),
>
    decreases lines.len(),
{
    if lines.len() == 0 {
        None
    } else {
        let before = best_line(lines.drop_last(), terms);
        let line = text::trim(lines.last());
        let hits = term_hits(terms, bm25::terms(line));
        if line.len() == 0 {
            before
        } else {
            match before {
                Some((most, _)) if most > hits => before,
                _ => Some((hits, line)),
            }
        }
    }
}

/// How many characters of a line are shown.
pub const SNIPPET: usize = 200;

/// The line of a note worth showing next to a hit: the line containing the
/// most query terms, or the note's excerpt when none of them appear.
pub open spec fn snippet_for(
    entries: Map<Seq<char>, index::EntryView>,
    id: Seq<char>,
    query: Seq<char>,
) -> Seq<char> {
    let prose = match index::found(entries, id) {
        Some(e) => e.text,
        None => seq![],
    };
    match best_line(text::lines(prose), bm25::terms(query)) {
        Some((hits, line)) if hits > 0 => ranked::first(line, SNIPPET as int),
        _ => match index::found(entries, id) {
            Some(e) => e.excerpt,
            None => seq![],
        },
    }
}

fn count_hits(terms: &Vec<String>, words: &Vec<String>) -> (n: usize)
    ensures
        n == term_hits(text::views(terms@), text::views(words@)),
{
    let ghost all = text::views(terms@);
    let ghost there = text::views(words@);
    let mut n: usize = 0;
    let mut i: usize = 0;
    while i < terms.len()
        invariant
            i <= terms@.len(),
            n <= i,
            all == text::views(terms@),
            there == text::views(words@),
            n == term_hits(all.take(i as int), there),
        decreases terms@.len() - i,
    {
        assert(all.take(i + 1).drop_last() =~= all.take(i as int));
        assert(all.take(i + 1).last() == terms@[i as int]@);
        if text::has_text(words, terms[i].as_str()) {
            n = n + 1;
        }
        i = i + 1;
    }
    assert(all.take(all.len() as int) =~= all);
    n
}

fn find_snippet(index: &Index, id: &NoteId, query: &str) -> (r: String)
    ensures
        r@ == snippet_for(index@, id@, query@),
{
    let terms = bm25::tokenize(query);
    let ghost wanted = text::views(terms@);
    let lines = text::lines_of(&text::chars_of(index.text(id)));
    let ghost all = text::views(lines@);
    let mut best: Option<(usize, Vec<char>)> = None;
    let mut i: usize = 0;
    while i < lines.len()
        invariant
            i <= lines@.len(),
            all == text::views(lines@),
            wanted == text::views(terms@),
            match best {
                Some((hits, line)) => best_line(all.take(i as int), wanted) == Some(
                    (hits as nat, line@),
                ),
                None => best_line(all.take(i as int), wanted) is None,
            },
        decreases lines@.len() - i,
    {
        assert(all.take(i + 1).drop_last() =~= all.take(i as int));
        assert(all.take(i + 1).last() == lines@[i as int]@);
        let line = text::trim_chars(&lines[i]);
        if line.len() > 0 {
            let words = bm25::tokenize(text::string_of(&line).as_str());
            let hits = count_hits(&terms, &words);
            let more = match &best {
                Some((most, _)) => *most > hits,
                None => false,
            };
            if !more {
                best = Some((hits, line));
            }
        }
        i = i + 1;
    }
    assert(all.take(all.len() as int) =~= all);
    match best {
        Some((hits, line)) => {
            if hits > 0 {
                if line.len() > SNIPPET {
                    let short = text::part(&line, 0, SNIPPET);
                    assert(short@ =~= line@.take(SNIPPET as int));
                    return text::string_of(&short);
                }
                return text::string_of(&line);
            }
        },
        None => {},
    }
    text::string_of(&text::chars_of(index.excerpt(id)))
}

/// Scored hits in order, cut to a limit, each with a line worth showing.
pub open spec fn finished(
    entries: Map<Seq<char>, index::EntryView>,
    hits: Seq<HitView>,
    query: Seq<char>,
    limit: int,
) -> Seq<HitView> {
    ranked::first(ranked::ranked::<Hit>(hits), limit).map_values(
        |hit: HitView| HitView { snippet: snippet_for(entries, hit.id, query), ..hit },
    )
}

/// Put scored hits in order, cut them to a limit, and give each a line worth
/// showing.
pub fn finish(index: &Index, hits: Vec<Hit>, query: &str, limit: usize) -> (r: Vec<Hit>)
    ensures
        text::views(r@) == finished(index@, text::views(hits@), query@, limit as int),
{
    let mut all = ranked::rank(hits);
    let ghost in_order = text::views(all@);
    assert(in_order.len() == all@.len());
    if all.len() > limit {
        all.truncate(limit);
        assert(text::views(all@) =~= in_order.take(limit as int));
    }
    let ghost kept = ranked::first(in_order, limit as int);
    let ghost wanted = kept.map_values(
        |hit: HitView| HitView { snippet: snippet_for(index@, hit.id, query@), ..hit },
    );
    let mut r: Vec<Hit> = Vec::new();
    let ghost mut done: int = 0;
    assert(kept.skip(0) =~= kept);
    assert(text::views(r@) =~= wanted.take(0));
    while all.len() > 0
        invariant
            0 <= done <= kept.len(),
            text::views(all@) == kept.skip(done),
            wanted == kept.map_values(
                |hit: HitView| HitView { snippet: snippet_for(index@, hit.id, query@), ..hit },
            ),
            text::views(r@) == wanted.take(done),
        decreases all@.len(),
    {
        let ghost left = all@;
        assert(text::views(left).len() == kept.skip(done).len());
        let hit = all.remove(0);
        let snippet = find_snippet(index, &hit.id, query);
        let shown = Hit {
            id: hit.id,
            score: hit.score,
            lexical: hit.lexical,
            semantic: hit.semantic,
            similarity: hit.similarity,
            snippet,
        };
        proof {
            assert(text::views(left)[0] == kept.skip(done)[0]);
            assert(text::views(all@) =~= kept.skip(done + 1)) by {
                assert forall|k: int| 0 <= k < all@.len() implies #[trigger] text::views(all@)[k]
                    == kept.skip(done + 1)[k] by {
                    assert(text::views(left)[k + 1] == kept.skip(done)[k + 1]);
                }
            }
            assert(shown@ =~= wanted[done]);
            text::lemma_views_push(r@, shown);
            assert(wanted.take(done + 1) =~= wanted.take(done).push(wanted[done]));
            done = done + 1;
        }
        r.push(shown);
    }
    assert(wanted.take(done) =~= wanted);
    r
}

// ---- highlights ----

/// A term, ranked by how long it is.
#[derive(Debug)]
pub struct Term {
    pub term: String,
}

impl View for Term {
    type V = Seq<char>;

    open spec fn view(&self) -> Seq<char> {
        self.term@
    }
}

impl Ranked for Term {
    /// The longer first: it is the one carrying the meaning.
    open spec fn before(a: Seq<char>, b: Seq<char>) -> bool {
        a.len() > b.len()
    }

    fn goes_before(&self, other: &Self) -> (r: bool) {
        self.term.as_str().unicode_len() > other.term.as_str().unicode_len()
    }
}

/// The first of some candidates that is in a text, and where.
pub open spec fn first_found(s: Seq<char>, candidates: Seq<Seq<char>>) -> Option<(int, int)>
    decreases candidates.len(),
{
    if candidates.len() == 0 {
        None
    } else {
        match text::find_text(s, candidates[0], 0) {
            Some(at) => Some((at, at + candidates[0].len())),
            None => first_found(s, candidates.skip(1)),
        }
    }
}

/// What is looked for to underline: the whole query, then its terms, the
/// longest first.
pub open spec fn candidates(query: Seq<char>) -> Seq<Seq<char>> {
    let whole = text::lowercase(text::trim(query));
    let terms = ranked::ranked::<Term>(bm25::terms(query));
    if whole.len() > 0 {
        seq![whole] + terms
    } else {
        terms
    }
}

/// Where in a snippet to underline.
pub open spec fn highlight(snippet: Seq<char>, query: Seq<char>) -> Option<(int, int)> {
    match first_found(text::lowercase(snippet), candidates(query)) {
        Some((start, end)) => Some(range_of(snippet, start, end)),
        None => None,
    }
}

fn ranked_terms(query: &str) -> (r: Vec<Term>)
    ensures
        text::views(r@) == ranked::ranked::<Term>(bm25::terms(query@)),
{
    let words = bm25::tokenize(query);
    let ghost all = text::views(words@);
    let mut terms: Vec<Term> = Vec::new();
    let mut i: usize = 0;
    while i < words.len()
        invariant
            i <= words@.len(),
            all == text::views(words@),
            text::views(terms@) == all.take(i as int),
        decreases words@.len() - i,
    {
        let term = Term { term: words[i].clone() };
        proof {
            text::lemma_views_push(terms@, term);
            assert(all.take(i + 1) =~= all.take(i as int).push(term@));
        }
        terms.push(term);
        i = i + 1;
    }
    assert(all.take(all.len() as int) =~= all);
    ranked::rank(terms)
}

/// Where in `snippet` to underline, for a hit found by its words.
///
/// The whole query first, then its longest single term: "borrow checker"
/// underlines the phrase when a line holds it and just "checker" when the line
/// only has that. `None` when none of the words are there at all, which is
/// what a purely semantic hit looks like.
///
/// Ranges are in characters.
pub fn highlight_of(snippet: &str, query: &str) -> (r: Option<(usize, usize)>)
    ensures
        match r {
            Some((start, end)) => highlight(snippet@, query@) == Some((start as int, end as int)),
            None => highlight(snippet@, query@) is None,
        },
{
    match find_first(snippet, query) {
        Some((start, end)) => Some(find_range(&text::chars_of(snippet), start, end)),
        None => None,
    }
}

fn find_first(snippet: &str, query: &str) -> (r: Option<(usize, usize)>)
    ensures
        match r {
            Some((start, end)) => first_found(text::lowercase(snippet@), candidates(query@))
                == Some((start as int, end as int)),
            None => first_found(text::lowercase(snippet@), candidates(query@)) is None,
        },
{
    let low = text::chars_of(snippet.to_lowercase().as_str());
    let len = low.len();
    let whole = text::chars_of(text::trimmed(query).as_str().to_lowercase().as_str());
    let terms = ranked_terms(query);
    let ghost all = candidates(query@);
    let ghost rest = text::views(terms@);
    if whole.len() > 0 {
        assert(all[0] == whole@);
        assert(all.skip(1) =~= rest);
        match text::position_of_text(&low, &whole, 0) {
            Some(at) => {
                return Some((at, at + whole.len()));
            },
            None => {},
        }
    }
    assert(first_found(low@, all) == first_found(low@, rest));
    let mut i: usize = 0;
    assert(rest.skip(0) =~= rest);
    while i < terms.len()
        invariant
            i <= terms@.len(),
            len == low@.len(),
            all == candidates(query@),
            low@ == text::lowercase(snippet@),
            rest == text::views(terms@),
            first_found(low@, all) == first_found(low@, rest.skip(i as int)),
        decreases terms@.len() - i,
    {
        let term = text::chars_of(terms[i].term.as_str());
        assert(rest.skip(i as int)[0] == term@);
        assert(rest.skip(i as int).skip(1) =~= rest.skip(i + 1));
        match text::position_of_text(&low, &term, 0) {
            Some(at) => {
                return Some((at, at + term.len()));
            },
            None => {},
        }
        i = i + 1;
    }
    None
}

// ---- what holds of every search ----

proof fn lemma_find_folded(s: Seq<char>, c: char, from: int)
    requires
        0 <= from,
    ensures
        match find_folded(s, c, from) {
            Some(i) => from <= i < s.len() && text::lower_char(s[i]) == text::lower_char(c),
            None => true,
        },
    decreases s.len() - from,
{
    if from < s.len() && text::lower_char(s[from]) != text::lower_char(c) {
        lemma_find_folded(s, c, from + 1);
    }
}

proof fn lemma_progress(haystack: Seq<char>, needles: Seq<char>)
    ensures
        match progress(haystack, needles) {
            Some(p) => {
                &&& p.positions.len() == needles.len()
                &&& p.at <= haystack.len()
                &&& p.at >= needles.len()
                &&& forall|i: int|
                    0 <= i < p.positions.len() ==> 0 <= #[trigger] p.positions[i] < p.at
                        && text::lower_char(haystack[p.positions[i]]) == text::lower_char(
                        needles[i],
                    )
                &&& forall|i: int, j: int|
                    0 <= i < j < p.positions.len() ==> p.positions[i] < p.positions[j]
            },
            None => true,
        },
    decreases needles.len(),
{
    if needles.len() > 0 {
        lemma_progress(haystack, needles.drop_last());
        if let Some(before) = progress(haystack, needles.drop_last()) {
            lemma_find_folded(haystack, needles.last(), before.at);
        }
    }
}

/// The positions of a title match are places in the title, in order, and each
/// is the query's character there, whatever its case.
pub proof fn lemma_matched_positions_are_places_in_the_title(candidate: Seq<char>, query: Seq<char>)
    ensures
        match score(candidate, query) {
            Some((_, positions)) => {
                &&& positions.len() == lowered(query).len()
                &&& forall|i: int|
                    0 <= i < positions.len() ==> 0 <= #[trigger] positions[i] < candidate.len()
                        && text::lower_char(candidate[positions[i]]) == text::lower_char(
                        lowered(query)[i],
                    )
                &&& forall|i: int, j: int|
                    0 <= i < j < positions.len() ==> positions[i] < positions[j]
            },
            None => true,
        },
{
    lemma_progress(candidate, lowered(query));
}

proof fn lemma_title_order()
    ensures
        ranked::is_order::<TitleMatch>(),
{
    assert forall|a: TitleMatchView| !#[trigger] TitleMatch::before(a, a) by {
        ordered::lemma_precedes_irreflexive(a.id);
    }
    assert forall|a: TitleMatchView, b: TitleMatchView, c: TitleMatchView|
        #![trigger TitleMatch::before(a, b), TitleMatch::before(b, c)]
        TitleMatch::before(a, b) && TitleMatch::before(b, c) implies TitleMatch::before(a, c) by {
        if a.score == b.score && b.score == c.score {
            ordered::lemma_precedes_transitive(a.id, b.id, c.id);
        }
    }
    assert forall|a: TitleMatchView, b: TitleMatchView, c: TitleMatchView|
        #![trigger TitleMatch::before(a, b), TitleMatch::before(b, c)]
        !TitleMatch::before(a, b) && !TitleMatch::before(b, c) implies !TitleMatch::before(
        a,
        c,
    ) by {
        ordered::lemma_not_precedes_transitive(a.id, b.id, c.id);
    }
}

/// What a search by title gives is in order and no more than was asked for.
pub proof fn lemma_title_results_are_in_order(ids: Seq<Seq<char>>, query: Seq<char>, limit: int)
    requires
        0 <= limit,
    ensures
        ({
            let r = ranked::first(
                ranked::ranked::<TitleMatch>(title_matches(ids, query)),
                limit,
            );
            r.len() <= limit && ranked::in_order::<TitleMatch>(r)
        }),
{
    lemma_title_order();
    let all = ranked::ranked::<TitleMatch>(title_matches(ids, query));
    ranked::lemma_ranked_in_order::<TitleMatch>(title_matches(ids, query));
    let r = ranked::first(all, limit);
    assert forall|i: int, j: int| 0 <= i < j < r.len() implies !TitleMatch::before(
        #[trigger] r[j],
        #[trigger] r[i],
    ) by {
        assert(r[i] == all[i] && r[j] == all[j]);
    }
}

/// Whether some characters stand in a text in order, whatever their case, each
/// at the place given for it.
pub open spec fn spells(haystack: Seq<char>, needles: Seq<char>, at: Seq<int>) -> bool {
    &&& at.len() == needles.len()
    &&& forall|i: int|
        0 <= i < at.len() ==> 0 <= #[trigger] at[i] < haystack.len() && text::lower_char(
            haystack[at[i]],
        ) == text::lower_char(needles[i])
    &&& forall|i: int, j: int| 0 <= i < j < at.len() ==> at[i] < at[j]
}

proof fn lemma_find_folded_is_first(s: Seq<char>, c: char, from: int, at: int)
    requires
        0 <= from <= at < s.len(),
        text::lower_char(s[at]) == text::lower_char(c),
    ensures
        find_folded(s, c, from) is Some,
        find_folded(s, c, from)->0 <= at,
    decreases s.len() - from,
{
    if text::lower_char(s[from]) != text::lower_char(c) {
        lemma_find_folded_is_first(s, c, from + 1, at);
    }
}

proof fn lemma_progress_is_found(haystack: Seq<char>, needles: Seq<char>, at: Seq<int>)
    requires
        spells(haystack, needles, at),
    ensures
        progress(haystack, needles) is Some,
        at.len() > 0 ==> progress(haystack, needles)->0.at <= at.last() + 1,
        at.len() == 0 ==> progress(haystack, needles)->0.at == 0,
    decreases needles.len(),
{
    if needles.len() > 0 {
        let fewer = at.drop_last();
        let rest = needles.drop_last();
        assert forall|i: int| 0 <= i < fewer.len() implies 0 <= #[trigger] fewer[i]
            < haystack.len() && text::lower_char(haystack[fewer[i]]) == text::lower_char(
            rest[i],
        ) by {
            assert(fewer[i] == at[i]);
        }
        lemma_progress_is_found(haystack, rest, fewer);
        lemma_progress(haystack, rest);
        let before = progress(haystack, rest)->0;
        let last = at[at.len() - 1];
        if fewer.len() > 0 {
            assert(fewer.last() == at[at.len() - 2]);
        }
        lemma_find_folded_is_first(haystack, needles.last(), before.at, last);
    }
}

proof fn lemma_spelled_in_the_title(id: Seq<char>, needles: Seq<char>, at: Seq<int>) -> (r: Seq<
    int,
>)
    requires
        spells(note::title(id), needles, at),
    ensures
        spells(id, needles, r),
{
    text::lemma_find_last(id, '/');
    let from: int = match text::find_last(id, '/') {
        Some(i) => i + 1,
        None => 0,
    };
    let t = note::title(id);
    assert(forall|k: int| 0 <= k < t.len() ==> #[trigger] t[k] == id[from + k]);
    let r = at.map_values(|k: int| from + k);
    assert forall|i: int| 0 <= i < r.len() implies 0 <= #[trigger] r[i] < id.len()
        && text::lower_char(id[r[i]]) == text::lower_char(needles[i]) by {
        assert(r[i] == from + at[i]);
        assert(t[at[i]] == id[from + at[i]]);
    }
    assert forall|i: int, j: int| 0 <= i < j < r.len() implies r[i] < r[j] by {
        assert(at[i] < at[j]);
    }
    r
}

/// A note is found by title exactly if the query's characters stand in its
/// path in order, whatever their case. The positions are where they stand in
/// the title if they do stand there, and none if not.
pub proof fn lemma_when_a_title_is_found(id: Seq<char>, query: Seq<char>)
    requires
        query.len() > 0,
    ensures
        title_match(id, query) is Some == exists|at: Seq<int>| #[trigger]
            spells(id, lowered(query), at),
        match title_match(id, query) {
            Some(m) => {
                &&& m.id == id
                &&& if exists|at: Seq<int>| #[trigger] spells(note::title(id), lowered(query), at) {
                    spells(note::title(id), lowered(query), m.positions)
                } else {
                    m.positions == Seq::<int>::empty()
                }
            },
            None => true,
        },
        text::all_ascii(query) ==> lowered(query) == text::lowercase(query),
{
    let needles = lowered(query);
    let title = note::title(id);
    lemma_progress(title, needles);
    lemma_progress(id, needles);
    if exists|at: Seq<int>| #[trigger] spells(title, needles, at) {
        let at = choose|at: Seq<int>| #[trigger] spells(title, needles, at);
        lemma_progress_is_found(title, needles, at);
    }
    if exists|at: Seq<int>| #[trigger] spells(id, needles, at) {
        let at = choose|at: Seq<int>| #[trigger] spells(id, needles, at);
        lemma_progress_is_found(id, needles, at);
    }
    if let Some(p) = progress(title, needles) {
        assert(spells(title, needles, p.positions));
        let at = lemma_spelled_in_the_title(id, needles, p.positions);
        assert(spells(id, needles, at));
    } else if let Some(p) = progress(id, needles) {
        assert(spells(id, needles, p.positions));
    }
    if text::all_ascii(query) {
        lemma_lowered_ascii(query);
    }
}

proof fn lemma_lowered_ascii(s: Seq<char>)
    requires
        text::all_ascii(s),
    ensures
        lowered(s) == text::lowercase(s),
    decreases s.len(),
{
    if s.len() > 0 {
        let rest = s.drop_last();
        assert forall|i: int| 0 <= i < rest.len() implies text::is_ascii(#[trigger] rest[i]) by {
            assert(rest[i] == s[i]);
        }
        lemma_lowered_ascii(rest);
        assert(text::is_ascii(s[s.len() - 1]));
    }
    assert(lowered(s) =~= text::lowercase(s));
}

proof fn lemma_title_matches(ids: Seq<Seq<char>>, query: Seq<char>)
    ensures
        title_matches(ids, query).len() <= ids.len(),
        forall|i: int|
            0 <= i < title_matches(ids, query).len() ==> {
                let m = #[trigger] title_matches(ids, query)[i];
                ids.contains(m.id) && title_match(m.id, query) == Some(m)
            },
        forall|id: Seq<char>| #[trigger]
            ids.contains(id) && title_match(id, query) is Some ==> title_matches(
                ids,
                query,
            ).contains(title_match(id, query)->0),
        ids.no_duplicates() ==> forall|i: int, j: int|
            0 <= i < j < title_matches(ids, query).len() ==> (#[trigger] title_matches(
                ids,
                query,
            )[i]).id != (#[trigger] title_matches(ids, query)[j]).id,
    decreases ids.len(),
{
    if ids.len() > 0 {
        let rest = ids.drop_last();
        lemma_title_matches(rest, query);
        let before = title_matches(rest, query);
        let all = title_matches(ids, query);
        assert forall|i: int| 0 <= i < all.len() implies {
            let m = #[trigger] all[i];
            ids.contains(m.id) && title_match(m.id, query) == Some(m)
        } by {
            if i < before.len() {
                assert(all[i] == before[i]);
                let k = choose|k: int| 0 <= k < rest.len() && rest[k] == before[i].id;
                assert(ids[k] == all[i].id);
            } else {
                assert(ids[ids.len() - 1] == all[i].id);
            }
        }
        assert forall|id: Seq<char>| #[trigger]
            ids.contains(id) && title_match(id, query) is Some implies all.contains(
            title_match(id, query)->0,
        ) by {
            let m = title_match(id, query)->0;
            if id == ids.last() {
                assert(all[all.len() - 1] == m);
            } else {
                let k = choose|k: int| 0 <= k < ids.len() && ids[k] == id;
                assert(rest[k] == id);
                assert(rest.contains(id));
                let n = choose|n: int| 0 <= n < before.len() && before[n] == m;
                assert(all[n] == m);
            }
        }
        if ids.no_duplicates() {
            assert(rest.no_duplicates());
            assert forall|i: int, j: int| 0 <= i < j < all.len() implies (#[trigger] all[i]).id
                != (#[trigger] all[j]).id by {
                assert(all[i] == before[i]);
                if j < before.len() {
                    assert(all[j] == before[j]);
                } else {
                    let k = choose|k: int| 0 <= k < rest.len() && rest[k] == before[i].id;
                    assert(ids[k] == all[i].id);
                    assert(ids[ids.len() - 1] == all[j].id);
                }
            }
        }
    }
}

/// What a search by title gives: different notes of the index, each as the
/// query matches it, the higher score first and ties by id, no more than asked
/// for, and every note that matches if there is room for all notes.
pub proof fn lemma_title_results(
    entries: Map<Seq<char>, index::EntryView>,
    query: Seq<char>,
    limit: int,
)
    requires
        entries.dom().finite(),
        0 <= limit,
    ensures
        ({
            let wanted = text::trim(query);
            let r = title_results(entries, query, limit);
            &&& r.len() <= limit
            &&& forall|i: int, j: int|
                0 <= i < j < r.len() ==> (#[trigger] r[i]).id != (#[trigger] r[j]).id
            &&& forall|i: int|
                0 <= i < r.len() ==> entries.contains_key((#[trigger] r[i]).id) && title_match(
                    r[i].id,
                    wanted,
                ) == Some(r[i])
            &&& ranked::in_order::<TitleMatch>(r)
            &&& limit >= entries.dom().len() ==> forall|id: Seq<char>| #[trigger]
                entries.contains_key(id) && title_match(id, wanted) is Some ==> r.contains(
                    title_match(id, wanted)->0,
                )
        }),
{
    let wanted = text::trim(query);
    let ids = ordered::ascending(entries.dom());
    ordered::lemma_ascending_apart(entries.dom());
    let s = title_matches(ids, wanted);
    let all = ranked::ranked::<TitleMatch>(s);
    let r = title_results(entries, query, limit);
    lemma_title_matches(ids, wanted);
    lemma_title_results_are_in_order(ids, wanted, limit);
    ranked::lemma_ranked_multiset::<TitleMatch>(s);
    let key = |m: TitleMatchView| m.id;
    assert forall|i: int, j: int| 0 <= i < j < s.len() implies key(#[trigger] s[i]) != key(
        #[trigger] s[j],
    ) by {
        assert(s[i].id != s[j].id);
    }
    ranked::lemma_ranked_apart::<TitleMatch, Seq<char>>(s, key);
    assert forall|i: int, j: int| 0 <= i < j < r.len() implies (#[trigger] r[i]).id != (
    #[trigger] r[j]).id by {
        assert(r[i] == all[i] && r[j] == all[j]);
        assert(key(all[i]) != key(all[j]));
    }
    assert forall|i: int| 0 <= i < r.len() implies entries.contains_key((#[trigger] r[i]).id)
        && title_match(r[i].id, wanted) == Some(r[i]) by {
        assert(r[i] == all[i]);
        assert(all.contains(all[i]));
        ranked::lemma_ranked_contains::<TitleMatch>(s, all[i]);
        let k = choose|k: int| 0 <= k < s.len() && s[k] == all[i];
        assert(ids.contains(s[k].id));
    }
    if limit >= entries.dom().len() {
        assert forall|id: Seq<char>| #[trigger]
            entries.contains_key(id) && title_match(id, wanted) is Some implies r.contains(
            title_match(id, wanted)->0,
        ) by {
            let m = title_match(id, wanted)->0;
            assert(ids.contains(id));
            assert(s.contains(m));
            ranked::lemma_ranked_contains::<TitleMatch>(s, m);
            let k = choose|k: int| 0 <= k < all.len() && all[k] == m;
            assert(r[k] == m);
        }
    }
}

/// Asking a search by title for fewer notes gives the first of those it gives
/// when asked for more.
pub proof fn lemma_fewer_title_results_are_the_first(
    entries: Map<Seq<char>, index::EntryView>,
    query: Seq<char>,
    fewer: int,
    more: int,
)
    requires
        0 <= fewer <= more,
    ensures
        title_results(entries, query, fewer) == ranked::first(
            title_results(entries, query, more),
            fewer,
        ),
{
    assert(title_results(entries, query, fewer) =~= ranked::first(
        title_results(entries, query, more),
        fewer,
    ));
}

proof fn lemma_alias_score(aliases: Seq<Seq<char>>, query: Seq<char>)
    ensures
        alias_score(aliases, query) is Some == exists|i: int|
            0 <= i < aliases.len() && score(#[trigger] aliases[i], query) is Some,
    decreases aliases.len(),
{
    if aliases.len() > 0 {
        let rest = aliases.drop_last();
        lemma_alias_score(rest, query);
        if alias_score(rest, query) is Some {
            let i = choose|i: int| 0 <= i < rest.len() && score(#[trigger] rest[i], query) is Some;
            assert(score(aliases[i], query) is Some);
        }
        if score(aliases.last(), query) is Some {
            assert(score(aliases[aliases.len() - 1], query) is Some);
        }
        if exists|i: int| 0 <= i < aliases.len() && score(#[trigger] aliases[i], query) is Some {
            let i = choose|i: int|
                0 <= i < aliases.len() && score(#[trigger] aliases[i], query) is Some;
            if i < rest.len() {
                assert(score(rest[i], query) is Some);
            }
        }
    }
}

/// A note is found by a name exactly if its title, one of its aliases or its
/// path matches; and one found by its title is found as a search by title
/// finds it.
pub proof fn lemma_an_alias_finds_its_note(
    id: Seq<char>,
    aliases: Seq<Seq<char>>,
    query: Seq<char>,
)
    requires
        query.len() > 0,
    ensures
        name_match(id, aliases, query) is Some == (score(note::title(id), query) is Some || score(
            id,
            query,
        ) is Some || exists|i: int|
            0 <= i < aliases.len() && score(#[trigger] aliases[i], query) is Some),
        score(note::title(id), query) is Some ==> name_match(id, aliases, query) == title_match(
            id,
            query,
        ),
{
    lemma_alias_score(aliases, query);
}

proof fn lemma_empty_title_matches(ids: Seq<Seq<char>>)
    ensures
        title_matches(ids, seq![]) == ids.map_values(
            |id: Seq<char>| TitleMatchView { id, score: 0, positions: seq![] },
        ),
    decreases ids.len(),
{
    let wanted = ids.map_values(
        |id: Seq<char>| TitleMatchView { id, score: 0, positions: seq![] },
    );
    if ids.len() > 0 {
        lemma_empty_title_matches(ids.drop_last());
        assert(title_matches(ids, seq![]) =~= wanted);
    } else {
        assert(title_matches(ids, seq![]) =~= wanted);
    }
}

/// An empty query lists every note in the order of the ids.
pub proof fn lemma_an_empty_query_lists_everything(entries: Map<Seq<char>, index::EntryView>)
    requires
        entries.dom().finite(),
    ensures
        ({
            let ids = ordered::ascending(entries.dom());
            let r = ranked::ranked::<TitleMatch>(title_matches(ids, seq![]));
            r.len() == ids.len() && forall|i: int|
                0 <= i < ids.len() ==> (#[trigger] r[i]).id == ids[i]
        }),
{
    let ids = ordered::ascending(entries.dom());
    ordered::lemma_ascending(entries.dom());
    lemma_empty_title_matches(ids);
    let all = title_matches(ids, seq![]);
    assert forall|i: int, j: int| 0 <= i < j < all.len() implies !TitleMatch::before(
        #[trigger] all[j],
        #[trigger] all[i],
    ) by {
        assert(ordered::precedes(ids[i], ids[j]));
        if ordered::precedes(ids[j], ids[i]) {
            ordered::lemma_precedes_transitive(ids[i], ids[j], ids[i]);
            ordered::lemma_precedes_irreflexive(ids[i]);
        }
    }
    ranked::lemma_ranked_stays::<TitleMatch>(all);
}

proof fn lemma_text_order()
    ensures
        ranked::is_order::<Titled>(),
{
    assert forall|a: (bool, TextMatchView)| !#[trigger] Titled::before(a, a) by {
        ordered::lemma_precedes_irreflexive(a.1.id);
    }
    assert forall|a: (bool, TextMatchView), b: (bool, TextMatchView), c: (bool, TextMatchView)|
        #![trigger Titled::before(a, b), Titled::before(b, c)]
        Titled::before(a, b) && Titled::before(b, c) implies Titled::before(a, c) by {
        if ordered::precedes(a.1.id, b.1.id) && ordered::precedes(b.1.id, c.1.id) {
            ordered::lemma_precedes_transitive(a.1.id, b.1.id, c.1.id);
        }
    }
    assert forall|a: (bool, TextMatchView), b: (bool, TextMatchView), c: (bool, TextMatchView)|
        #![trigger Titled::before(a, b), Titled::before(b, c)]
        !Titled::before(a, b) && !Titled::before(b, c) implies !Titled::before(a, c) by {
        ordered::lemma_not_precedes_transitive(a.1.id, b.1.id, c.1.id);
    }
}

/// A note that is called what the query asks for is listed before every note
/// that only mentions it, however often it does.
pub proof fn lemma_a_title_outranks_a_mention(
    entries: Map<Seq<char>, index::EntryView>,
    query: Seq<char>,
    i: int,
    j: int,
)
    requires
        ({
            let all = ranked::ranked::<Titled>(
                text_matches(entries, ordered::ascending(entries.dom()), query),
            );
            0 <= i < all.len() && 0 <= j < all.len() && all[i].0 && !all[j].0
        }),
    ensures
        i < j,
{
    lemma_text_order();
    let s = text_matches(entries, ordered::ascending(entries.dom()), query);
    ranked::lemma_ranked_in_order::<Titled>(s);
    let all = ranked::ranked::<Titled>(s);
    if j < i {
        assert(!Titled::before(all[i], all[j]));
    }
}

/// Every place that is counted is one where the query stands, and no two of
/// them overlap.
pub proof fn lemma_every_hit_is_one(s: Seq<char>, needle: Seq<char>, from: int)
    requires
        needle.len() > 0,
        0 <= from,
    ensures
        forall|i: int|
            0 <= i < places(s, needle, from).len() ==> text::stands_at(
                s,
                needle,
                #[trigger] places(s, needle, from)[i],
            ) && places(s, needle, from)[i] >= from,
        forall|i: int, j: int|
            0 <= i < j < places(s, needle, from).len() ==> places(s, needle, from)[i]
                + needle.len() <= places(s, needle, from)[j],
    decreases s.len() + 1 - from,
{
    text::lemma_find_text(s, needle, from);
    if let Some(at) = text::find_text(s, needle, from) {
        let rest = places(s, needle, at + needle.len());
        lemma_every_hit_is_one(s, needle, at + needle.len());
        let all = places(s, needle, from);
        assert(all =~= seq![at] + rest);
        assert forall|i: int| 0 <= i < all.len() implies text::stands_at(
            s,
            needle,
            #[trigger] all[i],
        ) && all[i] >= from by {
            if i > 0 {
                assert(all[i] == rest[i - 1]);
            }
        }
        assert forall|i: int, j: int| 0 <= i < j < all.len() implies all[i] + needle.len()
            <= all[j] by {
            assert(all[j] == rest[j - 1]);
            if i > 0 {
                assert(all[i] == rest[i - 1]);
            }
        }
    }
}

proof fn lemma_text_matches(
    entries: Map<Seq<char>, index::EntryView>,
    ids: Seq<Seq<char>>,
    query: Seq<char>,
)
    ensures
        forall|i: int|
            0 <= i < text_matches(entries, ids, query).len() ==> {
                let m = #[trigger] text_matches(entries, ids, query)[i];
                &&& ids.contains(m.1.id)
                &&& m == (
                    is_titled(m.1.id, query),
                    text_match(m.1.id, entries[m.1.id].text, query),
                )
                &&& m.1.hits > 0
            },
        forall|id: Seq<char>| #[trigger]
            ids.contains(id) && text_match(id, entries[id].text, query).hits > 0 ==> text_matches(
                entries,
                ids,
                query,
            ).contains((is_titled(id, query), text_match(id, entries[id].text, query))),
    decreases ids.len(),
{
    if ids.len() > 0 {
        let rest = ids.drop_last();
        lemma_text_matches(entries, rest, query);
        let before = text_matches(entries, rest, query);
        let all = text_matches(entries, ids, query);
        assert forall|i: int| 0 <= i < all.len() implies {
            let m = #[trigger] all[i];
            &&& ids.contains(m.1.id)
            &&& m == (is_titled(m.1.id, query), text_match(m.1.id, entries[m.1.id].text, query))
            &&& m.1.hits > 0
        } by {
            if i < before.len() {
                assert(all[i] == before[i]);
                let k = choose|k: int| 0 <= k < rest.len() && rest[k] == before[i].1.id;
                assert(ids[k] == all[i].1.id);
            } else {
                assert(ids[ids.len() - 1] == all[i].1.id);
            }
        }
        assert forall|id: Seq<char>| #[trigger]
            ids.contains(id) && text_match(id, entries[id].text, query).hits > 0 implies all.contains(
        (is_titled(id, query), text_match(id, entries[id].text, query))) by {
            let m = (is_titled(id, query), text_match(id, entries[id].text, query));
            if id == ids.last() {
                assert(all[all.len() - 1] == m);
            } else {
                let k = choose|k: int| 0 <= k < ids.len() && ids[k] == id;
                assert(rest[k] == id);
                assert(rest.contains(id));
                let n = choose|n: int| 0 <= n < before.len() && before[n] == m;
                assert(all[n] == m);
            }
        }
    }
}

proof fn lemma_text_matches_apart(
    entries: Map<Seq<char>, index::EntryView>,
    ids: Seq<Seq<char>>,
    query: Seq<char>,
)
    requires
        ids.no_duplicates(),
    ensures
        forall|i: int, j: int|
            0 <= i < j < text_matches(entries, ids, query).len() ==> (#[trigger] text_matches(
                entries,
                ids,
                query,
            )[i]).1.id != (#[trigger] text_matches(entries, ids, query)[j]).1.id,
    decreases ids.len(),
{
    if ids.len() > 0 {
        let rest = ids.drop_last();
        lemma_text_matches_apart(entries, rest, query);
        lemma_text_matches(entries, rest, query);
        let before = text_matches(entries, rest, query);
        let all = text_matches(entries, ids, query);
        assert forall|i: int, j: int| 0 <= i < j < all.len() implies (#[trigger] all[i]).1.id != (
        #[trigger] all[j]).1.id by {
            assert(all[i] == before[i]);
            if j < before.len() {
                assert(all[j] == before[j]);
            } else {
                let k = choose|k: int| 0 <= k < rest.len() && rest[k] == before[i].1.id;
                assert(ids[k] == all[i].1.id);
                assert(ids[ids.len() - 1] == all[j].1.id);
            }
        }
    }
}

/// What a search of all texts gives: different notes of the index, each with at
/// least one hit and with the first few of its snippets, those that are called
/// what was asked for first, then those with more hits, then by id; no more
/// than asked for, and every note with a hit if there is room for all notes.
pub proof fn lemma_text_results(
    entries: Map<Seq<char>, index::EntryView>,
    query: Seq<char>,
    limit: int,
)
    requires
        entries.dom().finite(),
        0 <= limit,
    ensures
        ({
            let wanted = text::lowercase(text::trim(query));
            let r = text_results(entries, query, limit);
            &&& r.len() <= limit
            &&& forall|i: int, j: int|
                0 <= i < j < r.len() ==> (#[trigger] r[i]).id != (#[trigger] r[j]).id
            &&& forall|i: int|
                0 <= i < r.len() ==> {
                    let m = #[trigger] r[i];
                    &&& entries.contains_key(m.id)
                    &&& m == text_match(m.id, entries[m.id].text, wanted)
                    &&& m.hits >= 1
                    &&& m.snippets.len() == if m.hits < 3 {
                        m.hits as int
                    } else {
                        3int
                    }
                }
            &&& forall|i: int, j: int|
                0 <= i < j < r.len() ==> !Titled::before(
                    (is_titled(r[j].id, wanted), #[trigger] r[j]),
                    (is_titled(r[i].id, wanted), #[trigger] r[i]),
                )
            &&& wanted.len() > 0 && limit >= entries.dom().len() ==> forall|id: Seq<char>|
                #[trigger] entries.contains_key(id) && text_match(
                    id,
                    entries[id].text,
                    wanted,
                ).hits > 0 ==> r.contains(text_match(id, entries[id].text, wanted))
        }),
{
    let wanted = text::lowercase(text::trim(query));
    let r = text_results(entries, query, limit);
    if wanted.len() > 0 {
        let ids = ordered::ascending(entries.dom());
        ordered::lemma_ascending_apart(entries.dom());
        let s = text_matches(entries, ids, wanted);
        let all = ranked::ranked::<Titled>(s);
        lemma_text_matches(entries, ids, wanted);
        lemma_text_matches_apart(entries, ids, wanted);
        lemma_text_order();
        ranked::lemma_ranked_in_order::<Titled>(s);
        ranked::lemma_ranked_multiset::<Titled>(s);
        let key = |m: (bool, TextMatchView)| m.1.id;
        assert forall|i: int, j: int| 0 <= i < j < s.len() implies key(#[trigger] s[i]) != key(
            #[trigger] s[j],
        ) by {
            assert(s[i].1.id != s[j].1.id);
        }
        ranked::lemma_ranked_apart::<Titled, Seq<char>>(s, key);
        assert forall|i: int| 0 <= i < r.len() implies {
            let m = #[trigger] r[i];
            &&& all[i] == (is_titled(m.id, wanted), m)
            &&& entries.contains_key(m.id)
            &&& m == text_match(m.id, entries[m.id].text, wanted)
            &&& m.hits >= 1
            &&& m.snippets.len() == if m.hits < 3 {
                m.hits as int
            } else {
                3int
            }
        } by {
            assert(r[i] == all[i].1);
            assert(all.contains(all[i]));
            ranked::lemma_ranked_contains::<Titled>(s, all[i]);
            let k = choose|k: int| 0 <= k < s.len() && s[k] == all[i];
            assert(ids.contains(s[k].1.id));
        }
        assert forall|i: int, j: int| 0 <= i < j < r.len() implies (#[trigger] r[i]).id != (
        #[trigger] r[j]).id by {
            assert(r[i] == all[i].1 && r[j] == all[j].1);
            assert(key(all[i]) != key(all[j]));
        }
        assert forall|i: int, j: int| 0 <= i < j < r.len() implies !Titled::before(
            (is_titled(r[j].id, wanted), #[trigger] r[j]),
            (is_titled(r[i].id, wanted), #[trigger] r[i]),
        ) by {
            assert(!Titled::before(all[j], all[i]));
        }
        if limit >= entries.dom().len() {
            lemma_text_matches_fewer(entries, ids, wanted);
            assert forall|id: Seq<char>| #[trigger]
                entries.contains_key(id) && text_match(id, entries[id].text, wanted).hits
                    > 0 implies r.contains(text_match(id, entries[id].text, wanted)) by {
                let m = (is_titled(id, wanted), text_match(id, entries[id].text, wanted));
                assert(ids.contains(id));
                assert(s.contains(m));
                ranked::lemma_ranked_contains::<Titled>(s, m);
                let k = choose|k: int| 0 <= k < all.len() && all[k] == m;
                assert(r[k] == m.1);
            }
        }
    }
}

proof fn lemma_text_matches_fewer(
    entries: Map<Seq<char>, index::EntryView>,
    ids: Seq<Seq<char>>,
    query: Seq<char>,
)
    ensures
        text_matches(entries, ids, query).len() <= ids.len(),
    decreases ids.len(),
{
    if ids.len() > 0 {
        lemma_text_matches_fewer(entries, ids.drop_last(), query);
    }
}

/// Asking a search of all texts for fewer notes gives the first of those it
/// gives when asked for more.
pub proof fn lemma_fewer_text_results_are_the_first(
    entries: Map<Seq<char>, index::EntryView>,
    query: Seq<char>,
    fewer: int,
    more: int,
)
    requires
        0 <= fewer <= more,
    ensures
        text_results(entries, query, fewer) == ranked::first(
            text_results(entries, query, more),
            fewer,
        ),
{
    assert(text_results(entries, query, fewer) =~= ranked::first(
        text_results(entries, query, more),
        fewer,
    ));
}

/// An ASCII query finds the same with space around it and in any case.
pub proof fn lemma_case_and_space_do_not_matter(
    entries: Map<Seq<char>, index::EntryView>,
    query: Seq<char>,
    limit: int,
)
    requires
        text::all_ascii(query),
    ensures
        text_results(entries, text::lowercase(text::trim(query)), limit) == text_results(
            entries,
            query,
            limit,
        ),
{
    text::lemma_trim_ascii(query);
    text::lemma_lowercase_trimmed(query);
    text::lemma_lowercase_again(text::trim(query));
}

/// Fusion adds, it does not intersect: a note is found if and only if either
/// ranking names it.
pub proof fn lemma_fusion_adds(
    keyword: Seq<(Seq<char>, u32)>,
    vectors: Seq<(Seq<char>, u32)>,
    id: Seq<char>,
)
    ensures
        (exists|i: int|
            0 <= i < fused(keyword, vectors).len() && (#[trigger] fused(keyword, vectors)[i]).id
                == id) == (rank_of(keyword, id) is Some || rank_of(vectors, id) is Some),
{
    let set = named(keyword).union(named(vectors));
    lemma_named_finite(keyword);
    lemma_named_finite(vectors);
    ordered::lemma_ascending(set);
    let order = ordered::ascending(set);
    let all = fused(keyword, vectors);
    if rank_of(keyword, id) is Some || rank_of(vectors, id) is Some {
        assert(set.contains(id));
        assert(order.to_set().contains(id));
        let k = choose|k: int| 0 <= k < order.len() && order[k] == id;
        assert(all[k].id == id);
    }
    if exists|i: int| 0 <= i < all.len() && (#[trigger] all[i]).id == id {
        let i = choose|i: int| 0 <= i < all.len() && (#[trigger] all[i]).id == id;
        assert(order[i] == id);
        assert(order.to_set().contains(order[i]));
        assert(set.contains(id));
    }
}

proof fn lemma_named_finite(ranking: Seq<(Seq<char>, u32)>)
    ensures
        named(ranking).finite(),
    decreases ranking.len(),
{
    if ranking.len() == 0 {
        assert(named(ranking) =~= Set::empty());
    } else {
        let rest = ranking.drop_last();
        lemma_named_finite(rest);
        assert(named(ranking) =~= named(rest).insert(ranking.last().0));
    }
}

proof fn lemma_rank_of(ranking: Seq<(Seq<char>, u32)>, id: Seq<char>)
    ensures
        match rank_of(ranking, id) {
            Some(r) => 0 <= r < ranking.len() && ranking[r].0 == id,
            None => forall|i: int| 0 <= i < ranking.len() ==> (#[trigger] ranking[i]).0 != id,
        },
    decreases ranking.len(),
{
    if ranking.len() > 0 {
        let rest = ranking.drop_last();
        lemma_rank_of(rest, id);
        if rank_of(ranking, id) is None {
            assert forall|i: int| 0 <= i < ranking.len() implies (#[trigger] ranking[i]).0
                != id by {
                if i < rest.len() {
                    assert(rest[i] == ranking[i]);
                }
            }
        }
    }
}

proof fn lemma_named_len(ranking: Seq<(Seq<char>, u32)>)
    requires
        ranked::names_each_once(ranking),
    ensures
        named(ranking).finite(),
        named(ranking).len() == ranking.len(),
    decreases ranking.len(),
{
    lemma_named_finite(ranking);
    if ranking.len() == 0 {
        assert(named(ranking) =~= Set::empty());
    } else {
        let rest = ranking.drop_last();
        assert forall|i: int, j: int| 0 <= i < j < rest.len() implies (#[trigger] rest[i]).0 != (
        #[trigger] rest[j]).0 by {
            assert(rest[i] == ranking[i] && rest[j] == ranking[j]);
        }
        lemma_named_len(rest);
        assert(named(ranking) =~= named(rest).insert(ranking.last().0));
        lemma_rank_of(rest, ranking.last().0);
        if let Some(r) = rank_of(rest, ranking.last().0) {
            assert(rest[r] == ranking[r]);
            assert(ranking[ranking.len() - 1] == ranking.last());
        }
    }
}

/// Without a semantic ranking every hit is one of the lexical ranking, with its
/// place there, and with neither a semantic place nor a similarity; and there
/// is one for each note that the lexical ranking names.
pub proof fn lemma_without_vectors_the_hits_are_lexical(keyword: Seq<(Seq<char>, u32)>)
    requires
        ranked::names_each_once(keyword),
        keyword.len() <= usize::MAX,
    ensures
        fused(keyword, seq![]).len() == keyword.len(),
        forall|i: int|
            0 <= i < fused(keyword, seq![]).len() ==> {
                let hit = #[trigger] fused(keyword, seq![])[i];
                &&& hit.lexical is Some
                &&& hit.lexical->0 < keyword.len()
                &&& keyword[hit.lexical->0 as int].0 == hit.id
                &&& hit.semantic is None
                &&& hit.similarity is None
            },
        forall|i: int, j: int|
            0 <= i < j < fused(keyword, seq![]).len() ==> (#[trigger] fused(
                keyword,
                seq![],
            )[i]).lexical != (#[trigger] fused(keyword, seq![])[j]).lexical,
{
    let none = Seq::<(Seq<char>, u32)>::empty();
    let set = named(keyword).union(named(none));
    assert(set =~= named(keyword));
    lemma_named_len(keyword);
    ordered::lemma_ascending_apart(set);
    let order = ordered::ascending(set);
    let all = fused(keyword, none);
    assert forall|i: int| 0 <= i < all.len() implies {
        let hit = #[trigger] all[i];
        &&& hit.id == order[i]
        &&& hit.lexical is Some
        &&& hit.lexical->0 < keyword.len()
        &&& keyword[hit.lexical->0 as int].0 == hit.id
        &&& hit.semantic is None
        &&& hit.similarity is None
    } by {
        assert(order.contains(order[i]));
        assert(set.contains(order[i]));
        lemma_rank_of(keyword, order[i]);
    }
    assert forall|i: int, j: int| 0 <= i < j < all.len() implies (#[trigger] all[i]).lexical != (
    #[trigger] all[j]).lexical by {
        assert(order[i] != order[j]);
    }
}

/// Without a semantic ranking the answer is the lexical one: where an earlier
/// place is worth more than a later one, the hits come out in the order of the
/// lexical ranking, each with its place there.
pub proof fn lemma_without_vectors_the_order_is_lexical(
    entries: Map<Seq<char>, index::EntryView>,
    keyword: Seq<(Seq<char>, u32)>,
    hits: Seq<HitView>,
    query: Seq<char>,
    limit: int,
)
    requires
        ranked::names_each_once(keyword),
        keyword.len() <= usize::MAX,
        0 <= limit,
        hits.len() == fused(keyword, seq![]).len(),
        forall|i: int|
            0 <= i < hits.len() ==> #[trigger] hits[i] == (HitView {
                score: hits[i].score,
                ..fused(keyword, seq![])[i]
            }),
        forall|i: int, j: int|
            0 <= i < hits.len() && 0 <= j < hits.len() && (#[trigger] hits[i]).lexical->0 < (
            #[trigger] hits[j]).lexical->0 ==> hits[i].score > hits[j].score,
    ensures
        ({
            let r = finished(entries, hits, query, limit);
            &&& r.len() == if keyword.len() <= limit {
                keyword.len() as int
            } else {
                limit
            }
            &&& forall|i: int|
                0 <= i < r.len() ==> {
                    let hit = #[trigger] r[i];
                    &&& hit.id == keyword[i].0
                    &&& hit.lexical == Some(i as usize)
                    &&& hit.semantic is None
                    &&& hit.similarity is None
                }
        }),
{
    lemma_without_vectors_the_hits_are_lexical(keyword);
    lemma_hit_order();
    let raw = fused(keyword, seq![]);
    let all = ranked::ranked::<Hit>(hits);
    ranked::lemma_ranked_in_order::<Hit>(hits);
    ranked::lemma_ranked_multiset::<Hit>(hits);
    let key = |h: HitView| h.lexical;
    assert forall|i: int, j: int| 0 <= i < j < hits.len() implies key(#[trigger] hits[i]) != key(
        #[trigger] hits[j],
    ) by {
        assert(hits[i].lexical == raw[i].lexical);
        assert(hits[j].lexical == raw[j].lexical);
    }
    ranked::lemma_ranked_apart::<Hit, Option<usize>>(hits, key);
    let places = Seq::new(all.len(), |i: int| all[i].lexical->0 as int);
    assert forall|i: int| 0 <= i < all.len() implies {
        let hit = #[trigger] all[i];
        &&& hits.contains(hit)
        &&& hit.lexical is Some
        &&& hit.lexical->0 < keyword.len()
        &&& keyword[hit.lexical->0 as int].0 == hit.id
        &&& hit.semantic is None
        &&& hit.similarity is None
    } by {
        assert(all.contains(all[i]));
        ranked::lemma_ranked_contains::<Hit>(hits, all[i]);
        let k = choose|k: int| 0 <= k < hits.len() && hits[k] == all[i];
        assert(hits[k].lexical == raw[k].lexical);
        assert(hits[k].id == raw[k].id);
    }
    assert forall|i: int, j: int| 0 <= i < j < places.len() implies places[i] < places[j] by {
        assert(!Hit::before(all[j], all[i]));
        assert(key(all[i]) != key(all[j]));
        if places[j] < places[i] {
            let a = choose|a: int| 0 <= a < hits.len() && hits[a] == all[i];
            let b = choose|b: int| 0 <= b < hits.len() && hits[b] == all[j];
            assert(hits[b].score > hits[a].score);
        }
    }
    let r = finished(entries, hits, query, limit);
    assert forall|i: int| 0 <= i < r.len() implies {
        let hit = #[trigger] r[i];
        &&& hit.id == keyword[i].0
        &&& hit.lexical == Some(i as usize)
        &&& hit.semantic is None
        &&& hit.similarity is None
    } by {
        lemma_climbing(places, i);
        assert(places[i] == all[i].lexical->0);
        assert(r[i].lexical == all[i].lexical);
    }
}

/// Without a semantic ranking a search is the lexical one alone: however deep
/// the lexical half looked, the notes that come out are those that it gives for
/// the limit, in its order.
pub proof fn lemma_without_vectors_a_search_is_lexical(
    entries: Map<Seq<char>, index::EntryView>,
    scored: Seq<(Seq<char>, u32)>,
    least: u32,
    deep: int,
    hits: Seq<HitView>,
    query: Seq<char>,
    limit: int,
)
    requires
        ranked::names_each_once(scored),
        0 <= limit <= deep <= usize::MAX,
        ({
            let keyword = ranked::best(scored, least, deep);
            &&& hits.len() == fused(keyword, seq![]).len()
            &&& forall|i: int|
                0 <= i < hits.len() ==> #[trigger] hits[i] == (HitView {
                    score: hits[i].score,
                    ..fused(keyword, seq![])[i]
                })
            &&& forall|i: int, j: int|
                0 <= i < hits.len() && 0 <= j < hits.len() && (#[trigger] hits[i]).lexical->0 < (
                #[trigger] hits[j]).lexical->0 ==> hits[i].score > hits[j].score
        }),
    ensures
        ({
            let r = finished(entries, hits, query, limit);
            let alone = ranked::best(scored, least, limit);
            &&& r.len() == alone.len()
            &&& forall|i: int|
                0 <= i < r.len() ==> {
                    let hit = #[trigger] r[i];
                    &&& hit.id == alone[i].0
                    &&& hit.lexical == Some(i as usize)
                    &&& hit.semantic is None
                    &&& hit.similarity is None
                }
        }),
{
    let keyword = ranked::best(scored, least, deep);
    ranked::lemma_the_best_are_different(scored, least, deep);
    ranked::lemma_the_best_are_in_order(scored, least, deep);
    ranked::lemma_fewer_are_the_first(scored, least, limit, deep);
    lemma_without_vectors_the_order_is_lexical(entries, keyword, hits, query, limit);
}

proof fn lemma_climbing(s: Seq<int>, i: int)
    requires
        forall|i: int| 0 <= i < s.len() ==> 0 <= #[trigger] s[i] < s.len(),
        forall|i: int, j: int| 0 <= i < j < s.len() ==> s[i] < s[j],
        0 <= i < s.len(),
    ensures
        s[i] == i,
{
    lemma_climbs_from(s, i);
    lemma_climbs_to(s, i);
}

proof fn lemma_climbs_from(s: Seq<int>, i: int)
    requires
        forall|i: int| 0 <= i < s.len() ==> 0 <= #[trigger] s[i] < s.len(),
        forall|i: int, j: int| 0 <= i < j < s.len() ==> s[i] < s[j],
        0 <= i < s.len(),
    ensures
        s[i] >= i,
    decreases i,
{
    if i > 0 {
        lemma_climbs_from(s, i - 1);
        assert(s[i - 1] < s[i]);
    }
}

proof fn lemma_climbs_to(s: Seq<int>, i: int)
    requires
        forall|i: int| 0 <= i < s.len() ==> 0 <= #[trigger] s[i] < s.len(),
        forall|i: int, j: int| 0 <= i < j < s.len() ==> s[i] < s[j],
        0 <= i < s.len(),
    ensures
        s[i] <= i,
    decreases s.len() - i,
{
    if i + 1 < s.len() {
        lemma_climbs_to(s, i + 1);
        assert(s[i] < s[i + 1]);
    }
}

proof fn lemma_hit_order()
    ensures
        ranked::is_order::<Hit>(),
{
    assert forall|a: HitView| !#[trigger] Hit::before(a, a) by {
        ordered::lemma_precedes_irreflexive(a.id);
    }
    assert forall|a: HitView, b: HitView, c: HitView|
        #![trigger Hit::before(a, b), Hit::before(b, c)]
        Hit::before(a, b) && Hit::before(b, c) implies Hit::before(a, c) by {
        if a.score == b.score && b.score == c.score {
            ordered::lemma_precedes_transitive(a.id, b.id, c.id);
        }
    }
    assert forall|a: HitView, b: HitView, c: HitView|
        #![trigger Hit::before(a, b), Hit::before(b, c)]
        !Hit::before(a, b) && !Hit::before(b, c) implies !Hit::before(a, c) by {
        ordered::lemma_not_precedes_transitive(a.id, b.id, c.id);
    }
}

/// A match is shown by the narrowest range of the line that holds it: one more
/// character before it would be outside, and one fewer at its end would cut it.
/// In an ASCII line the range is the match.
pub proof fn lemma_a_range_is_the_narrowest(line: Seq<char>, start: int, end: int)
    requires
        0 <= start <= end <= text::lowercase(line).len(),
    ensures
        ({
            let (from, to) = range_of(line, start, end);
            &&& 0 <= from <= line.len()
            &&& from > 0 ==> text::lowercase(line.take(from)).len() <= start
            &&& forall|i: int|
                from < i <= line.len() ==> (#[trigger] text::lowercase(line.take(i))).len() > start
            &&& 0 <= to <= line.len()
            &&& text::lowercase(line.take(to)).len() >= end
            &&& forall|j: int|
                0 <= j < to ==> (#[trigger] text::lowercase(line.take(j))).len() < end
        }),
        text::all_ascii(line) ==> range_of(line, start, end) == (start, end),
{
    let (from, to) = range_of(line, start, end);
    lemma_chars_before(line, start);
    lemma_chars_through(line, end, 0);
    assert(line.take(line.len() as int) =~= line);
    if text::all_ascii(line) {
        text::lemma_lowercase_part(line, 0, line.len() as int);
        assert forall|i: int| 0 <= i <= line.len() implies (#[trigger] text::lowercase(
            line.take(i),
        )).len() == i by {
            text::lemma_lowercase_part(line, 0, i);
            assert(line.subrange(0, i) =~= line.take(i));
        }
        if from < start {
            assert(text::lowercase(line.take(start)).len() > start);
        }
        if end < to {
            assert(text::lowercase(line.take(end)).len() < end);
        }
        assert(text::lowercase(line.take(to)).len() == to);
        if from > 0 {
            assert(text::lowercase(line.take(from)).len() == from);
        }
    }
}

proof fn lemma_chars_before(line: Seq<char>, places: int)
    ensures
        0 <= chars_before(line, places) <= line.len(),
        chars_before(line, places) > 0 ==> text::lowercase(
            line.take(chars_before(line, places)),
        ).len() <= places,
        forall|i: int|
            chars_before(line, places) < i <= line.len() ==> (#[trigger] text::lowercase(
                line.take(i),
            )).len() > places,
    decreases line.len(),
{
    assert(line.take(line.len() as int) =~= line);
    if line.len() > 0 && text::lowercase(line).len() > places {
        let rest = line.drop_last();
        lemma_chars_before(rest, places);
        let n = chars_before(line, places);
        assert(rest.take(n) =~= line.take(n));
        assert forall|i: int| n < i <= line.len() implies (#[trigger] text::lowercase(
            line.take(i),
        )).len() > places by {
            if i < line.len() {
                assert(rest.take(i) =~= line.take(i));
                assert(text::lowercase(rest.take(i)).len() > places);
            }
        }
    }
}

proof fn lemma_chars_through(line: Seq<char>, places: int, past: int)
    requires
        0 <= past <= line.len(),
        places <= text::lowercase(line).len(),
        forall|j: int| 0 <= j < past ==> (#[trigger] text::lowercase(line.take(j))).len() < places,
    ensures
        past <= chars_through(line, places, past) <= line.len(),
        text::lowercase(line.take(chars_through(line, places, past))).len() >= places,
        forall|j: int|
            0 <= j < chars_through(line, places, past) ==> (#[trigger] text::lowercase(
                line.take(j),
            )).len() < places,
    decreases line.len() - past,
{
    assert(line.take(line.len() as int) =~= line);
    if past < line.len() && text::lowercase(line.take(past)).len() < places {
        lemma_chars_through(line, places, past + 1);
    }
}

/// The range of a snippet is within its text and holds the query, whatever its
/// case: of every place in an ASCII line where a query without space around it
/// stands.
pub proof fn lemma_a_snippet_shows_its_match(line: Seq<char>, query: Seq<char>, at: int)
    requires
        text::all_ascii(line),
        line.len() <= usize::MAX,
        text::stands_at(text::lowercase(line), query, at),
        query.len() > 0 && !text::white(query[0]) && !text::white(query.last()),
    ensures
        ({
            let s = snippet(line, query, at);
            &&& s.text == text::trim(line)
            &&& s.start < s.end <= s.text.len()
            &&& text::lowercase(s.text.subrange(s.start as int, s.end as int)) == query
        }),
{
    let low = text::lowercase(line);
    let s = snippet(line, query, at);
    let end = at + query.len();
    lemma_a_range_is_the_narrowest(line, at, end);
    text::lemma_trim_start_is_skip(line);
    let rest = text::trim_start(line);
    let indent = line.len() - rest.len();
    text::lemma_trim_end_is_take(rest);
    let shown = text::trim(line);
    text::lemma_lowercase_part(line, at, end);
    let part = line.subrange(at, end);
    assert(low.subrange(at, end) == query);
    assert(query[0] == low[at]);
    assert(query.last() == low[end - 1]);
    assert(low[at] == text::small(line[at]));
    assert(low[end - 1] == text::small(line[end - 1]));
    lemma_black(line, at);
    lemma_black(line, end - 1);
    lemma_indent_is_white(line, indent as int);
    lemma_tail_is_white(rest);
    assert(rest[end - 1 - indent] == line[end - 1]);
    assert(shown.subrange(at - indent, end - indent) =~= part);
}

proof fn lemma_black(line: Seq<char>, i: int)
    requires
        text::all_ascii(line),
        0 <= i < line.len(),
        !text::white(text::small(line[i])),
    ensures
        !text::white(line[i]),
{
    assert(text::is_ascii(line[i]));
}

proof fn lemma_indent_is_white(line: Seq<char>, indent: int)
    requires
        indent == line.len() - text::trim_start(line).len(),
    ensures
        forall|i: int| 0 <= i < indent ==> text::white(#[trigger] line[i]),
    decreases line.len(),
{
    if line.len() > 0 && text::white(line[0]) {
        let rest = line.skip(1);
        lemma_indent_is_white(rest, indent - 1);
        assert forall|i: int| 0 <= i < indent implies text::white(#[trigger] line[i]) by {
            if i > 0 {
                assert(line[i] == rest[i - 1]);
            }
        }
    }
}

proof fn lemma_tail_is_white(s: Seq<char>)
    ensures
        forall|i: int| text::trim_end(s).len() <= i < s.len() ==> text::white(#[trigger] s[i]),
    decreases s.len(),
{
    if s.len() > 0 && text::white(s.last()) {
        let rest = s.drop_last();
        lemma_tail_is_white(rest);
        assert forall|i: int| text::trim_end(s).len() <= i < s.len() implies text::white(
            #[trigger] s[i],
        ) by {
            if i < rest.len() {
                assert(s[i] == rest[i]);
            }
        }
    }
}

/// What is underlined holds the query or one of its terms: the narrowest range
/// of the snippet that a run of it in lower case comes from, and in an ASCII
/// snippet that run itself.
pub proof fn lemma_a_highlight_covers_what_was_asked_for(snippet: Seq<char>, query: Seq<char>)
    ensures
        match highlight(snippet, query) {
            Some((start, end)) => {
                let low = text::lowercase(snippet);
                &&& 0 <= start <= snippet.len()
                &&& 0 <= end <= snippet.len()
                &&& exists|from: int, to: int|
                    0 <= from <= to <= low.len() && (start, end) == range_of(snippet, from, to)
                        && candidates(query).contains(#[trigger] low.subrange(from, to))
                &&& text::all_ascii(snippet) ==> start <= end && candidates(query).contains(
                    text::lowercase(snippet.subrange(start, end)),
                )
            },
            None => first_found(text::lowercase(snippet), candidates(query)) is None,
        },
{
    let low = text::lowercase(snippet);
    lemma_first_found(low, candidates(query));
    if let Some((from, to)) = first_found(low, candidates(query)) {
        assert(candidates(query).contains(low.subrange(from, to)));
        lemma_a_range_is_the_narrowest(snippet, from, to);
        if text::all_ascii(snippet) {
            text::lemma_lowercase_part(snippet, from, to);
        }
    }
}

proof fn lemma_first_found(s: Seq<char>, candidates: Seq<Seq<char>>)
    ensures
        match first_found(s, candidates) {
            Some((start, end)) => 0 <= start <= end <= s.len() && candidates.contains(
                s.subrange(start, end),
            ),
            None => true,
        },
    decreases candidates.len(),
{
    if candidates.len() > 0 {
        text::lemma_find_text(s, candidates[0], 0);
        match text::find_text(s, candidates[0], 0) {
            Some(at) => {
                assert(candidates[0] == s.subrange(at, at + candidates[0].len()));
            },
            None => {
                let rest = candidates.skip(1);
                lemma_first_found(s, rest);
                if let Some((start, end)) = first_found(s, rest) {
                    let k = choose|k: int|
                        0 <= k < rest.len() && rest[k] == s.subrange(start, end);
                    assert(candidates[k + 1] == s.subrange(start, end));
                }
            },
        }
    }
}

// ---- what a score is made of ----

/// Lowercasing goes character by character, and leaves none out.
pub proof fn lemma_every_character_is_lowered(a: Seq<char>, c: char, b: Seq<char>)
    ensures
        lowered(a.push(c) + b) == lowered(a) + text::lower_char(c) + lowered(b),
    decreases b.len(),
{
    let all = a.push(c) + b;
    if b.len() == 0 {
        assert(all =~= a.push(c));
        assert(all.drop_last() =~= a);
        assert(lowered(b) =~= Seq::<char>::empty());
        assert(lowered(all) =~= lowered(a) + text::lower_char(c) + lowered(b));
    } else {
        lemma_every_character_is_lowered(a, c, b.drop_last());
        assert(all.drop_last() =~= a.push(c) + b.drop_last());
        assert(lowered(all) =~= lowered(a) + text::lower_char(c) + lowered(b));
    }
}

/// Which of the places of a match stand at the start of a word that is not the
/// start of the text.
pub open spec fn word_starts(candidate: Seq<char>, at: Seq<int>) -> Set<int> {
    Set::new(
        |i: int| 0 <= i < at.len() && at[i] > 0 && !text::alphanumeric(candidate[at[i] - 1]),
    )
}

/// Which of the places of a match follow the place before them directly.
pub open spec fn runs(at: Seq<int>) -> Set<int> {
    Set::new(|i: int| 0 < i < at.len() && at[i] == at[i - 1] + 1)
}

/// How many characters a match passes over before its last place.
pub open spec fn skipped(at: Seq<int>) -> int {
    if at.len() == 0 {
        0
    } else {
        at.last() + 1 - at.len()
    }
}

/// What a match earns: fifteen if it begins where the text does, ten for each
/// other start of a word, and eight for each place that follows another
/// directly.
pub open spec fn earned(candidate: Seq<char>, at: Seq<int>) -> int {
    (if at.len() > 0 && at[0] == 0 {
        15int
    } else {
        0int
    }) + 10 * word_starts(candidate, at).len() + 8 * runs(at).len()
}

proof fn lemma_indices(s: Set<int>, n: int)
    requires
        0 <= n,
        forall|i: int| #[trigger] s.contains(i) ==> 0 <= i < n,
    ensures
        s.finite(),
    decreases n,
{
    if n == 0 {
        assert(s =~= Set::<int>::empty());
    } else {
        lemma_indices(s.remove(n - 1), n - 1);
        assert(s =~= s.remove(n - 1) || s =~= s.remove(n - 1).insert(n - 1));
    }
}

proof fn lemma_one_more(s: Set<int>, t: Set<int>, n: int)
    requires
        0 <= n,
        forall|i: int| #[trigger] s.contains(i) ==> 0 <= i < n,
        forall|i: int| i != n ==> #[trigger] t.contains(i) == s.contains(i),
    ensures
        s.finite(),
        t.finite(),
        t.len() == s.len() + if t.contains(n) {
            1int
        } else {
            0int
        },
{
    lemma_indices(s, n);
    assert(!s.contains(n));
    if t.contains(n) {
        assert(t =~= s.insert(n));
    } else {
        assert(t =~= s);
    }
}

proof fn lemma_progress_earned(haystack: Seq<char>, needles: Seq<char>)
    ensures
        match progress(haystack, needles) {
            Some(p) => {
                &&& word_starts(haystack, p.positions).finite()
                &&& runs(p.positions).finite()
                &&& p.score == earned(haystack, p.positions) - skipped(p.positions)
                &&& p.at == if p.positions.len() == 0 {
                    0
                } else {
                    p.positions.last() + 1
                }
            },
            None => true,
        },
    decreases needles.len(),
{
    if needles.len() == 0 {
        let at = Seq::<int>::empty();
        assert(word_starts(haystack, at) =~= Set::<int>::empty());
        assert(runs(at) =~= Set::<int>::empty());
    } else {
        let rest = needles.drop_last();
        lemma_progress_earned(haystack, rest);
        lemma_progress(haystack, rest);
        lemma_progress(haystack, needles);
        if let Some(before) = progress(haystack, rest) {
            lemma_find_folded(haystack, needles.last(), before.at);
            if let Some(found) = find_folded(haystack, needles.last(), before.at) {
                let at = before.positions;
                let now = at.push(found);
                let n = at.len() as int;
                assert(forall|i: int| 0 <= i < n ==> #[trigger] now[i] == at[i]);
                lemma_one_more(word_starts(haystack, at), word_starts(haystack, now), n);
                lemma_one_more(runs(at), runs(now), n);
                assert(word_starts(haystack, now).contains(n) == (found > 0
                    && !text::alphanumeric(haystack[found - 1])));
                assert(runs(now).contains(n) == (n > 0 && found == now[n - 1] + 1));
                if n > 0 {
                    assert(now[n - 1] == at.last());
                    assert(at[n - 1] >= 0);
                }
            }
        }
    }
}

/// A score is what the match earned, less one for each character that was
/// passed over before its last place, less one for every four characters that
/// the text is longer than what was asked for.
pub proof fn lemma_a_score_is_what_was_earned_less_what_was_skipped(
    candidate: Seq<char>,
    query: Seq<char>,
)
    ensures
        match score(candidate, query) {
            Some((score, at)) => score == earned(candidate, at) - skipped(at) - (candidate.len()
                - at.len()) / 4,
            None => true,
        },
{
    lemma_progress(candidate, lowered(query));
    lemma_progress_earned(candidate, lowered(query));
}

/// Skipping never pays: of two texts of one length in which a query matches in
/// the same number of word starts and runs, and at the start of both or of
/// neither, the one in which more is passed over scores lower.
pub proof fn lemma_skipping_never_pays(a: Seq<char>, b: Seq<char>, query: Seq<char>)
    requires
        a.len() == b.len(),
        score(a, query) is Some,
        score(b, query) is Some,
        ({
            let (x, y) = ((score(a, query)->0).1, (score(b, query)->0).1);
            &&& x.len() > 0
            &&& (x[0] == 0) == (y[0] == 0)
            &&& word_starts(a, x).len() == word_starts(b, y).len()
            &&& runs(x).len() == runs(y).len()
            &&& x.last() > y.last()
        }),
    ensures
        (score(a, query)->0).0 < (score(b, query)->0).0,
{
    lemma_a_score_is_what_was_earned_less_what_was_skipped(a, query);
    lemma_a_score_is_what_was_earned_less_what_was_skipped(b, query);
    lemma_progress(a, lowered(query));
    lemma_progress(b, lowered(query));
}

/// The match that is scored is the leftmost: no other way to find the query's
/// characters in order has any of them further left.
pub proof fn lemma_a_match_is_the_leftmost(
    candidate: Seq<char>,
    query: Seq<char>,
    other: Seq<int>,
)
    requires
        spells(candidate, lowered(query), other),
    ensures
        match score(candidate, query) {
            Some((_, at)) => spells(candidate, lowered(query), at) && forall|i: int|
                0 <= i < at.len() ==> #[trigger] at[i] <= other[i],
            None => false,
        },
{
    let needles = lowered(query);
    lemma_progress(candidate, needles);
    lemma_progress_is_found(candidate, needles, other);
    lemma_progress_leftmost(candidate, needles, other);
}

proof fn lemma_progress_leftmost(haystack: Seq<char>, needles: Seq<char>, other: Seq<int>)
    requires
        spells(haystack, needles, other),
    ensures
        progress(haystack, needles) is Some,
        progress(haystack, needles)->0.positions.len() == other.len(),
        forall|i: int|
            0 <= i < other.len() ==> #[trigger] progress(haystack, needles)->0.positions[i]
                <= other[i],
    decreases needles.len(),
{
    lemma_progress_is_found(haystack, needles, other);
    lemma_progress(haystack, needles);
    if needles.len() > 0 {
        let fewer = other.drop_last();
        let rest = needles.drop_last();
        assert forall|i: int| 0 <= i < fewer.len() implies 0 <= #[trigger] fewer[i]
            < haystack.len() && text::lower_char(haystack[fewer[i]]) == text::lower_char(
            rest[i],
        ) by {
            assert(fewer[i] == other[i]);
        }
        lemma_progress_leftmost(haystack, rest, fewer);
        let before = progress(haystack, rest)->0;
        let now = progress(haystack, needles)->0;
        let n = other.len() - 1;
        assert(now.positions == before.positions.push(now.positions[n]));
        assert(now.at == now.positions[n] + 1);
        assert forall|i: int| 0 <= i < other.len() implies #[trigger] now.positions[i]
            <= other[i] by {
            if i < n {
                assert(now.positions[i] == before.positions[i]);
                assert(fewer[i] == other[i]);
            }
        }
    }
}

/// A note that is found by its title scores what its title scores. One that is
/// found only by its path scores twenty less than its path does, and says
/// nothing of where.
pub proof fn lemma_a_path_counts_less_than_a_title(id: Seq<char>, query: Seq<char>)
    requires
        query.len() > 0,
    ensures
        match (score(note::title(id), query), score(id, query)) {
            (Some((score, at)), _) => title_match(id, query) == Some(
                TitleMatchView { id, score, positions: at },
            ),
            (None, Some((score, _))) => title_match(id, query) == Some(
                TitleMatchView { id, score: score - 20, positions: seq![] },
            ),
            (None, None) => title_match(id, query) is None,
        },
{
}

/// A note whose title does not match scores what the best of its aliases that
/// match scores, and only where none does what its path gives it.
pub proof fn lemma_the_best_alias_counts(
    id: Seq<char>,
    aliases: Seq<Seq<char>>,
    query: Seq<char>,
)
    requires
        query.len() > 0,
        score(note::title(id), query) is None,
    ensures
        match name_match(id, aliases, query) {
            Some(m) => m.id == id && m.positions == Seq::<int>::empty() && (if exists|i: int|
                0 <= i < aliases.len() && score(#[trigger] aliases[i], query) is Some {
                &&& exists|i: int|
                    0 <= i < aliases.len() && score(#[trigger] aliases[i], query) is Some && (
                    score(aliases[i], query)->0).0 == m.score
                &&& forall|i: int|
                    0 <= i < aliases.len() && score(#[trigger] aliases[i], query) is Some ==> (
                    score(aliases[i], query)->0).0 <= m.score
            } else {
                score(id, query) is Some && m.score == (score(id, query)->0).0 - 20
            }),
            None => score(id, query) is None && forall|i: int|
                0 <= i < aliases.len() ==> score(#[trigger] aliases[i], query) is None,
        },
{
    lemma_alias_score(aliases, query);
    lemma_alias_best(aliases, query);
}

proof fn lemma_alias_best(aliases: Seq<Seq<char>>, query: Seq<char>)
    ensures
        match alias_score(aliases, query) {
            Some(best) => {
                &&& exists|i: int|
                    0 <= i < aliases.len() && score(#[trigger] aliases[i], query) is Some && (
                    score(aliases[i], query)->0).0 == best
                &&& forall|i: int|
                    0 <= i < aliases.len() && score(#[trigger] aliases[i], query) is Some ==> (
                    score(aliases[i], query)->0).0 <= best
            },
            None => true,
        },
    decreases aliases.len(),
{
    if aliases.len() > 0 {
        let rest = aliases.drop_last();
        lemma_alias_best(rest, query);
        lemma_alias_score(rest, query);
        let n = aliases.len() - 1;
        assert(aliases[n] == aliases.last());
        assert(forall|i: int| 0 <= i < n ==> #[trigger] aliases[i] == rest[i]);
        if let Some(best) = alias_score(aliases, query) {
            if alias_score(rest, query) == Some(best) {
                let i = choose|i: int|
                    0 <= i < rest.len() && score(#[trigger] rest[i], query) is Some && (score(
                        rest[i],
                        query,
                    )->0).0 == best;
                assert(score(aliases[i], query) is Some);
            } else {
                assert(score(aliases[n], query) is Some);
            }
            assert forall|i: int|
                0 <= i < aliases.len() && score(#[trigger] aliases[i], query) is Some implies (
            score(aliases[i], query)->0).0 <= best by {
                if i < n {
                    assert(score(rest[i], query) is Some);
                }
            }
        }
    }
}

// ---- what is shown beside a hit ----

/// Which of some terms a line holds.
pub open spec fn held(terms: Seq<Seq<char>>, line: Seq<char>) -> Set<int> {
    Set::new(|i: int| 0 <= i < terms.len() && bm25::terms(line).contains(terms[i]))
}

proof fn lemma_term_hits(terms: Seq<Seq<char>>, line: Seq<char>)
    ensures
        held(terms, line).finite(),
        term_hits(terms, bm25::terms(line)) == held(terms, line).len(),
    decreases terms.len(),
{
    if terms.len() == 0 {
        assert(held(terms, line) =~= Set::<int>::empty());
    } else {
        let rest = terms.drop_last();
        let n = rest.len() as int;
        lemma_term_hits(rest, line);
        assert(forall|i: int| 0 <= i < n ==> #[trigger] rest[i] == terms[i]);
        lemma_one_more(held(rest, line), held(terms, line), n);
        assert(held(terms, line).contains(n) == bm25::terms(line).contains(terms.last()));
    }
}

proof fn lemma_best_line(lines: Seq<Seq<char>>, terms: Seq<Seq<char>>)
    ensures
        match best_line(lines, terms) {
            Some((most, line)) => {
                &&& exists|k: int|
                    0 <= k < lines.len() && text::trim(#[trigger] lines[k]) == line && most == held(
                        terms,
                        line,
                    ).len() && forall|j: int|
                        k < j < lines.len() && text::trim(#[trigger] lines[j]).len() > 0 ==> held(
                            terms,
                            text::trim(lines[j]),
                        ).len() < most
                &&& forall|j: int|
                    0 <= j < lines.len() ==> held(terms, text::trim(#[trigger] lines[j])).len()
                        <= most
            },
            None => forall|j: int| 0 <= j < lines.len() ==> text::trim(#[trigger] lines[j]).len() == 0,
        },
    decreases lines.len(),
{
    if lines.len() > 0 {
        let rest = lines.drop_last();
        let n = lines.len() - 1;
        lemma_best_line(rest, terms);
        let line = text::trim(lines.last());
        lemma_term_hits(terms, line);
        lemma_nothing_held(terms);
        assert(lines[n] == lines.last());
        assert(forall|j: int| 0 <= j < n ==> #[trigger] rest[j] == lines[j]);
        if let Some((most, shown)) = best_line(rest, terms) {
            let k = choose|k: int|
                0 <= k < rest.len() && text::trim(#[trigger] rest[k]) == shown && most == held(
                    terms,
                    shown,
                ).len() && forall|j: int|
                    k < j < rest.len() && text::trim(#[trigger] rest[j]).len() > 0 ==> held(
                        terms,
                        text::trim(rest[j]),
                    ).len() < most;
            if best_line(lines, terms) == Some((most, shown)) {
                if line.len() == 0 || most > held(terms, line).len() {
                    assert(text::trim(lines[k]) == shown);
                    assert forall|j: int|
                        k < j < lines.len() && text::trim(#[trigger] lines[j]).len() > 0 implies held(
                        terms,
                        text::trim(lines[j]),
                    ).len() < most by {
                        if j < n {
                            assert(rest[j] == lines[j]);
                        }
                    }
                } else {
                    assert(text::trim(lines[n]) == line);
                }
            } else {
                assert(text::trim(lines[n]) == line);
            }
            assert forall|j: int| 0 <= j < lines.len() implies held(
                terms,
                text::trim(#[trigger] lines[j]),
            ).len() <= (best_line(lines, terms)->0).0 by {
                if j < n {
                    assert(rest[j] == lines[j]);
                } else if line.len() == 0 {
                    assert(line =~= Seq::<char>::empty());
                }
            }
        } else {
            if line.len() == 0 {
                assert(line =~= Seq::<char>::empty());
                assert forall|j: int| 0 <= j < lines.len() implies text::trim(
                    #[trigger] lines[j],
                ).len() == 0 by {
                    if j < n {
                        assert(rest[j] == lines[j]);
                    }
                }
            } else {
                assert(text::trim(lines[n]) == line);
                assert forall|j: int| 0 <= j < lines.len() implies held(
                    terms,
                    text::trim(#[trigger] lines[j]),
                ).len() <= held(terms, line).len() by {
                    if j < n {
                        assert(rest[j] == lines[j]);
                        assert(text::trim(lines[j]) =~= Seq::<char>::empty());
                    }
                }
            }
        }
    }
}

proof fn lemma_nothing_held(terms: Seq<Seq<char>>)
    ensures
        held(terms, seq![]).len() == 0,
{
    assert(bm25::terms(seq![]) =~= seq![]);
    assert(held(terms, seq![]) =~= Set::<int>::empty());
}

/// The line shown beside a hit holds the most terms of the query: where any
/// line of the note's text holds one, what is shown is the first two hundred
/// characters of a line of that text, trimmed, and no line holds more of them,
/// nor does a later one hold as many. Where none does, the note's excerpt is
/// shown.
pub proof fn lemma_the_line_with_the_most_terms_is_shown(
    entries: Map<Seq<char>, index::EntryView>,
    id: Seq<char>,
    query: Seq<char>,
)
    requires
        entries.contains_key(id),
    ensures
        ({
            let lines = text::lines(entries[id].text);
            let terms = bm25::terms(query);
            let shown = snippet_for(entries, id, query);
            if exists|i: int|
                0 <= i < lines.len() && held(terms, text::trim(#[trigger] lines[i])).len() > 0 {
                exists|k: int|
                    0 <= k < lines.len() && ({
                        let line = text::trim(#[trigger] lines[k]);
                        &&& shown == if line.len() <= 200 {
                            line
                        } else {
                            line.take(200)
                        }
                        &&& held(terms, line).len() > 0
                        &&& forall|j: int|
                            0 <= j < lines.len() ==> held(
                                terms,
                                text::trim(#[trigger] lines[j]),
                            ).len() <= held(terms, line).len()
                        &&& forall|j: int|
                            k < j < lines.len() ==> held(
                                terms,
                                text::trim(#[trigger] lines[j]),
                            ).len() < held(terms, line).len()
                    })
            } else {
                shown == entries[id].excerpt
            }
        }),
{
    let lines = text::lines(entries[id].text);
    let terms = bm25::terms(query);
    lemma_best_line(lines, terms);
    lemma_nothing_held(terms);
    if exists|i: int|
        0 <= i < lines.len() && held(terms, text::trim(#[trigger] lines[i])).len() > 0 {
        let i = choose|i: int|
            0 <= i < lines.len() && held(terms, text::trim(#[trigger] lines[i])).len() > 0;
        if best_line(lines, terms) is None {
            assert(text::trim(lines[i]) =~= Seq::<char>::empty());
        }
        let (most, line) = best_line(lines, terms)->0;
        let k = choose|k: int|
            0 <= k < lines.len() && text::trim(#[trigger] lines[k]) == line && most == held(
                terms,
                line,
            ).len() && forall|j: int|
                k < j < lines.len() && text::trim(#[trigger] lines[j]).len() > 0 ==> held(
                    terms,
                    text::trim(lines[j]),
                ).len() < most;
        assert(text::trim(lines[k]) == line);
        assert forall|j: int| k < j < lines.len() implies held(
            terms,
            text::trim(#[trigger] lines[j]),
        ).len() < held(terms, line).len() by {
            if text::trim(lines[j]).len() == 0 {
                assert(text::trim(lines[j]) =~= Seq::<char>::empty());
            }
        }
    } else if let Some((most, line)) = best_line(lines, terms) {
        let k = choose|k: int|
            0 <= k < lines.len() && text::trim(#[trigger] lines[k]) == line && most == held(
                terms,
                line,
            ).len() && forall|j: int|
                k < j < lines.len() && text::trim(#[trigger] lines[j]).len() > 0 ==> held(
                    terms,
                    text::trim(lines[j]),
                ).len() < most;
        assert(held(terms, text::trim(lines[k])).len() == most);
    }
}

// ---- which results come first ----

/// Notes found by title come in the order of their scores, the highest first,
/// ties by id; and one that matches and is not among them goes behind them all,
/// and there was no room for it.
pub proof fn lemma_the_best_titles_come_first(
    entries: Map<Seq<char>, index::EntryView>,
    query: Seq<char>,
    limit: int,
    id: Seq<char>,
)
    requires
        entries.dom().finite(),
        0 <= limit,
        entries.contains_key(id),
        title_match(id, text::trim(query)) is Some,
    ensures
        ({
            let r = title_results(entries, query, limit);
            let m = title_match(id, text::trim(query))->0;
            &&& forall|i: int, j: int|
                0 <= i < j < r.len() ==> (#[trigger] r[i]).score > (#[trigger] r[j]).score || (
                r[i].score == r[j].score && ordered::precedes(r[i].id, r[j].id))
            &&& !r.contains(m) ==> r.len() == limit && forall|i: int|
                0 <= i < limit ==> (#[trigger] r[i]).score > m.score || (r[i].score == m.score
                    && ordered::precedes(r[i].id, m.id))
        }),
{
    let wanted = text::trim(query);
    let ids = ordered::ascending(entries.dom());
    let s = title_matches(ids, wanted);
    ordered::lemma_ascending_apart(entries.dom());
    lemma_title_matches(ids, wanted);
    lemma_title_results(entries, query, limit);
    lemma_title_order();
    assert(ids.contains(id));
    lemma_title_matches_ranked(s, limit, title_match(id, wanted)->0);
}

proof fn lemma_title_matches_ranked(s: Seq<TitleMatchView>, limit: int, m: TitleMatchView)
    requires
        0 <= limit,
        s.contains(m),
        forall|i: int, j: int|
            0 <= i < j < s.len() ==> (#[trigger] s[i]).id != (#[trigger] s[j]).id,
    ensures
        ({
            let r = ranked::first(ranked::ranked::<TitleMatch>(s), limit);
            &&& r.len() <= limit
            &&& forall|i: int| 0 <= i < r.len() ==> s.contains(#[trigger] r[i])
            &&& forall|i: int, j: int|
                0 <= i < j < r.len() ==> (#[trigger] r[i]).id != (#[trigger] r[j]).id
            &&& forall|i: int, j: int|
                0 <= i < j < r.len() ==> (#[trigger] r[i]).score > (#[trigger] r[j]).score || (
                r[i].score == r[j].score && ordered::precedes(r[i].id, r[j].id))
            &&& !r.contains(m) ==> r.len() == limit && forall|i: int|
                0 <= i < limit ==> (#[trigger] r[i]).score > m.score || (r[i].score == m.score
                    && ordered::precedes(r[i].id, m.id))
        }),
{
    let all = ranked::ranked::<TitleMatch>(s);
    let r = ranked::first(all, limit);
    let key = |m: TitleMatchView| m.id;
    lemma_title_order();
    assert forall|i: int, j: int| 0 <= i < j < s.len() implies key(#[trigger] s[i]) != key(
        #[trigger] s[j],
    ) by {
        assert(s[i].id != s[j].id);
    }
    ranked::lemma_ranked_apart::<TitleMatch, Seq<char>>(s, key);
    ranked::lemma_ranked_in_order::<TitleMatch>(s);
    assert forall|i: int| 0 <= i < r.len() implies s.contains(#[trigger] r[i]) by {
        assert(all[i] == r[i]);
        assert(all.contains(r[i]));
        ranked::lemma_ranked_contains::<TitleMatch>(s, r[i]);
    }
    assert forall|i: int, j: int| 0 <= i < j < r.len() implies (#[trigger] r[i]).id != (
    #[trigger] r[j]).id && (r[i].score > r[j].score || (r[i].score == r[j].score
        && ordered::precedes(r[i].id, r[j].id))) by {
        assert(r[i] == all[i] && r[j] == all[j]);
        assert(key(all[i]) != key(all[j]));
        assert(!TitleMatch::before(all[j], all[i]));
        ordered::lemma_precedes_total(r[i].id, r[j].id);
    }
    if !r.contains(m) {
        ranked::lemma_what_is_left_out_is_no_better::<TitleMatch>(s, limit, m);
        assert forall|i: int| 0 <= i < limit implies (#[trigger] r[i]).score > m.score || (
        r[i].score == m.score && ordered::precedes(r[i].id, m.id)) by {
            assert(!TitleMatch::before(m, r[i]));
            ordered::lemma_precedes_total(r[i].id, m.id);
            if r[i].id == m.id {
                let a = choose|a: int| 0 <= a < s.len() && s[a] == r[i];
                let b = choose|b: int| 0 <= b < s.len() && s[b] == m;
                assert(a == b);
                assert(r.contains(m));
            }
        }
    }
}

proof fn lemma_name_matches(
    entries: Map<Seq<char>, index::EntryView>,
    ids: Seq<Seq<char>>,
    query: Seq<char>,
)
    ensures
        forall|i: int|
            0 <= i < name_matches(entries, ids, query).len() ==> {
                let m = #[trigger] name_matches(entries, ids, query)[i];
                ids.contains(m.id) && name_match(m.id, entries[m.id].aliases, query) == Some(m)
            },
        forall|id: Seq<char>| #[trigger]
            ids.contains(id) && name_match(id, entries[id].aliases, query) is Some
                ==> name_matches(entries, ids, query).contains(
                name_match(id, entries[id].aliases, query)->0,
            ),
        ids.no_duplicates() ==> forall|i: int, j: int|
            0 <= i < j < name_matches(entries, ids, query).len() ==> (#[trigger] name_matches(
                entries,
                ids,
                query,
            )[i]).id != (#[trigger] name_matches(entries, ids, query)[j]).id,
    decreases ids.len(),
{
    if ids.len() > 0 {
        let rest = ids.drop_last();
        let last = ids.last();
        lemma_name_matches(entries, rest, query);
        let before = name_matches(entries, rest, query);
        let s = name_matches(entries, ids, query);
        assert(ids[ids.len() - 1] == last);
        assert forall|id: Seq<char>| rest.contains(id) implies #[trigger] ids.contains(id) by {
            let k = choose|k: int| 0 <= k < rest.len() && rest[k] == id;
            assert(ids[k] == id);
        }
        assert forall|i: int| 0 <= i < s.len() implies {
            let m = #[trigger] s[i];
            ids.contains(m.id) && name_match(m.id, entries[m.id].aliases, query) == Some(m)
        } by {
            if i < before.len() {
                assert(s[i] == before[i]);
                assert(rest.contains(before[i].id));
            }
        }
        assert forall|id: Seq<char>| #[trigger]
            ids.contains(id) && name_match(id, entries[id].aliases, query) is Some implies s.contains(
            name_match(id, entries[id].aliases, query)->0,
        ) by {
            let m = name_match(id, entries[id].aliases, query)->0;
            if id == last {
                assert(s[s.len() - 1] == m);
            } else {
                let k = choose|k: int| 0 <= k < ids.len() && ids[k] == id;
                assert(rest[k] == id);
                assert(rest.contains(id));
                assert(before.contains(m));
                let j = choose|j: int| 0 <= j < before.len() && before[j] == m;
                assert(s[j] == m);
            }
        }
        if ids.no_duplicates() {
            assert(rest.no_duplicates());
            assert forall|i: int, j: int| 0 <= i < j < s.len() implies (#[trigger] s[i]).id != (
            #[trigger] s[j]).id by {
                if j < before.len() {
                    assert(s[i] == before[i] && s[j] == before[j]);
                } else {
                    assert(s[i] == before[i]);
                    assert(rest.contains(before[i].id));
                    let k = choose|k: int| 0 <= k < rest.len() && rest[k] == before[i].id;
                    assert(ids[k] == before[i].id);
                }
            }
        }
    }
}

/// Notes found by any of their names are different notes of the index, each as
/// its names match, the highest score first, ties by id; and one that matches
/// and is not among them goes behind them all, and there was no room for it.
pub proof fn lemma_the_best_names_come_first(
    entries: Map<Seq<char>, index::EntryView>,
    query: Seq<char>,
    limit: int,
    id: Seq<char>,
)
    requires
        entries.dom().finite(),
        0 <= limit,
        entries.contains_key(id),
        name_match(id, entries[id].aliases, text::trim(query)) is Some,
    ensures
        ({
            let r = ranked::first(
                ranked::ranked::<TitleMatch>(
                    name_matches(entries, ordered::ascending(entries.dom()), text::trim(query)),
                ),
                limit,
            );
            let m = name_match(id, entries[id].aliases, text::trim(query))->0;
            &&& r.len() <= limit
            &&& forall|i: int|
                0 <= i < r.len() ==> entries.contains_key((#[trigger] r[i]).id) && name_match(
                    r[i].id,
                    entries[r[i].id].aliases,
                    text::trim(query),
                ) == Some(r[i])
            &&& forall|i: int, j: int|
                0 <= i < j < r.len() ==> (#[trigger] r[i]).id != (#[trigger] r[j]).id
            &&& forall|i: int, j: int|
                0 <= i < j < r.len() ==> (#[trigger] r[i]).score > (#[trigger] r[j]).score || (
                r[i].score == r[j].score && ordered::precedes(r[i].id, r[j].id))
            &&& !r.contains(m) ==> r.len() == limit && forall|i: int|
                0 <= i < limit ==> (#[trigger] r[i]).score > m.score || (r[i].score == m.score
                    && ordered::precedes(r[i].id, m.id))
        }),
{
    let wanted = text::trim(query);
    let ids = ordered::ascending(entries.dom());
    let s = name_matches(entries, ids, wanted);
    ordered::lemma_ascending_apart(entries.dom());
    lemma_name_matches(entries, ids, wanted);
    assert(ids.contains(id));
    lemma_title_matches_ranked(s, limit, name_match(id, entries[id].aliases, wanted)->0);
    let r = ranked::first(ranked::ranked::<TitleMatch>(s), limit);
    assert forall|i: int| 0 <= i < r.len() implies entries.contains_key((#[trigger] r[i]).id)
        && name_match(r[i].id, entries[r[i].id].aliases, wanted) == Some(r[i]) by {
        let k = choose|k: int| 0 <= k < s.len() && s[k] == r[i];
        assert(ids.contains(s[k].id));
    }
}

/// Whether a text holds another somewhere.
pub open spec fn holds(s: Seq<char>, needle: Seq<char>) -> bool {
    exists|k: int| 0 <= k <= s.len() - needle.len() && #[trigger] s.subrange(
        k,
        k + needle.len(),
    ) == needle
}

proof fn lemma_holds(s: Seq<char>, needle: Seq<char>)
    ensures
        holds(s, needle) == text::find_text(s, needle, 0) is Some,
{
    text::lemma_find_text(s, needle, 0);
    if holds(s, needle) {
        let k = choose|k: int| 0 <= k <= s.len() - needle.len() && #[trigger] s.subrange(
            k,
            k + needle.len(),
        ) == needle;
        assert(text::stands_at(s, needle, k));
    }
    if let Some(k) = text::find_text(s, needle, 0) {
        assert(s.subrange(k, k + needle.len()) == needle);
    }
}

/// Notes found by their texts come in order: first those that are called what
/// was asked for, then those with the most hits, ties by id; and one that is
/// hit and is not among them goes behind them all, and there was no room for
/// it.
pub proof fn lemma_the_best_texts_come_first(
    entries: Map<Seq<char>, index::EntryView>,
    query: Seq<char>,
    limit: int,
    id: Seq<char>,
)
    requires
        entries.dom().finite(),
        0 <= limit,
        entries.contains_key(id),
        text::lowercase(text::trim(query)).len() > 0,
        text_match(id, entries[id].text, text::lowercase(text::trim(query))).hits > 0,
    ensures
        ({
            let wanted = text::lowercase(text::trim(query));
            let r = text_results(entries, query, limit);
            let m = text_match(id, entries[id].text, wanted);
            let called = |id: Seq<char>| holds(text::lowercase(note::title(id)), wanted);
            &&& forall|i: int, j: int|
                0 <= i < j < r.len() ==> {
                    let (a, b) = (#[trigger] r[i], #[trigger] r[j]);
                    if called(a.id) != called(b.id) {
                        called(a.id)
                    } else {
                        a.hits > b.hits || (a.hits == b.hits && ordered::precedes(a.id, b.id))
                    }
                }
            &&& !r.contains(m) ==> r.len() == limit && forall|i: int|
                0 <= i < limit ==> {
                    let a = #[trigger] r[i];
                    if called(a.id) != called(id) {
                        called(a.id)
                    } else {
                        a.hits > m.hits || (a.hits == m.hits && ordered::precedes(a.id, id))
                    }
                }
        }),
{
    let wanted = text::lowercase(text::trim(query));
    let r = text_results(entries, query, limit);
    let m = text_match(id, entries[id].text, wanted);
    let called = |id: Seq<char>| holds(text::lowercase(note::title(id)), wanted);
    lemma_text_results(entries, query, limit);
    lemma_text_order();
    assert forall|id: Seq<char>| #[trigger] called(id) == is_titled(id, wanted) by {
        lemma_holds(text::lowercase(note::title(id)), wanted);
    }
    assert forall|i: int, j: int| 0 <= i < j < r.len() implies {
        let (a, b) = (#[trigger] r[i], #[trigger] r[j]);
        if called(a.id) != called(b.id) {
            called(a.id)
        } else {
            a.hits > b.hits || (a.hits == b.hits && ordered::precedes(a.id, b.id))
        }
    } by {
        assert(called(r[i].id) == is_titled(r[i].id, wanted));
        assert(called(r[j].id) == is_titled(r[j].id, wanted));
        ordered::lemma_precedes_total(r[i].id, r[j].id);
    }
    let ids = ordered::ascending(entries.dom());
    ordered::lemma_ascending_apart(entries.dom());
    let s = text_matches(entries, ids, wanted);
    let all = ranked::first(ranked::ranked::<Titled>(s), limit);
    lemma_text_matches(entries, ids, wanted);
    assert(ids.contains(id));
    let mine = (is_titled(id, wanted), m);
    assert(s.contains(mine));
    if !r.contains(m) {
        if all.contains(mine) {
            let k = choose|k: int| 0 <= k < all.len() && all[k] == mine;
            assert(r[k] == m);
        }
        ranked::lemma_what_is_left_out_is_no_better::<Titled>(s, limit, mine);
        assert forall|i: int| 0 <= i < limit implies {
            let a = #[trigger] r[i];
            if called(a.id) != called(id) {
                called(a.id)
            } else {
                a.hits > m.hits || (a.hits == m.hits && ordered::precedes(a.id, id))
            }
        } by {
            assert(r[i] == all[i].1);
            assert(!Titled::before(mine, all[i]));
            assert(called(r[i].id) == is_titled(r[i].id, wanted));
            assert(called(id) == is_titled(id, wanted));
            ranked::lemma_ranked_contains::<Titled>(s, all[i]);
            assert(ranked::ranked::<Titled>(s)[i] == all[i]);
            let k = choose|k: int| 0 <= k < s.len() && s[k] == all[i];
            assert(s[k].0 == is_titled(r[i].id, wanted));
            ordered::lemma_precedes_total(r[i].id, id);
            if r[i].id == id {
                assert(r[i] == m);
                assert(r.contains(m));
            }
        }
    }
}

/// A search of all texts finds a note exactly if a line of its text holds the
/// query, both lowercased; and it counts every place where one does, none
/// overlapping another: wherever a line holds it, a place that was counted
/// begins there or reaches there from before.
pub proof fn lemma_every_place_is_counted(s: Seq<char>, needle: Seq<char>, from: int, q: int)
    requires
        needle.len() > 0,
        0 <= from <= q <= s.len() - needle.len(),
        s.subrange(q, q + needle.len()) == needle,
    ensures
        exists|i: int|
            0 <= i < places(s, needle, from).len() && (#[trigger] places(s, needle, from)[i]) <= q
                < places(s, needle, from)[i] + needle.len(),
    decreases s.len() + 1 - from,
{
    text::lemma_find_text(s, needle, from);
    assert(text::stands_at(s, needle, q));
    let at = text::find_text(s, needle, from)->0;
    let next = places(s, needle, at + needle.len());
    assert(places(s, needle, from) == seq![at] + next);
    if q < at + needle.len() {
        assert(places(s, needle, from)[0] == at);
    } else {
        lemma_every_place_is_counted(s, needle, at + needle.len(), q);
        let i = choose|i: int|
            0 <= i < next.len() && (#[trigger] next[i]) <= q < next[i] + needle.len();
        assert(places(s, needle, from)[i + 1] == next[i]);
    }
}

/// The hits of a text are those of its lines, one line after the other.
pub proof fn lemma_hits_go_line_by_line(
    a: Seq<Seq<char>>,
    line: Seq<char>,
    b: Seq<Seq<char>>,
    query: Seq<char>,
)
    ensures
        ({
            let low = text::lowercase(line);
            let here = Seq::new(
                places(low, query, 0).len(),
                |i: int| snippet(line, query, places(low, query, 0)[i]),
            );
            snippets(a.push(line) + b, query) == snippets(a, query) + here + snippets(b, query)
        }),
    decreases b.len(),
{
    let low = text::lowercase(line);
    let here = Seq::new(
        places(low, query, 0).len(),
        |i: int| snippet(line, query, places(low, query, 0)[i]),
    );
    let all = a.push(line) + b;
    if b.len() == 0 {
        assert(all =~= a.push(line));
        assert(all.drop_last() =~= a);
        assert(line_snippets(line, query, places(low, query, 0)) =~= here);
        assert(snippets(b, query) =~= seq![]);
        assert(snippets(all, query) =~= snippets(a, query) + here + snippets(b, query));
    } else {
        lemma_hits_go_line_by_line(a, line, b.drop_last(), query);
        assert(all.drop_last() =~= a.push(line) + b.drop_last());
        assert(snippets(all, query) =~= snippets(a, query) + here + snippets(b, query));
    }
}

/// A note's hits are counted, and the first three are shown.
pub proof fn lemma_all_hits_count_and_three_are_shown(
    id: Seq<char>,
    prose: Seq<char>,
    query: Seq<char>,
)
    ensures
        ({
            let m = text_match(id, prose, query);
            let all = snippets(text::lines(prose), query);
            &&& m.id == id
            &&& all.len() <= usize::MAX ==> m.hits == all.len()
            &&& m.snippets.len() == if all.len() < 3 {
                all.len() as int
            } else {
                3int
            }
            &&& forall|i: int| 0 <= i < m.snippets.len() ==> #[trigger] m.snippets[i] == all[i]
        }),
{
}

// ---- where two rankings have a note ----

/// A note that two rankings name once each is a hit that says where each has
/// it, counted from nought, and how similar the second finds it.
pub proof fn lemma_a_hit_says_where_each_ranking_has_it(
    keyword: Seq<(Seq<char>, u32)>,
    vectors: Seq<(Seq<char>, u32)>,
    i: int,
)
    requires
        ranked::names_each_once(keyword),
        ranked::names_each_once(vectors),
        keyword.len() <= usize::MAX,
        vectors.len() <= usize::MAX,
        0 <= i < fused(keyword, vectors).len(),
    ensures
        ({
            let hit = fused(keyword, vectors)[i];
            &&& match hit.lexical {
                Some(k) => k < keyword.len() && keyword[k as int].0 == hit.id,
                None => forall|k: int| 0 <= k < keyword.len() ==> (#[trigger] keyword[k]).0 != hit.id,
            }
            &&& match hit.semantic {
                Some(k) => k < vectors.len() && vectors[k as int].0 == hit.id && hit.similarity
                    == Some(vectors[k as int].1),
                None => hit.similarity is None && forall|k: int|
                    0 <= k < vectors.len() ==> (#[trigger] vectors[k]).0 != hit.id,
            }
        }),
{
    let both = named(keyword).union(named(vectors));
    let id = ordered::ascending(both)[i];
    lemma_rank_of(keyword, id);
    lemma_rank_of(vectors, id);
}

/// Two rankings fused name every note that either names, once, in the order of
/// their ids.
pub proof fn lemma_a_note_is_fused_once(
    keyword: Seq<(Seq<char>, u32)>,
    vectors: Seq<(Seq<char>, u32)>,
    i: int,
    j: int,
)
    requires
        0 <= i < j < fused(keyword, vectors).len(),
    ensures
        ordered::precedes(fused(keyword, vectors)[i].id, fused(keyword, vectors)[j].id),
{
    lemma_named_finite(keyword);
    lemma_named_finite(vectors);
    ordered::lemma_ascending(named(keyword).union(named(vectors)));
}

/// Finished hits come in the order of their scores, the highest first, ties by
/// id, and each is one that was scored, with a line to show; one that is not
/// among them goes behind them all, and there was no room for it.
pub proof fn lemma_the_best_hits_come_first(
    entries: Map<Seq<char>, index::EntryView>,
    hits: Seq<HitView>,
    query: Seq<char>,
    limit: int,
    k: int,
)
    requires
        0 <= limit,
        0 <= k < hits.len(),
        forall|i: int, j: int|
            0 <= i < j < hits.len() ==> (#[trigger] hits[i]).id != (#[trigger] hits[j]).id,
    ensures
        ({
            let r = finished(entries, hits, query, limit);
            let m = hits[k];
            &&& r.len() == if hits.len() <= limit {
                hits.len() as int
            } else {
                limit
            }
            &&& forall|i: int|
                0 <= i < r.len() ==> exists|j: int|
                    0 <= j < hits.len() && (#[trigger] r[i]) == (HitView {
                        snippet: snippet_for(entries, hits[j].id, query),
                        ..#[trigger] hits[j]
                    })
            &&& forall|i: int, j: int|
                0 <= i < j < r.len() ==> (#[trigger] r[i]).score > (#[trigger] r[j]).score || (
                r[i].score == r[j].score && ordered::precedes(r[i].id, r[j].id))
            &&& (forall|i: int| 0 <= i < r.len() ==> (#[trigger] r[i]).id != m.id) ==> r.len()
                == limit && forall|i: int|
                0 <= i < limit ==> (#[trigger] r[i]).score > m.score || (r[i].score == m.score
                    && ordered::precedes(r[i].id, m.id))
        }),
{
    let all = ranked::ranked::<Hit>(hits);
    let kept = ranked::first(all, limit);
    let r = finished(entries, hits, query, limit);
    let m = hits[k];
    let key = |hit: HitView| hit.id;
    lemma_hit_order();
    ranked::lemma_ranked_multiset::<Hit>(hits);
    ranked::lemma_ranked_in_order::<Hit>(hits);
    assert forall|i: int, j: int| 0 <= i < j < hits.len() implies key(#[trigger] hits[i]) != key(
        #[trigger] hits[j],
    ) by {
        assert(hits[i].id != hits[j].id);
    }
    ranked::lemma_ranked_apart::<Hit, Seq<char>>(hits, key);
    assert forall|i: int| 0 <= i < r.len() implies exists|j: int|
        0 <= j < hits.len() && (#[trigger] r[i]) == (HitView {
            snippet: snippet_for(entries, hits[j].id, query),
            ..#[trigger] hits[j]
        }) by {
        assert(kept[i] == all[i]);
        ranked::lemma_ranked_contains::<Hit>(hits, all[i]);
        let j = choose|j: int| 0 <= j < hits.len() && hits[j] == all[i];
        assert(hits[j] == kept[i]);
    }
    assert forall|i: int, j: int| 0 <= i < j < r.len() implies (#[trigger] r[i]).score > (
    #[trigger] r[j]).score || (r[i].score == r[j].score && ordered::precedes(
        r[i].id,
        r[j].id,
    )) by {
        assert(!Hit::before(all[j], all[i]));
        assert(key(all[i]) != key(all[j]));
        ordered::lemma_precedes_total(r[i].id, r[j].id);
    }
    if forall|i: int| 0 <= i < r.len() ==> (#[trigger] r[i]).id != m.id {
        if kept.contains(m) {
            let i = choose|i: int| 0 <= i < kept.len() && kept[i] == m;
            assert(r[i].id == m.id);
        }
        ranked::lemma_what_is_left_out_is_no_better::<Hit>(hits, limit, m);
        assert forall|i: int| 0 <= i < limit implies (#[trigger] r[i]).score > m.score || (
        r[i].score == m.score && ordered::precedes(r[i].id, m.id)) by {
            assert(!Hit::before(m, kept[i]));
            ordered::lemma_precedes_total(r[i].id, m.id);
        }
    }
}

// ---- what is underlined ----

/// What is underlined is the whole query where the snippet holds it, and else
/// the longest of its terms that the snippet holds, at the first place where
/// the snippet holds that; and nothing where it holds none.
pub proof fn lemma_the_longest_that_is_there_is_underlined(snippet: Seq<char>, query: Seq<char>)
    ensures
        ({
            let low = text::lowercase(snippet);
            let whole = text::lowercase(text::trim(query));
            let terms = bm25::terms(query);
            match highlight(snippet, query) {
                Some(range) => exists|at: int, what: Seq<char>|
                    0 <= at <= low.len() - what.len() && (#[trigger] low.subrange(
                        at,
                        at + what.len(),
                    )) == what && range == range_of(snippet, at, at + what.len()) && (forall|k: int|
                        0 <= k < at ==> !text::stands_at(low, what, k)) && if whole.len() > 0
                        && holds(low, whole) {
                        what == whole
                    } else {
                        terms.contains(what) && forall|j: int|
                            0 <= j < terms.len() && holds(low, #[trigger] terms[j])
                                ==> terms[j].len() <= what.len()
                    },
                None => !(whole.len() > 0 && holds(low, whole)) && forall|j: int|
                    0 <= j < terms.len() ==> !holds(low, #[trigger] terms[j]),
            }
        }),
{
    let low = text::lowercase(snippet);
    let whole = text::lowercase(text::trim(query));
    let terms = bm25::terms(query);
    let sorted = ranked::ranked::<Term>(terms);
    lemma_holds(low, whole);
    text::lemma_find_text(low, whole, 0);
    let all = candidates(query);
    if whole.len() > 0 {
        assert(all[0] == whole);
        assert(all.skip(1) =~= sorted);
    }
    if whole.len() > 0 && holds(low, whole) {
        let at = text::find_text(low, whole, 0)->0;
        assert(low.subrange(at, at + whole.len()) == whole);
    } else {
        assert(first_found(low, all) == first_found(low, sorted));
        lemma_first_found_is_first(low, sorted);
        assert(ranked::is_order::<Term>());
        ranked::lemma_ranked_in_order::<Term>(terms);
        match first_found(low, sorted) {
            Some((start, end)) => {
                let n = choose|n: int|
                    0 <= n < sorted.len() && text::find_text(low, #[trigger] sorted[n], 0) == Some(
                        start,
                    ) && end == start + sorted[n].len() && forall|m: int|
                        0 <= m < n ==> text::find_text(low, #[trigger] sorted[m], 0) is None;
                let what = sorted[n];
                text::lemma_find_text(low, what, 0);
                assert(low.subrange(start, start + what.len()) == what);
                assert(sorted.contains(what));
                ranked::lemma_ranked_contains::<Term>(terms, what);
                assert forall|j: int| 0 <= j < terms.len() && holds(low, #[trigger] terms[j]) implies
                terms[j].len() <= what.len() by {
                    lemma_holds(low, terms[j]);
                    ranked::lemma_ranked_contains::<Term>(terms, terms[j]);
                    assert(terms.contains(terms[j]));
                    let m = choose|m: int| 0 <= m < sorted.len() && sorted[m] == terms[j];
                    if m < n {
                        assert(text::find_text(low, sorted[m], 0) is None);
                    } else if m > n {
                        assert(!Term::before(sorted[m], sorted[n]));
                    }
                }
            },
            None => {
                assert forall|j: int| 0 <= j < terms.len() implies !holds(
                    low,
                    #[trigger] terms[j],
                ) by {
                    lemma_holds(low, terms[j]);
                    assert(terms.contains(terms[j]));
                    ranked::lemma_ranked_contains::<Term>(terms, terms[j]);
                    let m = choose|m: int| 0 <= m < sorted.len() && sorted[m] == terms[j];
                    assert(text::find_text(low, sorted[m], 0) is None);
                }
            },
        }
    }
}

proof fn lemma_first_found_is_first(s: Seq<char>, all: Seq<Seq<char>>)
    ensures
        match first_found(s, all) {
            Some((start, end)) => exists|n: int|
                0 <= n < all.len() && text::find_text(s, #[trigger] all[n], 0) == Some(start) && end
                    == start + all[n].len() && forall|m: int|
                    0 <= m < n ==> text::find_text(s, #[trigger] all[m], 0) is None,
            None => forall|m: int|
                0 <= m < all.len() ==> text::find_text(s, #[trigger] all[m], 0) is None,
        },
    decreases all.len(),
{
    if all.len() > 0 {
        let rest = all.skip(1);
        lemma_first_found_is_first(s, rest);
        assert(forall|m: int| 0 <= m < rest.len() ==> #[trigger] rest[m] == all[m + 1]);
        if text::find_text(s, all[0], 0) is None {
            if let Some((start, end)) = first_found(s, rest) {
                let n = choose|n: int|
                    0 <= n < rest.len() && text::find_text(s, #[trigger] rest[n], 0) == Some(start)
                        && end == start + rest[n].len() && forall|m: int|
                        0 <= m < n ==> text::find_text(s, #[trigger] rest[m], 0) is None;
                assert(all[n + 1] == rest[n]);
                assert forall|m: int| 0 <= m < n + 1 implies text::find_text(
                    s,
                    #[trigger] all[m],
                    0,
                ) is None by {
                    if m > 0 {
                        assert(rest[m - 1] == all[m]);
                    }
                }
            } else {
                assert forall|m: int| 0 <= m < all.len() implies text::find_text(
                    s,
                    #[trigger] all[m],
                    0,
                ) is None by {
                    if m > 0 {
                        assert(rest[m - 1] == all[m]);
                    }
                }
            }
        }
    }
}

} // verus!
