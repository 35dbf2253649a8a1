//! Okapi BM25 over the vault: the counts behind the lexical half of hybrid
//! search, and the ranking of what was scored.
//!
//! A note that says "ownership" four times beats one that says it once; a long
//! note does not win for being long; and a word every note contains counts for
//! nothing. What is decided here is which notes match and on what evidence.
//! The score itself is computed with numbers that have fractions, from this
//! evidence alone, and comes back as its bits, which order as it does.

use crate::index;
use crate::index::Index;
use crate::note::NoteId;
use crate::ordered;
use crate::ordered::TextMap;
use crate::ranked;
use crate::ranked::Scored;
use crate::text;
use vstd::prelude::*;

verus! {

// ---- terms ----

/// The terms of a text that are complete, and the one that is being read.
pub open spec fn terms_and_rest(s: Seq<char>) -> (Seq<Seq<char>>, Seq<char>)
    decreases s.len(),
{
    if s.len() == 0 {
        (seq![], seq![])
    } else {
        let (done, current) = terms_and_rest(s.drop_last());
        if text::alphanumeric(s.last()) {
            (done, current + text::lower_char(s.last()))
        } else if current.len() > 0 {
            (done.push(current), seq![])
        } else {
            (done, current)
        }
    }
}

/// The terms of a text: its runs of letters and digits, lowercased.
pub open spec fn terms(s: Seq<char>) -> Seq<Seq<char>> {
    let (done, current) = terms_and_rest(s);
    if current.len() > 0 {
        done.push(current)
    } else {
        done
    }
}

/// Split text into the terms that get counted.
///
/// Unicode alphanumerics, lowercased, everything else a separator. No
/// stemming: "ownership" and "owning" stay different words.
pub fn tokenize(s: &str) -> (r: Vec<String>)
    ensures
        text::views(r@) == terms(s@),
{
    let chars = text::chars_of(s);
    let mut r: Vec<String> = Vec::new();
    let mut current: Vec<char> = Vec::new();
    let mut i: usize = 0;
    assert(text::views(r@) =~= seq![]);
    while i < chars.len()
        invariant
            i <= chars@.len(),
            chars@ == s@,
            terms_and_rest(s@.take(i as int)) == (text::views(r@), current@),
        decreases chars@.len() - i,
    {
        assert(s@.take(i + 1).drop_last() =~= s@.take(i as int));
        if chars[i].is_alphanumeric() {
            text::extend(&mut current, &text::lower_of_char(chars[i]));
        } else if current.len() > 0 {
            let term = text::string_of(&current);
            proof {
                text::lemma_views_push(r@, term);
            }
            r.push(term);
            current = Vec::new();
        }
        i = i + 1;
    }
    assert(s@.take(s@.len() as int) =~= s@);
    if current.len() > 0 {
        let term = text::string_of(&current);
        proof {
            text::lemma_views_push(r@, term);
        }
        r.push(term);
    }
    r
}

// ---- words that are no evidence ----

/// Words that are never the reason you wanted a note.
///
/// Statistics alone cannot catch these in a small vault: in four notes, "in"
/// appears in one of them and therefore looks as specific as "sourdough".
/// Excluded as *evidence*, not from the counts.
pub open spec fn stopword_list() -> Seq<Seq<char>> {
    seq![
        "a"@, "about"@, "all"@, "an"@, "and"@, "any"@, "are"@, "as"@, "at"@, "be"@, "been"@,
        "but"@, "by"@, "can"@, "did"@, "do"@, "does"@, "for"@, "from"@, "had"@, "has"@, "have"@,
        "he"@, "her"@, "his"@, "how"@, "i"@, "if"@, "in"@, "is"@, "it"@, "its"@, "me"@, "my"@,
        "no"@, "not"@, "of"@, "on"@, "one"@, "or"@, "our"@, "out"@, "she"@, "so"@, "some"@,
        "than"@, "that"@, "the"@, "their"@, "them"@, "then"@, "there"@, "these"@, "they"@,
        "this"@, "to"@, "up"@, "was"@, "we"@, "were"@, "what"@, "when"@, "where"@, "which"@,
        "who"@, "why"@, "will"@, "with"@, "would"@, "you"@, "your"@,
    ]
}

/// The words that are no evidence, in order.
pub fn stopwords() -> (r: Vec<&'static str>)
    ensures
        r@.len() == stopword_list().len(),
        forall|i: int| 0 <= i < r@.len() ==> (#[trigger] r@[i])@ == stopword_list()[i],
{
    vec![
        "a", "about", "all", "an", "and", "any", "are", "as", "at", "be", "been",
        "but", "by", "can", "did", "do", "does", "for", "from", "had", "has", "have",
        "he", "her", "his", "how", "i", "if", "in", "is", "it", "its", "me", "my",
        "no", "not", "of", "on", "one", "or", "our", "out", "she", "so", "some",
        "than", "that", "the", "their", "them", "then", "there", "these", "they",
        "this", "to", "up", "was", "we", "were", "what", "when", "where", "which",
        "who", "why", "will", "with", "would", "you", "your",
    ]
}

/// Whether a term is no evidence.
pub fn is_stopword(term: &str) -> (r: bool)
    ensures
        r == stopword_list().contains(term@),
{
    let words = stopwords();
    let ghost list = stopword_list();
    let mut i: usize = 0;
    while i < words.len()
        invariant
            i <= words@.len(),
            words@.len() == list.len(),
            list == stopword_list(),
            forall|j: int| 0 <= j < words@.len() ==> (#[trigger] words@[j])@ == list[j],
            forall|j: int| 0 <= j < i ==> (#[trigger] list[j]) != term@,
        decreases words@.len() - i,
    {
        assert(words@[i as int]@ == list[i as int]);
        if text::same(words[i], term) {
            return true;
        }
        i = i + 1;
    }
    false
}

// ---- counting ----

/// Some counts with some terms counted on top, each for so many.
pub open spec fn tally(
    counts: Map<Seq<char>, nat>,
    terms: Seq<Seq<char>>,
    weight: nat,
) -> Map<Seq<char>, nat>
    decreases terms.len(),
{
    if terms.len() == 0 {
        counts
    } else {
        let before = tally(counts, terms.drop_last(), weight);
        let term = terms.last();
        before.insert(term, counted(before, term) + weight)
    }
}

/// How often a term was counted.
pub open spec fn counted(counts: Map<Seq<char>, nat>, term: Seq<char>) -> nat {
    if counts.contains_key(term) {
        counts[term]
    } else {
        0
    }
}

/// A title word counts for this many body words. Titles are short and chosen,
/// so a match in one is a much stronger signal than a match in prose.
pub const TITLE_WEIGHT: u32 = 4;

/// One note's term counts.
#[verifier::ext_equal]
pub struct DocumentView {
    pub id: Seq<char>,
    pub counts: Map<Seq<char>, nat>,
    pub length: nat,
}

/// The counts of a note: its text once, and its whole path for its title's
/// weight. A note in `Meetings/` is about meetings.
pub open spec fn document(id: Seq<char>, prose: Seq<char>) -> DocumentView {
    DocumentView {
        id,
        counts: tally(
            tally(Map::empty(), terms(prose), 1),
            terms(id),
            TITLE_WEIGHT as nat,
        ),
        length: terms(prose).len() + TITLE_WEIGHT as nat * terms(id).len(),
    }
}

/// How many of some notes contain a term.
pub open spec fn frequency(documents: Seq<DocumentView>, term: Seq<char>) -> nat
    decreases documents.len(),
{
    if documents.len() == 0 {
        0
    } else {
        frequency(documents.drop_last(), term) + if documents.last().counts.contains_key(term) {
            1nat
        } else {
            0nat
        }
    }
}

/// The notes of an index, counted.
pub open spec fn documents(entries: Map<Seq<char>, index::EntryView>) -> Seq<DocumentView> {
    ordered::ascending(entries.dom()).map_values(
        |id: Seq<char>| document(id, entries[id].text),
    )
}

#[derive(Debug)]
struct Document {
    id: NoteId,
    counts: TextMap<String, u128>,
    /// Total terms, title weighting included, for length normalisation.
    length: u128,
}

spec fn as_counts(m: Map<Seq<char>, u128>) -> Map<Seq<char>, nat> {
    Map::new(|k: Seq<char>| m.contains_key(k), |k: Seq<char>| m[k] as nat)
}

impl View for Document {
    type V = DocumentView;

    closed spec fn view(&self) -> DocumentView {
        DocumentView {
            id: self.id@,
            counts: as_counts(self.counts@),
            length: self.length as nat,
        }
    }
}

fn count_terms(counts: &mut TextMap<String, u128>, terms: &Vec<String>, weight: u32)
    requires
        forall|k: Seq<char>| #[trigger]
            old(counts)@.contains_key(k) ==> old(counts)@[k] <= usize::MAX,
        weight <= 4,
    ensures
        as_counts(final(counts)@) == tally(
            as_counts(old(counts)@),
            text::views(terms@),
            weight as nat,
        ),
        forall|k: Seq<char>| #[trigger]
            final(counts)@.contains_key(k) ==> final(counts)@[k] <= usize::MAX + 4 * terms@.len(),
        weight == 1 && old(counts)@ == Map::<Seq<char>, u128>::empty() ==> forall|k: Seq<char>|
            #[trigger] final(counts)@.contains_key(k) ==> final(counts)@[k] <= usize::MAX,
{
    let ghost start = as_counts(counts@);
    let ghost all = text::views(terms@);
    let ghost fresh = weight == 1 && counts@ == Map::<Seq<char>, u128>::empty();
    let n = terms.len();
    let mut i: usize = 0;
    while i < n
        invariant
            i <= n == terms@.len(),
            weight <= 4,
            fresh ==> weight == 1,
            all == text::views(terms@),
            as_counts(counts@) == tally(start, all.take(i as int), weight as nat),
            forall|k: Seq<char>| #[trigger]
                counts@.contains_key(k) ==> counts@[k] <= usize::MAX + 4 * i,
            fresh ==> forall|k: Seq<char>| #[trigger]
                counts@.contains_key(k) ==> counts@[k] <= i,
        decreases n - i,
    {
        assert(all.take(i + 1).drop_last() =~= all.take(i as int));
        let term = terms[i].clone();
        assert(all.take(i + 1).last() == term@);
        let was: u128 = match counts.get(term.as_str()) {
            Some(c) => *c,
            None => 0,
        };
        let ghost before = counts@;
        let now: u128 = was + weight as u128;
        counts.insert(term, now);
        assert(as_counts(counts@) =~= as_counts(before).insert(term@, now as nat));
        i = i + 1;
    }
    assert(all.take(all.len() as int) =~= all);
}

fn count_note(id: &NoteId, prose: &str) -> (r: Document)
    ensures
        r@ == document(id@, prose@),
{
    let mut counts: TextMap<String, u128> = TextMap::new();
    assert(as_counts(counts@) =~= Map::<Seq<char>, nat>::empty());
    let body = tokenize(prose);
    let path = tokenize(id.as_str());
    count_terms(&mut counts, &body, 1);
    count_terms(&mut counts, &path, TITLE_WEIGHT);
    let length = body.len() as u128 + 4 * path.len() as u128;
    assert(text::views(body@).len() == body@.len());
    assert(text::views(path@).len() == path@.len());
    Document { id: id.clone(), counts, length }
}

/// The counts every BM25 score is computed from.
///
/// Built from an [`Index`] and thrown away when the vault changes.
#[derive(Debug)]
pub struct Bm25 {
    documents: Vec<Document>,
    /// How many documents contain each term.
    frequencies: TextMap<String, usize>,
}

spec fn is_frequency(m: Map<Seq<char>, usize>, documents: Seq<DocumentView>) -> bool {
    forall|t: Seq<char>|
        (#[trigger] m.contains_key(t) <==> frequency(documents, t) > 0) && (m.contains_key(t)
            ==> m[t] == frequency(documents, t))
}

impl View for Bm25 {
    type V = Seq<DocumentView>;

    closed spec fn view(&self) -> Seq<DocumentView> {
        text::views(self.documents@)
    }
}

impl Bm25 {
    #[verifier::type_invariant]
    spec fn is_counted(self) -> bool {
        is_frequency(self.frequencies@, text::views(self.documents@))
    }
}

proof fn lemma_frequency_bound(documents: Seq<DocumentView>, term: Seq<char>)
    ensures
        frequency(documents, term) <= documents.len(),
    decreases documents.len(),
{
    if documents.len() > 0 {
        lemma_frequency_bound(documents.drop_last(), term);
    }
}

fn count_document(
    frequencies: &mut TextMap<String, usize>,
    document: &Document,
    Ghost(before): Ghost<Seq<DocumentView>>,
)
    requires
        is_frequency(old(frequencies)@, before),
        before.len() < usize::MAX,
    ensures
        is_frequency(final(frequencies)@, before.push(document@)),
{
    let n = document.counts.len();
    let ghost order = ordered::ascending(document.counts@.dom());
    let ghost now = before.push(document@);
    let ghost start = frequencies@;
    assert(now.drop_last() =~= before);
    proof {
        ordered::lemma_ascending(document.counts@.dom());
    }
    let mut i: usize = 0;
    while i < n
        invariant
            i <= n == order.len(),
            order == ordered::ascending(document.counts@.dom()),
            is_frequency(start, before),
            before.len() < usize::MAX,
            ordered::is_ascending(order),
            forall|t: Seq<char>|
                #![trigger frequencies@.contains_key(t)]
                {
                    let extra = if order.take(i as int).contains(t) {
                        1nat
                    } else {
                        0nat
                    };
                    &&& frequencies@.contains_key(t) <==> frequency(before, t) + extra > 0
                    &&& frequencies@.contains_key(t) ==> frequencies@[t] == frequency(before, t)
                        + extra
                },
        decreases n - i,
    {
        let term = document.counts.key(i).clone();
        let ghost t = term@;
        proof {
            lemma_frequency_bound(before, t);
            assert(order.take(i + 1) =~= order.take(i as int).push(t));
            assert(!order.take(i as int).contains(t)) by {
                if order.take(i as int).contains(t) {
                    let k = choose|k: int|
                        0 <= k < order.take(i as int).len() && order.take(i as int)[k] == t;
                    assert(order[k] == t && order[i as int] == t);
                    assert(ordered::precedes(order[k], order[i as int]));
                    ordered::lemma_precedes_irreflexive(t);
                }
            }
        }
        let was: usize = match frequencies.get(term.as_str()) {
            Some(c) => *c,
            None => 0,
        };
        let ghost m = frequencies@;
        frequencies.insert(term, was + 1);
        proof {
            assert forall|u: Seq<char>|
                #![trigger frequencies@.contains_key(u)]
                {
                    let extra = if order.take(i + 1).contains(u) {
                        1nat
                    } else {
                        0nat
                    };
                    &&& frequencies@.contains_key(u) <==> frequency(before, u) + extra > 0
                    &&& frequencies@.contains_key(u) ==> frequencies@[u] == frequency(before, u)
                        + extra
                } by {
                let s = order.take(i as int);
                assert(s.push(t).contains(u) == (s.contains(u) || u == t)) by {
                    broadcast use vstd::seq_lib::group_seq_properties;

                }
                let _ = m.contains_key(u);
            }
        }
        i = i + 1;
    }
    proof {
        assert(order.take(n as int) =~= order);
        ordered::lemma_ascending(document.counts@.dom());
        assert forall|t: Seq<char>|
            (#[trigger] frequencies@.contains_key(t) <==> frequency(now, t) > 0) && (
            frequencies@.contains_key(t) ==> frequencies@[t] == frequency(now, t)) by {
            assert(order.contains(t) == order.to_set().contains(t));
            assert(document@.counts.contains_key(t) == document.counts@.contains_key(t));
        }
    }
}

// ---- evidence ----

/// A vault smaller than this is too small to judge what a common word is.
pub const ENOUGH_TO_JUDGE: usize = 4;

/// Whether a term says anything about *which* notes are wanted: a word in half
/// the vault or more does not narrow it down.
pub open spec fn is_informative(containing: nat, total: nat) -> bool {
    total < ENOUGH_TO_JUDGE || 2 * containing < total
}

/// The terms of a query that are evidence.
pub open spec fn evidence_terms(terms: Seq<Seq<char>>) -> Seq<Seq<char>>
    decreases terms.len(),
{
    if terms.len() == 0 {
        terms
    } else if stopword_list().contains(terms.last()) {
        evidence_terms(terms.drop_last())
    } else {
        evidence_terms(terms.drop_last()).push(terms.last())
    }
}

/// What some terms find in a note: for each that is there and says something,
/// how often the note has it and how many notes have it at all.
pub open spec fn found(
    documents: Seq<DocumentView>,
    document: DocumentView,
    terms: Seq<Seq<char>>,
) -> Seq<(nat, nat)>
    decreases terms.len(),
{
    if terms.len() == 0 {
        seq![]
    } else {
        let before = found(documents, document, terms.drop_last());
        let term = terms.last();
        if document.counts.contains_key(term) && is_informative(
            frequency(documents, term),
            documents.len(),
        ) {
            before.push((document.counts[term], frequency(documents, term)))
        } else {
            before
        }
    }
}

/// What a query finds in one note.
#[verifier::ext_equal]
pub struct EvidenceView {
    pub id: Seq<char>,
    pub length: nat,
    pub matches: Seq<(nat, nat)>,
}

/// What some terms find in some notes: those they find anything in.
pub open spec fn evidence(
    documents: Seq<DocumentView>,
    among: Seq<DocumentView>,
    terms: Seq<Seq<char>>,
) -> Seq<EvidenceView>
    decreases among.len(),
{
    if among.len() == 0 {
        seq![]
    } else {
        let before = evidence(documents, among.drop_last(), terms);
        let document = among.last();
        let matches = found(documents, document, terms);
        if matches.len() > 0 {
            before.push(EvidenceView { id: document.id, length: document.length, matches })
        } else {
            before
        }
    }
}

/// How often a term is in a note, and how many notes it is in.
#[derive(Debug, Clone, Copy, PartialEq, Eq, Structural)]
pub struct Match {
    pub count: u128,
    pub containing: usize,
}

impl View for Match {
    type V = (nat, nat);

    open spec fn view(&self) -> (nat, nat) {
        (self.count as nat, self.containing as nat)
    }
}

/// What a query finds in one note.
#[derive(Debug, PartialEq, Eq)]
pub struct Evidence {
    pub id: NoteId,
    /// The length of the note, for normalising.
    pub length: u128,
    /// One for each term of the query that counts.
    pub matches: Vec<Match>,
}

impl View for Evidence {
    type V = EvidenceView;

    open spec fn view(&self) -> EvidenceView {
        EvidenceView {
            id: self.id@,
            length: self.length as nat,
            matches: text::views(self.matches@),
        }
    }
}

/// The terms of a query that are evidence.
fn query_terms(query: &str) -> (r: Vec<String>)
    ensures
        text::views(r@) == evidence_terms(terms(query@)),
{
    let all = tokenize(query);
    let ghost views = text::views(all@);
    let mut r: Vec<String> = Vec::new();
    let mut i: usize = 0;
    assert(text::views(r@) =~= evidence_terms(views.take(0)));
    while i < all.len()
        invariant
            i <= all@.len(),
            views == text::views(all@),
            text::views(r@) == evidence_terms(views.take(i as int)),
        decreases all@.len() - i,
    {
        assert(views.take(i + 1).drop_last() =~= views.take(i as int));
        assert(views.take(i + 1).last() == all@[i as int]@);
        if !is_stopword(all[i].as_str()) {
            let term = all[i].clone();
            proof {
                text::lemma_views_push(r@, term);
            }
            r.push(term);
        }
        i = i + 1;
    }
    assert(views.take(views.len() as int) =~= views);
    r
}

fn informative(containing: usize, total: usize) -> (r: bool)
    ensures
        r == is_informative(containing as nat, total as nat),
{
    total < ENOUGH_TO_JUDGE || (containing as u128) * 2 < total as u128
}

impl Bm25 {
    /// Count the notes of an index.
    pub fn build(index: &Index) -> (r: Self)
        ensures
            r@ == documents(index@),
    {
        let ids = index.ids();
        let ghost order = text::views(ids@);
        let ghost wanted = documents(index@);
        let mut list: Vec<Document> = Vec::new();
        let mut frequencies: TextMap<String, usize> = TextMap::new();
        let n = index.len();
        proof {
            ordered::lemma_ascending(index@.dom());
            assert(order.len() == ids@.len());
        }
        assert(text::views(list@) =~= wanted.take(0));
        let mut i: usize = 0;
        while i < n
            invariant
                i <= n == ids@.len(),
                order == text::views(ids@),
                order == ordered::ascending(index@.dom()),
                wanted == documents(index@),
                index@.dom().finite(),
                text::views(list@) == wanted.take(i as int),
                is_frequency(frequencies@, wanted.take(i as int)),
            decreases n - i,
        {
            let id = &ids[i];
            assert(order[i as int] == id@);
            let document = count_note(id, index.text(id));
            proof {
                ordered::lemma_ascending(index@.dom());
                assert(order.to_set().contains(order[i as int]));
                assert(wanted[i as int] == document@);
                assert(wanted.take(i + 1) =~= wanted.take(i as int).push(document@));
                text::lemma_views_push(list@, document);
            }
            count_document(&mut frequencies, &document, Ghost(wanted.take(i as int)));
            list.push(document);
            i = i + 1;
        }
        assert(wanted.take(n as int) =~= wanted);
        Bm25 { documents: list, frequencies }
    }

    /// How many notes were counted.
    pub fn len(&self) -> (n: usize)
        ensures
            n == self@.len(),
    {
        self.documents.len()
    }

    /// Whether there are none.
    pub fn is_empty(&self) -> (r: bool)
        ensures
            r == (self@.len() == 0),
    {
        self.documents.len() == 0
    }

    /// The lengths of the notes, in order, for the average among them.
    pub fn lengths(&self) -> (r: Vec<u128>)
        ensures
            r@.len() == self@.len(),
            forall|i: int| 0 <= i < r@.len() ==> #[trigger] r@[i] == self@[i].length,
    {
        let mut r: Vec<u128> = Vec::new();
        let mut i: usize = 0;
        while i < self.documents.len()
            invariant
                i <= self.documents@.len(),
                r@.len() == i,
                forall|j: int| 0 <= j < i ==> #[trigger] r@[j] == self@[j].length,
            decreases self.documents@.len() - i,
        {
            assert(self@[i as int] == self.documents@[i as int]@);
            r.push(self.documents[i].length);
            i = i + 1;
        }
        r
    }

    fn matches(&self, document: &Document, terms: &Vec<String>) -> (r: Vec<Match>)
        ensures
            text::views(r@) == found(self@, document@, text::views(terms@)),
    {
        proof {
            use_type_invariant(self);
        }
        let total = self.documents.len();
        let ghost all = text::views(terms@);
        let mut r: Vec<Match> = Vec::new();
        let mut i: usize = 0;
        assert(text::views(r@) =~= seq![]);
        while i < terms.len()
            invariant
                i <= terms@.len(),
                all == text::views(terms@),
                total == self@.len(),
                is_frequency(self.frequencies@, self@),
                text::views(r@) == found(self@, document@, all.take(i as int)),
            decreases terms@.len() - i,
        {
            assert(all.take(i + 1).drop_last() =~= all.take(i as int));
            let term = terms[i].as_str();
            assert(all.take(i + 1).last() == term@);
            assert(document@.counts.contains_key(term@) == document.counts@.contains_key(term@));
            match document.counts.get(term) {
                Some(count) => {
                    let containing: usize = match self.frequencies.get(term) {
                        Some(c) => *c,
                        None => 0,
                    };
                    assert(containing == frequency(self@, term@)) by {
                        let _ = self.frequencies@.contains_key(term@);
                    }
                    if informative(containing, total) {
                        let m = Match { count: *count, containing };
                        proof {
                            text::lemma_views_push(r@, m);
                        }
                        r.push(m);
                    }
                },
                None => {},
            }
            i = i + 1;
        }
        assert(all.take(all.len() as int) =~= all);
        r
    }

    /// Notes matching `query`, with what they match on.
    ///
    /// A note has to contain at least one query term that says something to
    /// appear at all: this is the half of hybrid search that is *literal*.
    pub fn search(&self, query: &str) -> (r: Vec<Evidence>)
        ensures
            text::views(r@) == evidence(self@, self@, evidence_terms(terms(query@))),
    {
        let terms = query_terms(query);
        let ghost wanted = evidence_terms(self::terms(query@));
        let ghost all = self@;
        let mut r: Vec<Evidence> = Vec::new();
        let mut i: usize = 0;
        assert(text::views(r@) =~= seq![]);
        while i < self.documents.len()
            invariant
                i <= self.documents@.len(),
                all == self@,
                all == text::views(self.documents@),
                wanted == text::views(terms@),
                text::views(r@) == evidence(all, all.take(i as int), wanted),
            decreases self.documents@.len() - i,
        {
            let document = &self.documents[i];
            assert(all.take(i + 1).drop_last() =~= all.take(i as int));
            assert(all.take(i + 1).last() == document@);
            let matches = self.matches(document, &terms);
            assert(text::views(matches@).len() == matches@.len());
            if matches.len() > 0 {
                let e = Evidence { id: document.id.clone(), length: document.length, matches };
                proof {
                    text::lemma_views_push(r@, e);
                }
                r.push(e);
            }
            i = i + 1;
        }
        assert(all.take(all.len() as int) =~= all);
        r
    }
}

// ---- what holds of every count ----

/// How often a term occurs among some terms.
pub open spec fn occurrences(terms: Seq<Seq<char>>, term: Seq<char>) -> nat
    decreases terms.len(),
{
    if terms.len() == 0 {
        0
    } else {
        occurrences(terms.drop_last(), term) + if terms.last() == term {
            1nat
        } else {
            0nat
        }
    }
}

proof fn lemma_tally(
    counts: Map<Seq<char>, nat>,
    terms: Seq<Seq<char>>,
    weight: nat,
    term: Seq<char>,
)
    ensures
        counted(tally(counts, terms, weight), term) == counted(counts, term) + weight
            * occurrences(terms, term),
        tally(counts, terms, weight).contains_key(term) == (counts.contains_key(term)
            || occurrences(terms, term) > 0),
    decreases terms.len(),
{
    if terms.len() > 0 {
        lemma_tally(counts, terms.drop_last(), weight, term);
        let n = occurrences(terms.drop_last(), term);
        assert(weight * (n + 1) == weight * n + weight) by (nonlinear_arith);
    } else {
        assert(weight * 0 == 0) by (nonlinear_arith);
    }
}

/// A note's counts are how often each term occurs in its text and its path,
/// the path for its weight; a term that occurs in neither is not among them.
pub proof fn lemma_counts_are_occurrences(id: Seq<char>, prose: Seq<char>, term: Seq<char>)
    ensures
        counted(document(id, prose).counts, term) == occurrences(terms(prose), term)
            + TITLE_WEIGHT * occurrences(terms(id), term),
        document(id, prose).counts.contains_key(term) == (occurrences(terms(prose), term)
            + occurrences(terms(id), term) > 0),
{
    let body = tally(Map::empty(), terms(prose), 1);
    lemma_tally(Map::empty(), terms(prose), 1, term);
    lemma_tally(body, terms(id), TITLE_WEIGHT as nat, term);
    assert(1 * occurrences(terms(prose), term) == occurrences(terms(prose), term))
        by (nonlinear_arith);
}

proof fn lemma_found(documents: Seq<DocumentView>, document: DocumentView, terms: Seq<Seq<char>>)
    ensures
        found(documents, document, terms).len() > 0 <==> exists|i: int|
            0 <= i < terms.len() && document.counts.contains_key(#[trigger] terms[i])
                && is_informative(frequency(documents, terms[i]), documents.len()),
    decreases terms.len(),
{
    if terms.len() > 0 {
        let rest = terms.drop_last();
        lemma_found(documents, document, rest);
        if exists|i: int|
            0 <= i < rest.len() && document.counts.contains_key(#[trigger] rest[i])
                && is_informative(frequency(documents, rest[i]), documents.len()) {
            let i = choose|i: int|
                0 <= i < rest.len() && document.counts.contains_key(#[trigger] rest[i])
                    && is_informative(frequency(documents, rest[i]), documents.len());
            assert(terms[i] == rest[i]);
        }
        if exists|i: int|
            0 <= i < terms.len() && document.counts.contains_key(#[trigger] terms[i])
                && is_informative(frequency(documents, terms[i]), documents.len()) {
            let i = choose|i: int|
                0 <= i < terms.len() && document.counts.contains_key(#[trigger] terms[i])
                    && is_informative(frequency(documents, terms[i]), documents.len());
            if i < rest.len() {
                assert(rest[i] == terms[i]);
            }
        }
    }
}

proof fn lemma_evidence_terms(terms: Seq<Seq<char>>)
    ensures
        forall|i: int|
            0 <= i < evidence_terms(terms).len() ==> !stopword_list().contains(
                #[trigger] evidence_terms(terms)[i],
            ) && terms.contains(evidence_terms(terms)[i]),
    decreases terms.len(),
{
    if terms.len() > 0 {
        let rest = terms.drop_last();
        lemma_evidence_terms(rest);
        let e = evidence_terms(terms);
        assert forall|i: int| 0 <= i < e.len() implies !stopword_list().contains(#[trigger] e[i])
            && terms.contains(e[i]) by {
            if i < evidence_terms(rest).len() {
                assert(e[i] == evidence_terms(rest)[i]);
                let k = choose|k: int| 0 <= k < rest.len() && rest[k] == e[i];
                assert(terms[k] == e[i]);
            } else {
                assert(terms[terms.len() - 1] == e[i]);
            }
        }
    }
}

/// A note appears only if it contains a term of the query that is no stopword
/// and that fewer than half the notes have, in a vault that is not too small
/// to judge.
pub proof fn lemma_a_note_appears_only_on_evidence(
    documents: Seq<DocumentView>,
    query: Seq<char>,
    i: int,
)
    requires
        0 <= i < evidence(documents, documents, evidence_terms(terms(query))).len(),
    ensures
        exists|d: int, term: Seq<char>|
            #![trigger documents[d].counts.contains_key(term)]
            {
                &&& 0 <= d < documents.len()
                &&& documents[d].id == evidence(
                    documents,
                    documents,
                    evidence_terms(terms(query)),
                )[i].id
                &&& documents[d].counts.contains_key(term)
                &&& terms(query).contains(term)
                &&& !stopword_list().contains(term)
                &&& is_informative(frequency(documents, term), documents.len())
            },
{
    let wanted = evidence_terms(terms(query));
    let d = lemma_evidence_document(documents, documents, wanted, i);
    lemma_found(documents, documents[d], wanted);
    lemma_evidence_terms(terms(query));
    let k = choose|k: int|
        0 <= k < wanted.len() && documents[d].counts.contains_key(#[trigger] wanted[k])
            && is_informative(frequency(documents, wanted[k]), documents.len());
    assert(documents[d].counts.contains_key(wanted[k]));
}

proof fn lemma_evidence_document(
    documents: Seq<DocumentView>,
    among: Seq<DocumentView>,
    terms: Seq<Seq<char>>,
    i: int,
) -> (d: int)
    requires
        0 <= i < evidence(documents, among, terms).len(),
    ensures
        0 <= d < among.len(),
        among[d].id == evidence(documents, among, terms)[i].id,
        found(documents, among[d], terms).len() > 0,
    decreases among.len(),
{
    let rest = among.drop_last();
    let before = evidence(documents, rest, terms);
    if i < before.len() {
        let d = lemma_evidence_document(documents, rest, terms, i);
        assert(rest[d] == among[d]);
        d
    } else {
        among.len() - 1
    }
}

proof fn lemma_evidence_apart(
    documents: Seq<DocumentView>,
    among: Seq<DocumentView>,
    terms: Seq<Seq<char>>,
)
    requires
        forall|i: int, j: int|
            0 <= i < j < among.len() ==> ordered::precedes(
                (#[trigger] among[i]).id,
                (#[trigger] among[j]).id,
            ),
    ensures
        forall|i: int, j: int|
            0 <= i < j < evidence(documents, among, terms).len() ==> ordered::precedes(
                (#[trigger] evidence(documents, among, terms)[i]).id,
                (#[trigger] evidence(documents, among, terms)[j]).id,
            ),
    decreases among.len(),
{
    if among.len() > 0 {
        let rest = among.drop_last();
        assert forall|i: int, j: int| 0 <= i < j < rest.len() implies ordered::precedes(
            (#[trigger] rest[i]).id,
            (#[trigger] rest[j]).id,
        ) by {
            assert(rest[i] == among[i] && rest[j] == among[j]);
        }
        lemma_evidence_apart(documents, rest, terms);
        let before = evidence(documents, rest, terms);
        let all = evidence(documents, among, terms);
        assert forall|i: int, j: int| 0 <= i < j < all.len() implies ordered::precedes(
            (#[trigger] all[i]).id,
            (#[trigger] all[j]).id,
        ) by {
            assert(all[i] == before[i]);
            if j < before.len() {
                assert(all[j] == before[j]);
            } else {
                let d = lemma_evidence_document(documents, rest, terms, i);
                assert(rest[d] == among[d]);
                assert(among[among.len() - 1].id == all[j].id);
            }
        }
    }
}

proof fn lemma_occurrences(terms: Seq<Seq<char>>, term: Seq<char>)
    ensures
        occurrences(terms, term) > 0 ==> terms.contains(term),
    decreases terms.len(),
{
    if terms.len() > 0 {
        lemma_occurrences(terms.drop_last(), term);
        if terms.last() == term {
            assert(terms[terms.len() - 1] == term);
        } else if occurrences(terms.drop_last(), term) > 0 {
            let k = choose|k: int|
                0 <= k < terms.drop_last().len() && terms.drop_last()[k] == term;
            assert(terms[k] == term);
        }
    }
}

/// What a query finds is in different notes of the index, in the order of
/// their ids, each with a term of the query in its text or its path that is no
/// stopword.
pub proof fn lemma_evidence_is_of_notes_in_the_index(
    entries: Map<Seq<char>, index::EntryView>,
    query: Seq<char>,
)
    requires
        entries.dom().finite(),
    ensures
        ({
            let all = documents(entries);
            let e = evidence(all, all, evidence_terms(terms(query)));
            &&& forall|i: int, j: int|
                0 <= i < j < e.len() ==> ordered::precedes(
                    (#[trigger] e[i]).id,
                    (#[trigger] e[j]).id,
                ) && e[i].id != e[j].id
            &&& forall|i: int| #![trigger e[i]]
                0 <= i < e.len() ==> entries.contains_key(e[i].id) && exists|term: Seq<char>|
                    #![trigger terms(query).contains(term)]
                    {
                        &&& terms(query).contains(term)
                        &&& !stopword_list().contains(term)
                        &&& terms(entries[e[i].id].text).contains(term) || terms(
                            e[i].id,
                        ).contains(term)
                    }
        }),
{
    let all = documents(entries);
    let wanted = evidence_terms(terms(query));
    let e = evidence(all, all, wanted);
    let ids = ordered::ascending(entries.dom());
    ordered::lemma_ascending(entries.dom());
    assert forall|i: int, j: int| 0 <= i < j < all.len() implies ordered::precedes(
        (#[trigger] all[i]).id,
        (#[trigger] all[j]).id,
    ) by {
        assert(all[i].id == ids[i] && all[j].id == ids[j]);
    }
    lemma_evidence_apart(all, all, wanted);
    assert forall|i: int, j: int| 0 <= i < j < e.len() implies ordered::precedes(
        (#[trigger] e[i]).id,
        (#[trigger] e[j]).id,
    ) && e[i].id != e[j].id by {
        ordered::lemma_precedes_irreflexive(e[i].id);
    }
    assert forall|i: int| #![trigger e[i]] 0 <= i < e.len() implies entries.contains_key(e[i].id)
        && exists|term: Seq<char>|
        #![trigger terms(query).contains(term)]
        {
            &&& terms(query).contains(term)
            &&& !stopword_list().contains(term)
            &&& terms(entries[e[i].id].text).contains(term) || terms(e[i].id).contains(term)
        } by {
        lemma_a_note_appears_only_on_evidence(all, query, i);
        let (d, term) = choose|d: int, term: Seq<char>|
            #![trigger all[d].counts.contains_key(term)]
            {
                &&& 0 <= d < all.len()
                &&& all[d].id == e[i].id
                &&& all[d].counts.contains_key(term)
                &&& terms(query).contains(term)
                &&& !stopword_list().contains(term)
                &&& is_informative(frequency(all, term), all.len())
            };
        let id = e[i].id;
        assert(ids[d] == id);
        assert(ids.to_set().contains(ids[d]));
        assert(all[d] == document(id, entries[id].text));
        lemma_counts_are_occurrences(id, entries[id].text, term);
        lemma_occurrences(terms(entries[id].text), term);
        lemma_occurrences(terms(id), term);
        assert(terms(query).contains(term));
    }
}

/// What a search gives once every note it finds something in has a score:
/// different notes of the index, in order and no more than asked for.
pub proof fn lemma_search_results(
    entries: Map<Seq<char>, index::EntryView>,
    query: Seq<char>,
    scored: Seq<(Seq<char>, u32)>,
    least: u32,
    limit: int,
)
    requires
        entries.dom().finite(),
        0 <= limit,
        ({
            let all = documents(entries);
            let e = evidence(all, all, evidence_terms(terms(query)));
            scored.len() == e.len() && forall|i: int|
                0 <= i < e.len() ==> (#[trigger] scored[i]).0 == e[i].id
        }),
    ensures
        ({
            let r = ranked::best(scored, least, limit);
            &&& r.len() <= limit
            &&& ranked::names_each_once(r)
            &&& ranked::in_order::<Scored>(r)
            &&& forall|i: int|
                0 <= i < r.len() ==> entries.contains_key((#[trigger] r[i]).0) && r[i].1 >= least
        }),
{
    let all = documents(entries);
    let e = evidence(all, all, evidence_terms(terms(query)));
    lemma_evidence_is_of_notes_in_the_index(entries, query);
    assert forall|i: int, j: int| 0 <= i < j < scored.len() implies (#[trigger] scored[i]).0 != (
    #[trigger] scored[j]).0 by {
        assert(e[i].id != e[j].id);
    }
    ranked::lemma_the_best_are_different(scored, least, limit);
    ranked::lemma_the_best_are_in_order(scored, least, limit);
    let r = ranked::best(scored, least, limit);
    assert forall|i: int| 0 <= i < r.len() implies entries.contains_key((#[trigger] r[i]).0) by {
        let k = choose|k: int| 0 <= k < scored.len() && scored[k] == r[i];
        assert(entries.contains_key(e[k].id));
    }
}

// ---- what a term is, and what is evidence ----

proof fn lemma_terms_behind(a: Seq<char>, c: char, b: Seq<char>)
    requires
        !text::alphanumeric(c),
    ensures
        terms_and_rest(a.push(c) + b) == (terms(a) + terms_and_rest(b).0, terms_and_rest(b).1),
    decreases b.len(),
{
    let all = a.push(c) + b;
    if b.len() == 0 {
        assert(all =~= a.push(c));
        assert(all.drop_last() =~= a);
        assert(terms_and_rest(b) == (Seq::<Seq<char>>::empty(), Seq::<char>::empty()));
        assert(terms(a) + terms_and_rest(b).0 =~= terms(a));
        let (done, current) = terms_and_rest(a);
        if current.len() == 0 {
            assert(current =~= Seq::<char>::empty());
        }
    } else {
        lemma_terms_behind(a, c, b.drop_last());
        assert(all.drop_last() =~= a.push(c) + b.drop_last());
        let (done, current) = terms_and_rest(b.drop_last());
        assert(terms(a) + done.push(current) =~= (terms(a) + done).push(current));
    }
}

/// Whatever is no letter and no digit separates terms: those of a text are
/// those before it and those behind it.
pub proof fn lemma_terms_are_separated_by_anything_else(a: Seq<char>, c: char, b: Seq<char>)
    requires
        !text::alphanumeric(c),
    ensures
        terms(a.push(c) + b) == terms(a) + terms(b),
{
    lemma_terms_behind(a, c, b);
    let (done, current) = terms_and_rest(b);
    assert(terms(a) + done.push(current) =~= (terms(a) + done).push(current));
}

/// Letters and digits in a row are one term, in lower case.
pub proof fn lemma_letters_in_a_row_are_one_term(word: Seq<char>)
    requires
        forall|i: int| 0 <= i < word.len() ==> text::alphanumeric(#[trigger] word[i]),
    ensures
        terms_and_rest(word) == (Seq::<Seq<char>>::empty(), crate::search::lowered(word)),
        crate::search::lowered(word).len() > 0 ==> terms(word) == seq![
            crate::search::lowered(word),
        ],
        crate::search::lowered(word).len() == 0 ==> terms(word) == Seq::<Seq<char>>::empty(),
    decreases word.len(),
{
    if word.len() > 0 {
        let rest = word.drop_last();
        assert forall|i: int| 0 <= i < rest.len() implies text::alphanumeric(
            #[trigger] rest[i],
        ) by {
            assert(rest[i] == word[i]);
        }
        lemma_letters_in_a_row_are_one_term(rest);
        assert(text::alphanumeric(word[word.len() - 1]));
    }
    assert(terms(word) =~= if crate::search::lowered(word).len() > 0 {
        seq![crate::search::lowered(word)]
    } else {
        seq![]
    });
}

/// A word of the text counts once each time it is there, and a word of the
/// path four times; a note is as long as what was counted.
pub proof fn lemma_a_word_of_the_path_counts_four_times(
    id: Seq<char>,
    prose: Seq<char>,
    term: Seq<char>,
)
    ensures
        counted(document(id, prose).counts, term) == occurrences(terms(prose), term) + 4
            * occurrences(terms(id), term),
        document(id, prose).length == terms(prose).len() + 4 * terms(id).len(),
        document(id, prose).id == id,
{
    lemma_counts_are_occurrences(id, prose, term);
}

/// Which of some notes contain a term.
pub open spec fn having(documents: Seq<DocumentView>, term: Seq<char>) -> Set<int> {
    Set::new(|d: int| 0 <= d < documents.len() && documents[d].counts.contains_key(term))
}

/// A term's frequency is the number of notes that contain it.
pub proof fn lemma_frequency_is_how_many_have_it(documents: Seq<DocumentView>, term: Seq<char>)
    ensures
        having(documents, term).finite(),
        frequency(documents, term) == having(documents, term).len(),
    decreases documents.len(),
{
    if documents.len() == 0 {
        assert(having(documents, term) =~= Set::<int>::empty());
    } else {
        let rest = documents.drop_last();
        let n = rest.len() as int;
        lemma_frequency_is_how_many_have_it(rest, term);
        assert(forall|d: int| 0 <= d < n ==> #[trigger] rest[d] == documents[d]);
        if having(documents, term).contains(n) {
            assert(having(documents, term) =~= having(rest, term).insert(n));
        } else {
            assert(having(documents, term) =~= having(rest, term));
        }
    }
}

/// What a term of a query adds to what it finds in a note: how often the note
/// has it and how many notes do, if the note has it and either there are fewer
/// than four notes or fewer than half of them have it; and else nothing.
pub proof fn lemma_what_a_term_adds(
    documents: Seq<DocumentView>,
    document: DocumentView,
    a: Seq<Seq<char>>,
    term: Seq<char>,
    b: Seq<Seq<char>>,
)
    ensures
        ({
            let n = having(documents, term).len();
            found(documents, document, a.push(term) + b) == found(documents, document, a) + (
            if document.counts.contains_key(term) && (documents.len() < 4 || n + n
                < documents.len()) {
                seq![(document.counts[term], n)]
            } else {
                seq![]
            }) + found(documents, document, b)
        }),
        found(documents, document, seq![]) == Seq::<(nat, nat)>::empty(),
    decreases b.len(),
{
    lemma_frequency_is_how_many_have_it(documents, term);
    let all = a.push(term) + b;
    let n = having(documents, term).len();
    let here = if document.counts.contains_key(term) && (documents.len() < 4 || n + n
        < documents.len()) {
        seq![(document.counts[term], n)]
    } else {
        seq![]
    };
    if b.len() == 0 {
        assert(all =~= a.push(term));
        assert(all.drop_last() =~= a);
        assert(found(documents, document, b) =~= seq![]);
    } else {
        lemma_what_a_term_adds(documents, document, a, term, b.drop_last());
        assert(all.drop_last() =~= a.push(term) + b.drop_last());
    }
    assert(found(documents, document, all) =~= found(documents, document, a) + here + found(
        documents,
        document,
        b,
    ));
}

/// A term of a query is evidence unless it is a stopword.
pub proof fn lemma_only_stopwords_are_left_out(
    a: Seq<Seq<char>>,
    term: Seq<char>,
    b: Seq<Seq<char>>,
)
    ensures
        evidence_terms(a.push(term) + b) == evidence_terms(a) + (if stopword_list().contains(
            term,
        ) {
            seq![]
        } else {
            seq![term]
        }) + evidence_terms(b),
        evidence_terms(seq![]) == Seq::<Seq<char>>::empty(),
    decreases b.len(),
{
    let all = a.push(term) + b;
    let here = if stopword_list().contains(term) {
        seq![]
    } else {
        seq![term]
    };
    if b.len() == 0 {
        assert(all =~= a.push(term));
        assert(all.drop_last() =~= a);
    } else {
        lemma_only_stopwords_are_left_out(a, term, b.drop_last());
        assert(all.drop_last() =~= a.push(term) + b.drop_last());
    }
    assert(evidence_terms(all) =~= evidence_terms(a) + here + evidence_terms(b));
}

/// A note is among what a query finds exactly if any of its terms finds
/// something in it, and with all that they find.
pub proof fn lemma_a_note_is_found_on_any_evidence(
    documents: Seq<DocumentView>,
    a: Seq<DocumentView>,
    document: DocumentView,
    b: Seq<DocumentView>,
    terms: Seq<Seq<char>>,
)
    ensures
        ({
            let matches = found(documents, document, terms);
            evidence(documents, a.push(document) + b, terms) == evidence(documents, a, terms) + (
            if matches.len() > 0 {
                seq![EvidenceView { id: document.id, length: document.length, matches }]
            } else {
                seq![]
            }) + evidence(documents, b, terms)
        }),
        evidence(documents, seq![], terms) == Seq::<EvidenceView>::empty(),
    decreases b.len(),
{
    let all = a.push(document) + b;
    let matches = found(documents, document, terms);
    let here = if matches.len() > 0 {
        seq![EvidenceView { id: document.id, length: document.length, matches }]
    } else {
        seq![]
    };
    if b.len() == 0 {
        assert(all =~= a.push(document));
        assert(all.drop_last() =~= a);
    } else {
        lemma_a_note_is_found_on_any_evidence(documents, a, document, b.drop_last(), terms);
        assert(all.drop_last() =~= a.push(document) + b.drop_last());
    }
    assert(evidence(documents, all, terms) =~= evidence(documents, a, terms) + here + evidence(
        documents,
        b,
        terms,
    ));
}

/// Every note of an index is counted once, by its path and its text, in the
/// order of the ids.
pub proof fn lemma_every_note_is_counted_once(entries: Map<Seq<char>, index::EntryView>)
    requires
        entries.dom().finite(),
    ensures
        documents(entries).len() == entries.dom().len(),
        forall|i: int|
            0 <= i < documents(entries).len() ==> {
                let d = #[trigger] documents(entries)[i];
                entries.contains_key(d.id) && d == document(d.id, entries[d.id].text)
            },
        forall|i: int, j: int|
            0 <= i < j < documents(entries).len() ==> ordered::precedes(
                (#[trigger] documents(entries)[i]).id,
                (#[trigger] documents(entries)[j]).id,
            ),
{
    let ids = ordered::ascending(entries.dom());
    ordered::lemma_ascending(entries.dom());
    ordered::lemma_ascending_apart(entries.dom());
    assert forall|i: int| 0 <= i < documents(entries).len() implies {
        let d = #[trigger] documents(entries)[i];
        entries.contains_key(d.id) && d == document(d.id, entries[d.id].text)
    } by {
        assert(ids.contains(ids[i]));
    }
}

/// The words that are no evidence are these and no others.
pub proof fn lemma_which_words_are_no_evidence(word: Seq<char>)
    ensures
        stopword_list().contains(word) == ({
            ||| word == "a"@
            ||| word == "about"@
            ||| word == "all"@
            ||| word == "an"@
            ||| word == "and"@
            ||| word == "any"@
            ||| word == "are"@
            ||| word == "as"@
            ||| word == "at"@
            ||| word == "be"@
            ||| word == "been"@
            ||| word == "but"@
            ||| word == "by"@
            ||| word == "can"@
            ||| word == "did"@
            ||| word == "do"@
            ||| word == "does"@
            ||| word == "for"@
            ||| word == "from"@
            ||| word == "had"@
            ||| word == "has"@
            ||| word == "have"@
            ||| word == "he"@
            ||| word == "her"@
            ||| word == "his"@
            ||| word == "how"@
            ||| word == "i"@
            ||| word == "if"@
            ||| word == "in"@
            ||| word == "is"@
            ||| word == "it"@
            ||| word == "its"@
            ||| word == "me"@
            ||| word == "my"@
            ||| word == "no"@
            ||| word == "not"@
            ||| word == "of"@
            ||| word == "on"@
            ||| word == "one"@
            ||| word == "or"@
            ||| word == "our"@
            ||| word == "out"@
            ||| word == "she"@
            ||| word == "so"@
            ||| word == "some"@
            ||| word == "than"@
            ||| word == "that"@
            ||| word == "the"@
            ||| word == "their"@
            ||| word == "them"@
            ||| word == "then"@
            ||| word == "there"@
            ||| word == "these"@
            ||| word == "they"@
            ||| word == "this"@
            ||| word == "to"@
            ||| word == "up"@
            ||| word == "was"@
            ||| word == "we"@
            ||| word == "were"@
            ||| word == "what"@
            ||| word == "when"@
            ||| word == "where"@
            ||| word == "which"@
            ||| word == "who"@
            ||| word == "why"@
            ||| word == "will"@
            ||| word == "with"@
            ||| word == "would"@
            ||| word == "you"@
            ||| word == "your"@
        }),
{
    let list = stopword_list();
    assert(list[0] == "a"@);
    assert(list[1] == "about"@);
    assert(list[2] == "all"@);
    assert(list[3] == "an"@);
    assert(list[4] == "and"@);
    assert(list[5] == "any"@);
    assert(list[6] == "are"@);
    assert(list[7] == "as"@);
    assert(list[8] == "at"@);
    assert(list[9] == "be"@);
    assert(list[10] == "been"@);
    assert(list[11] == "but"@);
    assert(list[12] == "by"@);
    assert(list[13] == "can"@);
    assert(list[14] == "did"@);
    assert(list[15] == "do"@);
    assert(list[16] == "does"@);
    assert(list[17] == "for"@);
    assert(list[18] == "from"@);
    assert(list[19] == "had"@);
    assert(list[20] == "has"@);
    assert(list[21] == "have"@);
    assert(list[22] == "he"@);
    assert(list[23] == "her"@);
    assert(list[24] == "his"@);
    assert(list[25] == "how"@);
    assert(list[26] == "i"@);
    assert(list[27] == "if"@);
    assert(list[28] == "in"@);
    assert(list[29] == "is"@);
    assert(list[30] == "it"@);
    assert(list[31] == "its"@);
    assert(list[32] == "me"@);
    assert(list[33] == "my"@);
    assert(list[34] == "no"@);
    assert(list[35] == "not"@);
    assert(list[36] == "of"@);
    assert(list[37] == "on"@);
    assert(list[38] == "one"@);
    assert(list[39] == "or"@);
    assert(list[40] == "our"@);
    assert(list[41] == "out"@);
    assert(list[42] == "she"@);
    assert(list[43] == "so"@);
    assert(list[44] == "some"@);
    assert(list[45] == "than"@);
    assert(list[46] == "that"@);
    assert(list[47] == "the"@);
    assert(list[48] == "their"@);
    assert(list[49] == "them"@);
    assert(list[50] == "then"@);
    assert(list[51] == "there"@);
    assert(list[52] == "these"@);
    assert(list[53] == "they"@);
    assert(list[54] == "this"@);
    assert(list[55] == "to"@);
    assert(list[56] == "up"@);
    assert(list[57] == "was"@);
    assert(list[58] == "we"@);
    assert(list[59] == "were"@);
    assert(list[60] == "what"@);
    assert(list[61] == "when"@);
    assert(list[62] == "where"@);
    assert(list[63] == "which"@);
    assert(list[64] == "who"@);
    assert(list[65] == "why"@);
    assert(list[66] == "will"@);
    assert(list[67] == "with"@);
    assert(list[68] == "would"@);
    assert(list[69] == "you"@);
    assert(list[70] == "your"@);
    if list.contains(word) {
        let i = choose|i: int| 0 <= i < list.len() && list[i] == word;
    }
}

} // verus!
