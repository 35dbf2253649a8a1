//! What a scan of a note's text yields: how its characters are styled, and
//! what it links to.

use crate::text;
use vstd::prelude::*;

verus! {

/// How a run of characters is styled.
#[derive(Debug, Clone, Copy, PartialEq, Eq, Structural)]
pub enum Style {
    Frontmatter,
    CodeBlock,
    TableDelimiter,
    TableRow,
    Rule,
    Heading(u8),
    Quote,
    ListItem(usize),
    Task(bool),
    Code,
    Embed,
    WikiLink,
    Link,
    Tag,
    Bold,
    Strikethrough,
    Italic,
}

/// A styled run, by the offsets of its characters.
#[derive(Debug, Clone, Copy, PartialEq, Eq, Structural)]
pub struct Span {
    pub start: usize,
    pub end: usize,
    pub style: Style,
}

/// A styled run, in numbers without bound.
pub struct SpanView {
    pub start: int,
    pub end: int,
    pub style: Style,
}

impl View for Span {
    type V = SpanView;

    open spec fn view(&self) -> SpanView {
        SpanView { start: self.start as int, end: self.end as int, style: self.style }
    }
}

/// A run of characters that is syntax rather than content.
#[derive(Debug, Clone, Copy, PartialEq, Eq, Structural)]
pub struct Marker {
    pub start: usize,
    pub end: usize,
}

impl View for Marker {
    type V = (int, int);

    open spec fn view(&self) -> (int, int) {
        (self.start as int, self.end as int)
    }
}

/// Everything a scan found, in the order it was found.
#[derive(Debug, PartialEq, Eq)]
pub struct Parsed {
    pub spans: Vec<Span>,
    pub markers: Vec<Marker>,
}

/// Everything a scan found, in numbers without bound.
#[verifier::ext_equal]
pub struct Marks {
    pub spans: Seq<SpanView>,
    pub markers: Seq<(int, int)>,
}

impl View for Parsed {
    type V = Marks;

    open spec fn view(&self) -> Marks {
        Marks { spans: text::views(self.spans@), markers: text::views(self.markers@) }
    }
}

/// A scan with one more span in it, unless the span is empty.
pub open spec fn with_span(marks: Marks, start: int, end: int, style: Style) -> Marks {
    if start < end {
        Marks { spans: marks.spans.push(SpanView { start, end, style }), ..marks }
    } else {
        marks
    }
}

/// A scan with one more marker in it, unless the marker is empty.
pub open spec fn with_marker(marks: Marks, start: int, end: int) -> Marks {
    if start < end {
        Marks { markers: marks.markers.push((start, end)), ..marks }
    } else {
        marks
    }
}

impl Parsed {
    /// A scan that has found nothing yet.
    pub fn new() -> (r: Self)
        ensures
            r@ == (Marks { spans: seq![], markers: seq![] }),
    {
        let r = Parsed { spans: Vec::new(), markers: Vec::new() };
        assert(r@ =~= (Marks { spans: seq![], markers: seq![] }));
        r
    }

    /// Style a run of characters.
    pub fn push_span(&mut self, start: usize, end: usize, style: Style)
        ensures
            final(self)@ == with_span(old(self)@, start as int, end as int, style),
    {
        if start < end {
            let span = Span { start, end, style };
            proof {
                text::lemma_views_push(self.spans@, span);
            }
            self.spans.push(span);
        }
    }

    /// Mark a run of characters as syntax.
    pub fn push_marker(&mut self, start: usize, end: usize)
        ensures
            final(self)@ == with_marker(old(self)@, start as int, end as int),
    {
        if start < end {
            let marker = Marker { start, end };
            proof {
                text::lemma_views_push(self.markers@, marker);
            }
            self.markers.push(marker);
        }
    }
}

/// What kind of line a line begins as.
#[derive(Debug, Clone, Copy, PartialEq, Eq, Structural)]
pub enum LineState {
    Normal,
    Frontmatter,
    Fence,
    Table,
}

/// The indents of the list items a line is nested in, each deeper than the one
/// before it.
#[derive(Debug, PartialEq, Eq)]
pub struct ListLevels {
    levels: Vec<usize>,
}

/// The levels that an item at an indent is nested in or beside.
pub open spec fn within(levels: Seq<usize>, indent: usize) -> Seq<usize>
    decreases levels.len(),
{
    if levels.len() > 0 && levels.last() > indent {
        within(levels.drop_last(), indent)
    } else {
        levels
    }
}

/// The levels once an item at an indent is among them.
pub open spec fn nested(levels: Seq<usize>, indent: usize) -> Seq<usize> {
    let outer = within(levels, indent);
    if outer.len() > 0 && outer.last() == indent {
        outer
    } else {
        outer.push(indent)
    }
}

/// Whether each level is deeper than the one before it.
pub open spec fn is_nesting(levels: Seq<usize>) -> bool {
    forall|i: int, j: int| 0 <= i < j < levels.len() ==> levels[i] < levels[j]
}

impl View for ListLevels {
    type V = Seq<usize>;

    closed spec fn view(&self) -> Seq<usize> {
        self.levels@
    }
}

impl ListLevels {
    /// Outside any list.
    pub fn new() -> (r: Self)
        ensures
            r@ == Seq::<usize>::empty(),
    {
        ListLevels { levels: Vec::new() }
    }

    /// Leave the list.
    pub fn clear(&mut self)
        ensures
            final(self)@ == Seq::<usize>::empty(),
    {
        self.levels = Vec::new();
    }

    /// How deeply an item at an indent is nested, counting from none.
    pub fn depth(&mut self, indent: usize) -> (r: usize)
        ensures
            final(self)@ == nested(old(self)@, indent),
            r == nested(old(self)@, indent).len() - 1,
    {
        let ghost was = self.levels@;
        while self.levels.len() > 0 && self.levels[self.levels.len() - 1] > indent
            invariant
                within(was, indent) == within(self.levels@, indent),
            decreases self.levels@.len(),
        {
            self.levels.pop();
        }
        let n = self.levels.len();
        if n == 0 || self.levels[n - 1] != indent {
            self.levels.push(indent);
        }
        self.levels.len() - 1
    }
}

/// Levels stay a nesting whatever items come.
pub proof fn lemma_levels_stay_nested(levels: Seq<usize>, indent: usize)
    requires
        is_nesting(levels),
    ensures
        is_nesting(nested(levels, indent)),
        nested(levels, indent).len() > 0,
        nested(levels, indent).last() == indent,
{
    lemma_within(levels, indent);
}

/// An item is nested in the items above it that are indented less, and in no
/// others: its depth is how many those are.
pub proof fn lemma_an_item_is_nested_in_those_indented_less(levels: Seq<usize>, indent: usize)
    requires
        is_nesting(levels),
    ensures
        ({
            let depth = nested(levels, indent).len() - 1;
            &&& 0 <= depth <= levels.len()
            &&& nested(levels, indent) == levels.take(depth).push(indent)
            &&& forall|i: int| 0 <= i < depth ==> levels[i] < indent
            &&& forall|i: int| depth <= i < levels.len() ==> levels[i] >= indent
        }),
    decreases levels.len(),
{
    if levels.len() > 0 && levels.last() > indent {
        let rest = levels.drop_last();
        lemma_an_item_is_nested_in_those_indented_less(rest, indent);
        let depth = nested(levels, indent).len() - 1;
        assert(rest.take(depth) =~= levels.take(depth));
        assert forall|i: int| depth <= i < levels.len() implies levels[i] >= indent by {
            if i < rest.len() {
                assert(rest[i] == levels[i]);
            }
        }
        assert forall|i: int| 0 <= i < depth implies levels[i] < indent by {
            assert(rest[i] == levels[i]);
        }
    } else if levels.len() > 0 && levels.last() == indent {
        assert(levels.take(levels.len() - 1).push(indent) =~= levels);
    } else {
        assert(levels.take(levels.len() as int) =~= levels);
    }
}

proof fn lemma_within(levels: Seq<usize>, indent: usize)
    requires
        is_nesting(levels),
    ensures
        is_nesting(within(levels, indent)),
        forall|i: int|
            0 <= i < within(levels, indent).len() ==> #[trigger] within(levels, indent)[i]
                <= indent,
    decreases levels.len(),
{
    if levels.len() > 0 && levels.last() > indent {
        lemma_within(levels.drop_last(), indent);
    }
}

// ---- what a note links to ----

/// A link in a note's body.
#[derive(Debug, PartialEq, Eq)]
pub struct Link {
    /// What stands between the brackets, up to a pipe.
    pub target: String,
    /// Where the link starts and ends, by the offsets of its characters.
    pub start: usize,
    pub end: usize,
    /// The line that holds the link, with its markup stripped.
    pub line: String,
}

/// A link, by its texts.
#[verifier::ext_equal]
pub struct LinkView {
    pub target: Seq<char>,
    pub start: int,
    pub end: int,
    pub line: Seq<char>,
}

impl View for Link {
    type V = LinkView;

    open spec fn view(&self) -> LinkView {
        LinkView {
            target: self.target@,
            start: self.start as int,
            end: self.end as int,
            line: self.line@,
        }
    }
}

/// Everything one scan of a note's body yields.
#[derive(Debug, PartialEq, Eq)]
pub struct Scan {
    /// The `[[links]]`, in order.
    pub links: Vec<Link>,
    /// What the `![[embeds]]` name, in order.
    pub embeds: Vec<String>,
    /// The tags, without their hashes, in order.
    pub tags: Vec<String>,
    /// The body with its markup stripped.
    pub text: String,
}

/// A scan, by its texts.
#[verifier::ext_equal]
pub struct ScanView {
    pub links: Seq<LinkView>,
    pub embeds: Seq<Seq<char>>,
    pub tags: Seq<Seq<char>>,
    pub text: Seq<char>,
}

impl View for Scan {
    type V = ScanView;

    open spec fn view(&self) -> ScanView {
        ScanView {
            links: text::views(self.links@),
            embeds: text::views(self.embeds@),
            tags: text::views(self.tags@),
            text: self.text@,
        }
    }
}

/// The line that holds the character at an offset: from behind the last line
/// feed before it to the next one.
pub open spec fn line_at(body: Seq<char>, offset: int) -> Seq<char> {
    let before = if offset < body.len() {
        body.take(offset)
    } else {
        body
    };
    let start = match text::find_last(before, '\n') {
        Some(i) => i + 1,
        None => 0,
    };
    match text::find_char(body, '\n', start) {
        Some(end) => body.subrange(start, end),
        None => body.skip(start),
    }
}

/// The line that holds the character at an offset.
pub fn line_holding(body: &str, offset: usize) -> (r: String)
    ensures
        r@ == line_at(body@, offset as int),
{
    let chars = text::chars_of(body);
    let len = chars.len();
    let upto = if offset < len {
        offset
    } else {
        len
    };
    let before = text::part(&chars, 0, upto);
    assert(before@ =~= if offset < len {
        body@.take(offset as int)
    } else {
        body@
    });
    let start: usize = match text::last_position_of(&before, '\n') {
        Some(i) => i + 1,
        None => 0,
    };
    match text::position_of(&chars, '\n', start) {
        Some(end) => text::string_of(&text::part(&chars, start, end)),
        None => {
            let rest = text::part(&chars, start, len);
            assert(rest@ =~= body@.skip(start as int));
            text::string_of(&rest)
        },
    }
}

} // verus!
