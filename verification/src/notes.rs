//! The vault a server keeps, as ordinary Markdown files.
//!
//! What to do is decided here, from an id off the network and what the file
//! held; whoever owns the filesystem reads, writes and removes.
//!
//! Stale writes are refused, not merged. Every write carries the hash the
//! client last saw. If the file has moved on since, the write is refused with
//! the current hash: the server never merges and never picks a winner.

use crate::ordered;
use crate::ordered::TextMap;
use crate::paths;
use crate::sync;
use crate::text;
use vstd::prelude::*;

verus! {

// ---- what goes over the wire ----

/// One note as the server sees it.
#[derive(Debug, Clone, PartialEq, Eq)]
pub struct Listed {
    pub id: String,
    pub hash: u64,
}

impl View for Listed {
    type V = (Seq<char>, u64);

    open spec fn view(&self) -> (Seq<char>, u64) {
        (self.id@, self.hash)
    }
}

/// Every note the server holds.
#[derive(Debug)]
pub struct ListResponse {
    pub notes: Vec<Listed>,
}

/// The notes a client asks for.
#[derive(Debug)]
pub struct GetRequest {
    pub ids: Vec<String>,
}

/// One note with its text.
#[derive(Debug, Clone, PartialEq, Eq)]
pub struct Fetched {
    pub id: String,
    pub text: String,
    pub hash: u64,
}

/// The notes a client asked for.
#[derive(Debug)]
pub struct GetResponse {
    pub notes: Vec<Fetched>,
}

/// A note a client writes.
#[derive(Debug)]
pub struct PutRequest {
    pub id: String,
    pub text: String,
    /// The hash the client last saw, or `None` for "this should be new".
    pub base: Option<u64>,
}

/// A note a client removes.
#[derive(Debug)]
pub struct DeleteRequest {
    pub id: String,
    pub base: Option<u64>,
}

/// What the server holds now, when it refused a write.
#[derive(Debug)]
pub struct Stale {
    /// Absent when the note has been deleted on the server.
    pub current: Option<u64>,
}

// ---- from an id to a path ----

/// Why an id was not acceptable. There is exactly one recovery: do not touch
/// the filesystem.
#[derive(Debug, Clone, Copy, PartialEq, Eq, Structural)]
pub struct BadId;

/// Whether a segment of an id is an ordinary name.
pub open spec fn is_ordinary(segment: Seq<char>) -> bool {
    segment.len() > 0 && segment[0] != '.' && !segment.contains('\\') && !segment.contains('\0')
}

/// Whether an id names a note inside the vault: every segment is an ordinary
/// name, the whole ends in `.md`, and it is not unreasonably long.
pub open spec fn is_acceptable(id: Seq<char>) -> bool {
    &&& id.len() > 0
    &&& ".md"@.is_suffix_of(id)
    &&& vstd::utf8::encode_utf8(id).len() <= 1024
    &&& forall|i: int|
        0 <= i < text::split_on(id, '/').len() ==> is_ordinary(#[trigger] text::split_on(id, '/')[i])
}

/// Where a note is kept.
pub open spec fn path(root: Seq<char>, id: Seq<char>) -> Seq<char> {
    paths::joined_all(root, text::split_on(id, '/'))
}

fn ordinary(segment: &[char]) -> (r: bool)
    ensures
        r == is_ordinary(segment@),
{
    segment.len() > 0 && segment[0] != '.' && !text::has_char(segment, '\\') && !text::has_char(
        segment,
        '\0',
    )
}

/// Turn a vault-relative id into a path inside `root`, or refuse.
///
/// This is the only thing standing between a note id off the network and the
/// filesystem, so it allows rather than forbids: every segment must be an
/// ordinary name, the whole thing must end in `.md`, and anything else is
/// refused.
pub fn path_of(root: &str, id: &str) -> (r: Result<String, BadId>)
    ensures
        match r {
            Ok(p) => is_acceptable(id@) && p@ == path(root@, id@),
            Err(_) => !is_acceptable(id@),
        },
{
    let chars = text::chars_of(id);
    let md = text::chars_of(".md");
    if chars.len() == 0 || !text::ends(&chars, &md) || text::bytes_of(id).len() > 1024 {
        return Err(BadId);
    }
    let segments = text::split_chars(&chars, '/');
    let ghost all = text::views(segments@);
    let mut i: usize = 0;
    while i < segments.len()
        invariant
            i <= segments@.len(),
            all == text::views(segments@),
            all == text::split_on(id@, '/'),
            forall|j: int| 0 <= j < i ==> is_ordinary(#[trigger] all[j]),
        decreases segments@.len() - i,
    {
        assert(all[i as int] == segments@[i as int]@);
        if !ordinary(&segments[i]) {
            return Err(BadId);
        }
        i = i + 1;
    }
    Ok(text::string_of(&paths::join_all(&text::chars_of(root), &segments)))
}

/// A note's path stays inside the vault: its components are those of the root
/// and then the segments of the id, at least one of them, and none of those
/// leads anywhere but down.
pub proof fn lemma_a_path_stays_under_its_root(root: Seq<char>, id: Seq<char>)
    requires
        is_acceptable(id),
    ensures
        paths::components(path(root, id)) == paths::components(root) + text::split_on(id, '/'),
        paths::components(path(root, id)).len() > paths::components(root).len(),
        forall|i: int|
            paths::components(root).len() <= i < paths::components(path(root, id)).len()
                ==> is_ordinary(#[trigger] paths::components(path(root, id))[i]),
{
    let segments = text::split_on(id, '/');
    text::lemma_split_nonempty(id, '/');
    text::lemma_split_pieces(id, '/');
    assert forall|i: int| 0 <= i < segments.len() implies paths::is_plain(
        #[trigger] segments[i],
    ) by {
        assert(is_ordinary(segments[i]));
        if segments[i].contains('/') {
            let j = choose|j: int| 0 <= j < segments[i].len() && segments[i][j] == '/';
            assert(segments[i][j] != '/');
        }
    }
    paths::lemma_joined_all_components(root, segments);
    let c = paths::components(path(root, id));
    let n = paths::components(root).len();
    assert forall|i: int| n <= i < c.len() implies is_ordinary(#[trigger] c[i]) by {
        assert(c[i] == segments[i - n]);
    }
}

// ---- the vault ----

/// What a write did.
#[derive(Debug, PartialEq, Eq)]
pub enum Wrote {
    /// Applied. The note's hash now.
    Done(u64),
    /// Refused: the server has moved on since the client last looked.
    Stale(Option<u64>),
    Rejected(BadId),
    Failed(String),
}

/// What a request to write or remove comes to.
#[derive(Debug, PartialEq, Eq)]
pub enum Deed {
    /// Nothing to do but say so.
    Answer(Wrote),
    /// Put the text at `path`, by way of `temporary`; the note's hash is then
    /// `hash`.
    Write { path: String, temporary: String, hash: u64 },
    /// Remove the file at `path`, and those of `folders` that are then empty,
    /// in turn until one is not.
    Remove { path: String, folders: Vec<String> },
}

/// What a request comes to, by its texts.
pub enum DeedView {
    Done(u64),
    Stale(Option<u64>),
    Rejected,
    Failed(Seq<char>),
    Write { path: Seq<char>, temporary: Seq<char>, hash: u64 },
    Remove { path: Seq<char>, folders: Seq<Seq<char>> },
}

impl View for Wrote {
    type V = DeedView;

    open spec fn view(&self) -> DeedView {
        match self {
            Wrote::Done(hash) => DeedView::Done(*hash),
            Wrote::Stale(current) => DeedView::Stale(*current),
            Wrote::Rejected(_) => DeedView::Rejected,
            Wrote::Failed(error) => DeedView::Failed(error@),
        }
    }
}

impl View for Deed {
    type V = DeedView;

    open spec fn view(&self) -> DeedView {
        match self {
            Deed::Answer(wrote) => wrote@,
            Deed::Write { path, temporary, hash } => DeedView::Write {
                path: path@,
                temporary: temporary@,
                hash: *hash,
            },
            Deed::Remove { path, folders } => DeedView::Remove {
                path: path@,
                folders: text::views(folders@),
            },
        }
    }
}

/// The hash of what a file holds.
pub open spec fn hash_of(held: Option<Seq<char>>) -> Option<u64> {
    match held {
        Some(text) => Some(sync::fnv(vstd::utf8::encode_utf8(text))),
        None => None,
    }
}

/// What becomes of a write.
pub open spec fn writing(
    root: Seq<char>,
    id: Seq<char>,
    text: Seq<char>,
    base: Option<u64>,
    held: Option<Seq<char>>,
) -> DeedView {
    let hash = sync::fnv(vstd::utf8::encode_utf8(text));
    if !is_acceptable(id) {
        DeedView::Rejected
    } else if hash_of(held) != base {
        DeedView::Stale(hash_of(held))
    } else if hash_of(held) == Some(hash) {
        DeedView::Done(hash)
    } else {
        DeedView::Write { path: path(root, id), temporary: path(root, id) + ".tmp"@, hash }
    }
}

/// The folders between a note and the root, the deepest first.
pub open spec fn folders(root: Seq<char>, segments: Seq<Seq<char>>) -> Seq<Seq<char>>
    decreases segments.len(),
{
    if segments.len() <= 1 {
        seq![]
    } else {
        let above = segments.drop_last();
        seq![paths::joined_all(root, above)] + folders(root, above)
    }
}

/// What becomes of a removal.
pub open spec fn removing(
    root: Seq<char>,
    id: Seq<char>,
    base: Option<u64>,
    held: Option<Seq<char>>,
) -> DeedView {
    if !is_acceptable(id) {
        DeedView::Rejected
    } else if held is None {
        DeedView::Done(0)
    } else if hash_of(held) != base {
        DeedView::Stale(hash_of(held))
    } else {
        DeedView::Remove {
            path: path(root, id),
            folders: folders(root, text::split_on(id, '/')),
        }
    }
}

/// The hash of every note in a walk of the vault, a later file in place of an
/// earlier under the same id.
pub open spec fn hashes(files: Seq<(Seq<char>, Seq<char>)>) -> Map<Seq<char>, u64>
    decreases files.len(),
{
    if files.len() == 0 {
        Map::empty()
    } else {
        let (id, text) = files.last();
        hashes(files.drop_last()).insert(
            with_slashes(id),
            sync::fnv(vstd::utf8::encode_utf8(text)),
        )
    }
}

/// A path with backslashes turned into slashes.
pub open spec fn with_slashes(path: Seq<char>) -> Seq<char> {
    path.map_values(
        |c: char|
            if c == '\\' {
                '/'
            } else {
                c
            },
    )
}

/// Whether a directory entry is looked at: dotfiles are somebody else's.
pub open spec fn is_visible(name: Seq<char>) -> bool {
    name.len() == 0 || name[0] != '.'
}

/// Whether a file is a note.
pub open spec fn is_note(name: Seq<char>) -> bool {
    is_visible(name) && ".md"@.is_suffix_of(name)
}

/// Whether a walk goes into the directory entry of this name.
pub fn visible(name: &str) -> (r: bool)
    ensures
        r == is_visible(name@),
{
    let chars = text::chars_of(name);
    chars.len() == 0 || chars[0] != '.'
}

/// Whether the file of this name is a note.
pub fn note(name: &str) -> (r: bool)
    ensures
        r == is_note(name@),
{
    visible(name) && text::ends(&text::chars_of(name), &text::chars_of(".md"))
}

/// The texts of some files.
pub open spec fn file_views(files: Seq<(String, String)>) -> Seq<(Seq<char>, Seq<char>)> {
    Seq::new(files.len(), |i: int| (files[i].0@, files[i].1@))
}

/// The notes of a map from ids to hashes, in order.
pub open spec fn listing(notes: Map<Seq<char>, u64>) -> Seq<(Seq<char>, u64)> {
    ordered::ascending(notes.dom()).map_values(|id: Seq<char>| (id, notes[id]))
}

/// The vault on disk.
#[derive(Debug)]
pub struct Vault {
    root: String,
}

impl View for Vault {
    type V = Seq<char>;

    closed spec fn view(&self) -> Seq<char> {
        self.root@
    }
}

impl Vault {
    /// The vault at a root.
    pub fn new(root: String) -> (r: Self)
        ensures
            r@ == root@,
    {
        Vault { root }
    }

    /// Where the vault is.
    pub fn root(&self) -> (r: &str)
        ensures
            r@ == self@,
    {
        self.root.as_str()
    }

    /// Every note, with the hash of its bytes, out of the files a walk found:
    /// each with its path below the root and what it holds. This is the remote
    /// snapshot the client's planner compares against.
    pub fn list(&self, files: &Vec<(String, String)>) -> (r: Vec<Listed>)
        ensures
            text::views(r@) == listing(hashes(file_views(files@))),
    {
        let mut notes: TextMap<String, u64> = TextMap::new();
        let ghost all = file_views(files@);
        let mut i: usize = 0;
        while i < files.len()
            invariant
                i <= files@.len(),
                all == file_views(files@),
                notes@ == hashes(all.take(i as int)),
            decreases files@.len() - i,
        {
            assert(all.take(i + 1).drop_last() =~= all.take(i as int));
            let (path, text) = &files[i];
            assert(all.take(i + 1).last() == (path@, text@));
            notes.insert(slashed(path.as_str()), sync::Hash::of(text.as_str()).0);
            i = i + 1;
        }
        assert(all.take(all.len() as int) =~= all);
        let ghost map = notes@;
        let ghost ids = ordered::ascending(map.dom());
        let ghost wanted = listing(map);
        let n = notes.len();
        let mut r: Vec<Listed> = Vec::new();
        let mut i: usize = 0;
        while i < n
            invariant
                i <= n == ids.len(),
                map == notes@,
                ids == ordered::ascending(map.dom()),
                wanted == listing(map),
                text::views(r@) == wanted.take(i as int),
            decreases n - i,
        {
            let listed = Listed {
                id: text::string_of(&text::chars_of(notes.key(i).as_str())),
                hash: *notes.value(i),
            };
            proof {
                text::lemma_views_push(r@, listed);
                assert(wanted[i as int] == (ids[i as int], map[ids[i as int]]));
                assert(wanted.take(i + 1) =~= wanted.take(i as int).push(wanted[i as int]));
            }
            r.push(listed);
            i = i + 1;
        }
        assert(wanted.take(n as int) =~= wanted);
        r
    }

    /// A note with its text, given what the file at its path held.
    pub fn read(&self, id: &str, held: Option<String>) -> (r: Option<Fetched>)
        ensures
            match r {
                Some(f) => is_acceptable(id@) && held is Some && f.id@ == id@ && f.text@
                    == held->Some_0@ && f.hash == sync::fnv(
                    vstd::utf8::encode_utf8(held->Some_0@),
                ),
                None => !is_acceptable(id@) || held is None,
            },
    {
        match path_of(self.root.as_str(), id) {
            Err(_) => None,
            Ok(_) => match held {
                None => None,
                Some(text) => {
                    let hash = sync::Hash::of(text.as_str()).0;
                    Some(Fetched { id: text::string_of(&text::chars_of(id)), text, hash })
                },
            },
        }
    }

    /// What becomes of a write, given what the file at the note's path holds:
    /// it is refused if the server has moved on since `base`.
    pub fn write(&self, id: &str, text: &str, base: Option<u64>, held: Option<&str>) -> (r: Deed)
        ensures
            r@ == writing(
                self@,
                id@,
                text@,
                base,
                match held {
                    Some(h) => Some(h@),
                    None => None,
                },
            ),
    {
        let path = match path_of(self.root.as_str(), id) {
            Ok(path) => path,
            Err(bad) => return Deed::Answer(Wrote::Rejected(bad)),
        };
        let current: Option<u64> = match held {
            Some(h) => Some(sync::Hash::of(h).0),
            None => None,
        };
        if !same_base(current, base) {
            return Deed::Answer(Wrote::Stale(current));
        }
        let hash = sync::Hash::of(text).0;
        if same_base(current, Some(hash)) {
            return Deed::Answer(Wrote::Done(hash));
        }
        let mut temporary = text::chars_of(path.as_str());
        text::extend(&mut temporary, &text::chars_of(".tmp"));
        Deed::Write { path, temporary: text::string_of(&temporary), hash }
    }

    /// What becomes of a removal, given what the file at the note's path
    /// holds: one that is already gone is gone, and one that has moved on
    /// since `base` stays.
    pub fn delete(&self, id: &str, base: Option<u64>, held: Option<&str>) -> (r: Deed)
        ensures
            r@ == removing(
                self@,
                id@,
                base,
                match held {
                    Some(h) => Some(h@),
                    None => None,
                },
            ),
    {
        let path = match path_of(self.root.as_str(), id) {
            Ok(path) => path,
            Err(bad) => return Deed::Answer(Wrote::Rejected(bad)),
        };
        let current: Option<u64> = match held {
            Some(h) => Some(sync::Hash::of(h).0),
            None => return Deed::Answer(Wrote::Done(0)),
        };
        if !same_base(current, base) {
            return Deed::Answer(Wrote::Stale(current));
        }
        Deed::Remove { path, folders: folders_above(self.root.as_str(), id) }
    }
}

fn slashed(path: &str) -> (r: String)
    ensures
        r@ == with_slashes(path@),
{
    let chars = text::chars_of(path);
    let ghost wanted = with_slashes(path@);
    let mut out: Vec<char> = Vec::new();
    let mut i: usize = 0;
    while i < chars.len()
        invariant
            i <= chars@.len(),
            chars@ == path@,
            wanted == with_slashes(path@),
            out@ == wanted.take(i as int),
        decreases chars@.len() - i,
    {
        let c = if chars[i] == '\\' {
            '/'
        } else {
            chars[i]
        };
        out.push(c);
        assert(wanted.take(i + 1) =~= wanted.take(i as int).push(c));
        i = i + 1;
    }
    assert(wanted.take(chars@.len() as int) =~= wanted);
    text::string_of(&out)
}

fn same_base(a: Option<u64>, b: Option<u64>) -> (r: bool)
    ensures
        r == (a == b),
{
    match (a, b) {
        (Some(x), Some(y)) => x == y,
        (None, None) => true,
        _ => false,
    }
}

fn folders_above(root: &str, id: &str) -> (r: Vec<String>)
    ensures
        text::views(r@) == folders(root@, text::split_on(id@, '/')),
{
    let mut segments = text::split_chars(&text::chars_of(id), '/');
    let start = text::chars_of(root);
    let mut r: Vec<String> = Vec::new();
    let ghost wanted = folders(root@, text::split_on(id@, '/'));
    assert(text::views(r@) + folders(root@, text::views(segments@)) =~= wanted);
    while segments.len() > 1
        invariant
            start@ == root@,
            text::views(r@) + folders(root@, text::views(segments@)) == wanted,
        decreases segments@.len(),
    {
        let ghost before = text::views(segments@);
        let ghost done = text::views(r@);
        segments.pop();
        assert(text::views(segments@) =~= before.drop_last());
        let folder = text::string_of(&paths::join_all(&start, &segments));
        proof {
            text::lemma_views_push(r@, folder);
        }
        r.push(folder);
        assert(text::views(r@) + folders(root@, text::views(segments@)) =~= done + folders(
            root@,
            before,
        ));
    }
    assert(folders(root@, text::views(segments@)) =~= Seq::<Seq<char>>::empty());
    assert(text::views(r@) =~= wanted);
    r
}

/// What a write or a removal did, once it was tried: `error` is what went
/// wrong, if anything did.
pub fn wrote(deed: Deed, error: Option<String>) -> (r: Wrote)
    ensures
        r@ == (match deed@ {
            DeedView::Write { hash, .. } => match error {
                None => DeedView::Done(hash),
                Some(e) => DeedView::Failed(e@),
            },
            DeedView::Remove { .. } => match error {
                None => DeedView::Done(0),
                Some(e) => DeedView::Failed(e@),
            },
            answer => answer,
        }),
{
    match deed {
        Deed::Answer(wrote) => wrote,
        Deed::Write { hash, .. } => match error {
            None => Wrote::Done(hash),
            Some(e) => Wrote::Failed(e),
        },
        Deed::Remove { .. } => match error {
            None => Wrote::Done(0),
            Some(e) => Wrote::Failed(e),
        },
    }
}

// ---- what holds of every write ----

/// A stale write is refused with what is there, and so is a stale removal: a
/// file is touched only by a client that knows what it holds.
pub proof fn lemma_stale_writes_are_refused(
    root: Seq<char>,
    id: Seq<char>,
    text: Seq<char>,
    base: Option<u64>,
    held: Option<Seq<char>>,
)
    requires
        is_acceptable(id),
        hash_of(held) != base,
    ensures
        writing(root, id, text, base, held) == DeedView::Stale(hash_of(held)),
        held is Some ==> removing(root, id, base, held) == DeedView::Stale(hash_of(held)),
        held is None ==> removing(root, id, base, held) == DeedView::Done(0),
{
}

/// An id that is not acceptable never reaches the filesystem.
pub proof fn lemma_a_bad_id_never_reaches_the_filesystem(
    root: Seq<char>,
    id: Seq<char>,
    text: Seq<char>,
    base: Option<u64>,
    held: Option<Seq<char>>,
)
    requires
        !is_acceptable(id),
    ensures
        writing(root, id, text, base, held) == DeedView::Rejected,
        removing(root, id, base, held) == DeedView::Rejected,
{
}

/// A write that is applied can be repeated by the client that made it: knowing
/// its own hash, it is told the same hash again and nothing is written.
pub proof fn lemma_writing_what_is_there_is_not_a_write(
    root: Seq<char>,
    id: Seq<char>,
    text: Seq<char>,
)
    requires
        is_acceptable(id),
    ensures
        writing(root, id, text, hash_of(Some(text)), Some(text)) == DeedView::Done(
            hash_of(Some(text))->0,
        ),
{
}

proof fn lemma_acceptable(id: Seq<char>)
    requires
        is_acceptable(id),
    ensures
        with_slashes(id) == id,
        forall|i: int|
            0 <= i < text::split_on(id, '/').len() ==> is_visible(
                #[trigger] text::split_on(id, '/')[i],
            ),
        text::split_on(id, '/').len() > 0,
        is_note(text::split_on(id, '/').last()),
{
    let segments = text::split_on(id, '/');
    text::lemma_split_nonempty(id, '/');
    text::lemma_split_pieces(id, '/');
    assert forall|k: int| 0 <= k < id.len() implies id[k] != '\\' by {
        if id[k] == '\\' {
            assert(id.contains('\\'));
            text::lemma_split_holds(id, '/', '\\');
            let i = choose|i: int|
                0 <= i < segments.len() && (#[trigger] segments[i]).contains('\\');
            assert(is_ordinary(segments[i]));
        }
    }
    assert(with_slashes(id) =~= id);
    reveal_strlit(".md");
    let last = segments.last();
    assert(is_ordinary(segments[segments.len() - 1]));
    paths::lemma_file_name_is_last(id);
    assert(last == paths::file_name(id));
    assert(".md"@ == id.subrange(id.len() - 3, id.len() as int));
    let from = id.len() - last.len();
    assert(forall|k: int| 0 <= k < last.len() ==> #[trigger] last[k] == id[from + k]);
    text::lemma_find_last(id, '/');
    if last.len() < 3 {
        if text::find_last(id, '/') is Some {
            assert(id[from - 1] == '/');
            assert(id[from - 1] == ".md"@[from - 1 - (id.len() - 3)]);
        }
    }
    assert(".md"@ =~= last.subrange(last.len() - 3, last.len() as int)) by {
        assert forall|k: int| 0 <= k < 3 implies ".md"@[k] == last[last.len() - 3 + k] by {
            assert(".md"@[k] == id[id.len() - 3 + k]);
        }
    }
}

proof fn lemma_hashes(files: Seq<(Seq<char>, Seq<char>)>)
    requires
        forall|i: int| 0 <= i < files.len() ==> is_acceptable((#[trigger] files[i]).0),
        forall|i: int, j: int|
            0 <= i < j < files.len() ==> (#[trigger] files[i]).0 != (#[trigger] files[j]).0,
    ensures
        hashes(files).dom().finite(),
        hashes(files).dom().len() == files.len(),
        forall|i: int|
            0 <= i < files.len() ==> hashes(files).contains_key((#[trigger] files[i]).0)
                && hashes(files)[files[i].0] == sync::fnv(vstd::utf8::encode_utf8(files[i].1)),
        forall|id: Seq<char>| #[trigger]
            hashes(files).contains_key(id) ==> exists|i: int|
                0 <= i < files.len() && (#[trigger] files[i]).0 == id,
    decreases files.len(),
{
    if files.len() > 0 {
        let rest = files.drop_last();
        assert forall|i: int| 0 <= i < rest.len() implies is_acceptable((#[trigger] rest[i]).0) by {
            assert(rest[i] == files[i]);
        }
        assert forall|i: int, j: int| 0 <= i < j < rest.len() implies (#[trigger] rest[i]).0 != (
        #[trigger] rest[j]).0 by {
            assert(rest[i] == files[i] && rest[j] == files[j]);
        }
        lemma_hashes(rest);
        let last = files[files.len() - 1];
        lemma_acceptable(last.0);
        let before = hashes(rest);
        let now = hashes(files);
        assert(now == before.insert(last.0, sync::fnv(vstd::utf8::encode_utf8(last.1))));
        assert(!before.contains_key(last.0)) by {
            if before.contains_key(last.0) {
                let i = choose|i: int| 0 <= i < rest.len() && (#[trigger] rest[i]).0 == last.0;
                assert(files[i] == rest[i]);
            }
        }
        assert forall|i: int| 0 <= i < files.len() implies now.contains_key((#[trigger] files[i]).0)
            && now[files[i].0] == sync::fnv(vstd::utf8::encode_utf8(files[i].1)) by {
            if i < rest.len() {
                assert(rest[i] == files[i]);
            }
        }
        assert forall|id: Seq<char>| #[trigger] now.contains_key(id) implies exists|i: int|
            0 <= i < files.len() && (#[trigger] files[i]).0 == id by {
            if id != last.0 {
                assert(before.contains_key(id));
                let i = choose|i: int| 0 <= i < rest.len() && (#[trigger] rest[i]).0 == id;
                assert(files[i].0 == id);
            } else {
                assert(files[files.len() - 1].0 == id);
            }
        }
    } else {
        assert(hashes(files).dom() =~= Set::empty());
    }
}

/// Different notes are kept at different paths.
pub proof fn lemma_different_notes_are_kept_apart(root: Seq<char>, a: Seq<char>, b: Seq<char>)
    requires
        is_acceptable(a),
        is_acceptable(b),
        path(root, a) == path(root, b),
    ensures
        a == b,
{
    lemma_a_path_stays_under_its_root(root, a);
    lemma_a_path_stays_under_its_root(root, b);
    let top = paths::components(root);
    let n = top.len() as int;
    assert((top + text::split_on(a, '/')).skip(n) =~= text::split_on(a, '/'));
    assert((top + text::split_on(b, '/')).skip(n) =~= text::split_on(b, '/'));
    text::lemma_join_split(a, '/');
    text::lemma_join_split(b, '/');
}

/// What was written is listed. Where different notes are new to the vault, each
/// write is made, to a path of its own that a walk comes to and takes for a
/// note; and a vault that holds those notes lists exactly them, under the ids
/// they were given and in the order of those, each with the hash that its write
/// answered.
pub proof fn lemma_what_was_written_is_listed(
    root: Seq<char>,
    files: Seq<(Seq<char>, Seq<char>)>,
)
    requires
        forall|i: int| 0 <= i < files.len() ==> is_acceptable((#[trigger] files[i]).0),
        forall|i: int, j: int|
            0 <= i < j < files.len() ==> (#[trigger] files[i]).0 != (#[trigger] files[j]).0,
    ensures
        forall|i: int| #![trigger files[i]]
            0 <= i < files.len() ==> {
                let (id, text) = files[i];
                let segments = text::split_on(id, '/');
                &&& writing(root, id, text, None, None) == (DeedView::Write {
                    path: path(root, id),
                    temporary: path(root, id) + ".tmp"@,
                    hash: sync::fnv(vstd::utf8::encode_utf8(text)),
                })
                &&& forall|k: int| 0 <= k < segments.len() ==> is_visible(#[trigger] segments[k])
                &&& is_note(segments.last())
            },
        forall|i: int, j: int|
            0 <= i < j < files.len() ==> path(root, (#[trigger] files[i]).0) != path(
                root,
                (#[trigger] files[j]).0,
            ),
        ({
            let listed = listing(hashes(files));
            &&& listed.len() == files.len()
            &&& forall|i: int, j: int|
                0 <= i < j < listed.len() ==> ordered::precedes(
                    (#[trigger] listed[i]).0,
                    (#[trigger] listed[j]).0,
                )
            &&& forall|i: int|
                0 <= i < files.len() ==> listed.contains(
                    (
                        (#[trigger] files[i]).0,
                        sync::fnv(vstd::utf8::encode_utf8(files[i].1)),
                    ),
                )
            &&& forall|k: int|
                0 <= k < listed.len() ==> exists|i: int|
                    0 <= i < files.len() && #[trigger] listed[k] == (
                        (#[trigger] files[i]).0,
                        sync::fnv(vstd::utf8::encode_utf8(files[i].1)),
                    )
        }),
{
    let notes = hashes(files);
    let listed = listing(notes);
    let ids = ordered::ascending(notes.dom());
    lemma_hashes(files);
    ordered::lemma_ascending(notes.dom());
    assert forall|i: int| #![trigger files[i]] 0 <= i < files.len() implies {
        let (id, text) = files[i];
        let segments = text::split_on(id, '/');
        &&& writing(root, id, text, None, None) == (DeedView::Write {
            path: path(root, id),
            temporary: path(root, id) + ".tmp"@,
            hash: sync::fnv(vstd::utf8::encode_utf8(text)),
        })
        &&& forall|k: int| 0 <= k < segments.len() ==> is_visible(#[trigger] segments[k])
        &&& is_note(segments.last())
    } by {
        lemma_acceptable(files[i].0);
    }
    assert forall|i: int, j: int| 0 <= i < j < files.len() implies path(
        root,
        (#[trigger] files[i]).0,
    ) != path(root, (#[trigger] files[j]).0) by {
        if path(root, files[i].0) == path(root, files[j].0) {
            lemma_different_notes_are_kept_apart(root, files[i].0, files[j].0);
        }
    }
    assert forall|i: int| 0 <= i < files.len() implies listed.contains(
        ((#[trigger] files[i]).0, sync::fnv(vstd::utf8::encode_utf8(files[i].1))),
    ) by {
        assert(ids.to_set().contains(files[i].0));
        let k = choose|k: int| 0 <= k < ids.len() && ids[k] == files[i].0;
        assert(listed[k] == (ids[k], notes[ids[k]]));
    }
    assert forall|k: int| 0 <= k < listed.len() implies exists|i: int|
        0 <= i < files.len() && #[trigger] listed[k] == (
            (#[trigger] files[i]).0,
            sync::fnv(vstd::utf8::encode_utf8(files[i].1)),
        ) by {
        assert(ids.to_set().contains(ids[k]));
        assert(notes.contains_key(ids[k]));
        let i = choose|i: int| 0 <= i < files.len() && (#[trigger] files[i]).0 == ids[k];
        assert(listed[k] == (files[i].0, notes[files[i].0]));
    }
}

/// Pruning never reaches the root: every folder tried is inside it.
pub proof fn lemma_the_root_is_not_pruned(root: Seq<char>, segments: Seq<Seq<char>>, i: int)
    requires
        forall|j: int| 0 <= j < segments.len() ==> paths::is_plain(#[trigger] segments[j]),
        0 <= i < folders(root, segments).len(),
    ensures
        paths::components(root).is_prefix_of(paths::components(folders(root, segments)[i])),
        paths::components(folders(root, segments)[i]).len() > paths::components(root).len(),
    decreases segments.len(),
{
    let above = segments.drop_last();
    assert forall|j: int| 0 <= j < above.len() implies paths::is_plain(#[trigger] above[j]) by {
        assert(above[j] == segments[j]);
    }
    if i == 0 {
        paths::lemma_joined_all_components(root, above);
        assert(paths::components(root) =~= (paths::components(root) + above).subrange(
            0,
            paths::components(root).len() as int,
        ));
    } else {
        lemma_the_root_is_not_pruned(root, above, i - 1);
        assert(folders(root, segments)[i] == folders(root, above)[i - 1]);
    }
}

// ---- which notes are taken, and where they go ----

/// An id is accepted exactly if it ends in `.md`, takes no more than one
/// thousand and twenty-four bytes, and between its slashes there is always
/// something, which does not begin with a dot and has no backslash and no zero
/// in it.
pub proof fn lemma_which_ids_are_accepted(id: Seq<char>)
    ensures
        is_acceptable(id) == (".md"@.is_suffix_of(id) && vstd::utf8::encode_utf8(id).len() <= 1024
            && forall|i: int|
            0 <= i < text::split_on(id, '/').len() ==> {
                let segment = #[trigger] text::split_on(id, '/')[i];
                segment.len() > 0 && segment[0] != '.' && forall|k: int|
                    0 <= k < segment.len() ==> #[trigger] segment[k] != '\\' && segment[k] != '\0'
            }),
{
    reveal_strlit(".md");
    let parts = text::split_on(id, '/');
    assert forall|i: int| 0 <= i < parts.len() implies is_ordinary(#[trigger] parts[i]) == ({
        let segment = parts[i];
        segment.len() > 0 && segment[0] != '.' && forall|k: int|
            0 <= k < segment.len() ==> #[trigger] segment[k] != '\\' && segment[k] != '\0'
    }) by {
        let segment = parts[i];
        if !segment.contains('\\') && !segment.contains('\0') {
            assert forall|k: int| 0 <= k < segment.len() implies #[trigger] segment[k] != '\\'
                && segment[k] != '\0' by {
                assert(segment.contains(segment[k]));
            }
        }
    }
    if is_acceptable(id) {
        assert forall|i: int| 0 <= i < parts.len() implies {
            let segment = #[trigger] parts[i];
            segment.len() > 0 && segment[0] != '.' && forall|k: int|
                0 <= k < segment.len() ==> #[trigger] segment[k] != '\\' && segment[k] != '\0'
        } by {
            assert(is_ordinary(parts[i]));
        }
    }
}

proof fn lemma_joined_all(root: Seq<char>, names: Seq<Seq<char>>)
    requires
        root.len() > 0,
        root.last() != '/',
        names.len() > 0,
        forall|i: int|
            0 <= i < names.len() ==> (#[trigger] names[i]).len() > 0 && names[i].last() != '/',
    ensures
        paths::joined_all(root, names) == root + seq!['/'] + text::join(names, seq!['/']),
    decreases names.len(),
{
    let rest = names.drop_last();
    let last = names.last();
    assert(names[names.len() - 1].len() > 0);
    if rest.len() == 0 {
        assert(paths::joined_all(root, rest) == root);
        assert(text::join(names, seq!['/']) =~= last);
    } else {
        assert forall|i: int| 0 <= i < rest.len() implies (#[trigger] rest[i]).len() > 0
            && rest[i].last() != '/' by {
            assert(rest[i] == names[i]);
        }
        lemma_joined_all(root, rest);
        let way = text::join(rest, seq!['/']);
        let end = rest.last();
        assert(rest[rest.len() - 1] == end);
        lemma_join_last(rest);
        let before = root + seq!['/'] + way;
        assert(before.last() == way.last());
        assert(paths::joined_all(root, names) =~= root + seq!['/'] + text::join(
            names,
            seq!['/'],
        ));
    }
}

proof fn lemma_join_last(names: Seq<Seq<char>>)
    requires
        names.len() > 0,
        names.last().len() > 0,
    ensures
        text::join(names, seq!['/']).len() > 0,
        text::join(names, seq!['/']).last() == names.last().last(),
{
}

/// A note is kept under the root, at its id.
pub proof fn lemma_a_note_is_kept_at_its_id(root: Seq<char>, id: Seq<char>)
    requires
        is_acceptable(id),
        root.len() > 0,
        root.last() != '/',
    ensures
        path(root, id) == root + seq!['/'] + id,
{
    let parts = text::split_on(id, '/');
    text::lemma_split_nonempty(id, '/');
    text::lemma_split_pieces(id, '/');
    text::lemma_join_split(id, '/');
    assert forall|i: int| 0 <= i < parts.len() implies (#[trigger] parts[i]).len() > 0
        && parts[i].last() != '/' by {
        assert(is_ordinary(parts[i]));
        assert(parts[i][parts[i].len() - 1] != '/');
    }
    lemma_joined_all(root, parts);
}

/// What is done when a note is written: a bad id is rejected; where the server
/// does not hold what the writer last saw, the writer is told what it does
/// hold; what is held already is not written again; and all else is written,
/// beside its file first.
pub proof fn lemma_what_a_write_does(
    root: Seq<char>,
    id: Seq<char>,
    text: Seq<char>,
    base: Option<u64>,
    held: Option<Seq<char>>,
)
    ensures
        ({
            let hash = sync::fnv(vstd::utf8::encode_utf8(text));
            let there = match held {
                Some(old) => Some(sync::fnv(vstd::utf8::encode_utf8(old))),
                None => None,
            };
            writing(root, id, text, base, held) == if !is_acceptable(id) {
                DeedView::Rejected
            } else if there != base {
                DeedView::Stale(there)
            } else if there == Some(hash) {
                DeedView::Done(hash)
            } else {
                DeedView::Write {
                    path: path(root, id),
                    temporary: path(root, id) + seq!['.', 't', 'm', 'p'],
                    hash,
                }
            }
        }),
{
    reveal_strlit(".tmp");
    assert(".tmp"@ =~= seq!['.', 't', 'm', 'p']);
}

/// What is done when a note is removed: a bad id is rejected; one that is gone
/// already is done with; where the server does not hold what the remover last
/// saw, nothing is removed; and else the file goes, and the folders it leaves
/// empty, the innermost first.
pub proof fn lemma_what_a_removal_does(
    root: Seq<char>,
    id: Seq<char>,
    base: Option<u64>,
    held: Option<Seq<char>>,
)
    ensures
        ({
            let r = removing(root, id, base, held);
            let parts = text::split_on(id, '/');
            if !is_acceptable(id) {
                r == DeedView::Rejected
            } else {
                match held {
                    None => r == DeedView::Done(0),
                    Some(old) => {
                        let there = Some(sync::fnv(vstd::utf8::encode_utf8(old)));
                        if there != base {
                            r == DeedView::Stale(there)
                        } else {
                            r matches DeedView::Remove { path: file, folders: all } && file == path(
                                root,
                                id,
                            ) && all.len() == parts.len() - 1 && forall|i: int|
                                0 <= i < all.len() ==> #[trigger] all[i] == paths::joined_all(
                                    root,
                                    parts.take(parts.len() - 1 - i),
                                )
                        }
                    },
                }
            }
        }),
{
    text::lemma_split_nonempty(id, '/');
    lemma_folders(root, text::split_on(id, '/'));
}

proof fn lemma_folders(root: Seq<char>, parts: Seq<Seq<char>>)
    requires
        parts.len() > 0,
    ensures
        folders(root, parts).len() == parts.len() - 1,
        forall|i: int|
            0 <= i < parts.len() - 1 ==> #[trigger] folders(root, parts)[i] == paths::joined_all(
                root,
                parts.take(parts.len() - 1 - i),
            ),
    decreases parts.len(),
{
    if parts.len() > 1 {
        let above = parts.drop_last();
        lemma_folders(root, above);
        let r = folders(root, parts);
        assert forall|i: int| 0 <= i < parts.len() - 1 implies #[trigger] r[i] == paths::joined_all(
            root,
            parts.take(parts.len() - 1 - i),
        ) by {
            if i == 0 {
                assert(parts.take(parts.len() - 1) =~= above);
            } else {
                assert(r[i] == folders(root, above)[i - 1]);
                assert(above.take(above.len() - 1 - (i - 1)) =~= parts.take(parts.len() - 1 - i));
            }
        }
    }
}

/// A listing looks at nothing whose name begins with a dot, and takes every
/// other file whose name ends in `.md`.
pub proof fn lemma_what_is_listed(name: Seq<char>)
    ensures
        is_visible(name) == (name.len() == 0 || name[0] != '.'),
        is_note(name) == ((name.len() == 0 || name[0] != '.') && ".md"@.is_suffix_of(name)),
{
}

/// Every listed note is under its path with slashes, with the hash of its text;
/// the last of a path counts.
pub proof fn lemma_a_note_is_listed_with_its_hash(
    files: Seq<(Seq<char>, Seq<char>)>,
    id: Seq<char>,
    text: Seq<char>,
)
    ensures
        hashes(files.push((id, text))) == hashes(files).insert(
            Seq::new(
                id.len(),
                |i: int|
                    if id[i] == '\\' {
                        '/'
                    } else {
                        id[i]
                    },
            ),
            sync::fnv(vstd::utf8::encode_utf8(text)),
        ),
        hashes(seq![]) == Map::<Seq<char>, u64>::empty(),
{
    assert(files.push((id, text)).drop_last() =~= files);
    assert(with_slashes(id) =~= Seq::new(
        id.len(),
        |i: int|
            if id[i] == '\\' {
                '/'
            } else {
                id[i]
            },
    ));
}

} // verus!
