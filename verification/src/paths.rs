//! Paths as text, with `/` between their parts.

use crate::text;
use vstd::prelude::*;

verus! {

/// The pieces of a path that name something: not the empty ones that doubled
/// or trailing separators leave, and not `.`, but for one that opens the path.
pub open spec fn named(pieces: Seq<Seq<char>>) -> Seq<Seq<char>>
    decreases pieces.len(),
{
    if pieces.len() == 0 {
        pieces
    } else {
        let before = named(pieces.drop_last());
        let last = pieces.last();
        if last.len() == 0 || (last == seq!['.'] && pieces.len() > 1) {
            before
        } else {
            before.push(last)
        }
    }
}

/// The components of a path, the root of an absolute one among them.
pub open spec fn components(path: Seq<char>) -> Seq<Seq<char>> {
    let pieces = named(text::split_on(path, '/'));
    if path.len() > 0 && path[0] == '/' {
        seq![seq!['/']] + pieces
    } else {
        pieces
    }
}

/// A path with its separators normalised.
pub open spec fn relative(path: Seq<char>) -> Seq<char> {
    text::join(components(path), seq!['/'])
}

/// The components of a path.
pub fn components_of(path: &[char]) -> (out: Vec<Vec<char>>)
    ensures
        text::views(out@) == components(path@),
{
    let pieces = text::split_chars(path, '/');
    let ghost all = text::views(pieces@);
    let mut out: Vec<Vec<char>> = Vec::new();
    let ghost mut root = Seq::<Seq<char>>::empty();
    if path.len() > 0 && path[0] == '/' {
        let mut slash: Vec<char> = Vec::new();
        slash.push('/');
        proof {
            assert(slash@ =~= seq!['/']);
            root = seq![slash@];
        }
        out.push(slash);
        assert(text::views(out@) =~= root);
    }
    let mut i: usize = 0;
    assert(text::views(out@) =~= root + named(all.take(0)));
    while i < pieces.len()
        invariant
            i <= pieces@.len(),
            all == text::views(pieces@),
            text::views(out@) == root + named(all.take(i as int)),
        decreases pieces@.len() - i,
    {
        let piece = &pieces[i];
        assert(all.take(i + 1).drop_last() =~= all.take(i as int));
        assert(all.take(i + 1).last() == piece@);
        let dot = piece.len() == 1 && piece[0] == '.';
        assert(dot == (piece@ == seq!['.'])) by {
            if dot {
                assert(piece@ =~= seq!['.']);
            }
        }
        if piece.len() == 0 || (dot && i > 0) {
        } else {
            let copy = text::part(piece, 0, piece.len());
            assert(copy@ =~= piece@);
            proof {
                text::lemma_views_push(out@, copy);
            }
            out.push(copy);
            assert(text::views(out@) =~= root + named(all.take(i + 1)));
        }
        i = i + 1;
    }
    assert(all.take(all.len() as int) =~= all);
    out
}

/// The last part of a path.
pub open spec fn file_name(path: Seq<char>) -> Seq<char> {
    match text::find_last(path, '/') {
        Some(i) => path.skip(i + 1),
        None => path,
    }
}

/// The folder a path is in.
pub open spec fn folder(path: Seq<char>) -> Option<Seq<char>> {
    match text::find_last(path, '/') {
        Some(i) => Some(path.take(i)),
        None => None,
    }
}

/// Where the extension of a file's name begins, or where the name ends if it
/// has none. A dot that opens a name begins none.
pub open spec fn stem_end(name: Seq<char>) -> int {
    match text::find_last(name, '.') {
        Some(i) => if i > 0 {
            i
        } else {
            name.len() as int
        },
        None => name.len() as int,
    }
}

/// The name that a path ends in, if it ends in one: its last component, but
/// for the root, `.` and `..`.
pub open spec fn last_name(path: Seq<char>) -> Option<Seq<char>> {
    let parts = components(path);
    if parts.len() > 0 && parts.last() != seq!['/'] && parts.last() != seq!['.'] && parts.last()
        != seq!['.', '.'] {
        Some(parts.last())
    } else {
        None
    }
}

/// A path without the separators and the `.` components that trail it.
pub open spec fn stripped(path: Seq<char>) -> Seq<char>
    decreases path.len(),
{
    let n = path.len() as int;
    if n > 0 && (path[n - 1] == '/' || (n > 1 && path[n - 1] == '.' && path[n - 2] == '/')) {
        stripped(path.drop_last())
    } else {
        path
    }
}

/// The path of a file with another extension, or without one if there is none
/// to give. A path that ends in no name is left as it is.
pub open spec fn with_extension(path: Seq<char>, extension: Seq<char>) -> Seq<char> {
    match last_name(path) {
        None => path,
        Some(name) => {
            let whole = stripped(path);
            let stem = whole.take(whole.len() - name.len() + stem_end(name));
            if extension.len() > 0 {
                stem + seq!['.'] + extension
            } else {
                stem
            }
        },
    }
}

/// The name that a path ends in, if it ends in one.
pub fn last_name_of(path: &[char]) -> (r: Option<Vec<char>>)
    ensures
        match r {
            Some(name) => last_name(path@) == Some(name@),
            None => last_name(path@) is None,
        },
{
    let parts = components_of(path);
    let n = parts.len();
    assert(text::views(parts@).len() == n);
    if n == 0 {
        return None;
    }
    let last = &parts[n - 1];
    assert(text::views(parts@).last() == last@);
    proof {
        reveal_strlit("/");
        reveal_strlit(".");
        reveal_strlit("..");
        assert("/"@ =~= seq!['/']);
        assert("."@ =~= seq!['.']);
        assert(".."@ =~= seq!['.', '.']);
    }
    if text::same_chars(last, &text::chars_of("/")) || text::same_chars(
        last,
        &text::chars_of("."),
    ) || text::same_chars(last, &text::chars_of("..")) {
        None
    } else {
        let name = text::part(last, 0, last.len());
        assert(name@ =~= last@);
        Some(name)
    }
}

/// The path of a file with another extension.
pub fn extended(path: &str, extension: &str) -> (r: String)
    requires
        !extension@.contains('/'),
    ensures
        r@ == with_extension(path@, extension@),
{
    let chars = text::chars_of(path);
    let name = match last_name_of(&chars) {
        Some(name) => name,
        None => return text::string_of(&chars),
    };
    let mut n: usize = chars.len();
    assert(chars@.take(n as int) =~= chars@);
    while n > 0 && (chars[n - 1] == '/' || (n > 1 && chars[n - 1] == '.' && chars[n - 2] == '/'))
        invariant
            n <= chars@.len(),
            stripped(chars@) == stripped(chars@.take(n as int)),
        decreases n,
    {
        assert(chars@.take(n as int).drop_last() =~= chars@.take(n - 1));
        n = n - 1;
    }
    let ghost whole = chars@.take(n as int);
    assert(stripped(chars@) == whole);
    let end: usize = match text::last_position_of(&name, '.') {
        Some(i) => if i > 0 {
            i
        } else {
            name.len()
        },
        None => name.len(),
    };
    proof {
        text::lemma_find_last(name@, '.');
        lemma_last_name(path@);
    }
    let mut out = text::part(&chars, 0, n - name.len() + end);
    assert(out@ =~= whole.take(whole.len() - name@.len() + stem_end(name@)));
    if extension.is_empty() {
        return text::string_of(&out);
    }
    out.push('.');
    text::extend(&mut out, &text::chars_of(extension));
    assert(out@ =~= with_extension(path@, extension@));
    text::string_of(&out)
}

// ---- what holds of every path ----

/// What trails a path names nothing.
proof fn lemma_stripped(path: Seq<char>)
    ensures
        named(text::split_on(stripped(path), '/')) == named(text::split_on(path, '/')),
        stripped(path).len() <= path.len(),
        stripped(path) == path.take(stripped(path).len() as int),
        stripped(path).len() > 0 ==> stripped(path).last() != '/',
        stripped(path).len() > 1 && stripped(path).last() == '.' ==> stripped(
            path,
        )[stripped(path).len() - 2] != '/',
    decreases path.len(),
{
    let n = path.len() as int;
    let less = path.drop_last();
    let none = Seq::<char>::empty();
    if n > 0 && path[n - 1] == '/' {
        lemma_stripped(less);
        assert(path =~= less.push('/') + none);
        text::lemma_split_append(less, '/', none);
        let pieces = text::split_on(less, '/');
        assert(pieces.push(none).drop_last() =~= pieces);
        assert(stripped(path) =~= path.take(stripped(path).len() as int));
    } else if n > 1 && path[n - 1] == '.' && path[n - 2] == '/' {
        lemma_stripped(less);
        let base = less.drop_last();
        let dot = seq!['.'];
        assert(path =~= base.push('/') + dot);
        assert(less =~= base.push('/') + none);
        text::lemma_split_append(base, '/', dot);
        text::lemma_split_append(base, '/', none);
        text::lemma_split_nonempty(base, '/');
        let pieces = text::split_on(base, '/');
        assert(pieces.push(none).drop_last() =~= pieces);
        assert(pieces.push(dot).drop_last() =~= pieces);
        assert(stripped(path) =~= path.take(stripped(path).len() as int));
    } else {
        assert(path.take(n) =~= path);
    }
}

/// The last part of a path is the last of the pieces between its separators.
pub proof fn lemma_file_name_is_last(path: Seq<char>)
    ensures
        text::split_on(path, '/').len() > 0,
        text::split_on(path, '/').last() == file_name(path),
        file_name(path).len() <= path.len(),
        !file_name(path).contains('/'),
        match text::find_last(path, '/') {
            Some(i) => path == path.take(i).push('/') + file_name(path) && text::split_on(
                path,
                '/',
            ) == text::split_on(path.take(i), '/').push(file_name(path)),
            None => file_name(path) == path && text::split_on(path, '/') == seq![path],
        },
{
    text::lemma_find_last(path, '/');
    match text::find_last(path, '/') {
        Some(i) => {
            let name = file_name(path);
            assert(path =~= path.take(i).push('/') + name);
            assert(forall|k: int| 0 <= k < name.len() ==> #[trigger] name[k] == path[i + 1 + k]);
            text::lemma_split_append(path.take(i), '/', name);
        },
        None => {
            text::lemma_split_one(path, '/');
        },
    }
}

proof fn lemma_last_name(path: Seq<char>)
    ensures
        match last_name(path) {
            Some(name) => {
                let whole = stripped(path);
                &&& whole.len() > 0
                &&& name == file_name(whole)
                &&& 0 < name.len() <= whole.len()
                &&& name != seq!['.']
                &&& components(whole) == components(path)
            },
            None => true,
        },
{
    let whole = stripped(path);
    let pieces = text::split_on(whole, '/');
    lemma_stripped(path);
    lemma_file_name_is_last(whole);
    let name = file_name(whole);
    if last_name(path) is Some {
        let parts = named(text::split_on(path, '/'));
        assert(components(path).last() == parts.last()) by {
            if parts.len() == 0 && path.len() > 0 && path[0] == '/' {
                assert(components(path) =~= seq![seq!['/']]);
            }
        }
        assert(parts.len() > 0) by {
            if parts.len() == 0 && path.len() > 0 && path[0] == '/' {
                assert(components(path) =~= seq![seq!['/']]);
            }
        }
        if whole.len() == 0 {
            assert(pieces =~= seq![whole]);
            assert(seq![whole].drop_last() =~= Seq::<Seq<char>>::empty());
            reveal_with_fuel(named, 2);
            assert(parts =~= Seq::<Seq<char>>::empty());
        }
        assert(whole[0] == path[0]);
        assert(name.len() > 0) by {
            if name.len() == 0 {
                text::lemma_find_last(whole, '/');
            }
        }
        if name == seq!['.'] {
            text::lemma_find_last(whole, '/');
            if text::find_last(whole, '/') is Some {
                assert(whole.last() == name.last());
                assert(whole[whole.len() - 2] == '/');
            } else {
                assert(pieces =~= seq![name]);
                assert(seq![name].drop_last() =~= Seq::<Seq<char>>::empty());
                reveal_with_fuel(named, 2);
                assert(parts.last() == name);
            }
        }
    }
}

/// A file with another extension is where the file was, under its name with
/// the other extension.
pub proof fn lemma_another_extension_is_a_sibling(path: Seq<char>, extension: Seq<char>)
    requires
        extension.len() > 0,
        !extension.contains('/'),
    ensures
        match last_name(path) {
            Some(name) => components(with_extension(path, extension)) == components(
                path,
            ).drop_last().push(name.take(stem_end(name)) + seq!['.'] + extension),
            None => with_extension(path, extension) == path,
        },
{
    lemma_last_name(path);
    if let Some(name) = last_name(path) {
        let whole = stripped(path);
        let other = with_extension(path, extension);
        let tail = name.take(stem_end(name)) + seq!['.'] + extension;
        text::lemma_find_last(name, '.');
        lemma_file_name_is_last(whole);
        assert forall|k: int| 0 <= k < tail.len() implies tail[k] != '/' by {
            if k < stem_end(name) {
                assert(tail[k] == name[k]);
                assert(name.contains(name[k]));
            } else if k > stem_end(name) {
                assert(tail[k] == extension[k - stem_end(name) - 1]);
                assert(extension.contains(extension[k - stem_end(name) - 1]));
            }
        }
        assert(tail.len() > 1);
        match text::find_last(whole, '/') {
            Some(i) => {
                let base = whole.take(i);
                assert(other =~= base.push('/') + tail);
                text::lemma_split_append(base, '/', tail);
                text::lemma_split_nonempty(base, '/');
                let pieces = text::split_on(base, '/');
                assert(pieces.push(tail).drop_last() =~= pieces);
                assert(pieces.push(name).drop_last() =~= pieces);
                assert(other[0] == whole[0]);
                assert(components(other) =~= components(whole).drop_last().push(tail));
            },
            None => {
                assert(other =~= tail);
                text::lemma_split_one(tail, '/');
                assert(seq![tail].drop_last() =~= Seq::<Seq<char>>::empty());
                assert(seq![name].drop_last() =~= Seq::<Seq<char>>::empty());
                reveal_with_fuel(named, 2);
                assert(name[0] != '/') by {
                    assert(name.contains(name[0]));
                }
                assert(components(whole) =~= seq![name]);
                assert(components(other) =~= seq![tail]);
                assert(components(whole).drop_last().push(tail) =~= seq![tail]);
            },
        }
    }
}

proof fn lemma_named(pieces: Seq<Seq<char>>)
    ensures
        forall|i: int| 0 <= i < named(pieces).len() ==> (#[trigger] named(pieces)[i]).len() > 0,
        forall|i: int| 0 < i < named(pieces).len() ==> #[trigger] named(pieces)[i] != seq!['.'],
        named(pieces).len() > 0 && named(pieces)[0] == seq!['.'] ==> pieces[0] == seq!['.'],
        forall|i: int| 0 <= i < named(pieces).len() ==> pieces.contains(#[trigger] named(pieces)[i]),
        named(pieces).len() <= pieces.len(),
    decreases pieces.len(),
{
    if pieces.len() > 0 {
        let rest = pieces.drop_last();
        lemma_named(rest);
        let n = named(pieces);
        assert forall|i: int| 0 <= i < n.len() implies pieces.contains(#[trigger] n[i]) by {
            if i < named(rest).len() {
                assert(named(rest)[i] == n[i]);
                let k = choose|k: int| 0 <= k < rest.len() && rest[k] == n[i];
                assert(pieces[k] == n[i]);
            } else {
                assert(pieces[pieces.len() - 1] == n[i]);
            }
        }
    }
}

proof fn lemma_named_again(pieces: Seq<Seq<char>>)
    requires
        forall|i: int| 0 <= i < pieces.len() ==> (#[trigger] pieces[i]).len() > 0,
        forall|i: int| 0 < i < pieces.len() ==> #[trigger] pieces[i] != seq!['.'],
    ensures
        named(pieces) == pieces,
    decreases pieces.len(),
{
    if pieces.len() > 0 {
        let rest = pieces.drop_last();
        assert(forall|i: int| 0 <= i < rest.len() ==> rest[i] == pieces[i]);
        lemma_named_again(rest);
        assert(pieces =~= rest.push(pieces.last()));
    }
}

proof fn lemma_named_after_root(pieces: Seq<Seq<char>>)
    requires
        forall|i: int| 0 <= i < pieces.len() ==> (#[trigger] pieces[i]).len() > 0,
        forall|i: int| 0 <= i < pieces.len() ==> #[trigger] pieces[i] != seq!['.'],
    ensures
        named(seq![Seq::<char>::empty(), Seq::<char>::empty()] + pieces) == pieces,
    decreases pieces.len(),
{
    let two = seq![Seq::<char>::empty(), Seq::<char>::empty()];
    if pieces.len() > 0 {
        let rest = pieces.drop_last();
        assert(forall|i: int| 0 <= i < rest.len() ==> rest[i] == pieces[i]);
        lemma_named_after_root(rest);
        assert((two + pieces).drop_last() =~= two + rest);
        assert(pieces =~= rest.push(pieces.last()));
        assert(pieces[pieces.len() - 1] == pieces.last());
    } else {
        assert(two + pieces =~= two);
        assert(two.drop_last() =~= seq![Seq::<char>::empty()]);
        assert(two.drop_last().drop_last() =~= Seq::<Seq<char>>::empty());
        reveal_with_fuel(named, 3);
        assert(named(two) =~= pieces);
    }
}

proof fn lemma_join_from_root(pieces: Seq<Seq<char>>)
    requires
        pieces.len() > 0,
    ensures
        text::join(seq![seq!['/']] + pieces, seq!['/']) == text::join(
            seq![Seq::<char>::empty(), Seq::<char>::empty()] + pieces,
            seq!['/'],
        ),
        text::join(seq![seq!['/']] + pieces, seq!['/']).len() > 0,
        text::join(seq![seq!['/']] + pieces, seq!['/'])[0] == '/',
    decreases pieces.len(),
{
    let one = seq![seq!['/']];
    let two = seq![Seq::<char>::empty(), Seq::<char>::empty()];
    let rest = pieces.drop_last();
    assert((one + pieces).drop_last() =~= one + rest);
    assert((two + pieces).drop_last() =~= two + rest);
    if rest.len() > 0 {
        lemma_join_from_root(rest);
    } else {
        assert(one + rest =~= one);
        assert(two + rest =~= two);
        reveal_with_fuel(text::join, 3);
        assert(two.drop_last() =~= seq![Seq::<char>::empty()]);
        assert(text::join(two, seq!['/']) =~= seq!['/']);
        assert(text::join(one, seq!['/']) =~= seq!['/']);
    }
    assert((one + pieces).last() == pieces.last());
    assert((two + pieces).last() == pieces.last());
}

/// A join begins as its first piece does.
pub proof fn lemma_join_first(pieces: Seq<Seq<char>>)
    requires
        pieces.len() > 0,
        pieces[0].len() > 0,
    ensures
        text::join(pieces, seq!['/']).len() > 0,
        text::join(pieces, seq!['/'])[0] == pieces[0][0],
    decreases pieces.len(),
{
    if pieces.len() > 1 {
        lemma_join_first(pieces.drop_last());
    }
}

/// Normalising a path that is already normal changes nothing: an id means the
/// same thing whatever wrote it.
pub proof fn lemma_relative_again(path: Seq<char>)
    ensures
        relative(relative(path)) == relative(path),
{
    let pieces = text::split_on(path, '/');
    let parts = named(pieces);
    let sep = seq!['/'];
    text::lemma_split_pieces(path, '/');
    text::lemma_split_nonempty(path, '/');
    lemma_named(pieces);
    assert forall|i: int| 0 <= i < parts.len() implies !(#[trigger] parts[i]).contains('/') by {
        let k = choose|k: int| 0 <= k < pieces.len() && pieces[k] == parts[i];
        if parts[i].contains('/') {
            let j = choose|j: int| 0 <= j < parts[i].len() && parts[i][j] == '/';
            assert(pieces[k][j] != '/');
        }
    }
    let again = relative(path);
    if path.len() > 0 && path[0] == '/' {
        lemma_split_starts(path);
        assert forall|i: int| 0 <= i < parts.len() implies #[trigger] parts[i] != seq!['.'] by {
            if parts[0] == seq!['.'] {
                assert(pieces[0] == seq!['.']);
            }
        }
        if parts.len() == 0 {
            assert(seq![sep] + parts =~= seq![sep]);
            assert(again =~= sep);
            let none = Seq::<char>::empty();
            assert(sep =~= none.push('/') + none);
            text::lemma_split_append(none, '/', none);
            text::lemma_split_one(none, '/');
            lemma_named_after_root(parts);
            assert(text::split_on(sep, '/') =~= seq![none, none] + parts);
        } else {
            let two = seq![Seq::<char>::empty(), Seq::<char>::empty()] + parts;
            lemma_join_from_root(parts);
            assert forall|i: int| 0 <= i < two.len() implies !(#[trigger] two[i]).contains(
                '/',
            ) by {
                if i >= 2 {
                    assert(two[i] == parts[i - 2]);
                }
            }
            text::lemma_split_join(two, '/');
            lemma_named_after_root(parts);
        }
    } else if parts.len() > 0 {
        text::lemma_split_join(parts, '/');
        lemma_join_first(parts);
        assert(parts[0][0] != '/') by {
            if parts[0][0] == '/' {
                assert(parts[0].contains('/'));
            }
        }
        lemma_named_again(parts);
    } else {
        assert(again =~= Seq::<char>::empty());
        text::lemma_split_one(again, '/');
        let one = seq![again];
        assert(one.drop_last() =~= Seq::<Seq<char>>::empty());
        reveal_with_fuel(named, 2);
    }
}

proof fn lemma_split_starts(path: Seq<char>)
    requires
        path.len() > 0,
        path[0] == '/',
    ensures
        text::split_on(path, '/').len() >= 2,
        text::split_on(path, '/')[0] == Seq::<char>::empty(),
    decreases path.len(),
{
    if path.len() == 1 {
        assert(path.drop_last() =~= Seq::<char>::empty());
        assert(path.last() == '/');
        reveal_with_fuel(text::split_on, 2);
    } else {
        lemma_split_starts(path.drop_last());
    }
}

proof fn lemma_some_component(path: Seq<char>)
    requires
        path.len() > 0,
    ensures
        components(path).len() > 0,
    decreases path.len(),
{
    if path[0] != '/' {
        lemma_split_opens(path);
        lemma_named_opens(text::split_on(path, '/'));
    }
}

/// A path that does not begin with a separator has a first piece.
pub proof fn lemma_split_opens(path: Seq<char>)
    requires
        path.len() > 0,
        path[0] != '/',
    ensures
        text::split_on(path, '/').len() > 0,
        text::split_on(path, '/')[0].len() > 0,
    decreases path.len(),
{
    if path.len() == 1 {
        assert(path.drop_last() =~= Seq::<char>::empty());
        reveal_with_fuel(text::split_on, 2);
    } else {
        lemma_split_opens(path.drop_last());
    }
}

proof fn lemma_named_opens(pieces: Seq<Seq<char>>)
    requires
        pieces.len() > 0,
        pieces[0].len() > 0,
    ensures
        named(pieces).len() > 0,
    decreases pieces.len(),
{
    if pieces.len() > 1 {
        lemma_named_opens(pieces.drop_last());
    }
}

/// A name without separators, other than `.`, is its own normal form.
pub proof fn lemma_relative_of_name(name: Seq<char>)
    requires
        name.len() > 0,
        name != seq!['.'],
        forall|i: int| 0 <= i < name.len() ==> name[i] != '/',
    ensures
        relative(name) == name,
        file_name(relative(name)) == name,
        folder(relative(name)) is None,
{
    text::lemma_split_one(name, '/');
    lemma_named_again(seq![name]);
    text::lemma_find_last(name, '/');
}

/// A file in a folder keeps its name, and its folder is the folder normalised.
pub proof fn lemma_relative_of_child(parent: Seq<char>, name: Seq<char>)
    requires
        parent.len() > 0,
        name.len() > 0,
        name != seq!['.'],
        forall|i: int| 0 <= i < name.len() ==> name[i] != '/',
    ensures
        relative(parent + seq!['/'] + name) == relative(parent) + seq!['/'] + name,
        file_name(relative(parent + seq!['/'] + name)) == name,
        folder(relative(parent + seq!['/'] + name)) == Some(relative(parent)),
{
    let sep = seq!['/'];
    let path = parent + sep + name;
    assert(path =~= parent.push('/') + name);
    text::lemma_split_append(parent, '/', name);
    text::lemma_split_nonempty(parent, '/');
    let pieces = text::split_on(parent, '/');
    assert(pieces.push(name).drop_last() =~= pieces);
    assert(components(path) =~= components(parent).push(name));
    lemma_some_component(parent);
    let c = components(parent);
    assert(c.push(name).drop_last() =~= c);
    assert(relative(path) =~= relative(parent).push('/') + name);
    text::lemma_find_last_append(relative(parent), '/', name);
    assert(file_name(relative(path)) =~= name);
    assert(folder(relative(path))->0 =~= relative(parent));
}

// ---- going down a path ----

/// A path with one more name behind it.
pub open spec fn joined(path: Seq<char>, name: Seq<char>) -> Seq<char> {
    if path.len() == 0 || path.last() == '/' {
        path + name
    } else {
        path + seq!['/'] + name
    }
}

/// A path with some more names behind it.
pub open spec fn joined_all(path: Seq<char>, names: Seq<Seq<char>>) -> Seq<char>
    decreases names.len(),
{
    if names.len() == 0 {
        path
    } else {
        joined(joined_all(path, names.drop_last()), names.last())
    }
}

/// Put one more name behind a path.
pub fn join(path: &mut Vec<char>, name: &[char])
    ensures
        final(path)@ == joined(old(path)@, name@),
{
    let n = path.len();
    if n > 0 && path[n - 1] != '/' {
        path.push('/');
        text::extend(path, name);
        assert(path@ =~= old(path)@ + seq!['/'] + name@);
    } else {
        text::extend(path, name);
    }
}

/// Put some more names behind a path.
pub fn join_all(path: &[char], names: &[Vec<char>]) -> (out: Vec<char>)
    ensures
        out@ == joined_all(path@, text::views(names@)),
{
    let mut out = text::part(path, 0, path.len());
    let ghost all = text::views(names@);
    assert(out@ =~= path@);
    let mut i: usize = 0;
    while i < names.len()
        invariant
            i <= names@.len(),
            all == text::views(names@),
            out@ == joined_all(path@, all.take(i as int)),
        decreases names@.len() - i,
    {
        assert(all.take(i + 1).drop_last() =~= all.take(i as int));
        join(&mut out, &names[i]);
        i = i + 1;
    }
    assert(all.take(all.len() as int) =~= all);
    out
}

/// Whether a name is one component and nothing special.
pub open spec fn is_plain(name: Seq<char>) -> bool {
    name.len() > 0 && name != seq!['.'] && !name.contains('/')
}

/// A plain name put behind a path is one more component, and changes none of
/// those before it.
pub proof fn lemma_joined_components(path: Seq<char>, name: Seq<char>)
    requires
        is_plain(name),
    ensures
        components(joined(path, name)) == components(path).push(name),
{
    let path2 = joined(path, name);
    let none = Seq::<char>::empty();
    let one = seq![none];
    assert(one.drop_last() =~= Seq::<Seq<char>>::empty());
    if path.len() == 0 {
        assert(path =~= none);
        assert(path2 =~= name);
        text::lemma_split_one(name, '/');
        assert(seq![name].drop_last() =~= Seq::<Seq<char>>::empty());
        reveal_with_fuel(named, 2);
        assert(name[0] != '/') by {
            if name[0] == '/' {
                assert(name.contains('/'));
            }
        }
        assert(components(path) =~= Seq::<Seq<char>>::empty());
        assert(components(path2) =~= seq![name]);
    } else {
        text::lemma_split_nonempty(path, '/');
        if path.last() == '/' {
            let less = path.drop_last();
            assert(path =~= less.push('/'));
            assert(path2 =~= less.push('/') + name);
            text::lemma_split_append(less, '/', name);
            text::lemma_split_nonempty(less, '/');
            let pieces = text::split_on(less, '/');
            assert(text::split_on(path, '/') == pieces.push(none));
            assert(pieces.push(none).drop_last() =~= pieces);
            assert(pieces.push(name).drop_last() =~= pieces);
        } else {
            assert(path2 =~= path.push('/') + name);
            text::lemma_split_append(path, '/', name);
            let pieces = text::split_on(path, '/');
            assert(pieces.push(name).drop_last() =~= pieces);
        }
        assert(path2[0] == path[0]);
        assert(components(path2) =~= components(path).push(name));
    }
}

/// Plain names put behind a path are so many more components.
pub proof fn lemma_joined_all_components(path: Seq<char>, names: Seq<Seq<char>>)
    requires
        forall|i: int| 0 <= i < names.len() ==> is_plain(#[trigger] names[i]),
    ensures
        components(joined_all(path, names)) == components(path) + names,
    decreases names.len(),
{
    if names.len() > 0 {
        let rest = names.drop_last();
        assert forall|i: int| 0 <= i < rest.len() implies is_plain(#[trigger] rest[i]) by {
            assert(rest[i] == names[i]);
        }
        lemma_joined_all_components(path, rest);
        assert(names[names.len() - 1] == names.last());
        lemma_joined_components(joined_all(path, rest), names.last());
        assert(components(path) + names =~= (components(path) + rest).push(names.last()));
    } else {
        assert(components(path) + names =~= components(path));
    }
}

/// No component of a path is empty.
pub proof fn lemma_components_named(path: Seq<char>)
    ensures
        forall|i: int| 0 <= i < components(path).len() ==> (#[trigger] components(path)[i]).len() > 0,
{
    let pieces = named(text::split_on(path, '/'));
    lemma_named(text::split_on(path, '/'));
    let all = components(path);
    assert forall|i: int| 0 <= i < all.len() implies (#[trigger] all[i]).len() > 0 by {
        if path.len() > 0 && path[0] == '/' && i > 0 {
            assert(all[i] == pieces[i - 1]);
        }
    }
}

// ---- what the parts of a path are ----

/// What is behind the last slash of a path is its file name, and what is before
/// it its folder; a path without one is a file name, in no folder.
pub proof fn lemma_the_last_slash_parts_a_path(dir: Seq<char>, name: Seq<char>)
    requires
        !name.contains('/'),
    ensures
        file_name(dir + seq!['/'] + name) == name,
        folder(dir + seq!['/'] + name) == Some(dir),
        file_name(name) == name,
        folder(name) is None,
{
    let path = dir + seq!['/'] + name;
    assert(path =~= dir.push('/') + name);
    text::lemma_find_last_append(dir, '/', name);
    assert(path.skip(dir.len() as int + 1) =~= name);
    assert(path.take(dir.len() as int) =~= dir);
    text::lemma_find_last(name, '/');
    if let Some(i) = text::find_last(name, '/') {
        assert(name.contains(name[i]));
    }
}

/// A path of names is made of just those names; a slash before them is a
/// component of its own.
pub proof fn lemma_a_path_is_made_of_its_names(names: Seq<Seq<char>>)
    requires
        names.len() > 0,
        forall|i: int| 0 <= i < names.len() ==> is_plain(#[trigger] names[i]),
    ensures
        components(text::join(names, seq!['/'])) == names,
        components(seq!['/'] + text::join(names, seq!['/'])) == seq![seq!['/']] + names,
        relative(text::join(names, seq!['/'])) == text::join(names, seq!['/']),
{
    let path = text::join(names, seq!['/']);
    assert forall|i: int| 0 <= i < names.len() implies !(#[trigger] names[i]).contains('/') by {
        assert(is_plain(names[i]));
    }
    text::lemma_split_join(names, '/');
    lemma_named_plain(names);
    assert(is_plain(names[0]));
    lemma_join_first(names);
    assert(path[0] != '/') by {
        assert(names[0].contains(names[0][0]));
    }
    let rooted = seq!['/'] + path;
    let none = Seq::<char>::empty();
    assert(rooted =~= none.push('/') + path);
    text::lemma_split_concat(none, '/', path);
    text::lemma_split_one(none, '/');
    let pieces = seq![none] + names;
    assert(text::split_on(rooted, '/') =~= pieces);
    lemma_named_behind(seq![none], names);
    assert(named(seq![none]) =~= seq![]) by {
        reveal_with_fuel(named, 2);
        assert(seq![none].drop_last() =~= Seq::<Seq<char>>::empty());
    }
    assert(named(pieces) =~= names);
}

proof fn lemma_named_plain(names: Seq<Seq<char>>)
    requires
        forall|i: int| 0 <= i < names.len() ==> is_plain(#[trigger] names[i]),
    ensures
        named(names) == names,
    decreases names.len(),
{
    if names.len() > 0 {
        assert(is_plain(names[names.len() - 1]));
        lemma_named_plain(names.drop_last());
        assert(named(names) =~= names);
    }
}

proof fn lemma_named_behind(before: Seq<Seq<char>>, names: Seq<Seq<char>>)
    requires
        forall|i: int| 0 <= i < names.len() ==> is_plain(#[trigger] names[i]),
    ensures
        named(before + names) == named(before) + names,
    decreases names.len(),
{
    let all = before + names;
    if names.len() == 0 {
        assert(all =~= before);
        assert(named(before) + names =~= named(before));
    } else {
        assert(is_plain(names[names.len() - 1]));
        lemma_named_behind(before, names.drop_last());
        assert(all.drop_last() =~= before + names.drop_last());
        assert(named(all) =~= named(before) + names);
    }
}

/// Slashes in a row are one, and a dot alone between slashes is none, unless
/// the path begins with it.
pub proof fn lemma_empty_parts_are_none(before: Seq<Seq<char>>, part: Seq<char>)
    ensures
        before.len() > 0 && (part.len() == 0 || part == seq!['.']) ==> named(before.push(part))
            == named(before),
        before.len() > 0 && part.len() > 0 && part != seq!['.'] ==> named(before.push(part))
            == named(before).push(part),
        part.len() > 0 ==> named(seq![part]) == seq![part],
{
    assert(before.push(part).drop_last() =~= before);
    assert(seq![part].drop_last() =~= Seq::<Seq<char>>::empty());
    if part.len() > 0 {
        reveal_with_fuel(named, 2);
        assert(named(seq![part]) =~= seq![part]);
    }
}

/// A name's extension is what is behind its last dot, unless the dot is where
/// the name begins.
pub proof fn lemma_an_extension_is_behind_the_last_dot(stem: Seq<char>, extension: Seq<char>)
    requires
        !extension.contains('.'),
    ensures
        stem.len() > 0 ==> stem_end(stem + seq!['.'] + extension) == stem.len(),
        stem.len() == 0 ==> stem_end(stem + seq!['.'] + extension) == extension.len() + 1,
        stem_end(extension) == extension.len(),
{
    let name = stem + seq!['.'] + extension;
    assert(name =~= stem.push('.') + extension);
    text::lemma_find_last_append(stem, '.', extension);
    text::lemma_find_last(extension, '.');
    if let Some(i) = text::find_last(extension, '.') {
        assert(extension.contains(extension[i]));
    }
}

} // verus!
