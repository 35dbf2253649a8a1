//! Text as sequences of characters: trimming, splitting, finding, joining.
//!
//! Every function here works on characters rather than bytes, so a position is
//! always a place a cursor can go.

use vstd::prelude::*;

verus! {

// ---- what Unicode says about a character ----

/// Whether a character is whitespace: has Unicode's `White_Space`.
pub open spec fn white(c: char) -> bool {
    let code = c as int;
    ||| 0x9 <= code <= 0xd
    ||| code == 0x20
    ||| code == 0x85
    ||| code == 0xa0
    ||| code == 0x1680
    ||| 0x2000 <= code <= 0x200a
    ||| code == 0x2028
    ||| code == 0x2029
    ||| code == 0x202f
    ||| code == 0x205f
    ||| code == 0x3000
}

/// Whether a character is one of the first hundred and twenty-eight.
pub open spec fn is_ascii(c: char) -> bool {
    (c as int) < 0x80
}

/// Whether a character is one of `A` to `Z`.
pub open spec fn is_capital(c: char) -> bool {
    'A' <= c && c <= 'Z'
}

/// Whether a character is one of `A` to `Z` or `a` to `z`.
pub open spec fn is_letter(c: char) -> bool {
    is_capital(c) || ('a' <= c && c <= 'z')
}

/// A character with `A` to `Z` made `a` to `z`.
pub open spec fn small(c: char) -> char {
    if is_capital(c) {
        ((c as int + 32) as u8) as char
    } else {
        c
    }
}

/// Whether a text has only characters of the first hundred and twenty-eight.
pub open spec fn all_ascii(s: Seq<char>) -> bool {
    forall|i: int| 0 <= i < s.len() ==> is_ascii(#[trigger] s[i])
}

/// A text with `A` to `Z` made `a` to `z`.
pub open spec fn all_small(s: Seq<char>) -> Seq<char> {
    Seq::new(s.len(), |i: int| small(s[i]))
}

/// Whether `char::is_alphabetic` holds of a character beyond ASCII.
pub uninterp spec fn alphabetic_beyond(c: char) -> bool;

/// Whether `char::is_alphanumeric` holds of a character beyond ASCII.
pub uninterp spec fn alphanumeric_beyond(c: char) -> bool;

/// The characters that `char::to_lowercase` yields for one beyond ASCII.
pub uninterp spec fn lower_beyond(c: char) -> Seq<char>;

/// The text that `str::to_lowercase` makes of one that is not all ASCII.
pub uninterp spec fn lowercase_beyond(s: Seq<char>) -> Seq<char>;

/// Whether a character is alphabetic.
pub open spec fn alphabetic(c: char) -> bool {
    if is_ascii(c) {
        is_letter(c)
    } else {
        alphabetic_beyond(c)
    }
}

/// Whether a character is alphabetic or numeric.
pub open spec fn alphanumeric(c: char) -> bool {
    if is_ascii(c) {
        is_letter(c) || is_digit(c)
    } else {
        alphanumeric_beyond(c)
    }
}

/// A character in lower case, which may take several.
pub open spec fn lower_char(c: char) -> Seq<char> {
    if is_ascii(c) {
        seq![small(c)]
    } else {
        lower_beyond(c)
    }
}

/// A text in lower case.
pub open spec fn lowercase(s: Seq<char>) -> Seq<char> {
    if all_ascii(s) {
        all_small(s)
    } else {
        lowercase_beyond(s)
    }
}

/// `char::is_whitespace` holds of the characters that have Unicode's
/// `White_Space`.
pub assume_specification[ char::is_whitespace ](c: char) -> (r: bool)
    ensures
        r == white(c),
;

/// `char::is_alphabetic` is a fixed property of the character, Unicode's
/// `Alphabetic`: in ASCII, the letters. Which characters have it beyond ASCII
/// is left to the standard library.
pub assume_specification[ char::is_alphabetic ](c: char) -> (r: bool)
    ensures
        r == (if is_ascii(c) {
            is_letter(c)
        } else {
            alphabetic_beyond(c)
        }),
;

/// `char::is_alphanumeric` is a fixed property of the character, alphabetic or
/// numeric: in ASCII, the letters and the digits. Which characters have it
/// beyond ASCII is left to the standard library.
pub assume_specification[ char::is_alphanumeric ](c: char) -> (r: bool)
    ensures
        r == (if is_ascii(c) {
            is_letter(c) || is_digit(c)
        } else {
            alphanumeric_beyond(c)
        }),
;

/// `str::to_lowercase` depends on the text alone, and of an ASCII text makes
/// `A` to `Z` into `a` to `z`. What it makes of other texts is left to the
/// standard library.
pub assume_specification[ str::to_lowercase ](s: &str) -> (r: String)
    ensures
        r@ == (if all_ascii(s@) {
            all_small(s@)
        } else {
            lowercase_beyond(s@)
        }),
;

/// `char::to_lowercase`, its characters gathered: a function of the character
/// alone, which of an ASCII one makes one, `A` to `Z` into `a` to `z`. What it
/// makes of others is left to the standard library.
#[verifier::external_body]
pub(crate) fn lower_of_char(c: char) -> (r: Vec<char>)
    ensures
        r@ == (if is_ascii(c) {
            seq![small(c)]
        } else {
            lower_beyond(c)
        }),
{
    c.to_lowercase().collect()
}

/// `String::push` appends one character.
pub assume_specification[ String::push ](s: &mut String, c: char)
    ensures
        final(s)@ == old(s)@.push(c),
;

/// The error of `String::from_utf8`, carried and not looked into.
#[verifier::external_type_specification]
#[verifier::external_body]
pub struct ExFromUtf8Error(std::string::FromUtf8Error);

/// `String::from_utf8` takes exactly the byte sequences that are UTF-8, and
/// gives the text they encode.
pub assume_specification[ String::from_utf8 ](bytes: Vec<u8>) -> (r: Result<
    String,
    std::string::FromUtf8Error,
>)
    ensures
        r is Ok == vstd::utf8::valid_utf8(bytes@),
        r is Ok ==> r->Ok_0@ == vstd::utf8::decode_utf8(bytes@),
;

// ---- sequences of values and their views ----

/// The views of a sequence of values, in order.
pub open spec fn views<T: View>(s: Seq<T>) -> Seq<T::V> {
    Seq::new(s.len(), |i: int| s[i]@)
}

pub broadcast proof fn lemma_views_push<T: View>(s: Seq<T>, x: T)
    ensures
        #[trigger] views(s.push(x)) == views(s).push(x@),
{
    assert(views(s.push(x)) =~= views(s).push(x@));
}

// ---- from strings to characters and back ----

/// The characters of a string, in order.
pub fn chars_of(s: &str) -> (out: Vec<char>)
    ensures
        out@ == s@,
{
    let mut out: Vec<char> = Vec::new();
    for c in it: s.chars()
        invariant
            out@ == it.seq().take(it.index() as int),
    {
        out.push(c);
    }
    out
}

/// The string made of some characters.
pub fn string_of(chars: &[char]) -> (out: String)
    ensures
        out@ == chars@,
{
    let mut out = String::new();
    let mut i: usize = 0;
    while i < chars.len()
        invariant
            i <= chars@.len(),
            out@ == chars@.take(i as int),
        decreases chars@.len() - i,
    {
        out.push(chars[i]);
        assert(chars@.take(i + 1) =~= chars@.take(i as int).push(chars@[i as int]));
        i = i + 1;
    }
    assert(chars@.take(chars@.len() as int) =~= chars@);
    out
}

/// The UTF-8 bytes of a string.
pub fn bytes_of(s: &str) -> (out: Vec<u8>)
    ensures
        out@ == vstd::utf8::encode_utf8(s@),
{
    let bytes = s.as_bytes();
    let mut out: Vec<u8> = Vec::new();
    let mut i: usize = 0;
    while i < bytes.len()
        invariant
            i <= bytes@.len(),
            out@ == bytes@.take(i as int),
        decreases bytes@.len() - i,
    {
        out.push(bytes[i]);
        assert(bytes@.take(i + 1) =~= bytes@.take(i as int).push(bytes@[i as int]));
        i = i + 1;
    }
    assert(bytes@.take(bytes@.len() as int) =~= bytes@);
    out
}

/// A copy of some of the characters.
pub fn part(chars: &[char], from: usize, to: usize) -> (out: Vec<char>)
    requires
        from <= to <= chars@.len(),
    ensures
        out@ == chars@.subrange(from as int, to as int),
{
    let mut out: Vec<char> = Vec::new();
    let mut i: usize = from;
    while i < to
        invariant
            from <= i <= to <= chars@.len(),
            out@ == chars@.subrange(from as int, i as int),
        decreases to - i,
    {
        out.push(chars[i]);
        assert(chars@.subrange(from as int, i + 1) =~= chars@.subrange(from as int, i as int).push(
            chars@[i as int],
        ));
        i = i + 1;
    }
    out
}

/// Append characters to others.
pub fn extend(out: &mut Vec<char>, more: &[char])
    ensures
        final(out)@ == old(out)@ + more@,
{
    let mut i: usize = 0;
    while i < more.len()
        invariant
            i <= more@.len(),
            out@ == old(out)@ + more@.take(i as int),
        decreases more@.len() - i,
    {
        out.push(more[i]);
        assert(more@.take(i + 1) =~= more@.take(i as int).push(more@[i as int]));
        i = i + 1;
    }
    assert(more@.take(more@.len() as int) =~= more@);
}

/// Whether two runs of characters are the same.
pub fn same_chars(a: &[char], b: &[char]) -> (r: bool)
    ensures
        r == (a@ == b@),
{
    if a.len() != b.len() {
        return false;
    }
    let mut i: usize = 0;
    while i < a.len()
        invariant
            i <= a@.len() == b@.len(),
            forall|j: int| 0 <= j < i ==> a@[j] == b@[j],
        decreases a@.len() - i,
    {
        if a[i] != b[i] {
            return false;
        }
        i = i + 1;
    }
    assert(a@ =~= b@);
    true
}

/// Whether two strings are the same.
pub fn same(a: &str, b: &str) -> (r: bool)
    ensures
        r == (a@ == b@),
{
    same_chars(&chars_of(a), &chars_of(b))
}

/// A copy of some texts.
pub fn copy_all(texts: &Vec<String>) -> (out: Vec<String>)
    ensures
        views(out@) == views(texts@),
{
    let ghost all = views(texts@);
    let mut out: Vec<String> = Vec::new();
    let mut i: usize = 0;
    while i < texts.len()
        invariant
            i <= texts@.len(),
            all == views(texts@),
            views(out@) == all.take(i as int),
        decreases texts@.len() - i,
    {
        let copy = texts[i].clone();
        proof {
            lemma_views_push(out@, copy);
            assert(all.take(i + 1) =~= all.take(i as int).push(copy@));
        }
        out.push(copy);
        i = i + 1;
    }
    assert(all.take(all.len() as int) =~= all);
    out
}

/// Whether a text is among some.
pub fn has_text(texts: &Vec<String>, wanted: &str) -> (r: bool)
    ensures
        r == views(texts@).contains(wanted@),
{
    let ghost all = views(texts@);
    let mut i: usize = 0;
    while i < texts.len()
        invariant
            i <= texts@.len(),
            all == views(texts@),
            forall|j: int| 0 <= j < i ==> (#[trigger] all[j]) != wanted@,
        decreases texts@.len() - i,
    {
        if same(texts[i].as_str(), wanted) {
            assert(all[i as int] == wanted@);
            return true;
        }
        assert(all[i as int] != wanted@);
        i = i + 1;
    }
    false
}

// ---- trimming ----

/// The text without the whitespace it begins with.
pub open spec fn trim_start(s: Seq<char>) -> Seq<char>
    decreases s.len(),
{
    if s.len() > 0 && white(s[0]) {
        trim_start(s.skip(1))
    } else {
        s
    }
}

/// The text without the whitespace it ends with.
pub open spec fn trim_end(s: Seq<char>) -> Seq<char>
    decreases s.len(),
{
    if s.len() > 0 && white(s.last()) {
        trim_end(s.drop_last())
    } else {
        s
    }
}

/// The text without the whitespace on either side of it.
pub open spec fn trim(s: Seq<char>) -> Seq<char> {
    trim_end(trim_start(s))
}

/// How many whitespace characters a text begins with.
pub fn leading_white(s: &[char]) -> (n: usize)
    ensures
        n <= s@.len(),
        trim_start(s@) == s@.skip(n as int),
        n == s@.len() - trim_start(s@).len(),
{
    let mut n: usize = 0;
    assert(s@.skip(0) =~= s@);
    while n < s.len() && s[n].is_whitespace()
        invariant
            n <= s@.len(),
            trim_start(s@) == trim_start(s@.skip(n as int)),
        decreases s@.len() - n,
    {
        assert(s@.skip(n as int).skip(1) =~= s@.skip(n + 1));
        n = n + 1;
    }
    n
}

/// Where the text ends once its trailing whitespace is gone.
pub fn trimmed_end(s: &[char]) -> (n: usize)
    ensures
        n <= s@.len(),
        trim_end(s@) == s@.take(n as int),
{
    let mut n: usize = s.len();
    assert(s@.take(n as int) =~= s@);
    while n > 0 && s[n - 1].is_whitespace()
        invariant
            n <= s@.len(),
            trim_end(s@) == trim_end(s@.take(n as int)),
        decreases n,
    {
        assert(s@.take(n as int).drop_last() =~= s@.take(n - 1));
        n = n - 1;
    }
    n
}

/// The characters of a text without the whitespace around it.
pub fn trim_chars(s: &[char]) -> (out: Vec<char>)
    ensures
        out@ == trim(s@),
{
    let from = leading_white(s);
    let rest = part(s, from, s.len());
    assert(rest@ =~= trim_start(s@));
    let to = trimmed_end(&rest);
    let out = part(&rest, 0, to);
    assert(out@ =~= rest@.take(to as int));
    out
}

/// The text without the whitespace around it.
pub fn trimmed(s: &str) -> (out: String)
    ensures
        out@ == trim(s@),
{
    string_of(&trim_chars(&chars_of(s)))
}

/// Trimming keeps a run of the text's own characters.
pub proof fn lemma_trim_start_is_skip(s: Seq<char>)
    ensures
        trim_start(s).len() <= s.len(),
        trim_start(s) == s.skip(s.len() - trim_start(s).len()),
    decreases s.len(),
{
    if s.len() > 0 && white(s[0]) {
        lemma_trim_start_is_skip(s.skip(1));
        let k = s.skip(1).len() - trim_start(s.skip(1)).len();
        assert(s.skip(1).skip(k) =~= s.skip(k + 1));
    } else {
        assert(s.skip(0) =~= s);
    }
}

/// Trimming keeps a run of the text's own characters.
pub proof fn lemma_trim_end_is_take(s: Seq<char>)
    ensures
        trim_end(s).len() <= s.len(),
        trim_end(s) == s.take(trim_end(s).len() as int),
    decreases s.len(),
{
    if s.len() > 0 && white(s.last()) {
        lemma_trim_end_is_take(s.drop_last());
        let k = trim_end(s).len() as int;
        assert(s.drop_last().take(k) =~= s.take(k));
    } else {
        assert(s.take(s.len() as int) =~= s);
    }
}

/// A trimmed text is no longer than it was.
pub proof fn lemma_trim_len(s: Seq<char>)
    ensures
        trim(s).len() <= s.len(),
{
    lemma_trim_start_is_skip(s);
    lemma_trim_end_is_take(trim_start(s));
}

/// A trimmed text neither begins nor ends with whitespace.
pub proof fn lemma_trim_ends(s: Seq<char>)
    ensures
        trim(s).len() > 0 ==> !white(trim(s)[0]) && !white(trim(s).last()),
{
    lemma_trim_start_black(s);
    lemma_trim_end_black(trim_start(s));
    lemma_trim_end_is_take(trim_start(s));
}

proof fn lemma_trim_start_black(s: Seq<char>)
    ensures
        trim_start(s).len() > 0 ==> !white(trim_start(s)[0]),
    decreases s.len(),
{
    if s.len() > 0 && white(s[0]) {
        lemma_trim_start_black(s.skip(1));
    }
}

proof fn lemma_trim_end_black(s: Seq<char>)
    ensures
        trim_end(s).len() > 0 ==> !white(trim_end(s).last()),
    decreases s.len(),
{
    if s.len() > 0 && white(s.last()) {
        lemma_trim_end_black(s.drop_last());
    }
}

/// Trimming a text that neither begins nor ends with whitespace changes
/// nothing.
pub proof fn lemma_trim_nothing(s: Seq<char>)
    requires
        s.len() > 0 ==> !white(s[0]) && !white(s.last()),
    ensures
        trim(s) == s,
{
}

/// Trimming a trimmed text changes nothing.
pub proof fn lemma_trim_again(s: Seq<char>)
    ensures
        trim(trim(s)) == trim(s),
{
    lemma_trim_ends(s);
    lemma_trim_nothing(trim(s));
}

/// Trimming keeps ASCII texts ASCII.
pub proof fn lemma_trim_ascii(s: Seq<char>)
    requires
        all_ascii(s),
    ensures
        all_ascii(trim(s)),
{
    lemma_trim_start_is_skip(s);
    lemma_trim_end_is_take(trim_start(s));
    let k = s.len() - trim_start(s).len();
    assert forall|i: int| 0 <= i < trim(s).len() implies is_ascii(#[trigger] trim(s)[i]) by {
        assert(trim(s)[i] == trim_start(s)[i]);
        assert(trim_start(s)[i] == s[k + i]);
    }
}

/// Whether a text is nothing but whitespace.
pub open spec fn is_blank(s: Seq<char>) -> bool {
    forall|i: int| 0 <= i < s.len() ==> white(#[trigger] s[i])
}

/// Trimming takes away the whitespace around a text and nothing else: what is
/// left of a text with whitespace around it is that text, and of whitespace
/// alone nothing.
pub proof fn lemma_trim_around(before: Seq<char>, s: Seq<char>, after: Seq<char>)
    requires
        is_blank(before),
        is_blank(after),
        s.len() > 0 ==> !white(s[0]) && !white(s.last()),
    ensures
        trim(before + s + after) == s,
        s.len() > 0 ==> trim_start(before + s + after) == s + after,
        s.len() > 0 ==> trim_end(s + after) == s,
    decreases before.len(),
{
    let all = before + s + after;
    if before.len() > 0 {
        assert(white(before[0]));
        assert(all[0] == before[0]);
        let rest = before.skip(1);
        assert(is_blank(rest)) by {
            assert forall|i: int| 0 <= i < rest.len() implies white(#[trigger] rest[i]) by {
                assert(rest[i] == before[i + 1]);
            }
        }
        assert(all.skip(1) =~= rest + s + after);
        lemma_trim_around(rest, s, after);
    } else {
        assert(all =~= s + after);
        if s.len() > 0 {
            assert(trim_start(all) == all);
            lemma_trim_end_around(s, after);
        } else {
            assert(all =~= after);
            lemma_trim_start_blank(after);
            assert(trim(all) =~= s);
        }
    }
}

proof fn lemma_trim_end_around(s: Seq<char>, after: Seq<char>)
    requires
        is_blank(after),
        s.len() > 0 ==> !white(s.last()),
    ensures
        trim_end(s + after) == s,
    decreases after.len(),
{
    if after.len() > 0 {
        let rest = after.drop_last();
        assert(white(after[after.len() - 1]));
        assert(is_blank(rest)) by {
            assert forall|i: int| 0 <= i < rest.len() implies white(#[trigger] rest[i]) by {
                assert(rest[i] == after[i]);
            }
        }
        assert((s + after).drop_last() =~= s + rest);
        assert((s + after).last() == after.last());
        lemma_trim_end_around(s, rest);
    } else {
        assert(s + after =~= s);
    }
}

proof fn lemma_trim_start_blank(s: Seq<char>)
    requires
        is_blank(s),
    ensures
        trim_start(s) == Seq::<char>::empty(),
    decreases s.len(),
{
    if s.len() > 0 {
        assert(white(s[0]));
        let rest = s.skip(1);
        assert(is_blank(rest)) by {
            assert forall|i: int| 0 <= i < rest.len() implies white(#[trigger] rest[i]) by {
                assert(rest[i] == s[i + 1]);
            }
        }
        lemma_trim_start_blank(rest);
    } else {
        assert(s =~= Seq::<char>::empty());
    }
}

// ---- lower case in ASCII ----

/// An ASCII text keeps its length in lower case, and each part of it is
/// lowercased by itself.
pub proof fn lemma_lowercase_part(s: Seq<char>, from: int, to: int)
    requires
        all_ascii(s),
        0 <= from <= to <= s.len(),
    ensures
        lowercase(s).len() == s.len(),
        lowercase(s.subrange(from, to)) == lowercase(s).subrange(from, to),
{
    assert(all_ascii(s.subrange(from, to)));
    assert(lowercase(s.subrange(from, to)) =~= lowercase(s).subrange(from, to));
}

/// Lowercasing an ASCII text once is enough.
pub proof fn lemma_lowercase_again(s: Seq<char>)
    requires
        all_ascii(s),
    ensures
        all_ascii(lowercase(s)),
        lowercase(lowercase(s)) == lowercase(s),
{
    lemma_small();
    let low = lowercase(s);
    assert forall|i: int| 0 <= i < low.len() implies is_ascii(#[trigger] low[i]) by {
        assert(low[i] == small(s[i]));
    }
    assert forall|i: int| 0 <= i < low.len() implies #[trigger] small(low[i]) == low[i] by {
        assert(low[i] == small(s[i]));
    }
    assert(lowercase(low) =~= low);
}

proof fn lemma_small()
    ensures
        forall|c: char| is_ascii(c) ==> is_ascii(#[trigger] small(c)),
        forall|c: char| is_ascii(c) ==> !is_capital(#[trigger] small(c)),
        forall|c: char| is_ascii(c) ==> white(#[trigger] small(c)) == white(c),
{
    assert forall|c: char| is_ascii(c) implies is_ascii(#[trigger] small(c)) && !is_capital(
        small(c),
    ) && white(small(c)) == white(c) by {
        if is_capital(c) {
            assert(small(c) as int == c as int + 32);
        }
    }
}

/// An ASCII text that is trimmed is trimmed in lower case too.
pub proof fn lemma_lowercase_trimmed(s: Seq<char>)
    requires
        all_ascii(s),
    ensures
        trim(lowercase(trim(s))) == lowercase(trim(s)),
        lowercase(trim(s)).len() == trim(s).len(),
        trim(s).len() > 0 ==> !white(lowercase(trim(s))[0]) && !white(lowercase(trim(s)).last()),
{
    lemma_trim_ascii(s);
    lemma_trim_ends(s);
    lemma_small();
    let t = trim(s);
    if t.len() > 0 {
        assert(lowercase(t)[0] == small(t[0]));
        assert(lowercase(t).last() == small(t[t.len() - 1]));
        assert(is_ascii(t[0]) && is_ascii(t[t.len() - 1]));
    }
    lemma_trim_nothing(lowercase(t));
}

// ---- what is written ----

/// A text without its whitespace.
pub open spec fn ink(s: Seq<char>) -> Seq<char>
    decreases s.len(),
{
    if s.len() == 0 {
        s
    } else if white(s.last()) {
        ink(s.drop_last())
    } else {
        ink(s.drop_last()).push(s.last())
    }
}

/// What is written in two texts, one behind the other, is what is written in
/// each.
pub proof fn lemma_ink_add(a: Seq<char>, b: Seq<char>)
    ensures
        ink(a + b) == ink(a) + ink(b),
    decreases b.len(),
{
    if b.len() == 0 {
        assert(a + b =~= a);
        assert(ink(a) + ink(b) =~= ink(a));
    } else {
        lemma_ink_add(a, b.drop_last());
        assert((a + b).drop_last() =~= a + b.drop_last());
        assert((a + b).last() == b.last());
        assert(ink(a + b) =~= ink(a) + ink(b));
    }
}

/// There is no more written in a text than it has characters.
pub proof fn lemma_ink_len(s: Seq<char>)
    ensures
        ink(s).len() <= s.len(),
    decreases s.len(),
{
    if s.len() > 0 {
        lemma_ink_len(s.drop_last());
    }
}

/// A character that is not whitespace is written.
pub proof fn lemma_ink_holds(s: Seq<char>, k: int)
    requires
        0 <= k < s.len(),
        !white(s[k]),
    ensures
        ink(s).contains(s[k]),
    decreases s.len(),
{
    let rest = s.drop_last();
    if k < rest.len() {
        lemma_ink_holds(rest, k);
        assert(rest[k] == s[k]);
        let j = choose|j: int| 0 <= j < ink(rest).len() && ink(rest)[j] == s[k];
        assert(ink(s)[j] == s[k]);
    } else {
        assert(ink(s)[ink(s).len() - 1] == s[k]);
    }
}

/// What is written in a text is in it.
pub proof fn lemma_ink_of(s: Seq<char>, c: char)
    requires
        ink(s).contains(c),
    ensures
        s.contains(c),
    decreases s.len(),
{
    if s.len() > 0 {
        let rest = s.drop_last();
        if s.last() == c {
            assert(s[s.len() - 1] == c);
        } else {
            let j = choose|j: int| 0 <= j < ink(s).len() && ink(s)[j] == c;
            assert(ink(rest)[j] == c);
            lemma_ink_of(rest, c);
            let k = choose|k: int| 0 <= k < rest.len() && rest[k] == c;
            assert(s[k] == c);
        }
    }
}

/// Trimming takes away nothing that is written.
pub proof fn lemma_ink_trim(s: Seq<char>)
    ensures
        ink(trim(s)) == ink(s),
{
    lemma_ink_trim_start(s);
    lemma_ink_trim_end(trim_start(s));
}

proof fn lemma_ink_trim_start(s: Seq<char>)
    ensures
        ink(trim_start(s)) == ink(s),
    decreases s.len(),
{
    if s.len() > 0 && white(s[0]) {
        lemma_ink_trim_start(s.skip(1));
        let first = s.take(1);
        lemma_ink_add(first, s.skip(1));
        assert(first + s.skip(1) =~= s);
        assert(first.drop_last() =~= Seq::<char>::empty());
        assert(first.last() == s[0]);
        reveal_with_fuel(ink, 2);
        assert(ink(first) + ink(s.skip(1)) =~= ink(s.skip(1)));
    }
}

proof fn lemma_ink_trim_end(s: Seq<char>)
    ensures
        ink(trim_end(s)) == ink(s),
    decreases s.len(),
{
    if s.len() > 0 && white(s.last()) {
        lemma_ink_trim_end(s.drop_last());
    }
}

// ---- splitting ----

/// The pieces of a text between the occurrences of a separator: one more piece
/// than there are separators.
pub open spec fn split_on(s: Seq<char>, c: char) -> Seq<Seq<char>>
    decreases s.len(),
{
    if s.len() == 0 {
        seq![Seq::<char>::empty()]
    } else {
        let before = split_on(s.drop_last(), c);
        if s.last() == c {
            before.push(Seq::<char>::empty())
        } else {
            before.update(before.len() - 1, before.last().push(s.last()))
        }
    }
}

/// Pieces put back together with a separator between each two.
pub open spec fn join(pieces: Seq<Seq<char>>, sep: Seq<char>) -> Seq<char>
    decreases pieces.len(),
{
    if pieces.len() == 0 {
        Seq::<char>::empty()
    } else if pieces.len() == 1 {
        pieces[0]
    } else {
        join(pieces.drop_last(), sep) + sep + pieces.last()
    }
}

/// There is always at least one piece.
pub proof fn lemma_split_nonempty(s: Seq<char>, c: char)
    ensures
        split_on(s, c).len() >= 1,
    decreases s.len(),
{
    if s.len() > 0 {
        lemma_split_nonempty(s.drop_last(), c);
    }
}

/// No piece holds the separator.
pub proof fn lemma_split_pieces(s: Seq<char>, c: char)
    ensures
        forall|i: int, j: int|
            0 <= i < split_on(s, c).len() && 0 <= j < split_on(s, c)[i].len() ==> (
            #[trigger] split_on(s, c)[i][j]) != c,
    decreases s.len(),
{
    if s.len() > 0 {
        lemma_split_nonempty(s.drop_last(), c);
        lemma_split_pieces(s.drop_last(), c);
        let before = split_on(s.drop_last(), c);
        assert forall|i: int, j: int|
            0 <= i < split_on(s, c).len() && 0 <= j < split_on(s, c)[i].len() implies (
        #[trigger] split_on(s, c)[i][j]) != c by {
            if i < before.len() && j < before[i].len() {
                assert(split_on(s, c)[i][j] == before[i][j]);
            }
        }
    }
}

/// Splitting on a separator and joining with it gives the text back.
pub proof fn lemma_join_split(s: Seq<char>, c: char)
    ensures
        join(split_on(s, c), seq![c]) == s,
    decreases s.len(),
{
    if s.len() > 0 {
        let before = split_on(s.drop_last(), c);
        lemma_split_nonempty(s.drop_last(), c);
        lemma_join_split(s.drop_last(), c);
        assert(s =~= s.drop_last().push(s.last()));
        if s.last() == c {
            let now = before.push(Seq::<char>::empty());
            assert(now.drop_last() =~= before);
            assert(join(now, seq![c]) =~= s);
        } else {
            let now = before.update(before.len() - 1, before.last().push(s.last()));
            assert(now.drop_last() =~= before.drop_last());
            assert(join(now, seq![c]) =~= s);
        }
    }
}

/// What follows the last separator is the last piece.
pub proof fn lemma_split_append(s: Seq<char>, c: char, name: Seq<char>)
    requires
        !name.contains(c),
    ensures
        split_on(s.push(c) + name, c) == split_on(s, c).push(name),
    decreases name.len(),
{
    let all = s.push(c) + name;
    if name.len() == 0 {
        assert(name =~= Seq::<char>::empty());
        assert(all =~= s.push(c));
        assert(all.drop_last() =~= s);
    } else {
        let less = name.drop_last();
        assert(name[name.len() - 1] == name.last());
        assert forall|i: int| 0 <= i < less.len() implies less[i] != c by {
            assert(name[i] == less[i]);
        }
        lemma_split_append(s, c, less);
        assert(all.drop_last() =~= s.push(c) + less);
        assert(split_on(all, c) =~= split_on(s, c).push(name)) by {
            assert(name =~= less.push(name.last()));
        }
    }
}

/// The pieces on both sides of a separator are the pieces of the whole.
pub proof fn lemma_split_concat(a: Seq<char>, c: char, b: Seq<char>)
    ensures
        split_on(a.push(c) + b, c) == split_on(a, c) + split_on(b, c),
    decreases b.len(),
{
    let all = a.push(c) + b;
    lemma_split_nonempty(a, c);
    lemma_split_nonempty(b, c);
    if b.len() == 0 {
        assert(b =~= Seq::<char>::empty());
        assert(all =~= a.push(c));
        assert(all.drop_last() =~= a);
        assert(split_on(all, c) =~= split_on(a, c) + split_on(b, c));
    } else {
        let less = b.drop_last();
        lemma_split_concat(a, c, less);
        lemma_split_nonempty(less, c);
        assert(all.drop_last() =~= a.push(c) + less);
        assert(split_on(all, c) =~= split_on(a, c) + split_on(b, c));
    }
}

/// A character that does not separate is in one of the pieces.
pub proof fn lemma_split_holds(s: Seq<char>, c: char, x: char)
    requires
        s.contains(x),
        x != c,
    ensures
        exists|i: int|
            0 <= i < split_on(s, c).len() && (#[trigger] split_on(s, c)[i]).contains(x),
    decreases s.len(),
{
    let k = choose|k: int| 0 <= k < s.len() && s[k] == x;
    let rest = s.drop_last();
    let pieces = split_on(rest, c);
    let all = split_on(s, c);
    lemma_split_nonempty(rest, c);
    if k < rest.len() {
        assert(rest[k] == x);
        lemma_split_holds(rest, c, x);
        let i = choose|i: int| 0 <= i < pieces.len() && (#[trigger] pieces[i]).contains(x);
        if s.last() != c && i == pieces.len() - 1 {
            let j = choose|j: int| 0 <= j < pieces[i].len() && pieces[i][j] == x;
            assert(all[i] == pieces[i].push(s.last()));
            assert(all[i][j] == x);
        } else {
            assert(all[i] == pieces[i]);
        }
        assert(all[i].contains(x));
    } else {
        let i = all.len() - 1;
        assert(all[i] == pieces.last().push(x));
        assert(all[i][pieces.last().len() as int] == x);
    }
}

/// A text without the separator is one piece.
pub proof fn lemma_split_one(s: Seq<char>, c: char)
    requires
        !s.contains(c),
    ensures
        split_on(s, c) == seq![s],
    decreases s.len(),
{
    if s.len() == 0 {
        assert(s =~= Seq::<char>::empty());
    } else {
        let less = s.drop_last();
        assert(s[s.len() - 1] == s.last());
        assert forall|i: int| 0 <= i < less.len() implies less[i] != c by {
            assert(s[i] == less[i]);
        }
        lemma_split_one(less, c);
        assert(s =~= less.push(s.last()));
        assert(split_on(s, c) =~= seq![s]);
    }
}

/// Joining pieces that do not hold the separator and splitting on it gives the
/// pieces back.
pub proof fn lemma_split_join(pieces: Seq<Seq<char>>, c: char)
    requires
        pieces.len() > 0,
        forall|i: int| 0 <= i < pieces.len() ==> !(#[trigger] pieces[i]).contains(c),
    ensures
        split_on(join(pieces, seq![c]), c) == pieces,
    decreases pieces.len(),
{
    if pieces.len() == 1 {
        lemma_split_one(pieces[0], c);
        assert(pieces =~= seq![pieces[0]]);
    } else {
        let rest = pieces.drop_last();
        assert forall|i: int| 0 <= i < rest.len() implies !(#[trigger] rest[i]).contains(c) by {
            assert(pieces[i] == rest[i]);
        }
        lemma_split_join(rest, c);
        assert(pieces[pieces.len() - 1] == pieces.last());
        lemma_split_append(join(rest, seq![c]), c, pieces.last());
        assert(join(pieces, seq![c]) =~= join(rest, seq![c]).push(c) + pieces.last());
        assert(pieces =~= rest.push(pieces.last()));
    }
}

/// Split a text on a separator.
pub fn split_chars(s: &[char], c: char) -> (out: Vec<Vec<char>>)
    ensures
        views(out@) == split_on(s@, c),
        out@.len() >= 1,
{
    let mut out: Vec<Vec<char>> = Vec::new();
    let mut current: Vec<char> = Vec::new();
    let mut i: usize = 0;
    assert(views(out@).push(current@) =~= split_on(s@.take(0), c));
    while i < s.len()
        invariant
            i <= s@.len(),
            views(out@).push(current@) == split_on(s@.take(i as int), c),
        decreases s@.len() - i,
    {
        proof {
            assert(s@.take(i + 1).drop_last() =~= s@.take(i as int));
        }
        let ghost before = views(out@).push(current@);
        if s[i] == c {
            proof {
                lemma_views_push(out@, current);
            }
            out.push(current);
            current = Vec::new();
            assert(views(out@).push(current@) =~= split_on(s@.take(i + 1), c));
        } else {
            current.push(s[i]);
            assert(views(out@).push(current@) =~= before.update(
                before.len() - 1,
                before.last().push(s@[i as int]),
            ));
        }
        i = i + 1;
    }
    assert(s@.take(s@.len() as int) =~= s@);
    proof {
        lemma_views_push(out@, current);
    }
    out.push(current);
    out
}

/// Join pieces with a separator between each two.
pub fn join_chars(pieces: &[Vec<char>], sep: char) -> (out: Vec<char>)
    ensures
        out@ == join(views(pieces@), seq![sep]),
{
    let mut out: Vec<char> = Vec::new();
    let ghost all = views(pieces@);
    let mut i: usize = 0;
    while i < pieces.len()
        invariant
            i <= pieces@.len(),
            all == views(pieces@),
            out@ == join(all.take(i as int), seq![sep]),
        decreases pieces@.len() - i,
    {
        assert(all.take(i + 1).drop_last() =~= all.take(i as int));
        if i > 0 {
            out.push(sep);
        }
        extend(&mut out, &pieces[i]);
        assert(out@ =~= join(all.take(i + 1), seq![sep]));
        i = i + 1;
    }
    assert(all.take(all.len() as int) =~= all);
    out
}

/// Join pieces with a text between each two.
pub fn join_with(pieces: &[Vec<char>], sep: &[char]) -> (out: Vec<char>)
    ensures
        out@ == join(views(pieces@), sep@),
{
    let mut out: Vec<char> = Vec::new();
    let ghost all = views(pieces@);
    let mut i: usize = 0;
    while i < pieces.len()
        invariant
            i <= pieces@.len(),
            all == views(pieces@),
            out@ == join(all.take(i as int), sep@),
        decreases pieces@.len() - i,
    {
        assert(all.take(i + 1).drop_last() =~= all.take(i as int));
        if i > 0 {
            extend(&mut out, sep);
        }
        extend(&mut out, &pieces[i]);
        assert(out@ =~= join(all.take(i + 1), sep@));
        i = i + 1;
    }
    assert(all.take(all.len() as int) =~= all);
    out
}

/// What a join begins with: the first piece, then a separator and the join of
/// the rest.
pub proof fn lemma_join_first(pieces: Seq<Seq<char>>, sep: Seq<char>)
    requires
        pieces.len() >= 2,
    ensures
        join(pieces, sep) == pieces[0] + sep + join(pieces.skip(1), sep),
    decreases pieces.len(),
{
    let rest = pieces.drop_last();
    if pieces.len() == 2 {
        assert(pieces.skip(1) =~= seq![pieces[1]]);
        reveal_with_fuel(join, 2);
        assert(join(pieces, sep) =~= pieces[0] + sep + pieces[1]);
    } else {
        lemma_join_first(rest, sep);
        assert(rest.skip(1) =~= pieces.skip(1).drop_last());
        assert(pieces.skip(1).last() == pieces.last());
        assert(join(pieces, sep) =~= pieces[0] + sep + join(pieces.skip(1), sep));
    }
}

/// A line without the carriage return before its line feed.
pub open spec fn without_cr(line: Seq<char>) -> Seq<char> {
    if line.len() > 0 && line.last() == '\r' {
        line.drop_last()
    } else {
        line
    }
}

/// The lines of a text. A line ends at a line feed, with or without a carriage
/// return before it; nothing after the last line feed is no line.
pub open spec fn lines(s: Seq<char>) -> Seq<Seq<char>> {
    let pieces = split_on(s, '\n');
    let ended = pieces.drop_last().map_values(|line: Seq<char>| without_cr(line));
    if pieces.last().len() == 0 {
        ended
    } else {
        ended.push(pieces.last())
    }
}

/// The lines of a text.
pub fn lines_of(s: &[char]) -> (out: Vec<Vec<char>>)
    ensures
        views(out@) == lines(s@),
{
    let mut pieces = split_chars(s, '\n');
    let ghost all = views(pieces@);
    let last = pieces.pop().unwrap();
    assert(views(pieces@) =~= all.drop_last());
    let mut out: Vec<Vec<char>> = Vec::new();
    let mut i: usize = 0;
    let ghost ended = all.drop_last().map_values(|line: Seq<char>| without_cr(line));
    while i < pieces.len()
        invariant
            i <= pieces@.len(),
            views(pieces@) == all.drop_last(),
            ended == all.drop_last().map_values(|line: Seq<char>| without_cr(line)),
            views(out@) == ended.take(i as int),
        decreases pieces@.len() - i,
    {
        let piece = &pieces[i];
        assert(piece@ == all.drop_last()[i as int]);
        let end = if piece.len() > 0 && piece[piece.len() - 1] == '\r' {
            piece.len() - 1
        } else {
            piece.len()
        };
        let line = part(piece, 0, end);
        assert(line@ =~= without_cr(piece@));
        proof {
            lemma_views_push(out@, line);
            assert(ended.take(i + 1) =~= ended.take(i as int).push(ended[i as int]));
        }
        out.push(line);
        i = i + 1;
    }
    assert(ended.take(pieces@.len() as int) =~= ended);
    if last.len() > 0 {
        proof {
            lemma_views_push(out@, last);
        }
        out.push(last);
    }
    out
}

/// The runs of characters between whitespace.
pub open spec fn words(s: Seq<char>) -> (Seq<Seq<char>>, Seq<char>)
    decreases s.len(),
{
    if s.len() == 0 {
        (Seq::<Seq<char>>::empty(), Seq::<char>::empty())
    } else {
        let (done, current) = words(s.drop_last());
        if !white(s.last()) {
            (done, current.push(s.last()))
        } else if current.len() > 0 {
            (done.push(current), Seq::<char>::empty())
        } else {
            (done, current)
        }
    }
}

/// The words of a text: its maximal runs without whitespace.
pub open spec fn split_white(s: Seq<char>) -> Seq<Seq<char>> {
    let (done, current) = words(s);
    if current.len() > 0 {
        done.push(current)
    } else {
        done
    }
}

/// The words of a text.
pub fn words_of(s: &[char]) -> (out: Vec<Vec<char>>)
    ensures
        views(out@) == split_white(s@),
{
    let mut out: Vec<Vec<char>> = Vec::new();
    let mut current: Vec<char> = Vec::new();
    let mut i: usize = 0;
    assert(views(out@) =~= Seq::<Seq<char>>::empty());
    while i < s.len()
        invariant
            i <= s@.len(),
            words(s@.take(i as int)) == (views(out@), current@),
        decreases s@.len() - i,
    {
        assert(s@.take(i + 1).drop_last() =~= s@.take(i as int));
        if !s[i].is_whitespace() {
            current.push(s[i]);
        } else if current.len() > 0 {
            proof {
                lemma_views_push(out@, current);
            }
            out.push(current);
            current = Vec::new();
        }
        i = i + 1;
    }
    assert(s@.take(s@.len() as int) =~= s@);
    if current.len() > 0 {
        proof {
            lemma_views_push(out@, current);
        }
        out.push(current);
    }
    out
}

// ---- finding ----

/// Where `c` first stands at or after `from`.
pub open spec fn find_char(s: Seq<char>, c: char, from: int) -> Option<int>
    decreases s.len() - from,
{
    if from < 0 || from >= s.len() {
        None
    } else if s[from] == c {
        Some(from)
    } else {
        find_char(s, c, from + 1)
    }
}

/// Where `c` stands last.
pub open spec fn find_last(s: Seq<char>, c: char) -> Option<int>
    decreases s.len(),
{
    if s.len() == 0 {
        None
    } else if s.last() == c {
        Some(s.len() - 1)
    } else {
        find_last(s.drop_last(), c)
    }
}

/// Whether `needle` stands at a position.
pub open spec fn stands_at(s: Seq<char>, needle: Seq<char>, at: int) -> bool {
    0 <= at && at + needle.len() <= s.len() && s.subrange(at, at + needle.len()) == needle
}

/// Where `needle` first stands at or after `from`.
pub open spec fn find_text(s: Seq<char>, needle: Seq<char>, from: int) -> Option<int>
    decreases s.len() + 1 - from,
{
    if from < 0 || from + needle.len() > s.len() {
        None
    } else if stands_at(s, needle, from) {
        Some(from)
    } else {
        find_text(s, needle, from + 1)
    }
}

/// The first place is a place, nothing stands before it, and there is one
/// whenever the character occurs.
pub proof fn lemma_find_char(s: Seq<char>, c: char, from: int)
    requires
        0 <= from,
    ensures
        match find_char(s, c, from) {
            Some(i) => from <= i < s.len() && s[i] == c && forall|j: int|
                from <= j < i ==> s[j] != c,
            None => forall|j: int| from <= j < s.len() ==> s[j] != c,
        },
    decreases s.len() - from,
{
    if from < s.len() && s[from] != c {
        lemma_find_char(s, c, from + 1);
    }
}

/// The last place is a place, nothing stands after it, and there is one
/// whenever the character occurs.
pub proof fn lemma_find_last(s: Seq<char>, c: char)
    ensures
        match find_last(s, c) {
            Some(i) => 0 <= i < s.len() && s[i] == c && forall|j: int|
                i < j < s.len() ==> s[j] != c,
            None => forall|j: int| 0 <= j < s.len() ==> s[j] != c,
        },
    decreases s.len(),
{
    if s.len() > 0 && s.last() != c {
        lemma_find_last(s.drop_last(), c);
        let d = s.drop_last();
        assert(forall|j: int| 0 <= j < d.len() ==> d[j] == s[j]);
    }
}

/// The separator before a name is the last one.
pub proof fn lemma_find_last_append(s: Seq<char>, c: char, name: Seq<char>)
    requires
        !name.contains(c),
    ensures
        find_last(s.push(c) + name, c) == Some(s.len() as int),
{
    let all = s.push(c) + name;
    lemma_find_last(all, c);
    assert(all[s.len() as int] == c);
    let i = find_last(all, c)->0;
    if i > s.len() {
        assert(name[i - s.len() - 1] == all[i]);
    }
}

/// The first place the text stands is one, and there is none before it.
pub proof fn lemma_find_text(s: Seq<char>, needle: Seq<char>, from: int)
    requires
        0 <= from,
    ensures
        match find_text(s, needle, from) {
            Some(i) => from <= i && stands_at(s, needle, i) && forall|j: int|
                from <= j < i ==> !stands_at(s, needle, j),
            None => forall|j: int| from <= j ==> !stands_at(s, needle, j),
        },
    decreases s.len() + 1 - from,
{
    if from + needle.len() <= s.len() && !stands_at(s, needle, from) {
        lemma_find_text(s, needle, from + 1);
    }
}

/// Where a character first stands at or after a position.
pub fn position_of(s: &[char], c: char, from: usize) -> (r: Option<usize>)
    ensures
        match r {
            Some(i) => find_char(s@, c, from as int) == Some(i as int) && from <= i < s@.len()
                && s@[i as int] == c,
            None => find_char(s@, c, from as int) is None,
        },
{
    let mut i: usize = from;
    while i < s.len()
        invariant
            from <= i,
            find_char(s@, c, from as int) == find_char(s@, c, i as int),
        decreases s@.len() - i,
    {
        if s[i] == c {
            return Some(i);
        }
        i = i + 1;
    }
    None
}

/// Where a character last stands.
pub fn last_position_of(s: &[char], c: char) -> (r: Option<usize>)
    ensures
        match r {
            Some(i) => find_last(s@, c) == Some(i as int) && i < s@.len() && s@[i as int] == c,
            None => find_last(s@, c) is None,
        },
{
    let mut i: usize = s.len();
    assert(s@.take(i as int) =~= s@);
    while i > 0
        invariant
            i <= s@.len(),
            find_last(s@, c) == find_last(s@.take(i as int), c),
        decreases i,
    {
        if s[i - 1] == c {
            return Some(i - 1);
        }
        assert(s@.take(i as int).drop_last() =~= s@.take(i - 1));
        i = i - 1;
    }
    None
}

/// Whether a text stands at a position.
pub fn is_at(s: &[char], needle: &[char], at: usize) -> (r: bool)
    ensures
        r == stands_at(s@, needle@, at as int),
{
    let len = s.len();
    if at > len || needle.len() > len - at {
        return false;
    }
    let mut i: usize = 0;
    while i < needle.len()
        invariant
            i <= needle@.len(),
            at + needle@.len() <= s@.len() == len,
            forall|j: int| 0 <= j < i ==> s@[at + j] == needle@[j],
        decreases needle@.len() - i,
    {
        if s[at + i] != needle[i] {
            assert(s@.subrange(at as int, at + needle@.len())[i as int] == s@[at + i]);
            return false;
        }
        i = i + 1;
    }
    assert(s@.subrange(at as int, at + needle@.len()) =~= needle@);
    true
}

/// Where a text first stands at or after a position.
pub fn position_of_text(s: &[char], needle: &[char], from: usize) -> (r: Option<usize>)
    ensures
        match r {
            Some(i) => find_text(s@, needle@, from as int) == Some(i as int) && from <= i
                && stands_at(s@, needle@, i as int),
            None => find_text(s@, needle@, from as int) is None,
        },
{
    let mut i: usize = from;
    while i <= s.len() && needle.len() <= s.len() - i
        invariant
            from <= i <= s@.len() + 1 || i == from,
            find_text(s@, needle@, from as int) == find_text(s@, needle@, i as int),
        decreases s@.len() + 1 - i,
    {
        if is_at(s, needle, i) {
            return Some(i);
        }
        if i == s.len() {
            assert(find_text(s@, needle@, i + 1) is None);
            return None;
        }
        i = i + 1;
    }
    None
}

/// Whether a text holds a character.
pub fn has_char(s: &[char], c: char) -> (r: bool)
    ensures
        r == s@.contains(c),
{
    proof {
        lemma_find_char(s@, c, 0);
    }
    match position_of(s, c, 0) {
        Some(i) => {
            assert(s@[i as int] == c);
            true
        },
        None => false,
    }
}

/// Whether a text begins with another.
pub fn begins(s: &[char], prefix: &[char]) -> (r: bool)
    ensures
        r == prefix@.is_prefix_of(s@),
{
    is_at(s, prefix, 0)
}

/// Whether a text ends with another.
pub fn ends(s: &[char], suffix: &[char]) -> (r: bool)
    ensures
        r == suffix@.is_suffix_of(s@),
{
    if suffix.len() > s.len() {
        return false;
    }
    let at = s.len() - suffix.len();
    is_at(s, suffix, at)
}

/// The pieces of a text between the occurrences of another, none overlapping
/// the one before it.
pub open spec fn split_text(s: Seq<char>, sep: Seq<char>) -> Seq<Seq<char>>
    decreases s.len(),
    when sep.len() > 0
{
    proof {
        lemma_find_text(s, sep, 0);
    }
    match find_text(s, sep, 0) {
        None => seq![s],
        Some(i) => seq![s.take(i)] + split_text(s.skip(i + sep.len()), sep),
    }
}

/// Split a text on another.
pub fn split_with(s: &[char], sep: &[char]) -> (out: Vec<Vec<char>>)
    requires
        sep@.len() > 0,
    ensures
        views(out@) == split_text(s@, sep@),
{
    let mut out: Vec<Vec<char>> = Vec::new();
    let mut rest = part(s, 0, s.len());
    assert(rest@ =~= s@);
    assert(views(out@) + split_text(rest@, sep@) =~= split_text(s@, sep@));
    let mut found = position_of_text(&rest, sep, 0);
    while found.is_some()
        invariant
            sep@.len() > 0,
            views(out@) + split_text(rest@, sep@) == split_text(s@, sep@),
            match found {
                Some(i) => find_text(rest@, sep@, 0) == Some(i as int) && stands_at(
                    rest@,
                    sep@,
                    i as int,
                ),
                None => find_text(rest@, sep@, 0) is None,
            },
        decreases rest@.len(),
    {
        let i: usize = found.unwrap();
        let ghost before = views(out@);
        let piece = part(&rest, 0, i);
        assert(piece@ =~= rest@.take(i as int));
        let len = rest.len();
        let next = part(&rest, i + sep.len(), len);
        proof {
            assert(next@ =~= rest@.skip(i + sep@.len()));
            lemma_views_push(out@, piece);
            assert(before + split_text(rest@, sep@) =~= before.push(piece@) + split_text(
                next@,
                sep@,
            ));
        }
        out.push(piece);
        rest = next;
        found = position_of_text(&rest, sep, 0);
    }
    proof {
        lemma_views_push(out@, rest);
        assert(views(out@) + seq![rest@] =~= views(out@).push(rest@));
    }
    out.push(rest);
    out
}

// ---- case ----

/// An ASCII letter in lower case; any other character as it is.
pub open spec fn ascii_lower(c: char) -> char {
    if 'A' <= c && c <= 'Z' {
        ((c as u8 + 32) as u8) as char
    } else {
        c
    }
}

/// Whether two texts are the same but for the case of ASCII letters.
pub open spec fn alike(a: Seq<char>, b: Seq<char>) -> bool {
    a.len() == b.len() && forall|i: int|
        0 <= i < a.len() ==> ascii_lower(#[trigger] a[i]) == ascii_lower(b[i])
}

fn lower_ascii(c: char) -> (r: char)
    ensures
        r == ascii_lower(c),
{
    if 'A' <= c && c <= 'Z' {
        ((c as u8) + 32) as char
    } else {
        c
    }
}

/// Whether two texts are the same but for the case of ASCII letters.
pub fn alike_chars(a: &[char], b: &[char]) -> (r: bool)
    ensures
        r == alike(a@, b@),
{
    if a.len() != b.len() {
        return false;
    }
    let mut i: usize = 0;
    while i < a.len()
        invariant
            i <= a@.len() == b@.len(),
            forall|j: int| 0 <= j < i ==> ascii_lower(#[trigger] a@[j]) == ascii_lower(b@[j]),
        decreases a@.len() - i,
    {
        if lower_ascii(a[i]) != lower_ascii(b[i]) {
            return false;
        }
        i = i + 1;
    }
    true
}

// ---- numbers ----

/// The character of a decimal digit.
pub open spec fn digit(d: nat) -> char
    recommends
        d < 10,
{
    ((48 + d) as u8) as char
}

/// A number in decimal.
pub open spec fn decimal(n: nat) -> Seq<char>
    decreases n,
{
    if n < 10 {
        seq![digit(n)]
    } else {
        decimal(n / 10).push(digit(n % 10))
    }
}

/// A number in decimal.
pub fn decimal_of(n: u64) -> (out: Vec<char>)
    ensures
        out@ == decimal(n as nat),
    decreases n,
{
    if n < 10 {
        let mut out: Vec<char> = Vec::new();
        out.push((48 + n as u8) as char);
        assert(out@ =~= seq![digit(n as nat)]);
        out
    } else {
        let mut out = decimal_of(n / 10);
        out.push((48 + (n % 10) as u8) as char);
        out
    }
}

/// Different numbers are written differently.
pub proof fn lemma_decimal(a: nat, b: nat)
    requires
        decimal(a) == decimal(b),
    ensures
        a == b,
    decreases a,
{
    assert(decimal(a).last() == decimal(b).last());
    assert(decimal(a).last() == digit(a % 10));
    assert(decimal(b).last() == digit(b % 10));
    assert(digit(a % 10) as int == 48 + a % 10);
    assert(digit(b % 10) as int == 48 + b % 10);
    if a >= 10 && b >= 10 {
        assert(decimal(a / 10) =~= decimal(a).drop_last());
        assert(decimal(b / 10) =~= decimal(b).drop_last());
        lemma_decimal(a / 10, b / 10);
    } else if a >= 10 {
        lemma_decimal_some(a / 10);
        assert(decimal(b).len() == 1);
    } else if b >= 10 {
        lemma_decimal_some(b / 10);
        assert(decimal(a).len() == 1);
    }
}

/// A number is written with at least one digit.
pub proof fn lemma_decimal_some(n: nat)
    ensures
        decimal(n).len() > 0,
{
}

/// Whether a character is one of `0` to `9`.
pub open spec fn is_digit(c: char) -> bool {
    '0' <= c && c <= '9'
}

/// The value of a run of decimal digits.
pub open spec fn digits_value(s: Seq<char>) -> nat
    decreases s.len(),
{
    if s.len() == 0 {
        0
    } else {
        digits_value(s.drop_last()) * 10 + (s.last() as nat - 48) as nat
    }
}

/// A number is written in digits that are worth it.
pub proof fn lemma_decimal_value(n: nat)
    ensures
        digits_value(decimal(n)) == n,
        forall|i: int| 0 <= i < decimal(n).len() ==> is_digit(#[trigger] decimal(n)[i]),
    decreases n,
{
    let s = decimal(n);
    assert(digit(n % 10) as int == 48 + n % 10);
    assert(s.last() == digit(n % 10));
    if n < 10 {
        assert(s.drop_last() =~= Seq::<char>::empty());
        reveal_with_fuel(digits_value, 2);
    } else {
        lemma_decimal_value(n / 10);
        assert(s.drop_last() =~= decimal(n / 10));
    }
}

/// A zero before some digits adds nothing.
pub proof fn lemma_leading_zero(s: Seq<char>)
    ensures
        digits_value(seq!['0'] + s) == digits_value(s),
    decreases s.len(),
{
    let longer = seq!['0'] + s;
    if s.len() == 0 {
        assert(longer.drop_last() =~= Seq::<char>::empty());
        assert(longer.last() == '0');
        reveal_with_fuel(digits_value, 2);
    } else {
        lemma_leading_zero(s.drop_last());
        assert(longer.drop_last() =~= seq!['0'] + s.drop_last());
        assert(longer.last() == s.last());
    }
}

/// The number that decimal digits and nothing else spell, if it is small
/// enough for the machine.
pub open spec fn unsigned(body: Seq<char>) -> Option<usize> {
    if body.len() > 0 && (forall|i: int| 0 <= i < body.len() ==> is_digit(#[trigger] body[i]))
        && digits_value(body) <= usize::MAX {
        Some(digits_value(body) as usize)
    } else {
        None
    }
}

/// The number a text spells: decimal digits, a plus sign allowed before them,
/// and small enough for the machine.
pub open spec fn number(s: Seq<char>) -> Option<usize> {
    if s.len() > 0 && s[0] == '+' {
        unsigned(s.skip(1))
    } else {
        unsigned(s)
    }
}

proof fn lemma_digits_grow(s: Seq<char>, k: int)
    requires
        0 <= k <= s.len(),
    ensures
        digits_value(s.take(k)) <= digits_value(s),
    decreases s.len() - k,
{
    if k < s.len() {
        lemma_digits_grow(s, k + 1);
        assert(s.take(k + 1).drop_last() =~= s.take(k));
    } else {
        assert(s.take(k) =~= s);
    }
}

/// The number a text spells, if it spells one that the machine can hold.
pub fn number_of(s: &[char]) -> (r: Option<usize>)
    ensures
        r == number(s@),
{
    let start: usize = if s.len() > 0 && s[0] == '+' {
        1
    } else {
        0
    };
    if start >= s.len() {
        return None;
    }
    let ghost body = s@.skip(start as int);
    assert(s@.skip(0) =~= s@);
    let mut value: usize = 0;
    let mut i: usize = start;
    assert(body.take(0) =~= Seq::<char>::empty());
    while i < s.len()
        invariant
            start <= i <= s@.len(),
            body == s@.skip(start as int),
            body.len() == s@.len() - start,
            number(s@) == unsigned(body),
            forall|j: int| 0 <= j < i - start ==> is_digit(#[trigger] body[j]),
            value == digits_value(body.take(i - start)),
        decreases s@.len() - i,
    {
        let c = s[i];
        assert(c == body[i - start]);
        if !('0' <= c && c <= '9') {
            assert(!is_digit(body[i - start]));
            return None;
        }
        let d: usize = (c as u32 - 48) as usize;
        proof {
            assert(body.take(i + 1 - start).drop_last() =~= body.take(i - start));
            lemma_digits_grow(body, i + 1 - start);
        }
        if value > (usize::MAX - d) / 10 {
            assert(digits_value(body.take(i + 1 - start)) == value * 10 + d);
            assert(value * 10 + d > usize::MAX);
            return None;
        }
        value = value * 10 + d;
        i = i + 1;
    }
    assert(body.take(body.len() as int) =~= body);
    Some(value)
}

// ---- what splitting and numbers come to ----

/// Splitting at a text takes out that text and nothing else, wherever it
/// stands.
pub proof fn lemma_split_text_takes_out_the_separator(s: Seq<char>, sep: Seq<char>)
    requires
        sep.len() > 0,
    ensures
        split_text(s, sep).len() >= 1,
        join(split_text(s, sep), sep) == s,
        forall|i: int, k: int|
            0 <= i < split_text(s, sep).len() && 0 <= k ==> !#[trigger] stands_at(
                split_text(s, sep)[i],
                sep,
                k,
            ),
    decreases s.len(),
{
    lemma_find_text(s, sep, 0);
    let all = split_text(s, sep);
    match find_text(s, sep, 0) {
        None => {
            assert(all =~= seq![s]);
            assert(join(all, sep) =~= s);
        },
        Some(n) => {
            let rest = s.skip(n + sep.len());
            lemma_split_text_takes_out_the_separator(rest, sep);
            let more = split_text(rest, sep);
            assert(all =~= seq![s.take(n)] + more);
            assert(all.skip(1) =~= more);
            lemma_join_first(all, sep);
            assert(s.subrange(n, n + sep.len()) =~= sep);
            assert(s =~= s.take(n) + sep + rest);
            assert forall|i: int, k: int| 0 <= i < all.len() && 0 <= k implies !#[trigger] stands_at(
                all[i],
                sep,
                k,
            ) by {
                if i > 0 {
                    assert(all[i] == more[i - 1]);
                } else if stands_at(s.take(n), sep, k) {
                    assert(s.subrange(k, k + sep.len()) =~= s.take(n).subrange(k, k + sep.len()));
                    assert(stands_at(s, sep, k));
                }
            }
        },
    }
}

/// Texts are alike exactly if they are as long as each other and each
/// character is the other's, but for the case of the letters `A` to `Z`.
pub proof fn lemma_only_the_case_of_letters_may_differ(a: Seq<char>, b: Seq<char>)
    ensures
        alike(a, b) == (a.len() == b.len() && forall|i: int|
            0 <= i < a.len() ==> #[trigger] a[i] == b[i] || ('A' <= a[i] && a[i] <= 'Z'
                && b[i] as int == a[i] as int + 32) || ('A' <= b[i] && b[i] <= 'Z' && a[i] as int
                == b[i] as int + 32)),
{
    if alike(a, b) {
        assert forall|i: int| 0 <= i < a.len() implies #[trigger] a[i] == b[i] || ('A' <= a[i]
            && a[i] <= 'Z' && b[i] as int == a[i] as int + 32) || ('A' <= b[i] && b[i] <= 'Z'
            && a[i] as int == b[i] as int + 32) by {
            assert(ascii_lower(a[i]) == ascii_lower(b[i]));
        }
    }
}

/// The lines of a text are what stands between its line feeds, a carriage
/// return before a line feed left out. What is behind the last line feed is a
/// line if there is anything.
pub proof fn lemma_lines_are_between_line_feeds(pieces: Seq<Seq<char>>)
    requires
        pieces.len() > 0,
        forall|i: int| 0 <= i < pieces.len() ==> !(#[trigger] pieces[i]).contains('\n'),
    ensures
        ({
            let r = lines(join(pieces, seq!['\n']));
            let n = pieces.len() - 1;
            &&& r.len() == if pieces[n].len() > 0 {
                n + 1
            } else {
                n
            }
            &&& pieces[n].len() > 0 ==> r[n] == pieces[n]
            &&& forall|i: int|
                0 <= i < n ==> #[trigger] r[i] == if pieces[i].len() > 0 && pieces[i].last() == '\r' {
                    pieces[i].take(pieces[i].len() - 1)
                } else {
                    pieces[i]
                }
        }),
{
    lemma_split_join(pieces, '\n');
    let n = pieces.len() - 1;
    let r = lines(join(pieces, seq!['\n']));
    assert forall|i: int| 0 <= i < n implies #[trigger] r[i] == if pieces[i].len() > 0
        && pieces[i].last() == '\r' {
        pieces[i].take(pieces[i].len() - 1)
    } else {
        pieces[i]
    } by {
        assert(pieces.drop_last()[i] == pieces[i]);
        assert(r[i] == without_cr(pieces[i]));
        if pieces[i].len() > 0 {
            assert(pieces[i].drop_last() =~= pieces[i].take(pieces[i].len() - 1));
        }
    }
}

proof fn lemma_words_behind(a: Seq<char>, c: char, b: Seq<char>)
    requires
        white(c),
    ensures
        words(a.push(c) + b) == (split_white(a) + words(b).0, words(b).1),
    decreases b.len(),
{
    let all = a.push(c) + b;
    if b.len() == 0 {
        assert(all =~= a.push(c));
        assert(all.drop_last() =~= a);
        assert(words(b) == (Seq::<Seq<char>>::empty(), Seq::<char>::empty()));
        assert(split_white(a) + words(b).0 =~= split_white(a));
        if words(a).1.len() == 0 {
            assert(words(a).1 =~= Seq::<char>::empty());
        }
    } else {
        lemma_words_behind(a, c, b.drop_last());
        assert(all.drop_last() =~= a.push(c) + b.drop_last());
        let (done, current) = words(b.drop_last());
        assert(split_white(a) + done.push(current) =~= (split_white(a) + done).push(current));
    }
}

/// Whitespace separates words, however much there is of it.
pub proof fn lemma_words_are_between_whitespace(a: Seq<char>, c: char, b: Seq<char>)
    requires
        white(c),
    ensures
        split_white(a.push(c) + b) == split_white(a) + split_white(b),
{
    lemma_words_behind(a, c, b);
    let (done, current) = words(b);
    assert(split_white(a) + done.push(current) =~= (split_white(a) + done).push(current));
}

/// What has no whitespace in it is one word.
pub proof fn lemma_what_has_no_whitespace_is_one_word(s: Seq<char>)
    requires
        forall|i: int| 0 <= i < s.len() ==> !white(#[trigger] s[i]),
    ensures
        words(s) == (Seq::<Seq<char>>::empty(), s),
        split_white(s) == if s.len() > 0 {
            seq![s]
        } else {
            seq![]
        },
    decreases s.len(),
{
    if s.len() > 0 {
        let rest = s.drop_last();
        assert forall|i: int| 0 <= i < rest.len() implies !white(#[trigger] rest[i]) by {
            assert(rest[i] == s[i]);
        }
        lemma_what_has_no_whitespace_is_one_word(rest);
        assert(!white(s[s.len() - 1]));
        assert(rest.push(s.last()) =~= s);
        assert(split_white(s) =~= seq![s]);
    } else {
        assert(s =~= Seq::<char>::empty());
    }
}

/// A number reads back as it was written, with a plus or without; what has
/// anything in it but digits is none, nor is nothing.
pub proof fn lemma_a_number_reads_back(n: usize, s: Seq<char>, i: int)
    requires
        0 <= i < s.len(),
        !('0' <= s[i] && s[i] <= '9'),
        i > 0 || s[i] != '+',
    ensures
        number(decimal(n as nat)) == Some(n),
        number(seq!['+'] + decimal(n as nat)) == Some(n),
        number(s) is None,
        number(seq![]) is None,
        number(seq!['+']) is None,
        n < 10 ==> decimal(n as nat) == seq![(('0' as u8 + n) as u8) as char],
{
    let d = decimal(n as nat);
    lemma_decimal_value(n as nat);
    lemma_decimal_some(n as nat);
    assert(is_digit(d[0]));
    let plus = seq!['+'] + d;
    assert(plus.skip(1) =~= d);
    assert(seq!['+'].skip(1) =~= Seq::<char>::empty());
    if s[0] == '+' {
        assert(s.skip(1)[i - 1] == s[i]);
    }
}

/// Nothing is left of a text by trimming it exactly if it is blank.
pub proof fn lemma_only_a_blank_text_trims_to_nothing(s: Seq<char>)
    ensures
        (trim(s).len() == 0) == is_blank(s),
{
    if is_blank(s) {
        let none = Seq::<char>::empty();
        lemma_trim_around(s, none, none);
        assert(s + none + none =~= s);
    } else {
        let k = choose|k: int| 0 <= k < s.len() && !white(s[k]);
        lemma_ink_trim(s);
        lemma_ink_holds(s, k);
        lemma_ink_len(trim(s));
    }
}

} // verus!
