//! Just enough HTTP/1.1 to serve a few routes to one client.
//!
//! Request line, headers to the blank line, `Content-Length`, body, respond,
//! close. No keep-alive, no chunked transfer, no TLS.
//!
//! Everything works on bytes. Whoever holds the connection reads lines into a
//! head with [`head_line`], understands it with [`parse_head`], and then reads
//! exactly as many bytes as [`Head::length`] says.

use crate::ordered;
use crate::ordered::TextMap;
use crate::text;
use vstd::prelude::*;

verus! {

/// The largest request head that is read.
pub const MAX_HEAD: usize = 16384;

/// The largest body.
///
/// A publish of a whole vault is a few megabytes of floats; ten leaves room
/// without letting a stray connection ask for a gigabyte of memory.
pub const MAX_BODY: usize = 10485760;

/// One request.
#[derive(Debug, PartialEq, Eq)]
pub struct Request {
    pub method: String,
    pub path: String,
    /// Lowercased names, so a lookup does not depend on how the client cased
    /// them.
    pub headers: TextMap<String, String>,
    pub body: Vec<u8>,
}

/// A request, by its texts.
#[verifier::ext_equal]
pub struct RequestView {
    pub method: Seq<char>,
    pub path: Seq<char>,
    pub headers: Map<Seq<char>, Seq<char>>,
    pub body: Seq<u8>,
}

impl View for Request {
    type V = RequestView;

    open spec fn view(&self) -> RequestView {
        RequestView {
            method: self.method@,
            path: self.path@,
            headers: ordered::value_views(self.headers@),
            body: self.body@,
        }
    }
}

/// The value of a header.
pub open spec fn header(headers: Map<Seq<char>, Seq<char>>, name: Seq<char>) -> Option<Seq<char>> {
    if headers.contains_key(name) {
        Some(headers[name])
    } else {
        None
    }
}

/// The token of a bearer authorization.
pub open spec fn bearer(headers: Map<Seq<char>, Seq<char>>) -> Option<Seq<char>> {
    match header(headers, "authorization"@) {
        Some(value) if "Bearer "@.is_prefix_of(value) => Some(value.skip("Bearer "@.len() as int)),
        _ => None,
    }
}

impl Request {
    /// The value of a header, by its lowercased name.
    pub fn header(&self, name: &str) -> (r: Option<&str>)
        ensures
            match r {
                Some(v) => header(self@.headers, name@) == Some(v@),
                None => header(self@.headers, name@) is None,
            },
    {
        match self.headers.get(name) {
            Some(v) => Some(v.as_str()),
            None => None,
        }
    }

    /// The bearer token, if the request carried one.
    pub fn bearer(&self) -> (r: Option<&str>)
        ensures
            match r {
                Some(token) => bearer(self@.headers) == Some(token@),
                None => bearer(self@.headers) is None,
            },
    {
        match self.header("authorization") {
            Some(value) => {
                let chars = text::chars_of(value);
                let prefix = text::chars_of("Bearer ");
                if text::begins(&chars, &prefix) {
                    let token = value.substring_char(prefix.len(), chars.len());
                    assert(token@ =~= value@.skip("Bearer "@.len() as int));
                    Some(token)
                } else {
                    None
                }
            },
            None => None,
        }
    }
}

/// Why a request could not be understood. None of them says anything about
/// *why* to the caller.
#[derive(Debug, Clone, Copy, PartialEq, Eq, Structural)]
pub enum Bad {
    Malformed,
    TooLarge,
    /// The connection closed before a request arrived. Not an error: a health
    /// checker that opens a socket and hangs up does this every few seconds.
    Closed,
}

// ---- the head ----

/// Where the line that starts at `at` ends: behind its line feed, or at the
/// end of the input.
pub open spec fn line_end(input: Seq<u8>, at: int) -> int
    decreases input.len() - at,
{
    if at < 0 || at >= input.len() {
        input.len() as int
    } else if input[at] == 10 {
        at + 1
    } else {
        line_end(input, at + 1)
    }
}

/// Whether a line ends a head: nothing before its line feed but at most one
/// carriage return.
pub open spec fn is_blank(line: Seq<u8>) -> bool {
    line == seq![13u8, 10u8] || line == seq![10u8]
}

/// Where the head of a request ends whose lines up to `at` have been read, or
/// why it does not.
pub open spec fn head_end(input: Seq<u8>, at: int) -> Result<int, Bad>
    decreases input.len() - at,
{
    if at < 0 || at >= input.len() {
        if at == 0 {
            Err(Bad::Closed)
        } else {
            Err(Bad::Malformed)
        }
    } else {
        proof {
            lemma_line_end(input, at);
        }
        let end = line_end(input, at);
        if end > MAX_HEAD {
            Err(Bad::TooLarge)
        } else if is_blank(input.subrange(at, end)) {
            Ok(end)
        } else {
            head_end(input, end)
        }
    }
}

/// A line ends behind where it starts.
pub proof fn lemma_line_end(input: Seq<u8>, at: int)
    requires
        0 <= at < input.len(),
    ensures
        at < line_end(input, at) <= input.len(),
    decreases input.len() - at,
{
    reveal_with_fuel(line_end, 2);
    if input[at] != 10 && at + 1 < input.len() {
        lemma_line_end(input, at + 1);
    }
}

fn blank(line: &[u8]) -> (r: bool)
    ensures
        r == is_blank(line@),
{
    let r = (line.len() == 2 && line[0] == 13 && line[1] == 10) || (line.len() == 1 && line[0]
        == 10);
    proof {
        if line@.len() == 2 && line@[0] == 13 && line@[1] == 10 {
            assert(line@ =~= seq![13u8, 10u8]);
        }
        if line@.len() == 1 && line@[0] == 10 {
            assert(line@ =~= seq![10u8]);
        }
    }
    r
}

/// Take one more line of a head. `Ok(true)` is the blank line that ends it.
pub fn head_line(head: &mut Vec<u8>, line: &[u8]) -> (r: Result<bool, Bad>)
    ensures
        final(head)@ == old(head)@ + line@,
        r == (if final(head)@.len() > MAX_HEAD {
            Err::<bool, Bad>(Bad::TooLarge)
        } else {
            Ok::<bool, Bad>(is_blank(line@))
        }),
{
    let mut i: usize = 0;
    while i < line.len()
        invariant
            i <= line@.len(),
            head@ == old(head)@ + line@.take(i as int),
        decreases line@.len() - i,
    {
        head.push(line[i]);
        assert(line@.take(i + 1) =~= line@.take(i as int).push(line@[i as int]));
        i = i + 1;
    }
    assert(line@.take(line@.len() as int) =~= line@);
    if head.len() > MAX_HEAD {
        Err(Bad::TooLarge)
    } else {
        Ok(blank(line))
    }
}

/// What a head says: everything about a request but the bytes of its body.
#[derive(Debug)]
pub struct Head {
    pub method: String,
    pub path: String,
    pub headers: TextMap<String, String>,
    /// How many bytes of body follow.
    pub length: usize,
}

/// A head, by its texts.
#[verifier::ext_equal]
pub struct HeadView {
    pub method: Seq<char>,
    pub path: Seq<char>,
    pub headers: Map<Seq<char>, Seq<char>>,
    pub length: usize,
}

impl View for Head {
    type V = HeadView;

    open spec fn view(&self) -> HeadView {
        HeadView {
            method: self.method@,
            path: self.path@,
            headers: ordered::value_views(self.headers@),
            length: self.length,
        }
    }
}

/// The headers that some lines hold, a later one of the same name in place of
/// an earlier, or nothing where a line that is not empty has no colon.
pub open spec fn headers(lines: Seq<Seq<char>>) -> Option<Map<Seq<char>, Seq<char>>>
    decreases lines.len(),
{
    if lines.len() == 0 {
        Some(Map::empty())
    } else {
        match headers(lines.drop_last()) {
            None => None,
            Some(before) => {
                let line = lines.last();
                if line.len() == 0 {
                    Some(before)
                } else {
                    match text::find_char(line, ':', 0) {
                        Some(i) => Some(
                            before.insert(
                                text::lowercase(text::trim(line.take(i))),
                                text::trim(line.skip(i + 1)),
                            ),
                        ),
                        None => None,
                    }
                }
            },
        }
    }
}

/// How long a body some headers announce.
pub open spec fn body_length(headers: Map<Seq<char>, Seq<char>>) -> Result<usize, Bad> {
    match header(headers, "content-length"@) {
        None => Ok(0),
        Some(value) => match text::number(text::trim(value)) {
            None => Err(Bad::Malformed),
            Some(n) => if n > MAX_BODY {
                Err(Bad::TooLarge)
            } else {
                Ok(n)
            },
        },
    }
}

/// What the lines of a head say.
pub open spec fn head_of_lines(lines: Seq<Seq<char>>) -> Result<HeadView, Bad> {
    if lines.len() == 0 {
        Err(Bad::Malformed)
    } else {
        let words = text::split_white(lines[0]);
        if words.len() < 2 {
            Err(Bad::Malformed)
        } else {
            match headers(lines.skip(1)) {
                None => Err(Bad::Malformed),
                Some(headers) => match body_length(headers) {
                    Err(bad) => Err(bad),
                    Ok(length) => Ok(
                        HeadView { method: words[0], path: words[1], headers, length },
                    ),
                },
            }
        }
    }
}

/// What the bytes of a head say.
pub open spec fn head_of(bytes: Seq<u8>) -> Result<HeadView, Bad> {
    if vstd::utf8::valid_utf8(bytes) {
        head_of_lines(text::lines(vstd::utf8::decode_utf8(bytes)))
    } else {
        Err(Bad::Malformed)
    }
}

fn headers_of(lines: &Vec<Vec<char>>) -> (r: Option<TextMap<String, String>>)
    requires
        lines@.len() > 0,
    ensures
        match r {
            Some(m) => headers(text::views(lines@).skip(1)) == Some(ordered::value_views(m@)),
            None => headers(text::views(lines@).skip(1)) is None,
        },
{
    let ghost all = text::views(lines@).skip(1);
    let mut m: TextMap<String, String> = TextMap::new();
    let mut i: usize = 1;
    assert(ordered::value_views(m@) =~= Map::<Seq<char>, Seq<char>>::empty());
    while i < lines.len()
        invariant
            1 <= i <= lines@.len(),
            all == text::views(lines@).skip(1),
            headers(all.take(i - 1)) == Some(ordered::value_views(m@)),
        decreases lines@.len() - i,
    {
        let line = &lines[i];
        let ghost here = all.take(i as int);
        assert(here.drop_last() =~= all.take(i - 1));
        assert(here.last() == line@);
        if line.len() > 0 {
            match text::position_of(line, ':', 0) {
                None => {
                    proof {
                        lemma_headers_none(all, i as int);
                    }
                    return None;
                },
                Some(k) => {
                    let name = text::trim_chars(&text::part(line, 0, k));
                    let value = text::trim_chars(&text::part(line, k + 1, line.len()));
                    assert(line@.subrange(0, k as int) =~= line@.take(k as int));
                    assert(line@.subrange(k + 1, line@.len() as int) =~= line@.skip(k + 1));
                    let key = text::string_of(&name).as_str().to_lowercase();
                    let val = text::string_of(&value);
                    proof {
                        ordered::lemma_value_views_insert(m@, key@, val);
                    }
                    m.insert(key, val);
                },
            }
        }
        i = i + 1;
    }
    assert(all.take(lines@.len() - 1) =~= all);
    Some(m)
}

proof fn lemma_headers_none(lines: Seq<Seq<char>>, n: int)
    requires
        0 <= n <= lines.len(),
        headers(lines.take(n)) is None,
    ensures
        headers(lines) is None,
    decreases lines.len(),
{
    if n < lines.len() {
        assert(lines.drop_last().take(n) =~= lines.take(n));
        lemma_headers_none(lines.drop_last(), n);
    } else {
        assert(lines.take(n) =~= lines);
    }
}

/// Understand a head.
pub fn parse_head(bytes: Vec<u8>) -> (r: Result<Head, Bad>)
    ensures
        match r {
            Ok(head) => head_of(bytes@) == Ok::<HeadView, Bad>(head@),
            Err(bad) => head_of(bytes@) == Err::<HeadView, Bad>(bad),
        },
        r is Ok ==> r->Ok_0.length <= MAX_BODY,
{
    let whole = match String::from_utf8(bytes) {
        Ok(whole) => whole,
        Err(_) => return Err(Bad::Malformed),
    };
    let lines = text::lines_of(&text::chars_of(whole.as_str()));
    let ghost all = text::views(lines@);
    if lines.len() == 0 {
        return Err(Bad::Malformed);
    }
    let words = text::words_of(&lines[0]);
    assert(text::views(words@) == text::split_white(all[0]));
    assert(words@.len() == text::views(words@).len());
    if words.len() < 2 {
        return Err(Bad::Malformed);
    }
    let method = text::string_of(&words[0]);
    let path = text::string_of(&words[1]);
    assert(method@ == text::views(words@)[0]);
    assert(path@ == text::views(words@)[1]);
    let headers = match headers_of(&lines) {
        Some(headers) => headers,
        None => return Err(Bad::Malformed),
    };
    let length: usize = match headers.get("content-length") {
        Some(value) => match text::number_of(&text::trim_chars(&text::chars_of(value.as_str()))) {
            Some(n) => n,
            None => return Err(Bad::Malformed),
        },
        None => 0,
    };
    if length > MAX_BODY {
        return Err(Bad::TooLarge);
    }
    Ok(Head { method, path, headers, length })
}

// ---- the request ----

/// The request that an input begins with.
pub open spec fn request(input: Seq<u8>) -> Result<RequestView, Bad> {
    match head_end(input, 0) {
        Err(bad) => Err(bad),
        Ok(end) => match head_of(input.take(end)) {
            Err(bad) => Err(bad),
            Ok(head) => if input.len() < end + head.length {
                Err(Bad::Malformed)
            } else {
                Ok(
                    RequestView {
                        method: head.method,
                        path: head.path,
                        headers: head.headers,
                        body: input.subrange(end, end + head.length),
                    },
                )
            },
        },
    }
}

/// Where the request that an input begins with ends.
pub open spec fn request_end(input: Seq<u8>) -> int
    recommends
        request(input) is Ok,
{
    let end = head_end(input, 0)->Ok_0;
    end + head_of(input.take(end))->Ok_0.length
}

fn next_line(input: &[u8], at: usize) -> (end: usize)
    requires
        at <= input@.len(),
    ensures
        end == line_end(input@, at as int),
        at <= end <= input@.len(),
{
    let mut i: usize = at;
    while i < input.len()
        invariant
            at <= i <= input@.len(),
            line_end(input@, at as int) == line_end(input@, i as int),
        decreases input@.len() - i,
    {
        if input[i] == 10 {
            return i + 1;
        }
        i = i + 1;
    }
    input.len()
}

fn slice_of(input: &[u8], from: usize, to: usize) -> (out: Vec<u8>)
    requires
        from <= to <= input@.len(),
    ensures
        out@ == input@.subrange(from as int, to as int),
{
    let mut out: Vec<u8> = Vec::new();
    let mut i: usize = from;
    while i < to
        invariant
            from <= i <= to <= input@.len(),
            out@ == input@.subrange(from as int, i as int),
        decreases to - i,
    {
        out.push(input[i]);
        assert(input@.subrange(from as int, i + 1) =~= input@.subrange(from as int, i as int).push(
            input@[i as int],
        ));
        i = i + 1;
    }
    out
}

/// Read the request that an input begins with.
pub fn read_request(input: &[u8]) -> (r: Result<Request, Bad>)
    ensures
        match r {
            Ok(q) => request(input@) == Ok::<RequestView, Bad>(q@),
            Err(bad) => request(input@) == Err::<RequestView, Bad>(bad),
        },
{
    let mut head: Vec<u8> = Vec::new();
    let mut at: usize = 0;
    let mut done = false;
    assert(head@ =~= input@.take(0));
    while !done
        invariant
            at <= input@.len(),
            head@ == input@.take(at as int),
            done ==> head_end(input@, 0) == Ok::<int, Bad>(at as int),
            !done ==> head_end(input@, 0) == head_end(input@, at as int),
        decreases input@.len() - at,
    {
        if at >= input.len() {
            return if at == 0 {
                Err(Bad::Closed)
            } else {
                Err(Bad::Malformed)
            };
        }
        proof {
            lemma_line_end(input@, at as int);
        }
        let end = next_line(input, at);
        let line = slice_of(input, at, end);
        match head_line(&mut head, &line) {
            Err(bad) => {
                return Err(bad);
            },
            Ok(blank) => {
                done = blank;
            },
        }
        assert(head@ =~= input@.take(end as int));
        at = end;
    }
    let head = match parse_head(head) {
        Ok(head) => head,
        Err(bad) => return Err(bad),
    };
    if input.len() - at < head.length {
        return Err(Bad::Malformed);
    }
    let body = slice_of(input, at, at + head.length);
    Ok(Request { method: head.method, path: head.path, headers: head.headers, body })
}

// ---- the response ----

/// The reason phrase of a status.
pub open spec fn reason(status: u16) -> Seq<char> {
    if status == 200 {
        "OK"@
    } else if status == 400 {
        "Bad Request"@
    } else if status == 401 {
        "Unauthorized"@
    } else if status == 404 {
        "Not Found"@
    } else if status == 413 {
        "Payload Too Large"@
    } else {
        "Error"@
    }
}

/// The head of a response with a body of some length.
pub open spec fn response_head(status: u16, length: nat) -> Seq<char> {
    "HTTP/1.1 "@ + text::decimal(status as nat) + " "@ + reason(status)
        + "\r\nContent-Type: application/json\r\nContent-Length: "@ + text::decimal(length)
        + "\r\nConnection: close\r\n\r\n"@
}

/// A response, ready to be written.
pub fn respond(status: u16, body: &[u8]) -> (out: Vec<u8>)
    ensures
        out@ == vstd::utf8::encode_utf8(response_head(status, body@.len())) + body@,
{
    let reason = match status {
        200 => "OK",
        400 => "Bad Request",
        401 => "Unauthorized",
        404 => "Not Found",
        413 => "Payload Too Large",
        _ => "Error",
    };
    let mut head = text::chars_of("HTTP/1.1 ");
    text::extend(&mut head, &text::decimal_of(status as u64));
    text::extend(&mut head, &text::chars_of(" "));
    text::extend(&mut head, &text::chars_of(reason));
    text::extend(
        &mut head,
        &text::chars_of("\r\nContent-Type: application/json\r\nContent-Length: "),
    );
    text::extend(&mut head, &text::decimal_of(body.len() as u64));
    text::extend(&mut head, &text::chars_of("\r\nConnection: close\r\n\r\n"));
    assert(head@ =~= response_head(status, body@.len()));
    let head = text::string_of(&head);
    let mut out = text::bytes_of(head.as_str());
    let ghost bytes = out@;
    let mut i: usize = 0;
    while i < body.len()
        invariant
            i <= body@.len(),
            out@ == bytes + body@.take(i as int),
        decreases body@.len() - i,
    {
        out.push(body[i]);
        assert(body@.take(i + 1) =~= body@.take(i as int).push(body@[i as int]));
        i = i + 1;
    }
    assert(body@.take(body@.len() as int) =~= body@);
    out
}

// ---- what holds of every request ----

/// A request that was understood is within the limits.
pub proof fn lemma_a_request_is_within_the_limits(input: Seq<u8>)
    requires
        request(input) is Ok,
    ensures
        request(input)->Ok_0.body.len() <= MAX_BODY,
        head_end(input, 0) is Ok,
        head_end(input, 0)->Ok_0 <= MAX_HEAD,
{
    lemma_head_end(input, 0);
}

proof fn lemma_head_end(input: Seq<u8>, at: int)
    requires
        0 <= at,
        head_end(input, at) is Ok,
    ensures
        at < head_end(input, at)->Ok_0 <= input.len(),
        head_end(input, at)->Ok_0 <= MAX_HEAD,
    decreases input.len() - at,
{
    lemma_line_end(input, at);
    let end = line_end(input, at);
    if !is_blank(input.subrange(at, end)) {
        lemma_head_end(input, end);
    }
}

proof fn lemma_line_end_longer(input: Seq<u8>, more: Seq<u8>, at: int)
    requires
        0 <= at < input.len(),
        input[line_end(input, at) - 1] == 10,
    ensures
        line_end(input + more, at) == line_end(input, at),
    decreases input.len() - at,
{
    reveal_with_fuel(line_end, 2);
    if input[at] != 10 {
        if at + 1 < input.len() {
            lemma_line_end_longer(input, more, at + 1);
        }
    }
}

proof fn lemma_head_end_longer(input: Seq<u8>, more: Seq<u8>, at: int)
    requires
        0 <= at,
        head_end(input, at) is Ok,
    ensures
        head_end(input + more, at) == head_end(input, at),
    decreases input.len() - at,
{
    lemma_line_end(input, at);
    let end = line_end(input, at);
    let line = input.subrange(at, end);
    if is_blank(line) {
        assert(line.last() == 10);
    } else {
        lemma_head_end(input, end);
        lemma_line_feed(input, at);
        lemma_head_end_longer(input, more, end);
    }
    lemma_line_end_longer(input, more, at);
    assert((input + more).subrange(at, end) =~= line);
}

proof fn lemma_line_feed(input: Seq<u8>, at: int)
    requires
        0 <= at < input.len(),
        line_end(input, at) < input.len(),
    ensures
        input[line_end(input, at) - 1] == 10,
    decreases input.len() - at,
{
    reveal_with_fuel(line_end, 2);
    if input[at] != 10 && at + 1 < input.len() {
        lemma_line_feed(input, at + 1);
    }
}

/// Nothing behind a request changes what it says: reading can stop at the end
/// of the body.
pub proof fn lemma_what_follows_a_request_is_not_read(input: Seq<u8>, more: Seq<u8>)
    requires
        request(input) is Ok,
    ensures
        request(input + more) == request(input),
{
    lemma_head_end(input, 0);
    lemma_head_end_longer(input, more, 0);
    let end = head_end(input, 0)->Ok_0;
    assert((input + more).take(end) =~= input.take(end));
    let head = head_of(input.take(end))->Ok_0;
    assert((input + more).subrange(end, end + head.length) =~= input.subrange(
        end,
        end + head.length,
    ));
}

/// Whether a name is one that a header is kept under: lowercased, without the
/// space that was around it.
pub open spec fn is_header_name(name: Seq<char>) -> bool {
    exists|written: Seq<char>|
        #![trigger text::lowercase(text::trim(written))]
        {
            &&& name == text::lowercase(text::trim(written))
            &&& text::all_ascii(written) ==> text::trim(name) == name && text::lowercase(name)
                == name
        }
}

proof fn lemma_headers(lines: Seq<Seq<char>>)
    ensures
        headers(lines) is Some ==> forall|name: Seq<char>| #[trigger]
            headers(lines)->0.contains_key(name) ==> is_header_name(name) && text::trim(
                headers(lines)->0[name],
            ) == headers(lines)->0[name],
    decreases lines.len(),
{
    if lines.len() > 0 && headers(lines) is Some {
        lemma_headers(lines.drop_last());
        let line = lines.last();
        if line.len() > 0 {
            let i = text::find_char(line, ':', 0)->0;
            let written = line.take(i);
            let name = text::lowercase(text::trim(written));
            text::lemma_trim_again(line.skip(i + 1));
            if text::all_ascii(written) {
                text::lemma_trim_ascii(written);
                text::lemma_lowercase_trimmed(written);
                text::lemma_lowercase_again(text::trim(written));
            }
            assert(is_header_name(name));
        }
    }
}

/// What a request that was understood holds. Every header is kept under a
/// lowercased name, and neither the name nor the value has space around it; the
/// body is as long as `content-length` says, or empty where nothing says it,
/// and within the limit. What follows the body is not read, and it is the same
/// request whatever follows.
pub proof fn lemma_a_request(input: Seq<u8>, more: Seq<u8>)
    requires
        request(input) is Ok,
    ensures
        ({
            let r = request(input)->Ok_0;
            &&& forall|name: Seq<char>| #[trigger]
                r.headers.contains_key(name) ==> is_header_name(name) && text::trim(
                    r.headers[name],
                ) == r.headers[name]
            &&& match header(r.headers, "content-length"@) {
                Some(value) => text::number(value) == Some(r.body.len() as usize),
                None => r.body.len() == 0,
            }
            &&& r.body.len() <= MAX_BODY
        }),
        0 < request_end(input) <= input.len(),
        request(input.take(request_end(input))) == request(input),
        request(input + more) == request(input),
        request_end(input + more) == request_end(input),
        request_end(input) == input.len() ==> (input + more).skip(request_end(input + more))
            == more,
{
    let end = head_end(input, 0)->Ok_0;
    let bytes = input.take(end);
    let lines = text::lines(vstd::utf8::decode_utf8(bytes));
    lemma_headers(lines.skip(1));
    lemma_head_end(input, 0);
    lemma_head_end_longer(input, more, 0);
    lemma_what_follows_a_request_is_not_read(input, more);
    assert((input + more).take(end) =~= bytes);
    let all = request_end(input);
    let exact = input.take(all);
    lemma_head_end_shorter(input, all, 0);
    assert(exact.take(end) =~= bytes);
    assert(exact.subrange(end, all) =~= input.subrange(end, all));
    if all == input.len() {
        assert((input + more).skip(all) =~= more);
    }
}

proof fn lemma_head_end_shorter(input: Seq<u8>, len: int, at: int)
    requires
        0 <= at,
        head_end(input, at) is Ok,
        head_end(input, at)->Ok_0 <= len <= input.len(),
    ensures
        head_end(input.take(len), at) == head_end(input, at),
    decreases input.len() - at,
{
    lemma_head_end(input, at);
    lemma_line_end(input, at);
    let end = line_end(input, at);
    if !is_blank(input.subrange(at, end)) {
        lemma_head_end(input, end);
    }
    lemma_line_end_shorter(input, len, at);
    assert(input.take(len).subrange(at, end) =~= input.subrange(at, end));
    if !is_blank(input.subrange(at, end)) {
        lemma_head_end_shorter(input, len, end);
    }
}

proof fn lemma_line_end_shorter(input: Seq<u8>, len: int, at: int)
    requires
        0 <= at < len <= input.len(),
        line_end(input, at) <= len,
    ensures
        line_end(input.take(len), at) == line_end(input, at),
    decreases input.len() - at,
{
    reveal_with_fuel(line_end, 2);
    if input[at] != 10 && at + 1 < len {
        lemma_line_end_shorter(input, len, at + 1);
    } else if input[at] != 10 && len < input.len() {
        lemma_line_end(input, at + 1);
    }
}

// ---- how a request is read ----

/// Whether a line of an input starts at a place.
pub open spec fn starts_line(input: Seq<u8>, s: int) -> bool {
    0 <= s <= input.len() && (s == 0 || input[s - 1] == 10)
}

/// Where an empty line that starts at a place ends, if one does.
pub open spec fn empty_line(input: Seq<u8>, s: int) -> Option<int> {
    if 0 <= s && s < input.len() && input[s] == 10 {
        Some(s + 1)
    } else if 0 <= s && s + 1 < input.len() && input[s] == 13 && input[s + 1] == 10 {
        Some(s + 2)
    } else {
        None
    }
}

proof fn lemma_line_is(input: Seq<u8>, at: int)
    requires
        0 <= at < input.len(),
    ensures
        ({
            let end = line_end(input, at);
            &&& at < end <= input.len()
            &&& forall|k: int| at <= k < end - 1 ==> #[trigger] input[k] != 10
            &&& input[end - 1] == 10 || end == input.len()
        }),
    decreases input.len() - at,
{
    if input[at] != 10 && at + 1 < input.len() {
        lemma_line_is(input, at + 1);
    } else {
        reveal_with_fuel(line_end, 2);
    }
}

proof fn lemma_blank_line(input: Seq<u8>, at: int)
    requires
        0 <= at < input.len(),
    ensures
        is_blank(input.subrange(at, line_end(input, at))) == empty_line(input, at) is Some,
        empty_line(input, at) is Some ==> empty_line(input, at) == Some(line_end(input, at)),
{
    lemma_line_is(input, at);
    let end = line_end(input, at);
    let line = input.subrange(at, end);
    if is_blank(line) {
        assert(line[0] == input[at]);
        if line.len() == 2 {
            assert(line[1] == input[at + 1]);
        }
    }
    if input[at] == 10 {
        assert(line =~= seq![10u8]);
    } else if at + 1 < input.len() && input[at] == 13 && input[at + 1] == 10 {
        reveal_with_fuel(line_end, 2);
        assert(line =~= seq![13u8, 10u8]);
    }
}

proof fn lemma_head_at(input: Seq<u8>, at: int, s: int)
    requires
        0 <= at <= s,
        starts_line(input, at),
        starts_line(input, s),
        empty_line(input, s) is Some,
        empty_line(input, s)->0 <= 16384,
        forall|k: int|
            at <= k < s && #[trigger] starts_line(input, k) ==> empty_line(input, k) is None,
    ensures
        head_end(input, at) == Ok::<int, Bad>(empty_line(input, s)->0),
    decreases s - at,
{
    lemma_line_is(input, at);
    lemma_blank_line(input, at);
    if at < s {
        let end = line_end(input, at);
        assert(starts_line(input, at));
        assert(empty_line(input, at) is None);
        if end > s {
            assert(input[s - 1] != 10);
        }
        assert(starts_line(input, end));
        lemma_head_at(input, end, s);
    }
}

/// The head of a request ends with its first empty line, as long as that is
/// within sixteen kilobytes, whether its lines end with a line feed or with a
/// carriage return and one.
pub proof fn lemma_a_head_ends_with_its_first_empty_line(input: Seq<u8>, s: int)
    requires
        starts_line(input, s),
        empty_line(input, s) is Some,
        empty_line(input, s)->0 <= 16384,
        forall|k: int|
            0 <= k < s && #[trigger] starts_line(input, k) ==> empty_line(input, k) is None,
    ensures
        head_end(input, 0) == Ok::<int, Bad>(empty_line(input, s)->0),
{
    lemma_head_at(input, 0, s);
}

proof fn lemma_no_head_at(input: Seq<u8>, at: int)
    requires
        0 <= at <= 16384,
        at == input.len() || starts_line(input, at),
        forall|k: int|
            0 <= k && #[trigger] starts_line(input, k) && empty_line(input, k) is Some
                ==> empty_line(input, k)->0 > 16384,
    ensures
        head_end(input, at) == Err::<int, Bad>(
            if input.len() > 16384 {
                Bad::TooLarge
            } else if at == 0 && input.len() == 0 {
                Bad::Closed
            } else {
                Bad::Malformed
            },
        ),
    decreases input.len() - at,
{
    if at < input.len() {
        lemma_line_is(input, at);
        lemma_blank_line(input, at);
        let end = line_end(input, at);
        assert(starts_line(input, at));
        if end <= 16384 {
            assert(end == input.len() || starts_line(input, end));
            lemma_no_head_at(input, end);
        }
    }
}

/// A request without an empty line in its first sixteen kilobytes is too large
/// if there is more, and else was cut off, or never began.
pub proof fn lemma_a_head_that_does_not_end(input: Seq<u8>)
    requires
        forall|k: int|
            0 <= k && #[trigger] starts_line(input, k) && empty_line(input, k) is Some
                ==> empty_line(input, k)->0 > 16384,
    ensures
        head_end(input, 0) == Err::<int, Bad>(
            if input.len() > 16384 {
                Bad::TooLarge
            } else if input.len() == 0 {
                Bad::Closed
            } else {
                Bad::Malformed
            },
        ),
        request(input) is Err,
        head_end(input, 0) is Err ==> request(input)->Err_0 == head_end(input, 0)->Err_0,
{
    lemma_no_head_at(input, 0);
}

/// A header is a name, a colon and a value, the space around either left out
/// and the case of the name of no account. A later one of a name counts.
pub proof fn lemma_a_header_is_a_name_and_a_value(
    lines: Seq<Seq<char>>,
    name: Seq<char>,
    value: Seq<char>,
)
    requires
        !name.contains(':'),
    ensures
        headers(lines) is Some ==> headers(lines.push(name + seq![':'] + value)) == Some(
            headers(lines)->0.insert(text::lowercase(text::trim(name)), text::trim(value)),
        ),
        headers(lines.push(seq![])) == headers(lines),
        name.len() > 0 ==> headers(lines.push(name)) is None,
        headers(lines) is None ==> headers(lines.push(value)) is None,
        headers(seq![]) == Some(Map::<Seq<char>, Seq<char>>::empty()),
{
    let line = name + seq![':'] + value;
    assert(lines.push(line).drop_last() =~= lines);
    assert(lines.push(name).drop_last() =~= lines);
    assert(lines.push(value).drop_last() =~= lines);
    assert(lines.push(seq![]).drop_last() =~= lines);
    text::lemma_find_char(line, ':', 0);
    text::lemma_find_char(name, ':', 0);
    let n = name.len() as int;
    assert(line[n] == ':');
    assert forall|j: int| 0 <= j < n implies line[j] != ':' by {
        assert(name.contains(name[j]));
    }
    assert(text::find_char(line, ':', 0) == Some(n)) by {
        let i = text::find_char(line, ':', 0)->0;
        assert(line[i] == ':');
    }
    assert(line.take(n) =~= name);
    assert(line.skip(n + 1) =~= value);
    if let Some(i) = text::find_char(name, ':', 0) {
        assert(name.contains(name[i]));
    }
}

/// A body is as long as `content-length` says, and empty if nothing says; more
/// than ten megabytes is too large, and what is no number is malformed.
pub proof fn lemma_a_body_is_as_long_as_it_says(headers: Map<Seq<char>, Seq<char>>)
    ensures
        body_length(headers) == if !headers.contains_key("content-length"@) {
            Ok::<usize, Bad>(0)
        } else {
            match text::number(text::trim(headers["content-length"@])) {
                None => Err(Bad::Malformed),
                Some(n) => if n > 10485760 {
                    Err(Bad::TooLarge)
                } else {
                    Ok(n)
                },
            }
        },
{
}

/// The first line of a request is its method and its path; what follows them on
/// the line does not matter, and a line without both is malformed.
pub proof fn lemma_the_first_line_names_method_and_path(
    first: Seq<char>,
    rest: Seq<Seq<char>>,
)
    ensures
        ({
            let words = text::split_white(first);
            let r = head_of_lines(seq![first] + rest);
            if words.len() < 2 || headers(rest) is None {
                r == Err::<HeadView, Bad>(Bad::Malformed)
            } else {
                match body_length(headers(rest)->0) {
                    Err(bad) => r == Err::<HeadView, Bad>(bad),
                    Ok(length) => r == Ok::<HeadView, Bad>(
                        HeadView {
                            method: words[0],
                            path: words[1],
                            headers: headers(rest)->0,
                            length,
                        },
                    ),
                }
            }
        }),
        head_of_lines(seq![]) == Err::<HeadView, Bad>(Bad::Malformed),
{
    assert((seq![first] + rest).skip(1) =~= rest);
}

/// The body of a request is what follows its head, as much as the head says; a
/// request with less was cut off.
pub proof fn lemma_the_body_follows_the_head(
    head: Seq<u8>,
    body: Seq<u8>,
    more: Seq<u8>,
    parsed: HeadView,
)
    requires
        head_end(head, 0) == Ok::<int, Bad>(head.len() as int),
        head_of(head) == Ok::<HeadView, Bad>(parsed),
    ensures
        body.len() == parsed.length ==> request(head + body + more) == Ok::<RequestView, Bad>(
            RequestView {
                method: parsed.method,
                path: parsed.path,
                headers: parsed.headers,
                body,
            },
        ),
        body.len() < parsed.length ==> request(head + body) == Err::<RequestView, Bad>(
            Bad::Malformed,
        ),
{
    let input = head + body + more;
    assert(input =~= head + (body + more));
    lemma_head_end_longer(head, body + more, 0);
    lemma_head_end_longer(head, body, 0);
    assert(input.take(head.len() as int) =~= head);
    assert((head + body).take(head.len() as int) =~= head);
    if body.len() == parsed.length {
        assert(input.subrange(head.len() as int, head.len() as int + body.len()) =~= body);
    }
}

/// The token of a request is what follows `Bearer ` in its `authorization`
/// header.
pub proof fn lemma_a_token_follows_bearer(headers: Map<Seq<char>, Seq<char>>, token: Seq<char>)
    ensures
        (bearer(headers) == Some(token)) == (headers.contains_key("authorization"@)
            && headers["authorization"@] == "Bearer "@ + token),
{
    let n = "Bearer "@.len() as int;
    if headers.contains_key("authorization"@) {
        let value = headers["authorization"@];
        if "Bearer "@.is_prefix_of(value) {
            assert(value =~= "Bearer "@ + value.skip(n));
        }
        if value == "Bearer "@ + token {
            assert("Bearer "@ =~= value.subrange(0, n));
            assert("Bearer "@.is_prefix_of(value));
            assert(value.skip(n) =~= token);
        }
    }
}

/// A response says its status and what that means, that it is JSON, how long
/// it is and that it is the last.
pub proof fn lemma_what_a_response_says(status: u16, length: nat)
    ensures
        response_head(status, length) == "HTTP/1.1 "@ + text::decimal(status as nat) + " "@ + (
        match status {
            200 => "OK"@,
            400 => "Bad Request"@,
            401 => "Unauthorized"@,
            404 => "Not Found"@,
            413 => "Payload Too Large"@,
            _ => "Error"@,
        }) + "\r\nContent-Type: application/json\r\nContent-Length: "@ + text::decimal(length)
            + "\r\nConnection: close\r\n\r\n"@,
{
}

} // verus!
