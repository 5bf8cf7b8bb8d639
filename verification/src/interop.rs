//! The rules of the interop endpoint: which testcases it supports, and the
//! HTTP/0.9 requests that it serves and sends.

use vstd::prelude::*;
use vstd::utf8;

verus! {

/// How many waits without a request end the serving.
pub const MAX_IDLE: u32 = 50;

/// How many waits without data end a response.
pub const MAX_SILENCE: u32 = 30;

/// How many bytes of a file are sent at a time.
pub const CHUNK: usize = 1024;

/// Whether a character is white space in Unicode.
pub open spec fn is_white(c: char) -> bool {
    let n = c as u32;
    ||| 0x09 <= n <= 0x0d
    ||| n == 0x20
    ||| n == 0x85
    ||| n == 0xa0
    ||| n == 0x1680
    ||| 0x2000 <= n <= 0x200a
    ||| n == 0x2028
    ||| n == 0x2029
    ||| n == 0x202f
    ||| n == 0x205f
    ||| n == 0x3000
}

/// Whether a character is white space in Unicode.
fn white_space(c: char) -> (white: bool)
    ensures
        white == is_white(c),
{
    let n: u32 = c as u32;
    (0x09 <= n && n <= 0x0d) || n == 0x20 || n == 0x85 || n == 0xa0 || n == 0x1680 || (0x2000 <= n
        && n <= 0x200a) || n == 0x2028 || n == 0x2029 || n == 0x202f || n == 0x205f || n == 0x3000
}

/// `s` without the characters at its end that `p` holds of.
pub open spec fn without_tail(s: Seq<char>, p: spec_fn(char) -> bool) -> Seq<char>
    decreases s.len(),
{
    if s.len() > 0 && p(s.last()) {
        without_tail(s.drop_last(), p)
    } else {
        s
    }
}

/// `s` without the characters at its start that `p` holds of.
pub open spec fn without_head(s: Seq<char>, p: spec_fn(char) -> bool) -> Seq<char>
    decreases s.len(),
{
    if s.len() > 0 && p(s[0]) {
        without_head(s.skip(1), p)
    } else {
        s
    }
}

/// What follows the `n`th slash of `s`.
pub open spec fn after_slash(s: Seq<char>, n: nat) -> Option<Seq<char>>
    decreases s.len(),
{
    if n == 0 {
        Some(s)
    } else if s.len() == 0 {
        None
    } else if s[0] == '/' {
        after_slash(s.skip(1), (n - 1) as nat)
    } else {
        after_slash(s.skip(1), n)
    }
}

/// The text of a request. One that is not UTF-8 counts as empty.
pub open spec fn text_in(bytes: Seq<u8>) -> Seq<char> {
    if utf8::valid_utf8(bytes) {
        utf8::decode_utf8(bytes)
    } else {
        Seq::empty()
    }
}

/// A request without the white space around it.
pub open spec fn trimmed(s: Seq<char>) -> Seq<char> {
    without_tail(without_head(s, |c: char| is_white(c)), |c: char| is_white(c))
}

/// The path of a request, which leads with the method and a slash.
pub open spec fn path_of(req: Seq<char>) -> Seq<char> {
    let method = "GET /"@;
    let rest = if method.is_prefix_of(req) {
        req.skip(method.len() as int)
    } else {
        req
    };
    without_tail(without_tail(rest, |c: char| c == '\r'), |c: char| c == '\n')
}

/// The path of a URL: what follows its third slash, or the index.
pub open spec fn url_path_of(url: Seq<char>) -> Seq<char> {
    match after_slash(url, 3) {
        Some(path) => path,
        None => "index.html"@,
    }
}

/// `std::str::from_utf8`: the text that the bytes encode, if they are UTF-8.
#[verifier::external_body]
fn parse_utf8(bytes: &[u8]) -> (r: Option<&str>)
    ensures
        match r {
            Some(text) => utf8::valid_utf8(bytes@) && text@ == utf8::decode_utf8(bytes@),
            None => !utf8::valid_utf8(bytes@),
        },
{
    std::str::from_utf8(bytes).ok()
}

/// The text of a request.
pub fn request_text(bytes: &[u8]) -> (text: &str)
    ensures
        text@ == text_in(bytes@),
{
    match parse_utf8(bytes) {
        Some(text) => text,
        None => {
            proof {
                reveal_strlit("");
                assert(""@ =~= Seq::<char>::empty());
            }
            ""
        },
    }
}

/// The part of a file that is sent next, and what is left of it.
pub fn next_chunk(data: &[u8]) -> (r: (&[u8], &[u8]))
    ensures
        data@ == r.0@ + r.1@,
        r.0@.len() == if data@.len() < CHUNK {
            data@.len()
        } else {
            CHUNK as nat
        },
{
    let n: usize = if data.len() < CHUNK {
        data.len()
    } else {
        CHUNK
    };
    let chunk = vstd::slice::slice_subrange(data, 0, n);
    let rest = vstd::slice::slice_subrange(data, n, data.len());
    assert(data@ =~= chunk@ + rest@);
    (chunk, rest)
}

/// Whether two texts are the same.
fn same_text(a: &str, b: &str) -> (same: bool)
    ensures
        same == (a@ == b@),
{
    let n: usize = a.unicode_len();
    if n != b.unicode_len() {
        return false;
    }
    let mut i: usize = 0;
    while i < n
        invariant
            i <= n,
            n == a@.len(),
            n == b@.len(),
            forall|j: int| 0 <= j < i ==> a@[j] == b@[j],
        decreases n - i,
    {
        if a.get_char(i) != b.get_char(i) {
            return false;
        }
        i += 1;
    }
    assert(a@ =~= b@);
    true
}

/// Whether a testcase is supported.
pub fn is_supported(tc: &str) -> (r: bool)
    ensures
        r == (tc@ == "handshake"@ || tc@ == "transfer"@),
{
    same_text(tc, "handshake") || same_text(tc, "transfer")
}

/// A request without the white space around it.
pub fn trim_request(raw: &str) -> (req: String)
    ensures
        req@ == trimmed(raw@),
{
    let n: usize = raw.unicode_len();
    let ghost white = |c: char| is_white(c);
    let mut from: usize = 0;
    assert(raw@.skip(0) =~= raw@);
    while from < n && white_space(raw.get_char(from))
        invariant
            from <= n,
            n == raw@.len(),
            white == (|c: char| is_white(c)),
            without_head(raw@.skip(from as int), white) == without_head(raw@, white),
        ensures
            from == n || !is_white(raw@[from as int]),
        decreases n - from,
    {
        assert(raw@.skip(from as int).skip(1) =~= raw@.skip(from + 1));
        from += 1;
    }
    let ghost headless = raw@.skip(from as int);
    assert(without_head(raw@, white) == headless);
    let mut to: usize = n;
    assert(raw@.subrange(from as int, n as int) =~= headless);
    while to > from && white_space(raw.get_char(to - 1))
        invariant
            from <= to <= n,
            n == raw@.len(),
            white == (|c: char| is_white(c)),
            without_tail(raw@.subrange(from as int, to as int), white) == without_tail(
                headless,
                white,
            ),
        ensures
            to == from || !is_white(raw@[to - 1]),
        decreases to,
    {
        assert(raw@.subrange(from as int, to as int).drop_last() =~= raw@.subrange(
            from as int,
            to - 1,
        ));
        to -= 1;
    }
    raw.substring_char(from, to).to_string()
}

/// The end of `s` without the characters `c` before `to`.
fn trim_end(s: &str, from: usize, to: usize, c: char) -> (end: usize)
    requires
        from <= to <= s@.len(),
    ensures
        from <= end <= to,
        s@.subrange(from as int, end as int) == without_tail(
            s@.subrange(from as int, to as int),
            |d: char| d == c,
        ),
{
    let ghost p = |d: char| d == c;
    let mut end: usize = to;
    while end > from && s.get_char(end - 1) == c
        invariant
            from <= end <= to <= s@.len(),
            p == (|d: char| d == c),
            without_tail(s@.subrange(from as int, end as int), p) == without_tail(
                s@.subrange(from as int, to as int),
                p,
            ),
        ensures
            end == from || s@[end - 1] != c,
        decreases end,
    {
        assert(s@.subrange(from as int, end as int).drop_last() =~= s@.subrange(
            from as int,
            end - 1,
        ));
        end -= 1;
    }
    end
}

/// The path of a request.
pub fn request_path(req: &str) -> (path: String)
    ensures
        path@ == path_of(req@),
{
    proof {
        reveal_strlit("GET /");
    }
    let n: usize = req.unicode_len();
    let method: &str = "GET /";
    let from: usize = if n >= 5 && same_text(req.substring_char(0, 5), method) {
        5
    } else {
        0
    };
    proof {
        assert(method@.len() == 5);
        if n >= 5 {
            assert(method@.is_prefix_of(req@) <==> req@.subrange(0, 5) =~= method@);
        }
        assert(req@.subrange(5, n as int) =~= req@.skip(5));
        assert(req@.subrange(0, n as int) =~= req@);
    }
    let end: usize = trim_end(req, from, n, '\r');
    let end: usize = trim_end(req, from, end, '\n');
    req.substring_char(from, end).to_string()
}

/// The path of a URL.
pub fn url_path(url: &str) -> (path: String)
    ensures
        path@ == url_path_of(url@),
{
    let n: usize = url.unicode_len();
    let mut left: usize = 3;
    let mut i: usize = 0;
    assert(url@.skip(0) =~= url@);
    while i < n && left > 0
        invariant
            i <= n,
            n == url@.len(),
            left <= 3,
            after_slash(url@.skip(i as int), left as nat) == after_slash(url@, 3),
        decreases n - i,
    {
        assert(url@.skip(i as int).skip(1) =~= url@.skip(i + 1));
        if url.get_char(i) == '/' {
            left -= 1;
        }
        i += 1;
    }
    if left > 0 {
        return "index.html".to_string();
    }
    assert(url@.subrange(i as int, n as int) =~= url@.skip(i as int));
    url.substring_char(i, n).to_string()
}

/// The line that requests a path.
pub fn request_line(path: &str) -> (line: String)
    ensures
        line@ == "GET /"@ + path@ + "\r\n"@,
{
    let mut line: String = "GET /".to_string();
    line.append(path);
    line.append("\r\n");
    line
}

/// What a server is to do next.
pub enum ServerMove {
    /// Wait, and look again for a request.
    Wait,
    /// Stop: no request came.
    GiveUp,
    /// Stop: the request was empty.
    Finish,
    /// Serve the file at a path.
    Serve(String),
}

/// A server between requests: how often it has waited in vain.
pub struct Serving {
    pub idle: u32,
}

/// What a client is to do next.
#[derive(Debug, Clone, Copy, PartialEq, Eq, Structural)]
pub enum ClientMove {
    /// Wait, and look again for data.
    Wait,
    /// The response is complete.
    Complete,
}

/// A client that awaits a response: how often it has waited in vain since data
/// last came.
pub struct Awaiting {
    pub silence: u32,
}

impl Serving {
    pub fn new() -> (s: Self)
        ensures
            s.idle == 0,
    {
        Serving { idle: 0 }
    }

    /// Says what to do with the bytes that came, if any did.
    pub fn on_received(&mut self, bytes: &[u8]) -> (m: ServerMove)
        requires
            old(self).idle <= MAX_IDLE,
        ensures
            if bytes@.len() == 0 {
                &&& final(self).idle == old(self).idle + 1
                &&& m == if old(self).idle < MAX_IDLE {
                    ServerMove::Wait
                } else {
                    ServerMove::GiveUp
                }
            } else {
                let req = trimmed(text_in(bytes@));
                &&& final(self).idle == 0
                &&& if req.len() == 0 {
                    m == ServerMove::Finish
                } else {
                    m matches ServerMove::Serve(path) && path@ == path_of(req)
                }
            },
    {
        if bytes.len() == 0 {
            self.idle = self.idle + 1;
            if self.idle > MAX_IDLE {
                return ServerMove::GiveUp;
            }
            return ServerMove::Wait;
        }
        self.idle = 0;
        let req = trim_request(request_text(bytes));
        if req.as_str().unicode_len() == 0 {
            ServerMove::Finish
        } else {
            ServerMove::Serve(request_path(req.as_str()))
        }
    }
}

impl Awaiting {
    pub fn new() -> (s: Self)
        ensures
            s.silence == 0,
    {
        Awaiting { silence: 0 }
    }

    /// Says what to do once `n` bytes have come.
    pub fn on_received(&mut self, n: usize) -> (m: ClientMove)
        requires
            old(self).silence <= MAX_SILENCE,
        ensures
            n > 0 ==> final(self).silence == 0 && m == ClientMove::Wait,
            n == 0 ==> final(self).silence == old(self).silence + 1 && m == if old(self).silence
                < MAX_SILENCE {
                ClientMove::Wait
            } else {
                ClientMove::Complete
            },
    {
        if n > 0 {
            self.silence = 0;
            return ClientMove::Wait;
        }
        self.silence = self.silence + 1;
        if self.silence > MAX_SILENCE {
            ClientMove::Complete
        } else {
            ClientMove::Wait
        }
    }
}

/// Law: a server that receives the line of a request serves the path that was
/// requested, unless that ends in white space.
pub proof fn law_request_round_trip(path: Seq<char>)
    requires
        path.len() > 0 ==> !is_white(path.last()),
    ensures
        ({
            let line = "GET /"@ + path + "\r\n"@;
            &&& text_in(utf8::encode_utf8(line)) == line
            &&& utf8::encode_utf8(line).len() > 0
            &&& trimmed(line) == "GET /"@ + path
            &&& trimmed(line).len() > 0
            &&& path_of(trimmed(line)) == path
        }),
{
    reveal_strlit("GET /");
    reveal_strlit("\r\n");
    let white = |c: char| is_white(c);
    let method = "GET /"@;
    let req = method + path;
    let line = req + "\r\n"@;
    utf8::encode_utf8_valid_utf8(line);
    utf8::encode_utf8_decode_utf8(line);
    assert(line[0] == 'G');
    assert(without_head(line, white) == line);
    assert(line.last() == '\n');
    assert(line.drop_last() =~= req.push('\r'));
    assert(req.push('\r').drop_last() =~= req);
    assert(req.last() == if path.len() > 0 {
        path.last()
    } else {
        '/'
    });
    assert(without_tail(req, white) == req);
    assert(without_tail(req.push('\r'), white) == req);
    assert(without_tail(line, white) == req);
    assert(method.is_prefix_of(req));
    assert(req.skip(method.len() as int) =~= path);
}

proof fn lemma_without_tail(s: Seq<char>, p: spec_fn(char) -> bool) -> (n: int)
    ensures
        0 <= n <= s.len(),
        without_tail(s, p) == s.take(n),
        forall|i: int| n <= i < s.len() ==> p(#[trigger] s[i]),
        n > 0 ==> !p(s[n - 1]),
    decreases s.len(),
{
    if s.len() > 0 && p(s.last()) {
        let n = lemma_without_tail(s.drop_last(), p);
        assert(s.drop_last().take(n) =~= s.take(n));
        assert forall|i: int| n <= i < s.len() implies p(#[trigger] s[i]) by {
            if i < s.len() - 1 {
                assert(p(s.drop_last()[i]));
            }
        }
        n
    } else {
        assert(s.take(s.len() as int) =~= s);
        s.len() as int
    }
}

proof fn lemma_without_head(s: Seq<char>, p: spec_fn(char) -> bool) -> (n: int)
    ensures
        0 <= n <= s.len(),
        without_head(s, p) == s.skip(n),
        forall|i: int| 0 <= i < n ==> p(#[trigger] s[i]),
        n < s.len() ==> !p(s[n]),
    decreases s.len(),
{
    if s.len() > 0 && p(s[0]) {
        let n = lemma_without_head(s.skip(1), p);
        assert(s.skip(1).skip(n) =~= s.skip(n + 1));
        assert forall|i: int| 0 <= i < n + 1 implies p(#[trigger] s[i]) by {
            if i > 0 {
                assert(p(s.skip(1)[i - 1]));
            }
        }
        n + 1
    } else {
        assert(s.skip(0) =~= s);
        0
    }
}

/// Law: trimming takes the white space off both ends and nothing else: what is
/// left is a part of the text, around which all is white space, and which neither
/// starts nor ends with any.
pub proof fn law_trimmed(s: Seq<char>) -> (r: (int, int))
    ensures
        0 <= r.0 <= r.1 <= s.len(),
        trimmed(s) == s.subrange(r.0, r.1),
        forall|i: int| 0 <= i < r.0 || r.1 <= i < s.len() ==> is_white(#[trigger] s[i]),
        r.0 < r.1 ==> !is_white(s[r.0]) && !is_white(s[r.1 - 1]),
{
    let white = |c: char| is_white(c);
    let from = lemma_without_head(s, white);
    let t = s.skip(from);
    let n = lemma_without_tail(t, white);
    assert(t.take(n) =~= s.subrange(from, from + n));
    assert forall|i: int| 0 <= i < from || from + n <= i < s.len() implies is_white(
        #[trigger] s[i],
    ) by {
        if i < from {
            assert(white(s[i]));
        } else {
            assert(white(t[i - from]));
        }
    }
    if n > 0 {
        assert(!white(t[n - 1]));
        assert(!white(s[from]));
    }
    (from, from + n)
}

/// Law: the path of a request is what follows the method and the slash, or the
/// whole request where it does not start with them, without line ends at its
/// end: first carriage returns are dropped, and then line feeds.
pub proof fn law_path_of(req: Seq<char>)
    ensures
        ({
            let led = req.len() >= 5 && req[0] == 'G' && req[1] == 'E' && req[2] == 'T' && req[3]
                == ' ' && req[4] == '/';
            let rest = if led {
                req.skip(5)
            } else {
                req
            };
            let path = path_of(req);
            &&& path.len() <= rest.len()
            &&& path == rest.take(path.len() as int)
            &&& forall|i: int|
                path.len() <= i < rest.len() ==> #[trigger] rest[i] == '\r' || rest[i] == '\n'
            &&& path.len() > 0 ==> path.last() != '\n'
            &&& rest.len() > 0 && rest.last() != '\r' && rest.last() != '\n' ==> path == rest
            &&& path.len() > 0 && path.last() == '\r' ==> path.len() < rest.len()
        }),
{
    reveal_strlit("GET /");
    let method = "GET /"@;
    let led = req.len() >= 5 && req[0] == 'G' && req[1] == 'E' && req[2] == 'T' && req[3] == ' '
        && req[4] == '/';
    assert(method.is_prefix_of(req) == led) by {
        if led {
            assert(req.subrange(0, 5) =~= method);
        } else if method.is_prefix_of(req) {
            assert(req.subrange(0, 5)[0] == 'G');
            assert(req.subrange(0, 5)[1] == 'E');
            assert(req.subrange(0, 5)[2] == 'T');
            assert(req.subrange(0, 5)[3] == ' ');
            assert(req.subrange(0, 5)[4] == '/');
        }
    }
    let rest = if led {
        req.skip(5)
    } else {
        req
    };
    let cr = |c: char| c == '\r';
    let lf = |c: char| c == '\n';
    let n = lemma_without_tail(rest, cr);
    let t = rest.take(n);
    let k = lemma_without_tail(t, lf);
    let path = path_of(req);
    assert(path == t.take(k));
    assert(t.take(k) =~= rest.take(k));
    assert forall|i: int| k <= i < rest.len() implies #[trigger] rest[i] == '\r' || rest[i]
        == '\n' by {
        if i < n {
            assert(lf(t[i]));
        } else {
            assert(cr(rest[i]));
        }
    }
    if k > 0 {
        assert(!lf(t[k - 1]));
    }
    if n > 0 {
        assert(!cr(rest[n - 1]));
    }
    if rest.len() > 0 && rest.last() != '\r' && rest.last() != '\n' {
        assert(rest[rest.len() - 1] == rest.last());
        assert(k == rest.len());
        assert(rest.take(k) =~= rest);
    }
}

proof fn lemma_after_slash(part: Seq<char>, rest: Seq<char>, n: nat)
    requires
        forall|i: int| 0 <= i < part.len() ==> #[trigger] part[i] != '/',
    ensures
        after_slash(part + seq!['/'] + rest, n + 1) == after_slash(rest, n),
        after_slash(part, n + 1) is None,
    decreases part.len(),
{
    let s = part + seq!['/'] + rest;
    if part.len() == 0 {
        assert(s[0] == '/');
        assert(s.skip(1) =~= rest);
    } else {
        let t = part.skip(1);
        assert forall|i: int| 0 <= i < t.len() implies #[trigger] t[i] != '/' by {
            assert(part[i + 1] != '/');
        }
        lemma_after_slash(t, rest, n);
        assert(part[0] != '/');
        assert(s[0] == part[0]);
        assert(s.skip(1) =~= t + seq!['/'] + rest);
    }
}

/// Law: the path of a URL is all that follows its third slash. Where it has
/// fewer, it is the index.
pub proof fn law_url_path(a: Seq<char>, b: Seq<char>, c: Seq<char>, rest: Seq<char>)
    requires
        forall|i: int| 0 <= i < a.len() ==> #[trigger] a[i] != '/',
        forall|i: int| 0 <= i < b.len() ==> #[trigger] b[i] != '/',
        forall|i: int| 0 <= i < c.len() ==> #[trigger] c[i] != '/',
    ensures
        url_path_of(a + seq!['/'] + (b + seq!['/'] + (c + seq!['/'] + rest))) == rest,
        url_path_of(a + seq!['/'] + (b + seq!['/'] + c)) == "index.html"@,
        url_path_of(a + seq!['/'] + b) == "index.html"@,
        url_path_of(a) == "index.html"@,
{
    let c2 = c + seq!['/'] + rest;
    let b2 = b + seq!['/'] + c2;
    lemma_after_slash(a, b2, 2);
    lemma_after_slash(b, c2, 1);
    lemma_after_slash(c, rest, 0);
    lemma_after_slash(a, b + seq!['/'] + c, 2);
    lemma_after_slash(b, c, 1);
    lemma_after_slash(a, b, 2);
}

/// Law: bytes that are no UTF-8 have no text, and those that are have the text
/// that encodes to them.
pub proof fn law_text_in(bytes: Seq<u8>)
    ensures
        !utf8::valid_utf8(bytes) ==> text_in(bytes).len() == 0,
        utf8::valid_utf8(bytes) ==> utf8::encode_utf8(text_in(bytes)) == bytes,
{
    if utf8::valid_utf8(bytes) {
        utf8::decode_utf8_encode_utf8(bytes);
    }
}

/// Law: a server waits fifty times for a request and then gives up. A request
/// starts the count anew: one that is empty but for white space ends the serving,
/// and of any other the path is served.
pub proof fn law_serving(s: &mut Serving, bytes: &[u8], m: ServerMove)
    requires
        old(s).idle <= 50,
        call_ensures(Serving::on_received, (s, bytes), m),
    ensures
        bytes@.len() == 0 ==> {
            &&& final(s).idle == old(s).idle + 1
            &&& m is Wait <==> final(s).idle <= 50
            &&& m is GiveUp <==> final(s).idle > 50
        },
        bytes@.len() > 0 ==> {
            let req = trimmed(text_in(bytes@));
            &&& final(s).idle == 0
            &&& m is Finish <==> req.len() == 0
            &&& req.len() > 0 ==> (m matches ServerMove::Serve(path) && path@ == path_of(req))
        },
{
}

/// Law: a client waits thirty times for more data and then takes the response to
/// be complete. Data starts the count anew.
pub proof fn law_awaiting(s: &mut Awaiting, n: usize, m: ClientMove)
    requires
        old(s).silence <= 30,
        call_ensures(Awaiting::on_received, (s, n), m),
    ensures
        n > 0 ==> final(s).silence == 0 && m == ClientMove::Wait,
        n == 0 ==> final(s).silence == old(s).silence + 1,
        n == 0 ==> (m == ClientMove::Complete <==> final(s).silence > 30),
{
}

/// Law: a file is sent from its start, 1024 bytes at a time, and its last part is
/// what is left. Nothing is left out and nothing is sent twice.
pub proof fn law_chunks(data: &[u8], r: (&[u8], &[u8]))
    requires
        call_ensures(next_chunk, (data,), r),
    ensures
        r.0@ + r.1@ == data@,
        r.0@.len() <= 1024,
        r.1@.len() > 0 ==> r.0@.len() == 1024,
        data@.len() > 0 ==> r.0@.len() > 0,
{
}

/// Law: which testcases are supported, how a request is written, and that calls
/// on a request and on a URL trim it and find its path.
pub proof fn law_requests(
    text: &str,
    supported: bool,
    line: String,
    trim: String,
    path: String,
    url: String,
    bytes: &[u8],
    read: &str,
)
    requires
        call_ensures(is_supported, (text,), supported),
        call_ensures(request_line, (text,), line),
        call_ensures(trim_request, (text,), trim),
        call_ensures(request_path, (text,), path),
        call_ensures(url_path, (text,), url),
        call_ensures(request_text, (bytes,), read),
    ensures
        supported <==> text@ == "handshake"@ || text@ == "transfer"@,
        line@ == "GET /"@ + text@ + "\r\n"@,
        trim@ == trimmed(text@),
        path@ == path_of(text@),
        url@ == url_path_of(text@),
        read@ == text_in(bytes@),
{
}

} // verus!
