//! The HTTP framing of the local trace viewer.

use vstd::prelude::*;
use vstd::string::StrSliceExecFns;
use vstd::utf8::encode_utf8;
use crate::text::{nat_str, push_str, push_usize, string_of};

verus! {

/// The text of a complete `HTTP/1.1` response: status line, content type,
/// the body's length in bytes, `connection: close`, a blank line, the body.
pub open spec fn http_text(status: Seq<char>, content_type: Seq<char>, body: Seq<char>) -> Seq<char> {
    "HTTP/1.1 "@ + status + "\r\ncontent-type: "@ + content_type + "\r\ncontent-length: "@
        + nat_str(encode_utf8(body).len()) + "\r\nconnection: close\r\n\r\n"@ + body
}

/// A complete HTTP response, as UTF-8 bytes.
pub fn http_response(status: &str, content_type: &str, body: &str) -> (r: Vec<u8>)
    requires
        encode_utf8(body@).len() <= usize::MAX,
    ensures
        r@ == encode_utf8(http_text(status@, content_type@, body@)),
{
    let mut out = string_of("HTTP/1.1 ");
    push_str(&mut out, status);
    push_str(&mut out, "\r\ncontent-type: ");
    push_str(&mut out, content_type);
    push_str(&mut out, "\r\ncontent-length: ");
    push_usize(&mut out, body.len());
    push_str(&mut out, "\r\nconnection: close\r\n\r\n");
    push_str(&mut out, body);
    proof {
        assert(out@ =~= http_text(status@, content_type@, body@));
    }
    out.as_str().as_bytes_vec()
}

} // verus!

verus! {

/// `char::is_whitespace`: the characters with Unicode's `White_Space`
/// property.
pub open spec fn is_white(c: char) -> bool {
    let u = c as u32;
    ||| 0x09 <= u <= 0x0D
    ||| u == 0x20 || u == 0x85 || u == 0xA0 || u == 0x1680
    ||| 0x2000 <= u <= 0x200A
    ||| u == 0x2028 || u == 0x2029 || u == 0x202F || u == 0x205F || u == 0x3000
}

/// The first position at or after `i` that is not whitespace.
pub open spec fn skip_white(s: Seq<char>, i: int) -> int
    decreases s.len() - i,
{
    if 0 <= i < s.len() && is_white(s[i]) {
        skip_white(s, i + 1)
    } else {
        i
    }
}

/// The end of the word that starts at `i`.
pub open spec fn word_end(s: Seq<char>, i: int) -> int
    decreases s.len() - i,
{
    if 0 <= i < s.len() && !is_white(s[i]) {
        word_end(s, i + 1)
    } else {
        i
    }
}

/// The path a request asks for: its second whitespace-separated word, up to
/// the first `?`; `/` when it has no second word.
pub open spec fn request_path(req: Seq<char>) -> Seq<char> {
    let a0 = skip_white(req, 0);
    let a1 = skip_white(req, word_end(req, a0));
    if a0 >= req.len() || a1 >= req.len() {
        "/"@
    } else {
        let w = req.subrange(a1, word_end(req, a1));
        w.subrange(0, crate::parser::find_from(w, '?', 0))
    }
}

/// The response text for a path: the trace at `/trace`, the page at `/`
/// and `/index.html`, `404 Not Found` elsewhere.
pub open spec fn route_v(path: Seq<char>, trace: Seq<char>, page: Seq<char>) -> Seq<char> {
    if path == "/trace"@ {
        http_text("200 OK"@, "application/x-ndjson; charset=utf-8"@, trace)
    } else if path == "/"@ || path == "/index.html"@ {
        http_text("200 OK"@, "text/html; charset=utf-8"@, page)
    } else {
        http_text("404 Not Found"@, "text/plain; charset=utf-8"@, "not found"@)
    }
}

fn is_white_x(c: char) -> (r: bool)
    ensures
        r == is_white(c),
{
    let u = c as u32;
    (0x09 <= u && u <= 0x0D) || u == 0x20 || u == 0x85 || u == 0xA0 || u == 0x1680 || (0x2000 <= u
        && u <= 0x200A) || u == 0x2028 || u == 0x2029 || u == 0x202F || u == 0x205F || u == 0x3000
}

proof fn lemma_skip_white(s: Seq<char>, i: int)
    requires
        0 <= i <= s.len(),
    ensures
        i <= skip_white(s, i) <= s.len(),
        i <= word_end(s, i) <= s.len(),
    decreases s.len() - i,
{
    if i < s.len() {
        lemma_skip_white(s, i + 1);
    }
}

/// The path a request asks for (see `request_path`).
pub fn path_of_request(request: &str) -> (r: String)
    ensures
        r@ == request_path(request@),
{
    let s = crate::text::chars_of(request);
    let n = s.len();
    let mut i: usize = 0;
    while i < n && is_white_x(s[i])
        invariant
            i <= n == s@.len(),
            skip_white(s@, i as int) == skip_white(s@, 0),
        decreases n - i,
    {
        i = i + 1;
    }
    let a0x = i;
    let ghost a0 = i as int;
    while i < n && !is_white_x(s[i])
        invariant
            a0 <= i <= n == s@.len(),
            word_end(s@, i as int) == word_end(s@, a0),
        decreases n - i,
    {
        i = i + 1;
    }
    let ghost e0 = i as int;
    while i < n && is_white_x(s[i])
        invariant
            e0 <= i <= n == s@.len(),
            skip_white(s@, i as int) == skip_white(s@, e0),
        decreases n - i,
    {
        i = i + 1;
    }
    if a0x >= n || i >= n {
        proof {
            reveal_strlit("/");
        }
        let r = string_of("/");
        return r;
    }
    let a1 = i;
    let mut out = String::new();
    while i < n && !is_white_x(s[i]) && s[i] != '?'
        invariant
            a1 <= i <= n == s@.len(),
            word_end(s@, i as int) == word_end(s@, a1 as int),
            out@ == s@.subrange(a1 as int, i as int),
            forall|q: int| a1 <= q < i ==> s@[q] != '?',
        decreases n - i,
    {
        crate::text::push_char(&mut out, s[i]);
        i = i + 1;
        proof {
            assert(out@ =~= s@.subrange(a1 as int, i as int));
        }
    }
    proof {
        lemma_skip_white(s@, i as int);
        let w = s@.subrange(a1 as int, word_end(s@, a1 as int));
        let k = i - a1;
        assert forall|q: int| 0 <= q < k implies w[q] != '?' by {
            assert(w[q] == s@[a1 + q]);
        }
        if (i as int) < word_end(s@, a1 as int) {
            assert(w[k] == s@[i as int]);
            assert(w[k] == '?');
        }
        lemma_find_first(w, '?', 0, k);
        assert(out@ =~= w.subrange(0, k));
    }
    out
}

proof fn lemma_find_first(w: Seq<char>, c: char, j: int, k: int)
    requires
        0 <= j <= k <= w.len(),
        forall|q: int| j <= q < k ==> w[q] != c,
        k == w.len() || w[k] == c,
    ensures
        crate::parser::find_from(w, c, j) == k,
    decreases k - j,
{
    if j < k {
        lemma_find_first(w, c, j + 1, k);
    }
}

/// What the viewer answers to one request: the trace, the page, or
/// `404 Not Found`, by the path asked for.
pub fn view_response(request: &str, trace_src: &str, page: &str) -> (r: Vec<u8>)
    requires
        encode_utf8(trace_src@).len() <= usize::MAX,
        encode_utf8(page@).len() <= usize::MAX,
    ensures
        r@ == encode_utf8(route_v(request_path(request@), trace_src@, page@)),
{
    let path = path_of_request(request);
    if crate::text::str_eq(path.as_str(), "/trace") {
        http_response("200 OK", "application/x-ndjson; charset=utf-8", trace_src)
    } else if crate::text::str_eq(path.as_str(), "/") || crate::text::str_eq(path.as_str(), "/index.html") {
        http_response("200 OK", "text/html; charset=utf-8", page)
    } else {
        proof {
            reveal_strlit("not found");
            vstd::utf8::is_ascii_chars_encode_utf8("not found"@);
        }
        http_response("404 Not Found", "text/plain; charset=utf-8", "not found")
    }
}

} // verus!
