//! The request head: request line and header lines, fed one line at a time.
use vstd::prelude::*;
use vstd::slice::{slice_subrange, slice_to_vec};
use crate::error::HttpError;
use crate::response::{HeaderLine, header_lines_view};
use crate::text::{eq_ignore_case, literal, text, to_lower};

verus! {

/// An ASCII character that `str::trim` strips: tab, line feed, vertical
/// tab, form feed, carriage return, space.
pub open spec fn is_ascii_trim_space(b: u8) -> bool {
    b == 32 || (9 <= b <= 13)
}

/// The three-byte UTF-8 encodings of Unicode whitespace: U+1680,
/// U+2000 to U+200A, U+2028, U+2029, U+202F, U+205F and U+3000.
pub open spec fn is_wide_space(a: u8, b: u8, c: u8) -> bool {
    ||| (a == 0xE1 && b == 0x9A && c == 0x80)
    ||| (a == 0xE2 && b == 0x80 && ((0x80 <= c <= 0x8A) || c == 0xA8 || c == 0xA9 || c == 0xAF))
    ||| (a == 0xE2 && b == 0x81 && c == 0x9F)
    ||| (a == 0xE3 && b == 0x80 && c == 0x80)
}

/// The length of the encoding of a Unicode whitespace character that starts
/// at `i`, or 0 when none does. The two-byte ones are U+0085 and U+00A0.
pub open spec fn space_at(s: Seq<u8>, i: int) -> nat {
    if 0 <= i < s.len() && is_ascii_trim_space(s[i]) {
        1
    } else if 0 <= i && i + 1 < s.len() && s[i] == 0xC2 && (s[i + 1] == 0x85 || s[i + 1] == 0xA0) {
        2
    } else if 0 <= i && i + 2 < s.len() && is_wide_space(s[i], s[i + 1], s[i + 2]) {
        3
    } else {
        0
    }
}

/// The length of the encoding of a Unicode whitespace character that ends
/// just before `j`, or 0 when none does.
pub open spec fn space_before(s: Seq<u8>, j: int) -> nat {
    if 1 <= j <= s.len() && is_ascii_trim_space(s[j - 1]) {
        1
    } else if 2 <= j <= s.len() && s[j - 2] == 0xC2 && (s[j - 1] == 0x85 || s[j - 1] == 0xA0) {
        2
    } else if 3 <= j <= s.len() && is_wide_space(s[j - 3], s[j - 2], s[j - 1]) {
        3
    } else {
        0
    }
}

/// Whitespace that separates the words of a request line: ASCII only.
pub open spec fn is_word_space(b: u8) -> bool {
    b == 32 || b == 9 || b == 10 || b == 12 || b == 13
}

/// The first position from `i` on where no whitespace character starts.
pub open spec fn trim_start(s: Seq<u8>, i: nat) -> nat
    decreases s.len() - i,
{
    if i >= s.len() {
        s.len()
    } else if space_at(s, i as int) > 0 {
        trim_start(s, i + space_at(s, i as int))
    } else {
        i
    }
}

/// The end of `s[0..j]` with trailing whitespace characters dropped.
pub open spec fn trim_end(s: Seq<u8>, j: nat) -> nat
    decreases j,
{
    if j == 0 || j > s.len() {
        0
    } else if space_before(s, j as int) > 0 {
        trim_end(s, (j - space_before(s, j as int)) as nat)
    } else {
        j
    }
}

/// `s` without leading and trailing Unicode whitespace, as `str::trim`
/// leaves the text that `s` encodes.
pub open spec fn trimmed(s: Seq<u8>) -> Seq<u8> {
    let a = trim_start(s, 0);
    let e = trim_end(s, s.len());
    if a < e {
        s.subrange(a as int, e as int)
    } else {
        Seq::empty()
    }
}

/// The first position from `i` on that holds no word space.
pub open spec fn word_start(s: Seq<u8>, i: nat) -> nat
    decreases s.len() - i,
{
    if i >= s.len() {
        s.len()
    } else if is_word_space(s[i as int]) {
        word_start(s, i + 1)
    } else {
        i
    }
}

/// The first position from `i` on that holds word space, or the end.
pub open spec fn word_end(s: Seq<u8>, i: nat) -> nat
    decreases s.len() - i,
{
    if i >= s.len() {
        s.len()
    } else if is_word_space(s[i as int]) {
        i
    } else {
        word_end(s, i + 1)
    }
}

#[derive(Debug, Clone, Copy, PartialEq, Eq, Structural)]
pub enum HttpRequestMethod {
    Get,
    Post,
}

/// The method a word names, compared without regard to ASCII case.
pub open spec fn method_named(w: Seq<u8>) -> Option<HttpRequestMethod> {
    if eq_ignore_case(w, text("get")) {
        Some(HttpRequestMethod::Get)
    } else if eq_ignore_case(w, text("post")) {
        Some(HttpRequestMethod::Post)
    } else {
        None
    }
}

/// Method and path of a request line: its first two words, after trimming.
/// Further words (the protocol version) are ignored.
pub open spec fn request_line(line: Seq<u8>) -> Result<(HttpRequestMethod, Seq<u8>), HttpError> {
    let s = trimmed(line);
    let a = word_start(s, 0);
    let b = word_end(s, a);
    if a >= s.len() {
        Err(HttpError::MalformedRequest)
    } else {
        match method_named(s.subrange(a as int, b as int)) {
            None => Err(HttpError::UnsupportedMethod),
            Some(m) => {
                let c = word_start(s, b);
                let d = word_end(s, c);
                if c >= s.len() {
                    Err(HttpError::MissingPath)
                } else {
                    Ok((m, s.subrange(c as int, d as int)))
                }
            },
        }
    }
}

/// The first position from `i` on where `": "` starts.
pub open spec fn find_separator(t: Seq<u8>, i: nat) -> Option<nat>
    decreases t.len() - i,
{
    if i + 1 >= t.len() {
        None
    } else if t[i as int] == 58 && t[i as int + 1] == 32 {
        Some(i)
    } else {
        find_separator(t, i + 1)
    }
}

/// A header line, trimmed and cut at its first `": "`; `None` for a line
/// with no `": "`, which ends the head.
pub open spec fn header_line(line: Seq<u8>) -> Option<(Seq<u8>, Seq<u8>)> {
    let t = trimmed(line);
    match find_separator(t, 0) {
        Some(i) => Some((t.subrange(0, i as int), t.subrange(i as int + 2, t.len() as int))),
        None => None,
    }
}

/// The value of header `name`: the last one received wins.
pub open spec fn lookup(h: Seq<(Seq<u8>, Seq<u8>)>, name: Seq<u8>) -> Option<Seq<u8>>
    decreases h.len(),
{
    if h.len() == 0 {
        None
    } else if h.last().0 == name {
        Some(h.last().1)
    } else {
        lookup(h.drop_last(), name)
    }
}

pub struct RequestView {
    pub method: HttpRequestMethod,
    pub path: Seq<u8>,
    pub headers: Seq<(Seq<u8>, Seq<u8>)>,
}

/// A request head. The body, if any, stays on the connection: it is read
/// by whoever handles the request.
pub struct HttpRequest {
    pub method: HttpRequestMethod,
    pub path: Vec<u8>,
    /// Header lines in the order received; on a repeated name the last wins.
    pub headers: Vec<HeaderLine>,
}

impl View for HttpRequest {
    type V = RequestView;

    open spec fn view(&self) -> RequestView {
        RequestView { method: self.method, path: self.path@, headers: header_lines_view(self.headers@) }
    }
}

/// How a method is written on a request line.
pub open spec fn method_text(m: HttpRequestMethod) -> Seq<u8> {
    match m {
        HttpRequestMethod::Get => text("GET"),
        HttpRequestMethod::Post => text("POST"),
    }
}

pub open spec fn request_line_text(m: HttpRequestMethod, path: Seq<u8>) -> Seq<u8> {
    method_text(m) + text(" ") + path + text(" HTTP/1.1\r\n")
}

pub open spec fn header_line_text(name: Seq<u8>, value: Seq<u8>) -> Seq<u8> {
    name + text(": ") + value + text("\r\n")
}

/// A path that a request line can carry: a single word.
pub open spec fn is_path(p: Seq<u8>) -> bool {
    p.len() > 0 && forall|i: int| 0 <= i < p.len() ==> !is_word_space(#[trigger] p[i])
}

pub open spec fn has_separator_at(t: Seq<u8>, i: int) -> bool {
    t[i] == 58 && t[i + 1] == 32
}

/// A header that survives being written as a line and read back: the name
/// holds no `": "` and does not start with whitespace, the value is not
/// empty and does not end with whitespace (Unicode whitespace, as trimmed).
pub open spec fn is_header(name: Seq<u8>, value: Seq<u8>) -> bool {
    &&& space_at(name, 0) == 0
    &&& forall|i: int| 0 <= i < name.len() - 1 ==> !#[trigger] has_separator_at(name, i)
    &&& value.len() > 0
    &&& space_before(value, value.len() as int) == 0
}

proof fn lemma_trimmed_line(x: Seq<u8>)
    requires
        x.len() > 0,
        space_at(x, 0) == 0,
        space_before(x, x.len() as int) == 0,
    ensures
        trimmed(x + text("\r\n")) == x,
{
    reveal_strlit("\r\n");
    let s = x + text("\r\n");
    let n = s.len() as nat;
    let m = x.len() as int;
    assert(s[n - 1] == 10);
    assert(s[n - 2] == 13);
    assert forall|i: int| 0 <= i < m implies s[i] == x[i] by {}
    assert(space_at(s, 0) == space_at(x, 0));
    assert(space_before(s, m) == space_before(x, m));
    assert(trim_end(s, (n - 2) as nat) == n - 2);
    assert(trim_end(s, (n - 1) as nat) == n - 2);
    assert(trim_end(s, n) == n - 2);
    assert(trim_start(s, 0) == 0);
    assert(s.subrange(0, n - 2) =~= x);
}

proof fn lemma_word_end(s: Seq<u8>, i: nat, j: nat)
    requires
        i <= j <= s.len(),
        forall|k: int| i <= k < j ==> !is_word_space(#[trigger] s[k]),
        j == s.len() || is_word_space(s[j as int]),
    ensures
        word_end(s, i) == j,
    decreases j - i,
{
    if i < j {
        lemma_word_end(s, i + 1, j);
    }
}

proof fn lemma_word_start(s: Seq<u8>, i: nat, j: nat)
    requires
        i <= j <= s.len(),
        forall|k: int| i <= k < j ==> is_word_space(#[trigger] s[k]),
        j == s.len() || !is_word_space(s[j as int]),
    ensures
        word_start(s, i) == j,
    decreases j - i,
{
    if i < j {
        lemma_word_start(s, i + 1, j);
    }
}

proof fn lemma_find_separator(t: Seq<u8>, i: nat, j: nat)
    requires
        i <= j,
        j + 1 < t.len(),
        has_separator_at(t, j as int),
        forall|k: int| i <= k < j ==> !#[trigger] has_separator_at(t, k),
    ensures
        find_separator(t, i) == Some(j),
    decreases j - i,
{
    if i < j {
        assert(!has_separator_at(t, i as int));
        lemma_find_separator(t, i + 1, j);
    }
}

/// Writing a request line and header lines and reading them back gives the
/// same method, path and headers; the empty line ends the head.
pub proof fn lemma_request_round_trip(m: HttpRequestMethod, path: Seq<u8>, headers: Seq<(Seq<u8>, Seq<u8>)>)
    requires
        is_path(path),
        forall|i: int| 0 <= i < headers.len() ==> is_header(#[trigger] headers[i].0, headers[i].1),
    ensures
        request_line(request_line_text(m, path)) == Ok::<(HttpRequestMethod, Seq<u8>), HttpError>((m, path)),
        forall|i: int| 0 <= i < headers.len() ==>
            header_line(#[trigger] header_line_text(headers[i].0, headers[i].1)) == Some(headers[i]),
        header_line(text("\r\n")) is None,
{
    lemma_request_line_round_trip(m, path);
    assert forall|i: int| 0 <= i < headers.len() implies
        header_line(#[trigger] header_line_text(headers[i].0, headers[i].1)) == Some(headers[i]) by {
        lemma_header_line_round_trip(headers[i].0, headers[i].1);
    }
    lemma_empty_line_ends_head();
}

proof fn lemma_empty_line_ends_head()
    ensures
        header_line(text("\r\n")) is None,
{
    reveal_strlit("\r\n");
    let s = text("\r\n");
    assert(s.len() == 2 && s[0] == 13 && s[1] == 10);
    assert(trim_end(s, 0) == 0);
    assert(trim_end(s, 1) == 0);
    assert(trim_end(s, 2) == 0);
    assert(trimmed(s) =~= Seq::<u8>::empty());
}

/// The headers that a head's lines give when fed to `read_header_line` in
/// order, up to the first line that is not a header.
pub open spec fn headers_read(lines: Seq<Seq<u8>>) -> Seq<(Seq<u8>, Seq<u8>)>
    decreases lines.len(),
{
    if lines.len() == 0 {
        Seq::empty()
    } else {
        match header_line(lines[0]) {
            Some(h) => seq![h] + headers_read(lines.drop_first()),
            None => Seq::empty(),
        }
    }
}

/// Each header written as its own line.
pub open spec fn header_lines_text(h: Seq<(Seq<u8>, Seq<u8>)>) -> Seq<Seq<u8>> {
    h.map_values(|p: (Seq<u8>, Seq<u8>)| header_line_text(p.0, p.1))
}

pub open spec fn distinct_names(h: Seq<(Seq<u8>, Seq<u8>)>) -> bool {
    forall|i: int, j: int| 0 <= i < j < h.len() ==> #[trigger] h[i].0 != #[trigger] h[j].0
}

/// A whole head read back: the request line gives its method and path; the
/// header lines, ended by the empty line, give exactly the headers written,
/// whatever follows; and with distinct names, each name looks up its own
/// value while any other name looks up nothing.
pub proof fn lemma_head_round_trip(
    m: HttpRequestMethod,
    path: Seq<u8>,
    headers: Seq<(Seq<u8>, Seq<u8>)>,
    rest: Seq<Seq<u8>>,
)
    requires
        is_path(path),
        forall|i: int| 0 <= i < headers.len() ==> is_header(#[trigger] headers[i].0, headers[i].1),
        distinct_names(headers),
    ensures
        request_line(request_line_text(m, path)) == Ok::<(HttpRequestMethod, Seq<u8>), HttpError>((m, path)),
        headers_read(header_lines_text(headers) + seq![text("\r\n")] + rest) == headers,
        forall|i: int| 0 <= i < headers.len() ==> lookup(headers, #[trigger] headers[i].0) == Some(headers[i].1),
        forall|name: Seq<u8>|
            (forall|i: int| 0 <= i < headers.len() ==> #[trigger] headers[i].0 != name) ==> lookup(headers, name)
                is None,
{
    lemma_request_round_trip(m, path, headers);
    lemma_headers_read(headers, rest);
    assert forall|i: int| 0 <= i < headers.len() implies lookup(headers, #[trigger] headers[i].0) == Some(
        headers[i].1,
    ) by {
        lemma_lookup_distinct(headers, i);
    }
    assert forall|name: Seq<u8>|
        (forall|i: int| 0 <= i < headers.len() ==> #[trigger] headers[i].0 != name) implies lookup(headers, name)
        is None by {
        lemma_lookup_absent(headers, name);
    }
}

proof fn lemma_headers_read(headers: Seq<(Seq<u8>, Seq<u8>)>, rest: Seq<Seq<u8>>)
    requires
        forall|i: int| 0 <= i < headers.len() ==> is_header(#[trigger] headers[i].0, headers[i].1),
    ensures
        headers_read(header_lines_text(headers) + seq![text("\r\n")] + rest) == headers,
    decreases headers.len(),
{
    lemma_empty_line_ends_head();
    let lines = header_lines_text(headers) + seq![text("\r\n")] + rest;
    if headers.len() == 0 {
        assert(lines[0] == text("\r\n"));
    } else {
        let tail = headers.drop_first();
        assert forall|i: int| 0 <= i < tail.len() implies is_header(#[trigger] tail[i].0, tail[i].1) by {
            assert(tail[i] == headers[i + 1]);
        }
        lemma_headers_read(tail, rest);
        lemma_header_line_round_trip(headers[0].0, headers[0].1);
        assert(lines[0] == header_line_text(headers[0].0, headers[0].1));
        assert(lines.drop_first() =~= header_lines_text(tail) + seq![text("\r\n")] + rest);
        assert(seq![headers[0]] + tail =~= headers);
    }
}

proof fn lemma_lookup_distinct(h: Seq<(Seq<u8>, Seq<u8>)>, i: int)
    requires
        0 <= i < h.len(),
        distinct_names(h),
    ensures
        lookup(h, h[i].0) == Some(h[i].1),
    decreases h.len(),
{
    if i < h.len() - 1 {
        let d = h.drop_last();
        assert(h.last().0 != h[i].0);
        assert(d[i] == h[i]);
        assert forall|a: int, b: int| 0 <= a < b < d.len() implies #[trigger] d[a].0 != #[trigger] d[b].0 by {
            assert(d[a] == h[a] && d[b] == h[b]);
        }
        lemma_lookup_distinct(d, i);
    }
}

proof fn lemma_lookup_absent(h: Seq<(Seq<u8>, Seq<u8>)>, name: Seq<u8>)
    requires
        forall|i: int| 0 <= i < h.len() ==> #[trigger] h[i].0 != name,
    ensures
        lookup(h, name) is None,
    decreases h.len(),
{
    if h.len() > 0 {
        let d = h.drop_last();
        assert(h.last().0 != name);
        assert forall|i: int| 0 <= i < d.len() implies #[trigger] d[i].0 != name by {
            assert(d[i] == h[i]);
        }
        lemma_lookup_absent(d, name);
    }
}

proof fn lemma_request_line_round_trip(m: HttpRequestMethod, path: Seq<u8>)
    requires
        is_path(path),
    ensures
        request_line(request_line_text(m, path)) == Ok::<(HttpRequestMethod, Seq<u8>), HttpError>((m, path)),
{
    reveal_strlit("GET");
    reveal_strlit("POST");
    reveal_strlit("get");
    reveal_strlit("post");
    reveal_strlit(" ");
    reveal_strlit(" HTTP/1.1\r\n");
    reveal_strlit("\r\n");
    let mt = method_text(m);
    let x = mt + text(" ") + path + text(" HTTP/1.1");
    reveal_strlit(" HTTP/1.1");
    assert(request_line_text(m, path) =~= x + text("\r\n"));
    lemma_trimmed_line(x);
    let a = mt.len();
    let b = a + 1 + path.len();
    assert(x.subrange(0, a as int) =~= mt);
    assert(x.subrange((a + 1) as int, b as int) =~= path);
    lemma_word_start(x, 0, 0);
    lemma_word_end(x, 0, a as nat);
    lemma_word_start(x, a as nat, (a + 1) as nat);
    assert forall|k: int| a + 1 <= k < b implies !is_word_space(#[trigger] x[k]) by {
        assert(x[k] == path[k - a - 1]);
    }
    lemma_word_end(x, (a + 1) as nat, b as nat);
    assert(eq_ignore_case(text("GET"), text("get")));
    assert(eq_ignore_case(text("POST"), text("post")));
    assert(!eq_ignore_case(text("POST"), text("get")));
}

proof fn lemma_header_line_round_trip(name: Seq<u8>, value: Seq<u8>)
    requires
        is_header(name, value),
    ensures
        header_line(header_line_text(name, value)) == Some((name, value)),
{
    reveal_strlit(": ");
    reveal_strlit("\r\n");
    let x = name + text(": ") + value;
    assert(header_line_text(name, value) =~= x + text("\r\n"));
    lemma_trimmed_line(x);
    let k = name.len();
    assert forall|i: int| 0 <= i < k implies !#[trigger] has_separator_at(x, i) by {
        if i < k - 1 {
            assert(!has_separator_at(name, i));
        }
    }
    lemma_find_separator(x, 0, k);
    assert(x.subrange(0, k as int) =~= name);
    assert(x.subrange(k as int + 2, x.len() as int) =~= value);
}

fn space_at_exec(s: &[u8], i: usize) -> (r: usize)
    ensures
        r == space_at(s@, i as int),
{
    let n = s.len();
    if i < n && (s[i] == 32 || (9 <= s[i] && s[i] <= 13)) {
        1
    } else if i < n && n - i > 1 && s[i] == 0xC2 && (s[i + 1] == 0x85 || s[i + 1] == 0xA0) {
        2
    } else if i < n && n - i > 2 && wide_space(s[i], s[i + 1], s[i + 2]) {
        3
    } else {
        0
    }
}

fn space_before_exec(s: &[u8], j: usize) -> (r: usize)
    ensures
        r == space_before(s@, j as int),
{
    let n = s.len();
    if 1 <= j && j <= n && (s[j - 1] == 32 || (9 <= s[j - 1] && s[j - 1] <= 13)) {
        1
    } else if 2 <= j && j <= n && s[j - 2] == 0xC2 && (s[j - 1] == 0x85 || s[j - 1] == 0xA0) {
        2
    } else if 3 <= j && j <= n && wide_space(s[j - 3], s[j - 2], s[j - 1]) {
        3
    } else {
        0
    }
}

fn wide_space(a: u8, b: u8, c: u8) -> (r: bool)
    ensures
        r == is_wide_space(a, b, c),
{
    (a == 0xE1 && b == 0x9A && c == 0x80) || (a == 0xE2 && b == 0x80 && ((0x80 <= c && c <= 0x8A) || c
        == 0xA8 || c == 0xA9 || c == 0xAF)) || (a == 0xE2 && b == 0x81 && c == 0x9F) || (a == 0xE3 && b
        == 0x80 && c == 0x80)
}

fn trim_bounds(s: &[u8]) -> (r: (usize, usize))
    ensures
        r.0 == trim_start(s@, 0),
        r.1 == trim_end(s@, s@.len() as nat),
        r.0 < r.1 ==> r.1 <= s@.len(),
{
    let n = s.len();
    let mut a: usize = 0;
    let mut k = space_at_exec(s, 0);
    while k > 0
        invariant
            n == s@.len(),
            a <= n,
            k == space_at(s@, a as int),
            a + k <= n,
            trim_start(s@, a as nat) == trim_start(s@, 0),
        decreases s@.len() - a,
    {
        a += k;
        k = space_at_exec(s, a);
    }
    let mut e: usize = s.len();
    let mut k = space_before_exec(s, e);
    while k > 0
        invariant
            e <= s@.len(),
            k == space_before(s@, e as int),
            trim_end(s@, e as nat) == trim_end(s@, s@.len() as nat),
        decreases e,
    {
        e -= k;
        k = space_before_exec(s, e);
    }
    (a, e)
}

/// `trimmed(s)` as a slice of `s`.
fn trim<'a>(s: &'a [u8]) -> (r: &'a [u8])
    ensures
        r@ == trimmed(s@),
{
    let (a, e) = trim_bounds(s);
    if a < e {
        slice_subrange(s, a, e)
    } else {
        let r = slice_subrange(s, 0, 0);
        assert(r@ =~= Seq::<u8>::empty());
        r
    }
}

fn word_start_from(s: &[u8], i: usize) -> (r: usize)
    requires
        i <= s@.len(),
    ensures
        r == word_start(s@, i as nat),
        r <= s@.len(),
{
    let mut j = i;
    while j < s.len() && (s[j] == 32 || s[j] == 9 || s[j] == 10 || s[j] == 12 || s[j] == 13)
        invariant
            i <= j <= s@.len(),
            word_start(s@, j as nat) == word_start(s@, i as nat),
        decreases s@.len() - j,
    {
        j += 1;
    }
    j
}

fn word_end_from(s: &[u8], i: usize) -> (r: usize)
    requires
        i <= s@.len(),
    ensures
        r == word_end(s@, i as nat),
        i <= r <= s@.len(),
{
    let mut j = i;
    while j < s.len() && !(s[j] == 32 || s[j] == 9 || s[j] == 10 || s[j] == 12 || s[j] == 13)
        invariant
            i <= j <= s@.len(),
            word_end(s@, j as nat) == word_end(s@, i as nat),
        decreases s@.len() - j,
    {
        j += 1;
    }
    j
}

fn same_ignoring_case(a: &[u8], b: &[u8]) -> (r: bool)
    ensures
        r == eq_ignore_case(a@, b@),
{
    if a.len() != b.len() {
        return false;
    }
    let mut i: usize = 0;
    while i < a.len()
        invariant
            a@.len() == b@.len(),
            i <= a@.len(),
            forall|j: int| 0 <= j < i ==> to_lower(#[trigger] a@[j]) == to_lower(b@[j]),
        decreases a@.len() - i,
    {
        let x = if 65 <= a[i] && a[i] <= 90 { a[i] + 32 } else { a[i] };
        let y = if 65 <= b[i] && b[i] <= 90 { b[i] + 32 } else { b[i] };
        if x != y {
            return false;
        }
        i += 1;
    }
    true
}

fn same_bytes(a: &[u8], b: &[u8]) -> (r: bool)
    ensures
        r == (a@ == b@),
{
    if a.len() != b.len() {
        return false;
    }
    let mut i: usize = 0;
    while i < a.len()
        invariant
            a@.len() == b@.len(),
            i <= a@.len(),
            forall|j: int| 0 <= j < i ==> a@[j] == b@[j],
        decreases a@.len() - i,
    {
        if a[i] != b[i] {
            return false;
        }
        i += 1;
    }
    assert(a@ =~= b@);
    true
}

fn method_of(w: &[u8]) -> (r: Option<HttpRequestMethod>)
    ensures
        r == method_named(w@),
{
    proof {
        reveal_strlit("get");
        reveal_strlit("post");
    }
    if same_ignoring_case(w, literal("get").as_slice()) {
        Some(HttpRequestMethod::Get)
    } else if same_ignoring_case(w, literal("post").as_slice()) {
        Some(HttpRequestMethod::Post)
    } else {
        None
    }
}

/// Reads a request line into a request with no headers yet.
pub fn read_http_request(line: &[u8]) -> (r: Result<HttpRequest, HttpError>)
    ensures
        match request_line(line@) {
            Ok((m, p)) => r matches Ok(q) && q@ == (RequestView { method: m, path: p, headers: Seq::empty() }),
            Err(e) => r == Err::<HttpRequest, HttpError>(e),
        },
{
    let s = trim(line);
    let a = word_start_from(s, 0);
    if a >= s.len() {
        return Err(HttpError::MalformedRequest);
    }
    let b = word_end_from(s, a);
    let method = match method_of(slice_subrange(s, a, b)) {
        Some(m) => m,
        None => return Err(HttpError::UnsupportedMethod),
    };
    let c = word_start_from(s, b);
    if c >= s.len() {
        return Err(HttpError::MissingPath);
    }
    let d = word_end_from(s, c);
    let path = slice_to_vec(slice_subrange(s, c, d));
    let q = HttpRequest { method, path, headers: Vec::new() };
    assert(q@.headers =~= Seq::empty());
    Ok(q)
}

fn find_separator_from(t: &[u8]) -> (r: Option<usize>)
    ensures
        r is Some ==> find_separator(t@, 0) == Some(r->0 as nat),
        r is Some ==> r->0 + 2 <= t@.len(),
        r is None ==> find_separator(t@, 0) is None,
{
    if t.len() < 2 {
        return None;
    }
    let mut i: usize = 0;
    while i < t.len() - 1
        invariant
            t@.len() >= 2,
            find_separator(t@, i as nat) == find_separator(t@, 0),
        decreases t@.len() - i,
    {
        if t[i] == 58 && t[i + 1] == 32 {
            return Some(i);
        }
        i += 1;
    }
    None
}

/// Splits a header line into name and value; `None` ends the head.
pub fn parse_header_line(line: &[u8]) -> (r: Option<(Vec<u8>, Vec<u8>)>)
    ensures
        r is Some <==> header_line(line@) is Some,
        r matches Some((k, v)) ==> header_line(line@) == Some((k@, v@)),
{
    let t = trim(line);
    let found = find_separator_from(t);
    match found {
        Some(i) => {
            let n = t.len();
            assert(i + 2 <= n);
            let name = slice_to_vec(slice_subrange(t, 0, i));
            let value = slice_to_vec(slice_subrange(t, i + 2, n));
            Some((name, value))
        },
        None => None,
    }
}

impl HttpRequest {
    /// Takes the next line of the head. Returns whether it was a header;
    /// `false` means the head is over and the request is unchanged.
    pub fn read_header_line(&mut self, line: &[u8]) -> (more: bool)
        ensures
            match header_line(line@) {
                Some(h) => more && final(self)@ == (RequestView { headers: old(self)@.headers.push(h), ..old(self)@ }),
                None => !more && final(self)@ == old(self)@,
            },
    {
        match parse_header_line(line) {
            Some(h) => {
                let ghost hv = (h.0@, h.1@);
                self.headers.push(h);
                assert(header_lines_view(self.headers@) =~= header_lines_view(old(self).headers@).push(hv));
                true
            },
            None => false,
        }
    }

    /// The value of header `name`, the last one received if repeated.
    pub fn header(&self, name: &[u8]) -> (r: Option<&Vec<u8>>)
        ensures
            match lookup(self@.headers, name@) {
                Some(v) => r matches Some(x) && x@ == v,
                None => r is None,
            },
    {
        let mut i: usize = self.headers.len();
        assert(self@.headers.subrange(0, i as int) =~= self@.headers);
        while i > 0
            invariant
                i <= self.headers@.len(),
                lookup(self@.headers, name@) == lookup(self@.headers.subrange(0, i as int), name@),
            decreases i,
        {
            proof {
                let h = self@.headers.subrange(0, i as int);
                assert(h.drop_last() =~= self@.headers.subrange(0, i - 1));
            }
            if same_bytes(self.headers[i - 1].0.as_slice(), name) {
                return Some(&self.headers[i - 1].1);
            }
            i -= 1;
        }
        None
    }
}

} // verus!
