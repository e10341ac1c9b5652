//! The fixed route table, its handlers, and the plan for file uploads.
use vstd::prelude::*;
use vstd::slice::{slice_subrange, slice_to_vec};
use crate::error::HttpError;
use crate::request::{HttpRequest, HttpRequestMethod, RequestView, lookup};
use crate::response::{
    BuilderView, HttpResponse, HttpResponseBuilder, ResponseView, content_length_name, content_type_name,
    error, finalize, headers_wire, lemma_content_type_is_not_length, status_text, wire,
};
use crate::text::{decimal, lemma_decimal_parses, literal, parse_length, parse_usize, text, utf8_text};

verus! {

/// Settings shared by every connection, fixed before the first one is
/// accepted: the directory that file routes serve, if any.
pub struct Data {
    directory: Option<String>,
}

impl View for Data {
    type V = Option<Seq<char>>;

    closed spec fn view(&self) -> Option<Seq<char>> {
        match &self.directory {
            Some(d) => Some(d@),
            None => None,
        }
    }
}

impl Data {
    pub fn new() -> (r: Data)
        ensures
            r@ is None,
    {
        Data { directory: None }
    }

    /// Offers a served directory; the first one offered is kept.
    pub fn insert(&mut self, directory: String)
        ensures
            old(self)@ is None ==> final(self)@ == Some(directory@),
            old(self)@ is Some ==> final(self)@ == old(self)@,
    {
        if self.directory.is_none() {
            self.directory = Some(directory);
        }
    }

    /// The served directory.
    pub fn get(&self) -> (r: Option<&String>)
        ensures
            match self@ {
                Some(d) => r matches Some(x) && x@ == d,
                None => r is None,
            },
    {
        match &self.directory {
            Some(d) => Some(d),
            None => None,
        }
    }
}

pub enum HandlerView {
    Empty,
    Echo,
    UserAgent,
    Files(Seq<char>),
    NotFound,
}

/// The handler picked for a path.
pub enum Handler {
    /// `/`: 200 with an empty plain-text body.
    Empty,
    /// `/echo/<suffix>`: the suffix as the body.
    Echo,
    /// `/user-agent`: the `User-Agent` header as the body.
    UserAgent,
    /// `/files/<name>`: read or write a file under the served directory.
    Files { directory: String },
    /// Anything else.
    NotFound,
}

impl View for Handler {
    type V = HandlerView;

    open spec fn view(&self) -> HandlerView {
        match self {
            Handler::Empty => HandlerView::Empty,
            Handler::Echo => HandlerView::Echo,
            Handler::UserAgent => HandlerView::UserAgent,
            Handler::Files { directory } => HandlerView::Files(directory@),
            Handler::NotFound => HandlerView::NotFound,
        }
    }
}

/// The route table, first match wins.
pub open spec fn dispatch_spec(path: Seq<u8>, directory: Option<Seq<char>>) -> Result<HandlerView, HttpError> {
    if path == text("/") {
        Ok(HandlerView::Empty)
    } else if path == text("/user-agent") {
        Ok(HandlerView::UserAgent)
    } else if text("/echo/").is_prefix_of(path) {
        Ok(HandlerView::Echo)
    } else if text("/files/").is_prefix_of(path) {
        match directory {
            Some(d) => Ok(HandlerView::Files(d)),
            None => Err(HttpError::NoDirectoryConfigured),
        }
    } else {
        Ok(HandlerView::NotFound)
    }
}

fn equals_literal(a: &[u8], b: &[u8]) -> (r: bool)
    ensures
        r == (a@ == b@),
{
    if a.len() != b.len() {
        return false;
    }
    let r = starts_with(a, b);
    assert(r ==> a@ =~= b@.subrange(0, a@.len() as int));
    assert(b@.subrange(0, a@.len() as int) =~= b@);
    r
}

fn starts_with(a: &[u8], p: &[u8]) -> (r: bool)
    ensures
        r == p@.is_prefix_of(a@),
{
    if p.len() > a.len() {
        return false;
    }
    let mut i: usize = 0;
    while i < p.len()
        invariant
            p@.len() <= a@.len(),
            i <= p@.len(),
            forall|j: int| 0 <= j < i ==> p@[j] == a@[j],
        decreases p@.len() - i,
    {
        if a[i] != p[i] {
            return false;
        }
        i += 1;
    }
    assert(p@ =~= a@.subrange(0, p@.len() as int));
    true
}

/// Picks the handler for `path`. Touches neither disk nor network.
pub fn dispatch(path: &[u8], data: &Data) -> (r: Result<Handler, HttpError>)
    ensures
        match dispatch_spec(path@, data@) {
            Ok(h) => r matches Ok(x) && x@ == h,
            Err(e) => r == Err::<Handler, HttpError>(e),
        },
{
    proof {
        reveal_strlit("/");
        reveal_strlit("/user-agent");
        reveal_strlit("/echo/");
        reveal_strlit("/files/");
    }
    let r = if equals_literal(path, literal("/").as_slice()) {
        Ok(Handler::Empty)
    } else if equals_literal(path, literal("/user-agent").as_slice()) {
        Ok(Handler::UserAgent)
    } else if starts_with(path, literal("/echo/").as_slice()) {
        Ok(Handler::Echo)
    } else if starts_with(path, literal("/files/").as_slice()) {
        match data.get() {
            Some(d) => Ok(Handler::Files { directory: d.clone() }),
            None => Err(HttpError::NoDirectoryConfigured),
        }
    } else {
        Ok(Handler::NotFound)
    };
    assert(text("/").is_prefix_of(text("/")));
    r
}

/// Bytes read from, or written to, the connection at a time during an
/// upload.
pub const BUFFER_SIZE: usize = 4096;

pub enum ActionView {
    Send(ResponseView),
    ReadFile { directory: Seq<char>, name: Seq<char> },
    WriteFile { directory: Seq<char>, name: Seq<char>, length: nat },
}

/// What serving a request comes to.
pub enum Action {
    /// Send this response.
    Send(HttpResponse),
    /// Read file `name` under `directory` whole, and answer with
    /// `file_response` of its contents; any failure is `NotFound`.
    ReadFile { directory: String, name: String },
    /// Create or truncate file `name` under `directory`, copy exactly
    /// `length` body bytes from the connection into it as `Upload` plans,
    /// and answer with `post_response`.
    WriteFile { directory: String, name: String, length: usize },
}

impl View for Action {
    type V = ActionView;

    open spec fn view(&self) -> ActionView {
        match self {
            Action::Send(r) => ActionView::Send(r@),
            Action::ReadFile { directory, name } => ActionView::ReadFile { directory: directory@, name: name@ },
            Action::WriteFile { directory, name, length } => ActionView::WriteFile {
                directory: directory@,
                name: name@,
                length: *length as nat,
            },
        }
    }
}

/// A 200 response with `Content-Type` set and the given body.
pub open spec fn typed_response(content_type: Seq<u8>, body: Seq<u8>) -> ResponseView {
    finalize(BuilderView { status: None, headers: seq![(content_type_name(), content_type)], body: Some(body) })
}

/// A response with no headers of its own beyond `Content-Length`.
pub open spec fn plain_response(status: Option<u32>, body: Option<Seq<u8>>) -> ResponseView {
    finalize(BuilderView { status, headers: Seq::empty(), body })
}

/// The file name a `/files/` path names.
pub open spec fn file_name(path: Seq<u8>) -> Seq<u8> {
    path.subrange(7, path.len() as int)
}

/// What a handler makes of a request.
pub open spec fn respond_spec(h: HandlerView, q: RequestView) -> Result<ActionView, HttpError> {
    match h {
        HandlerView::Empty => Ok(ActionView::Send(typed_response(text("text/plain"), Seq::empty()))),
        HandlerView::NotFound => Err(HttpError::NotFound),
        HandlerView::Echo => if q.path.len() >= 6 {
            Ok(ActionView::Send(typed_response(text("text/plain"), q.path.subrange(6, q.path.len() as int))))
        } else {
            Err(HttpError::InvalidPath)
        },
        HandlerView::UserAgent => Ok(ActionView::Send(plain_response(None, Some(
            match lookup(q.headers, text("User-Agent")) {
                Some(v) => v,
                None => Seq::empty(),
            },
        )))),
        HandlerView::Files(d) => if q.path.len() < 7 || !vstd::utf8::valid_utf8(file_name(q.path)) {
            Err(HttpError::InvalidPath)
        } else {
            let name = vstd::utf8::decode_utf8(file_name(q.path));
            match q.method {
                HttpRequestMethod::Get => Ok(ActionView::ReadFile { directory: d, name }),
                HttpRequestMethod::Post => match lookup(q.headers, text("Content-Length")) {
                    None => Err(HttpError::MissingContentLength),
                    Some(v) => match parse_length(v) {
                        None => Err(HttpError::InvalidContentLength),
                        Some(n) => Ok(ActionView::WriteFile { directory: d, name, length: n }),
                    },
                },
            }
        },
    }
}

/// Serving a request end to end, short of any file access.
pub open spec fn route_spec(q: RequestView, directory: Option<Seq<char>>) -> Result<ActionView, HttpError> {
    match dispatch_spec(q.path, directory) {
        Ok(h) => respond_spec(h, q),
        Err(e) => Err(e),
    }
}

fn file_action(directory: &String, request: &HttpRequest) -> (r: Result<Action, HttpError>)
    ensures
        match respond_spec(HandlerView::Files(directory@), request@) {
            Ok(a) => r matches Ok(x) && x@ == a,
            Err(e) => r == Err::<Action, HttpError>(e),
        },
{
    if request.path.len() < 7 {
        return Err(HttpError::InvalidPath);
    }
    let rest = slice_subrange(request.path.as_slice(), 7, request.path.len());
    let name = match utf8_text(rest) {
        Some(t) => t.to_owned(),
        None => return Err(HttpError::InvalidPath),
    };
    match request.method {
        HttpRequestMethod::Get => Ok(Action::ReadFile { directory: directory.clone(), name }),
        HttpRequestMethod::Post => {
            proof {
                reveal_strlit("Content-Length");
            }
            match request.header(literal("Content-Length").as_slice()) {
                None => Err(HttpError::MissingContentLength),
                Some(v) => match parse_usize(v.as_slice()) {
                    None => Err(HttpError::InvalidContentLength),
                    Some(length) => Ok(Action::WriteFile { directory: directory.clone(), name, length }),
                },
            }
        },
    }
}

impl Handler {
    /// Runs the handler on a request; file contents and uploads are left
    /// to the caller as an `Action`.
    pub fn respond(&self, request: &HttpRequest) -> (r: Result<Action, HttpError>)
        ensures
            match respond_spec(self@, request@) {
                Ok(a) => r matches Ok(x) && x@ == a,
                Err(e) => r == Err::<Action, HttpError>(e),
            },
    {
        match self {
            Handler::Empty => {
                proof {
                    reveal_strlit("Content-Type");
                    reveal_strlit("text/plain");
                    lemma_content_type_is_not_length();
                }
                let r = HttpResponseBuilder::new().header(literal("Content-Type"), literal("text/plain")).body(
                    Vec::new(),
                ).into_http_response();
                Ok(Action::Send(r))
            },
            Handler::NotFound => Err(HttpError::NotFound),
            Handler::Echo => {
                if request.path.len() >= 6 {
                    let body = slice_to_vec(slice_subrange(request.path.as_slice(), 6, request.path.len()));
                    proof {
                        reveal_strlit("Content-Type");
                        reveal_strlit("text/plain");
                        lemma_content_type_is_not_length();
                    }
                    let r = HttpResponseBuilder::new().header(literal("Content-Type"), literal("text/plain")).body(
                        body,
                    ).into_http_response();
                    Ok(Action::Send(r))
                } else {
                    Err(HttpError::InvalidPath)
                }
            },
            Handler::UserAgent => {
                proof {
                    reveal_strlit("User-Agent");
                }
                let body = match request.header(literal("User-Agent").as_slice()) {
                    Some(v) => v.clone(),
                    None => Vec::new(),
                };
                Ok(Action::Send(HttpResponseBuilder::new().body(body).into_http_response()))
            },
            Handler::Files { directory } => file_action(directory, request),
        }
    }
}

/// Serves a request: picks its handler and runs it.
pub fn route(request: &HttpRequest, data: &Data) -> (r: Result<Action, HttpError>)
    ensures
        match route_spec(request@, data@) {
            Ok(a) => r matches Ok(x) && x@ == a,
            Err(e) => r == Err::<Action, HttpError>(e),
        },
{
    let handler = dispatch(request.path.as_slice(), data)?;
    handler.respond(request)
}

/// The answer to a file read: its contents, as an octet stream.
pub fn get_response(data: Vec<u8>) -> (r: HttpResponse)
    ensures
        r@ == typed_response(text("application/octet-stream"), data@),
{
    proof {
        reveal_strlit("Content-Type");
        lemma_content_type_is_not_length();
        reveal_strlit("application/octet-stream");
    }
    HttpResponseBuilder::new().header(literal("Content-Type"), literal("application/octet-stream")).body(
        data,
    ).into_http_response()
}

/// The answer to a completed upload: 201 with an empty body.
pub fn post_response() -> (r: HttpResponse)
    ensures
        r@ == plain_response(Some(201), None),
{
    HttpResponseBuilder::new().status(201).into_http_response()
}

/// An `/echo/` path is answered with 200 and exactly its suffix as the
/// body, typed as plain text, with `Content-Length` the suffix's length.
pub proof fn lemma_echo(q: RequestView, directory: Option<Seq<char>>, suffix: Seq<u8>)
    requires
        q.path == text("/echo/") + suffix,
    ensures
        route_spec(q, directory) == Ok::<ActionView, HttpError>(
            ActionView::Send(typed_response(text("text/plain"), suffix)),
        ),
        typed_response(text("text/plain"), suffix).status == 200,
        typed_response(text("text/plain"), suffix).body == suffix,
        typed_response(text("text/plain"), suffix).headers == seq![
            (content_type_name(), text("text/plain")),
            (content_length_name(), decimal(suffix.len())),
        ],
{
    reveal_strlit("/");
    reveal_strlit("/echo/");
    reveal_strlit("/user-agent");
    assert(q.path[1] != text("/user-agent")[1]);
    assert(text("/").len() == 1);
    assert(q.path.len() != 1);
    assert(text("/echo/").is_prefix_of(q.path));
    assert(q.path.subrange(6, q.path.len() as int) =~= suffix);
    let r = typed_response(text("text/plain"), suffix);
    assert(r.headers =~= seq![
        (content_type_name(), text("text/plain")),
        (content_length_name(), decimal(suffix.len())),
    ]);
}

/// `/user-agent` is answered with 200 and the `User-Agent` header's value
/// as the body; with no such header the body is empty.
pub proof fn lemma_user_agent(q: RequestView, directory: Option<Seq<char>>)
    requires
        q.path == text("/user-agent"),
    ensures
        route_spec(q, directory) matches Ok(ActionView::Send(r)) && r.status == 200 && r.body == (
        match lookup(q.headers, text("User-Agent")) {
            Some(v) => v,
            None => Seq::<u8>::empty(),
        }),
{
    reveal_strlit("/");
    reveal_strlit("/user-agent");
    assert(text("/").len() == 1);
    assert(q.path.len() != 1);
}

/// A GET on `/files/<name>` reads that file from the served directory; its
/// contents C are answered with 200, body exactly C, typed as an octet
/// stream. A file that cannot be read is answered with the 404 `error`.
pub proof fn lemma_file_get(q: RequestView, directory: Seq<char>, name: Seq<u8>, contents: Seq<u8>)
    requires
        q.method == HttpRequestMethod::Get,
        q.path == text("/files/") + name,
        vstd::utf8::valid_utf8(name),
    ensures
        route_spec(q, Some(directory)) == Ok::<ActionView, HttpError>(
            ActionView::ReadFile { directory, name: vstd::utf8::decode_utf8(name) },
        ),
        typed_response(text("application/octet-stream"), contents).status == 200,
        typed_response(text("application/octet-stream"), contents).body == contents,
        typed_response(text("application/octet-stream"), contents).headers[0] == (
            content_type_name(),
            text("application/octet-stream"),
        ),
        plain_response(Some(404), None).status == 404,
        plain_response(Some(404), None).body.len() == 0,
{
    lemma_files_route(q, directory, name);
}

proof fn lemma_files_route(q: RequestView, directory: Seq<char>, name: Seq<u8>)
    requires
        q.path == text("/files/") + name,
    ensures
        dispatch_spec(q.path, Some(directory)) == Ok::<HandlerView, HttpError>(HandlerView::Files(directory)),
        q.path.len() >= 7,
        file_name(q.path) == name,
{
    reveal_strlit("/");
    reveal_strlit("/echo/");
    reveal_strlit("/files/");
    reveal_strlit("/user-agent");
    assert(q.path[1] != text("/user-agent")[1]);
    assert(text("/").len() == 1);
    assert(q.path.len() != 1);
    assert(q.path[1] != text("/echo/")[1]);
    assert(!text("/echo/").is_prefix_of(q.path));
    assert(text("/files/").is_prefix_of(q.path));
    assert(file_name(q.path) =~= name);
}

/// A POST on `/files/<name>` with `Content-Length: L` writes a file of
/// exactly L bytes, copied in chunks that add up to L, and is answered with
/// 201 and an empty body.
pub proof fn lemma_file_post(q: RequestView, directory: Seq<char>, name: Seq<u8>, length: nat)
    requires
        q.method == HttpRequestMethod::Post,
        q.path == text("/files/") + name,
        vstd::utf8::valid_utf8(name),
        lookup(q.headers, text("Content-Length")) == Some(decimal(length)),
        length <= usize::MAX,
    ensures
        route_spec(q, Some(directory)) == Ok::<ActionView, HttpError>(
            ActionView::WriteFile { directory, name: vstd::utf8::decode_utf8(name), length },
        ),
        total(chunk_plan(length)) == length,
        plain_response(Some(201), None).status == 201,
        plain_response(Some(201), None).body.len() == 0,
{
    lemma_files_route(q, directory, name);
    lemma_decimal_parses(length);
    lemma_upload_copies_exactly(length);
}

/// A path outside the route table is refused as `NotFound`, whatever the
/// method, and so answered with the 404 `error`: on the wire, exactly
/// `HTTP/1.1 404 Not Found`, `Content-Length: 0` and an empty body.
pub proof fn lemma_unknown_path(q: RequestView, directory: Option<Seq<char>>)
    requires
        q.path != text("/"),
        q.path != text("/user-agent"),
        !text("/echo/").is_prefix_of(q.path),
        !text("/files/").is_prefix_of(q.path),
    ensures
        route_spec(q, directory) == Err::<ActionView, HttpError>(HttpError::NotFound),
        plain_response(Some(404), None).status == 404,
        plain_response(Some(404), None).body.len() == 0,
        status_text(404) == Some(text("404 Not Found")),
        wire(plain_response(Some(404), None), text("404 Not Found")) == text(
            "HTTP/1.1 404 Not Found\r\nContent-Length: 0\r\n\r\n\r\n",
        ),
{
    reveal_strlit("HTTP/1.1 404 Not Found\r\nContent-Length: 0\r\n\r\n\r\n");
    reveal_strlit("HTTP/1.1 ");
    reveal_strlit("404 Not Found");
    reveal_strlit("\r\n");
    reveal_strlit(": ");
    reveal_strlit("Content-Length");
    let r = plain_response(Some(404), None);
    assert(decimal(0) == seq![48u8]);
    let h = r.headers;
    assert(h.len() == 1);
    assert(h.drop_last() =~= Seq::<(Seq<u8>, Seq<u8>)>::empty());
    assert(headers_wire(h.drop_last()) == Seq::<u8>::empty());
    assert(h.last() == (content_length_name(), decimal(0)));
    assert(headers_wire(h) =~= content_length_name() + text(": ") + seq![48u8] + text("\r\n"));
    assert(wire(r, text("404 Not Found")) =~= text(
        "HTTP/1.1 404 Not Found\r\nContent-Length: 0\r\n\r\n\r\n",
    ));
}

/// What is sent for a request whose head was read: its response, or the
/// 404 `error` for any failure.
pub fn answer(outcome: Result<HttpResponse, HttpError>) -> (r: HttpResponse)
    ensures
        match outcome {
            Ok(x) => r@ == x@,
            Err(_) => r@ == plain_response(Some(404), None),
        },
{
    match outcome {
        Ok(x) => x,
        Err(_) => error(),
    }
}

/// The size of the next chunk of an upload with `remaining` bytes to go.
pub open spec fn chunk_len(remaining: nat) -> nat {
    if remaining < BUFFER_SIZE {
        remaining
    } else {
        BUFFER_SIZE as nat
    }
}

/// The chunk sizes in which an upload of `n` bytes is copied.
pub open spec fn chunk_plan(n: nat) -> Seq<nat>
    decreases n,
{
    if n == 0 {
        Seq::empty()
    } else {
        seq![chunk_len(n)] + chunk_plan((n - chunk_len(n)) as nat)
    }
}

pub open spec fn total(s: Seq<nat>) -> nat
    decreases s.len(),
{
    if s.len() == 0 {
        0
    } else {
        s[0] + total(s.drop_first())
    }
}

/// An upload in progress: how many declared body bytes are still to be
/// copied from the connection to the file.
pub struct Upload {
    remaining: usize,
}

impl View for Upload {
    type V = nat;

    closed spec fn view(&self) -> nat {
        self.remaining as nat
    }
}

impl Upload {
    pub fn new(length: usize) -> (r: Upload)
        ensures
            r@ == length as nat,
    {
        Upload { remaining: length }
    }

    pub fn is_done(&self) -> (r: bool)
        ensures
            r == (self@ == 0),
    {
        self.remaining == 0
    }

    /// How many bytes to read, and then write, next: a full buffer, or
    /// what is left.
    pub fn next_chunk(&self) -> (r: usize)
        ensures
            r as nat == chunk_len(self@),
            self@ > 0 ==> chunk_plan(self@) == seq![r as nat] + chunk_plan((self@ - r) as nat),
    {
        if self.remaining < BUFFER_SIZE {
            self.remaining
        } else {
            BUFFER_SIZE
        }
    }

    /// Records that the chunk `next_chunk` named has been copied.
    pub fn advance(&mut self)
        requires
            old(self)@ > 0,
        ensures
            final(self)@ == old(self)@ - chunk_len(old(self)@),
    {
        if self.remaining < BUFFER_SIZE {
            self.remaining = 0;
        } else {
            self.remaining = self.remaining - BUFFER_SIZE;
        }
    }
}

/// An upload of `n` bytes is copied in chunks of one to `BUFFER_SIZE`
/// bytes that add up to exactly `n`: nothing past the declared length is
/// read or written.
pub proof fn lemma_upload_copies_exactly(n: nat)
    ensures
        total(chunk_plan(n)) == n,
        forall|i: int| 0 <= i < chunk_plan(n).len() ==> 0 < #[trigger] chunk_plan(n)[i] <= BUFFER_SIZE,
    decreases n,
{
    if n > 0 {
        let c = chunk_len(n);
        lemma_upload_copies_exactly((n - c) as nat);
        let p = chunk_plan(n);
        assert(p.drop_first() =~= chunk_plan((n - c) as nat));
        assert forall|i: int| 0 <= i < p.len() implies 0 < #[trigger] p[i] <= BUFFER_SIZE by {
            if i > 0 {
                assert(p[i] == chunk_plan((n - c) as nat)[i - 1]);
            }
        }
    }
}

} // verus!
