//! Responses: staged assembly, and their exact HTTP/1.1 byte layout.
use vstd::prelude::*;
use crate::error::HttpError;
use crate::text::{text, decimal, literal, push_decimal};

verus! {

/// A header line as stored: name and rendered value.
pub type HeaderLine = (Vec<u8>, Vec<u8>);

pub open spec fn header_lines_view(h: Seq<HeaderLine>) -> Seq<(Seq<u8>, Seq<u8>)> {
    h.map_values(|p: HeaderLine| (p.0@, p.1@))
}

pub open spec fn content_length_name() -> Seq<u8> {
    text("Content-Length")
}

pub open spec fn content_type_name() -> Seq<u8> {
    text("Content-Type")
}

pub proof fn lemma_content_type_is_not_length()
    ensures
        content_type_name() != content_length_name(),
{
    reveal_strlit("Content-Type");
    reveal_strlit("Content-Length");
    assert(content_type_name().len() != content_length_name().len());
}

/// A finished response, as the library sees it.
pub struct ResponseView {
    pub status: u32,
    pub headers: Seq<(Seq<u8>, Seq<u8>)>,
    pub body: Seq<u8>,
}

/// A finished response: status code, headers in emission order, body.
pub struct HttpResponse {
    status_code: u32,
    headers: Vec<HeaderLine>,
    body: Vec<u8>,
}

/// `Content-Length` is the last header, gives the body's length, and
/// appears nowhere else.
pub open spec fn length_header_last(r: ResponseView) -> bool {
    &&& r.headers.len() > 0
    &&& r.headers.last() == (content_length_name(), decimal(r.body.len()))
    &&& forall|i: int| 0 <= i < r.headers.len() - 1 ==> #[trigger] r.headers[i].0 != content_length_name()
}

impl View for HttpResponse {
    type V = ResponseView;

    closed spec fn view(&self) -> ResponseView {
        ResponseView {
            status: self.status_code,
            headers: header_lines_view(self.headers@),
            body: self.body@,
        }
    }
}

impl HttpResponse {
    #[verifier::type_invariant]
    spec fn well_formed(&self) -> bool {
        length_header_last(self@)
    }

    pub fn status_code(&self) -> (r: u32)
        ensures
            r == self@.status,
    {
        self.status_code
    }

    /// The headers in emission order. Every response carries exactly one
    /// `Content-Length`, last, equal to its body's length.
    pub fn headers(&self) -> (r: &Vec<HeaderLine>)
        ensures
            header_lines_view(r@) == self@.headers,
            length_header_last(self@),
    {
        proof {
            use_type_invariant(self);
        }
        &self.headers
    }

    pub fn body_bytes(&self) -> (r: &Vec<u8>)
        ensures
            r@ == self@.body,
    {
        &self.body
    }
}

/// A response under assembly: each of status and body is set at most once,
/// headers are appended in order.
pub struct BuilderView {
    pub status: Option<u32>,
    pub headers: Seq<(Seq<u8>, Seq<u8>)>,
    pub body: Option<Seq<u8>>,
}

pub struct HttpResponseBuilder {
    status_code: Option<u32>,
    headers: Vec<HeaderLine>,
    body: Option<Vec<u8>>,
}

impl HttpResponseBuilder {
    /// `Content-Length` is never among the headers added so far.
    #[verifier::type_invariant]
    spec fn no_length_header(&self) -> bool {
        forall|i: int| 0 <= i < self.headers@.len() ==> #[trigger] self.headers@[i].0@ != content_length_name()
    }
}

impl View for HttpResponseBuilder {
    type V = BuilderView;

    closed spec fn view(&self) -> BuilderView {
        BuilderView {
            status: self.status_code,
            headers: header_lines_view(self.headers@),
            body: match self.body {
                Some(b) => Some(b@),
                None => None,
            },
        }
    }
}

/// The response a builder yields: status 200 and an empty body unless set,
/// and `Content-Length` appended last with the body's length.
pub open spec fn finalize(b: BuilderView) -> ResponseView {
    let body = match b.body {
        Some(x) => x,
        None => Seq::empty(),
    };
    ResponseView {
        status: match b.status {
            Some(s) => s,
            None => 200,
        },
        headers: b.headers.push((content_length_name(), decimal(body.len()))),
        body,
    }
}

impl HttpResponseBuilder {
    pub fn new() -> (r: Self)
        ensures
            r@ == (BuilderView { status: None, headers: Seq::empty(), body: None }),
    {
        let r = HttpResponseBuilder { status_code: None, headers: Vec::new(), body: None };
        assert(r@.headers =~= Seq::empty());
        r
    }

    pub fn status(self, status_code: u32) -> (r: Self)
        requires
            self@.status is None,
        ensures
            r@ == (BuilderView { status: Some(status_code), ..self@ }),
    {
        proof {
            use_type_invariant(&self);
        }
        HttpResponseBuilder { status_code: Some(status_code), headers: self.headers, body: self.body }
    }

    /// Appends a header. `Content-Length` is the builder's own to set.
    pub fn header(self, key: Vec<u8>, val: Vec<u8>) -> (r: Self)
        requires
            key@ != content_length_name(),
        ensures
            r@ == (BuilderView { headers: self@.headers.push((key@, val@)), ..self@ }),
    {
        proof {
            use_type_invariant(&self);
        }
        let mut headers = self.headers;
        let ghost key_view = key@;
        let ghost val_view = val@;
        headers.push((key, val));
        let r = HttpResponseBuilder { status_code: self.status_code, headers, body: self.body };
        assert(header_lines_view(r.headers@) =~= header_lines_view(self.headers@).push((key_view, val_view)));
        r
    }

    pub fn body(self, body: Vec<u8>) -> (r: Self)
        requires
            self@.body is None,
        ensures
            r@ == (BuilderView { body: Some(body@), ..self@ }),
    {
        proof {
            use_type_invariant(&self);
        }
        HttpResponseBuilder { status_code: self.status_code, headers: self.headers, body: Some(body) }
    }

    /// Finishes the response, appending `Content-Length` last.
    pub fn into_http_response(self) -> (r: HttpResponse)
        ensures
            r@ == finalize(self@),
            length_header_last(r@),
    {
        proof {
            use_type_invariant(&self);
        }
        let ghost before = self@;
        let mut headers = self.headers;
        let body = match self.body {
            Some(b) => b,
            None => Vec::new(),
        };
        let mut length: Vec<u8> = Vec::new();
        push_decimal(&mut length, body.len());
        assert(length@ =~= decimal(body@.len()));
        proof {
            reveal_strlit("Content-Length");
        }
        let name = literal("Content-Length");
        headers.push((name, length));
        assert(header_lines_view(headers@) =~= finalize(before).headers);
        let r = HttpResponse {
            status_code: match self.status_code {
                Some(s) => s,
                None => 200,
            },
            headers,
            body,
        };
        r
    }
}

/// The response sent for any request that failed after its head was read:
/// 404 with an empty body.
pub fn error() -> (r: HttpResponse)
    ensures
        r@ == finalize(BuilderView { status: Some(404), headers: Seq::empty(), body: None }),
{
    HttpResponseBuilder::new().status(404).into_http_response()
}

/// A builder finalized without a status answers 200; without a body, it
/// sends an empty one with `Content-Length: 0`. A header added twice under
/// one name is sent twice, in the order added, ahead of `Content-Length`.
pub proof fn lemma_builder_defaults(b: BuilderView, key: Seq<u8>, first: Seq<u8>, second: Seq<u8>)
    ensures
        b.status is None ==> finalize(b).status == 200,
        b.body is None ==> finalize(b).body == Seq::<u8>::empty(),
        b.body is None ==> finalize(b).headers.last() == (content_length_name(), text("0")),
        ({
            let h = finalize(BuilderView { headers: b.headers.push((key, first)).push((key, second)), ..b }).headers;
            &&& h.len() == b.headers.len() + 3
            &&& h.subrange(0, b.headers.len() as int) == b.headers
            &&& h[b.headers.len() as int] == (key, first)
            &&& h[b.headers.len() as int + 1] == (key, second)
            &&& h.last().0 == content_length_name()
        }),
{
    reveal_strlit("0");
    assert(decimal(0) =~= text("0"));
    let h = finalize(BuilderView { headers: b.headers.push((key, first)).push((key, second)), ..b }).headers;
    assert(h.subrange(0, b.headers.len() as int) =~= b.headers);
}

/// The status line's code and reason for the codes a response may carry.
pub open spec fn status_text(code: u32) -> Option<Seq<u8>> {
    if code == 200 {
        Some(text("200 OK"))
    } else if code == 201 {
        Some(text("201 OK"))
    } else if code == 404 {
        Some(text("404 Not Found"))
    } else {
        None
    }
}

/// Each header as `name: value\r\n`, in order.
pub open spec fn headers_wire(h: Seq<(Seq<u8>, Seq<u8>)>) -> Seq<u8>
    decreases h.len(),
{
    if h.len() == 0 {
        Seq::empty()
    } else {
        headers_wire(h.drop_last()) + h.last().0 + text(": ") + h.last().1 + text("\r\n")
    }
}

/// The exact bytes of a response on the wire, given its status text.
pub open spec fn wire(r: ResponseView, status: Seq<u8>) -> Seq<u8> {
    text("HTTP/1.1 ") + status + text("\r\n") + headers_wire(r.headers) + text("\r\n") + r.body
        + text("\r\n")
}

/// The status line's code and reason, or `None` for a code with no entry.
pub fn as_msg(code: u32) -> (r: Option<Vec<u8>>)
    ensures
        r is Some <==> status_text(code) is Some,
        r matches Some(m) ==> status_text(code) == Some(m@),
{
    proof {
        reveal_strlit("200 OK");
        reveal_strlit("201 OK");
        reveal_strlit("404 Not Found");
    }
    if code == 200 {
        Some(literal("200 OK"))
    } else if code == 201 {
        Some(literal("201 OK"))
    } else if code == 404 {
        Some(literal("404 Not Found"))
    } else {
        None
    }
}

fn push_all(out: &mut Vec<u8>, b: &[u8])
    ensures
        final(out)@ == old(out)@ + b@,
{
    let mut i: usize = 0;
    while i < b.len()
        invariant
            i <= b@.len(),
            out@ == old(out)@ + b@.subrange(0, i as int),
        decreases b@.len() - i,
    {
        out.push(b[i]);
        i += 1;
        assert(out@ =~= old(out)@ + b@.subrange(0, i as int));
    }
    assert(b@.subrange(0, i as int) =~= b@);
}

impl HttpResponse {
    /// A 200 response with the given body and only `Content-Length`.
    pub fn body(body: Vec<u8>) -> (r: HttpResponse)
        ensures
            r@ == finalize(BuilderView { status: None, headers: Seq::empty(), body: Some(body@) }),
    {
        HttpResponseBuilder::new().body(body).into_http_response()
    }

    /// Appends the response's wire form to `writer`. A status code with no
    /// reason phrase is refused and nothing is written.
    pub fn write_to_writer(&self, writer: &mut Vec<u8>) -> (r: Result<(), HttpError>)
        ensures
            status_text(self@.status) is None ==> r == Err::<(), HttpError>(HttpError::UnknownStatus)
                && final(writer)@ == old(writer)@,
            status_text(self@.status) matches Some(m) ==> r is Ok
                && final(writer)@ == old(writer)@ + wire(self@, m),
    {
        let msg = match as_msg(self.status_code) {
            Some(m) => m,
            None => return Err(HttpError::UnknownStatus),
        };
        proof {
            reveal_strlit("HTTP/1.1 ");
            reveal_strlit("\r\n");
            reveal_strlit(": ");
        }
        let crlf = literal("\r\n");
        let sep = literal(": ");
        push_all(writer, literal("HTTP/1.1 ").as_slice());
        push_all(writer, msg.as_slice());
        push_all(writer, crlf.as_slice());
        let ghost start = writer@;
        let mut i: usize = 0;
        while i < self.headers.len()
            invariant
                i <= self.headers@.len(),
                crlf@ == text("\r\n"),
                sep@ == text(": "),
                writer@ == start + headers_wire(self@.headers.subrange(0, i as int)),
            decreases self.headers@.len() - i,
        {
            let (key, value) = &self.headers[i];
            push_all(writer, key.as_slice());
            push_all(writer, sep.as_slice());
            push_all(writer, value.as_slice());
            push_all(writer, crlf.as_slice());
            proof {
                let h = self@.headers.subrange(0, i as int + 1);
                assert(h.drop_last() =~= self@.headers.subrange(0, i as int));
            }
            i += 1;
        }
        assert(self@.headers.subrange(0, i as int) =~= self@.headers);
        push_all(writer, crlf.as_slice());
        push_all(writer, self.body.as_slice());
        push_all(writer, crlf.as_slice());
        assert(writer@ =~= old(writer)@ + wire(self@, msg@));
        Ok(())
    }
}

} // verus!
