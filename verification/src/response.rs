//! HTTP/1.1 responses: fixed and chunked, byte for byte.
//!
//! A writer holds the bytes that are to go out next. Whoever owns the connection takes
//! them with `flush` and sends them.

use vstd::prelude::*;

use crate::json;
use crate::json::{object_doc, print_doc, text_doc, Doc};
use crate::number;
use crate::number::{write_decimal, write_number};

verus! {

/// A reply with a JSON body.
pub struct Reply {
    pub status: u16,
    pub body: Doc,
}

/// What a reply denotes.
pub struct ReplyView {
    pub status: u16,
    pub body: json::JsonView,
}

impl View for Reply {
    type V = ReplyView;

    open spec fn view(&self) -> ReplyView {
        ReplyView { status: self.status, body: self.body.tree() }
    }
}

/// The body of an error reply.
pub open spec fn error_body(message: Seq<char>) -> json::JsonView {
    json::object(seq![("error"@, json::JsonView::Str(message))])
}

/// The reply that reports an error.
pub open spec fn error_view(status: u16, message: Seq<char>) -> ReplyView {
    ReplyView { status, body: error_body(message) }
}

/// The reply with status 200 and an object as its body.
pub open spec fn ok_view(members: Seq<(Seq<char>, json::JsonView)>) -> ReplyView {
    ReplyView { status: 200, body: json::object(members) }
}

/// A reply that reports an error.
pub fn error_reply(status: u16, message: &str) -> (r: Reply)
    ensures
        r@ == error_view(status, message@),
{
    let mut members: Vec<(&'static str, Doc)> = Vec::new();
    members.push(("error", text_doc(message)));
    assert(json::doc_members(members@) =~= seq![("error"@, json::JsonView::Str(message@))]);
    Reply { status, body: object_doc(members) }
}

/// A reply with an object as its body.
pub fn object_reply(status: u16, members: Vec<(&'static str, Doc)>) -> (r: Reply)
    ensures
        r@ == (ReplyView { status, body: json::object(json::doc_members(members@)) }),
{
    Reply { status, body: object_doc(members) }
}

/// The words that go with a status code.
pub open spec fn status_words(code: u16) -> Seq<char> {
    if code == 200 {
        "OK"@
    } else if code == 400 {
        "Bad Request"@
    } else if code == 403 {
        "Forbidden"@
    } else if code == 404 {
        "Not Found"@
    } else if code == 405 {
        "Method Not Allowed"@
    } else if code == 408 {
        "Request Timeout"@
    } else if code == 409 {
        "Conflict"@
    } else if code == 411 {
        "Length Required"@
    } else if code == 500 {
        "Internal Server Error"@
    } else if code == 503 {
        "Service Unavailable"@
    } else if code == 505 {
        "HTTP Version Not Supported"@
    } else {
        "Unknown"@
    }
}

/// The words that go with a status code.
pub fn status_text(code: u16) -> (r: &'static str)
    ensures
        r@ == status_words(code),
{
    match code {
        200 => "OK",
        400 => "Bad Request",
        403 => "Forbidden",
        404 => "Not Found",
        405 => "Method Not Allowed",
        408 => "Request Timeout",
        409 => "Conflict",
        411 => "Length Required",
        500 => "Internal Server Error",
        503 => "Service Unavailable",
        505 => "HTTP Version Not Supported",
        _ => "Unknown",
    }
}

/// The head of a response. Without a length the body comes in chunks.
pub open spec fn head_text(
    status: u16,
    content_type: Seq<char>,
    keep_alive: bool,
    length: Option<u64>,
) -> Seq<char> {
    "HTTP/1.1 "@ + number::decimal(status as nat) + " "@ + status_words(status)
        + "\r\nContent-Type: "@ + content_type + "\r\nConnection: "@ + (if keep_alive {
        "keep-alive"@
    } else {
        "close"@
    }) + (match length {
        Some(n) => "\r\nContent-Length: "@ + number::decimal(n as nat) + "\r\n\r\n"@,
        None => "\r\nTransfer-Encoding: chunked\r\nX-Accel-Buffering: no\r\n\r\n"@,
    })
}

/// The head of a response as it goes over the wire.
pub open spec fn head_bytes(
    status: u16,
    content_type: Seq<char>,
    keep_alive: bool,
    length: Option<u64>,
) -> Seq<u8> {
    vstd::utf8::encode_utf8(head_text(status, content_type, keep_alive, length))
}

/// A response of known size as it goes over the wire.
pub open spec fn fixed_bytes(
    status: u16,
    content_type: Seq<char>,
    keep_alive: bool,
    body: Seq<u8>,
) -> Seq<u8> {
    head_bytes(status, content_type, keep_alive, Some(body.len() as u64)) + body
}

/// A reply as it goes over the wire.
pub open spec fn reply_bytes(reply: ReplyView, keep_alive: bool) -> Seq<u8> {
    fixed_bytes(
        reply.status,
        "application/json"@,
        keep_alive,
        vstd::utf8::encode_utf8(json::json_text(reply.body)),
    )
}

/// One chunk of a streamed body as it goes over the wire. No data makes no chunk: an
/// empty one would end the body.
pub open spec fn chunk_bytes(data: Seq<u8>) -> Seq<u8> {
    if data.len() == 0 {
        Seq::empty()
    } else {
        vstd::utf8::encode_utf8(number::numeral(data.len(), 16) + "\r\n"@) + data
            + vstd::utf8::encode_utf8("\r\n"@)
    }
}

/// Makes the head of a response.
fn response_head(status: u16, content_type: &str, keep_alive: bool, length: Option<u64>) -> (r: String)
    ensures
        r@ == head_text(status, content_type@, keep_alive, length),
{
    let mut r: String = "HTTP/1.1 ".to_owned();
    r.append(write_decimal(status as u64).as_str());
    r.append(" ");
    r.append(status_text(status));
    r.append("\r\nContent-Type: ");
    r.append(content_type);
    r.append("\r\nConnection: ");
    r.append(
        if keep_alive {
            "keep-alive"
        } else {
            "close"
        },
    );
    match length {
        Some(n) => {
            let mut tail: String = "\r\nContent-Length: ".to_owned();
            tail.append(write_decimal(n).as_str());
            tail.append("\r\n\r\n");
            r.append(tail.as_str());
        },
        None => {
            r.append("\r\nTransfer-Encoding: chunked\r\nX-Accel-Buffering: no\r\n\r\n");
        },
    }
    r
}

/// Writes one response.
pub struct ResponseWriter {
    pub keep_alive: bool,
    /// Something of the response was written.
    pub started: bool,
    /// The body comes in chunks.
    pub chunked: bool,
    /// A handler has taken the connection over, and the response framing ends.
    pub hijacked: bool,
    /// The bytes that are to go out next.
    pub out: Vec<u8>,
}

impl ResponseWriter {
    /// A writer that has written nothing.
    pub fn new(keep_alive: bool) -> (r: ResponseWriter)
        ensures
            r.keep_alive == keep_alive,
            !r.started,
            !r.chunked,
            !r.hijacked,
            r.out@ == Seq::<u8>::empty(),
    {
        ResponseWriter {
            keep_alive,
            started: false,
            chunked: false,
            hijacked: false,
            out: Vec::new(),
        }
    }

    /// Whether only the bytes to go out and the marks of what was written differ.
    pub open spec fn wrote(self, before: ResponseWriter, data: Seq<u8>) -> bool {
        &&& self.keep_alive == before.keep_alive
        &&& self.hijacked == before.hijacked
        &&& self.out@ == before.out@ + data
    }

    fn put_text(&mut self, s: &str)
        ensures
            final(self).wrote(*old(self), vstd::utf8::encode_utf8(s@)),
            final(self).started == old(self).started,
            final(self).chunked == old(self).chunked,
    {
        self.out.extend_from_slice(s.as_bytes());
        assert(self.out@ =~= old(self).out@ + vstd::utf8::encode_utf8(s@));
    }

    fn write_head(&mut self, status: u16, content_type: &str, length: Option<u64>)
        ensures
            final(self).wrote(
                *old(self),
                head_bytes(status, content_type@, old(self).keep_alive, length),
            ),
            final(self).started,
            final(self).chunked == (old(self).chunked || length is None),
    {
        self.started = true;
        let head = response_head(status, content_type, self.keep_alive, length);
        if length.is_none() {
            self.chunked = true;
        }
        self.put_text(head.as_str());
    }

    /// Takes the connection over: what is pending goes out, and no framing follows.
    pub fn hijack(&mut self) -> (r: Vec<u8>)
        ensures
            r@ == old(self).out@,
            final(self).out@ == Seq::<u8>::empty(),
            final(self).started,
            final(self).hijacked,
            final(self).keep_alive == old(self).keep_alive,
            final(self).chunked == old(self).chunked,
    {
        self.started = true;
        self.hijacked = true;
        self.flush()
    }

    /// Writes a whole response of known size.
    pub fn fixed(&mut self, status: u16, content_type: &str, body: &[u8])
        ensures
            final(self).wrote(
                *old(self),
                fixed_bytes(status, content_type@, old(self).keep_alive, body@),
            ),
            final(self).started,
            final(self).chunked == old(self).chunked,
    {
        self.write_head(status, content_type, Some(body.len() as u64));
        self.out.extend_from_slice(body);
        assert(self.out@ =~= old(self).out@ + fixed_bytes(
            status,
            content_type@,
            old(self).keep_alive,
            body@,
        ));
    }

    /// Writes a reply.
    pub fn json(&mut self, reply: &Reply)
        ensures
            final(self).wrote(*old(self), reply_bytes(reply@, old(self).keep_alive)),
            final(self).started,
            final(self).chunked == old(self).chunked,
    {
        let body = print_doc(&reply.body);
        self.fixed(reply.status, "application/json", body.as_str().as_bytes());
    }

    /// Writes a reply that reports an error.
    pub fn error(&mut self, status: u16, message: &str)
        ensures
            final(self).wrote(
                *old(self),
                reply_bytes(error_view(status, message@), old(self).keep_alive),
            ),
            final(self).started,
            final(self).chunked == old(self).chunked,
    {
        self.json(&error_reply(status, message));
    }

    /// Starts a response whose body comes in chunks.
    pub fn start_stream(&mut self, status: u16, content_type: &str)
        ensures
            final(self).wrote(
                *old(self),
                head_bytes(status, content_type@, old(self).keep_alive, None),
            ),
            final(self).started,
            final(self).chunked,
    {
        self.write_head(status, content_type, None);
    }

    /// Starts a response of known size, whose body follows with `raw`.
    pub fn start_fixed(&mut self, status: u16, content_type: &str, length: u64)
        ensures
            final(self).wrote(
                *old(self),
                head_bytes(status, content_type@, old(self).keep_alive, Some(length)),
            ),
            final(self).started,
            final(self).chunked == old(self).chunked,
    {
        self.write_head(status, content_type, Some(length));
    }

    /// Writes bytes as they are.
    pub fn raw(&mut self, data: &[u8])
        ensures
            final(self).wrote(*old(self), data@),
            final(self).started == old(self).started,
            final(self).chunked == old(self).chunked,
    {
        self.out.extend_from_slice(data);
        assert(self.out@ =~= old(self).out@ + data@);
    }

    /// Takes the bytes that are to go out next.
    pub fn flush(&mut self) -> (r: Vec<u8>)
        ensures
            r@ == old(self).out@,
            final(self).out@ == Seq::<u8>::empty(),
            final(self).keep_alive == old(self).keep_alive,
            final(self).started == old(self).started,
            final(self).chunked == old(self).chunked,
            final(self).hijacked == old(self).hijacked,
    {
        let mut taken: Vec<u8> = Vec::new();
        std::mem::swap(&mut taken, &mut self.out);
        taken
    }

    /// Writes one chunk of a streamed body.
    pub fn chunk(&mut self, data: &[u8])
        ensures
            final(self).wrote(*old(self), chunk_bytes(data@)),
            final(self).started == old(self).started,
            final(self).chunked == old(self).chunked,
    {
        if data.len() == 0 {
            assert(self.out@ + chunk_bytes(data@) =~= self.out@);
            return ;
        }
        let mut size: String = write_number(data.len() as u64, 16);
        size.append("\r\n");
        self.put_text(size.as_str());
        self.raw(data);
        self.put_text("\r\n");
        assert(self.out@ =~= old(self).out@ + chunk_bytes(data@));
    }

    /// Ends the response: a body in chunks gets the chunk that ends it.
    pub fn finish(&mut self)
        ensures
            final(self).wrote(
                *old(self),
                if old(self).chunked {
                    vstd::utf8::encode_utf8("0\r\n\r\n"@)
                } else {
                    Seq::empty()
                },
            ),
            final(self).started == old(self).started,
            final(self).chunked == old(self).chunked,
    {
        if self.chunked {
            self.put_text("0\r\n\r\n");
        } else {
            assert(self.out@ + Seq::<u8>::empty() =~= self.out@);
        }
    }
}

/// The size that a chunk announces reads as the length of its data, and it is never the
/// zero that ends a body.
pub proof fn law_chunk_announces_its_length(data: Seq<u8>)
    requires
        0 < data.len() <= u64::MAX,
    ensures
        number::read_digits(number::numeral(data.len(), 16), 16, u64::MAX as nat) == Some(data.len()),
        number::numeral(data.len(), 16) != seq!['0'],
{
    number::law_numeral_reads_back(data.len(), 16, u64::MAX as nat);
    number::law_numeral_reads_back(0, 16, u64::MAX as nat);
    assert(number::numeral(0, 16) =~= seq!['0']);
}

// ---------------------------------------------------------------------------
// What a client reads
// ---------------------------------------------------------------------------

/// An error reply has its status, and says what is wrong under "error".
pub proof fn law_error_says_what_is_wrong(status: u16, message: Seq<char>)
    ensures
        error_view(status, message).status == status,
        json::member(error_view(status, message).body, "error"@) == Some(json::JsonView::Str(message)),
        json::member(error_body(message), "error"@) == Some(json::JsonView::Str(message)),
{
    json::lemma_object_1(("error"@, json::JsonView::Str(message)));
}

/// A reply that reports success has status 200 and every member that it was made of.
pub proof fn law_success_holds_its_members(members: Seq<(Seq<char>, json::JsonView)>, i: int)
    requires
        0 <= i < members.len(),
        forall|j: int| i < j < members.len() ==> (#[trigger] members[j]).0 != members[i].0,
    ensures
        ok_view(members).status == 200,
        json::member(ok_view(members).body, members[i].0) == Some(members[i].1),
{
    json::law_object_holds_its_members(members, i);
}

/// A reply denotes its own status and body.
pub proof fn law_reply_denotes_itself(r: Reply)
    ensures
        r@.status == r.status,
        r@.body == r.body.tree(),
{
}

/// The words that go with the statuses that the server gives.
pub proof fn law_statuses_have_their_words(code: u16)
    ensures
        code == 200 ==> status_words(code) == "OK"@,
        code == 400 ==> status_words(code) == "Bad Request"@,
        code == 403 ==> status_words(code) == "Forbidden"@,
        code == 404 ==> status_words(code) == "Not Found"@,
        code == 405 ==> status_words(code) == "Method Not Allowed"@,
        code == 408 ==> status_words(code) == "Request Timeout"@,
        code == 409 ==> status_words(code) == "Conflict"@,
        code == 411 ==> status_words(code) == "Length Required"@,
        code == 500 ==> status_words(code) == "Internal Server Error"@,
        code == 503 ==> status_words(code) == "Service Unavailable"@,
        code == 505 ==> status_words(code) == "HTTP Version Not Supported"@,
{
}

/// The head of a response is its lines, each with its end, and an empty line: the version,
/// the status and its words; the type of the body; whether the connection stays open; and
/// how long the body is, or that it comes in chunks.
pub proof fn law_head_is_its_lines(status: u16, content_type: Seq<char>)
    ensures
        forall|length: Option<u64>|
            {
                let first = "HTTP/1.1 "@ + number::decimal(status as nat) + " "@ + status_words(status);
                let framing = match length {
                    Some(n) => "\r\nContent-Length: "@ + number::decimal(n as nat) + "\r\n\r\n"@,
                    None => "\r\nTransfer-Encoding: chunked\r\nX-Accel-Buffering: no\r\n\r\n"@,
                };
                &&& #[trigger] head_text(status, content_type, true, length) == first + (
                "\r\nContent-Type: "@ + content_type) + ("\r\nConnection: "@ + "keep-alive"@) + framing
                &&& head_text(status, content_type, false, length) == first + (
                "\r\nContent-Type: "@ + content_type) + ("\r\nConnection: "@ + "close"@) + framing
            },
{
    assert forall|length: Option<u64>|
        {
            let first = "HTTP/1.1 "@ + number::decimal(status as nat) + " "@ + status_words(status);
            let framing = match length {
                Some(n) => "\r\nContent-Length: "@ + number::decimal(n as nat) + "\r\n\r\n"@,
                None => "\r\nTransfer-Encoding: chunked\r\nX-Accel-Buffering: no\r\n\r\n"@,
            };
            &&& #[trigger] head_text(status, content_type, true, length) == first + (
            "\r\nContent-Type: "@ + content_type) + ("\r\nConnection: "@ + "keep-alive"@) + framing
            &&& head_text(status, content_type, false, length) == first + ("\r\nContent-Type: "@
                + content_type) + ("\r\nConnection: "@ + "close"@) + framing
        } by {
        let first = "HTTP/1.1 "@ + number::decimal(status as nat) + " "@ + status_words(status);
        let framing = match length {
            Some(n) => "\r\nContent-Length: "@ + number::decimal(n as nat) + "\r\n\r\n"@,
            None => "\r\nTransfer-Encoding: chunked\r\nX-Accel-Buffering: no\r\n\r\n"@,
        };
        assert(head_text(status, content_type, true, length) =~= first + ("\r\nContent-Type: "@
            + content_type) + ("\r\nConnection: "@ + "keep-alive"@) + framing);
        assert(head_text(status, content_type, false, length) =~= first + ("\r\nContent-Type: "@
            + content_type) + ("\r\nConnection: "@ + "close"@) + framing);
    }
}

/// A response of known size is a head that announces exactly the bytes that follow it, and
/// those bytes, whatever they are; a reply is one whose bytes are its printed document.
pub proof fn law_response_announces_its_body(
    status: u16,
    content_type: Seq<char>,
    keep_alive: bool,
    body: Seq<u8>,
    reply: ReplyView,
)
    requires
        body.len() <= u64::MAX,
    ensures
        ({
            let head = vstd::utf8::encode_utf8(
                head_text(status, content_type, keep_alive, Some(body.len() as u64)),
            );
            let all = fixed_bytes(status, content_type, keep_alive, body);
            &&& all.len() == head.len() + body.len()
            &&& all.take(head.len() as int) == head
            &&& all.skip(head.len() as int) == body
        }),
        number::read_unsigned(number::decimal(body.len()), 10, u64::MAX as nat) == Some(body.len()),
        forall|length: Option<u64>| #[trigger]
            head_bytes(status, content_type, keep_alive, length) == vstd::utf8::encode_utf8(
                head_text(status, content_type, keep_alive, length),
            ),
        reply_bytes(reply, keep_alive) == fixed_bytes(
            reply.status,
            "application/json"@,
            keep_alive,
            vstd::utf8::encode_utf8(json::json_text(reply.body)),
        ),
{
    let head = vstd::utf8::encode_utf8(
        head_text(status, content_type, keep_alive, Some(body.len() as u64)),
    );
    let all = fixed_bytes(status, content_type, keep_alive, body);
    assert(all.take(head.len() as int) =~= head);
    assert(all.skip(head.len() as int) =~= body);
    number::law_numeral_reads_back(body.len(), 10, u64::MAX as nat);
}

/// A chunk is a line with its size in hexadecimal, exactly its data, and the end of a line;
/// without data there is no chunk.
pub proof fn law_chunk_carries_its_data(data: Seq<u8>)
    requires
        data.len() <= u64::MAX,
    ensures
        data.len() == 0 ==> chunk_bytes(data).len() == 0,
        data.len() > 0 ==> exists|size: Seq<char>|
            {
                let line = vstd::utf8::encode_utf8(#[trigger] (size + "\r\n"@));
                &&& number::read_digits(size, 16, u64::MAX as nat) == Some(data.len())
                &&& chunk_bytes(data).take(line.len() as int) == line
                &&& chunk_bytes(data).subrange(line.len() as int, (line.len() + data.len()) as int)
                    == data
                &&& chunk_bytes(data).skip((line.len() + data.len()) as int)
                    == vstd::utf8::encode_utf8("\r\n"@)
            },
{
    if data.len() > 0 {
        let size = number::numeral(data.len(), 16);
        number::law_numeral_reads_back(data.len(), 16, u64::MAX as nat);
        let line = vstd::utf8::encode_utf8(size + "\r\n"@);
        let all = chunk_bytes(data);
        assert(all.take(line.len() as int) =~= line);
        assert(all.subrange(line.len() as int, (line.len() + data.len()) as int) =~= data);
        assert(all.skip((line.len() + data.len()) as int) =~= vstd::utf8::encode_utf8("\r\n"@));
    }
}

/// Writing adds to the bytes that are to go out, behind those that are there, and changes
/// neither who owns the connection nor whether it stays open.
pub proof fn law_writing_only_adds(before: ResponseWriter, after: ResponseWriter, data: Seq<u8>)
    ensures
        after.wrote(before, data) <==> after.out@ == before.out@ + data && after.keep_alive
            == before.keep_alive && after.hijacked == before.hijacked,
{
}

/// An error reply holds nothing else.
pub proof fn law_error_holds_nothing_else(message: Seq<char>, key: Seq<char>)
    requires
        key != "error"@,
    ensures
        json::member(error_body(message), key) is None,
{
    json::lemma_object_1_only(
        ("error"@, json::JsonView::Str(message)),
        key,
    );
}

} // verus!
