//! Rules of the ingest handlers: what a request holds, and what it is answered.

use crate::common::model::{
    logs_views, metrics_views, spans_views, LogModel, LogRecord, MetricModel, MetricPoint,
    SpanModel, SpanRecord,
};
use crate::ingest::error::{ingest_error_text, is_retriable, IngestError};
use crate::json::{json_of_text, parse_json, JsonModel};
use crate::ingest::json_decoder::{
    decode_logs, decode_metrics, decode_spans, logs_in_document, metrics_in_document,
    spans_in_document,
};
use crate::ingest::normalizer::{
    logs_in_resources, metrics_in_resources, normalise_logs, normalise_metrics, normalise_spans,
    spans_in_resources,
};
use crate::ingest::otlp::{ResourceLogs, ResourceMetrics, ResourceSpans};
use crate::text::chars_of;
use vstd::prelude::*;

verus! {

/// How the body of a request is written.
#[derive(Debug, Clone, Copy, PartialEq, Eq, Structural)]
pub enum Encoding {
    Json,
    Protobuf,
}

/// Whether a text starts with another.
pub open spec fn starts_with(s: Seq<char>, prefix: Seq<char>) -> bool {
    prefix.len() <= s.len() && s.take(prefix.len() as int) == prefix
}

/// How a body is written, by the content type of its request; parameters behind the type
/// do not count.
pub open spec fn encoding_of(content_type: Seq<char>) -> Option<Encoding> {
    if starts_with(content_type, "application/json"@) {
        Some(Encoding::Json)
    } else if starts_with(content_type, "application/x-protobuf"@) {
        Some(Encoding::Protobuf)
    } else {
        None
    }
}

fn has_prefix(s: &str, prefix: &str) -> (yes: bool)
    ensures
        yes == starts_with(s@, prefix@),
{
    let a = chars_of(s);
    let b = chars_of(prefix);
    if b.len() > a.len() {
        return false;
    }
    for i in 0..b.len()
        invariant
            a@ == s@,
            b@ == prefix@,
            b@.len() <= a@.len(),
            forall|k: int| 0 <= k < i ==> a@[k] == #[trigger] b@[k],
    {
        if a[i] != b[i] {
            assert(s@.take(prefix@.len() as int)[i as int] != prefix@[i as int]);
            return false;
        }
    }
    assert(s@.take(prefix@.len() as int) =~= prefix@);
    true
}

/// How a body is written, by the content type of its request.
pub fn request_encoding(content_type: &str) -> (out: Option<Encoding>)
    ensures
        out == encoding_of(content_type@),
{
    if has_prefix(content_type, "application/json") {
        Some(Encoding::Json)
    } else if has_prefix(content_type, "application/x-protobuf") {
        Some(Encoding::Protobuf)
    } else {
        None
    }
}

/// The answer to a request over HTTP: a status, the type of the body if it is not plain
/// text, and the body.
#[derive(Debug)]
pub struct HttpReply {
    pub status: u16,
    pub content_type: Option<&'static str>,
    pub body: String,
}

/// An answer as mathematical values.
pub struct ReplyModel {
    pub status: u16,
    pub content_type: Option<Seq<char>>,
    pub body: Seq<char>,
}

impl View for HttpReply {
    type V = ReplyModel;

    open spec fn view(&self) -> ReplyModel {
        ReplyModel {
            status: self.status,
            content_type: match self.content_type {
                Some(t) => Some(t@),
                None => None,
            },
            body: self.body@,
        }
    }
}

/// An answer in plain text.
pub open spec fn plain_reply(status: u16, body: Seq<char>) -> ReplyModel {
    ReplyModel { status, content_type: None, body }
}

/// The answer to a request whose content type is not known.
pub fn unsupported_reply() -> (r: HttpReply)
    ensures
        r@ == plain_reply(
            415,
            "Content-Type must be application/json or application/x-protobuf"@,
        ),
{
    HttpReply {
        status: 415,
        content_type: None,
        body: "Content-Type must be application/json or application/x-protobuf".to_string(),
    }
}

/// The answer to a request whose body cannot be read, with the message of the reader.
pub open spec fn bad_request(message: Seq<char>) -> ReplyModel {
    plain_reply(400, message)
}

/// The answer to a request whose records were handed on, or not: an empty report of success
/// in the request's own encoding, a call to try again if there was no room, and a failure
/// otherwise.
pub open spec fn submit_reply(result: Result<(), IngestError>, encoding: Encoding) -> ReplyModel {
    match result {
        Ok(_) => match encoding {
            Encoding::Json => ReplyModel {
                status: 200,
                content_type: Some("application/json"@),
                body: "{\"partialSuccess\":{}}"@,
            },
            Encoding::Protobuf => ReplyModel {
                status: 200,
                content_type: Some("application/x-protobuf"@),
                body: Seq::empty(),
            },
        },
        Err(e) => if is_retriable(e) {
            plain_reply(429, ingest_error_text(e))
        } else {
            plain_reply(500, ingest_error_text(e))
        },
    }
}

/// The answer to a request whose records were handed on, or not.
pub fn reply_to_submit(result: Result<(), IngestError>, encoding: Encoding) -> (r: HttpReply)
    ensures
        r@ == submit_reply(result, encoding),
{
    match result {
        Ok(_) => match encoding {
            Encoding::Json => HttpReply {
                status: 200,
                content_type: Some("application/json"),
                body: "{\"partialSuccess\":{}}".to_string(),
            },
            Encoding::Protobuf => {
                let body = String::new();
                assert(body@ =~= Seq::empty());
                HttpReply { status: 200, content_type: Some("application/x-protobuf"), body }
            },
        },
        Err(e) => {
            let status: u16 = if e.is_retriable() {
                429
            } else {
                500
            };
            HttpReply { status, content_type: None, body: e.message() }
        },
    }
}

/// The status of an answer over gRPC.
#[derive(Debug, Clone, Copy, PartialEq, Eq, Structural)]
pub enum GrpcCode {
    ResourceExhausted,
    Internal,
}

/// What a refused request is answered over gRPC: a call to try again if there was no room,
/// and a failure otherwise, with the error as its message.
pub fn grpc_refusal(e: &IngestError) -> (out: (GrpcCode, String))
    ensures
        out.0 == if is_retriable(*e) {
            GrpcCode::ResourceExhausted
        } else {
            GrpcCode::Internal
        },
        out.1@ == ingest_error_text(*e),
{
    let code = if e.is_retriable() {
        GrpcCode::ResourceExhausted
    } else {
        GrpcCode::Internal
    };
    (code, e.message())
}

/// What became of a batch that was offered to the storage writer.
#[derive(Debug, Clone, Copy, PartialEq, Eq, Structural)]
pub enum Offer {
    Taken,
    /// The queue has no room.
    Full,
    /// The writer has ended.
    Closed,
}

/// The outcome of handing a batch on. A writer that has ended has no room either.
pub fn submit_outcome(offer: Offer) -> (out: Result<(), IngestError>)
    ensures
        match out {
            Ok(_) => offer is Taken,
            Err(e) => !(offer is Taken) && e is BufferFull,
        },
{
    match offer {
        Offer::Taken => Ok(()),
        Offer::Full => Err(IngestError::BufferFull),
        Offer::Closed => Err(IngestError::BufferFull),
    }
}

/// The logs of a request: those of its JSON text, or those of its protobuf message. The
/// message of the reader, if it could not read them.
pub open spec fn request_logs(
    encoding: Encoding,
    json: Result<JsonModel, Seq<char>>,
    message: Result<Seq<ResourceLogs>, Seq<char>>,
) -> Result<Seq<LogModel>, Seq<char>> {
    match encoding {
        Encoding::Json => match json {
            Ok(v) => Ok(logs_in_document(v)),
            Err(m) => Err(m),
        },
        Encoding::Protobuf => match message {
            Ok(r) => Ok(logs_in_resources(r, r.len())),
            Err(m) => Err(m),
        },
    }
}

/// Reads the logs of a request. A JSON text is read here; of a protobuf message it is given
/// what the decoder made of it.
pub fn read_logs(encoding: Encoding, body: &[u8], message: Result<Vec<ResourceLogs>, String>) -> (out: Result<
    Vec<LogRecord>,
    HttpReply,
>)
    ensures
        match (
            out,
            request_logs(
                encoding,
                json_of_text(body@),
                match message {
                    Ok(r) => Ok(r@),
                    Err(m) => Err(m@),
                },
            ),
        ) {
            (Ok(v), Ok(m)) => logs_views(v@) == m,
            (Err(r), Err(m)) => r@ == bad_request(m),
            _ => false,
        },
{
    match encoding {
        Encoding::Json => match parse_json(body) {
            Ok(v) => Ok(decode_logs(&v)),
            Err(m) => Err(HttpReply { status: 400, content_type: None, body: m }),
        },
        Encoding::Protobuf => match message {
            Ok(r) => Ok(normalise_logs(&r)),
            Err(m) => Err(HttpReply { status: 400, content_type: None, body: m }),
        },
    }
}

/// The metrics of a request: those of its JSON text, or those of its protobuf message. The
/// message of the reader, if it could not read them.
pub open spec fn request_metrics(
    encoding: Encoding,
    json: Result<JsonModel, Seq<char>>,
    message: Result<Seq<ResourceMetrics>, Seq<char>>,
) -> Result<Seq<MetricModel>, Seq<char>> {
    match encoding {
        Encoding::Json => match json {
            Ok(v) => Ok(metrics_in_document(v)),
            Err(m) => Err(m),
        },
        Encoding::Protobuf => match message {
            Ok(r) => Ok(metrics_in_resources(r, r.len())),
            Err(m) => Err(m),
        },
    }
}

/// Reads the metrics of a request. A JSON text is read here; of a protobuf message it is given
/// what the decoder made of it.
pub fn read_metrics(encoding: Encoding, body: &[u8], message: Result<Vec<ResourceMetrics>, String>) -> (out: Result<
    Vec<MetricPoint>,
    HttpReply,
>)
    ensures
        match (
            out,
            request_metrics(
                encoding,
                json_of_text(body@),
                match message {
                    Ok(r) => Ok(r@),
                    Err(m) => Err(m@),
                },
            ),
        ) {
            (Ok(v), Ok(m)) => metrics_views(v@) == m,
            (Err(r), Err(m)) => r@ == bad_request(m),
            _ => false,
        },
{
    match encoding {
        Encoding::Json => match parse_json(body) {
            Ok(v) => Ok(decode_metrics(&v)),
            Err(m) => Err(HttpReply { status: 400, content_type: None, body: m }),
        },
        Encoding::Protobuf => match message {
            Ok(r) => Ok(normalise_metrics(&r)),
            Err(m) => Err(HttpReply { status: 400, content_type: None, body: m }),
        },
    }
}

/// The spans of a request: those of its JSON text, or those of its protobuf message. The
/// message of the reader, if it could not read them.
pub open spec fn request_spans(
    encoding: Encoding,
    json: Result<JsonModel, Seq<char>>,
    message: Result<Seq<ResourceSpans>, Seq<char>>,
) -> Result<Seq<SpanModel>, Seq<char>> {
    match encoding {
        Encoding::Json => match json {
            Ok(v) => Ok(spans_in_document(v)),
            Err(m) => Err(m),
        },
        Encoding::Protobuf => match message {
            Ok(r) => Ok(spans_in_resources(r, r.len())),
            Err(m) => Err(m),
        },
    }
}

/// Reads the spans of a request. A JSON text is read here; of a protobuf message it is given
/// what the decoder made of it.
pub fn read_spans(encoding: Encoding, body: &[u8], message: Result<Vec<ResourceSpans>, String>) -> (out: Result<
    Vec<SpanRecord>,
    HttpReply,
>)
    ensures
        match (
            out,
            request_spans(
                encoding,
                json_of_text(body@),
                match message {
                    Ok(r) => Ok(r@),
                    Err(m) => Err(m@),
                },
            ),
        ) {
            (Ok(v), Ok(m)) => spans_views(v@) == m,
            (Err(r), Err(m)) => r@ == bad_request(m),
            _ => false,
        },
{
    match encoding {
        Encoding::Json => match parse_json(body) {
            Ok(v) => Ok(decode_spans(&v)),
            Err(m) => Err(HttpReply { status: 400, content_type: None, body: m }),
        },
        Encoding::Protobuf => match message {
            Ok(r) => Ok(normalise_spans(&r)),
            Err(m) => Err(HttpReply { status: 400, content_type: None, body: m }),
        },
    }
}

// ── Laws ────────────────────────────────────────────────────────────────────

/// A request is told to try again exactly if there was no room for its records.
pub proof fn only_back_pressure_is_retried(e: IngestError, encoding: Encoding)
    ensures
        submit_reply(Err(e), encoding).status == 429 <==> e is BufferFull,
        submit_reply(Err(e), encoding).status != 200,
{
}

/// The content types of requests, whatever parameters follow: JSON and protobuf, and no other.
pub proof fn content_types_name_encodings(parameters: Seq<char>, other: Seq<char>)
    ensures
        encoding_of("application/json"@ + parameters) == Some(Encoding::Json),
        encoding_of("application/x-protobuf"@ + parameters) == Some(Encoding::Protobuf),
        encoding_of(other) == Some(Encoding::Json) ==> exists|rest: Seq<char>|
            other == #[trigger] ("application/json"@ + rest),
        encoding_of(other) == Some(Encoding::Protobuf) ==> exists|rest: Seq<char>|
            other == #[trigger] ("application/x-protobuf"@ + rest),
{
    reveal_strlit("application/json");
    reveal_strlit("application/x-protobuf");
    let json = "application/json"@;
    let proto = "application/x-protobuf"@;
    assert((json + parameters).take(json.len() as int) =~= json);
    assert((proto + parameters).take(proto.len() as int) =~= proto);
    assert(json[12] == 'j' && proto[12] == 'x');
    if starts_with(proto + parameters, json) {
        assert((proto + parameters).take(json.len() as int)[12] == proto[12]);
    }
    if starts_with(other, json) {
        assert(other =~= json + other.skip(json.len() as int));
    }
    if starts_with(other, proto) {
        assert(other =~= proto + other.skip(proto.len() as int));
    }
}

/// Success is answered in the encoding of the request: the content type of the answer is one
/// of a request in the same encoding.
pub proof fn success_is_answered_in_kind(encoding: Encoding)
    ensures
        submit_reply(Ok(()), encoding).status == 200,
        submit_reply(Ok(()), encoding).content_type matches Some(t) && encoding_of(t) == Some(
            encoding,
        ),
{
    content_types_name_encodings(Seq::empty(), Seq::empty());
    assert("application/json"@ + Seq::empty() =~= "application/json"@);
    assert("application/x-protobuf"@ + Seq::empty() =~= "application/x-protobuf"@);
}

/// A failure is answered with its text, and one that is not for want of room with 500.
pub proof fn failures_are_told(e: IngestError, encoding: Encoding)
    ensures
        submit_reply(Err(e), encoding).body == ingest_error_text(e),
        !(e is BufferFull) ==> submit_reply(Err(e), encoding).status == 500,
{
}

/// The records of a request are those of its document where it is JSON, and those of its
/// message where it is protobuf; what the other would be does not matter. A body that cannot
/// be read is refused with the reader's words.
pub proof fn requests_are_read_by_their_encoding(
    v: JsonModel,
    logs: Seq<ResourceLogs>,
    metrics: Seq<ResourceMetrics>,
    spans: Seq<ResourceSpans>,
    no_json: Result<JsonModel, Seq<char>>,
    text: Seq<char>,
)
    ensures
        forall|m: Result<Seq<ResourceLogs>, Seq<char>>| #[trigger]
            request_logs(Encoding::Json, Ok(v), m) == Ok::<Seq<LogModel>, Seq<char>>(
                logs_in_document(v),
            ),
        request_logs(Encoding::Protobuf, no_json, Ok(logs)) == Ok::<Seq<LogModel>, Seq<char>>(
            logs_in_resources(logs, logs.len()),
        ),
        request_logs(Encoding::Protobuf, no_json, Err(text)) is Err,
        forall|m: Result<Seq<ResourceMetrics>, Seq<char>>| #[trigger]
            request_metrics(Encoding::Json, Ok(v), m) == Ok::<Seq<MetricModel>, Seq<char>>(
                metrics_in_document(v),
            ),
        request_metrics(Encoding::Protobuf, no_json, Ok(metrics)) == Ok::<
            Seq<MetricModel>,
            Seq<char>,
        >(metrics_in_resources(metrics, metrics.len())),
        request_metrics(Encoding::Protobuf, no_json, Err(text)) is Err,
        forall|m: Result<Seq<ResourceSpans>, Seq<char>>| #[trigger]
            request_spans(Encoding::Json, Ok(v), m) == Ok::<Seq<SpanModel>, Seq<char>>(
                spans_in_document(v),
            ),
        request_spans(Encoding::Protobuf, no_json, Ok(spans)) == Ok::<Seq<SpanModel>, Seq<char>>(
            spans_in_resources(spans, spans.len()),
        ),
        request_spans(Encoding::Protobuf, no_json, Err(text)) is Err,
{
}

} // verus!
