//! Message model: the closed set of message kinds (request, response, event)
//! with typed envelope fields and opaque payloads, and its wire codec. The
//! wire form is an object of the grammar in [`crate::json`]: a `type` field
//! carries the discriminant, envelope fields use the wire's compact
//! lower-case names verbatim (`seq`, `command`, `request_seq`, `success`,
//! `message`, `event`, `arguments`, `body`), unknown fields are ignored,
//! and absent optional fields are omitted from the wire entirely.

use vstd::prelude::*;
use vstd::utf8::{valid_utf8, decode_utf8, encode_utf8};
use crate::json::{is_value_text, scan_value, scan_value_at, skip_json_ws, skip_json_ws_at,
    parse_string_body, parse_string_body_at, lemma_parse_string_body_bounds, esc, escape_append};
use crate::frame::copy_range;
use crate::text::{is_digit, dec_digits, dec_val, digit_run_end, parse_dec_run, u64_to_dec,
    lemma_dec_val_nonneg};

verus! {

/// Why a payload failed to decode into a message. Such an error never closes
/// the session: the frame boundary was already established.
#[derive(Debug, Clone, PartialEq, Eq)]
pub enum DecodeError {
    /// The payload is not a well-formed document of the wire grammar.
    Syntax,
    /// The discriminant is none of the three message kinds; carries the
    /// offending value.
    UnknownKind(String),
    /// A required envelope field is absent.
    MissingField,
    /// An envelope field has the wrong type or an out-of-range value.
    BadField,
    /// An envelope field appears twice.
    DuplicateField,
}

/// Specification-level decode error.
pub enum DecodeErrorView {
    Syntax,
    UnknownKind(Seq<char>),
    MissingField,
    BadField,
    DuplicateField,
}

impl View for DecodeError {
    type V = DecodeErrorView;

    open spec fn view(&self) -> DecodeErrorView {
        match self {
            DecodeError::Syntax => DecodeErrorView::Syntax,
            DecodeError::UnknownKind(s) => DecodeErrorView::UnknownKind(s@),
            DecodeError::MissingField => DecodeErrorView::MissingField,
            DecodeError::BadField => DecodeErrorView::BadField,
            DecodeError::DuplicateField => DecodeErrorView::DuplicateField,
        }
    }
}

/// An opaque structured payload: exactly one value of the wire grammar in
/// valid UTF-8, carried as its raw bytes and handed to or received from the
/// command-semantics layer unread.
#[derive(Debug, PartialEq, Eq)]
pub struct Payload {
    bytes: Vec<u8>,
}

impl View for Payload {
    type V = Seq<u8>;

    closed spec fn view(&self) -> Seq<u8> {
        self.bytes@
    }
}

impl Payload {
    /// Every payload holds exactly one value of the wire grammar, in valid
    /// UTF-8 as the wire requires of a whole body.
    #[verifier::type_invariant]
    pub open spec fn inv(&self) -> bool {
        is_value_text(self@) && valid_utf8(self@)
    }

    /// Wraps bytes that spell exactly one value of the wire grammar in
    /// valid UTF-8.
    pub fn from_bytes(bytes: Vec<u8>) -> (r: Result<Payload, DecodeError>)
        ensures
            r matches Ok(p) ==> p@ == bytes@ && is_value_text(bytes@) && valid_utf8(bytes@),
            r matches Err(e) ==> e@ is Syntax
                && !(is_value_text(bytes@) && valid_utf8(bytes@)),
    {
        if !utf8_check(bytes.as_slice()) {
            return Err(DecodeError::Syntax);
        }
        match scan_value_at(bytes.as_slice(), 0) {
            Some(j) => {
                if j == bytes.len() {
                    Ok(Payload { bytes })
                } else {
                    Err(DecodeError::Syntax)
                }
            },
            None => Err(DecodeError::Syntax),
        }
    }

    pub fn as_bytes(&self) -> (r: &[u8])
        ensures
            r@ == self@,
    {
        self.bytes.as_slice()
    }

}

/// A request: `seq` numbers it within the sender's session, `command` names
/// what is asked, `arguments` is an opaque payload that may be absent.
#[derive(Debug, PartialEq, Eq)]
pub struct Request {
    pub seq: i64,
    pub command: String,
    pub arguments: Option<Payload>,
}

/// A response: `request_seq` names the request it answers, `success` says
/// whether it worked, `command` echoes the request's command, `message` is
/// optional failure text, `body` an optional opaque payload.
#[derive(Debug, PartialEq, Eq)]
pub struct Response {
    pub request_seq: i64,
    pub success: bool,
    pub command: String,
    pub message: Option<String>,
    pub body: Option<Payload>,
}

/// An event: `seq` numbers it, `event` names it, `body` is an optional
/// opaque payload.
#[derive(Debug, PartialEq, Eq)]
pub struct Event {
    pub seq: i64,
    pub event: String,
    pub body: Option<Payload>,
}

/// One protocol message: exactly one of the three kinds.
#[derive(Debug, PartialEq, Eq)]
pub enum Message {
    Request(Request),
    Response(Response),
    Event(Event),
}

/// Specification-level message value.
pub enum MessageView {
    Request { seq: int, command: Seq<char>, arguments: Option<Seq<u8>> },
    Response {
        request_seq: int,
        success: bool,
        command: Seq<char>,
        message: Option<Seq<char>>,
        body: Option<Seq<u8>>,
    },
    Event { seq: int, event: Seq<char>, body: Option<Seq<u8>> },
}

pub open spec fn opt_payload_view(p: Option<Payload>) -> Option<Seq<u8>> {
    match p {
        Some(x) => Some(x@),
        None => None,
    }
}

pub open spec fn opt_string_view(s: Option<String>) -> Option<Seq<char>> {
    match s {
        Some(x) => Some(x@),
        None => None,
    }
}

impl View for Message {
    type V = MessageView;

    open spec fn view(&self) -> MessageView {
        match self {
            Message::Request(r) => MessageView::Request {
                seq: r.seq as int,
                command: r.command@,
                arguments: opt_payload_view(r.arguments),
            },
            Message::Response(r) => MessageView::Response {
                request_seq: r.request_seq as int,
                success: r.success,
                command: r.command@,
                message: opt_string_view(r.message),
                body: opt_payload_view(r.body),
            },
            Message::Event(e) => MessageView::Event {
                seq: e.seq as int,
                event: e.event@,
                body: opt_payload_view(e.body),
            },
        }
    }
}

impl MessageView {
    /// A valid message: sequence numbers are positive and fit the wire's
    /// signed 64-bit range, the command or event name is non-empty, and
    /// every payload is one value of the wire grammar.
    pub open spec fn wf(self) -> bool {
        match self {
            MessageView::Request { seq, command, arguments } => {
                &&& 1 <= seq <= i64::MAX
                &&& command.len() > 0
                &&& (arguments matches Some(a) ==> is_value_text(a) && valid_utf8(a))
            },
            MessageView::Response { request_seq, command, message, body, .. } => {
                &&& 1 <= request_seq <= i64::MAX
                &&& command.len() > 0
                &&& (body matches Some(a) ==> is_value_text(a) && valid_utf8(a))
            },
            MessageView::Event { seq, event, body } => {
                &&& 1 <= seq <= i64::MAX
                &&& event.len() > 0
                &&& (body matches Some(a) ==> is_value_text(a) && valid_utf8(a))
            },
        }
    }
}

impl Message {
    pub open spec fn wf(&self) -> bool {
        self@.wf()
    }

    /// Says whether the message is valid; what `serialize` requires.
    pub fn is_wf(&self) -> (r: bool)
        ensures
            r == self.wf(),
    {
        match self {
            Message::Request(r) => {
                proof {
                    if let Some(p) = &r.arguments {
                        use_type_invariant(p);
                    }
                }
                r.seq >= 1 && !r.command.as_str().is_empty()
            },
            Message::Response(r) => {
                proof {
                    if let Some(p) = &r.body {
                        use_type_invariant(p);
                    }
                }
                r.request_seq >= 1 && !r.command.as_str().is_empty()
            },
            Message::Event(e) => {
                proof {
                    if let Some(p) = &e.body {
                        use_type_invariant(p);
                    }
                }
                e.seq >= 1 && !e.event.as_str().is_empty()
            },
        }
    }
}

// The unescaped bytes of the envelope's field names and kind values.
pub open spec fn kb_seq() -> Seq<u8> {
    seq![115u8, 101u8, 113u8]
}

pub open spec fn kb_type() -> Seq<u8> {
    seq![116u8, 121u8, 112u8, 101u8]
}

pub open spec fn kb_command() -> Seq<u8> {
    seq![99u8, 111u8, 109u8, 109u8, 97u8, 110u8, 100u8]
}

pub open spec fn kb_request_seq() -> Seq<u8> {
    seq![114u8, 101u8, 113u8, 117u8, 101u8, 115u8, 116u8, 95u8, 115u8, 101u8, 113u8]
}

pub open spec fn kb_success() -> Seq<u8> {
    seq![115u8, 117u8, 99u8, 99u8, 101u8, 115u8, 115u8]
}

pub open spec fn kb_message() -> Seq<u8> {
    seq![109u8, 101u8, 115u8, 115u8, 97u8, 103u8, 101u8]
}

pub open spec fn kb_event() -> Seq<u8> {
    seq![101u8, 118u8, 101u8, 110u8, 116u8]
}

pub open spec fn kb_arguments() -> Seq<u8> {
    seq![97u8, 114u8, 103u8, 117u8, 109u8, 101u8, 110u8, 116u8, 115u8]
}

pub open spec fn kb_body() -> Seq<u8> {
    seq![98u8, 111u8, 100u8, 121u8]
}

pub open spec fn kind_request() -> Seq<u8> {
    seq![114u8, 101u8, 113u8, 117u8, 101u8, 115u8, 116u8]
}

pub open spec fn kind_response() -> Seq<u8> {
    seq![114u8, 101u8, 115u8, 112u8, 111u8, 110u8, 115u8, 101u8]
}

pub open spec fn kind_event() -> Seq<u8> {
    seq![101u8, 118u8, 101u8, 110u8, 116u8]
}

/// The envelope fields gathered while walking the wire object, each at most
/// once; string and kind values still as their unescaped wire bytes.
pub struct EnvView {
    pub seq: Option<int>,
    pub ty: Option<Seq<u8>>,
    pub command: Option<Seq<u8>>,
    pub request_seq: Option<int>,
    pub success: Option<bool>,
    pub message: Option<Seq<u8>>,
    pub event: Option<Seq<u8>>,
    pub arguments: Option<Seq<u8>>,
    pub body: Option<Seq<u8>>,
}

pub open spec fn empty_env() -> EnvView {
    EnvView {
        seq: None,
        ty: None,
        command: None,
        request_seq: None,
        success: None,
        message: None,
        event: None,
        arguments: None,
        body: None,
    }
}

/// A non-negative integer field that fits an `i64`: a bare digit run.
pub open spec fn int_field(b: Seq<u8>, v: int) -> Result<(int, int), DecodeErrorView>
    recommends
        0 <= v < b.len(),
{
    if !is_digit(b[v]) {
        Err(DecodeErrorView::BadField)
    } else {
        let e = digit_run_end(b, v, b.len() as int);
        let val = dec_val(b.subrange(v, e));
        if val > i64::MAX {
            Err(DecodeErrorView::BadField)
        } else {
            Ok((val, e))
        }
    }
}

/// A string field: its unescaped content bytes.
pub open spec fn str_field(b: Seq<u8>, v: int) -> Result<(Seq<u8>, int), DecodeErrorView>
    recommends
        0 <= v < b.len(),
{
    if b[v] != 34 {
        Err(DecodeErrorView::BadField)
    } else {
        match parse_string_body(b, v + 1) {
            None => Err(DecodeErrorView::Syntax),
            Some((s, e)) => Ok((s, e)),
        }
    }
}

/// A boolean field: the literal `true` or `false`.
pub open spec fn bool_field(b: Seq<u8>, v: int) -> Result<(bool, int), DecodeErrorView>
    recommends
        0 <= v < b.len(),
{
    if b[v] == 116 && v + 4 <= b.len() && b[v + 1] == 114 && b[v + 2] == 117 && b[v + 3] == 101 {
        Ok((true, v + 4))
    } else if b[v] == 102 && v + 5 <= b.len() && b[v + 1] == 97 && b[v + 2] == 108 && b[v + 3] == 115
        && b[v + 4] == 101 {
        Ok((false, v + 5))
    } else {
        Err(DecodeErrorView::BadField)
    }
}

/// An opaque field: the exact byte span of one value of the grammar.
pub open spec fn raw_field(b: Seq<u8>, v: int) -> Result<(Seq<u8>, int), DecodeErrorView>
    recommends
        0 <= v < b.len(),
{
    match scan_value(b, v) {
        None => Err(DecodeErrorView::Syntax),
        Some(e) => {
            if e < v || e > b.len() {
                Err(DecodeErrorView::Syntax)
            } else {
                let raw = b.subrange(v, e);
                if !is_value_text(raw) {
                    Err(DecodeErrorView::Syntax)
                } else if !valid_utf8(raw) {
                    Err(DecodeErrorView::Syntax)
                } else {
                    Ok((raw, e))
                }
            }
        },
    }
}

/// One field's value, keyed by its name: a recognized envelope field is read
/// with its required shape and recorded (a second occurrence is a duplicate
/// error), an unknown field is scanned and ignored. Returns the updated
/// fields and the position after the value.
pub open spec fn field_value(b: Seq<u8>, v: int, key: Seq<u8>, env: EnvView) -> Result<
    (EnvView, int),
    DecodeErrorView,
>
    recommends
        0 <= v < b.len(),
{
    if key == kb_seq() {
        if env.seq is Some {
            Err(DecodeErrorView::DuplicateField)
        } else {
            match int_field(b, v) {
                Err(e) => Err(e),
                Ok((val, e)) => Ok((EnvView { seq: Some(val), ..env }, e)),
            }
        }
    } else if key == kb_request_seq() {
        if env.request_seq is Some {
            Err(DecodeErrorView::DuplicateField)
        } else {
            match int_field(b, v) {
                Err(e) => Err(e),
                Ok((val, e)) => Ok((EnvView { request_seq: Some(val), ..env }, e)),
            }
        }
    } else if key == kb_type() {
        if env.ty is Some {
            Err(DecodeErrorView::DuplicateField)
        } else {
            match str_field(b, v) {
                Err(e) => Err(e),
                Ok((s, e)) => Ok((EnvView { ty: Some(s), ..env }, e)),
            }
        }
    } else if key == kb_command() {
        if env.command is Some {
            Err(DecodeErrorView::DuplicateField)
        } else {
            match str_field(b, v) {
                Err(e) => Err(e),
                Ok((s, e)) => Ok((EnvView { command: Some(s), ..env }, e)),
            }
        }
    } else if key == kb_message() {
        if env.message is Some {
            Err(DecodeErrorView::DuplicateField)
        } else {
            match str_field(b, v) {
                Err(e) => Err(e),
                Ok((s, e)) => Ok((EnvView { message: Some(s), ..env }, e)),
            }
        }
    } else if key == kb_event() {
        if env.event is Some {
            Err(DecodeErrorView::DuplicateField)
        } else {
            match str_field(b, v) {
                Err(e) => Err(e),
                Ok((s, e)) => Ok((EnvView { event: Some(s), ..env }, e)),
            }
        }
    } else if key == kb_success() {
        if env.success is Some {
            Err(DecodeErrorView::DuplicateField)
        } else {
            match bool_field(b, v) {
                Err(e) => Err(e),
                Ok((val, e)) => Ok((EnvView { success: Some(val), ..env }, e)),
            }
        }
    } else if key == kb_arguments() {
        if env.arguments is Some {
            Err(DecodeErrorView::DuplicateField)
        } else {
            match raw_field(b, v) {
                Err(e) => Err(e),
                Ok((raw, e)) => Ok((EnvView { arguments: Some(raw), ..env }, e)),
            }
        }
    } else if key == kb_body() {
        if env.body is Some {
            Err(DecodeErrorView::DuplicateField)
        } else {
            match raw_field(b, v) {
                Err(e) => Err(e),
                Ok((raw, e)) => Ok((EnvView { body: Some(raw), ..env }, e)),
            }
        }
    } else {
        match scan_value(b, v) {
            None => Err(DecodeErrorView::Syntax),
            Some(e) => Ok((env, e)),
        }
    }
}

/// The members of the wire object from position `i` (at a key) to its
/// closing brace: returns the gathered fields and the position after it.
pub open spec fn parse_fields(b: Seq<u8>, i: int, env: EnvView) -> Result<
    (EnvView, int),
    DecodeErrorView,
>
    decreases b.len() - i when 0 <= i <= b.len()
{
    if i == b.len() || b[i] != 34 {
        Err(DecodeErrorView::Syntax)
    } else {
        match parse_string_body(b, i + 1) {
            None => Err(DecodeErrorView::Syntax),
            Some((key, j)) => {
                if j < i || j > b.len() {
                    Err(DecodeErrorView::Syntax)
                } else {
                    let c = skip_json_ws(b, j);
                    if c >= b.len() || b[c] != 58 {
                        Err(DecodeErrorView::Syntax)
                    } else {
                        let v = skip_json_ws(b, c + 1);
                        if v <= i || v >= b.len() {
                            Err(DecodeErrorView::Syntax)
                        } else {
                            match field_value(b, v, key, env) {
                                Err(e) => Err(e),
                                Ok((env2, e)) => {
                                    if e <= v || e > b.len() {
                                        Err(DecodeErrorView::Syntax)
                                    } else {
                                        let t = skip_json_ws(b, e);
                                        if t < b.len() && b[t] == 125 {
                                            Ok((env2, t + 1))
                                        } else if t < b.len() && b[t] == 44 {
                                            let n = skip_json_ws(b, t + 1);
                                            if n <= i || n > b.len() {
                                                Err(DecodeErrorView::Syntax)
                                            } else {
                                                parse_fields(b, n, env2)
                                            }
                                        } else {
                                            Err(DecodeErrorView::Syntax)
                                        }
                                    }
                                },
                            }
                        }
                    }
                }
            },
        }
    }
}

/// Builds the message out of the gathered envelope fields: the discriminant
/// picks the kind, its required fields must be present, sequence numbers must
/// be positive, command and event names non-empty, and materialized strings
/// valid UTF-8.
pub open spec fn assemble(env: EnvView) -> Result<MessageView, DecodeErrorView> {
    match env.ty {
        None => Err(DecodeErrorView::MissingField),
        Some(ty) => {
            if ty == kind_request() {
                match (env.seq, env.command) {
                    (Some(sq), Some(cmd)) => {
                        if sq < 1 {
                            Err(DecodeErrorView::BadField)
                        } else if cmd.len() == 0 {
                            Err(DecodeErrorView::BadField)
                        } else if !valid_utf8(cmd) {
                            Err(DecodeErrorView::Syntax)
                        } else {
                            Ok(MessageView::Request {
                                seq: sq,
                                command: decode_utf8(cmd),
                                arguments: env.arguments,
                            })
                        }
                    },
                    _ => Err(DecodeErrorView::MissingField),
                }
            } else if ty == kind_response() {
                match (env.request_seq, env.success, env.command) {
                    (Some(rs), Some(ok), Some(cmd)) => {
                        if rs < 1 {
                            Err(DecodeErrorView::BadField)
                        } else if cmd.len() == 0 {
                            Err(DecodeErrorView::BadField)
                        } else if !valid_utf8(cmd) {
                            Err(DecodeErrorView::Syntax)
                        } else if env.message matches Some(m) && !valid_utf8(m) {
                            Err(DecodeErrorView::Syntax)
                        } else {
                            Ok(MessageView::Response {
                                request_seq: rs,
                                success: ok,
                                command: decode_utf8(cmd),
                                message: match env.message {
                                    Some(m) => Some(decode_utf8(m)),
                                    None => None,
                                },
                                body: env.body,
                            })
                        }
                    },
                    _ => Err(DecodeErrorView::MissingField),
                }
            } else if ty == kind_event() {
                match (env.seq, env.event) {
                    (Some(sq), Some(ev)) => {
                        if sq < 1 {
                            Err(DecodeErrorView::BadField)
                        } else if ev.len() == 0 {
                            Err(DecodeErrorView::BadField)
                        } else if !valid_utf8(ev) {
                            Err(DecodeErrorView::Syntax)
                        } else {
                            Ok(MessageView::Event {
                                seq: sq,
                                event: decode_utf8(ev),
                                body: env.body,
                            })
                        }
                    },
                    _ => Err(DecodeErrorView::MissingField),
                }
            } else {
                if !valid_utf8(ty) {
                    Err(DecodeErrorView::Syntax)
                } else {
                    Err(DecodeErrorView::UnknownKind(decode_utf8(ty)))
                }
            }
        },
    }
}

/// After the object closes at `p`, only whitespace may follow.
pub open spec fn finish(b: Seq<u8>, p: int, env: EnvView) -> Result<MessageView, DecodeErrorView>
    recommends
        0 <= p <= b.len(),
{
    if p < 0 || p > b.len() {
        Err(DecodeErrorView::Syntax)
    } else if skip_json_ws(b, p) != b.len() {
        Err(DecodeErrorView::Syntax)
    } else {
        assemble(env)
    }
}

/// What a payload's bytes decode to: one wire object holding the envelope of
/// exactly one of the three message kinds, or the decode error that says why
/// not.
pub open spec fn parse_msg_spec(b: Seq<u8>) -> Result<MessageView, DecodeErrorView> {
    let i = skip_json_ws(b, 0);
    if i < 0 || i >= b.len() || b[i] != 123 {
        Err(DecodeErrorView::Syntax)
    } else {
        let a = skip_json_ws(b, i + 1);
        if a <= i || a >= b.len() {
            Err(DecodeErrorView::Syntax)
        } else if b[a] == 125 {
            finish(b, a + 1, empty_env())
        } else {
            match parse_fields(b, a, empty_env()) {
                Err(e) => Err(e),
                Ok((env, p)) => finish(b, p, env),
            }
        }
    }
}

/// A field name as written on the wire: quoted, with its colon.
pub open spec fn qkey(k: Seq<u8>) -> Seq<u8> {
    seq![34u8] + k + seq![34u8, 58u8]
}

/// A string value as written on the wire.
pub open spec fn qstr(s: Seq<char>) -> Seq<u8> {
    seq![34u8] + esc(encode_utf8(s)) + seq![34u8]
}

/// A kind literal as written on the wire (its bytes need no escaping).
pub open spec fn qplain(k: Seq<u8>) -> Seq<u8> {
    seq![34u8] + k + seq![34u8]
}

pub open spec fn lit_true() -> Seq<u8> {
    seq![116u8, 114u8, 117u8, 101u8]
}

pub open spec fn lit_false() -> Seq<u8> {
    seq![102u8, 97u8, 108u8, 115u8, 101u8]
}

/// An optional trailing opaque field: absent values are omitted entirely.
pub open spec fn opt_raw_out(key: Seq<u8>, p: Option<Seq<u8>>) -> Seq<u8> {
    match p {
        None => Seq::empty(),
        Some(a) => seq![44u8] + qkey(key) + a,
    }
}

/// An optional trailing string field: absent values are omitted entirely.
pub open spec fn opt_str_out(key: Seq<u8>, s: Option<Seq<char>>) -> Seq<u8> {
    match s {
        None => Seq::empty(),
        Some(m) => seq![44u8] + qkey(key) + qstr(m),
    }
}

/// The wire form of a message: one object, the envelope fields in a fixed
/// order, absent optional fields omitted.
pub open spec fn serialize_msg(v: MessageView) -> Seq<u8> {
    match v {
        MessageView::Request { seq, command, arguments } => seq![123u8] + qkey(kb_seq())
            + dec_digits(seq as nat) + seq![44u8] + qkey(kb_type()) + qplain(kind_request())
            + seq![44u8] + qkey(kb_command()) + qstr(command) + opt_raw_out(kb_arguments(), arguments)
            + seq![125u8],
        MessageView::Response { request_seq, success, command, message, body } => seq![123u8]
            + qkey(kb_type()) + qplain(kind_response()) + seq![44u8] + qkey(kb_request_seq())
            + dec_digits(request_seq as nat) + seq![44u8] + qkey(kb_success())
            + (if success { lit_true() } else { lit_false() }) + seq![44u8] + qkey(kb_command())
            + qstr(command) + opt_str_out(kb_message(), message) + opt_raw_out(kb_body(), body)
            + seq![125u8],
        MessageView::Event { seq, event, body } => seq![123u8] + qkey(kb_seq())
            + dec_digits(seq as nat) + seq![44u8] + qkey(kb_type()) + qplain(kind_event())
            + seq![44u8] + qkey(kb_event()) + qstr(event) + opt_raw_out(kb_body(), body)
            + seq![125u8],
    }
}

/// Appends a quoted string value, escaping its bytes.
fn append_qstr(out: &mut Vec<u8>, s: &str)
    ensures
        final(out)@ == old(out)@ + qstr(s@),
{
    out.push(34);
    escape_append(out, s.as_bytes());
    out.push(34);
    proof {
        assert(out@ =~= old(out)@ + qstr(s@));
    }
}

/// Appends a positive sequence number in decimal.
fn append_seq_number(out: &mut Vec<u8>, n: i64)
    requires
        n >= 0,
    ensures
        final(out)@ == old(out)@ + dec_digits(n as nat),
{
    let mut d = u64_to_dec(n as u64);
    out.append(&mut d);
}

/// Encodes a message in its wire form. The caller sends only valid messages.
#[verifier::rlimit(100)]
pub fn serialize_message(m: &Message) -> (r: Vec<u8>)
    requires
        m.wf(),
    ensures
        r@ == serialize_msg(m@),
{
    let mut out: Vec<u8> = Vec::new();
    match m {
        Message::Request(rq) => {
            let h: [u8; 6] = [34, 115, 101, 113, 34, 58];
            let t: [u8; 16] = [44, 34, 116, 121, 112, 101, 34, 58, 34, 114, 101, 113, 117, 101, 115, 116, ];
            let c: [u8; 11] = [44, 34, 99, 111, 109, 109, 97, 110, 100, 34, 58];
            let a: [u8; 13] = [44, 34, 97, 114, 103, 117, 109, 101, 110, 116, 115, 34, 58];
            proof {
                assert(h@ =~= qkey(kb_seq()));
                assert(t@ =~= seq![44u8] + qkey(kb_type()) + qplain(kind_request()).take(8));
            }
            out.push(123);
            out.extend_from_slice(h.as_slice());
            append_seq_number(&mut out, rq.seq);
            out.extend_from_slice(t.as_slice());
            out.push(34);
            proof {
                assert(out@ =~= seq![123u8] + qkey(kb_seq()) + dec_digits(rq.seq as nat)
                    + seq![44u8] + qkey(kb_type()) + qplain(kind_request()));
            }
            out.extend_from_slice(c.as_slice());
            proof {
                assert(c@ =~= seq![44u8] + qkey(kb_command()));
            }
            append_qstr(&mut out, rq.command.as_str());
            match &rq.arguments {
                None => {},
                Some(p) => {
                    out.extend_from_slice(a.as_slice());
                    proof {
                        assert(a@ =~= seq![44u8] + qkey(kb_arguments()));
                    }
                    let pb = p.as_bytes();
                    out.extend_from_slice(pb);
                },
            }
            out.push(125);
            proof {
                assert(out@ =~= serialize_msg(m@));
            }
        },
        Message::Response(rs) => {
            let h: [u8; 20] = [123, 34, 116, 121, 112, 101, 34, 58, 34, 114, 101, 115, 112, 111,
                110, 115, 101, 34, 44, 34];
            let h2: [u8; 13] = [114, 101, 113, 117, 101, 115, 116, 95, 115, 101, 113, 34, 58];
            let su: [u8; 11] = [44, 34, 115, 117, 99, 99, 101, 115, 115, 34, 58];
            let c: [u8; 11] = [44, 34, 99, 111, 109, 109, 97, 110, 100, 34, 58];
            let me: [u8; 11] = [44, 34, 109, 101, 115, 115, 97, 103, 101, 34, 58];
            let bo: [u8; 8] = [44, 34, 98, 111, 100, 121, 34, 58];
            let tr: [u8; 4] = [116, 114, 117, 101];
            let fa: [u8; 5] = [102, 97, 108, 115, 101];
            out.extend_from_slice(h.as_slice());
            out.extend_from_slice(h2.as_slice());
            proof {
                assert(out@ =~= seq![123u8] + qkey(kb_type()) + qplain(kind_response())
                    + seq![44u8] + qkey(kb_request_seq()));
            }
            append_seq_number(&mut out, rs.request_seq);
            out.extend_from_slice(su.as_slice());
            proof {
                assert(su@ =~= seq![44u8] + qkey(kb_success()));
            }
            if rs.success {
                out.extend_from_slice(tr.as_slice());
                proof {
                    assert(tr@ =~= lit_true());
                }
            } else {
                out.extend_from_slice(fa.as_slice());
                proof {
                    assert(fa@ =~= lit_false());
                }
            }
            out.extend_from_slice(c.as_slice());
            proof {
                assert(c@ =~= seq![44u8] + qkey(kb_command()));
            }
            append_qstr(&mut out, rs.command.as_str());
            match &rs.message {
                None => {},
                Some(msg) => {
                    out.extend_from_slice(me.as_slice());
                    proof {
                        assert(me@ =~= seq![44u8] + qkey(kb_message()));
                    }
                    append_qstr(&mut out, msg.as_str());
                },
            }
            match &rs.body {
                None => {},
                Some(p) => {
                    out.extend_from_slice(bo.as_slice());
                    proof {
                        assert(bo@ =~= seq![44u8] + qkey(kb_body()));
                    }
                    let pb = p.as_bytes();
                    out.extend_from_slice(pb);
                },
            }
            out.push(125);
            proof {
                assert(out@ =~= serialize_msg(m@));
            }
        },
        Message::Event(ev) => {
            let h: [u8; 6] = [34, 115, 101, 113, 34, 58];
            let t: [u8; 14] = [44, 34, 116, 121, 112, 101, 34, 58, 34, 101, 118, 101, 110, 116];
            let ee: [u8; 9] = [44, 34, 101, 118, 101, 110, 116, 34, 58];
            let bo: [u8; 8] = [44, 34, 98, 111, 100, 121, 34, 58];
            out.push(123);
            out.extend_from_slice(h.as_slice());
            proof {
                assert(h@ =~= qkey(kb_seq()));
            }
            append_seq_number(&mut out, ev.seq);
            out.extend_from_slice(t.as_slice());
            out.push(34);
            proof {
                assert(out@ =~= seq![123u8] + qkey(kb_seq()) + dec_digits(ev.seq as nat)
                    + seq![44u8] + qkey(kb_type()) + qplain(kind_event()));
            }
            out.extend_from_slice(ee.as_slice());
            proof {
                assert(ee@ =~= seq![44u8] + qkey(kb_event()));
            }
            append_qstr(&mut out, ev.event.as_str());
            match &ev.body {
                None => {},
                Some(p) => {
                    out.extend_from_slice(bo.as_slice());
                    proof {
                        assert(bo@ =~= seq![44u8] + qkey(kb_body()));
                    }
                    let pb = p.as_bytes();
                    out.extend_from_slice(pb);
                },
            }
            out.push(125);
            proof {
                assert(out@ =~= serialize_msg(m@));
            }
        },
    }
    out
}

/// The integer part of the serializer round trip: a rendered sequence
/// number followed by a non-digit reads back as exactly that number.
pub proof fn lemma_int_field_of_digits(b: Seq<u8>, v: int, n: int)
    requires
        0 <= v,
        0 <= n <= i64::MAX,
        v + dec_digits(n as nat).len() < b.len(),
        b.subrange(v, v + dec_digits(n as nat).len()) == dec_digits(n as nat),
        !is_digit(b[v + dec_digits(n as nat).len()]),
    ensures
        int_field(b, v) == Ok::<_, DecodeErrorView>((n, v + dec_digits(n as nat).len())),
{
    let dd = dec_digits(n as nat);
    crate::text::lemma_dec_digits_are_digits(n as nat);
    crate::text::lemma_dec_val_of_digits(n as nat);
    assert forall|k: int| v <= k < v + dd.len() implies is_digit(b[k]) by {
        assert(b.subrange(v, v + dd.len() as int)[k - v] == dd[k - v]);
        assert(b[k] == dd[k - v]);
    }
    assert(is_digit(b[v]));
    crate::text::lemma_digit_run_end_of_block(b, v, v + dd.len(), b.len() as int);
    assert(b.subrange(v, v + dd.len() as int) =~= dd);
}

/// The string part of the serializer round trip: a quoted, escaped string
/// field reads back as exactly its content bytes.
pub proof fn lemma_str_field_of_esc(b: Seq<u8>, v: int, s: Seq<u8>)
    requires
        0 <= v,
        v + esc(s).len() + 2 <= b.len(),
        b[v] == 34,
        b.subrange(v + 1, v + 2 + esc(s).len()) == esc(s) + seq![34u8],
    ensures
        str_field(b, v) == Ok::<_, DecodeErrorView>((s, v + 2 + esc(s).len())),
{
    crate::json::lemma_parse_string_of_esc(b, v + 1, s);
}

/// Relies on str::from_utf8: it succeeds exactly on valid UTF-8 as vstd's
/// model defines it (overlong encodings and surrogates rejected).
#[verifier::external_body]
fn utf8_check(v: &[u8]) -> (r: bool)
    ensures
        r == valid_utf8(v@),
{
    core::str::from_utf8(v).is_ok()
}

/// Relies on String::from_utf8: it returns `Ok` exactly on valid UTF-8 and
/// decodes the bytes by the UTF-8 scheme that vstd's model writes out.
#[verifier::external_body]
fn bytes_to_string(v: Vec<u8>) -> (r: Option<String>)
    ensures
        r matches Some(s) ==> valid_utf8(v@) && s@ == decode_utf8(v@),
        r is None ==> !valid_utf8(v@),
{
    String::from_utf8(v).ok()
}

fn bytes_eq(a: &[u8], b: &[u8]) -> (r: bool)
    ensures
        r == (a@ == b@),
{
    if a.len() != b.len() {
        proof {
            assert(a@.len() != b@.len());
        }
        return false;
    }
    let mut i: usize = 0;
    while i < a.len()
        invariant
            i <= a@.len(),
            a@.len() == b@.len(),
            forall|k: int| 0 <= k < i ==> a@[k] == b@[k],
        decreases a@.len() - i,
    {
        if a[i] != b[i] {
            return false;
        }
        i = i + 1;
    }
    proof {
        assert(a@ =~= b@);
    }
    true
}

/// The gathered envelope fields, as the executable parser carries them.
struct Env {
    seq: Option<i64>,
    ty: Option<Vec<u8>>,
    command: Option<Vec<u8>>,
    request_seq: Option<i64>,
    success: Option<bool>,
    message: Option<Vec<u8>>,
    event: Option<Vec<u8>>,
    arguments: Option<Vec<u8>>,
    body: Option<Vec<u8>>,
}

pub open spec fn opt_i64_view(x: Option<i64>) -> Option<int> {
    match x {
        Some(v) => Some(v as int),
        None => None,
    }
}

pub open spec fn opt_vec_view(x: Option<Vec<u8>>) -> Option<Seq<u8>> {
    match x {
        Some(v) => Some(v@),
        None => None,
    }
}

impl View for Env {
    type V = EnvView;

    closed spec fn view(&self) -> EnvView {
        EnvView {
            seq: opt_i64_view(self.seq),
            ty: opt_vec_view(self.ty),
            command: opt_vec_view(self.command),
            request_seq: opt_i64_view(self.request_seq),
            success: self.success,
            message: opt_vec_view(self.message),
            event: opt_vec_view(self.event),
            arguments: opt_vec_view(self.arguments),
            body: opt_vec_view(self.body),
        }
    }
}

/// The opaque fields the parser has gathered are value texts in valid UTF-8.
spec fn env_wf(env: &Env) -> bool {
    &&& (env.arguments matches Some(v) ==> is_value_text(v@) && valid_utf8(v@))
    &&& (env.body matches Some(v) ==> is_value_text(v@) && valid_utf8(v@))
}

fn int_field_at(b: &[u8], v: usize) -> (r: Result<(i64, usize), DecodeError>)
    requires
        v < b@.len(),
    ensures
        match r {
            Ok((val, e)) => int_field(b@, v as int) == Ok::<_, DecodeErrorView>((val as int, e as int)) && v < e <= b@.len(),
            Err(err) => int_field(b@, v as int) == Err::<(int, int), _>(err@),
        },
{
    if !(b[v] >= 48 && b[v] <= 57) {
        return Err(DecodeError::BadField);
    }
    let (val, e) = parse_dec_run(b, v, b.len());
    proof {
        lemma_dec_val_nonneg(b@.subrange(v as int, e as int));
        assert(digit_run_end(b@, v as int, b@.len() as int)
            == digit_run_end(b@, v + 1 as int, b@.len() as int));
        crate::text::lemma_digit_run_end_bounds(b@, v + 1 as int, b@.len() as int);
    }
    match val {
        None => Err(DecodeError::BadField),
        Some(x) => {
            if x > i64::MAX as u64 {
                Err(DecodeError::BadField)
            } else {
                Ok((x as i64, e))
            }
        },
    }
}

fn str_field_at(b: &[u8], v: usize) -> (r: Result<(Vec<u8>, usize), DecodeError>)
    requires
        v < b@.len(),
    ensures
        match r {
            Ok((s, e)) => str_field(b@, v as int) == Ok::<_, DecodeErrorView>((s@, e as int)) && v < e <= b@.len(),
            Err(err) => str_field(b@, v as int) == Err::<(Seq<u8>, int), _>(err@),
        },
{
    if b[v] != 34 {
        return Err(DecodeError::BadField);
    }
    proof {
        lemma_parse_string_body_bounds(b@, v + 1 as int);
    }
    match parse_string_body_at(b, v + 1) {
        None => Err(DecodeError::Syntax),
        Some((s, e)) => Ok((s, e)),
    }
}

fn bool_field_at(b: &[u8], v: usize) -> (r: Result<(bool, usize), DecodeError>)
    requires
        v < b@.len(),
    ensures
        match r {
            Ok((val, e)) => bool_field(b@, v as int) == Ok::<_, DecodeErrorView>((val, e as int)) && v < e <= b@.len(),
            Err(err) => bool_field(b@, v as int) == Err::<(bool, int), _>(err@),
        },
{
    if b[v] == 116 && b.len() - v >= 4 && b[v + 1] == 114 && b[v + 2] == 117 && b[v + 3] == 101 {
        Ok((true, v + 4))
    } else if b[v] == 102 && b.len() - v >= 5 && b[v + 1] == 97 && b[v + 2] == 108 && b[v + 3] == 115
        && b[v + 4] == 101 {
        Ok((false, v + 5))
    } else {
        Err(DecodeError::BadField)
    }
}

fn raw_field_at(b: &[u8], v: usize) -> (r: Result<(Vec<u8>, usize), DecodeError>)
    requires
        v < b@.len(),
    ensures
        match r {
            Ok((raw, e)) => raw_field(b@, v as int) == Ok::<_, DecodeErrorView>((raw@, e as int)) && v < e <= b@.len()
                && is_value_text(raw@) && valid_utf8(raw@),
            Err(err) => raw_field(b@, v as int) == Err::<(Seq<u8>, int), _>(err@),
        },
{
    match scan_value_at(b, v) {
        None => Err(DecodeError::Syntax),
        Some(e) => {
            let raw = copy_range(b, v, e);
            match scan_value_at(raw.as_slice(), 0) {
                Some(j) => {
                    if j == raw.len() {
                        if utf8_check(raw.as_slice()) {
                            Ok((raw, e))
                        } else {
                            Err(DecodeError::Syntax)
                        }
                    } else {
                        Err(DecodeError::Syntax)
                    }
                },
                None => Err(DecodeError::Syntax),
            }
        },
    }
}

fn field_value_at(b: &[u8], v: usize, key: &Vec<u8>, env: Env) -> (r: Result<
    (Env, usize),
    DecodeError,
>)
    requires
        v < b@.len(),
        env_wf(&env),
    ensures
        match r {
            Ok((env2, e)) => field_value(b@, v as int, key@, env@) == Ok::<_, DecodeErrorView>((env2@, e as int))
                && env_wf(&env2) && v < e <= b@.len(),
            Err(err) => field_value(b@, v as int, key@, env@) == Err::<(EnvView, int), _>(err@),
        },
{
    let k_seq: [u8; 3] = [115, 101, 113];
    let k_request_seq: [u8; 11] = [114, 101, 113, 117, 101, 115, 116, 95, 115, 101, 113];
    let k_type: [u8; 4] = [116, 121, 112, 101];
    let k_command: [u8; 7] = [99, 111, 109, 109, 97, 110, 100];
    let k_message: [u8; 7] = [109, 101, 115, 115, 97, 103, 101];
    let k_event: [u8; 5] = [101, 118, 101, 110, 116];
    let k_success: [u8; 7] = [115, 117, 99, 99, 101, 115, 115];
    let k_arguments: [u8; 9] = [97, 114, 103, 117, 109, 101, 110, 116, 115];
    let k_body: [u8; 4] = [98, 111, 100, 121];
    proof {
        assert(k_seq@ =~= kb_seq());
        assert(k_request_seq@ =~= kb_request_seq());
        assert(k_type@ =~= kb_type());
        assert(k_command@ =~= kb_command());
        assert(k_message@ =~= kb_message());
        assert(k_event@ =~= kb_event());
        assert(k_success@ =~= kb_success());
        assert(k_arguments@ =~= kb_arguments());
        assert(k_body@ =~= kb_body());
    }
    if bytes_eq(key.as_slice(), k_seq.as_slice()) {
        if env.seq.is_some() {
            return Err(DecodeError::DuplicateField);
        }
        match int_field_at(b, v) {
            Err(e) => Err(e),
            Ok((val, e)) => Ok((Env { seq: Some(val), ..env }, e)),
        }
    } else if bytes_eq(key.as_slice(), k_request_seq.as_slice()) {
        if env.request_seq.is_some() {
            return Err(DecodeError::DuplicateField);
        }
        match int_field_at(b, v) {
            Err(e) => Err(e),
            Ok((val, e)) => Ok((Env { request_seq: Some(val), ..env }, e)),
        }
    } else if bytes_eq(key.as_slice(), k_type.as_slice()) {
        if env.ty.is_some() {
            return Err(DecodeError::DuplicateField);
        }
        match str_field_at(b, v) {
            Err(e) => Err(e),
            Ok((s, e)) => Ok((Env { ty: Some(s), ..env }, e)),
        }
    } else if bytes_eq(key.as_slice(), k_command.as_slice()) {
        if env.command.is_some() {
            return Err(DecodeError::DuplicateField);
        }
        match str_field_at(b, v) {
            Err(e) => Err(e),
            Ok((s, e)) => Ok((Env { command: Some(s), ..env }, e)),
        }
    } else if bytes_eq(key.as_slice(), k_message.as_slice()) {
        if env.message.is_some() {
            return Err(DecodeError::DuplicateField);
        }
        match str_field_at(b, v) {
            Err(e) => Err(e),
            Ok((s, e)) => Ok((Env { message: Some(s), ..env }, e)),
        }
    } else if bytes_eq(key.as_slice(), k_event.as_slice()) {
        if env.event.is_some() {
            return Err(DecodeError::DuplicateField);
        }
        match str_field_at(b, v) {
            Err(e) => Err(e),
            Ok((s, e)) => Ok((Env { event: Some(s), ..env }, e)),
        }
    } else if bytes_eq(key.as_slice(), k_success.as_slice()) {
        if env.success.is_some() {
            return Err(DecodeError::DuplicateField);
        }
        match bool_field_at(b, v) {
            Err(e) => Err(e),
            Ok((val, e)) => Ok((Env { success: Some(val), ..env }, e)),
        }
    } else if bytes_eq(key.as_slice(), k_arguments.as_slice()) {
        if env.arguments.is_some() {
            return Err(DecodeError::DuplicateField);
        }
        match raw_field_at(b, v) {
            Err(e) => Err(e),
            Ok((raw, e)) => Ok((Env { arguments: Some(raw), ..env }, e)),
        }
    } else if bytes_eq(key.as_slice(), k_body.as_slice()) {
        if env.body.is_some() {
            return Err(DecodeError::DuplicateField);
        }
        match raw_field_at(b, v) {
            Err(e) => Err(e),
            Ok((raw, e)) => Ok((Env { body: Some(raw), ..env }, e)),
        }
    } else {
        match scan_value_at(b, v) {
            None => Err(DecodeError::Syntax),
            Some(e) => Ok((env, e)),
        }
    }
}

fn parse_fields_at(b: &[u8], i: usize, env: Env) -> (r: Result<(Env, usize), DecodeError>)
    requires
        i <= b@.len(),
        env_wf(&env),
    ensures
        match r {
            Ok((env2, p)) => parse_fields(b@, i as int, env@) == Ok::<_, DecodeErrorView>((env2@, p as int))
                && env_wf(&env2) && p <= b@.len(),
            Err(err) => parse_fields(b@, i as int, env@) == Err::<(EnvView, int), _>(err@),
        },
    decreases b@.len() - i,
{
    if i == b.len() || b[i] != 34 {
        return Err(DecodeError::Syntax);
    }
    proof {
        lemma_parse_string_body_bounds(b@, i + 1 as int);
    }
    match parse_string_body_at(b, i + 1) {
        None => Err(DecodeError::Syntax),
        Some((key, j)) => {
            let c = skip_json_ws_at(b, j);
            if c == b.len() || b[c] != 58 {
                return Err(DecodeError::Syntax);
            }
            let v = skip_json_ws_at(b, c + 1);
            if v == b.len() {
                return Err(DecodeError::Syntax);
            }
            proof {
                assert(v > i);
            }
            match field_value_at(b, v, &key, env) {
                Err(e) => Err(e),
                Ok((env2, e)) => {
                    let t = skip_json_ws_at(b, e);
                    if t < b.len() && b[t] == 125 {
                        Ok((env2, t + 1))
                    } else if t < b.len() && b[t] == 44 {
                        let n = skip_json_ws_at(b, t + 1);
                        proof {
                            assert(n > i);
                        }
                        parse_fields_at(b, n, env2)
                    } else {
                        Err(DecodeError::Syntax)
                    }
                },
            }
        },
    }
}

/// Wraps bytes the parser has already checked to be one value text in
/// valid UTF-8.
fn payload_from_valid(bytes: Vec<u8>) -> (r: Payload)
    requires
        is_value_text(bytes@),
        valid_utf8(bytes@),
    ensures
        r@ == bytes@,
{
    Payload { bytes }
}

fn assemble_at(env: Env) -> (r: Result<Message, DecodeError>)
    requires
        env_wf(&env),
    ensures
        match r {
            Ok(m) => assemble(env@) == Ok::<_, DecodeErrorView>(m@),
            Err(err) => assemble(env@) == Err::<MessageView, _>(err@),
        },
{
    let k_request: [u8; 7] = [114, 101, 113, 117, 101, 115, 116];
    let k_response: [u8; 8] = [114, 101, 115, 112, 111, 110, 115, 101];
    let k_event: [u8; 5] = [101, 118, 101, 110, 116];
    proof {
        assert(k_request@ =~= kind_request());
        assert(k_response@ =~= kind_response());
        assert(k_event@ =~= kind_event());
    }
    let Env { seq, ty, command, request_seq, success, message, event, arguments, body } = env;
    match ty {
        None => Err(DecodeError::MissingField),
        Some(ty) => {
            if bytes_eq(ty.as_slice(), k_request.as_slice()) {
                match (seq, command) {
                    (Some(sq), Some(cmd)) => {
                        if sq < 1 {
                            Err(DecodeError::BadField)
                        } else if cmd.len() == 0 {
                            Err(DecodeError::BadField)
                        } else {
                            match bytes_to_string(cmd) {
                                None => Err(DecodeError::Syntax),
                                Some(s) => Ok(Message::Request(Request {
                                    seq: sq,
                                    command: s,
                                    arguments: match arguments {
                                        None => None,
                                        Some(v) => Some(payload_from_valid(v)),
                                    },
                                })),
                            }
                        }
                    },
                    _ => Err(DecodeError::MissingField),
                }
            } else if bytes_eq(ty.as_slice(), k_response.as_slice()) {
                match (request_seq, success, command) {
                    (Some(rs), Some(ok), Some(cmd)) => {
                        if rs < 1 {
                            Err(DecodeError::BadField)
                        } else if cmd.len() == 0 {
                            Err(DecodeError::BadField)
                        } else {
                            match bytes_to_string(cmd) {
                                None => Err(DecodeError::Syntax),
                                Some(s) => {
                                    let msg = match message {
                                        None => None,
                                        Some(m) => match bytes_to_string(m) {
                                            None => {
                                                return Err(DecodeError::Syntax);
                                            },
                                            Some(ms) => Some(ms),
                                        },
                                    };
                                    Ok(Message::Response(Response {
                                        request_seq: rs,
                                        success: ok,
                                        command: s,
                                        message: msg,
                                        body: match body {
                                            None => None,
                                            Some(v) => Some(payload_from_valid(v)),
                                        },
                                    }))
                                },
                            }
                        }
                    },
                    _ => Err(DecodeError::MissingField),
                }
            } else if bytes_eq(ty.as_slice(), k_event.as_slice()) {
                match (seq, event) {
                    (Some(sq), Some(ev)) => {
                        if sq < 1 {
                            Err(DecodeError::BadField)
                        } else if ev.len() == 0 {
                            Err(DecodeError::BadField)
                        } else {
                            match bytes_to_string(ev) {
                                None => Err(DecodeError::Syntax),
                                Some(s) => Ok(Message::Event(Event {
                                    seq: sq,
                                    event: s,
                                    body: match body {
                                        None => None,
                                        Some(v) => Some(payload_from_valid(v)),
                                    },
                                })),
                            }
                        }
                    },
                    _ => Err(DecodeError::MissingField),
                }
            } else {
                match bytes_to_string(ty) {
                    None => Err(DecodeError::Syntax),
                    Some(s) => Err(DecodeError::UnknownKind(s)),
                }
            }
        },
    }
}

/// Decodes one payload into a message; the error says why the payload is
/// malformed, and never affects any other frame.
pub fn parse_message(b: &[u8]) -> (r: Result<Message, DecodeError>)
    ensures
        match r {
            Ok(m) => parse_msg_spec(b@) == Ok::<_, DecodeErrorView>(m@),
            Err(err) => parse_msg_spec(b@) == Err::<MessageView, _>(err@),
        },
{
    let i = skip_json_ws_at(b, 0);
    if i == b.len() || b[i] != 123 {
        return Err(DecodeError::Syntax);
    }
    let a = skip_json_ws_at(b, i + 1);
    if a == b.len() {
        return Err(DecodeError::Syntax);
    }
    let empty = Env {
        seq: None,
        ty: None,
        command: None,
        request_seq: None,
        success: None,
        message: None,
        event: None,
        arguments: None,
        body: None,
    };
    proof {
        assert(empty@ == empty_env());
    }
    if b[a] == 125 {
        let t = skip_json_ws_at(b, a + 1);
        if t != b.len() {
            return Err(DecodeError::Syntax);
        }
        assemble_at(empty)
    } else {
        match parse_fields_at(b, a, empty) {
            Err(e) => Err(e),
            Ok((env, p)) => {
                let t = skip_json_ws_at(b, p);
                if t != b.len() {
                    return Err(DecodeError::Syntax);
                }
                assemble_at(env)
            },
        }
    }
}

} // verus!
