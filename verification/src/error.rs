//! The errors of the library: their codes, their JSON shape and their text.
use vstd::prelude::*;

use crate::json::{
    distinct_keys, duplicate_value, entries_of, int_value, object_view, single_entry, text_value,
    valid, Json, NumberModel, Segment, Value,
};
use crate::json_path::{json_get, key_names_its_entry};
use crate::text::{chars_of, decimal, decimal_text, digits, starts_with, substring};

verus! {

/// Input validation failed.
pub const E_VALIDATION: i64 = 893001;

/// No such method or service.
pub const E_SUBCMD: i64 = 893002;

/// An I/O operation failed.
pub const E_IO: i64 = 893003;

/// Output of the command line itself: help, version, usage errors.
pub const E_CLI: i64 = 893004;

/// The client is configured wrongly.
pub const E_CONFIG_CLIENT: i64 = 893005;

/// A path is out of bounds.
pub const E_PERMISSION: i64 = 893006;

/// The server answered with an HTTP error.
pub const E_HTTP: i64 = 893102;

/// The server's answer could not be parsed.
pub const E_PARSE: i64 = 893103;

/// Everything else.
pub const E_OTHER: i64 = 893999;

/// The backend's code for wrong parameters: the command's help is shown.
pub const ERRCODE_SHOW_HELP: i64 = 10021;

/// The longest text of a command line's output that an error reports.
pub const TRUNC_LEN: usize = 100;

/// What the command line parser found wrong.
#[derive(Debug)]
pub struct UsageIssue {
    /// Whether a subcommand was not recognised.
    pub invalid_subcommand: bool,
    /// The parser's own description of the kind of problem, where it has one.
    pub description: Option<String>,
}

/// An error that is carried with its category.
#[derive(Debug)]
pub enum Payload {
    Validation(String),
    Config(String),
    Permission(String),
    Io { message: String, kind: String },
    Other(String),
    Http { message: String, endpoint: String, status: u16 },
    Parse { message: String, endpoint: String, body: Value },
    Api { message: String, action: String, code: Option<i64>, body: Value },
    Nested(Box<Error>),
}

/// The errors of the library.
#[derive(Debug)]
pub enum Error {
    /// An error carried with its category.
    Wrapped(Payload),
    /// Output of the command line itself, ready for display: `code` is the
    /// exit code, `0` for help and version and `2` for usage errors.
    CliOutput { code: i32, message: String, source: Option<UsageIssue> },
}

/// The text before the first line break.
pub open spec fn first_line(s: Seq<char>) -> Seq<char>
    decreases s.len(),
{
    if s.len() == 0 || s[0] == '\n' {
        Seq::empty()
    } else {
        seq![s[0]] + first_line(s.drop_first())
    }
}

/// A text cut down for a report: no more than its first line, and no more than
/// `max` characters of it, with a mark where something was cut.
pub open spec fn truncated(s: Seq<char>, max: nat) -> Seq<char> {
    let line = first_line(s);
    if line.len() > max {
        line.take(max as int) + "[TRUNC]"@
    } else if line.len() < s.len() {
        line + "\n[TRUNC]"@
    } else {
        s
    }
}

/// The number of characters before the first line break.
fn first_line_len(v: &Vec<char>) -> (r: usize)
    ensures
        r <= v@.len(),
        v@.take(r as int) == first_line(v@),
{
    let mut i: usize = 0;
    assert(v@.skip(0) =~= v@);
    assert(v@.take(0) =~= Seq::empty());
    assert(Seq::<char>::empty() + first_line(v@) =~= first_line(v@));
    while i < v.len() && v[i] != '\n'
        invariant
            i <= v@.len(),
            v@.take(i as int) + first_line(v@.skip(i as int)) == first_line(v@),
        decreases v@.len() - i,
    {
        proof {
            let rest = v@.skip(i as int);
            assert(rest.drop_first() =~= v@.skip(i + 1));
            assert(v@.take(i + 1) + first_line(v@.skip(i + 1)) =~= v@.take(i as int) + (
            seq![rest[0]] + first_line(rest.drop_first())));
        }
        i += 1;
    }
    proof {
        assert(first_line(v@.skip(i as int)) =~= Seq::empty());
        assert(v@.take(i as int) + Seq::<char>::empty() =~= v@.take(i as int));
    }
    i
}

/// A text cut down for a report.
pub fn trunc_display(message: &str, max: usize) -> (r: String)
    ensures
        r@ == truncated(message@, max as nat),
{
    let v = chars_of(message);
    let n: usize = first_line_len(&v);
    if n > max {
        let mut out = substring(&v, 0, max);
        assert(v@.subrange(0, max as int) =~= first_line(v@).take(max as int));
        out.append("[TRUNC]");
        out
    } else if n < v.len() {
        let mut out = substring(&v, 0, n);
        assert(v@.subrange(0, n as int) =~= first_line(v@));
        out.append("\n[TRUNC]");
        out
    } else {
        message.to_owned()
    }
}

impl Payload {
    /// The category code.
    pub open spec fn code_spec(self) -> i64
        decreases self,
    {
        match self {
            Payload::Validation(_) => E_VALIDATION,
            Payload::Config(_) => E_CONFIG_CLIENT,
            Payload::Permission(_) => E_PERMISSION,
            Payload::Io { .. } => E_IO,
            Payload::Other(_) => E_OTHER,
            Payload::Http { .. } => E_HTTP,
            Payload::Parse { .. } => E_PARSE,
            Payload::Api { code, .. } => match code {
                Some(c) => c,
                None => 0,
            },
            Payload::Nested(inner) => inner.code_spec(),
        }
    }

    /// The message.
    pub open spec fn message_spec(self) -> Seq<char>
        decreases self,
    {
        match self {
            Payload::Validation(message) => message@,
            Payload::Config(message) => message@,
            Payload::Permission(message) => message@,
            Payload::Io { message, .. } => message@,
            Payload::Other(message) => message@,
            Payload::Http { message, .. } => message@,
            Payload::Parse { message, .. } => message@,
            Payload::Api { message, .. } => message@,
            Payload::Nested(inner) => inner.message_spec(),
        }
    }

    /// The label of the category.
    pub open spec fn error_type_spec(self) -> Seq<char>
        decreases self,
    {
        match self {
            Payload::Validation(_) => "ValidationError"@,
            Payload::Config(_) => "ConfigError"@,
            Payload::Permission(_) => "PermissionError"@,
            Payload::Io { .. } => "IOError"@,
            Payload::Other(_) => "UnknownError"@,
            Payload::Http { .. } => "HTTPError"@,
            Payload::Parse { .. } => "ParseError"@,
            Payload::Api { .. } => "APIError"@,
            Payload::Nested(inner) => inner.error_type_spec(),
        }
    }

    /// The JSON shape: the server's own body for its errors; for all others
    /// type, code and message, and what the category adds.
    pub open spec fn json_spec(self) -> Json
        decreases self,
    {
        match self {
            Payload::Api { body, .. } => body@,
            Payload::Nested(inner) => inner.json_spec(),
            Payload::Io { message, kind } => error_object(
                self.error_type_spec(),
                self.code_spec(),
                message@,
                seq![("kind"@, Json::String(kind@))],
            ),
            Payload::Http { message, endpoint, status } => error_object(
                self.error_type_spec(),
                self.code_spec(),
                message@,
                seq![
                    ("endpoint"@, Json::String(endpoint@)),
                    ("status"@, Json::Number(NumberModel::Int(status as int))),
                ],
            ),
            Payload::Parse { message, endpoint, body } => error_object(
                self.error_type_spec(),
                self.code_spec(),
                message@,
                seq![("endpoint"@, Json::String(endpoint@)), ("body"@, body@)],
            ),
            _ => error_object(
                self.error_type_spec(),
                self.code_spec(),
                self.message_spec(),
                Seq::empty(),
            ),
        }
    }
}

/// The JSON object for an error: under `error`, its type, code and message,
/// and what else there is.
pub open spec fn error_object(
    error_type: Seq<char>,
    code: i64,
    message: Seq<char>,
    more: Seq<(Seq<char>, Json)>,
) -> Json {
    Json::Object(
        seq![
            (
                "error"@,
                Json::Object(
                    seq![
                        ("type"@, Json::String(error_type)),
                        ("code"@, Json::Number(NumberModel::Int(code as int))),
                        ("message"@, Json::String(message)),
                    ] + more,
                ),
            ),
        ],
    )
}

/// What is reported of the kind of a usage issue: the parser's description,
/// `null` where there is none.
pub open spec fn issue_json(source: Option<UsageIssue>) -> Json {
    match source {
        Some(issue) => match issue.description {
            Some(text) => Json::String(text@),
            None => Json::Null,
        },
        None => Json::Null,
    }
}

/// The JSON shape of the command line's own output.
pub open spec fn cli_output_json(
    error_code: i64,
    code: i32,
    message: Seq<char>,
    source: Option<UsageIssue>,
) -> Json {
    error_object(
        "CliOutput"@,
        error_code,
        truncated(message, TRUNC_LEN as nat),
        seq![
            ("kind"@, issue_json(source)),
            ("exit_code"@, Json::Number(NumberModel::Int(code as int))),
        ],
    )
}

impl Error {
    /// The category code.
    pub open spec fn code_spec(self) -> i64
        decreases self,
    {
        match self {
            Error::Wrapped(payload) => payload.code_spec(),
            Error::CliOutput { source, .. } => if source is Some && source->0.invalid_subcommand {
                E_SUBCMD
            } else {
                E_CLI
            },
        }
    }

    /// The message.
    pub open spec fn message_spec(self) -> Seq<char>
        decreases self,
    {
        match self {
            Error::Wrapped(payload) => payload.message_spec(),
            Error::CliOutput { message, .. } => message@,
        }
    }

    /// The label of the category.
    pub open spec fn error_type_spec(self) -> Seq<char>
        decreases self,
    {
        match self {
            Error::Wrapped(payload) => payload.error_type_spec(),
            Error::CliOutput { .. } => "CliOutput"@,
        }
    }

    /// The JSON shape.
    pub open spec fn json_spec(self) -> Json
        decreases self,
    {
        match self {
            Error::Wrapped(payload) => payload.json_spec(),
            Error::CliOutput { code, message, source } => cli_output_json(
                self.code_spec(),
                code,
                message@,
                source,
            ),
        }
    }

    /// The suggested exit code of the process.
    pub open spec fn exit_code_spec(self) -> i32 {
        match self {
            Error::CliOutput { code, .. } => code,
            Error::Wrapped(_) => 1,
        }
    }
}

/// The JSON object for an error.
fn error_value(error_type: &str, code: i64, message: &str, more: Vec<(String, Value)>) -> (r: Value)
    ensures
        r@ == error_object(error_type@, code, message@, entries_of(more@)),
{
    let mut fields: Vec<(String, Value)> = vec![
        ("type".to_owned(), text_value(error_type)),
        ("code".to_owned(), int_value(code)),
        ("message".to_owned(), text_value(message)),
    ];
    let mut more = more;
    let ghost added = entries_of(more@);
    fields.append(&mut more);
    proof {
        object_view(fields);
        assert(entries_of(fields@) =~= seq![
            ("type"@, Json::String(error_type@)),
            ("code"@, Json::Number(NumberModel::Int(code as int))),
            ("message"@, Json::String(message@)),
        ] + added);
    }
    single_entry("error", Value::Object(fields))
}

impl Payload {
    /// The category code. A server's error passes its own code on, `0` where
    /// it has none.
    pub fn code(&self) -> (r: i64)
        ensures
            r == self.code_spec(),
        decreases *self,
    {
        match self {
            Payload::Validation(_) => E_VALIDATION,
            Payload::Config(_) => E_CONFIG_CLIENT,
            Payload::Permission(_) => E_PERMISSION,
            Payload::Io { .. } => E_IO,
            Payload::Other(_) => E_OTHER,
            Payload::Http { .. } => E_HTTP,
            Payload::Parse { .. } => E_PARSE,
            Payload::Api { code, .. } => match code {
                Some(c) => *c,
                None => 0,
            },
            Payload::Nested(inner) => inner.code(),
        }
    }

    /// The message.
    pub fn message(&self) -> (r: String)
        ensures
            r@ == self.message_spec(),
        decreases *self,
    {
        match self {
            Payload::Validation(message) => message.clone(),
            Payload::Config(message) => message.clone(),
            Payload::Permission(message) => message.clone(),
            Payload::Io { message, .. } => message.clone(),
            Payload::Other(message) => message.clone(),
            Payload::Http { message, .. } => message.clone(),
            Payload::Parse { message, .. } => message.clone(),
            Payload::Api { message, .. } => message.clone(),
            Payload::Nested(inner) => inner.message(),
        }
    }

    /// The label of the category.
    pub fn error_type(&self) -> (r: &'static str)
        ensures
            r@ == self.error_type_spec(),
        decreases *self,
    {
        match self {
            Payload::Validation(_) => "ValidationError",
            Payload::Config(_) => "ConfigError",
            Payload::Permission(_) => "PermissionError",
            Payload::Io { .. } => "IOError",
            Payload::Other(_) => "UnknownError",
            Payload::Http { .. } => "HTTPError",
            Payload::Parse { .. } => "ParseError",
            Payload::Api { .. } => "APIError",
            Payload::Nested(inner) => inner.error_type(),
        }
    }

    /// The JSON shape.
    pub fn to_json(&self) -> (r: Value)
        ensures
            r@ == self.json_spec(),
        decreases *self,
    {
        let more: Vec<(String, Value)> = match self {
            Payload::Api { body, .. } => {
                return duplicate_value(body);
            },
            Payload::Nested(inner) => {
                return inner.to_json();
            },
            Payload::Io { kind, .. } => vec![("kind".to_owned(), text_value(kind.as_str()))],
            Payload::Http { endpoint, status, .. } => vec![
                ("endpoint".to_owned(), text_value(endpoint.as_str())),
                ("status".to_owned(), int_value(*status as i64)),
            ],
            Payload::Parse { endpoint, body, .. } => vec![
                ("endpoint".to_owned(), text_value(endpoint.as_str())),
                ("body".to_owned(), duplicate_value(body)),
            ],
            _ => Vec::new(),
        };
        proof {
            let entries = entries_of(more@);
            match self {
                Payload::Io { kind, .. } => {
                    assert(entries =~= seq![("kind"@, Json::String(kind@))]);
                },
                Payload::Http { endpoint, status, .. } => {
                    assert(entries =~= seq![
                        ("endpoint"@, Json::String(endpoint@)),
                        ("status"@, Json::Number(NumberModel::Int(*status as int))),
                    ]);
                },
                Payload::Parse { endpoint, body, .. } => {
                    assert(entries =~= seq![
                        ("endpoint"@, Json::String(endpoint@)),
                        ("body"@, body@),
                    ]);
                },
                _ => {
                    assert(entries =~= Seq::empty());
                },
            }
        }
        error_value(self.error_type(), self.code(), self.message().as_str(), more)
    }
}

/// Whether `r` is what to show for the error.
pub open spec fn rendered_as(r: Rendered, error: Error) -> bool
    decreases error,
{
    match error {
        Error::CliOutput { message, .. } => r matches Rendered::Text(text) && text@ == message@,
        Error::Wrapped(payload) => match payload {
            Payload::Nested(inner) => rendered_as(r, *inner),
            _ => r matches Rendered::Json(value) && value@ == error.json_spec(),
        },
    }
}

/// What to show for an error.
#[derive(Debug, PartialEq)]
pub enum Rendered {
    /// The text as it stands.
    Text(String),
    /// The JSON value, laid out for reading.
    Json(Value),
}

impl Error {
    /// Input validation failed.
    pub fn validation(message: &str) -> (r: Error)
        ensures
            r matches Error::Wrapped(Payload::Validation(m)) && m@ == message@,
    {
        Error::Wrapped(Payload::Validation(message.to_owned()))
    }

    /// The client or its builder is configured wrongly.
    pub fn config(message: &str) -> (r: Error)
        ensures
            r matches Error::Wrapped(Payload::Config(m)) && m@ == message@,
    {
        Error::Wrapped(Payload::Config(message.to_owned()))
    }

    /// A path is out of bounds.
    pub fn permission(message: &str) -> (r: Error)
        ensures
            r matches Error::Wrapped(Payload::Permission(m)) && m@ == message@,
    {
        Error::Wrapped(Payload::Permission(message.to_owned()))
    }

    /// An I/O operation failed: the context and the reason, with the kind of
    /// the I/O error.
    pub fn io(context: &str, reason: &str, kind: &str) -> (r: Error)
        ensures
            r matches Error::Wrapped(Payload::Io { message, kind: k }) && message@ == context@
                + ": "@ + reason@ && k@ == kind@,
    {
        let mut message: String = context.to_owned();
        message.append(": ");
        message.append(reason);
        Error::Wrapped(Payload::Io { message, kind: kind.to_owned() })
    }

    /// Everything that no other constructor is for.
    pub fn other(message: &str) -> (r: Error)
        ensures
            r matches Error::Wrapped(Payload::Other(m)) && m@ == message@,
    {
        Error::Wrapped(Payload::Other(message.to_owned()))
    }

    /// The category code: for the command line's own output, `E_SUBCMD` where
    /// a subcommand was not recognised and `E_CLI` otherwise.
    pub fn code(&self) -> (r: i64)
        ensures
            r == self.code_spec(),
        decreases *self,
    {
        match self {
            Error::Wrapped(payload) => payload.code(),
            Error::CliOutput { source, .. } => match source {
                Some(issue) => if issue.invalid_subcommand {
                    E_SUBCMD
                } else {
                    E_CLI
                },
                None => E_CLI,
            },
        }
    }

    /// The message.
    pub fn message(&self) -> (r: String)
        ensures
            r@ == self.message_spec(),
        decreases *self,
    {
        match self {
            Error::Wrapped(payload) => payload.message(),
            Error::CliOutput { message, .. } => message.clone(),
        }
    }

    /// The label of the category.
    pub fn error_type(&self) -> (r: &'static str)
        ensures
            r@ == self.error_type_spec(),
        decreases *self,
    {
        match self {
            Error::Wrapped(payload) => payload.error_type(),
            Error::CliOutput { .. } => "CliOutput",
        }
    }

    /// The JSON shape.
    pub fn to_json(&self) -> (r: Value)
        ensures
            r@ == self.json_spec(),
        decreases *self,
    {
        match self {
            Error::Wrapped(payload) => payload.to_json(),
            Error::CliOutput { code, message, source } => {
                let kind: Value = match source {
                    Some(issue) => match &issue.description {
                        Some(text) => text_value(text.as_str()),
                        None => Value::Null,
                    },
                    None => Value::Null,
                };
                assert(kind@ == issue_json(*source));
                let more: Vec<(String, Value)> = vec![
                    ("kind".to_owned(), kind),
                    ("exit_code".to_owned(), int_value(*code as i64)),
                ];
                proof {
                    assert(entries_of(more@) =~= seq![
                        ("kind"@, issue_json(*source)),
                        ("exit_code"@, Json::Number(NumberModel::Int(*code as int))),
                    ]);
                }
                let shown = trunc_display(message.as_str(), TRUNC_LEN);
                error_value("CliOutput", self.code(), shown.as_str(), more)
            },
        }
    }

    /// What to show: the command line's own output as it stands, every other
    /// error as JSON.
    pub fn render(&self) -> (r: Rendered)
        ensures
            rendered_as(r, *self),
        decreases *self,
    {
        match self {
            Error::CliOutput { message, .. } => Rendered::Text(message.clone()),
            Error::Wrapped(payload) => match payload {
                Payload::Nested(inner) => inner.render(),
                _ => Rendered::Json(self.to_json()),
            },
        }
    }

    /// The suggested exit code of the process: that of the command line's own
    /// output, `1` for every other error.
    pub fn exit_code(&self) -> (r: i32)
        ensures
            r == self.exit_code_spec(),
    {
        match self {
            Error::CliOutput { code, .. } => *code,
            Error::Wrapped(_) => 1,
        }
    }
}

/// The text of an error of a category.
pub open spec fn category_text(payload: Payload) -> Seq<char> {
    match payload {
        Payload::Io { message, kind } => "IoError: "@ + message@ + " [code="@ + decimal(E_IO as int)
            + ", kind="@ + kind@ + "]"@,
        _ => payload.error_type_spec() + ": "@ + payload.message_spec() + " [code="@ + decimal(
            payload.code_spec() as int,
        ) + "]"@,
    }
}

/// What is shown of the kind of a usage issue: the parser's description, `?`
/// where there is none.
pub open spec fn issue_text(source: Option<UsageIssue>) -> Seq<char> {
    match source {
        Some(issue) => match issue.description {
            Some(text) => text@,
            None => "?"@,
        },
        None => "?"@,
    }
}

impl Error {
    /// The error in one line, for logs.
    pub open spec fn display_spec(self) -> Seq<char>
        decreases self,
    {
        match self {
            Error::Wrapped(payload) => match payload {
                Payload::Nested(inner) => inner.display_spec(),
                _ => category_text(payload),
            },
            Error::CliOutput { code, message, source } => "CliOutput: "@ + truncated(
                message@,
                TRUNC_LEN as nat,
            ) + " [code="@ + decimal(self.code_spec() as int) + ", exit="@ + decimal(code as int)
                + ", kind="@ + issue_text(source) + "]"@,
        }
    }

    /// The error in one line, for logs.
    pub fn display(&self) -> (r: String)
        ensures
            r@ == self.display_spec(),
        decreases *self,
    {
        let mut out: String = String::new();
        match self {
            Error::Wrapped(payload) => {
                match payload {
                    Payload::Nested(inner) => {
                        return inner.display();
                    },
                    Payload::Io { message, kind } => {
                        out.append("IoError: ");
                        out.append(message.as_str());
                        out.append(" [code=");
                        out.append(decimal_text(E_IO).as_str());
                        out.append(", kind=");
                        out.append(kind.as_str());
                    },
                    _ => {
                        out.append(payload.error_type());
                        out.append(": ");
                        out.append(payload.message().as_str());
                        out.append(" [code=");
                        out.append(decimal_text(payload.code()).as_str());
                    },
                }
            },
            Error::CliOutput { code, message, source } => {
                out.append("CliOutput: ");
                out.append(trunc_display(message.as_str(), TRUNC_LEN).as_str());
                out.append(" [code=");
                out.append(decimal_text(self.code()).as_str());
                out.append(", exit=");
                out.append(decimal_text(*code as i64).as_str());
                out.append(", kind=");
                match source {
                    Some(issue) => match &issue.description {
                        Some(text) => out.append(text.as_str()),
                        None => out.append("?"),
                    },
                    None => out.append("?"),
                }
            },
        }
        out.append("]");
        assert(out@ =~= self.display_spec());
        out
    }
}

/// An error that is carried inside another keeps its code, label, message,
/// JSON shape and text; only the exit code is that of the carrier.
pub proof fn nesting_is_transparent(inner: Error, outer: Error)
    requires
        outer == Error::Wrapped(Payload::Nested(Box::new(inner))),
    ensures
        outer.code_spec() == inner.code_spec(),
        outer.error_type_spec() == inner.error_type_spec(),
        outer.message_spec() == inner.message_spec(),
        outer.json_spec() == inner.json_spec(),
        outer.display_spec() == inner.display_spec(),
        outer.exit_code_spec() == 1,
        forall|r: Rendered| rendered_as(r, outer) == rendered_as(r, inner),
{
    reveal_with_fuel(Error::code_spec, 3);
    reveal_with_fuel(Error::error_type_spec, 3);
    reveal_with_fuel(Error::message_spec, 3);
    reveal_with_fuel(Error::json_spec, 3);
    reveal_with_fuel(Payload::code_spec, 3);
    reveal_with_fuel(Payload::error_type_spec, 3);
    reveal_with_fuel(Payload::message_spec, 3);
    reveal_with_fuel(Payload::json_spec, 3);
}

proof fn first_line_is_prefix(s: Seq<char>)
    ensures
        first_line(s).len() <= s.len(),
        s.take(first_line(s).len() as int) == first_line(s),
        !first_line(s).contains('\n'),
        first_line(s).len() < s.len() ==> s[first_line(s).len() as int] == '\n',
    decreases s.len(),
{
    if s.len() > 0 && s[0] != '\n' {
        let rest = s.drop_first();
        first_line_is_prefix(rest);
        assert(s.take(first_line(s).len() as int) =~= first_line(s)) by {
            assert forall|i: int| 0 <= i < first_line(s).len() implies s[i] == first_line(s)[i] by {
                if i > 0 {
                    assert(rest.take(first_line(rest).len() as int)[i - 1] == rest[i - 1]);
                }
            }
        }
        if first_line(s).contains('\n') {
            let i = choose|i: int| 0 <= i < first_line(s).len() && first_line(s)[i] == '\n';
            assert(first_line(rest)[i - 1] == '\n');
        }
    } else {
        assert(s.take(0) =~= first_line(s));
    }
}

/// A text of one line and of no more than `max` characters is reported as it
/// stands; every report starts with what the text starts with.
pub proof fn truncation_keeps_short_lines(s: Seq<char>, max: nat)
    ensures
        !s.contains('\n') && s.len() <= max ==> truncated(s, max) == s,
        first_line(s).len() <= max ==> truncated(s, max).take(first_line(s).len() as int)
            == s.take(first_line(s).len() as int),
        first_line(s).len() > max ==> truncated(s, max).take(max as int) == s.take(max as int),
{
    first_line_is_prefix(s);
    let line = first_line(s);
    if line.len() < s.len() {
        assert(s.contains('\n')) by {
            assert(s[line.len() as int] == '\n');
        }
    }
    if line.len() > max {
        assert(truncated(s, max).take(max as int) =~= s.take(max as int)) by {
            assert forall|i: int| 0 <= i < max implies line[i] == s[i] by {
                assert(s.take(line.len() as int)[i] == s[i]);
            }
        }
    } else if line.len() < s.len() {
        assert(truncated(s, max).take(line.len() as int) =~= line);
    }
}

/// Whether the bodies that an error carries are valid.
pub open spec fn carries_valid(error: Error) -> bool
    decreases error,
{
    match error {
        Error::Wrapped(payload) => match payload {
            Payload::Parse { body, .. } => valid(body@),
            Payload::Api { body, .. } => valid(body@),
            Payload::Nested(inner) => carries_valid(*inner),
            _ => true,
        },
        Error::CliOutput { .. } => true,
    }
}

proof fn error_object_is_valid(
    error_type: Seq<char>,
    code: i64,
    message: Seq<char>,
    more: Seq<(Seq<char>, Json)>,
)
    requires
        distinct_keys(more),
        forall|i: int|
            0 <= i < more.len() ==> {
                &&& (#[trigger] more[i]).0 != "type"@
                &&& more[i].0 != "code"@
                &&& more[i].0 != "message"@
                &&& valid(more[i].1)
            },
    ensures
        valid(error_object(error_type, code, message, more)),
{
    let first = seq![
        ("type"@, Json::String(error_type)),
        ("code"@, Json::Number(NumberModel::Int(code as int))),
        ("message"@, Json::String(message)),
    ];
    let fields = first + more;
    assert(distinct_keys(first)) by {
        reveal_strlit("type");
        reveal_strlit("code");
        reveal_strlit("message");
        assert("type"@[0] != "code"@[0]);
    }
    assert forall|i: int, j: int| 0 <= i < j < fields.len() implies (#[trigger] fields[i]).0 != (
    #[trigger] fields[j]).0 by {
        if j < 3 {
            assert(first[i].0 != first[j].0);
        } else if i < 3 {
            assert(more[j - 3].0 != first[i].0);
        } else {
            assert(more[i - 3].0 != more[j - 3].0);
        }
    }
    assert forall|i: int| 0 <= i < fields.len() implies valid((#[trigger] fields[i]).1) by {
        if i >= 3 {
            assert(valid(more[i - 3].1));
        }
    }
    assert(valid(Json::Object(fields)));
}

/// The JSON of an error is valid where the bodies in it are.
pub proof fn error_json_is_valid(error: Error)
    requires
        carries_valid(error),
    ensures
        valid(error.json_spec()),
    decreases error,
{
    reveal_strlit("type");
    reveal_strlit("code");
    reveal_strlit("message");
    reveal_strlit("kind");
    reveal_strlit("exit_code");
    reveal_strlit("endpoint");
    reveal_strlit("status");
    reveal_strlit("body");
    assert("endpoint"@.len() == 8 && "status"@.len() == 6 && "exit_code"@.len() == 9);
    assert("message"@.len() == 7 && "kind"@.len() == 4 && "body"@.len() == 4);
    assert("type"@.len() == 4 && "code"@.len() == 4);
    assert("kind"@[0] == 'k' && "body"@[0] == 'b' && "type"@[0] == 't' && "code"@[0] == 'c');
    match error {
        Error::Wrapped(payload) => match payload {
            Payload::Api { .. } => {},
            Payload::Nested(inner) => {
                error_json_is_valid(*inner);
            },
            Payload::Io { message, kind } => {
                error_object_is_valid(
                    payload.error_type_spec(),
                    payload.code_spec(),
                    message@,
                    seq![("kind"@, Json::String(kind@))],
                );
            },
            Payload::Http { message, endpoint, status } => {
                error_object_is_valid(
                    payload.error_type_spec(),
                    payload.code_spec(),
                    message@,
                    seq![
                        ("endpoint"@, Json::String(endpoint@)),
                        ("status"@, Json::Number(NumberModel::Int(status as int))),
                    ],
                );
            },
            Payload::Parse { message, endpoint, body } => {
                error_object_is_valid(
                    payload.error_type_spec(),
                    payload.code_spec(),
                    message@,
                    seq![("endpoint"@, Json::String(endpoint@)), ("body"@, body@)],
                );
            },
            _ => {
                error_object_is_valid(
                    payload.error_type_spec(),
                    payload.code_spec(),
                    payload.message_spec(),
                    Seq::empty(),
                );
            },
        },
        Error::CliOutput { code, message, source } => {
            assert(valid(issue_json(source)));
            error_object_is_valid(
                "CliOutput"@,
                error.code_spec(),
                truncated(message@, TRUNC_LEN as nat),
                seq![
                    ("kind"@, issue_json(source)),
                    ("exit_code"@, Json::Number(NumberModel::Int(code as int))),
                ],
            );
        },
    }
}

/// Every category has its code: nine of them, and for an error of the server
/// the server's own.
pub proof fn every_category_has_its_code(payload: Payload, error: Error)
    ensures
        payload is Validation ==> payload.code_spec() == 893001,
        payload is Io ==> payload.code_spec() == 893003,
        payload is Config ==> payload.code_spec() == 893005,
        payload is Permission ==> payload.code_spec() == 893006,
        payload is Other ==> payload.code_spec() == 893999,
        payload is Http ==> payload.code_spec() == 893102,
        payload is Parse ==> payload.code_spec() == 893103,
        payload matches Payload::Api { code: Some(code), .. } ==> payload.code_spec() == code,
        payload matches Payload::Api { code: None, .. } ==> payload.code_spec() == 0,
        error matches Error::CliOutput { source: Some(issue), .. } ==> {
            &&& issue.invalid_subcommand ==> error.code_spec() == 893002
            &&& !issue.invalid_subcommand ==> error.code_spec() == 893004
        },
        error matches Error::CliOutput { source: None, .. } ==> error.code_spec() == 893004,
        error matches Error::Wrapped(inner) ==> error.code_spec() == inner.code_spec(),
{
}

/// The message that an error is made with is its message.
pub proof fn every_category_keeps_its_message(payload: Payload, error: Error)
    ensures
        payload matches Payload::Validation(text) ==> payload.message_spec() == text@,
        payload matches Payload::Config(text) ==> payload.message_spec() == text@,
        payload matches Payload::Permission(text) ==> payload.message_spec() == text@,
        payload matches Payload::Io { message, .. } ==> payload.message_spec() == message@,
        payload matches Payload::Other(text) ==> payload.message_spec() == text@,
        payload matches Payload::Http { message, .. } ==> payload.message_spec() == message@,
        payload matches Payload::Parse { message, .. } ==> payload.message_spec() == message@,
        payload matches Payload::Api { message, .. } ==> payload.message_spec() == message@,
        error matches Error::CliOutput { message, .. } ==> error.message_spec() == message@,
        error matches Error::Wrapped(inner) ==> error.message_spec() == inner.message_spec(),
{
}

/// Every category has its label.
pub proof fn every_category_has_its_label(payload: Payload, error: Error)
    ensures
        payload is Validation ==> payload.error_type_spec() == "ValidationError"@,
        payload is Config ==> payload.error_type_spec() == "ConfigError"@,
        payload is Permission ==> payload.error_type_spec() == "PermissionError"@,
        payload is Io ==> payload.error_type_spec() == "IOError"@,
        payload is Other ==> payload.error_type_spec() == "UnknownError"@,
        payload is Http ==> payload.error_type_spec() == "HTTPError"@,
        payload is Parse ==> payload.error_type_spec() == "ParseError"@,
        payload is Api ==> payload.error_type_spec() == "APIError"@,
        error is CliOutput ==> error.error_type_spec() == "CliOutput"@,
        error matches Error::Wrapped(inner) ==> error.error_type_spec() == inner.error_type_spec(),
{
}

/// The exit code is that of the command line's own output, and one for every
/// error that is carried with a category.
pub proof fn exit_codes(error: Error)
    ensures
        error matches Error::CliOutput { code, .. } ==> error.exit_code_spec() == code,
        error is Wrapped ==> error.exit_code_spec() == 1,
{
}

/// A field of an error's JSON: what stands under `error` and the key.
pub open spec fn error_field(json: Json, key: Seq<char>) -> Option<Json> {
    json_get(json, seq![Segment::Key("error"@), Segment::Key(key)])
}

/// How many fields stand under `error`, where nothing stands beside it.
pub open spec fn error_fields(json: Json) -> int {
    match json {
        Json::Object(outer) => if outer.len() == 1 {
            match outer[0].1 {
                Json::Object(fields) => fields.len() as int,
                _ => -1,
            }
        } else {
            -1
        },
        _ => -1,
    }
}

proof fn fields_of_error_object(
    error_type: Seq<char>,
    code: i64,
    message: Seq<char>,
    more: Seq<(Seq<char>, Json)>,
    i: int,
)
    requires
        valid(error_object(error_type, code, message, more)),
    ensures
        ({
            let json = error_object(error_type, code, message, more);
            &&& error_field(json, "type"@) == Some(Json::String(error_type))
            &&& error_field(json, "code"@) == Some(Json::Number(NumberModel::Int(code as int)))
            &&& error_field(json, "message"@) == Some(Json::String(message))
            &&& 0 <= i < more.len() ==> error_field(json, more[i].0) == Some(more[i].1)
            &&& error_fields(json) == 3 + more.len()
        }),
{
    let first = seq![
        ("type"@, Json::String(error_type)),
        ("code"@, Json::Number(NumberModel::Int(code as int))),
        ("message"@, Json::String(message)),
    ];
    let fields = first + more;
    let inner = Json::Object(fields);
    let outer = seq![("error"@, inner)];
    let json = Json::Object(outer);
    assert(json == error_object(error_type, code, message, more));
    assert(outer[0] == ("error"@, inner));
    assert(valid(outer[0].1));
    assert(distinct_keys(fields));
    key_names_its_entry(outer, 0);
    field_under_error(outer, fields, 0);
    field_under_error(outer, fields, 1);
    field_under_error(outer, fields, 2);
    assert(fields[0] == first[0] && fields[1] == first[1] && fields[2] == first[2]);
    if 0 <= i < more.len() {
        field_under_error(outer, fields, 3 + i);
        assert(fields[3 + i] == more[i]);
    }
}

proof fn field_under_error(
    outer: Seq<(Seq<char>, Json)>,
    fields: Seq<(Seq<char>, Json)>,
    i: int,
)
    requires
        outer.len() == 1,
        outer[0] == ("error"@, Json::Object(fields)),
        distinct_keys(fields),
        0 <= i < fields.len(),
    ensures
        error_field(Json::Object(outer), fields[i].0) == Some(fields[i].1),
{
    let path = seq![Segment::Key("error"@), Segment::Key(fields[i].0)];
    let rest = seq![Segment::Key(fields[i].0)];
    key_names_its_entry(outer, 0);
    key_names_its_entry(fields, i);
    assert(path.drop_first() =~= rest);
    assert(rest.drop_first() =~= Seq::empty());
    assert(json_get(fields[i].1, Seq::empty()) == Some(fields[i].1));
    assert(json_get(Json::Object(fields), rest) == Some(fields[i].1));
}

/// The JSON of an error tells its label, code and message under `error`, and
/// beside them what the category adds: the kind of an I/O error, the endpoint
/// and status of an HTTP error, the endpoint and body of what could not be
/// parsed; for all others nothing. An error of the server is told by its own
/// body.
pub proof fn error_json_tells_the_error(payload: Payload)
    requires
        payload !is Nested,
        payload matches Payload::Parse { body, .. } ==> valid(body@),
    ensures
        ({
            let json = payload.json_spec();
            &&& payload matches Payload::Api { body, .. } ==> json == body@
            &&& payload !is Api ==> {
                &&& error_field(json, "type"@) == Some(Json::String(payload.error_type_spec()))
                &&& error_field(json, "code"@) == Some(
                    Json::Number(NumberModel::Int(payload.code_spec() as int)),
                )
                &&& error_field(json, "message"@) == Some(Json::String(payload.message_spec()))
                &&& error_fields(json) == match payload {
                    Payload::Io { .. } => 4int,
                    Payload::Http { .. } => 5,
                    Payload::Parse { .. } => 5,
                    _ => 3,
                }
            }
            &&& payload matches Payload::Io { kind, .. } ==> error_field(json, "kind"@) == Some(
                Json::String(kind@),
            )
            &&& payload matches Payload::Http { endpoint, status, .. } ==> error_field(
                json,
                "endpoint"@,
            ) == Some(Json::String(endpoint@)) && error_field(json, "status"@) == Some(
                Json::Number(NumberModel::Int(status as int)),
            )
            &&& payload matches Payload::Parse { endpoint, body, .. } ==> error_field(
                json,
                "endpoint"@,
            ) == Some(Json::String(endpoint@)) && error_field(json, "body"@) == Some(body@)
        }),
{
    if payload !is Api {
        let error = Error::Wrapped(payload);
        assert(carries_valid(error));
        error_json_is_valid(error);
        assert(error.json_spec() == payload.json_spec());
        let label = payload.error_type_spec();
        let code = payload.code_spec();
        match payload {
            Payload::Io { message, kind } => {
                let more = seq![("kind"@, Json::String(kind@))];
                fields_of_error_object(label, code, message@, more, 0);
                assert(more[0] == ("kind"@, Json::String(kind@)));
            },
            Payload::Http { message, endpoint, status } => {
                let more = seq![
                    ("endpoint"@, Json::String(endpoint@)),
                    ("status"@, Json::Number(NumberModel::Int(status as int))),
                ];
                fields_of_error_object(label, code, message@, more, 0);
                fields_of_error_object(label, code, message@, more, 1);
                assert(more[0].0 == "endpoint"@ && more[1].0 == "status"@);
            },
            Payload::Parse { message, endpoint, body } => {
                let more = seq![("endpoint"@, Json::String(endpoint@)), ("body"@, body@)];
                fields_of_error_object(label, code, message@, more, 0);
                fields_of_error_object(label, code, message@, more, 1);
                assert(more[0].0 == "endpoint"@ && more[1].0 == "body"@);
            },
            _ => {
                fields_of_error_object(label, code, payload.message_spec(), Seq::empty(), 0);
            },
        }
    }
}

/// The JSON of the command line's own output tells its code, the start of its
/// message up to a hundred characters, the kind of the issue, and the exit
/// code.
pub proof fn output_json_tells_the_output(
    error: Error,
    code: i32,
    message: String,
    source: Option<UsageIssue>,
)
    requires
        error == (Error::CliOutput { code, message, source }),
    ensures
        ({
            let json = error.json_spec();
            &&& error_field(json, "type"@) == Some(Json::String("CliOutput"@))
            &&& error_field(json, "code"@) == Some(
                Json::Number(NumberModel::Int(error.code_spec() as int)),
            )
            &&& error_field(json, "message"@) == Some(Json::String(truncated(message@, 100)))
            &&& error_field(json, "exit_code"@) == Some(Json::Number(NumberModel::Int(code as int)))
            &&& error_field(json, "kind"@) == match source {
                Some(issue) => match issue.description {
                    Some(text) => Some(Json::String(text@)),
                    None => Some(Json::Null),
                },
                None => Some(Json::Null),
            }
        }),
{
    error_json_is_valid(error);
    let more = seq![
        ("kind"@, issue_json(source)),
        ("exit_code"@, Json::Number(NumberModel::Int(code as int))),
    ];
    let shown = truncated(message@, 100);
    fields_of_error_object("CliOutput"@, error.code_spec(), shown, more, 0);
    fields_of_error_object("CliOutput"@, error.code_spec(), shown, more, 1);
    assert(more[0].0 == "kind"@ && more[1].0 == "exit_code"@);
}

/// A text is cut at the end of its first line, or before it at the limit: what
/// is left out is marked, and nothing else is changed.
pub proof fn text_is_cut_to_a_line(line: Seq<char>, rest: Seq<char>, max: nat)
    requires
        !line.contains('\n'),
        rest.len() == 0 || rest[0] == '\n',
    ensures
        line.len() > max ==> truncated(line + rest, max) == line.take(max as int) + "[TRUNC]"@,
        line.len() <= max && rest.len() > 0 ==> truncated(line + rest, max) == line
            + "\n[TRUNC]"@,
        line.len() <= max && rest.len() == 0 ==> truncated(line + rest, max) == line,
{
    line_before_break(line, rest);
    if rest.len() == 0 {
        assert(line + rest =~= line);
    }
}

proof fn line_before_break(line: Seq<char>, rest: Seq<char>)
    requires
        !line.contains('\n'),
        rest.len() == 0 || rest[0] == '\n',
    ensures
        first_line(line + rest) == line,
    decreases line.len(),
{
    let s = line + rest;
    if line.len() > 0 {
        assert(line[0] != '\n') by {
            if line[0] == '\n' {
                assert(line.contains('\n'));
            }
        }
        let shorter = line.drop_first();
        assert(!shorter.contains('\n')) by {
            if shorter.contains('\n') {
                let i = choose|i: int| 0 <= i < shorter.len() && shorter[i] == '\n';
                assert(line[i + 1] == '\n');
            }
        }
        assert(s.drop_first() =~= shorter + rest);
        line_before_break(shorter, rest);
        assert(seq![line[0]] + shorter =~= line);
    } else {
        assert(s =~= rest);
        assert(line =~= Seq::empty());
    }
}

/// The command line's own output is shown as it stands; every other error is
/// shown as its JSON, which is that of what it carries.
pub proof fn output_is_shown_as_it_is(error: Error, r: Rendered)
    ensures
        error matches Error::CliOutput { message, .. } ==> (rendered_as(r, error) <==> (
        r matches Rendered::Text(text) && text@ == message@)),
        error matches Error::Wrapped(payload) ==> (payload !is Nested ==> (rendered_as(r, error)
            <==> (r matches Rendered::Json(value) && value@ == payload.json_spec()))),
        error matches Error::Wrapped(payload) ==> error.json_spec() == payload.json_spec(),
{
}

/// The line for logs starts with the label and the message and ends with the
/// code; that of an I/O error tells its kind besides.
pub proof fn log_line_tells_the_error(payload: Payload)
    requires
        payload !is Nested,
    ensures
        ({
            let line = Error::Wrapped(payload).display_spec();
            let head = payload.error_type_spec() + seq![':', ' '] + payload.message_spec();
            &&& payload !is Io ==> starts_with(line, head) && line.skip(head.len() as int)
                == " [code="@ + decimal(payload.code_spec() as int) + seq![']']
            &&& payload matches Payload::Io { message, kind } ==> line == "IoError: "@ + message@
                + " [code=893003, kind="@ + kind@ + seq![']']
        }),
{
    reveal_strlit(": ");
    reveal_strlit("]");
    assert(": "@ =~= seq![':', ' ']);
    assert("]"@ =~= seq![']']);
    let line = Error::Wrapped(payload).display_spec();
    let head = payload.error_type_spec() + seq![':', ' '] + payload.message_spec();
    if payload !is Io {
        assert(line.take(head.len() as int) =~= head);
        assert(line.skip(head.len() as int) =~= " [code="@ + decimal(payload.code_spec() as int)
            + seq![']']);
    } else {
        reveal_strlit(" [code=");
        reveal_strlit(", kind=");
        reveal_strlit(" [code=893003, kind=");
        io_code_text();
        assert(" [code="@ + decimal(893003) + ", kind="@ =~= " [code=893003, kind="@);
        assert(line =~= "IoError: "@ + payload->Io_message@ + " [code=893003, kind="@
            + payload->kind@ + seq![']']);
    }
}

proof fn io_code_text()
    ensures
        decimal(893003) =~= seq!['8', '9', '3', '0', '0', '3'],
{
    reveal_with_fuel(digits, 7);
}

/// The line for logs of the command line's own output tells the start of its
/// message, its code, the exit code and the kind of the issue, in this order.
pub proof fn log_line_tells_the_output(
    error: Error,
    code: i32,
    message: String,
    source: Option<UsageIssue>,
)
    requires
        error == (Error::CliOutput { code, message, source }),
    ensures
        ({
            let head = "CliOutput: "@ + truncated(message@, 100) + " [code="@ + decimal(
                error.code_spec() as int,
            ) + ", exit="@ + decimal(code as int) + ", kind="@;
            let kind = match source {
                Some(issue) => match issue.description {
                    Some(text) => text@,
                    None => seq!['?'],
                },
                None => seq!['?'],
            };
            starts_with(error.display_spec(), head) && error.display_spec().skip(
                head.len() as int,
            ) == kind + seq![']']
        }),
{
    reveal_strlit("]");
    reveal_strlit("?");
    assert("?"@ =~= seq!['?']);
    let head = "CliOutput: "@ + truncated(message@, 100) + " [code="@ + decimal(
        error.code_spec() as int,
    ) + ", exit="@ + decimal(code as int) + ", kind="@;
    assert(error.display_spec().take(head.len() as int) =~= head);
    assert(error.display_spec().skip(head.len() as int) =~= issue_text(source) + seq![']']);
}

} // verus!
