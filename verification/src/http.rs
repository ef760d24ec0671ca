//! HTTP message parsing: versions, methods, status codes, the start line and
//! the whole message.

use vstd::prelude::*;
use vstd::string::{StrSliceExecFns, StringExecFns};

use crate::strutil::str_eq;

verus! {

/// Why a piece of HTTP text was refused.
#[derive(Debug, Clone, PartialEq)]
pub enum HttpError {
    /// The content was recognised as none of the expected words.
    InvalidData(String),
    /// A required part was missing.
    UnexpectedEof,
}

/// The message a refused piece of content is reported with.
pub open spec fn invalid_msg(s: Seq<char>) -> Seq<char> {
    "unexpected content: "@ + s
}

/// Builds the refusal error for a piece of content.
fn invalid_data(s: &str) -> (r: HttpError)
    ensures
        r == HttpError::InvalidData(r->InvalidData_0),
        (r->InvalidData_0)@ == invalid_msg(s@),
{
    let mut msg = String::from_str("unexpected content: ");
    msg.append(s);
    HttpError::InvalidData(msg)
}

/// Definition of a generic HTTP version. This also reflects the availability
/// of different implementational stages in this crate.
#[derive(Clone, Copy, Debug, PartialEq, Eq, Structural)]
pub enum Version {
    Html11,
}

impl Version {
    /// The version's wire form.
    pub fn as_str(self) -> (r: &'static str)
        ensures
            r@ == "HTTP/1.1"@,
    {
        "HTTP/1.1"
    }

    /// Reads a version from its wire form: only `HTTP/1.1` is taken.
    pub fn parse(s: &str) -> (r: Result<Version, HttpError>)
        ensures
            r is Ok <==> s@ == "HTTP/1.1"@,
            r is Ok ==> r->Ok_0 == Version::Html11,
            r is Err ==> r->Err_0 is InvalidData && ((r->Err_0)->InvalidData_0)@ == invalid_msg(s@),
    {
        if str_eq(s, "HTTP/1.1") {
            Ok(Version::Html11)
        } else {
            Err(invalid_data(s))
        }
    }
}

/// The HTTP request methods.
#[derive(Clone, Copy, Debug, PartialEq, Eq, Structural)]
pub enum Method {
    Get,
    Head,
    Post,
    Put,
    Delete,
    Connect,
    Options,
    Trace,
}

/// The method a word names, if any; the `Options` method is reached by the
/// spelling `OTIONS`, as this parser has it.
pub open spec fn method_of(s: Seq<char>) -> Option<Method> {
    if s == "GET"@ {
        Some(Method::Get)
    } else if s == "HEAD"@ {
        Some(Method::Head)
    } else if s == "POST"@ {
        Some(Method::Post)
    } else if s == "PUT"@ {
        Some(Method::Put)
    } else if s == "DELETE"@ {
        Some(Method::Delete)
    } else if s == "CONNECT"@ {
        Some(Method::Connect)
    } else if s == "OTIONS"@ {
        Some(Method::Options)
    } else if s == "TRACE"@ {
        Some(Method::Trace)
    } else {
        None
    }
}

impl Method {
    /// Reads a method from its wire form, per [`method_of`].
    pub fn parse(s: &str) -> (r: Result<Method, HttpError>)
        ensures
            match method_of(s@) {
                Some(m) => r is Ok && r->Ok_0 == m,
                None => r is Err && r->Err_0 is InvalidData && ((r->Err_0)->InvalidData_0)@
                    == invalid_msg(s@),
            },
    {
        proof {
            reveal_strlit("GET");
            reveal_strlit("HEAD");
            reveal_strlit("POST");
            reveal_strlit("PUT");
            reveal_strlit("DELETE");
            reveal_strlit("CONNECT");
            reveal_strlit("OTIONS");
            reveal_strlit("TRACE");
        }
        if str_eq(s, "GET") {
            Ok(Method::Get)
        } else if str_eq(s, "HEAD") {
            Ok(Method::Head)
        } else if str_eq(s, "POST") {
            Ok(Method::Post)
        } else if str_eq(s, "PUT") {
            Ok(Method::Put)
        } else if str_eq(s, "DELETE") {
            Ok(Method::Delete)
        } else if str_eq(s, "CONNECT") {
            Ok(Method::Connect)
        } else if str_eq(s, "OTIONS") {
            Ok(Method::Options)
        } else if str_eq(s, "TRACE") {
            Ok(Method::Trace)
        } else {
            Err(invalid_data(s))
        }
    }
}

/// The informational status codes.
#[derive(Clone, Copy, Debug, PartialEq, Eq, Structural)]
pub enum ScInformational {
    Continue,
    SwitchingProtocols,
}

impl ScInformational {
    /// Reads an informational status code from its wire form.
    pub fn parse(s: &str) -> (r: Result<ScInformational, HttpError>)
        ensures
            r is Ok <==> (s@ == "100"@ || s@ == "101"@),
            s@ == "100"@ ==> r == Ok::<ScInformational, HttpError>(ScInformational::Continue),
            s@ == "101"@ ==> r == Ok::<ScInformational, HttpError>(
                ScInformational::SwitchingProtocols,
            ),
            r is Err ==> r->Err_0 is InvalidData && ((r->Err_0)->InvalidData_0)@ == invalid_msg(s@),
    {
        proof {
            reveal_strlit("100");
            reveal_strlit("101");
            assert("100"@ != "101"@) by {
                assert("100"@[2] == '0' && "101"@[2] == '1');
            }
        }
        if str_eq(s, "100") {
            Ok(ScInformational::Continue)
        } else if str_eq(s, "101") {
            Ok(ScInformational::SwitchingProtocols)
        } else {
            Err(invalid_data(s))
        }
    }
}

/// The successful status codes.
#[derive(Clone, Copy, Debug, PartialEq, Eq, Structural)]
pub enum ScSuccessful {
    Okay,
    Created,
    Accepted,
    NonAuthoritativeContent,
    NoContent,
    ResetContent,
    PartialContent,
    MultiStatus,
    AlreadyReported,
}

/// The wire form of a successful status code.
pub open spec fn sc_successful_str(sc: ScSuccessful) -> Seq<char> {
    match sc {
        ScSuccessful::Okay => "200 OK"@,
        ScSuccessful::Created => "201 Created"@,
        ScSuccessful::Accepted => "202 Accepted"@,
        ScSuccessful::NonAuthoritativeContent => "203 Non-Authoritative Information"@,
        ScSuccessful::NoContent => "204 No Content"@,
        ScSuccessful::ResetContent => "205 Reset Content"@,
        ScSuccessful::PartialContent => "206 Partial Content"@,
        ScSuccessful::MultiStatus => "207 Multi-Status"@,
        ScSuccessful::AlreadyReported => "208 Already Reported"@,
    }
}

impl ScSuccessful {
    /// The status code's wire form.
    pub fn as_str(self) -> (r: &'static str)
        ensures
            r@ == sc_successful_str(self),
    {
        match self {
            ScSuccessful::Okay => "200 OK",
            ScSuccessful::Created => "201 Created",
            ScSuccessful::Accepted => "202 Accepted",
            ScSuccessful::NonAuthoritativeContent => "203 Non-Authoritative Information",
            ScSuccessful::NoContent => "204 No Content",
            ScSuccessful::ResetContent => "205 Reset Content",
            ScSuccessful::PartialContent => "206 Partial Content",
            ScSuccessful::MultiStatus => "207 Multi-Status",
            ScSuccessful::AlreadyReported => "208 Already Reported",
        }
    }

    /// Reads a successful status code from its wire form.
    pub fn parse(s: &str) -> (r: Result<ScSuccessful, HttpError>)
        ensures
            r is Ok ==> sc_successful_str(r->Ok_0) == s@,
            r is Err ==> (forall|sc: ScSuccessful| sc_successful_str(sc) != s@) && r->Err_0
                is InvalidData && ((r->Err_0)->InvalidData_0)@ == invalid_msg(s@),
    {
        if str_eq(s, "200 OK") {
            Ok(ScSuccessful::Okay)
        } else if str_eq(s, "201 Created") {
            Ok(ScSuccessful::Created)
        } else if str_eq(s, "202 Accepted") {
            Ok(ScSuccessful::Accepted)
        } else if str_eq(s, "203 Non-Authoritative Information") {
            Ok(ScSuccessful::NonAuthoritativeContent)
        } else if str_eq(s, "204 No Content") {
            Ok(ScSuccessful::NoContent)
        } else if str_eq(s, "205 Reset Content") {
            Ok(ScSuccessful::ResetContent)
        } else if str_eq(s, "206 Partial Content") {
            Ok(ScSuccessful::PartialContent)
        } else if str_eq(s, "207 Multi-Status") {
            Ok(ScSuccessful::MultiStatus)
        } else if str_eq(s, "208 Already Reported") {
            Ok(ScSuccessful::AlreadyReported)
        } else {
            proof {
                assert forall|sc: ScSuccessful| sc_successful_str(sc) != s@ by {}
            }
            Err(invalid_data(s))
        }
    }
}

/// The client-error status codes.
#[derive(Clone, Copy, Debug, PartialEq, Eq, Structural)]
pub enum ScClientError {
    NotFound,
}

impl ScClientError {
    /// The status code's wire form.
    pub fn as_str(self) -> (r: &'static str)
        ensures
            r@ == "404 Not Found"@,
    {
        match self {
            ScClientError::NotFound => "404 Not Found",
        }
    }
}

/// The first line of a request: its method, target and version.
#[derive(Debug, PartialEq)]
pub struct StartLine {
    pub method: Method,
    pub target: String,
    pub version: Version,
}

/// Length of the run of non-space characters of `s` starting at `i`.
pub open spec fn field_run_len(s: Seq<char>, i: int) -> nat
    decreases s.len() - i when 0 <= i <= s.len()
{
    if i >= s.len() || s[i] == ' ' {
        0
    } else {
        (1 + field_run_len(s, i + 1)) as nat
    }
}

/// A field run stays inside the text.
pub proof fn lemma_field_run_le(s: Seq<char>, i: int)
    requires
        0 <= i <= s.len(),
    ensures
        i + field_run_len(s, i) <= s.len(),
    decreases s.len() - i,
{
    if i < s.len() && s[i] != ' ' {
        lemma_field_run_le(s, i + 1);
    }
}

/// What reading a start line yields: the method word is read first, then the
/// target and the version must follow, space-separated, the version being the
/// next space-separated word.
pub open spec fn start_line_spec(s: Seq<char>) -> Result<(Method, Seq<char>, Version), HttpError> {
    let m = field_run_len(s, 0) as int;
    match method_of(s.subrange(0, m)) {
        None => Err(HttpError::InvalidData(arbitrary())),
        Some(mm) => {
            if m == s.len() {
                Err(HttpError::UnexpectedEof)
            } else {
                let tl = field_run_len(s, m + 1) as int;
                let target = s.subrange(m + 1, m + 1 + tl);
                if m + 1 + tl == s.len() {
                    Err(HttpError::UnexpectedEof)
                } else {
                    let vl = field_run_len(s, m + tl + 2) as int;
                    if s.subrange(m + tl + 2, m + tl + 2 + vl) == "HTTP/1.1"@ {
                        Ok((mm, target, Version::Html11))
                    } else {
                        Err(HttpError::InvalidData(arbitrary()))
                    }
                }
            }
        },
    }
}

impl StartLine {
    /// Reads a start line: a method word, the request target and the version,
    /// separated by single spaces, exactly as [`start_line_spec`] describes;
    /// an unrecognised word is invalid data, a missing field an unexpected
    /// end.
    pub fn parse(stream: &str) -> (r: Result<StartLine, HttpError>)
        ensures
            match start_line_spec(stream@) {
                Ok((m, target, v)) => {
                    &&& r is Ok
                    &&& (r->Ok_0).method == m
                    &&& (r->Ok_0).target@ == target
                    &&& (r->Ok_0).version == v
                },
                Err(e) => r is Err && (e is UnexpectedEof ==> r->Err_0 is UnexpectedEof) && (e
                    is InvalidData ==> r->Err_0 is InvalidData),
            },
    {
        let ghost s = stream@;
        let len = stream.unicode_len();
        let m = scan_field(stream, 0);
        let method_str = stream.substring_char(0, m);
        let method = match Method::parse(method_str) {
            Ok(mm) => mm,
            Err(e) => {
                return Err(e);
            },
        };
        if m >= len {
            return Err(HttpError::UnexpectedEof);
        }
        let t_end = scan_field(stream, m + 1);
        let target_str = stream.substring_char(m + 1, t_end);
        if t_end >= len {
            return Err(HttpError::UnexpectedEof);
        }
        let v_end = scan_field(stream, t_end + 1);
        let version_str = stream.substring_char(t_end + 1, v_end);
        let version = match Version::parse(version_str) {
            Ok(v) => v,
            Err(e) => {
                return Err(e);
            },
        };
        Ok(StartLine { method, target: target_str.to_owned(), version })
    }

/// A start line with the given target, asking to get it.
    pub fn testpath(path: &str) -> (r: StartLine)
        ensures
            r.method == Method::Get,
            r.target@ == path@,
            r.version == Version::Html11,
    {
        StartLine { method: Method::Get, target: path.to_owned(), version: Version::Html11 }
    }
}

/// Length of the run of characters of `s` starting at `i` before the next
/// line separator (a carriage return followed by a line feed).
pub open spec fn crlf_run_len(s: Seq<char>, i: int) -> nat
    decreases s.len() - i when 0 <= i <= s.len()
{
    if i >= s.len() || (s[i] == '\r' && i + 1 < s.len() && s[i + 1] == '\n') {
        0
    } else {
        (1 + crlf_run_len(s, i + 1)) as nat
    }
}

/// A line run stays inside the text.
pub proof fn lemma_crlf_run_le(s: Seq<char>, i: int)
    requires
        0 <= i <= s.len(),
    ensures
        i + crlf_run_len(s, i) <= s.len(),
    decreases s.len() - i,
{
    if i < s.len() && !(s[i] == '\r' && i + 1 < s.len() && s[i + 1] == '\n') {
        lemma_crlf_run_le(s, i + 1);
    }
}

/// A line run that stops inside the text stops at a line separator.
pub proof fn lemma_crlf_run_stop(s: Seq<char>, i: int)
    requires
        0 <= i <= s.len(),
    ensures
        i + crlf_run_len(s, i) < s.len() ==> {
            let j = i + crlf_run_len(s, i);
            &&& s[j] == '\r'
            &&& j + 1 < s.len()
            &&& s[j + 1] == '\n'
        },
    decreases s.len() - i,
{
    if i < s.len() && !(s[i] == '\r' && i + 1 < s.len() && s[i + 1] == '\n') {
        lemma_crlf_run_stop(s, i + 1);
    }
}

/// The lines of `s` from position `i` on, split at every carriage return and
/// line feed pair, empty lines included.
pub open spec fn message_lines(s: Seq<char>, i: int) -> Seq<Seq<char>>
    decreases s.len() - i + 1
        when 0 <= i <= s.len()
        via message_lines_decreases
{
    let r = crlf_run_len(s, i) as int;
    let piece = s.subrange(i, i + r);
    if i + r < s.len() {
        seq![piece] + message_lines(s, i + r + 2)
    } else {
        seq![piece]
    }
}

#[via_fn]
proof fn message_lines_decreases(s: Seq<char>, i: int) {
    lemma_crlf_run_le(s, i);
}

/// The non-empty lines, in order.
pub open spec fn nonempty_lines(ls: Seq<Seq<char>>) -> Seq<Seq<char>>
    decreases ls.len(),
{
    if ls.len() == 0 {
        Seq::empty()
    } else {
        nonempty_lines(ls.drop_last()) + (if ls.last().len() > 0 {
            seq![ls.last()]
        } else {
            Seq::<Seq<char>>::empty()
        })
    }
}

/// Splitting the non-empty lines distributes over concatenation.
pub proof fn lemma_nonempty_lines_add(a: Seq<Seq<char>>, b: Seq<Seq<char>>)
    ensures
        nonempty_lines(a + b) == nonempty_lines(a) + nonempty_lines(b),
    decreases b.len(),
{
    if b.len() == 0 {
        assert(a + b =~= a);
        assert(nonempty_lines(a) + nonempty_lines(b) =~= nonempty_lines(a));
    } else {
        assert((a + b).drop_last() =~= a + b.drop_last());
        assert((a + b).last() == b.last());
        lemma_nonempty_lines_add(a, b.drop_last());
        if b.last().len() > 0 {
            assert(nonempty_lines(a) + (nonempty_lines(b.drop_last()) + seq![b.last()])
                =~= (nonempty_lines(a) + nonempty_lines(b.drop_last())) + seq![b.last()]);
            assert(nonempty_lines(b) =~= nonempty_lines(b.drop_last()) + seq![b.last()]);
        } else {
            assert(nonempty_lines(b) =~= nonempty_lines(b.drop_last()));
            assert(nonempty_lines(a) + nonempty_lines(b.drop_last()) =~= nonempty_lines(a)
                + nonempty_lines(b));
        }
    }
}

/// A whole request message: its start line and its remaining non-empty lines.
#[derive(Debug, PartialEq)]
pub struct Message {
    pub startline: StartLine,
    pub content: Vec<String>,
}

impl Message {
    /// Reads a message: the text is split at the line separators, empty lines
    /// are dropped, the first remaining line must be a well-formed start line,
    /// and the others become the content. A message without a single
    /// non-empty line is an unexpected end.
    pub fn parse(stream: &str) -> (r: Result<Message, HttpError>)
        ensures
            ({
                let lines = nonempty_lines(message_lines(stream@, 0));
                if lines.len() == 0 {
                    r == Err::<Message, HttpError>(HttpError::UnexpectedEof)
                } else {
                    match start_line_spec(lines[0]) {
                        Ok((m, target, v)) => {
                            &&& r is Ok
                            &&& (r->Ok_0).startline.method == m
                            &&& (r->Ok_0).startline.target@ == target
                            &&& (r->Ok_0).startline.version == v
                            &&& (r->Ok_0).content@.len() == lines.len() - 1
                            &&& forall|k: int| 0 <= k < lines.len() - 1 ==> (#[trigger] (
                            r->Ok_0).content@[k])@ == lines[k + 1]
                        },
                        Err(e) => r is Err && (e is UnexpectedEof ==> r->Err_0 is UnexpectedEof)
                            && (e is InvalidData ==> r->Err_0 is InvalidData),
                    }
                }
            }),
    {
        let ghost s = stream@;
        let ghost all = nonempty_lines(message_lines(s, 0));
        let len = stream.unicode_len();
        let mut pos: usize = 0;
        let mut first: Option<&str> = None;
        let mut content: Vec<String> = Vec::new();
        let ghost mut done: Seq<Seq<char>> = Seq::empty();
        let mut finished = false;
        proof {
            assert(done + nonempty_lines(message_lines(s, 0)) =~= nonempty_lines(
                message_lines(s, 0),
            ));
        }
        while !finished
            invariant
                pos <= len,
                len == s.len(),
                s == stream@,
                all == nonempty_lines(message_lines(s, 0)),
                !finished ==> all =~= done + nonempty_lines(message_lines(s, pos as int)),
                finished ==> all =~= done,
                match first {
                    Some(f) => done.len() >= 1 && f@ == done[0] && content@.len() == done.len() - 1,
                    None => done.len() == 0 && content@.len() == 0,
                },
                forall|k: int| 0 <= k < content@.len() ==> (#[trigger] content@[k])@ == done[k + 1],
            decreases 2 * (len - pos) + (if finished { 0int } else { 1int }),
        {
            proof {
                lemma_crlf_run_le(s, pos as int);
                lemma_crlf_run_stop(s, pos as int);
            }
            let run = scan_line(stream, pos);
            let piece = stream.substring_char(pos, run);
            let ghost line_here = s.subrange(pos as int, pos + crlf_run_len(s, pos as int));
            let ghost rest_lines = if pos + crlf_run_len(s, pos as int) < s.len() {
                message_lines(s, pos + crlf_run_len(s, pos as int) + 2)
            } else {
                Seq::<Seq<char>>::empty()
            };
            proof {
                if pos + crlf_run_len(s, pos as int) < s.len() {
                    assert(message_lines(s, pos as int) =~= seq![line_here] + rest_lines);
                    lemma_nonempty_lines_add(seq![line_here], rest_lines);
                } else {
                    assert(message_lines(s, pos as int) =~= seq![line_here]);
                }
                assert(seq![line_here].drop_last() =~= Seq::<Seq<char>>::empty());
                assert(seq![line_here].last() == line_here);
                assert(nonempty_lines(Seq::<Seq<char>>::empty()) =~= Seq::<Seq<char>>::empty());
                assert(nonempty_lines(seq![line_here]) =~= (if line_here.len() > 0 {
                    seq![line_here]
                } else {
                    Seq::<Seq<char>>::empty()
                }));
            }
            let ghost done_pre = done;
            if piece.unicode_len() > 0 {
                match first {
                    None => {
                        first = Some(piece);
                    },
                    Some(_) => {
                        content.push(piece.to_owned());
                    },
                }
                proof {
                    done = done.push(line_here);
                    assert(done =~= done_pre + seq![line_here]);
                }
            }
            proof {
                if line_here.len() == 0 {
                    assert(done + nonempty_lines(seq![line_here]) =~= done);
                }
                assert((done_pre + nonempty_lines(seq![line_here])) + rest_lines_nonempty(
                    s,
                    pos as int,
                ) =~= done_pre + (nonempty_lines(seq![line_here]) + rest_lines_nonempty(
                    s,
                    pos as int,
                )));
            }
            if run < len {
                pos = run + 2;
            } else {
                pos = len;
                finished = true;
            }
            proof {
                if finished {
                    assert(all =~= done);
                } else {
                    assert(all =~= done + nonempty_lines(message_lines(s, pos as int)));
                }
            }
        }
        let first_str = match first {
            None => {
                return Err(HttpError::UnexpectedEof);
            },
            Some(f) => f,
        };
        let startline = match StartLine::parse(first_str) {
            Ok(sl) => sl,
            Err(e) => {
                return Err(e);
            },
        };
        Ok(Message { startline, content })
    }
}

/// The non-empty lines after the line that starts at `i`.
pub open spec fn rest_lines_nonempty(s: Seq<char>, i: int) -> Seq<Seq<char>> {
    if i + crlf_run_len(s, i) < s.len() {
        nonempty_lines(message_lines(s, i + crlf_run_len(s, i) + 2))
    } else {
        Seq::empty()
    }
}

/// Whether the first `n_bytes` bytes of a request buffer form a complete
/// request: more than four bytes, ending in two line separators.
pub fn request_complete(buffer: &[u8], n_bytes: usize) -> (r: bool)
    requires
        n_bytes <= buffer@.len(),
    ensures
        r == (n_bytes > 4 && buffer@[n_bytes - 4] == 13 && buffer@[n_bytes - 3] == 10
            && buffer@[n_bytes - 2] == 13 && buffer@[n_bytes - 1] == 10),
{
    if n_bytes > 4 {
        if buffer[n_bytes - 4] != 13u8 {
            return false;
        }
        if buffer[n_bytes - 3] != 10u8 {
            return false;
        }
        if buffer[n_bytes - 2] != 13u8 {
            return false;
        }
        if buffer[n_bytes - 1] != 10u8 {
            return false;
        }
        true
    } else {
        false
    }
}

/// Scans to the next line separator from `from` on.
fn scan_line(s: &str, from: usize) -> (r: usize)
    requires
        from <= s@.len(),
    ensures
        r == from + crlf_run_len(s@, from as int),
        r <= s@.len(),
{
    let len = s.unicode_len();
    let mut j = from;
    while j < len && !(s.get_char(j) == '\r' && j + 1 < len && s.get_char(j + 1) == '\n')
        invariant
            from <= j <= len,
            len == s@.len(),
            crlf_run_len(s@, from as int) == j - from + crlf_run_len(s@, j as int),
        decreases len - j,
    {
        j = j + 1;
    }
    j
}

/// Scans to the end of the space-separated field that starts at `from`.
fn scan_field(s: &str, from: usize) -> (r: usize)
    requires
        from <= s@.len(),
    ensures
        r == from + field_run_len(s@, from as int),
        r <= s@.len(),
{
    let len = s.unicode_len();
    let mut j = from;
    while j < len && s.get_char(j) != ' '
        invariant
            from <= j <= len,
            len == s@.len(),
            field_run_len(s@, from as int) == j - from + field_run_len(s@, j as int),
        decreases len - j,
    {
        j = j + 1;
    }
    j
}

} // verus!
