use crate::text::string_push;
use vstd::prelude::*;
use vstd::string::StringExecFns;
use vstd::utf8::encode_utf8;

verus! {

/// A request target path.
#[derive(Debug, Clone)]
pub struct Path {
    pub path: String,
}

impl Path {
    pub fn new(path: String) -> (r: Result<Self, ()>)
        ensures
            r matches Ok(p) && p.path@ == path@,
    {
        Ok(
            Self {
                path: match Self::create_with_cheking(path) {
                    Ok(p) => p,
                    Err(()) => {
                        return Err(());
                    },
                },
            },
        )
    }

    fn create_with_cheking(path: String) -> (r: Result<String, ()>)
        ensures
            r matches Ok(p) && p@ == path@,
    {
        Ok(path)
    }
}

impl Default for Path {
    fn default() -> (r: Self)
        ensures
            r.path@ == "/"@,
    {
        Self { path: "/".to_owned() }
    }
}

#[derive(Debug, Clone)]
pub struct HeaderName {
    pub name: String,
}

#[derive(Debug, Clone)]
pub struct HeaderValue {
    pub value: String,
}

/// The header value standing under a name, with the latest insertion
/// winning, as a map insert would.
pub open spec fn header_lookup(hs: Seq<(HeaderName, HeaderValue)>, name: Seq<char>) -> Option<
    Seq<char>,
>
    decreases hs.len(),
{
    if hs.len() == 0 {
        None
    } else if hs.last().0.name@ == name {
        Some(hs.last().1.value@)
    } else {
        header_lookup(hs.drop_last(), name)
    }
}

/// One serialized header line: `name: value` and a line break.
pub open spec fn header_line_bytes(h: (HeaderName, HeaderValue)) -> Seq<u8> {
    encode_utf8(h.0.name@) + seq![58u8, 32u8] + encode_utf8(h.1.value@) + seq![13u8, 10u8]
}

/// All header lines, in insertion order.
pub open spec fn headers_bytes(hs: Seq<(HeaderName, HeaderValue)>) -> Seq<u8>
    decreases hs.len(),
{
    if hs.len() == 0 {
        Seq::empty()
    } else {
        headers_bytes(hs.drop_last()) + header_line_bytes(hs.last())
    }
}

/// A whole message on the wire: start line, header lines, an empty line,
/// then the body bytes.
pub open spec fn serialized_bytes(
    start: Seq<char>,
    hs: Seq<(HeaderName, HeaderValue)>,
    body: Seq<u8>,
) -> Seq<u8> {
    encode_utf8(start) + seq![13u8, 10u8] + headers_bytes(hs) + seq![13u8, 10u8] + body
}

/// What every message offers: its start line, its headers and its body.
pub trait HttpMessage: Sized {
    spec fn start_line(&self) -> Seq<char>;

    spec fn headers_of(&self) -> Seq<(HeaderName, HeaderValue)>;

    spec fn body_of(&self) -> Seq<u8>;

    fn get_start_line(&self) -> (r: String)
        ensures
            r@ == self.start_line(),
    ;

    fn get_headers(&self) -> (r: &Vec<(HeaderName, HeaderValue)>)
        ensures
            r@ == self.headers_of(),
    ;

    fn get_body(&self) -> (r: Vec<u8>)
        ensures
            r@ == self.body_of(),
    ;
}

/// Appends one header to a header list.
fn push_header(headers: &mut Vec<(HeaderName, HeaderValue)>, name: &str, value: &str)
    ensures
        final(headers)@.len() == old(headers)@.len() + 1,
        final(headers)@.last().0.name@ == name@,
        final(headers)@.last().1.value@ == value@,
        final(headers)@.drop_last() == old(headers)@,
{
    headers.push(
        (HeaderName { name: name.to_owned() }, HeaderValue { value: value.to_owned() }),
    );
}

/// Digits of a number in decimal, most significant first.
pub open spec fn decimal_chars(n: int) -> Seq<char>
    decreases n,
{
    if n < 10 {
        seq![((48 + n) as u8) as char]
    } else {
        decimal_chars(n / 10).push(((48 + n % 10) as u8) as char)
    }
}

/// Writes a number in decimal onto the end of a string.
pub fn push_decimal(out: &mut String, n: usize)
    ensures
        final(out)@ == old(out)@ + decimal_chars(n as int),
    decreases n,
{
    let ghost before = out@;
    if n >= 10 {
        push_decimal(out, n / 10);
    }
    string_push(out, (48 + (n % 10) as u8) as char);
    proof {
        assert(out@ =~= before + decimal_chars(n as int));
    }
}

/// The index of the line break ending the line that starts at `from`, or
/// the end of the buffer.
pub open spec fn line_end(s: Seq<u8>, from: int) -> int
    decreases s.len() - from,
{
    if from >= s.len() {
        s.len() as int
    } else if s[from] == 10 {
        from
    } else {
        line_end(s, from + 1)
    }
}

/// The index of the next separator at or after `from`, or `stop`.
pub open spec fn token_end(s: Seq<u8>, from: int, stop: int, sep: u8) -> int
    decreases stop - from,
{
    if from >= stop {
        stop
    } else if s[from] == sep {
        from
    } else {
        token_end(s, from + 1, stop, sep)
    }
}

/// A line without its carriage return, if it carried one.
pub open spec fn strip_cr(line: Seq<u8>) -> Seq<u8> {
    if line.len() > 0 && line.last() == 13 {
        line.drop_last()
    } else {
        line
    }
}

pub open spec fn all_ascii(s: Seq<u8>) -> bool {
    forall|i: int| 0 <= i < s.len() ==> s[i] < 128
}

pub open spec fn ascii_chars(s: Seq<u8>) -> Seq<char> {
    s.map_values(|b: u8| b as char)
}

pub open spec fn is_digit_byte(b: u8) -> bool {
    48 <= b <= 57
}

pub open spec fn all_digits(s: Seq<u8>) -> bool {
    s.len() > 0 && forall|i: int| 0 <= i < s.len() ==> is_digit_byte(#[trigger] s[i])
}

/// The number a run of decimal digit bytes denotes.
pub open spec fn digits_value(s: Seq<u8>) -> int
    decreases s.len(),
{
    if s.len() == 0 {
        0
    } else {
        digits_value(s.drop_last()) * 10 + (s.last() - 48)
    }
}

/// A run of digits denotes a number, never anything negative.
pub proof fn lemma_digits_value_nonneg(s: Seq<u8>)
    requires
        forall|i: int| 0 <= i < s.len() ==> is_digit_byte(#[trigger] s[i]),
    ensures
        digits_value(s) >= 0,
    decreases s.len(),
{
    if s.len() > 0 {
        assert forall|i: int| 0 <= i < s.drop_last().len() implies is_digit_byte(
            #[trigger] s.drop_last()[i],
        ) by {
            assert(s.drop_last()[i] == s[i]);
        }
        lemma_digits_value_nonneg(s.drop_last());
        assert(is_digit_byte(s.last()));
    }
}

/// A line always ends at or after its start, and no later than the end
/// of the buffer.
pub proof fn lemma_line_end_bounds(s: Seq<u8>, from: int)
    requires
        from <= s.len(),
    ensures
        from <= line_end(s, from) <= s.len(),
    decreases s.len() - from,
{
    if from < s.len() && s[from] != 10 {
        lemma_line_end_bounds(s, from + 1);
    }
}

/// Parses header lines from `from` until the empty line, handing back the
/// headers and the index where the body starts; a missing empty line, a
/// line without a colon, or a non-ASCII name or value fails the parse.
pub open spec fn parse_header_lines(s: Seq<u8>, from: int) -> Option<
    (Seq<(Seq<char>, Seq<char>)>, int),
>
    decreases s.len() - from,
    via parse_header_lines_dec
{
    if from > s.len() {
        None
    } else {
        let e = line_end(s, from);
        let line = strip_cr(s.subrange(from, e));
        if line.len() == 0 {
            if e < s.len() {
                Some((Seq::empty(), e + 1))
            } else {
                None
            }
        } else if e >= s.len() {
            None
        } else {
            let c = token_end(line, 0, line.len() as int, 58);
            if c >= line.len() {
                None
            } else {
                let name = line.subrange(0, c);
                let c2 = token_end(line, c + 1, line.len() as int, 58);
                let value = line.subrange(c + 1, c2);
                if !all_ascii(name) || !all_ascii(value) {
                    None
                } else {
                    match parse_header_lines(s, e + 1) {
                        None => None,
                        Some((rest, body_start)) => Some(
                            (seq![(ascii_chars(name), ascii_chars(value))] + rest, body_start),
                        ),
                    }
                }
            }
        }
    }
}

#[via_fn]
proof fn parse_header_lines_dec(s: Seq<u8>, from: int) {
    if from <= s.len() {
        lemma_line_end_bounds(s, from);
    }
}

/// What a well-formed response parses into.
pub struct ResponseModel {
    pub protocol: Seq<char>,
    pub result: int,
    pub reason: Seq<char>,
    pub headers: Seq<(Seq<char>, Seq<char>)>,
    pub body: Seq<u8>,
}

/// The grammar of a response: a status line of protocol, a decimal status
/// that fits sixteen bits, and a reason token, then header lines up to an
/// empty line, then the body.
pub open spec fn response_parse(s: Seq<u8>) -> Option<ResponseModel> {
    let e0 = line_end(s, 0);
    let first = strip_cr(s.subrange(0, e0));
    let p_end = token_end(first, 0, first.len() as int, 32);
    if p_end >= first.len() {
        None
    } else {
        let protocol = first.subrange(0, p_end);
        let s_end = token_end(first, p_end + 1, first.len() as int, 32);
        if s_end >= first.len() {
            None
        } else {
            let status_tok = first.subrange(p_end + 1, s_end);
            let r_end = token_end(first, s_end + 1, first.len() as int, 32);
            let reason = first.subrange(s_end + 1, r_end);
            if !all_digits(status_tok) || digits_value(status_tok) > 65535 || !all_ascii(protocol)
                || !all_ascii(reason) {
                None
            } else {
                match parse_header_lines(s, e0 + 1) {
                    None => None,
                    Some((hs, body_start)) => Some(
                        ResponseModel {
                            protocol: ascii_chars(protocol),
                            result: digits_value(status_tok),
                            reason: ascii_chars(reason),
                            headers: hs,
                            body: s.subrange(body_start, s.len() as int),
                        },
                    ),
                }
            }
        }
    }
}

/// Scans for the line break ending the line that starts at `from`.
fn find_line_end(buf: &Vec<u8>, from: usize) -> (r: usize)
    requires
        from <= buf@.len(),
    ensures
        r == line_end(buf@, from as int),
        from <= r <= buf@.len(),
{
    let mut i = from;
    while i < buf.len()
        invariant
            from <= i <= buf@.len(),
            line_end(buf@, from as int) == line_end(buf@, i as int),
        decreases buf@.len() - i,
    {
        if buf[i] == 10 {
            return i;
        }
        i = i + 1;
    }
    buf.len()
}

/// Scans for the next separator at or after `from`.
fn find_token_end(buf: &Vec<u8>, from: usize, sep: u8) -> (r: usize)
    requires
        from <= buf@.len(),
    ensures
        r == token_end(buf@, from as int, buf@.len() as int, sep),
        from <= r <= buf@.len(),
{
    let mut i = from;
    while i < buf.len()
        invariant
            from <= i <= buf@.len(),
            token_end(buf@, from as int, buf@.len() as int, sep) == token_end(
                buf@,
                i as int,
                buf@.len() as int,
                sep,
            ),
        decreases buf@.len() - i,
    {
        if buf[i] == sep {
            return i;
        }
        i = i + 1;
    }
    buf.len()
}

/// Copies out `buf[a..b]`.
fn copy_range(buf: &Vec<u8>, a: usize, b: usize) -> (r: Vec<u8>)
    requires
        a <= b <= buf@.len(),
    ensures
        r@ == buf@.subrange(a as int, b as int),
{
    let mut v: Vec<u8> = Vec::new();
    let mut i = a;
    while i < b
        invariant
            a <= i <= b <= buf@.len(),
            v@ =~= buf@.subrange(a as int, i as int),
        decreases b - i,
    {
        v.push(buf[i]);
        proof {
            assert(v@ =~= buf@.subrange(a as int, i + 1));
        }
        i = i + 1;
    }
    proof {
        assert(v@ =~= buf@.subrange(a as int, b as int));
    }
    v
}

/// Drops a trailing carriage return.
fn strip_cr_exec(line: Vec<u8>) -> (r: Vec<u8>)
    ensures
        r@ == strip_cr(line@),
{
    let mut line = line;
    if line.len() > 0 {
        if line[line.len() - 1] == 13 {
            line.pop();
        }
    }
    line
}

/// Builds a string from an ASCII byte range, one character per byte;
/// fails on any byte past the ASCII range.
fn ascii_string(buf: &Vec<u8>, a: usize, b: usize) -> (r: Option<String>)
    requires
        a <= b <= buf@.len(),
    ensures
        all_ascii(buf@.subrange(a as int, b as int)) ==> (r matches Some(s) && s@ == ascii_chars(
            buf@.subrange(a as int, b as int),
        )),
        !all_ascii(buf@.subrange(a as int, b as int)) ==> r is None,
{
    let mut s = String::new();
    let mut i = a;
    while i < b
        invariant
            a <= i <= b <= buf@.len(),
            all_ascii(buf@.subrange(a as int, i as int)),
            s@ =~= ascii_chars(buf@.subrange(a as int, i as int)),
        decreases b - i,
    {
        let byte = buf[i];
        if byte >= 128 {
            proof {
                assert(buf@.subrange(a as int, b as int)[i - a] == byte);
            }
            return None;
        }
        string_push(&mut s, byte as char);
        proof {
            assert(buf@.subrange(a as int, i + 1) =~= buf@.subrange(a as int, i as int).push(byte));
            assert(s@ =~= ascii_chars(buf@.subrange(a as int, i + 1)));
        }
        i = i + 1;
    }
    proof {
        assert(buf@.subrange(a as int, i as int) =~= buf@.subrange(a as int, b as int));
    }
    Some(s)
}

/// Reads a decimal number out of `buf[a..b]`; fails on an empty range, a
/// non-digit, or a value past sixteen bits.
fn parse_u16_digits(buf: &Vec<u8>, a: usize, b: usize) -> (r: Option<u16>)
    requires
        a <= b <= buf@.len(),
    ensures
        (all_digits(buf@.subrange(a as int, b as int)) && digits_value(
            buf@.subrange(a as int, b as int),
        ) <= 65535) ==> r == Some(digits_value(buf@.subrange(a as int, b as int)) as u16),
        !(all_digits(buf@.subrange(a as int, b as int)) && digits_value(
            buf@.subrange(a as int, b as int),
        ) <= 65535) ==> r is None,
{
    if a == b {
        return None;
    }
    let mut value: u32 = 0;
    let mut over: bool = false;
    let mut i = a;
    while i < b
        invariant
            a <= i <= b <= buf@.len(),
            forall|j: int| a <= j < i ==> is_digit_byte(#[trigger] buf@[j]),
            !over ==> value == digits_value(buf@.subrange(a as int, i as int)) && value <= 65535,
            over ==> digits_value(buf@.subrange(a as int, i as int)) > 65535,
        decreases b - i,
    {
        let byte = buf[i];
        if byte < 48 || byte > 57 {
            proof {
                assert(buf@.subrange(a as int, b as int)[i - a] == byte);
            }
            return None;
        }
        let d = (byte - 48) as u32;
        let ghost prev = digits_value(buf@.subrange(a as int, i as int));
        if !over {
            let nv = value * 10 + d;
            if nv > 65535 {
                over = true;
            } else {
                value = nv;
            }
        }
        proof {
            assert(buf@.subrange(a as int, i + 1).drop_last() =~= buf@.subrange(a as int, i as int));
            assert(buf@.subrange(a as int, i + 1).last() == byte);
            assert(digits_value(buf@.subrange(a as int, i + 1)) == prev * 10 + (byte - 48));
        }
        i = i + 1;
    }
    proof {
        assert(buf@.subrange(a as int, i as int) =~= buf@.subrange(a as int, b as int));
        assert forall|j: int|
            0 <= j < buf@.subrange(a as int, b as int).len() implies is_digit_byte(
            #[trigger] buf@.subrange(a as int, b as int)[j],
        ) by {
            assert(buf@.subrange(a as int, b as int)[j] == buf@[a + j]);
        }
    }
    if over {
        None
    } else {
        Some(value as u16)
    }
}

/// A response as the client sees it: status line fields, headers, body.
#[derive(Debug)]
pub struct HttpResponse {
    pub protocol: String,
    pub result: u16,
    pub result_string: String,
    pub headers: Vec<(HeaderName, HeaderValue)>,
    pub body: Vec<u8>,
}

impl HttpResponse {
    pub fn new(result: u16, result_string: &str, protocol: &str) -> (r: Self)
        ensures
            r.result == result,
            r.result_string@ == result_string@,
            r.protocol@ == protocol@,
            r.headers@ =~= Seq::<(HeaderName, HeaderValue)>::empty(),
            r.body@ =~= Seq::<u8>::empty(),
    {
        Self {
            result,
            result_string: result_string.to_owned(),
            protocol: protocol.to_owned(),
            headers: Vec::new(),
            body: Vec::new(),
        }
    }

    pub fn add_header(&mut self, name: &str, value: &str)
        ensures
            final(self).headers@.len() == old(self).headers@.len() + 1,
            final(self).headers@.last().0.name@ == name@,
            final(self).headers@.last().1.value@ == value@,
            final(self).headers@.drop_last() == old(self).headers@,
            final(self).protocol == old(self).protocol,
            final(self).result == old(self).result,
            final(self).result_string == old(self).result_string,
            final(self).body == old(self).body,
    {
        push_header(&mut self.headers, name, value);
    }

    /// The value stored under a header name, latest insertion first.
    pub fn get_header(&self, name: &str) -> (r: Option<&HeaderValue>)
        ensures
            r matches Some(hv) ==> header_lookup(self.headers@, name@) == Some(hv.value@),
            r is None ==> header_lookup(self.headers@, name@) is None,
    {
        let mut idx: usize = self.headers.len();
        proof {
            assert(self.headers@.take(idx as int) =~= self.headers@);
        }
        while idx > 0
            invariant
                0 <= idx <= self.headers@.len(),
                header_lookup(self.headers@, name@) == header_lookup(
                    self.headers@.take(idx as int),
                    name@,
                ),
            decreases idx,
        {
            idx = idx - 1;
            let entry = &self.headers[idx];
            proof {
                assert(self.headers@.take(idx + 1).last() == self.headers@[idx as int]);
                assert(self.headers@.take(idx + 1).drop_last() =~= self.headers@.take(idx as int));
            }
            if entry.0.name.eq(&String::from_str(name)) {
                return Some(&entry.1);
            }
        }
        None
    }
}

impl HttpMessage for HttpResponse {
    open spec fn start_line(&self) -> Seq<char> {
        self.protocol@ + " "@ + decimal_chars(self.result as int) + " "@ + self.result_string@
    }

    open spec fn headers_of(&self) -> Seq<(HeaderName, HeaderValue)> {
        self.headers@
    }

    open spec fn body_of(&self) -> Seq<u8> {
        self.body@
    }

    fn get_start_line(&self) -> (r: String) {
        let mut line = String::new();
        line.append(self.protocol.as_str());
        line.append(" ");
        push_decimal(&mut line, self.result as usize);
        line.append(" ");
        line.append(self.result_string.as_str());
        proof {
            assert(line@ =~= self.start_line());
        }
        line
    }

    fn get_headers(&self) -> (r: &Vec<(HeaderName, HeaderValue)>) {
        &self.headers
    }

    fn get_body(&self) -> (r: Vec<u8>) {
        self.body.clone()
    }
}

#[derive(Debug, Clone, Copy, PartialEq, Eq, Structural)]
pub enum HttpRequestMethod {
    GET,
    POST,
    UPDATE,
}

/// The name of a method as it stands on the wire.
pub open spec fn method_chars(m: HttpRequestMethod) -> Seq<char> {
    match m {
        HttpRequestMethod::GET => "GET"@,
        HttpRequestMethod::POST => "POST"@,
        HttpRequestMethod::UPDATE => "UPDATE"@,
    }
}

#[derive(Debug, Clone)]
pub struct HttpRequest {
    pub method: HttpRequestMethod,
    pub request_target: Path,
    pub protocol: String,
    pub headers: Vec<(HeaderName, HeaderValue)>,
    pub body: Vec<u8>,
}

impl HttpRequest {
    pub fn new(method: HttpRequestMethod, request_target: Path, protocol: &str) -> (r: Self)
        ensures
            r.method == method,
            r.request_target.path@ == request_target.path@,
            r.protocol@ == protocol@,
            r.headers@ =~= Seq::<(HeaderName, HeaderValue)>::empty(),
            r.body@ =~= Seq::<u8>::empty(),
    {
        Self {
            method,
            request_target,
            protocol: protocol.to_owned(),
            headers: Vec::new(),
            body: Vec::new(),
        }
    }

    pub fn add_header(&mut self, name: &str, value: &str)
        ensures
            final(self).headers@.len() == old(self).headers@.len() + 1,
            final(self).headers@.last().0.name@ == name@,
            final(self).headers@.last().1.value@ == value@,
            final(self).headers@.drop_last() == old(self).headers@,
            final(self).method == old(self).method,
            final(self).request_target.path@ == old(self).request_target.path@,
            final(self).protocol == old(self).protocol,
            final(self).body == old(self).body,
    {
        push_header(&mut self.headers, name, value);
    }
}

impl Default for HttpRequest {
    fn default() -> (r: Self)
        ensures
            r.method == HttpRequestMethod::GET,
            r.request_target.path@ == "/"@,
            r.protocol@ == "HTTP/1.1"@,
            r.headers@ =~= Seq::<(HeaderName, HeaderValue)>::empty(),
            r.body@ =~= Seq::<u8>::empty(),
    {
        HttpRequest::new(HttpRequestMethod::GET, Path::default(), "HTTP/1.1")
    }
}

impl HttpMessage for HttpRequest {
    open spec fn start_line(&self) -> Seq<char> {
        method_chars(self.method) + " "@ + self.request_target.path@ + " "@ + self.protocol@
    }

    open spec fn headers_of(&self) -> Seq<(HeaderName, HeaderValue)> {
        self.headers@
    }

    open spec fn body_of(&self) -> Seq<u8> {
        self.body@
    }

    fn get_start_line(&self) -> (r: String) {
        let mut line = String::new();
        let method = match self.method {
            HttpRequestMethod::GET => "GET",
            HttpRequestMethod::POST => "POST",
            HttpRequestMethod::UPDATE => "UPDATE",
        };
        line.append(method);
        line.append(" ");
        line.append(self.request_target.path.as_str());
        line.append(" ");
        line.append(self.protocol.as_str());
        proof {
            assert(line@ =~= self.start_line());
        }
        line
    }

    fn get_headers(&self) -> (r: &Vec<(HeaderName, HeaderValue)>) {
        &self.headers
    }

    fn get_body(&self) -> (r: Vec<u8>) {
        self.body.clone()
    }
}

impl HttpResponse {
    /// Parses a response out of raw wire bytes, accepting exactly what the
    /// grammar `response_parse` accepts and handing back its fields.
    #[verifier::loop_isolation(false)]
    pub fn desrialize(buffer: Vec<u8>) -> (r: Result<Self, String>)
        ensures
            response_parse(buffer@) matches Some(m) ==> (r matches Ok(resp) && resp.protocol@
                == m.protocol && resp.result as int == m.result && resp.result_string@ == m.reason
                && resp.headers@.map_values(
                |h: (HeaderName, HeaderValue)| (h.0.name@, h.1.value@),
            ) == m.headers && resp.body@ == m.body),
            response_parse(buffer@) is None ==> r is Err,
    {
        let buf_len = buffer.len();
        let e0 = find_line_end(&buffer, 0);
        let first_raw = copy_range(&buffer, 0, e0);
        let first = strip_cr_exec(first_raw);
        let p_end = find_token_end(&first, 0, 32);
        if p_end >= first.len() {
            return Err("there is only one element in first string".to_owned());
        }
        let protocol = match ascii_string(&first, 0, p_end) {
            Some(s) => s,
            None => {
                return Err("utf8 error while parsing (element 1)".to_owned());
            },
        };
        let s_end = find_token_end(&first, p_end + 1, 32);
        if s_end >= first.len() {
            return Err("there is only one element in first string".to_owned());
        }
        let result = match parse_u16_digits(&first, p_end + 1, s_end) {
            Some(v) => v,
            None => {
                return Err("the status is not a number".to_owned());
            },
        };
        let r_end = find_token_end(&first, s_end + 1, 32);
        let reason = match ascii_string(&first, s_end + 1, r_end) {
            Some(s) => s,
            None => {
                return Err("utf8 error while parsing (element 2)".to_owned());
            },
        };
        if e0 >= buf_len {
            return Err("there is not body".to_owned());
        }
        let ghost start_from = e0 + 1;
        let mut headers: Vec<(HeaderName, HeaderValue)> = Vec::new();
        let mut pos: usize = e0 + 1;
        loop
            invariant
                pos <= buf_len,
                buf_len == buffer@.len(),
                parse_header_lines(buffer@, start_from) is Some <==> parse_header_lines(
                    buffer@,
                    pos as int,
                ) is Some,
                parse_header_lines(buffer@, pos as int) matches Some(pr) ==> (parse_header_lines(
                    buffer@,
                    start_from,
                ) matches Some(whole) && whole.0 == headers@.map_values(
                    |h: (HeaderName, HeaderValue)| (h.0.name@, h.1.value@),
                ) + pr.0 && whole.1 == pr.1),
            decreases buffer@.len() - pos,
        {
            let e = find_line_end(&buffer, pos);
            let line_raw = copy_range(&buffer, pos, e);
            let line = strip_cr_exec(line_raw);
            if line.len() == 0 {
                if e < buf_len {
                    let body = copy_range(&buffer, e + 1, buf_len);
                    let ghost mapped = headers@.map_values(
                        |h: (HeaderName, HeaderValue)| (h.0.name@, h.1.value@),
                    );
                    proof {
                        assert(parse_header_lines(buffer@, pos as int) == Some(
                            (Seq::<(Seq<char>, Seq<char>)>::empty(), e + 1 as int),
                        ));
                        assert(mapped + Seq::<(Seq<char>, Seq<char>)>::empty() =~= mapped);
                    }
                    proof {
                        match response_parse(buffer@) {
                            Some(m) => {
                                assert(m.protocol == protocol@);
                                lemma_digits_value_nonneg(
                                    strip_cr(buffer@.subrange(0, line_end(buffer@, 0))).subrange(
                                        p_end + 1,
                                        s_end as int,
                                    ),
                                );
                                assert(m.result == result as int);
                                assert(m.reason == reason@);
                                assert(m.headers == mapped);
                                assert(m.body == buffer@.subrange(e + 1, buf_len as int));
                            },
                            None => {
                                assert(false);
                            },
                        }
                    }
                    let mut response = HttpResponse::new(result, reason.as_str(), protocol.as_str());
                    response.headers = headers;
                    response.body = body;
                    return Ok(response);
                } else {
                    return Err("there is not body".to_owned());
                }
            }
            if e >= buf_len {
                return Err("there is not body".to_owned());
            }
            let c = find_token_end(&line, 0, 58);
            if c >= line.len() {
                return Err("error while parsing headers value".to_owned());
            }
            let c2 = find_token_end(&line, c + 1, 58);
            let name = match ascii_string(&line, 0, c) {
                Some(s) => s,
                None => {
                    return Err("utf8 error while parsing a header name".to_owned());
                },
            };
            let value = match ascii_string(&line, c + 1, c2) {
                Some(s) => s,
                None => {
                    return Err("utf8 error while parsing a header value".to_owned());
                },
            };
            let ghost mapped_before = headers@.map_values(
                |h: (HeaderName, HeaderValue)| (h.0.name@, h.1.value@),
            );
            push_header(&mut headers, name.as_str(), value.as_str());
            proof {
                let mapped_after = headers@.map_values(
                    |h: (HeaderName, HeaderValue)| (h.0.name@, h.1.value@),
                );
                assert(mapped_after =~= mapped_before.push((name@, value@)));
                let entry = seq![(name@, value@)];
                match parse_header_lines(buffer@, e + 1 as int) {
                    Some(next) => {
                        assert(parse_header_lines(buffer@, pos as int) == Some(
                            (entry + next.0, next.1),
                        ));
                        assert(mapped_before + (entry + next.0) =~= mapped_after + next.0);
                    },
                    None => {},
                }
            }
            pos = e + 1;
        }
    }
}

} // verus!
