use crate::http_messages::{
    decimal_chars, header_lookup, push_decimal, HttpRequest, HttpRequestMethod, HttpResponse, Path,
};
use vstd::prelude::*;
use vstd::string::{StrSliceExecFns, StringExecFns};

verus! {

/// What can go wrong between the client and the wire.
#[derive(Debug)]
pub enum ServerCommunicatorError {
    NoHostNameinTheHeader,
    TcpError(String),
    SerializeError(String),
    ChannelError(String),
    TimeOutError(String),
    Terminate,
}

/// Validates a range reply: the status must be 200 or 206 and the body
/// non-empty; hands back the body and its length.
pub fn check_response(response: HttpResponse) -> (r: Result<
    (Vec<u8>, usize),
    ServerCommunicatorError,
>)
    ensures
        (response.result == 200 || response.result == 206) && response.body@.len() > 0 ==> (
        r matches Ok(p) && p.0@ == response.body@ && p.1 == response.body@.len()),
        !((response.result == 200 || response.result == 206) && response.body@.len() > 0)
            ==> r is Err,
{
    if response.result != 206 && response.result != 200 {
        return Err(
            ServerCommunicatorError::SerializeError(
                "the reponse code must be 206 (or 200 full content)".to_owned(),
            ),
        );
    }
    let len = response.body.len();
    if len == 0 {
        return Err(
            ServerCommunicatorError::SerializeError("The length of body is 0".to_owned()),
        );
    }
    Ok((response.body, len))
}

pub open spec fn is_digit_char(c: char) -> bool {
    '0' <= c <= '9'
}

/// The first index at or after `i` that no longer holds a digit.
pub open spec fn digit_run_end(s: Seq<char>, i: int) -> int
    decreases s.len() - i,
{
    if i >= s.len() || !is_digit_char(s[i]) {
        i
    } else {
        digit_run_end(s, i + 1)
    }
}

/// A digit run reaches past its start, no further than the end of the
/// string, and holds digits throughout.
pub proof fn lemma_digit_run_end_bounds(s: Seq<char>, i: int)
    requires
        i <= s.len(),
    ensures
        i <= digit_run_end(s, i) <= s.len(),
        forall|j: int| i <= j < digit_run_end(s, i) ==> is_digit_char(#[trigger] s[j]),
        i < s.len() && is_digit_char(s[i]) ==> digit_run_end(s, i) >= i + 1,
    decreases s.len() - i,
{
    if i < s.len() && is_digit_char(s[i]) {
        lemma_digit_run_end_bounds(s, i + 1);
    }
}

/// Scans from `i`, carrying the start and length of the best run seen so
/// far; hands back the start and length of the first longest digit run.
pub open spec fn best_digit_run(s: Seq<char>, i: int, bs: int, bl: int) -> (int, int)
    decreases s.len() - i,
    via best_digit_run_dec
{
    if i >= s.len() {
        (bs, bl)
    } else if is_digit_char(s[i]) {
        let e = digit_run_end(s, i);
        if e - i > bl {
            best_digit_run(s, e, i, e - i)
        } else {
            best_digit_run(s, e, bs, bl)
        }
    } else {
        best_digit_run(s, i + 1, bs, bl)
    }
}

#[via_fn]
proof fn best_digit_run_dec(s: Seq<char>, i: int, bs: int, bl: int) {
    if i <= s.len() {
        lemma_digit_run_end_bounds(s, i);
    }
}

/// The first longest run of decimal digits in the string.
pub open spec fn longest_digit_run(s: Seq<char>) -> Seq<char> {
    let run = best_digit_run(s, 0, 0, 0);
    s.subrange(run.0, run.0 + run.1)
}

/// The longest digit run starts inside the string and holds digits only.
pub proof fn lemma_longest_run_digits(s: Seq<char>)
    ensures
        ({
            let run = best_digit_run(s, 0, 0, 0);
            0 <= run.0 && 0 <= run.1 && run.0 + run.1 <= s.len()
        }),
        forall|j: int|
            0 <= j < longest_digit_run(s).len() ==> is_digit_char(
                #[trigger] longest_digit_run(s)[j],
            ),
{
    lemma_best_run_digits(s, 0, 0, 0);
}

proof fn lemma_best_run_digits(s: Seq<char>, i: int, bs: int, bl: int)
    requires
        0 <= i <= s.len(),
        0 <= bs,
        0 <= bl,
        bs + bl <= s.len(),
        forall|j: int| bs <= j < bs + bl ==> is_digit_char(#[trigger] s[j]),
    ensures
        ({
            let run = best_digit_run(s, i, bs, bl);
            0 <= run.0 && 0 <= run.1 && run.0 + run.1 <= s.len() && (forall|j: int|
                run.0 <= j < run.0 + run.1 ==> is_digit_char(#[trigger] s[j]))
        }),
    decreases s.len() - i,
{
    if i < s.len() {
        if is_digit_char(s[i]) {
            lemma_digit_run_end_bounds(s, i);
            let e = digit_run_end(s, i);
            if e - i > bl {
                lemma_best_run_digits(s, e, i, e - i);
            } else {
                lemma_best_run_digits(s, e, bs, bl);
            }
        } else {
            lemma_best_run_digits(s, i + 1, bs, bl);
        }
    }
}

/// The number a run of decimal digit characters denotes.
pub open spec fn chars_value(s: Seq<char>) -> int
    decreases s.len(),
{
    if s.len() == 0 {
        0
    } else {
        chars_value(s.drop_last()) * 10 + (s.last() as int - 48)
    }
}

/// A run of digits denotes a number, never anything negative.
pub proof fn lemma_chars_value_nonneg(s: Seq<char>)
    requires
        forall|i: int| 0 <= i < s.len() ==> '0' <= #[trigger] s[i] <= '9',
    ensures
        chars_value(s) >= 0,
    decreases s.len(),
{
    if s.len() > 0 {
        assert forall|i: int| 0 <= i < s.drop_last().len() implies '0' <= #[trigger] s.drop_last()[i]
            <= '9' by {
            assert(s.drop_last()[i] == s[i]);
        }
        lemma_chars_value_nonneg(s.drop_last());
        assert('0' <= s.last() <= '9');
    }
}

/// Whether the character at `e` is a decimal digit.
fn digit_at(value: &str, e: usize) -> (r: bool)
    requires
        e < value@.len(),
    ensures
        r == is_digit_char(value@[e as int]),
{
    let c = value.get_char(e);
    c >= '0' && c <= '9'
}

/// Reads a length out of a header value the way a permissive client does:
/// retain the longest run of decimal digits and read it as one number.
/// Fails when no digit occurs or the number overflows the machine.
#[verifier::loop_isolation(false)]
pub fn parse_content_length(value: &str) -> (r: Option<usize>)
    ensures
        longest_digit_run(value@).len() > 0 && chars_value(longest_digit_run(value@))
            <= usize::MAX ==> r == Some(chars_value(longest_digit_run(value@)) as usize),
        !(longest_digit_run(value@).len() > 0 && chars_value(longest_digit_run(value@))
            <= usize::MAX) ==> r is None,
{
    let n = value.unicode_len();
    let mut bs: usize = 0;
    let mut bl: usize = 0;
    let mut i: usize = 0;
    while i < n
        invariant
            0 <= i <= n,
            bs + bl <= i,
            forall|j: int| bs <= j < bs + bl ==> is_digit_char(#[trigger] value@[j]),
            best_digit_run(value@, i as int, bs as int, bl as int) == best_digit_run(
                value@,
                0,
                0,
                0,
            ),
        decreases n - i,
    {
        if digit_at(value, i) {
            let mut e: usize = i;
            while e < n && digit_at(value, e)
                invariant
                    i <= e <= n,
                    forall|j: int| i <= j < e ==> is_digit_char(#[trigger] value@[j]),
                    digit_run_end(value@, i as int) == digit_run_end(value@, e as int),
                decreases n - e,
            {
                e = e + 1;
            }
            proof {
                assert(digit_run_end(value@, e as int) == e);
            }
            let run_len = e - i;
            if run_len > bl {
                bs = i;
                bl = run_len;
            }
            i = e;
        } else {
            i = i + 1;
        }
    }
    if bl == 0 {
        proof {
            assert(best_digit_run(value@, n as int, bs as int, 0int) == (bs as int, 0int));
            assert(longest_digit_run(value@) =~= Seq::<char>::empty());
        }
        return None;
    }
    let ghost run = value@.subrange(bs as int, bs + bl);
    proof {
        assert(best_digit_run(value@, n as int, bs as int, bl as int) == (bs as int, bl as int));
        assert(longest_digit_run(value@) == run);
    }
    let mut acc: usize = 0;
    let mut over: bool = false;
    let mut k: usize = 0;
    while k < bl
        invariant
            0 <= k <= bl,
            !over ==> acc == chars_value(run.subrange(0, k as int)),
            over ==> chars_value(run.subrange(0, k as int)) > usize::MAX,
        decreases bl - k,
    {
        let c = value.get_char(bs + k);
        let ghost prefix = run.subrange(0, k as int);
        proof {
            assert(run[k as int] == value@[bs + k]);
            assert(is_digit_char(c));
            assert(run.subrange(0, k + 1).drop_last() =~= prefix);
            assert(run.subrange(0, k + 1).last() == c);
        }
        let d = (c as u32 - 48) as usize;
        proof {
            assert(chars_value(run.subrange(0, k + 1)) == chars_value(prefix) * 10 + d);
        }
        if !over {
            if acc > (usize::MAX - d) / 10 {
                proof {
                    assert(acc * 10 + d > usize::MAX) by (nonlinear_arith)
                        requires
                            acc > (usize::MAX - d) / 10,
                            d <= 9,
                    ;
                }
                over = true;
            } else {
                proof {
                    assert(acc * 10 + d <= usize::MAX) by (nonlinear_arith)
                        requires
                            acc <= (usize::MAX - d) / 10,
                            0 <= d <= 9,
                    ;
                }
                acc = acc * 10 + d;
            }
        } else {
            proof {
                assert(chars_value(prefix) * 10 + d > usize::MAX) by (nonlinear_arith)
                    requires
                        chars_value(prefix) > usize::MAX,
                        d >= 0,
                ;
            }
        }
        k = k + 1;
    }
    proof {
        assert(run.subrange(0, bl as int) =~= run);
    }
    if over {
        None
    } else {
        Some(acc)
    }
}

/// The bodyless discovery request the client opens a session with.
pub fn discovery_request(addr: &str) -> (r: HttpRequest)
    ensures
        r.method == HttpRequestMethod::GET,
        r.request_target.path@ == "/"@,
        r.protocol@ == "HTTP/1.1"@,
        r.headers@.len() == 3,
        r.headers@[0].0.name@ == "Host"@ && r.headers@[0].1.value@ == addr@,
        r.headers@[1].0.name@ == "User-Agent"@ && r.headers@[1].1.value@ == "Rust-Client/1.0"@,
        r.headers@[2].0.name@ == "Connection"@ && r.headers@[2].1.value@ == "close"@,
        r.body@.len() == 0,
{
    let mut request = HttpRequest::new(HttpRequestMethod::GET, Path::default(), "HTTP/1.1");
    request.add_header("Host", addr);
    request.add_header("User-Agent", "Rust-Client/1.0");
    request.add_header("Connection", "close");
    request
}

/// The request for the byte range `[bounds.0, bounds.1)`.
pub fn range_request(addr: &str, bounds: (usize, usize)) -> (r: HttpRequest)
    ensures
        r.method == HttpRequestMethod::GET,
        r.request_target.path@ == "/"@,
        r.protocol@ == "HTTP/1.1"@,
        r.headers@.len() == 3,
        r.headers@[0].0.name@ == "Host"@ && r.headers@[0].1.value@ == addr@,
        r.headers@[1].0.name@ == "User-Agent"@ && r.headers@[1].1.value@ == "Rust-Client/1.0"@,
        r.headers@[2].0.name@ == "Range"@ && r.headers@[2].1.value@ == "bytes="@ + decimal_chars(
            bounds.0 as int,
        ) + "-"@ + decimal_chars(bounds.1 as int),
        r.body@.len() == 0,
{
    let mut request = HttpRequest::new(HttpRequestMethod::GET, Path::default(), "HTTP/1.1");
    request.add_header("Host", addr);
    request.add_header("User-Agent", "Rust-Client/1.0");
    let mut range_value = String::new();
    range_value.append("bytes=");
    push_decimal(&mut range_value, bounds.0);
    range_value.append("-");
    push_decimal(&mut range_value, bounds.1);
    request.add_header("Range", range_value.as_str());
    proof {
        assert(range_value@ =~= "bytes="@ + decimal_chars(bounds.0 as int) + "-"@ + decimal_chars(
            bounds.1 as int,
        ));
    }
    request
}

/// The payload length a discovery reply announces, if it announces one
/// this client can read.
pub fn extract_content_length(response: &HttpResponse) -> (r: Option<usize>)
    ensures
        r matches Some(len) ==> (header_lookup(response.headers@, "Content-Length"@) matches Some(
            v,
        ) && longest_digit_run(v).len() > 0 && chars_value(longest_digit_run(v)) == len),
        r is None ==> (header_lookup(response.headers@, "Content-Length"@) is None || (
        header_lookup(response.headers@, "Content-Length"@) matches Some(v) && !(longest_digit_run(
            v,
        ).len() > 0 && chars_value(longest_digit_run(v)) <= usize::MAX))),
{
    let value = match response.get_header("Content-Length") {
        Some(hv) => hv,
        None => {
            return None;
        },
    };
    proof {
        lemma_longest_run_digits(value.value@);
        lemma_chars_value_nonneg(longest_digit_run(value.value@));
    }
    parse_content_length(value.value.as_str())
}

} // verus!
