//! Splitting a response text into status, headers and body.
use vstd::prelude::*;
use crate::headers::Headers;
use crate::status::{classify, StatusCode};
use crate::text::{
    chars_of, find, find_from, find_in, is_white, lemma_find_from, normalize, normalized, occurs_at, string_of,
    white,
};

verus! {

/// The line terminator.
pub open spec fn crlf() -> Seq<char> {
    seq!['\r', '\n']
}

/// The blank line that ends the head.
pub open spec fn blank_line() -> Seq<char> {
    seq!['\r', '\n', '\r', '\n']
}

pub open spec fn colon() -> Seq<char> {
    seq![':']
}

pub open spec fn missing_delimiter() -> Seq<char> {
    "missing body delimiter"@
}

pub open spec fn missing_status() -> Seq<char> {
    "missing status code"@
}

/// The first position at or after `i` that does not hold whitespace.
pub open spec fn skip_white(s: Seq<char>, i: int) -> int
    decreases s.len() - i,
{
    if 0 <= i < s.len() && is_white(s[i]) {
        skip_white(s, i + 1)
    } else {
        i
    }
}

/// The first position at or after `i` that holds whitespace, or the end.
pub open spec fn word_end(s: Seq<char>, i: int) -> int
    decreases s.len() - i,
{
    if 0 <= i < s.len() && !is_white(s[i]) {
        word_end(s, i + 1)
    } else {
        i
    }
}

/// The second whitespace-separated word of `line`, empty when there is none.
pub open spec fn second_token(line: Seq<char>) -> Seq<char> {
    let b = skip_white(line, word_end(line, skip_white(line, 0)));
    line.subrange(b, word_end(line, b))
}

pub open spec fn is_digit(c: char) -> bool {
    '0' <= c && c <= '9'
}

/// The number that a string of decimal digits spells.
pub open spec fn digits_value(ds: Seq<char>) -> nat
    decreases ds.len(),
{
    if ds.len() == 0 {
        0
    } else {
        digits_value(ds.drop_last()) * 10 + ((ds.last() as int) - ('0' as int)) as nat
    }
}

/// The digits of a status token: the token without one leading `+`.
pub open spec fn unsigned_digits(tok: Seq<char>) -> Seq<char> {
    if tok.len() > 0 && tok[0] == '+' {
        tok.skip(1)
    } else {
        tok
    }
}

/// An unsigned decimal number: one optional `+`, then at least one digit.
pub open spec fn is_number(tok: Seq<char>) -> bool {
    let ds = unsigned_digits(tok);
    ds.len() > 0 && forall|i: int| 0 <= i < ds.len() ==> is_digit(#[trigger] ds[i])
}

/// The outcome class of a status token; `None` when it is not an unsigned
/// decimal number. A number too large for a status code is of no defined class.
pub open spec fn token_status(tok: Seq<char>) -> Option<StatusCode> {
    if is_number(tok) {
        let v = digits_value(unsigned_digits(tok));
        if v <= 65535 {
            Some(classify(Some(v as u16)))
        } else {
            Some(StatusCode::Unknown)
        }
    } else {
        None
    }
}

/// The first line of the head.
pub open spec fn status_line(head: Seq<char>) -> Seq<char> {
    match find(head, crlf()) {
        Some(i) => head.take(i),
        None => head,
    }
}

/// What one header line adds to the mapping: the part before the first colon
/// as key, the rest as value, both normalized. A line without a colon adds nothing.
pub open spec fn add_header(m: Map<Seq<char>, Seq<char>>, line: Seq<char>) -> Map<
    Seq<char>,
    Seq<char>,
> {
    match find(line, colon()) {
        Some(c) => m.insert(normalize(line.take(c)), normalize(line.skip(c + 1))),
        None => m,
    }
}

/// The mapping after the header lines of `rest`, in order, were added to `m`.
pub open spec fn headers_from(m: Map<Seq<char>, Seq<char>>, rest: Seq<char>) -> Map<
    Seq<char>,
    Seq<char>,
>
    decreases rest.len(),
{
    match find(rest, crlf()) {
        Some(i) => {
            proof {
                lemma_find_from(rest, crlf(), 0);
            }
            headers_from(add_header(m, rest.take(i)), rest.skip(i + 2))
        },
        None => add_header(m, rest),
    }
}

/// The header mapping of a head: every line after the status line.
pub open spec fn header_map(head: Seq<char>) -> Map<Seq<char>, Seq<char>> {
    match find(head, crlf()) {
        Some(i) => headers_from(Map::empty(), head.skip(i + 2)),
        None => Map::empty(),
    }
}

/// A parsed response.
pub struct Response {
    pub status: StatusCode,
    pub header: Headers,
    pub body: String,
}

/// What a `Response` holds, as mathematical values.
pub struct ResponseView {
    pub status: StatusCode,
    pub header: Map<Seq<char>, Seq<char>>,
    pub body: Seq<char>,
}

impl View for Response {
    type V = ResponseView;

    open spec fn view(&self) -> ResponseView {
        ResponseView { status: self.status, header: self.header@, body: self.body@ }
    }
}

impl Response {
    pub open spec fn wf(&self) -> bool {
        self.header.wf()
    }
}

/// Why a fetch gave no response.
#[derive(Debug)]
pub enum RequestError {
    ConnectionFailed,
    TlsFailed,
    MalformedResponse(String),
    NonSuccessStatus(StatusCode),
}

/// What a `RequestError` holds, as mathematical values.
pub enum ErrorView {
    ConnectionFailed,
    TlsFailed,
    MalformedResponse(Seq<char>),
    NonSuccessStatus(StatusCode),
}

impl View for RequestError {
    type V = ErrorView;

    open spec fn view(&self) -> ErrorView {
        match self {
            RequestError::ConnectionFailed => ErrorView::ConnectionFailed,
            RequestError::TlsFailed => ErrorView::TlsFailed,
            RequestError::MalformedResponse(m) => ErrorView::MalformedResponse(m@),
            RequestError::NonSuccessStatus(c) => ErrorView::NonSuccessStatus(*c),
        }
    }
}

pub open spec fn outcome_view(r: Result<Response, RequestError>) -> Result<ResponseView, ErrorView> {
    match r {
        Ok(resp) => Ok(resp@),
        Err(e) => Err(e@),
    }
}

/// A response text taken apart: the head ends at the first blank line, its
/// first line carries the status code as second word, the other lines are
/// headers, and what follows the blank line is the body.
pub open spec fn parse_model(t: Seq<char>) -> Result<ResponseView, ErrorView> {
    match find(t, blank_line()) {
        None => Err(ErrorView::MalformedResponse(missing_delimiter())),
        Some(d) => match token_status(second_token(status_line(t.take(d)))) {
            None => Err(ErrorView::MalformedResponse(missing_status())),
            Some(st) => Ok(ResponseView { status: st, header: header_map(t.take(d)), body: t.skip(d + 4) }),
        },
    }
}

/// What a caller is handed: only a successful status counts as a response.
pub open spec fn outcome_model(t: Seq<char>) -> Result<ResponseView, ErrorView> {
    match parse_model(t) {
        Ok(v) => if v.status == StatusCode::Successful {
            Ok(v)
        } else {
            Err(ErrorView::NonSuccessStatus(v.status))
        },
        Err(e) => Err(e),
    }
}

/// A text in which no blank line occurs is malformed.
pub proof fn no_blank_line_is_malformed(t: Seq<char>)
    requires
        forall|i: int| !occurs_at(t, blank_line(), i),
    ensures
        parse_model(t) == Err::<ResponseView, ErrorView>(ErrorView::MalformedResponse(missing_delimiter())),
        outcome_model(t) == Err::<ResponseView, ErrorView>(ErrorView::MalformedResponse(missing_delimiter())),
{
    lemma_find_from(t, blank_line(), 0);
}

/// A text whose status line has no second word, or one that is not an
/// unsigned decimal number, is malformed.
pub proof fn non_numeric_status_is_malformed(t: Seq<char>, d: int)
    requires
        find(t, blank_line()) == Some(d),
        !is_number(second_token(status_line(t.take(d)))),
    ensures
        parse_model(t) == Err::<ResponseView, ErrorView>(ErrorView::MalformedResponse(missing_status())),
        outcome_model(t) == Err::<ResponseView, ErrorView>(ErrorView::MalformedResponse(missing_status())),
{
}

/// Two header lines whose keys differ only in case or in surrounding
/// whitespace set one entry, which holds the later line's value.
pub proof fn header_keys_fold_together(
    m: Map<Seq<char>, Seq<char>>,
    first: Seq<char>,
    second: Seq<char>,
)
    requires
        find(first, colon()) is Some,
        find(second, colon()) is Some,
        normalize(first.take(find(first, colon())->Some_0)) == normalize(
            second.take(find(second, colon())->Some_0),
        ),
    ensures
        ({
            let c = find(second, colon())->Some_0;
            let key = normalize(second.take(c));
            &&& add_header(add_header(m, first), second) == m.insert(key, normalize(second.skip(c + 1)))
            &&& add_header(add_header(m, first), second).dom() == m.dom().insert(key)
        }),
{
    let c = find(second, colon())->Some_0;
    let key = normalize(second.take(c));
    assert(add_header(add_header(m, first), second) =~= m.insert(key, normalize(second.skip(c + 1))));
}

/// No carriage return occurs in `s`.
pub open spec fn no_cr(s: Seq<char>) -> bool {
    forall|i: int| 0 <= i < s.len() ==> s[i] != '\r'
}

/// A line terminator or blank line starting at `k` starts with a carriage return.
proof fn lemma_occurs_cr(s: Seq<char>, pat: Seq<char>, k: int)
    requires
        occurs_at(s, pat, k),
        pat.len() > 0,
        pat[0] == '\r',
    ensures
        s[k] == '\r',
{
    assert(s.subrange(k, k + pat.len())[0] == s[k]);
}

/// A text without carriage returns holds no line terminator.
proof fn lemma_no_crlf(s: Seq<char>)
    requires
        no_cr(s),
    ensures
        find(s, crlf()) is None,
{
    assert forall|k: int| 0 <= k implies !occurs_at(s, crlf(), k) by {
        if occurs_at(s, crlf(), k) {
            lemma_occurs_cr(s, crlf(), k);
        }
    }
    lemma_find_none(s, crlf(), 0);
}

/// The first line terminator of `x`, a terminator, `y` follows `x` when `x`
/// holds no carriage return.
proof fn lemma_first_crlf(x: Seq<char>, y: Seq<char>)
    requires
        no_cr(x),
    ensures
        find(x + crlf() + y, crlf()) == Some(x.len() as int),
        (x + crlf() + y).take(x.len() as int) == x,
        (x + crlf() + y).skip(x.len() as int + 2) == y,
{
    let s = x + crlf() + y;
    let a = x.len() as int;
    assert(s.subrange(a, a + 2) =~= crlf());
    assert forall|k: int| 0 <= k < a implies !occurs_at(s, crlf(), k) by {
        if occurs_at(s, crlf(), k) {
            lemma_occurs_cr(s, crlf(), k);
            assert(s[k] == x[k]);
        }
    }
    lemma_find_at(s, crlf(), 0, a);
    assert(s.take(a) =~= x);
    assert(s.skip(a + 2) =~= y);
}

/// In `h` every carriage return is followed, two places on, by something else.
pub open spec fn no_blank_inside(h: Seq<char>) -> bool {
    forall|k: int|
        0 <= k < h.len() && #[trigger] h[k] == '\r' ==> k + 2 < h.len() && h[k + 2] != '\r'
}

/// The first blank line of `h`, a blank line, `body` is the one after `h`.
proof fn lemma_blank_after(h: Seq<char>, body: Seq<char>)
    requires
        no_blank_inside(h),
    ensures
        find(h + blank_line() + body, blank_line()) == Some(h.len() as int),
        (h + blank_line() + body).take(h.len() as int) == h,
        (h + blank_line() + body).skip(h.len() as int + 4) == body,
{
    let t = h + blank_line() + body;
    let d = h.len() as int;
    assert(t.subrange(d, d + 4) =~= blank_line());
    assert forall|k: int| 0 <= k < d implies !occurs_at(t, blank_line(), k) by {
        if occurs_at(t, blank_line(), k) {
            let w = t.subrange(k, k + 4);
            assert(w[0] == t[k] && w[1] == t[k + 1] && w[2] == t[k + 2]);
            assert(t[k] == h[k]);
            if k + 2 < d {
                assert(t[k + 2] == h[k + 2]);
            }
        }
    }
    lemma_find_at(t, blank_line(), 0, d);
    assert(t.take(d) =~= h);
    assert(t.skip(d + 4) =~= body);
}

/// A head of a status line and two header lines, none of them empty or
/// holding a carriage return, has no blank line inside.
proof fn lemma_three_lines(status: Seq<char>, first: Seq<char>, second: Seq<char>)
    requires
        no_cr(status),
        no_cr(first),
        no_cr(second),
        first.len() > 0,
        second.len() > 0,
    ensures
        no_blank_inside(status + crlf() + (first + crlf() + second)),
{
    let rest = first + crlf() + second;
    let head = status + crlf() + rest;
    let a = status.len() as int;
    let f = first.len() as int;
    assert forall|k: int| 0 <= k < rest.len() && rest[k] == '\r' implies k == f by {
        if k < f {
            assert(rest[k] == first[k]);
        } else if k > f + 1 {
            assert(rest[k] == second[k - f - 2]);
        }
    }
    assert(rest[f + 2] == second[0]);
    assert forall|k: int| 0 <= k < head.len() && #[trigger] head[k] == '\r' implies k + 2 < head.len()
        && head[k + 2] != '\r' by {
        if k < a {
            assert(head[k] == status[k]);
        } else if k == a {
            assert(head[a + 2] == rest[0]);
            assert(rest[0] == first[0]);
        } else if k > a + 1 {
            assert(head[k] == rest[k - a - 2]);
            assert(head[k + 2] == rest[k - a]);
        }
    }
}

/// A head of three lines, whose second and third lines carry keys that differ
/// only in case or in surrounding whitespace, gives one header entry: the key,
/// normalized, with the third line's value.
pub proof fn repeated_header_key_sets_one_entry(
    status: Seq<char>,
    first: Seq<char>,
    second: Seq<char>,
    body: Seq<char>,
)
    requires
        no_cr(status),
        no_cr(first),
        no_cr(second),
        token_status(second_token(status)) is Some,
        find(first, colon()) is Some,
        find(second, colon()) is Some,
        normalize(first.take(find(first, colon())->Some_0)) == normalize(
            second.take(find(second, colon())->Some_0),
        ),
    ensures
        ({
            let c = find(second, colon())->Some_0;
            let key = normalize(second.take(c));
            parse_model(status + crlf() + first + crlf() + second + blank_line() + body) == Ok::<
                ResponseView,
                ErrorView,
            >(
                ResponseView {
                    status: token_status(second_token(status))->Some_0,
                    header: Map::empty().insert(key, normalize(second.skip(c + 1))),
                    body,
                },
            )
        }),
{
    lemma_find_from(first, colon(), 0);
    lemma_find_from(second, colon(), 0);
    let rest = first + crlf() + second;
    let head = status + crlf() + rest;
    assert(status + crlf() + first + crlf() + second == head);
    lemma_three_lines(status, first, second);
    lemma_blank_after(head, body);
    lemma_first_crlf(status, rest);
    lemma_first_crlf(first, second);
    lemma_no_crlf(second);
    assert(status_line(head) == status);
    assert(header_map(head) == headers_from(Map::empty(), rest));
    assert(headers_from(Map::empty(), rest) == headers_from(add_header(Map::empty(), first), second));
    header_keys_fold_together(Map::empty(), first, second);
}

/// A first occurrence at `d`: nothing matches from `i` up to `d`.
proof fn lemma_find_at(s: Seq<char>, pat: Seq<char>, i: int, d: int)
    requires
        0 <= i <= d,
        occurs_at(s, pat, d),
        forall|k: int| i <= k < d ==> !occurs_at(s, pat, k),
    ensures
        find_from(s, pat, i) == Some(d),
    decreases d - i,
{
    if i < d {
        lemma_find_at(s, pat, i + 1, d);
    }
}

/// Nothing matches from `i` on.
proof fn lemma_find_none(s: Seq<char>, pat: Seq<char>, i: int)
    requires
        0 <= i,
        forall|k: int| i <= k ==> !occurs_at(s, pat, k),
    ensures
        find_from(s, pat, i) is None,
    decreases s.len() + 1 - i,
{
    if i + pat.len() <= s.len() {
        lemma_find_none(s, pat, i + 1);
    }
}

/// A word of `s` runs from `i` up to the first whitespace at `j` or the end.
proof fn lemma_word_end(s: Seq<char>, i: int, j: int)
    requires
        0 <= i <= j <= s.len(),
        forall|k: int| i <= k < j ==> !is_white(#[trigger] s[k]),
        j == s.len() || is_white(s[j]),
    ensures
        word_end(s, i) == j,
    decreases j - i,
{
    if i < j {
        lemma_word_end(s, i + 1, j);
    }
}

/// A response text `{version} {code} OK`, one header line `Key: Value`, a
/// blank line and the body `Body`, with a one-word version and a decimal code,
/// parses to the code's class, the one header `Key: Value` normalized and the
/// body `Body`.
pub proof fn simple_response_parses(version: Seq<char>, code: Seq<char>)
    requires
        version.len() > 0,
        forall|i: int| 0 <= i < version.len() ==> !is_white(#[trigger] version[i]),
        code.len() > 0,
        forall|i: int| 0 <= i < code.len() ==> is_digit(#[trigger] code[i]),
    ensures
        parse_model(version + seq![' '] + code + " OK\r\nKey: Value\r\n\r\nBody"@) == Ok::<
            ResponseView,
            ErrorView,
        >(
            ResponseView {
                status: token_status(code)->Some_0,
                header: Map::empty().insert(normalize("Key"@), normalize(" Value"@)),
                body: "Body"@,
            },
        ),
{
    let tail = " OK\r\nKey: Value\r\n\r\nBody"@;
    reveal_strlit(" OK\r\nKey: Value\r\n\r\nBody");
    reveal_strlit("Key");
    reveal_strlit(" Value");
    reveal_strlit("Body");
    assert(tail =~= seq![' ', 'O', 'K', '\r', '\n', 'K', 'e', 'y', ':', ' ', 'V', 'a', 'l', 'u', 'e', '\r', '\n', '\r', '\n', 'B', 'o', 'd', 'y']);
    let t = version + seq![' '] + code + tail;
    let a = version.len() as int;
    let p = a + 1 + code.len();
    assert forall|j: int| 0 <= j < tail.len() implies t[p + j] == tail[j] by {}
    assert forall|k: int| 0 <= k < p implies t[k] != '\r' && t[k] != '\n' by {
        if k < a {
            assert(t[k] == version[k]);
        } else if k > a {
            assert(t[k] == code[k - a - 1]);
        }
    }
    // The blank line.
    let d = p + 15;
    assert(t.subrange(d, d + 4) =~= blank_line());
    assert forall|k: int| 0 <= k < d implies !occurs_at(t, blank_line(), k) by {
        if occurs_at(t, blank_line(), k) {
            assert(t.subrange(k, k + 4)[0] == t[k]);
            assert(t.subrange(k, k + 4)[2] == t[k + 2]);
            assert(t.subrange(k, k + 4)[1] == t[k + 1]);
        }
    }
    lemma_find_at(t, blank_line(), 0, d);
    let head = t.take(d);
    assert(t.skip(d + 4) =~= "Body"@);
    // The status line.
    let e = p + 3;
    assert(head.subrange(e, e + 2) =~= crlf());
    assert forall|k: int| 0 <= k < e implies !occurs_at(head, crlf(), k) by {
        if occurs_at(head, crlf(), k) {
            assert(head.subrange(k, k + 2)[0] == head[k]);
        }
    }
    lemma_find_at(head, crlf(), 0, e);
    let line = head.take(e);
    assert(status_line(head) == line);
    assert forall|k: int| 0 <= k < a implies !is_white(#[trigger] line[k]) by {
        assert(line[k] == version[k]);
    }
    lemma_word_end(line, 0, a);
    assert(line[a] == ' ');
    assert forall|k: int| a + 1 <= k < p implies !is_white(#[trigger] line[k]) by {
        assert(line[k] == code[k - a - 1]);
    }
    assert(line[p] == ' ');
    lemma_word_end(line, a + 1, p);
    assert(skip_white(line, 0) == 0);
    assert(skip_white(line, a + 1) == a + 1);
    assert(skip_white(line, a) == a + 1);
    assert(line.subrange(a + 1, p) =~= code);
    assert(second_token(line) == code);
    // The header line.
    let rest = head.skip(e + 2);
    reveal_strlit("Key: Value");
    assert(rest =~= "Key: Value"@);
    assert forall|k: int| 0 <= k implies !occurs_at(rest, crlf(), k) by {
        if occurs_at(rest, crlf(), k) {
            assert(rest.subrange(k, k + 2)[0] == rest[k]);
        }
    }
    lemma_find_none(rest, crlf(), 0);
    assert(rest.subrange(3, 4) =~= colon());
    assert forall|k: int| 0 <= k < 3 implies !occurs_at(rest, colon(), k) by {
        if occurs_at(rest, colon(), k) {
            assert(rest.subrange(k, k + 1)[0] == rest[k]);
        }
    }
    lemma_find_at(rest, colon(), 0, 3);
    assert(rest.take(3) =~= "Key"@);
    assert(rest.skip(4) =~= " Value"@);
    assert(header_map(head) == Map::<Seq<char>, Seq<char>>::empty().insert(normalize("Key"@), normalize(" Value"@)));
}

fn skip_white_at(s: &[char], lo: usize, hi: usize, i: usize) -> (r: usize)
    requires
        lo <= i <= hi <= s@.len(),
    ensures
        i <= r <= hi,
        r - lo == skip_white(s@.subrange(lo as int, hi as int), i - lo),
{
    let ghost line = s@.subrange(lo as int, hi as int);
    let mut j: usize = i;
    while j < hi && white(s[j])
        invariant
            lo <= i <= j <= hi <= s@.len(),
            line == s@.subrange(lo as int, hi as int),
            skip_white(line, i - lo) == skip_white(line, j - lo),
        decreases hi - j,
    {
        j = j + 1;
    }
    j
}

fn word_end_at(s: &[char], lo: usize, hi: usize, i: usize) -> (r: usize)
    requires
        lo <= i <= hi <= s@.len(),
    ensures
        i <= r <= hi,
        r - lo == word_end(s@.subrange(lo as int, hi as int), i - lo),
{
    let ghost line = s@.subrange(lo as int, hi as int);
    let mut j: usize = i;
    while j < hi && !white(s[j])
        invariant
            lo <= i <= j <= hi <= s@.len(),
            line == s@.subrange(lo as int, hi as int),
            word_end(line, i - lo) == word_end(line, j - lo),
        decreases hi - j,
    {
        j = j + 1;
    }
    j
}

/// The bounds of the second word of `s[lo..hi]`.
fn second_token_range(s: &[char], lo: usize, hi: usize) -> (r: (usize, usize))
    requires
        lo <= hi <= s@.len(),
    ensures
        lo <= r.0 <= r.1 <= hi,
        s@.subrange(r.0 as int, r.1 as int) == second_token(s@.subrange(lo as int, hi as int)),
{
    let a = skip_white_at(s, lo, hi, lo);
    let e = word_end_at(s, lo, hi, a);
    let b = skip_white_at(s, lo, hi, e);
    let c = word_end_at(s, lo, hi, b);
    assert(s@.subrange(lo as int, hi as int).subrange(b - lo, c - lo) =~= s@.subrange(b as int, c as int));
    (b, c)
}

/// The outcome class of the status token `s[a..b]`.
fn token_status_in(s: &[char], a: usize, b: usize) -> (r: Option<StatusCode>)
    requires
        a <= b <= s@.len(),
    ensures
        r == token_status(s@.subrange(a as int, b as int)),
{
    let ghost tok = s@.subrange(a as int, b as int);
    if a == b {
        return None;
    }
    let start: usize = if s[a] == '+' { a + 1 } else { a };
    let ghost ds = s@.subrange(start as int, b as int);
    assert(unsigned_digits(tok) =~= ds);
    if start == b {
        return None;
    }
    let mut value: u32 = 0;
    let mut k: usize = start;
    while k < b
        invariant
            a <= start <= k <= b <= s@.len(),
            ds == s@.subrange(start as int, b as int),
            tok == s@.subrange(a as int, b as int),
            ds == unsigned_digits(tok),
            forall|i: int| 0 <= i < k - start ==> is_digit(#[trigger] ds[i]),
            value as nat == if digits_value(s@.subrange(start as int, k as int)) <= 65535 {
                digits_value(s@.subrange(start as int, k as int))
            } else {
                65536
            },
        decreases b - k,
    {
        let c = s[k];
        if !('0' <= c && c <= '9') {
            assert(!is_digit(ds[k - start]));
            return None;
        }
        let d: u32 = (c as u32) - ('0' as u32);
        let ghost before = digits_value(s@.subrange(start as int, k as int));
        assert(s@.subrange(start as int, k + 1).drop_last() =~= s@.subrange(start as int, k as int));
        assert(digits_value(s@.subrange(start as int, k + 1)) == before * 10 + d);
        if value <= 65535 {
            value = value * 10 + d;
            if value > 65535 {
                value = 65536;
            }
        }
        k = k + 1;
    }
    assert(s@.subrange(start as int, k as int) =~= ds);
    if value <= 65535 {
        Some(StatusCode::from(Some(value as u16)))
    } else {
        Some(StatusCode::Unknown)
    }
}

/// The outcome class named by a status line, or `None` when its second word
/// is missing or not an unsigned decimal number.
pub fn parse_status(line: &str) -> (r: Option<StatusCode>)
    ensures
        r == token_status(second_token(line@)),
{
    let s = chars_of(line);
    let n = s.len();
    let (a, b) = second_token_range(s.as_slice(), 0, n);
    assert(s@.subrange(0, n as int) =~= s@);
    token_status_in(s.as_slice(), a, b)
}

/// Adds the header line `s[lo..hi]` to `h`.
fn add_line(h: &mut Headers, s: &[char], lo: usize, hi: usize)
    requires
        old(h).wf(),
        lo <= hi <= s@.len(),
    ensures
        final(h).wf(),
        final(h)@ == add_header(old(h)@, s@.subrange(lo as int, hi as int)),
{
    let ghost line = s@.subrange(lo as int, hi as int);
    let sep = vec![':'];
    assert(sep@ =~= colon());
    match find_in(s, lo, hi, sep.as_slice()) {
        Some(c) => {
            proof {
                lemma_find_from(line, colon(), 0);
            }
            let key = normalized(s, lo, c);
            let value = normalized(s, c + 1, hi);
            assert(line.take(c - lo) =~= s@.subrange(lo as int, c as int));
            assert(line.skip(c - lo + 1) =~= s@.subrange(c + 1, hi as int));
            h.insert(key, value);
        },
        None => {},
    }
}

/// The header mapping of the lines in `s[lo..hi]`.
fn parse_header(s: &[char], lo: usize, hi: usize) -> (r: Headers)
    requires
        lo <= hi <= s@.len(),
    ensures
        r.wf(),
        r@ == headers_from(Map::empty(), s@.subrange(lo as int, hi as int)),
{
    let mut h = Headers::new();
    let mut p: usize = lo;
    let eol = vec!['\r', '\n'];
    assert(eol@ =~= crlf());
    loop
        invariant
            lo <= p <= hi <= s@.len(),
            h.wf(),
            eol@ == crlf(),
            headers_from(Map::empty(), s@.subrange(lo as int, hi as int)) == headers_from(
                h@,
                s@.subrange(p as int, hi as int),
            ),
        decreases hi - p,
    {
        let ghost rest = s@.subrange(p as int, hi as int);
        match find_in(s, p, hi, eol.as_slice()) {
            Some(e) => {
                proof {
                    lemma_find_from(rest, crlf(), 0);
                }
                assert(rest.take(e - p) =~= s@.subrange(p as int, e as int));
                assert(rest.skip(e - p + 2) =~= s@.subrange(e + 2, hi as int));
                add_line(&mut h, s, p, e);
                p = e + 2;
            },
            None => {
                add_line(&mut h, s, p, hi);
                return h;
            },
        }
    }
}

/// Takes a response text apart, whatever its status.
pub fn parse_message(contents: &str) -> (r: Result<Response, RequestError>)
    ensures
        outcome_view(r) == parse_model(contents@),
        r matches Ok(resp) ==> resp.wf(),
{
    let s = chars_of(contents);
    let n = s.len();
    let ghost t = contents@;
    assert(s@.subrange(0, n as int) =~= t);
    let blank = vec!['\r', '\n', '\r', '\n'];
    assert(blank@ =~= blank_line());
    let eol = vec!['\r', '\n'];
    assert(eol@ =~= crlf());
    match find_in(s.as_slice(), 0, n, blank.as_slice()) {
        None => Err(RequestError::MalformedResponse(String::from_str("missing body delimiter"))),
        Some(d) => {
            proof {
                lemma_find_from(t, blank_line(), 0);
            }
            let ghost head = t.take(d as int);
            assert(s@.subrange(0, d as int) =~= head);
            let first = find_in(s.as_slice(), 0, d, eol.as_slice());
            let line_end = match first {
                Some(e) => e,
                None => d,
            };
            proof {
                lemma_find_from(head, crlf(), 0);
            }
            assert(s@.subrange(0, line_end as int) =~= status_line(head));
            let (a, b) = second_token_range(s.as_slice(), 0, line_end);
            match token_status_in(s.as_slice(), a, b) {
                None => Err(RequestError::MalformedResponse(String::from_str("missing status code"))),
                Some(status) => {
                    let header = match first {
                        Some(e) => {
                            assert(head.skip(e + 2) =~= s@.subrange(e + 2, d as int));
                            parse_header(s.as_slice(), e + 2, d)
                        },
                        None => Headers::new(),
                    };
                    let body = string_of(s.as_slice(), d + 4, n);
                    assert(t.skip(d + 4) =~= s@.subrange(d + 4, n as int));
                    Ok(Response { status, header, body })
                },
            }
        },
    }
}

/// Takes a response text apart; a status other than a successful one is
/// handed back as an error.
pub fn parse_response(contents: &str) -> (r: Result<Response, RequestError>)
    ensures
        outcome_view(r) == outcome_model(contents@),
        r matches Ok(resp) ==> resp.wf(),
{
    match parse_message(contents) {
        Ok(resp) => if resp.status == StatusCode::Successful {
            Ok(resp)
        } else {
            Err(RequestError::NonSuccessStatus(resp.status))
        },
        Err(e) => Err(e),
    }
}

} // verus!
