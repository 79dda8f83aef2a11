//! Parsing of the textual pieces of an HTTP request: the request line,
//! one header line, the keep-alive parameters and the cookie header. Each
//! parse function's exact behaviour is given by a functional specification
//! over the character sequence.

use vstd::prelude::*;
use vstd::string::{StrSliceExecFns, StringExecFns};

verus! {

broadcast use vstd::std_specs::vec::group_vec_axioms, vstd::seq::group_seq_axioms;

/// The first position at or after `i` that holds `c`, or the length when
/// none does.
pub open spec fn find_at(s: Seq<char>, i: int, c: char) -> int
    decreases s.len() - i,
{
    if 0 <= i && i < s.len() {
        if s[i] == c {
            i
        } else {
            find_at(s, i + 1, c)
        }
    } else {
        i
    }
}

/// `find_at` stays within bounds, finds only `c`, and skips no `c`.
pub broadcast proof fn lemma_find_at(s: Seq<char>, i: int, c: char)
    requires
        0 <= i <= s.len(),
    ensures
        i <= #[trigger] find_at(s, i, c) <= s.len(),
        find_at(s, i, c) < s.len() ==> s[find_at(s, i, c)] == c,
        forall|k: int| i <= k < find_at(s, i, c) ==> s[k] != c,
    decreases s.len() - i,
{
    if i < s.len() && s[i] != c {
        lemma_find_at(s, i + 1, c);
    }
}

/// Finds the first `c` at or after `i`, exactly as `find_at` says.
fn p_find(s: &str, len: usize, i: usize, c: char) -> (r: usize)
    requires
        len == s@.len(),
        i <= len,
    ensures
        r == find_at(s@, i as int, c),
        i <= r <= len,
{
    let mut cur = i;
    while cur < len && s.get_char(cur) != c
        invariant
            len == s@.len(),
            i <= cur <= len,
            find_at(s@, i as int, c) == find_at(s@, cur as int, c),
        decreases len - cur,
    {
        cur += 1;
    }
    cur
}

/// The method of an HTTP request. A name that is none of the well-known
/// ones is carried through as it stands.
#[derive(Debug, PartialEq, Eq, Clone)]
pub enum RequestMethod<'a> {
    Options,
    Get,
    Head,
    Post,
    Put,
    Delete,
    Trace,
    Connect,
    Other(&'a str),
}

/// The protocol version named in a request line; an unknown version is
/// kept as `HttpInvalid`.
#[derive(Debug, PartialEq, Eq, Clone)]
pub enum HttpVersion {
    Http11,
    Http10,
    Http02,
    Http09,
    HttpInvalid,
}

/// The method token a request line carries, as a model value.
pub open spec fn spec_method(tok: Seq<char>, other: Seq<char>) -> RequestMethod<'static> {
    if tok == seq!['P', 'O', 'S', 'T'] {
        RequestMethod::Post
    } else if tok == seq!['G', 'E', 'T'] {
        RequestMethod::Get
    } else if tok == seq!['D', 'E', 'L', 'E', 'T', 'E'] {
        RequestMethod::Delete
    } else if tok == seq!['P', 'U', 'T'] {
        RequestMethod::Put
    } else if tok == seq!['O', 'P', 'T', 'I', 'O', 'N', 'S'] {
        RequestMethod::Options
    } else if tok == seq!['H', 'E', 'A', 'D'] {
        RequestMethod::Head
    } else if tok == seq!['T', 'R', 'A', 'C', 'E'] {
        RequestMethod::Trace
    } else if tok == seq!['C', 'O', 'N', 'N', 'E', 'C', 'T'] {
        RequestMethod::Connect
    } else {
        RequestMethod::Other("")
    }
}

/// Whether an exec method value matches the token.
pub open spec fn method_matches(m: RequestMethod<'_>, tok: Seq<char>) -> bool {
    match m {
        RequestMethod::Other(s) => s@ == tok && spec_method(tok, tok) == RequestMethod::<
            'static,
        >::Other(""),
        _ => spec_method(tok, tok) == m,
    }
}

/// The version a request line's version token names: the five leading
/// characters (`HTTP/` in a well-formed request) are passed over and the
/// rest picks the version.
pub open spec fn spec_version(ver: Seq<char>) -> HttpVersion {
    if ver == seq!['1', '.', '1'] {
        HttpVersion::Http11
    } else if ver == seq!['1', '.', '0'] {
        HttpVersion::Http10
    } else if ver == seq!['2', '.', '0'] {
        HttpVersion::Http02
    } else if ver == seq!['0', '.', '9'] {
        HttpVersion::Http09
    } else {
        HttpVersion::HttpInvalid
    }
}

/// The first line of an HTTP request: method, path and version, separated
/// by single spaces.
#[derive(Debug, PartialEq, Eq, Clone)]
pub struct RequestLine<'a> {
    pub method: RequestMethod<'a>,
    pub path: &'a str,
    pub version: HttpVersion,
}

/// A request line is well formed: it has at least three space-separated
/// tokens, and the version token carries at least five characters.
pub open spec fn rl_ok(s: Seq<char>) -> bool {
    let p1 = find_at(s, 0, ' ');
    let p2 = find_at(s, p1 + 1, ' ');
    let p3 = find_at(s, p2 + 1, ' ');
    p1 < s.len() && p2 < s.len() && p3 - (p2 + 1) >= 5
}

/// The parsed request line carries exactly the three tokens of the text.
pub open spec fn rl_matches(rl: RequestLine<'_>, s: Seq<char>) -> bool {
    let p1 = find_at(s, 0, ' ');
    let p2 = find_at(s, p1 + 1, ' ');
    let p3 = find_at(s, p2 + 1, ' ');
    method_matches(rl.method, s.subrange(0, p1)) && rl.path@ == s.subrange(p1 + 1, p2)
        && rl.version == spec_version(s.subrange(p2 + 6, p3))
}

impl<'a> RequestLine<'a> {
    /// Splits a request line at its first two spaces into method, path and
    /// version token. The parse fails when fewer than three tokens are
    /// present or the version token is shorter than the five characters
    /// that precede the version number. Anything after the third token is
    /// ignored.
    pub fn parse(request_line: &'a str) -> (r: Option<RequestLine<'a>>)
        ensures
            match r {
                Some(rl) => rl_ok(request_line@) && rl_matches(rl, request_line@),
                None => !rl_ok(request_line@),
            },
    {
        broadcast use lemma_find_at;

        let len = request_line.unicode_len();
        let p1 = p_find(request_line, len, 0, ' ');
        if p1 >= len {
            return None;
        }
        let p2 = p_find(request_line, len, p1 + 1, ' ');
        if p2 >= len {
            return None;
        }
        let p3 = p_find(request_line, len, p2 + 1, ' ');
        if p3 - (p2 + 1) < 5 {
            return None;
        }
        let method_tok = request_line.substring_char(0, p1);
        let path = request_line.substring_char(p1 + 1, p2);
        let ver = request_line.substring_char(p2 + 6, p3);
        let version = if crate::strutil::str_eq(ver, "1.1") {
            HttpVersion::Http11
        } else if crate::strutil::str_eq(ver, "1.0") {
            HttpVersion::Http10
        } else if crate::strutil::str_eq(ver, "2.0") {
            HttpVersion::Http02
        } else if crate::strutil::str_eq(ver, "0.9") {
            HttpVersion::Http09
        } else {
            HttpVersion::HttpInvalid
        };
        let method = if crate::strutil::str_eq(method_tok, "POST") {
            RequestMethod::Post
        } else if crate::strutil::str_eq(method_tok, "GET") {
            RequestMethod::Get
        } else if crate::strutil::str_eq(method_tok, "DELETE") {
            RequestMethod::Delete
        } else if crate::strutil::str_eq(method_tok, "PUT") {
            RequestMethod::Put
        } else if crate::strutil::str_eq(method_tok, "OPTIONS") {
            RequestMethod::Options
        } else if crate::strutil::str_eq(method_tok, "HEAD") {
            RequestMethod::Head
        } else if crate::strutil::str_eq(method_tok, "TRACE") {
            RequestMethod::Trace
        } else if crate::strutil::str_eq(method_tok, "CONNECT") {
            RequestMethod::Connect
        } else {
            RequestMethod::Other(method_tok)
        };
        proof {
            reveal_strlit("1.1");
            reveal_strlit("1.0");
            reveal_strlit("2.0");
            reveal_strlit("0.9");
            reveal_strlit("POST");
            reveal_strlit("GET");
            reveal_strlit("DELETE");
            reveal_strlit("PUT");
            reveal_strlit("OPTIONS");
            reveal_strlit("HEAD");
            reveal_strlit("TRACE");
            reveal_strlit("CONNECT");
            reveal_strlit("");
            assert(("1.1")@ =~= seq!['1', '.', '1']);
            assert(("1.0")@ =~= seq!['1', '.', '0']);
            assert(("2.0")@ =~= seq!['2', '.', '0']);
            assert(("0.9")@ =~= seq!['0', '.', '9']);
            assert(("POST")@ =~= seq!['P', 'O', 'S', 'T']);
            assert(("GET")@ =~= seq!['G', 'E', 'T']);
            assert(("DELETE")@ =~= seq!['D', 'E', 'L', 'E', 'T', 'E']);
            assert(("PUT")@ =~= seq!['P', 'U', 'T']);
            assert(("OPTIONS")@ =~= seq!['O', 'P', 'T', 'I', 'O', 'N', 'S']);
            assert(("HEAD")@ =~= seq!['H', 'E', 'A', 'D']);
            assert(("TRACE")@ =~= seq!['T', 'R', 'A', 'C', 'E']);
            assert(("CONNECT")@ =~= seq!['C', 'O', 'N', 'N', 'E', 'C', 'T']);
        }
        Some(RequestLine { method, path, version })
    }
}

/// One HTTP header line, split at its first colon; the value loses its
/// leading spaces and horizontal tabs.
#[derive(Debug, PartialEq, Eq, Clone)]
pub struct Header<'a> {
    pub name: &'a str,
    pub value: &'a str,
}

/// The first position at or after `i` without a space or horizontal tab.
pub open spec fn skip_sp_ht(s: Seq<char>, i: int) -> int
    decreases s.len() - i,
{
    if 0 <= i && i < s.len() && (s[i] == ' ' || s[i] == '\t') {
        skip_sp_ht(s, i + 1)
    } else {
        i
    }
}

/// `skip_sp_ht` stays within bounds.
pub broadcast proof fn lemma_skip_sp_ht(s: Seq<char>, i: int)
    requires
        0 <= i <= s.len(),
    ensures
        i <= #[trigger] skip_sp_ht(s, i) <= s.len(),
    decreases s.len() - i,
{
    if i < s.len() && (s[i] == ' ' || s[i] == '\t') {
        lemma_skip_sp_ht(s, i + 1);
    }
}

/// The name and value a header line carries: the text before its first
/// colon (which must be nonempty) and the text after it, without leading
/// spaces and horizontal tabs.
pub open spec fn header_kv(s: Seq<char>) -> Option<(Seq<char>, Seq<char>)> {
    let p = find_at(s, 0, ':');
    if 0 < p < s.len() {
        Some((s.subrange(0, p), s.subrange(skip_sp_ht(s, p + 1), s.len() as int)))
    } else {
        None
    }
}

impl<'a> Header<'a> {
    /// Splits a header line at its first colon. The parse fails when no
    /// colon is present or the name before it is empty.
    pub fn parse(header: &'a str) -> (r: Option<Header<'a>>)
        ensures
            match r {
                Some(h) => header_kv(header@) == Some((h.name@, h.value@)),
                None => header_kv(header@) is None,
            },
    {
        broadcast use lemma_find_at, lemma_skip_sp_ht;

        let len = header.unicode_len();
        let p = p_find(header, len, 0, ':');
        if p == 0 || p >= len {
            return None;
        }
        let name = header.substring_char(0, p);
        let mut v = p + 1;
        while v < len && (header.get_char(v) == ' ' || header.get_char(v) == '\t')
            invariant
                len == header@.len(),
                p + 1 <= v <= len,
                skip_sp_ht(header@, p + 1 as int) == skip_sp_ht(header@, v as int),
            decreases len - v,
        {
            v += 1;
        }
        let value = header.substring_char(v, len);
        Some(Header { name, value })
    }
}

/// The keep-alive parameters a `Keep-Alive` header carries.
#[derive(Debug, PartialEq, Eq, Clone)]
pub struct KeepAlive {
    pub timeout: Option<u64>,
    pub max: Option<u64>,
}

/// Whitespace as the trimming of header segments sees it.
pub open spec fn is_hws(c: char) -> bool {
    c == ' ' || c == '\t' || c == '\n' || c == '\r'
}

/// The left trim bound of the segment `[i, p)`.
pub open spec fn trim_left(s: Seq<char>, i: int, p: int) -> int
    decreases p - i,
{
    if i < p && 0 <= i && i < s.len() && is_hws(s[i]) {
        trim_left(s, i + 1, p)
    } else {
        i
    }
}

/// The right trim bound of the segment `[i, p)`.
pub open spec fn trim_right(s: Seq<char>, i: int, p: int) -> int
    decreases p - i,
{
    if i < p && 0 <= p - 1 && p - 1 < s.len() && is_hws(s[p - 1]) {
        trim_right(s, i, p - 1)
    } else {
        p
    }
}

/// Bounds of the trim bounds.
pub broadcast proof fn lemma_trim(s: Seq<char>, i: int, p: int)
    requires
        0 <= i <= p <= s.len(),
    ensures
        i <= #[trigger] trim_left(s, i, p) <= p,
        i <= #[trigger] trim_right(s, i, p) <= p,
    decreases p - i,
{
    if i < p && is_hws(s[i]) {
        lemma_trim(s, i + 1, p);
    }
    if i < p && is_hws(s[p - 1]) {
        lemma_trim(s, i, p - 1);
    }
}

/// The unsigned value a segment of text denotes: an optional `+`, then
/// one or more decimal digits, together denoting a value below two to the
/// sixty-fourth.
pub open spec fn pu_begin(s: Seq<char>, from: int, to: int) -> int {
    if from < to && 0 <= from && from < s.len() && s[from] == '+' {
        from + 1
    } else {
        from
    }
}

pub open spec fn spec_parse_u64(s: Seq<char>, from: int, to: int) -> Option<u64> {
    let b = pu_begin(s, from, to);
    if b < to && to <= s.len() && (forall|k: int|
        b <= k < to ==> crate::parse::is_digit(#[trigger] s[k])) && crate::parse::digits_val(
        s.subrange(b, to),
    ) <= u64::MAX {
        Some(crate::parse::digits_val(s.subrange(b, to)) as u64)
    } else {
        None
    }
}

/// Parses an unsigned decimal value in `[from, to)`, exactly as
/// `spec_parse_u64` says.
fn p_parse_u64(s: &str, len: usize, from: usize, to: usize) -> (r: Option<u64>)
    requires
        len == s@.len(),
        from <= to <= len,
    ensures
        r == spec_parse_u64(s@, from as int, to as int),
{
    let b = if from < to && s.get_char(from) == '+' {
        from + 1
    } else {
        from
    };
    if b >= to {
        return None;
    }
    let mut acc: u64 = 0;
    let mut k = b;
    while k < to
        invariant
            len == s@.len(),
            b == pu_begin(s@, from as int, to as int),
            from <= b <= k <= to <= len,
            forall|m: int| b <= m < k ==> crate::parse::is_digit(#[trigger] s@[m]),
            acc == crate::parse::digits_val(s@.subrange(b as int, k as int)),
            acc <= u64::MAX,
        decreases to - k,
    {
        let c = s.get_char(k);
        if !('0' <= c && c <= '9') {
            proof {
                assert(!crate::parse::is_digit(s@[k as int]));
            }
            return None;
        }
        let d: u64 = (c as u32 - '0' as u32) as u64;
        proof {
            crate::parse::lemma_digits_val_step(s@, b as int, k as int);
        }
        let ghost new_val = crate::parse::digits_val(s@.subrange(b as int, k + 1 as int));
        if acc > (0xFFFF_FFFF_FFFF_FFFFu64 - d) / 10 {
            proof {
                let mx: int = 0xFFFF_FFFF_FFFF_FFFF;
                assert(acc * 10 + d > mx) by (nonlinear_arith)
                    requires
                        acc > (mx - d) / 10,
                        0 <= d <= 9,
                        mx == 0xFFFF_FFFF_FFFF_FFFF,
                        acc >= 0,
                ;
                lemma_digits_val_nonneg_all(s@, b as int, k + 1 as int);
                lemma_digits_val_grows(s@, b as int, k + 1 as int, to as int);
            }
            return None;
        }
        proof {
            let mx: int = 0xFFFF_FFFF_FFFF_FFFF;
            assert(acc * 10 + d <= mx) by (nonlinear_arith)
                requires
                    acc <= (mx - d) / 10,
                    0 <= d <= 9,
                    mx == 0xFFFF_FFFF_FFFF_FFFF,
                    acc >= 0,
            ;
        }
        acc = acc * 10 + d;
        k += 1;
    }
    Some(acc)
}

/// A run of digits denotes a nonnegative value.
proof fn lemma_digits_val_nonneg_all(s: Seq<char>, b: int, k: int)
    requires
        0 <= b <= k <= s.len(),
        forall|m: int| b <= m < k ==> crate::parse::is_digit(#[trigger] s[m]),
    ensures
        crate::parse::digits_val(s.subrange(b, k)) >= 0,
    decreases k - b,
{
    if k > b {
        lemma_digits_val_nonneg_all(s, b, k - 1);
        crate::parse::lemma_digits_val_step(s, b, k - 1);
    }
}

/// A longer run of digits denotes no smaller a value.
proof fn lemma_digits_val_grows(s: Seq<char>, b: int, k: int, to: int)
    requires
        0 <= b <= k <= to <= s.len(),
        forall|m: int| b <= m < k ==> crate::parse::is_digit(#[trigger] s[m]),
    ensures
        crate::parse::digits_val(s.subrange(b, k)) <= crate::parse::digits_val(s.subrange(b, to))
            || (exists|m: int|
            k <= m < to && !crate::parse::is_digit(#[trigger] s[m])),
    decreases to - k,
{
    if k < to {
        if crate::parse::is_digit(s[k]) {
            lemma_digits_val_nonneg_all(s, b, k);
            crate::parse::lemma_digits_val_step(s, b, k);
            assert(crate::parse::digits_val(s.subrange(b, k + 1)) == crate::parse::digits_val(
                s.subrange(b, k),
            ) * 10 + (s[k] as u32 - '0' as u32));
            assert(crate::parse::digits_val(s.subrange(b, k)) * 10 >= crate::parse::digits_val(
                s.subrange(b, k),
            )) by (nonlinear_arith)
                requires
                    crate::parse::digits_val(s.subrange(b, k)) >= 0,
            ;
            lemma_digits_val_grows(s, b, k + 1, to);
        }
    }
}

/// One `name=value` segment of a keep-alive header: the update it makes to
/// the two parameters.
pub open spec fn ka_segment(s: Seq<char>, i: int, p: int, t: Option<u64>, m: Option<u64>) -> (
    Option<u64>,
    Option<u64>,
) {
    let lt = trim_left(s, i, p);
    let rt = trim_right(s, lt, p);
    let e = find_at(s, lt, '=');
    if !(lt <= e && e < rt) {
        (t, m)
    } else {
        match spec_parse_u64(s, e + 1, rt) {
            None => (t, m),
            Some(val) => {
                if s.subrange(lt, e) == seq!['t', 'i', 'm', 'e', 'o', 'u', 't'] {
                    (Some(val), m)
                } else if s.subrange(lt, e) == seq!['m', 'a', 'x'] {
                    (t, Some(val))
                } else {
                    (t, m)
                }
            },
        }
    }
}

/// The two keep-alive parameters after every comma-separated segment from
/// `i` on has been folded in; a later segment overrides an earlier one.
pub open spec fn ka_fold(s: Seq<char>, i: int, t: Option<u64>, m: Option<u64>) -> (
    Option<u64>,
    Option<u64>,
)
    decreases s.len() - i,
{
    if !(0 <= i && i <= s.len()) {
        (t, m)
    } else {
        let p = find_at(s, i, ',');
        let next = ka_segment(s, i, p, t, m);
        if i <= p && p < s.len() {
            ka_fold(s, p + 1, next.0, next.1)
        } else {
            next
        }
    }
}

impl KeepAlive {
    /// Reads the `timeout` and `max` parameters out of a keep-alive
    /// header: comma-separated `name=value` segments, each trimmed of
    /// surrounding whitespace; a segment without `=`, with an unknown
    /// name, or whose value is no unsigned decimal is passed over; a later
    /// segment overrides an earlier one. Parsing never fails.
    pub fn parse(header: &str) -> (r: KeepAlive)
        ensures
            (r.timeout, r.max) == ka_fold(header@, 0, None::<u64>, None::<u64>),
    {
        let len = header.unicode_len();
        let (timeout, max) = ka_run(header, len, 0, None, None);
        KeepAlive { timeout, max }
    }
}

/// Whether the character at `k` (known in bounds) is trimmed whitespace.
fn p_is_hws(s: &str, len: usize, k: usize) -> (r: bool)
    requires
        len == s@.len(),
        k < len,
    ensures
        r == is_hws(s@[k as int]),
{
    let c = s.get_char(k);
    c == ' ' || c == '\t' || c == '\n' || c == '\r'
}

/// Folds the segments from `i` on, exactly as `ka_fold` says.
fn ka_run(s: &str, len: usize, i: usize, t: Option<u64>, m: Option<u64>) -> (r: (
    Option<u64>,
    Option<u64>,
))
    requires
        len == s@.len(),
        i <= len,
    ensures
        r == ka_fold(s@, i as int, t, m),
    decreases len - i,
{
    broadcast use lemma_find_at, lemma_trim;

    let p = p_find(s, len, i, ',');
    // the segment [i, p)
    let mut lt = i;
    while lt < p && p_is_hws(s, len, lt)
        invariant
            len == s@.len(),
            i <= lt <= p <= len,
            trim_left(s@, i as int, p as int) == trim_left(s@, lt as int, p as int),
        decreases p - lt,
    {
        lt += 1;
    }
    let mut rt = p;
    while rt > lt && p_is_hws(s, len, rt - 1)
        invariant
            len == s@.len(),
            lt <= rt <= p <= len,
            lt == trim_left(s@, i as int, p as int),
            trim_right(s@, lt as int, p as int) == trim_right(s@, lt as int, rt as int),
        decreases rt,
    {
        rt -= 1;
    }
    let e = p_find(s, len, lt, '=');
    let (t2, m2) = if lt <= e && e < rt {
        match p_parse_u64(s, len, e + 1, rt) {
            None => (t, m),
            Some(val) => {
                let name = s.substring_char(lt, e);
                proof {
                    reveal_strlit("timeout");
                    reveal_strlit("max");
                    assert(("timeout")@ =~= seq!['t', 'i', 'm', 'e', 'o', 'u', 't']);
                    assert(("max")@ =~= seq!['m', 'a', 'x']);
                }
                if crate::strutil::str_eq(name, "timeout") {
                    (Some(val), m)
                } else if crate::strutil::str_eq(name, "max") {
                    (t, Some(val))
                } else {
                    (t, m)
                }
            },
        }
    } else {
        (t, m)
    };
    if p < len {
        ka_run(s, len, p + 1, t2, m2)
    } else {
        (t2, m2)
    }
}

/// The model of a vector of owned string pairs.
pub open spec fn smap_view(s: Seq<(String, String)>) -> Seq<(Seq<char>, Seq<char>)>
    decreases s.len(),
{
    if s.len() <= 0 {
        Seq::empty()
    } else {
        smap_view(s.drop_last()).push((s.last().0@, s.last().1@))
    }
}

/// `smap_view` maps the pairs one for one.
pub broadcast proof fn lemma_smap_view(s: Seq<(String, String)>)
    ensures
        #[trigger] smap_view(s).len() == s.len(),
        forall|i: int| 0 <= i < s.len() ==> smap_view(s)[i] == (s[i].0@, s[i].1@),
    decreases s.len(),
{
    if s.len() > 0 {
        lemma_smap_view(s.drop_last());
    }
}

/// Inserting into a string map: a duplicate key overwrites the first
/// occurrence in place; a new key is appended.
pub open spec fn smap_insert(
    fs: Seq<(Seq<char>, Seq<char>)>,
    k: Seq<char>,
    v: Seq<char>,
) -> Seq<(Seq<char>, Seq<char>)>
    decreases fs.len(),
{
    if fs.len() == 0 {
        seq![(k, v)]
    } else if fs[0].0 == k {
        seq![(k, v)].add(fs.drop_first())
    } else {
        seq![fs[0]].add(smap_insert(fs.drop_first(), k, v))
    }
}

/// `smap_insert` with the key at `idx`, no earlier occurrence: the entry
/// is overwritten in place.
proof fn lemma_smap_insert_found(
    fs: Seq<(Seq<char>, Seq<char>)>,
    k: Seq<char>,
    v: Seq<char>,
    idx: int,
)
    requires
        0 <= idx < fs.len(),
        fs[idx].0 == k,
        forall|m: int| 0 <= m < idx ==> fs[m].0 != k,
    ensures
        smap_insert(fs, k, v) == fs.update(idx, (k, v)),
    decreases idx,
{
    if idx == 0 {
        assert(seq![(k, v)].add(fs.drop_first()) =~= fs.update(0, (k, v)));
    } else {
        lemma_smap_insert_found(fs.drop_first(), k, v, idx - 1);
        assert(seq![fs[0]].add(fs.drop_first().update(idx - 1, (k, v))) =~= fs.update(
            idx,
            (k, v),
        ));
    }
}

/// `smap_insert` without the key: the pair is appended.
proof fn lemma_smap_insert_absent(fs: Seq<(Seq<char>, Seq<char>)>, k: Seq<char>, v: Seq<char>)
    requires
        forall|m: int| 0 <= m < fs.len() ==> fs[m].0 != k,
    ensures
        smap_insert(fs, k, v) == fs.push((k, v)),
    decreases fs.len(),
{
    if fs.len() == 0 {
        assert(seq![(k, v)] =~= fs.push((k, v)));
    } else {
        lemma_smap_insert_absent(fs.drop_first(), k, v);
        assert(seq![fs[0]].add(fs.drop_first().push((k, v))) =~= fs.push((k, v)));
    }
}

/// Inserts a pair into the map being built, as `smap_insert` says.
fn p_smap_insert(map: &mut Vec<(String, String)>, key: String, val: String)
    ensures
        smap_view(final(map)@) == smap_insert(smap_view(old(map)@), key@, val@),
{
    let ghost kview: Seq<char> = key@;
    let ghost vview: Seq<char> = val@;
    let mut idx: usize = 0;
    let n = map.len();
    while idx < n
        invariant
            n == map@.len(),
            map@ == old(map)@,
            kview == key@,
            vview == val@,
            idx <= n,
            forall|m: int| 0 <= m < idx ==> map@[m].0@ != key@,
        decreases n - idx,
    {
        if crate::strutil::str_eq(map[idx].0.as_str(), key.as_str()) {
            let ghost old_map = map@;
            map.remove(idx);
            map.insert(idx, (key, val));
            proof {
                lemma_smap_view(old_map);
                lemma_smap_view(map@);
                assert(map@ =~= old_map.update(idx as int, (
                    map@[idx as int].0,
                    map@[idx as int].1,
                )));
                lemma_smap_insert_found(smap_view(old_map), kview, vview, idx as int);
                assert(smap_view(map@) =~= smap_view(old_map).update(idx as int, (
                    kview,
                    vview,
                )));
            }
            return ;
        }
        idx += 1;
    }
    let ghost old_map = map@;
    map.push((key, val));
    proof {
        lemma_smap_view(old_map);
        lemma_smap_view(map@);
        lemma_smap_insert_absent(smap_view(old_map), kview, vview);
        assert(smap_view(map@) =~= smap_view(old_map).push((kview, vview)));
    }
}

/// The cookies of a `Cookie` header, each name paired with its value.
/// Insertion order is kept; a repeated name overwrites in place.
#[derive(Debug, Clone, PartialEq, Eq)]
pub struct Cookies {
    pub cookies: Vec<(String, String)>,
}

/// The two-character separator `"; "` stands at `i`.
pub open spec fn has_sep(s: Seq<char>, i: int) -> bool {
    0 <= i && i + 1 < s.len() && s[i] == ';' && s[i + 1] == ' '
}

/// The first position at or after `i` where `"; "` stands, or the length.
pub open spec fn find_sep(s: Seq<char>, i: int) -> int
    decreases s.len() - i,
{
    if 0 <= i && i < s.len() {
        if has_sep(s, i) {
            i
        } else {
            find_sep(s, i + 1)
        }
    } else {
        i
    }
}

/// `find_sep` stays within bounds.
pub broadcast proof fn lemma_find_sep(s: Seq<char>, i: int)
    requires
        0 <= i <= s.len(),
    ensures
        i <= #[trigger] find_sep(s, i) <= s.len(),
        find_sep(s, i) < s.len() ==> has_sep(s, find_sep(s, i)),
    decreases s.len() - i,
{
    if i < s.len() && !has_sep(s, i) {
        lemma_find_sep(s, i + 1);
    }
}

/// The cookie pairs after every `"; "`-separated token from `i` on has
/// been folded in: a token without `=` is passed over, the rest is split
/// at the first `=`.
pub open spec fn cookie_fold(
    s: Seq<char>,
    i: int,
    acc: Seq<(Seq<char>, Seq<char>)>,
) -> Seq<(Seq<char>, Seq<char>)>
    decreases s.len() - i,
{
    if !(0 <= i && i <= s.len()) {
        acc
    } else {
        let p = find_sep(s, i);
        let e = find_at(s, i, '=');
        let acc2 = if i <= e && e < p {
            smap_insert(acc, s.subrange(i, e), s.subrange(e + 1, p))
        } else {
            acc
        };
        if i <= p && p < s.len() && p + 2 <= s.len() {
            cookie_fold(s, p + 2, acc2)
        } else {
            acc2
        }
    }
}

impl Cookies {
    /// Splits a `Cookie` header at each `"; "` and each token at its first
    /// `=`; a token without `=` is passed over. Parsing never fails.
    pub fn parse(header: &str) -> (r: Cookies)
        ensures
            smap_view(r.cookies@) == cookie_fold(header@, 0, Seq::empty()),
    {
        broadcast use lemma_find_sep, lemma_find_at;

        let len = header.unicode_len();
        let mut map: Vec<(String, String)> = Vec::new();
        let mut i: usize = 0;
        proof {
            assert(smap_view(map@) =~= Seq::<(Seq<char>, Seq<char>)>::empty());
        }
        loop
            invariant
                len == header@.len(),
                i <= len,
                cookie_fold(header@, 0, Seq::empty()) == cookie_fold(
                    header@,
                    i as int,
                    smap_view(map@),
                ),
            decreases len - i,
        {
            let p = p_find_sep(header, len, i);
            let e = p_find(header, len, i, '=');
            if e < p {
                let key = string_of_range(header, i, e);
                let val = string_of_range(header, e + 1, p);
                p_smap_insert(&mut map, key, val);
            }
            if p < len {
                proof {
                    lemma_find_sep(header@, i as int);
                    assert(has_sep(header@, p as int));
                }
                i = p + 2;
            } else {
                return Cookies { cookies: map };
            }
        }
    }

    /// The value stored under `name`, if any.
    pub fn get(&self, name: &str) -> (r: Option<&String>)
        ensures
            match r {
                Some(v) => exists|i: int|
                    0 <= i < self.cookies@.len() && #[trigger] self.cookies@[i].0@ == name@
                        && self.cookies@[i].1@ == v@,
                None => forall|i: int|
                    0 <= i < self.cookies@.len() ==> #[trigger] self.cookies@[i].0@ != name@,
            },
    {
        let n = self.cookies.len();
        let mut idx: usize = 0;
        while idx < n
            invariant
                n == self.cookies@.len(),
                idx <= n,
                forall|m: int| 0 <= m < idx ==> #[trigger] self.cookies@[m].0@ != name@,
            decreases n - idx,
        {
            if crate::strutil::str_eq(self.cookies[idx].0.as_str(), name) {
                return Some(&self.cookies[idx].1);
            }
            idx += 1;
        }
        None
    }
}

impl Default for Cookies {
    /// An empty cookie set.
    fn default() -> (r: Self)
        ensures
            r.cookies@.len() == 0,
    {
        Cookies { cookies: Vec::new() }
    }
}

/// Finds the first `"; "` at or after `i`, exactly as `find_sep` says.
fn p_find_sep(s: &str, len: usize, i: usize) -> (r: usize)
    requires
        len == s@.len(),
        i <= len,
    ensures
        r == find_sep(s@, i as int),
        i <= r <= len,
{
    let mut cur = i;
    while cur < len && !p_has_sep(s, len, cur)
        invariant
            len == s@.len(),
            i <= cur <= len,
            find_sep(s@, i as int) == find_sep(s@, cur as int),
        decreases len - cur,
    {
        cur += 1;
    }
    cur
}

/// Whether `"; "` stands at `k`.
fn p_has_sep(s: &str, len: usize, k: usize) -> (r: bool)
    requires
        len == s@.len(),
        k < len,
    ensures
        r == has_sep(s@, k as int),
{
    s.get_char(k) == ';' && k + 1 < len && s.get_char(k + 1) == ' '
}

/// The owned text of the characters in `[from, to)`.
fn string_of_range(s: &str, from: usize, to: usize) -> (r: String)
    requires
        from <= to <= s@.len(),
    ensures
        r@ == s@.subrange(from as int, to as int),
{
    let sub = s.substring_char(from, to);
    String::from_str(sub)
}

/// A carriage-return line-feed pair stands at `i` in the raw bytes.
pub open spec fn has_crlf(b: Seq<u8>, i: int) -> bool {
    0 <= i && i + 1 < b.len() && b[i] == 13 && b[i + 1] == 10
}

/// The first position at or after `i` where a line ends, or the length.
pub open spec fn find_crlf(b: Seq<u8>, i: int) -> int
    decreases b.len() - i,
{
    if 0 <= i && i < b.len() {
        if has_crlf(b, i) {
            i
        } else {
            find_crlf(b, i + 1)
        }
    } else {
        i
    }
}

/// `find_crlf` stays within bounds and stops at a line end.
pub broadcast proof fn lemma_find_crlf(b: Seq<u8>, i: int)
    requires
        0 <= i <= b.len(),
    ensures
        i <= #[trigger] find_crlf(b, i) <= b.len(),
        find_crlf(b, i) < b.len() ==> has_crlf(b, find_crlf(b, i)),
    decreases b.len() - i,
{
    if i < b.len() && !has_crlf(b, i) {
        lemma_find_crlf(b, i + 1);
    }
}

/// The start of the first nonempty line: leading empty lines are skipped.
pub open spec fn skip_empty_lines(b: Seq<u8>, i: int) -> int
    decreases b.len() - i,
{
    if has_crlf(b, i) && find_crlf(b, i) == i {
        skip_empty_lines(b, i + 2)
    } else {
        i
    }
}

/// Whether a line ends at `k`.
fn p_has_crlf(b: &[u8], blen: usize, k: usize) -> (r: bool)
    requires
        blen == b@.len(),
        k <= blen,
    ensures
        r == has_crlf(b@, k as int),
{
    k < blen && blen - k > 1 && b[k] == 13 && b[k + 1] == 10
}

/// Finds the first line end at or after `i`, exactly as `find_crlf` says.
fn p_find_crlf(b: &[u8], blen: usize, i: usize) -> (r: usize)
    requires
        blen == b@.len(),
        i <= blen,
    ensures
        r == find_crlf(b@, i as int),
        i <= r <= blen,
{
    let mut cur = i;
    while cur < blen && !p_has_crlf(b, blen, cur)
        invariant
            blen == b@.len(),
            i <= cur <= blen,
            find_crlf(b@, i as int) == find_crlf(b@, cur as int),
        decreases blen - cur,
    {
        cur += 1;
    }
    cur
}

/// Relies on `core::str::from_utf8`: succeeds exactly on well-formed
/// UTF-8 and reads off its scalar values, as `vstd`'s UTF-8 model defines
/// them.
#[verifier::external_body]
fn utf8_str(b: &[u8]) -> (r: Option<&str>)
    ensures
        r is Some <==> vstd::utf8::valid_utf8(b@),
        r matches Some(s) ==> s@ == vstd::utf8::decode_utf8(b@),
{
    core::str::from_utf8(b).ok()
}

/// The lower-case form of an upper-case ASCII letter; anything else is
/// untouched.
pub open spec fn lower_char(c: char) -> char {
    if 'A' <= c && c <= 'Z' {
        (((c as u32) + 32) as u8) as char
    } else {
        c
    }
}

/// ASCII lower-casing of a whole text.
pub open spec fn lower_seq(cs: Seq<char>) -> Seq<char> {
    cs.map_values(|c: char| lower_char(c))
}

/// Lower-cases the ASCII letters of a text, exactly as `lower_seq` says.
fn lower_string(s: &str) -> (r: String)
    ensures
        r@ == lower_seq(s@),
{
    let len = s.unicode_len();
    let mut out = String::new();
    let mut k: usize = 0;
    proof {
        assert(out@ =~= lower_seq(s@.subrange(0, 0)));
    }
    while k < len
        invariant
            len == s@.len(),
            k <= len,
            out@ == lower_seq(s@.subrange(0, k as int)),
        decreases len - k,
    {
        let c = s.get_char(k);
        let lc: char = if 'A' <= c && c <= 'Z' {
            (((c as u32) + 32) as u8) as char
        } else {
            c
        };
        crate::strutil::push_char(&mut out, lc);
        proof {
            assert(out@ =~= lower_seq(s@.subrange(0, k + 1 as int))) by {
                assert(s@.subrange(0, k + 1 as int) =~= s@.subrange(0, k as int).push(c));
                assert(lower_seq(s@.subrange(0, k as int).push(c)) =~= lower_seq(
                    s@.subrange(0, k as int),
                ).push(lower_char(c)));
            }
        }
        k += 1;
    }
    proof {
        assert(s@.subrange(0, len as int) =~= s@);
    }
    out
}

/// Inserting into a header map: a repeated name extends the first
/// occurrence's value with a comma, a space, and the new value; a new name
/// is appended.
pub open spec fn hmap_combine(
    fs: Seq<(Seq<char>, Seq<char>)>,
    k: Seq<char>,
    v: Seq<char>,
) -> Seq<(Seq<char>, Seq<char>)>
    decreases fs.len(),
{
    if fs.len() == 0 {
        seq![(k, v)]
    } else if fs[0].0 == k {
        seq![(fs[0].0, fs[0].1 + seq![',', ' '] + v)].add(fs.drop_first())
    } else {
        seq![fs[0]].add(hmap_combine(fs.drop_first(), k, v))
    }
}

/// `hmap_combine` with the key at `idx`, no earlier occurrence.
proof fn lemma_hmap_combine_found(
    fs: Seq<(Seq<char>, Seq<char>)>,
    k: Seq<char>,
    v: Seq<char>,
    idx: int,
)
    requires
        0 <= idx < fs.len(),
        fs[idx].0 == k,
        forall|m: int| 0 <= m < idx ==> fs[m].0 != k,
    ensures
        hmap_combine(fs, k, v) == fs.update(idx, (fs[idx].0, fs[idx].1 + seq![',', ' '] + v)),
    decreases idx,
{
    if idx == 0 {
        assert(seq![(fs[0].0, fs[0].1 + seq![',', ' '] + v)].add(fs.drop_first()) =~= fs.update(
            0,
            (fs[0].0, fs[0].1 + seq![',', ' '] + v),
        ));
    } else {
        lemma_hmap_combine_found(fs.drop_first(), k, v, idx - 1);
        assert(fs.drop_first()[idx - 1] == fs[idx]);
        assert(seq![fs[0]].add(
            fs.drop_first().update(idx - 1, (fs[idx].0, fs[idx].1 + seq![',', ' '] + v)),
        ) =~= fs.update(idx, (fs[idx].0, fs[idx].1 + seq![',', ' '] + v)));
    }
}

/// `hmap_combine` without the key: the pair is appended.
proof fn lemma_hmap_combine_absent(fs: Seq<(Seq<char>, Seq<char>)>, k: Seq<char>, v: Seq<char>)
    requires
        forall|m: int| 0 <= m < fs.len() ==> fs[m].0 != k,
    ensures
        hmap_combine(fs, k, v) == fs.push((k, v)),
    decreases fs.len(),
{
    if fs.len() == 0 {
        assert(seq![(k, v)] =~= fs.push((k, v)));
    } else {
        lemma_hmap_combine_absent(fs.drop_first(), k, v);
        assert(seq![fs[0]].add(fs.drop_first().push((k, v))) =~= fs.push((k, v)));
    }
}

/// Inserts a header into the map being built, as `hmap_combine` says.
fn p_hmap_combine(map: &mut Vec<(String, String)>, key: String, val: &str)
    ensures
        smap_view(final(map)@) == hmap_combine(smap_view(old(map)@), key@, val@),
{
    let ghost kview: Seq<char> = key@;
    let mut idx: usize = 0;
    let n = map.len();
    while idx < n
        invariant
            n == map@.len(),
            map@ == old(map)@,
            kview == key@,
            idx <= n,
            forall|m: int| 0 <= m < idx ==> map@[m].0@ != key@,
        decreases n - idx,
    {
        if crate::strutil::str_eq(map[idx].0.as_str(), key.as_str()) {
            let ghost old_map = map@;
            let pair = map.remove(idx);
            let mut nv = pair.1;
            let ghost old_val: Seq<char> = nv@;
            nv.append(", ");
            nv.append(val);
            proof {
                reveal_strlit(", ");
                assert((", ")@ =~= seq![',', ' ']);
                assert(nv@ =~= old_val + seq![',', ' '] + val@);
            }
            map.insert(idx, (pair.0, nv));
            proof {
                lemma_smap_view(old_map);
                lemma_smap_view(map@);
                lemma_hmap_combine_found(smap_view(old_map), kview, val@, idx as int);
                assert(map@ =~= old_map.update(idx as int, (
                    map@[idx as int].0,
                    map@[idx as int].1,
                )));
                assert(smap_view(map@) =~= smap_view(old_map).update(idx as int, (
                    smap_view(old_map)[idx as int].0,
                    smap_view(old_map)[idx as int].1 + seq![',', ' '] + val@,
                )));
            }
            return ;
        }
        idx += 1;
    }
    let ghost old_map = map@;
    let owned = String::from_str(val);
    map.push((key, owned));
    proof {
        lemma_smap_view(old_map);
        lemma_smap_view(map@);
        lemma_hmap_combine_absent(smap_view(old_map), kview, val@);
        assert(smap_view(map@) =~= smap_view(old_map).push((kview, val@)));
    }
}

/// The header map and the start of the body, read line by line from `i`:
/// a well-formed header line folds its lower-cased name and its value into
/// the map; an empty line ends the headers and the body follows it; the
/// end of the input ends the headers with an empty body. A line that is no
/// well-formed header, or no UTF-8, fails the whole parse.
pub open spec fn req_headers(b: Seq<u8>, i: int, acc: Seq<(Seq<char>, Seq<char>)>) -> Option<
    (Seq<(Seq<char>, Seq<char>)>, int),
>
    decreases b.len() - i,
{
    if !(0 <= i && i <= b.len()) {
        None
    } else {
        let p = find_crlf(b, i);
        if p == i {
            Some(
                (
                    acc,
                    if has_crlf(b, i) {
                        i + 2
                    } else {
                        i
                    },
                ),
            )
        } else {
            let line = b.subrange(i, p);
            if !vstd::utf8::valid_utf8(line) {
                None
            } else {
                match header_kv(vstd::utf8::decode_utf8(line)) {
                    None => None,
                    Some((name, val)) => {
                        let acc2 = hmap_combine(acc, lower_seq(name), val);
                        if i <= p && p + 2 <= b.len() && has_crlf(b, p) {
                            req_headers(b, p + 2, acc2)
                        } else {
                            Some((acc2, b.len() as int))
                        }
                    },
                }
            }
        }
    }
}

/// What a whole request splits into: the characters of its request line,
/// its header map, and the position where its body starts; or nothing when
/// the request line is missing or malformed, or a header line is.
pub open spec fn req_split(b: Seq<u8>) -> Option<(Seq<char>, Seq<(Seq<char>, Seq<char>)>, int)> {
    let st = skip_empty_lines(b, 0);
    let p = find_crlf(b, st);
    if p == st {
        None
    } else {
        let line = b.subrange(st, p);
        if !vstd::utf8::valid_utf8(line) {
            None
        } else {
            let cs = vstd::utf8::decode_utf8(line);
            if !rl_ok(cs) {
                None
            } else {
                let hs = if has_crlf(b, p) {
                    p + 2
                } else {
                    b.len() as int
                };
                match req_headers(b, hs, Seq::empty()) {
                    None => None,
                    Some((hm, bs)) => Some((cs, hm, bs)),
                }
            }
        }
    }
}

/// A parsed HTTP request: its request line, its headers with lower-cased
/// names and repeated names joined by a comma and a space, and its raw
/// body.
#[derive(Debug, PartialEq, Eq, Clone)]
pub struct Request<'a> {
    pub request_line: RequestLine<'a>,
    pub headers: Vec<(String, String)>,
    pub body: &'a [u8],
}

impl<'a> Request<'a> {
    /// Splits a raw request at its line ends: leading empty lines are
    /// skipped, the first nonempty line is the request line, the lines up
    /// to the first empty one are headers, and the rest is the body,
    /// exactly as `req_split` says.
    pub fn parse(request: &'a [u8]) -> (r: Option<Request<'a>>)
        ensures
            match (r, req_split(request@)) {
                (Some(req), Some((cs, hm, bs))) => rl_matches(req.request_line, cs) && smap_view(
                    req.headers@,
                ) == hm && req.body@ == request@.subrange(bs, request@.len() as int),
                (None, None) => true,
                _ => false,
            },
    {
        broadcast use lemma_find_crlf;

        let blen = request.len();
        let mut st: usize = 0;
        while p_has_crlf(request, blen, st)
            invariant
                blen == request@.len(),
                st <= blen,
                skip_empty_lines(request@, 0) == skip_empty_lines(request@, st as int),
            decreases blen - st,
        {
            st += 2;
        }
        let p = p_find_crlf(request, blen, st);
        if p == st {
            return None;
        }
        let line_bytes = vstd::slice::slice_subrange(request, st, p);
        let line = match utf8_str(line_bytes) {
            Some(l) => l,
            None => {
                return None;
            },
        };
        let rl = match RequestLine::parse(line) {
            Some(rl) => rl,
            None => {
                return None;
            },
        };
        let ghost hs0: int = if has_crlf(request@, p as int) {
            p + 2
        } else {
            blen as int
        };
        let mut hpos: usize = if p_has_crlf(request, blen, p) {
            p + 2
        } else {
            blen
        };
        let mut headers: Vec<(String, String)> = Vec::new();
        proof {
            assert(smap_view(headers@) =~= Seq::<(Seq<char>, Seq<char>)>::empty());
        }
        loop
            invariant
                blen == request@.len(),
                hpos <= blen,
                rl_matches(rl, vstd::utf8::decode_utf8(
                    request@.subrange(
                        skip_empty_lines(request@, 0),
                        find_crlf(request@, skip_empty_lines(request@, 0)),
                    ),
                )),
                req_split(request@) == (match req_headers(
                    request@,
                    hpos as int,
                    smap_view(headers@),
                ) {
                    None => None::<(Seq<char>, Seq<(Seq<char>, Seq<char>)>, int)>,
                    Some((hm, bs)) => Some(
                        (
                            vstd::utf8::decode_utf8(
                                request@.subrange(
                                    skip_empty_lines(request@, 0),
                                    find_crlf(request@, skip_empty_lines(request@, 0)),
                                ),
                            ),
                            hm,
                            bs,
                        ),
                    ),
                }),
            decreases blen - hpos,
        {
            let p2 = p_find_crlf(request, blen, hpos);
            if p2 == hpos {
                let body_start: usize = if p_has_crlf(request, blen, hpos) {
                    hpos + 2
                } else {
                    hpos
                };
                let body = vstd::slice::slice_subrange(request, body_start, blen);
                return Some(Request { request_line: rl, headers, body });
            }
            let lb = vstd::slice::slice_subrange(request, hpos, p2);
            let hline = match utf8_str(lb) {
                Some(l) => l,
                None => {
                    return None;
                },
            };
            let h = match Header::parse(hline) {
                Some(h) => h,
                None => {
                    return None;
                },
            };
            let lname = lower_string(h.name);
            p_hmap_combine(&mut headers, lname, h.value);
            if p_has_crlf(request, blen, p2) {
                hpos = p2 + 2;
            } else {
                hpos = blen;
            }
        }
    }
}

} // verus!
