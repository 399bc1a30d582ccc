//! Hostname lookup against the instance metadata service.
//!
//! The tools that resolve a host's name talk to the metadata service over
//! a raw socket; connecting, sending and receiving are the surrounding
//! application's work, which hands the raw bytes here. Fixed here are the
//! endpoint choice, the reading of a raw HTTP response — its status code
//! and body — and the status test for the service's newer protocol.

use vstd::prelude::*;
use vstd::slice::{slice_subrange, slice_to_vec};

verus! {

/// The command-line interface shared by the hostname tools.
#[derive(Debug)]
pub struct Cli {
    /// The IP address of the host whose name is wanted.
    pub ip_address: String,
}

/// The metadata service's well-known IPv4 endpoint.
pub const IMDS_URL_V4: &'static str = "169.254.169.254:80";

/// The metadata service's well-known IPv6 endpoint.
pub const IMDS_URL_V6: &'static str = "[fd00:ec2::254]:80";

/// The path the public hostname is served under.
pub const HOSTNAME_PATH: &'static str = "latest/meta-data/public-hostname";

/// A connection target for the metadata service, chosen once.
#[derive(Debug)]
pub struct Imds(pub String);

impl Imds {
    /// The endpoint to use given whether the IPv6 endpoint answered a
    /// probe: IPv6 when reachable, the IPv4 endpoint otherwise. Probing
    /// is the caller's work.
    pub fn with_override(ipv6_reachable: bool, ipv6: &str, ipv4: &str) -> (r: Imds)
        ensures
            r.0@ == if ipv6_reachable {
                ipv6@
            } else {
                ipv4@
            },
    {
        if ipv6_reachable {
            Imds(ipv6.to_owned())
        } else {
            Imds(ipv4.to_owned())
        }
    }

    /// A connection to the well-known endpoints, IPv6 preferred when the
    /// probe reached it.
    pub fn new(ipv6_reachable: bool) -> (r: Imds)
        ensures
            r.0@ == if ipv6_reachable {
                IMDS_URL_V6@
            } else {
                IMDS_URL_V4@
            },
    {
        Imds::with_override(ipv6_reachable, IMDS_URL_V6, IMDS_URL_V4)
    }

    /// Whether the service speaks the newer protocol, judged from the
    /// status of an unauthenticated probe request: it does exactly when
    /// the probe was refused as unauthorized.
    pub fn is_v2(&self, probe_status: u64) -> (r: bool)
        ensures
            r == (probe_status == 401),
    {
        probe_status == 401
    }
}

/// The index of the first carriage-return/line-feed pair, or the length
/// of the buffer if there is none.
pub open spec fn find_crlf(b: Seq<u8>) -> int
    decreases b.len(),
{
    if b.len() < 2 {
        b.len() as int
    } else if b[0] == 13 && b[1] == 10 {
        0
    } else {
        1 + find_crlf(b.drop_first())
    }
}

/// Bounds and meaning of `find_crlf`.
pub proof fn lemma_find_crlf(b: Seq<u8>)
    ensures
        0 <= find_crlf(b) <= b.len(),
        find_crlf(b) + 2 <= b.len() ==> b[find_crlf(b)] == 13 && b[find_crlf(b) + 1] == 10,
        find_crlf(b) < b.len() ==> find_crlf(b) + 2 <= b.len(),
        forall|j: int|
            0 <= j < find_crlf(b) && j + 2 <= b.len() ==> !(#[trigger] b[j] == 13 && b[j + 1]
                == 10),
    decreases b.len(),
{
    if b.len() >= 2 && !(b[0] == 13 && b[1] == 10) {
        lemma_find_crlf(b.drop_first());
        assert forall|j: int|
            0 <= j < find_crlf(b) && j + 2 <= b.len() implies !(#[trigger] b[j] == 13 && b[j + 1]
                == 10) by {
            if j > 0 {
                assert(b.drop_first()[j - 1] == b[j]);
                assert(b.drop_first()[j] == b[j + 1]);
            }
        }
    }
}

/// `find_crlf` is determined by a pair-free prefix followed by a pair or
/// the end.
pub proof fn lemma_find_crlf_determined(b: Seq<u8>, k: int)
    requires
        0 <= k <= b.len(),
        forall|j: int|
            0 <= j < k && j + 2 <= b.len() ==> !(#[trigger] b[j] == 13 && b[j + 1] == 10),
        k < b.len() ==> k + 2 <= b.len() && b[k] == 13 && b[k + 1] == 10,
    ensures
        find_crlf(b) == k,
    decreases b.len(),
{
    if b.len() >= 2 && !(b[0] == 13 && b[1] == 10) {
        assert forall|j: int|
            0 <= j < k - 1 && j + 2 <= b.drop_first().len() implies !(#[trigger] b.drop_first()[j]
            == 13 && b.drop_first()[j + 1] == 10) by {
            assert(b.drop_first()[j] == b[j + 1]);
            assert(b.drop_first()[j + 1] == b[j + 2]);
        }
        lemma_find_crlf_determined(b.drop_first(), k - 1);
    }
}

/// The header lines and body of a raw HTTP response, as a scanner reads
/// them: each carriage-return/line-feed pair ends a header line; an
/// empty line ends the headers and everything after it is the body; when
/// no empty line arrives, the body is empty and bytes after the last
/// complete line are discarded.
pub open spec fn http_split(b: Seq<u8>) -> (Seq<Seq<u8>>, Seq<u8>)
    decreases b.len(),
    via http_split_decreases
{
    let i = find_crlf(b);
    if i == b.len() {
        (Seq::empty(), Seq::empty())
    } else if i == 0 {
        (Seq::empty(), b.skip(2))
    } else {
        let rest = http_split(b.skip(i + 2));
        (seq![b.take(i)] + rest.0, rest.1)
    }
}

#[via_fn]
proof fn http_split_decreases(b: Seq<u8>) {
    lemma_find_crlf(b);
}

/// ASCII whitespace, as a byte.
pub open spec fn is_ws_byte(b: u8) -> bool {
    b == 32 || b == 9 || b == 10 || b == 12 || b == 13
}

/// The index of the first whitespace byte, or the length if none.
pub open spec fn first_ws_byte(s: Seq<u8>) -> int
    decreases s.len(),
{
    if s.len() == 0 {
        0
    } else if is_ws_byte(s[0]) {
        0
    } else {
        1 + first_ws_byte(s.drop_first())
    }
}

/// Bounds of `first_ws_byte`.
pub proof fn lemma_first_ws_byte(s: Seq<u8>)
    ensures
        0 <= first_ws_byte(s) <= s.len(),
    decreases s.len(),
{
    if s.len() > 0 && !is_ws_byte(s[0]) {
        lemma_first_ws_byte(s.drop_first());
    }
}

/// `first_ws_byte` is determined as `first_ws` is.
pub proof fn lemma_first_ws_byte_determined(s: Seq<u8>, k: int)
    requires
        0 <= k <= s.len(),
        forall|j: int| 0 <= j < k ==> !is_ws_byte(s[j]),
        k < s.len() ==> is_ws_byte(s[k]),
    ensures
        first_ws_byte(s) == k,
    decreases s.len(),
{
    if s.len() > 0 && !is_ws_byte(s[0]) {
        lemma_first_ws_byte_determined(s.drop_first(), k - 1);
    }
}

/// The maximal whitespace-free words of a byte string, in order.
pub open spec fn ws_tokens_bytes(s: Seq<u8>) -> Seq<Seq<u8>>
    decreases s.len(),
    via ws_tokens_bytes_decreases
{
    if s.len() == 0 {
        Seq::empty()
    } else if is_ws_byte(s[0]) {
        ws_tokens_bytes(s.drop_first())
    } else {
        let e = first_ws_byte(s);
        seq![s.take(e)] + ws_tokens_bytes(s.skip(e))
    }
}

#[via_fn]
proof fn ws_tokens_bytes_decreases(s: Seq<u8>) {
    if s.len() > 0 && !is_ws_byte(s[0]) {
        lemma_first_ws_byte(s.drop_first());
        assert(first_ws_byte(s) >= 1);
    }
}

/// Dropping a run of leading whitespace leaves the words unchanged.
pub proof fn lemma_tokens_skip_ws(s: Seq<u8>, k: int)
    requires
        0 <= k <= s.len(),
        forall|j: int| 0 <= j < k ==> is_ws_byte(s[j]),
    ensures
        ws_tokens_bytes(s) == ws_tokens_bytes(s.skip(k)),
    decreases k,
{
    if k > 0 {
        assert(s.drop_first() =~= s.skip(1));
        assert forall|j: int| 0 <= j < k - 1 implies is_ws_byte(s.skip(1)[j]) by {
            assert(s.skip(1)[j] == s[j + 1]);
        }
        lemma_tokens_skip_ws(s.skip(1), k - 1);
        assert(s.skip(1).skip(k - 1) =~= s.skip(k));
    } else {
        assert(s.skip(0) =~= s);
    }
}

/// An ASCII decimal digit, as a byte.
pub open spec fn is_digit_byte(b: u8) -> bool {
    48 <= b && b <= 57
}

/// The number the digit bytes denote, most significant first.
pub open spec fn digits_value(s: Seq<u8>) -> int
    decreases s.len(),
{
    if s.len() == 0 {
        0
    } else {
        digits_value(s.drop_last()) * 10 + (s.last() - 48)
    }
}

/// Powers of ten.
pub open spec fn pow10(k: nat) -> int
    decreases k,
{
    if k == 0 {
        1
    } else {
        10 * pow10((k - 1) as nat)
    }
}

/// A digit string's value is bounded by the power of ten of its length,
/// and is never negative.
pub proof fn lemma_digits_value_bound(s: Seq<u8>)
    requires
        forall|i: int| 0 <= i < s.len() ==> is_digit_byte(#[trigger] s[i]),
    ensures
        0 <= digits_value(s) < pow10(s.len() as nat),
    decreases s.len(),
{
    if s.len() > 0 {
        lemma_digits_value_bound(s.drop_last());
    }
}

/// A status token: one to nineteen ASCII digits, so that its value
/// always fits the result type.
pub open spec fn parses_status(s: Seq<u8>) -> bool {
    0 < s.len() <= 19 && forall|i: int| 0 <= i < s.len() ==> is_digit_byte(#[trigger] s[i])
}

/// What a raw HTTP response buffer yields: the numeric status read from
/// the second word of the first header line, and the body following the
/// empty line. Nothing when there is no complete header line, when the
/// first line has fewer than two words, or when the second word is not
/// a status token.
pub open spec fn spec_http_response(b: Seq<u8>) -> Option<(int, Seq<u8>)> {
    let (lines, body) = http_split(b);
    if lines.len() == 0 {
        None
    } else {
        let toks = ws_tokens_bytes(lines[0]);
        if toks.len() >= 2 && parses_status(toks[1]) {
            Some((digits_value(toks[1]), body))
        } else {
            None
        }
    }
}

/// Whether the byte is ASCII whitespace.
fn is_ws_byte_exec(b: u8) -> (r: bool)
    ensures
        r == is_ws_byte(b),
{
    b == 32 || b == 9 || b == 10 || b == 12 || b == 13
}

/// Reads a raw HTTP response: the status code from the first header
/// line's second word, and the body after the empty line that ends the
/// headers. Nothing on a buffer with no complete, well-formed status
/// line.
#[verifier::loop_isolation(false)]
#[verifier::rlimit(100)]
pub fn parse_http_response(buf: &[u8]) -> (r: Option<(u64, Vec<u8>)>)
    ensures
        match r {
            Some((status, body)) => spec_http_response(buf@) == Some((status as int, body@)),
            None => spec_http_response(buf@) is None,
        },
{
    let n = buf.len();
    if n < 2 {
        proof {
            lemma_find_crlf_determined(buf@, n as int);
        }
        return None;
    }
    // the first header line ends at the first pair
    let mut i0: usize = 0;
    while i0 < n - 1 && !(buf[i0] == 13 && buf[i0 + 1] == 10)
        invariant
            n == buf@.len(),
            n >= 2,
            i0 < n,
            forall|j: int|
                0 <= j < i0 && j + 2 <= n ==> !(#[trigger] buf@[j] == 13 && buf@[j + 1] == 10),
        decreases n - i0,
    {
        i0 += 1;
    }
    if i0 >= n - 1 {
        // no complete line at all
        proof {
            lemma_find_crlf_determined(buf@, n as int);
        }
        return None;
    }
    proof {
        lemma_find_crlf_determined(buf@, i0 as int);
    }
    if i0 == 0 {
        // an empty first line: the headers end with no line read
        return None;
    }
    let ghost line = buf@.take(i0 as int);
    proof {
        assert(http_split(buf@).0 == seq![line] + http_split(buf@.skip(i0 as int + 2)).0);
        assert(http_split(buf@).0[0] == line);
    }
    // the second whitespace-separated word of the first line
    let mut a1: usize = 0;
    while a1 < i0 && is_ws_byte_exec(buf[a1])
        invariant
            a1 <= i0,
            forall|j: int| 0 <= j < a1 ==> is_ws_byte(line[j]),
        decreases i0 - a1,
    {
        proof {
            assert(line[a1 as int] == buf@[a1 as int]);
        }
        a1 += 1;
    }
    proof {
        lemma_tokens_skip_ws(line, a1 as int);
    }
    if a1 == i0 {
        // a blank status line has no words
        proof {
            assert(line.skip(a1 as int) =~= Seq::<u8>::empty());
        }
        return None;
    }
    let mut e1: usize = a1;
    while e1 < i0 && !is_ws_byte_exec(buf[e1])
        invariant
            a1 <= e1 <= i0,
            forall|j: int| a1 <= j < e1 ==> !is_ws_byte(line[j]),
        decreases i0 - e1,
    {
        proof {
            assert(line[e1 as int] == buf@[e1 as int]);
        }
        e1 += 1;
    }
    proof {
        let rest1 = line.skip(a1 as int);
        assert forall|j: int| 0 <= j < e1 - a1 implies !is_ws_byte(rest1[j]) by {
            assert(rest1[j] == line[a1 + j]);
        }
        if e1 < i0 {
            assert(rest1[e1 - a1] == line[e1 as int]);
            assert(line[e1 as int] == buf@[e1 as int]);
        }
        lemma_first_ws_byte_determined(rest1, e1 - a1);
        assert(!is_ws_byte(rest1[0]));
        assert(ws_tokens_bytes(rest1) == seq![rest1.take(e1 - a1)] + ws_tokens_bytes(
            rest1.skip(e1 - a1),
        ));
        assert(rest1.skip(e1 - a1) =~= line.skip(e1 as int));
    }
    let mut a2: usize = e1;
    while a2 < i0 && is_ws_byte_exec(buf[a2])
        invariant
            e1 <= a2 <= i0,
            forall|j: int| e1 <= j < a2 ==> is_ws_byte(line[j]),
        decreases i0 - a2,
    {
        proof {
            assert(line[a2 as int] == buf@[a2 as int]);
        }
        a2 += 1;
    }
    proof {
        let rest2 = line.skip(e1 as int);
        assert forall|j: int| 0 <= j < a2 - e1 implies is_ws_byte(rest2[j]) by {
            assert(rest2[j] == line[e1 + j]);
        }
        lemma_tokens_skip_ws(rest2, a2 - e1);
        assert(rest2.skip(a2 - e1) =~= line.skip(a2 as int));
    }
    if a2 == i0 {
        // only one word on the status line
        proof {
            assert(line.skip(a2 as int) =~= Seq::<u8>::empty());
            assert(ws_tokens_bytes(line).len() == 1);
        }
        return None;
    }
    let mut e2: usize = a2;
    while e2 < i0 && !is_ws_byte_exec(buf[e2])
        invariant
            a2 <= e2 <= i0,
            forall|j: int| a2 <= j < e2 ==> !is_ws_byte(line[j]),
        decreases i0 - e2,
    {
        proof {
            assert(line[e2 as int] == buf@[e2 as int]);
        }
        e2 += 1;
    }
    let ghost token = line.subrange(a2 as int, e2 as int);
    proof {
        let rest3 = line.skip(a2 as int);
        assert forall|j: int| 0 <= j < e2 - a2 implies !is_ws_byte(rest3[j]) by {
            assert(rest3[j] == line[a2 + j]);
        }
        if e2 < i0 {
            assert(rest3[e2 - a2] == line[e2 as int]);
            assert(line[e2 as int] == buf@[e2 as int]);
        }
        lemma_first_ws_byte_determined(rest3, e2 - a2);
        assert(!is_ws_byte(rest3[0]));
        assert(ws_tokens_bytes(rest3) == seq![rest3.take(e2 - a2)] + ws_tokens_bytes(
            rest3.skip(e2 - a2),
        ));
        assert(rest3.take(e2 - a2) =~= token);
        assert(ws_tokens_bytes(line)[1] == token);
        assert(ws_tokens_bytes(line).len() >= 2);
    }
    // the second word must be a status token: at most nineteen digits
    if e2 - a2 > 19 {
        proof {
            assert(!parses_status(token));
        }
        return None;
    }
    let mut acc: u64 = 0;
    let mut k: usize = a2;
    proof {
        reveal_with_fuel(pow10, 21);
        assert(token.take(0) =~= Seq::<u8>::empty());
    }
    while k < e2
        invariant
            a2 <= k <= e2,
            acc == digits_value(token.take(k - a2)),
            forall|j: int| 0 <= j < k - a2 ==> is_digit_byte(#[trigger] token[j]),
            0 <= acc < pow10((k - a2) as nat),
        decreases e2 - k,
    {
        let b = buf[k];
        proof {
            assert(token[k - a2] == line[k as int]);
            assert(line[k as int] == buf@[k as int]);
        }
        if b < 48 || b > 57 {
            proof {
                assert(!is_digit_byte(token[k - a2]));
                assert(!parses_status(token));
            }
            return None;
        }
        proof {
            lemma_digits_value_bound(token.take(k - a2));
            assert(token.take(k - a2 + 1).drop_last() =~= token.take(k - a2));
            assert(token.take(k - a2 + 1).last() == token[k - a2]);
            assert(pow10((k - a2 + 1) as nat) <= pow10(19)) by {
                lemma_pow10_increases((k - a2 + 1) as nat, 19);
            }
            assert(pow10(19) == 10_000_000_000_000_000_000int) by {
                reveal_with_fuel(pow10, 21);
            }
        }
        acc = acc * 10 + ((b - 48) as u64);
        k += 1;
    }
    proof {
        assert(token.take(e2 - a2) =~= token);
        assert(parses_status(token));
    }
    // the body follows the empty line that ends the headers
    let mut pos: usize = i0 + 2;
    proof {
        assert(http_split(buf@).1 == http_split(buf@.skip(pos as int)).1);
    }
    loop
        invariant
            i0 + 2 <= pos <= n,
            n == buf@.len(),
            http_split(buf@).1 == http_split(buf@.skip(pos as int)).1,
        decreases n - pos,
    {
        // the next line starts at pos; find its end
        let mut j: usize = pos;
        while j < n - 1 && !(buf[j] == 13 && buf[j + 1] == 10)
            invariant
                pos <= j <= n,
                n >= 2,
                forall|k2: int|
                    pos <= k2 < j && k2 + 2 <= n ==> !(#[trigger] buf@[k2] == 13 && buf@[k2 + 1]
                        == 10),
            decreases n - j,
        {
            j += 1;
        }
        let ghost rest = buf@.skip(pos as int);
        if j >= n - 1 {
            // no further complete line: the headers never end
            proof {
                assert forall|k2: int|
                    0 <= k2 < rest.len() && k2 + 2 <= rest.len() implies !(#[trigger] rest[k2]
                    == 13 && rest[k2 + 1] == 10) by {
                    assert(rest[k2] == buf@[pos + k2]);
                    assert(rest[k2 + 1] == buf@[pos + k2 + 1]);
                }
                lemma_find_crlf_determined(rest, rest.len() as int);
            }
            return Some((acc, Vec::new()));
        }
        proof {
            assert forall|k2: int|
                0 <= k2 < j - pos && k2 + 2 <= rest.len() implies !(#[trigger] rest[k2] == 13
                && rest[k2 + 1] == 10) by {
                assert(rest[k2] == buf@[pos + k2]);
                assert(rest[k2 + 1] == buf@[pos + k2 + 1]);
            }
            assert(rest[j - pos] == buf@[j as int]);
            assert(rest[j - pos + 1] == buf@[j as int + 1]);
            lemma_find_crlf_determined(rest, j - pos);
        }
        if j == pos {
            // an empty line: the rest is the body
            let body = slice_to_vec(slice_subrange(buf, pos + 2, n));
            proof {
                assert(http_split(rest).1 == rest.skip(2));
                assert(rest.skip(2) =~= buf@.skip(pos as int + 2));
                assert(body@ == buf@.skip(pos as int + 2));
            }
            return Some((acc, body));
        }
        proof {
            assert(http_split(rest).1 == http_split(rest.skip(j - pos + 2)).1);
            assert(rest.skip(j - pos + 2) =~= buf@.skip(j as int + 2));
        }
        pos = j + 2;
    }
}

/// Powers of ten do not decrease.
pub proof fn lemma_pow10_increases(a: nat, b: nat)
    requires
        a <= b,
    ensures
        pow10(a) <= pow10(b),
    decreases b,
{
    if a < b {
        lemma_pow10_increases(a, (b - 1) as nat);
        assert(pow10(b) == 10 * pow10((b - 1) as nat));
        assert(pow10((b - 1) as nat) >= 1) by {
            lemma_pow10_positive((b - 1) as nat);
        }
    }
}

/// Powers of ten are positive.
pub proof fn lemma_pow10_positive(k: nat)
    ensures
        pow10(k) >= 1,
    decreases k,
{
    if k > 0 {
        lemma_pow10_positive((k - 1) as nat);
    }
}

} // verus!
