//! WebSockets: the opening handshake, frames, and the virtual users that
//! exchange messages.

use vstd::arithmetic::div_mod::lemma_fundamental_div_mod_converse;
use vstd::prelude::*;
use vstd::slice::{slice_subrange, slice_to_vec};
use vstd::utf8::{encode_scalar, encode_utf8};

use crate::client::{
    address, address_text, authority, category, classify_conn_error, host_and_port, is_server_name,
    server_name_accepted, split_host_port, ConnError, ErrorLink,
};
use crate::metrics::{
    after_all, after_one, after_reply, after_request, after_sent, all_bytes, count_in,
    counts_are_exact, every_latency_is_counted, failures_have_the_status_0, fresh_metrics,
    has_status, how_many, is_bad, is_counted, is_good, is_timed, latencies_of_0, latency_of,
    totals_count_the_recordings, wadd, Metrics, MetricsView, Recorded,
};
use crate::scheduler::Real;
use crate::text::{
    chars_of, find_char, find_first, find_place, from_utf8_lossy, lines, next_line, push_chars,
    same_ignoring_case, spells, spells_ignoring_case, stands_at, starts_with, string_of, trim,
    trimmed, utf8_lossy, without_trailing,
};

verus! {

broadcast use vstd::string::group_string_axioms;

// ----------------------------------------------------------------------
// Base64
// ----------------------------------------------------------------------

/// The character of six bits.
pub open spec fn sextet_char(k: int) -> char {
    if k < 26 {
        ('A' as int + k) as char
    } else if k < 52 {
        ('a' as int + (k - 26)) as char
    } else if k < 62 {
        ('0' as int + (k - 52)) as char
    } else if k == 62 {
        '+'
    } else {
        '/'
    }
}

/// The six bits of a character.
pub open spec fn sextet_value(c: char) -> int {
    if 'A' <= c <= 'Z' {
        c as int - 'A' as int
    } else if 'a' <= c <= 'z' {
        c as int - 'a' as int + 26
    } else if '0' <= c <= '9' {
        c as int - '0' as int + 52
    } else if c == '+' {
        62
    } else {
        63
    }
}

/// The byte at a place, 0 after the end.
pub open spec fn byte_or_zero(data: Seq<u8>, i: int) -> int {
    if i < data.len() {
        data[i] as int
    } else {
        0
    }
}

/// Up to three bytes as one number.
pub open spec fn bytes_number(data: Seq<u8>) -> int {
    byte_or_zero(data, 0) * 0x1_0000 + byte_or_zero(data, 1) * 0x100 + byte_or_zero(data, 2)
}

/// The four characters of up to three bytes.
pub open spec fn quartet(data: Seq<u8>) -> Seq<char> {
    let n = bytes_number(data);
    seq![
        sextet_char(n / 0x4_0000),
        sextet_char(n / 0x1000 % 64),
        if data.len() > 1 {
            sextet_char(n / 64 % 64)
        } else {
            '='
        },
        if data.len() > 2 {
            sextet_char(n % 64)
        } else {
            '='
        },
    ]
}

/// Bytes in base64, with padding.
pub open spec fn base64(data: Seq<u8>) -> Seq<char>
    decreases data.len(),
{
    if data.len() == 0 {
        seq![]
    } else if data.len() <= 3 {
        quartet(data)
    } else {
        quartet(data.take(3)) + base64(data.skip(3))
    }
}

/// Four characters as one number.
pub open spec fn chars_number(chars: Seq<char>) -> int {
    sextet_value(chars[0]) * 0x4_0000 + sextet_value(chars[1]) * 0x1000 + sextet_value(chars[2])
        * 64 + sextet_value(chars[3])
}

/// The bytes that four characters stand for.
pub open spec fn quartet_bytes(chars: Seq<char>) -> Seq<u8> {
    let n = chars_number(chars);
    if chars[2] == '=' {
        seq![(n / 0x1_0000) as u8]
    } else if chars[3] == '=' {
        seq![(n / 0x1_0000) as u8, (n / 0x100 % 0x100) as u8]
    } else {
        seq![(n / 0x1_0000) as u8, (n / 0x100 % 0x100) as u8, (n % 0x100) as u8]
    }
}

/// The bytes that a text in base64 stands for.
pub open spec fn base64_bytes(text: Seq<char>) -> Seq<u8>
    decreases text.len(),
{
    if text.len() < 4 {
        seq![]
    } else {
        quartet_bytes(text.take(4)) + base64_bytes(text.skip(4))
    }
}

fn sextet(k: u32) -> (c: char)
    requires
        k < 64,
    ensures
        c == sextet_char(k as int),
{
    if k < 26 {
        (65 + k as u8) as char
    } else if k < 52 {
        (97 + (k - 26) as u8) as char
    } else if k < 62 {
        (48 + (k - 52) as u8) as char
    } else if k == 62 {
        '+'
    } else {
        '/'
    }
}

/// Bytes in base64, with padding.
pub fn base64_encode(data: &[u8]) -> (text: String)
    ensures
        text@ == base64(data@),
{
    let mut out: String = String::new();
    let mut i: usize = 0;
    assert(data@.skip(0) =~= data@);
    assert(out@ + base64(data@.skip(0)) =~= base64(data@));
    while i < data.len()
        invariant
            i <= data@.len(),
            out@ + base64(data@.skip(i as int)) == base64(data@),
        decreases data@.len() - i,
    {
        let left: usize = data.len() - i;
        let ghost rest = data@.skip(i as int);
        let ghost before = out@;
        let ghost chunk = if left <= 3 {
            rest
        } else {
            rest.take(3)
        };
        let b0: u32 = data[i] as u32;
        let b1: u32 = if left > 1 {
            data[i + 1] as u32
        } else {
            0
        };
        let b2: u32 = if left > 2 {
            data[i + 2] as u32
        } else {
            0
        };
        let n: u32 = b0 * 0x1_0000 + b1 * 0x100 + b2;
        out.push(sextet(n / 0x4_0000));
        out.push(sextet(n / 0x1000 % 64));
        if left > 1 {
            out.push(sextet(n / 64 % 64));
        } else {
            out.push('=');
        }
        if left > 2 {
            out.push(sextet(n % 64));
        } else {
            out.push('=');
        }
        proof {
            assert(byte_or_zero(chunk, 0) == b0 && byte_or_zero(chunk, 1) == b1 && byte_or_zero(
                chunk,
                2,
            ) == b2);
            assert(out@ =~= before + quartet(chunk));
        }
        if left <= 3 {
            i = data.len();
            assert(data@.skip(i as int) =~= seq![]);
            assert(out@ + base64(data@.skip(i as int)) =~= before + base64(rest));
        } else {
            i += 3;
            assert(data@.skip(i as int) =~= rest.skip(3));
            assert(out@ + base64(data@.skip(i as int)) =~= before + base64(rest));
        }
    }
    assert(data@.skip(i as int) =~= seq![]);
    assert(out@ + base64(data@.skip(i as int)) =~= out@);
    out
}

proof fn sextet_reads_back(k: int)
    requires
        0 <= k < 64,
    ensures
        sextet_value(sextet_char(k)) == k,
        sextet_char(k) != '=',
{
}

proof fn number_of_sextets(n: int)
    requires
        0 <= n < 0x100_0000,
    ensures
        0 <= n / 0x4_0000 < 64,
        n == n / 0x4_0000 * 0x4_0000 + n / 0x1000 % 64 * 0x1000 + n / 64 % 64 * 64 + n % 64,
{
    assert(n / 64 / 64 == n / 0x1000);
    assert(n / 0x1000 / 64 == n / 0x4_0000);
}

proof fn bytes_of_number(b0: int, b1: int, low: int, m: int)
    requires
        0 <= b1 < 0x100,
        0 <= low < 0x100,
        m == b0 * 0x1_0000 + b1 * 0x100 + low,
    ensures
        m / 0x1_0000 == b0,
        m / 0x100 % 0x100 == b1,
        m % 0x100 == low,
{
    lemma_fundamental_div_mod_converse(m, 0x1_0000, b0, b1 * 0x100 + low);
    lemma_fundamental_div_mod_converse(m, 0x100, b0 * 0x100 + b1, low);
    lemma_fundamental_div_mod_converse(b0 * 0x100 + b1, 0x100, b0, b1);
}

proof fn numbers_agree(data: Seq<u8>)
    requires
        1 <= data.len() <= 3,
    ensures
        chars_number(quartet(data)) == bytes_number(data) + (if data.len() == 1 {
            4095int
        } else if data.len() == 2 {
            63
        } else {
            0
        }),
        data.len() >= 2 ==> quartet(data)[2] != '=',
        data.len() >= 3 ==> quartet(data)[3] != '=',
{
    let n = bytes_number(data);
    number_of_sextets(n);
    sextet_reads_back(n / 0x4_0000);
    sextet_reads_back(n / 0x1000 % 64);
    sextet_reads_back(n / 64 % 64);
    sextet_reads_back(n % 64);
    assert(sextet_value('=') == 63);
    assert(data.len() == 1 ==> n / 64 % 64 == 0 && n % 64 == 0);
    assert(data.len() == 2 ==> n % 64 == 0);
}

proof fn quartet_reads_back(data: Seq<u8>)
    requires
        1 <= data.len() <= 3,
    ensures
        quartet(data).len() == 4,
        quartet_bytes(quartet(data)) == data,
{
    let m = chars_number(quartet(data));
    numbers_agree(data);
    if data.len() == 1 {
        bytes_of_number(data[0] as int, 15, 255, m);
    } else if data.len() == 2 {
        bytes_of_number(data[0] as int, data[1] as int, 63, m);
    } else {
        bytes_of_number(data[0] as int, data[1] as int, data[2] as int, m);
    }
    assert(quartet_bytes(quartet(data)) =~= data);
}

/// What is encoded in base64 can be read back.
pub proof fn base64_reads_back(data: Seq<u8>)
    ensures
        base64_bytes(base64(data)) == data,
    decreases data.len(),
{
    let text = base64(data);
    if data.len() == 0 {
        assert(base64_bytes(text) =~= data);
    } else if data.len() <= 3 {
        quartet_reads_back(data);
        assert(text.take(4) =~= text);
        assert(base64_bytes(text.skip(4)) =~= seq![]);
        assert(base64_bytes(text) =~= data);
    } else {
        quartet_reads_back(data.take(3));
        base64_reads_back(data.skip(3));
        assert(text.take(4) =~= quartet(data.take(3)));
        assert(text.skip(4) =~= base64(data.skip(3)));
        assert(base64_bytes(text) =~= data);
    }
}

/// Every three bytes, or what is left of them, take four characters.
pub proof fn base64_length(data: Seq<u8>)
    ensures
        base64(data).len() == (data.len() + 2) / 3 * 4,
    decreases data.len(),
{
    if data.len() > 3 {
        base64_length(data.skip(3));
    }
}

// ----------------------------------------------------------------------
// Searching
// ----------------------------------------------------------------------

/// The first place of `needle` in `haystack`; none where `needle` is empty.
pub fn find_seq(haystack: &[u8], needle: &[u8]) -> (place: Option<usize>)
    ensures
        match place {
            Some(at) => needle@.len() > 0 && find_place(haystack@, needle@, 0) == Some(at as int)
                && at + needle@.len() <= haystack@.len(),
            None => needle@.len() == 0 || find_place(haystack@, needle@, 0) is None,
        },
{
    if needle.len() == 0 || haystack.len() < needle.len() {
        return None;
    }
    let total: usize = haystack.len();
    let last: usize = total - needle.len();
    let mut at: usize = 0;
    while at <= last
        invariant
            at <= last + 1,
            total == haystack@.len(),
            needle@.len() > 0,
            last + needle@.len() == haystack@.len(),
            find_place(haystack@, needle@, at as int) == find_place(haystack@, needle@, 0),
        decreases last + 1 - at,
    {
        let mut same: usize = 0;
        while same < needle.len() && haystack[at + same] == needle[same]
            invariant
                same <= needle@.len(),
                at + needle@.len() <= haystack@.len(),
                total == haystack@.len(),
                forall|i: int| 0 <= i < same ==> haystack@[at + i] == needle@[i],
            decreases needle@.len() - same,
        {
            same += 1;
        }
        if same == needle.len() {
            assert(haystack@.subrange(at as int, at + needle@.len()) =~= needle@);
            return Some(at);
        }
        assert(!stands_at(haystack@, needle@, at as int)) by {
            if stands_at(haystack@, needle@, at as int) {
                assert(haystack@.subrange(at as int, at + needle@.len())[same as int]
                    == needle@[same as int]);
            }
        }
        if at == last {
            assert(find_place(haystack@, needle@, at + 1) is None);
            return None;
        }
        at += 1;
    }
    None
}

// ----------------------------------------------------------------------
// Where a URL leads
// ----------------------------------------------------------------------

/// Where a WebSocket leads.
#[derive(Debug)]
pub struct WsTarget {
    pub is_tls: bool,
    pub host: String,
    pub addr: String,
    pub host_port: String,
    pub path: String,
}

/// What a `WsTarget` holds.
pub struct WsTargetView {
    pub is_tls: bool,
    pub host: Seq<char>,
    pub addr: Seq<char>,
    pub host_port: Seq<char>,
    pub path: Seq<char>,
}

impl View for WsTarget {
    type V = WsTargetView;

    open spec fn view(&self) -> WsTargetView {
        WsTargetView {
            is_tls: self.is_tls,
            host: self.host@,
            addr: self.addr@,
            host_port: self.host_port@,
            path: self.path@,
        }
    }
}

/// Whether a URL asks for TLS, and what follows its scheme; nothing where it
/// is no WebSocket's.
pub open spec fn ws_scheme(url: Seq<char>) -> Option<(bool, Seq<char>)> {
    if "wss://"@.is_prefix_of(url) {
        Some((true, url.skip(6)))
    } else if "ws://"@.is_prefix_of(url) {
        Some((false, url.skip(5)))
    } else {
        None
    }
}

/// Where a URL leads; nowhere where it is no WebSocket's.
pub open spec fn ws_target(url: Seq<char>) -> Option<WsTargetView> {
    match ws_scheme(url) {
        Some((is_tls, rest)) => {
            let slash = find_first(rest, '/');
            let (host, port) = host_and_port(authority(rest), is_tls);
            Some(
                WsTargetView {
                    is_tls,
                    host,
                    addr: address(host, port),
                    host_port: authority(rest),
                    path: if slash < rest.len() {
                        rest.skip(slash)
                    } else {
                        "/"@
                    },
                },
            )
        },
        None => None,
    }
}

/// Find out where a URL leads.
pub fn parse_ws_url(url: &str) -> (target: Option<WsTarget>)
    ensures
        match target {
            Some(t) => ws_target(url@) == Some(t@),
            None => ws_target(url@) is None,
        },
{
    let chars: Vec<char> = chars_of(url);
    proof {
        reveal_strlit("wss://");
        reveal_strlit("ws://");
    }
    let is_tls: bool = starts_with(&chars, "wss://");
    if !is_tls && !starts_with(&chars, "ws://") {
        return None;
    }
    let skip: usize = if is_tls {
        6
    } else {
        5
    };
    let rest: &[char] = slice_subrange(&chars, skip, chars.len());
    assert(rest@ =~= chars@.skip(skip as int));
    let slash: usize = find_char(rest, '/', 0);
    let head: &[char] = slice_subrange(rest, 0, slash);
    assert(head@ =~= rest@.take(slash as int));
    let host_port: &[char] = without_trailing(head, ':');
    let (host, port): (String, u16) = split_host_port(host_port, is_tls);
    let path: String = if slash < rest.len() {
        let tail: &[char] = slice_subrange(rest, slash, rest.len());
        assert(tail@ =~= rest@.skip(slash as int));
        string_of(tail)
    } else {
        "/".to_owned()
    };
    let addr: String = address_text(host.as_str(), port);
    Some(WsTarget { is_tls, host, addr, host_port: string_of(host_port), path })
}

// ----------------------------------------------------------------------
// The opening handshake
// ----------------------------------------------------------------------

/// What `ring::digest` computes as SHA-1.
pub uninterp spec fn sha1(data: Seq<u8>) -> Seq<u8>;

/// `ring::digest::digest` with SHA-1: 20 bytes. It panics on 2^61 bytes or
/// more.
#[verifier::external_body]
fn sha1_digest(data: &[u8]) -> (digest: Vec<u8>)
    requires
        data@.len() < 0x2000_0000_0000_0000,
    ensures
        digest@ == sha1(data@),
        digest@.len() == 20,
{
    ring::digest::digest(&ring::digest::SHA1_FOR_LEGACY_USE_ONLY, data).as_ref().to_vec()
}

/// `rand::random`: any sixteen bytes.
#[verifier::external_body]
fn random_nonce() -> (nonce: [u8; 16]) {
    rand::random::<[u8; 16]>()
}

/// `rand::random`: any four bytes.
#[verifier::external_body]
fn random_mask() -> (mask: [u8; 4]) {
    rand::random::<[u8; 4]>()
}

/// The request that opens a WebSocket.
pub open spec fn handshake_request(target: WsTargetView, key: Seq<char>) -> Seq<char> {
    "GET "@ + target.path + " HTTP/1.1\r\nHost: "@ + target.host_port
        + "\r\nUpgrade: websocket\r\nConnection: Upgrade\r\nSec-WebSocket-Key: "@ + key
        + "\r\nSec-WebSocket-Version: 13\r\n\r\n"@
}

/// What the server has to answer a key with.
pub open spec fn accept_of(key: Seq<char>) -> Seq<char> {
    base64(sha1(encode_utf8(key + "258EAFA5-E914-47DA-95CA-C5AB0DC85B11"@)))
}

/// Whether a line of a reply answers with this.
pub open spec fn line_accepts(line: Seq<char>, accept: Seq<char>) -> bool {
    let l = trim(line);
    let colon = find_first(l, ':');
    &&& colon < l.len()
    &&& same_ignoring_case(trim(l.take(colon)), "sec-websocket-accept"@)
    &&& trim(l.skip(colon + 1)) == accept
}

/// Whether one of the lines answers with this.
pub open spec fn some_line_accepts(all: Seq<Seq<char>>, accept: Seq<char>) -> bool {
    exists|i: int| 0 <= i < all.len() && line_accepts(#[trigger] all[i], accept)
}

/// Whether the head of a reply opens a WebSocket and answers with this.
pub open spec fn head_answers(head: Seq<char>, accept: Seq<char>) -> bool {
    &&& "HTTP/1.1 101"@.is_prefix_of(head)
    &&& some_line_accepts(lines(head), accept)
}

/// Whether the head of a reply opens the WebSocket of this key.
pub open spec fn head_accepts(head: Seq<char>, key: Seq<char>) -> bool {
    head_answers(head, accept_of(key))
}

/// What a reply says so far: nothing before its head is complete, then
/// whether it opens the WebSocket.
pub open spec fn reply_says(resp: Seq<u8>, key: Seq<char>) -> Option<bool> {
    match find_place(resp, seq![13u8, 10u8, 13u8, 10u8], 0) {
        Some(at) => Some(head_accepts(utf8_lossy(resp.take(at)), key)),
        None => None,
    }
}

proof fn utf8_length(chars: Seq<char>)
    ensures
        encode_utf8(chars).len() <= 4 * chars.len(),
    decreases chars.len(),
{
    if chars.len() > 0 {
        utf8_length(chars.drop_first());
        assert(encode_scalar(chars[0] as u32).len() <= 4);
    }
}

/// The request that opens a WebSocket.
fn handshake_text(target: &WsTarget, key: &str) -> (text: String)
    ensures
        text@ == handshake_request(target@, key@),
{
    let mut text: String = "GET ".to_owned();
    push_chars(&mut text, &chars_of(target.path.as_str()));
    push_chars(&mut text, &chars_of(" HTTP/1.1\r\nHost: "));
    push_chars(&mut text, &chars_of(target.host_port.as_str()));
    push_chars(
        &mut text,
        &chars_of("\r\nUpgrade: websocket\r\nConnection: Upgrade\r\nSec-WebSocket-Key: "),
    );
    push_chars(&mut text, &chars_of(key));
    push_chars(&mut text, &chars_of("\r\nSec-WebSocket-Version: 13\r\n\r\n"));
    text
}

/// What the server has to answer a key with.
fn expected_accept(key: &str) -> (accept: String)
    requires
        key@.len() <= 24,
    ensures
        accept@ == accept_of(key@),
{
    let mut input: String = key.to_owned();
    push_chars(&mut input, &chars_of("258EAFA5-E914-47DA-95CA-C5AB0DC85B11"));
    proof {
        reveal_strlit("258EAFA5-E914-47DA-95CA-C5AB0DC85B11");
        utf8_length(input@);
    }
    base64_encode(&sha1_digest(input.as_str().as_bytes()))
}

/// Whether a line of a reply answers with this.
fn accepts_in_line(line: &[char], accept: &str) -> (found: bool)
    ensures
        found == line_accepts(line@, accept@),
{
    let l: &[char] = trimmed(line);
    let colon: usize = find_char(l, ':', 0);
    if colon == l.len() {
        return false;
    }
    let name: &[char] = slice_subrange(l, 0, colon);
    let value: &[char] = slice_subrange(l, colon + 1, l.len());
    assert(name@ =~= l@.take(colon as int));
    assert(value@ =~= l@.skip(colon + 1));
    spells_ignoring_case(trimmed(name), "sec-websocket-accept") && spells(trimmed(value), accept)
}

/// Whether the head of a reply opens the WebSocket of a key that has to be
/// answered with this.
pub fn check_accept(head: &str, accept: &str) -> (accepted: bool)
    ensures
        accepted == head_answers(head@, accept@),
{
    let chars: Vec<char> = chars_of(head);
    if !starts_with(&chars, "HTTP/1.1 101") {
        return false;
    }
    let mut from: usize = 0;
    assert(chars@.skip(0) =~= chars@);
    while from < chars.len()
        invariant
            chars@ == head@,
            "HTTP/1.1 101"@.is_prefix_of(head@),
            from <= chars@.len(),
            some_line_accepts(lines(chars@.skip(from as int)), accept@) == some_line_accepts(
                lines(chars@),
                accept@,
            ),
        decreases chars@.len() - from,
    {
        let (end, next): (usize, usize) = next_line(&chars, from);
        let line: &[char] = slice_subrange(chars.as_slice(), from, end);
        let ghost here = lines(chars@.skip(from as int));
        let ghost rest = lines(chars@.skip(next as int));
        assert(here =~= seq![line@] + rest);
        if accepts_in_line(line, accept) {
            assert(line_accepts(here[0], accept@));
            return true;
        }
        proof {
            if some_line_accepts(here, accept@) {
                let i = choose|i: int|
                    0 <= i < here.len() && line_accepts(#[trigger] here[i], accept@);
                assert(here[0] == line@);
                assert(here[i] == rest[i - 1]);
                assert(line_accepts(rest[i - 1], accept@));
            }
            if some_line_accepts(rest, accept@) {
                let i = choose|i: int|
                    0 <= i < rest.len() && line_accepts(#[trigger] rest[i], accept@);
                assert(here[i + 1] == rest[i]);
            }
        }
        from = next;
    }
    assert(chars@.skip(from as int).len() == 0);
    false
}

/// Whether the head of a reply opens the WebSocket of this key.
fn check_head(head: &str, key: &str) -> (accepted: bool)
    requires
        key@.len() <= 24,
    ensures
        accepted == head_accepts(head@, key@),
{
    let accept: String = expected_accept(key);
    check_accept(head, accept.as_str())
}

/// How far the opening of a WebSocket has come.
#[derive(Clone, Copy, Debug, PartialEq, Eq, Structural)]
pub enum WsStage {
    Tcp,
    Tls,
    Asking,
    Listening,
    Open,
    Failed,
}

/// What happens on the way.
#[derive(Debug)]
pub enum WsLinkEvent {
    /// The connection, or the TLS session, is there.
    Opened,
    /// It failed for these reasons, the outermost first.
    Refused(Vec<ErrorLink>),
    /// It did not come in time.
    TimedOut,
    /// The request has been written.
    Written,
    /// A part of the reply; empty at its end.
    Read(Vec<u8>),
    /// Writing or reading failed.
    Broken,
}

/// What to do on the way.
#[derive(Debug)]
pub enum WsLinkStep {
    /// Begin a TLS session under the host's name.
    StartTls,
    /// Write this.
    Write(Vec<u8>),
    /// Read some of the reply.
    Read,
    /// The WebSocket is open.
    Ready,
    /// It will not open.
    Fail(ConnError),
}

/// What a `WsLinkStep` holds.
pub enum WsLinkStepView {
    StartTls,
    Write(Seq<u8>),
    Read,
    Ready,
    Fail(ConnError),
}

impl View for WsLinkStep {
    type V = WsLinkStepView;

    open spec fn view(&self) -> WsLinkStepView {
        match self {
            WsLinkStep::StartTls => WsLinkStepView::StartTls,
            WsLinkStep::Write(bytes) => WsLinkStepView::Write(bytes@),
            WsLinkStep::Read => WsLinkStepView::Read,
            WsLinkStep::Ready => WsLinkStepView::Ready,
            WsLinkStep::Fail(e) => WsLinkStepView::Fail(*e),
        }
    }
}

/// A WebSocket that is being opened.
#[derive(Debug)]
pub struct WsLink {
    pub target: WsTarget,
    pub insecure: bool,
    pub nonce: [u8; 16],
    pub stage: WsStage,
    pub resp: Vec<u8>,
}

/// What a `WsLink` holds.
pub struct WsLinkView {
    pub target: WsTargetView,
    pub insecure: bool,
    pub nonce: Seq<u8>,
    pub stage: WsStage,
    pub resp: Seq<u8>,
}

impl View for WsLink {
    type V = WsLinkView;

    open spec fn view(&self) -> WsLinkView {
        WsLinkView {
            target: self.target@,
            insecure: self.insecure,
            nonce: self.nonce@,
            stage: self.stage,
            resp: self.resp@,
        }
    }
}

impl WsLinkView {
    /// In another stage.
    pub open spec fn at(self, stage: WsStage) -> WsLinkView {
        WsLinkView { stage, ..self }
    }

    /// At an end without success.
    pub open spec fn fail(self, error: ConnError) -> (WsLinkView, WsLinkStepView) {
        (self.at(WsStage::Failed), WsLinkStepView::Fail(error))
    }

    /// With the request that opens the WebSocket.
    pub open spec fn ask(self) -> (WsLinkView, WsLinkStepView) {
        (
            self.at(WsStage::Asking),
            WsLinkStepView::Write(
                encode_utf8(handshake_request(self.target, base64(self.nonce))),
            ),
        )
    }

    /// What follows an event. What is not expected ends it.
    pub open spec fn step(self, event: WsLinkEvent) -> (WsLinkView, WsLinkStepView) {
        match (self.stage, event) {
            (WsStage::Tcp, WsLinkEvent::Opened) => if !self.target.is_tls {
                self.ask()
            } else if is_server_name(self.target.host) {
                (self.at(WsStage::Tls), WsLinkStepView::StartTls)
            } else {
                self.fail(ConnError::Other)
            },
            (WsStage::Tcp, WsLinkEvent::Refused(chain)) => self.fail(category(chain@)),
            (WsStage::Tcp, WsLinkEvent::TimedOut) => self.fail(ConnError::Timeout),
            (WsStage::Tls, WsLinkEvent::Opened) => self.ask(),
            (WsStage::Tls, WsLinkEvent::Refused(_)) => self.fail(ConnError::Tls),
            (WsStage::Tls, WsLinkEvent::TimedOut) => self.fail(ConnError::Timeout),
            (WsStage::Asking, WsLinkEvent::Written) => (
                self.at(WsStage::Listening),
                WsLinkStepView::Read,
            ),
            (WsStage::Listening, WsLinkEvent::Read(chunk)) => {
                let resp = self.resp + chunk@;
                let heard = WsLinkView { resp, ..self };
                if chunk@.len() == 0 {
                    self.fail(ConnError::Protocol)
                } else {
                    match reply_says(resp, base64(self.nonce)) {
                        None => (heard, WsLinkStepView::Read),
                        Some(true) => (heard.at(WsStage::Open), WsLinkStepView::Ready),
                        Some(false) => heard.fail(ConnError::Protocol),
                    }
                }
            },
            _ => self.fail(ConnError::Protocol),
        }
    }
}

/// Begin to open a WebSocket. There is none behind a URL of another scheme.
pub fn connect_ws(url: &str, insecure: bool) -> (link: Result<WsLink, ConnError>)
    ensures
        match link {
            Ok(l) => ws_target(url@) == Some(l@.target) && l@.insecure == insecure && l@.stage
                == WsStage::Tcp && l@.resp == Seq::<u8>::empty(),
            Err(e) => ws_target(url@) is None && e == ConnError::Other,
        },
{
    match parse_ws_url(url) {
        Some(target) => Ok(
            WsLink {
                target,
                insecure,
                nonce: random_nonce(),
                stage: WsStage::Tcp,
                resp: Vec::new(),
            },
        ),
        None => Err(ConnError::Other),
    }
}

impl WsLink {
    /// At an end without success.
    fn fail(&mut self, error: ConnError) -> (step: WsLinkStep)
        ensures
            (final(self)@, step@) == old(self)@.fail(error),
    {
        self.stage = WsStage::Failed;
        WsLinkStep::Fail(error)
    }

    /// With the request that opens the WebSocket.
    fn ask(&mut self) -> (step: WsLinkStep)
        ensures
            (final(self)@, step@) == old(self)@.ask(),
    {
        self.stage = WsStage::Asking;
        let key: String = base64_encode(self.nonce.as_slice());
        let text: String = handshake_text(&self.target, key.as_str());
        WsLinkStep::Write(slice_to_vec(text.as_str().as_bytes()))
    }

    /// What to do after an event.
    pub fn step(&mut self, event: &WsLinkEvent) -> (step: WsLinkStep)
        ensures
            (final(self)@, step@) == old(self)@.step(*event),
    {
        match (self.stage, event) {
            (WsStage::Tcp, WsLinkEvent::Opened) => {
                if !self.target.is_tls {
                    self.ask()
                } else if server_name_accepted(self.target.host.as_str()) {
                    self.stage = WsStage::Tls;
                    WsLinkStep::StartTls
                } else {
                    self.fail(ConnError::Other)
                }
            },
            (WsStage::Tcp, WsLinkEvent::Refused(chain)) => {
                let error: ConnError = classify_conn_error(chain.as_slice());
                self.fail(error)
            },
            (WsStage::Tcp, WsLinkEvent::TimedOut) => self.fail(ConnError::Timeout),
            (WsStage::Tls, WsLinkEvent::Opened) => self.ask(),
            (WsStage::Tls, WsLinkEvent::Refused(_)) => self.fail(ConnError::Tls),
            (WsStage::Tls, WsLinkEvent::TimedOut) => self.fail(ConnError::Timeout),
            (WsStage::Asking, WsLinkEvent::Written) => {
                self.stage = WsStage::Listening;
                WsLinkStep::Read
            },
            (WsStage::Listening, WsLinkEvent::Read(chunk)) => {
                if chunk.len() == 0 {
                    return self.fail(ConnError::Protocol);
                }
                self.resp.extend_from_slice(chunk.as_slice());
                assert(self.resp@ =~= old(self).resp@ + chunk@);
                let end: [u8; 4] = [13, 10, 13, 10];
                assert(end@ =~= seq![13u8, 10u8, 13u8, 10u8]);
                match find_seq(self.resp.as_slice(), end.as_slice()) {
                    None => WsLinkStep::Read,
                    Some(at) => {
                        let head: &[u8] = slice_subrange(self.resp.as_slice(), 0, at);
                        assert(head@ =~= self.resp@.take(at as int));
                        let text: String = from_utf8_lossy(head);
                        let key: String = base64_encode(self.nonce.as_slice());
                        proof {
                            base64_length(self.nonce@);
                        }
                        if check_head(text.as_str(), key.as_str()) {
                            self.stage = WsStage::Open;
                            WsLinkStep::Ready
                        } else {
                            self.fail(ConnError::Protocol)
                        }
                    },
                }
            },
            _ => self.fail(ConnError::Protocol),
        }
    }
}

// ----------------------------------------------------------------------
// Frames
// ----------------------------------------------------------------------

/// No frame may hold more than this.
pub const MAX_FRAME: u64 = 0x80_0000;

/// Every byte combined with a byte of the mask, in turns.
pub open spec fn masked(payload: Seq<u8>, mask: Seq<u8>) -> Seq<u8> {
    Seq::new(payload.len(), |i: int| payload[i] ^ mask[i % 4])
}

/// A number in so many bytes, the highest first.
pub open spec fn be_bytes(n: nat, size: nat) -> Seq<u8>
    decreases size,
{
    if size == 0 {
        seq![]
    } else {
        be_bytes(n / 0x100, (size - 1) as nat).push((n % 0x100) as u8)
    }
}

/// The number that bytes write, the highest first.
pub open spec fn be_value(bytes: Seq<u8>) -> nat
    decreases bytes.len(),
{
    if bytes.len() == 0 {
        0
    } else {
        be_value(bytes.drop_last()) * 0x100 + bytes.last() as nat
    }
}

/// How many numbers so many bytes can write.
pub open spec fn be_limit(size: nat) -> nat
    decreases size,
{
    if size == 0 {
        1
    } else {
        be_limit((size - 1) as nat) * 0x100
    }
}

/// A length, with a bit beside it that says whether there is a mask.
pub open spec fn length_field(len: nat, mask_bit: u8) -> Seq<u8> {
    if len < 126 {
        seq![mask_bit | (len as u8)]
    } else if len <= 0xffff {
        seq![mask_bit | 126u8] + be_bytes(len, 2)
    } else {
        seq![mask_bit | 127u8] + be_bytes(len, 8)
    }
}

/// A frame, with or without a mask: the last one of a message, or one that
/// others follow.
pub open spec fn frame_part(
    fin: bool,
    opcode: u8,
    payload: Seq<u8>,
    mask: Option<Seq<u8>>,
) -> Seq<u8> {
    let first = if fin {
        0x80u8 | opcode
    } else {
        opcode
    };
    match mask {
        Some(m) => seq![first] + length_field(payload.len(), 0x80) + m + masked(payload, m),
        None => seq![first] + length_field(payload.len(), 0) + payload,
    }
}

/// The last frame of a message, with or without a mask.
pub open spec fn frame(opcode: u8, payload: Seq<u8>, mask: Option<Seq<u8>>) -> Seq<u8> {
    frame_part(true, opcode, payload, mask)
}

/// What stands at the beginning of a stream of frames.
pub enum FrameView {
    /// A frame that is not complete yet.
    More,
    /// A frame that is too large.
    TooLarge,
    /// A frame of so many bytes.
    Frame { fin: bool, opcode: u8, payload: Seq<u8>, size: int },
}

/// How many bytes follow the first two to write the length.
pub open spec fn length_size(code: u8) -> int {
    if code == 126 {
        2
    } else if code == 127 {
        8
    } else {
        0
    }
}

/// The frame at the beginning of a stream.
pub open spec fn frame_at(s: Seq<u8>) -> FrameView {
    let code = s[1] & 0x7f;
    let more = length_size(code);
    let len = if more == 0 {
        code as nat
    } else {
        be_value(s.subrange(2, 2 + more))
    };
    let has_mask = s[1] & 0x80 != 0;
    let start = 2 + more + (if has_mask {
        4int
    } else {
        0
    });
    if s.len() < 2 || s.len() < 2 + more {
        FrameView::More
    } else if len > MAX_FRAME {
        FrameView::TooLarge
    } else if s.len() < start + len {
        FrameView::More
    } else {
        let raw = s.subrange(start, start + len);
        FrameView::Frame {
            fin: s[0] & 0x80 != 0,
            opcode: s[0] & 0x0f,
            payload: if has_mask {
                masked(raw, s.subrange(2 + more, start))
            } else {
                raw
            },
            size: start + len,
        }
    }
}

/// What came of reading a frame.
#[derive(Debug)]
pub enum FrameRead {
    More,
    TooLarge,
    Frame { fin: bool, opcode: u8, payload: Vec<u8>, size: usize },
}

impl View for FrameRead {
    type V = FrameView;

    open spec fn view(&self) -> FrameView {
        match self {
            FrameRead::More => FrameView::More,
            FrameRead::TooLarge => FrameView::TooLarge,
            FrameRead::Frame { fin, opcode, payload, size } => FrameView::Frame {
                fin: *fin,
                opcode: *opcode,
                payload: payload@,
                size: *size as int,
            },
        }
    }
}

/// Every byte combined with a byte of the mask, in turns.
fn apply_mask(payload: &[u8], mask: &[u8]) -> (r: Vec<u8>)
    requires
        mask@.len() == 4,
    ensures
        r@ == masked(payload@, mask@),
{
    let mut r: Vec<u8> = Vec::new();
    for i in 0..payload.len()
        invariant
            mask@.len() == 4,
            r@ == masked(payload@, mask@).take(i as int),
    {
        r.push(payload[i] ^ mask[i % 4]);
        assert(r@ =~= masked(payload@, mask@).take(i as int + 1));
    }
    assert(r@ =~= masked(payload@, mask@));
    r
}

/// Write a number in so many bytes, the highest first.
fn push_be(out: &mut Vec<u8>, n: u64, size: usize)
    ensures
        final(out)@ == old(out)@ + be_bytes(n as nat, size as nat),
    decreases size,
{
    if size > 0 {
        push_be(out, n / 0x100, size - 1);
        out.push((n % 0x100) as u8);
    }
    assert(out@ =~= old(out)@ + be_bytes(n as nat, size as nat));
}

/// The number that at most eight bytes write, the highest first.
fn read_be(bytes: &[u8]) -> (n: u64)
    requires
        bytes@.len() <= 8,
    ensures
        n == be_value(bytes@),
{
    let mut n: u64 = 0;
    proof {
        reveal_with_fuel(be_limit, 9);
    }
    assert(bytes@.take(0) =~= seq![]);
    for i in 0..bytes.len()
        invariant
            bytes@.len() <= 8,
            n == be_value(bytes@.take(i as int)),
            n < be_limit(i as nat),
            be_limit(7) == 0x100_0000_0000_0000,
            forall|k: nat| k <= 7 ==> #[trigger] be_limit(k) <= be_limit(7),
    {
        assert(bytes@.take(i as int + 1).drop_last() =~= bytes@.take(i as int));
        assert(be_limit((i + 1) as nat) == be_limit(i as nat) * 0x100);
        n = n * 0x100 + bytes[i] as u64;
    }
    assert(bytes@.take(bytes@.len() as int) =~= bytes@);
    n
}

/// A frame with a mask.
pub fn encode_frame(opcode: u8, payload: &[u8], mask: [u8; 4]) -> (bytes: Vec<u8>)
    ensures
        bytes@ == frame(opcode, payload@, Some(mask@)),
{
    let mut out: Vec<u8> = Vec::new();
    out.push(0x80 | opcode);
    let len: usize = payload.len();
    if len < 126 {
        out.push(0x80 | len as u8);
    } else if len <= 0xffff {
        out.push(0x80 | 126);
        push_be(&mut out, len as u64, 2);
    } else {
        out.push(0x80 | 127);
        push_be(&mut out, len as u64, 8);
    }
    assert(out@ =~= seq![0x80u8 | opcode] + length_field(len as nat, 0x80));
    let body: Vec<u8> = apply_mask(payload, mask.as_slice());
    out.extend_from_slice(mask.as_slice());
    out.extend_from_slice(body.as_slice());
    assert(out@ =~= frame(opcode, payload@, Some(mask@)));
    out
}

/// A frame with a mask by chance, as a client sends it.
pub fn send_frame(opcode: u8, payload: &[u8]) -> (bytes: Vec<u8>)
    ensures
        exists|mask: [u8; 4]| bytes@ == #[trigger] frame(opcode, payload@, Some(mask@)),
{
    encode_frame(opcode, payload, random_mask())
}

/// Read the frame at the beginning of a stream.
pub fn read_frame(s: &[u8]) -> (read: FrameRead)
    ensures
        read@ == frame_at(s@),
{
    let total: usize = s.len();
    if total < 2 {
        return FrameRead::More;
    }
    let code: u8 = s[1] & 0x7f;
    let more: usize = if code == 126 {
        2
    } else if code == 127 {
        8
    } else {
        0
    };
    if total < 2 + more {
        return FrameRead::More;
    }
    let len: u64 = if more == 0 {
        code as u64
    } else {
        read_be(slice_subrange(s, 2, 2 + more))
    };
    if len > MAX_FRAME {
        return FrameRead::TooLarge;
    }
    let has_mask: bool = s[1] & 0x80 != 0;
    let start: usize = if has_mask {
        2 + more + 4
    } else {
        2 + more
    };
    if total < start + len as usize {
        return FrameRead::More;
    }
    let size: usize = start + len as usize;
    let raw: &[u8] = slice_subrange(s, start, size);
    let payload: Vec<u8> = if has_mask {
        apply_mask(raw, slice_subrange(s, 2 + more, start))
    } else {
        slice_to_vec(raw)
    };
    FrameRead::Frame { fin: s[0] & 0x80 != 0, opcode: s[0] & 0x0f, payload, size }
}

// ----------------------------------------------------------------------
// Messages
// ----------------------------------------------------------------------

/// What has come on a WebSocket and was not handed out yet.
#[derive(Debug)]
pub struct Inbox {
    /// Whether a message has begun that is not complete yet.
    pub begun: bool,
    /// The frames so far of a message that is not complete yet.
    pub message: Vec<u8>,
    /// The bytes that follow them.
    pub buf: Vec<u8>,
}

/// What an `Inbox` holds.
pub struct InboxView {
    pub begun: bool,
    pub message: Seq<u8>,
    pub buf: Seq<u8>,
}

impl View for Inbox {
    type V = InboxView;

    open spec fn view(&self) -> InboxView {
        InboxView { begun: self.begun, message: self.message@, buf: self.buf@ }
    }
}

/// What came of waiting for a message.
#[derive(Debug)]
pub enum Received {
    /// More bytes are needed.
    More,
    /// A frame is too large.
    TooLarge,
    /// A message is complete.
    Message(Vec<u8>),
    /// The other side has closed the WebSocket.
    Closed,
    /// The other side asked for this answer.
    Pong(Vec<u8>),
}

/// What a `Received` holds.
pub enum ReceivedView {
    More,
    TooLarge,
    Message(Seq<u8>),
    Closed,
    Pong(Seq<u8>),
}

impl View for Received {
    type V = ReceivedView;

    open spec fn view(&self) -> ReceivedView {
        match self {
            Received::More => ReceivedView::More,
            Received::TooLarge => ReceivedView::TooLarge,
            Received::Message(m) => ReceivedView::Message(m@),
            Received::Closed => ReceivedView::Closed,
            Received::Pong(f) => ReceivedView::Pong(f@),
        }
    }
}

/// Read frames until there is a complete message, or something else to do.
/// Text and binary frames and those that continue them make up the message,
/// which is complete with the frame that says it is the last; a close ends the
/// WebSocket, a ping gets the same payload back under this mask, and anything
/// else is skipped, also a continuation where no message has begun.
pub open spec fn receive(inbox: InboxView, mask: Seq<u8>) -> (InboxView, ReceivedView)
    decreases inbox.buf.len(),
{
    match frame_at(inbox.buf) {
        FrameView::More => (inbox, ReceivedView::More),
        FrameView::TooLarge => (inbox, ReceivedView::TooLarge),
        FrameView::Frame { fin, opcode, payload, size } => {
            let rest = inbox.buf.skip(size);
            if !(0 < size <= inbox.buf.len()) {
                (inbox, ReceivedView::More)
            } else if opcode == 1 || opcode == 2 || (opcode == 0 && inbox.begun) {
                let message = inbox.message + payload;
                if fin {
                    (
                        InboxView { begun: false, message: seq![], buf: rest },
                        ReceivedView::Message(message),
                    )
                } else {
                    receive(InboxView { begun: true, message, buf: rest }, mask)
                }
            } else if opcode == 8 {
                (InboxView { buf: rest, ..inbox }, ReceivedView::Closed)
            } else if opcode == 9 {
                (
                    InboxView { buf: rest, ..inbox },
                    ReceivedView::Pong(frame(10, payload, Some(mask))),
                )
            } else {
                receive(InboxView { buf: rest, ..inbox }, mask)
            }
        },
    }
}

impl Inbox {
    /// Nothing has come.
    pub fn new() -> (inbox: Inbox)
        ensures
            inbox@ == (InboxView { begun: false, message: seq![], buf: seq![] }),
    {
        let inbox: Inbox = Inbox { begun: false, message: Vec::new(), buf: Vec::new() };
        assert(inbox.message@ =~= seq![] && inbox.buf@ =~= seq![]);
        inbox
    }

    /// More bytes have come.
    pub fn push(&mut self, chunk: &[u8])
        ensures
            final(self)@ == (InboxView { buf: old(self)@.buf + chunk@, ..old(self)@ }),
    {
        self.buf.extend_from_slice(chunk);
        assert(self.buf@ =~= old(self).buf@ + chunk@);
    }

    /// Wait for a message. A ping is answered under this mask.
    pub fn recv_message_at(&mut self, mask: [u8; 4]) -> (received: Received)
        ensures
            (final(self)@, received@) == receive(old(self)@, mask@),
    {
        loop
            invariant
                receive(self@, mask@) == receive(old(self)@, mask@),
            decreases self.buf@.len(),
        {
            match read_frame(self.buf.as_slice()) {
                FrameRead::More => {
                    return Received::More;
                },
                FrameRead::TooLarge => {
                    return Received::TooLarge;
                },
                FrameRead::Frame { fin, opcode, mut payload, size } => {
                    let ghost before = self@;
                    let rest: Vec<u8> = slice_to_vec(
                        slice_subrange(self.buf.as_slice(), size, self.buf.len()),
                    );
                    assert(rest@ =~= self.buf@.skip(size as int));
                    self.buf = rest;
                    if opcode == 1 || opcode == 2 || (opcode == 0 && self.begun) {
                        let ghost part = payload@;
                        self.message.append(&mut payload);
                        assert(self.message@ =~= before.message + part);
                        self.begun = !fin;
                        if fin {
                            let mut message: Vec<u8> = Vec::new();
                            std::mem::swap(&mut message, &mut self.message);
                            assert(self.message@ =~= seq![]);
                            return Received::Message(message);
                        }
                    } else if opcode == 8 {
                        return Received::Closed;
                    } else if opcode == 9 {
                        return Received::Pong(encode_frame(10, payload.as_slice(), mask));
                    }
                },
            }
        }
    }

    /// Wait for a message. A ping is answered under a mask by chance.
    pub fn recv_message(&mut self) -> (received: Received)
        ensures
            exists|mask: [u8; 4]|
                (final(self)@, received@) == #[trigger] receive(old(self)@, mask@),
    {
        self.recv_message_at(random_mask())
    }
}

// ----------------------------------------------------------------------
// Laws of frames
// ----------------------------------------------------------------------

/// To apply a mask twice is to apply none.
pub proof fn masking_undoes_itself(payload: Seq<u8>, mask: Seq<u8>)
    requires
        mask.len() == 4,
    ensures
        masked(masked(payload, mask), mask) == payload,
{
    assert forall|i: int| 0 <= i < payload.len() implies masked(masked(payload, mask), mask)[i]
        == payload[i] by {
        let (a, b) = (payload[i], mask[i % 4]);
        assert((a ^ b) ^ b == a) by (bit_vector);
    }
    assert(masked(masked(payload, mask), mask) =~= payload);
}

proof fn be_bytes_read_back(n: nat, size: nat)
    requires
        n < be_limit(size),
    ensures
        be_bytes(n, size).len() == size,
        be_value(be_bytes(n, size)) == n,
    decreases size,
{
    if size > 0 {
        be_bytes_read_back(n / 0x100, (size - 1) as nat);
        assert(be_bytes(n, size).drop_last() =~= be_bytes(n / 0x100, (size - 1) as nat));
    }
}

proof fn length_reads_back(len: nat, mask_bit: u8)
    requires
        len <= MAX_FRAME,
        mask_bit == 0 || mask_bit == 0x80,
    ensures
        ({
            let field = length_field(len, mask_bit);
            let code = field[0] & 0x7f;
            &&& field.len() == 1 + length_size(code)
            &&& (field[0] & 0x80 != 0) == (mask_bit == 0x80)
            &&& length_size(code) == 0 ==> code == len
            &&& length_size(code) > 0 ==> be_value(field.skip(1)) == len
        }),
{
    let small = len as u8;
    assert((0x80u8 | 126u8) & 0x7f == 126 && (0u8 | 126u8) & 0x7f == 126 && (0x80u8 | 127u8) & 0x7f
        == 127 && (0u8 | 127u8) & 0x7f == 127) by (bit_vector);
    assert((0x80u8 | 126u8) & 0x80 != 0 && (0u8 | 126u8) & 0x80 == 0 && (0x80u8 | 127u8) & 0x80 != 0
        && (0u8 | 127u8) & 0x80 == 0) by (bit_vector);
    reveal_with_fuel(be_limit, 9);
    if len < 126 {
        assert((0x80u8 | small) & 0x7f == small && (0u8 | small) & 0x7f == small && (0x80u8 | small)
            & 0x80 != 0 && (0u8 | small) & 0x80 == 0) by (bit_vector)
            requires
                small < 126,
        ;
    } else if len <= 0xffff {
        be_bytes_read_back(len, 2);
        assert(length_field(len, mask_bit).skip(1) =~= be_bytes(len, 2));
    } else {
        be_bytes_read_back(len, 8);
        assert(length_field(len, mask_bit).skip(1) =~= be_bytes(len, 8));
    }
}

/// A frame that is not too large is read back as it was written, with or
/// without a mask, whether or not it is the last of its message, and whatever
/// follows it.
pub proof fn part_reads_back(
    fin: bool,
    opcode: u8,
    payload: Seq<u8>,
    mask: Option<Seq<u8>>,
    rest: Seq<u8>,
)
    requires
        opcode < 16,
        payload.len() <= MAX_FRAME,
        mask matches Some(m) ==> m.len() == 4,
    ensures
        frame_at(frame_part(fin, opcode, payload, mask) + rest) == (FrameView::Frame {
            fin,
            opcode,
            payload,
            size: frame_part(fin, opcode, payload, mask).len() as int,
        }),
{
    let bit = if mask is Some {
        0x80u8
    } else {
        0u8
    };
    let field = length_field(payload.len(), bit);
    let one = frame_part(fin, opcode, payload, mask);
    let s = one + rest;
    length_reads_back(payload.len(), bit);
    assert((0x80u8 | opcode) & 0x80 != 0 && (0x80u8 | opcode) & 0x0f == opcode && opcode & 0x80
        == 0 && opcode & 0x0f == opcode) by (bit_vector)
        requires
            opcode < 16,
    ;
    assert(s[0] == if fin {
        0x80u8 | opcode
    } else {
        opcode
    });
    assert(s[1] == field[0]);
    let code = s[1] & 0x7f;
    let more = length_size(code);
    if more > 0 {
        assert(s.subrange(2, 2 + more) =~= field.skip(1));
    }
    match mask {
        Some(m) => {
            let start = 2 + more + 4;
            assert(s.subrange(2 + more, start) =~= m);
            assert(s.subrange(start, start + payload.len()) =~= masked(payload, m));
            masking_undoes_itself(payload, m);
            assert(one.len() == start + payload.len());
        },
        None => {
            let start = 2 + more;
            assert(s.subrange(start, start + payload.len()) =~= payload);
            assert(one.len() == start + payload.len());
        },
    }
}

/// A message that is sent in one frame is received as it was, and what
/// follows it is kept for later.
pub proof fn message_is_received(
    opcode: u8,
    payload: Seq<u8>,
    mask: Option<Seq<u8>>,
    rest: Seq<u8>,
    pong_mask: Seq<u8>,
)
    requires
        opcode == 1 || opcode == 2,
        payload.len() <= MAX_FRAME,
        mask matches Some(m) ==> m.len() == 4,
    ensures
        receive(
            InboxView { begun: false, message: seq![], buf: frame(opcode, payload, mask) + rest },
            pong_mask,
        ) == (
            InboxView { begun: false, message: seq![], buf: rest },
            ReceivedView::Message(payload),
        ),
{
    let one = frame(opcode, payload, mask);
    part_reads_back(true, opcode, payload, mask, rest);
    assert((one + rest).skip(one.len() as int) =~= rest);
    assert(Seq::<u8>::empty() + payload =~= payload);
}

/// The parts of a message put together.
pub open spec fn joined(parts: Seq<Seq<u8>>) -> Seq<u8>
    decreases parts.len(),
{
    if parts.len() == 0 {
        seq![]
    } else {
        parts[0] + joined(parts.skip(1))
    }
}

/// The frames that carry a message in parts, each with or without a mask: the
/// first under this opcode, the later ones as continuations, and the last one
/// marked as such.
pub open spec fn fragments(
    opcode: u8,
    parts: Seq<Seq<u8>>,
    masks: Seq<Option<Seq<u8>>>,
) -> Seq<u8>
    decreases parts.len(),
{
    if parts.len() == 0 {
        seq![]
    } else {
        frame_part(parts.len() == 1, opcode, parts[0], masks[0]) + fragments(
            0,
            parts.skip(1),
            masks.skip(1),
        )
    }
}

/// A message that is sent in several frames is received as one, and what
/// follows it is kept for later.
pub proof fn fragments_make_one_message(
    begun: bool,
    message: Seq<u8>,
    opcode: u8,
    parts: Seq<Seq<u8>>,
    masks: Seq<Option<Seq<u8>>>,
    rest: Seq<u8>,
    pong_mask: Seq<u8>,
)
    requires
        opcode == 1 || opcode == 2 || (opcode == 0 && begun),
        parts.len() > 0,
        masks.len() == parts.len(),
        forall|i: int| 0 <= i < parts.len() ==> (#[trigger] parts[i]).len() <= MAX_FRAME,
        forall|i: int|
            0 <= i < masks.len() ==> ((#[trigger] masks[i]) matches Some(m) ==> m.len() == 4),
    ensures
        receive(
            InboxView { begun, message, buf: fragments(opcode, parts, masks) + rest },
            pong_mask,
        ) == (
            InboxView { begun: false, message: seq![], buf: rest },
            ReceivedView::Message(message + joined(parts)),
        ),
    decreases parts.len(),
{
    let fin = parts.len() == 1;
    let one = frame_part(fin, opcode, parts[0], masks[0]);
    let later = fragments(0, parts.skip(1), masks.skip(1)) + rest;
    part_reads_back(fin, opcode, parts[0], masks[0], later);
    assert(fragments(opcode, parts, masks) + rest =~= one + later);
    assert((one + later).skip(one.len() as int) =~= later);
    if fin {
        assert(later =~= rest);
        assert(parts[0] + joined(parts.skip(1)) =~= parts[0]);
    } else {
        assert((message + parts[0]) + joined(parts.skip(1)) =~= message + joined(parts));
        fragments_make_one_message(
            true,
            message + parts[0],
            0,
            parts.skip(1),
            masks.skip(1),
            rest,
            pong_mask,
        );
    }
}

/// A ping is answered with a pong of the same payload, and does not disturb
/// the message that is being received.
pub proof fn ping_is_answered(
    begun: bool,
    message: Seq<u8>,
    payload: Seq<u8>,
    mask: Option<Seq<u8>>,
    rest: Seq<u8>,
    pong_mask: Seq<u8>,
)
    requires
        payload.len() <= MAX_FRAME,
        mask matches Some(m) ==> m.len() == 4,
    ensures
        receive(InboxView { begun, message, buf: frame(9, payload, mask) + rest }, pong_mask) == (
            InboxView { begun, message, buf: rest },
            ReceivedView::Pong(frame(10, payload, Some(pong_mask))),
        ),
{
    let one = frame(9, payload, mask);
    part_reads_back(true, 9, payload, mask, rest);
    assert((one + rest).skip(one.len() as int) =~= rest);
}

/// A pong is ignored.
pub proof fn pong_is_ignored(
    begun: bool,
    message: Seq<u8>,
    payload: Seq<u8>,
    mask: Option<Seq<u8>>,
    rest: Seq<u8>,
    pong_mask: Seq<u8>,
)
    requires
        payload.len() <= MAX_FRAME,
        mask matches Some(m) ==> m.len() == 4,
    ensures
        receive(InboxView { begun, message, buf: frame(10, payload, mask) + rest }, pong_mask)
            == receive(InboxView { begun, message, buf: rest }, pong_mask),
{
    let one = frame(10, payload, mask);
    part_reads_back(true, 10, payload, mask, rest);
    assert((one + rest).skip(one.len() as int) =~= rest);
}

/// A continuation is ignored where no message has begun.
pub proof fn stray_continuation_is_ignored(
    fin: bool,
    payload: Seq<u8>,
    mask: Option<Seq<u8>>,
    rest: Seq<u8>,
    pong_mask: Seq<u8>,
)
    requires
        payload.len() <= MAX_FRAME,
        mask matches Some(m) ==> m.len() == 4,
    ensures
        receive(
            InboxView {
                begun: false,
                message: seq![],
                buf: frame_part(fin, 0, payload, mask) + rest,
            },
            pong_mask,
        ) == receive(InboxView { begun: false, message: seq![], buf: rest }, pong_mask),
{
    let one = frame_part(fin, 0, payload, mask);
    part_reads_back(fin, 0, payload, mask, rest);
    assert((one + rest).skip(one.len() as int) =~= rest);
}

/// A frame that is complete stays what it is when more bytes come.
pub proof fn frame_stays(s: Seq<u8>, more: Seq<u8>)
    requires
        !(frame_at(s) is More),
    ensures
        frame_at(s + more) == frame_at(s),
{
    let all = s + more;
    let size = length_size(s[1] & 0x7f);
    assert(all.subrange(2, 2 + size) =~= s.subrange(2, 2 + size));
    if let FrameView::Frame { size: total, .. } = frame_at(s) {
        let start = 2 + size + (if s[1] & 0x80 != 0 {
            4int
        } else {
            0
        });
        assert(all.subrange(start, total) =~= s.subrange(start, total));
        assert(all.subrange(2 + size, start) =~= s.subrange(2 + size, start));
    }
}

/// What is received does not depend on how the bytes were cut: what was there
/// already is read as it would have been, and reading goes on with what comes
/// later.
pub proof fn cuts_do_not_matter(inbox: InboxView, chunk: Seq<u8>, mask: Seq<u8>)
    ensures
        ({
            let (after, got) = receive(inbox, mask);
            let all = InboxView { buf: inbox.buf + chunk, ..inbox };
            let rest = InboxView { buf: after.buf + chunk, ..after };
            if got is More {
                receive(all, mask) == receive(rest, mask)
            } else {
                receive(all, mask) == (rest, got)
            }
        }),
    decreases inbox.buf.len(),
{
    if !(frame_at(inbox.buf) is More) {
        frame_stays(inbox.buf, chunk);
        if let FrameView::Frame { fin, opcode, payload, size } = frame_at(inbox.buf) {
            assert((inbox.buf + chunk).skip(size) =~= inbox.buf.skip(size) + chunk);
            let buf = inbox.buf.skip(size);
            if opcode == 1 || opcode == 2 || (opcode == 0 && inbox.begun) {
                if !fin {
                    cuts_do_not_matter(
                        InboxView { begun: true, message: inbox.message + payload, buf },
                        chunk,
                        mask,
                    );
                }
            } else if opcode != 8 && opcode != 9 {
                cuts_do_not_matter(InboxView { buf, ..inbox }, chunk, mask);
            }
        }
    }
}

// ----------------------------------------------------------------------
// Virtual users
// ----------------------------------------------------------------------

/// What a virtual user does on a WebSocket.
#[derive(Clone, Copy, Debug, PartialEq, Eq, Structural)]
pub enum WsMode {
    /// Send one message, wait for one reply, measure the time between them.
    Echo,
    /// Send as fast as possible and wait for no reply.
    Send,
    /// Count incoming messages, after sending one to subscribe if there is
    /// one.
    Recv,
}

/// A WebSocket to exchange messages on.
#[derive(Debug)]
pub struct WsConfig {
    pub url: String,
    pub message: Vec<u8>,
    pub mode: WsMode,
    /// The pause before each message, in seconds.
    pub send_interval: Real,
}

/// What a `WsConfig` holds.
pub struct WsView {
    pub url: Seq<char>,
    pub message: Seq<u8>,
    pub mode: WsMode,
    pub send_interval: Real,
}

impl View for WsConfig {
    type V = WsView;

    open spec fn view(&self) -> WsView {
        WsView {
            url: self.url@,
            message: self.message@,
            mode: self.mode,
            send_interval: self.send_interval,
        }
    }
}

/// Where a virtual user is.
#[derive(Clone, Copy, Debug, PartialEq, Eq, Structural)]
pub enum WsPhase {
    /// Before its share of the ramp-up has passed.
    Ramping,
    /// Before the first WebSocket.
    Starting,
    /// Between WebSockets.
    Deciding,
    /// Opening a WebSocket.
    Connecting,
    /// After a WebSocket that did not open.
    Resting,
    /// After sending the message that subscribes.
    Subscribing,
    /// Between rounds.
    Turning,
    /// In the pause before a message.
    Pausing,
    /// After sending a message.
    Sending,
    /// Waiting for a message.
    Receiving,
    Done,
}

/// What a virtual user learns.
#[derive(Clone, Copy, Debug, PartialEq, Eq, Structural)]
pub enum WsEvent {
    /// What it asked for has been done.
    Resume,
    /// Whether the end is still ahead.
    Clock(bool),
    /// The WebSocket is open, or why it is not.
    Connected(Option<ConnError>),
    /// Whether the message has been written.
    Sent(bool),
    /// A message of so many bytes has come, so long after the last one was
    /// sent.
    Received { bytes: usize, after_us: u64 },
    /// No message will come.
    Lost,
}

/// What a virtual user asks for.
#[derive(Debug)]
pub enum WsAction {
    /// Wait for its share of the ramp-up.
    RampUp,
    /// Tell the time.
    AskClock,
    /// Open a WebSocket.
    Connect,
    /// Wait for 20 milliseconds.
    Rest,
    /// Wait for the pause between messages.
    Pause,
    /// Write this.
    Send(Vec<u8>),
    /// Wait for a message.
    Receive,
    /// Nothing more.
    Stop,
}

/// What a `WsAction` holds.
pub enum WsActionView {
    RampUp,
    AskClock,
    Connect,
    Rest,
    Pause,
    Send(Seq<u8>),
    Receive,
    Stop,
}

impl View for WsAction {
    type V = WsActionView;

    open spec fn view(&self) -> WsActionView {
        match self {
            WsAction::RampUp => WsActionView::RampUp,
            WsAction::AskClock => WsActionView::AskClock,
            WsAction::Connect => WsActionView::Connect,
            WsAction::Rest => WsActionView::Rest,
            WsAction::Pause => WsActionView::Pause,
            WsAction::Send(bytes) => WsActionView::Send(bytes@),
            WsAction::Receive => WsActionView::Receive,
            WsAction::Stop => WsActionView::Stop,
        }
    }
}

/// A message that counts as a request on its own.
pub open spec fn counted_message(at_secs: u64, bytes: u64) -> Recorded {
    Recorded::Request {
        at_secs,
        latency_us: 0,
        status: 101,
        bytes,
        is_success: true,
        error: None,
    }
}

/// A virtual user that exchanges messages.
#[derive(Clone, Copy, Debug)]
pub struct WsVu {
    pub index: u32,
    pub phase: WsPhase,
}

impl WsVu {
    /// In another phase, asking for this.
    pub open spec fn then_ask(
        self,
        phase: WsPhase,
        action: WsActionView,
    ) -> (WsVu, WsActionView) {
        (WsVu { phase, ..self }, action)
    }

    /// With the message sent in a text frame.
    pub open spec fn then_send(
        self,
        phase: WsPhase,
        ws: WsView,
        mask: Seq<u8>,
    ) -> (WsVu, WsActionView) {
        self.then_ask(phase, WsActionView::Send(frame(1, ws.message, Some(mask))))
    }

    /// What follows an event. What is not expected ends it.
    pub open spec fn after(self, ws: WsView, event: WsEvent, mask: Seq<u8>) -> (
        WsVu,
        WsActionView,
    ) {
        match (self.phase, event) {
            (WsPhase::Ramping, WsEvent::Resume) => self.then_ask(
                WsPhase::Starting,
                WsActionView::RampUp,
            ),
            (WsPhase::Starting, WsEvent::Resume) => self.then_ask(
                WsPhase::Deciding,
                WsActionView::AskClock,
            ),
            (WsPhase::Deciding, WsEvent::Clock(true)) => self.then_ask(
                WsPhase::Connecting,
                WsActionView::Connect,
            ),
            (WsPhase::Connecting, WsEvent::Connected(Some(_))) => self.then_ask(
                WsPhase::Resting,
                WsActionView::Rest,
            ),
            (WsPhase::Resting, WsEvent::Resume) => self.then_ask(
                WsPhase::Deciding,
                WsActionView::AskClock,
            ),
            (WsPhase::Connecting, WsEvent::Connected(None)) => if ws.mode == WsMode::Recv
                && ws.message.len() > 0 {
                self.then_send(WsPhase::Subscribing, ws, mask)
            } else {
                self.then_ask(WsPhase::Turning, WsActionView::AskClock)
            },
            (WsPhase::Subscribing, WsEvent::Sent(true)) => self.then_ask(
                WsPhase::Turning,
                WsActionView::AskClock,
            ),
            (WsPhase::Turning, WsEvent::Clock(true)) => match ws.mode {
                WsMode::Echo => self.then_send(WsPhase::Sending, ws, mask),
                WsMode::Send => self.then_ask(WsPhase::Pausing, WsActionView::Pause),
                WsMode::Recv => self.then_ask(WsPhase::Receiving, WsActionView::Receive),
            },
            (WsPhase::Pausing, WsEvent::Resume) => self.then_send(WsPhase::Sending, ws, mask),
            (WsPhase::Sending, WsEvent::Sent(true)) => if ws.mode == WsMode::Echo {
                self.then_ask(WsPhase::Receiving, WsActionView::Receive)
            } else {
                self.then_ask(WsPhase::Turning, WsActionView::AskClock)
            },
            (WsPhase::Receiving, WsEvent::Received { .. }) => self.then_ask(
                WsPhase::Turning,
                WsActionView::AskClock,
            ),
            (WsPhase::Turning, WsEvent::Clock(false)) => self.then_ask(
                WsPhase::Deciding,
                WsActionView::AskClock,
            ),
            (WsPhase::Subscribing, WsEvent::Sent(false)) => self.then_ask(
                WsPhase::Deciding,
                WsActionView::AskClock,
            ),
            (WsPhase::Sending, WsEvent::Sent(false)) => self.then_ask(
                WsPhase::Deciding,
                WsActionView::AskClock,
            ),
            (WsPhase::Receiving, WsEvent::Lost) => self.then_ask(
                WsPhase::Deciding,
                WsActionView::AskClock,
            ),
            _ => self.then_ask(WsPhase::Done, WsActionView::Stop),
        }
    }

    /// What an event adds to the metrics. A WebSocket that did not open is a
    /// failure. An echo counts toward the total when its message has been
    /// sent; its reply makes it a success, with the status 101, the time
    /// between the two and the bytes of both. Otherwise each message counts as
    /// one request with the status 101.
    pub open spec fn recording(self, ws: WsView, event: WsEvent, at_secs: u64) -> Option<
        Recorded,
    > {
        match (self.phase, event) {
            (WsPhase::Connecting, WsEvent::Connected(Some(e))) => Some(
                Recorded::ConnFailure { at_secs, cause: e },
            ),
            (WsPhase::Sending, WsEvent::Sent(true)) => if ws.mode == WsMode::Echo {
                Some(Recorded::Sent { at_secs })
            } else {
                Some(counted_message(at_secs, ws.message.len() as u64))
            },
            (WsPhase::Receiving, WsEvent::Received { bytes, after_us }) => if ws.mode
                == WsMode::Echo {
                Some(
                    Recorded::Reply {
                        at_secs,
                        latency_us: after_us,
                        status: 101,
                        bytes: wadd(ws.message.len() as u64, bytes as u64),
                    },
                )
            } else {
                Some(counted_message(at_secs, bytes as u64))
            },
            _ => None,
        }
    }

    /// The metrics after an event.
    pub open spec fn recorded(
        self,
        ws: WsView,
        event: WsEvent,
        m: MetricsView,
        at_secs: u64,
    ) -> MetricsView {
        match self.recording(ws, event, at_secs) {
            Some(r) => after_one(m, r),
            None => m,
        }
    }

    /// With the message sent in a text frame.
    fn send(&mut self, phase: WsPhase, ws: &WsConfig, mask: [u8; 4]) -> (action: WsAction)
        ensures
            (*final(self), action@) == old(self).then_send(phase, ws@, mask@),
    {
        self.phase = phase;
        WsAction::Send(encode_frame(1, ws.message.as_slice(), mask))
    }

    /// What a virtual user does after an event. The mask is for the message
    /// that it may send.
    pub fn step_at(
        &mut self,
        ws: &WsConfig,
        event: WsEvent,
        mask: [u8; 4],
        metrics: &mut Metrics,
        at_secs: u64,
    ) -> (action: WsAction)
        requires
            old(metrics)@.wf(),
        ensures
            (*final(self), action@) == old(self).after(ws@, event, mask@),
            final(metrics)@ == old(self).recorded(ws@, event, old(metrics)@, at_secs),
            final(metrics)@.wf(),
    {
        let echo: bool = match ws.mode {
            WsMode::Echo => true,
            _ => false,
        };
        match (self.phase, event) {
            (WsPhase::Ramping, WsEvent::Resume) => {
                self.phase = WsPhase::Starting;
                WsAction::RampUp
            },
            (WsPhase::Starting, WsEvent::Resume) => {
                self.phase = WsPhase::Deciding;
                WsAction::AskClock
            },
            (WsPhase::Deciding, WsEvent::Clock(true)) => {
                self.phase = WsPhase::Connecting;
                WsAction::Connect
            },
            (WsPhase::Connecting, WsEvent::Connected(Some(e))) => {
                metrics.record_conn_error(at_secs, e);
                self.phase = WsPhase::Resting;
                WsAction::Rest
            },
            (WsPhase::Resting, WsEvent::Resume) => {
                self.phase = WsPhase::Deciding;
                WsAction::AskClock
            },
            (WsPhase::Connecting, WsEvent::Connected(None)) => {
                let listens: bool = match ws.mode {
                    WsMode::Recv => true,
                    _ => false,
                };
                if listens && ws.message.len() > 0 {
                    self.send(WsPhase::Subscribing, ws, mask)
                } else {
                    self.phase = WsPhase::Turning;
                    WsAction::AskClock
                }
            },
            (WsPhase::Subscribing, WsEvent::Sent(true)) => {
                self.phase = WsPhase::Turning;
                WsAction::AskClock
            },
            (WsPhase::Turning, WsEvent::Clock(true)) => match ws.mode {
                WsMode::Echo => self.send(WsPhase::Sending, ws, mask),
                WsMode::Send => {
                    self.phase = WsPhase::Pausing;
                    WsAction::Pause
                },
                WsMode::Recv => {
                    self.phase = WsPhase::Receiving;
                    WsAction::Receive
                },
            },
            (WsPhase::Pausing, WsEvent::Resume) => self.send(WsPhase::Sending, ws, mask),
            (WsPhase::Sending, WsEvent::Sent(true)) => {
                if echo {
                    metrics.record_sent(at_secs);
                    self.phase = WsPhase::Receiving;
                    WsAction::Receive
                } else {
                    metrics.record(at_secs, 0, 101, ws.message.len() as u64, true, None);
                    self.phase = WsPhase::Turning;
                    WsAction::AskClock
                }
            },
            (WsPhase::Receiving, WsEvent::Received { bytes, after_us }) => {
                if echo {
                    let both: u64 = (ws.message.len() as u64).wrapping_add(bytes as u64);
                    metrics.record_reply(at_secs, after_us, 101, both);
                } else {
                    metrics.record(at_secs, 0, 101, bytes as u64, true, None);
                }
                self.phase = WsPhase::Turning;
                WsAction::AskClock
            },
            (WsPhase::Turning, WsEvent::Clock(false)) => {
                self.phase = WsPhase::Deciding;
                WsAction::AskClock
            },
            (WsPhase::Subscribing, WsEvent::Sent(false)) => {
                self.phase = WsPhase::Deciding;
                WsAction::AskClock
            },
            (WsPhase::Sending, WsEvent::Sent(false)) => {
                self.phase = WsPhase::Deciding;
                WsAction::AskClock
            },
            (WsPhase::Receiving, WsEvent::Lost) => {
                self.phase = WsPhase::Deciding;
                WsAction::AskClock
            },
            _ => {
                self.phase = WsPhase::Done;
                WsAction::Stop
            },
        }
    }

    /// What a virtual user does after an event. What it sends has a mask by
    /// chance.
    pub fn step(
        &mut self,
        ws: &WsConfig,
        event: WsEvent,
        metrics: &mut Metrics,
        at_secs: u64,
    ) -> (action: WsAction)
        requires
            old(metrics)@.wf(),
        ensures
            exists|mask: [u8; 4]|
                (*final(self), action@) == #[trigger] old(self).after(ws@, event, mask@),
            final(metrics)@ == old(self).recorded(ws@, event, old(metrics)@, at_secs),
            final(metrics)@.wf(),
    {
        self.step_at(ws, event, random_mask(), metrics, at_secs)
    }
}

/// A run of virtual users that exchange messages.
#[derive(Debug)]
pub struct WsRun {
    pub ws: WsConfig,
    pub insecure: bool,
    pub duration_secs: u64,
    pub vus: Vec<WsVu>,
}

/// Whether a run is one of so many virtual users on this WebSocket.
pub open spec fn is_ws_run(
    run: WsRun,
    vu_count: u32,
    ws: WsView,
    duration_secs: u64,
    insecure: bool,
) -> bool {
    &&& run.ws@ == ws
    &&& run.insecure == insecure
    &&& run.duration_secs == duration_secs
    &&& run.vus@.len() == vu_count
    &&& forall|i: int|
        0 <= i < vu_count ==> #[trigger] run.vus@[i] == (WsVu {
            index: i as u32,
            phase: WsPhase::Ramping,
        })
}

/// The virtual users that exchange messages until the time is over.
pub fn spawn_ws_vus(
    vu_count: u32,
    ws: &WsConfig,
    duration_secs: u64,
    insecure: bool,
) -> (run: WsRun)
    ensures
        is_ws_run(run, vu_count, ws@, duration_secs, insecure),
{
    let mut vus: Vec<WsVu> = Vec::new();
    for index in 0..vu_count
        invariant
            vus@.len() == index,
            forall|i: int|
                0 <= i < index ==> #[trigger] vus@[i] == (WsVu {
                    index: i as u32,
                    phase: WsPhase::Ramping,
                }),
    {
        vus.push(WsVu { index, phase: WsPhase::Ramping });
    }
    WsRun {
        ws: WsConfig {
            url: ws.url.clone(),
            message: slice_to_vec(ws.message.as_slice()),
            mode: ws.mode,
            send_interval: ws.send_interval,
        },
        insecure,
        duration_secs,
        vus,
    }
}

// ----------------------------------------------------------------------
// Laws of runs
// ----------------------------------------------------------------------

/// An echo counts once toward the total, when its message has been sent; the
/// reply makes it a success, with the status 101, the time that the round took
/// and the bytes of both messages. A round within one second counts as one
/// such request does.
pub proof fn echo_round_is_counted_once(
    vu: WsVu,
    ws: WsView,
    mask: Seq<u8>,
    bytes: usize,
    after_us: u64,
    m: MetricsView,
    sent_secs: u64,
    came_secs: u64,
)
    requires
        vu.phase == WsPhase::Turning,
        ws.mode == WsMode::Echo,
        m.wf(),
    ensures
        ({
            let (sending, sent) = vu.after(ws, WsEvent::Clock(true), mask);
            let (waiting, asked) = sending.after(ws, WsEvent::Sent(true), mask);
            let reply = WsEvent::Received { bytes, after_us };
            let (turned, _) = waiting.after(ws, reply, mask);
            let m1 = vu.recorded(ws, WsEvent::Clock(true), m, sent_secs);
            let m2 = sending.recorded(ws, WsEvent::Sent(true), m1, sent_secs);
            let m3 = waiting.recorded(ws, reply, m2, came_secs);
            let both = wadd(ws.message.len() as u64, bytes as u64);
            &&& sent == WsActionView::Send(frame(1, ws.message, Some(mask)))
            &&& asked == WsActionView::Receive
            &&& turned == vu
            &&& m1 == m
            &&& m2 == after_sent(m, sent_secs)
            &&& m3 == after_reply(m2, came_secs, after_us, 101, both)
            &&& sent_secs == came_secs ==> m3 == after_request(
                m,
                came_secs,
                after_us,
                101,
                both,
                true,
                None,
            )
        }),
{
    let both = wadd(ws.message.len() as u64, bytes as u64);
    let m2 = after_sent(m, sent_secs);
    if sent_secs == came_secs {
        assert(after_reply(m2, came_secs, after_us, 101, both).seconds =~= after_request(
            m,
            came_secs,
            after_us,
            101,
            both,
            true,
            None,
        ).seconds);
    }
}

/// One virtual user of a run learns something.
pub struct WsTurn {
    pub vu: int,
    pub event: WsEvent,
    pub mask: Seq<u8>,
    pub at_secs: u64,
}

/// The virtual users after these turns.
pub open spec fn vus_after(vus: Seq<WsVu>, ws: WsView, turns: Seq<WsTurn>) -> Seq<WsVu>
    decreases turns.len(),
{
    if turns.len() == 0 {
        vus
    } else {
        let before = vus_after(vus, ws, turns.drop_last());
        let t = turns.last();
        before.update(t.vu, before[t.vu].after(ws, t.event, t.mask).0)
    }
}

/// The metrics after these turns.
pub open spec fn metrics_after(
    duration_secs: u64,
    vus: Seq<WsVu>,
    ws: WsView,
    turns: Seq<WsTurn>,
) -> MetricsView
    decreases turns.len(),
{
    if turns.len() == 0 {
        fresh_metrics(duration_secs)
    } else {
        let t = turns.last();
        vus_after(vus, ws, turns.drop_last())[t.vu].recorded(
            ws,
            t.event,
            metrics_after(duration_secs, vus, ws, turns.drop_last()),
            t.at_secs,
        )
    }
}

/// What these turns record, in order.
pub open spec fn recordings(vus: Seq<WsVu>, ws: WsView, turns: Seq<WsTurn>) -> Seq<Recorded>
    decreases turns.len(),
{
    if turns.len() == 0 {
        seq![]
    } else {
        let t = turns.last();
        let before = recordings(vus, ws, turns.drop_last());
        match vus_after(vus, ws, turns.drop_last())[t.vu].recording(ws, t.event, t.at_secs) {
            Some(r) => before.push(r),
            None => before,
        }
    }
}

/// The metrics of a run are those of what its turns record.
pub proof fn run_is_recorded(
    duration_secs: u64,
    vus: Seq<WsVu>,
    ws: WsView,
    turns: Seq<WsTurn>,
)
    ensures
        metrics_after(duration_secs, vus, ws, turns) == after_all(
            duration_secs,
            recordings(vus, ws, turns),
        ),
        recordings(vus, ws, turns).len() <= turns.len(),
    decreases turns.len(),
{
    if turns.len() > 0 {
        run_is_recorded(duration_secs, vus, ws, turns.drop_last());
        let t = turns.last();
        let before = recordings(vus, ws, turns.drop_last());
        if let Some(r) = vus_after(vus, ws, turns.drop_last())[t.vu].recording(
            ws,
            t.event,
            t.at_secs,
        ) {
            assert(before.push(r).drop_last() =~= before);
        }
    }
}

/// In how many turns a virtual user in some phase learns something.
pub open spec fn how_often(
    vus: Seq<WsVu>,
    ws: WsView,
    turns: Seq<WsTurn>,
    sort: spec_fn(WsPhase, WsEvent) -> bool,
) -> nat
    decreases turns.len(),
{
    if turns.len() == 0 {
        0
    } else {
        let t = turns.last();
        how_often(vus, ws, turns.drop_last(), sort) + (if sort(
            vus_after(vus, ws, turns.drop_last())[t.vu].phase,
            t.event,
        ) {
            1nat
        } else {
            0
        })
    }
}

/// A message has been sent.
pub open spec fn is_message_sent() -> spec_fn(WsPhase, WsEvent) -> bool {
    |phase: WsPhase, event: WsEvent| phase == WsPhase::Sending && event == WsEvent::Sent(true)
}

/// A message has come.
pub open spec fn is_message_received() -> spec_fn(WsPhase, WsEvent) -> bool {
    |phase: WsPhase, event: WsEvent| phase == WsPhase::Receiving && event is Received
}

/// A WebSocket did not open.
pub open spec fn is_opening_failed() -> spec_fn(WsPhase, WsEvent) -> bool {
    |phase: WsPhase, event: WsEvent|
        phase == WsPhase::Connecting && (event matches WsEvent::Connected(Some(_)))
}

/// The bytes of all messages that have come.
pub open spec fn bytes_received(vus: Seq<WsVu>, ws: WsView, turns: Seq<WsTurn>) -> nat
    decreases turns.len(),
{
    if turns.len() == 0 {
        0
    } else {
        let t = turns.last();
        bytes_received(vus, ws, turns.drop_last()) + (match (
            vus_after(vus, ws, turns.drop_last())[t.vu].phase,
            t.event,
        ) {
            (WsPhase::Receiving, WsEvent::Received { bytes, .. }) => bytes as nat,
            _ => 0,
        })
    }
}

/// An echo records messages that were sent, replies and failed connections.
proof fn echo_recordings(vus: Seq<WsVu>, ws: WsView, turns: Seq<WsTurn>, code: u16)
    requires
        ws.mode == WsMode::Echo,
        ws.message.len() <= usize::MAX,
    ensures
        ({
            let all = recordings(vus, ws, turns);
            let sent = how_often(vus, ws, turns, is_message_sent());
            let came = how_often(vus, ws, turns, is_message_received());
            let failed = how_often(vus, ws, turns, is_opening_failed());
            &&& how_many(all, is_counted()) == sent
            &&& how_many(all, is_good()) == came
            &&& how_many(all, is_timed()) == came
            &&& how_many(all, has_status(101)) == came
            &&& how_many(all, is_bad()) == failed
            &&& code != 101 && code != 0 ==> how_many(all, has_status(code)) == 0
            &&& came * ws.message.len() + bytes_received(vus, ws, turns) <= u64::MAX ==> all_bytes(
                all,
            ) == came * ws.message.len() + bytes_received(vus, ws, turns)
            &&& forall|i: int| #![trigger all[i]]
                0 <= i < all.len() ==> match all[i] {
                    Recorded::Request { .. } => false,
                    Recorded::Reply { status, .. } => status == 101,
                    _ => true,
                }
        }),
    decreases turns.len(),
{
    if turns.len() > 0 {
        let rest = turns.drop_last();
        echo_recordings(vus, ws, rest, code);
        let t = turns.last();
        let before = recordings(vus, ws, rest);
        let vu = vus_after(vus, ws, rest)[t.vu];
        let came = how_often(vus, ws, rest, is_message_received());
        let len = ws.message.len();
        assert((came + 1) * len == came * len + len) by (nonlinear_arith);
        assert(came * len >= 0) by (nonlinear_arith);
        if let Some(r) = vu.recording(ws, t.event, t.at_secs) {
            assert(before.push(r).drop_last() =~= before);
            assert(before.push(r).last() == r);
        }
    }
}

/// In a run of echoes the total is the number of messages that were sent. The
/// successes and the status 101 count the replies, each of which has a
/// latency, and the failures are the WebSockets that did not open, which have
/// the status 0. No other status is counted. The bytes are those of all
/// replies and of the messages that they answer, as long as they can be held.
pub proof fn echo_run_counts(
    duration_secs: u64,
    vus: Seq<WsVu>,
    ws: WsView,
    turns: Seq<WsTurn>,
    code: u16,
)
    requires
        ws.mode == WsMode::Echo,
        ws.message.len() <= usize::MAX,
        duration_secs + 2 <= usize::MAX,
        turns.len() <= u64::MAX,
    ensures
        ({
            let m = metrics_after(duration_secs, vus, ws, turns);
            let came = how_often(vus, ws, turns, is_message_received());
            let bytes = came * ws.message.len() + bytes_received(vus, ws, turns);
            &&& m.total == how_often(vus, ws, turns, is_message_sent())
            &&& m.success == came
            &&& count_in(m.status_codes, 101, 0) == came
            &&& m.latency_count == came
            &&& m.failed == how_often(vus, ws, turns, is_opening_failed())
            &&& count_in(m.status_codes, 0, 0) == m.failed
            &&& m.status_codes.contains_key(code) ==> code == 101 || code == 0
            &&& bytes <= u64::MAX ==> m.bytes == bytes
        }),
{
    let all = recordings(vus, ws, turns);
    run_is_recorded(duration_secs, vus, ws, turns);
    echo_recordings(vus, ws, turns, code);
    totals_count_the_recordings(duration_secs, all);
    every_latency_is_counted(duration_secs, all);
    failures_have_the_status_0(duration_secs, all);
    counts_are_exact(duration_secs, all, 101, 0, ConnError::Other);
    counts_are_exact(duration_secs, all, code, 0, ConnError::Other);
}

/// Whoever only sends never waits for a message, and whoever only receives
/// never sends one that counts.
proof fn phases_fit_the_mode(vus: Seq<WsVu>, ws: WsView, turns: Seq<WsTurn>)
    requires
        forall|i: int| 0 <= i < vus.len() ==> (#[trigger] vus[i]).phase == WsPhase::Ramping,
        forall|i: int| 0 <= i < turns.len() ==> 0 <= (#[trigger] turns[i]).vu < vus.len(),
    ensures
        vus_after(vus, ws, turns).len() == vus.len(),
        forall|i: int| #![trigger vus_after(vus, ws, turns)[i]]
            0 <= i < vus.len() ==> {
                let phase = vus_after(vus, ws, turns)[i].phase;
                &&& ws.mode == WsMode::Send ==> phase != WsPhase::Receiving
                &&& ws.mode == WsMode::Recv ==> phase != WsPhase::Sending && phase
                    != WsPhase::Pausing
            },
    decreases turns.len(),
{
    if turns.len() > 0 {
        let rest = turns.drop_last();
        assert forall|i: int| 0 <= i < rest.len() implies 0 <= (#[trigger] rest[i]).vu
            < vus.len() by {
            assert(rest[i] == turns[i]);
        }
        phases_fit_the_mode(vus, ws, rest);
        let before = vus_after(vus, ws, rest);
        let t = turns[turns.len() - 1];
        assert(0 <= t.vu < vus.len());
        let vu = before[t.vu];
        assert forall|i: int| #![trigger vus_after(vus, ws, turns)[i]]
            0 <= i < vus.len() implies {
            let phase = vus_after(vus, ws, turns)[i].phase;
            &&& ws.mode == WsMode::Send ==> phase != WsPhase::Receiving
            &&& ws.mode == WsMode::Recv ==> phase != WsPhase::Sending && phase != WsPhase::Pausing
        } by {
            let same = before[i];
        }
    }
}

/// The messages of a run that only sends or only receives: those it sends,
/// or those that come.
pub open spec fn messages(vus: Seq<WsVu>, ws: WsView, turns: Seq<WsTurn>) -> nat {
    if ws.mode == WsMode::Send {
        how_often(vus, ws, turns, is_message_sent())
    } else {
        how_often(vus, ws, turns, is_message_received())
    }
}

/// The bytes of those messages.
pub open spec fn message_bytes(vus: Seq<WsVu>, ws: WsView, turns: Seq<WsTurn>) -> nat {
    if ws.mode == WsMode::Send {
        messages(vus, ws, turns) * ws.message.len()
    } else {
        bytes_received(vus, ws, turns)
    }
}

/// To send or to receive records messages and failed connections.
proof fn message_recordings(vus: Seq<WsVu>, ws: WsView, turns: Seq<WsTurn>, code: u16)
    requires
        ws.mode != WsMode::Echo,
        ws.message.len() <= usize::MAX,
        forall|i: int| 0 <= i < vus.len() ==> (#[trigger] vus[i]).phase == WsPhase::Ramping,
        forall|i: int| 0 <= i < turns.len() ==> 0 <= (#[trigger] turns[i]).vu < vus.len(),
    ensures
        ({
            let all = recordings(vus, ws, turns);
            let n = messages(vus, ws, turns);
            &&& how_many(all, is_counted()) == n
            &&& how_many(all, is_good()) == n
            &&& how_many(all, is_timed()) == n
            &&& how_many(all, has_status(101)) == n
            &&& how_many(all, is_bad()) == how_often(vus, ws, turns, is_opening_failed())
            &&& code != 101 && code != 0 ==> how_many(all, has_status(code)) == 0
            &&& all_bytes(all) == message_bytes(vus, ws, turns)
            &&& forall|i: int| #![trigger all[i]]
                0 <= i < all.len() ==> match all[i] {
                    Recorded::Request { latency_us, status, is_success, .. } => latency_us == 0
                        && status == 101 && is_success,
                    Recorded::ConnFailure { .. } => true,
                    _ => false,
                }
        }),
    decreases turns.len(),
{
    if turns.len() > 0 {
        let rest = turns.drop_last();
        assert forall|i: int| 0 <= i < rest.len() implies 0 <= (#[trigger] rest[i]).vu
            < vus.len() by {
            assert(rest[i] == turns[i]);
        }
        message_recordings(vus, ws, rest, code);
        phases_fit_the_mode(vus, ws, rest);
        let t = turns[turns.len() - 1];
        assert(0 <= t.vu < vus.len());
        let before = recordings(vus, ws, rest);
        let vu = vus_after(vus, ws, rest)[t.vu];
        let n = messages(vus, ws, rest);
        let len = ws.message.len();
        assert((n + 1) * len == n * len + len) by (nonlinear_arith);
        if let Some(r) = vu.recording(ws, t.event, t.at_secs) {
            assert(before.push(r).drop_last() =~= before);
            assert(before.push(r).last() == r);
        }
    } else {
        assert(0 * ws.message.len() == 0);
    }
}

/// In a run that only sends or only receives, the total, the successes and the
/// status 101 are all the number of messages, whose latencies are 0. The
/// failures are the WebSockets that did not open, which have the status 0, and
/// no other status is counted. The bytes are those of the messages, as long as
/// they can be held: where they are sent, as many times the message's length.
pub proof fn message_run_counts(
    run: WsRun,
    vu_count: u32,
    ws: WsView,
    duration_secs: u64,
    insecure: bool,
    turns: Seq<WsTurn>,
    code: u16,
)
    requires
        is_ws_run(run, vu_count, ws, duration_secs, insecure),
        ws.mode != WsMode::Echo,
        ws.message.len() <= usize::MAX,
        duration_secs + 2 <= usize::MAX,
        turns.len() <= u64::MAX,
        forall|i: int| 0 <= i < turns.len() ==> 0 <= (#[trigger] turns[i]).vu < vu_count,
    ensures
        ({
            let m = metrics_after(duration_secs, run.vus@, ws, turns);
            let n = messages(run.vus@, ws, turns);
            let bytes = message_bytes(run.vus@, ws, turns);
            &&& m.total == n
            &&& m.success == n
            &&& count_in(m.status_codes, 101, 0) == n
            &&& m.latency_count == n
            &&& m.sum_latency_us == 0
            &&& m.max_latency_us == 0
            &&& n > 0 ==> m.min_latency_us == 0
            &&& m.failed == how_often(run.vus@, ws, turns, is_opening_failed())
            &&& count_in(m.status_codes, 0, 0) == m.failed
            &&& m.status_codes.contains_key(code) ==> code == 101 || code == 0
            &&& bytes <= u64::MAX ==> m.bytes == bytes
        }),
{
    let vus = run.vus@;
    let all = recordings(vus, ws, turns);
    run_is_recorded(duration_secs, vus, ws, turns);
    message_recordings(vus, ws, turns, code);
    totals_count_the_recordings(duration_secs, all);
    every_latency_is_counted(duration_secs, all);
    failures_have_the_status_0(duration_secs, all);
    assert forall|i: int| 0 <= i < all.len() implies (latency_of(#[trigger] all[i]) matches Some(us)
        ==> us == 0) by {}
    latencies_of_0(duration_secs, all);
    counts_are_exact(duration_secs, all, 101, 0, ConnError::Other);
    counts_are_exact(duration_secs, all, code, 0, ConnError::Other);
}

}
