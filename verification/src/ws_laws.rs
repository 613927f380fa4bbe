//! What holds of WebSockets on the wire: base64, frames and the handshake; where
//! a URL leads; and what the virtual users do on one.

use vstd::arithmetic::div_mod::lemma_fundamental_div_mod_converse;
use vstd::prelude::*;
use vstd::utf8::encode_utf8;

use crate::client::{
    address, authority, authority_is_first, category, decimal_of_ports, host_and_port_of_address,
    host_without_port, is_server_name, ConnError, ErrorLink,
};
use crate::metrics::Recorded;
use crate::text::{
    ascii_lower, decimal, decimal_is_digits, find_first, find_from_is_first, find_place,
    find_place_is_first, lines, same_ignoring_case, stands_at, trim, utf8_lossy,
};
use crate::ws::{
    accept_of, base64, base64_bytes, base64_reads_back, be_bytes, be_value, bytes_number, frame,
    frame_at, frame_part, frame_stays, handshake_request, head_answers, is_ws_run, length_field,
    line_accepts, masked, part_reads_back, quartet, receive, reply_says, sextet_char, sha1,
    ws_scheme, ws_target, FrameView, InboxView, ReceivedView, WsActionView, WsEvent, WsLinkEvent,
    WsLinkStepView, WsLinkView, WsMode, WsPhase, WsRun, WsStage, WsTargetView, WsView, WsVu,
};

verus! {

broadcast use vstd::string::group_string_axioms;

// ----------------------------------------------------------------------
// Base64
// ----------------------------------------------------------------------

/// The character of six bits, by the table of base64.
pub open spec fn letter(k: int) -> char {
    "ABCDEFGHIJKLMNOPQRSTUVWXYZabcdefghijklmnopqrstuvwxyz0123456789+/"@[k]
}

proof fn letters(k: int)
    requires
        0 <= k < 64,
    ensures
        sextet_char(k) == letter(k),
{
    reveal_strlit("ABCDEFGHIJKLMNOPQRSTUVWXYZabcdefghijklmnopqrstuvwxyz0123456789+/");
    if k < 26 {
        assert(k < 9 || 9 <= k < 18 || 18 <= k);
    }
}

/// Three bytes take four characters of six bits each, one after the other, and
/// what follows them is encoded on its own. Where bytes are missing at the end,
/// their bits are 0 and `=` stands for the characters that hold none of the
/// others.
pub proof fn base64_takes_six_bits_each(a: u8, b: u8, c: u8, rest: Seq<u8>)
    ensures
        base64(seq![]) == Seq::<char>::empty(),
        base64(seq![a]) == seq![letter(a as int / 4), letter(a as int % 4 * 16), '=', '='],
        base64(seq![a, b]) == seq![
            letter(a as int / 4),
            letter(a as int % 4 * 16 + b as int / 16),
            letter(b as int % 16 * 4),
            '=',
        ],
        base64(seq![a, b, c] + rest) == seq![
            letter(a as int / 4),
            letter(a as int % 4 * 16 + b as int / 16),
            letter(b as int % 16 * 4 + c as int / 64),
            letter(c as int % 64),
        ] + base64(rest),
{
    let (x, y, z) = (a as int, b as int, c as int);
    quartet_of_one(a);
    quartet_of_two(a, b);
    quartet_of_three(a, b, c);
    let all = seq![a, b, c] + rest;
    if rest.len() > 0 {
        assert(all.take(3) =~= seq![a, b, c]);
        assert(all.skip(3) =~= rest);
    } else {
        assert(all =~= seq![a, b, c]);
        assert(quartet(all) + base64(rest) =~= quartet(all));
    }
}

proof fn sixes(x: int, y: int, z: int)
    requires
        0 <= x < 256,
        0 <= y < 256,
        0 <= z < 256,
    ensures
        (x * 0x1_0000 + y * 0x100 + z) / 0x4_0000 == x / 4,
        (x * 0x1_0000 + y * 0x100 + z) / 0x1000 % 64 == x % 4 * 16 + y / 16,
        (x * 0x1_0000 + y * 0x100 + z) / 64 % 64 == y % 16 * 4 + z / 64,
        (x * 0x1_0000 + y * 0x100 + z) % 64 == z % 64,
        0 <= x / 4 < 64,
        0 <= x % 4 * 16 + y / 16 < 64,
        0 <= y % 16 * 4 + z / 64 < 64,
{
    let n = x * 0x1_0000 + y * 0x100 + z;
    let (x1, x0) = (x / 4, x % 4);
    let (y1, y0) = (y / 16, y % 16);
    let (z1, z0) = (z / 64, z % 64);
    lemma_fundamental_div_mod_converse(n, 0x4_0000, x1, x0 * 0x1_0000 + y * 0x100 + z);
    lemma_fundamental_div_mod_converse(n, 0x1000, x * 16 + y1, y0 * 0x100 + z);
    lemma_fundamental_div_mod_converse(x * 16 + y1, 64, x1, x0 * 16 + y1);
    lemma_fundamental_div_mod_converse(n, 64, x * 0x400 + y * 4 + z1, z0);
    lemma_fundamental_div_mod_converse(x * 0x400 + y * 4 + z1, 64, x * 16 + y1, y0 * 4 + z1);
}

proof fn quartet_of_three(a: u8, b: u8, c: u8)
    ensures
        quartet(seq![a, b, c]) == seq![
            letter(a as int / 4),
            letter(a as int % 4 * 16 + b as int / 16),
            letter(b as int % 16 * 4 + c as int / 64),
            letter(c as int % 64),
        ],
{
    let (x, y, z) = (a as int, b as int, c as int);
    sixes(x, y, z);
    letters(x / 4);
    letters(x % 4 * 16 + y / 16);
    letters(y % 16 * 4 + z / 64);
    letters(z % 64);
    assert(bytes_number(seq![a, b, c]) == x * 0x1_0000 + y * 0x100 + z);
}

proof fn quartet_of_two(a: u8, b: u8)
    ensures
        quartet(seq![a, b]) == seq![
            letter(a as int / 4),
            letter(a as int % 4 * 16 + b as int / 16),
            letter(b as int % 16 * 4),
            '=',
        ],
{
    let (x, y) = (a as int, b as int);
    sixes(x, y, 0);
    letters(x / 4);
    letters(x % 4 * 16 + y / 16);
    letters(y % 16 * 4);
    assert(bytes_number(seq![a, b]) == x * 0x1_0000 + y * 0x100);
}

proof fn quartet_of_one(a: u8)
    ensures
        quartet(seq![a]) == seq![letter(a as int / 4), letter(a as int % 4 * 16), '=', '='],
{
    let x = a as int;
    sixes(x, 0, 0);
    letters(x / 4);
    letters(x % 4 * 16);
    assert(bytes_number(seq![a]) == x * 0x1_0000);
}

/// What a server has to answer a key with stands for the digest of the key and
/// the identifier of the protocol.
pub proof fn answer_is_the_digest(key: Seq<char>)
    ensures
        base64_bytes(accept_of(key)) == sha1(
            encode_utf8(key + "258EAFA5-E914-47DA-95CA-C5AB0DC85B11"@),
        ),
        accept_of(key) == base64(sha1(encode_utf8(key + "258EAFA5-E914-47DA-95CA-C5AB0DC85B11"@))),
{
    base64_reads_back(sha1(encode_utf8(key + "258EAFA5-E914-47DA-95CA-C5AB0DC85B11"@)));
}

// ----------------------------------------------------------------------
// Frames
// ----------------------------------------------------------------------

/// Where the mask or, without one, the payload of a frame begins.
pub open spec fn head_size(len: nat) -> int {
    if len < 126 {
        2
    } else if len < 65536 {
        4
    } else {
        10
    }
}

/// Whether the head of a frame says this length: up to 125 in the second byte,
/// up to 65535 in the two bytes after it, which then says 126, and otherwise in
/// the eight bytes after it, which then says 127. The highest byte comes first,
/// and the second byte has 128 added where there is a mask.
pub open spec fn says_length(f: Seq<u8>, len: nat, has_mask: bool) -> bool {
    let bit = if has_mask {
        128int
    } else {
        0
    };
    if len < 126 {
        f[1] == bit + len
    } else if len < 65536 {
        f[1] == bit + 126 && f[2] * 256 + f[3] == len
    } else {
        f[1] == bit + 127 && f[2] * 0x100_0000_0000_0000 + f[3] * 0x1_0000_0000_0000 + f[4]
            * 0x100_0000_0000 + f[5] * 0x1_0000_0000 + f[6] * 0x100_0000 + f[7] * 0x1_0000 + f[8]
            * 0x100 + f[9] == len
    }
}

proof fn two_bytes(n: nat)
    requires
        n < 0x1_0000,
    ensures
        ({
            let b = be_bytes(n, 2);
            b.len() == 2 && b[0] * 256 + b[1] == n
        }),
{
    reveal_with_fuel(be_bytes, 3);
}

proof fn eight_bytes(n: nat)
    requires
        n <= u64::MAX,
    ensures
        ({
            let b = be_bytes(n, 8);
            &&& b.len() == 8
            &&& b[0] * 0x100_0000_0000_0000 + b[1] * 0x1_0000_0000_0000 + b[2] * 0x100_0000_0000
                + b[3] * 0x1_0000_0000 + b[4] * 0x100_0000 + b[5] * 0x1_0000 + b[6] * 0x100 + b[7]
                == n
        }),
{
    reveal_with_fuel(be_bytes, 9);
    let n1 = n / 0x100;
    let n2 = n1 / 0x100;
    let n3 = n2 / 0x100;
    let n4 = n3 / 0x100;
    let n5 = n4 / 0x100;
    let n6 = n5 / 0x100;
    let n7 = n6 / 0x100;
    let b = be_bytes(n, 8);
    assert(b[7] == n % 0x100);
    assert(b[6] == n1 % 0x100);
    assert(b[5] == n2 % 0x100);
    assert(b[4] == n3 % 0x100);
    assert(b[3] == n4 % 0x100);
    assert(b[2] == n5 % 0x100);
    assert(b[1] == n6 % 0x100);
    assert(n7 < 0x100);
    assert(b[0] == n7 % 0x100);
}

proof fn length_is_said(first: u8, len: nat, mask_bit: u8, rest: Seq<u8>)
    requires
        mask_bit == 0 || mask_bit == 0x80,
        len <= u64::MAX,
    ensures
        ({
            let f = seq![first] + length_field(len, mask_bit) + rest;
            &&& says_length(f, len, mask_bit == 0x80)
            &&& length_field(len, mask_bit).len() == head_size(len) - 1
        }),
{
    let field = length_field(len, mask_bit);
    let f = seq![first] + field + rest;
    let small = len as u8;
    assert((0x80u8 | 126u8) == 254 && (0u8 | 126u8) == 126 && (0x80u8 | 127u8) == 255 && (0u8
        | 127u8) == 127) by (bit_vector);
    if len < 126 {
        assert((0x80u8 | small) == 128 + small && (0u8 | small) == small) by (bit_vector)
            requires
                small < 126,
        ;
        assert(f[1] == field[0]);
    } else if len < 65536 {
        two_bytes(len);
        assert(f[1] == field[0] && f[2] == field[1] && f[3] == field[2]);
        assert(field[1] == be_bytes(len, 2)[0] && field[2] == be_bytes(len, 2)[1]);
    } else {
        eight_bytes(len);
        let b = be_bytes(len, 8);
        assert(f[1] == field[0]);
        assert forall|i: int| 0 <= i < 8 implies f[i + 2] == #[trigger] b[i] by {
            assert(f[i + 2] == field[i + 1]);
        }
        assert(f[2] == b[0] && f[3] == b[1] && f[4] == b[2] && f[5] == b[3] && f[6] == b[4] && f[7]
            == b[5] && f[8] == b[6] && f[9] == b[7]);
    }
}

/// A frame that is the last of its message has 128 added to its opcode in the
/// first byte. Its length follows, then the four bytes of the mask, then the
/// payload, each byte combined with the bytes of the mask in turns; without a
/// mask the payload as it is.
pub proof fn frames_are_laid_out(
    fin: bool,
    opcode: u8,
    payload: Seq<u8>,
    mask: Seq<u8>,
    i: int,
)
    requires
        opcode < 16,
        mask.len() == 4,
        payload.len() <= u64::MAX,
        0 <= i < payload.len(),
    ensures
        ({
            let f = frame_part(fin, opcode, payload, Some(mask));
            let g = frame_part(fin, opcode, payload, None);
            let at = head_size(payload.len());
            &&& f.len() == at + 4 + payload.len()
            &&& g.len() == at + payload.len()
            &&& f[0] == g[0]
            &&& f[0] == if fin {
                128 + opcode
            } else {
                opcode as int
            }
            &&& says_length(f, payload.len(), true)
            &&& says_length(g, payload.len(), false)
            &&& f.subrange(at, at + 4) == mask
            &&& f[at + 4 + i] == payload[i] ^ mask[i % 4]
            &&& g[at + i] == payload[i]
            &&& fin ==> frame(opcode, payload, Some(mask)) == f
        }),
{
    let first = if fin {
        0x80u8 | opcode
    } else {
        opcode
    };
    assert((0x80u8 | opcode) == 128 + opcode) by (bit_vector)
        requires
            opcode < 16,
    ;
    let f = frame_part(fin, opcode, payload, Some(mask));
    let g = frame_part(fin, opcode, payload, None);
    let at = head_size(payload.len());
    let tail = mask + masked(payload, mask);
    length_is_said(first, payload.len(), 0x80, tail);
    length_is_said(first, payload.len(), 0, payload);
    assert(f =~= seq![first] + length_field(payload.len(), 0x80) + tail);
    assert(f.subrange(at, at + 4) =~= mask);
    assert(f[at + 4 + i] == masked(payload, mask)[i]);
}

/// A frame of up to 8 MiB is read, whatever follows it, and a larger one is
/// refused as soon as its length is known.
pub proof fn frames_of_8_mib_are_read(
    fin: bool,
    opcode: u8,
    payload: Seq<u8>,
    mask: Option<Seq<u8>>,
    rest: Seq<u8>,
)
    requires
        opcode < 16,
        payload.len() <= u64::MAX,
        mask matches Some(m) ==> m.len() == 4,
    ensures
        ({
            let f = frame_part(fin, opcode, payload, mask);
            if payload.len() <= 8388608 {
                frame_at(f + rest) == (FrameView::Frame {
                    fin,
                    opcode,
                    payload,
                    size: f.len() as int,
                })
            } else {
                frame_at(f + rest) is TooLarge && frame_at(f.take(10)) is TooLarge
            }
        }),
{
    if payload.len() <= 8388608 {
        part_reads_back(fin, opcode, payload, mask, rest);
    } else {
        let first = if fin {
            0x80u8 | opcode
        } else {
            opcode
        };
        let bit = if mask is Some {
            0x80u8
        } else {
            0u8
        };
        let f = frame_part(fin, opcode, payload, mask);
        let field = length_field(payload.len(), bit);
        let tail = match mask {
            Some(m) => m + masked(payload, m),
            None => payload,
        };
        eight_bytes(payload.len());
        assert(f =~= seq![first] + field + tail);
        assert((0x80u8 | 127u8) & 0x7f == 127 && (0u8 | 127u8) & 0x7f == 127) by (bit_vector);
        assert(f[1] == field[0]);
        eight_bytes_read_back(payload.len());
        assert((f + rest).subrange(2, 10) =~= be_bytes(payload.len(), 8));
        assert(f.take(10).subrange(2, 10) =~= be_bytes(payload.len(), 8));
        assert(f.take(10)[1] == f[1] && (f + rest)[1] == f[1]);
    }
}

proof fn eight_bytes_read_back(n: nat)
    requires
        n <= u64::MAX,
    ensures
        be_value(be_bytes(n, 8)) == n,
{
    let b = be_bytes(n, 8);
    eight_bytes(n);
    let b7 = b.drop_last();
    let b6 = b7.drop_last();
    let b5 = b6.drop_last();
    let b4 = b5.drop_last();
    let b3 = b4.drop_last();
    let b2 = b3.drop_last();
    let b1 = b2.drop_last();
    assert(be_value(b1.drop_last()) == 0);
    assert(be_value(b1) == b[0]);
    assert(be_value(b2) == b[0] * 0x100 + b[1]);
    assert(be_value(b3) == be_value(b2) * 0x100 + b[2]);
    assert(be_value(b4) == be_value(b3) * 0x100 + b[3]);
    assert(be_value(b5) == be_value(b4) * 0x100 + b[4]);
    assert(be_value(b6) == be_value(b5) * 0x100 + b[5]);
    assert(be_value(b7) == be_value(b6) * 0x100 + b[6]);
    assert(be_value(b) == be_value(b7) * 0x100 + b[7]);
}

/// A frame is not read before all of it is there.
pub proof fn incomplete_frames_wait(
    fin: bool,
    opcode: u8,
    payload: Seq<u8>,
    mask: Option<Seq<u8>>,
    n: int,
)
    requires
        opcode < 16,
        payload.len() <= 8388608,
        mask matches Some(m) ==> m.len() == 4,
        0 <= n < frame_part(fin, opcode, payload, mask).len(),
    ensures
        frame_at(frame_part(fin, opcode, payload, mask).take(n)) is More,
{
    let f = frame_part(fin, opcode, payload, mask);
    let s = f.take(n);
    part_reads_back(fin, opcode, payload, mask, seq![]);
    assert(f + Seq::<u8>::empty() =~= f);
    assert(s + f.skip(n) =~= f);
    if !(frame_at(s) is More) {
        frame_stays(s, f.skip(n));
    }
}

/// A close ends the WebSocket, whatever it says and whatever message is on its
/// way. A frame that is too large is not received. Frames of any other kind
/// than text, binary, continuation, close and ping are passed over.
pub proof fn other_frames_are_told_apart(
    fin: bool,
    opcode: u8,
    begun: bool,
    message: Seq<u8>,
    payload: Seq<u8>,
    mask: Option<Seq<u8>>,
    rest: Seq<u8>,
    pong_mask: Seq<u8>,
)
    requires
        opcode < 16,
        payload.len() <= u64::MAX,
        mask matches Some(m) ==> m.len() == 4,
    ensures
        ({
            let f = frame_part(fin, opcode, payload, mask);
            let got = receive(InboxView { begun, message, buf: f + rest }, pong_mask);
            let left = InboxView { begun, message, buf: rest };
            &&& payload.len() > 8388608 ==> got.1 is TooLarge
            &&& payload.len() <= 8388608 && opcode == 8 ==> got == (left, ReceivedView::Closed)
            &&& payload.len() <= 8388608 && (3 <= opcode <= 7 || 10 <= opcode) ==> got == receive(
                left,
                pong_mask,
            )
        }),
{
    let f = frame_part(fin, opcode, payload, mask);
    frames_of_8_mib_are_read(fin, opcode, payload, mask, rest);
    assert((f + rest).skip(f.len() as int) =~= rest);
}

// ----------------------------------------------------------------------
// The handshake
// ----------------------------------------------------------------------

/// No end of line in it.
pub open spec fn is_one_line(s: Seq<char>) -> bool {
    forall|i: int| 0 <= i < s.len() ==> s[i] != '\n'
}

proof fn one_line_more(line: Seq<char>, rest: Seq<char>)
    requires
        is_one_line(line),
    ensures
        lines(line + seq!['\r', '\n'] + rest) == seq![line] + lines(rest),
{
    let s = line + seq!['\r', '\n'] + rest;
    let at = line.len() as int + 1;
    assert(s[at] == '\n');
    assert(s[at - 1] == '\r');
    find_from_is_first(s, '\n', 0);
    let found = find_first(s, '\n');
    if found < at {
        if found < line.len() {
            assert(s[found] == line[found]);
        }
        assert(false);
    }
    assert(s.take(at).last() == '\r');
    assert(s.take(at).drop_last() =~= line);
    assert(s.skip(at + 1) =~= rest);
}

/// The request that opens a WebSocket asks for the path, of the host that the
/// URL names, with the key, in seven lines of which the last is empty.
#[verifier::spinoff_prover]
#[verifier::rlimit(60)]
pub proof fn handshake_has_its_lines(target: WsTargetView, key: Seq<char>)
    requires
        is_one_line(target.path),
        is_one_line(target.host_port),
        is_one_line(key),
    ensures
        lines(handshake_request(target, key)) == seq![
            "GET "@ + target.path + " HTTP/1.1"@,
            "Host: "@ + target.host_port,
            "Upgrade: websocket"@,
            "Connection: Upgrade"@,
            "Sec-WebSocket-Key: "@ + key,
            "Sec-WebSocket-Version: 13"@,
            Seq::<char>::empty(),
        ],
        ({
            let text = handshake_request(target, key);
            text.skip(text.len() - 4) == seq!['\r', '\n', '\r', '\n']
        }),
{
    let end = seq!['\r', '\n'];
    let none = Seq::<char>::empty();
    let l0 = "GET "@ + target.path + " HTTP/1.1"@;
    let l1 = "Host: "@ + target.host_port;
    let l2 = "Upgrade: websocket"@;
    let l3 = "Connection: Upgrade"@;
    let l4 = "Sec-WebSocket-Key: "@ + key;
    let l5 = "Sec-WebSocket-Version: 13"@;
    let t6 = none + end + none;
    let t5 = l5 + end + t6;
    let t4 = l4 + end + t5;
    let t3 = l3 + end + t4;
    let t2 = l2 + end + t3;
    let t1 = l1 + end + t2;
    let t0 = l0 + end + t1;
    lines_without_ends();
    request_is_its_lines(target, key);
    one_line_more(none, none);
    one_line_more(l5, t6);
    one_line_more(l4, t5);
    one_line_more(l3, t4);
    one_line_more(l2, t3);
    one_line_more(l1, t2);
    one_line_more(l0, t1);
    assert(lines(none) =~= seq![]);
    assert(lines(t0) =~= seq![l0, l1, l2, l3, l4, l5, none]);
    assert(t0.skip(t0.len() - 4) =~= seq!['\r', '\n', '\r', '\n']);
}

#[verifier::spinoff_prover]
#[verifier::rlimit(60)]
proof fn request_is_its_lines(target: WsTargetView, key: Seq<char>)
    ensures
        ({
            let end = seq!['\r', '\n'];
            let none = Seq::<char>::empty();
            let t5 = "Sec-WebSocket-Version: 13"@ + end + (none + end + none);
            let t4 = "Sec-WebSocket-Key: "@ + key + end + t5;
            let t3 = "Connection: Upgrade"@ + end + t4;
            let t2 = "Upgrade: websocket"@ + end + t3;
            let t1 = "Host: "@ + target.host_port + end + t2;
            handshake_request(target, key) == "GET "@ + target.path + " HTTP/1.1"@ + end + t1
        }),
{
    let end = seq!['\r', '\n'];
    let none = Seq::<char>::empty();
    let t5 = "Sec-WebSocket-Version: 13"@ + end + (none + end + none);
    let t4 = "Sec-WebSocket-Key: "@ + key + end + t5;
    let t3 = "Connection: Upgrade"@ + end + t4;
    let t2 = "Upgrade: websocket"@ + end + t3;
    let t1 = "Host: "@ + target.host_port + end + t2;
    fixed_parts();
    assert(handshake_request(target, key) =~= "GET "@ + target.path + " HTTP/1.1"@ + end + t1);
}

proof fn lines_without_ends()
    ensures
        is_one_line("GET "@),
        is_one_line(" HTTP/1.1"@),
        is_one_line("Host: "@),
        is_one_line("Upgrade: websocket"@),
        is_one_line("Connection: Upgrade"@),
        is_one_line("Sec-WebSocket-Key: "@),
        is_one_line("Sec-WebSocket-Version: 13"@),
{
    reveal_strlit("GET ");
    reveal_strlit(" HTTP/1.1");
    reveal_strlit("Host: ");
    reveal_strlit("Upgrade: websocket");
    reveal_strlit("Connection: Upgrade");
    reveal_strlit("Sec-WebSocket-Key: ");
    reveal_strlit("Sec-WebSocket-Version: 13");
}

proof fn fixed_parts()
    ensures
        ({
            let end = seq!['\r', '\n'];
            &&& " HTTP/1.1\r\nHost: "@ == " HTTP/1.1"@ + end + "Host: "@
            &&& "\r\nUpgrade: websocket\r\nConnection: Upgrade\r\nSec-WebSocket-Key: "@ == end
                + "Upgrade: websocket"@ + end + "Connection: Upgrade"@ + end
                + "Sec-WebSocket-Key: "@
            &&& "\r\nSec-WebSocket-Version: 13\r\n\r\n"@ == end + "Sec-WebSocket-Version: 13"@
                + end + end
        }),
{
    let end = seq!['\r', '\n'];
    reveal_strlit(" HTTP/1.1");
    reveal_strlit("Host: ");
    reveal_strlit("Upgrade: websocket");
    reveal_strlit("Connection: Upgrade");
    reveal_strlit("Sec-WebSocket-Key: ");
    reveal_strlit("Sec-WebSocket-Version: 13");
    reveal_strlit(" HTTP/1.1\r\nHost: ");
    reveal_strlit("\r\nUpgrade: websocket\r\nConnection: Upgrade\r\nSec-WebSocket-Key: ");
    reveal_strlit("\r\nSec-WebSocket-Version: 13\r\n\r\n");
    assert(" HTTP/1.1\r\nHost: "@ =~= " HTTP/1.1"@ + end + "Host: "@);
    assert("\r\nUpgrade: websocket\r\nConnection: Upgrade\r\nSec-WebSocket-Key: "@ =~= end
        + "Upgrade: websocket"@ + end + "Connection: Upgrade"@ + end + "Sec-WebSocket-Key: "@);
    assert("\r\nSec-WebSocket-Version: 13\r\n\r\n"@ =~= end + "Sec-WebSocket-Version: 13"@ + end
        + end);
}

/// A reply opens a WebSocket exactly if its status line begins with `HTTP/1.1
/// 101` and one of its lines has, before its first colon, the name of the
/// answer in any case, and after it the answer, each with any white space
/// around it.
pub proof fn replies_open_with_the_answer(head: Seq<char>, accept: Seq<char>, i: int)
    ensures
        !seq!['H', 'T', 'T', 'P', '/', '1', '.', '1', ' ', '1', '0', '1'].is_prefix_of(head)
            ==> !head_answers(head, accept),
        seq!['H', 'T', 'T', 'P', '/', '1', '.', '1', ' ', '1', '0', '1'].is_prefix_of(head) && 0
            <= i < lines(head).len() && says_accept(lines(head)[i], accept) ==> head_answers(
            head,
            accept,
        ),
        (forall|k: int|
            0 <= k < lines(head).len() ==> !says_accept(#[trigger] lines(head)[k], accept))
            ==> !head_answers(head, accept),
{
    reveal_strlit("HTTP/1.1 101");
    assert("HTTP/1.1 101"@ =~= seq![
        'H',
        'T',
        'T',
        'P',
        '/',
        '1',
        '.',
        '1',
        ' ',
        '1',
        '0',
        '1',
    ]);
    let all = lines(head);
    if 0 <= i < all.len() && says_accept(all[i], accept) {
        said_is_accepted(all[i], accept);
        assert(line_accepts(all[i], accept));
    }
    if head_answers(head, accept) {
        let k = choose|k: int| 0 <= k < all.len() && line_accepts(#[trigger] all[k], accept);
        said_is_accepted(all[k], accept);
        assert(says_accept(all[k], accept));
    }
}

/// A name, a colon and a value.
pub open spec fn named(name: Seq<char>, value: Seq<char>) -> Seq<char> {
    name + seq![':'] + value
}

/// Whether a line, without the white space around it, is a name, a colon and a
/// value, where the name is `Sec-WebSocket-Accept` in any case and the value
/// this one, each with any white space around it.
pub open spec fn says_accept(line: Seq<char>, accept: Seq<char>) -> bool {
    exists|name: Seq<char>, value: Seq<char>|
        {
            &&& trim(line) == #[trigger] named(name, value)
            &&& forall|i: int| 0 <= i < name.len() ==> name[i] != ':'
            &&& same_ignoring_case(trim(name), "Sec-WebSocket-Accept"@)
            &&& trim(value) == accept
        }
}

proof fn said_is_accepted(line: Seq<char>, accept: Seq<char>)
    ensures
        says_accept(line, accept) <==> line_accepts(line, accept),
{
    reveal_strlit("Sec-WebSocket-Accept");
    reveal_strlit("sec-websocket-accept");
    let (upper, lower) = ("Sec-WebSocket-Accept"@, "sec-websocket-accept"@);
    assert forall|i: int| 0 <= i < 20 implies ascii_lower(#[trigger] upper[i]) == ascii_lower(
        lower[i],
    ) by {
        assert(ascii_lower('S') == 's' && ascii_lower('W') == 'w' && ascii_lower('A') == 'a');
    }
    let l = trim(line);
    find_from_is_first(l, ':', 0);
    let colon = find_first(l, ':');
    if line_accepts(line, accept) {
        let name = l.take(colon);
        let value = l.skip(colon + 1);
        assert(named(name, value) =~= l);
        assert(same_ignoring_case(trim(name), upper)) by {
            assert forall|i: int| 0 <= i < trim(name).len() implies ascii_lower(
                #[trigger] trim(name)[i],
            ) == ascii_lower(upper[i]) by {}
        }
    }
    if says_accept(line, accept) {
        let (name, value) = choose|name: Seq<char>, value: Seq<char>|
            {
                &&& trim(line) == #[trigger] named(name, value)
                &&& forall|i: int| 0 <= i < name.len() ==> name[i] != ':'
                &&& same_ignoring_case(trim(name), "Sec-WebSocket-Accept"@)
                &&& trim(value) == accept
            };
        assert(l[name.len() as int] == ':');
        if colon < name.len() {
            assert(l[colon] == name[colon]);
        }
        assert(l.take(colon) =~= name);
        assert(l.skip(colon + 1) =~= value);
        assert(same_ignoring_case(trim(name), lower)) by {
            assert forall|i: int| 0 <= i < trim(name).len() implies ascii_lower(
                #[trigger] trim(name)[i],
            ) == ascii_lower(lower[i]) by {
                assert(ascii_lower(trim(name)[i]) == ascii_lower(upper[i]));
            }
        }
    }
}

/// The end of a line and an empty one: `\r\n\r\n`.
pub open spec fn empty_line() -> Seq<u8> {
    seq![13u8, 10u8, 13u8, 10u8]
}

/// A reply says something once its head has ended, with the first empty line,
/// whatever follows that.
pub proof fn replies_wait_for_their_head(head: Seq<u8>, rest: Seq<u8>, key: Seq<char>)
    requires
        forall|i: int|
            0 <= i < head.len() ==> !#[trigger] stands_at(
                head + empty_line() + rest,
                empty_line(),
                i,
            ),
    ensures
        reply_says(head + empty_line() + rest, key) == Some(
            head_answers(utf8_lossy(head), accept_of(key)),
        ),
        reply_says(head, key) is None,
{
    let end = empty_line();
    let resp = head + end + rest;
    let at = head.len() as int;
    assert(resp.subrange(at, at + end.len()) =~= end);
    first_place(resp, end, at);
    assert(resp.take(at) =~= head);
    assert forall|k: int| 0 <= k implies !stands_at(head, end, k) by {
        if stands_at(head, end, k) {
            assert(resp.subrange(k, k + end.len()) =~= head.subrange(k, k + end.len()));
            assert(stands_at(resp, end, k));
        }
    }
    find_place_is_first(head, end, 0);
}

proof fn first_place(s: Seq<u8>, needle: Seq<u8>, at: int)
    requires
        0 <= at,
        stands_at(s, needle, at),
        forall|i: int| 0 <= i < at ==> !stands_at(s, needle, i),
    ensures
        find_place(s, needle, 0) == Some(at),
{
    find_place_is_first(s, needle, 0);
}

/// A WebSocket opens through TCP, TLS where its URL asks for it, the request
/// and the reply, in this order. Behind TLS a name that no server can have is
/// refused before the session begins. At any stage it gives up for the reason
/// at hand: what is behind a failed connection, TLS for a failed session, a
/// timeout for what did not come in time, and `protocol` for the rest.
pub proof fn websockets_open_in_order(
    link: WsLinkView,
    chain: Vec<ErrorLink>,
    chunk: Vec<u8>,
)
    ensures
        ({
            let tcp = WsLinkView { stage: WsStage::Tcp, ..link };
            let tls = WsLinkView { stage: WsStage::Tls, ..link };
            let asking = WsLinkView { stage: WsStage::Asking, ..link };
            let listening = WsLinkView { stage: WsStage::Listening, ..link };
            let failed = WsLinkView { stage: WsStage::Failed, ..link };
            let request = WsLinkStepView::Write(
                encode_utf8(handshake_request(link.target, base64(link.nonce))),
            );
            let heard = link.resp + chunk@;
            &&& tcp.step(WsLinkEvent::Opened) == if link.target.is_tls {
                if is_server_name(link.target.host) {
                    (tls, WsLinkStepView::StartTls)
                } else {
                    (failed, WsLinkStepView::Fail(ConnError::Other))
                }
            } else {
                (asking, request)
            }
            &&& tls.step(WsLinkEvent::Opened) == (asking, request)
            &&& asking.step(WsLinkEvent::Written) == (listening, WsLinkStepView::Read)
            &&& tcp.step(WsLinkEvent::Refused(chain)) == (
                failed,
                WsLinkStepView::Fail(category(chain@)),
            )
            &&& tls.step(WsLinkEvent::Refused(chain)) == (
                failed,
                WsLinkStepView::Fail(ConnError::Tls),
            )
            &&& tcp.step(WsLinkEvent::TimedOut) == (
                failed,
                WsLinkStepView::Fail(ConnError::Timeout),
            )
            &&& tls.step(WsLinkEvent::TimedOut) == (
                failed,
                WsLinkStepView::Fail(ConnError::Timeout),
            )
            &&& asking.step(WsLinkEvent::Broken) == (
                failed,
                WsLinkStepView::Fail(ConnError::Protocol),
            )
            &&& listening.step(WsLinkEvent::Broken) == (
                failed,
                WsLinkStepView::Fail(ConnError::Protocol),
            )
            &&& chunk@.len() == 0 ==> listening.step(WsLinkEvent::Read(chunk)) == (
                failed,
                WsLinkStepView::Fail(ConnError::Protocol),
            )
            &&& chunk@.len() > 0 ==> {
                let (next, step) = listening.step(WsLinkEvent::Read(chunk));
                &&& next.resp == heard
                &&& step is Ready <==> reply_says(heard, base64(link.nonce)) == Some(true)
                &&& step is Read <==> reply_says(heard, base64(link.nonce)) is None
                &&& !(step is Ready) && !(step is Read) ==> step == WsLinkStepView::Fail(
                    ConnError::Protocol,
                )
                &&& step is Ready <==> next.stage == WsStage::Open
                &&& step is Read <==> next.stage == WsStage::Listening
            }
        }),
{
}

// ----------------------------------------------------------------------
// Where a URL leads
// ----------------------------------------------------------------------

/// A WebSocket leads to the host and the port of its URL, by TLS exactly if
/// that begins with `wss://`. Where it has no port, that is 443 with TLS and 80
/// without; where it has no path, that is `/`. A URL of any other scheme leads
/// nowhere.
pub proof fn ws_url_leads_to_its_host(host: Seq<char>, port: u16, path: Seq<char>, url: Seq<char>)
    requires
        host.len() > 0,
        forall|i: int| 0 <= i < host.len() ==> host[i] != ':' && host[i] != '/' && host[i] != '[',
    ensures
        ({
            let digits = decimal(port as nat);
            let named = host + seq![':'] + digits;
            let (ws, wss) = (seq!['w', 's', ':', '/', '/'], seq!['w', 's', 's', ':', '/', '/']);
            &&& ws_target(wss + named + seq!['/'] + path) == Some(
                WsTargetView {
                    is_tls: true,
                    host,
                    addr: named,
                    host_port: named,
                    path: seq!['/'] + path,
                },
            )
            &&& ws_target(ws + named + seq!['/'] + path) == Some(
                WsTargetView {
                    is_tls: false,
                    host,
                    addr: named,
                    host_port: named,
                    path: seq!['/'] + path,
                },
            )
            &&& ws_target(wss + host) == Some(
                WsTargetView {
                    is_tls: true,
                    host,
                    addr: host + seq![':', '4', '4', '3'],
                    host_port: host,
                    path: seq!['/'],
                },
            )
            &&& ws_target(ws + host) == Some(
                WsTargetView {
                    is_tls: false,
                    host,
                    addr: host + seq![':', '8', '0'],
                    host_port: host,
                    path: seq!['/'],
                },
            )
            &&& !ws.is_prefix_of(url) && !wss.is_prefix_of(url) ==> ws_target(url) is None
        }),
{
    let digits = decimal(port as nat);
    let named = host + seq![':'] + digits;
    named_host(host, port, path, true);
    named_host(host, port, path, false);
    bare_host(host, true);
    bare_host(host, false);
    if !scheme_of(true).is_prefix_of(url) && !scheme_of(false).is_prefix_of(url) {
        other_scheme(url);
    }
    let rest = named + seq!['/'] + path;
    let (ws, wss) = (seq!['w', 's', ':', '/', '/'], seq!['w', 's', 's', ':', '/', '/']);
    assert(wss + named + seq!['/'] + path =~= wss + rest);
    assert(ws + named + seq!['/'] + path =~= ws + rest);
}

/// How a URL begins that asks for TLS, or does not.
spec fn scheme_of(is_tls: bool) -> Seq<char> {
    if is_tls {
        seq!['w', 's', 's', ':', '/', '/']
    } else {
        seq!['w', 's', ':', '/', '/']
    }
}

proof fn other_scheme(url: Seq<char>)
    requires
        !scheme_of(true).is_prefix_of(url),
        !scheme_of(false).is_prefix_of(url),
    ensures
        ws_target(url) is None,
{
    reveal_strlit("wss://");
    reveal_strlit("ws://");
    assert("wss://"@ =~= scheme_of(true));
    assert("ws://"@ =~= scheme_of(false));
}

proof fn named_host(host: Seq<char>, port: u16, path: Seq<char>, is_tls: bool)
    requires
        host.len() > 0,
        forall|i: int| 0 <= i < host.len() ==> host[i] != ':' && host[i] != '/' && host[i] != '[',
    ensures
        ({
            let named = host + seq![':'] + decimal(port as nat);
            ws_target(scheme_of(is_tls) + (named + seq!['/'] + path)) == Some(
                WsTargetView {
                    is_tls,
                    host,
                    addr: named,
                    host_port: named,
                    path: seq!['/'] + path,
                },
            )
        }),
{
    let digits = decimal(port as nat);
    let named = host + seq![':'] + digits;
    let rest = named + seq!['/'] + path;
    reveal_strlit(":");
    assert(":"@ =~= seq![':']);
    decimal_is_digits(port as nat);
    assert(digits.len() > 0) by {
        reveal_with_fuel(decimal, 2);
    }
    assert(named.last() == digits.last());
    assert forall|i: int| 0 <= i < named.len() implies named[i] != '/' by {
        if i > host.len() {
            assert(named[i] == digits[i - host.len() - 1]);
        }
    }
    assert(address(host, port) =~= named);
    host_and_port_of_address(host, port, is_tls);
    authority_is_first(named, path);
    slash_is_first(named, path);
    schemes(rest);
    assert(rest.skip(named.len() as int) =~= seq!['/'] + path);
}

proof fn bare_host(host: Seq<char>, is_tls: bool)
    requires
        host.len() > 0,
        forall|i: int| 0 <= i < host.len() ==> host[i] != ':' && host[i] != '/' && host[i] != '[',
    ensures
        ws_target(scheme_of(is_tls) + host) == Some(
            WsTargetView {
                is_tls,
                host,
                addr: host + if is_tls {
                    seq![':', '4', '4', '3']
                } else {
                    seq![':', '8', '0']
                },
                host_port: host,
                path: seq!['/'],
            },
        ),
{
    reveal_strlit(":");
    reveal_strlit("/");
    assert(":"@ =~= seq![':']);
    assert("/"@ =~= seq!['/']);
    decimal_of_ports();
    host_without_port(host, is_tls);
    no_path(host);
    schemes(host);
    assert(address(host, 443) =~= host + seq![':', '4', '4', '3']);
    assert(address(host, 80) =~= host + seq![':', '8', '0']);
}

proof fn slash_is_first(whole: Seq<char>, path: Seq<char>)
    requires
        forall|i: int| 0 <= i < whole.len() ==> whole[i] != '/',
    ensures
        find_first(whole + seq!['/'] + path, '/') == whole.len(),
{
    let rest = whole + seq!['/'] + path;
    find_from_is_first(rest, '/', 0);
    let at = find_first(rest, '/');
    assert(rest[whole.len() as int] == '/');
    if at < whole.len() {
        assert(rest[at] == whole[at]);
    }
}

proof fn no_path(host: Seq<char>)
    requires
        host.len() > 0,
        forall|i: int| 0 <= i < host.len() ==> host[i] != ':' && host[i] != '/',
    ensures
        find_first(host, '/') == host.len(),
        authority(host) == host,
{
    find_from_is_first(host, '/', 0);
    assert(host.take(host.len() as int) =~= host);
}

proof fn schemes(rest: Seq<char>)
    ensures
        ws_scheme(seq!['w', 's', 's', ':', '/', '/'] + rest) == Some((true, rest)),
        ws_scheme(seq!['w', 's', ':', '/', '/'] + rest) == Some((false, rest)),
{
    let (ws, wss) = (seq!['w', 's', ':', '/', '/'], seq!['w', 's', 's', ':', '/', '/']);
    reveal_strlit("wss://");
    reveal_strlit("ws://");
    assert("wss://"@ =~= wss);
    assert("ws://"@ =~= ws);
    assert((wss + rest).skip(6) =~= rest);
    assert((ws + rest).skip(5) =~= rest);
    assert(wss.is_prefix_of(wss + rest));
    assert(ws.is_prefix_of(ws + rest));
    if wss.is_prefix_of(ws + rest) {
        assert((ws + rest)[2] == wss[2]);
    }
}

// ----------------------------------------------------------------------
// Virtual users
// ----------------------------------------------------------------------

/// A virtual user waits for its share of the ramp-up and then opens a
/// WebSocket while the end is ahead, and stops where it is not. One that did
/// not open is recorded as a failed connection, and after a rest it goes on in
/// the same way.
pub proof fn users_open_their_websocket(
    vu: WsVu,
    ws: WsView,
    e: ConnError,
    mask: Seq<u8>,
    at_secs: u64,
)
    requires
        vu.phase == WsPhase::Ramping,
    ensures
        ({
            let (first, ramp) = vu.after(ws, WsEvent::Resume, mask);
            let (second, ask) = first.after(ws, WsEvent::Resume, mask);
            let (third, open) = second.after(ws, WsEvent::Clock(true), mask);
            let (fourth, rest) = third.after(ws, WsEvent::Connected(Some(e)), mask);
            let failed = WsEvent::Connected(Some(e));
            &&& ramp == WsActionView::RampUp
            &&& ask == WsActionView::AskClock
            &&& open == WsActionView::Connect
            &&& rest == WsActionView::Rest
            &&& second.after(ws, WsEvent::Clock(false), mask).1 == WsActionView::Stop
            &&& fourth.after(ws, WsEvent::Resume, mask) == (second, WsActionView::AskClock)
            &&& vu.recording(ws, WsEvent::Resume, at_secs) is None
            &&& first.recording(ws, WsEvent::Resume, at_secs) is None
            &&& second.recording(ws, WsEvent::Clock(true), at_secs) is None
            &&& fourth.recording(ws, WsEvent::Resume, at_secs) is None
            &&& third.recording(ws, failed, at_secs) == Some(
                Recorded::ConnFailure { at_secs, cause: e },
            )
            &&& third.phase == WsPhase::Connecting
        }),
{
}

/// On an open WebSocket a virtual user that only receives sends its message
/// once, where it has one, which is not counted; the others ask for the time at
/// once.
pub proof fn receivers_subscribe(vu: WsVu, ws: WsView, mask: Seq<u8>, sent: bool, at_secs: u64)
    requires
        vu.phase == WsPhase::Connecting,
    ensures
        ({
            let opened = WsEvent::Connected(None);
            let (next, action) = vu.after(ws, opened, mask);
            let subscribes = ws.mode == WsMode::Recv && ws.message.len() > 0;
            &&& vu.recording(ws, opened, at_secs) is None
            &&& subscribes ==> {
                let (then, what) = next.after(ws, WsEvent::Sent(sent), mask);
                &&& action == WsActionView::Send(frame(1, ws.message, Some(mask)))
                &&& next.recording(ws, WsEvent::Sent(sent), at_secs) is None
                &&& what == WsActionView::AskClock
                &&& then.phase == if sent {
                    WsPhase::Turning
                } else {
                    WsPhase::Deciding
                }
            }
            &&& !subscribes ==> action == WsActionView::AskClock && next.phase == WsPhase::Turning
        }),
{
}

/// In each round an echo sends its message in a text frame and waits for a
/// reply, whoever only sends waits for the pause first and then for nothing,
/// and whoever only receives waits for a message. A message that was sent by
/// one that only sends, or that came to one that only receives, is a request
/// that succeeded with the status 101, a latency of 0 and its own bytes.
pub proof fn rounds_go_by_the_mode(
    vu: WsVu,
    ws: WsView,
    mask: Seq<u8>,
    bytes: usize,
    after_us: u64,
    at_secs: u64,
)
    requires
        vu.phase == WsPhase::Turning,
        ws.message.len() <= usize::MAX,
    ensures
        ({
            let (next, action) = vu.after(ws, WsEvent::Clock(true), mask);
            let message = WsActionView::Send(frame(1, ws.message, Some(mask)));
            let came = WsEvent::Received { bytes, after_us };
            &&& vu.recording(ws, WsEvent::Clock(true), at_secs) is None
            &&& ws.mode == WsMode::Echo ==> {
                let (waiting, wait) = next.after(ws, WsEvent::Sent(true), mask);
                &&& action == message
                &&& wait == WsActionView::Receive
                &&& next.recording(ws, WsEvent::Sent(true), at_secs) == Some(
                    Recorded::Sent { at_secs },
                )
                &&& waiting.after(ws, came, mask) == (vu, WsActionView::AskClock)
            }
            &&& ws.mode == WsMode::Send ==> {
                let (sending, sent) = next.after(ws, WsEvent::Resume, mask);
                &&& action == WsActionView::Pause
                &&& next.recording(ws, WsEvent::Resume, at_secs) is None
                &&& sent == message
                &&& sending.after(ws, WsEvent::Sent(true), mask) == (vu, WsActionView::AskClock)
                &&& sending.recording(ws, WsEvent::Sent(true), at_secs) == Some(
                    Recorded::Request {
                        at_secs,
                        latency_us: 0,
                        status: 101,
                        bytes: ws.message.len() as u64,
                        is_success: true,
                        error: None,
                    },
                )
            }
            &&& ws.mode == WsMode::Recv ==> {
                &&& action == WsActionView::Receive
                &&& next.after(ws, came, mask) == (vu, WsActionView::AskClock)
                &&& next.recording(ws, came, at_secs) == Some(
                    Recorded::Request {
                        at_secs,
                        latency_us: 0,
                        status: 101,
                        bytes: bytes as u64,
                        is_success: true,
                        error: None,
                    },
                )
            }
        }),
{
}

/// A WebSocket is left where the end has come, where a message could not be
/// sent and where none will come; none of this is recorded. A new one is opened
/// while the end is ahead.
pub proof fn lost_websockets_are_opened_again(vu: WsVu, ws: WsView, event: WsEvent, mask: Seq<u8>)
    requires
        ({
            ||| vu.phase == WsPhase::Turning && event == WsEvent::Clock(false)
            ||| vu.phase == WsPhase::Sending && event == WsEvent::Sent(false)
            ||| vu.phase == WsPhase::Receiving && event == WsEvent::Lost
        }),
    ensures
        ({
            let (next, action) = vu.after(ws, event, mask);
            &&& action == WsActionView::AskClock
            &&& next.after(ws, WsEvent::Clock(true), mask).1 == WsActionView::Connect
            &&& next.after(ws, WsEvent::Clock(false), mask).1 == WsActionView::Stop
            &&& forall|at_secs: u64| #[trigger] vu.recording(ws, event, at_secs) is None
        }),
{
}

/// A run has the virtual users, the WebSocket and the end that it was asked
/// for.
pub proof fn websocket_runs_are_as_asked(
    run: WsRun,
    vu_count: u32,
    ws: WsView,
    duration_secs: u64,
    insecure: bool,
    i: int,
)
    requires
        is_ws_run(run, vu_count, ws, duration_secs, insecure),
        0 <= i < vu_count,
    ensures
        run.vus@.len() == vu_count,
        run.insecure == insecure,
        run.duration_secs == duration_secs,
        run.ws.url@ == ws.url,
        run.ws.message@ == ws.message,
        run.ws.mode == ws.mode,
        run.ws.send_interval == ws.send_interval,
        run.vus@[i].index == i,
        run.vus@[i].phase == WsPhase::Ramping,
{
}

}
