//! Wire formats of the node: the length-prefixed frames of the peer mesh
//! and the small piece of HTTP the JSON-RPC gateway reads and writes.
use vstd::prelude::*;
use vstd::utf8::{valid_utf8, decode_utf8};
use vstd::string::StringSliceAdditionalSpecFns;
use crate::bytes::{be_bytes, be_value};
use crate::crypto::extend_bytes;

verus! {

/// Identity of a node on the mesh.
pub type NodeId = [u8; 32];

/// Message between peers of the mesh.
#[derive(Clone, Debug)]
pub enum P2pMessage {
    Consensus(Vec<u8>),
    MempoolTx(Vec<u8>),
    Ping { nonce: u64 },
    Pong { nonce: u64 },
}

#[verifier::external_type_specification]
#[verifier::external_body]
pub struct ExIoError(std::io::Error);

/// Errors of the frame codec.
#[derive(Debug)]
pub enum CodecError {
    Io(std::io::Error),
    Serialization(String),
    MalformedLength,
}

/// Error object of a JSON-RPC response.
#[derive(Clone, Debug)]
pub struct JsonRpcError {
    pub code: i32,
    pub message: String,
}

/// A frame: the payload length as four big-endian bytes (taken modulo
/// 2^32), then the payload.
pub open spec fn frame_bytes(payload: Seq<u8>) -> Seq<u8> {
    be_bytes(payload.len() % 0x1_0000_0000, 4) + payload
}

/// Frames `payload` for the mesh.
pub fn frame(payload: &[u8]) -> (out: Vec<u8>)
    ensures
        out@ == frame_bytes(payload@),
{
    let plen: usize = payload.len();
    let len = plen as u32;
    proof {
        let wide = plen as u64;
        assert(wide as u32 == wide % 0x1_0000_0000) by (bit_vector);
        assert(len == payload@.len() % 0x1_0000_0000);
    }
    let mut out: Vec<u8> = Vec::new();
    out.push((len / 0x100_0000) as u8);
    out.push(((len / 0x1_0000) % 0x100) as u8);
    out.push(((len / 0x100) % 0x100) as u8);
    out.push((len % 0x100) as u8);
    proof {
        let n = len as nat;
        reveal_with_fuel(be_bytes, 5);
        assert(n / 256 / 256 / 256 == n / 0x100_0000) by (nonlinear_arith);
        assert(n / 256 / 256 == n / 0x1_0000) by (nonlinear_arith);
        assert(n / 0x100_0000 < 256) by (nonlinear_arith)
            requires
                n < 0x1_0000_0000,
        ;
        assert(out@ =~= be_bytes(n, 4));
    }
    extend_bytes(&mut out, payload);
    out
}

/// The payload length announced by a buffer's first four bytes.
pub open spec fn frame_len(buf: Seq<u8>) -> nat {
    be_value(buf.take(4))
}

/// Takes one frame off the front of `buf`: its payload and the number of
/// bytes it spans; `None` while the buffer holds no complete frame.
pub fn unframe(buf: &[u8]) -> (r: Option<(Vec<u8>, usize)>)
    ensures
        match r {
            None => buf@.len() < 4 || buf@.len() < 4 + frame_len(buf@),
            Some((p, n)) => buf@.len() >= 4 && n == 4 + frame_len(buf@) && n <= buf@.len() && p@
                == buf@.subrange(4, n as int),
        },
{
    if buf.len() < 4 {
        return None;
    }
    let len: u64 = (buf[0] as u64) * 0x100_0000 + (buf[1] as u64) * 0x1_0000 + (buf[2] as u64)
        * 0x100 + (buf[3] as u64);
    proof {
        let t = buf@.take(4);
        reveal_with_fuel(be_value, 5);
        assert(t.drop_last().drop_last().drop_last().drop_last() =~= Seq::<u8>::empty());
        assert(t.drop_last().drop_last().drop_last() =~= seq![buf@[0]]);
        assert(t.drop_last().drop_last() =~= seq![buf@[0], buf@[1]]);
        assert(t.drop_last() =~= seq![buf@[0], buf@[1], buf@[2]]);
        assert(len == frame_len(buf@));
    }
    let avail = (buf.len() - 4) as u64;
    if avail < len {
        return None;
    }
    let n = 4 + len as usize;
    let mut p: Vec<u8> = Vec::new();
    let mut i: usize = 4;
    while i < n
        invariant
            4 <= i <= n,
            n <= buf@.len(),
            p@ == buf@.subrange(4, i as int),
        decreases n - i,
    {
        p.push(buf[i]);
        i = i + 1;
        assert(p@ =~= buf@.subrange(4, i as int));
    }
    Some((p, n))
}

/// Law: a frame reads back as its payload, whatever follows it, for
/// payloads shorter than 2^32 bytes.
pub proof fn lemma_frame_roundtrip(payload: Seq<u8>, rest: Seq<u8>)
    requires
        payload.len() < 0x1_0000_0000,
    ensures
        (frame_bytes(payload) + rest).len() >= 4,
        frame_len(frame_bytes(payload) + rest) == payload.len(),
        (frame_bytes(payload) + rest).subrange(4, 4 + payload.len() as int) == payload,
{
    let b = frame_bytes(payload) + rest;
    lemma_be_roundtrip4(payload.len());
    assert(b.take(4) =~= be_bytes(payload.len(), 4));
    assert(b.subrange(4, 4 + payload.len() as int) =~= payload);
}

/// Law: a frame cut short is incomplete: no proper prefix of a frame holds
/// a whole frame, so `unframe` answers `None` on it.
pub proof fn lemma_frame_prefix_incomplete(payload: Seq<u8>, k: int)
    requires
        payload.len() < 0x1_0000_0000,
        0 <= k < 4 + payload.len(),
    ensures
        frame_bytes(payload).take(k).len() < 4 || frame_bytes(payload).take(k).len() < 4
            + frame_len(frame_bytes(payload).take(k)),
{
    let f = frame_bytes(payload);
    let b = f.take(k);
    lemma_be_roundtrip4(payload.len());
    assert(payload.len() % 0x1_0000_0000 == payload.len());
    assert(f.len() == 4 + payload.len());
    if k >= 4 {
        assert(b.take(4) =~= be_bytes(payload.len(), 4));
        assert(frame_len(b) == payload.len());
    }
}

/// `256^k`.
pub open spec fn byte_pow(k: nat) -> nat
    decreases k,
{
    if k == 0 {
        1
    } else {
        256 * byte_pow((k - 1) as nat)
    }
}

proof fn lemma_be_roundtrip4(n: nat)
    requires
        n < 0x1_0000_0000,
    ensures
        be_bytes(n, 4).len() == 4,
        be_value(be_bytes(n, 4)) == n,
{
    reveal_with_fuel(byte_pow, 5);
    lemma_be_roundtrip(n, 4);
}

proof fn lemma_be_roundtrip(n: nat, k: nat)
    requires
        n < byte_pow(k),
    ensures
        be_bytes(n, k).len() == k,
        be_value(be_bytes(n, k)) == n,
    decreases k,
{
    if k > 0 {
        let p = byte_pow((k - 1) as nat);
        assert(n / 256 < p) by (nonlinear_arith)
            requires
                n < 256 * p,
        ;
        lemma_be_roundtrip(n / 256, (k - 1) as nat);
        let s = be_bytes(n, k);
        assert(s.drop_last() =~= be_bytes(n / 256, (k - 1) as nat));
        assert(s.last() == (n % 256) as u8);
        assert(n == (n / 256) * 256 + n % 256) by (nonlinear_arith);
    }
}

/// `buf` holds CR LF CR LF at position `i`.
pub open spec fn blank_line_at(buf: Seq<u8>, i: int) -> bool {
    0 <= i && i + 4 <= buf.len() && buf[i] == 13 && buf[i + 1] == 10 && buf[i + 2] == 13 && buf[i
        + 3] == 10
}

/// End of the HTTP head: just past the first CR LF CR LF.
pub fn find_header_end(buf: &[u8]) -> (r: Option<usize>)
    ensures
        match r {
            Some(e) => e >= 4 && blank_line_at(buf@, e - 4) && forall|j: int|
                0 <= j < e - 4 ==> !blank_line_at(buf@, j),
            None => forall|j: int| !blank_line_at(buf@, j),
        },
{
    let n = buf.len();
    if n < 4 {
        return None;
    }
    let mut i: usize = 0;
    while i <= n - 4
        invariant
            n == buf@.len(),
            n >= 4,
            i <= n - 3,
            forall|j: int| 0 <= j < i ==> !blank_line_at(buf@, j),
        decreases n - i,
    {
        if buf[i] == 13 && buf[i + 1] == 10 && buf[i + 2] == 13 && buf[i + 3] == 10 {
            return Some(i + 4);
        }
        i = i + 1;
    }
    None
}

/// Index of the first line feed in `b`, or its length when there is none.
pub open spec fn newline_index(b: Seq<u8>) -> nat
    decreases b.len(),
{
    if b.len() == 0 {
        0
    } else if b[0] == 10 {
        0
    } else {
        1 + newline_index(b.drop_first())
    }
}

/// The first line of `b` without its line ending (LF, or CR LF).
pub open spec fn first_line(b: Seq<u8>) -> Seq<u8> {
    let e = newline_index(b) as int;
    if e < b.len() && e > 0 && b[e - 1] == 13 {
        b.take(e - 1)
    } else {
        b.take(e)
    }
}

/// What follows the first line ending of `b` (nothing when there is none).
pub open spec fn after_first_line(b: Seq<u8>) -> Seq<u8> {
    let e = newline_index(b) as int;
    if e < b.len() {
        b.skip(e + 1)
    } else {
        Seq::empty()
    }
}

/// The rest of the first line of `b` that starts with `name`.
pub open spec fn header_value(b: Seq<u8>, name: Seq<u8>) -> Option<Seq<u8>>
    decreases b.len(),
{
    if b.len() == 0 {
        None
    } else if name.is_prefix_of(first_line(b)) {
        Some(first_line(b).skip(name.len() as int))
    } else {
        header_value(after_first_line(b), name)
    }
}

/// Decimal value of ASCII digits, most significant first.
pub open spec fn decimal_value(d: Seq<u8>) -> nat
    decreases d.len(),
{
    if d.len() == 0 {
        0
    } else {
        decimal_value(d.drop_last()) * 10 + (d.last() - 48) as nat
    }
}

/// Every byte an ASCII digit.
pub open spec fn all_digits(d: Seq<u8>) -> bool {
    forall|i: int| 0 <= i < d.len() ==> 48 <= #[trigger] d[i] <= 57
}

/// An unsigned machine integer in decimal: an optional `+`, then one or
/// more digits, of value at most `usize::MAX`.
pub open spec fn parse_usize(v: Seq<u8>) -> Option<nat> {
    let d = if v.len() > 1 && v[0] == 43 {
        v.skip(1)
    } else {
        v
    };
    if d.len() > 0 && all_digits(d) && decimal_value(d) <= usize::MAX {
        Some(decimal_value(d))
    } else {
        None
    }
}

/// `Content-Length: ` as bytes.
pub open spec fn content_length_name() -> Seq<u8> {
    seq![67u8, 111, 110, 116, 101, 110, 116, 45, 76, 101, 110, 103, 116, 104, 58, 32]
}

/// The body length announced by an HTTP head: the value of its first
/// `Content-Length: ` line when that is a valid number, else 0.
pub open spec fn content_length(head: Seq<u8>) -> nat {
    match header_value(head, content_length_name()) {
        Some(v) => match parse_usize(v) {
            Some(n) => n,
            None => 0,
        },
        None => 0,
    }
}

/// Name for the text `String::from_utf8_lossy` gives for `bytes`.
pub uninterp spec fn utf8_lossy(bytes: Seq<u8>) -> Seq<char>;

/// `String::from_utf8_lossy` (std): the text of `bytes`, each invalid
/// sequence replaced by U+FFFD; valid UTF-8 is decoded as it is.
#[verifier::external_body]
fn lossy_string(bytes: &[u8]) -> (s: String)
    ensures
        s@ == utf8_lossy(bytes@),
        valid_utf8(bytes@) ==> s@ == decode_utf8(bytes@),
{
    String::from_utf8_lossy(bytes).into_owned()
}

/// Position of the first line feed in `b` at or after `i` (`b.len()` when
/// there is none).
fn newline_from(b: &[u8], i: usize) -> (e: usize)
    requires
        i <= b@.len(),
    ensures
        i <= e <= b@.len(),
        e - i == newline_index(b@.skip(i as int)),
        forall|k: int| i <= k < e ==> b@[k] != 10,
        e < b@.len() ==> b@[e as int] == 10,
{
    let n = b.len();
    let mut j: usize = i;
    while j < n && b[j] != 10
        invariant
            i <= j <= n,
            n == b@.len(),
            newline_index(b@.skip(i as int)) == (j - i) + newline_index(b@.skip(j as int)),
            forall|k: int| i <= k < j ==> b@[k] != 10,
        decreases n - j,
    {
        assert(b@.skip(j as int).drop_first() =~= b@.skip(j + 1));
        j = j + 1;
    }
    j
}

proof fn lemma_decimal_prefix(d: Seq<u8>, k: int)
    requires
        all_digits(d),
        0 <= k <= d.len(),
    ensures
        decimal_value(d.take(k)) <= decimal_value(d),
    decreases d.len(),
{
    if k < d.len() {
        assert(all_digits(d.drop_last()));
        lemma_decimal_prefix(d.drop_last(), k);
        assert(d.drop_last().take(k) =~= d.take(k));
    } else {
        assert(d.take(k) =~= d);
    }
}

/// The number written in `b[lo..hi]`, when it is one (see `parse_usize`).
fn parse_usize_bytes(b: &[u8], lo: usize, hi: usize) -> (r: Option<usize>)
    requires
        lo <= hi <= b@.len(),
    ensures
        match r {
            Some(v) => parse_usize(b@.subrange(lo as int, hi as int)) == Some(v as nat),
            None => parse_usize(b@.subrange(lo as int, hi as int)) is None,
        },
{
    let ghost v = b@.subrange(lo as int, hi as int);
    let mut start = lo;
    if hi - lo > 1 && b[lo] == 43 {
        start = lo + 1;
    }
    let ghost d = b@.subrange(start as int, hi as int);
    assert(d == (if v.len() > 1 && v[0] == 43 { v.skip(1) } else { v }));
    if start == hi {
        return None;
    }
    let mut acc: usize = 0;
    let mut j: usize = start;
    while j < hi
        invariant
            start <= j <= hi,
            hi <= b@.len(),
            d == b@.subrange(start as int, hi as int),
            v == b@.subrange(lo as int, hi as int),
            d == (if v.len() > 1 && v[0] == 43 { v.skip(1) } else { v }),
            d.len() > 0,
            all_digits(d.take(j - start)),
            acc == decimal_value(d.take(j - start)),
        decreases hi - j,
    {
        let c = b[j];
        if c < 48 || c > 57 {
            assert(d[j - start] == c);
            return None;
        }
        let ghost k = j - start;
        assert(d.take(k + 1).drop_last() =~= d.take(k));
        assert(d.take(k + 1).last() == c);
        let next = match acc.checked_mul(10) {
            Some(m) => m.checked_add((c - 48) as usize),
            None => None,
        };
        match next {
            Some(x) => {
                acc = x;
            },
            None => {
                proof {
                    if all_digits(d) {
                        lemma_decimal_prefix(d, k + 1);
                    }
                }
                return None;
            },
        }
        j = j + 1;
        assert(all_digits(d.take(j - start)));
    }
    assert(d.take(hi - start) =~= d);
    Some(acc)
}

/// The announced body length of an HTTP head (see `content_length`).
pub fn content_length_of(head: &[u8]) -> (n: usize)
    ensures
        n == content_length(head@),
{
    let n = head.len();
    let ghost name = content_length_name();
    let lit: [u8; 16] = [67u8, 111, 110, 116, 101, 110, 116, 45, 76, 101, 110, 103, 116, 104, 58, 32];
    assert(lit@ =~= name);
    let mut i: usize = 0;
    assert(head@.skip(0) =~= head@);
    while i < n
        invariant
            i <= n,
            n == head@.len(),
            lit@ == name,
            name == content_length_name(),
            header_value(head@, name) == header_value(head@.skip(i as int), name),
        decreases n - i,
    {
        let ghost b = head@.skip(i as int);
        let e = newline_from(head, i);
        let text_end = if e < n && e > i && head[e - 1] == 13 {
            e - 1
        } else {
            e
        };
        assert(first_line(b) =~= head@.subrange(i as int, text_end as int));
        let mut matches = text_end - i >= 16;
        let mut k: usize = 0;
        while matches && k < 16
            invariant
                0 <= k <= 16,
                i + 16 <= text_end ==> i + k <= text_end,
                matches ==> i + 16 <= text_end,
                text_end <= n,
                n == head@.len(),
                lit@ == name,
                matches ==> forall|t: int| 0 <= t < k ==> head@[i + t] == name[t],
                !matches ==> !(i + 16 <= text_end && forall|t: int|
                    0 <= t < 16 ==> head@[i + t] == name[t]),
            decreases 16 - k,
        {
            if head[i + k] != lit[k] {
                matches = false;
            }
            k = k + 1;
        }
        proof {
            let fl = first_line(b);
            if matches {
                assert(name.is_prefix_of(fl)) by {
                    assert forall|t: int| 0 <= t < name.len() implies fl[t] == name[t] by {
                        assert(fl[t] == head@[i + t]);
                    }
                }
            } else {
                if name.is_prefix_of(fl) {
                    assert forall|t: int| 0 <= t < 16 implies head@[i + t] == name[t] by {
                        assert(fl[t] == head@[i + t]);
                    }
                }
            }
        }
        if matches {
            let r = parse_usize_bytes(head, i + 16, text_end);
            proof {
                assert(first_line(b).skip(16) =~= head@.subrange(i + 16, text_end as int));
            }
            return match r {
                Some(v) => v,
                None => 0,
            };
        }
        if e < n {
            assert(after_first_line(b) =~= head@.skip(e + 1));
            i = e + 1;
        } else {
            assert(after_first_line(b) =~= Seq::<u8>::empty());
            assert(head@.skip(n as int) =~= Seq::<u8>::empty());
            i = n;
        }
    }
    assert(head@.skip(n as int) =~= Seq::<u8>::empty());
    0
}

/// Body of an HTTP request: the bytes after the head, as many as the head's
/// `Content-Length` announces (at most those available), as text.
pub fn parse_http_body(headers: &str, trailing: &[u8]) -> (body: String)
    ensures
        body@ == utf8_lossy(
            trailing@.take(
                if content_length(headers.spec_bytes()) < trailing@.len() {
                    content_length(headers.spec_bytes()) as int
                } else {
                    trailing@.len() as int
                },
            ),
        ),
{
    let cl = content_length_of(headers.as_bytes());
    let take = if cl < trailing.len() {
        cl
    } else {
        trailing.len()
    };
    let mut part: Vec<u8> = Vec::new();
    let mut i: usize = 0;
    while i < take
        invariant
            0 <= i <= take,
            take <= trailing@.len(),
            part@ == trailing@.take(i as int),
        decreases take - i,
    {
        part.push(trailing[i]);
        i = i + 1;
        assert(part@ =~= trailing@.take(i as int));
    }
    lossy_string(part.as_slice())
}

/// The decimal digits of `n` as ASCII bytes, most significant first.
pub open spec fn decimal_digits(n: nat) -> Seq<u8>
    decreases n,
{
    if n < 10 {
        seq![(48 + n) as u8]
    } else {
        decimal_digits(n / 10).push((48 + n % 10) as u8)
    }
}

/// Appends the decimal digits of `n` to `out`.
pub fn push_decimal(out: &mut Vec<u8>, n: usize)
    ensures
        final(out)@ == old(out)@ + decimal_digits(n as nat),
    decreases n,
{
    if n < 10 {
        out.push((48 + n) as u8);
        assert(out@ =~= old(out)@ + decimal_digits(n as nat));
    } else {
        push_decimal(out, n / 10);
        out.push((48 + n % 10) as u8);
        assert(out@ =~= old(out)@ + decimal_digits(n as nat));
    }
}

/// The HTTP answer the JSON-RPC gateway sends for a response body: status
/// 200, JSON content type, the body's length in `Content-Length`, keep-alive,
/// then the body.
pub open spec fn http_ok_response(body: Seq<u8>) -> Seq<u8> {
    "HTTP/1.1 200 OK\r\nContent-Type: application/json\r\nContent-Length: ".spec_bytes()
        + decimal_digits(body.len()) + "\r\nConnection: keep-alive\r\n\r\n".spec_bytes() + body
}

/// Builds the HTTP answer for a JSON-RPC response body.
pub fn http_ok_response_bytes(body: &[u8]) -> (out: Vec<u8>)
    ensures
        out@ == http_ok_response(body@),
{
    let mut out: Vec<u8> = Vec::new();
    extend_bytes(&mut out, "HTTP/1.1 200 OK\r\nContent-Type: application/json\r\nContent-Length: ".as_bytes());
    push_decimal(&mut out, body.len());
    extend_bytes(&mut out, "\r\nConnection: keep-alive\r\n\r\n".as_bytes());
    extend_bytes(&mut out, body);
    assert(out@ =~= http_ok_response(body@));
    out
}

/// Node id of testnet node `idx`: `idx`, then 0xAB, then zeros.
pub open spec fn spec_node_id(idx: u8) -> Seq<u8> {
    Seq::new(32, |i: int| if i == 0 { idx } else if i == 1 { 0xABu8 } else { 0u8 })
}

/// Node id of testnet node `idx`.
pub fn derive_node_id(idx: u8) -> (id: NodeId)
    ensures
        id@ == spec_node_id(idx),
{
    let mut id = [0u8; 32];
    id[0] = idx;
    id[1] = 0xAB;
    assert(id@ =~= spec_node_id(idx));
    id
}

/// Port of testnet node `idx` on localhost.
pub fn testnet_port(idx: u8) -> (port: u16)
    ensures
        port == 10000 + idx,
{
    10000 + idx as u16
}

/// Indices of the other nodes of the four-node testnet, ascending.
pub fn testnet_peer_indices(my_idx: u8) -> (peers: Vec<u8>)
    ensures
        peers@ == Seq::new(4, |i: int| i as u8).filter(|i: u8| i != my_idx),
{
    let mut peers: Vec<u8> = Vec::new();
    let ghost all = Seq::new(4, |i: int| i as u8);
    let ghost f = |i: u8| i != my_idx;
    let mut i: u8 = 0;
    while i < 4
        invariant
            0 <= i <= 4,
            all == Seq::new(4, |k: int| k as u8),
            f == (|k: u8| k != my_idx),
            peers@ == all.take(i as int).filter(f),
        decreases 4 - i,
    {
        proof {
            reveal(Seq::filter);
            assert(all.take(i + 1).drop_last() =~= all.take(i as int));
            assert(all.take(i + 1).last() == i);
        }
        if i != my_idx {
            peers.push(i);
        }
        i = i + 1;
    }
    assert(all.take(4) =~= all);
    peers
}

} // verus!
