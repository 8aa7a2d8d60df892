//! The small fixed-format messages of the GC coordination tool, and the pieces
//! of its measurements that compute.
use vstd::prelude::*;

use std::time::{Duration, Instant};
use vstd::utf8::{decode_utf8, encode_utf8, encode_utf8_decode_utf8, encode_utf8_valid_utf8, valid_utf8};

use crate::sync::utf8_len;

verus! {

#[verifier::external_type_specification]
#[verifier::external_body]
pub struct ExInstant(std::time::Instant);

/// What `String::from_utf8_lossy` makes of bytes that are not valid UTF-8.
pub uninterp spec fn lossy_utf8(b: Seq<u8>) -> Seq<char>;

/// The text of a byte string: decoded where valid UTF-8, else the lossy reading.
pub open spec fn text_of(b: Seq<u8>) -> Seq<char> {
    if valid_utf8(b) {
        decode_utf8(b)
    } else {
        lossy_utf8(b)
    }
}

/// Relies on `String::from_utf8_lossy`: valid UTF-8 is decoded unchanged;
/// otherwise the result depends on the bytes alone.
#[verifier::external_body]
fn utf8_lossy(b: &[u8]) -> (r: String)
    ensures
        valid_utf8(b@) ==> r@ == decode_utf8(b@),
        !valid_utf8(b@) ==> r@ == lossy_utf8(b@),
{
    String::from_utf8_lossy(b).to_string()
}

/// Relies on `Instant::now`: the current instant of a monotonic clock.
#[verifier::external_body]
fn instant_now() -> Instant {
    Instant::now()
}

/// Relies on `Instant::elapsed`: time since `start`.
#[verifier::external_body]
fn elapsed_since(start: &Instant) -> Duration {
    start.elapsed()
}

/// The `k` little-endian bytes of `n` (modulo `256^k`).
pub open spec fn le_bytes(n: nat, k: nat) -> Seq<u8>
    decreases k,
{
    if k == 0 {
        Seq::empty()
    } else {
        seq![(n % 256) as u8] + le_bytes(n / 256, (k - 1) as nat)
    }
}

/// The number that little-endian bytes `b` denote.
pub open spec fn le_value(b: Seq<u8>) -> nat
    decreases b.len(),
{
    if b.len() == 0 {
        0
    } else {
        b[0] as nat + 256 * le_value(b.drop_first())
    }
}

/// `256^k`.
pub open spec fn pow256(k: nat) -> nat
    decreases k,
{
    if k == 0 {
        1
    } else {
        256 * pow256((k - 1) as nat)
    }
}

/// Reading back `k` little-endian bytes of a number below `256^k` gives it.
pub proof fn lemma_le_round_trip(n: nat, k: nat)
    requires
        n < pow256(k),
    ensures
        le_bytes(n, k).len() == k,
        le_value(le_bytes(n, k)) == n,
    decreases k,
{
    if k > 0 {
        assert(n / 256 < pow256((k - 1) as nat)) by (nonlinear_arith)
            requires
                n < 256 * pow256((k - 1) as nat),
        ;
        lemma_le_round_trip(n / 256, (k - 1) as nat);
        let b = le_bytes(n, k);
        assert(b.drop_first() =~= le_bytes(n / 256, (k - 1) as nat));
        assert(n == n % 256 + 256 * (n / 256)) by (nonlinear_arith);
    }
}

/// A coordination message, as the wire carries it.
pub enum MessageModel {
    Watermark(Seq<char>, u64),
    Threshold(u64),
    Ack,
}

/// Messages of the GC coordination protocol.
#[derive(Debug, Clone)]
pub enum GcMessage {
    /// A peer reports its low watermark version.
    WatermarkReport { peer_id: String, version: u64 },
    /// The coordinator announces the version below which history may go.
    SafeThreshold { threshold: u64 },
    /// Acknowledgment.
    Ack,
}

impl View for GcMessage {
    type V = MessageModel;

    open spec fn view(&self) -> MessageModel {
        match self {
            GcMessage::WatermarkReport { peer_id, version } => MessageModel::Watermark(
                peer_id@,
                *version,
            ),
            GcMessage::SafeThreshold { threshold } => MessageModel::Threshold(*threshold),
            GcMessage::Ack => MessageModel::Ack,
        }
    }
}

/// The wire form: a kind byte (0, 1, 2); a watermark report then carries the
/// UTF-8 length of the peer id in four little-endian bytes, the id, and the
/// version in eight; a threshold carries the version in eight.
pub open spec fn encode_message(m: MessageModel) -> Seq<u8> {
    match m {
        MessageModel::Watermark(p, v) => seq![0u8] + le_bytes(encode_utf8(p).len(), 4) + encode_utf8(
            p,
        ) + le_bytes(v as nat, 8),
        MessageModel::Threshold(t) => seq![1u8] + le_bytes(t as nat, 8),
        MessageModel::Ack => seq![2u8],
    }
}

/// What a byte string decodes to; bytes past the message are ignored.
pub open spec fn decode_message(b: Seq<u8>) -> Option<MessageModel> {
    if b.len() == 0 {
        None
    } else if b[0] == 0 {
        if b.len() < 13 {
            None
        } else {
            let n = le_value(b.subrange(1, 5)) as int;
            if b.len() < 13 + n {
                None
            } else {
                Some(
                    MessageModel::Watermark(
                        text_of(b.subrange(5, 5 + n)),
                        le_value(b.subrange(5 + n, 13 + n)) as u64,
                    ),
                )
            }
        }
    } else if b[0] == 1 {
        if b.len() < 9 {
            None
        } else {
            Some(MessageModel::Threshold(le_value(b.subrange(1, 9)) as u64))
        }
    } else if b[0] == 2 {
        Some(MessageModel::Ack)
    } else {
        None
    }
}

/// Appends the `k` little-endian bytes of `n`.
fn push_le(out: &mut Vec<u8>, n: u64, k: usize)
    requires
        k <= 8,
    ensures
        final(out)@ == old(out)@ + le_bytes(n as nat, k as nat),
{
    let ghost start = out@;
    let mut x: u64 = n;
    let mut i: usize = 0;
    while i < k
        invariant
            i <= k,
            k <= 8,
            out@ + le_bytes(x as nat, (k - i) as nat) == start + le_bytes(n as nat, k as nat),
        decreases k - i,
    {
        let ghost before = out@;
        out.push((x % 256) as u8);
        proof {
            assert(le_bytes(x as nat, (k - i) as nat) == seq![(x % 256) as u8] + le_bytes(
                (x / 256) as nat,
                (k - i - 1) as nat,
            ));
            assert(out@ + le_bytes((x / 256) as nat, (k - i - 1) as nat) =~= before + le_bytes(
                x as nat,
                (k - i) as nat,
            ));
        }
        x = x / 256;
        i = i + 1;
    }
    assert(le_bytes(x as nat, 0) =~= Seq::<u8>::empty());
    assert(out@ =~= start + le_bytes(n as nat, k as nat));
}

/// The number denoted by the `k` little-endian bytes at `start`.
fn read_le(b: &[u8], start: usize, k: usize) -> (r: u64)
    requires
        k <= 8,
        start + k <= b@.len(),
    ensures
        r as nat == le_value(b@.subrange(start as int, start + k)),
{
    let mut acc: u64 = 0;
    let mut i: usize = k;
    let len = b.len();
    proof {
        assert(b@.subrange(start + k, start + k) =~= Seq::<u8>::empty());
    }
    while i > 0
        invariant
            i <= k,
            k <= 8,
            start + k <= b@.len(),
            len == b@.len(),
            acc as nat == le_value(b@.subrange(start + i, start + k)),
            (acc as nat) < pow256((k - i) as nat),
        decreases i,
    {
        i = i - 1;
        let ghost tail = b@.subrange(start + i + 1, start + k);
        let byte = b[start + i];
        proof {
            assert(b@.subrange(start + i, start + k).drop_first() =~= tail);
            lemma_pow256_values();
            assert(pow256((k - i) as nat) == 256 * pow256((k - i - 1) as nat));
            assert(acc * 256 + byte < pow256((k - i) as nat)) by (nonlinear_arith)
                requires
                    acc < pow256((k - i - 1) as nat),
                    byte < 256,
                    pow256((k - i) as nat) == 256 * pow256((k - i - 1) as nat),
            ;
        }
        acc = acc * 256 + byte as u64;
    }
    acc
}

/// The powers of 256 up to `256^8`.
proof fn lemma_pow256_values()
    ensures
        pow256(0) == 1,
        pow256(1) == 0x100,
        pow256(2) == 0x1_0000,
        pow256(3) == 0x100_0000,
        pow256(4) == 0x1_0000_0000,
        pow256(5) == 0x100_0000_0000,
        pow256(6) == 0x1_0000_0000_0000,
        pow256(7) == 0x100_0000_0000_0000,
        pow256(8) == 0x1_0000_0000_0000_0000,
{
    reveal_with_fuel(pow256, 9);
}

impl GcMessage {
    /// The wire form of this message.
    pub fn to_bytes(&self) -> (r: Vec<u8>)
        requires
            self matches GcMessage::WatermarkReport { peer_id, .. } ==> encode_utf8(peer_id@).len()
                <= u32::MAX,
        ensures
            r@ == encode_message(self@),
    {
        match self {
            GcMessage::WatermarkReport { peer_id, version } => {
                let mut bytes: Vec<u8> = Vec::new();
                bytes.push(0u8);
                let n = utf8_len(peer_id);
                push_le(&mut bytes, n as u64, 4);
                let id: &[u8] = peer_id.as_str().as_bytes();
                let mut i: usize = 0;
                let ghost before = bytes@;
                while i < id.len()
                    invariant
                        i <= id@.len(),
                        bytes@ == before + id@.take(i as int),
                    decreases id.len() - i,
                {
                    bytes.push(id[i]);
                    i = i + 1;
                    assert(bytes@ =~= before + id@.take(i as int));
                }
                assert(id@.take(id@.len() as int) =~= id@);
                push_le(&mut bytes, *version, 8);
                assert(bytes@ =~= encode_message(self@));
                bytes
            },
            GcMessage::SafeThreshold { threshold } => {
                let mut bytes: Vec<u8> = Vec::new();
                bytes.push(1u8);
                push_le(&mut bytes, *threshold, 8);
                assert(bytes@ =~= encode_message(self@));
                bytes
            },
            GcMessage::Ack => {
                let mut bytes: Vec<u8> = Vec::new();
                bytes.push(2u8);
                assert(bytes@ =~= encode_message(self@));
                bytes
            },
        }
    }

    /// Decodes a message; `None` for an empty input, an unknown kind byte or
    /// one too short for its kind.
    pub fn from_bytes(bytes: &[u8]) -> (r: Option<GcMessage>)
        ensures
            r is None <==> decode_message(bytes@) is None,
            r matches Some(m) ==> decode_message(bytes@) == Some(m@),
    {
        if bytes.len() == 0 {
            return None;
        }
        if bytes[0] == 0 {
            if bytes.len() < 13 {
                return None;
            }
            let n = read_le(bytes, 1, 4);
            proof {
                lemma_pow256_values();
                assert(n < 0x1_0000_0000) by {
                    let s = bytes@.subrange(1, 5);
                    assert(le_value(s) < pow256(4)) by {
                        lemma_le_bound(s);
                    }
                }
            }
            if (bytes.len() as u64) < 13 + n {
                return None;
            }
            let start: usize = 5;
            let end: usize = 5 + n as usize;
            let id = utf8_lossy(slice_range(bytes, start, end));
            let version = read_le(bytes, end, 8);
            Some(GcMessage::WatermarkReport { peer_id: id, version })
        } else if bytes[0] == 1 {
            if bytes.len() < 9 {
                return None;
            }
            Some(GcMessage::SafeThreshold { threshold: read_le(bytes, 1, 8) })
        } else if bytes[0] == 2 {
            Some(GcMessage::Ack)
        } else {
            None
        }
    }
}

/// Little-endian bytes denote a number below `256^len`.
proof fn lemma_le_bound(b: Seq<u8>)
    ensures
        le_value(b) < pow256(b.len()),
    decreases b.len(),
{
    if b.len() > 0 {
        lemma_le_bound(b.drop_first());
        let t = le_value(b.drop_first());
        let p = pow256((b.len() - 1) as nat);
        assert(b[0] as nat + 256 * t < 256 * p) by (nonlinear_arith)
            requires
                t < p,
                b[0] < 256,
        ;
    }
}

/// The bytes of `b` from `start` up to `end`.
fn slice_range(b: &[u8], start: usize, end: usize) -> (r: &[u8])
    requires
        start <= end <= b@.len(),
    ensures
        r@ == b@.subrange(start as int, end as int),
{
    vstd::slice::slice_subrange(b, start, end)
}

/// Decoding the wire form of a message gives the message back.
pub proof fn lemma_message_round_trip(m: MessageModel)
    requires
        m matches MessageModel::Watermark(p, _) ==> encode_utf8(p).len() <= u32::MAX,
    ensures
        decode_message(encode_message(m)) == Some(m),
{
    lemma_pow256_values();
    match m {
        MessageModel::Watermark(p, v) => {
            let e = encode_utf8(p);
            let n = e.len();
            lemma_le_round_trip(n, 4);
            lemma_le_round_trip(v as nat, 8);
            let b = encode_message(m);
            assert(b.subrange(1, 5) =~= le_bytes(n, 4));
            assert(b.subrange(5, 5 + n as int) =~= e);
            assert(b.subrange(5 + n as int, 13 + n as int) =~= le_bytes(v as nat, 8));
            encode_utf8_valid_utf8(p);
            encode_utf8_decode_utf8(p);
        },
        MessageModel::Threshold(t) => {
            lemma_le_round_trip(t as nat, 8);
            let b = encode_message(m);
            assert(b.subrange(1, 9) =~= le_bytes(t as nat, 8));
        },
        MessageModel::Ack => {},
    }
}

/// The lowest reported watermark, 0 when none was reported.
pub fn safe_threshold(watermarks: &Vec<u64>) -> (r: u64)
    ensures
        watermarks@.len() == 0 ==> r == 0,
        watermarks@.len() > 0 ==> watermarks@.contains(r) && forall|i: int|
            0 <= i < watermarks@.len() ==> r <= #[trigger] watermarks@[i],
{
    if watermarks.len() == 0 {
        return 0;
    }
    let mut m = watermarks[0];
    let mut i: usize = 1;
    while i < watermarks.len()
        invariant
            1 <= i <= watermarks@.len(),
            watermarks@.contains(m),
            forall|j: int| 0 <= j < i ==> m <= #[trigger] watermarks@[j],
        decreases watermarks.len() - i,
    {
        if watermarks[i] < m {
            m = watermarks[i];
        }
        i = i + 1;
    }
    m
}

/// How many of `history_nodes` nodes a local cut to depth `gc_depth` drops.
pub fn dag_gc_removed(history_nodes: usize, gc_depth: usize) -> (r: usize)
    ensures
        r == if history_nodes > gc_depth {
            history_nodes - gc_depth
        } else {
            0
        },
{
    let mut removed: usize = 0;
    let mut i: usize = 0;
    let cut: usize = if history_nodes > gc_depth { history_nodes - gc_depth } else { 0 };
    while i < history_nodes
        invariant
            i <= history_nodes,
            removed == if i < cut { i } else { cut },
        decreases history_nodes - i,
    {
        if i < cut {
            removed = removed + 1;
        }
        i = i + 1;
    }
    removed
}

/// Times a local history cut: no network round trip is involved.
pub fn measure_dag_gc_local(history_nodes: usize, gc_depth: usize) -> Duration {
    let start = instant_now();
    let _removed = dag_gc_removed(history_nodes, gc_depth);
    elapsed_since(&start)
}

/// Where a coordinator listens and the delay it adds to each message.
#[derive(Debug, Clone)]
pub struct TcpGcCoordinator {
    pub port: u16,
    pub injected_delay_ms: u64,
}

impl TcpGcCoordinator {
    /// A coordinator on `port` with the given injected delay.
    pub fn new(port: u16, injected_delay_ms: u64) -> (r: TcpGcCoordinator)
        ensures
            r.port == port,
            r.injected_delay_ms == injected_delay_ms,
    {
        TcpGcCoordinator { port, injected_delay_ms }
    }
}

/// A peer that reports its watermark to a coordinator.
#[derive(Debug, Clone)]
pub struct TcpGcPeer {
    pub peer_id: String,
    pub coordinator_port: u16,
    pub injected_delay_ms: u64,
}

impl TcpGcPeer {
    /// A peer named `peer_id` reporting to `coordinator_port`.
    pub fn new(peer_id: &str, coordinator_port: u16, injected_delay_ms: u64) -> (r: TcpGcPeer)
        ensures
            r.peer_id@ == peer_id@,
            r.coordinator_port == coordinator_port,
            r.injected_delay_ms == injected_delay_ms,
    {
        TcpGcPeer { peer_id: peer_id.to_owned(), coordinator_port, injected_delay_ms }
    }
}

/// The outcome of one coordination round.
#[derive(Debug)]
pub struct GcCoordinationResult {
    pub total_time: Duration,
    pub network_time: Duration,
    pub messages_sent: usize,
    pub messages_received: usize,
    pub safe_threshold: u64,
}

} // verus!
