use vstd::prelude::*;
use vstd::utf8::encode_utf8;

use crate::message::{CanMessage, Chunk, GpsMessage, Message};

verus! {

/// A `u64` as eight little-endian bytes.
pub open spec fn le_u64(x: u64) -> Seq<u8> {
    seq![
        x as u8,
        (x >> 8u64) as u8,
        (x >> 16u64) as u8,
        (x >> 24u64) as u8,
        (x >> 32u64) as u8,
        (x >> 40u64) as u8,
        (x >> 48u64) as u8,
        (x >> 56u64) as u8,
    ]
}

/// A `u32` as four little-endian bytes.
pub open spec fn le_u32(x: u32) -> Seq<u8> {
    seq![x as u8, (x >> 8u32) as u8, (x >> 16u32) as u8, (x >> 24u32) as u8]
}

/// A flag as one byte, 1 or 0.
pub open spec fn flag(b: bool) -> u8 {
    if b {
        1
    } else {
        0
    }
}

/// A byte string prefixed by its length.
pub open spec fn field(b: Seq<u8>) -> Seq<u8> {
    le_u64(b.len() as u64) + b
}

/// One CAN entry: time, channel name, arbitration id, the error, remote and
/// extended flags, and the payload.
pub open spec fn can_entry(m: CanMessage) -> Seq<u8> {
    le_u64(m.time as u64) + field(encode_utf8(m.channel@)) + le_u32(m.frame.id) + seq![
        flag(m.frame.error),
        flag(m.frame.remote),
        flag(m.frame.extended),
    ] + field(m.frame.data@)
}

/// One GPS entry: time, longitude, latitude, speed.
pub open spec fn gps_entry(m: GpsMessage) -> Seq<u8> {
    le_u64(m.time as u64) + le_u64(m.longitude) + le_u64(m.latitude) + le_u64(m.speed)
}

/// The CAN messages of a sequence, in order.
pub open spec fn cans_of(s: Seq<Message>) -> Seq<CanMessage>
    decreases s.len(),
{
    if s.len() == 0 {
        Seq::empty()
    } else {
        match s.last() {
            Message::CAN(m) => cans_of(s.drop_last()).push(m),
            Message::GPS(_) => cans_of(s.drop_last()),
        }
    }
}

/// The GPS messages of a sequence, in order.
pub open spec fn gpss_of(s: Seq<Message>) -> Seq<GpsMessage>
    decreases s.len(),
{
    if s.len() == 0 {
        Seq::empty()
    } else {
        match s.last() {
            Message::GPS(m) => gpss_of(s.drop_last()).push(m),
            Message::CAN(_) => gpss_of(s.drop_last()),
        }
    }
}

/// CAN entries one after another.
pub open spec fn can_entries(s: Seq<CanMessage>) -> Seq<u8>
    decreases s.len(),
{
    if s.len() == 0 {
        Seq::empty()
    } else {
        can_entries(s.drop_last()) + can_entry(s.last())
    }
}

/// GPS entries one after another.
pub open spec fn gps_entries(s: Seq<GpsMessage>) -> Seq<u8>
    decreases s.len(),
{
    if s.len() == 0 {
        Seq::empty()
    } else {
        gps_entries(s.drop_last()) + gps_entry(s.last())
    }
}

/// The compact form of a chunk: the device id and time, then the CAN entries
/// and then the GPS entries, each list prefixed by its length. Each list keeps
/// the arrival order of its own kind.
pub open spec fn compact(c: Chunk) -> Seq<u8> {
    let cans = cans_of(c.messages@);
    let gpss = gpss_of(c.messages@);
    field(encode_utf8(c.id@)) + le_u64(c.time as u64) + le_u64(cans.len() as u64) + can_entries(cans)
        + le_u64(gpss.len() as u64) + gps_entries(gpss)
}

fn put_u64(out: &mut Vec<u8>, x: u64)
    ensures
        final(out)@ == old(out)@ + le_u64(x),
{
    out.push(x as u8);
    out.push((x >> 8u64) as u8);
    out.push((x >> 16u64) as u8);
    out.push((x >> 24u64) as u8);
    out.push((x >> 32u64) as u8);
    out.push((x >> 40u64) as u8);
    out.push((x >> 48u64) as u8);
    out.push((x >> 56u64) as u8);
    assert(final(out)@ =~= old(out)@ + le_u64(x));
}

fn put_u32(out: &mut Vec<u8>, x: u32)
    ensures
        final(out)@ == old(out)@ + le_u32(x),
{
    out.push(x as u8);
    out.push((x >> 8u32) as u8);
    out.push((x >> 16u32) as u8);
    out.push((x >> 24u32) as u8);
    assert(final(out)@ =~= old(out)@ + le_u32(x));
}

fn put_field(out: &mut Vec<u8>, b: &[u8])
    ensures
        final(out)@ == old(out)@ + field(b@),
{
    put_u64(out, b.len() as u64);
    let ghost start = out@;
    let mut i: usize = 0;
    while i < b.len()
        invariant
            i <= b@.len(),
            out@ == start + b@.subrange(0, i as int),
        decreases b@.len() - i,
    {
        out.push(b[i]);
        i = i + 1;
        assert(out@ =~= start + b@.subrange(0, i as int));
    }
    assert(b@.subrange(0, b@.len() as int) =~= b@);
    assert(out@ =~= old(out)@ + field(b@));
}

fn put_can(out: &mut Vec<u8>, m: &CanMessage)
    ensures
        final(out)@ == old(out)@ + can_entry(*m),
{
    put_u64(out, m.time as u64);
    put_field(out, m.channel.as_str().as_bytes());
    put_u32(out, m.frame.id);
    out.push(if m.frame.error { 1u8 } else { 0u8 });
    out.push(if m.frame.remote { 1u8 } else { 0u8 });
    out.push(if m.frame.extended { 1u8 } else { 0u8 });
    put_field(out, m.frame.data.as_slice());
    assert(final(out)@ =~= old(out)@ + can_entry(*m));
}

fn put_gps(out: &mut Vec<u8>, m: &GpsMessage)
    ensures
        final(out)@ == old(out)@ + gps_entry(*m),
{
    put_u64(out, m.time as u64);
    put_u64(out, m.longitude);
    put_u64(out, m.latitude);
    put_u64(out, m.speed);
    assert(final(out)@ =~= old(out)@ + gps_entry(*m));
}

impl Chunk {
    /// The compact binary form, for the broker.
    pub fn to_vec(&self) -> (r: Vec<u8>)
        ensures
            r@ == compact(*self),
    {
        let msgs = &self.messages;
        let mut out: Vec<u8> = Vec::new();
        put_field(&mut out, self.id.as_str().as_bytes());
        put_u64(&mut out, self.time as u64);
        let mut n_can: u64 = 0;
        let mut n_gps: u64 = 0;
        let mut i: usize = 0;
        while i < msgs.len()
            invariant
                i <= msgs@.len(),
                n_can == cans_of(msgs@.subrange(0, i as int)).len(),
                n_gps == gpss_of(msgs@.subrange(0, i as int)).len(),
                n_can + n_gps == i,
            decreases msgs@.len() - i,
        {
            let ghost pre = msgs@.subrange(0, i as int);
            assert(msgs@.subrange(0, i + 1).drop_last() =~= pre);
            match &msgs[i] {
                Message::CAN(_) => {
                    n_can = n_can + 1;
                },
                Message::GPS(_) => {
                    n_gps = n_gps + 1;
                },
            }
            i = i + 1;
        }
        assert(msgs@.subrange(0, msgs@.len() as int) =~= msgs@);
        put_u64(&mut out, n_can);
        let ghost head = out@;
        let mut i: usize = 0;
        while i < msgs.len()
            invariant
                i <= msgs@.len(),
                out@ == head + can_entries(cans_of(msgs@.subrange(0, i as int))),
            decreases msgs@.len() - i,
        {
            let ghost pre = msgs@.subrange(0, i as int);
            assert(msgs@.subrange(0, i + 1).drop_last() =~= pre);
            match &msgs[i] {
                Message::CAN(m) => {
                    put_can(&mut out, m);
                    assert(cans_of(msgs@.subrange(0, i + 1)).drop_last() =~= cans_of(pre));
                    assert(out@ =~= head + can_entries(cans_of(msgs@.subrange(0, i + 1))));
                },
                Message::GPS(_) => {},
            }
            i = i + 1;
        }
        put_u64(&mut out, n_gps);
        let ghost head = out@;
        let mut i: usize = 0;
        while i < msgs.len()
            invariant
                i <= msgs@.len(),
                out@ == head + gps_entries(gpss_of(msgs@.subrange(0, i as int))),
            decreases msgs@.len() - i,
        {
            let ghost pre = msgs@.subrange(0, i as int);
            assert(msgs@.subrange(0, i + 1).drop_last() =~= pre);
            match &msgs[i] {
                Message::GPS(m) => {
                    put_gps(&mut out, m);
                    assert(gpss_of(msgs@.subrange(0, i + 1)).drop_last() =~= gpss_of(pre));
                    assert(out@ =~= head + gps_entries(gpss_of(msgs@.subrange(0, i + 1))));
                },
                Message::CAN(_) => {},
            }
            i = i + 1;
        }
        assert(out@ =~= compact(*self));
        out
    }
}

/// The `u64` stored little-endian at `p`.
pub open spec fn u64_at(b: Seq<u8>, p: int) -> u64 {
    (b[p] as u64) | ((b[p + 1] as u64) << 8u64) | ((b[p + 2] as u64) << 16u64) | ((b[p + 3] as u64)
        << 24u64) | ((b[p + 4] as u64) << 32u64) | ((b[p + 5] as u64) << 40u64) | ((b[p + 6] as u64)
        << 48u64) | ((b[p + 7] as u64) << 56u64)
}

/// The `u32` stored little-endian at `p`.
pub open spec fn u32_at(b: Seq<u8>, p: int) -> u32 {
    (b[p] as u32) | ((b[p + 1] as u32) << 8u32) | ((b[p + 2] as u32) << 16u32) | ((b[p + 3] as u32)
        << 24u32)
}

/// A CAN entry as the compact form holds it, the channel name as UTF-8.
pub struct CanRecord {
    pub time: i64,
    pub channel: Seq<u8>,
    pub id: u32,
    pub error: bool,
    pub remote: bool,
    pub extended: bool,
    pub data: Seq<u8>,
}

/// What the compact form of a chunk holds.
pub struct CompactRecord {
    pub id: Seq<u8>,
    pub time: i64,
    pub can: Seq<CanRecord>,
    pub gps: Seq<GpsMessage>,
}

pub open spec fn can_record(m: CanMessage) -> CanRecord {
    CanRecord {
        time: m.time,
        channel: encode_utf8(m.channel@),
        id: m.frame.id,
        error: m.frame.error,
        remote: m.frame.remote,
        extended: m.frame.extended,
        data: m.frame.data@,
    }
}

/// The record a chunk's compact form should decode to: its id and time, its
/// CAN messages and its GPS messages, each kind in arrival order.
pub open spec fn record_of(c: Chunk) -> CompactRecord {
    CompactRecord {
        id: encode_utf8(c.id@),
        time: c.time,
        can: cans_of(c.messages@).map_values(|m: CanMessage| can_record(m)),
        gps: gpss_of(c.messages@),
    }
}

/// Reads a length-prefixed field at `p`: its bytes and the position after it.
pub open spec fn read_field(b: Seq<u8>, p: int) -> Option<(Seq<u8>, int)> {
    if 0 <= p && p + 8 <= b.len() && p + 8 + u64_at(b, p) <= b.len() {
        let e = p + 8 + u64_at(b, p);
        Some((b.subrange(p + 8, e), e))
    } else {
        None
    }
}

/// Reads one CAN entry at `p`.
pub open spec fn read_can(b: Seq<u8>, p: int) -> Option<(CanRecord, int)> {
    if 0 <= p && p + 8 <= b.len() {
        match read_field(b, p + 8) {
            Some((channel, q)) => if q + 7 <= b.len() {
                match read_field(b, q + 7) {
                    Some((data, e)) => Some(
                        (
                            CanRecord {
                                time: u64_at(b, p) as i64,
                                channel,
                                id: u32_at(b, q),
                                error: b[q + 4] != 0,
                                remote: b[q + 5] != 0,
                                extended: b[q + 6] != 0,
                                data,
                            },
                            e,
                        ),
                    ),
                    None => None,
                }
            } else {
                None
            },
            None => None,
        }
    } else {
        None
    }
}

/// Reads one GPS entry at `p`.
pub open spec fn read_gps(b: Seq<u8>, p: int) -> Option<(GpsMessage, int)> {
    if 0 <= p && p + 32 <= b.len() {
        Some(
            (
                GpsMessage {
                    time: u64_at(b, p) as i64,
                    longitude: u64_at(b, p + 8),
                    latitude: u64_at(b, p + 16),
                    speed: u64_at(b, p + 24),
                },
                p + 32,
            ),
        )
    } else {
        None
    }
}

/// Reads `n` CAN entries from `p` onwards, after those already in `acc`.
pub open spec fn read_cans(b: Seq<u8>, p: int, n: nat, acc: Seq<CanRecord>) -> Option<(Seq<CanRecord>, int)>
    decreases n,
{
    if n == 0 {
        Some((acc, p))
    } else {
        match read_can(b, p) {
            Some((r, q)) => read_cans(b, q, (n - 1) as nat, acc.push(r)),
            None => None,
        }
    }
}

/// Reads `n` GPS entries from `p` onwards, after those already in `acc`.
pub open spec fn read_gpss(b: Seq<u8>, p: int, n: nat, acc: Seq<GpsMessage>) -> Option<(Seq<GpsMessage>, int)>
    decreases n,
{
    if n == 0 {
        Some((acc, p))
    } else {
        match read_gps(b, p) {
            Some((r, q)) => read_gpss(b, q, (n - 1) as nat, acc.push(r)),
            None => None,
        }
    }
}

/// Decodes a compact form that fills `b` exactly.
pub open spec fn decode(b: Seq<u8>) -> Option<CompactRecord> {
    match read_field(b, 0) {
        Some((id, p)) => if p + 16 <= b.len() {
            match read_cans(b, p + 16, u64_at(b, p + 8) as nat, Seq::empty()) {
                Some((can, q)) => if q + 8 <= b.len() {
                    match read_gpss(b, q + 8, u64_at(b, q) as nat, Seq::empty()) {
                        Some((gps, e)) => if e == b.len() {
                            Some(CompactRecord { id, time: u64_at(b, p) as i64, can, gps })
                        } else {
                            None
                        },
                        None => None,
                    }
                } else {
                    None
                },
                None => None,
            }
        } else {
            None
        },
        None => None,
    }
}

/// Every length the compact form writes fits its eight-byte prefix.
pub open spec fn lengths_fit(c: Chunk) -> bool {
    &&& encode_utf8(c.id@).len() <= u64::MAX
    &&& c.messages@.len() <= u64::MAX
    &&& forall|i: int|
        0 <= i < c.messages@.len() ==> match #[trigger] c.messages@[i] {
            Message::CAN(m) => encode_utf8(m.channel@).len() <= u64::MAX && m.frame.data@.len()
                <= u64::MAX,
            Message::GPS(_) => true,
        }
}

proof fn lemma_u64_at(b: Seq<u8>, p: int, x: u64)
    requires
        0 <= p,
        p + 8 <= b.len(),
        b.subrange(p, p + 8) == le_u64(x),
    ensures
        u64_at(b, p) == x,
{
    assert(b[p] == le_u64(x)[0] && b[p + 1] == le_u64(x)[1] && b[p + 2] == le_u64(x)[2] && b[p + 3]
        == le_u64(x)[3] && b[p + 4] == le_u64(x)[4] && b[p + 5] == le_u64(x)[5] && b[p + 6] == le_u64(
        x,
    )[6] && b[p + 7] == le_u64(x)[7]);
    assert(x == ((x as u8) as u64) | ((((x >> 8u64) as u8) as u64) << 8u64) | ((((x >> 16u64) as u8)
        as u64) << 16u64) | ((((x >> 24u64) as u8) as u64) << 24u64) | ((((x >> 32u64) as u8) as u64)
        << 32u64) | ((((x >> 40u64) as u8) as u64) << 40u64) | ((((x >> 48u64) as u8) as u64)
        << 48u64) | ((((x >> 56u64) as u8) as u64) << 56u64)) by (bit_vector);
}

proof fn lemma_u32_at(b: Seq<u8>, p: int, x: u32)
    requires
        0 <= p,
        p + 4 <= b.len(),
        b.subrange(p, p + 4) == le_u32(x),
    ensures
        u32_at(b, p) == x,
{
    assert(b[p] == le_u32(x)[0] && b[p + 1] == le_u32(x)[1] && b[p + 2] == le_u32(x)[2] && b[p + 3]
        == le_u32(x)[3]);
    assert(x == ((x as u8) as u32) | ((((x >> 8u32) as u8) as u32) << 8u32) | ((((x >> 16u32) as u8)
        as u32) << 16u32) | ((((x >> 24u32) as u8) as u32) << 24u32)) by (bit_vector);
}

proof fn lemma_time(t: i64)
    ensures
        (t as u64) as i64 == t,
{
    assert((t as u64) as i64 == t) by (bit_vector);
}

proof fn lemma_window(b: Seq<u8>, p: int, x: Seq<u8>, i: int, j: int)
    requires
        0 <= p,
        p + x.len() <= b.len(),
        b.subrange(p, p + x.len()) == x,
        0 <= i <= j <= x.len(),
    ensures
        b.subrange(p + i, p + j) == x.subrange(i, j),
{
    assert forall|k: int| 0 <= k < j - i implies b.subrange(p + i, p + j)[k] == x.subrange(i, j)[k] by {
        assert(b.subrange(p, p + x.len())[i + k] == b[p + i + k]);
    }
    assert(b.subrange(p + i, p + j) =~= x.subrange(i, j));
}

proof fn lemma_read_field(b: Seq<u8>, p: int, f: Seq<u8>)
    requires
        0 <= p,
        f.len() <= u64::MAX,
        p + field(f).len() <= b.len(),
        b.subrange(p, p + field(f).len()) == field(f),
    ensures
        read_field(b, p) == Some((f, p + 8 + f.len())),
{
    let x = field(f);
    lemma_window(b, p, x, 0, 8);
    assert(x.subrange(0, 8) =~= le_u64(f.len() as u64));
    lemma_u64_at(b, p, f.len() as u64);
    lemma_window(b, p, x, 8, x.len() as int);
    assert(x.subrange(8, x.len() as int) =~= f);
}

proof fn lemma_read_can(b: Seq<u8>, p: int, m: CanMessage)
    requires
        0 <= p,
        encode_utf8(m.channel@).len() <= u64::MAX,
        m.frame.data@.len() <= u64::MAX,
        p + can_entry(m).len() <= b.len(),
        b.subrange(p, p + can_entry(m).len()) == can_entry(m),
    ensures
        read_can(b, p) == Some((can_record(m), p + can_entry(m).len())),
{
    let x = can_entry(m);
    let ch = field(encode_utf8(m.channel@));
    let cl = ch.len() as int;
    let q = p + 8 + cl;
    lemma_window(b, p, x, 0, 8);
    assert(x.subrange(0, 8) =~= le_u64(m.time as u64));
    lemma_u64_at(b, p, m.time as u64);
    lemma_time(m.time);
    lemma_window(b, p, x, 8, 8 + cl);
    assert(x.subrange(8, 8 + cl) =~= ch);
    lemma_read_field(b, p + 8, encode_utf8(m.channel@));
    lemma_window(b, p, x, 8 + cl, 12 + cl);
    assert(x.subrange(8 + cl, 12 + cl) =~= le_u32(m.frame.id));
    lemma_u32_at(b, q, m.frame.id);
    assert(b[q + 4] == x[12 + cl]);
    assert(b[q + 5] == x[13 + cl]);
    assert(b[q + 6] == x[14 + cl]);
    let d = field(m.frame.data@);
    lemma_window(b, p, x, 15 + cl, x.len() as int);
    assert(x.subrange(15 + cl, x.len() as int) =~= d);
    lemma_read_field(b, q + 7, m.frame.data@);
}

proof fn lemma_read_gps(b: Seq<u8>, p: int, m: GpsMessage)
    requires
        0 <= p,
        p + 32 <= b.len(),
        b.subrange(p, p + 32) == gps_entry(m),
    ensures
        read_gps(b, p) == Some((m, p + 32)),
{
    let x = gps_entry(m);
    lemma_window(b, p, x, 0, 8);
    assert(x.subrange(0, 8) =~= le_u64(m.time as u64));
    lemma_u64_at(b, p, m.time as u64);
    lemma_time(m.time);
    lemma_window(b, p, x, 8, 16);
    assert(x.subrange(8, 16) =~= le_u64(m.longitude));
    lemma_u64_at(b, p + 8, m.longitude);
    lemma_window(b, p, x, 16, 24);
    assert(x.subrange(16, 24) =~= le_u64(m.latitude));
    lemma_u64_at(b, p + 16, m.latitude);
    lemma_window(b, p, x, 24, 32);
    assert(x.subrange(24, 32) =~= le_u64(m.speed));
    lemma_u64_at(b, p + 24, m.speed);
}

proof fn lemma_can_entries_split(s: Seq<CanMessage>, k: int)
    requires
        0 <= k <= s.len(),
    ensures
        can_entries(s) =~= can_entries(s.subrange(0, k)) + can_entries(s.subrange(k, s.len() as int)),
    decreases s.len() - k,
{
    if k < s.len() {
        lemma_can_entries_split(s, k + 1);
        assert(s.subrange(0, k + 1).drop_last() =~= s.subrange(0, k));
        assert(s.subrange(0, k + 1).last() == s[k]);
        let r = s.subrange(k, s.len() as int);
        lemma_can_entries_front(r);
        assert(r.subrange(1, r.len() as int) =~= s.subrange(k + 1, s.len() as int));
    } else {
        assert(s.subrange(0, k) =~= s);
        assert(s.subrange(k, s.len() as int) =~= Seq::<CanMessage>::empty());
    }
}

proof fn lemma_can_entries_front(s: Seq<CanMessage>)
    requires
        s.len() > 0,
    ensures
        can_entries(s) =~= can_entry(s[0]) + can_entries(s.subrange(1, s.len() as int)),
    decreases s.len(),
{
    if s.len() == 1 {
        assert(s.drop_last() =~= Seq::<CanMessage>::empty());
        assert(s.subrange(1, 1) =~= Seq::<CanMessage>::empty());
    } else {
        let d = s.drop_last();
        lemma_can_entries_front(d);
        assert(d.subrange(1, d.len() as int) =~= s.subrange(1, s.len() as int).drop_last());
        assert(s.subrange(1, s.len() as int).last() == s.last());
    }
}

proof fn lemma_gps_entries_len(s: Seq<GpsMessage>)
    ensures
        gps_entries(s).len() == 32 * s.len(),
    decreases s.len(),
{
    if s.len() > 0 {
        lemma_gps_entries_len(s.drop_last());
    }
}

proof fn lemma_gps_entries_at(s: Seq<GpsMessage>, k: int)
    requires
        0 <= k < s.len(),
    ensures
        gps_entries(s).subrange(32 * k, 32 * k + 32) == gps_entry(s[k]),
    decreases s.len(),
{
    lemma_gps_entries_len(s);
    let d = s.drop_last();
    lemma_gps_entries_len(d);
    if k == s.len() - 1 {
        assert(gps_entries(s).subrange(32 * k, 32 * k + 32) =~= gps_entry(s[k]));
    } else {
        lemma_gps_entries_at(d, k);
        assert(gps_entries(s).subrange(32 * k, 32 * k + 32) =~= gps_entries(d).subrange(
            32 * k,
            32 * k + 32,
        ));
    }
}

proof fn lemma_read_cans(b: Seq<u8>, p0: int, s: Seq<CanMessage>, k: int)
    requires
        0 <= p0,
        0 <= k <= s.len(),
        p0 + can_entries(s).len() <= b.len(),
        b.subrange(p0, p0 + can_entries(s).len()) == can_entries(s),
        forall|i: int|
            0 <= i < s.len() ==> encode_utf8((#[trigger] s[i]).channel@).len() <= u64::MAX
                && s[i].frame.data@.len() <= u64::MAX,
    ensures
        read_cans(
            b,
            p0 + can_entries(s.subrange(0, k)).len(),
            (s.len() - k) as nat,
            s.subrange(0, k).map_values(|m: CanMessage| can_record(m)),
        ) == Some(
            (s.map_values(|m: CanMessage| can_record(m)), p0 + can_entries(s).len()),
        ),
    decreases s.len() - k,
{
    let f = |m: CanMessage| can_record(m);
    if k == s.len() {
        assert(s.subrange(0, k) =~= s);
    } else {
        lemma_can_entries_split(s, k);
        let r = s.subrange(k, s.len() as int);
        lemma_can_entries_front(r);
        assert(r[0] == s[k]);
        let pk = can_entries(s.subrange(0, k)).len() as int;
        let x = can_entries(s);
        lemma_window(b, p0, x, pk, pk + can_entry(s[k]).len());
        assert(x.subrange(pk, pk + can_entry(s[k]).len()) =~= can_entry(s[k]));
        lemma_read_can(b, p0 + pk, s[k]);
        assert(s.subrange(0, k + 1).drop_last() =~= s.subrange(0, k));
        assert(s.subrange(0, k + 1).last() == s[k]);
        assert(s.subrange(0, k + 1).map_values(f) =~= s.subrange(0, k).map_values(f).push(f(s[k])));
        lemma_read_cans(b, p0, s, k + 1);
    }
}

proof fn lemma_read_gpss(b: Seq<u8>, p0: int, s: Seq<GpsMessage>, k: int)
    requires
        0 <= p0,
        0 <= k <= s.len(),
        p0 + gps_entries(s).len() <= b.len(),
        b.subrange(p0, p0 + gps_entries(s).len()) == gps_entries(s),
    ensures
        read_gpss(b, p0 + 32 * k, (s.len() - k) as nat, s.subrange(0, k)) == Some(
            (s, p0 + gps_entries(s).len()),
        ),
    decreases s.len() - k,
{
    lemma_gps_entries_len(s);
    if k == s.len() {
        assert(s.subrange(0, k) =~= s);
    } else {
        lemma_window(b, p0, gps_entries(s), 32 * k, 32 * k + 32);
        lemma_gps_entries_at(s, k);
        lemma_read_gps(b, p0 + 32 * k, s[k]);
        assert(s.subrange(0, k + 1) =~= s.subrange(0, k).push(s[k]));
        lemma_read_gpss(b, p0, s, k + 1);
    }
}

proof fn lemma_kinds_fit(s: Seq<Message>)
    ensures
        cans_of(s).len() + gpss_of(s).len() == s.len(),
        forall|j: int|
            0 <= j < cans_of(s).len() ==> exists|i: int|
                0 <= i < s.len() && s[i] == Message::CAN(#[trigger] cans_of(s)[j]),
    decreases s.len(),
{
    if s.len() > 0 {
        let d = s.drop_last();
        lemma_kinds_fit(d);
        assert forall|j: int| 0 <= j < cans_of(s).len() implies exists|i: int|
            0 <= i < s.len() && s[i] == Message::CAN(#[trigger] cans_of(s)[j]) by {
            if j < cans_of(d).len() {
                let i = choose|i: int| 0 <= i < d.len() && d[i] == Message::CAN(cans_of(d)[j]);
                assert(s[i] == d[i]);
            } else {
                assert(s[s.len() - 1] == Message::CAN(cans_of(s)[j]));
            }
        }
    }
}

proof fn lemma_six(b: Seq<u8>, x1: Seq<u8>, x2: Seq<u8>, x3: Seq<u8>, x4: Seq<u8>, x5: Seq<u8>, x6: Seq<u8>)
    requires
        b == x1 + x2 + x3 + x4 + x5 + x6,
    ensures
        ({
            let a = x1.len() as int;
            let c = a + x2.len();
            let d = c + x3.len();
            let e = d + x4.len();
            let f = e + x5.len();
            &&& b.len() == f + x6.len()
            &&& b.subrange(0, a) == x1
            &&& b.subrange(a, c) == x2
            &&& b.subrange(c, d) == x3
            &&& b.subrange(d, e) == x4
            &&& b.subrange(e, f) == x5
            &&& b.subrange(f, b.len() as int) == x6
        }),
{
    let a = x1.len() as int;
    let c = a + x2.len();
    let d = c + x3.len();
    let e = d + x4.len();
    let f = e + x5.len();
    assert(b.subrange(0, a) =~= x1);
    assert(b.subrange(a, c) =~= x2);
    assert(b.subrange(c, d) =~= x3);
    assert(b.subrange(d, e) =~= x4);
    assert(b.subrange(e, f) =~= x5);
    assert(b.subrange(f, b.len() as int) =~= x6);
}

proof fn lemma_cans_fit(c: Chunk)
    requires
        lengths_fit(c),
    ensures
        cans_of(c.messages@).len() <= u64::MAX,
        gpss_of(c.messages@).len() <= u64::MAX,
        forall|i: int|
            0 <= i < cans_of(c.messages@).len() ==> encode_utf8(
                (#[trigger] cans_of(c.messages@)[i]).channel@,
            ).len() <= u64::MAX && cans_of(c.messages@)[i].frame.data@.len() <= u64::MAX,
{
    let msgs = c.messages@;
    let cans = cans_of(msgs);
    lemma_kinds_fit(msgs);
    assert forall|i: int| 0 <= i < cans.len() implies encode_utf8((#[trigger] cans[i]).channel@).len()
        <= u64::MAX && cans[i].frame.data@.len() <= u64::MAX by {
        let k = choose|k: int| 0 <= k < msgs.len() && msgs[k] == Message::CAN(cans[i]);
        assert(match msgs[k] {
            Message::CAN(m) => encode_utf8(m.channel@).len() <= u64::MAX && m.frame.data@.len()
                <= u64::MAX,
            Message::GPS(_) => true,
        });
    }
}

proof fn lemma_decode_parts(
    b: Seq<u8>,
    id: Seq<u8>,
    time: i64,
    can: Seq<CanRecord>,
    gps: Seq<GpsMessage>,
    p: int,
    q: int,
)
    requires
        read_field(b, 0) == Some((id, p)),
        p + 16 <= b.len(),
        u64_at(b, p) as i64 == time,
        read_cans(b, p + 16, u64_at(b, p + 8) as nat, Seq::empty()) == Some((can, q)),
        q + 8 <= b.len(),
        read_gpss(b, q + 8, u64_at(b, q) as nat, Seq::empty()) == Some((gps, b.len() as int)),
    ensures
        decode(b) == Some(CompactRecord { id, time, can, gps }),
{
}

proof fn lemma_decode_layout(
    b: Seq<u8>,
    id: Seq<u8>,
    time: i64,
    cans: Seq<CanMessage>,
    gpss: Seq<GpsMessage>,
)
    requires
        id.len() <= u64::MAX,
        cans.len() <= u64::MAX,
        gpss.len() <= u64::MAX,
        forall|i: int|
            0 <= i < cans.len() ==> encode_utf8((#[trigger] cans[i]).channel@).len() <= u64::MAX
                && cans[i].frame.data@.len() <= u64::MAX,
        ({
            let a = field(id).len() as int;
            let d = a + 16;
            let e = d + can_entries(cans).len();
            let f = e + 8;
            &&& b.len() == f + gps_entries(gpss).len()
            &&& b.subrange(0, a) == field(id)
            &&& b.subrange(a, a + 8) == le_u64(time as u64)
            &&& b.subrange(a + 8, d) == le_u64(cans.len() as u64)
            &&& b.subrange(d, e) == can_entries(cans)
            &&& b.subrange(e, f) == le_u64(gpss.len() as u64)
            &&& b.subrange(f, b.len() as int) == gps_entries(gpss)
        }),
    ensures
        decode(b) == Some(
            CompactRecord {
                id,
                time,
                can: cans.map_values(|m: CanMessage| can_record(m)),
                gps: gpss,
            },
        ),
{
    let idf = field(id);
    let ce = can_entries(cans);
    let p = idf.len() as int;
    let q = p + 16 + ce.len();
    lemma_read_field(b, 0, id);
    lemma_u64_at(b, p, time as u64);
    lemma_time(time);
    lemma_u64_at(b, p + 8, cans.len() as u64);
    lemma_read_cans(b, p + 16, cans, 0);
    assert(cans.subrange(0, 0) =~= Seq::<CanMessage>::empty());
    assert(cans.subrange(0, 0).map_values(|m: CanMessage| can_record(m)) =~= Seq::<CanRecord>::empty());
    lemma_u64_at(b, q, gpss.len() as u64);
    lemma_read_gpss(b, q + 8, gpss, 0);
    assert(gpss.subrange(0, 0) =~= Seq::<GpsMessage>::empty());
    lemma_decode_parts(b, id, time, cans.map_values(|m: CanMessage| can_record(m)), gpss, p, q);
}

/// Decoding the compact form of a chunk gives back its id, its time and
/// every field of every message: the CAN messages first and the GPS
/// messages after, each kind in the order it arrived.
pub proof fn lemma_compact_round_trip(c: Chunk)
    requires
        lengths_fit(c),
    ensures
        decode(compact(c)) == Some(record_of(c)),
{
    lemma_cans_fit(c);
    let cans = cans_of(c.messages@);
    let gpss = gpss_of(c.messages@);
    lemma_six(
        compact(c),
        field(encode_utf8(c.id@)),
        le_u64(c.time as u64),
        le_u64(cans.len() as u64),
        can_entries(cans),
        le_u64(gpss.len() as u64),
        gps_entries(gpss),
    );
    lemma_decode_layout(compact(c), encode_utf8(c.id@), c.time, cans_of(c.messages@), gpss_of(c.messages@));
}

} // verus!
