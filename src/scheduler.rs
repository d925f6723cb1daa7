use vstd::prelude::*;
use vstd::multiset::Multiset;

use crate::message::{Chunk, Message, with_synced};

verus! {

broadcast use vstd::seq_lib::group_to_multiset_ensures;

/// How long a dispatched chunk waits for its acknowledgment: 120 s, in
/// microseconds.
pub const ACK_WINDOW_MICROS: i64 = 120_000_000;

/// Microseconds in one second.
pub const MICROS_PER_SEC: i64 = 1_000_000;

/// A chunk handed to the broker and not yet resolved: its delivery id and the
/// time it was dispatched.
#[derive(Debug)]
pub struct Pending {
    pub pkid: u16,
    pub dispatched_at: i64,
    pub chunk: Chunk,
}

/// Whether an entry's acknowledgment window has run out at `now`.
pub open spec fn expired(e: Pending, now: i64) -> bool {
    now as int - e.dispatched_at as int >= ACK_WINDOW_MICROS as int
}

/// Whether some entry carries delivery id `pkid`.
pub open spec fn has_pkid(p: Seq<Pending>, pkid: u16) -> bool {
    exists|i: int| 0 <= i < p.len() && (#[trigger] p[i]).pkid == pkid
}

/// No two entries share a delivery id.
pub open spec fn unique_pkids(p: Seq<Pending>) -> bool {
    forall|i: int, j: int|
        0 <= i < p.len() && 0 <= j < p.len() && i != j ==> (#[trigger] p[i]).pkid != (#[trigger] p[j]).pkid
}

/// The index of the entry with delivery id `pkid`, where there is one.
pub open spec fn index_of(p: Seq<Pending>, pkid: u16) -> int {
    choose|i: int| 0 <= i < p.len() && (#[trigger] p[i]).pkid == pkid
}

/// Entries still inside their window at `now`, in order.
pub open spec fn live(p: Seq<Pending>, now: i64) -> Seq<Pending>
    decreases p.len(),
{
    if p.len() == 0 {
        Seq::empty()
    } else if expired(p.last(), now) {
        live(p.drop_last(), now)
    } else {
        live(p.drop_last(), now).push(p.last())
    }
}

/// Chunks of the entries whose window ran out at `now`, in order, flagged
/// unsynced.
pub open spec fn evicted(p: Seq<Pending>, now: i64) -> Seq<Chunk>
    decreases p.len(),
{
    if p.len() == 0 {
        Seq::empty()
    } else if expired(p.last(), now) {
        evicted(p.drop_last(), now).push(with_synced(p.last().chunk, false))
    } else {
        evicted(p.drop_last(), now)
    }
}

/// Pending entries after an acknowledgment for `pkid`.
pub open spec fn after_ack(p: Seq<Pending>, pkid: u16) -> Seq<Pending> {
    if has_pkid(p, pkid) {
        p.remove(index_of(p, pkid))
    } else {
        p
    }
}

/// The chunk an acknowledgment for `pkid` archives, flagged synced.
pub open spec fn acked(p: Seq<Pending>, pkid: u16) -> Option<Chunk> {
    if has_pkid(p, pkid) {
        Some(with_synced(p[index_of(p, pkid)].chunk, true))
    } else {
        None
    }
}

/// The chunks of a sequence of entries.
pub open spec fn chunks_of(p: Seq<Pending>) -> Seq<Chunk> {
    p.map_values(|e: Pending| e.chunk)
}

/// A chunk with its archival flag cleared: what stays the same of it from
/// sealing to archival.
pub open spec fn content(c: Chunk) -> Chunk {
    with_synced(c, false)
}

/// The multiset of chunk contents in a sequence.
pub open spec fn contents(s: Seq<Chunk>) -> Multiset<Chunk> {
    s.map_values(|c: Chunk| content(c)).to_multiset()
}

/// Pending entries after a sealed chunk's dispatch: on success (`Some`) the
/// chunk waits under its delivery id, displacing any entry that still held
/// that id; on failure nothing changes.
pub open spec fn after_dispatch(p: Seq<Pending>, chunk: Chunk, outcome: Option<u16>, now: i64) -> Seq<Pending> {
    match outcome {
        Some(pkid) => after_ack(p, pkid).push(
            Pending { pkid, dispatched_at: now, chunk: with_synced(chunk, false) },
        ),
        None => p,
    }
}

/// What a dispatch outcome sends to the log: the chunk itself, unsynced, when
/// the broker refused it; the displaced entry's chunk, unsynced, when its
/// delivery id came back while it still waited; otherwise nothing.
pub open spec fn dispatch_archived(p: Seq<Pending>, chunk: Chunk, outcome: Option<u16>) -> Seq<Chunk> {
    match outcome {
        Some(pkid) => if has_pkid(p, pkid) {
            seq![with_synced(p[index_of(p, pkid)].chunk, false)]
        } else {
            Seq::empty()
        },
        None => seq![with_synced(chunk, false)],
    }
}

proof fn lemma_index_of(p: Seq<Pending>, i: int)
    requires
        unique_pkids(p),
        0 <= i < p.len(),
    ensures
        has_pkid(p, p[i].pkid),
        index_of(p, p[i].pkid) == i,
{
    let k = p[i].pkid;
    assert(has_pkid(p, k));
    let j = index_of(p, k);
    assert(p[j].pkid == k);
}

proof fn lemma_remove(p: Seq<Pending>, i: int)
    requires
        unique_pkids(p),
        0 <= i < p.len(),
    ensures
        unique_pkids(p.remove(i)),
        !has_pkid(p.remove(i), p[i].pkid),
        forall|k: u16| k != p[i].pkid ==> (has_pkid(p.remove(i), k) <==> has_pkid(p, k)),
{
    let q = p.remove(i);
    assert forall|a: int, b: int|
        0 <= a < q.len() && 0 <= b < q.len() && a != b implies (#[trigger] q[a]).pkid != (#[trigger] q[b]).pkid by {
        let a2 = if a < i { a } else { a + 1 };
        let b2 = if b < i { b } else { b + 1 };
        assert(q[a] == p[a2] && q[b] == p[b2]);
    }
    assert forall|k: u16| k != p[i].pkid implies (has_pkid(q, k) <==> has_pkid(p, k)) by {
        if has_pkid(p, k) {
            let j = index_of(p, k);
            let j2 = if j < i { j } else { j - 1 };
            assert(q[j2].pkid == k);
        }
        if has_pkid(q, k) {
            let j = index_of(q, k);
            let j2 = if j < i { j } else { j + 1 };
            assert(p[j2].pkid == k);
        }
    }
    if has_pkid(q, p[i].pkid) {
        let j = index_of(q, p[i].pkid);
        let j2 = if j < i { j } else { j + 1 };
        assert(p[j2] == q[j]);
    }
}

proof fn lemma_after_ack(p: Seq<Pending>, pkid: u16)
    requires
        unique_pkids(p),
    ensures
        unique_pkids(after_ack(p, pkid)),
        !has_pkid(after_ack(p, pkid), pkid),
        forall|k: u16| k != pkid ==> (has_pkid(after_ack(p, pkid), k) <==> has_pkid(p, k)),
{
    if has_pkid(p, pkid) {
        let i = index_of(p, pkid);
        lemma_remove(p, i);
    }
}

proof fn lemma_push_unique(p: Seq<Pending>, e: Pending)
    requires
        unique_pkids(p),
        !has_pkid(p, e.pkid),
    ensures
        unique_pkids(p.push(e)),
{
    let q = p.push(e);
    assert forall|a: int, b: int|
        0 <= a < q.len() && 0 <= b < q.len() && a != b implies (#[trigger] q[a]).pkid != (#[trigger] q[b]).pkid by {
        if a == p.len() {
            assert(q[b] == p[b]);
        } else if b == p.len() {
            assert(q[a] == p[a]);
        } else {
            assert(q[a] == p[a] && q[b] == p[b]);
        }
    }
}

proof fn lemma_live_unique(p: Seq<Pending>, now: i64)
    requires
        unique_pkids(p),
    ensures
        unique_pkids(live(p, now)),
        forall|k: u16| has_pkid(live(p, now), k) ==> has_pkid(p, k),
    decreases p.len(),
{
    if p.len() > 0 {
        let d = p.drop_last();
        assert(unique_pkids(d)) by {
            assert forall|a: int, b: int|
                0 <= a < d.len() && 0 <= b < d.len() && a != b implies (#[trigger] d[a]).pkid != (#[trigger] d[b]).pkid by {
                assert(d[a] == p[a] && d[b] == p[b]);
            }
        }
        lemma_live_unique(d, now);
        assert forall|k: u16| has_pkid(d, k) implies has_pkid(p, k) by {
            let j = index_of(d, k);
            assert(p[j] == d[j]);
        }
        if !expired(p.last(), now) {
            let l = live(d, now);
            assert forall|k: u16| has_pkid(l.push(p.last()), k) implies has_pkid(p, k) by {
                let j = index_of(l.push(p.last()), k);
                if j == l.len() {
                    assert(p[p.len() - 1].pkid == k);
                }
                else {
                    assert(l.push(p.last())[j] == l[j]);
                    assert(has_pkid(l, k));
                }
            }
            assert(!has_pkid(d, p.last().pkid)) by {
                if has_pkid(d, p.last().pkid) {
                    let j = index_of(d, p.last().pkid);
                    assert(p[j] == d[j]);
                    assert(p[j].pkid == p[p.len() - 1].pkid);
                }
            }
            lemma_push_unique(l, p.last());
        }
    }
}

/// One event that resolves or creates pending entries.
pub enum Event {
    /// A sealed chunk's dispatch, with the broker link's answer, at a time.
    Dispatch(Chunk, Option<u16>, i64),
    /// An acknowledgment for a delivery id.
    Ack(u16),
    /// The timeout sweep at a time.
    Sweep(i64),
}

/// The pending entries after one event, and the chunks it hands to the log.
pub open spec fn step(p: Seq<Pending>, e: Event) -> (Seq<Pending>, Seq<Chunk>) {
    match e {
        Event::Dispatch(c, outcome, now) => (
            after_dispatch(p, c, outcome, now),
            dispatch_archived(p, c, outcome),
        ),
        Event::Ack(pkid) => (
            after_ack(p, pkid),
            match acked(p, pkid) {
                Some(c) => seq![c],
                None => Seq::empty(),
            },
        ),
        Event::Sweep(now) => (live(p, now), evicted(p, now)),
    }
}

/// The pending entries after a run of events, and every chunk handed to the
/// log on the way, in order.
pub open spec fn run(p: Seq<Pending>, es: Seq<Event>) -> (Seq<Pending>, Seq<Chunk>)
    decreases es.len(),
{
    if es.len() == 0 {
        (p, Seq::empty())
    } else {
        let (q, a) = run(p, es.drop_last());
        let (q2, a2) = step(q, es.last());
        (q2, a + a2)
    }
}

/// The chunks sealed and dispatched in a run of events.
pub open spec fn sealed(es: Seq<Event>) -> Seq<Chunk>
    decreases es.len(),
{
    if es.len() == 0 {
        Seq::empty()
    } else {
        match es.last() {
            Event::Dispatch(c, _, _) => sealed(es.drop_last()).push(c),
            _ => sealed(es.drop_last()),
        }
    }
}

proof fn lemma_sealed_one(e: Event)
    ensures
        sealed(seq![e]) == (match e {
            Event::Dispatch(c, _, _) => seq![c],
            _ => Seq::<Chunk>::empty(),
        }),
{
    let es = seq![e];
    assert(es.drop_last() =~= Seq::<Event>::empty());
    assert(sealed(es.drop_last()) =~= Seq::<Chunk>::empty());
    assert(es.last() == e);
    match e {
        Event::Dispatch(c, _, _) => {
            assert(sealed(es) =~= seq![c]);
        },
        _ => {},
    }
}

proof fn lemma_contents_push(s: Seq<Chunk>, c: Chunk)
    ensures
        contents(s.push(c)) =~= contents(s).insert(content(c)),
{
    let f = |x: Chunk| content(x);
    assert(s.push(c).map_values(f) =~= s.map_values(f).push(content(c)));
}

proof fn lemma_contents_concat(a: Seq<Chunk>, b: Seq<Chunk>)
    ensures
        contents(a + b) =~= contents(a).add(contents(b)),
{
    let f = |x: Chunk| content(x);
    assert((a + b).map_values(f) =~= a.map_values(f) + b.map_values(f));
    vstd::seq_lib::lemma_multiset_commutative(a.map_values(f), b.map_values(f));
}

proof fn lemma_pending_remove(p: Seq<Pending>, i: int)
    requires
        0 <= i < p.len(),
    ensures
        contents(chunks_of(p)) =~= contents(chunks_of(p.remove(i))).insert(content(p[i].chunk)),
{
    let f = |x: Chunk| content(x);
    let s = chunks_of(p);
    assert(chunks_of(p.remove(i)) =~= s.remove(i));
    assert(s.remove(i).map_values(f) =~= s.map_values(f).remove(i));
    assert(s.map_values(f)[i] == content(p[i].chunk));
}

proof fn lemma_pending_push(p: Seq<Pending>, e: Pending)
    ensures
        contents(chunks_of(p.push(e))) =~= contents(chunks_of(p)).insert(content(e.chunk)),
{
    assert(chunks_of(p.push(e)) =~= chunks_of(p).push(e.chunk));
    lemma_contents_push(chunks_of(p), e.chunk);
}

proof fn lemma_sweep_conserves(p: Seq<Pending>, now: i64)
    ensures
        contents(chunks_of(p)) =~= contents(chunks_of(live(p, now))).add(contents(evicted(p, now))),
    decreases p.len(),
{
    if p.len() == 0 {
        assert(chunks_of(p) =~= Seq::empty());
        assert(chunks_of(live(p, now)) =~= Seq::empty());
        assert(contents(Seq::empty()) =~= Multiset::empty());
    } else {
        let d = p.drop_last();
        lemma_sweep_conserves(d, now);
        assert(p =~= d.push(p.last()));
        lemma_pending_push(d, p.last());
        if expired(p.last(), now) {
            lemma_contents_push(evicted(d, now), with_synced(p.last().chunk, false));
        } else {
            lemma_pending_push(live(d, now), p.last());
        }
    }
}

/// Every event conserves chunks: what was pending, together with the chunk
/// a dispatch brings in, is exactly what stays pending together with what goes
/// to the log, counted with multiplicity and apart from the synced flag.
pub proof fn lemma_step_conserves(p: Seq<Pending>, e: Event)
    requires
        unique_pkids(p),
    ensures
        unique_pkids(step(p, e).0),
        contents(chunks_of(p)).add(contents(sealed(seq![e]))) =~= contents(
            chunks_of(step(p, e).0),
        ).add(contents(step(p, e).1)),
{
    let es = seq![e];
    lemma_sealed_one(e);
    assert(contents(Seq::<Chunk>::empty()) =~= Multiset::empty());
    match e {
        Event::Dispatch(c, outcome, now) => {
            assert(seq![c] =~= Seq::<Chunk>::empty().push(c));
            lemma_contents_push(Seq::empty(), c);
            match outcome {
                Some(pkid) => {
                    lemma_after_ack(p, pkid);
                    let entry = Pending { pkid, dispatched_at: now, chunk: with_synced(c, false) };
                    lemma_push_unique(after_ack(p, pkid), entry);
                    lemma_pending_push(after_ack(p, pkid), entry);
                    if has_pkid(p, pkid) {
                        let i = index_of(p, pkid);
                        lemma_pending_remove(p, i);
                        let x = with_synced(p[i].chunk, false);
                        assert(seq![x] =~= Seq::<Chunk>::empty().push(x));
                        lemma_contents_push(Seq::empty(), x);
                    }
                },
                None => {
                    let x = with_synced(c, false);
                    assert(seq![x] =~= Seq::<Chunk>::empty().push(x));
                    lemma_contents_push(Seq::empty(), x);
                },
            }
        },
        Event::Ack(pkid) => {
            lemma_after_ack(p, pkid);
            if has_pkid(p, pkid) {
                let i = index_of(p, pkid);
                lemma_pending_remove(p, i);
                let x = with_synced(p[i].chunk, true);
                assert(seq![x] =~= Seq::<Chunk>::empty().push(x));
                lemma_contents_push(Seq::empty(), x);
            }
        },
        Event::Sweep(now) => {
            lemma_live_unique(p, now);
            lemma_sweep_conserves(p, now);
        },
    }
}

/// Exactly-once archival: over any run of dispatches, acknowledgments and
/// sweeps from a state with no pending chunk, each chunk sealed is either
/// still pending or was handed to the log, and the two together hold every
/// sealed chunk exactly as often as it was sealed.
pub proof fn lemma_exactly_once(es: Seq<Event>)
    ensures
        unique_pkids(run(Seq::empty(), es).0),
        contents(sealed(es)) =~= contents(chunks_of(run(Seq::empty(), es).0)).add(
            contents(run(Seq::empty(), es).1),
        ),
    decreases es.len(),
{
    if es.len() == 0 {
        assert(contents(Seq::<Chunk>::empty()) =~= Multiset::empty());
        assert(chunks_of(Seq::<Pending>::empty()) =~= Seq::empty());
    } else {
        let d = es.drop_last();
        let e = es.last();
        lemma_exactly_once(d);
        let (q, a) = run(Seq::empty(), d);
        lemma_step_conserves(q, e);
        let (q2, a2) = step(q, e);
        lemma_contents_concat(a, a2);
        assert(run(Seq::empty(), es) == (q2, a + a2));
        assert(contents(Seq::<Chunk>::empty()) =~= Multiset::empty());
        lemma_sealed_one(e);
        match e {
            Event::Dispatch(c, _, _) => {
                assert(sealed(es) == sealed(d).push(c));
                assert(seq![c] =~= Seq::<Chunk>::empty().push(c));
                lemma_contents_push(Seq::empty(), c);
                lemma_contents_push(sealed(d), c);
                assert(contents(sealed(es)) =~= contents(sealed(d)).add(contents(seq![c])));
            },
            _ => {
                assert(sealed(es) == sealed(d));
                assert(contents(sealed(es)) =~= contents(sealed(d)).add(contents(Seq::<Chunk>::empty())));
            },
        }
        let x = contents(sealed(seq![e]));
        assert(contents(sealed(es)) =~= contents(sealed(d)).add(x));
        assert(contents(chunks_of(q)).add(x) =~= contents(chunks_of(q2)).add(contents(a2)));
        assert(contents(sealed(d)) =~= contents(chunks_of(q)).add(contents(a)));
        assert forall|v: Chunk| #[trigger] contents(sealed(es)).count(v) == contents(chunks_of(q2)).add(contents(a + a2)).count(v) by {
            assert(contents(sealed(es)).count(v) == contents(sealed(d)).count(v) + x.count(v));
            assert(contents(sealed(d)).count(v) == contents(chunks_of(q)).count(v) + contents(a).count(v));
            assert(contents(chunks_of(q)).add(x).count(v) == contents(chunks_of(q2)).add(contents(a2)).count(v));
            assert(contents(chunks_of(q)).count(v) + x.count(v) == contents(chunks_of(q2)).count(v) + contents(a2).count(v));
            assert(contents(a + a2).count(v) == contents(a).count(v) + contents(a2).count(v));
        }
    }
}

/// An acknowledgment that arrives while its chunk waits archives that chunk
/// once, flagged synced, and leaves no entry under its delivery id, so no
/// later sweep or acknowledgment can archive it again.
pub proof fn lemma_ack_resolves(p: Seq<Pending>, i: int, now: i64)
    requires
        unique_pkids(p),
        0 <= i < p.len(),
    ensures
        acked(p, p[i].pkid) == Some(with_synced(p[i].chunk, true)),
        after_ack(p, p[i].pkid) == p.remove(i),
        !has_pkid(after_ack(p, p[i].pkid), p[i].pkid),
        acked(after_ack(p, p[i].pkid), p[i].pkid) is None,
        !has_pkid(live(after_ack(p, p[i].pkid), now), p[i].pkid),
{
    let k = p[i].pkid;
    lemma_index_of(p, i);
    lemma_after_ack(p, k);
    lemma_live_unique(after_ack(p, k), now);
}

/// A sweep after a chunk's window ran out archives that chunk, flagged
/// unsynced, and leaves no entry under its delivery id, so a late
/// acknowledgment for it changes nothing.
pub proof fn lemma_timeout_resolves(p: Seq<Pending>, i: int, now: i64)
    requires
        unique_pkids(p),
        0 <= i < p.len(),
        expired(p[i], now),
    ensures
        evicted(p, now).contains(with_synced(p[i].chunk, false)),
        !has_pkid(live(p, now), p[i].pkid),
        acked(live(p, now), p[i].pkid) is None,
        after_ack(live(p, now), p[i].pkid) == live(p, now),
    decreases p.len(),
{
    let d = p.drop_last();
    assert(unique_pkids(d)) by {
        assert forall|a: int, b: int|
            0 <= a < d.len() && 0 <= b < d.len() && a != b implies (#[trigger] d[a]).pkid != (#[trigger] d[b]).pkid by {
            assert(d[a] == p[a] && d[b] == p[b]);
        }
    }
    lemma_live_unique(d, now);
    if i == p.len() - 1 {
        assert(evicted(p, now).last() == with_synced(p[i].chunk, false));
        assert(evicted(p, now)[evicted(p, now).len() - 1] == with_synced(p[i].chunk, false));
        assert(!has_pkid(d, p[i].pkid)) by {
            if has_pkid(d, p[i].pkid) {
                let j = index_of(d, p[i].pkid);
                assert(p[j] == d[j]);
            }
        }
    } else {
        assert(d[i] == p[i]);
        lemma_timeout_resolves(d, i, now);
        let x = with_synced(p[i].chunk, false);
        let j = choose|j: int| 0 <= j < evicted(d, now).len() && evicted(d, now)[j] == x;
        if expired(p.last(), now) {
            assert(evicted(p, now)[j] == x);
        }
        if !expired(p.last(), now) {
            let l = live(d, now);
            assert(p.last().pkid != p[i].pkid) by {
                assert(p[p.len() - 1] == p.last());
            }
            assert(!has_pkid(l.push(p.last()), p[i].pkid)) by {
                if has_pkid(l.push(p.last()), p[i].pkid) {
                    let m = index_of(l.push(p.last()), p[i].pkid);
                    if m < l.len() {
                        assert(l.push(p.last())[m] == l[m]);
                    }
                }
            }
        }
    }
}

/// The chunks of all entries, in order, flagged unsynced: what a shutdown
/// hands to the log.
pub open spec fn drained(p: Seq<Pending>) -> Seq<Chunk> {
    p.map_values(|e: Pending| with_synced(e.chunk, false))
}

/// The decision state of the dispatch loop: the open buffer, when it was last
/// empty, and the chunks awaiting acknowledgment.
pub struct Scheduler {
    id: String,
    chunk_size: usize,
    chunk_period: i64,
    buffer: Vec<Message>,
    checkpoint: i64,
    pending: Vec<Pending>,
}

impl Scheduler {
    pub closed spec fn spec_id(&self) -> Seq<char> {
        self.id@
    }

    pub closed spec fn spec_chunk_size(&self) -> usize {
        self.chunk_size
    }

    /// The flush period in seconds.
    pub closed spec fn spec_chunk_period(&self) -> i64 {
        self.chunk_period
    }

    pub closed spec fn spec_buffer(&self) -> Seq<Message> {
        self.buffer@
    }

    pub closed spec fn spec_checkpoint(&self) -> i64 {
        self.checkpoint
    }

    pub closed spec fn spec_pending(&self) -> Seq<Pending> {
        self.pending@
    }

    pub closed spec fn wf(&self) -> bool {
        unique_pkids(self.pending@)
    }

    /// Whether the period has run out on a non-empty buffer at `now`.
    pub open spec fn period_due(&self, now: i64) -> bool {
        &&& self.spec_buffer().len() > 0
        &&& now as int - self.spec_checkpoint() as int > self.spec_chunk_period() as int
            * MICROS_PER_SEC as int
    }

    /// A scheduler for device `id` with an empty buffer and nothing pending,
    /// its checkpoint at `now`.
    pub fn new(id: &str, chunk_size: usize, chunk_period: i64, now: i64) -> (r: Scheduler)
        ensures
            r.wf(),
            r.spec_id() == id@,
            r.spec_chunk_size() == chunk_size,
            r.spec_chunk_period() == chunk_period,
            r.spec_buffer().len() == 0,
            r.spec_checkpoint() == now,
            r.spec_pending().len() == 0,
    {
        Scheduler {
            id: id.to_owned(),
            chunk_size,
            chunk_period,
            buffer: Vec::new(),
            checkpoint: now,
            pending: Vec::new(),
        }
    }

    /// Number of buffered messages.
    pub fn buffered(&self) -> (r: usize)
        ensures
            r == self.spec_buffer().len(),
    {
        self.buffer.len()
    }

    /// Number of chunks awaiting acknowledgment.
    pub fn pending_len(&self) -> (r: usize)
        ensures
            r == self.spec_pending().len(),
    {
        self.pending.len()
    }

    /// Whether a chunk with delivery id `pkid` awaits acknowledgment.
    pub fn is_pending(&self, pkid: u16) -> (r: bool)
        ensures
            r == has_pkid(self.spec_pending(), pkid),
    {
        let mut i: usize = 0;
        while i < self.pending.len()
            invariant
                i <= self.pending@.len(),
                forall|j: int| 0 <= j < i ==> (#[trigger] self.pending@[j]).pkid != pkid,
            decreases self.pending@.len() - i,
        {
            if self.pending[i].pkid == pkid {
                return true;
            }
            i = i + 1;
        }
        false
    }

    /// Seals the buffer into a chunk stamped `now`; the buffer becomes empty
    /// and the checkpoint moves to `now`.
    fn seal(&mut self, now: i64) -> (r: Chunk)
        ensures
            r == (Chunk { time: now, id: r.id, messages: r.messages, synced: false }),
            r.id@ == old(self).spec_id(),
            r.messages@ == old(self).spec_buffer(),
            final(self).spec_buffer().len() == 0,
            final(self).spec_checkpoint() == now,
            final(self).spec_id() == old(self).spec_id(),
            final(self).spec_chunk_size() == old(self).spec_chunk_size(),
            final(self).spec_chunk_period() == old(self).spec_chunk_period(),
            final(self).spec_pending() == old(self).spec_pending(),
    {
        let mut messages: Vec<Message> = Vec::new();
        std::mem::swap(&mut messages, &mut self.buffer);
        self.checkpoint = now;
        Chunk { time: now, id: self.id.clone(), messages, synced: false }
    }

    /// Takes in one message. When the buffer reaches the chunk size it is
    /// sealed, and the chunk comes back for dispatch.
    pub fn ingest(&mut self, msg: Message, now: i64) -> (r: Option<Chunk>)
        requires
            old(self).wf(),
        ensures
            final(self).wf(),
            final(self).spec_pending() == old(self).spec_pending(),
            final(self).spec_id() == old(self).spec_id(),
            final(self).spec_chunk_size() == old(self).spec_chunk_size(),
            final(self).spec_chunk_period() == old(self).spec_chunk_period(),
            r is Some <==> old(self).spec_buffer().len() + 1 >= old(self).spec_chunk_size(),
            match r {
                Some(c) => {
                    &&& c.messages@ == old(self).spec_buffer().push(msg)
                    &&& c.id@ == old(self).spec_id()
                    &&& c.time == now
                    &&& !c.synced
                    &&& final(self).spec_buffer().len() == 0
                    &&& final(self).spec_checkpoint() == now
                },
                None => {
                    &&& final(self).spec_buffer() == old(self).spec_buffer().push(msg)
                    &&& final(self).spec_checkpoint() == old(self).spec_checkpoint()
                },
            },
    {
        self.buffer.push(msg);
        if self.buffer.len() >= self.chunk_size {
            Some(self.seal(now))
        } else {
            None
        }
    }

    /// The periodic check: when the buffer is non-empty and more than the
    /// chunk period has passed since the checkpoint, it is sealed and the
    /// chunk comes back for dispatch.
    pub fn tick(&mut self, now: i64) -> (r: Option<Chunk>)
        requires
            old(self).wf(),
        ensures
            final(self).wf(),
            final(self).spec_pending() == old(self).spec_pending(),
            final(self).spec_id() == old(self).spec_id(),
            final(self).spec_chunk_size() == old(self).spec_chunk_size(),
            final(self).spec_chunk_period() == old(self).spec_chunk_period(),
            r is Some <==> old(self).period_due(now),
            match r {
                Some(c) => {
                    &&& c.messages@ == old(self).spec_buffer()
                    &&& c.id@ == old(self).spec_id()
                    &&& c.time == now
                    &&& !c.synced
                    &&& final(self).spec_buffer().len() == 0
                    &&& final(self).spec_checkpoint() == now
                },
                None => {
                    &&& final(self).spec_buffer() == old(self).spec_buffer()
                    &&& final(self).spec_checkpoint() == old(self).spec_checkpoint()
                },
            },
    {
        let elapsed = now as i128 - self.checkpoint as i128;
        let cp = self.chunk_period as i128;
        assert(-0x8000_0000_0000_0000 * 1_000_000 <= cp * 1_000_000 <= 0x7fff_ffff_ffff_ffff
            * 1_000_000) by (nonlinear_arith)
            requires
                -0x8000_0000_0000_0000 <= cp <= 0x7fff_ffff_ffff_ffff,
        ;
        let period = cp * MICROS_PER_SEC as i128;
        if self.buffer.len() > 0 && elapsed > period {
            Some(self.seal(now))
        } else {
            None
        }
    }
    /// An acknowledgment for delivery id `pkid`: the waiting chunk, if any,
    /// leaves the pending set and comes back flagged synced for the log. An
    /// unknown or late id changes nothing.
    pub fn on_ack(&mut self, pkid: u16) -> (r: Option<Chunk>)
        requires
            old(self).wf(),
        ensures
            final(self).wf(),
            r == acked(old(self).spec_pending(), pkid),
            final(self).spec_pending() == after_ack(old(self).spec_pending(), pkid),
            !has_pkid(final(self).spec_pending(), pkid),
            final(self).spec_buffer() == old(self).spec_buffer(),
            final(self).spec_checkpoint() == old(self).spec_checkpoint(),
            final(self).spec_id() == old(self).spec_id(),
            final(self).spec_chunk_size() == old(self).spec_chunk_size(),
            final(self).spec_chunk_period() == old(self).spec_chunk_period(),
    {
        proof {
            lemma_after_ack(self.pending@, pkid);
        }
        match self.take(pkid) {
            Some(e) => {
                let mut c = e.chunk;
                c.synced = true;
                Some(c)
            },
            None => None,
        }
    }

    /// Removes the entry with delivery id `pkid`, if there is one.
    fn take(&mut self, pkid: u16) -> (r: Option<Pending>)
        requires
            old(self).wf(),
        ensures
            final(self).spec_pending() == after_ack(old(self).spec_pending(), pkid),
            r is Some <==> has_pkid(old(self).spec_pending(), pkid),
            r matches Some(e) ==> e == old(self).spec_pending()[index_of(old(self).spec_pending(), pkid)],
            final(self).spec_buffer() == old(self).spec_buffer(),
            final(self).spec_checkpoint() == old(self).spec_checkpoint(),
            final(self).spec_id() == old(self).spec_id(),
            final(self).spec_chunk_size() == old(self).spec_chunk_size(),
            final(self).spec_chunk_period() == old(self).spec_chunk_period(),
    {
        let mut i: usize = 0;
        while i < self.pending.len()
            invariant
                i <= self.pending@.len(),
                self.pending@ == old(self).pending@,
                self.buffer == old(self).buffer,
                self.id == old(self).id,
                self.checkpoint == old(self).checkpoint,
                self.chunk_size == old(self).chunk_size,
                self.chunk_period == old(self).chunk_period,
                unique_pkids(self.pending@),
                forall|j: int| 0 <= j < i ==> (#[trigger] self.pending@[j]).pkid != pkid,
            decreases self.pending@.len() - i,
        {
            if self.pending[i].pkid == pkid {
                proof {
                    lemma_index_of(self.pending@, i as int);
                }
                let e = self.pending.remove(i);
                return Some(e);
            }
            i = i + 1;
        }
        None
    }

    /// Resolves a sealed chunk's dispatch. `outcome` is the delivery id the
    /// broker link returned, or `None` when it refused the request. Returns
    /// the chunks to hand to the log now, each flagged unsynced.
    pub fn dispatched(&mut self, chunk: Chunk, outcome: Option<u16>, now: i64) -> (r: Vec<Chunk>)
        requires
            old(self).wf(),
        ensures
            final(self).wf(),
            r@ == dispatch_archived(old(self).spec_pending(), chunk, outcome),
            final(self).spec_pending() == after_dispatch(old(self).spec_pending(), chunk, outcome, now),
            final(self).spec_buffer() == old(self).spec_buffer(),
            final(self).spec_checkpoint() == old(self).spec_checkpoint(),
            final(self).spec_id() == old(self).spec_id(),
            final(self).spec_chunk_size() == old(self).spec_chunk_size(),
            final(self).spec_chunk_period() == old(self).spec_chunk_period(),
    {
        let mut out: Vec<Chunk> = Vec::new();
        let mut chunk = chunk;
        chunk.synced = false;
        match outcome {
            Some(pkid) => {
                proof {
                    lemma_after_ack(self.pending@, pkid);
                }
                match self.take(pkid) {
                    Some(e) => {
                        let mut c = e.chunk;
                        c.synced = false;
                        out.push(c);
                    },
                    None => {},
                }
                let entry = Pending { pkid, dispatched_at: now, chunk };
                proof {
                    lemma_push_unique(self.pending@, entry);
                }
                self.pending.push(entry);
            },
            None => {
                out.push(chunk);
            },
        }
        proof {
            assert(out@ =~= dispatch_archived(old(self).spec_pending(), chunk, outcome));
        }
        out
    }

    /// The timeout sweep: every entry whose window has run out at `now`
    /// leaves the pending set, and its chunk comes back flagged unsynced for
    /// the log, in dispatch order.
    pub fn sweep(&mut self, now: i64) -> (r: Vec<Chunk>)
        requires
            old(self).wf(),
        ensures
            final(self).wf(),
            r@ == evicted(old(self).spec_pending(), now),
            final(self).spec_pending() == live(old(self).spec_pending(), now),
            final(self).spec_buffer() == old(self).spec_buffer(),
            final(self).spec_checkpoint() == old(self).spec_checkpoint(),
            final(self).spec_id() == old(self).spec_id(),
            final(self).spec_chunk_size() == old(self).spec_chunk_size(),
            final(self).spec_chunk_period() == old(self).spec_chunk_period(),
    {
        let ghost p = self.pending@;
        let mut rest: Vec<Pending> = Vec::new();
        std::mem::swap(&mut rest, &mut self.pending);
        let mut kept: Vec<Pending> = Vec::new();
        let mut out: Vec<Chunk> = Vec::new();
        let ghost mut i: int = 0;
        while rest.len() > 0
            invariant
                0 <= i <= p.len(),
                rest@ == p.subrange(i, p.len() as int),
                kept@ == live(p.subrange(0, i), now),
                out@ == evicted(p.subrange(0, i), now),
            decreases rest@.len(),
        {
            let e = rest.remove(0);
            proof {
                assert(p.subrange(0, i + 1).drop_last() =~= p.subrange(0, i));
                assert(p.subrange(0, i + 1).last() == p[i]);
                i = i + 1;
            }
            let elapsed = now as i128 - e.dispatched_at as i128;
            if elapsed >= ACK_WINDOW_MICROS as i128 {
                let mut c = e.chunk;
                c.synced = false;
                out.push(c);
            } else {
                kept.push(e);
            }
            proof {
                assert(rest@ =~= p.subrange(i, p.len() as int));
            }
        }
        proof {
            assert(p.subrange(0, i) =~= p);
            lemma_live_unique(p, now);
        }
        self.pending = kept;
        out
    }
    /// Shutdown: every chunk still awaiting acknowledgment leaves the
    /// pending set and comes back flagged unsynced for the log, in dispatch
    /// order, so none is lost from the durable log on exit.
    pub fn drain(&mut self) -> (r: Vec<Chunk>)
        requires
            old(self).wf(),
        ensures
            final(self).wf(),
            r@ == drained(old(self).spec_pending()),
            final(self).spec_pending().len() == 0,
            final(self).spec_buffer() == old(self).spec_buffer(),
            final(self).spec_checkpoint() == old(self).spec_checkpoint(),
            final(self).spec_id() == old(self).spec_id(),
            final(self).spec_chunk_size() == old(self).spec_chunk_size(),
            final(self).spec_chunk_period() == old(self).spec_chunk_period(),
    {
        let ghost p = self.pending@;
        let mut rest: Vec<Pending> = Vec::new();
        std::mem::swap(&mut rest, &mut self.pending);
        let mut out: Vec<Chunk> = Vec::new();
        let ghost mut i: int = 0;
        while rest.len() > 0
            invariant
                0 <= i <= p.len(),
                rest@ == p.subrange(i, p.len() as int),
                out@ == drained(p.subrange(0, i)),
            decreases rest@.len(),
        {
            let e = rest.remove(0);
            let mut c = e.chunk;
            c.synced = false;
            out.push(c);
            proof {
                assert(drained(p.subrange(0, i + 1)) =~= drained(p.subrange(0, i)).push(
                    with_synced(p[i].chunk, false),
                ));
                i = i + 1;
                assert(rest@ =~= p.subrange(i, p.len() as int));
            }
        }
        proof {
            assert(p.subrange(0, i) =~= p);
        }
        out
    }
}

} // verus!
