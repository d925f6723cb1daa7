use iot_edge::message::{CanFrame, CanMessage, Chunk, FixKind, GpsMessage, Message, PositionReport};
use iot_edge::scheduler::{Scheduler, ACK_WINDOW_MICROS};

const SEC: i64 = 1_000_000;

fn gps(time: i64) -> Message {
    Message::GPS(GpsMessage { time, longitude: 1, latitude: 2, speed: 3 })
}

fn can(time: i64, id: u32) -> Message {
    let frame = CanFrame::new(id, false, vec![0xA1, 0x00]).unwrap();
    Message::CAN(CanMessage { time, channel: "can1".to_string(), frame })
}

#[test]
fn size_triggered_flush() {
    let mut s = Scheduler::new("dev", 3, 1000, 0);
    assert!(s.ingest(gps(1), 10).is_none());
    assert!(s.ingest(can(2, 0x202), 20).is_none());
    let c = s.ingest(gps(3), 30).expect("third message seals the chunk");
    assert_eq!(c.messages, vec![gps(1), can(2, 0x202), gps(3)]);
    assert_eq!(c.id, "dev");
    assert_eq!(c.time, 30);
    assert!(!c.synced);
    assert_eq!(s.buffered(), 0);
    assert!(s.ingest(gps(4), 40).is_none());
    assert_eq!(s.buffered(), 1);
}

#[test]
fn period_triggered_flush() {
    let mut s = Scheduler::new("dev", 1000, 5, 0);
    assert!(s.ingest(gps(1), 0).is_none());
    let mut flushed = Vec::new();
    for tick in 1..=7i64 {
        if let Some(c) = s.tick(tick * SEC) {
            flushed.push(c);
        }
    }
    assert_eq!(flushed.len(), 1);
    assert_eq!(flushed[0].messages, vec![gps(1)]);
    assert_eq!(flushed[0].time, 6 * SEC);
    assert_eq!(s.buffered(), 0);
}

#[test]
fn tick_on_empty_buffer_seals_nothing() {
    let mut s = Scheduler::new("dev", 10, 1, 0);
    assert!(s.tick(100 * SEC).is_none());
}

#[test]
fn ack_resolves_pending() {
    let mut s = Scheduler::new("dev", 1, 5, 0);
    let c = s.ingest(gps(1), 0).unwrap();
    assert!(s.dispatched(c, Some(7), 0).is_empty());
    assert!(s.is_pending(7));
    let logged = s.on_ack(7).expect("pending chunk is acknowledged");
    assert!(logged.synced);
    assert_eq!(logged.messages, vec![gps(1)]);
    assert!(!s.is_pending(7));
    assert_eq!(s.pending_len(), 0);
    assert!(s.sweep(ACK_WINDOW_MICROS + SEC).is_empty());
    assert!(s.on_ack(7).is_none());
}

#[test]
fn timeout_resolves_pending() {
    let mut s = Scheduler::new("dev", 1, 5, 0);
    let c = s.ingest(gps(1), 0).unwrap();
    assert!(s.dispatched(c, Some(9), 0).is_empty());
    assert!(s.sweep(ACK_WINDOW_MICROS - 1).is_empty());
    assert!(s.is_pending(9));
    let evicted = s.sweep(ACK_WINDOW_MICROS);
    assert_eq!(evicted.len(), 1);
    assert!(!evicted[0].synced);
    assert_eq!(evicted[0].messages, vec![gps(1)]);
    assert!(!s.is_pending(9));
    assert!(s.on_ack(9).is_none());
    assert!(s.sweep(10 * ACK_WINDOW_MICROS).is_empty());
}

#[test]
fn refused_dispatch_is_logged_unsynced_at_once() {
    let mut s = Scheduler::new("dev", 1, 5, 0);
    let c = s.ingest(can(5, 0x10), 0).unwrap();
    let logged = s.dispatched(c, None, 0);
    assert_eq!(logged.len(), 1);
    assert!(!logged[0].synced);
    assert_eq!(s.pending_len(), 0);
}

#[test]
fn reused_delivery_id_logs_the_displaced_chunk() {
    let mut s = Scheduler::new("dev", 1, 5, 0);
    let a = s.ingest(gps(1), 0).unwrap();
    let b = s.ingest(gps(2), 1).unwrap();
    assert!(s.dispatched(a, Some(3), 0).is_empty());
    let logged = s.dispatched(b, Some(3), 1);
    assert_eq!(logged.len(), 1);
    assert_eq!(logged[0].messages, vec![gps(1)]);
    assert!(!logged[0].synced);
    assert_eq!(s.pending_len(), 1);
    assert_eq!(s.on_ack(3).unwrap().messages, vec![gps(2)]);
}

#[test]
fn every_sealed_chunk_is_logged_once() {
    let mut s = Scheduler::new("dev", 1, 5, 0);
    let mut logged: Vec<Chunk> = Vec::new();
    let outcomes = [Some(1u16), None, Some(2), Some(3)];
    for (n, outcome) in outcomes.iter().enumerate() {
        let c = s.ingest(gps(n as i64), n as i64).unwrap();
        logged.extend(s.dispatched(c, *outcome, n as i64));
    }
    logged.extend(s.on_ack(2));
    logged.extend(s.sweep(ACK_WINDOW_MICROS + 10));
    logged.extend(s.on_ack(1));
    logged.extend(s.on_ack(3));
    logged.extend(s.sweep(2 * ACK_WINDOW_MICROS));
    let mut times: Vec<i64> = logged.iter().map(|c| match &c.messages[0] {
        Message::GPS(g) => g.time,
        Message::CAN(m) => m.time,
    }).collect();
    times.sort();
    assert_eq!(times, vec![0, 1, 2, 3]);
    let synced: Vec<bool> = logged.iter().map(|c| c.synced).collect();
    assert_eq!(synced, vec![false, true, false, false]);
}

#[test]
fn chunk_push_and_len() {
    let mut c = Chunk::new_at("dev", 42);
    assert_eq!(c.len(), 0);
    c.push(gps(1));
    c.push(can(2, 1));
    assert_eq!(c.len(), 2);
    assert_eq!(c.time, 42);
    let now = Chunk::new("dev");
    assert!(now.time > 0);
}

#[test]
fn can_frame_limits() {
    assert!(CanFrame::new(0x7FF, false, vec![]).is_some());
    assert!(CanFrame::new(0x800, false, vec![]).is_none());
    assert!(CanFrame::new(0x800, true, vec![]).is_some());
    assert!(CanFrame::new(0x2000_0000, true, vec![]).is_none());
    assert!(CanFrame::new(1, false, vec![0; 8]).is_some());
    assert!(CanFrame::new(1, false, vec![0; 9]).is_none());
    assert_eq!(CanFrame::new(1, false, vec![1, 2, 3]).unwrap().len(), 3);
}

#[test]
fn drain_logs_every_pending_chunk_unsynced() {
    let mut s = Scheduler::new("dev", 1, 5, 0);
    for (n, pkid) in [4u16, 5].iter().enumerate() {
        let c = s.ingest(gps(n as i64), 0).unwrap();
        assert!(s.dispatched(c, Some(*pkid), 0).is_empty());
    }
    let out = s.drain();
    assert_eq!(out.len(), 2);
    assert_eq!(out[0].messages, vec![gps(0)]);
    assert_eq!(out[1].messages, vec![gps(1)]);
    assert!(out.iter().all(|c| !c.synced));
    assert_eq!(s.pending_len(), 0);
    assert!(s.drain().is_empty());
}

#[test]
fn position_reports_with_a_fix_become_messages() {
    let report = |kind, speed| PositionReport { kind, time: 7, longitude: 1, latitude: 2, speed };
    let g = GpsMessage::from_report(&report(FixKind::Fix3D, Some(100.0f64.to_bits()))).unwrap();
    assert_eq!(g, GpsMessage { time: 7, longitude: 1, latitude: 2, speed: 100.0f64.to_bits() });
    assert!(GpsMessage::from_report(&report(FixKind::Fix2D, Some(5))).is_some());
    let g = GpsMessage::from_report(&report(FixKind::LatLonOnly, None)).unwrap();
    assert_eq!(f64::from_bits(g.speed), 0.0);
    assert!(GpsMessage::from_report(&report(FixKind::Unusable, Some(5))).is_none());
}
