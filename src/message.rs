use vstd::prelude::*;

use crate::clock::now_micros;

verus! {

/// Largest payload of a classic CAN frame, in bytes.
pub const MAX_CAN_PAYLOAD: usize = 8;

/// One past the largest standard (11-bit) arbitration id.
pub const STANDARD_ID_LIMIT: u32 = 0x800;

/// One past the largest extended (29-bit) arbitration id.
pub const EXTENDED_ID_LIMIT: u32 = 0x2000_0000;

/// A CAN frame as read from the bus.
#[derive(Clone, Debug, PartialEq)]
pub struct CanFrame {
    pub id: u32,
    pub extended: bool,
    pub error: bool,
    pub remote: bool,
    pub data: Vec<u8>,
}

impl CanFrame {
    /// The id fits its width and the payload holds at most eight bytes.
    pub open spec fn wf(&self) -> bool {
        &&& self.data@.len() <= MAX_CAN_PAYLOAD
        &&& if self.extended {
            self.id < EXTENDED_ID_LIMIT
        } else {
            self.id < STANDARD_ID_LIMIT
        }
    }

    /// Builds a data frame, refusing an id wider than its kind allows or a
    /// payload longer than eight bytes.
    pub fn new(id: u32, extended: bool, data: Vec<u8>) -> (r: Option<CanFrame>)
        ensures
            r is Some <==> (data@.len() <= MAX_CAN_PAYLOAD && (if extended {
                id < EXTENDED_ID_LIMIT
            } else {
                id < STANDARD_ID_LIMIT
            })),
            r matches Some(f) ==> f.wf() && f == (CanFrame {
                id,
                extended,
                error: false,
                remote: false,
                data,
            }),
    {
        let limit = if extended {
            EXTENDED_ID_LIMIT
        } else {
            STANDARD_ID_LIMIT
        };
        if data.len() <= MAX_CAN_PAYLOAD && id < limit {
            Some(CanFrame { id, extended, error: false, remote: false, data })
        } else {
            None
        }
    }

    /// Number of payload bytes.
    pub fn len(&self) -> (r: usize)
        ensures
            r == self.data@.len(),
    {
        self.data.len()
    }
}

/// A CAN frame with its capture time (microseconds since the epoch) and the
/// name of the interface it came from.
#[derive(Clone, Debug, PartialEq)]
pub struct CanMessage {
    pub time: i64,
    pub channel: String,
    pub frame: CanFrame,
}

/// A position report. Longitude, latitude and speed are carried as the bit
/// patterns of IEEE-754 doubles: the core moves them and never computes on
/// them.
#[derive(Clone, Debug, PartialEq)]
pub struct GpsMessage {
    pub time: i64,
    pub longitude: u64,
    pub latitude: u64,
    pub speed: u64,
}

/// The kind of fix a position report carries.
#[derive(Clone, Copy, Debug, PartialEq, Eq, Structural)]
pub enum FixKind {
    Fix3D,
    Fix2D,
    LatLonOnly,
    /// No fix, or a report of another kind.
    Unusable,
}

/// A position report from the location daemon, its doubles as bit patterns.
/// `speed` is absent where the daemon sent none.
#[derive(Clone, Debug, PartialEq)]
pub struct PositionReport {
    pub kind: FixKind,
    pub time: i64,
    pub longitude: u64,
    pub latitude: u64,
    pub speed: Option<u64>,
}

/// The bit pattern of the double `+0.0`.
pub const ZERO_SPEED: u64 = 0;

impl GpsMessage {
    /// The message for a report with a usable fix (2D, 3D, or latitude and
    /// longitude only); `None` for any other. A missing speed reads as zero.
    pub fn from_report(r: &PositionReport) -> (m: Option<GpsMessage>)
        ensures
            m is Some <==> r.kind != FixKind::Unusable,
            m matches Some(g) ==> g == (GpsMessage {
                time: r.time,
                longitude: r.longitude,
                latitude: r.latitude,
                speed: match r.speed {
                    Some(v) => v,
                    None => ZERO_SPEED,
                },
            }),
    {
        match r.kind {
            FixKind::Unusable => None,
            _ => {
                let speed = match r.speed {
                    Some(v) => v,
                    None => ZERO_SPEED,
                };
                Some(
                    GpsMessage {
                        time: r.time,
                        longitude: r.longitude,
                        latitude: r.latitude,
                        speed,
                    },
                )
            },
        }
    }
}

/// One reading from either source.
#[derive(Clone, Debug, PartialEq)]
pub enum Message {
    GPS(GpsMessage),
    CAN(CanMessage),
}

/// A batch of messages sealed together: creation time, device id, the
/// messages in arrival order, and whether the broker acknowledged it.
#[derive(Clone, Debug, PartialEq)]
pub struct Chunk {
    pub time: i64,
    pub id: String,
    pub messages: Vec<Message>,
    pub synced: bool,
}

/// The chunk with its archival flag set to `synced`.
pub open spec fn with_synced(c: Chunk, synced: bool) -> Chunk {
    Chunk { synced, ..c }
}

impl Chunk {
    /// An empty chunk for device `id`, stamped with the current time.
    pub fn new(id: &str) -> (r: Chunk)
        ensures
            r.id@ == id@,
            r.messages@.len() == 0,
            !r.synced,
    {
        Chunk::new_at(id, now_micros())
    }

    /// An empty chunk for device `id`, stamped with `time`.
    pub fn new_at(id: &str, time: i64) -> (r: Chunk)
        ensures
            r.time == time,
            r.id@ == id@,
            r.messages@.len() == 0,
            !r.synced,
    {
        Chunk { time, id: id.to_owned(), messages: Vec::new(), synced: false }
    }

    /// Appends a message at the end.
    pub fn push(&mut self, msg: Message)
        ensures
            final(self).messages@ == old(self).messages@.push(msg),
            final(self).time == old(self).time,
            final(self).id == old(self).id,
            final(self).synced == old(self).synced,
    {
        self.messages.push(msg);
    }

    /// Number of messages.
    pub fn len(&self) -> (r: usize)
        ensures
            r == self.messages@.len(),
    {
        self.messages.len()
    }
}

} // verus!
