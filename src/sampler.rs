use vstd::prelude::*;

verus! {

/// Highest sampling frequency, in Hz: one frame per millisecond.
pub const MAX_FREQUENCY: u16 = 1000;

/// Width in microseconds of the bucket that one frame per `freq` Hz stands
/// for: a whole number of milliseconds, `1000 / freq`.
pub open spec fn bucket_width(freq: u16) -> int {
    (1000int / freq as int) * 1000
}

/// The bucket that a time in microseconds falls in.
pub open spec fn bucket_of(time: i64, width: int) -> int {
    time as int / width
}

/// Whether a frame in bucket `b` is forwarded after the last forwarded
/// frame's bucket `last`.
pub open spec fn forwards(last: Option<int>, b: int) -> bool {
    match last {
        Some(l) => l != b,
        None => true,
    }
}

/// Downsamples one bus: of the frames that arrive in one time bucket, only
/// the first is forwarded.
pub struct CanSampler {
    width: i64,
    last: Option<i64>,
}

impl CanSampler {
    pub closed spec fn spec_width(&self) -> int {
        self.width as int
    }

    /// The bucket of the last forwarded frame.
    pub closed spec fn spec_last(&self) -> Option<int> {
        match self.last {
            Some(l) => Some(l as int),
            None => None,
        }
    }

    /// A sampler for `freq` Hz, with no frame seen yet. `None` when the
    /// frequency is zero or above one frame per millisecond.
    pub fn new(freq: u16) -> (r: Option<CanSampler>)
        ensures
            r is Some <==> 1 <= freq <= MAX_FREQUENCY,
            r matches Some(s) ==> s.spec_width() == bucket_width(freq) && s.spec_width() >= 1000
                && s.spec_last() is None,
    {
        if freq == 0 || freq > MAX_FREQUENCY {
            return None;
        }
        assert((1000int / freq as int) * 1000 >= 1000) by (nonlinear_arith)
            requires
                1 <= freq <= 1000,
        ;
        let width = (1000 / freq as i64) * 1000;
        Some(CanSampler { width, last: None })
    }

    /// Whether a frame read at `time` (microseconds) is forwarded; when it
    /// is, its bucket becomes the last forwarded one.
    pub fn accept(&mut self, time: i64) -> (r: bool)
        requires
            old(self).spec_width() >= 1000,
        ensures
            final(self).spec_width() == old(self).spec_width(),
            r == forwards(old(self).spec_last(), bucket_of(time, old(self).spec_width())),
            final(self).spec_last() == (if r {
                Some(bucket_of(time, old(self).spec_width()))
            } else {
                old(self).spec_last()
            }),
    {
        let b = match time.checked_div_euclid(self.width) {
            Some(b) => b,
            None => {
                proof {
                    assert(i64::MIN <= time as int / self.width as int <= i64::MAX) by (nonlinear_arith)
                        requires
                            self.width >= 1000,
                            i64::MIN <= time <= i64::MAX,
                    ;
                }
                return false;
            },
        };
        let fwd = match self.last {
            Some(l) => l != b,
            None => true,
        };
        if fwd {
            self.last = Some(b);
        }
        fwd
    }
}

/// Of two frames in one bucket, the second is never forwarded; a frame in
/// another bucket than the one before it always is.
pub proof fn lemma_one_per_bucket(last: Option<int>, width: int, t1: i64, t2: i64)
    requires
        width > 0,
    ensures
        ({
            let l1 = if forwards(last, bucket_of(t1, width)) {
                Some(bucket_of(t1, width))
            } else {
                last
            };
            &&& bucket_of(t1, width) == bucket_of(t2, width) ==> !forwards(l1, bucket_of(t2, width))
            &&& bucket_of(t1, width) != bucket_of(t2, width) ==> forwards(l1, bucket_of(t2, width))
        }),
{
}

} // verus!
