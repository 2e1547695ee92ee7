//! The video stream description and the conversion of atoms to stream
//! timestamps.
use vstd::prelude::*;

verus! {

/// The `start_time` value that means "no start time".
pub const NO_PTS: i64 = i64::MIN;

/// What the evaluator needs to know of a video stream. The frame rate is
/// `fps_num / fps_den` frames per second; a timestamp unit lasts
/// `time_base_num / time_base_den` seconds.
#[derive(Debug, Clone, Copy, PartialEq, Eq, Structural)]
pub struct VideoInfo {
    pub fps_num: u32,
    pub fps_den: u32,
    pub time_base_num: u32,
    pub time_base_den: u32,
    /// Timestamp of the first frame, or `NO_PTS`.
    pub start_time: i64,
    /// Length of the stream, in timestamp units.
    pub duration: i64,
}

/// `x` reduced to `i64` in two's complement.
pub open spec fn wrap_i64(x: int) -> i64 {
    if x > i64::MAX {
        (x - 0x1_0000_0000_0000_0000) as i64
    } else if x < i64::MIN {
        (x + 0x1_0000_0000_0000_0000) as i64
    } else {
        x as i64
    }
}

/// `num / den` rounded toward zero, at most `i64::MAX`; a zero `den` gives
/// `i64::MAX`, or zero when `num` is zero too.
pub open spec fn ratio_ticks(num: nat, den: nat) -> i64 {
    if den == 0 {
        if num == 0 {
            0
        } else {
            i64::MAX
        }
    } else if num / den > i64::MAX {
        i64::MAX
    } else {
        (num / den) as i64
    }
}

pub open spec fn start_offset(info: VideoInfo) -> i64 {
    if info.start_time != NO_PTS {
        info.start_time
    } else {
        0
    }
}

/// Timestamp of frame `n`: `n / fps` seconds, in time-base units, plus the
/// start offset.
pub open spec fn frame_ts(info: VideoInfo, n: u64) -> i64 {
    wrap_i64(
        ratio_ticks(
            n as nat * info.fps_den as nat * info.time_base_den as nat,
            info.fps_num as nat * info.time_base_num as nat,
        ) + start_offset(info),
    )
}

/// Timestamp of `ms` milliseconds, in time-base units, plus the start offset.
pub open spec fn millis_ts(info: VideoInfo, ms: u64) -> i64 {
    wrap_i64(ratio_ticks(ms as nat * info.time_base_den as nat, 1000 * info.time_base_num as nat) + start_offset(info))
}

fn ticks_exec(num: u128, den: u128) -> (r: i64)
    ensures
        r == ratio_ticks(num as nat, den as nat),
{
    if den == 0 {
        if num == 0 {
            0
        } else {
            i64::MAX
        }
    } else {
        let q = num / den;
        if q > i64::MAX as u128 {
            i64::MAX
        } else {
            q as i64
        }
    }
}

impl VideoInfo {
    fn offset(&self) -> (r: i64)
        ensures
            r == start_offset(*self),
    {
        if self.start_time != NO_PTS {
            self.start_time
        } else {
            0
        }
    }

    /// The timestamp of a frame index.
    pub fn frame_to_timestamp(&self, frame_index: u64) -> (r: i64)
        ensures
            r == frame_ts(*self, frame_index),
    {
        let a = frame_index as u128;
        let b = self.fps_den as u128;
        let c = self.time_base_den as u128;
        proof {
            assert(a * b <= 0xffff_ffff_ffff_ffff * 0xffff_ffff) by (nonlinear_arith)
                requires
                    a <= 0xffff_ffff_ffff_ffff,
                    b <= 0xffff_ffff,
            ;
            assert(a * b * c <= 0xffff_ffff_ffff_ffff * 0xffff_ffff * 0xffff_ffff) by (nonlinear_arith)
                requires
                    a * b <= 0xffff_ffff_ffff_ffff * 0xffff_ffff,
                    c <= 0xffff_ffff,
            ;
            assert(self.fps_num as u128 * self.time_base_num as u128 <= 0xffff_ffff * 0xffff_ffff) by (nonlinear_arith)
                requires
                    self.fps_num <= 0xffff_ffff,
                    self.time_base_num <= 0xffff_ffff,
            ;
        }
        let t = ticks_exec(a * b * c, self.fps_num as u128 * self.time_base_num as u128);
        t.wrapping_add(self.offset())
    }

    /// The timestamp of a duration in milliseconds.
    pub fn milliseconds_to_timestamp(&self, ms: u64) -> (r: i64)
        ensures
            r == millis_ts(*self, ms),
    {
        let a = ms as u128;
        let c = self.time_base_den as u128;
        proof {
            assert(a * c <= 0xffff_ffff_ffff_ffff * 0xffff_ffff) by (nonlinear_arith)
                requires
                    a <= 0xffff_ffff_ffff_ffff,
                    c <= 0xffff_ffff,
            ;
        }
        let t = ticks_exec(a * c, 1000 * self.time_base_num as u128);
        t.wrapping_add(self.offset())
    }

    /// The timestamp that `end` stands for.
    pub fn end_to_timestamp(&self) -> (r: i64)
        ensures
            r == self.duration,
    {
        self.duration
    }
}

/// The kind of a single-atom bound.
#[derive(Debug, Clone, Copy, PartialEq, Eq, Structural)]
pub enum TimeTypeKind {
    Frame,
    Millisecond,
    End,
}

impl Default for TimeTypeKind {
    fn default() -> (r: TimeTypeKind)
        ensures
            r == TimeTypeKind::Millisecond,
    {
        TimeTypeKind::Millisecond
    }
}

/// A bound given as one frame index, one duration in milliseconds, or `end`.
#[derive(Debug, Clone, Copy, PartialEq, Eq, Structural)]
pub struct PaserTimeType {
    pub kind: TimeTypeKind,
    /// The frame index or the milliseconds; unused for `End`.
    pub value: u64,
}

impl Default for PaserTimeType {
    fn default() -> (r: PaserTimeType)
        ensures
            r == (PaserTimeType { kind: TimeTypeKind::Millisecond, value: 0 }),
    {
        PaserTimeType { kind: TimeTypeKind::default(), value: 0 }
    }
}

pub open spec fn simple_ts(t: PaserTimeType, info: VideoInfo) -> i64 {
    match t.kind {
        TimeTypeKind::End => info.duration,
        TimeTypeKind::Frame => frame_ts(info, t.value),
        TimeTypeKind::Millisecond => millis_ts(info, t.value),
    }
}

impl PaserTimeType {
    /// The timestamp this bound stands for.
    pub fn timestamp(&self, info: &VideoInfo) -> (r: i64)
        ensures
            r == simple_ts(*self, *info),
    {
        match self.kind {
            TimeTypeKind::End => info.end_to_timestamp(),
            TimeTypeKind::Frame => info.frame_to_timestamp(self.value),
            TimeTypeKind::Millisecond => info.milliseconds_to_timestamp(self.value),
        }
    }
}

} // verus!
