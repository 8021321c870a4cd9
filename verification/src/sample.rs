//! Frame layout of interleaved audio samples: slicing, reversing, looping
//! and locating the frame to play.
use vstd::prelude::*;

verus! {

/// Why a frame range was refused.
#[derive(Debug, Clone, Copy, PartialEq, Eq, Structural)]
pub enum FrameRangeError {
    /// The range's start is not before its end.
    StartNotBeforeEnd,
    /// The range ends past the last frame.
    EndBeyondLength { end: usize, length: usize },
}

/// How integer WAV samples of a bit depth are read: 16-bit samples as `i16`
/// scaled by 2^15, 24-bit and 32-bit samples as `i32` scaled by 2^23 and 2^31.
#[derive(Debug, Clone, Copy, PartialEq, Eq, Structural)]
pub enum IntSampleWidth {
    Bits16,
    Bits24,
    Bits32,
}

/// The way integer samples of `bits_per_sample` bits are read; `None` for a
/// bit depth other than 16, 24 and 32, which cannot be read.
pub fn int_sample_width(bits_per_sample: u16) -> (r: Option<IntSampleWidth>)
    ensures
        r == Some(IntSampleWidth::Bits16) <==> bits_per_sample == 16,
        r == Some(IntSampleWidth::Bits24) <==> bits_per_sample == 24,
        r == Some(IntSampleWidth::Bits32) <==> bits_per_sample == 32,
        r is None <==> !(bits_per_sample == 16 || bits_per_sample == 24 || bits_per_sample == 32),
{
    if bits_per_sample == 16 {
        Some(IntSampleWidth::Bits16)
    } else if bits_per_sample == 24 {
        Some(IntSampleWidth::Bits24)
    } else if bits_per_sample == 32 {
        Some(IntSampleWidth::Bits32)
    } else {
        None
    }
}

/// Interleaved sample values (channel 0, channel 1, ... of frame 0, then of
/// frame 1, ...) with their channel count, frame count and optional loop.
pub struct SampleFrames<T> {
    data: Vec<T>,
    channels: u16,
    num_frames: usize,
    loop_start: Option<usize>,
    loop_end: Option<usize>,
}

/// The frames `[start, end)` of interleaved values with `channels` channels.
pub open spec fn frame_range<T>(data: Seq<T>, channels: int, start: int, end: int) -> Seq<T> {
    data.subrange(start * channels, end * channels)
}

/// The first `num_frames` frames of interleaved values, in reverse frame
/// order, each frame keeping its channel order.
pub open spec fn reversed_frames<T>(data: Seq<T>, channels: int, num_frames: int) -> Seq<T> {
    Seq::new(
        (num_frames * channels) as nat,
        |k: int| data[(num_frames - 1 - k / channels) * channels + k % channels],
    )
}

/// The value at index `k` of `data`, if there is one.
pub open spec fn value_at<T>(data: Seq<T>, k: int) -> Option<T> {
    if 0 <= k < data.len() {
        Some(data[k])
    } else {
        None
    }
}

/// The two values that stand for frame `frame` in stereo playback: a mono
/// frame gives its one value twice, any other frame its first two channels.
pub open spec fn stereo_pair<T>(data: Seq<T>, channels: int, frame: int) -> (Option<T>, Option<T>) {
    if channels == 1 {
        (value_at(data, frame), value_at(data, frame))
    } else {
        (value_at(data, frame * channels), value_at(data, frame * channels + 1))
    }
}

/// The frame played at position `index`: inside a loop `[s, e)` a position at
/// or past `e` wraps back into the loop; without a loop a position past the
/// last frame plays nothing.
pub open spec fn played_frame(loop_range: Option<(usize, usize)>, frame_count: int, index: int) -> Option<int> {
    match loop_range {
        Some((s, e)) => if index >= e {
            Some(s + (index - s) % ((e - s) as int))
        } else {
            Some(index)
        },
        None => if index >= frame_count {
            None
        } else {
            Some(index)
        },
    }
}

/// The frame from which interpolated playback at position `index` starts (the
/// frame after it being the other end), or `None` where playback falls back to
/// the plain frame: without a loop, at the last frame and beyond.
pub open spec fn interpolation_frame(loop_range: Option<(usize, usize)>, frame_count: int, index: int) -> Option<int> {
    match loop_range {
        Some(_) => played_frame(loop_range, frame_count, index),
        None => if index + 1 >= frame_count {
            None
        } else {
            Some(index)
        },
    }
}

/// Reversing the frames twice gives back the frames: the first `num_frames`
/// whole frames of the data, unchanged.
pub proof fn lemma_reversed_frames_twice<T>(data: Seq<T>, channels: int, num_frames: int)
    requires
        channels >= 1,
        num_frames >= 0,
        num_frames * channels <= data.len(),
    ensures
        reversed_frames(reversed_frames(data, channels, num_frames), channels, num_frames)
            == data.take(num_frames * channels),
{
    let once = reversed_frames(data, channels, num_frames);
    let twice = reversed_frames(once, channels, num_frames);
    assert(num_frames * channels >= 0) by (nonlinear_arith)
        requires
            num_frames >= 0,
            channels >= 1,
    ;
    assert forall|k: int| 0 <= k < num_frames * channels implies #[trigger] twice[k] == data[k] by {
        let f = k / channels;
        let r = k % channels;
        vstd::arithmetic::div_mod::lemma_fundamental_div_mod(k, channels);
        assert(0 <= f < num_frames) by (nonlinear_arith)
            requires
                k == f * channels + r,
                0 <= r < channels,
                0 <= k < num_frames * channels,
        ;
        let j = (num_frames - 1 - f) * channels + r;
        assert(j / channels == num_frames - 1 - f && j % channels == r) by {
            vstd::arithmetic::div_mod::lemma_fundamental_div_mod_converse(j, channels, num_frames - 1 - f, r);
        }
        assert(0 <= j < num_frames * channels) by (nonlinear_arith)
            requires
                j == (num_frames - 1 - f) * channels + r,
                0 <= f < num_frames,
                0 <= r < channels,
        ;
        assert(twice[k] == once[j]);
        assert((num_frames - 1 - (num_frames - 1 - f)) * channels + r == k);
        assert(once[j] == data[k]);
    }
    assert(twice =~= data.take(num_frames * channels));
}

/// The whole frames of the data fit in it.
proof fn lemma_whole_frames_fit(len: int, channels: int)
    requires
        len >= 0,
        channels >= 1,
    ensures
        (len / channels) * channels <= len,
{
    vstd::arithmetic::div_mod::lemma_fundamental_div_mod(len, channels);
    assert(len % channels >= 0);
    assert((len / channels) * channels == channels * (len / channels)) by (nonlinear_arith);
}

impl<T: Copy> SampleFrames<T> {
    /// The interleaved values.
    pub closed spec fn samples(&self) -> Seq<T> {
        self.data@
    }

    /// Number of channels.
    pub closed spec fn channel_count(&self) -> int {
        self.channels as int
    }

    /// Number of whole frames.
    pub closed spec fn frame_count(&self) -> int {
        self.num_frames as int
    }

    /// Loop points in frames, when looping.
    pub closed spec fn loop_range(&self) -> Option<(usize, usize)> {
        match (self.loop_start, self.loop_end) {
            (Some(s), Some(e)) => Some((s, e)),
            _ => None,
        }
    }

    /// Well-formed: at least one channel, the frame count is the number of
    /// whole frames in the data, and a loop (set or cleared as a pair) lies
    /// within the frames with its start before its end.
    pub closed spec fn wf(&self) -> bool {
        &&& self.channels >= 1
        &&& self.num_frames == self.data@.len() as int / (self.channels as int)
        &&& (self.loop_start is Some <==> self.loop_end is Some)
        &&& match (self.loop_start, self.loop_end) {
            (Some(s), Some(e)) => s < e <= self.num_frames,
            _ => true,
        }
    }

    /// Wraps interleaved values with `channels` channels; a trailing partial
    /// frame is kept in the data but not counted as a frame.
    pub fn from_interleaved(data: Vec<T>, channels: u16) -> (s: Self)
        requires
            channels >= 1,
        ensures
            s.wf(),
            s.samples() == data@,
            s.channel_count() == channels,
            s.frame_count() == data@.len() as int / (channels as int),
            s.loop_range() is None,
    {
        let num_frames = data.len() / channels as usize;
        SampleFrames { data, channels, num_frames, loop_start: None, loop_end: None }
    }

    /// Wraps mono values: one channel, one frame per value.
    pub fn from_mono(samples: Vec<T>) -> (s: Self)
        ensures
            s.wf(),
            s.samples() == samples@,
            s.channel_count() == 1,
            s.frame_count() == samples@.len(),
            s.loop_range() is None,
    {
        let num_frames = samples.len();
        SampleFrames { data: samples, channels: 1, num_frames, loop_start: None, loop_end: None }
    }

    /// The interleaved values.
    pub fn data(&self) -> (d: &Vec<T>)
        ensures
            d@ == self.samples(),
    {
        &self.data
    }

    /// Number of channels.
    pub fn channels(&self) -> (c: u16)
        ensures
            c == self.channel_count(),
    {
        self.channels
    }

    /// Number of frames in the sample.
    pub fn num_frames(&self) -> (n: usize)
        ensures
            n == self.frame_count(),
    {
        self.num_frames
    }

    /// Whether looping is enabled.
    pub fn is_looping(&self) -> (b: bool)
        ensures
            b == self.loop_range() is Some,
    {
        self.loop_start.is_some() && self.loop_end.is_some()
    }

    /// Loop points in frames, if looping is enabled.
    pub fn loop_points(&self) -> (p: Option<(usize, usize)>)
        ensures
            p == self.loop_range(),
    {
        match (self.loop_start, self.loop_end) {
            (Some(start), Some(end)) => Some((start, end)),
            _ => None,
        }
    }

    /// The same frames with other values of the same length (used after
    /// scaling every value), keeping channels and loop.
    pub fn with_samples(self, samples: Vec<T>) -> (s: Self)
        requires
            self.wf(),
            samples@.len() == self.samples().len(),
        ensures
            s.wf(),
            s.samples() == samples@,
            s.channel_count() == self.channel_count(),
            s.frame_count() == self.frame_count(),
            s.loop_range() == self.loop_range(),
    {
        SampleFrames { data: samples, ..self }
    }

    /// A new sample made of the frames `[start_frame, end_frame)`, without a loop.
    pub fn slice_frames(&self, start_frame: usize, end_frame: usize) -> (r: Result<Self, FrameRangeError>)
        requires
            self.wf(),
        ensures
            start_frame >= end_frame ==> r == Err::<Self, FrameRangeError>(FrameRangeError::StartNotBeforeEnd),
            start_frame < end_frame && end_frame > self.frame_count() ==> r == Err::<Self, FrameRangeError>(
                FrameRangeError::EndBeyondLength { end: end_frame, length: self.frame_count() as usize },
            ),
            start_frame < end_frame <= self.frame_count() ==> r is Ok,
            r matches Ok(s) ==> {
                &&& s.wf()
                &&& s.samples() == frame_range(self.samples(), self.channel_count(), start_frame as int, end_frame as int)
                &&& s.channel_count() == self.channel_count()
                &&& s.frame_count() == end_frame - start_frame
                &&& s.loop_range() is None
            },
    {
        if start_frame >= end_frame {
            return Err(FrameRangeError::StartNotBeforeEnd);
        }
        if end_frame > self.num_frames {
            return Err(FrameRangeError::EndBeyondLength { end: end_frame, length: self.num_frames });
        }
        let ch = self.channels as usize;
        let len = self.data.len();
        proof {
            assert(end_frame * ch <= self.data@.len()) by (nonlinear_arith)
                requires
                    end_frame <= self.num_frames,
                    self.num_frames == self.data@.len() as int / (ch as int),
                    ch >= 1,
            {
                lemma_whole_frames_fit(self.data@.len() as int, ch as int);
            }
            assert(start_frame * ch <= end_frame * ch) by (nonlinear_arith)
                requires
                    start_frame < end_frame,
            ;
        }
        let start_index = start_frame * ch;
        let end_index = end_frame * ch;
        let mut sliced: Vec<T> = Vec::new();
        let mut i: usize = start_index;
        while i < end_index
            invariant
                start_index <= i <= end_index <= self.data@.len(),
                sliced@ == self.data@.subrange(start_index as int, i as int),
            decreases end_index - i,
        {
            sliced.push(self.data[i]);
            assert(self.data@.subrange(start_index as int, i + 1) =~= self.data@.subrange(start_index as int, i as int).push(self.data@[i as int]));
            i = i + 1;
        }
        let num_frames = sliced.len() / ch;
        proof {
            assert(sliced@.len() == (end_frame - start_frame) * ch) by (nonlinear_arith)
                requires
                    sliced@.len() == end_index - start_index,
                    end_index == end_frame * ch,
                    start_index == start_frame * ch,
            ;
            vstd::arithmetic::div_mod::lemma_fundamental_div_mod_converse(
                sliced@.len() as int,
                ch as int,
                (end_frame - start_frame) as int,
                0,
            );
        }
        Ok(SampleFrames { data: sliced, channels: self.channels, num_frames, loop_start: None, loop_end: None })
    }

    /// Enables looping between the frames `loop_start` (inclusive) and
    /// `loop_end` (exclusive).
    pub fn with_loop_frames(self, loop_start: usize, loop_end: usize) -> (r: Result<Self, FrameRangeError>)
        requires
            self.wf(),
        ensures
            loop_start >= loop_end ==> r == Err::<Self, FrameRangeError>(FrameRangeError::StartNotBeforeEnd),
            loop_start < loop_end && loop_end > self.frame_count() ==> r == Err::<Self, FrameRangeError>(
                FrameRangeError::EndBeyondLength { end: loop_end, length: self.frame_count() as usize },
            ),
            loop_start < loop_end <= self.frame_count() ==> r is Ok,
            r matches Ok(s) ==> {
                &&& s.wf()
                &&& s.samples() == self.samples()
                &&& s.channel_count() == self.channel_count()
                &&& s.frame_count() == self.frame_count()
                &&& s.loop_range() == Some((loop_start, loop_end))
            },
    {
        if loop_start >= loop_end {
            return Err(FrameRangeError::StartNotBeforeEnd);
        }
        if loop_end > self.num_frames {
            return Err(FrameRangeError::EndBeyondLength { end: loop_end, length: self.num_frames });
        }
        Ok(SampleFrames { loop_start: Some(loop_start), loop_end: Some(loop_end), ..self })
    }

    /// Disables looping.
    pub fn without_loop(self) -> (s: Self)
        requires
            self.wf(),
        ensures
            s.wf(),
            s.samples() == self.samples(),
            s.channel_count() == self.channel_count(),
            s.frame_count() == self.frame_count(),
            s.loop_range() is None,
    {
        SampleFrames { loop_start: None, loop_end: None, ..self }
    }

    /// The frames in reverse order, each frame keeping its channel order; the
    /// loop points stay as they are.
    pub fn reverse(&self) -> (s: Self)
        requires
            self.wf(),
        ensures
            s.wf(),
            s.samples() == reversed_frames(self.samples(), self.channel_count(), self.frame_count()),
            s.channel_count() == self.channel_count(),
            s.frame_count() == self.frame_count(),
            s.loop_range() == self.loop_range(),
    {
        let ch = self.channels as usize;
        let n = self.num_frames;
        let len = self.data.len();
        let ghost target = reversed_frames(self.data@, ch as int, n as int);
        proof {
            lemma_whole_frames_fit(self.data@.len() as int, ch as int);
        }
        let mut out: Vec<T> = Vec::new();
        let mut f: usize = 0;
        while f < n
            invariant
                f <= n,
                ch >= 1,
                n * ch <= self.data@.len(),
                self.data@.len() == len,
                n == self.num_frames,
                ch == self.channels,
                target == reversed_frames(self.data@, ch as int, n as int),
                out@ == target.take(f * ch),
            decreases n - f,
        {
            proof {
                assert((n - 1 - f) * ch + ch <= n * ch) by (nonlinear_arith)
                    requires
                        f < n,
                ;
            }
            let base = (n - 1 - f) * ch;
            let mut c: usize = 0;
            while c < ch
                invariant
                    c <= ch,
                    f < n,
                    ch >= 1,
                    base == (n - 1 - f) * ch,
                    base + ch <= self.data@.len(),
                    self.data@.len() == len,
                    target == reversed_frames(self.data@, ch as int, n as int),
                    out@ == target.take(f * ch + c),
                decreases ch - c,
            {
                proof {
                    let k = f * ch + c;
                    assert(k / (ch as int) == f && k % (ch as int) == c) by {
                        vstd::arithmetic::div_mod::lemma_fundamental_div_mod_converse(k, ch as int, f as int, c as int);
                    }
                    assert(k < n * ch) by (nonlinear_arith)
                        requires
                            f < n,
                            c < ch,
                            k == f * ch + c,
                    ;
                    assert(target[k] == self.data@[base + c]);
                    assert(target.take(k + 1) =~= target.take(k).push(target[k]));
                }
                out.push(self.data[base + c]);
                c = c + 1;
            }
            assert(f * ch + ch == (f + 1) * ch) by (nonlinear_arith);
            f = f + 1;
        }
        proof {
            assert(out@ =~= target);
            vstd::arithmetic::div_mod::lemma_fundamental_div_mod_converse((n * ch) as int, ch as int, n as int, 0);
        }
        SampleFrames { data: out, channels: self.channels, num_frames: n, loop_start: self.loop_start, loop_end: self.loop_end }
    }

    /// The frame played at frame position `index` (see `played_frame`).
    pub fn frame_position(&self, index: usize) -> (r: Option<usize>)
        requires
            self.wf(),
        ensures
            r matches Some(f) ==> played_frame(self.loop_range(), self.frame_count(), index as int) == Some(f as int),
            r is None ==> played_frame(self.loop_range(), self.frame_count(), index as int) is None,
            r matches Some(f) ==> f < self.frame_count(),
    {
        match (self.loop_start, self.loop_end) {
            (Some(start), Some(end)) => {
                if index >= end {
                    let len = end - start;
                    let wrapped = start + (index - start) % len;
                    assert((index - start) % (len as int) < len);
                    Some(wrapped)
                } else {
                    Some(index)
                }
            },
            _ => {
                if index >= self.num_frames {
                    None
                } else {
                    Some(index)
                }
            },
        }
    }

    /// The frame from which interpolated playback at frame position `index`
    /// starts, or `None` where it falls back to the plain frame (see
    /// `interpolation_frame`).
    pub fn interpolation_position(&self, index: usize) -> (r: Option<usize>)
        requires
            self.wf(),
        ensures
            r matches Some(f) ==> interpolation_frame(self.loop_range(), self.frame_count(), index as int) == Some(f as int),
            r is None ==> interpolation_frame(self.loop_range(), self.frame_count(), index as int) is None,
            r matches Some(f) ==> f < self.frame_count(),
    {
        if self.loop_start.is_some() && self.loop_end.is_some() {
            self.frame_position(index)
        } else if index >= self.num_frames || index + 1 >= self.num_frames {
            None
        } else {
            Some(index)
        }
    }

    /// The left and right values of frame `frame` (see `stereo_pair`); `None`
    /// stands for a value past the end of the data.
    pub fn stereo_values(&self, frame: usize) -> (r: (Option<T>, Option<T>))
        requires
            self.wf(),
            frame < self.frame_count(),
        ensures
            r == stereo_pair(self.samples(), self.channel_count(), frame as int),
    {
        let ch = self.channels as usize;
        let len = self.data.len();
        proof {
            lemma_whole_frames_fit(self.data@.len() as int, ch as int);
            assert(frame * ch + ch <= self.num_frames * ch) by (nonlinear_arith)
                requires
                    frame < self.num_frames,
            ;
        }
        if ch == 1 {
            let v = self.value(frame);
            (v, v)
        } else {
            let index = frame * ch;
            (self.value(index), self.value(index + 1))
        }
    }

    /// The value at index `k` of the data, if there is one.
    fn value(&self, k: usize) -> (r: Option<T>)
        ensures
            r == value_at(self.data@, k as int),
    {
        if k < self.data.len() {
            Some(self.data[k])
        } else {
            None
        }
    }
}


/// Positions, among the first `n` registered sample files, of those that were
/// not found, in registration order.
pub open spec fn missing_positions(found: Seq<bool>, n: int) -> Seq<usize>
    decreases n,
{
    if n <= 0 {
        Seq::empty()
    } else if !found[n - 1] {
        missing_positions(found, n - 1).push((n - 1) as usize)
    } else {
        missing_positions(found, n - 1)
    }
}

/// Which registered sample files are missing, given for each whether its file
/// was found: their positions in registration order. Startup validation fails
/// exactly when this is not empty.
pub fn missing_sample_indices(found: &Vec<bool>) -> (missing: Vec<usize>)
    ensures
        missing@ == missing_positions(found@, found@.len() as int),
        missing@.len() == 0 <==> forall|i: int| 0 <= i < found@.len() ==> found@[i],
{
    let mut missing: Vec<usize> = Vec::new();
    let mut i: usize = 0;
    while i < found.len()
        invariant
            i <= found@.len(),
            missing@ == missing_positions(found@, i as int),
            missing@.len() == 0 <==> forall|j: int| 0 <= j < i ==> found@[j],
        decreases found@.len() - i,
    {
        if !found[i] {
            missing.push(i);
        }
        i = i + 1;
    }
    missing
}

} // verus!
