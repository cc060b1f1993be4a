//! Buffer logic for playing and capturing audio tracks.
//!
//! Frames of a remote track arrive one at a time and the output device asks
//! for samples in blocks of its own. Between the two stands one buffer that
//! holds the latest frame. This module decides what that buffer holds, when
//! the output has to be set up anew, and what the device is given.

use vstd::prelude::*;

verus! {

/// How an output stream is set up.
#[derive(Clone, Copy, Debug, PartialEq, Eq, Structural)]
pub struct AudioFormat {
    pub channels: u16,
    pub sample_rate: u32,
    /// The number of samples in one block, over all channels.
    pub buffer_size: u32,
}

/// The layout of one frame of samples.
#[derive(Clone, Copy, Debug, PartialEq, Eq, Structural)]
pub struct FrameShape {
    pub sample_rate: u32,
    pub num_channels: u32,
    pub samples_per_channel: u32,
}

impl FrameShape {
    /// The number of samples in the frame, over all channels.
    pub open spec fn sample_count(self) -> int {
        self.samples_per_channel * self.num_channels
    }

    /// The output format that plays frames of this shape.
    pub open spec fn format(self) -> AudioFormat {
        AudioFormat {
            channels: (self.num_channels % 65536) as u16,
            sample_rate: self.sample_rate,
            buffer_size: self.sample_count() as u32,
        }
    }

    /// The shape of a frame of `sample_count` interleaved samples captured
    /// from a device with `channels` channels.
    pub fn captured(sample_count: u32, sample_rate: u32, channels: u32) -> (shape: FrameShape)
        requires
            channels > 0,
        ensures
            shape.sample_rate == sample_rate,
            shape.num_channels == channels,
            shape.samples_per_channel == sample_count as int / channels as int,
    {
        FrameShape { sample_rate, num_channels: channels, samples_per_channel: sample_count / channels }
    }
}

/// `len` samples of silence.
pub open spec fn silence(len: nat) -> Seq<i16> {
    Seq::new(len, |i: int| 0i16)
}

/// What the buffer holds once a frame of format `format` with samples
/// `data` has been received: the frame where it fills the buffer exactly,
/// else silence.
pub open spec fn buffered(format: AudioFormat, data: Seq<i16>) -> Seq<i16> {
    if data.len() == format.buffer_size {
        data
    } else {
        silence(format.buffer_size as nat)
    }
}

/// What the output device is given when it asks for `len` samples: the
/// buffer where it has that length, else silence.
pub open spec fn rendered(buffer: Seq<i16>, len: nat) -> Seq<i16> {
    if buffer.len() == len {
        buffer
    } else {
        silence(len)
    }
}

/// `len` samples of silence.
fn silent(len: usize) -> (samples: Vec<i16>)
    ensures
        samples@ == silence(len as nat),
{
    let mut samples: Vec<i16> = Vec::new();
    let mut i: usize = 0;
    while i < len
        invariant
            i <= len,
            samples@ == silence(i as nat),
        decreases len - i,
    {
        samples.push(0);
        i = i + 1;
        assert(samples@ =~= silence(i as nat));
    }
    samples
}

/// The mathematical value of a [`Playback`].
#[verifier::ext_equal]
pub struct PlaybackView {
    /// The format of the frames received last, once there was one.
    pub format: Option<AudioFormat>,
    /// The samples to play next.
    pub buffer: Seq<i16>,
}

impl PlaybackView {
    /// The buffer has the size that the format names; before the first
    /// frame it is empty.
    pub open spec fn wf(self) -> bool {
        match self.format {
            Some(format) => self.buffer.len() == format.buffer_size,
            None => self.buffer.len() == 0,
        }
    }
}

/// The buffer between a remote audio track and the output device.
#[derive(Debug)]
pub struct Playback {
    format: Option<AudioFormat>,
    buffer: Vec<i16>,
}

impl View for Playback {
    type V = PlaybackView;

    closed spec fn view(&self) -> PlaybackView {
        PlaybackView { format: self.format, buffer: self.buffer@ }
    }
}

impl Playback {
    /// See [`PlaybackView::wf`].
    pub open spec fn wf(&self) -> bool {
        self@.wf()
    }

    /// A buffer that has not seen a frame yet.
    pub fn new() -> (playback: Playback)
        ensures
            playback.wf(),
            playback@.format is None,
            playback@.buffer == Seq::<i16>::empty(),
    {
        Playback { format: None, buffer: Vec::new() }
    }

    /// Takes in the next frame of the track.
    ///
    /// Returns the format to set the output up with where the frame's
    /// format differs from that of the frame before, or where it is the
    /// first frame; `None` where the output can go on as it is. The buffer
    /// then holds the frame, or silence of the format's block size where the
    /// frame does not have as many samples as its shape says.
    pub fn receive(&mut self, data: &[i16], shape: FrameShape) -> (announce: Option<AudioFormat>)
        requires
            old(self).wf(),
            shape.sample_count() <= u32::MAX,
        ensures
            final(self).wf(),
            final(self)@.format == Some(shape.format()),
            final(self)@.buffer == buffered(shape.format(), data@),
            announce == if old(self)@.format == Some(shape.format()) {
                None
            } else {
                Some(shape.format())
            },
    {
        assert(shape.samples_per_channel * shape.num_channels == shape.sample_count());
        let buffer_size: u32 = shape.samples_per_channel * shape.num_channels;
        let format = AudioFormat {
            channels: (shape.num_channels % 65536) as u16,
            sample_rate: shape.sample_rate,
            buffer_size,
        };
        let changed = match self.format {
            Some(current) => current != format,
            None => true,
        };
        self.format = Some(format);
        if data.len() == buffer_size as usize {
            self.buffer = vstd::slice::slice_to_vec(data);
        } else {
            self.buffer = silent(buffer_size as usize);
        }
        if changed {
            Some(format)
        } else {
            None
        }
    }

    /// The samples for the output device, which asks for `len` of them: the
    /// buffer where it has that length, else silence.
    pub fn render(&self, len: usize) -> (samples: Vec<i16>)
        ensures
            samples@ == rendered(self@.buffer, len as nat),
    {
        if self.buffer.len() == len {
            vstd::slice::slice_to_vec(self.buffer.as_slice())
        } else {
            silent(len)
        }
    }
}

} // verus!
