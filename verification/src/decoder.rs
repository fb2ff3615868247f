//! Frame-pipe decisions of the decoder: how a raw frame buffer is filled
//! from a pipe that may deliver it piecemeal, what the reader does after
//! each frame, and how a stream ends. The process and the pipe itself are
//! driven by the caller, which performs each step and reports back.

use vstd::prelude::*;
use crate::text::{chars_of, owned, string_of, trim, trim_chars};

verus! {

/// Still = grab exactly one frame then stop (reverse-clip preview and
/// thumbnails). Stream = continuous playback.
#[derive(Clone, Copy, PartialEq, Eq, Structural, Debug)]
pub enum DecodeMode {
    Still,
    Stream,
}

/// What one `read` call on the pipe reported.
#[derive(Clone, Copy, PartialEq, Eq, Structural, Debug)]
pub enum ReadEvent {
    /// `n` bytes were read (0 means end of file).
    Got(usize),
    /// The call was interrupted and may simply be retried.
    Interrupted,
    /// Any other error.
    Failed,
}

/// Next move while filling a frame buffer of a given length.
#[derive(Clone, Copy, Debug)]
pub enum FillStep {
    /// Read again into the buffer from this offset on.
    Continue(usize),
    /// Done: `Ok(true)` or `Ok(false)` as the read results decide (see
    /// `fill_step`), `Err(())` a broken pipe.
    Finished(Result<bool, ()>),
}

/// The move after a read event, with `off` bytes of `len` already in place.
pub open spec fn spec_fill_step(off: nat, len: nat, ev: ReadEvent) -> FillStep {
    match ev {
        ReadEvent::Got(n) => if n == 0 {
            FillStep::Finished(Ok(false))
        } else if off + n >= len {
            FillStep::Finished(Ok(true))
        } else {
            FillStep::Continue((off + n) as usize)
        },
        ReadEvent::Interrupted => FillStep::Continue(off as usize),
        ReadEvent::Failed => FillStep::Finished(Err(())),
    }
}

/// How filling a buffer of `len` bytes starts: an empty buffer is complete
/// at once, otherwise reading starts at offset 0.
pub fn fill_begin(len: usize) -> (r: FillStep)
    ensures
        r == (if len == 0 {
            FillStep::Finished(Ok(true))
        } else {
            FillStep::Continue(0)
        }),
{
    if len == 0 {
        FillStep::Finished(Ok(true))
    } else {
        FillStep::Continue(0)
    }
}

/// One step of reading exactly `len` bytes: a read that completes the buffer
/// finishes with `Ok(true)`; a read of 0 bytes (end of file) finishes with
/// `Ok(false)`, no frame, whether the stream ended cleanly between frames or
/// in the middle of one; interruptions are retried, and any other error
/// finishes with `Err(())`.
pub fn fill_step(off: usize, len: usize, ev: ReadEvent) -> (r: FillStep)
    requires
        off < len,
        ev matches ReadEvent::Got(n) ==> n <= len - off,
    ensures
        r == spec_fill_step(off as nat, len as nat, ev),
        r matches FillStep::Continue(o) ==> off <= o < len,
{
    match ev {
        ReadEvent::Got(n) => {
            if n == 0 {
                FillStep::Finished(Ok(false))
            } else if n >= len - off {
                FillStep::Finished(Ok(true))
            } else {
                FillStep::Continue(off + n)
            }
        },
        ReadEvent::Interrupted => FillStep::Continue(off),
        ReadEvent::Failed => FillStep::Finished(Err(())),
    }
}

/// What the frame reader does after trying to fill one frame.
#[derive(Clone, Copy, PartialEq, Eq, Structural, Debug)]
pub enum ReaderAction {
    /// Hand the frame on; stop afterwards when `last` is set.
    Emit { last: bool },
    /// The fill came back `Ok(false)`: stop reading.
    Stop,
    /// The pipe broke: report a failure and stop.
    Fail,
}

/// A still grab stops after its first frame; a stream goes on until the
/// pipe ends.
pub fn after_fill(mode: DecodeMode, filled: Result<bool, ()>) -> (r: ReaderAction)
    ensures
        r == (match filled {
            Ok(true) => ReaderAction::Emit { last: mode == DecodeMode::Still },
            Ok(false) => ReaderAction::Stop,
            Err(_) => ReaderAction::Fail,
        }),
{
    match filled {
        Ok(true) => ReaderAction::Emit { last: mode == DecodeMode::Still },
        Ok(false) => ReaderAction::Stop,
        Err(_) => ReaderAction::Fail,
    }
}

/// The error text shown for a failure: the trimmed tail of ffmpeg's error
/// output, or `fallback` when that is blank.
pub open spec fn spec_failure_text(tail: Seq<char>, fallback: Seq<char>) -> Seq<char> {
    if trim(tail).len() == 0 {
        fallback
    } else {
        trim(tail)
    }
}

pub fn failure_text(tail: &str, fallback: &str) -> (r: String)
    ensures
        r@ == spec_failure_text(tail@, fallback@),
{
    let cs = chars_of(tail);
    let t = trim_chars(&cs);
    if t.len() == 0 {
        owned(fallback)
    } else {
        string_of(&t)
    }
}

/// How a reader announces the end of its stream.
#[derive(Clone, PartialEq, Eq, Debug)]
pub enum StreamEnd {
    /// Nothing came out at all: an error with this text.
    Failed(String),
    /// A stream ended after at least one frame.
    Eof,
    /// A still grab delivered its frame; nothing more to say.
    Quiet,
}

/// End of the reader: no frame at all is a failure (with ffmpeg's error
/// tail when there is one), a stream announces its end, a still grab that
/// delivered says nothing more.
pub fn stream_end(frames: u64, mode: DecodeMode, err_tail: &str) -> (r: StreamEnd)
    ensures
        frames == 0 ==> (r matches StreamEnd::Failed(m) && m@ == spec_failure_text(
            err_tail@,
            "no video output (end of stream before first frame)"@,
        )),
        frames > 0 && mode == DecodeMode::Stream ==> r == StreamEnd::Eof,
        frames > 0 && mode == DecodeMode::Still ==> r == StreamEnd::Quiet,
{
    if frames == 0 {
        StreamEnd::Failed(failure_text(err_tail, "no video output (end of stream before first frame)"))
    } else if mode == DecodeMode::Stream {
        StreamEnd::Eof
    } else {
        StreamEnd::Quiet
    }
}

// ------------------------------------------------------------------ draining

/// What the preview found when draining the decoder's channel.
#[derive(Clone, Copy, PartialEq, Eq, Structural, Debug)]
pub enum PollEvent {
    /// A frame; `reached` tells whether it lies at or before the time the
    /// preview is seeking to (always set when it seeks to no time).
    Frame { reached: bool },
    /// The stream ended.
    Eof,
    /// The decoder reported a failure.
    Failed,
    /// Nothing is waiting right now.
    Empty,
    /// The decoder is gone.
    Disconnected,
}

/// What draining does with one event.
#[derive(Clone, Copy, PartialEq, Eq, Structural, Debug)]
pub struct PollStep {
    /// The frame becomes the one to display.
    pub keep_frame: bool,
    /// Stop draining for now.
    pub stop: bool,
    /// The stream is over.
    pub eof: bool,
    /// Record the failure message.
    pub error: bool,
}

/// One step of draining: frames up to the target are taken (the newest
/// wins); the first frame beyond it is taken only when nothing was taken
/// yet, and otherwise draining stops there; end of stream, failure,
/// disconnection and an empty channel all stop draining.
pub fn poll_step(has_frame: bool, ev: PollEvent) -> (r: PollStep)
    ensures
        r == (match ev {
            PollEvent::Frame { reached } => if reached || !has_frame {
                PollStep { keep_frame: true, stop: false, eof: false, error: false }
            } else {
                PollStep { keep_frame: false, stop: true, eof: false, error: false }
            },
            PollEvent::Eof => PollStep { keep_frame: false, stop: true, eof: true, error: false },
            PollEvent::Failed => PollStep { keep_frame: false, stop: true, eof: true, error: true },
            PollEvent::Empty => PollStep { keep_frame: false, stop: true, eof: false, error: false },
            PollEvent::Disconnected => PollStep { keep_frame: false, stop: true, eof: true, error: false },
        }),
{
    match ev {
        PollEvent::Frame { reached } => {
            if reached || !has_frame {
                PollStep { keep_frame: true, stop: false, eof: false, error: false }
            } else {
                PollStep { keep_frame: false, stop: true, eof: false, error: false }
            }
        },
        PollEvent::Eof => PollStep { keep_frame: false, stop: true, eof: true, error: false },
        PollEvent::Failed => PollStep { keep_frame: false, stop: true, eof: true, error: true },
        PollEvent::Empty => PollStep { keep_frame: false, stop: true, eof: false, error: false },
        PollEvent::Disconnected => PollStep { keep_frame: false, stop: true, eof: true, error: false },
    }
}

} // verus!
