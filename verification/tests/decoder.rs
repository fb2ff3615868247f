use kestrelcut::decoder::{
    after_fill, failure_text, fill_begin, fill_step, poll_step, stream_end, DecodeMode, FillStep, PollEvent, PollStep,
    ReadEvent, ReaderAction, StreamEnd,
};

/// Runs the fill steps against a scripted sequence of read results and
/// returns the outcome and the number of reads made.
fn fill(len: usize, script: &[ReadEvent]) -> (Result<bool, ()>, usize) {
    let mut step = fill_begin(len);
    let mut calls = 0;
    loop {
        match step {
            FillStep::Finished(r) => return (r, calls),
            FillStep::Continue(off) => {
                let ev = script[calls];
                calls += 1;
                step = fill_step(off, len, ev);
            }
        }
    }
}

#[test]
fn a_frame_may_arrive_in_pieces() {
    let script = [ReadEvent::Got(3), ReadEvent::Interrupted, ReadEvent::Got(4), ReadEvent::Got(1)];
    assert_eq!(fill(8, &script), (Ok(true), 4));
}

#[test]
fn end_of_file_gives_no_frame() {
    assert_eq!(fill(8, &[ReadEvent::Got(0)]), (Ok(false), 1));
    assert_eq!(fill(8, &[ReadEvent::Got(5), ReadEvent::Got(0)]), (Ok(false), 2));
}

#[test]
fn a_broken_pipe_ends_the_fill() {
    assert_eq!(fill(8, &[ReadEvent::Got(2), ReadEvent::Failed]), (Err(()), 2));
}

#[test]
fn an_empty_buffer_needs_no_read() {
    assert_eq!(fill(0, &[]), (Ok(true), 0));
}

#[test]
fn reader_actions() {
    assert_eq!(after_fill(DecodeMode::Still, Ok(true)), ReaderAction::Emit { last: true });
    assert_eq!(after_fill(DecodeMode::Stream, Ok(true)), ReaderAction::Emit { last: false });
    assert_eq!(after_fill(DecodeMode::Stream, Ok(false)), ReaderAction::Stop);
    assert_eq!(after_fill(DecodeMode::Still, Err(())), ReaderAction::Fail);
}

#[test]
fn stream_endings() {
    assert_eq!(
        stream_end(0, DecodeMode::Stream, "  \n"),
        StreamEnd::Failed("no video output (end of stream before first frame)".to_string())
    );
    assert_eq!(
        stream_end(0, DecodeMode::Still, "\n  Invalid data found  \n"),
        StreamEnd::Failed("Invalid data found".to_string())
    );
    assert_eq!(stream_end(3, DecodeMode::Stream, "x"), StreamEnd::Eof);
    assert_eq!(stream_end(1, DecodeMode::Still, "x"), StreamEnd::Quiet);
    assert_eq!(failure_text("", "pipe error"), "pipe error");
}

#[test]
fn draining_keeps_frames_up_to_the_target() {
    let keep = PollStep { keep_frame: true, stop: false, eof: false, error: false };
    assert_eq!(poll_step(true, PollEvent::Frame { reached: true }), keep);
    assert_eq!(poll_step(false, PollEvent::Frame { reached: false }), keep);
    assert_eq!(
        poll_step(true, PollEvent::Frame { reached: false }),
        PollStep { keep_frame: false, stop: true, eof: false, error: false }
    );
    assert_eq!(poll_step(true, PollEvent::Failed), PollStep { keep_frame: false, stop: true, eof: true, error: true });
    assert_eq!(poll_step(false, PollEvent::Empty), PollStep { keep_frame: false, stop: true, eof: false, error: false });
    assert!(poll_step(false, PollEvent::Disconnected).eof);
    assert!(poll_step(false, PollEvent::Eof).eof && !poll_step(false, PollEvent::Eof).error);
}
