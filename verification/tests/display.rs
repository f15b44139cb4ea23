use looper::display::{
    before_advance, latency_report, rate_warning, recording_summary, render_bar, render_progress,
    status_line, status_text, trim_report, BAR_WIDTH,
};
use looper::session::{State, Status};

#[test]
fn bars_fill_from_the_left() {
    assert_eq!(render_bar(0, 4, false), "[----]");
    assert_eq!(render_bar(3, 4, false), "[###-]");
    assert_eq!(render_bar(4, 4, false), "[####]");
    assert_eq!(render_bar(0, 0, false), "[]");
}

#[test]
fn bars_are_red_while_recording() {
    assert_eq!(render_bar(1, 2, true), "\x1b[31m[#-]\x1b[0m");
}

#[test]
fn every_bar_is_as_wide() {
    for filled in 0..=BAR_WIDTH {
        assert_eq!(render_bar(filled, BAR_WIDTH, false).len(), 42);
    }
}

#[test]
fn progress_lines() {
    assert_eq!(render_progress(State::Idle, "1.0", 99, "2"), "");
    for seconds in [0.0f64, 7.25, 123.4, 12345.6] {
        assert_eq!(
            render_progress(State::Recording, &format!("{:.1}", seconds), 99, ""),
            format!("\r\x1b[2KRecording... {:>5.1}s", seconds)
        );
    }
    let bar = format!("[{}{}]", "#".repeat(10), "-".repeat(30));
    assert_eq!(
        render_progress(State::Looping { loop_frames: 8 }, "", 10, "25"),
        format!("\r\x1b[2KLoop:    {} {:>3.0}%", bar, 25.0)
    );
    assert_eq!(
        render_progress(State::Overdubbing { loop_frames: 8 }, "", 10, "25"),
        format!("\r\x1b[2KOverdub: \x1b[31m{}\x1b[0m {:>3.0}% \x1b[31m[REC]\x1b[0m", bar, 25.0)
    );
}

#[test]
fn status_texts() {
    assert_eq!(
        status_text(Status::Recording),
        "Recording... press SPACE to stop and start looping."
    );
    assert_eq!(
        status_text(Status::RecordedNothing),
        "Recorded nothing. Back to idle -- press SPACE to record."
    );
    assert_eq!(status_text(Status::Looping), "Looping! SPACE to overdub, R to reset.");
    assert_eq!(
        status_text(Status::Overdubbing),
        "Overdubbing onto the loop... SPACE to stop overdubbing, R to reset."
    );
    assert_eq!(status_text(Status::Reset), "Reset. Press SPACE to record a new loop.");
}

#[test]
fn status_lines_overwrite_the_progress_line() {
    assert_eq!(status_line("hello"), "\r\x1b[2Khello\r\n");
}

#[test]
fn an_overdub_is_announced() {
    assert_eq!(
        before_advance(State::Looping { loop_frames: 1 }, "115"),
        Some("Starting overdub with 115 ms compensation".to_string())
    );
    assert_eq!(before_advance(State::Idle, "115"), None);
    assert_eq!(before_advance(State::Recording, "115"), None);
    assert_eq!(before_advance(State::Overdubbing { loop_frames: 1 }, "115"), None);
}

#[test]
fn trims_are_written_with_their_sign() {
    for trim in [85i64, 0, -5, 10, -100, 9, i64::MAX, i64::MIN] {
        assert_eq!(
            trim_report(trim, "42"),
            format!("Overdub timing trim: {:+} ms (total 42 ms)", trim)
        );
    }
    assert_eq!(trim_report(85, "115"), format!("Overdub timing trim: {:+.0} ms (total {:.0} ms)", 85.0, 115.0));
}

#[test]
fn the_summary_names_rates_and_channels() {
    assert_eq!(
        recording_summary(44100, 2, 6, 48000, 2),
        "Recording at 44100 Hz, using 2 of 6 device input channels; playing back at 48000 Hz / 2 ch"
    );
    assert_eq!(
        recording_summary(0, 0, 10, u32::MAX, u16::MAX),
        "Recording at 0 Hz, using 0 of 10 device input channels; playing back at 4294967295 Hz / 65535 ch"
    );
}

#[test]
fn differing_rates_are_warned_about() {
    assert_eq!(rate_warning(44100, 44100), None);
    assert_eq!(
        rate_warning(44100, 48000),
        Some("Note: input/output sample rates differ, playback speed/pitch may be off (no resampling is done).")
    );
}

#[test]
fn the_measurement_is_reported() {
    assert_eq!(latency_report(Some("12.5")), "12.5 ms");
    assert_eq!(
        latency_report(None),
        "couldn't measure (no PulseAudio?), using a fixed guess instead"
    );
}
