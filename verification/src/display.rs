//! What the looper writes to the terminal.
use vstd::prelude::*;
use vstd::string::StringExecFns;

use crate::session::{State, Status};
use crate::text::{all_digits, decimal_value};

verus! {

/// How many cells the progress bar has.
pub const BAR_WIDTH: usize = 40;

/// The decimal digit of a number below ten.
pub open spec fn digit(d: nat) -> char {
    ('0' as u32 + d) as char
}

/// A number in base ten.
pub open spec fn decimal(n: nat) -> Seq<char>
    decreases n,
{
    if n < 10 {
        seq![digit(n)]
    } else {
        decimal(n / 10).push(digit(n % 10))
    }
}

/// A number in base ten with its sign, which zero has too.
pub open spec fn signed_decimal(n: int) -> Seq<char> {
    if n < 0 {
        seq!['-'] + decimal((-n) as nat)
    } else {
        seq!['+'] + decimal(n as nat)
    }
}

/// `n` times the character `c`.
pub open spec fn repeated(c: char, n: int) -> Seq<char> {
    Seq::new(n as nat, |i: int| c)
}

/// `s` moved to the right end of a field of `width` characters, if it is shorter.
pub open spec fn right_aligned(s: Seq<char>, width: int) -> Seq<char> {
    if s.len() < width {
        repeated(' ', width - s.len()) + s
    } else {
        s
    }
}

/// A bar of `width` cells, of which the first `filled` are filled.
pub open spec fn bar(filled: int, width: int) -> Seq<char> {
    seq!['['] + repeated('#', filled) + repeated('-', width - filled) + seq![']']
}

/// A bar as it is drawn: in red while recording.
pub open spec fn drawn_bar(filled: int, width: int, recording: bool) -> Seq<char> {
    if recording {
        "\x1b[31m"@ + bar(filled, width) + "\x1b[0m"@
    } else {
        bar(filled, width)
    }
}

/// What a status says.
pub open spec fn status_message(status: Status) -> Seq<char> {
    match status {
        Status::Recording => "Recording... press SPACE to stop and start looping."@,
        Status::RecordedNothing => "Recorded nothing. Back to idle -- press SPACE to record."@,
        Status::Looping => "Looping! SPACE to overdub, R to reset."@,
        Status::Overdubbing =>
            "Overdubbing onto the loop... SPACE to stop overdubbing, R to reset."@,
        Status::Reset => "Reset. Press SPACE to record a new loop."@,
    }
}

/// The line that shows how far the looper has got: the time since a recording
/// began, or else where in the loop the playback is.
pub open spec fn progress_line(
    state: State,
    elapsed: Seq<char>,
    filled: int,
    percent: Seq<char>,
) -> Seq<char> {
    match state {
        State::Idle => Seq::empty(),
        State::Recording => "\r\x1b[2KRecording... "@ + right_aligned(elapsed, 5) + "s"@,
        State::Looping { .. } => "\r\x1b[2KLoop:    "@ + drawn_bar(filled, BAR_WIDTH as int, false)
            + " "@ + right_aligned(percent, 3) + "%"@,
        State::Overdubbing { .. } => "\r\x1b[2KOverdub: "@ + drawn_bar(
            filled,
            BAR_WIDTH as int,
            true,
        ) + " "@ + right_aligned(percent, 3) + "% "@ + "\x1b[31m"@ + "[REC]"@ + "\x1b[0m"@,
    }
}

/// Appends `n` times the character `c`.
fn push_repeated(out: &mut String, c: char, n: usize)
    ensures
        final(out)@ == old(out)@ + repeated(c, n as int),
{
    let ghost before = out@;
    let mut i: usize = 0;
    assert(out@ == before + repeated(c, 0));
    while i < n
        invariant
            i <= n,
            out@ == before + repeated(c, i as int),
        decreases n - i,
    {
        out.push(c);
        i = i + 1;
        assert(out@ == before + repeated(c, i as int));
    }
}

/// Appends `s`, moved to the right end of a field of `width` characters.
fn push_right_aligned(out: &mut String, s: &str, width: usize)
    ensures
        final(out)@ == old(out)@ + right_aligned(s@, width as int),
{
    let ghost before = out@;
    let len: usize = s.unicode_len();
    if len < width {
        push_repeated(out, ' ', width - len);
        out.append(s);
        assert(out@ == before + right_aligned(s@, width as int));
    } else {
        out.append(s);
    }
}

/// Appends a number in base ten.
fn push_decimal(out: &mut String, n: u64)
    ensures
        final(out)@ == old(out)@ + decimal(n as nat),
    decreases n,
{
    let ghost before = out@;
    if n >= 10 {
        push_decimal(out, n / 10);
    }
    let d: u8 = (n % 10) as u8;
    let c: char = (48u8 + d) as char;
    out.push(c);
    assert(c == digit((n % 10) as nat));
    assert(out@ == before + decimal(n as nat));
}

/// A progress bar. `filled` of its `width` cells are filled.
pub fn render_bar(filled: usize, width: usize, recording: bool) -> (out: String)
    requires
        filled <= width,
    ensures
        out@ == drawn_bar(filled as int, width as int, recording),
{
    let mut out: String = String::new();
    if recording {
        out.append("\x1b[31m");
    }
    out.push('[');
    push_repeated(&mut out, '#', filled);
    push_repeated(&mut out, '-', width - filled);
    out.push(']');
    if recording {
        out.append("\x1b[0m");
    }
    assert(out@ == drawn_bar(filled as int, width as int, recording));
    out
}

/// The progress line, which overwrites itself: it returns to the start of the line
/// and clears it first. There is none while idle. `elapsed` is the time since the
/// recording began, in seconds; `filled` and `percent` say where in the loop the
/// playback is.
pub fn render_progress(state: State, elapsed: &str, filled: usize, percent: &str) -> (line: String)
    requires
        state is Looping || state is Overdubbing ==> filled <= BAR_WIDTH,
    ensures
        line@ == progress_line(state, elapsed@, filled as int, percent@),
{
    let mut line: String = String::new();
    match state {
        State::Idle => {},
        State::Recording => {
            line.append("\r\x1b[2KRecording... ");
            push_right_aligned(&mut line, elapsed, 5);
            line.append("s");
        },
        State::Looping { .. } => {
            let bar = render_bar(filled, BAR_WIDTH, false);
            line.append("\r\x1b[2KLoop:    ");
            line.append(bar.as_str());
            line.append(" ");
            push_right_aligned(&mut line, percent, 3);
            line.append("%");
        },
        State::Overdubbing { .. } => {
            let bar = render_bar(filled, BAR_WIDTH, true);
            line.append("\r\x1b[2KOverdub: ");
            line.append(bar.as_str());
            line.append(" ");
            push_right_aligned(&mut line, percent, 3);
            line.append("% ");
            line.append("\x1b[31m");
            line.append("[REC]");
            line.append("\x1b[0m");
        },
    }
    assert(line@ == progress_line(state, elapsed@, filled as int, percent@));
    line
}

/// What a status says.
pub fn status_text(status: Status) -> (text: &'static str)
    ensures
        text@ == status_message(status),
{
    match status {
        Status::Recording => "Recording... press SPACE to stop and start looping.",
        Status::RecordedNothing => "Recorded nothing. Back to idle -- press SPACE to record.",
        Status::Looping => "Looping! SPACE to overdub, R to reset.",
        Status::Overdubbing =>
            "Overdubbing onto the loop... SPACE to stop overdubbing, R to reset.",
        Status::Reset => "Reset. Press SPACE to record a new loop.",
    }
}

/// A message as it is written: over the progress line, on a line of its own.
pub fn status_line(msg: &str) -> (line: String)
    ensures
        line@ == "\r\x1b[2K"@ + msg@ + "\r\n"@,
{
    let mut line: String = String::new();
    line.append("\r\x1b[2K");
    line.append(msg);
    line.append("\r\n");
    assert(line@ == "\r\x1b[2K"@ + msg@ + "\r\n"@);
    line
}

/// What is said before SPACE takes its step: how much latency an overdub makes up
/// for, if that is what the step starts.
pub fn before_advance(state: State, latency_ms: &str) -> (message: Option<String>)
    ensures
        message is Some <==> state is Looping,
        message matches Some(text) ==> text@ == "Starting overdub with "@ + latency_ms@
            + " ms compensation"@,
{
    match state {
        State::Looping { .. } => {
            let mut text: String = String::new();
            text.append("Starting overdub with ");
            text.append(latency_ms);
            text.append(" ms compensation");
            assert(text@ == "Starting overdub with "@ + latency_ms@ + " ms compensation"@);
            Some(text)
        },
        State::Idle => None,
        State::Recording => None,
        State::Overdubbing { .. } => None,
    }
}

/// What is said when the overdub timing was moved. `total_ms` is the measured
/// latency and the trim together.
pub fn trim_report(trim_ms: i64, total_ms: &str) -> (text: String)
    ensures
        text@ == "Overdub timing trim: "@ + signed_decimal(trim_ms as int) + " ms (total "@
            + total_ms@ + " ms)"@,
{
    let mut text: String = String::new();
    text.append("Overdub timing trim: ");
    if trim_ms < 0 {
        text.push('-');
        push_decimal(&mut text, (-(trim_ms as i128)) as u64);
    } else {
        text.push('+');
        push_decimal(&mut text, trim_ms as u64);
    }
    assert(text@ == "Overdub timing trim: "@ + signed_decimal(trim_ms as int));
    text.append(" ms (total ");
    text.append(total_ms);
    text.append(" ms)");
    text
}

/// The line at the start that says which rates and channels are used.
pub fn recording_summary(
    input_rate: u32,
    used_channels: u16,
    input_channels: u16,
    output_rate: u32,
    output_channels: u16,
) -> (text: String)
    ensures
        text@ == "Recording at "@ + decimal(input_rate as nat) + " Hz, using "@ + decimal(
            used_channels as nat,
        ) + " of "@ + decimal(input_channels as nat)
            + " device input channels; playing back at "@ + decimal(output_rate as nat)
            + " Hz / "@ + decimal(output_channels as nat) + " ch"@,
{
    let mut text: String = String::new();
    text.append("Recording at ");
    push_decimal(&mut text, input_rate as u64);
    text.append(" Hz, using ");
    push_decimal(&mut text, used_channels as u64);
    text.append(" of ");
    push_decimal(&mut text, input_channels as u64);
    text.append(" device input channels; playing back at ");
    push_decimal(&mut text, output_rate as u64);
    text.append(" Hz / ");
    push_decimal(&mut text, output_channels as u64);
    text.append(" ch");
    assert(Seq::<char>::empty() + "Recording at "@ == "Recording at "@);
    text
}

/// The warning at the start that playback will be off, if it will.
pub fn rate_warning(input_rate: u32, output_rate: u32) -> (warning: Option<&'static str>)
    ensures
        warning is Some <==> input_rate != output_rate,
        warning matches Some(text) ==> text@
            == "Note: input/output sample rates differ, playback speed/pitch may be off (no resampling is done)."@,
{
    if input_rate != output_rate {
        Some(
            "Note: input/output sample rates differ, playback speed/pitch may be off (no resampling is done).",
        )
    } else {
        None
    }
}

/// What the measurement of the input latency, in milliseconds, came to.
pub fn latency_report(ms: Option<&str>) -> (text: String)
    ensures
        text@ == match ms {
            Some(number) => number@ + " ms"@,
            None => "couldn't measure (no PulseAudio?), using a fixed guess instead"@,
        },
{
    let mut text: String = String::new();
    match ms {
        Some(number) => {
            text.append(number);
            text.append(" ms");
            assert(text@ == number@ + " ms"@);
        },
        None => {
            text.append("couldn't measure (no PulseAudio?), using a fixed guess instead");
            assert(text@ == "couldn't measure (no PulseAudio?), using a fixed guess instead"@);
        },
    }
    text
}

/// A bar is as wide as its cells and two brackets, however much of it is filled.
pub proof fn law_bar_width(filled: int, width: int)
    requires
        0 <= filled <= width,
    ensures
        bar(filled, width).len() == width + 2,
{
}

/// A number is written in digits whose value it is, with no zero before them but for zero
/// itself.
pub proof fn law_decimal_writes_value(n: nat)
    ensures
        decimal(n).len() > 0,
        all_digits(decimal(n)),
        decimal_value(decimal(n)) == n,
        decimal(n)[0] == '0' ==> n == 0 && decimal(n).len() == 1,
    decreases n,
{
    let s = decimal(n);
    let c = digit(n % 10);
    assert('0' <= c <= '9' && c as int - 48 == n % 10);
    if n < 10 {
        assert(s == seq![c]);
        assert(s.drop_last() == Seq::<char>::empty());
        assert(decimal_value(Seq::<char>::empty()) == 0);
    } else {
        law_decimal_writes_value(n / 10);
        assert(s.drop_last() == decimal(n / 10));
        assert(s.last() == c);
        assert forall|i: int| 0 <= i < s.len() implies '0' <= #[trigger] s[i] <= '9' by {
            if i < s.len() - 1 {
                assert('0' <= decimal(n / 10)[i] <= '9');
            }
        }
        assert(s[0] == decimal(n / 10)[0]);
    }
}

/// A signed number is its sign, a plus for zero, and the digits of its size.
pub proof fn law_signed_decimal_writes_value(n: int)
    ensures
        signed_decimal(n).len() > 1,
        n < 0 ==> signed_decimal(n)[0] == '-' && decimal_value(signed_decimal(n).skip(1)) == -n,
        n >= 0 ==> signed_decimal(n)[0] == '+' && decimal_value(signed_decimal(n).skip(1)) == n,
        all_digits(signed_decimal(n).skip(1)),
        signed_decimal(n)[1] == '0' ==> n == 0 && signed_decimal(n).len() == 2,
{
    let size: nat = if n < 0 {
        (-n) as nat
    } else {
        n as nat
    };
    law_decimal_writes_value(size);
    assert(signed_decimal(n).skip(1) == decimal(size));
    assert(signed_decimal(n)[1] == decimal(size)[0]);
}

/// A bar, cell by cell: a bracket, the filled cells, the empty ones, and a bracket.
pub proof fn law_bar_cells(filled: int, width: int, i: int)
    requires
        0 <= filled <= width,
    ensures
        bar(filled, width).len() == width + 2,
        bar(filled, width)[0] == '[',
        1 <= i <= filled ==> bar(filled, width)[i] == '#',
        filled < i <= width ==> bar(filled, width)[i] == '-',
        bar(filled, width)[width + 1] == ']',
{
}

/// A bar is drawn as it is, or, while recording, between the codes for red and for no
/// colour.
pub proof fn law_drawn_bar(filled: int, width: int)
    ensures
        drawn_bar(filled, width, false) == bar(filled, width),
        drawn_bar(filled, width, true) == "\x1b[31m"@ + bar(filled, width) + "\x1b[0m"@,
{
}

/// Aligning to the right puts spaces before a text until it fills the field, and leaves one
/// that fills it as it is.
pub proof fn law_right_aligned(s: Seq<char>, width: int, i: int)
    ensures
        s.len() >= width ==> right_aligned(s, width) == s,
        s.len() < width ==> {
            &&& right_aligned(s, width).len() == width
            &&& right_aligned(s, width).skip(width - s.len()) == s
            &&& 0 <= i < width - s.len() ==> right_aligned(s, width)[i] == ' '
        },
{
    if s.len() < width {
        assert(right_aligned(s, width).skip(width - s.len()) == s);
    }
}

/// The progress lines: none while idle, the time while recording, and else the bar of forty
/// cells and the percentage. `pad` is the spaces that bring the number to its width.
pub proof fn law_progress_lines(
    loop_frames: usize,
    number: Seq<char>,
    other: Seq<char>,
    filled: int,
    pad: Seq<char>,
)
    requires
        0 <= filled <= 40,
        forall|i: int| 0 <= i < pad.len() ==> #[trigger] pad[i] == ' ',
    ensures
        progress_line(State::Idle, other, filled, number) == Seq::<char>::empty(),
        pad.len() == (if number.len() < 5 {
            5 - number.len()
        } else {
            0
        }) ==> progress_line(State::Recording, number, filled, other)
            == "\r\x1b[2KRecording... "@ + pad + number + "s"@,
        pad.len() == (if number.len() < 3 {
            3 - number.len()
        } else {
            0
        }) ==> {
            &&& progress_line(State::Looping { loop_frames }, other, filled, number)
                == "\r\x1b[2KLoop:    "@ + bar(filled, 40) + " "@ + pad + number + "%"@
            &&& progress_line(State::Overdubbing { loop_frames }, other, filled, number)
                == "\r\x1b[2KOverdub: "@ + ("\x1b[31m"@ + bar(filled, 40) + "\x1b[0m"@) + " "@ + pad
                + number + "% "@ + "\x1b[31m"@ + "[REC]"@ + "\x1b[0m"@
        },
{
    if pad.len() == (if number.len() < 5 {
        5 - number.len()
    } else {
        0
    }) {
        assert(right_aligned(number, 5) == pad + number);
        assert("\r\x1b[2KRecording... "@ + (pad + number) == "\r\x1b[2KRecording... "@ + pad
            + number);
    }
    if pad.len() == (if number.len() < 3 {
        3 - number.len()
    } else {
        0
    }) {
        assert(right_aligned(number, 3) == pad + number);
        let a = "\r\x1b[2KLoop:    "@ + bar(filled, 40) + " "@;
        assert(a + (pad + number) == a + pad + number);
        let b = "\r\x1b[2KOverdub: "@ + ("\x1b[31m"@ + bar(filled, 40) + "\x1b[0m"@) + " "@;
        assert(b + (pad + number) == b + pad + number);
    }
}

} // verus!
