use looper::pactl::{
    actual_latency_usec, command_text, default_device, find_field, specified_channel_count,
    true_input_channel_count,
};

const SOURCES: &str = "Source #0\n\
\tState: SUSPENDED\n\
\tName: alsa_output.usb.monitor\n\
\tDescription: Monitor\n\
\tSample Specification: s16le 2ch 48000Hz\n\
\tLatency: 0 usec, configured 0 usec\n\
\n\
Source #1\n\
\tState: RUNNING\n\
\tName: alsa_input.usb-Roland_QUAD-CAPTURE\n\
\tDescription: QUAD-CAPTURE\n\
\tSample Specification: s32le 6ch 44100Hz\n\
\tLatency: 10250 usec, configured 20000 usec\n\
\tLatency: 99 usec\n";

fn out(s: &str) -> Option<Vec<u8>> {
    Some(s.as_bytes().to_vec())
}

fn v(s: &str) -> Vec<char> {
    s.chars().collect()
}

#[test]
fn channel_count_of_the_default_source() {
    let count = true_input_channel_count(out("alsa_input.usb-Roland_QUAD-CAPTURE\n"), out(SOURCES));
    assert_eq!(count, Some(6));
    assert_eq!(true_input_channel_count(out(" alsa_output.usb.monitor "), out(SOURCES)), Some(2));
}

#[test]
fn no_channel_count_without_both_outputs() {
    assert_eq!(true_input_channel_count(None, out(SOURCES)), None);
    assert_eq!(true_input_channel_count(out("alsa_output.usb.monitor"), None), None);
    assert_eq!(true_input_channel_count(Some(vec![0xff]), out(SOURCES)), None);
    assert_eq!(true_input_channel_count(out("alsa_output.usb.monitor"), Some(vec![0xc3])), None);
}

#[test]
fn no_channel_count_of_a_source_that_is_not_listed() {
    assert_eq!(true_input_channel_count(out("other"), out(SOURCES)), None);
    assert_eq!(true_input_channel_count(out(""), out(SOURCES)), None);
}

#[test]
fn the_first_specification_decides() {
    let list = "Name: x\nSample Specification: float32le\nSample Specification: s16le 2ch\n";
    assert_eq!(true_input_channel_count(out("x"), out(list)), None);
    let before = "Sample Specification: s16le 4ch\nName: x\n";
    assert_eq!(true_input_channel_count(out("x"), out(before)), None);
    let again = "Name: y\nSample Specification: 9ch\nName: x\nName: y\nName: x\nSample Specification: 3ch\r\n";
    assert_eq!(true_input_channel_count(out("x"), out(again)), Some(3));
}

#[test]
fn the_first_readable_count_in_a_specification_is_taken() {
    assert_eq!(specified_channel_count(&v("s32le 6ch 44100Hz")), Some(6));
    assert_eq!(specified_channel_count(&v("ch xch 70000ch 8ch 2ch")), Some(8));
    assert_eq!(specified_channel_count(&v("s16le 48000Hz")), None);
    assert_eq!(specified_channel_count(&v("")), None);
}

#[test]
fn output_is_decoded_only_if_it_is_utf8() {
    assert_eq!(command_text(out("gr\u{fc}n")), Some("gr\u{fc}n".to_string()));
    assert_eq!(command_text(Some(vec![])), Some(String::new()));
    assert_eq!(command_text(Some(vec![0x67, 0xfc])), None);
    assert_eq!(command_text(None), None);
}

#[test]
fn the_default_device_is_trimmed() {
    assert_eq!(default_device(out("  sink.name\n")), Some("sink.name".to_string()));
    assert_eq!(default_device(None), None);
    assert_eq!(default_device(Some(vec![0x80])), None);
}

#[test]
fn fields_are_found_in_the_named_block_only() {
    let text = v(SOURCES);
    let name = v("alsa_output.usb.monitor");
    assert_eq!(find_field(&text, &name, &v("Description: ")), Some(v("Monitor")));
    assert_eq!(find_field(&text, &name, &v("Driver: ")), None);
    assert_eq!(find_field(&text, &v("nobody"), &v("Description: ")), None);
    assert_eq!(find_field(&text, &name, &v("Name: ")), None);
}

#[test]
fn the_actual_latency_is_the_first_word_of_its_line() {
    let latency = actual_latency_usec(out(SOURCES), "alsa_input.usb-Roland_QUAD-CAPTURE");
    assert_eq!(latency, Some("10250".to_string()));
    let idle = actual_latency_usec(out(SOURCES), "alsa_output.usb.monitor");
    assert_eq!(idle, Some("0".to_string()));
}

#[test]
fn no_latency_without_the_device_or_the_output() {
    assert_eq!(actual_latency_usec(out(SOURCES), "other"), None);
    assert_eq!(actual_latency_usec(None, "x"), None);
    assert_eq!(actual_latency_usec(Some(vec![0xff]), "x"), None);
}

#[test]
fn a_latency_line_without_a_word_is_no_latency_line() {
    assert_eq!(actual_latency_usec(out("Name: x\nLatency:   \n"), "x"), None);
    let later = actual_latency_usec(out("Name: x\nLatency:   \nLatency: 5 usec\n"), "x");
    assert_eq!(later, Some("5".to_string()));
}

#[test]
fn other_entries_never_influence_what_is_read() {
    let head = "Connected\nSample Specification: 9ch\n";
    let first = "Source #0\nName: a\nSample Specification: s16le 1ch\nLatency: 1 usec\n";
    let own = "Name: mine\nSample Specification: s32le 6ch 44100Hz\nLatency: 77 usec\n";
    let last = "Name: mine2\nSample Specification: 4ch\nLatency: 2 usec\n\n";
    let lists = [
        format!("{}{}{}{}", head, first, own, last),
        format!("{}{}{}", head, first, own),
        format!("{}{}{}", first, own, last),
        format!("{}{}", own, last),
        format!("{}{}", head, own),
        own.to_string(),
    ];
    for list in &lists {
        assert_eq!(true_input_channel_count(out("mine"), out(list)), Some(6));
        assert_eq!(actual_latency_usec(out(list), "mine"), Some("77".to_string()));
    }
    for list in [format!("{}{}{}", head, first, last), String::new()] {
        assert_eq!(true_input_channel_count(out("mine"), out(&list)), None);
    }
}
