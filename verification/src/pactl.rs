//! Reading what PulseAudio's `pactl` prints about its devices.
//!
//! `pactl list sources` and `pactl list sinks` print one block per device. A
//! `Name: ` line opens the block of a device, and the lines that follow it, up to
//! the next `Name: ` line, describe that device.
use vstd::prelude::*;
use vstd::utf8::{
    decode_utf8, encode_utf8, encode_utf8_decode_utf8, encode_utf8_valid_utf8, valid_utf8,
};

use crate::display::{decimal, law_decimal_writes_value};
use crate::text::chars_of;
use crate::text::lines;
use crate::text::parse_u16;
use crate::text::same_chars;
use crate::text::string_of;
use crate::text::strip_prefix;
use crate::text::strip_suffix;
use crate::text::trim;
use crate::text::words;
use crate::text::{
    has_prefix, has_suffix, is_white, law_number_is_read, law_other_text_is_no_number, law_prefix,
    law_suffix, law_white_space_parts_words, lines_of, none_white, trimmed, trimmed_end,
    trimmed_start, u16_value, views, words_of,
};

verus! {

/// The text that a command printed: nothing if it did not run or if its output
/// is not UTF-8.
pub open spec fn output_text(stdout: Option<Seq<u8>>) -> Option<Seq<char>> {
    match stdout {
        Some(bytes) => if valid_utf8(bytes) {
            Some(decode_utf8(bytes))
        } else {
            None
        },
        None => None,
    }
}

/// The view of a command's output.
pub open spec fn output_view(stdout: Option<Vec<u8>>) -> Option<Seq<u8>> {
    match stdout {
        Some(bytes) => Some(bytes@),
        None => None,
    }
}

/// The view of an optional string.
pub open spec fn text_view(text: Option<String>) -> Option<Seq<char>> {
    match text {
        Some(s) => Some(s@),
        None => None,
    }
}

/// The device that line `i` belongs to: the one that the last `Name: ` line
/// before it names.
pub open spec fn owner(ls: Seq<Seq<char>>, i: int) -> Option<Seq<char>>
    decreases i,
{
    if i <= 0 {
        None
    } else {
        let line = trimmed(ls[i - 1]);
        if has_prefix(line, "Name: "@) {
            Some(line.skip("Name: "@.len() as int))
        } else {
            owner(ls, i - 1)
        }
    }
}

/// Whether line `i` stands in the block of `device`, after its `Name: ` line, and
/// begins with `key`.
pub open spec fn holds_field(
    ls: Seq<Seq<char>>,
    i: int,
    device: Seq<char>,
    key: Seq<char>,
) -> bool {
    &&& !has_prefix(trimmed(ls[i]), "Name: "@)
    &&& has_prefix(trimmed(ls[i]), key)
    &&& owner(ls, i) == Some(device)
}

/// What follows `key` on the first line from line `i` on that holds the field.
pub open spec fn field_from(
    ls: Seq<Seq<char>>,
    i: int,
    device: Seq<char>,
    key: Seq<char>,
) -> Option<Seq<char>>
    decreases ls.len() - i,
{
    if i >= ls.len() {
        None
    } else if holds_field(ls, i, device, key) {
        Some(trimmed(ls[i]).skip(key.len() as int))
    } else {
        field_from(ls, i + 1, device, key)
    }
}

/// What follows `key` on the first line of `device`'s block that begins with it.
pub open spec fn field_of(text: Seq<char>, device: Seq<char>, key: Seq<char>) -> Option<Seq<char>> {
    field_from(lines_of(text), 0, device, key)
}

/// The number in a word such as `6ch`.
pub open spec fn channel_word(word: Seq<char>) -> Option<u16> {
    if has_suffix(word, "ch"@) {
        u16_value(word.take(word.len() - "ch"@.len()))
    } else {
        None
    }
}

/// The number in the first word from word `i` on that is one such as `6ch`.
pub open spec fn first_channel_word(ws: Seq<Seq<char>>, i: int) -> Option<u16>
    decreases ws.len() - i,
{
    if i >= ws.len() {
        None
    } else if channel_word(ws[i]) is Some {
        channel_word(ws[i])
    } else {
        first_channel_word(ws, i + 1)
    }
}

/// The channel count in the sample specification of `device` in a list of
/// sources.
pub open spec fn channel_count(sources: Seq<char>, device: Seq<char>) -> Option<u16> {
    match field_of(sources, device, "Sample Specification: "@) {
        Some(specification) => first_channel_word(words_of(specification), 0),
        None => None,
    }
}

/// The first word after `Latency: ` in the block of `device`.
pub open spec fn latency_word(list: Seq<char>, device: Seq<char>) -> Option<Seq<char>> {
    match field_of(list, device, "Latency: "@) {
        Some(rest) => if words_of(rest).len() > 0 {
            Some(words_of(rest)[0])
        } else {
            None
        },
        None => None,
    }
}

/// `String::from_utf8` gives the text that the bytes encode if they are valid
/// UTF-8, and an error, dropped here, if they are not.
#[verifier::external_body]
fn string_from_utf8(bytes: Vec<u8>) -> (text: Option<String>)
    ensures
        text is Some <==> valid_utf8(bytes@),
        text matches Some(s) ==> s@ == decode_utf8(bytes@),
{
    String::from_utf8(bytes).ok()
}

/// The text that a command printed.
pub fn command_text(stdout: Option<Vec<u8>>) -> (text: Option<String>)
    ensures
        text_view(text) == output_text(output_view(stdout)),
        text is Some <==> (stdout matches Some(bytes) && valid_utf8(bytes@)),
        text matches Some(t) ==> t@ == decode_utf8(stdout->0@),
{
    match stdout {
        Some(bytes) => string_from_utf8(bytes),
        None => None,
    }
}

/// The device name that `pactl get-default-source` or `pactl get-default-sink`
/// printed, without the white space around it.
pub fn default_device(stdout: Option<Vec<u8>>) -> (name: Option<String>)
    ensures
        text_view(name) == match output_text(output_view(stdout)) {
            Some(text) => Some(trimmed(text)),
            None => None,
        },
        name is Some <==> (stdout matches Some(bytes) && valid_utf8(bytes@)),
        name matches Some(n) ==> n@ == trimmed(decode_utf8(stdout->0@)),
{
    match command_text(stdout) {
        Some(text) => Some(string_of(trim(chars_of(text.as_str()).as_slice()).as_slice())),
        None => None,
    }
}

/// What follows `key` on the first line of `device`'s block that begins with it.
pub fn find_field(text: &[char], device: &[char], key: &[char]) -> (field: Option<Vec<char>>)
    ensures
        field is Some <==> field_of(text@, device@, key@) is Some,
        field matches Some(f) ==> Some(f@) == field_of(text@, device@, key@),
{
    let all = lines(text);
    let name_key = chars_of("Name: ");
    let mut in_block: bool = false;
    let mut i: usize = 0;
    let ghost ls = lines_of(text@);
    while i < all.len()
        invariant
            i <= all.len(),
            views(all@) == ls,
            name_key@ == "Name: "@,
            in_block <==> owner(ls, i as int) == Some(device@),
            field_of(text@, device@, key@) == field_from(ls, i as int, device@, key@),
        decreases all.len() - i,
    {
        assert(ls[i as int] == all@[i as int]@);
        let line = trim(all[i].as_slice());
        match strip_prefix(line.as_slice(), name_key.as_slice()) {
            Some(name) => {
                in_block = same_chars(name.as_slice(), device);
            },
            None => {
                if in_block {
                    match strip_prefix(line.as_slice(), key) {
                        Some(rest) => {
                            return Some(rest);
                        },
                        None => {},
                    }
                }
            },
        }
        i = i + 1;
    }
    None
}

/// The channel count in a sample specification such as `s32le 6ch 44100Hz`.
pub fn specified_channel_count(specification: &[char]) -> (count: Option<u16>)
    ensures
        count == first_channel_word(words_of(specification@), 0),
{
    let all = words(specification);
    let unit = chars_of("ch");
    let mut i: usize = 0;
    let ghost ws = words_of(specification@);
    while i < all.len()
        invariant
            i <= all.len(),
            views(all@) == ws,
            ws == words_of(specification@),
            unit@ == "ch"@,
            first_channel_word(ws, 0) == first_channel_word(ws, i as int),
        decreases all.len() - i,
    {
        assert(ws[i as int] == all@[i as int]@);
        match strip_suffix(all[i].as_slice(), unit.as_slice()) {
            Some(digits) => {
                let value = parse_u16(digits.as_slice());
                if value.is_some() {
                    return value;
                }
            },
            None => {},
        }
        i = i + 1;
    }
    None
}

/// The channel count that `pactl list sources` gives for the default source.
///
/// PulseAudio mixes a source with many channels down to stereo for clients that
/// do not ask for more. This is the count before that. It is best effort: `None`
/// if either command did not run or did not print UTF-8, if the default source is
/// not in the list or has no sample specification, or if no word of the
/// specification is a channel count.
pub fn true_input_channel_count(
    default_source: Option<Vec<u8>>,
    sources: Option<Vec<u8>>,
) -> (count: Option<u16>)
    ensures
        count == match (
            output_text(output_view(default_source)),
            output_text(output_view(sources)),
        ) {
            (Some(source), Some(list)) => channel_count(list, trimmed(source)),
            _ => None,
        },
        (default_source matches Some(source) && sources matches Some(list) && valid_utf8(source@)
            && valid_utf8(list@)) ==> count == channel_count(
            decode_utf8(sources->0@),
            trimmed(decode_utf8(default_source->0@)),
        ),
        count is Some ==> default_source is Some && sources is Some && valid_utf8(
            default_source->0@,
        ) && valid_utf8(sources->0@),
{
    let name = match default_device(default_source) {
        Some(name) => name,
        None => {
            return None;
        },
    };
    let list = match command_text(sources) {
        Some(list) => list,
        None => {
            return None;
        },
    };
    let list = chars_of(list.as_str());
    let name = chars_of(name.as_str());
    let key = chars_of("Sample Specification: ");
    match find_field(list.as_slice(), name.as_slice(), key.as_slice()) {
        Some(specification) => specified_channel_count(specification.as_slice()),
        None => None,
    }
}

/// The latency, in microseconds and as text, that `pactl list sources` or
/// `pactl list sinks` gives for `device`: the actual one, not the configured one.
pub fn actual_latency_usec(list: Option<Vec<u8>>, device: &str) -> (usec: Option<String>)
    ensures
        text_view(usec) == match output_text(output_view(list)) {
            Some(text) => latency_word(text, device@),
            None => None,
        },
        usec is Some <==> (list matches Some(bytes) && valid_utf8(bytes@) && latency_word(
            decode_utf8(bytes@),
            device@,
        ) is Some),
        usec matches Some(word) ==> latency_word(decode_utf8(list->0@), device@) == Some(word@),
{
    let text = match command_text(list) {
        Some(text) => text,
        None => {
            return None;
        },
    };
    let text = chars_of(text.as_str());
    let name = chars_of(device);
    let key = chars_of("Latency: ");
    match find_field(text.as_slice(), name.as_slice(), key.as_slice()) {
        Some(rest) => {
            let all = words(rest.as_slice());
            assert(views(all@) == words_of(rest@));
            if all.len() > 0 {
                assert(views(all@)[0] == all@[0]@);
                Some(string_of(all[0].as_slice()))
            } else {
                None
            }
        },
        None => None,
    }
}

/// What is left after trimming does not end in white space.
proof fn lemma_trimmed_end_not_white(s: Seq<char>)
    ensures
        trimmed_end(s).len() > 0 ==> !is_white(trimmed_end(s).last()),
    decreases s.len(),
{
    if s.len() > 0 && is_white(s.last()) {
        lemma_trimmed_end_not_white(s.drop_last());
    }
}

/// A field found from line `i` on begins with its key, on a trimmed line.
proof fn lemma_field_line(ls: Seq<Seq<char>>, i: int, device: Seq<char>, key: Seq<char>) -> (at: int)
    requires
        0 <= i,
        field_from(ls, i, device, key) is Some,
    ensures
        i <= at < ls.len(),
        holds_field(ls, at, device, key),
        field_from(ls, i, device, key) == Some(trimmed(ls[at]).skip(key.len() as int)),
    decreases ls.len() - i,
{
    if holds_field(ls, i, device, key) {
        i
    } else {
        lemma_field_line(ls, i + 1, device, key)
    }
}

/// A `Latency: ` line of a device always has a word after its key, so a latency
/// is missing only where the line itself is.
pub proof fn law_latency_line_has_word(list: Seq<char>, device: Seq<char>)
    ensures
        latency_word(list, device) is Some <==> field_of(list, device, "Latency: "@) is Some,
{
    reveal_strlit("Latency: ");
    if field_of(list, device, "Latency: "@) is Some {
        let ls = lines_of(list);
        let key = "Latency: "@;
        let at = lemma_field_line(ls, 0, device, key);
        let line = trimmed(ls[at]);
        let rest = line.skip(key.len() as int);
        lemma_trimmed_end_not_white(trimmed_start(ls[at]));
        if rest.len() == 0 {
            assert(line.take(key.len() as int) == line);
            assert(line.last() == ' ');
        }
        assert(rest.last() == line.last());
    }
}

/// Whether a line is blank.
pub open spec fn is_blank(line: Seq<char>) -> bool {
    trimmed(line).len() == 0
}

/// The lines of the blocks of `device`, its `Name: ` lines among them, without the
/// blank ones.
pub open spec fn own_lines(ls: Seq<Seq<char>>, device: Seq<char>) -> Seq<Seq<char>>
    decreases ls.len(),
{
    if ls.len() == 0 {
        Seq::empty()
    } else {
        let before = own_lines(ls.drop_last(), device);
        if owner(ls, ls.len() as int) == Some(device) && !is_blank(ls.last()) {
            before.push(ls.last())
        } else {
            before
        }
    }
}

/// Whether `b`, after the lines `a`, is nothing but entries of other devices: it opens
/// with a `Name: ` line, or it is what stands before the first one, and no line of it
/// belongs to `device`.
pub open spec fn is_foreign(a: Seq<Seq<char>>, b: Seq<Seq<char>>, device: Seq<char>) -> bool {
    &&& a.len() == 0 || b.len() == 0 || has_prefix(trimmed(b[0]), "Name: "@)
    &&& forall|i: int| 0 < i <= b.len() ==> #[trigger] owner(b, i) != Some(device)
}

/// Whether nothing but blank lines stands before the first `Name: ` line of `c`.
pub open spec fn starts_afresh(c: Seq<Seq<char>>) -> bool {
    forall|i: int| 0 <= i < c.len() && #[trigger] owner(c, i + 1) is None ==> is_blank(c[i])
}

/// Whether `shorter` is `ls` without a stretch of entries of devices other than
/// `device`.
pub open spec fn leaves_out_others(
    ls: Seq<Seq<char>>,
    shorter: Seq<Seq<char>>,
    device: Seq<char>,
) -> bool {
    exists|a: Seq<Seq<char>>, b: Seq<Seq<char>>, c: Seq<Seq<char>>|
        {
            &&& ls == #[trigger] (a + b + c)
            &&& shorter == a + c
            &&& is_foreign(a, b, device)
            &&& starts_afresh(c)
        }
}

/// The owner of a line rests on the lines before it alone.
proof fn lemma_owner_of_prefix(ls: Seq<Seq<char>>, more: Seq<Seq<char>>, i: int)
    requires
        0 <= i <= ls.len(),
    ensures
        owner(ls + more, i) == owner(ls, i),
    decreases i,
{
    if i > 0 {
        assert((ls + more)[i - 1] == ls[i - 1]);
        lemma_owner_of_prefix(ls, more, i - 1);
    }
}

/// After a stretch of lines, the owner is the one that the stretch names last or, if it
/// names none, the one there was before.
proof fn lemma_owner_after(x: Seq<Seq<char>>, y: Seq<Seq<char>>, i: int)
    requires
        0 <= i <= y.len(),
    ensures
        owner(x + y, x.len() + i) == if owner(y, i) is Some {
            owner(y, i)
        } else {
            owner(x, x.len() as int)
        },
    decreases i,
{
    if i > 0 {
        assert((x + y)[x.len() + i - 1] == y[i - 1]);
        lemma_owner_after(x, y, i - 1);
    } else {
        lemma_owner_of_prefix(x, y, x.len() as int);
    }
}

/// A stretch that opens with a `Name: ` line names an owner for all its lines.
proof fn lemma_named_stretch(y: Seq<Seq<char>>, i: int)
    requires
        0 < i <= y.len(),
        has_prefix(trimmed(y[0]), "Name: "@),
    ensures
        owner(y, i) is Some,
    decreases i,
{
    if i > 1 {
        lemma_named_stretch(y, i - 1);
    }
}

/// One more line at the end is looked at last.
proof fn lemma_field_one_more(
    ls: Seq<Seq<char>>,
    line: Seq<char>,
    i: int,
    device: Seq<char>,
    key: Seq<char>,
)
    requires
        0 <= i <= ls.len(),
    ensures
        field_from(ls.push(line), i, device, key) == if field_from(ls, i, device, key) is Some {
            field_from(ls, i, device, key)
        } else if holds_field(ls.push(line), ls.len() as int, device, key) {
            Some(trimmed(line).skip(key.len() as int))
        } else {
            None
        },
    decreases ls.len() - i,
{
    let longer = ls.push(line);
    if i < ls.len() {
        assert(ls + seq![line] == longer);
        lemma_owner_of_prefix(ls, seq![line], i);
        assert(longer[i] == ls[i]);
        lemma_field_one_more(ls, line, i + 1, device, key);
    } else {
        assert(field_from(longer, i + 1, device, key) is None);
    }
}

/// All that a field is read from is the lines of the device's own blocks.
proof fn lemma_field_from_own_lines(ls: Seq<Seq<char>>, device: Seq<char>, key: Seq<char>)
    requires
        key.len() > 0,
    ensures
        field_from(own_lines(ls, device), 0, device, key) == field_from(ls, 0, device, key),
        owner(ls, ls.len() as int) == Some(device) ==> owner(
            own_lines(ls, device),
            own_lines(ls, device).len() as int,
        ) == Some(device),
    decreases ls.len(),
{
    reveal_strlit("Name: ");
    if ls.len() > 0 {
        let shorter = ls.drop_last();
        let line = ls.last();
        let before = own_lines(shorter, device);
        let now = own_lines(ls, device);
        let n = shorter.len() as int;
        lemma_field_from_own_lines(shorter, device, key);
        assert(shorter.push(line) == ls);
        assert(shorter + seq![line] == ls);
        assert(before + seq![line] == before.push(line));
        lemma_owner_of_prefix(shorter, seq![line], n);
        lemma_owner_of_prefix(before, seq![line], before.len() as int);
        lemma_field_one_more(shorter, line, 0, device, key);
        lemma_field_one_more(before, line, 0, device, key);
    }
}

/// Leaving out entries of other devices leaves the device's own lines.
proof fn lemma_own_lines_without(
    a: Seq<Seq<char>>,
    b: Seq<Seq<char>>,
    c: Seq<Seq<char>>,
    device: Seq<char>,
)
    requires
        is_foreign(a, b, device),
        starts_afresh(c),
    ensures
        own_lines(a + b + c, device) == own_lines(a + c, device),
    decreases b.len() + c.len(),
{
    if c.len() > 0 {
        let n = c.len() as int;
        let c0 = c.drop_last();
        assert forall|i: int| 0 <= i < c0.len() && #[trigger] owner(
            c0,
            i + 1,
        ) is None implies is_blank(c0[i]) by {
            assert(c0 + seq![c.last()] == c);
            lemma_owner_of_prefix(c0, seq![c.last()], i + 1);
            assert(c[i] == c0[i]);
        }
        lemma_own_lines_without(a, b, c0, device);
        assert((a + b + c).drop_last() == a + b + c0);
        assert((a + c).drop_last() == a + c0);
        lemma_owner_after(a + b, c, n);
        lemma_owner_after(a, c, n);
        assert(owner(c, (n - 1) + 1) is None ==> is_blank(c[n - 1]));
    } else if b.len() > 0 {
        let m = b.len() as int;
        let b0 = b.drop_last();
        assert(a + b + c == a + b);
        assert(a + b0 + c == a + b0);
        assert((a + b).drop_last() == a + b0);
        assert forall|i: int| 0 < i <= b0.len() implies #[trigger] owner(b0, i) != Some(device) by {
            assert(b0 + seq![b.last()] == b);
            lemma_owner_of_prefix(b0, seq![b.last()], i);
            assert(owner(b, i) != Some(device));
        }
        lemma_own_lines_without(a, b0, c, device);
        lemma_owner_after(a, b, m);
        if a.len() > 0 {
            lemma_named_stretch(b, m);
        }
        assert(owner(b, m) != Some(device));
        assert(owner(a + b, a.len() + m) != Some(device));
    } else {
        assert(a + b + c == a + c);
    }
}

/// What is read of a device rests on the lines of its own blocks alone: two lists that
/// agree on them give the same channel count and the same latency.
pub proof fn law_only_own_lines_count(list: Seq<char>, other: Seq<char>, device: Seq<char>)
    requires
        own_lines(lines_of(list), device) == own_lines(lines_of(other), device),
    ensures
        channel_count(list, device) == channel_count(other, device),
        latency_word(list, device) == latency_word(other, device),
{
    reveal_strlit("Sample Specification: ");
    reveal_strlit("Latency: ");
    lemma_field_from_own_lines(lines_of(list), device, "Sample Specification: "@);
    lemma_field_from_own_lines(lines_of(other), device, "Sample Specification: "@);
    lemma_field_from_own_lines(lines_of(list), device, "Latency: "@);
    lemma_field_from_own_lines(lines_of(other), device, "Latency: "@);
}

/// Other devices' entries, wherever they stand in the list, never influence what is read
/// of a device. In `lists`, each list is the one before it without some entries of other
/// devices; the first and the last give the same.
pub proof fn law_other_entries_do_not_count(lists: Seq<Seq<char>>, device: Seq<char>)
    requires
        lists.len() > 0,
        forall|i: int|
            #![trigger lists[i]]
            0 <= i < lists.len() - 1 ==> leaves_out_others(
                lines_of(lists[i]),
                lines_of(lists[i + 1]),
                device,
            ),
    ensures
        own_lines(lines_of(lists[0]), device) == own_lines(lines_of(lists.last()), device),
        channel_count(lists[0], device) == channel_count(lists.last(), device),
        latency_word(lists[0], device) == latency_word(lists.last(), device),
    decreases lists.len(),
{
    if lists.len() > 1 {
        let n = lists.len() - 2;
        let shorter = lists.drop_last();
        assert forall|i: int|
            #![trigger shorter[i]]
            0 <= i < shorter.len() - 1 implies leaves_out_others(
            lines_of(shorter[i]),
            lines_of(shorter[i + 1]),
            device,
        ) by {
            assert(shorter[i] == lists[i]);
        }
        law_other_entries_do_not_count(shorter, device);
        let from = lines_of(lists[n]);
        let to = lines_of(lists[n + 1]);
        assert(leaves_out_others(from, to, device));
        let (a, b, c) = choose|a: Seq<Seq<char>>, b: Seq<Seq<char>>, c: Seq<Seq<char>>|
            {
                &&& from == #[trigger] (a + b + c)
                &&& to == a + c
                &&& is_foreign(a, b, device)
                &&& starts_afresh(c)
            };
        lemma_own_lines_without(a, b, c, device);
    }
    law_only_own_lines_count(lists[0], lists.last(), device);
}

/// What a command printed is the text whose encoding it printed. Without output, or with
/// output that encodes no text, there is none.
pub proof fn law_output_is_text(text: Seq<char>, bytes: Seq<u8>)
    ensures
        output_text(Some(encode_utf8(text))) == Some(text),
        !valid_utf8(bytes) ==> output_text(Some(bytes)) is None,
        output_text(None) is None,
{
    encode_utf8_valid_utf8(text);
    encode_utf8_decode_utf8(text);
}

/// Whether line `k` describes `device`: some line before it names the device, and no line
/// from there on to `k` opens another block.
pub open spec fn describes(ls: Seq<Seq<char>>, k: int, device: Seq<char>) -> bool {
    exists|i: int|
        {
            &&& 0 <= i < k
            &&& trimmed(#[trigger] ls[i]) == "Name: "@ + device
            &&& forall|m: int|
                i < m <= k ==> !has_prefix(trimmed(#[trigger] ls[m]), "Name: "@)
        }
}

/// The last `Name: ` line before a line is the one that names its device.
proof fn lemma_owner_named_at(ls: Seq<Seq<char>>, k: int, device: Seq<char>, i: int)
    requires
        0 <= i < k <= ls.len(),
        trimmed(ls[i]) == "Name: "@ + device,
        forall|m: int| i < m < k ==> !has_prefix(trimmed(#[trigger] ls[m]), "Name: "@),
    ensures
        owner(ls, k) == Some(device),
    decreases k,
{
    law_prefix(trimmed(ls[k - 1]), "Name: "@, device);
    if i < k - 1 {
        assert(!has_prefix(trimmed(ls[k - 1]), "Name: "@));
        lemma_owner_named_at(ls, k - 1, device, i);
    }
}

/// A line that has an owner was named by a line before it.
proof fn lemma_owner_has_name(ls: Seq<Seq<char>>, k: int, device: Seq<char>) -> (i: int)
    requires
        0 <= k <= ls.len(),
        owner(ls, k) == Some(device),
    ensures
        0 <= i < k,
        trimmed(ls[i]) == "Name: "@ + device,
        forall|m: int| i < m < k ==> !has_prefix(trimmed(#[trigger] ls[m]), "Name: "@),
    decreases k,
{
    let line = trimmed(ls[k - 1]);
    if has_prefix(line, "Name: "@) {
        law_prefix(line, "Name: "@, device);
        k - 1
    } else {
        lemma_owner_has_name(ls, k - 1, device)
    }
}

/// Holding a field of a device is describing it and beginning with the key.
proof fn lemma_holds_field(ls: Seq<Seq<char>>, k: int, device: Seq<char>, key: Seq<char>)
    requires
        0 <= k < ls.len(),
    ensures
        holds_field(ls, k, device, key) <==> describes(ls, k, device) && has_prefix(
            trimmed(ls[k]),
            key,
        ),
{
    if describes(ls, k, device) {
        let i = choose|i: int|
            {
                &&& 0 <= i < k
                &&& trimmed(#[trigger] ls[i]) == "Name: "@ + device
                &&& forall|m: int|
                    i < m <= k ==> !has_prefix(trimmed(#[trigger] ls[m]), "Name: "@)
            };
        lemma_owner_named_at(ls, k, device, i);
        assert(!has_prefix(trimmed(ls[k]), "Name: "@));
    }
    if holds_field(ls, k, device, key) {
        let i = lemma_owner_has_name(ls, k, device);
        assert forall|m: int| i < m <= k implies !has_prefix(
            trimmed(#[trigger] ls[m]),
            "Name: "@,
        ) by {
            if m < k {
            }
        }
        assert(trimmed(ls[i]) == "Name: "@ + device);
    }
}

/// Lines that do not hold the field are passed over.
proof fn lemma_field_passes_over(
    ls: Seq<Seq<char>>,
    i: int,
    k: int,
    device: Seq<char>,
    key: Seq<char>,
)
    requires
        0 <= i <= k <= ls.len(),
        forall|j: int| i <= j < k ==> !holds_field(ls, j, device, key),
    ensures
        field_from(ls, i, device, key) == field_from(ls, k, device, key),
    decreases k - i,
{
    if i < k {
        assert(!holds_field(ls, i, device, key));
        lemma_field_passes_over(ls, i + 1, k, device, key);
    }
}

/// A field is what follows its key on the first line that describes the device and begins,
/// white space aside, with the key.
pub proof fn law_field_is_first(
    text: Seq<char>,
    device: Seq<char>,
    key: Seq<char>,
    k: int,
    rest: Seq<char>,
)
    requires
        0 <= k < lines_of(text).len(),
        describes(lines_of(text), k, device),
        trimmed(lines_of(text)[k]) == key + rest,
        forall|j: int|
            0 <= j < k && describes(lines_of(text), j, device) ==> !has_prefix(
                trimmed(#[trigger] lines_of(text)[j]),
                key,
            ),
    ensures
        field_of(text, device, key) == Some(rest),
{
    let ls = lines_of(text);
    law_prefix(trimmed(ls[k]), key, rest);
    assert forall|j: int| 0 <= j < k implies !holds_field(ls, j, device, key) by {
        lemma_holds_field(ls, j, device, key);
        let line = ls[j];
    }
    lemma_field_passes_over(ls, 0, k, device, key);
    lemma_holds_field(ls, k, device, key);
}

/// Where no line that describes the device begins with the key, there is no field.
pub proof fn law_no_line_no_field(text: Seq<char>, device: Seq<char>, key: Seq<char>)
    requires
        forall|j: int|
            0 <= j < lines_of(text).len() && describes(lines_of(text), j, device) ==> !has_prefix(
                trimmed(#[trigger] lines_of(text)[j]),
                key,
            ),
    ensures
        field_of(text, device, key) is None,
{
    let ls = lines_of(text);
    assert forall|j: int| 0 <= j < ls.len() implies !holds_field(ls, j, device, key) by {
        lemma_holds_field(ls, j, device, key);
        let line = ls[j];
    }
    lemma_field_passes_over(ls, 0, ls.len() as int, device, key);
}

/// A count and its unit, such as `18ch`, are read as the count, whatever it is, if it fits in
/// sixteen bits, and not at all if it does not. Other words are not read.
pub proof fn law_channel_word_is_read(n: nat, word: Seq<char>)
    ensures
        n <= 65535 ==> channel_word(decimal(n) + "ch"@) == Some(n as u16),
        n > 65535 ==> channel_word(decimal(n) + "ch"@) is None,
        channel_word(word + "ch"@) == u16_value(word),
        channel_word(word) is Some ==> word.len() > 2 && word[word.len() - 2] == 'c'
            && word[word.len() - 1] == 'h',
{
    reveal_strlit("ch");
    law_suffix(word, decimal(n), "ch"@);
    law_suffix(word, word, "ch"@);
    law_decimal_writes_value(n);
    law_number_is_read(decimal(n));
    if channel_word(word) is Some {
        let digits = word.take(word.len() - 2);
        assert(word == digits + "ch"@);
        if digits.len() == 0 {
            law_other_text_is_no_number(digits, 0);
        }
    }
}

/// Words that are no count of channels are passed over.
proof fn lemma_first_channel_word(ws: Seq<Seq<char>>, i: int, k: int)
    requires
        0 <= i <= k <= ws.len(),
        forall|j: int| i <= j < k ==> channel_word(#[trigger] ws[j]) is None,
    ensures
        first_channel_word(ws, i) == first_channel_word(ws, k),
    decreases k - i,
{
    if i < k {
        assert(channel_word(ws[i]) is None);
        lemma_first_channel_word(ws, i + 1, k);
    }
}

/// The channel count in a specification is that of its first word that is a count of
/// channels, and there is none without such a word.
pub proof fn law_specification_is_read(specification: Seq<char>, k: int, n: u16)
    requires
        forall|j: int|
            0 <= j < k && j < words_of(specification).len() ==> channel_word(
                #[trigger] words_of(specification)[j],
            ) is None,
    ensures
        0 <= k < words_of(specification).len() && words_of(specification)[k] == decimal(n as nat)
            + "ch"@ ==> first_channel_word(words_of(specification), 0) == Some(n),
        k >= words_of(specification).len() ==> first_channel_word(words_of(specification), 0)
            is None,
{
    let ws = words_of(specification);
    law_channel_word_is_read(n as nat, Seq::empty());
    if 0 <= k < ws.len() {
        lemma_first_channel_word(ws, 0, k);
    } else if k >= ws.len() {
        lemma_first_channel_word(ws, 0, ws.len() as int);
    }
}

/// The default source's channel count: on the first line that describes it and begins with
/// `Sample Specification: `, the number before `ch` in the first word of that form. Here
/// `l` and `r` are the text before and behind that word.
pub proof fn law_channel_count_is_read(
    list: Seq<char>,
    device: Seq<char>,
    k: int,
    l: Seq<char>,
    n: u16,
    r: Seq<char>,
)
    requires
        0 <= k < lines_of(list).len(),
        describes(lines_of(list), k, device),
        trimmed(lines_of(list)[k]) == "Sample Specification: "@ + (l + (decimal(n as nat) + "ch"@)
            + r),
        forall|j: int|
            0 <= j < k && describes(lines_of(list), j, device) ==> !has_prefix(
                trimmed(#[trigger] lines_of(list)[j]),
                "Sample Specification: "@,
            ),
        l.len() == 0 || is_white(l.last()),
        r.len() == 0 || is_white(r[0]),
        forall|j: int|
            0 <= j < words_of(l).len() ==> channel_word(#[trigger] words_of(l)[j]) is None,
    ensures
        channel_count(list, device) == Some(n),
{
    let word = decimal(n as nat) + "ch"@;
    let specification = l + word + r;
    law_field_is_first(list, device, "Sample Specification: "@, k, specification);
    reveal_strlit("ch");
    law_decimal_writes_value(n as nat);
    assert forall|i: int| 0 <= i < word.len() implies !is_white(#[trigger] word[i]) by {
        if i < decimal(n as nat).len() {
            assert('0' <= decimal(n as nat)[i] <= '9');
        }
    }
    lemma_words_around(l, word, r);
    let ws = words_of(specification);
    let at = words_of(l).len() as int;
    assert forall|j: int| 0 <= j < at && j < ws.len() implies channel_word(
        #[trigger] words_of(specification)[j],
    ) is None by {
        assert(ws[j] == words_of(l)[j]);
    }
    law_specification_is_read(specification, at, n);
}

/// A specification none of whose words is a count of channels gives no channel count, and no
/// later one is looked at.
pub proof fn law_unreadable_specification(
    list: Seq<char>,
    device: Seq<char>,
    k: int,
    specification: Seq<char>,
)
    requires
        0 <= k < lines_of(list).len(),
        describes(lines_of(list), k, device),
        trimmed(lines_of(list)[k]) == "Sample Specification: "@ + specification,
        forall|j: int|
            0 <= j < k && describes(lines_of(list), j, device) ==> !has_prefix(
                trimmed(#[trigger] lines_of(list)[j]),
                "Sample Specification: "@,
            ),
        forall|j: int|
            0 <= j < words_of(specification).len() ==> channel_word(
                #[trigger] words_of(specification)[j],
            ) is None,
    ensures
        channel_count(list, device) is None,
{
    law_field_is_first(list, device, "Sample Specification: "@, k, specification);
    law_specification_is_read(specification, words_of(specification).len() as int, 0);
}

/// A word with white space, or nothing, on both sides stands among the words as it is.
proof fn lemma_words_around(l: Seq<char>, word: Seq<char>, r: Seq<char>)
    requires
        word.len() > 0,
        none_white(word),
        l.len() == 0 || is_white(l.last()),
        r.len() == 0 || is_white(r[0]),
    ensures
        words_of(l + word + r) == words_of(l).push(word) + words_of(r),
{
    // The words before.
    if l.len() == 0 {
        assert(l + word == word);
        law_white_space_parts_words(Seq::empty(), ' ', word);
        assert(words_of(l) == Seq::<Seq<char>>::empty());
        assert(words_of(l).push(word) == seq![word]);
    } else {
        let l0 = l.drop_last();
        assert(l0.push(l.last()) == l);
        law_white_space_parts_words(l0, l.last(), word);
        law_white_space_parts_words(l0, l.last(), Seq::empty());
        assert(l0.push(l.last()) + Seq::<char>::empty() == l);
        assert(words_of(l0) + Seq::<Seq<char>>::empty() == words_of(l0));
        assert(words_of(l0) + seq![word] == words_of(l0).push(word));
    }
    // The words behind.
    if r.len() == 0 {
        assert(l + word + r == l + word);
        law_white_space_parts_words(l, ' ', Seq::empty());
        assert(words_of(r) == Seq::<Seq<char>>::empty());
    } else {
        let r0 = r.drop_first();
        assert((l + word).push(r[0]) + r0 == l + word + r);
        law_white_space_parts_words(l + word, r[0], r0);
        assert(Seq::<char>::empty().push(r[0]) + r0 == r);
        law_white_space_parts_words(Seq::empty(), r[0], r0);
        assert(Seq::<Seq<char>>::empty() + words_of(r0) == words_of(r0));
    }
}

/// A device's latency: on the first line that describes it and begins with `Latency: `, the
/// word that follows, up to the next white space.
pub proof fn law_latency_is_read(
    list: Seq<char>,
    device: Seq<char>,
    k: int,
    word: Seq<char>,
    r: Seq<char>,
)
    requires
        0 <= k < lines_of(list).len(),
        describes(lines_of(list), k, device),
        trimmed(lines_of(list)[k]) == "Latency: "@ + (word + r),
        forall|j: int|
            0 <= j < k && describes(lines_of(list), j, device) ==> !has_prefix(
                trimmed(#[trigger] lines_of(list)[j]),
                "Latency: "@,
            ),
        word.len() > 0,
        none_white(word),
        r.len() == 0 || is_white(r[0]),
    ensures
        latency_word(list, device) == Some(word),
{
    law_field_is_first(list, device, "Latency: "@, k, word + r);
    lemma_words_around(Seq::empty(), word, r);
    assert(Seq::<char>::empty() + word + r == word + r);
    law_white_space_parts_words(Seq::empty(), ' ', Seq::empty());
    assert(words_of(word + r)[0] == word);
}

/// Without a line that describes the device and holds the field, nothing is read of it.
pub proof fn law_nothing_is_read_without_lines(list: Seq<char>, device: Seq<char>)
    ensures
        (forall|j: int|
            0 <= j < lines_of(list).len() && describes(lines_of(list), j, device) ==> !has_prefix(
                trimmed(#[trigger] lines_of(list)[j]),
                "Sample Specification: "@,
            )) ==> channel_count(list, device) is None,
        (forall|j: int|
            0 <= j < lines_of(list).len() && describes(lines_of(list), j, device) ==> !has_prefix(
                trimmed(#[trigger] lines_of(list)[j]),
                "Latency: "@,
            )) ==> latency_word(list, device) is None,
{
    if forall|j: int|
        0 <= j < lines_of(list).len() && describes(lines_of(list), j, device) ==> !has_prefix(
            trimmed(#[trigger] lines_of(list)[j]),
            "Sample Specification: "@,
        ) {
        law_no_line_no_field(list, device, "Sample Specification: "@);
    }
    if forall|j: int|
        0 <= j < lines_of(list).len() && describes(lines_of(list), j, device) ==> !has_prefix(
            trimmed(#[trigger] lines_of(list)[j]),
            "Latency: "@,
        ) {
        law_no_line_no_field(list, device, "Latency: "@);
    }
}

} // verus!
