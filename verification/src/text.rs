//! Text as sequences of characters: white space, lines, words, prefixes and
//! decimal numbers.
use vstd::arithmetic::power::{lemma_pow0, lemma_pow1, lemma_pow_adds, pow};
use vstd::prelude::*;
use vstd::slice::slice_subrange;
use vstd::slice::slice_to_vec;

verus! {

/// The characters with the Unicode property `White_Space`.
pub open spec fn is_white(c: char) -> bool {
    let u = c as u32;
    ||| 0x9 <= u <= 0xD
    ||| u == 0x20
    ||| u == 0x85
    ||| u == 0xA0
    ||| u == 0x1680
    ||| 0x2000 <= u <= 0x200A
    ||| u == 0x2028
    ||| u == 0x2029
    ||| u == 0x202F
    ||| u == 0x205F
    ||| u == 0x3000
}

/// Whether `c` is white space.
pub fn is_white_space(c: char) -> (white: bool)
    ensures
        white == is_white(c),
{
    let u: u32 = c as u32;
    (0x9 <= u && u <= 0xD) || u == 0x20 || u == 0x85 || u == 0xA0 || u == 0x1680 || (0x2000 <= u
        && u <= 0x200A) || u == 0x2028 || u == 0x2029 || u == 0x202F || u == 0x205F || u == 0x3000
}

/// `s` without its leading white space.
pub open spec fn trimmed_start(s: Seq<char>) -> Seq<char>
    decreases s.len(),
{
    if s.len() > 0 && is_white(s[0]) {
        trimmed_start(s.drop_first())
    } else {
        s
    }
}

/// `s` without its trailing white space.
pub open spec fn trimmed_end(s: Seq<char>) -> Seq<char>
    decreases s.len(),
{
    if s.len() > 0 && is_white(s.last()) {
        trimmed_end(s.drop_last())
    } else {
        s
    }
}

/// `s` without white space at either end.
pub open spec fn trimmed(s: Seq<char>) -> Seq<char> {
    trimmed_end(trimmed_start(s))
}

/// The pieces of `s` between its newlines. A newline ends a piece, and what
/// follows the last newline is a piece too.
pub open spec fn lines_of(s: Seq<char>) -> Seq<Seq<char>>
    decreases s.len(),
{
    if s.len() == 0 {
        seq![Seq::empty()]
    } else {
        let before = lines_of(s.drop_last());
        if s.last() == '\n' {
            before.push(Seq::empty())
        } else {
            before.drop_last().push(before.last().push(s.last()))
        }
    }
}

/// The maximal runs of `s` that hold no white space.
pub open spec fn words_of(s: Seq<char>) -> Seq<Seq<char>>
    decreases s.len(),
{
    if s.len() == 0 {
        Seq::empty()
    } else {
        let before = words_of(s.drop_last());
        if is_white(s.last()) {
            before
        } else if s.len() == 1 || is_white(s[s.len() - 2]) {
            before.push(seq![s.last()])
        } else {
            before.drop_last().push(before.last().push(s.last()))
        }
    }
}

/// Whether `s` begins with `prefix`.
pub open spec fn has_prefix(s: Seq<char>, prefix: Seq<char>) -> bool {
    prefix.len() <= s.len() && s.take(prefix.len() as int) == prefix
}

/// Whether `s` ends with `suffix`.
pub open spec fn has_suffix(s: Seq<char>, suffix: Seq<char>) -> bool {
    suffix.len() <= s.len() && s.skip(s.len() - suffix.len()) == suffix
}

/// Whether `c` is one of the ten decimal digits.
pub open spec fn is_digit(c: char) -> bool {
    '0' <= c <= '9'
}

/// The number that the digits `s` write in base ten.
pub open spec fn decimal_value(s: Seq<char>) -> nat
    decreases s.len(),
{
    if s.len() == 0 {
        0
    } else {
        10 * decimal_value(s.drop_last()) + (s.last() as nat - '0' as nat) as nat
    }
}

/// `s` without one leading plus sign, if it has one.
pub open spec fn unsigned_part(s: Seq<char>) -> Seq<char> {
    if s.len() > 0 && s[0] == '+' {
        s.drop_first()
    } else {
        s
    }
}

/// The number that `s` writes: an optional plus sign and one or more digits
/// whose value fits in sixteen bits.
pub open spec fn u16_value(s: Seq<char>) -> Option<u16> {
    let digits = unsigned_part(s);
    if digits.len() > 0 && (forall|i: int| 0 <= i < digits.len() ==> is_digit(#[trigger] digits[i]))
        && decimal_value(digits) <= u16::MAX {
        Some(decimal_value(digits) as u16)
    } else {
        None
    }
}

/// The views of the vectors in `v`.
pub open spec fn views(v: Seq<Vec<char>>) -> Seq<Seq<char>> {
    v.map_values(|w: Vec<char>| w@)
}

/// The characters of `s`.
pub fn chars_of(s: &str) -> (out: Vec<char>)
    ensures
        out@ == s@,
{
    let mut out: Vec<char> = Vec::new();
    for c in it: s.chars()
        invariant
            out@ == it.seq().take(it.index() as int),
            it.seq() == s@,
    {
        out.push(c);
        assert(it.seq().take(it.index() + 1) == it.seq().take(it.index() as int).push(c));
    }
    out
}


/// `s` without white space at either end.
pub fn trim(s: &[char]) -> (out: Vec<char>)
    ensures
        out@ == trimmed(s@),
{
    let mut from: usize = 0;
    assert(s@.skip(0) == s@);
    while from < s.len() && is_white_space(s[from])
        invariant
            from <= s.len(),
            trimmed_start(s@) == trimmed_start(s@.skip(from as int)),
        decreases s.len() - from,
    {
        assert(s@.skip(from as int).drop_first() == s@.skip(from + 1));
        from = from + 1;
    }
    let mut to: usize = s.len();
    assert(s@.subrange(from as int, to as int) == s@.skip(from as int));
    while from < to && is_white_space(s[to - 1])
        invariant
            from <= to <= s.len(),
            trimmed(s@) == trimmed_end(s@.subrange(from as int, to as int)),
        decreases to - from,
    {
        assert(s@.subrange(from as int, to as int).drop_last() == s@.subrange(from as int, to - 1));
        to = to - 1;
    }
    slice_to_vec(slice_subrange(s, from, to))
}

/// The pieces of `s` between its newlines.
pub fn lines(s: &[char]) -> (out: Vec<Vec<char>>)
    ensures
        views(out@) == lines_of(s@),
        out@.len() == lines_of(s@).len(),
        forall|i: int| 0 <= i < out@.len() ==> (#[trigger] out@[i])@ == lines_of(s@)[i],
{
    let mut done: Vec<Vec<char>> = Vec::new();
    let mut current: Vec<char> = Vec::new();
    let mut i: usize = 0;
    assert(s@.take(0) == Seq::<char>::empty());
    while i < s.len()
        invariant
            i <= s.len(),
            views(done@).push(current@) == lines_of(s@.take(i as int)),
        decreases s.len() - i,
    {
        let c: char = s[i];
        let ghost before = views(done@).push(current@);
        assert(s@.take(i + 1).drop_last() == s@.take(i as int));
        assert(before.last() == current@ && before.drop_last() == views(done@));
        if c == '\n' {
            let finished = current;
            let ghost old_done = done@;
            done.push(finished);
            current = Vec::new();
            assert(views(done@) == views(old_done).push(finished@));
        } else {
            current.push(c);
        }
        i = i + 1;
    }
    assert(s@.take(i as int) == s@);
    let ghost old_done = done@;
    let ghost last = current@;
    done.push(current);
    assert(views(done@) == views(old_done).push(last));
    assert forall|i: int| 0 <= i < done@.len() implies (#[trigger] done@[i])@ == lines_of(s@)[i] by {
        assert(views(done@)[i] == done@[i]@);
    }
    done
}

/// The runs of `s` that hold no white space.
pub fn words(s: &[char]) -> (out: Vec<Vec<char>>)
    ensures
        views(out@) == words_of(s@),
        out@.len() == words_of(s@).len(),
        forall|i: int| 0 <= i < out@.len() ==> (#[trigger] out@[i])@ == words_of(s@)[i],
{
    let mut done: Vec<Vec<char>> = Vec::new();
    let mut current: Vec<char> = Vec::new();
    let mut i: usize = 0;
    assert(s@.take(0) == Seq::<char>::empty());
    assert(views(done@) == Seq::<Seq<char>>::empty());
    while i < s.len()
        invariant
            i <= s.len(),
            current@.len() == 0 <==> (i == 0 || is_white(s@[i - 1])),
            (if current@.len() == 0 { views(done@) } else { views(done@).push(current@) })
                == words_of(s@.take(i as int)),
        decreases s.len() - i,
    {
        let c: char = s[i];
        let ghost upto = s@.take(i + 1);
        assert(upto.drop_last() == s@.take(i as int));
        assert(upto.len() > 1 ==> upto[upto.len() - 2] == s@[i - 1]);
        if is_white_space(c) {
            if current.len() > 0 {
                let finished = current;
                let ghost old_done = done@;
                done.push(finished);
                current = Vec::new();
                assert(views(done@) == views(old_done).push(finished@));
            }
        } else {
            let ghost before = views(done@).push(current@);
            assert(before.last() == current@ && before.drop_last() == views(done@));
            assert(current@.len() == 0 ==> current@.push(c) == seq![c]);
            current.push(c);
        }
        i = i + 1;
    }
    assert(s@.take(i as int) == s@);
    if current.len() > 0 {
        let ghost old_done = done@;
        let ghost last = current@;
        done.push(current);
        assert(views(done@) == views(old_done).push(last));
    }
    assert forall|i: int| 0 <= i < done@.len() implies (#[trigger] done@[i])@ == words_of(s@)[i] by {
        assert(views(done@)[i] == done@[i]@);
    }
    done
}

/// Whether `a` and `b` hold the same characters.
pub fn same_chars(a: &[char], b: &[char]) -> (same: bool)
    ensures
        same == (a@ == b@),
{
    if a.len() != b.len() {
        return false;
    }
    let mut i: usize = 0;
    while i < a.len()
        invariant
            i <= a.len(),
            a.len() == b.len(),
            forall|j: int| 0 <= j < i ==> a@[j] == b@[j],
        decreases a.len() - i,
    {
        if a[i] != b[i] {
            return false;
        }
        i = i + 1;
    }
    assert(a@ == b@);
    true
}

/// What follows `prefix` in `s`, if `s` begins with it.
pub fn strip_prefix(s: &[char], prefix: &[char]) -> (rest: Option<Vec<char>>)
    ensures
        rest is Some <==> has_prefix(s@, prefix@),
        rest matches Some(r) ==> r@ == s@.skip(prefix@.len() as int),
{
    if prefix.len() <= s.len() && same_chars(slice_subrange(s, 0, prefix.len()), prefix) {
        assert(s@.subrange(0, prefix@.len() as int) == s@.take(prefix@.len() as int));
        assert(s@.subrange(prefix@.len() as int, s@.len() as int) == s@.skip(prefix@.len() as int));
        Some(slice_to_vec(slice_subrange(s, prefix.len(), s.len())))
    } else {
        assert(prefix@.len() <= s@.len() ==> s@.subrange(0, prefix@.len() as int) == s@.take(
            prefix@.len() as int,
        ));
        None
    }
}

/// What precedes `suffix` in `s`, if `s` ends with it.
pub fn strip_suffix(s: &[char], suffix: &[char]) -> (rest: Option<Vec<char>>)
    ensures
        rest is Some <==> has_suffix(s@, suffix@),
        rest matches Some(r) ==> r@ == s@.take(s@.len() - suffix@.len()),
{
    if suffix.len() <= s.len() {
        let cut: usize = s.len() - suffix.len();
        assert(s@.subrange(cut as int, s@.len() as int) == s@.skip(cut as int));
        assert(s@.subrange(0, cut as int) == s@.take(cut as int));
        if same_chars(slice_subrange(s, cut, s.len()), suffix) {
            return Some(slice_to_vec(slice_subrange(s, 0, cut)));
        }
    }
    None
}

/// The digits before others only add to a number's value.
proof fn lemma_decimal_value_grows(s: Seq<char>, n: int)
    requires
        0 <= n <= s.len(),
    ensures
        decimal_value(s.take(n)) <= decimal_value(s),
    decreases s.len() - n,
{
    if n < s.len() {
        lemma_decimal_value_grows(s, n + 1);
        assert(s.take(n + 1).drop_last() == s.take(n));
    } else {
        assert(s.take(n) == s);
    }
}

/// Reads `s` as a number of sixteen bits.
pub fn parse_u16(s: &[char]) -> (value: Option<u16>)
    ensures
        value == u16_value(s@),
{
    let start: usize = if s.len() > 0 && s[0] == '+' { 1 } else { 0 };
    let ghost digits = unsigned_part(s@);
    assert(digits == s@.skip(start as int));
    if start == s.len() {
        return None;
    }
    let mut total: u32 = 0;
    let mut i: usize = start;
    assert(digits.take(0) == Seq::<char>::empty());
    while i < s.len()
        invariant
            start <= i <= s.len(),
            start <= 1,
            digits == s@.skip(start as int),
            digits == unsigned_part(s@),
            total <= u16::MAX,
            total == decimal_value(digits.take(i - start)),
            forall|j: int| 0 <= j < i - start ==> is_digit(#[trigger] digits[j]),
        decreases s.len() - i,
    {
        let c: char = s[i];
        assert(digits[i - start] == c);
        if !('0' <= c && c <= '9') {
            return None;
        }
        assert(digits.take(i + 1 - start).drop_last() == digits.take(i - start));
        total = 10 * total + (c as u32 - '0' as u32);
        if total > 65535 {
            proof {
                lemma_decimal_value_grows(digits, i + 1 - start);
            }
            return None;
        }
        i = i + 1;
    }
    assert(digits.take(i - start) == digits);
    Some(total as u16)
}

/// `String::push` appends one character.
pub assume_specification[ String::push ](s: &mut String, c: char)
    ensures
        final(s)@ == old(s)@.push(c),
;

/// The string of the characters `s`.
pub fn string_of(s: &[char]) -> (out: String)
    ensures
        out@ == s@,
{
    let mut out: String = String::new();
    let mut i: usize = 0;
    while i < s.len()
        invariant
            i <= s.len(),
            out@ == s@.take(i as int),
        decreases s.len() - i,
    {
        out.push(s[i]);
        assert(s@.take(i + 1) == s@.take(i as int).push(s@[i as int]));
        i = i + 1;
    }
    assert(s@.take(i as int) == s@);
    out
}

/// `ls` with a newline between each two.
pub open spec fn with_newlines(ls: Seq<Seq<char>>) -> Seq<char>
    decreases ls.len(),
{
    if ls.len() == 0 {
        Seq::empty()
    } else if ls.len() == 1 {
        ls[0]
    } else {
        with_newlines(ls.drop_last()).push('\n') + ls.last()
    }
}

/// The lines of a text hold no newline, and with newlines between them they are the
/// text again.
pub proof fn law_lines_make_up_text(s: Seq<char>)
    ensures
        lines_of(s).len() > 0,
        with_newlines(lines_of(s)) == s,
        forall|i: int| 0 <= i < lines_of(s).len() ==> !(#[trigger] lines_of(s)[i]).contains('\n'),
    decreases s.len(),
{
    if s.len() > 0 {
        let c = s.last();
        let before = lines_of(s.drop_last());
        let now = lines_of(s);
        law_lines_make_up_text(s.drop_last());
        assert(s.drop_last().push(c) == s);
        if c == '\n' {
            assert(now.drop_last() == before);
            assert(with_newlines(now) == s);
        } else {
            let longer = before.last().push(c);
            assert(now.drop_last() == before.drop_last());
            assert(!longer.contains('\n')) by {
                assert(!before[before.len() - 1].contains('\n'));
                if longer.contains('\n') {
                    let at = choose|at: int| 0 <= at < longer.len() && longer[at] == '\n';
                    assert(before.last()[at] == '\n');
                }
            }
            assert(with_newlines(now) == s);
        }
        assert forall|i: int| 0 <= i < now.len() implies !(#[trigger] now[i]).contains('\n') by {
            if i < now.len() - 1 {
                assert(now[i] == before[i]);
            }
        }
    }
}

/// Every word has a character, and none that is white space.
pub proof fn law_words_hold_no_white_space(s: Seq<char>)
    ensures
        s.len() > 0 && !is_white(s.last()) ==> words_of(s).len() > 0,
        forall|i: int|
            0 <= i < words_of(s).len() ==> {
                let word = #[trigger] words_of(s)[i];
                &&& word.len() > 0
                &&& forall|j: int| 0 <= j < word.len() ==> !is_white(#[trigger] word[j])
            },
    decreases s.len(),
{
    if s.len() > 0 {
        let before = words_of(s.drop_last());
        let now = words_of(s);
        law_words_hold_no_white_space(s.drop_last());
        assert forall|i: int| 0 <= i < now.len() implies {
            let word = #[trigger] now[i];
            &&& word.len() > 0
            &&& forall|j: int| 0 <= j < word.len() ==> !is_white(#[trigger] word[j])
        } by {
            if i < before.len() {
                let old_word = before[i];
                if now[i] != old_word {
                    assert(now[i] == old_word.push(s.last()));
                }
            }
        }
    }
}

/// Whether `s` is nothing but white space.
pub open spec fn all_white(s: Seq<char>) -> bool {
    forall|i: int| 0 <= i < s.len() ==> is_white(#[trigger] s[i])
}

/// Whether `s` holds no white space.
pub open spec fn none_white(s: Seq<char>) -> bool {
    forall|i: int| 0 <= i < s.len() ==> !is_white(#[trigger] s[i])
}

/// Whether `s` is nothing but decimal digits.
pub open spec fn all_digits(s: Seq<char>) -> bool {
    forall|i: int| 0 <= i < s.len() ==> '0' <= #[trigger] s[i] <= '9'
}

/// Leading white space goes, up to the first character that is none.
proof fn lemma_trimmed_start(l: Seq<char>, x: Seq<char>)
    requires
        all_white(l),
        x.len() == 0 || !is_white(x[0]),
    ensures
        trimmed_start(l + x) == x,
    decreases l.len(),
{
    if l.len() == 0 {
        assert(l + x == x);
    } else {
        assert((l + x)[0] == l[0]);
        assert((l + x).drop_first() == l.drop_first() + x);
        assert forall|i: int| 0 <= i < l.drop_first().len() implies is_white(
            #[trigger] l.drop_first()[i],
        ) by {
            assert(is_white(l[i + 1]));
        }
        lemma_trimmed_start(l.drop_first(), x);
    }
}

/// Trailing white space goes, down to the last character that is none.
proof fn lemma_trimmed_end(x: Seq<char>, r: Seq<char>)
    requires
        all_white(r),
        x.len() == 0 || !is_white(x.last()),
    ensures
        trimmed_end(x + r) == x,
    decreases r.len(),
{
    if r.len() == 0 {
        assert(x + r == x);
    } else {
        assert((x + r).last() == r[r.len() - 1]);
        assert((x + r).drop_last() == x + r.drop_last());
        assert forall|i: int| 0 <= i < r.drop_last().len() implies is_white(
            #[trigger] r.drop_last()[i],
        ) by {
            assert(is_white(r[i]));
        }
        lemma_trimmed_end(x, r.drop_last());
    }
}

/// Trimming takes away the white space around a text, all of it and nothing else.
pub proof fn law_trim_takes_white_space(l: Seq<char>, m: Seq<char>, r: Seq<char>)
    requires
        all_white(l),
        all_white(r),
        m.len() == 0 || (!is_white(m[0]) && !is_white(m.last())),
    ensures
        trimmed(l + m + r) == m,
{
    if m.len() == 0 {
        let white = l + r;
        assert(l + m + r == white + m);
        assert forall|i: int| 0 <= i < white.len() implies is_white(#[trigger] white[i]) by {
            if i < l.len() {
                assert(is_white(l[i]));
            } else {
                assert(is_white(r[i - l.len()]));
            }
        }
        lemma_trimmed_start(white, m);
    } else {
        assert(l + m + r == l + (m + r));
        assert((m + r)[0] == m[0]);
        lemma_trimmed_start(l, m + r);
        lemma_trimmed_end(m, r);
    }
}

/// A newline parts the lines of what is before it from those of what is behind it, and a
/// text without one is a line.
pub proof fn law_newline_parts_lines(a: Seq<char>, b: Seq<char>)
    ensures
        lines_of(a.push('\n') + b) == lines_of(a) + lines_of(b),
        !b.contains('\n') ==> lines_of(b) == seq![b],
    decreases b.len(),
{
    law_lines_make_up_text(a);
    law_lines_make_up_text(b);
    let ab = a.push('\n') + b;
    if b.len() == 0 {
        assert(ab == a.push('\n'));
        assert(ab.drop_last() == a);
        assert(lines_of(a).push(Seq::empty()) == lines_of(a) + lines_of(b));
        assert(seq![Seq::<char>::empty()] == seq![b]);
    } else {
        let b0 = b.drop_last();
        let c = b.last();
        law_newline_parts_lines(a, b0);
        law_lines_make_up_text(b0);
        assert(ab.drop_last() == a.push('\n') + b0);
        assert(ab.last() == c);
        let joint = lines_of(a) + lines_of(b0);
        assert(joint.last() == lines_of(b0).last());
        assert(joint.drop_last() == lines_of(a) + lines_of(b0).drop_last());
        assert(lines_of(ab) == lines_of(a) + lines_of(b));
        if !b.contains('\n') {
            assert(b[b.len() - 1] == c);
            assert(!b0.contains('\n')) by {
                if b0.contains('\n') {
                    let at = choose|at: int| 0 <= at < b0.len() && b0[at] == '\n';
                    assert(b[at] == '\n');
                }
            }
            assert(b0.push(c) == b);
            assert(lines_of(b) == seq![b]);
        }
    }
}

/// White space parts the words of what is before it from those of what is behind it, a text
/// without any is one word, and an empty one none.
pub proof fn law_white_space_parts_words(a: Seq<char>, w: char, b: Seq<char>)
    requires
        is_white(w),
    ensures
        words_of(a.push(w) + b) == words_of(a) + words_of(b),
        none_white(b) && b.len() > 0 ==> words_of(b) == seq![b],
        words_of(Seq::<char>::empty()) == Seq::<Seq<char>>::empty(),
    decreases b.len(),
{
    let ab = a.push(w) + b;
    if b.len() == 0 {
        assert(ab == a.push(w));
        assert(ab.drop_last() == a);
        assert(words_of(a) == words_of(a) + words_of(b));
    } else {
        let b0 = b.drop_last();
        let c = b.last();
        law_white_space_parts_words(a, w, b0);
        law_words_hold_no_white_space(b0);
        assert(ab.drop_last() == a.push(w) + b0);
        assert(ab.last() == c);
        let joint = words_of(a) + words_of(b0);
        if b.len() == 1 {
            assert(ab[ab.len() - 2] == w);
            assert(joint == words_of(a));
            assert(words_of(ab) == words_of(a) + words_of(b));
        } else {
            assert(ab[ab.len() - 2] == b[b.len() - 2]);
            assert(b0.last() == b[b.len() - 2]);
            if !is_white(b0.last()) {
                assert(joint.last() == words_of(b0).last());
                assert(joint.drop_last() == words_of(a) + words_of(b0).drop_last());
            }
            assert(words_of(ab) == words_of(a) + words_of(b));
        }
        if none_white(b) {
            assert forall|i: int| 0 <= i < b0.len() implies !is_white(#[trigger] b0[i]) by {
                assert(!is_white(b[i]));
            }
            assert(!is_white(b[b.len() - 1]));
            assert(b0.push(c) == b);
            if b.len() > 1 {
                assert(!is_white(b[b.len() - 2]));
                assert(words_of(b0) == seq![b0]);
                assert(words_of(b) == words_of(b0).drop_last().push(b0.push(c)));
            } else {
                assert(b == seq![c]);
                assert(words_of(b) == words_of(b0).push(seq![c]));
            }
            assert(words_of(b) == seq![b]);
        }
    }
}

/// A text begins with a prefix exactly if it is the prefix and what is left of it.
pub proof fn law_prefix(s: Seq<char>, prefix: Seq<char>, rest: Seq<char>)
    ensures
        has_prefix(prefix + rest, prefix),
        (prefix + rest).skip(prefix.len() as int) == rest,
        has_prefix(s, prefix) ==> s == prefix + s.skip(prefix.len() as int),
{
    assert((prefix + rest).take(prefix.len() as int) == prefix);
    assert((prefix + rest).skip(prefix.len() as int) == rest);
    if has_prefix(s, prefix) {
        assert(s == s.take(prefix.len() as int) + s.skip(prefix.len() as int));
    }
}

/// A text ends with a suffix exactly if it is what is left of it and the suffix.
pub proof fn law_suffix(s: Seq<char>, rest: Seq<char>, suffix: Seq<char>)
    ensures
        has_suffix(rest + suffix, suffix),
        (rest + suffix).take(rest.len() as int) == rest,
        has_suffix(s, suffix) ==> s == s.take(s.len() - suffix.len()) + suffix,
{
    assert((rest + suffix).skip(rest.len() as int) == suffix);
    assert((rest + suffix).take(rest.len() as int) == rest);
    if has_suffix(s, suffix) {
        let n = s.len() - suffix.len();
        assert(s == s.take(n) + s.skip(n));
    }
}

/// Digits count by their place: those behind `a` push it up by a power of ten, and one
/// digit is worth its distance from zero.
pub proof fn law_digits_count_by_place(a: Seq<char>, b: Seq<char>)
    requires
        all_digits(b),
    ensures
        decimal_value(a + b) == decimal_value(a) * pow(10, b.len()) + decimal_value(b),
        b.len() == 1 ==> decimal_value(b) == b[0] as int - 48,
    decreases b.len(),
{
    if b.len() == 0 {
        assert(a + b == a);
        lemma_pow0(10);
    } else {
        let b0 = b.drop_last();
        let d = b.last() as int - 48;
        assert('0' <= b[b.len() - 1] <= '9');
        assert forall|i: int| 0 <= i < b0.len() implies '0' <= #[trigger] b0[i] <= '9' by {
            assert('0' <= b[i] <= '9');
        }
        law_digits_count_by_place(a, b0);
        assert((a + b).drop_last() == a + b0);
        assert((a + b).last() == b.last());
        lemma_pow1(10);
        lemma_pow_adds(10, 1, b0.len());
        let p = pow(10, b0.len());
        let x = decimal_value(a) as int;
        assert(10 * (x * p) == x * (10 * p)) by (nonlinear_arith);
    }
}

/// A number of sixteen bits is read from its digits by their value, with or without one plus
/// sign and with or without zeros before them. Too large a one is not read.
pub proof fn law_number_is_read(s: Seq<char>)
    requires
        s.len() > 0,
        all_digits(s),
    ensures
        decimal_value(s) <= 65535 ==> u16_value(s) == Some(decimal_value(s) as u16),
        decimal_value(s) > 65535 ==> u16_value(s) is None,
        u16_value(seq!['+'] + s) == u16_value(s),
        u16_value(seq!['0'] + s) == u16_value(s),
{
    let plus = seq!['+'] + s;
    let zero = seq!['0'] + s;
    assert('0' <= s[0] <= '9');
    assert(forall|i: int| 0 <= i < s.len() ==> is_digit(#[trigger] s[i]));
    assert(plus.drop_first() == s);
    assert forall|i: int| 0 <= i < zero.len() implies is_digit(#[trigger] zero[i]) by {
        if i > 0 {
            assert(is_digit(s[i - 1]));
        }
    }
    law_digits_count_by_place(seq!['0'], s);
    assert(decimal_value(seq!['0']) == 0) by {
        assert(seq!['0'].drop_last() == Seq::<char>::empty());
        assert(decimal_value(Seq::<char>::empty()) == 0);
    }
    assert(0 * pow(10, s.len()) == 0);
    assert(decimal_value(zero) == decimal_value(s));
}

/// Nothing else is a number: no digit at all, or a character that is none, but for one plus
/// sign at the start.
pub proof fn law_other_text_is_no_number(s: Seq<char>, i: int)
    requires
        s.len() == 0 || s == seq!['+'] || (0 <= i < s.len() && !('0' <= s[i] <= '9') && !(i == 0
            && s[0] == '+')),
    ensures
        u16_value(s) is None,
{
    let digits = unsigned_part(s);
    if s.len() == 0 || s == seq!['+'] {
        assert(digits.len() == 0);
    } else if s[0] == '+' {
        assert(!is_digit(digits[i - 1]));
    } else {
        assert(!is_digit(digits[i]));
    }
}

} // verus!
