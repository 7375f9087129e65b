//! Text built one character at a time.

use vstd::prelude::*;
use crate::order::views;

verus! {

/// `String::push` appends one character to the end.
pub assume_specification[ String::push ](text: &mut String, c: char)
    ensures
        final(text)@ == old(text)@.push(c),
;

/// The ASCII digit for a value below ten.
pub open spec fn digit(value: nat) -> char {
    (48 + value) as char
}

/// A number in decimal, without leading zeros.
pub open spec fn decimal(value: nat) -> Seq<char>
    decreases value,
{
    if value < 10 {
        seq![digit(value)]
    } else {
        decimal(value / 10).push(digit(value % 10))
    }
}

/// The last `width` decimal digits of a number, zeros included.
pub open spec fn padded_decimal(value: nat, width: nat) -> Seq<char>
    decreases width,
{
    if width == 0 {
        Seq::empty()
    } else {
        padded_decimal(value / 10, (width - 1) as nat).push(digit(value % 10))
    }
}

/// Append the digit of a value below ten.
pub fn push_digit(out: &mut String, value: u64)
    requires
        value < 10,
    ensures
        final(out)@ == old(out)@.push(digit(value as nat)),
{
    out.push((48u8 + value as u8) as char);
}

/// Append a number in decimal.
pub fn push_decimal(out: &mut String, value: u64)
    ensures
        final(out)@ == old(out)@ + decimal(value as nat),
{
    push_wide_decimal(out, value as u128);
}

/// Append a number in decimal, where it may exceed a machine word.
pub fn push_wide_decimal(out: &mut String, value: u128)
    ensures
        final(out)@ == old(out)@ + decimal(value as nat),
    decreases value,
{
    let ghost before = out@;
    if value >= 10 {
        push_wide_decimal(out, value / 10);
    }
    push_digit(out, (value % 10) as u64);
    proof {
        if value >= 10 {
            assert(out@ =~= before + decimal(value as nat));
        } else {
            assert(out@ =~= before + seq![digit(value as nat)]);
        }
    }
}

/// Append the last `width` decimal digits of a number.
pub fn push_padded_decimal(out: &mut String, value: u64, width: u64)
    ensures
        final(out)@ == old(out)@ + padded_decimal(value as nat, width as nat),
    decreases width,
{
    let ghost before = out@;
    if width == 0 {
        assert(out@ =~= before + padded_decimal(value as nat, 0));
        return;
    }
    push_padded_decimal(out, value / 10, width - 1);
    push_digit(out, value % 10);
    assert(out@ =~= before + padded_decimal(value as nat, width as nat));
}

/// Append a string.
pub fn push_text(out: &mut String, text: &str)
    ensures
        final(out)@ == old(out)@ + text@,
{
    out.append(text);
}

/// The lower-case hexadecimal digit for a value below sixteen.
pub open spec fn hex_digit(value: nat) -> char {
    if value < 10 {
        digit(value)
    } else {
        (87 + value) as char
    }
}

/// A number in lower-case hexadecimal, without leading zeros.
pub open spec fn hexadecimal(value: nat) -> Seq<char>
    decreases value,
{
    if value < 16 {
        seq![hex_digit(value)]
    } else {
        hexadecimal(value / 16).push(hex_digit(value % 16))
    }
}

/// A run of one character.
pub open spec fn repeated(c: char, count: nat) -> Seq<char> {
    Seq::new(count, |i: int| c)
}

/// A text moved to the right edge of a column, which it may overrun.
pub open spec fn right_aligned(text: Seq<char>, width: nat) -> Seq<char> {
    if text.len() < width {
        repeated(' ', (width - text.len()) as nat) + text
    } else {
        text
    }
}

/// Whether one text sorts before another, character by character.
pub open spec fn text_before(a: Seq<char>, b: Seq<char>) -> bool
    decreases a.len(),
{
    if b.len() == 0 {
        false
    } else if a.len() == 0 {
        true
    } else if a[0] == b[0] {
        text_before(a.skip(1), b.skip(1))
    } else {
        (a[0] as u32) < (b[0] as u32)
    }
}

/// Texts one after the other with a separator between them.
pub open spec fn joined(texts: Seq<Seq<char>>, separator: Seq<char>) -> Seq<char>
    decreases texts.len(),
{
    if texts.len() == 0 {
        Seq::empty()
    } else if texts.len() == 1 {
        texts[0]
    } else {
        joined(texts.drop_last(), separator) + separator + texts.last()
    }
}

/// What a list of strings holds.
pub open spec fn texts(strings: Seq<String>) -> Seq<Seq<char>> {
    views(strings)
}

/// Append the hexadecimal digit of a value below sixteen.
pub fn push_hex_digit(out: &mut String, value: u64)
    requires
        value < 16,
    ensures
        final(out)@ == old(out)@.push(hex_digit(value as nat)),
{
    if value < 10 {
        push_digit(out, value);
    } else {
        out.push((87u8 + value as u8) as char);
    }
}

/// Append a number in lower-case hexadecimal.
pub fn push_hexadecimal(out: &mut String, value: u64)
    ensures
        final(out)@ == old(out)@ + hexadecimal(value as nat),
    decreases value,
{
    let ghost before = out@;
    if value >= 16 {
        push_hexadecimal(out, value / 16);
    }
    push_hex_digit(out, value % 16);
    proof {
        if value >= 16 {
            assert(out@ =~= before + hexadecimal(value as nat));
        } else {
            assert(out@ =~= before + seq![hex_digit(value as nat)]);
        }
    }
}

/// Append a run of one character.
pub fn push_repeated(out: &mut String, c: char, count: usize)
    ensures
        final(out)@ == old(out)@ + repeated(c, count as nat),
{
    let ghost before = out@;
    let mut i: usize = 0;
    assert(out@ =~= before + repeated(c, 0));
    while i < count
        invariant
            0 <= i <= count,
            out@ == before + repeated(c, i as nat),
        decreases count - i,
    {
        out.push(c);
        assert(out@ =~= before + repeated(c, (i + 1) as nat));
        i += 1;
    }
}

/// Append a number in decimal at the right edge of a column.
pub fn push_right_aligned(out: &mut String, value: u64, width: usize)
    ensures
        final(out)@ == old(out)@ + right_aligned(decimal(value as nat), width as nat),
{
    let ghost before = out@;
    let mut number = String::new();
    push_decimal(&mut number, value);
    assert(number@ =~= decimal(value as nat));
    let shown: usize = number.as_str().unicode_len();
    if shown < width {
        push_repeated(out, ' ', width - shown);
    }
    push_text(out, number.as_str());
    assert(out@ =~= before + right_aligned(decimal(value as nat), width as nat));
}

/// A text, one character after the other.
pub fn chars_of(text: &str) -> (chars: Vec<char>)
    ensures
        chars@ == text@,
{
    let mut out: Vec<char> = Vec::new();
    for c in it: text.chars()
        invariant
            out@ == it.seq().take(it.index@),
            it.seq() == text@,
    {
        out.push(c);
        assert(out@ =~= it.seq().take(it.index@ + 1));
    }
    assert(out@ =~= text@);
    out
}

/// Whether one text sorts before another.
pub fn sorts_before(a: &str, b: &str) -> (before: bool)
    ensures
        before == text_before(a@, b@),
{
    let left = chars_of(a);
    let right = chars_of(b);
    let mut i: usize = 0;
    assert(a@.skip(0) =~= a@);
    assert(b@.skip(0) =~= b@);
    while i < left.len() && i < right.len() && left[i] == right[i]
        invariant
            left@ == a@,
            right@ == b@,
            0 <= i <= a@.len(),
            i <= b@.len(),
            text_before(a@, b@) == text_before(a@.skip(i as int), b@.skip(i as int)),
        decreases a@.len() - i,
    {
        assert(a@.skip(i as int).skip(1) =~= a@.skip(i + 1));
        assert(b@.skip(i as int).skip(1) =~= b@.skip(i + 1));
        i += 1;
    }
    if i >= right.len() {
        false
    } else if i >= left.len() {
        true
    } else {
        (left[i] as u32) < (right[i] as u32)
    }
}

/// Put texts one after the other with a separator between them.
pub fn join(strings: &Vec<String>, separator: &str) -> (text: String)
    ensures
        text@ == joined(texts(strings@), separator@),
{
    let mut out = String::new();
    let mut i: usize = 0;
    let ghost all = texts(strings@);
    while i < strings.len()
        invariant
            0 <= i <= strings@.len(),
            all == texts(strings@),
            out@ == joined(all.take(i as int), separator@),
        decreases strings@.len() - i,
    {
        assert(all.take(i + 1).drop_last() =~= all.take(i as int));
        let ghost before = out@;
        if i > 0 {
            push_text(&mut out, separator);
        }
        push_text(&mut out, strings[i].as_str());
        assert(all.take(i + 1).last() == strings@[i as int]@);
        proof {
            if i == 0 {
                assert(out@ =~= all.take(1)[0]);
            }
        }
        i += 1;
    }
    assert(all.take(i as int) =~= all);
    out
}

/// Whether a character is white space: it has the Unicode `White_Space` property.
pub open spec fn white_char(c: char) -> bool {
    let code = c as u32;
    ||| 0x9 <= code <= 0xd
    ||| code == 0x20
    ||| code == 0x85
    ||| code == 0xa0
    ||| code == 0x1680
    ||| 0x2000 <= code <= 0x200a
    ||| code == 0x2028
    ||| code == 0x2029
    ||| code == 0x202f
    ||| code == 0x205f
    ||| code == 0x3000
}

/// Whether a character is white space.
pub fn is_white_char(c: char) -> (white: bool)
    ensures
        white == white_char(c),
{
    let code: u32 = c as u32;
    (0x9 <= code && code <= 0xd) || code == 0x20 || code == 0x85 || code == 0xa0 || code == 0x1680
        || (0x2000 <= code && code <= 0x200a) || code == 0x2028 || code == 0x2029 || code == 0x202f
        || code == 0x205f || code == 0x3000
}

/// A text without the white space it starts with.
pub open spec fn unindented(text: Seq<char>) -> Seq<char>
    decreases text.len(),
{
    if text.len() > 0 && white_char(text[0]) {
        unindented(text.skip(1))
    } else {
        text
    }
}

/// A text without what it ends with, as long as that is as `dropped` says.
pub open spec fn shortened(text: Seq<char>, dropped: spec_fn(char) -> bool) -> Seq<char>
    decreases text.len(),
{
    if text.len() > 0 && dropped(text.last()) {
        shortened(text.drop_last(), dropped)
    } else {
        text
    }
}

/// Being white space.
pub open spec fn is_white() -> spec_fn(char) -> bool {
    |c: char| white_char(c)
}

/// A text without white space at either end.
pub open spec fn trimmed(text: Seq<char>) -> Seq<char> {
    shortened(unindented(text), is_white())
}

/// How many characters stand before the first that `ends` a run.
pub open spec fn run_length(text: Seq<char>, ends: spec_fn(char) -> bool) -> nat
    decreases text.len(),
{
    if text.len() == 0 || ends(text[0]) {
        0
    } else {
        1 + run_length(text.skip(1), ends)
    }
}

/// Being one given character.
pub open spec fn is_char(c: char) -> spec_fn(char) -> bool {
    |d: char| d == c
}

/// The text before the first occurrence of a character.
pub open spec fn before_char(text: Seq<char>, c: char) -> Seq<char> {
    text.take(run_length(text, is_char(c)) as int)
}

proof fn lemma_run_length(text: Seq<char>, ends: spec_fn(char) -> bool)
    ensures
        run_length(text, ends) <= text.len(),
    decreases text.len(),
{
    if text.len() > 0 && !ends(text[0]) {
        lemma_run_length(text.skip(1), ends);
    }
}

proof fn lemma_run_length_at(text: Seq<char>, ends: spec_fn(char) -> bool, at: int)
    requires
        0 <= at <= text.len(),
        forall|i: int| 0 <= i < at ==> !ends(#[trigger] text[i]),
        at < text.len() ==> ends(text[at]),
    ensures
        run_length(text, ends) == at,
    decreases at,
{
    if at > 0 {
        assert(!ends(text[0]));
        let rest = text.skip(1);
        assert forall|i: int| 0 <= i < at - 1 implies !ends(#[trigger] rest[i]) by {
            assert(rest[i] == text[i + 1]);
        }
        if at < text.len() {
            assert(rest[at - 1] == text[at]);
        }
        lemma_run_length_at(rest, ends, at - 1);
    }
}

/// What stands before a character's first occurrence, given where that is.
pub proof fn lemma_before_first(text: Seq<char>, c: char, at: int)
    requires
        0 <= at <= text.len(),
        forall|i: int| 0 <= i < at ==> #[trigger] text[i] != c,
        at < text.len() ==> text[at] == c,
    ensures
        before_char(text, c) == text.take(at),
{
    lemma_run_length_at(text, is_char(c), at);
}

proof fn lemma_unindented(text: Seq<char>)
    ensures
        unindented(text).len() <= text.len(),
    decreases text.len(),
{
    if text.len() > 0 && white_char(text[0]) {
        lemma_unindented(text.skip(1));
    }
}

proof fn lemma_unindented_at(text: Seq<char>, at: int)
    requires
        0 <= at <= text.len(),
        forall|i: int| 0 <= i < at ==> white_char(#[trigger] text[i]),
        at < text.len() ==> !white_char(text[at]),
    ensures
        unindented(text) == text.skip(at),
    decreases at,
{
    if at > 0 {
        assert(white_char(text[0]));
        let rest = text.skip(1);
        assert forall|i: int| 0 <= i < at - 1 implies white_char(#[trigger] rest[i]) by {
            assert(rest[i] == text[i + 1]);
        }
        if at < text.len() {
            assert(rest[at - 1] == text[at]);
        }
        lemma_unindented_at(rest, at - 1);
        assert(rest.skip(at - 1) =~= text.skip(at));
    } else {
        assert(text.skip(0) =~= text);
    }
}

/// The words of a text: what white space separates.
pub open spec fn words_of(text: Seq<char>) -> Seq<Seq<char>>
    decreases text.len(),
    via words_of_decreases
{
    let start = unindented(text);
    if start.len() == 0 {
        Seq::empty()
    } else {
        let n = run_length(start, is_white()) as int;
        seq![start.take(n)] + words_of(start.skip(n))
    }
}

#[via_fn]
proof fn words_of_decreases(text: Seq<char>) {
    let start = unindented(text);
    lemma_unindented(text);
    lemma_start_is_a_word(text);
    lemma_run_length(start, is_white());
}

proof fn lemma_start_is_a_word(text: Seq<char>)
    ensures
        unindented(text).len() > 0 ==> !white_char(unindented(text)[0]),
        unindented(text).len() > 0 ==> run_length(unindented(text), is_white()) > 0,
    decreases text.len(),
{
    if text.len() > 0 && white_char(text[0]) {
        lemma_start_is_a_word(text.skip(1));
    }
}

/// The pieces of a text that a separator ends. The last may lack it.
pub open spec fn pieces_of(text: Seq<char>, separator: char) -> Seq<Seq<char>>
    decreases text.len(),
    via pieces_of_decreases
{
    if text.len() == 0 {
        Seq::empty()
    } else {
        let n = run_length(text, is_char(separator)) as int;
        if n < text.len() {
            seq![text.take(n)] + pieces_of(text.skip(n + 1), separator)
        } else {
            seq![text]
        }
    }
}

#[via_fn]
proof fn pieces_of_decreases(text: Seq<char>, separator: char) {
}

/// The lines of a text: what line breaks end. The last may lack one.
pub open spec fn lines_of(text: Seq<char>) -> Seq<Seq<char>> {
    pieces_of(text, '\n')
}

/// A stretch of characters as text.
fn gathered(chars: &Vec<char>, from: usize, to: usize) -> (text: String)
    requires
        from <= to <= chars@.len(),
    ensures
        text@ == chars@.subrange(from as int, to as int),
{
    let mut out = String::new();
    let mut i: usize = from;
    while i < to
        invariant
            from <= i <= to <= chars@.len(),
            out@ == chars@.subrange(from as int, i as int),
        decreases to - i,
    {
        out.push(chars[i]);
        assert(out@ =~= chars@.subrange(from as int, i + 1));
        i += 1;
    }
    out
}

/// The text without white space at either end.
pub fn trim(text: &str) -> (out: String)
    ensures
        out@ == trimmed(text@),
{
    let chars = chars_of(text);
    let mut from: usize = 0;
    while from < chars.len() && is_white_char(chars[from])
        invariant
            chars@ == text@,
            0 <= from <= chars@.len(),
            forall|i: int| 0 <= i < from ==> white_char(#[trigger] chars@[i]),
        decreases chars@.len() - from,
    {
        from += 1;
    }
    proof {
        lemma_unindented_at(chars@, from as int);
    }
    let mut to: usize = chars.len();
    assert(chars@.subrange(from as int, to as int) =~= chars@.skip(from as int));
    while from < to && is_white_char(chars[to - 1])
        invariant
            chars@ == text@,
            from <= to <= chars@.len(),
            shortened(chars@.subrange(from as int, to as int), is_white()) == trimmed(text@),
        decreases to,
    {
        assert(chars@.subrange(from as int, to as int).drop_last() =~= chars@.subrange(
            from as int,
            to - 1,
        ));
        to -= 1;
    }
    gathered(&chars, from, to)
}

/// The text without the occurrences of a character that it ends with.
pub fn trim_end_of(text: &str, c: char) -> (out: String)
    ensures
        out@ == shortened(text@, is_char(c)),
{
    let chars = chars_of(text);
    let mut to: usize = chars.len();
    assert(chars@.subrange(0, to as int) =~= chars@);
    while 0 < to && chars[to - 1] == c
        invariant
            chars@ == text@,
            0 <= to <= chars@.len(),
            shortened(chars@.subrange(0, to as int), is_char(c)) == shortened(text@, is_char(c)),
        decreases to,
    {
        assert(chars@.subrange(0, to as int).drop_last() =~= chars@.subrange(0, to - 1));
        to -= 1;
    }
    gathered(&chars, 0, to)
}

/// The text before the first occurrence of a character.
pub fn take_before(text: &str, c: char) -> (out: String)
    ensures
        out@ == before_char(text@, c),
{
    let chars = chars_of(text);
    let mut to: usize = 0;
    while to < chars.len() && chars[to] != c
        invariant
            chars@ == text@,
            0 <= to <= chars@.len(),
            forall|i: int| 0 <= i < to ==> #[trigger] chars@[i] != c,
        decreases chars@.len() - to,
    {
        to += 1;
    }
    proof {
        lemma_run_length_at(chars@, is_char(c), to as int);
        assert(chars@.subrange(0, to as int) =~= chars@.take(to as int));
    }
    gathered(&chars, 0, to)
}

/// The words of a text.
pub fn words(text: &str) -> (out: Vec<String>)
    ensures
        texts(out@) == words_of(text@),
{
    let chars = chars_of(text);
    let mut out: Vec<String> = Vec::new();
    let mut at: usize = 0;
    assert(chars@.skip(0) =~= text@);
    assert(texts(out@) + words_of(text@) =~= words_of(text@));
    loop
        invariant
            chars@ == text@,
            0 <= at <= chars@.len(),
            texts(out@) + words_of(chars@.skip(at as int)) == words_of(text@),
        ensures
            texts(out@) == words_of(text@),
        decreases chars@.len() - at,
    {
        let ghost rest = chars@.skip(at as int);
        let mut from: usize = at;
        while from < chars.len() && is_white_char(chars[from])
            invariant
                at <= from <= chars@.len(),
                rest == chars@.skip(at as int),
                forall|i: int| 0 <= i < from - at ==> white_char(#[trigger] rest[i]),
            decreases chars@.len() - from,
        {
            assert(rest[from - at] == chars@[from as int]);
            from += 1;
        }
        let ghost start = chars@.skip(from as int);
        proof {
            if from < chars@.len() {
                assert(rest[from - at] == chars@[from as int]);
            }
            lemma_unindented_at(rest, from - at);
            assert(rest.skip(from - at) =~= start);
        }
        if from == chars.len() {
            assert(texts(out@) =~= words_of(text@));
            break;
        }
        let mut to: usize = from;
        while to < chars.len() && !is_white_char(chars[to])
            invariant
                from <= to <= chars@.len(),
                start == chars@.skip(from as int),
                forall|i: int| 0 <= i < to - from ==> !white_char(#[trigger] start[i]),
            decreases chars@.len() - to,
        {
            assert(start[to - from] == chars@[to as int]);
            to += 1;
        }
        proof {
            if to < chars@.len() {
                assert(start[to - from] == chars@[to as int]);
            }
            lemma_run_length_at(start, is_white(), to - from);
            lemma_start_is_a_word(rest);
            assert(start.take(to - from) =~= chars@.subrange(from as int, to as int));
            assert(start.skip(to - from) =~= chars@.skip(to as int));
        }
        let ghost before = out@;
        let word = gathered(&chars, from, to);
        out.push(word);
        proof {
            assert(texts(out@) =~= texts(before).push(word@));
            assert(texts(out@) + words_of(chars@.skip(to as int)) =~= texts(before) + words_of(
                rest,
            ));
        }
        at = to;
    }
    out
}

/// The pieces of a text that a separator ends.
pub fn pieces(text: &str, separator: char) -> (out: Vec<String>)
    ensures
        texts(out@) == pieces_of(text@, separator),
{
    let chars = chars_of(text);
    let mut out: Vec<String> = Vec::new();
    let mut at: usize = 0;
    assert(chars@.skip(0) =~= text@);
    assert(texts(out@) + pieces_of(text@, separator) =~= pieces_of(text@, separator));
    while at < chars.len()
        invariant
            chars@ == text@,
            0 <= at <= chars@.len(),
            texts(out@) + pieces_of(chars@.skip(at as int), separator) == pieces_of(text@, separator),
        decreases chars@.len() - at,
    {
        let ghost rest = chars@.skip(at as int);
        let mut to: usize = at;
        while to < chars.len() && chars[to] != separator
            invariant
                at <= to <= chars@.len(),
                rest == chars@.skip(at as int),
                forall|i: int| 0 <= i < to - at ==> #[trigger] rest[i] != separator,
            decreases chars@.len() - to,
        {
            assert(rest[to - at] == chars@[to as int]);
            to += 1;
        }
        proof {
            if to < chars@.len() {
                assert(rest[to - at] == chars@[to as int]);
            }
            lemma_run_length_at(rest, is_char(separator), to - at);
            assert(rest.take(to - at) =~= chars@.subrange(at as int, to as int));
        }
        let ghost before = out@;
        let piece = gathered(&chars, at, to);
        out.push(piece);
        assert(texts(out@) =~= texts(before).push(piece@));
        if to < chars.len() {
            proof {
                assert(rest.skip(to - at + 1) =~= chars@.skip(to + 1));
                assert(texts(out@) + pieces_of(chars@.skip(to + 1), separator) =~= texts(before) + pieces_of(rest, separator));
            }
            at = to + 1;
        } else {
            proof {
                assert(rest.take(to - at) =~= rest);
                assert(chars@.skip(to as int) =~= Seq::empty());
                assert(texts(out@) + pieces_of(chars@.skip(to as int), separator) =~= texts(before) + pieces_of(rest, separator));
            }
            at = to;
        }
    }
    assert(chars@.skip(at as int) =~= Seq::empty());
    assert(texts(out@) =~= pieces_of(text@, separator));
    out
}

/// The lines of a text.
pub fn lines(text: &str) -> (out: Vec<String>)
    ensures
        texts(out@) == lines_of(text@),
{
    pieces(text, '\n')
}

proof fn lemma_text_order(a: Seq<char>, b: Seq<char>, c: Seq<char>)
    ensures
        text_before(a, b) ==> !text_before(b, a),
        !text_before(b, a) && !text_before(c, b) ==> !text_before(c, a),
        !text_before(a, b) && !text_before(b, a) ==> a == b,
        text_before(a, b) && text_before(b, c) ==> text_before(a, c),
    decreases a.len() + b.len() + c.len(),
{
    if a.len() > 0 && b.len() > 0 && c.len() > 0 {
        lemma_text_order(a.skip(1), b.skip(1), c.skip(1));
        lemma_same_char(a[0], b[0]);
        lemma_same_char(b[0], c[0]);
        lemma_same_char(a[0], c[0]);
    } else if a.len() > 0 && b.len() > 0 {
        lemma_text_order(a.skip(1), b.skip(1), c);
        lemma_same_char(a[0], b[0]);
    } else if a.len() == 0 && b.len() == 0 {
        assert(a =~= b);
    }
    if a.len() > 0 && b.len() > 0 && a[0] == b[0] && a.skip(1) == b.skip(1) {
        assert(a =~= seq![a[0]] + a.skip(1));
        assert(b =~= seq![b[0]] + b.skip(1));
    }
}

proof fn lemma_same_char(a: char, b: char)
    ensures
        a as u32 == b as u32 ==> a == b,
{
    assert(a as u32 as char == a);
    assert(b as u32 as char == b);
}

/// Sorting texts is a strict total order: exactly one of before, after and
/// equal holds, and it carries over from one pair to the next.
pub proof fn law_texts_are_totally_ordered(a: Seq<char>, b: Seq<char>, c: Seq<char>)
    ensures
        !text_before(a, a),
        text_before(a, b) ==> !text_before(b, a),
        !text_before(a, b) && !text_before(b, a) ==> a == b,
        text_before(a, b) && text_before(b, c) ==> text_before(a, c),
{
    lemma_text_order(a, b, c);
    lemma_text_order(a, a, a);
}

// --- what texts mean ---------------------------------------------------------

/// The number digits of a base spell, the most significant first.
pub open spec fn spelled(digits: Seq<char>, base: nat) -> nat
    decreases digits.len(),
{
    if digits.len() == 0 {
        0
    } else {
        let c = digits.last() as int;
        let value = if 48 <= c <= 57 {
            (c - 48) as nat
        } else {
            (c - 87) as nat
        };
        spelled(digits.drop_last(), base) * base + value
    }
}

/// A number in decimal reads back as that number, in digits, with no zero in
/// front.
pub proof fn law_decimals_read_back(value: nat)
    ensures
        spelled(decimal(value), 10) == value,
        decimal(value).len() > 0,
        forall|i: int| 0 <= i < decimal(value).len() ==> '0' <= #[trigger] decimal(value)[i] <= '9',
        value > 0 ==> decimal(value)[0] != '0',
        value == 0 ==> decimal(value) == seq!['0'],
    decreases value,
{
    if value >= 10 {
        let rest = decimal(value / 10);
        law_decimals_read_back(value / 10);
        assert(decimal(value).drop_last() =~= rest);
        assert forall|i: int| 0 <= i < decimal(value).len() implies '0' <= #[trigger] decimal(
            value,
        )[i] <= '9' by {
            if i < rest.len() {
                assert(decimal(value)[i] == rest[i]);
            }
        }
        assert(decimal(value)[0] == rest[0]);
    } else {
        assert(decimal(value).drop_last() =~= Seq::empty());
        assert(spelled(decimal(value).drop_last(), 10) == 0);
    }
}

/// A padded number is as wide as asked and reads back as its last digits.
pub proof fn law_padded_decimals_read_back(value: nat, width: nat)
    ensures
        padded_decimal(value, width).len() == width,
        spelled(padded_decimal(value, width), 10) == value % pow10(width),
        forall|i: int|
            0 <= i < width ==> '0' <= #[trigger] padded_decimal(value, width)[i] <= '9',
    decreases width,
{
    if width > 0 {
        let rest = padded_decimal(value / 10, (width - 1) as nat);
        law_padded_decimals_read_back(value / 10, (width - 1) as nat);
        assert(padded_decimal(value, width).drop_last() =~= rest);
        assert forall|i: int| 0 <= i < width implies '0' <= #[trigger] padded_decimal(
            value,
            width,
        )[i] <= '9' by {
            if i < rest.len() {
                assert(padded_decimal(value, width)[i] == rest[i]);
            }
        }
        let p = pow10((width - 1) as nat) as int;
        lemma_pow10_positive((width - 1) as nat);
        let v = value as int;
        assert(v % (10 * p) == 10 * ((v / 10) % p) + v % 10) by {
            vstd::arithmetic::div_mod::lemma_mod_breakdown(v, 10, p);
        }
        assert(pow10(width) == 10 * p);
    }
}

/// A power of ten.
pub open spec fn pow10(exponent: nat) -> nat
    decreases exponent,
{
    if exponent == 0 {
        1
    } else {
        10 * pow10((exponent - 1) as nat)
    }
}

proof fn lemma_pow10_positive(exponent: nat)
    ensures
        pow10(exponent) > 0,
    decreases exponent,
{
    if exponent > 0 {
        lemma_pow10_positive((exponent - 1) as nat);
    }
}

/// A number in hexadecimal reads back as that number, in lower-case digits, with
/// no zero in front.
pub proof fn law_hexadecimals_read_back(value: nat)
    ensures
        spelled(hexadecimal(value), 16) == value,
        hexadecimal(value).len() > 0,
        forall|i: int|
            0 <= i < hexadecimal(value).len() ==> ('0' <= #[trigger] hexadecimal(value)[i] <= '9')
                || ('a' <= hexadecimal(value)[i] <= 'f'),
        value > 0 ==> hexadecimal(value)[0] != '0',
    decreases value,
{
    if value >= 16 {
        let rest = hexadecimal(value / 16);
        law_hexadecimals_read_back(value / 16);
        assert(hexadecimal(value).drop_last() =~= rest);
        assert forall|i: int| 0 <= i < hexadecimal(value).len() implies ('0'
            <= #[trigger] hexadecimal(value)[i] <= '9') || ('a' <= hexadecimal(value)[i]
            <= 'f') by {
            if i < rest.len() {
                assert(hexadecimal(value)[i] == rest[i]);
            }
        }
        assert(hexadecimal(value)[0] == rest[0]);
    } else {
        assert(hexadecimal(value).drop_last() =~= Seq::empty());
        assert(spelled(hexadecimal(value).drop_last(), 16) == 0);
    }
}

/// A text sorts before another at the first place they differ, or as a beginning
/// of it.
pub proof fn law_texts_sort_by_their_first_difference(a: Seq<char>, b: Seq<char>, k: int)
    requires
        0 <= k <= a.len(),
        k <= b.len(),
        forall|i: int| 0 <= i < k ==> #[trigger] a[i] == b[i],
    ensures
        k < a.len() && k < b.len() && a[k] != b[k] ==> (text_before(a, b) <==> (a[k] as u32) < (
        b[k] as u32)),
        k == a.len() ==> (text_before(a, b) <==> k < b.len()),
        k == b.len() ==> !text_before(a, b),
    decreases k,
{
    if k > 0 {
        assert(a[0] == b[0]);
        assert forall|i: int| 0 <= i < k - 1 implies #[trigger] a.skip(1)[i] == b.skip(1)[i] by {
            assert(a[i + 1] == b[i + 1]);
        }
        law_texts_sort_by_their_first_difference(a.skip(1), b.skip(1), k - 1);
    }
}

/// Joining puts each text behind those before it, with the separator between and
/// nowhere else.
pub proof fn law_joining_puts_separators_between(
    all: Seq<Seq<char>>,
    next: Seq<char>,
    separator: Seq<char>,
)
    ensures
        joined(Seq::empty(), separator).len() == 0,
        joined(seq![next], separator) == next,
        all.len() > 0 ==> joined(all.push(next), separator) == joined(all, separator) + separator
            + next,
{
    assert(all.push(next).drop_last() =~= all);
}

/// A right-aligned text keeps its characters at the end, behind as many spaces as
/// fill its column.
pub proof fn law_right_alignment_fills_the_column(text: Seq<char>, width: nat, i: int)
    ensures
        right_aligned(text, width).len() == if text.len() < width {
            width
        } else {
            text.len()
        },
        right_aligned(text, width).skip(right_aligned(text, width).len() - text.len()) == text,
        0 <= i < right_aligned(text, width).len() - text.len() ==> right_aligned(text, width)[i]
            == ' ',
{
    let pad = right_aligned(text, width).len() - text.len();
    assert(right_aligned(text, width).skip(pad) =~= text);
}

/// White space is what Unicode says it is; among ASCII, the tab, the line breaks
/// and the space.
pub proof fn law_white_space_is_unicodes(c: char)
    ensures
        white_char(' '),
        white_char('\n'),
        white_char('\t'),
        white_char('\r'),
        (c as u32) < 0x80 ==> (white_char(c) <==> c == ' ' || 9 <= (c as u32) <= 13),
        !white_char('#'),
{
}

/// Trimming takes white space off both ends and nothing else: what is left
/// neither starts nor ends with any, and only white space is gone.
pub proof fn law_trimming_takes_white_space_off(text: Seq<char>)
    ensures
        exists|from: int, to: int|
            0 <= from <= to <= text.len() && trimmed(text) == #[trigger] text.subrange(from, to) && (
            forall|i: int| 0 <= i < from ==> white_char(#[trigger] text[i])) && (forall|i: int|
                to <= i < text.len() ==> white_char(#[trigger] text[i])),
        trimmed(text).len() > 0 ==> !white_char(trimmed(text)[0]) && !white_char(
            trimmed(text).last(),
        ),
{
    lemma_unindented_is_a_tail(text);
    let start = unindented(text);
    let from = text.len() - start.len();
    lemma_shortened_is_a_head(start, is_white());
    let to = from + trimmed(text).len();
    assert(trimmed(text) =~= text.subrange(from, to));
    assert forall|i: int| to <= i < text.len() implies white_char(#[trigger] text[i]) by {
        assert(start[i - from] == text[i]);
        assert(is_white()(start[i - from]));
    }
}

proof fn lemma_unindented_is_a_tail(text: Seq<char>)
    ensures
        unindented(text).len() <= text.len(),
        unindented(text) == text.skip(text.len() - unindented(text).len()),
        forall|i: int|
            0 <= i < text.len() - unindented(text).len() ==> white_char(#[trigger] text[i]),
        unindented(text).len() > 0 ==> !white_char(unindented(text)[0]),
    decreases text.len(),
{
    if text.len() > 0 && white_char(text[0]) {
        let rest = text.skip(1);
        lemma_unindented_is_a_tail(rest);
        assert(text.skip(text.len() - unindented(text).len()) =~= rest.skip(
            rest.len() - unindented(rest).len(),
        ));
        assert forall|i: int| 0 <= i < text.len() - unindented(text).len() implies white_char(
            #[trigger] text[i],
        ) by {
            if i > 0 {
                assert(rest[i - 1] == text[i]);
            }
        }
    } else {
        assert(text.skip(0) =~= text);
    }
}

proof fn lemma_shortened_is_a_head(text: Seq<char>, dropped: spec_fn(char) -> bool)
    ensures
        shortened(text, dropped).len() <= text.len(),
        shortened(text, dropped) == text.take(shortened(text, dropped).len() as int),
        forall|i: int|
            shortened(text, dropped).len() <= i < text.len() ==> dropped(#[trigger] text[i]),
        shortened(text, dropped).len() > 0 ==> !dropped(shortened(text, dropped).last()),
    decreases text.len(),
{
    if text.len() > 0 && dropped(text.last()) {
        let rest = text.drop_last();
        lemma_shortened_is_a_head(rest, dropped);
        assert(text.take(shortened(text, dropped).len() as int) =~= rest.take(
            shortened(rest, dropped).len() as int,
        ));
        assert forall|i: int| shortened(text, dropped).len() <= i < text.len() implies dropped(
            #[trigger] text[i],
        ) by {
            if i < rest.len() {
                assert(rest[i] == text[i]);
            }
        }
    } else {
        assert(text.take(text.len() as int) =~= text);
    }
}

/// Taking off an end takes off all of it and no more.
pub proof fn law_an_end_is_taken_off_whole(text: Seq<char>, dropped: spec_fn(char) -> bool)
    ensures
        shortened(text, dropped) == text.take(shortened(text, dropped).len() as int),
        forall|i: int|
            shortened(text, dropped).len() <= i < text.len() ==> dropped(#[trigger] text[i]),
        shortened(text, dropped).len() > 0 ==> !dropped(shortened(text, dropped).last()),
{
    lemma_shortened_is_a_head(text, dropped);
}

/// What stands before a character ends where the character first occurs.
pub proof fn law_the_text_before_a_character_ends_there(text: Seq<char>, c: char, at: int)
    requires
        0 <= at <= text.len(),
        forall|i: int| 0 <= i < at ==> (#[trigger] text[i]) != c,
        at < text.len() ==> text[at] == c,
    ensures
        before_char(text, c) == text.take(at),
{
    lemma_run_length_at(text, is_char(c), at);
}

/// A separator ends a piece: a text is its first piece, the separator, and the
/// pieces of the rest; a text without a separator is one piece.
pub proof fn law_separators_end_pieces(piece: Seq<char>, separator: char, rest: Seq<char>)
    requires
        forall|i: int| 0 <= i < piece.len() ==> (#[trigger] piece[i]) != separator,
    ensures
        pieces_of(piece.push(separator) + rest, separator) == seq![piece] + pieces_of(
            rest,
            separator,
        ),
        piece.len() > 0 ==> pieces_of(piece, separator) == seq![piece],
        pieces_of(Seq::empty(), separator).len() == 0,
{
    let text = piece.push(separator) + rest;
    assert forall|i: int| 0 <= i < piece.len() implies !is_char(separator)(#[trigger] text[i]) by {
        assert(text[i] == piece[i]);
    }
    lemma_run_length_at(text, is_char(separator), piece.len() as int);
    assert(text.take(piece.len() as int) =~= piece);
    assert(text.skip(piece.len() as int + 1) =~= rest);
    if piece.len() > 0 {
        assert forall|i: int| 0 <= i < piece.len() implies !is_char(separator)(
            #[trigger] piece[i],
        ) by {}
        lemma_run_length_at(piece, is_char(separator), piece.len() as int);
    }
}

/// White space ends words: a text is its first word and the words of the rest;
/// white space in front says nothing; a text without white space is one word.
pub proof fn law_white_space_ends_words(word: Seq<char>, space: char, rest: Seq<char>)
    requires
        forall|i: int| 0 <= i < word.len() ==> !white_char(#[trigger] word[i]),
        white_char(space),
    ensures
        word.len() > 0 ==> words_of(word.push(space) + rest) == seq![word] + words_of(rest),
        words_of(seq![space] + rest) == words_of(rest),
        word.len() > 0 ==> words_of(word) == seq![word],
        words_of(Seq::empty()).len() == 0,
{
    let spaced = seq![space] + rest;
    assert(spaced.skip(1) =~= rest);
    assert(unindented(spaced) == unindented(rest));
    lemma_words_of_start(spaced);
    lemma_words_of_start(rest);
    if word.len() > 0 {
        let text = word.push(space) + rest;
        assert(text[0] == word[0]);
        assert(unindented(text) == text);
        assert forall|i: int| 0 <= i < word.len() implies !is_white()(#[trigger] text[i]) by {
            assert(text[i] == word[i]);
        }
        assert(text[word.len() as int] == space);
        lemma_run_length_at(text, is_white(), word.len() as int);
        assert(text.take(word.len() as int) =~= word);
        assert(text.skip(word.len() as int) =~= spaced);
        assert(unindented(word) == word);
        assert forall|i: int| 0 <= i < word.len() implies !is_white()(#[trigger] word[i]) by {}
        lemma_run_length_at(word, is_white(), word.len() as int);
        assert(word.take(word.len() as int) =~= word);
        assert(word.skip(word.len() as int) =~= Seq::empty());
        assert(words_of(word.skip(word.len() as int)) =~= Seq::empty());
        assert(words_of(word) =~= seq![word]);
        assert(words_of(text) =~= seq![word] + words_of(rest));
    }
}

proof fn lemma_words_of_start(text: Seq<char>)
    ensures
        words_of(text) == if unindented(text).len() == 0 {
            Seq::empty()
        } else {
            seq![unindented(text).take(run_length(unindented(text), is_white()) as int)] + words_of(
                unindented(text).skip(run_length(unindented(text), is_white()) as int),
            )
        },
{
}

} // verus!
