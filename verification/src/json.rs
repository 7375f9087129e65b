//! Just enough JSON to write a profile.
//!
//! Output is compact while it is built and re-indented once at the end, one
//! field per line, so a difference between two profiles names the capability
//! that moved.

use vstd::prelude::*;
use crate::text::{
    chars_of, decimal, hex_digit, joined, push_decimal, push_hex_digit, push_text, repeated,
};

verus! {

/// How one character stands inside a string.
pub open spec fn escaped_char(c: char) -> Seq<char> {
    if c == '"' {
        seq!['\\', '"']
    } else if c == '\\' {
        seq!['\\', '\\']
    } else if c == '\n' {
        seq!['\\', 'n']
    } else if c == '\r' {
        seq!['\\', 'r']
    } else if c == '\t' {
        seq!['\\', 't']
    } else if (c as u32) < 0x20 {
        seq![
            '\\',
            'u',
            '0',
            '0',
            hex_digit((c as u32 / 16) as nat),
            hex_digit((c as u32 % 16) as nat),
        ]
    } else {
        seq![c]
    }
}

/// How a text stands inside a string.
pub open spec fn escaped(text: Seq<char>) -> Seq<char>
    decreases text.len(),
{
    if text.len() == 0 {
        Seq::empty()
    } else {
        escaped(text.drop_last()) + escaped_char(text.last())
    }
}

/// A text as a JSON string.
pub open spec fn quoted(text: Seq<char>) -> Seq<char> {
    seq!['"'] + escaped(text) + seq!['"']
}

/// A named field, given its value as JSON.
pub open spec fn field(key: Seq<char>, value: Seq<char>) -> Seq<char> {
    quoted(key) + seq![':'] + value
}

/// A truth value as JSON.
pub open spec fn truth(value: bool) -> Seq<char> {
    if value {
        "true"@
    } else {
        "false"@
    }
}

/// Entries between brackets, ahead of the closing one.
pub open spec fn opened(is_object: bool, entries: Seq<Seq<char>>) -> Seq<char> {
    seq![
        if is_object {
            '{'
        } else {
            '['
        },
    ] + joined(entries, seq![','])
}

/// An object of the given fields.
pub open spec fn object_of(fields: Seq<Seq<char>>) -> Seq<char> {
    opened(true, fields).push('}')
}

/// An array of the given values.
pub open spec fn array_of(values: Seq<Seq<char>>) -> Seq<char> {
    opened(false, values).push(']')
}

/// Escape what JSON requires to be escaped, and nothing else.
pub fn escape(value: &str) -> (out: String)
    ensures
        out@ == escaped(value@),
{
    let chars = chars_of(value);
    let mut out = String::new();
    let mut i: usize = 0;
    while i < chars.len()
        invariant
            0 <= i <= chars@.len(),
            out@ == escaped(chars@.take(i as int)),
        decreases chars@.len() - i,
    {
        let ghost before = out@;
        let c: char = chars[i];
        let code: u32 = c as u32;
        assert(chars@.take(i + 1).drop_last() =~= chars@.take(i as int));
        if c == '"' || c == '\\' {
            out.push('\\');
            out.push(c);
        } else if c == '\n' {
            out.push('\\');
            out.push('n');
        } else if c == '\r' {
            out.push('\\');
            out.push('r');
        } else if c == '\t' {
            out.push('\\');
            out.push('t');
        } else if code < 0x20 {
            out.push('\\');
            out.push('u');
            out.push('0');
            out.push('0');
            push_hex_digit(&mut out, code as u64 / 16);
            push_hex_digit(&mut out, code as u64 % 16);
        } else {
            out.push(c);
        }
        assert(out@ =~= before + escaped_char(c));
        i += 1;
    }
    assert(chars@.take(i as int) =~= chars@);
    out
}

/// A JSON object or array under construction.
pub struct Json {
    /// What is written so far, without the closing bracket.
    pub body: String,
    /// Whether it is an object rather than an array.
    pub is_object: bool,
    /// Whether nothing is in it yet.
    pub empty: bool,
    /// The fields or values in it.
    pub entries: Ghost<Seq<Seq<char>>>,
}

impl Json {
    /// Whether what is written is what is in it.
    pub open spec fn well_formed(self) -> bool {
        &&& self.body@ == opened(self.is_object, self.entries@)
        &&& self.empty == (self.entries@.len() == 0)
    }

    /// Whether `after` is this with one more entry.
    pub open spec fn extended(self, entry: Seq<char>, after: Json) -> bool {
        &&& after.well_formed()
        &&& after.is_object == self.is_object
        &&& after.entries@ == self.entries@.push(entry)
    }

    /// An empty object.
    pub fn object() -> (json: Self)
        ensures
            json.well_formed(),
            json.is_object,
            json.entries@ == Seq::<Seq<char>>::empty(),
    {
        let mut body = String::new();
        body.push('{');
        assert(body@ =~= opened(true, Seq::empty()));
        Json { body, is_object: true, empty: true, entries: Ghost(Seq::empty()) }
    }

    /// An empty array.
    pub fn array() -> (json: Self)
        ensures
            json.well_formed(),
            !json.is_object,
            json.entries@ == Seq::<Seq<char>>::empty(),
    {
        let mut body = String::new();
        body.push('[');
        assert(body@ =~= opened(false, Seq::empty()));
        Json { body, is_object: false, empty: true, entries: Ghost(Seq::empty()) }
    }

    fn separate(&mut self)
        ensures
            final(self).body@ == if old(self).empty {
                old(self).body@
            } else {
                old(self).body@.push(',')
            },
            final(self).is_object == old(self).is_object,
            final(self).entries == old(self).entries,
            !final(self).empty,
    {
        if !self.empty {
            self.body.push(',');
        }
        self.empty = false;
    }

    /// Append one finished entry.
    fn append(&mut self, entry: &str)
        requires
            old(self).well_formed(),
        ensures
            old(self).extended(entry@, *final(self)),
    {
        self.separate();
        push_text(&mut self.body, entry);
        self.entries = Ghost(self.entries@.push(entry@));
        proof {
            let before = old(self).entries@;
            assert(self.entries@.drop_last() =~= before);
            if before.len() == 0 {
                assert(joined(before, seq![',']) =~= Seq::empty());
            }
            assert(self.body@ =~= opened(self.is_object, self.entries@));
        }
    }

    /// A field whose value is already JSON.
    pub fn raw(&mut self, key: &str, value: &str)
        requires
            old(self).well_formed(),
        ensures
            old(self).extended(field(key@, value@), *final(self)),
    {
        let name = escape(key);
        let mut entry = String::new();
        entry.push('"');
        push_text(&mut entry, name.as_str());
        entry.push('"');
        entry.push(':');
        push_text(&mut entry, value);
        assert(entry@ =~= field(key@, value@));
        self.append(entry.as_str());
    }

    /// A string field. The value is escaped.
    pub fn string(&mut self, key: &str, value: &str)
        requires
            old(self).well_formed(),
        ensures
            old(self).extended(field(key@, quoted(value@)), *final(self)),
    {
        let inner = escape(value);
        let mut shown = String::new();
        shown.push('"');
        push_text(&mut shown, inner.as_str());
        shown.push('"');
        assert(shown@ =~= quoted(value@));
        self.raw(key, shown.as_str());
    }

    /// A number field.
    pub fn number(&mut self, key: &str, value: usize)
        requires
            old(self).well_formed(),
        ensures
            old(self).extended(field(key@, decimal(value as nat)), *final(self)),
    {
        let mut shown = String::new();
        push_decimal(&mut shown, value as u64);
        assert(shown@ =~= decimal(value as nat));
        self.raw(key, shown.as_str());
    }

    /// A boolean field.
    pub fn bool(&mut self, key: &str, value: bool)
        requires
            old(self).well_formed(),
        ensures
            old(self).extended(field(key@, truth(value)), *final(self)),
    {
        self.raw(key, if value { "true" } else { "false" });
    }

    /// Append to an array.
    pub fn push(&mut self, value: &str)
        requires
            old(self).well_formed(),
            !old(self).is_object,
        ensures
            old(self).extended(value@, *final(self)),
    {
        self.append(value);
    }

    /// Close it.
    pub fn finish(self) -> (text: String)
        requires
            self.well_formed(),
        ensures
            text@ == if self.is_object {
                object_of(self.entries@)
            } else {
                array_of(self.entries@)
            },
    {
        let mut body = self.body;
        body.push(
            if self.is_object {
                '}'
            } else {
                ']'
            },
        );
        body
    }
}

/// Where a pass over JSON text has got to.
pub struct Reading {
    /// How many brackets are open.
    pub depth: nat,
    /// Whether it is inside a string.
    pub in_string: bool,
    /// Whether the next character is escaped.
    pub escaped: bool,
}

/// The start of a text.
pub open spec fn outset() -> Reading {
    Reading { depth: 0, in_string: false, escaped: false }
}

/// Where a pass stands once it has read a character.
pub open spec fn past_char(at: Reading, c: char) -> Reading {
    if at.in_string {
        Reading {
            in_string: at.escaped || c != '"',
            escaped: !at.escaped && c == '\\',
            ..at
        }
    } else if c == '"' {
        Reading { in_string: true, ..at }
    } else if c == '{' || c == '[' {
        Reading { depth: at.depth + 1, ..at }
    } else if c == '}' || c == ']' {
        Reading {
            depth: if at.depth > 0 {
                (at.depth - 1) as nat
            } else {
                0
            },
            ..at
        }
    } else {
        at
    }
}

/// Where a pass stands once it has read a text.
pub open spec fn past(at: Reading, text: Seq<char>) -> Reading
    decreases text.len(),
{
    if text.len() == 0 {
        at
    } else {
        past_char(past(at, text.drop_last()), text.last())
    }
}

/// A new line at a nesting level.
pub open spec fn fresh_line(depth: nat) -> Seq<char> {
    seq!['\n'] + repeated(' ', 2 * depth)
}

/// What is written for a character, read where `at` says.
///
/// A bracket or a comma is followed by a new line at the level it leaves, or
/// preceded by one where it closes; a colon is followed by a space. Inside a
/// string a character stands as it is.
pub open spec fn indented_char(at: Reading, c: char) -> Seq<char> {
    let depth = past_char(at, c).depth;
    if at.in_string {
        seq![c]
    } else if c == '{' || c == '[' || c == ',' {
        seq![c] + fresh_line(depth)
    } else if c == '}' || c == ']' {
        fresh_line(depth) + seq![c]
    } else if c == ':' {
        seq![':', ' ']
    } else {
        seq![c]
    }
}

/// A text re-indented, one field per line.
pub open spec fn indented(text: Seq<char>) -> Seq<char>
    decreases text.len(),
{
    if text.len() == 0 {
        Seq::empty()
    } else {
        indented(text.drop_last()) + indented_char(past(outset(), text.drop_last()), text.last())
    }
}

proof fn lemma_depth_is_bounded(text: Seq<char>)
    ensures
        past(outset(), text).depth <= text.len(),
    decreases text.len(),
{
    if text.len() > 0 {
        lemma_depth_is_bounded(text.drop_last());
    }
}

/// Append a new line at a nesting level.
fn push_fresh_line(out: &mut String, depth: usize)
    ensures
        final(out)@ == old(out)@ + fresh_line(depth as nat),
{
    let ghost before = out@;
    out.push('\n');
    let mut level: usize = 0;
    assert(out@ =~= before + fresh_line(0));
    while level < depth
        invariant
            0 <= level <= depth,
            out@ == before + fresh_line(level as nat),
        decreases depth - level,
    {
        out.push(' ');
        out.push(' ');
        assert(out@ =~= before + fresh_line((level + 1) as nat));
        level += 1;
    }
}

/// Re-indent compact JSON, one field per line.
///
/// It tracks whether it is inside a string: a device model may contain a
/// brace, and a formatter that did not notice would split it.
pub fn pretty(compact: &str) -> (out: String)
    ensures
        out@ == indented(compact@),
{
    let chars = chars_of(compact);
    let mut out = String::new();
    let mut depth: usize = 0;
    let mut in_string = false;
    let mut escaped = false;
    let mut i: usize = 0;
    let total: usize = chars.len();
    while i < total
        invariant
            total == chars@.len(),
            0 <= i <= chars@.len(),
            out@ == indented(chars@.take(i as int)),
            past(outset(), chars@.take(i as int)) == (Reading { depth: depth as nat, in_string, escaped }),
        decreases chars@.len() - i,
    {
        let ghost before = out@;
        let ghost at = past(outset(), chars@.take(i as int));
        let c: char = chars[i];
        proof {
            assert(chars@.take(i + 1).drop_last() =~= chars@.take(i as int));
            lemma_depth_is_bounded(chars@.take(i as int));
            assert(!at.in_string ==> !at.escaped) by {
                lemma_escape_is_inside(chars@.take(i as int));
            }
        }
        if in_string {
            out.push(c);
            if escaped {
                escaped = false;
            } else if c == '\\' {
                escaped = true;
            } else if c == '"' {
                in_string = false;
            }
            assert(out@ =~= before + indented_char(at, c));
        } else if c == '"' {
            in_string = true;
            out.push(c);
            assert(out@ =~= before + indented_char(at, c));
        } else if c == '{' || c == '[' {
            depth += 1;
            out.push(c);
            push_fresh_line(&mut out, depth);
            assert(out@ =~= before + indented_char(at, c));
        } else if c == '}' || c == ']' {
            if depth > 0 {
                depth -= 1;
            }
            push_fresh_line(&mut out, depth);
            out.push(c);
            assert(out@ =~= before + indented_char(at, c));
        } else if c == ',' {
            out.push(c);
            push_fresh_line(&mut out, depth);
            assert(out@ =~= before + indented_char(at, c));
        } else if c == ':' {
            out.push(':');
            out.push(' ');
            assert(out@ =~= before + indented_char(at, c));
        } else {
            out.push(c);
            assert(out@ =~= before + indented_char(at, c));
        }
        i += 1;
    }
    assert(chars@.take(i as int) =~= chars@);
    out
}

proof fn lemma_escape_is_inside(text: Seq<char>)
    ensures
        past(outset(), text).escaped ==> past(outset(), text).in_string,
    decreases text.len(),
{
    if text.len() > 0 {
        lemma_escape_is_inside(text.drop_last());
    }
}

// --- laws --------------------------------------------------------------------

/// The characters of a text that carry meaning: everything inside a string,
/// and outside one everything but spaces and line breaks.
pub open spec fn meaning(at: Reading, text: Seq<char>) -> Seq<char>
    decreases text.len(),
{
    if text.len() == 0 {
        Seq::empty()
    } else {
        let c = text.last();
        let head = meaning(at, text.drop_last());
        if past(at, text.drop_last()).in_string || (c != ' ' && c != '\n') {
            head.push(c)
        } else {
            head
        }
    }
}

proof fn lemma_past_joins(at: Reading, a: Seq<char>, b: Seq<char>)
    ensures
        past(at, a + b) == past(past(at, a), b),
        meaning(at, a + b) == meaning(at, a) + meaning(past(at, a), b),
    decreases b.len(),
{
    if b.len() == 0 {
        assert(a + b =~= a);
        assert(meaning(at, a) + meaning(past(at, a), b) =~= meaning(at, a));
    } else {
        assert((a + b).drop_last() =~= a + b.drop_last());
        lemma_past_joins(at, a, b.drop_last());
        assert(meaning(at, a + b) =~= meaning(at, a) + meaning(past(at, a), b));
    }
}

proof fn lemma_white_run(at: Reading, count: nat)
    requires
        !at.in_string,
    ensures
        past(at, repeated(' ', count)) == at,
        meaning(at, repeated(' ', count)) == Seq::<char>::empty(),
    decreases count,
{
    if count > 0 {
        let run = repeated(' ', count);
        assert(run.drop_last() =~= repeated(' ', (count - 1) as nat));
        lemma_white_run(at, (count - 1) as nat);
    }
}

proof fn lemma_one(at: Reading, c: char)
    ensures
        past(at, seq![c]) == past_char(at, c),
        meaning(at, seq![c]) == if at.in_string || (c != ' ' && c != '\n') {
            seq![c]
        } else {
            Seq::<char>::empty()
        },
{
    assert(seq![c].drop_last() =~= Seq::<char>::empty());
    assert(past(at, seq![c].drop_last()) == at);
    assert(meaning(at, seq![c].drop_last()) =~= Seq::<char>::empty());
    assert(Seq::<char>::empty().push(c) =~= seq![c]);
}

proof fn lemma_fresh_line(at: Reading, depth: nat)
    requires
        !at.in_string,
    ensures
        past(at, fresh_line(depth)) == at,
        meaning(at, fresh_line(depth)) == Seq::<char>::empty(),
{
    lemma_one(at, '\n');
    lemma_white_run(at, 2 * depth);
    lemma_past_joins(at, seq!['\n'], repeated(' ', 2 * depth));
    assert(meaning(at, fresh_line(depth)) =~= Seq::<char>::empty());
}

proof fn lemma_indented_char(at: Reading, c: char)
    ensures
        past(at, indented_char(at, c)) == past_char(at, c),
        meaning(at, indented_char(at, c)) == meaning(at, seq![c]),
{
    let next = past_char(at, c);
    lemma_one(at, c);
    if at.in_string {
    } else if c == '{' || c == '[' || c == ',' {
        lemma_fresh_line(next, next.depth);
        lemma_past_joins(at, seq![c], fresh_line(next.depth));
        assert(meaning(at, indented_char(at, c)) =~= seq![c]);
    } else if c == '}' || c == ']' {
        lemma_fresh_line(at, next.depth);
        lemma_past_joins(at, fresh_line(next.depth), seq![c]);
        assert(meaning(at, indented_char(at, c)) =~= seq![c]);
    } else if c == ':' {
        lemma_one(next, ' ');
        lemma_past_joins(at, seq![':'], seq![' ']);
        assert(seq![':'] + seq![' '] =~= seq![':', ' ']);
        assert(meaning(at, indented_char(at, c)) =~= seq![c]);
    }
}

/// Re-indenting adds white space outside strings and changes nothing else.
pub proof fn law_pretty_only_adds_white_space(text: Seq<char>)
    ensures
        meaning(outset(), indented(text)) == meaning(outset(), text),
        past(outset(), indented(text)) == past(outset(), text),
    decreases text.len(),
{
    if text.len() > 0 {
        let head = text.drop_last();
        let at = past(outset(), head);
        law_pretty_only_adds_white_space(head);
        lemma_past_joins(outset(), indented(head), indented_char(at, text.last()));
        lemma_indented_char(at, text.last());
        lemma_past_joins(outset(), head, seq![text.last()]);
        assert(head + seq![text.last()] =~= text);
        lemma_one(at, text.last());
    }
}

proof fn lemma_hex_digit_is_plain(value: nat)
    requires
        value < 16,
    ensures
        hex_digit(value) != '"',
        hex_digit(value) != '\\',
{
    assert(hex_digit(value) as u32 >= 48);
    assert(hex_digit(value) as u32 <= 102);
    assert(hex_digit(value) as u32 != 92);
}

proof fn lemma_escaped_char_stays(at: Reading, c: char)
    requires
        at.in_string,
        !at.escaped,
    ensures
        past(at, escaped_char(c)) == at,
{
    let text = escaped_char(c);
    lemma_hex_digit_is_plain((c as u32 % 16) as nat);
    if (c as u32) < 0x20 {
        lemma_hex_digit_is_plain((c as u32 / 16) as nat);
    }
    if text.len() == 1 {
        lemma_one(at, text[0]);
        assert(text =~= seq![text[0]]);
    } else {
        lemma_one(at, text[0]);
        let inside = past_char(at, text[0]);
        lemma_one(inside, text[1]);
        lemma_past_joins(at, seq![text[0]], seq![text[1]]);
        assert(past(at, seq![text[0]] + seq![text[1]]) == at);
        if text.len() == 2 {
            assert(text =~= seq![text[0]] + seq![text[1]]);
        } else {
            let two = seq![text[0]] + seq![text[1]];
            let three = two + seq![text[2]];
            let four = three + seq![text[3]];
            let five = four + seq![text[4]];
            lemma_one(at, text[2]);
            lemma_one(at, text[3]);
            lemma_one(at, text[4]);
            lemma_one(at, text[5]);
            lemma_past_joins(at, two, seq![text[2]]);
            lemma_past_joins(at, three, seq![text[3]]);
            lemma_past_joins(at, four, seq![text[4]]);
            lemma_past_joins(at, five, seq![text[5]]);
            assert(text =~= five + seq![text[5]]);
        }
    }
}

/// An escaped text never leaves the string it stands in, whatever it holds.
pub proof fn law_escaped_text_stays_in_its_string(at: Reading, text: Seq<char>)
    requires
        at.in_string,
        !at.escaped,
    ensures
        past(at, escaped(text)) == at,
    decreases text.len(),
{
    if text.len() > 0 {
        law_escaped_text_stays_in_its_string(at, text.drop_last());
        lemma_escaped_char_stays(at, text.last());
        lemma_past_joins(at, escaped(text.drop_last()), escaped_char(text.last()));
    }
}

/// A quoted text opens a string and closes it again, at the same level.
pub proof fn law_quoted_text_is_one_string(at: Reading, text: Seq<char>)
    requires
        !at.in_string,
        !at.escaped,
    ensures
        past(at, quoted(text)) == at,
{
    let inside = Reading { in_string: true, ..at };
    lemma_one(at, '"');
    law_escaped_text_stays_in_its_string(inside, text);
    lemma_past_joins(at, seq!['"'], escaped(text));
    lemma_one(inside, '"');
    lemma_past_joins(at, seq!['"'] + escaped(text), seq!['"']);
}

/// Whether reading a text outside strings ends where it began.
pub open spec fn closed_text(text: Seq<char>) -> bool {
    forall|at: Reading| !at.in_string && !at.escaped ==> #[trigger] past(at, text) == at
}

proof fn lemma_joined_is_closed(entries: Seq<Seq<char>>, at: Reading)
    requires
        forall|i: int| 0 <= i < entries.len() ==> closed_text(#[trigger] entries[i]),
        !at.in_string,
        !at.escaped,
    ensures
        past(at, joined(entries, seq![','])) == at,
    decreases entries.len(),
{
    if entries.len() > 1 {
        let head = entries.drop_last();
        assert forall|i: int| 0 <= i < head.len() implies closed_text(#[trigger] head[i]) by {
            assert(head[i] == entries[i]);
        }
        lemma_joined_is_closed(head, at);
        lemma_one(at, ',');
        lemma_past_joins(at, joined(head, seq![',']), seq![',']);
        lemma_past_joins(at, joined(head, seq![',']) + seq![','], entries.last());
        assert(closed_text(entries[entries.len() - 1]));
    } else if entries.len() == 1 {
        assert(closed_text(entries[0]));
    }
}

/// An object or array of entries that close what they open closes itself.
pub proof fn law_finished_text_is_closed(entries: Seq<Seq<char>>)
    requires
        forall|i: int| 0 <= i < entries.len() ==> closed_text(#[trigger] entries[i]),
    ensures
        closed_text(object_of(entries)),
        closed_text(array_of(entries)),
{
    assert forall|at: Reading| !at.in_string && !at.escaped implies #[trigger] past(
        at,
        object_of(entries),
    ) == at by {
        lemma_bracketed(entries, at, '{', '}');
    }
    assert forall|at: Reading| !at.in_string && !at.escaped implies #[trigger] past(
        at,
        array_of(entries),
    ) == at by {
        lemma_bracketed(entries, at, '[', ']');
    }
}

proof fn lemma_bracketed(entries: Seq<Seq<char>>, at: Reading, open: char, close: char)
    requires
        forall|i: int| 0 <= i < entries.len() ==> closed_text(#[trigger] entries[i]),
        !at.in_string,
        !at.escaped,
        open == '{' || open == '[',
        close == '}' || close == ']',
    ensures
        past(at, (seq![open] + joined(entries, seq![','])).push(close)) == at,
{
    let inside = past_char(at, open);
    lemma_one(at, open);
    lemma_joined_is_closed(entries, inside);
    lemma_past_joins(at, seq![open], joined(entries, seq![',']));
    lemma_one(inside, close);
    let head = seq![open] + joined(entries, seq![',']);
    lemma_past_joins(at, head, seq![close]);
    assert(head.push(close) =~= head + seq![close]);
}

// --- what is written reads back ----------------------------------------------

/// The value of a hexadecimal digit.
pub open spec fn hex_value(c: char) -> int {
    if '0' <= c <= '9' {
        c as int - 48
    } else {
        c as int - 87
    }
}

/// The first character of what stands inside a string, as a reader of JSON takes
/// it, and what is left.
pub open spec fn read_one(text: Seq<char>) -> (char, Seq<char>) {
    if text[0] != '\\' {
        (text[0], text.skip(1))
    } else if text[1] == 'n' {
        ('\n', text.skip(2))
    } else if text[1] == 'r' {
        ('\r', text.skip(2))
    } else if text[1] == 't' {
        ('\t', text.skip(2))
    } else if text[1] == 'u' {
        (
            (hex_value(text[2]) * 0x1000 + hex_value(text[3]) * 0x100 + hex_value(text[4]) * 0x10
                + hex_value(text[5])) as char,
            text.skip(6),
        )
    } else {
        (text[1], text.skip(2))
    }
}

/// Every character written into a string reads back as itself, whatever follows;
/// none is written as a bare quote or control character.
pub proof fn law_each_character_reads_back(c: char, rest: Seq<char>)
    ensures
        read_one(escaped_char(c) + rest) == (c, rest),
        escaped_char(c)[0] != '"',
        forall|i: int|
            0 <= i < escaped_char(c).len() ==> (#[trigger] escaped_char(c)[i]) as u32 >= 0x20,
{
    let text = escaped_char(c) + rest;
    assert(text.skip(escaped_char(c).len() as int) =~= rest);
    if (c as u32) < 0x20 && c != '\n' && c != '\r' && c != '\t' {
        let code = c as u32;
        assert(text[0] == '\\');
        assert(text[1] == 'u');
        assert(text[2] == '0');
        assert(text[3] == '0');
        assert(text[4] == hex_digit((code / 16) as nat));
        assert(text[5] == hex_digit((code % 16) as nat));
        assert(hex_value(text[4]) == code / 16);
        assert(hex_value(text[5]) == code % 16);
        assert(hex_value(text[2]) * 0x1000 + hex_value(text[3]) * 0x100 + hex_value(text[4]) * 0x10
            + hex_value(text[5]) == code);
        assert((code as int) as char == c);
    }
}

/// A text is written character by character, in order, between quotes; a field is
/// its name, a colon and its value.
pub proof fn law_texts_are_written_in_order(
    text: Seq<char>,
    c: char,
    key: Seq<char>,
    value: Seq<char>,
)
    ensures
        escaped(Seq::empty()).len() == 0,
        escaped(text.push(c)) == escaped(text) + escaped_char(c),
        quoted(text)[0] == '"',
        quoted(text).last() == '"',
        quoted(text).subrange(1, quoted(text).len() - 1) == escaped(text),
        field(key, value) == quoted(key).push(':') + value,
{
    assert(text.push(c).drop_last() =~= text);
    assert(quoted(text).subrange(1, quoted(text).len() - 1) =~= escaped(text));
    assert(field(key, value) =~= quoted(key).push(':') + value);
}

/// An object is its fields between braces and an array its values between
/// brackets, separated by commas and in order.
pub proof fn law_entries_stand_between_brackets(entries: Seq<Seq<char>>, entry: Seq<char>)
    ensures
        object_of(Seq::empty()) == seq!['{', '}'],
        array_of(Seq::empty()) == seq!['[', ']'],
        object_of(seq![entry]) == seq!['{'] + entry + seq!['}'],
        array_of(seq![entry]) == seq!['['] + entry + seq![']'],
        entries.len() > 0 ==> object_of(entries.push(entry)) == object_of(entries).drop_last()
            + seq![','] + entry + seq!['}'],
        entries.len() > 0 ==> array_of(entries.push(entry)) == array_of(entries).drop_last()
            + seq![','] + entry + seq![']'],
{
    assert(object_of(Seq::empty()) =~= seq!['{', '}']);
    assert(array_of(Seq::empty()) =~= seq!['[', ']']);
    assert(object_of(seq![entry]) =~= seq!['{'] + entry + seq!['}']);
    assert(array_of(seq![entry]) =~= seq!['['] + entry + seq![']']);
    assert(entries.push(entry).drop_last() =~= entries);
    if entries.len() > 0 {
        assert(object_of(entries.push(entry)) =~= object_of(entries).drop_last() + seq![',']
            + entry + seq!['}']);
        assert(array_of(entries.push(entry)) =~= array_of(entries).drop_last() + seq![','] + entry
            + seq![']']);
    }
}

/// Re-indenting goes character by character. Inside a string nothing changes.
/// Outside one, an opening bracket is followed by a line one level deeper, a comma
/// by a line at the same level, a closing bracket stands on a line one level up,
/// and a colon is followed by a space; each level is two spaces.
pub proof fn law_indenting_follows_the_nesting(text: Seq<char>, c: char)
    ensures
        ({
            let at = past(outset(), text);
            let level = |depth: int| seq!['\n'] + Seq::new((2 * depth) as nat, |i: int| ' ');
            let added = indented(text.push(c)).skip(indented(text).len() as int);
            &&& indented(text.push(c)).take(indented(text).len() as int) == indented(text)
            &&& at.in_string ==> added == seq![c]
            &&& !at.in_string && (c == '{' || c == '[') ==> added == seq![c] + level(
                at.depth as int + 1,
            )
            &&& !at.in_string && c == ',' ==> added == seq![c] + level(at.depth as int)
            &&& !at.in_string && (c == '}' || c == ']') && at.depth > 0 ==> added == level(
                at.depth as int - 1,
            ) + seq![c]
            &&& !at.in_string && c == ':' ==> added == seq![':', ' ']
            &&& !at.in_string && c != '{' && c != '[' && c != '}' && c != ']' && c != ',' && c
                != ':' ==> added == seq![c]
        }),
{
    let at = past(outset(), text);
    assert(text.push(c).drop_last() =~= text);
    let added = indented(text.push(c)).skip(indented(text).len() as int);
    assert(added =~= indented_char(at, c));
    assert(indented(text.push(c)).take(indented(text).len() as int) =~= indented(text));
    assert forall|depth: nat| #[trigger] fresh_line(depth) =~= seq!['\n'] + Seq::new(
        (2 * depth) as nat,
        |i: int| ' ',
    ) by {}
    if !at.in_string && (c == '{' || c == '[') {
        assert(fresh_line(at.depth + 1) =~= seq!['\n'] + Seq::new(
            (2 * (at.depth + 1)) as nat,
            |i: int| ' ',
        ));
    }
    if !at.in_string && c == ',' {
        assert(fresh_line(at.depth) =~= seq!['\n'] + Seq::new(
            (2 * at.depth) as nat,
            |i: int| ' ',
        ));
    }
    if !at.in_string && (c == '}' || c == ']') && at.depth > 0 {
        assert(fresh_line((at.depth - 1) as nat) =~= seq!['\n'] + Seq::new(
            (2 * (at.depth - 1)) as nat,
            |i: int| ' ',
        ));
    }
}

/// Strings are told from the rest by their quotes: a quote opens one, and closes
/// it unless a backslash that is not itself escaped stands before it. Brackets
/// count outside strings only.
pub proof fn law_reading_tells_strings_from_brackets(at: Reading, c: char)
    ensures
        at.in_string ==> past_char(at, c).depth == at.depth,
        at.in_string && at.escaped ==> past_char(at, c).in_string && !past_char(at, c).escaped,
        at.in_string && !at.escaped && c == '"' ==> !past_char(at, c).in_string,
        at.in_string && !at.escaped && c == '\\' ==> past_char(at, c).in_string && past_char(
            at,
            c,
        ).escaped,
        at.in_string && !at.escaped && c != '"' && c != '\\' ==> past_char(at, c) == at,
        !at.in_string && c == '"' ==> past_char(at, c).in_string && past_char(at, c).depth
            == at.depth,
        !at.in_string && (c == '{' || c == '[') ==> past_char(at, c).depth == at.depth + 1,
        !at.in_string && (c == '}' || c == ']') && at.depth > 0 ==> past_char(at, c).depth
            == at.depth - 1,
        !at.in_string && c != '"' && c != '{' && c != '[' && c != '}' && c != ']' ==> past_char(
            at,
            c,
        ) == at,
        outset().depth == 0 && !outset().in_string && !outset().escaped,
{
}

/// Adding an entry puts it behind those there are, and leaves them and the kind
/// of value alone.
pub proof fn law_entries_stand_in_order(before: Json, entry: Seq<char>, after: Json, i: int)
    requires
        before.extended(entry, after),
    ensures
        after.is_object == before.is_object,
        after.entries@.len() == before.entries@.len() + 1,
        0 <= i < before.entries@.len() ==> after.entries@[i] == before.entries@[i],
        after.entries@[before.entries@.len() as int] == entry,
{
}

} // verus!
