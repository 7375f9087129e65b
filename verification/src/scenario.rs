//! Scenario scripts: what layers to show, frame by frame.
//!
//! A script has one command per line. Everything behind a `#` is a comment.

use vstd::prelude::*;
use crate::display::{unset_display, DisplayParams, Rect};
use crate::planes::{PlaneCapabilities, PlaneType};
use crate::text::{
    before_char, chars_of, decimal, digit, push_text, take_before, texts, words, words_of,
};

verus! {

/// One command of a script.
#[derive(Debug, PartialEq, Eq)]
pub enum Command {
    /// Commit a frame.
    Frame,
    /// Remove a layer.
    Del {
        /// Its name.
        name: String,
    },
    /// Add a layer.
    Add {
        /// Its name.
        name: String,
        /// Its stacking position.
        zpos: i32,
        /// Its left edge.
        x: i32,
        /// Its top edge.
        y: i32,
        /// Its width.
        w: u32,
        /// Its height.
        h: u32,
    },
}

/// What a line of a script says.
pub enum Said {
    /// Nothing.
    Nothing,
    /// Commit a frame.
    Frame,
    /// Remove a layer.
    Del(Seq<char>),
    /// Add a layer.
    Add(Seq<char>, int, int, int, nat, nat),
    /// Nothing that makes sense, and why.
    Wrong(Seq<char>),
}

/// The value of a decimal digit.
pub open spec fn digit_value(c: char) -> Option<nat> {
    if '0' <= c && c <= '9' {
        Some((c as u32 - 48) as nat)
    } else {
        None
    }
}

/// The number a run of decimal digits stands for. There has to be one.
pub open spec fn digits_value(text: Seq<char>) -> Option<nat>
    decreases text.len(),
{
    if text.len() == 0 {
        None
    } else {
        match digit_value(text.last()) {
            None => None,
            Some(last) => if text.len() == 1 {
                Some(last)
            } else {
                match digits_value(text.drop_last()) {
                    None => None,
                    Some(head) => Some(head * 10 + last),
                }
            },
        }
    }
}

/// The whole number a word stands for, sign and all, where it fits 32 bits.
pub open spec fn signed_of(word: Seq<char>) -> Option<int> {
    if word.len() > 0 && word[0] == '-' {
        match digits_value(word.skip(1)) {
            Some(value) => if value <= 0x8000_0000 {
                Some(-(value as int))
            } else {
                None
            },
            None => None,
        }
    } else {
        match digits_value(
            if word.len() > 0 && word[0] == '+' {
                word.skip(1)
            } else {
                word
            },
        ) {
            Some(value) => if value <= 0x7fff_ffff {
                Some(value as int)
            } else {
                None
            },
            None => None,
        }
    }
}

/// The size a word stands for, where it fits 32 bits.
pub open spec fn size_of_word(word: Seq<char>) -> Option<nat> {
    match digits_value(
        if word.len() > 0 && word[0] == '+' {
            word.skip(1)
        } else {
            word
        },
    ) {
        Some(value) => if value <= 0xffff_ffff {
            Some(value)
        } else {
            None
        },
        None => None,
    }
}

/// What the words behind `add` say.
pub open spec fn said_add(args: Seq<Seq<char>>) -> Said {
    if args.len() != 6 {
        Said::Wrong("add: bad args"@)
    } else {
        match (
            signed_of(args[1]),
            signed_of(args[2]),
            signed_of(args[3]),
            size_of_word(args[4]),
            size_of_word(args[5]),
        ) {
            (None, _, _, _, _) => Said::Wrong("add: bad number "@ + args[1]),
            (_, None, _, _, _) => Said::Wrong("add: bad number "@ + args[2]),
            (_, _, None, _, _) => Said::Wrong("add: bad number "@ + args[3]),
            (_, _, _, None, _) => Said::Wrong("add: bad size "@ + args[4]),
            (_, _, _, _, None) => Said::Wrong("add: bad size "@ + args[5]),
            (Some(zpos), Some(x), Some(y), Some(w), Some(h)) => Said::Add(args[0], zpos, x, y, w, h),
        }
    }
}

/// What the words of a line say.
pub open spec fn said_words(parts: Seq<Seq<char>>) -> Said {
    if parts.len() == 0 {
        Said::Nothing
    } else if parts[0] == "frame"@ {
        Said::Frame
    } else if parts[0] == "del"@ {
        if parts.len() < 2 {
            Said::Wrong("del: missing name"@)
        } else {
            Said::Del(parts[1])
        }
    } else if parts[0] == "add"@ {
        said_add(parts.skip(1))
    } else {
        Said::Wrong("unknown command: "@ + parts[0])
    }
}

/// What a line of a script says.
pub open spec fn said(line: Seq<char>) -> Said {
    said_words(words_of(before_char(line, '#')))
}

/// Whether a parsed line is what it says.
pub open spec fn says(parsed: Result<Option<Command>, String>, meant: Said) -> bool {
    match (parsed, meant) {
        (Ok(None), Said::Nothing) => true,
        (Ok(Some(Command::Frame)), Said::Frame) => true,
        (Ok(Some(Command::Del { name })), Said::Del(meant_name)) => name@ == meant_name,
        (Ok(Some(Command::Add { name, zpos, x, y, w, h })), Said::Add(n, z, mx, my, mw, mh)) => {
            name@ == n && zpos == z && x == mx && y == my && w == mw && h == mh
        },
        (Err(error), Said::Wrong(why)) => error@ == why,
        _ => false,
    }
}

proof fn lemma_prefix_value(text: Seq<char>, upto: int)
    requires
        1 <= upto <= text.len(),
        digits_value(text) is Some,
    ensures
        digits_value(text.take(upto)) is Some,
        digits_value(text.take(upto))->Some_0 <= digits_value(text)->Some_0,
    decreases text.len() - upto,
{
    if upto == text.len() {
        assert(text.take(upto) =~= text);
    } else {
        lemma_prefix_value(text.drop_last(), upto);
        assert(text.drop_last().take(upto) =~= text.take(upto));
    }
}

/// The number the digits from a place on stand for, where it is within a limit.
fn parse_digits(chars: &Vec<char>, from: usize, limit: u64) -> (number: Option<u64>)
    requires
        from <= chars@.len(),
        limit <= 0xffff_ffff,
    ensures
        match digits_value(chars@.skip(from as int)) {
            Some(value) => if value <= limit {
                number == Some(value as u64)
            } else {
                number is None
            },
            None => number is None,
        },
{
    let ghost text = chars@.skip(from as int);
    if from == chars.len() {
        return None;
    }
    let mut value: u64 = 0;
    let mut i: usize = from;
    while i < chars.len()
        invariant
            from <= i <= chars@.len(),
            limit <= 0xffff_ffff,
            text == chars@.skip(from as int),
            value <= limit,
            i == from ==> value == 0,
            i > from ==> digits_value(text.take(i - from)) == Some(value as nat),
        decreases chars@.len() - i,
    {
        let c: char = chars[i];
        let ghost next = text.take(i - from + 1);
        proof {
            assert(next.drop_last() =~= text.take(i - from));
            assert(next.last() == c);
            if digits_value(text) is Some {
                lemma_prefix_value(text, i - from + 1);
            }
        }
        if c < '0' || c > '9' {
            return None;
        }
        let code: u32 = c as u32;
        value = value * 10 + (code - 48) as u64;
        if value > limit {
            return None;
        }
        i += 1;
    }
    assert(text.take(i - from) =~= text);
    Some(value)
}

/// The whole number a word stands for.
pub fn parse_signed(word: &str) -> (number: Option<i32>)
    ensures
        match (number, signed_of(word@)) {
            (Some(value), Some(meant)) => value == meant,
            (None, None) => true,
            _ => false,
        },
{
    let chars = chars_of(word);
    assert(chars@.skip(0) =~= word@);
    if chars.len() > 0 && chars[0] == '-' {
        match parse_digits(&chars, 1, 0x8000_0000) {
            Some(value) => Some((-(value as i64)) as i32),
            None => None,
        }
    } else {
        let from: usize = if chars.len() > 0 && chars[0] == '+' {
            1
        } else {
            0
        };
        match parse_digits(&chars, from, 0x7fff_ffff) {
            Some(value) => Some(value as i32),
            None => None,
        }
    }
}

/// The size a word stands for.
pub fn parse_size(word: &str) -> (size: Option<u32>)
    ensures
        match (size, size_of_word(word@)) {
            (Some(value), Some(meant)) => value == meant,
            (None, None) => true,
            _ => false,
        },
{
    let chars = chars_of(word);
    assert(chars@.skip(0) =~= word@);
    let from: usize = if chars.len() > 0 && chars[0] == '+' {
        1
    } else {
        0
    };
    match parse_digits(&chars, from, 0xffff_ffff) {
        Some(value) => Some(value as u32),
        None => None,
    }
}

fn complain(what: &str, word: &str) -> (error: String)
    ensures
        error@ == what@ + word@,
{
    let mut out: String = what.to_owned();
    push_text(&mut out, word);
    out
}

fn parse_add(parts: &Vec<String>) -> (parsed: Result<Option<Command>, String>)
    requires
        parts@.len() > 0,
    ensures
        says(parsed, said_add(texts(parts@).skip(1))),
{
    let ghost args = texts(parts@).skip(1);
    if parts.len() != 7 {
        return Err("add: bad args".to_owned());
    }
    proof {
        assert(args[0] == parts@[1]@);
        assert(args[1] == parts@[2]@);
        assert(args[2] == parts@[3]@);
        assert(args[3] == parts@[4]@);
        assert(args[4] == parts@[5]@);
        assert(args[5] == parts@[6]@);
    }
    let zpos: i32 = match parse_signed(parts[2].as_str()) {
        Some(value) => value,
        None => {
            return Err(complain("add: bad number ", parts[2].as_str()));
        },
    };
    let x: i32 = match parse_signed(parts[3].as_str()) {
        Some(value) => value,
        None => {
            return Err(complain("add: bad number ", parts[3].as_str()));
        },
    };
    let y: i32 = match parse_signed(parts[4].as_str()) {
        Some(value) => value,
        None => {
            return Err(complain("add: bad number ", parts[4].as_str()));
        },
    };
    let w: u32 = match parse_size(parts[5].as_str()) {
        Some(value) => value,
        None => {
            return Err(complain("add: bad size ", parts[5].as_str()));
        },
    };
    let h: u32 = match parse_size(parts[6].as_str()) {
        Some(value) => value,
        None => {
            return Err(complain("add: bad size ", parts[6].as_str()));
        },
    };
    Ok(Some(Command::Add { name: parts[1].clone(), zpos, x, y, w, h }))
}

/// Read one line of a script.
pub fn parse_line(line: &str) -> (parsed: Result<Option<Command>, String>)
    ensures
        says(parsed, said(line@)),
{
    let code = take_before(line, '#');
    let parts = words(code.as_str());
    let ghost meant = texts(parts@);
    if parts.len() == 0 {
        return Ok(None);
    }
    assert(meant[0] == parts@[0]@);
    let frame: String = "frame".to_owned();
    let del: String = "del".to_owned();
    let add: String = "add".to_owned();
    if parts[0] == frame {
        Ok(Some(Command::Frame))
    } else if parts[0] == del {
        if parts.len() < 2 {
            Err("del: missing name".to_owned())
        } else {
            assert(meant[1] == parts@[1]@);
            Ok(Some(Command::Del { name: parts[1].clone() }))
        }
    } else if parts[0] == add {
        parse_add(&parts)
    } else {
        Err(complain("unknown command: ", parts[0].as_str()))
    }
}

/// A size as a script means it: nothing at all is the whole mode.
pub open spec fn meant_size(w: u32, h: u32, mode: (u32, u32)) -> (u32, u32) {
    if w == 0 && h == 0 {
        mode
    } else {
        (w, h)
    }
}

/// A size as a script means it: nothing at all is the whole mode.
pub fn layer_size(w: u32, h: u32, mode: (u32, u32)) -> (size: (u32, u32))
    ensures
        size == meant_size(w, h, mode),
{
    if w == 0 && h == 0 {
        mode
    } else {
        (w, h)
    }
}

/// How a layer a script adds is displayed: all of its buffer, unscaled, at its
/// place.
pub fn layer_display(zpos: i32, x: i32, y: i32, size: (u32, u32)) -> (params: DisplayParams)
    ensures
        params == (DisplayParams {
            src_rect: Rect { x: 0, y: 0, w: size.0, h: size.1 },
            dst_rect: Rect { x, y, w: size.0, h: size.1 },
            zpos: Some(
                (if zpos < 0 {
                    -zpos
                } else {
                    zpos as int
                }) as u64,
            ),
            ..unset_display()
        }),
{
    let depth: u64 = if zpos < 0 {
        (-(zpos as i64)) as u64
    } else {
        zpos as u64
    };
    DisplayParams {
        src_rect: Rect { x: 0, y: 0, w: size.0, h: size.1 },
        dst_rect: Rect { x, y, w: size.0, h: size.1 },
        zpos: Some(depth),
        ..DisplayParams::default()
    }
}

/// Whether a scene can be shown on a connector: something is plugged in, and it
/// offers a mode.
pub fn usable_connector(connected: bool, modes: usize) -> (usable: bool)
    ensures
        usable == (connected && modes > 0),
{
    connected && modes > 0
}

/// What a plane is for, by the value of its `type` property.
pub fn plane_type_of(value: u64) -> (kind: Option<PlaneType>)
    ensures
        kind == if value == 0 {
            Some(PlaneType::Overlay)
        } else if value == 1 {
            Some(PlaneType::Primary)
        } else if value == 2 {
            Some(PlaneType::Cursor)
        } else {
            None
        },
{
    if value == 0 {
        Some(PlaneType::Overlay)
    } else if value == 1 {
        Some(PlaneType::Primary)
    } else if value == 2 {
        Some(PlaneType::Cursor)
    } else {
        None
    }
}

/// Whether the CRTC at an index is the first with an id that is allowed.
pub open spec fn allowed_at(allowed: Seq<u32>, crtcs: Seq<u32>, index: int) -> bool {
    &&& 0 <= index < crtcs.len()
    &&& allowed.contains(crtcs[index])
    &&& forall|i: int| 0 <= i < index ==> #[trigger] crtcs[i] != crtcs[index]
}

fn place_of_crtc(crtcs: &Vec<u32>, id: u32) -> (place: Option<usize>)
    ensures
        match place {
            Some(found) => found < crtcs@.len() && crtcs@[found as int] == id && forall|i: int|
                0 <= i < found ==> #[trigger] crtcs@[i] != id,
            None => !crtcs@.contains(id),
        },
{
    let mut i: usize = 0;
    while i < crtcs.len()
        invariant
            0 <= i <= crtcs@.len(),
            forall|j: int| 0 <= j < i ==> #[trigger] crtcs@[j] != id,
        decreases crtcs@.len() - i,
    {
        if crtcs[i] == id {
            return Some(i);
        }
        i += 1;
    }
    None
}

/// The mask with a bit at each of these places, as far as there are bits.
pub fn mask_of(places: &Vec<u64>) -> (mask: u64)
    ensures
        forall|bit: u64|
            bit < 64 ==> ((#[trigger] (mask >> bit)) & 1u64 == 1u64) == places@.contains(bit),
{
    let mut mask: u64 = 0;
    let mut i: usize = 0;
    proof {
        assert forall|bit: u64| bit < 64 implies ((#[trigger] (mask >> bit)) & 1u64 == 1u64)
            == places@.take(0).contains(bit) by {
            assert((0u64 >> bit) & 1u64 == 0u64) by (bit_vector);
        }
    }
    while i < places.len()
        invariant
            0 <= i <= places@.len(),
            forall|bit: u64|
                bit < 64 ==> ((#[trigger] (mask >> bit)) & 1u64 == 1u64) == places@.take(
                    i as int,
                ).contains(bit),
        decreases places@.len() - i,
    {
        let ghost before = mask;
        let ghost had = places@.take(i as int);
        let ghost has = places@.take(i + 1);
        let place: u64 = places[i];
        if place < 64 {
            mask = mask | (1u64 << place);
        }
        proof {
            assert(has =~= had.push(place));
            assert forall|bit: u64| bit < 64 implies ((#[trigger] (mask >> bit)) & 1u64 == 1u64)
                == has.contains(bit) by {
                assert(((before >> bit) & 1u64 == 1u64) == had.contains(bit));
                if place < 64 {
                    assert((((before | (1u64 << place)) >> bit) & 1u64 == 1u64) == (bit == place || (
                    before >> bit) & 1u64 == 1u64)) by (bit_vector)
                        requires
                            bit < 64,
                            place < 64,
                    ;
                }
                assert(has.contains(bit) == (had.contains(bit) || bit == place)) by {
                    if had.contains(bit) {
                        let k = choose|k: int| 0 <= k < had.len() && had[k] == bit;
                        assert(has[k] == bit);
                    }
                    if bit == place {
                        assert(has[i as int] == bit);
                    }
                    if has.contains(bit) {
                        let k = choose|k: int| 0 <= k < has.len() && has[k] == bit;
                        if k < i {
                            assert(had[k] == bit);
                        }
                    }
                }
            }
        }
        i += 1;
    }
    assert(places@.take(i as int) =~= places@);
    mask
}

/// One bit per CRTC index that is allowed, as far as there are bits.
pub fn crtc_mask(allowed: &Vec<u32>, crtcs: &Vec<u32>) -> (mask: u32)
    ensures
        forall|bit: u32|
            bit < 32 ==> ((#[trigger] (mask >> bit)) & 1u32 == 1u32) == allowed_at(
                allowed@,
                crtcs@,
                bit as int,
            ),
{
    let mut mask: u32 = 0;
    let mut i: usize = 0;
    proof {
        assert(allowed@.take(0) =~= Seq::empty());
        assert forall|bit: u32| bit < 32 implies ((#[trigger] (mask >> bit)) & 1u32 == 1u32)
            == allowed_at(allowed@.take(0), crtcs@, bit as int) by {
            assert((0u32 >> bit) & 1u32 == 0u32) by (bit_vector);
        }
    }
    while i < allowed.len()
        invariant
            0 <= i <= allowed@.len(),
            forall|bit: u32|
                bit < 32 ==> ((#[trigger] (mask >> bit)) & 1u32 == 1u32) == allowed_at(
                    allowed@.take(i as int),
                    crtcs@,
                    bit as int,
                ),
        decreases allowed@.len() - i,
    {
        let ghost before = mask;
        let ghost had = allowed@.take(i as int);
        let ghost has = allowed@.take(i + 1);
        let id: u32 = allowed[i];
        let place: Option<usize> = place_of_crtc(crtcs, id);
        proof {
            assert(has =~= had.push(id));
        }
        if let Some(index) = place {
            if index < 32 {
                mask = mask | (1u32 << (index as u32));
            }
        }
        proof {
            assert forall|bit: u32| bit < 32 implies ((#[trigger] (mask >> bit)) & 1u32 == 1u32)
                == allowed_at(has, crtcs@, bit as int) by {
                assert(((before >> bit) & 1u32 == 1u32) == allowed_at(had, crtcs@, bit as int));
                if let Some(index) = place {
                    if index < 32 {
                        let shift = index as u32;
                        assert((((before | (1u32 << shift)) >> bit) & 1u32 == 1u32) == (bit == shift
                            || (before >> bit) & 1u32 == 1u32)) by (bit_vector)
                            requires
                                bit < 32,
                                shift < 32,
                        ;
                    }
                }
                if bit < crtcs@.len() {
                    let here = crtcs@[bit as int];
                    assert(has.contains(here) == (had.contains(here) || here == id)) by {
                        if had.contains(here) {
                            let k = choose|k: int| 0 <= k < had.len() && had[k] == here;
                            assert(has[k] == here);
                        }
                        if here == id {
                            assert(has[i as int] == here);
                        }
                        if has.contains(here) {
                            let k = choose|k: int| 0 <= k < has.len() && has[k] == here;
                            if k < i {
                                assert(had[k] == here);
                            }
                        }
                    }
                    if here == id && allowed_at(has, crtcs@, bit as int) {
                        assert(place is Some);
                        let found = place->Some_0;
                        if found < bit {
                            assert(crtcs@[found as int] != here);
                        } else if bit < found {
                            assert(crtcs@[bit as int] != id);
                        }
                    }
                }
            }
        }
        i += 1;
    }
    assert(allowed@.take(i as int) =~= allowed@);
    mask
}

/// A comment says nothing: a line reads the same with or without one.
pub proof fn law_comments_say_nothing(line: Seq<char>, comment: Seq<char>)
    requires
        !line.contains('#'),
    ensures
        said(line + seq!['#'] + comment) == said(line),
{
    let whole = line + seq!['#'] + comment;
    crate::text::lemma_before_first(whole, '#', line.len() as int);
    crate::text::lemma_before_first(line, '#', line.len() as int);
    assert(whole.take(line.len() as int) =~= line);
    assert(line.take(line.len() as int) =~= line);
}

// --- the output a scenario runs on -------------------------------------------

/// Where a scenario's frames go.
#[derive(Debug, Clone, Copy, PartialEq, Eq, Structural)]
pub struct OutputChoice {
    /// The CRTC.
    pub crtc_id: u32,
    /// Its place among the CRTCs.
    pub crtc_index: u32,
    /// The connector.
    pub connector_id: u32,
    /// Width of the mode.
    pub width: u32,
    /// Height of the mode.
    pub height: u32,
}

/// The place of the first connector that is connected and has a mode.
pub open spec fn first_usable(connectors: Seq<(u32, bool, Vec<(u32, u32)>)>) -> Option<int>
    decreases connectors.len(),
{
    if connectors.len() == 0 {
        None
    } else {
        match first_usable(connectors.drop_last()) {
            Some(place) => Some(place),
            None => if connectors.last().1 && connectors.last().2@.len() > 0 {
                Some(connectors.len() - 1)
            } else {
                None
            },
        }
    }
}

/// Whether some plane can feed a CRTC.
pub open spec fn some_plane_feeds(planes: Seq<PlaneCapabilities>, crtc_index: u32) -> bool {
    exists|i: int| 0 <= i < planes.len() && (#[trigger] planes[i]).feeds(crtc_index)
}

proof fn lemma_usable_is_stable(connectors: Seq<(u32, bool, Vec<(u32, u32)>)>, upto: int)
    requires
        0 <= upto <= connectors.len(),
        first_usable(connectors.take(upto)) is Some,
    ensures
        first_usable(connectors) == first_usable(connectors.take(upto)),
    decreases connectors.len(),
{
    if upto == connectors.len() {
        assert(connectors.take(upto) =~= connectors);
    } else {
        assert(connectors.drop_last().take(upto) =~= connectors.take(upto));
        lemma_usable_is_stable(connectors.drop_last(), upto);
    }
}

fn find_connector(connectors: &[(u32, bool, Vec<(u32, u32)>)]) -> (place: Option<usize>)
    ensures
        match (place, first_usable(connectors@)) {
            (Some(found), Some(place)) => found == place && found < connectors@.len()
                && connectors@[place].2@.len() > 0,
            (None, None) => true,
            _ => false,
        },
{
    let mut i: usize = 0;
    while i < connectors.len()
        invariant
            0 <= i <= connectors@.len(),
            first_usable(connectors@.take(i as int)) is None,
        decreases connectors@.len() - i,
    {
        let ghost next = connectors@.take(i + 1);
        assert(next.drop_last() =~= connectors@.take(i as int));
        if usable_connector(connectors[i].1, connectors[i].2.len()) {
            proof {
                lemma_usable_is_stable(connectors@, i + 1);
            }
            return Some(i);
        }
        i += 1;
    }
    assert(connectors@.take(connectors@.len() as int) =~= connectors@);
    None
}

fn any_plane_feeds(planes: &[PlaneCapabilities], crtc_index: u32) -> (fed: bool)
    ensures
        fed == some_plane_feeds(planes@, crtc_index),
{
    let mut i: usize = 0;
    while i < planes.len()
        invariant
            0 <= i <= planes@.len(),
            forall|j: int| 0 <= j < i ==> !(#[trigger] planes@[j]).feeds(crtc_index),
        decreases planes@.len() - i,
    {
        if planes[i].compatible_with_crtc(crtc_index) {
            return true;
        }
        i += 1;
    }
    false
}

/// Pick the output a scenario runs on: the first CRTC, and the first mode of the
/// first connected connector that has one.
///
/// `connectors` gives each one's id, whether it is connected, and the sizes of
/// its modes.
pub fn pick_output(
    crtcs: &[u32],
    connectors: &[(u32, bool, Vec<(u32, u32)>)],
    planes: &[PlaneCapabilities],
) -> (choice: Result<OutputChoice, String>)
    ensures
        match choice {
            Ok(choice) => {
                &&& crtcs@.len() > 0
                &&& first_usable(connectors@) matches Some(place)
                    && choice.connector_id == connectors@[place].0 && (choice.width, choice.height)
                    == connectors@[place].2@[0]
                &&& some_plane_feeds(planes@, 0)
                &&& choice.crtc_id == crtcs@[0]
                &&& choice.crtc_index == 0
            },
            Err(reason) => if crtcs@.len() == 0 {
                reason@ == "no crtc"@
            } else if first_usable(connectors@) is None {
                reason@ == "no connected connector with a mode"@
            } else {
                !some_plane_feeds(planes@, 0) && reason@ == "crtc has no compatible planes"@
            },
        },
{
    if crtcs.len() == 0 {
        return Err("no crtc".to_owned());
    }
    let place: usize = match find_connector(connectors) {
        Some(place) => place,
        None => {
            return Err("no connected connector with a mode".to_owned());
        },
    };
    if !any_plane_feeds(planes, 0) {
        return Err("crtc has no compatible planes".to_owned());
    }
    let (width, height) = connectors[place].2[0];
    Ok(
        OutputChoice {
            crtc_id: crtcs[0],
            crtc_index: 0,
            connector_id: connectors[place].0,
            width,
            height,
        },
    )
}

// --- what a script means ------------------------------------------------------

proof fn lemma_decimal_is_digits(value: nat)
    ensures
        decimal(value).len() > 0,
        '0' <= decimal(value)[0] <= '9',
        digits_value(decimal(value)) == Some(value),
    decreases value,
{
    if value < 10 {
        assert(digit_value(digit(value)) == Some(value));
        assert(decimal(value).last() == digit(value));
    } else {
        lemma_decimal_is_digits(value / 10);
        let text = decimal(value);
        assert(text.drop_last() =~= decimal(value / 10));
        assert(text[0] == decimal(value / 10)[0]);
        assert(digit_value(digit(value % 10)) == Some(value % 10));
        assert(text.last() == digit(value % 10));
    }
}

proof fn lemma_digits_only(text: Seq<char>, at: int)
    requires
        0 <= at < text.len(),
        !('0' <= text[at] <= '9'),
    ensures
        digits_value(text) is None,
    decreases text.len(),
{
    if at < text.len() - 1 {
        lemma_digits_only(text.drop_last(), at);
    }
}

/// A number reads back as it is written, with a sign or without, as long as it
/// fits.
pub proof fn law_numbers_read_back(value: nat)
    ensures
        value <= i32::MAX ==> signed_of(decimal(value)) == Some(value as int) && signed_of(
            seq!['+'] + decimal(value),
        ) == Some(value as int),
        value > i32::MAX ==> signed_of(decimal(value)) is None,
        value <= i32::MAX + 1 ==> signed_of(seq!['-'] + decimal(value)) == Some(-value),
        value > i32::MAX + 1 ==> signed_of(seq!['-'] + decimal(value)) is None,
        value <= u32::MAX ==> size_of_word(decimal(value)) == Some(value) && size_of_word(
            seq!['+'] + decimal(value),
        ) == Some(value),
        value > u32::MAX ==> size_of_word(decimal(value)) is None,
        size_of_word(seq!['-'] + decimal(value)) is None,
{
    lemma_decimal_is_digits(value);
    assert((seq!['+'] + decimal(value)).skip(1) =~= decimal(value));
    assert((seq!['-'] + decimal(value)).skip(1) =~= decimal(value));
    lemma_digits_only(seq!['-'] + decimal(value), 0);
}

/// A word with anything but digits behind its sign is no number, and neither is
/// one with no digit.
pub proof fn law_other_words_are_no_numbers(word: Seq<char>, at: int)
    ensures
        word.len() == 0 ==> signed_of(word) is None && size_of_word(word) is None,
        1 <= at < word.len() && !('0' <= word[at] <= '9') ==> signed_of(word) is None
            && size_of_word(word) is None,
        word.len() == 1 && !('0' <= word[0] <= '9') ==> signed_of(word) is None && size_of_word(
            word,
        ) is None,
        word.len() > 0 && word[0] != '-' && word[0] != '+' && !('0' <= word[0] <= '9')
            ==> signed_of(word) is None && size_of_word(word) is None,
{
    if 1 <= at < word.len() && !('0' <= word[at] <= '9') {
        lemma_digits_only(word, at);
        lemma_digits_only(word.skip(1), at - 1);
    }
    if word.len() > 0 && !('0' <= word[0] <= '9') {
        lemma_digits_only(word, 0);
    }
}

/// A line commits a frame, removes the layer it names, or adds one; a first word
/// that is none of the three is refused by name, and a line without a word says
/// nothing.
pub proof fn law_lines_say_what_their_words_say(parts: Seq<Seq<char>>)
    requires
        parts.len() > 0,
    ensures
        said_words(Seq::empty()) == Said::Nothing,
        parts[0] == "frame"@ ==> said_words(parts) == Said::Frame,
        parts[0] == "del"@ && parts.len() >= 2 ==> said_words(parts) == Said::Del(parts[1]),
        parts[0] == "del"@ && parts.len() == 1 ==> said_words(parts) == Said::Wrong(
            "del: missing name"@,
        ),
        parts[0] == "add"@ && parts.len() != 7 ==> said_words(parts) == Said::Wrong(
            "add: bad args"@,
        ),
        parts[0] != "frame"@ && parts[0] != "del"@ && parts[0] != "add"@ ==> said_words(parts)
            == Said::Wrong("unknown command: "@ + parts[0]),
{
    reveal_strlit("frame");
    reveal_strlit("del");
    reveal_strlit("add");
    assert("frame"@.len() == 5);
    assert("del"@.len() == 3);
    assert("add"@.len() == 3);
    assert("del"@[0] == 'd');
    assert("add"@[0] == 'a');
}

/// An `add` takes a name, a position, a place and a size, in that order, and
/// refuses the first word that is not the number it has to be.
pub proof fn law_adds_take_name_position_place_and_size(
    parts: Seq<Seq<char>>,
    zpos: int,
    x: int,
    y: int,
    w: nat,
    h: nat,
)
    requires
        parts.len() == 7,
        parts[0] == "add"@,
    ensures
        signed_of(parts[2]) == Some(zpos) && signed_of(parts[3]) == Some(x) && signed_of(parts[4])
            == Some(y) && size_of_word(parts[5]) == Some(w) && size_of_word(parts[6]) == Some(h)
            ==> said_words(parts) == Said::Add(parts[1], zpos, x, y, w, h),
        signed_of(parts[2]) is None ==> said_words(parts) == Said::Wrong(
            "add: bad number "@ + parts[2],
        ),
        signed_of(parts[2]) is Some && signed_of(parts[3]) is None ==> said_words(parts)
            == Said::Wrong("add: bad number "@ + parts[3]),
        signed_of(parts[2]) is Some && signed_of(parts[3]) is Some && signed_of(parts[4]) is None
            ==> said_words(parts) == Said::Wrong("add: bad number "@ + parts[4]),
        signed_of(parts[2]) is Some && signed_of(parts[3]) is Some && signed_of(parts[4]) is Some
            && size_of_word(parts[5]) is None ==> said_words(parts) == Said::Wrong(
            "add: bad size "@ + parts[5],
        ),
        signed_of(parts[2]) is Some && signed_of(parts[3]) is Some && signed_of(parts[4]) is Some
            && size_of_word(parts[5]) is Some && size_of_word(parts[6]) is None ==> said_words(
            parts,
        ) == Said::Wrong("add: bad size "@ + parts[6]),
{
    reveal_strlit("frame");
    reveal_strlit("del");
    reveal_strlit("add");
    assert("frame"@.len() == 5);
    assert("add"@.len() == 3);
    assert("del"@[0] == 'd');
    assert("add"@[0] == 'a');
    let args = parts.skip(1);
    assert(args[0] == parts[1] && args[1] == parts[2] && args[2] == parts[3] && args[3] == parts[4]
        && args[4] == parts[5] && args[5] == parts[6]);
}

/// A layer whose size is left out covers the mode; any other size is its own.
pub proof fn law_an_empty_size_is_the_mode(w: u32, h: u32, mode: (u32, u32), size: (u32, u32))
    requires
        call_ensures(layer_size, (w, h, mode), size),
    ensures
        w == 0 && h == 0 ==> size == mode,
        w != 0 || h != 0 ==> size.0 == w && size.1 == h,
{
}

/// The layer a script adds shows all of its buffer, unscaled, where the script
/// puts it.
pub proof fn law_a_scripted_layer_is_unscaled(
    zpos: i32,
    x: i32,
    y: i32,
    size: (u32, u32),
    params: DisplayParams,
)
    requires
        call_ensures(layer_display, (zpos, x, y, size), params),
    ensures
        params.src_rect.x == 0,
        params.src_rect.y == 0,
        params.src_rect.w == params.dst_rect.w == size.0,
        params.src_rect.h == params.dst_rect.h == size.1,
        params.dst_rect.x == x,
        params.dst_rect.y == y,
        zpos >= 0 ==> params.zpos == Some(zpos as u64),
        zpos < 0 ==> params.zpos == Some((-zpos) as u64),
{
}

/// The connector taken is the first that is connected and has a mode.
pub proof fn law_the_first_usable_connector_is_taken(
    connectors: Seq<(u32, bool, Vec<(u32, u32)>)>,
    at: int,
)
    ensures
        0 <= at < connectors.len() && connectors[at].1 && connectors[at].2@.len() > 0 && (forall|
            k: int,
        |
            0 <= k < at ==> !((#[trigger] connectors[k]).1 && connectors[k].2@.len() > 0))
            ==> first_usable(connectors) == Some(at),
        (forall|k: int|
            0 <= k < connectors.len() ==> !((#[trigger] connectors[k]).1
                && connectors[k].2@.len() > 0)) ==> first_usable(connectors) is None,
    decreases connectors.len(),
{
    if connectors.len() > 0 {
        let rest = connectors.drop_last();
        assert forall|k: int| 0 <= k < rest.len() implies #[trigger] rest[k] == connectors[k] by {}
        law_the_first_usable_connector_is_taken(rest, at);
    }
}

/// Output goes to the first CRTC and the first usable connector, in that
/// connector's first mode.
pub proof fn law_output_is_the_first_that_can_be_used(
    crtcs: &[u32],
    connectors: &[(u32, bool, Vec<(u32, u32)>)],
    planes: &[PlaneCapabilities],
    choice: OutputChoice,
    at: int,
)
    requires
        call_ensures(pick_output, (crtcs, connectors, planes), Ok(choice)),
        0 <= at < connectors@.len(),
        connectors@[at].1,
        connectors@[at].2@.len() > 0,
        forall|k: int|
            0 <= k < at ==> !((#[trigger] connectors@[k]).1 && connectors@[k].2@.len() > 0),
    ensures
        choice.crtc_id == crtcs@[0],
        choice.crtc_index == 0,
        choice.connector_id == connectors@[at].0,
        choice.width == connectors@[at].2@[0].0,
        choice.height == connectors@[at].2@[0].1,
{
    law_the_first_usable_connector_is_taken(connectors@, at);
}

/// A parsed line is the command its words say, argument by argument, and nothing
/// else.
pub proof fn law_a_parsed_line_is_what_it_says(
    parsed: Result<Option<Command>, String>,
    name: Seq<char>,
    zpos: int,
    x: int,
    y: int,
    w: nat,
    h: nat,
)
    ensures
        says(parsed, Said::Nothing) <==> parsed matches Ok(None),
        says(parsed, Said::Frame) ==> parsed matches Ok(Some(Command::Frame)),
        says(parsed, Said::Del(name)) ==> (parsed matches Ok(Some(Command::Del { name: named }))
            && named@ == name),
        says(parsed, Said::Add(name, zpos, x, y, w, h)) ==> (parsed matches Ok(
            Some(Command::Add { name: named, zpos: z, x: left, y: top, w: wide, h: high }),
        ) && named@ == name && z == zpos && left == x && top == y && wide == w && high == h),
        says(parsed, Said::Wrong(name)) ==> (parsed matches Err(why) && why@ == name),
{
}

/// A CRTC's bit is set exactly where its id is allowed and no CRTC before it has
/// that id.
pub proof fn law_the_first_crtc_of_an_id_is_allowed(
    allowed: Seq<u32>,
    crtcs: Seq<u32>,
    index: int,
    earlier: int,
)
    ensures
        allowed_at(allowed, crtcs, index) ==> 0 <= index < crtcs.len() && allowed.contains(
            crtcs[index],
        ),
        0 <= earlier < index < crtcs.len() && crtcs[earlier] == crtcs[index] ==> !allowed_at(
            allowed,
            crtcs,
            index,
        ),
        0 <= index < crtcs.len() && crtcs.no_duplicates() ==> (allowed_at(allowed, crtcs, index)
            <==> allowed.contains(crtcs[index])),
{
}

/// A CRTC can be used where one plane's mask has its bit.
pub proof fn law_one_plane_is_enough(planes: Seq<PlaneCapabilities>, crtc_index: u32, i: int)
    ensures
        0 <= i < planes.len() && crtc_index < 32 && (planes[i].possible_crtcs >> crtc_index) & 1u32
            == 1u32 ==> some_plane_feeds(planes, crtc_index),
        some_plane_feeds(planes, crtc_index) ==> exists|k: int|
            0 <= k < planes.len() && crtc_index < 32 && ((#[trigger] planes[k]).possible_crtcs
                >> crtc_index) & 1u32 == 1u32,
{
    if 0 <= i < planes.len() && crtc_index < 32 && (planes[i].possible_crtcs >> crtc_index) & 1u32
        == 1u32 {
        assert(planes[i].feeds(crtc_index));
    }
    if some_plane_feeds(planes, crtc_index) {
        let k = choose|k: int| 0 <= k < planes.len() && (#[trigger] planes[k]).feeds(crtc_index);
        assert((planes[k].possible_crtcs >> crtc_index) & 1u32 == 1u32);
    }
}

} // verus!
