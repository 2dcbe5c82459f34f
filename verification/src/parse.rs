use vstd::prelude::*;
use crate::types::{
    measures_view, notes_view, Attributes, AttributesView, Clef, Mesure, MesureView, Note, NoteView, Part,
    Pitch, ScorePartwise, Time,
};
use crate::xml::{str_equals, XmlElement, XmlElementView, XmlNode, XmlNodeView};

verus! {

/// The value of a decimal digit character.
pub open spec fn digit_value(c: char) -> int {
    c as int - '0' as int
}

/// Whether a character is an ASCII decimal digit.
pub open spec fn is_digit(c: char) -> bool {
    '0' <= c && c <= '9'
}

/// The value of a string of decimal digits, or `None` when some character is
/// not a digit (the empty string has the value 0).
pub open spec fn digits_value(s: Seq<char>) -> Option<int>
    decreases s.len(),
{
    if s.len() == 0 {
        Some(0)
    } else {
        match digits_value(s.drop_last()) {
            Some(v) => if is_digit(s.last()) {
                Some(10 * v + digit_value(s.last()))
            } else {
                None
            },
            None => None,
        }
    }
}

/// The text without a leading sign character `sign`, if it has one.
pub open spec fn without_sign(s: Seq<char>, sign: char) -> Seq<char> {
    if s.len() > 0 && s[0] == sign {
        s.drop_first()
    } else {
        s
    }
}

/// The `u8` that a text denotes as Rust reads one: an optional `+`, then one
/// or more decimal digits, of value at most 255.
pub open spec fn parse_u8(s: Seq<char>) -> Option<u8> {
    let digits = without_sign(s, '+');
    if digits.len() == 0 {
        None
    } else {
        match digits_value(digits) {
            Some(v) => if v <= 255 {
                Some(v as u8)
            } else {
                None
            },
            None => None,
        }
    }
}

/// The `i8` that a text denotes as Rust reads one: an optional `+` or `-`,
/// then one or more decimal digits, of value between -128 and 127.
pub open spec fn parse_i8(s: Seq<char>) -> Option<i8> {
    let negative = s.len() > 0 && s[0] == '-';
    let digits = if negative { s.drop_first() } else { without_sign(s, '+') };
    if digits.len() == 0 {
        None
    } else {
        match digits_value(digits) {
            Some(v) => {
                let x = if negative { -v } else { v };
                if -128 <= x <= 127 {
                    Some(x as i8)
                } else {
                    None
                }
            },
            None => None,
        }
    }
}

/// The value of a string of digits is never negative.
proof fn lemma_digits_value_nonneg(s: Seq<char>)
    ensures
        digits_value(s) matches Some(v) ==> v >= 0,
    decreases s.len(),
{
    if s.len() > 0 {
        lemma_digits_value_nonneg(s.drop_last());
    }
}

/// Extending a string of digits never lowers its value; a string with a
/// non-digit keeps one when extended.
proof fn lemma_digits_value_grows(s: Seq<char>, k: int)
    requires
        0 <= k <= s.len(),
    ensures
        digits_value(s.subrange(0, k)) is None ==> digits_value(s) is None,
        digits_value(s.subrange(0, k)) matches Some(a) ==> (digits_value(s) matches Some(b) ==> a <= b),
    decreases s.len() - k,
{
    if k < s.len() {
        lemma_digits_value_grows(s, k + 1);
        lemma_digits_value_nonneg(s.subrange(0, k));
        assert(s.subrange(0, k + 1).drop_last() =~= s.subrange(0, k));
    } else {
        assert(s.subrange(0, k) =~= s);
    }
}

/// Reads a natural number of at most `bound` from the characters of `s` from
/// position `start` on: `None` when there is none, a non-digit, or a value
/// above `bound`.
fn read_bounded_digits(s: &str, start: usize, bound: u32) -> (r: Option<u32>)
    requires
        start <= s@.len(),
        bound <= 1000,
    ensures
        r matches Some(v) ==> s@.len() > start && digits_value(s@.subrange(start as int, s@.len() as int)) == Some(
            v as int,
        ) && v <= bound,
        r is None ==> s@.len() == start || match digits_value(s@.subrange(start as int, s@.len() as int)) {
            Some(v) => v > bound,
            None => true,
        },
{
    let n = s.unicode_len();
    if n == start {
        return None;
    }
    let ghost digits = s@.subrange(start as int, n as int);
    let mut v: u32 = 0;
    let mut k = start;
    while k < n
        invariant
            n == s@.len(),
            start <= k <= n,
            start < n,
            digits == s@.subrange(start as int, n as int),
            v <= bound,
            bound <= 1000,
            digits_value(digits.subrange(0, k - start)) == Some(v as int),
        decreases n - k,
    {
        let c = s.get_char(k);
        proof {
            assert(digits.subrange(0, k + 1 - start).drop_last() =~= digits.subrange(0, k - start));
            assert(digits.subrange(0, k + 1 - start).last() == c);
        }
        if c < '0' || c > '9' {
            proof {
                lemma_digits_value_grows(digits, k + 1 - start);
            }
            return None;
        }
        let d = (c as u32) - ('0' as u32);
        v = v * 10 + d;
        if v > bound {
            proof {
                lemma_digits_value_grows(digits, k + 1 - start);
            }
            return None;
        }
        k = k + 1;
    }
    proof {
        assert(digits.subrange(0, n - start) =~= digits);
    }
    Some(v)
}

/// The `u8` a text denotes, as `parse_u8` says, or `None`.
pub fn parse_u8_exec(s: &str) -> (r: Option<u8>)
    ensures
        r == parse_u8(s@),
{
    let n = s.unicode_len();
    let start: usize = if n > 0 && s.get_char(0) == '+' { 1 } else { 0 };
    proof {
        let digits = without_sign(s@, '+');
        assert(digits =~= s@.subrange(start as int, s@.len() as int));
    }
    match read_bounded_digits(s, start, 255) {
        Some(v) => Some(v as u8),
        None => None,
    }
}

/// The `i8` a text denotes, as `parse_i8` says, or `None`.
pub fn parse_i8_exec(s: &str) -> (r: Option<i8>)
    ensures
        r == parse_i8(s@),
{
    let n = s.unicode_len();
    let negative = n > 0 && s.get_char(0) == '-';
    let start: usize = if n > 0 && (s.get_char(0) == '-' || s.get_char(0) == '+') { 1 } else { 0 };
    proof {
        let digits = if negative { s@.drop_first() } else { without_sign(s@, '+') };
        assert(digits =~= s@.subrange(start as int, s@.len() as int));
    }
    if negative {
        match read_bounded_digits(s, start, 128) {
            Some(v) => Some((0 - (v as i32)) as i8),
            None => None,
        }
    } else {
        match read_bounded_digits(s, start, 127) {
            Some(v) => Some(v as i8),
            None => None,
        }
    }
}

/// Reads a `u8` written in decimal.
pub fn string_to_u8(s: &str) -> (r: u8)
    requires
        parse_u8(s@) is Some,
    ensures
        Some(r) == parse_u8(s@),
{
    parse_u8_exec(s).unwrap()
}

/// Reads an `i8` written in decimal.
pub fn string_to_i8(s: &str) -> (r: i8)
    requires
        parse_i8(s@) is Some,
    ensures
        Some(r) == parse_i8(s@),
{
    parse_i8_exec(s).unwrap()
}


/// The text of the first child of `e`, when `e` has a first child and it is a
/// text node.
pub open spec fn first_text(e: XmlElementView) -> Option<Seq<char>> {
    if e.children.len() > 0 {
        match e.children[0] {
            XmlNodeView::Text(t) => Some(t),
            _ => None,
        }
    } else {
        None
    }
}

/// The `u8` written as the first text of `e`.
pub open spec fn text_u8(e: XmlElementView) -> Option<u8> {
    match first_text(e) {
        Some(t) => parse_u8(t),
        None => None,
    }
}

/// The `i8` written as the first text of `e`.
pub open spec fn text_i8(e: XmlElementView) -> Option<i8> {
    match first_text(e) {
        Some(t) => parse_i8(t),
        None => None,
    }
}

/// The first character of the first text of `e`.
pub open spec fn text_char(e: XmlElementView) -> Option<char> {
    match first_text(e) {
        Some(t) => if t.len() > 0 {
            Some(t[0])
        } else {
            None
        },
        None => None,
    }
}

/// Reads the children of an element in order, each of which must be an
/// element, through `step` from `init`; `None` as soon as a child is not an
/// element or `step` fails on it.
pub open spec fn fold_elements<S>(ch: Seq<XmlNodeView>, init: S, step: spec_fn(S, XmlElementView) -> Option<S>) -> Option<S>
    decreases ch.len(),
{
    if ch.len() == 0 {
        Some(init)
    } else {
        match fold_elements(ch.drop_last(), init, step) {
            Some(acc) => match ch.last() {
                XmlNodeView::Element(c) => step(acc, c),
                _ => None,
            },
            None => None,
        }
    }
}

/// One more child read by `fold_elements`.
proof fn lemma_fold_step<S>(ch: Seq<XmlNodeView>, init: S, step: spec_fn(S, XmlElementView) -> Option<S>, k: int)
    requires
        0 <= k < ch.len(),
    ensures
        fold_elements(ch.take(k + 1), init, step) == match fold_elements(ch.take(k), init, step) {
            Some(acc) => match ch[k] {
                XmlNodeView::Element(c) => step(acc, c),
                _ => None,
            },
            None => None,
        },
{
    assert(ch.take(k + 1).drop_last() =~= ch.take(k));
}

/// Once reading a prefix of the children fails, reading all of them fails.
proof fn lemma_fold_none<S>(ch: Seq<XmlNodeView>, init: S, step: spec_fn(S, XmlElementView) -> Option<S>, k: int)
    requires
        0 <= k <= ch.len(),
        fold_elements(ch.take(k), init, step) is None,
    ensures
        fold_elements(ch, init, step) is None,
    decreases ch.len() - k,
{
    if k < ch.len() {
        lemma_fold_step(ch, init, step, k);
        lemma_fold_none(ch, init, step, k + 1);
    } else {
        assert(ch.take(k) =~= ch);
    }
}

/// All children read by `fold_elements`.
proof fn lemma_fold_all<S>(ch: Seq<XmlNodeView>, init: S, step: spec_fn(S, XmlElementView) -> Option<S>)
    ensures
        fold_elements(ch.take(ch.len() as int), init, step) == fold_elements(ch, init, step),
{
    assert(ch.take(ch.len() as int) =~= ch);
}

/// The first text of an element, if its first child is a text node.
fn first_text_exec(e: &XmlElement) -> (r: Option<&String>)
    ensures
        match r {
            Some(t) => first_text(e@) == Some(t@),
            None => first_text(e@) is None,
        },
{
    if e.children.len() > 0 {
        match &e.children[0] {
            XmlNode::Text(t) => Some(t),
            _ => None,
        }
    } else {
        None
    }
}

/// The `u8` written as the first text of an element.
fn text_u8_exec(e: &XmlElement) -> (r: Option<u8>)
    ensures
        r == text_u8(e@),
{
    match first_text_exec(e) {
        Some(t) => parse_u8_exec(t.as_str()),
        None => None,
    }
}

/// The `i8` written as the first text of an element.
fn text_i8_exec(e: &XmlElement) -> (r: Option<i8>)
    ensures
        r == text_i8(e@),
{
    match first_text_exec(e) {
        Some(t) => parse_i8_exec(t.as_str()),
        None => None,
    }
}

/// The first character of the first text of an element.
fn text_char_exec(e: &XmlElement) -> (r: Option<char>)
    ensures
        r == text_char(e@),
{
    match first_text_exec(e) {
        Some(t) => if t.as_str().unicode_len() > 0 {
            Some(t.as_str().get_char(0))
        } else {
            None
        },
        None => None,
    }
}

/// How a child of a `time` element changes the time signature read so far.
pub open spec fn time_step(acc: Time, c: XmlElementView) -> Option<Time> {
    if c.name == "beats"@ {
        match text_u8(c) {
            Some(v) => Some(Time { beats: v, beat_type: acc.beat_type }),
            None => None,
        }
    } else if c.name == "beat-type"@ {
        match text_u8(c) {
            Some(v) => Some(Time { beats: acc.beats, beat_type: v }),
            None => None,
        }
    } else {
        Some(acc)
    }
}

/// `time_step` as a function value.
pub open spec fn time_steps() -> spec_fn(Time, XmlElementView) -> Option<Time> {
    |acc: Time, c: XmlElementView| time_step(acc, c)
}

/// The time signature a `time` element holds: `beats` and `beat-type`
/// children, 0 where absent.
pub open spec fn read_time(e: XmlElementView) -> Option<Time> {
    fold_elements(e.children, Time { beats: 0, beat_type: 0 }, time_steps())
}

/// Reads a `time` element, or `None` where `parsed_to_time` would fail.
fn try_read_time(parsed: &XmlElement) -> (r: Option<Time>)
    ensures
        r == read_time(parsed@),
{
    let ghost step = time_steps();
    let ghost init = Time { beats: 0, beat_type: 0 };
    let mut res = Time { beats: 0, beat_type: 0 };
    for k in 0..parsed.children.len()
        invariant
            step == time_steps(),
            init == (Time { beats: 0, beat_type: 0 }),
            fold_elements(parsed@.children.take(k as int), init, step) == Some(res),
    {
        proof {
            lemma_fold_step(parsed@.children, init, step, k as int);
        }
        match &parsed.children[k] {
            XmlNode::Element(child) => {
                proof {
                    assert(parsed@.children[k as int] == XmlNodeView::Element(child@));
                }
                if str_equals(child.name.as_str(), "beats") {
                    match text_u8_exec(child) {
                        Some(v) => res.beats = v,
                        None => {
                            proof {
                                lemma_fold_none(parsed@.children, init, step, k + 1);
                            }
                            return None;
                        },
                    }
                } else if str_equals(child.name.as_str(), "beat-type") {
                    match text_u8_exec(child) {
                        Some(v) => res.beat_type = v,
                        None => {
                            proof {
                                lemma_fold_none(parsed@.children, init, step, k + 1);
                            }
                            return None;
                        },
                    }
                }
            },
            _ => {
                proof {
                    lemma_fold_none(parsed@.children, init, step, k + 1);
                }
                return None;
            },
        }
    }
    proof {
        lemma_fold_all(parsed@.children, init, step);
    }
    Some(res)
}

/// Reads the time signature of a `time` element.
pub fn parsed_to_time(parsed: &XmlElement) -> (r: Time)
    requires
        read_time(parsed@) is Some,
    ensures
        Some(r) == read_time(parsed@),
{
    try_read_time(parsed).unwrap()
}


/// How a child of a `clef` element changes the clef read so far.
pub open spec fn clef_step(acc: Clef, c: XmlElementView) -> Option<Clef> {
    if c.name == "sign"@ {
        match text_char(c) {
            Some(ch) => Some(Clef { sign: ch }),
            None => None,
        }
    } else {
        Some(acc)
    }
}

/// `clef_step` as a function value.
pub open spec fn clef_steps() -> spec_fn(Clef, XmlElementView) -> Option<Clef> {
    |acc: Clef, c: XmlElementView| clef_step(acc, c)
}

/// The clef a `clef` element holds: the first character of its `sign`,
/// `'a'` where absent.
pub open spec fn read_clef(e: XmlElementView) -> Option<Clef> {
    fold_elements(e.children, Clef { sign: 'a' }, clef_steps())
}

/// Reads a `clef` element, or `None` where `parsed_to_clef` would fail.
fn try_read_clef(parsed: &XmlElement) -> (r: Option<Clef>)
    ensures
        r == read_clef(parsed@),
{
    let ghost init = Clef { sign: 'a' };
    let mut res = Clef { sign: 'a' };
    for k in 0..parsed.children.len()
        invariant
            init == (Clef { sign: 'a' }),
            fold_elements(parsed@.children.take(k as int), init, clef_steps()) == Some(res),
    {
        proof {
            lemma_fold_step(parsed@.children, init, clef_steps(), k as int);
        }
        match &parsed.children[k] {
            XmlNode::Element(child) => {
                proof {
                    assert(parsed@.children[k as int] == XmlNodeView::Element(child@));
                }
                if str_equals(child.name.as_str(), "sign") {
                    match text_char_exec(child) {
                        Some(ch) => res.sign = ch,
                        None => {
                            proof {
                                lemma_fold_none(parsed@.children, init, clef_steps(), k + 1);
                            }
                            return None;
                        },
                    }
                }
            },
            _ => {
                proof {
                    lemma_fold_none(parsed@.children, init, clef_steps(), k + 1);
                }
                return None;
            },
        }
    }
    proof {
        lemma_fold_all(parsed@.children, init, clef_steps());
    }
    Some(res)
}

/// Reads the clef of a `clef` element.
pub fn parsed_to_clef(parsed: &XmlElement) -> (r: Clef)
    requires
        read_clef(parsed@) is Some,
    ensures
        Some(r) == read_clef(parsed@),
{
    try_read_clef(parsed).unwrap()
}

/// How a child of a `pitch` element changes the pitch read so far.
pub open spec fn pitch_step(acc: Pitch, c: XmlElementView) -> Option<Pitch> {
    if c.name == "octave"@ {
        match text_u8(c) {
            Some(v) => Some(Pitch { octave: v, ..acc }),
            None => None,
        }
    } else if c.name == "step"@ {
        match text_char(c) {
            Some(ch) => Some(Pitch { step: ch, ..acc }),
            None => None,
        }
    } else if c.name == "alter"@ {
        match text_i8(c) {
            Some(v) => Some(Pitch { alter: Some(v), ..acc }),
            None => None,
        }
    } else {
        Some(acc)
    }
}

/// `pitch_step` as a function value.
pub open spec fn pitch_steps() -> spec_fn(Pitch, XmlElementView) -> Option<Pitch> {
    |acc: Pitch, c: XmlElementView| pitch_step(acc, c)
}

/// The pitch before any child of a `pitch` element is read.
pub open spec fn default_pitch() -> Pitch {
    Pitch { step: 'a', octave: 0, alter: None }
}

/// The pitch a `pitch` element holds: its `octave`, the first character of
/// its `step` and its `alter`, with octave 0, step `'a'` and no alteration
/// where absent.
pub open spec fn read_pitch(e: XmlElementView) -> Option<Pitch> {
    fold_elements(e.children, default_pitch(), pitch_steps())
}

/// Reads a `pitch` element, or `None` where `parsed_to_pitch` would fail.
fn try_read_pitch(parsed: &XmlElement) -> (r: Option<Pitch>)
    ensures
        r == read_pitch(parsed@),
{
    let mut res = Pitch { octave: 0, step: 'a', alter: None };
    for k in 0..parsed.children.len()
        invariant
            fold_elements(parsed@.children.take(k as int), default_pitch(), pitch_steps()) == Some(res),
    {
        proof {
            lemma_fold_step(parsed@.children, default_pitch(), pitch_steps(), k as int);
        }
        match &parsed.children[k] {
            XmlNode::Element(child) => {
                proof {
                    assert(parsed@.children[k as int] == XmlNodeView::Element(child@));
                }
                let ok = if str_equals(child.name.as_str(), "octave") {
                    match text_u8_exec(child) {
                        Some(v) => {
                            res.octave = v;
                            true
                        },
                        None => false,
                    }
                } else if str_equals(child.name.as_str(), "step") {
                    match text_char_exec(child) {
                        Some(ch) => {
                            res.step = ch;
                            true
                        },
                        None => false,
                    }
                } else if str_equals(child.name.as_str(), "alter") {
                    match text_i8_exec(child) {
                        Some(v) => {
                            res.alter = Some(v);
                            true
                        },
                        None => false,
                    }
                } else {
                    true
                };
                if !ok {
                    proof {
                        lemma_fold_none(parsed@.children, default_pitch(), pitch_steps(), k + 1);
                    }
                    return None;
                }
            },
            _ => {
                proof {
                    lemma_fold_none(parsed@.children, default_pitch(), pitch_steps(), k + 1);
                }
                return None;
            },
        }
    }
    proof {
        lemma_fold_all(parsed@.children, default_pitch(), pitch_steps());
    }
    Some(res)
}

/// Reads the pitch of a `pitch` element.
pub fn parsed_to_pitch(parsed: &XmlElement) -> (r: Pitch)
    requires
        read_pitch(parsed@) is Some,
    ensures
        Some(r) == read_pitch(parsed@),
{
    try_read_pitch(parsed).unwrap()
}


/// How a child of a `note` element changes the note read so far and the flag
/// saying that a `rest` child was seen; a `pitch` child read after a `rest`
/// leaves the note without pitch.
pub open spec fn note_step(acc: (NoteView, bool), c: XmlElementView) -> Option<(NoteView, bool)> {
    let (n, silence) = acc;
    if c.name == "duration"@ {
        match text_u8(c) {
            Some(v) => Some((NoteView { duration: v, ..n }, silence)),
            None => None,
        }
    } else if c.name == "type"@ {
        match first_text(c) {
            Some(t) => Some((NoteView { typee: t, ..n }, silence)),
            None => None,
        }
    } else if c.name == "rest"@ {
        Some((n, true))
    } else if c.name == "voice"@ {
        match text_u8(c) {
            Some(v) => Some((NoteView { voice: v, ..n }, silence)),
            None => None,
        }
    } else if c.name == "staff"@ {
        match text_u8(c) {
            Some(v) => Some((NoteView { staff: Some(v), ..n }, silence)),
            None => None,
        }
    } else if c.name == "dot"@ {
        Some((NoteView { dot: true, ..n }, silence))
    } else if c.name == "chord"@ {
        Some((NoteView { is_chord: true, ..n }, silence))
    } else if c.name == "pitch"@ {
        if silence {
            Some((NoteView { pitch: None, ..n }, silence))
        } else {
            match read_pitch(c) {
                Some(p) => Some((NoteView { pitch: Some(p), ..n }, silence)),
                None => None,
            }
        }
    } else {
        Some(acc)
    }
}

/// `note_step` as a function value.
pub open spec fn note_steps() -> spec_fn((NoteView, bool), XmlElementView) -> Option<(NoteView, bool)> {
    |acc: (NoteView, bool), c: XmlElementView| note_step(acc, c)
}

/// The note before any child of a `note` element is read.
pub open spec fn default_note() -> NoteView {
    NoteView {
        pitch: None,
        duration: 0,
        typee: Seq::empty(),
        voice: 1,
        staff: None,
        dot: false,
        is_chord: false,
    }
}

/// The note a `note` element holds: its `duration`, `type` text, `voice`,
/// `staff`, `dot` and `chord` flags and `pitch` (none when a `rest` child
/// comes before it); duration 0, empty type, voice 1, no staff, no pitch and
/// no flag where absent.
pub open spec fn read_note(e: XmlElementView) -> Option<NoteView> {
    match fold_elements(e.children, (default_note(), false), note_steps()) {
        Some(st) => Some(st.0),
        None => None,
    }
}

/// Reads a `note` element, or `None` where `parsed_to_note` would fail.
fn try_read_note(parsed: &XmlElement) -> (r: Option<Note>)
    ensures
        match r {
            Some(n) => read_note(parsed@) == Some(n@),
            None => read_note(parsed@) is None,
        },
{
    let mut res = Note {
        duration: 0,
        typee: String::new(),
        pitch: None,
        voice: 1,
        staff: None,
        dot: false,
        is_chord: false,
    };
    let mut is_silence = false;
    proof {
        assert(res@ =~= default_note());
    }
    for k in 0..parsed.children.len()
        invariant
            fold_elements(parsed@.children.take(k as int), (default_note(), false), note_steps()) == Some(
                (res@, is_silence),
            ),
    {
        proof {
            lemma_fold_step(parsed@.children, (default_note(), false), note_steps(), k as int);
        }
        match &parsed.children[k] {
            XmlNode::Element(child) => {
                proof {
                    assert(parsed@.children[k as int] == XmlNodeView::Element(child@));
                }
                let ghost before = res@;
                let ok = if str_equals(child.name.as_str(), "duration") {
                    match text_u8_exec(child) {
                        Some(v) => {
                            res.duration = v;
                            true
                        },
                        None => false,
                    }
                } else if str_equals(child.name.as_str(), "type") {
                    match first_text_exec(child) {
                        Some(t) => {
                            res.typee = t.clone();
                            true
                        },
                        None => false,
                    }
                } else if str_equals(child.name.as_str(), "rest") {
                    is_silence = true;
                    true
                } else if str_equals(child.name.as_str(), "voice") {
                    match text_u8_exec(child) {
                        Some(v) => {
                            res.voice = v;
                            true
                        },
                        None => false,
                    }
                } else if str_equals(child.name.as_str(), "staff") {
                    match text_u8_exec(child) {
                        Some(v) => {
                            res.staff = Some(v);
                            true
                        },
                        None => false,
                    }
                } else if str_equals(child.name.as_str(), "dot") {
                    res.dot = true;
                    true
                } else if str_equals(child.name.as_str(), "chord") {
                    res.is_chord = true;
                    true
                } else if str_equals(child.name.as_str(), "pitch") {
                    if is_silence {
                        res.pitch = None;
                        true
                    } else {
                        match try_read_pitch(child) {
                            Some(p) => {
                                res.pitch = Some(p);
                                true
                            },
                            None => false,
                        }
                    }
                } else {
                    true
                };
                if !ok {
                    proof {
                        lemma_fold_none(parsed@.children, (default_note(), false), note_steps(), k + 1);
                    }
                    return None;
                }
            },
            _ => {
                proof {
                    lemma_fold_none(parsed@.children, (default_note(), false), note_steps(), k + 1);
                }
                return None;
            },
        }
    }
    proof {
        lemma_fold_all(parsed@.children, (default_note(), false), note_steps());
    }
    Some(res)
}

/// Reads the note of a `note` element.
pub fn parsed_to_note(parsed: &XmlElement) -> (r: Note)
    requires
        read_note(parsed@) is Some,
    ensures
        read_note(parsed@) == Some(r@),
{
    try_read_note(parsed).unwrap()
}

/// How a child of a `backup` element changes the step back read so far.
pub open spec fn backup_step(acc: NoteView, c: XmlElementView) -> Option<NoteView> {
    if c.name == "duration"@ {
        match text_u8(c) {
            Some(v) => Some(NoteView { duration: v, ..acc }),
            None => None,
        }
    } else {
        Some(acc)
    }
}

/// `backup_step` as a function value.
pub open spec fn backup_steps() -> spec_fn(NoteView, XmlElementView) -> Option<NoteView> {
    |acc: NoteView, c: XmlElementView| backup_step(acc, c)
}

/// The note that stands for a `backup` before its children are read.
pub open spec fn default_backup() -> NoteView {
    NoteView {
        pitch: None,
        duration: 0,
        typee: "backup"@,
        voice: 1,
        staff: None,
        dot: false,
        is_chord: false,
    }
}

/// The note that stands for a `backup` element: of type `backup`, with the
/// element's `duration` (0 where absent), voice 1 and nothing else.
pub open spec fn read_backup(e: XmlElementView) -> Option<NoteView> {
    fold_elements(e.children, default_backup(), backup_steps())
}

/// Reads a `backup` element, or `None` where `parsed_to_backup` would fail.
fn try_read_backup(parsed: &XmlElement) -> (r: Option<Note>)
    ensures
        match r {
            Some(n) => read_backup(parsed@) == Some(n@),
            None => read_backup(parsed@) is None,
        },
{
    let mut res = Note {
        duration: 0,
        typee: "backup".to_owned(),
        pitch: None,
        voice: 1,
        staff: None,
        dot: false,
        is_chord: false,
    };
    proof {
        assert(res@ =~= default_backup());
    }
    for k in 0..parsed.children.len()
        invariant
            fold_elements(parsed@.children.take(k as int), default_backup(), backup_steps()) == Some(res@),
    {
        proof {
            lemma_fold_step(parsed@.children, default_backup(), backup_steps(), k as int);
        }
        match &parsed.children[k] {
            XmlNode::Element(child) => {
                proof {
                    assert(parsed@.children[k as int] == XmlNodeView::Element(child@));
                }
                if str_equals(child.name.as_str(), "duration") {
                    match text_u8_exec(child) {
                        Some(v) => res.duration = v,
                        None => {
                            proof {
                                lemma_fold_none(parsed@.children, default_backup(), backup_steps(), k + 1);
                            }
                            return None;
                        },
                    }
                }
            },
            _ => {
                proof {
                    lemma_fold_none(parsed@.children, default_backup(), backup_steps(), k + 1);
                }
                return None;
            },
        }
    }
    proof {
        lemma_fold_all(parsed@.children, default_backup(), backup_steps());
    }
    Some(res)
}

/// Reads the note that stands for a `backup` element.
pub fn parsed_to_backup(parsed: &XmlElement) -> (r: Note)
    requires
        read_backup(parsed@) is Some,
    ensures
        read_backup(parsed@) == Some(r@),
{
    try_read_backup(parsed).unwrap()
}


/// The key a `key` element holds: the `i8` written in the first text of its
/// first child, which must be an element.
pub open spec fn read_key(c: XmlElementView) -> Option<i8> {
    if c.children.len() > 0 {
        match c.children[0] {
            XmlNodeView::Element(f) => text_i8(f),
            _ => None,
        }
    } else {
        None
    }
}

/// Reads a `key` element, or `None` where it cannot be read.
fn try_read_key(c: &XmlElement) -> (r: Option<i8>)
    ensures
        r == read_key(c@),
{
    if c.children.len() > 0 {
        match &c.children[0] {
            XmlNode::Element(f) => text_i8_exec(f),
            _ => None,
        }
    } else {
        None
    }
}

/// How a child of an `attributes` element changes the attributes read so far.
pub open spec fn attributes_step(acc: AttributesView, c: XmlElementView) -> Option<AttributesView> {
    if c.name == "divisions"@ {
        match text_u8(c) {
            Some(v) => Some(AttributesView { divisions: v, ..acc }),
            None => None,
        }
    } else if c.name == "time"@ {
        match read_time(c) {
            Some(t) => Some(AttributesView { time: t, ..acc }),
            None => None,
        }
    } else if c.name == "clef"@ {
        match read_clef(c) {
            Some(cl) => Some(AttributesView { clef: acc.clef.push(cl), ..acc }),
            None => None,
        }
    } else if c.name == "staves"@ {
        match text_u8(c) {
            Some(v) => Some(AttributesView { staves: Some(v), ..acc }),
            None => None,
        }
    } else if c.name == "key"@ {
        match read_key(c) {
            Some(v) => Some(AttributesView { key: v, ..acc }),
            None => None,
        }
    } else {
        Some(acc)
    }
}

/// `attributes_step` as a function value.
pub open spec fn attributes_steps() -> spec_fn(AttributesView, XmlElementView) -> Option<AttributesView> {
    |acc: AttributesView, c: XmlElementView| attributes_step(acc, c)
}

/// The attributes before any child of an `attributes` element is read.
pub open spec fn default_attributes() -> AttributesView {
    AttributesView {
        divisions: 0,
        clef: Seq::empty(),
        time: Time { beats: 0, beat_type: 0 },
        staves: None,
        key: 0,
    }
}

/// The attributes an `attributes` element holds: its `divisions`, `time`,
/// `staves` and `key`, and its `clef` children in order; 0, a 0/0 time, no
/// staves and no clef where absent.
pub open spec fn read_attributes(e: XmlElementView) -> Option<AttributesView> {
    fold_elements(e.children, default_attributes(), attributes_steps())
}

/// Reads an `attributes` element, or `None` where `parsed_to_attributes`
/// would fail.
fn try_read_attributes(parsed: &XmlElement) -> (r: Option<Attributes>)
    ensures
        match r {
            Some(a) => read_attributes(parsed@) == Some(a@),
            None => read_attributes(parsed@) is None,
        },
{
    let time = Time { beats: 0, beat_type: 0 };
    let mut res = Attributes { divisions: 0, clef: Vec::new(), time: time, staves: None, key: 0 };
    proof {
        assert(res@ =~= default_attributes());
    }
    for k in 0..parsed.children.len()
        invariant
            fold_elements(parsed@.children.take(k as int), default_attributes(), attributes_steps()) == Some(
                res@,
            ),
    {
        proof {
            lemma_fold_step(parsed@.children, default_attributes(), attributes_steps(), k as int);
        }
        match &parsed.children[k] {
            XmlNode::Element(child) => {
                proof {
                    assert(parsed@.children[k as int] == XmlNodeView::Element(child@));
                }
                let ghost before = res@;
                let ok = if str_equals(child.name.as_str(), "divisions") {
                    match text_u8_exec(child) {
                        Some(v) => {
                            res.divisions = v;
                            true
                        },
                        None => false,
                    }
                } else if str_equals(child.name.as_str(), "time") {
                    match try_read_time(child) {
                        Some(t) => {
                            res.time = t;
                            true
                        },
                        None => false,
                    }
                } else if str_equals(child.name.as_str(), "clef") {
                    match try_read_clef(child) {
                        Some(cl) => {
                            res.clef.push(cl);
                            true
                        },
                        None => false,
                    }
                } else if str_equals(child.name.as_str(), "staves") {
                    match text_u8_exec(child) {
                        Some(v) => {
                            res.staves = Some(v);
                            true
                        },
                        None => false,
                    }
                } else if str_equals(child.name.as_str(), "key") {
                    match try_read_key(child) {
                        Some(v) => {
                            res.key = v;
                            true
                        },
                        None => false,
                    }
                } else {
                    true
                };
                if !ok {
                    proof {
                        lemma_fold_none(parsed@.children, default_attributes(), attributes_steps(), k + 1);
                    }
                    return None;
                }
                proof {
                    assert(attributes_step(before, child@) == Some(res@));
                }
            },
            _ => {
                proof {
                    lemma_fold_none(parsed@.children, default_attributes(), attributes_steps(), k + 1);
                }
                return None;
            },
        }
    }
    proof {
        lemma_fold_all(parsed@.children, default_attributes(), attributes_steps());
    }
    Some(res)
}

/// Reads the attributes of an `attributes` element.
pub fn parsed_to_attributes(parsed: &XmlElement) -> (r: Attributes)
    requires
        read_attributes(parsed@) is Some,
    ensures
        read_attributes(parsed@) == Some(r@),
{
    try_read_attributes(parsed).unwrap()
}

/// How a child of a `measure` element changes the measure read so far:
/// `attributes` replace the attributes, `note` and `backup` children add a
/// note.
pub open spec fn measure_step(acc: MesureView, c: XmlElementView) -> Option<MesureView> {
    if c.name == "attributes"@ {
        match read_attributes(c) {
            Some(a) => Some(MesureView { attributes: Some(a), ..acc }),
            None => None,
        }
    } else if c.name == "note"@ {
        match read_note(c) {
            Some(n) => Some(MesureView { notes: acc.notes.push(n), ..acc }),
            None => None,
        }
    } else if c.name == "backup"@ {
        match read_backup(c) {
            Some(n) => Some(MesureView { notes: acc.notes.push(n), ..acc }),
            None => None,
        }
    } else {
        Some(acc)
    }
}

/// `measure_step` as a function value.
pub open spec fn measure_steps() -> spec_fn(MesureView, XmlElementView) -> Option<MesureView> {
    |acc: MesureView, c: XmlElementView| measure_step(acc, c)
}

/// The measure before any child of a `measure` element is read.
pub open spec fn default_measure() -> MesureView {
    MesureView { attributes: None, notes: Seq::empty() }
}

/// The measure a `measure` element holds: its last `attributes`, and its
/// `note` and `backup` children in order.
pub open spec fn read_measure(e: XmlElementView) -> Option<MesureView> {
    fold_elements(e.children, default_measure(), measure_steps())
}

/// Reads a `measure` element, or `None` where `parsed_to_measure` would fail.
fn try_read_measure(parsed: &XmlElement) -> (r: Option<Mesure>)
    ensures
        match r {
            Some(m) => read_measure(parsed@) == Some(m@),
            None => read_measure(parsed@) is None,
        },
{
    let mut res = Mesure { attributes: None, notes: Vec::new() };
    proof {
        assert(res@.notes =~= Seq::<NoteView>::empty());
    }
    for k in 0..parsed.children.len()
        invariant
            fold_elements(parsed@.children.take(k as int), default_measure(), measure_steps()) == Some(res@),
    {
        proof {
            lemma_fold_step(parsed@.children, default_measure(), measure_steps(), k as int);
        }
        match &parsed.children[k] {
            XmlNode::Element(child) => {
                proof {
                    assert(parsed@.children[k as int] == XmlNodeView::Element(child@));
                }
                let ghost before = res@;
                let ok = if str_equals(child.name.as_str(), "attributes") {
                    match try_read_attributes(child) {
                        Some(a) => {
                            res.attributes = Some(a);
                            true
                        },
                        None => false,
                    }
                } else if str_equals(child.name.as_str(), "note") {
                    match try_read_note(child) {
                        Some(n) => {
                            res.notes.push(n);
                            proof {
                                assert(notes_view(res.notes@) =~= before.notes.push(n@));
                            }
                            true
                        },
                        None => false,
                    }
                } else if str_equals(child.name.as_str(), "backup") {
                    match try_read_backup(child) {
                        Some(n) => {
                            res.notes.push(n);
                            proof {
                                assert(notes_view(res.notes@) =~= before.notes.push(n@));
                            }
                            true
                        },
                        None => false,
                    }
                } else {
                    true
                };
                if !ok {
                    proof {
                        lemma_fold_none(parsed@.children, default_measure(), measure_steps(), k + 1);
                    }
                    return None;
                }
                proof {
                    assert(measure_step(before, child@) == Some(res@));
                }
            },
            _ => {
                proof {
                    lemma_fold_none(parsed@.children, default_measure(), measure_steps(), k + 1);
                }
                return None;
            },
        }
    }
    proof {
        lemma_fold_all(parsed@.children, default_measure(), measure_steps());
    }
    Some(res)
}

/// Reads the measure of a `measure` element.
pub fn parsed_to_measure(parsed: &XmlElement) -> (r: Mesure)
    requires
        read_measure(parsed@) is Some,
    ensures
        read_measure(parsed@) == Some(r@),
{
    try_read_measure(parsed).unwrap()
}

/// How a child of a `part` element, a measure, extends the part read so far.
pub open spec fn part_step(acc: Seq<MesureView>, c: XmlElementView) -> Option<Seq<MesureView>> {
    match read_measure(c) {
        Some(m) => Some(acc.push(m)),
        None => None,
    }
}

/// `part_step` as a function value.
pub open spec fn part_steps() -> spec_fn(Seq<MesureView>, XmlElementView) -> Option<Seq<MesureView>> {
    |acc: Seq<MesureView>, c: XmlElementView| part_step(acc, c)
}

/// The measures a `part` element holds: every child, read as a measure.
pub open spec fn read_part(e: XmlElementView) -> Option<Seq<MesureView>> {
    fold_elements(e.children, Seq::empty(), part_steps())
}

/// Reads a `part` element, or `None` where `parsed_to_part` would fail.
fn try_read_part(parsed: &XmlElement) -> (r: Option<Part>)
    ensures
        match r {
            Some(p) => read_part(parsed@) == Some(p@),
            None => read_part(parsed@) is None,
        },
{
    let mut res = Part { measures: Vec::new() };
    proof {
        assert(res@ =~= Seq::<MesureView>::empty());
    }
    for k in 0..parsed.children.len()
        invariant
            fold_elements(parsed@.children.take(k as int), Seq::empty(), part_steps()) == Some(res@),
    {
        proof {
            lemma_fold_step(parsed@.children, Seq::empty(), part_steps(), k as int);
        }
        match &parsed.children[k] {
            XmlNode::Element(child) => {
                proof {
                    assert(parsed@.children[k as int] == XmlNodeView::Element(child@));
                }
                let ghost before = res@;
                match try_read_measure(child) {
                    Some(m) => {
                        res.measures.push(m);
                        proof {
                            assert(measures_view(res.measures@) =~= before.push(m@));
                        }
                    },
                    None => {
                        proof {
                            lemma_fold_none(parsed@.children, Seq::empty(), part_steps(), k + 1);
                        }
                        return None;
                    },
                }
            },
            _ => {
                proof {
                    lemma_fold_none(parsed@.children, Seq::empty(), part_steps(), k + 1);
                }
                return None;
            },
        }
    }
    proof {
        lemma_fold_all(parsed@.children, Seq::empty(), part_steps());
    }
    Some(res)
}

/// Reads the measures of a `part` element.
pub fn parsed_to_part(parsed: &XmlElement) -> (r: Part)
    requires
        read_part(parsed@) is Some,
    ensures
        read_part(parsed@) == Some(r@),
{
    try_read_part(parsed).unwrap()
}

/// How a child of the document's root extends the score read so far: a
/// `part` element adds a part, any other element is skipped.
pub open spec fn score_step(acc: Seq<Seq<MesureView>>, c: XmlElementView) -> Option<Seq<Seq<MesureView>>> {
    if c.name == "part"@ {
        match read_part(c) {
            Some(p) => Some(acc.push(p)),
            None => None,
        }
    } else {
        Some(acc)
    }
}

/// `score_step` as a function value.
pub open spec fn score_steps() -> spec_fn(Seq<Seq<MesureView>>, XmlElementView) -> Option<Seq<Seq<MesureView>>> {
    |acc: Seq<Seq<MesureView>>, c: XmlElementView| score_step(acc, c)
}

/// The score a document's root holds: its `part` children in order; `None`
/// when a child of the root is not an element or a part cannot be read.
pub open spec fn read_score(root: XmlElementView) -> Option<Seq<Seq<MesureView>>> {
    fold_elements(root.children, Seq::empty(), score_steps())
}

/// Reads the score held by a document's root element, or `None` when it
/// cannot be read.
pub fn parse_score(root: &XmlElement) -> (r: Option<ScorePartwise>)
    ensures
        match r {
            Some(sc) => read_score(root@) == Some(sc@),
            None => read_score(root@) is None,
        },
{
    let mut res = ScorePartwise { parts: Vec::new() };
    proof {
        assert(res@ =~= Seq::<Seq<MesureView>>::empty());
    }
    for k in 0..root.children.len()
        invariant
            fold_elements(root@.children.take(k as int), Seq::empty(), score_steps()) == Some(res@),
    {
        proof {
            lemma_fold_step(root@.children, Seq::empty(), score_steps(), k as int);
        }
        match &root.children[k] {
            XmlNode::Element(child) => {
                proof {
                    assert(root@.children[k as int] == XmlNodeView::Element(child@));
                }
                let ghost before = res@;
                if str_equals(child.name.as_str(), "part") {
                    match try_read_part(child) {
                        Some(p) => {
                            res.parts.push(p);
                            proof {
                                assert(res@ =~= before.push(p@));
                            }
                        },
                        None => {
                            proof {
                                lemma_fold_none(root@.children, Seq::empty(), score_steps(), k + 1);
                            }
                            return None;
                        },
                    }
                }
            },
            _ => {
                proof {
                    lemma_fold_none(root@.children, Seq::empty(), score_steps(), k + 1);
                }
                return None;
            },
        }
    }
    proof {
        lemma_fold_all(root@.children, Seq::empty(), score_steps());
    }
    Some(res)
}

/// A child of a `measure` element that reading the measure accepts: an
/// element, readable as attributes, a note or a backup where it is named so.
pub open spec fn measure_child_readable(n: XmlNodeView) -> bool {
    match n {
        XmlNodeView::Element(c) => {
            &&& c.name == "attributes"@ ==> read_attributes(c) is Some
            &&& c.name == "note"@ ==> read_note(c) is Some
            &&& c.name == "backup"@ ==> read_backup(c) is Some
        },
        _ => false,
    }
}

/// The notes that the children of a measure give, in order: a `note` child
/// read as a note, a `backup` child read as a backup; other children give none.
pub open spec fn measure_children_notes(ch: Seq<XmlNodeView>) -> Seq<NoteView>
    decreases ch.len(),
{
    if ch.len() == 0 {
        Seq::empty()
    } else {
        let rest = measure_children_notes(ch.drop_last());
        match ch.last() {
            XmlNodeView::Element(c) => if c.name == "note"@ {
                rest.push(read_note(c).unwrap())
            } else if c.name == "backup"@ {
                rest.push(read_backup(c).unwrap())
            } else {
                rest
            },
            _ => rest,
        }
    }
}

/// The attributes of the last `attributes` child of a measure, if it has one.
pub open spec fn last_attributes(ch: Seq<XmlNodeView>) -> Option<AttributesView>
    decreases ch.len(),
{
    if ch.len() == 0 {
        None
    } else {
        match ch.last() {
            XmlNodeView::Element(c) => if c.name == "attributes"@ {
                read_attributes(c)
            } else {
                last_attributes(ch.drop_last())
            },
            _ => last_attributes(ch.drop_last()),
        }
    }
}

/// Reading a measure succeeds exactly when every child is an element and each
/// `attributes`, `note` and `backup` child can be read; the measure then has
/// the attributes of its last `attributes` child (none without one) and, in
/// document order, a note for each `note` child and a backup for each
/// `backup` child; other children are skipped.
pub proof fn lemma_read_measure_in_order(ch: Seq<XmlNodeView>)
    ensures
        fold_elements(ch, default_measure(), measure_steps()) is Some <==> forall|k: int|
            0 <= k < ch.len() ==> measure_child_readable(#[trigger] ch[k]),
        fold_elements(ch, default_measure(), measure_steps()) is Some ==> fold_elements(
            ch,
            default_measure(),
            measure_steps(),
        ) == Some(MesureView { attributes: last_attributes(ch), notes: measure_children_notes(ch) }),
    decreases ch.len(),
{
    if ch.len() > 0 {
        let p = ch.drop_last();
        lemma_read_measure_in_order(p);
        assert forall|k: int| 0 <= k < p.len() implies #[trigger] p[k] == ch[k] by {}
        if !measure_child_readable(ch.last()) {
            assert(!measure_child_readable(ch[ch.len() - 1]));
        }
        assert(ch.drop_last() == p);
        if let Some(acc) = fold_elements(p, default_measure(), measure_steps()) {
            assert(acc == MesureView { attributes: last_attributes(p), notes: measure_children_notes(p) });
            if let XmlNodeView::Element(c) = ch.last() {
                assert(fold_elements(ch, default_measure(), measure_steps()) == measure_step(acc, c));
                if c.name == "attributes"@ {
                    assert(c.name != "note"@ && c.name != "backup"@) by {
                        reveal_strlit("attributes");
                        reveal_strlit("note");
                        reveal_strlit("backup");
                        assert("attributes"@.len() != "note"@.len());
                        assert("attributes"@.len() != "backup"@.len());
                    }
                } else if c.name == "note"@ {
                    assert(c.name != "backup"@) by {
                        reveal_strlit("note");
                        reveal_strlit("backup");
                        assert("note"@.len() != "backup"@.len());
                    }
                    if let Some(n) = read_note(c) {
                        assert(measure_children_notes(ch) == measure_children_notes(p).push(n));
                    }
                } else if c.name == "backup"@ {
                    if let Some(n) = read_backup(c) {
                        assert(measure_children_notes(ch) == measure_children_notes(p).push(n));
                    }
                }
            } else {
                assert(fold_elements(ch, default_measure(), measure_steps()) is None);
            }
        } else {
            assert(fold_elements(ch, default_measure(), measure_steps()) is None);
        }
        if forall|k: int| 0 <= k < p.len() ==> measure_child_readable(#[trigger] p[k]) {
            if measure_child_readable(ch.last()) {
                assert forall|k: int| 0 <= k < ch.len() implies measure_child_readable(#[trigger] ch[k]) by {
                    if k < p.len() {
                        assert(measure_child_readable(p[k]));
                    }
                }
            }
        } else {
            let k0 = choose|k: int| 0 <= k < p.len() && !measure_child_readable(#[trigger] p[k]);
            assert(!measure_child_readable(ch[k0]));
        }
    }
}

/// Reading a part succeeds exactly when every child is an element that can be
/// read as a measure; the part then holds those measures, one per child, in
/// order.
pub proof fn lemma_read_part_in_order(ch: Seq<XmlNodeView>)
    ensures
        fold_elements(ch, Seq::empty(), part_steps()) is Some <==> forall|k: int|
            0 <= k < ch.len() ==> (#[trigger] ch[k] is Element && read_measure(ch[k]->Element_0) is Some),
        fold_elements(ch, Seq::empty(), part_steps()) is Some ==> fold_elements(ch, Seq::empty(), part_steps())
            == Some(Seq::new(ch.len(), |k: int| read_measure(ch[k]->Element_0).unwrap())),
    decreases ch.len(),
{
    if ch.len() > 0 {
        let p = ch.drop_last();
        lemma_read_part_in_order(p);
        assert forall|k: int| 0 <= k < p.len() implies #[trigger] p[k] == ch[k] by {}
        if forall|k: int| 0 <= k < p.len() ==> (#[trigger] p[k] is Element && read_measure(p[k]->Element_0) is Some) {
            if ch.last() is Element && read_measure(ch.last()->Element_0) is Some {
                assert forall|k: int| 0 <= k < ch.len() implies (#[trigger] ch[k] is Element && read_measure(
                    ch[k]->Element_0,
                ) is Some) by {
                    if k < p.len() {
                        assert(p[k] is Element && read_measure(p[k]->Element_0) is Some);
                    }
                }
                assert(Seq::new(p.len(), |k: int| read_measure(p[k]->Element_0).unwrap()).push(
                    read_measure(ch.last()->Element_0).unwrap(),
                ) =~= Seq::new(ch.len(), |k: int| read_measure(ch[k]->Element_0).unwrap()));
            } else {
                assert(!(ch[ch.len() - 1] is Element && read_measure(ch[ch.len() - 1]->Element_0) is Some));
            }
        } else {
            let k0 = choose|k: int|
                0 <= k < p.len() && !(#[trigger] p[k] is Element && read_measure(p[k]->Element_0) is Some);
            assert(!(ch[k0] is Element && read_measure(ch[k0]->Element_0) is Some));
        }
    }
}

} // verus!
