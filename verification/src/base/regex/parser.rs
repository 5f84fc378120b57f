//! A recursive-descent parser for regular expressions.
//!
//! Grammar (`^` and a `$` that ends the pattern are plain characters; a `$`
//! anywhere else ends the items and is then an unexpected character):
//!
//! ```text
//! alt    := concat ('|' concat)*
//! concat := item+
//! item   := ('(' alt ')' | '[' class ']' | '\' escape | '.' | char) suffix*
//! suffix := '*' | '+' | '?' | '{' n '}' | '{' n ',}' | '{' n ',' m '}'
//! ```
use vstd::prelude::*;
use crate::base::error::Error;
use crate::base::interval::{Interval, covered, covers, law_merge_canonical, law_merge_keeps_points, merge_spec, lemma_merge_ends};
use crate::base::regex::ast::{CharClass, CharClassItem, RegexModel, RegexType, RepeatType};
use crate::scanner::language::{in_items, lang};
use crate::base::text::{
    ascii_digit, ascii_hexdigit, chars_of, code_point, dec, hex, hex_value, is_ascii_digit, is_ascii_hexdigit,
    push_chars, push_radix, push_str, string_of,
};

verus! {

/// A position in the input together with the line and column it stands at.
pub struct Cursor {
    pub pos: int,
    pub line: int,
    pub col: int,
}

/// The outcome of a parsing step: a value and the cursor after it, or an
/// error message and the cursor the error is reported at.
pub type Step<T> = Result<(T, Cursor), (Seq<char>, Cursor)>;

pub open spec fn peek(s: Seq<char>, c: Cursor) -> Option<char> {
    if 0 <= c.pos < s.len() {
        Some(s[c.pos])
    } else {
        None
    }
}

/// The cursor after reading `ch`: a newline starts a new line.
pub open spec fn step(c: Cursor, ch: char) -> Cursor {
    if ch == '\n' {
        Cursor { pos: c.pos + 1, line: c.line + 1, col: 1 }
    } else {
        Cursor { pos: c.pos + 1, line: c.line, col: c.col + 1 }
    }
}

/// The cursor after reading one character, if there is one.
pub open spec fn adv(s: Seq<char>, c: Cursor) -> Cursor {
    match peek(s, c) {
        Some(ch) => step(c, ch),
        None => c,
    }
}

pub open spec fn msg_expected_got(e: char, ch: char) -> Seq<char> {
    "Expected '"@ + seq![e] + "', got '"@ + seq![ch] + "'"@
}

pub open spec fn msg_expected_eof(e: char) -> Seq<char> {
    "Expected '"@ + seq![e] + "', got EOF"@
}

/// Reads the character `e`.
pub open spec fn expect(s: Seq<char>, c: Cursor, e: char) -> Step<()> {
    match peek(s, c) {
        Some(ch) => if ch == e {
            Ok(((), step(c, ch)))
        } else {
            Err((msg_expected_got(e, ch), step(c, ch)))
        },
        None => Err((msg_expected_eof(e), c)),
    }
}

/// Whether `cp` is a Unicode scalar value.
pub open spec fn valid_scalar(cp: int) -> bool {
    (0 <= cp < 0xD800) || (0xE000 <= cp <= 0x10FFFF)
}

/// The value of a run of hexadecimal digits.
pub open spec fn hex_number(s: Seq<char>) -> nat
    decreases s.len(),
{
    if s.len() == 0 {
        0
    } else {
        hex_number(s.drop_last()) * 16 + hex_value(s.last())
    }
}

/// The value of a run of decimal digits.
pub open spec fn dec_number(s: Seq<char>) -> nat
    decreases s.len(),
{
    if s.len() == 0 {
        0
    } else {
        dec_number(s.drop_last()) * 10 + hex_value(s.last())
    }
}

/// The hexadecimal digits of a `\u{...}` escape, read up to `}` or the end.
pub open spec fn hex_run(s: Seq<char>, acc: Seq<char>, c: Cursor) -> Step<Seq<char>>
    decreases s.len() - c.pos,
{
    match peek(s, c) {
        None => Ok((acc, c)),
        Some(ch) => if ch == '}' {
            Ok((acc, c))
        } else if !is_ascii_hexdigit(ch) {
            Err(("Invalid hex digit in Unicode escape: "@ + seq![ch], c))
        } else {
            hex_run(s, acc.push(ch), step(c, ch))
        },
    }
}

/// The code point of a `\u{...}` escape; `c` stands after the `u`.
pub open spec fn unicode_escape(s: Seq<char>, c: Cursor) -> Step<u32> {
    match expect(s, c, '{') {
        Err(e) => Err(e),
        Ok((_, c1)) => match hex_run(s, seq![], c1) {
            Err(e) => Err(e),
            Ok((digits, c2)) => match expect(s, c2, '}') {
                Err(e) => Err(e),
                Ok((_, c3)) => if digits.len() == 0 || hex_number(digits) > u32::MAX {
                    Err(("Invalid Unicode code point: "@ + digits, c3))
                } else if !valid_scalar(hex_number(digits) as int) {
                    Err(("Invalid Unicode code point: 0x"@ + hex(hex_number(digits)), c3))
                } else {
                    Ok((hex_number(digits) as u32, c3))
                },
            },
        },
    }
}

/// The character that an escaped `ch` stands for, when it is one of the
/// simple escapes.
pub open spec fn simple_escape(ch: char) -> Option<char> {
    if ch == 'n' {
        Some('\n')
    } else if ch == 't' {
        Some('\t')
    } else if ch == 'r' {
        Some('\r')
    } else if ch == '\\' || ch == '(' || ch == ')' || ch == '|' || ch == '*' || ch == '+' || ch
        == '?' || ch == '[' || ch == ']' || ch == '{' || ch == '}' || ch == '-' {
        Some(ch)
    } else {
        None
    }
}

/// The code point of the escape `\ch`; `c` stands after `ch`.
pub open spec fn escape_code(s: Seq<char>, ch: char, c: Cursor) -> Step<u32> {
    if ch == 'u' {
        unicode_escape(s, c)
    } else {
        match simple_escape(ch) {
            Some(e) => Ok((e as u32, c)),
            None => Ok((ch as u32, c)),
        }
    }
}

/// One character of a character class, possibly escaped.
pub open spec fn class_char(s: Seq<char>, c: Cursor) -> Step<u32> {
    match peek(s, c) {
        Some(ch) => if ch == '\\' {
            let c1 = step(c, ch);
            match peek(s, c1) {
                None => Err(("Expected escape character"@, c1)),
                Some(e) => escape_code(s, e, step(c1, e)),
            }
        } else {
            Ok((ch as u32, step(c, ch)))
        },
        None => Err(("Unexpected end of pattern in character class"@, c)),
    }
}

pub open spec fn item(start: u32, end: u32) -> CharClassItem {
    CharClassItem { start, end }
}

/// The body of a character class, read up to `]` or the end.
pub open spec fn class_items(s: Seq<char>, items: Seq<CharClassItem>, c: Cursor) -> Step<
    Seq<CharClassItem>,
>
    decreases s.len() - c.pos,
{
    match peek(s, c) {
        None => Ok((items, c)),
        Some(ch) => if ch == ']' {
            Ok((items, c))
        } else {
            match class_char(s, c) {
                Err(e) => Err(e),
                Ok((first, c1)) => if !(c.pos < c1.pos <= s.len()) {
                    Err((seq![], c1))
                } else if peek(s, c1) == Some('-') {
                    let c2 = step(c1, '-');
                    if peek(s, c2) == Some(']') {
                        class_items(
                            s,
                            items.push(item(first, first)).push(item('-' as u32, '-' as u32)),
                            c2,
                        )
                    } else {
                        match class_char(s, c2) {
                            Err(e) => Err(e),
                            Ok((second, c3)) => if !(c2.pos < c3.pos <= s.len()) {
                                Err((seq![], c3))
                            } else if first > second {
                                Err(
                                    (
                                        "Invalid range: 0x"@ + hex(first as nat) + " > 0x"@ + hex(
                                            second as nat,
                                        ),
                                        c3,
                                    ),
                                )
                            } else {
                                class_items(s, items.push(item(first, second)), c3)
                            },
                        }
                    }
                } else {
                    class_items(s, items.push(item(first, first)), c1)
                },
            }
        },
    }
}

pub open spec fn to_interval(i: CharClassItem) -> Interval {
    Interval { start: i.start, end: (i.end + 1) as u32 }
}

pub open spec fn from_interval(i: Interval) -> CharClassItem {
    CharClassItem { start: i.start, end: (i.end - 1) as u32 }
}

/// What `merge_intervals` returns: the closed ranges merged as half-open
/// intervals.
pub open spec fn merge_items(items: Seq<CharClassItem>) -> Seq<CharClassItem> {
    merge_spec(items.map_values(|i: CharClassItem| to_interval(i))).map_values(
        |i: Interval| from_interval(i),
    )
}

/// Whether some closed range of `items` holds `cp`.
pub open spec fn in_ranges(items: Seq<CharClassItem>, cp: u32) -> bool {
    exists|k: int| 0 <= k < items.len() && #[trigger] items[k].start <= cp && cp <= items[k].end
}

/// The ranges of a character class, merged, are sorted, each non-empty,
/// with a gap between neighbours, and hold exactly the code points of the
/// input ranges.
pub proof fn law_merge_items(items: Seq<CharClassItem>)
    requires
        forall|k: int| 0 <= k < items.len() ==> items[k].start <= #[trigger] items[k].end && items[k].end < u32::MAX,
    ensures
        forall|k: int| 0 <= k < merge_items(items).len() ==> #[trigger] merge_items(items)[k].start <= merge_items(
            items,
        )[k].end,
        forall|k: int|
            0 <= k < merge_items(items).len() - 1 ==> #[trigger] merge_items(items)[k].end + 1 < merge_items(
                items,
            )[k + 1].start,
        forall|cp: u32|
            #![trigger in_ranges(items, cp)]
            #![trigger in_ranges(merge_items(items), cp)]
            in_ranges(merge_items(items), cp) <==> in_ranges(items, cp),
{
    let mapped = items.map_values(|i: CharClassItem| to_interval(i));
    assert forall|k: int| 0 <= k < mapped.len() implies #[trigger] mapped[k].start < mapped[k].end by {
        assert(mapped[k] == to_interval(items[k]));
    }
    law_merge_canonical(mapped);
    law_merge_keeps_points(mapped);
    assert forall|k: int| 0 <= k < mapped.len() implies #[trigger] mapped[k].end >= 1 by {
        assert(mapped[k] == to_interval(items[k]));
    }
    lemma_merge_ends(mapped, 1);
    let mm = merge_spec(mapped);
    let m = merge_items(items);
    assert forall|k: int| 0 <= k < m.len() implies #[trigger] m[k] == item(mm[k].start, (mm[k].end - 1) as u32) by {}
    assert forall|k: int| 0 <= k < m.len() implies #[trigger] m[k].start <= m[k].end by {
        assert(mm[k].start < mm[k].end);
    }
    assert forall|k: int| 0 <= k < m.len() - 1 implies #[trigger] m[k].end + 1 < m[k + 1].start by {
        assert(mm[k].end < mm[k + 1].start);
        assert(mm[k].end >= 1);
    }
    assert forall|cp: u32| #[trigger] in_ranges(m, cp) <==> in_ranges(items, cp) by {
        if exists|k: int| 0 <= k < m.len() && #[trigger] m[k].start <= cp && cp <= m[k].end {
            let k = choose|k: int| 0 <= k < m.len() && #[trigger] m[k].start <= cp && cp <= m[k].end;
            assert(mm[k].end >= 1);
            assert(covers(mm[k], cp as int));
            assert(covered(mapped, cp as int));
            let j = choose|j: int| 0 <= j < mapped.len() && covers(#[trigger] mapped[j], cp as int);
            assert(mapped[j] == to_interval(items[j]));
            assert(items[j].start <= cp && cp <= items[j].end);
        }
        if exists|k: int| 0 <= k < items.len() && #[trigger] items[k].start <= cp && cp <= items[k].end {
            let k = choose|k: int| 0 <= k < items.len() && #[trigger] items[k].start <= cp && cp <= items[k].end;
            assert(mapped[k] == to_interval(items[k]));
            assert(covers(mapped[k], cp as int));
            assert(covered(mapped, cp as int));
            assert(covered(mm, cp as int));
            let j = choose|j: int| 0 <= j < mm.len() && covers(#[trigger] mm[j], cp as int);
            assert(m[j].start <= cp && cp <= m[j].end);
        }
    }
}

/// A character class; `c` stands after the `[`.
pub open spec fn char_class(s: Seq<char>, c: Cursor) -> Step<RegexModel> {
    let negated = peek(s, c) == Some('^');
    let c0 = if negated {
        step(c, '^')
    } else {
        c
    };
    match class_items(s, seq![], c0) {
        Err(e) => Err(e),
        Ok((items, c1)) => match expect(s, c1, ']') {
            Err(e) => Err(e),
            Ok((_, c2)) => Ok((RegexModel::CharClass(negated, merge_items(items)), c2)),
        },
    }
}

/// Where the body of a character class begins: after the `[` at `c`, and
/// after a `^` that negates it.
pub open spec fn class_start(s: Seq<char>, c: Cursor) -> Cursor {
    if peek(s, c) == Some('^') {
        step(c, '^')
    } else {
        c
    }
}

/// The ranges listed in the body of the character class at `c`, in the
/// order written: a single character as a range of one.
pub open spec fn body_items(s: Seq<char>, c: Cursor) -> Seq<CharClassItem> {
    match class_items(s, seq![], class_start(s, c)) {
        Ok((items, _)) => items,
        Err(_) => seq![],
    }
}

/// Whether each range of `items` runs upwards within the code points.
pub open spec fn ranges_ok(items: Seq<CharClassItem>) -> bool {
    forall|k: int| 0 <= k < items.len() ==> (#[trigger] items[k]).start <= items[k].end && items[k].end <= 0x10FFFF
}

/// A character of a class that reads is a code point.
proof fn lemma_class_char_bound(s: Seq<char>, c: Cursor)
    ensures
        class_char(s, c) matches Ok((cp, _)) ==> cp <= 0x10FFFF,
{
    if let Some(ch) = peek(s, c) {
        if ch == '\\' {
            let c1 = step(c, ch);
            if let Some(e) = peek(s, c1) {
                if e != 'u' {
                    if let Some(x) = simple_escape(e) {
                        vstd::utf8::char_is_scalar(x);
                    }
                    vstd::utf8::char_is_scalar(e);
                }
            }
        } else {
            vstd::utf8::char_is_scalar(ch);
        }
    }
}

/// The body of a class adds to `items` only ranges that run upwards.
proof fn lemma_class_items_ok(s: Seq<char>, items: Seq<CharClassItem>, c: Cursor)
    requires
        ranges_ok(items),
    ensures
        class_items(s, items, c) matches Ok((out, _)) ==> ranges_ok(out),
    decreases s.len() - c.pos,
{
    if let Some(ch) = peek(s, c) {
        if ch != ']' {
            lemma_class_char_bound(s, c);
            if let Ok((first, c1)) = class_char(s, c) {
                if c.pos < c1.pos <= s.len() {
                    if peek(s, c1) == Some('-') {
                        let c2 = step(c1, '-');
                        if peek(s, c2) == Some(']') {
                            let next = items.push(item(first, first)).push(item('-' as u32, '-' as u32));
                            assert(ranges_ok(next)) by {
                                assert forall|k: int| 0 <= k < next.len() implies (#[trigger] next[k]).start
                                    <= next[k].end && next[k].end <= 0x10FFFF by {
                                    if k < items.len() {
                                        assert(next[k] == items[k]);
                                    }
                                }
                            }
                            lemma_class_items_ok(s, next, c2);
                        } else {
                            lemma_class_char_bound(s, c2);
                            if let Ok((second, c3)) = class_char(s, c2) {
                                if c2.pos < c3.pos <= s.len() && first <= second {
                                    let next = items.push(item(first, second));
                                    assert(ranges_ok(next)) by {
                                        assert forall|k: int| 0 <= k < next.len() implies (
                                        #[trigger] next[k]).start <= next[k].end && next[k].end <= 0x10FFFF by {
                                            if k < items.len() {
                                                assert(next[k] == items[k]);
                                            }
                                        }
                                    }
                                    lemma_class_items_ok(s, next, c3);
                                }
                            }
                        }
                    } else {
                        let next = items.push(item(first, first));
                        assert(ranges_ok(next)) by {
                            assert forall|k: int| 0 <= k < next.len() implies (#[trigger] next[k]).start
                                <= next[k].end && next[k].end <= 0x10FFFF by {
                                if k < items.len() {
                                    assert(next[k] == items[k]);
                                }
                            }
                        }
                        lemma_class_items_ok(s, next, c1);
                    }
                }
            }
        }
    }
}

/// A character class that parses is negated exactly when its body starts
/// with `^`, lists only ranges that run upwards, and keeps them merged:
/// sorted, each non-empty, with a gap between neighbours, holding exactly
/// the code points that its body lists.
pub proof fn law_class_parse(s: Seq<char>, c: Cursor)
    ensures
        char_class(s, c) matches Ok((r, _)) ==> r matches RegexModel::CharClass(neg, items) && neg == (
        peek(s, c) == Some('^')) && ranges_ok(body_items(s, c)) && items == merge_items(body_items(s, c))
            && (forall|k: int| 0 <= k < items.len() ==> #[trigger] items[k].start <= items[k].end) && (
        forall|k: int| 0 <= k < items.len() - 1 ==> #[trigger] items[k].end + 1 < items[k + 1].start) && (
        forall|cp: u32| #[trigger] in_ranges(items, cp) <==> in_ranges(body_items(s, c), cp)),
{
    if char_class(s, c) is Ok {
        let b = body_items(s, c);
        assert(ranges_ok(seq![]));
        lemma_class_items_ok(s, seq![], class_start(s, c));
        assert(ranges_ok(b));
        law_merge_items(b);
    }
}

pub open spec fn digit_items() -> Seq<CharClassItem> {
    seq![item('0' as u32, '9' as u32)]
}

pub open spec fn word_items() -> Seq<CharClassItem> {
    seq![
        item('a' as u32, 'z' as u32),
        item('A' as u32, 'Z' as u32),
        item('0' as u32, '9' as u32),
        item('_' as u32, '_' as u32),
    ]
}

pub open spec fn sorted_word_items() -> Seq<CharClassItem> {
    seq![
        item('0' as u32, '9' as u32),
        item('A' as u32, 'Z' as u32),
        item('_' as u32, '_' as u32),
        item('a' as u32, 'z' as u32),
    ]
}

pub open spec fn space_items() -> Seq<CharClassItem> {
    seq![
        item(' ' as u32, ' ' as u32),
        item('\t' as u32, '\t' as u32),
        item('\n' as u32, '\n' as u32),
        item('\r' as u32, '\r' as u32),
        item('\x0C' as u32, '\x0C' as u32),
        item('\x0B' as u32, '\x0B' as u32),
    ]
}

/// An escape outside a character class; `c` stands after the `\`.
pub open spec fn escape(s: Seq<char>, c: Cursor) -> Step<RegexModel> {
    match peek(s, c) {
        None => Err(("Expected escape character"@, c)),
        Some(ch) => {
            let c1 = step(c, ch);
            if ch == 'd' {
                Ok((RegexModel::CharClass(false, digit_items()), c1))
            } else if ch == 'D' {
                Ok((RegexModel::CharClass(true, digit_items()), c1))
            } else if ch == 'w' {
                Ok((RegexModel::CharClass(false, merge_items(sorted_word_items())), c1))
            } else if ch == 'W' {
                Ok((RegexModel::CharClass(true, word_items()), c1))
            } else if ch == 's' {
                Ok((RegexModel::CharClass(false, space_items()), c1))
            } else if ch == 'S' {
                Ok((RegexModel::CharClass(true, space_items()), c1))
            } else if ch == 'u' || simple_escape(ch) is Some {
                match escape_code(s, ch, c1) {
                    Err(e) => Err(e),
                    Ok((cp, c2)) => Ok((RegexModel::Char(cp), c2)),
                }
            } else {
                Err(("Invalid escape sequence: \\"@ + seq![ch], c1))
            }
        },
    }
}

/// The run of decimal digits at `c`.
pub open spec fn digit_run(s: Seq<char>, acc: Seq<char>, c: Cursor) -> (Seq<char>, Cursor)
    decreases s.len() - c.pos,
{
    match peek(s, c) {
        Some(ch) => if is_ascii_digit(ch) {
            digit_run(s, acc.push(ch), step(c, ch))
        } else {
            (acc, c)
        },
        None => (acc, c),
    }
}

/// A decimal number of a quantifier; errors are reported where it starts.
pub open spec fn number(s: Seq<char>, c: Cursor) -> Step<u32> {
    let (digits, c1) = digit_run(s, seq![], c);
    if digits.len() == 0 {
        Err(("Expected number in quantifier"@, c))
    } else if dec_number(digits) > u32::MAX {
        Err(("Number too large"@, c))
    } else {
        Ok((dec_number(digits) as u32, c1))
    }
}

/// A `{...}` quantifier; `c` stands at the `{`.
pub open spec fn quantifier(s: Seq<char>, c: Cursor) -> Step<RepeatType> {
    match expect(s, c, '{') {
        Err(e) => Err(e),
        Ok((_, c1)) => match number(s, c1) {
            Err(e) => Err(e),
            Ok((n, c2)) => if peek(s, c2) == Some('}') {
                Ok((RepeatType::Exactly(n), step(c2, '}')))
            } else if peek(s, c2) == Some(',') {
                let c3 = step(c2, ',');
                if peek(s, c3) == Some('}') {
                    Ok((RepeatType::AtLeast(n), step(c3, '}')))
                } else {
                    match number(s, c3) {
                        Err(e) => Err(e),
                        Ok((m, c4)) => match expect(s, c4, '}') {
                            Err(e) => Err(e),
                            Ok((_, c5)) => if n > m {
                                Err(
                                    (
                                        "Invalid quantifier { "@ + dec(n as nat) + ", "@ + dec(
                                            m as nat,
                                        ) + " }: lower bound > upper bound"@,
                                        c5,
                                    ),
                                )
                            } else {
                                Ok((RepeatType::Between(n, m), c5))
                            },
                        },
                    }
                }
            } else {
                Err(("Invalid quantifier syntax"@, c2))
            },
        },
    }
}

/// The postfix operators after an atom.
pub open spec fn suffixes(s: Seq<char>, e: RegexModel, c: Cursor) -> Step<RegexModel>
    decreases s.len() - c.pos,
{
    match peek(s, c) {
        Some(op) => if op == '*' {
            suffixes(s, RegexModel::Star(Box::new(e)), step(c, op))
        } else if op == '+' {
            suffixes(s, RegexModel::Plus(Box::new(e)), step(c, op))
        } else if op == '?' {
            suffixes(s, RegexModel::Opt(Box::new(e)), step(c, op))
        } else if op == '{' {
            match quantifier(s, c) {
                Err(err) => Err(err),
                Ok((kind, c1)) => if c.pos < c1.pos <= s.len() {
                    suffixes(s, RegexModel::Repeat(Box::new(e), kind), c1)
                } else {
                    Err((seq![], c1))
                },
            }
        } else {
            Ok((e, c))
        },
        None => Ok((e, c)),
    }
}

/// The class that `.` stands for: every code point but the newline.
pub open spec fn dot_items() -> Seq<CharClassItem> {
    seq![item(0, ('\n' as u32 - 1) as u32), item(('\n' as u32 + 1) as u32, 0x10FFFF)]
}

/// The right-nested concatenation of a non-empty list.
pub open spec fn concat_all(nodes: Seq<RegexModel>) -> RegexModel
    decreases nodes.len(),
{
    if nodes.len() <= 1 {
        nodes[0]
    } else {
        RegexModel::Concat(Box::new(nodes[0]), Box::new(concat_all(nodes.drop_first())))
    }
}

/// An alternation.
pub open spec fn alt(s: Seq<char>, c: Cursor) -> Step<RegexModel>
    decreases s.len() - c.pos, 4int,
{
    match concat(s, c) {
        Err(e) => Err(e),
        Ok((left, c1)) => if c.pos <= c1.pos <= s.len() {
            alt_rest(s, left, c1)
        } else {
            Err((seq![], c1))
        },
    }
}

/// The `| concat` parts of an alternation after its first branch.
pub open spec fn alt_rest(s: Seq<char>, left: RegexModel, c: Cursor) -> Step<RegexModel>
    decreases s.len() - c.pos, 3int,
{
    if peek(s, c) == Some('|') && c.pos < s.len() {
        let c1 = step(c, '|');
        match concat(s, c1) {
            Err(e) => Err(e),
            Ok((right, c2)) => if c1.pos <= c2.pos <= s.len() {
                alt_rest(s, RegexModel::Alt(Box::new(left), Box::new(right)), c2)
            } else {
                Err((seq![], c2))
            },
        }
    } else {
        Ok((left, c))
    }
}

/// A concatenation of one or more items.
pub open spec fn concat(s: Seq<char>, c: Cursor) -> Step<RegexModel>
    decreases s.len() - c.pos, 2int,
{
    match items(s, seq![], c) {
        Err(e) => Err(e),
        Ok((nodes, c1)) => if nodes.len() == 0 {
            Err(("Unexpected end of pattern"@, c1))
        } else {
            Ok((concat_all(nodes), c1))
        },
    }
}

/// Items up to `|`, `)`, a `$` that does not end the input, or the end.
pub open spec fn items(s: Seq<char>, nodes: Seq<RegexModel>, c: Cursor) -> Step<Seq<RegexModel>>
    decreases s.len() - c.pos, 1int,
{
    match peek(s, c) {
        None => Ok((nodes, c)),
        Some(ch) => if ch == '|' || ch == ')' || (ch == '$' && c.pos + 1 != s.len()) {
            Ok((nodes, c))
        } else {
            match atom(s, c) {
                Err(e) => Err(e),
                Ok((r, c1)) => if c.pos < c1.pos <= s.len() {
                    items(s, nodes.push(r), c1)
                } else {
                    Err((seq![], c1))
                },
            }
        },
    }
}

/// One item: an atom and its postfix operators.
pub open spec fn atom(s: Seq<char>, c: Cursor) -> Step<RegexModel>
    decreases s.len() - c.pos, 0int,
{
    match peek(s, c) {
        None => Err(("Unexpected end of pattern"@, c)),
        Some(ch) => {
            let c1 = step(c, ch);
            if ch == '(' {
                if c.pos < s.len() {
                    match alt(s, c1) {
                        Err(e) => Err(e),
                        Ok((sub, c2)) => match expect(s, c2, ')') {
                            Err(e) => Err(e),
                            Ok((_, c3)) => suffixes(s, sub, c3),
                        },
                    }
                } else {
                    Err((seq![], c1))
                }
            } else if ch == '[' {
                match char_class(s, c1) {
                    Err(e) => Err(e),
                    Ok((cls, c2)) => suffixes(s, cls, c2),
                }
            } else if ch == '\\' {
                match escape(s, c1) {
                    Err(e) => Err(e),
                    Ok((esc, c2)) => suffixes(s, esc, c2),
                }
            } else if ch == '.' {
                suffixes(s, RegexModel::CharClass(false, dot_items()), c1)
            } else {
                suffixes(s, RegexModel::Char(ch as u32), c1)
            }
        },
    }
}

pub open spec fn msg_unexpected(ch: char, rest: Seq<char>) -> Seq<char> {
    let n = if rest.len() < 20 {
        rest.len() as int
    } else {
        20
    };
    "Unexpected character '"@ + seq![ch] + "'"@ + " (context: "@ + rest.take(n) + ")"@
}

/// What `Parser::parse` returns from the cursor `c`: an alternation that
/// must consume the rest of the input.
pub open spec fn parse_from(s: Seq<char>, c: Cursor) -> Step<RegexModel> {
    match alt(s, c) {
        Err(e) => Err(e),
        Ok((e, c2)) => {
            if 0 <= c2.pos < s.len() {
                Err((msg_unexpected(s[c2.pos], s.subrange(c2.pos, s.len() as int)), c2))
            } else {
                Ok((e, c2))
            }
        },
    }
}

/// Whether the error `e` is the parse error with message `m` at `c`.
pub open spec fn is_error_at(e: Error, m: Seq<char>, c: Cursor) -> bool {
    &&& e matches Error::Parse { message, line, col }
    &&& message@ == m
    &&& line == c.line
    &&& col == c.col
}

/// Whether an executed step matches the specified one: the same value and
/// the same final cursor, or the same error at the same place.
pub open spec fn agrees<T>(r: Result<T, Error>, s: Step<T>, now: Cursor) -> bool {
    match (r, s) {
        (Ok(v), Ok((w, c))) => v == w && now == c,
        (Err(e), Err((m, c))) => is_error_at(e, m, c),
        _ => false,
    }
}

/// `agrees` for steps that build a regular expression.
pub open spec fn agrees_regex(r: Result<RegexType, Error>, s: Step<RegexModel>, now: Cursor) -> bool {
    match (r, s) {
        (Ok(v), Ok((w, c))) => v@ == w && now == c,
        (Err(e), Err((m, c))) => is_error_at(e, m, c),
        _ => false,
    }
}

/// The models of a list of expressions.
pub open spec fn models(v: Seq<RegexType>) -> Seq<RegexModel> {
    v.map_values(|r: RegexType| r@)
}

pub struct Parser {
    chars: Vec<char>,
    pos: usize,
    pub line: usize,
    pub col: usize,
}

impl Parser {
    /// The characters being parsed.
    pub closed spec fn input(&self) -> Seq<char> {
        self.chars@
    }

    /// Where the parser stands.
    pub closed spec fn cursor(&self) -> Cursor {
        Cursor { pos: self.pos as int, line: self.line as int, col: self.col as int }
    }

    /// The position and line/column counters stay in range for the rest of
    /// the input.
    pub closed spec fn wf(&self) -> bool {
        &&& self.pos <= self.chars.len()
        &&& self.line + (self.chars.len() - self.pos) < usize::MAX
        &&& self.col + (self.chars.len() - self.pos) < usize::MAX
    }

    pub fn new(input: &str) -> (p: Self)
        requires
            input@.len() + 2 < usize::MAX,
        ensures
            p.input() == input@,
            p.cursor() == (Cursor { pos: 0, line: 1, col: 1 }),
            p.wf(),
    {
        Parser { chars: chars_of(input), pos: 0, line: 1, col: 1 }
    }

    fn peek(&self) -> (r: Option<char>)
        ensures
            r == peek(self.input(), self.cursor()),
    {
        if self.pos < self.chars.len() {
            Some(self.chars[self.pos])
        } else {
            None
        }
    }

    fn consume(&mut self) -> (r: Option<char>)
        requires
            old(self).wf(),
        ensures
            final(self).wf(),
            final(self).input() == old(self).input(),
            r == peek(old(self).input(), old(self).cursor()),
            final(self).cursor() == adv(old(self).input(), old(self).cursor()),
    {
        let ch = self.peek()?;
        self.pos = self.pos + 1;
        if ch == '\n' {
            self.line = self.line + 1;
            self.col = 1;
        } else {
            self.col = self.col + 1;
        }
        Some(ch)
    }

    fn error_at_pos(&self, msg: &Vec<char>) -> (e: Error)
        ensures
            is_error_at(e, msg@, self.cursor()),
    {
        Error::parse(string_of(msg.as_slice()), self.line, self.col)
    }

    fn error_with_context(&self, msg: &Vec<char>, context: &Vec<char>) -> (e: Error)
        ensures
            is_error_at(e, msg@ + " (context: "@ + context@ + ")"@, self.cursor()),
    {
        let mut full = msg.clone();
        assert(full@ == msg@);
        push_str(&mut full, " (context: ");
        push_chars(&mut full, context);
        push_str(&mut full, ")");
        Error::parse(string_of(full.as_slice()), self.line, self.col)
    }

    fn consume_expected(&mut self, expected: char) -> (r: Result<(), Error>)
        requires
            old(self).wf(),
        ensures
            final(self).wf(),
            final(self).input() == old(self).input(),
            final(self).pos >= old(self).pos,
            match (r, expect(old(self).input(), old(self).cursor(), expected)) {
                (Ok(_), Ok((_, c))) => final(self).cursor() == c,
                (Err(e), Err((m, c))) => is_error_at(e, m, c),
                _ => false,
            },
    {
        if let Some(ch) = self.consume() {
            if ch == expected {
                Ok(())
            } else {
                let mut m: Vec<char> = Vec::new();
                push_str(&mut m, "Expected '");
                m.push(expected);
                push_str(&mut m, "', got '");
                m.push(ch);
                push_str(&mut m, "'");
                assert(m@ =~= msg_expected_got(expected, ch));
                Err(self.error_at_pos(&m))
            }
        } else {
            let mut m: Vec<char> = Vec::new();
            push_str(&mut m, "Expected '");
            m.push(expected);
            push_str(&mut m, "', got EOF");
            assert(m@ =~= msg_expected_eof(expected));
            Err(self.error_at_pos(&m))
        }
    }

    /// A decimal number; errors are reported at its first character.
    fn parse_number(&mut self) -> (r: Result<u32, Error>)
        requires
            old(self).wf(),
        ensures
            final(self).wf(),
            final(self).input() == old(self).input(),
            final(self).pos >= old(self).pos,
            agrees(r, number(old(self).input(), old(self).cursor()), final(self).cursor()),
    {
        let ghost s = self.input();
        let ghost c0 = self.cursor();
        let start_line = self.line;
        let start_col = self.col;
        let mut num_str: Vec<char> = Vec::new();
        let mut value: u64 = 0;
        let mut big = false;
        loop
            invariant
                self.wf(),
                self.input() == s,
                s == old(self).input(),
                c0 == old(self).cursor(),
                start_line == c0.line,
                start_col == c0.col,
                self.pos >= c0.pos,
                digit_run(s, seq![], c0) == digit_run(s, num_str@, self.cursor()),
                big ==> dec_number(num_str@) > u32::MAX,
                !big ==> value == dec_number(num_str@) && value <= u32::MAX,
            ensures
                self.wf(),
                self.input() == s,
                self.pos >= c0.pos,
                digit_run(s, seq![], c0) == (num_str@, self.cursor()),
                big ==> dec_number(num_str@) > u32::MAX,
                !big ==> value == dec_number(num_str@) && value <= u32::MAX,
            decreases self.chars.len() - self.pos,
        {
            match self.peek() {
                Some(ch) => {
                    if ascii_digit(ch) {
                        let ghost before = num_str@;
                        num_str.push(ch);
                        assert(num_str@.drop_last() == before);
                        let d = (ch as u32 - '0' as u32) as u64;
                        if !big {
                            let next = value * 10 + d;
                            if next > 0xFFFF_FFFF {
                                big = true;
                            } else {
                                value = next;
                            }
                        }
                        self.consume();
                    } else {
                        break ;
                    }
                },
                None => {
                    break ;
                },
            }
        }
        if num_str.len() == 0 {
            let mut m: Vec<char> = Vec::new();
            push_str(&mut m, "Expected number in quantifier");
            assert(m@ =~= "Expected number in quantifier"@);
            return Err(Error::parse(string_of(m.as_slice()), start_line, start_col));
        }
        if big {
            let mut m: Vec<char> = Vec::new();
            push_str(&mut m, "Number too large");
            assert(m@ =~= "Number too large"@);
            return Err(Error::parse(string_of(m.as_slice()), start_line, start_col));
        }
        Ok(value as u32)
    }

    /// The code point of a `\u{...}` escape; the parser stands after `u`.
    fn parse_unicode(&mut self) -> (r: Result<u32, Error>)
        requires
            old(self).wf(),
        ensures
            final(self).wf(),
            final(self).input() == old(self).input(),
            final(self).pos >= old(self).pos,
            agrees(r, unicode_escape(old(self).input(), old(self).cursor()), final(self).cursor()),
    {
        let ghost s = self.input();
        let ghost c0 = self.cursor();
        self.consume_expected('{')?;
        let ghost c1 = self.cursor();
        let mut hex_str: Vec<char> = Vec::new();
        let mut value: u64 = 0;
        let mut big = false;
        loop
            invariant
                self.wf(),
                self.input() == s,
                s == old(self).input(),
                c0 == old(self).cursor(),
                expect(s, c0, '{') == Ok::<((), Cursor), (Seq<char>, Cursor)>(((), c1)),
                self.pos >= c1.pos >= c0.pos,
                hex_run(s, seq![], c1) == hex_run(s, hex_str@, self.cursor()),
                big ==> hex_number(hex_str@) > u32::MAX,
                !big ==> value == hex_number(hex_str@) && value <= u32::MAX,
            ensures
                self.wf(),
                self.input() == s,
                self.pos >= c1.pos >= c0.pos,
                hex_run(s, seq![], c1) == Ok::<(Seq<char>, Cursor), (Seq<char>, Cursor)>(
                    (hex_str@, self.cursor()),
                ),
                big ==> hex_number(hex_str@) > u32::MAX,
                !big ==> value == hex_number(hex_str@) && value <= u32::MAX,
            decreases self.chars.len() - self.pos,
        {
            match self.peek() {
                None => {
                    break ;
                },
                Some(c) => {
                    if c == '}' {
                        break ;
                    }
                    if !ascii_hexdigit(c) {
                        let mut m: Vec<char> = Vec::new();
                        push_str(&mut m, "Invalid hex digit in Unicode escape: ");
                        m.push(c);
                        assert(m@ =~= "Invalid hex digit in Unicode escape: "@ + seq![c]);
                        return Err(self.error_at_pos(&m));
                    }
                    let ghost before = hex_str@;
                    hex_str.push(c);
                    assert(hex_str@.drop_last() == before);
                    let d: u64 = if ascii_digit(c) {
                        (c as u32 - '0' as u32) as u64
                    } else if 'a' <= c && c <= 'f' {
                        (c as u32 - 'a' as u32 + 10) as u64
                    } else {
                        (c as u32 - 'A' as u32 + 10) as u64
                    };
                    if !big {
                        let next = value * 16 + d;
                        if next > 0xFFFF_FFFF {
                            big = true;
                        } else {
                            value = next;
                        }
                    }
                    self.consume();
                },
            }
        }
        self.consume_expected('}')?;
        if hex_str.len() == 0 || big {
            let mut m: Vec<char> = Vec::new();
            push_str(&mut m, "Invalid Unicode code point: ");
            push_chars(&mut m, &hex_str);
            return Err(self.error_at_pos(&m));
        }
        if !(value < 0xD800 || (0xE000 <= value && value <= 0x10FFFF)) {
            let mut m: Vec<char> = Vec::new();
            push_str(&mut m, "Invalid Unicode code point: 0x");
            push_radix(&mut m, value, 16);
            return Err(self.error_at_pos(&m));
        }
        Ok(value as u32)
    }

    /// The code point that the escaped `ch` stands for; the parser stands
    /// after `ch`.
    fn escape_char_to_codepoint(&mut self, ch: char) -> (r: Result<u32, Error>)
        requires
            old(self).wf(),
        ensures
            final(self).wf(),
            final(self).input() == old(self).input(),
            final(self).pos >= old(self).pos,
            agrees(r, escape_code(old(self).input(), ch, old(self).cursor()), final(self).cursor()),
            r matches Ok(cp) ==> cp <= 0x10FFFF,
    {
        let cp: u32 = match ch {
            'n' => '\n' as u32,
            't' => '\t' as u32,
            'r' => '\r' as u32,
            '\\' => '\\' as u32,
            '(' => '(' as u32,
            ')' => ')' as u32,
            '|' => '|' as u32,
            '*' => '*' as u32,
            '+' => '+' as u32,
            '?' => '?' as u32,
            '[' => '[' as u32,
            ']' => ']' as u32,
            '{' => '{' as u32,
            '}' => '}' as u32,
            '-' => '-' as u32,
            'u' => {
                return self.parse_unicode();
            },
            _ => ch as u32,
        };
        Ok(cp)
    }

    /// One character of a character class, possibly escaped.
    fn parse_char_literal(&mut self) -> (r: Result<u32, Error>)
        requires
            old(self).wf(),
        ensures
            final(self).wf(),
            final(self).input() == old(self).input(),
            final(self).pos >= old(self).pos,
            r is Ok ==> final(self).pos > old(self).pos,
            agrees(r, class_char(old(self).input(), old(self).cursor()), final(self).cursor()),
            r matches Ok(cp) ==> cp <= 0x10FFFF,
    {
        match self.peek() {
            Some(c) => {
                if c == '\\' {
                    self.consume();
                    match self.consume() {
                        Some(e) => self.escape_char_to_codepoint(e),
                        None => {
                            let mut m: Vec<char> = Vec::new();
                            push_str(&mut m, "Expected escape character");
                            assert(m@ =~= "Expected escape character"@);
                            Err(self.error_at_pos(&m))
                        },
                    }
                } else {
                    self.consume();
                    Ok(code_point(c))
                }
            },
            None => {
                let mut m: Vec<char> = Vec::new();
                push_str(&mut m, "Unexpected end of pattern in character class");
                assert(m@ =~= "Unexpected end of pattern in character class"@);
                Err(self.error_at_pos(&m))
            },
        }
    }

    /// A character class; the parser stands after `[`.
    fn parse_char_class(&mut self) -> (r: Result<RegexType, Error>)
        requires
            old(self).wf(),
        ensures
            final(self).wf(),
            final(self).input() == old(self).input(),
            final(self).pos >= old(self).pos,
            agrees_regex(r, char_class(old(self).input(), old(self).cursor()), final(self).cursor()),
    {
        let ghost s = self.input();
        let negated = if self.peek() == Some('^') {
            self.consume();
            true
        } else {
            false
        };
        let ghost c0 = self.cursor();
        let mut items: Vec<CharClassItem> = Vec::new();
        loop
            invariant
                self.wf(),
                self.input() == s,
                s == old(self).input(),
                negated == (peek(s, old(self).cursor()) == Some('^')),
                c0 == (if negated {
                    step(old(self).cursor(), '^')
                } else {
                    old(self).cursor()
                }),
                self.pos >= c0.pos >= old(self).pos,
                class_items(s, seq![], c0) == class_items(s, items@, self.cursor()),
                forall|k: int| 0 <= k < items.len() ==> #[trigger] items@[k].end <= 0x10FFFF,
            ensures
                self.wf(),
                self.input() == s,
                self.pos >= c0.pos >= old(self).pos,
                class_items(s, seq![], c0) == Ok::<
                    (Seq<CharClassItem>, Cursor),
                    (Seq<char>, Cursor),
                >((items@, self.cursor())),
                forall|k: int| 0 <= k < items.len() ==> #[trigger] items@[k].end <= 0x10FFFF,
            decreases self.chars.len() - self.pos,
        {
            match self.peek() {
                None => {
                    break ;
                },
                Some(ch) => {
                    if ch == ']' {
                        break ;
                    }
                    let ghost c = self.cursor();
                    let first = self.parse_char_literal()?;
                    if self.peek() == Some('-') {
                        self.consume();
                        if self.peek() == Some(']') {
                            items.push(CharClassItem { start: first, end: first });
                            items.push(CharClassItem { start: '-' as u32, end: '-' as u32 });
                            continue ;
                        } else {
                            let second = self.parse_char_literal()?;
                            if first > second {
                                let mut m: Vec<char> = Vec::new();
                                push_str(&mut m, "Invalid range: 0x");
                                push_radix(&mut m, first as u64, 16);
                                push_str(&mut m, " > 0x");
                                push_radix(&mut m, second as u64, 16);
                                return Err(self.error_at_pos(&m));
                            }
                            items.push(CharClassItem { start: first, end: second });
                        }
                    } else {
                        items.push(CharClassItem { start: first, end: first });
                    }
                },
            }
        }
        self.consume_expected(']')?;
        let merged = merge_intervals(items);
        Ok(RegexType::CharClass(CharClass { negated, items: merged }))
    }

    /// An escape outside a character class; the parser stands after `\`.
    fn parse_escape(&mut self) -> (r: Result<RegexType, Error>)
        requires
            old(self).wf(),
        ensures
            final(self).wf(),
            final(self).input() == old(self).input(),
            final(self).pos >= old(self).pos,
            agrees_regex(r, escape(old(self).input(), old(self).cursor()), final(self).cursor()),
    {
        let ch = match self.consume() {
            Some(ch) => ch,
            None => {
                let mut m: Vec<char> = Vec::new();
                push_str(&mut m, "Expected escape character");
                assert(m@ =~= "Expected escape character"@);
                return Err(self.error_at_pos(&m));
            },
        };
        if ch == 'd' || ch == 'D' {
            let items = vec![CharClassItem { start: '0' as u32, end: '9' as u32 }];
            assert(items@ =~= digit_items());
            Ok(RegexType::CharClass(CharClass { negated: ch == 'D', items }))
        } else if ch == 'w' {
            let items = vec![
                CharClassItem { start: '0' as u32, end: '9' as u32 },
                CharClassItem { start: 'A' as u32, end: 'Z' as u32 },
                CharClassItem { start: '_' as u32, end: '_' as u32 },
                CharClassItem { start: 'a' as u32, end: 'z' as u32 },
            ];
            assert(items@ =~= sorted_word_items());
            let merged = merge_intervals(items);
            Ok(RegexType::CharClass(CharClass { negated: false, items: merged }))
        } else if ch == 'W' {
            let items = vec![
                CharClassItem { start: 'a' as u32, end: 'z' as u32 },
                CharClassItem { start: 'A' as u32, end: 'Z' as u32 },
                CharClassItem { start: '0' as u32, end: '9' as u32 },
                CharClassItem { start: '_' as u32, end: '_' as u32 },
            ];
            assert(items@ =~= word_items());
            Ok(RegexType::CharClass(CharClass { negated: true, items }))
        } else if ch == 's' || ch == 'S' {
            let items = vec![
                CharClassItem { start: ' ' as u32, end: ' ' as u32 },
                CharClassItem { start: '\t' as u32, end: '\t' as u32 },
                CharClassItem { start: '\n' as u32, end: '\n' as u32 },
                CharClassItem { start: '\r' as u32, end: '\r' as u32 },
                CharClassItem { start: '\x0C' as u32, end: '\x0C' as u32 },
                CharClassItem { start: '\x0B' as u32, end: '\x0B' as u32 },
            ];
            assert(items@ =~= space_items());
            Ok(RegexType::CharClass(CharClass { negated: ch == 'S', items }))
        } else if ch == 'u' || ch == 'n' || ch == 't' || ch == 'r' || ch == '\\' || ch == '('
            || ch == ')' || ch == '|' || ch == '*' || ch == '+' || ch == '?' || ch == '[' || ch
            == ']' || ch == '{' || ch == '}' || ch == '-' {
            let cp = self.escape_char_to_codepoint(ch)?;
            Ok(RegexType::Char(cp))
        } else {
            let mut m: Vec<char> = Vec::new();
            push_str(&mut m, "Invalid escape sequence: \\");
            m.push(ch);
            assert(m@ =~= "Invalid escape sequence: \\"@ + seq![ch]);
            Err(self.error_at_pos(&m))
        }
    }

    /// A `{...}` quantifier; the parser stands at the `{`.
    fn parse_quantifier(&mut self) -> (r: Result<RepeatType, Error>)
        requires
            old(self).wf(),
        ensures
            final(self).wf(),
            final(self).input() == old(self).input(),
            final(self).pos >= old(self).pos,
            r is Ok ==> final(self).pos > old(self).pos,
            agrees(r, quantifier(old(self).input(), old(self).cursor()), final(self).cursor()),
    {
        self.consume_expected('{')?;
        let n = self.parse_number()?;
        match self.peek() {
            Some('}') => {
                self.consume();
                Ok(RepeatType::Exactly(n))
            },
            Some(',') => {
                self.consume();
                if self.peek() == Some('}') {
                    self.consume();
                    Ok(RepeatType::AtLeast(n))
                } else {
                    let m = self.parse_number()?;
                    self.consume_expected('}')?;
                    if n > m {
                        let mut msg: Vec<char> = Vec::new();
                        push_str(&mut msg, "Invalid quantifier { ");
                        push_radix(&mut msg, n as u64, 10);
                        push_str(&mut msg, ", ");
                        push_radix(&mut msg, m as u64, 10);
                        push_str(&mut msg, " }: lower bound > upper bound");
                        return Err(self.error_at_pos(&msg));
                    }
                    Ok(RepeatType::Between(n, m))
                }
            },
            _ => {
                let mut msg: Vec<char> = Vec::new();
                push_str(&mut msg, "Invalid quantifier syntax");
                assert(msg@ =~= "Invalid quantifier syntax"@);
                Err(self.error_at_pos(&msg))
            },
        }
    }

    /// The postfix operators after an atom.
    fn parse_suffixes(&mut self, base: RegexType) -> (r: Result<RegexType, Error>)
        requires
            old(self).wf(),
        ensures
            final(self).wf(),
            final(self).input() == old(self).input(),
            final(self).pos >= old(self).pos,
            agrees_regex(
                r,
                suffixes(old(self).input(), base@, old(self).cursor()),
                final(self).cursor(),
            ),
    {
        let ghost s = self.input();
        let ghost c0 = self.cursor();
        let ghost e0 = base@;
        let mut expr = base;
        loop
            invariant
                self.wf(),
                self.input() == s,
                s == old(self).input(),
                c0 == old(self).cursor(),
                e0 == base@,
                self.pos >= c0.pos,
                suffixes(s, e0, c0) == suffixes(s, expr@, self.cursor()),
            ensures
                self.wf(),
                self.input() == s,
                self.pos >= c0.pos,
                suffixes(s, e0, c0) == Ok::<(RegexModel, Cursor), (Seq<char>, Cursor)>(
                    (expr@, self.cursor()),
                ),
            decreases self.chars.len() - self.pos,
        {
            match self.peek() {
                Some(op) => {
                    if op == '*' {
                        self.consume();
                        expr = RegexType::Star(Box::new(expr));
                    } else if op == '+' {
                        self.consume();
                        expr = RegexType::Plus(Box::new(expr));
                    } else if op == '?' {
                        self.consume();
                        expr = RegexType::Opt(Box::new(expr));
                    } else if op == '{' {
                        let kind = self.parse_quantifier()?;
                        expr = RegexType::Repeat(Box::new(expr), kind);
                    } else {
                        break ;
                    }
                },
                None => {
                    break ;
                },
            }
        }
        Ok(expr)
    }

    /// One item of a concatenation.
    fn parse_item(&mut self) -> (r: Result<RegexType, Error>)
        requires
            old(self).wf(),
        ensures
            final(self).wf(),
            final(self).input() == old(self).input(),
            r is Ok ==> final(self).pos > old(self).pos,
            agrees_regex(r, atom(old(self).input(), old(self).cursor()), final(self).cursor()),
        decreases old(self).chars.len() - old(self).pos, 0int,
    {
        let expr = match self.peek() {
            Some('(') => {
                self.consume();
                let sub = self.parse_alt()?;
                self.consume_expected(')')?;
                sub
            },
            Some('[') => {
                self.consume();
                self.parse_char_class()?
            },
            Some('\\') => {
                self.consume();
                self.parse_escape()?
            },
            Some('.') => {
                self.consume();
                let items = vec![
                    CharClassItem { start: 0, end: '\n' as u32 - 1 },
                    CharClassItem { start: '\n' as u32 + 1, end: 0x10FFFF },
                ];
                assert(items@ =~= dot_items());
                RegexType::CharClass(CharClass { negated: false, items })
            },
            Some(ch) => {
                self.consume();
                RegexType::Char(ch as u32)
            },
            None => {
                let mut m: Vec<char> = Vec::new();
                push_str(&mut m, "Unexpected end of pattern");
                assert(m@ =~= "Unexpected end of pattern"@);
                return Err(self.error_at_pos(&m));
            },
        };
        self.parse_suffixes(expr)
    }

    /// A concatenation of one or more items.
    fn parse_concat(&mut self) -> (r: Result<RegexType, Error>)
        requires
            old(self).wf(),
        ensures
            final(self).wf(),
            final(self).input() == old(self).input(),
            r is Ok ==> final(self).pos >= old(self).pos,
            agrees_regex(r, concat(old(self).input(), old(self).cursor()), final(self).cursor()),
        decreases old(self).chars.len() - old(self).pos, 2int,
    {
        let ghost s = self.input();
        let ghost c0 = self.cursor();
        let mut nodes: Vec<RegexType> = Vec::new();
        assert(models(nodes@) =~= seq![]);
        loop
            invariant
                self.wf(),
                self.input() == s,
                self.pos >= c0.pos,
                c0 == old(self).cursor(),
                s == old(self).input(),
                items(s, seq![], c0) == items(s, models(nodes@), self.cursor()),
            ensures
                self.wf(),
                self.input() == s,
                self.pos >= c0.pos,
                items(s, seq![], c0) == Ok::<(Seq<RegexModel>, Cursor), (Seq<char>, Cursor)>(
                    (models(nodes@), self.cursor()),
                ),
            decreases self.chars.len() - self.pos,
        {
            match self.peek() {
                None => {
                    break ;
                },
                Some(ch) => {
                    if ch == '|' || ch == ')' || (ch == '$' && self.pos + 1 != self.chars.len()) {
                        break ;
                    }
                    let node = self.parse_item()?;
                    let ghost before = nodes@;
                    nodes.push(node);
                    assert(models(nodes@) == models(before).push(node@));
                },
            }
        }
        if nodes.len() == 0 {
            let mut m: Vec<char> = Vec::new();
            push_str(&mut m, "Unexpected end of pattern");
            assert(m@ =~= "Unexpected end of pattern"@);
            return Err(self.error_at_pos(&m));
        }
        let ghost all = models(nodes@);
        let mut result = nodes.pop().unwrap();
        assert(all.skip(all.len() - 1) =~= seq![result@]);
        let mut k: usize = nodes.len();
        while nodes.len() > 0
            invariant
                k == nodes.len(),
                k < all.len(),
                result@ == concat_all(all.skip(k as int)),
                models(nodes@) == all.take(k as int),
            decreases nodes.len(),
        {
            let ghost before = nodes@;
            let node = nodes.pop().unwrap();
            assert(models(before)[k - 1] == node@);
            assert(models(nodes@) =~= all.take(k - 1));
            assert(all.skip(k - 1).drop_first() =~= all.skip(k as int));
            assert(all.skip(k - 1)[0] == all[k - 1]);
            result = RegexType::Concat(Box::new(node), Box::new(result));
            k = k - 1;
        }
        assert(all.skip(0) == all);
        Ok(result)
    }

    /// An alternation of concatenations.
    fn parse_alt(&mut self) -> (r: Result<RegexType, Error>)
        requires
            old(self).wf(),
        ensures
            final(self).wf(),
            final(self).input() == old(self).input(),
            r is Ok ==> final(self).pos >= old(self).pos,
            agrees_regex(r, alt(old(self).input(), old(self).cursor()), final(self).cursor()),
        decreases old(self).chars.len() - old(self).pos, 4int,
    {
        let ghost s = self.input();
        let ghost c0 = self.cursor();
        let mut left = self.parse_concat()?;
        let ghost c1 = self.cursor();
        loop
            invariant
                self.wf(),
                self.input() == s,
                self.pos >= c1.pos >= c0.pos,
                c0 == old(self).cursor(),
                s == old(self).input(),
                alt(s, c0) == alt_rest(s, left@, self.cursor()),
            ensures
                self.wf(),
                self.input() == s,
                self.pos >= c0.pos,
                alt(s, c0) == Ok::<(RegexModel, Cursor), (Seq<char>, Cursor)>(
                    (left@, self.cursor()),
                ),
            decreases self.chars.len() - self.pos,
        {
            if self.peek() == Some('|') {
                self.consume();
                let right = self.parse_concat()?;
                left = RegexType::Alt(Box::new(left), Box::new(right));
            } else {
                break ;
            }
        }
        Ok(left)
    }

    /// Parses the whole remaining input as one regular expression.
    pub fn parse(&mut self) -> (r: Result<RegexType, Error>)
        requires
            old(self).wf(),
        ensures
            final(self).wf(),
            final(self).input() == old(self).input(),
            agrees_regex(r, parse_from(old(self).input(), old(self).cursor()), final(self).cursor()),
    {
        let expr = self.parse_alt()?;
        if self.pos < self.chars.len() {
            let ch = self.chars[self.pos];
            let mut m: Vec<char> = Vec::new();
            push_str(&mut m, "Unexpected character '");
            m.push(ch);
            push_str(&mut m, "'");
            assert(m@ =~= "Unexpected character '"@ + seq![ch] + "'"@);
            let mut context: Vec<char> = Vec::new();
            let mut i = self.pos;
            while i < self.chars.len() && i - self.pos < 20
                invariant
                    self.pos <= i <= self.chars.len(),
                    i - self.pos <= 20,
                    context@ == self.chars@.subrange(self.pos as int, i as int),
                decreases self.chars.len() - i,
            {
                context.push(self.chars[i]);
                i = i + 1;
            }
            assert(i == self.pos + (if self.chars.len() - self.pos < 20 {
                (self.chars.len() - self.pos) as int
            } else {
                20
            }));
            assert(context@ =~= self.chars@.subrange(self.pos as int, self.chars.len() as int).take(
                if self.chars.len() - self.pos < 20 {
                    (self.chars.len() - self.pos) as int
                } else {
                    20
                },
            ));
            return Err(self.error_with_context(&m, &context));
        }
        Ok(expr)
    }
}

/// Merges closed character ranges that overlap or touch.
pub fn merge_intervals(items: Vec<CharClassItem>) -> (r: Vec<CharClassItem>)
    requires
        forall|k: int| 0 <= k < items.len() ==> #[trigger] items@[k].end < u32::MAX,
    ensures
        r@ == merge_items(items@),
{
    let mut intervals: Vec<Interval> = Vec::new();
    let mut i: usize = 0;
    while i < items.len()
        invariant
            i <= items.len(),
            forall|k: int| 0 <= k < items.len() ==> #[trigger] items@[k].end < u32::MAX,
            intervals@ == items@.take(i as int).map_values(|x: CharClassItem| to_interval(x)),
        decreases items.len() - i,
    {
        intervals.push(Interval::new(items[i].start, items[i].end + 1));
        i = i + 1;
        assert(intervals@ =~= items@.take(i as int).map_values(|x: CharClassItem| to_interval(x)));
    }
    assert(items@.take(items.len() as int) == items@);
    let ghost mapped = intervals@;
    proof {
        lemma_merge_ends(mapped, 1);
    }
    let merged = Interval::merge(intervals);
    let mut r: Vec<CharClassItem> = Vec::new();
    let mut j: usize = 0;
    while j < merged.len()
        invariant
            j <= merged.len(),
            merged@ == merge_spec(mapped),
            forall|k: int| 0 <= k < merged.len() ==> #[trigger] merged@[k].end >= 1,
            r@ == merged@.take(j as int).map_values(|x: Interval| from_interval(x)),
        decreases merged.len() - j,
    {
        let iv = merged[j];
        r.push(CharClassItem { start: iv.start, end: iv.end - 1 });
        j = j + 1;
        assert(r@ =~= merged@.take(j as int).map_values(|x: Interval| from_interval(x)));
    }
    assert(merged@.take(merged.len() as int) == merged@);
    r
}


/// The escapes `\t`, `\n` and `\r` stand for the code points 9, 10 and 13,
/// outside a character class (`c` just after the `\`) and inside one (`c`
/// at the `\`).
pub proof fn law_control_escapes(s: Seq<char>, c: Cursor)
    ensures
        peek(s, c) == Some('t') ==> escape(s, c) == Ok::<(RegexModel, Cursor), (Seq<char>, Cursor)>(
            (RegexModel::Char(9), step(c, 't')),
        ),
        peek(s, c) == Some('n') ==> escape(s, c) == Ok::<(RegexModel, Cursor), (Seq<char>, Cursor)>(
            (RegexModel::Char(10), step(c, 'n')),
        ),
        peek(s, c) == Some('r') ==> escape(s, c) == Ok::<(RegexModel, Cursor), (Seq<char>, Cursor)>(
            (RegexModel::Char(13), step(c, 'r')),
        ),
        peek(s, c) == Some('\\') && peek(s, step(c, '\\')) == Some('t') ==> class_char(s, c) == Ok::<
            (u32, Cursor),
            (Seq<char>, Cursor),
        >((9, step(step(c, '\\'), 't'))),
        peek(s, c) == Some('\\') && peek(s, step(c, '\\')) == Some('n') ==> class_char(s, c) == Ok::<
            (u32, Cursor),
            (Seq<char>, Cursor),
        >((10, step(step(c, '\\'), 'n'))),
        peek(s, c) == Some('\\') && peek(s, step(c, '\\')) == Some('r') ==> class_char(s, c) == Ok::<
            (u32, Cursor),
            (Seq<char>, Cursor),
        >((13, step(step(c, '\\'), 'r'))),
{
}

/// An escaped punctuation character that has a meaning in a pattern stands
/// for itself, outside a character class (`c` just after the `\`) and
/// inside one (`c` at the `\`).
pub proof fn law_punctuation_escapes(s: Seq<char>, c: Cursor, ch: char)
    requires
        ch == '\\' || ch == '(' || ch == ')' || ch == '|' || ch == '*' || ch == '+' || ch == '?' || ch == '['
            || ch == ']' || ch == '{' || ch == '}' || ch == '-',
    ensures
        peek(s, c) == Some(ch) ==> escape(s, c) == Ok::<(RegexModel, Cursor), (Seq<char>, Cursor)>(
            (RegexModel::Char(ch as u32), step(c, ch)),
        ),
        peek(s, c) == Some('\\') && peek(s, step(c, '\\')) == Some(ch) ==> class_char(s, c) == Ok::<
            (u32, Cursor),
            (Seq<char>, Cursor),
        >((ch as u32, step(step(c, '\\'), ch))),
{
}

/// A letter after `\` that names no escape is refused: only `d`, `D`,
/// `w`, `W`, `s`, `S`, `n`, `t`, `r` and `u` are escapes.
pub proof fn law_unknown_letter_escape_refused(s: Seq<char>, c: Cursor, ch: char)
    requires
        ('a' <= ch && ch <= 'z') || ('A' <= ch && ch <= 'Z'),
        ch != 'd' && ch != 'D' && ch != 'w' && ch != 'W' && ch != 's' && ch != 'S' && ch != 'n' && ch != 't'
            && ch != 'r' && ch != 'u',
    ensures
        peek(s, c) == Some(ch) ==> escape(s, c) is Err,
{
}

/// Whether `cp` is white space for `\s`: tab, line feed, vertical tab,
/// form feed, carriage return or space.
pub open spec fn space_cp(cp: u32) -> bool {
    cp == 32 || (9 <= cp && cp <= 13)
}

/// Whether `cp` is a decimal digit.
pub open spec fn digit_cp(cp: u32) -> bool {
    48 <= cp && cp <= 57
}

/// Whether `cp` is an ASCII letter, a decimal digit or `_`.
pub open spec fn word_cp(cp: u32) -> bool {
    (48 <= cp && cp <= 57) || (65 <= cp && cp <= 90) || cp == 95 || (97 <= cp && cp <= 122)
}

proof fn lemma_space_items(cp: u32)
    ensures
        in_items(space_items(), cp) <==> space_cp(cp),
{
    let it = space_items();
    if in_items(it, cp) {
        let k = choose|k: int| 0 <= k < it.len() && #[trigger] it[k].start <= cp && cp <= it[k].end;
        assert(0 <= k < 6);
    }
    if space_cp(cp) {
        if cp == 32 {
            assert(it[0].start <= cp && cp <= it[0].end);
        } else if cp == 9 {
            assert(it[1].start <= cp && cp <= it[1].end);
        } else if cp == 10 {
            assert(it[2].start <= cp && cp <= it[2].end);
        } else if cp == 13 {
            assert(it[3].start <= cp && cp <= it[3].end);
        } else if cp == 12 {
            assert(it[4].start <= cp && cp <= it[4].end);
        } else {
            assert(it[5].start <= cp && cp <= it[5].end);
        }
    }
}

proof fn lemma_digit_items(cp: u32)
    ensures
        in_items(digit_items(), cp) <==> digit_cp(cp),
{
    let it = digit_items();
    if digit_cp(cp) {
        assert(it[0].start <= cp && cp <= it[0].end);
    }
}

proof fn lemma_word_items(cp: u32)
    ensures
        in_items(word_items(), cp) <==> word_cp(cp),
        in_items(merge_items(sorted_word_items()), cp) <==> word_cp(cp),
{
    let it = word_items();
    if in_items(it, cp) {
        let k = choose|k: int| 0 <= k < it.len() && #[trigger] it[k].start <= cp && cp <= it[k].end;
        assert(0 <= k < 4);
    }
    if word_cp(cp) {
        if 97 <= cp && cp <= 122 {
            assert(it[0].start <= cp && cp <= it[0].end);
        } else if 65 <= cp && cp <= 90 {
            assert(it[1].start <= cp && cp <= it[1].end);
        } else if 48 <= cp && cp <= 57 {
            assert(it[2].start <= cp && cp <= it[2].end);
        } else {
            assert(it[3].start <= cp && cp <= it[3].end);
        }
    }
    let so = sorted_word_items();
    if in_items(so, cp) {
        let k = choose|k: int| 0 <= k < so.len() && #[trigger] so[k].start <= cp && cp <= so[k].end;
        assert(0 <= k < 4);
    }
    if word_cp(cp) {
        if 48 <= cp && cp <= 57 {
            assert(so[0].start <= cp && cp <= so[0].end);
        } else if 65 <= cp && cp <= 90 {
            assert(so[1].start <= cp && cp <= so[1].end);
        } else if cp == 95 {
            assert(so[2].start <= cp && cp <= so[2].end);
        } else {
            assert(so[3].start <= cp && cp <= so[3].end);
        }
    }
    assert forall|k: int| 0 <= k < so.len() implies so[k].start <= #[trigger] so[k].end && so[k].end < u32::MAX by {
        assert(0 <= k < 4);
    }
    law_merge_items(so);
    assert(in_ranges(so, cp) == in_items(so, cp));
    assert(in_ranges(merge_items(so), cp) == in_items(merge_items(so), cp));
}

/// The class escapes match single code points: `\d` the decimal digits,
/// `\w` the ASCII letters, digits and `_`, `\s` white space, and `\D`,
/// `\W`, `\S` exactly the code points that their lower-case escape does
/// not match. `c` stands just after the `\`.
pub proof fn law_class_escapes(s: Seq<char>, c: Cursor, w: Seq<u32>)
    ensures
        peek(s, c) == Some('d') ==> (escape(s, c) matches Ok((r, _)) && (lang(r, w) <==> w.len() == 1
            && digit_cp(w[0]))),
        peek(s, c) == Some('D') ==> (escape(s, c) matches Ok((r, _)) && (lang(r, w) <==> w.len() == 1
            && !digit_cp(w[0]))),
        peek(s, c) == Some('w') ==> (escape(s, c) matches Ok((r, _)) && (lang(r, w) <==> w.len() == 1
            && word_cp(w[0]))),
        peek(s, c) == Some('W') ==> (escape(s, c) matches Ok((r, _)) && (lang(r, w) <==> w.len() == 1
            && !word_cp(w[0]))),
        peek(s, c) == Some('s') ==> (escape(s, c) matches Ok((r, _)) && (lang(r, w) <==> w.len() == 1
            && space_cp(w[0]))),
        peek(s, c) == Some('S') ==> (escape(s, c) matches Ok((r, _)) && (lang(r, w) <==> w.len() == 1
            && !space_cp(w[0]))),
{
    if w.len() == 1 {
        lemma_space_items(w[0]);
        lemma_digit_items(w[0]);
        lemma_word_items(w[0]);
    }
}

} // verus!
