//! The DFA in the Graphviz dot language.
use vstd::prelude::*;
use crate::base::text::{dec, hex, push_chars, push_radix, push_str, string_of, chars_of};
use crate::scanner::dfa::{DFA, table};

verus! {

/// What `{:?}` writes for a character: the character quoted, with escapes.
pub uninterp spec fn char_debug(c: char) -> Seq<char>;

/// The Debug rendering of a character, as `format!("{:?}", c)` writes it:
/// the contract names the text and claims no more of it.
#[verifier::external_body]
fn debug_char(c: char) -> (s: String)
    ensures
        s@ == char_debug(c),
{
    format!("{:?}", c)
}

/// The character of the low byte of a code point.
pub open spec fn low_byte(c: u32) -> char {
    ((c % 256) as u8) as char
}

/// `n` in upper-case hexadecimal, at least four digits.
pub open spec fn hex4(n: nat) -> Seq<char> {
    let h = hex(n);
    if h.len() < 4 {
        Seq::new((4 - h.len()) as nat, |i: int| '0') + h
    } else {
        h
    }
}

/// The label of an edge for the class `[start, end)`.
pub open spec fn edge_label(start: u32, end: u32) -> Seq<char> {
    if start + 1 == end {
        char_debug(low_byte(start))
    } else if end == start + 2 {
        char_debug(low_byte(start)) + ".."@ + char_debug(low_byte((end - 1) as u32))
    } else {
        "0x"@ + hex4(start as nat) + "..0x"@ + hex4((end - 1) as nat)
    }
}

/// The lines marking the accepting states among the first `k`.
pub open spec fn accept_lines(accept: Seq<Option<usize>>, k: nat) -> Seq<char>
    decreases k,
{
    if k == 0 {
        seq![]
    } else {
        accept_lines(accept, (k - 1) as nat) + if accept[k - 1] is Some {
            "  "@ + dec((k - 1) as nat) + " [shape=doublecircle];\n"@
        } else {
            seq![]
        }
    }
}

/// The edges of state `s` for its first `k` classes, class `c` labelled
/// `labels[c]`.
pub open spec fn row_lines(s: nat, row: Seq<Option<usize>>, labels: Seq<Seq<char>>, k: nat) -> Seq<char>
    decreases k,
{
    if k == 0 {
        seq![]
    } else {
        row_lines(s, row, labels, (k - 1) as nat) + match row[k - 1] {
            Some(next) => "  "@ + dec(s) + " -> "@ + dec(next as nat) + " [label=\""@ + labels[k - 1]
                + "\"];\n"@,
            None => seq![],
        }
    }
}

/// The edges of the first `k` states.
pub open spec fn edge_lines(t: Seq<Seq<Option<usize>>>, labels: Seq<Seq<char>>, k: nat) -> Seq<char>
    decreases k,
{
    if k == 0 {
        seq![]
    } else {
        edge_lines(t, labels, (k - 1) as nat) + row_lines((k - 1) as nat, t[k - 1], labels, t[k - 1].len())
    }
}

/// The dot text of a DFA whose classes are labelled `labels`.
pub open spec fn dot_with(dfa: DFA, labels: Seq<Seq<char>>) -> Seq<char> {
    "digraph DFA {\n"@ + "  rankdir=LR;\n"@ + "  node [shape=circle];\n"@ + accept_lines(dfa.accept@, dfa.accept@.len())
        + "  start [shape=point];\n"@ + "  start -> "@ + dec(dfa.start_state as nat) + ";\n"@ + edge_lines(
        table(dfa.transitions@),
        labels,
        dfa.transitions@.len(),
    ) + "}\n"@
}

/// The label of each class.
pub open spec fn class_labels(classes: Seq<(u32, u32)>) -> Seq<Seq<char>> {
    classes.map_values(|c: (u32, u32)| edge_label(c.0, c.1))
}

/// The dot text of a DFA.
pub open spec fn dot_of(dfa: DFA) -> Seq<char> {
    dot_with(dfa, class_labels(dfa.intervals@))
}

/// Whether a class's bounds leave room for the label arithmetic.
pub open spec fn labels_ok(classes: Seq<(u32, u32)>) -> bool {
    forall|j: int| 0 <= j < classes.len() ==> #[trigger] classes[j].0 + 2 <= u32::MAX && classes[j].1 >= 1
}

pub(crate) fn push_hex4(out: &mut Vec<char>, n: u32)
    ensures
        final(out)@ == old(out)@ + hex4(n as nat),
{
    let mut h: Vec<char> = Vec::new();
    push_radix(&mut h, n as u64, 16);
    assert(h@ == hex(n as nat));
    let ghost base = out@;
    if h.len() < 4 {
        let pad = 4 - h.len();
        let mut i: usize = 0;
        while i < pad
            invariant
                i <= pad,
                out@ == base + Seq::new(i as nat, |x: int| '0'),
            decreases pad - i,
        {
            out.push('0');
            i = i + 1;
            assert(out@ =~= base + Seq::new(i as nat, |x: int| '0'));
        }
    }
    push_chars(out, &h);
    assert(out@ =~= base + hex4(n as nat));
}

fn label(out: &mut Vec<char>, start: u32, end: u32)
    requires
        start + 2 <= u32::MAX,
        end >= 1,
    ensures
        final(out)@ == old(out)@ + edge_label(start, end),
{
    if start + 1 == end {
        push_chars(out, &chars_of(debug_char(byte_char(start)).as_str()));
    } else if end == start + 2 {
        push_chars(out, &chars_of(debug_char(byte_char(start)).as_str()));
        push_str(out, "..");
        push_chars(out, &chars_of(debug_char(byte_char(end - 1)).as_str()));
    } else {
        push_str(out, "0x");
        push_hex4(out, start);
        push_str(out, "..0x");
        push_hex4(out, end - 1);
    }
}

fn byte_char(c: u32) -> (ch: char)
    ensures
        ch == low_byte(c),
{
    ((c % 256) as u8) as char
}

/// Whether `dfa` meets what `dfa_to_dot` needs: label arithmetic that
/// stays in range, and no row longer than the list of classes.
pub fn labels_fit(dfa: &DFA) -> (b: bool)
    ensures
        b == (labels_ok(dfa.intervals@) && forall|s: int|
            0 <= s < dfa.transitions.len() ==> (#[trigger] dfa.transitions@[s]).len() <= dfa.intervals.len()),
{
    let mut j: usize = 0;
    while j < dfa.intervals.len()
        invariant
            j <= dfa.intervals.len(),
            forall|k: int| 0 <= k < j ==> #[trigger] dfa.intervals@[k].0 + 2 <= u32::MAX && dfa.intervals@[k].1 >= 1,
        decreases dfa.intervals.len() - j,
    {
        let (lo, hi) = dfa.intervals[j];
        if lo > u32::MAX - 2 || hi == 0 {
            assert(!(dfa.intervals@[j as int].0 + 2 <= u32::MAX && dfa.intervals@[j as int].1 >= 1));
            return false;
        }
        j = j + 1;
    }
    let mut s: usize = 0;
    while s < dfa.transitions.len()
        invariant
            s <= dfa.transitions.len(),
            labels_ok(dfa.intervals@),
            forall|k: int| 0 <= k < s ==> (#[trigger] dfa.transitions@[k]).len() <= dfa.intervals.len(),
        decreases dfa.transitions.len() - s,
    {
        if dfa.transitions[s].len() > dfa.intervals.len() {
            return false;
        }
        s = s + 1;
    }
    true
}

/// The views of a list of labels.
pub open spec fn label_views(v: Seq<String>) -> Seq<Seq<char>> {
    v.map_values(|l: String| l@)
}

/// The DFA as a Graphviz digraph whose class `c` is labelled `labels[c]`:
/// accepting states doubly circled, each transition labelled with its
/// class.
pub fn render_dot(dfa: &DFA, labels: &Vec<String>) -> (dot: String)
    requires
        forall|s: int| 0 <= s < dfa.transitions.len() ==> (#[trigger] dfa.transitions@[s]).len() <= labels.len(),
    ensures
        dot@ == dot_with(*dfa, label_views(labels@)),
{
    let ghost t = table(dfa.transitions@);
    let ghost lv = label_views(labels@);
    let mut out: Vec<char> = Vec::new();
    push_str(&mut out, "digraph DFA {\n");
    push_str(&mut out, "  rankdir=LR;\n");
    push_str(&mut out, "  node [shape=circle];\n");
    let ghost head = out@;
    let mut i: usize = 0;
    while i < dfa.accept.len()
        invariant
            i <= dfa.accept.len(),
            out@ == head + accept_lines(dfa.accept@, i as nat),
        decreases dfa.accept.len() - i,
    {
        if dfa.accept[i].is_some() {
            push_str(&mut out, "  ");
            push_radix(&mut out, i as u64, 10);
            push_str(&mut out, " [shape=doublecircle];\n");
        }
        i = i + 1;
    }
    push_str(&mut out, "  start [shape=point];\n");
    push_str(&mut out, "  start -> ");
    push_radix(&mut out, dfa.start_state as u64, 10);
    push_str(&mut out, ";\n");
    let ghost mid = out@;
    let mut s: usize = 0;
    while s < dfa.transitions.len()
        invariant
            t == table(dfa.transitions@),
            lv == label_views(labels@),
            forall|x: int| 0 <= x < dfa.transitions.len() ==> (#[trigger] dfa.transitions@[x]).len() <= labels.len(),
            s <= dfa.transitions.len(),
            out@ == mid + edge_lines(t, lv, s as nat),
        decreases dfa.transitions.len() - s,
    {
        let row = &dfa.transitions[s];
        assert(row@ == t[s as int]);
        let ghost before = out@;
        let mut j: usize = 0;
        while j < row.len()
            invariant
                lv == label_views(labels@),
                row@ == t[s as int],
                row.len() <= labels.len(),
                j <= row.len(),
                out@ == before + row_lines(s as nat, row@, lv, j as nat),
            decreases row.len() - j,
        {
            if let Some(next) = row[j] {
                push_str(&mut out, "  ");
                push_radix(&mut out, s as u64, 10);
                push_str(&mut out, " -> ");
                push_radix(&mut out, next as u64, 10);
                push_str(&mut out, " [label=\"");
                push_chars(&mut out, &chars_of(labels[j].as_str()));
                push_str(&mut out, "\"];\n");
            }
            j = j + 1;
        }
        s = s + 1;
    }
    push_str(&mut out, "}\n");
    string_of(out.as_slice())
}

/// The label of every class of `dfa`.
fn labels_of(dfa: &DFA) -> (labels: Vec<String>)
    requires
        labels_ok(dfa.intervals@),
    ensures
        labels.len() == dfa.intervals.len(),
        label_views(labels@) == class_labels(dfa.intervals@),
{
    let mut labels: Vec<String> = Vec::new();
    let mut j: usize = 0;
    while j < dfa.intervals.len()
        invariant
            labels_ok(dfa.intervals@),
            j <= dfa.intervals.len(),
            labels.len() == j,
            forall|k: int| 0 <= k < j ==> (#[trigger] labels@[k])@ == edge_label(dfa.intervals@[k].0, dfa.intervals@[k].1),
        decreases dfa.intervals.len() - j,
    {
        let (start, end) = dfa.intervals[j];
        assert(start + 2 <= u32::MAX && end >= 1) by {
            assert(dfa.intervals@[j as int] == (start, end));
        }
        let mut out: Vec<char> = Vec::new();
        label(&mut out, start, end);
        assert(out@ =~= edge_label(start, end));
        labels.push(string_of(out.as_slice()));
        j = j + 1;
    }
    assert(label_views(labels@) =~= class_labels(dfa.intervals@));
    labels
}

/// The DFA as a Graphviz digraph: accepting states doubly circled, each
/// transition labelled with its class (a character as Rust's `Debug`
/// writes it, a pair of them, or a hexadecimal range).
pub fn dfa_to_dot(dfa: &DFA) -> (dot: String)
    requires
        labels_ok(dfa.intervals@),
        forall|s: int| 0 <= s < dfa.transitions.len() ==> (#[trigger] dfa.transitions@[s]).len() <= dfa.intervals.len(),
    ensures
        dot@ == dot_of(*dfa),
{
    let labels = labels_of(dfa);
    render_dot(dfa, &labels)
}

} // verus!
