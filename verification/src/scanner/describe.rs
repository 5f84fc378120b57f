//! Plain-text descriptions of automata, for logs and debugging.
use vstd::prelude::*;
use crate::base::text::{dec, push_radix, push_str, string_of};
use crate::scanner::dfa::{DFA, table};
use crate::scanner::dot::{hex4, push_hex4};
use crate::scanner::nfa::{Edge, EdgeType, NFA};

verus! {

/// Whether `u` is the code point of a `char`: at most `0x10FFFF` and not a
/// surrogate.
pub open spec fn is_char(u: u32) -> bool {
    u <= 0x10FFFF && !(0xD800 <= u <= 0xDFFF)
}

/// The character with code point `u`, if there is one.
///
/// Trusted: calls `char::from_u32`, which is documented to return `None`
/// for values above `0x10FFFF` and for surrogates, and the character
/// otherwise.
#[verifier::external_body]
fn char_from(u: u32) -> (r: Option<char>)
    ensures
        r == if is_char(u) {
            Some(u as char)
        } else {
            None::<char>
        },
{
    char::from_u32(u)
}

/// `(a, b)` as `{:?}` writes a pair of numbers.
pub open spec fn pair_text(p: (usize, usize)) -> Seq<char> {
    "("@ + dec(p.0 as nat) + ", "@ + dec(p.1 as nat) + ")"@
}

/// The items of a list of pairs as `{:?}` writes them, without brackets.
pub open spec fn pairs_text(ps: Seq<(usize, usize)>) -> Seq<char>
    decreases ps.len(),
{
    if ps.len() == 0 {
        seq![]
    } else if ps.len() == 1 {
        pair_text(ps[0])
    } else {
        pairs_text(ps.drop_last()) + ", "@ + pair_text(ps.last())
    }
}

/// A list of pairs as `{:?}` writes it.
pub open spec fn list_text(ps: Seq<(usize, usize)>) -> Seq<char> {
    "["@ + pairs_text(ps) + "]"@
}

/// The line describing an edge. A character edge shows the character
/// when its code point is one, else the code point.
pub open spec fn edge_text(e: Edge) -> Seq<char> {
    match e.edge_type {
        EdgeType::Epsilon => "  ε -> "@ + dec(e.target as nat) + "\n"@,
        EdgeType::Character => {
            let ch = e.character->0;
            if is_char(ch) {
                "  '"@ + seq![ch as char] + "' -> "@ + dec(e.target as nat) + "\n"@
            } else {
                "  U+"@ + hex4(ch as nat) + " -> "@ + dec(e.target as nat) + "\n"@
            }
        },
        EdgeType::Range => "  [U+"@ + hex4(e.range_start->0 as nat) + ", U+"@ + hex4(e.range_end->0 as nat)
            + "] -> "@ + dec(e.target as nat) + "\n"@,
    }
}

/// The lines of the first `k` edges of a state.
pub open spec fn edges_text(es: Seq<Edge>, k: nat) -> Seq<char>
    decreases k,
{
    if k == 0 {
        seq![]
    } else {
        edges_text(es, (k - 1) as nat) + edge_text(es[k - 1])
    }
}

/// The lines of the first `k` states.
pub open spec fn states_text(g: Seq<Seq<Edge>>, k: nat) -> Seq<char>
    decreases k,
{
    if k == 0 {
        seq![]
    } else {
        states_text(g, (k - 1) as nat) + "State "@ + dec((k - 1) as nat) + ":\n"@ + edges_text(
            g[k - 1],
            g[k - 1].len(),
        )
    }
}

/// The description of an NFA.
pub open spec fn nfa_text(nfa: NFA) -> Seq<char> {
    "Start state: "@ + dec(nfa.start as nat) + "\n"@ + "Accepts states: "@ + list_text(nfa.accepts@) + "\n"@
        + states_text(nfa.states@.map_values(|s: crate::scanner::nfa::State| s.edges@), nfa.states@.len())
}

/// Whether every character edge names its character and every range edge
/// both ends.
pub open spec fn edges_named(g: Seq<Seq<Edge>>) -> bool {
    forall|i: int, j: int|
        0 <= i < g.len() && 0 <= j < g[i].len() ==> {
            let e = #[trigger] g[i][j];
            &&& e.edge_type is Character ==> e.character is Some
            &&& e.edge_type is Range ==> e.range_start is Some && e.range_end is Some
        }
}

/// The pairs of an accepting state and its token, among the first `k`
/// states.
pub open spec fn accepting(accept: Seq<Option<usize>>, k: nat) -> Seq<(usize, usize)>
    decreases k,
{
    if k == 0 {
        seq![]
    } else {
        accepting(accept, (k - 1) as nat) + match accept[k - 1] {
            Some(tok) => seq![(((k - 1) as usize), tok)],
            None => seq![],
        }
    }
}

/// The transition lines of state `s` for its first `k` classes.
pub open spec fn row_text(s: nat, row: Seq<Option<usize>>, classes: Seq<(u32, u32)>, k: nat) -> Seq<char>
    decreases k,
{
    if k == 0 {
        seq![]
    } else {
        row_text(s, row, classes, (k - 1) as nat) + match row[k - 1] {
            Some(next) => "  state "@ + dec(s) + " -- [U+"@ + hex4(classes[k - 1].0 as nat) + ", U+"@ + hex4(
                classes[k - 1].1 as nat,
            ) + ") --> state "@ + dec(next as nat) + "\n"@,
            None => seq![],
        }
    }
}

/// The transition lines of the first `k` states.
pub open spec fn rows_text(t: Seq<Seq<Option<usize>>>, classes: Seq<(u32, u32)>, k: nat) -> Seq<char>
    decreases k,
{
    if k == 0 {
        seq![]
    } else {
        rows_text(t, classes, (k - 1) as nat) + row_text((k - 1) as nat, t[k - 1], classes, t[k - 1].len())
    }
}

/// The description of a DFA.
pub open spec fn dfa_text(dfa: DFA) -> Seq<char> {
    "DFA start state: "@ + dec(dfa.start_state as nat) + "\n"@ + "Number of states: "@ + dec(
        dfa.transitions.len() as nat,
    ) + "\n"@ + "Number of character classes: "@ + dec(dfa.intervals.len() as nat) + "\n"@
        + "Accept states: "@ + list_text(accepting(dfa.accept@, dfa.accept@.len())) + "\n"@
        + "Transitions:\n"@ + rows_text(table(dfa.transitions@), dfa.intervals@, dfa.transitions@.len())
}

fn push_pairs(out: &mut Vec<char>, ps: &Vec<(usize, usize)>)
    ensures
        final(out)@ == old(out)@ + list_text(ps@),
{
    let ghost base = out@;
    push_str(out, "[");
    let mut i: usize = 0;
    while i < ps.len()
        invariant
            i <= ps.len(),
            out@ == base + "["@ + pairs_text(ps@.take(i as int)),
        decreases ps.len() - i,
    {
        let ghost before = out@;
        if i > 0 {
            push_str(out, ", ");
        }
        let (a, b) = ps[i];
        push_str(out, "(");
        push_radix(out, a as u64, 10);
        push_str(out, ", ");
        push_radix(out, b as u64, 10);
        push_str(out, ")");
        proof {
            let taken = ps@.take(i + 1);
            assert(taken.drop_last() =~= ps@.take(i as int));
            assert(taken.last() == (a, b));
            if i == 0 {
                assert(taken.len() == 1);
                assert(taken[0] == (a, b));
                assert(out@ =~= base + "["@ + pairs_text(taken));
            } else {
                assert(out@ =~= base + "["@ + pairs_text(taken));
            }
        }
        i = i + 1;
    }
    assert(ps@.take(i as int) =~= ps@);
    push_str(out, "]");
    assert(out@ =~= base + list_text(ps@));
}

fn push_edge(out: &mut Vec<char>, e: Edge)
    requires
        e.edge_type is Character ==> e.character is Some,
        e.edge_type is Range ==> e.range_start is Some && e.range_end is Some,
    ensures
        final(out)@ == old(out)@ + edge_text(e),
{
    match e.edge_type {
        EdgeType::Epsilon => {
            push_str(out, "  ε -> ");
        },
        EdgeType::Character => {
            let ch = match e.character {
                Some(c) => c,
                None => 0,
            };
            match char_from(ch) {
                Some(c) => {
                    push_str(out, "  '");
                    out.push(c);
                    push_str(out, "' -> ");
                },
                None => {
                    push_str(out, "  U+");
                    push_hex4(out, ch);
                    push_str(out, " -> ");
                },
            }
        },
        EdgeType::Range => {
            let (a, b) = match (e.range_start, e.range_end) {
                (Some(a), Some(b)) => (a, b),
                _ => (0, 0),
            };
            push_str(out, "  [U+");
            push_hex4(out, a);
            push_str(out, ", U+");
            push_hex4(out, b);
            push_str(out, "] -> ");
        },
    }
    push_radix(out, e.target as u64, 10);
    push_str(out, "\n");
}

impl NFA {
    /// The start state, the accept states with their tokens, and the edges
    /// of each state, one per line.
    pub fn to_string(&self) -> (s: String)
        requires
            edges_named(self.states@.map_values(|st: crate::scanner::nfa::State| st.edges@)),
        ensures
            s@ == nfa_text(*self),
    {
        let ghost g = self.states@.map_values(|st: crate::scanner::nfa::State| st.edges@);
        let mut out: Vec<char> = Vec::new();
        push_str(&mut out, "Start state: ");
        push_radix(&mut out, self.start as u64, 10);
        push_str(&mut out, "\n");
        push_str(&mut out, "Accepts states: ");
        push_pairs(&mut out, &self.accepts);
        push_str(&mut out, "\n");
        let ghost head = out@;
        let mut i: usize = 0;
        while i < self.states.len()
            invariant
                g == self.states@.map_values(|st: crate::scanner::nfa::State| st.edges@),
                edges_named(g),
                i <= self.states.len(),
                out@ == head + states_text(g, i as nat),
            decreases self.states.len() - i,
        {
            let edges = &self.states[i].edges;
            assert(edges@ == g[i as int]);
            push_str(&mut out, "State ");
            push_radix(&mut out, i as u64, 10);
            push_str(&mut out, ":\n");
            let ghost mid = out@;
            let mut j: usize = 0;
            while j < edges.len()
                invariant
                    edges_named(g),
                    edges@ == g[i as int],
                    i < g.len(),
                    j <= edges.len(),
                    out@ == mid + edges_text(edges@, j as nat),
                decreases edges.len() - j,
            {
                assert(g[i as int][j as int] == edges@[j as int]);
                push_edge(&mut out, edges[j]);
                j = j + 1;
            }
            i = i + 1;
        }
        string_of(out.as_slice())
    }
}

impl DFA {
    /// The start state, the sizes, the accepting states with their tokens,
    /// and each transition with the range of its class, one per line.
    pub fn to_string(&self) -> (s: String)
        requires
            forall|r: int| 0 <= r < self.transitions.len() ==> (#[trigger] self.transitions@[r]).len() <= self.intervals.len(),
        ensures
            s@ == dfa_text(*self),
    {
        let ghost t = table(self.transitions@);
        let mut out: Vec<char> = Vec::new();
        push_str(&mut out, "DFA start state: ");
        push_radix(&mut out, self.start_state as u64, 10);
        push_str(&mut out, "\n");
        push_str(&mut out, "Number of states: ");
        push_radix(&mut out, self.transitions.len() as u64, 10);
        push_str(&mut out, "\n");
        push_str(&mut out, "Number of character classes: ");
        push_radix(&mut out, self.intervals.len() as u64, 10);
        push_str(&mut out, "\n");
        let mut acc: Vec<(usize, usize)> = Vec::new();
        let mut k: usize = 0;
        while k < self.accept.len()
            invariant
                k <= self.accept.len(),
                acc@ == accepting(self.accept@, k as nat),
            decreases self.accept.len() - k,
        {
            if let Some(tok) = self.accept[k] {
                acc.push((k, tok));
            }
            k = k + 1;
        }
        push_str(&mut out, "Accept states: ");
        push_pairs(&mut out, &acc);
        push_str(&mut out, "\n");
        push_str(&mut out, "Transitions:\n");
        let ghost head = out@;
        let mut i: usize = 0;
        while i < self.transitions.len()
            invariant
                t == table(self.transitions@),
                forall|r: int| 0 <= r < self.transitions.len() ==> (#[trigger] self.transitions@[r]).len() <= self.intervals.len(),
                i <= self.transitions.len(),
                out@ == head + rows_text(t, self.intervals@, i as nat),
            decreases self.transitions.len() - i,
        {
            let row = &self.transitions[i];
            assert(row@ == t[i as int]);
            let ghost mid = out@;
            let mut j: usize = 0;
            while j < row.len()
                invariant
                    row@ == t[i as int],
                    row.len() <= self.intervals.len(),
                    j <= row.len(),
                    out@ == mid + row_text(i as nat, row@, self.intervals@, j as nat),
                decreases row.len() - j,
            {
                if let Some(next) = row[j] {
                    let (start, end) = self.intervals[j];
                    push_str(&mut out, "  state ");
                    push_radix(&mut out, i as u64, 10);
                    push_str(&mut out, " -- [U+");
                    push_hex4(&mut out, start);
                    push_str(&mut out, ", U+");
                    push_hex4(&mut out, end);
                    push_str(&mut out, ") --> state ");
                    push_radix(&mut out, next as u64, 10);
                    push_str(&mut out, "\n");
                }
                j = j + 1;
            }
            i = i + 1;
        }
        string_of(out.as_slice())
    }
}

} // verus!
