//! The tables a generated scanner is rendered from, dense or compressed.
//!
//! Dense tables shift every state by one: state 0 of the generated scanner
//! is the dead state, and a missing transition leads there.
use vstd::prelude::*;
use crate::base::text::{dec, push_radix, push_str, string_of};
use crate::scanner::dfa::{CompressedDFA, DFA, compressed, table};

verus! {

pub struct DenseTables {
    pub start_state: usize,
    pub num_classes: usize,
    pub transitions: Vec<Vec<usize>>,
    pub accept: Vec<String>,
    pub skip_flags: Vec<bool>,
    pub intervals: Vec<(u32, u32)>,
}

pub struct CompressedTables {
    pub start_state: usize,
    pub num_classes: usize,
    pub states_len: usize,
    pub accept_len: usize,
    pub default_trans: Vec<usize>,
    /// `(state, class, next)`, ordered by state and class.
    pub special_trans: Vec<(usize, usize, usize)>,
    pub accept: Vec<String>,
    pub skip_flags: Vec<bool>,
    pub intervals: Vec<(u32, u32)>,
}

/// A row of the dense table: states shifted by one, 0 for no transition.
pub open spec fn dense_row(row: Seq<Option<usize>>) -> Seq<usize> {
    row.map_values(
        |e: Option<usize>|
            match e {
                Some(s) => (s + 1) as usize,
                None => 0usize,
            },
    )
}

/// How the token a state accepts is written in the generated code.
pub open spec fn accept_text(a: Option<usize>) -> Seq<char> {
    match a {
        Some(t) => "Some("@ + dec(t as nat) + ")"@,
        None => "None"@,
    }
}

/// One flag per token: whether it is skipped (its index is listed).
pub open spec fn skip_flags_of(total: nat, ids: Seq<usize>) -> Seq<bool> {
    Seq::new(total, |i: int| exists|k: int| 0 <= k < ids.len() && ids[k] == i)
}

/// The tables of the dense scanner for `dfa`.
pub open spec fn dense_of(dfa: DFA, total: nat, ids: Seq<usize>, t: DenseTables) -> bool {
    &&& t.start_state == dfa.start_state + 1
    &&& t.num_classes == dfa.intervals.len()
    &&& t.transitions@.map_values(|r: Vec<usize>| r@) == seq![Seq::new(dfa.intervals.len() as nat, |j: int| 0usize)]
        + table(dfa.transitions@).map_values(|row: Seq<Option<usize>>| dense_row(row))
    &&& t.accept@.map_values(|s: String| s@) == seq!["None"@] + dfa.accept@.map_values(
        |a: Option<usize>| accept_text(a),
    )
    &&& t.skip_flags@ == skip_flags_of(total, ids)
    &&& t.intervals@ == dfa.intervals@
}

/// The exceptions of the compressed table as `(state, class, next)`,
/// state by state.
pub open spec fn flat_special(st: Seq<Seq<(usize, usize)>>) -> Seq<(usize, usize, usize)>
    decreases st.len(),
{
    if st.len() == 0 {
        seq![]
    } else {
        flat_special(st.drop_last()) + st.last().map_values(
            |p: (usize, usize)| ((st.len() - 1) as usize, p.0, p.1),
        )
    }
}

/// The tables of the compressed scanner built from `c`.
pub open spec fn compressed_of(c: CompressedDFA, total: nat, ids: Seq<usize>, t: CompressedTables) -> bool {
    &&& t.start_state == c.start_state
    &&& t.num_classes == c.intervals.len()
    &&& t.states_len == c.default_trans.len()
    &&& t.accept_len == c.accept.len()
    &&& t.default_trans@ == c.default_trans@
    &&& t.special_trans@ == flat_special(c.special_trans@.map_values(|v: Vec<(usize, usize)>| v@))
    &&& t.accept@.map_values(|s: String| s@) == c.accept@.map_values(|a: Option<usize>| accept_text(a))
    &&& t.skip_flags@ == skip_flags_of(total, ids)
    &&& t.intervals@ == c.intervals@
}

fn accept_string(a: Option<usize>) -> (s: String)
    ensures
        s@ == accept_text(a),
{
    let mut v: Vec<char> = Vec::new();
    match a {
        Some(t) => {
            push_str(&mut v, "Some(");
            push_radix(&mut v, t as u64, 10);
            push_str(&mut v, ")");
        },
        None => {
            push_str(&mut v, "None");
        },
    }
    string_of(v.as_slice())
}

/// One flag per token, set for the listed token indices below `total`.
fn skip_flags(total: usize, skip_token_ids: &[usize]) -> (flags: Vec<bool>)
    ensures
        flags@ == skip_flags_of(total as nat, skip_token_ids@),
{
    let mut flags: Vec<bool> = Vec::new();
    let mut i: usize = 0;
    while i < total
        invariant
            i <= total,
            flags.len() == i,
            forall|x: int| 0 <= x < i ==> !flags@[x],
        decreases total - i,
    {
        flags.push(false);
        i = i + 1;
    }
    let mut k: usize = 0;
    while k < skip_token_ids.len()
        invariant
            k <= skip_token_ids.len(),
            flags.len() == total,
            forall|x: int|
                0 <= x < total ==> flags@[x] == exists|j: int| 0 <= j < k && skip_token_ids@[j] == x,
        decreases skip_token_ids.len() - k,
    {
        let id = skip_token_ids[k];
        if id < total {
            flags.set(id, true);
        }
        proof {
            assert forall|x: int| 0 <= x < total implies flags@[x] == exists|j: int|
                0 <= j < k + 1 && skip_token_ids@[j] == x by {
                if x == id {
                    assert(skip_token_ids@[k as int] == x);
                } else if exists|j: int| 0 <= j < k + 1 && skip_token_ids@[j] == x {
                    let j = choose|j: int| 0 <= j < k + 1 && skip_token_ids@[j] == x;
                    assert(j != k);
                }
            }
        }
        k = k + 1;
    }
    assert(flags@ =~= skip_flags_of(total as nat, skip_token_ids@));
    flags
}

fn accept_strings(accept: &Vec<Option<usize>>) -> (v: Vec<String>)
    ensures
        v@.map_values(|s: String| s@) == accept@.map_values(|a: Option<usize>| accept_text(a)),
{
    let mut v: Vec<String> = Vec::new();
    let mut i: usize = 0;
    while i < accept.len()
        invariant
            i <= accept.len(),
            v@.map_values(|s: String| s@) == accept@.take(i as int).map_values(
                |a: Option<usize>| accept_text(a),
            ),
        decreases accept.len() - i,
    {
        let ghost before = v@.map_values(|s: String| s@);
        let s = accept_string(accept[i]);
        let ghost sv = s@;
        v.push(s);
        assert(v@.map_values(|s: String| s@) =~= before.push(sv));
        i = i + 1;
        assert(v@.map_values(|s: String| s@) =~= accept@.take(i as int).map_values(
            |a: Option<usize>| accept_text(a),
        ));
    }
    assert(accept@.take(i as int) =~= accept@);
    v
}

fn copy_intervals(v: &Vec<(u32, u32)>) -> (r: Vec<(u32, u32)>)
    ensures
        r@ == v@,
{
    let mut r: Vec<(u32, u32)> = Vec::new();
    let mut i: usize = 0;
    while i < v.len()
        invariant
            i <= v.len(),
            r@ == v@.take(i as int),
        decreases v.len() - i,
    {
        r.push(v[i]);
        i = i + 1;
        assert(r@ =~= v@.take(i as int));
    }
    assert(v@.take(i as int) =~= v@);
    r
}

/// The dense tables of a scanner for `dfa`; the token indices in
/// `skip_token_ids` are flagged as skipped among the
/// `num_tokens + skip_token_ids.len()` tokens.
pub fn dense_tables(dfa: &DFA, num_tokens: usize, skip_token_ids: &[usize]) -> (t: DenseTables)
    requires
        dfa.wf(),
        dfa.transitions.len() < usize::MAX,
        dfa.start_state < usize::MAX,
        num_tokens + skip_token_ids@.len() <= usize::MAX,
    ensures
        dense_of(*dfa, (num_tokens + skip_token_ids@.len()) as nat, skip_token_ids@, t),
{
    let ghost tb = table(dfa.transitions@);
    let num_classes = dfa.intervals.len();
    let mut zero: Vec<usize> = Vec::new();
    let mut j: usize = 0;
    while j < num_classes
        invariant
            j <= num_classes,
            zero@ == Seq::new(j as nat, |x: int| 0usize),
        decreases num_classes - j,
    {
        zero.push(0);
        j = j + 1;
        assert(zero@ =~= Seq::new(j as nat, |x: int| 0usize));
    }
    let mut transitions: Vec<Vec<usize>> = Vec::new();
    transitions.push(zero);
    let ghost head = transitions@.map_values(|r: Vec<usize>| r@);
    let mut i: usize = 0;
    assert(tb.take(0).map_values(|row: Seq<Option<usize>>| dense_row(row)) =~= seq![]);
    assert(head + seq![] =~= head);
    while i < dfa.transitions.len()
        invariant
            tb == table(dfa.transitions@),
            dfa.wf(),
            dfa.transitions.len() < usize::MAX,
            i <= dfa.transitions.len(),
            transitions@.map_values(|r: Vec<usize>| r@) == head + tb.take(i as int).map_values(
                |row: Seq<Option<usize>>| dense_row(row),
            ),
        decreases dfa.transitions.len() - i,
    {
        let row = &dfa.transitions[i];
        assert(row@ == tb[i as int]);
        let mut out: Vec<usize> = Vec::new();
        let mut c: usize = 0;
        while c < row.len()
            invariant
                dfa.wf(),
                row@ == tb[i as int],
                tb == table(dfa.transitions@),
                i < dfa.transitions.len() < usize::MAX,
                c <= row.len(),
                out@ == dense_row(row@.take(c as int)),
            decreases row.len() - c,
        {
            let v = match row[c] {
                Some(s) => {
                    assert(s < dfa.transitions.len());
                    s + 1
                },
                None => 0,
            };
            out.push(v);
            c = c + 1;
            assert(out@ =~= dense_row(row@.take(c as int)));
        }
        assert(row@.take(c as int) =~= row@);
        let ghost before = transitions@.map_values(|r: Vec<usize>| r@);
        let ghost ov = out@;
        transitions.push(out);
        assert(transitions@.map_values(|r: Vec<usize>| r@) =~= before.push(ov));
        assert(tb.take(i + 1).map_values(|row: Seq<Option<usize>>| dense_row(row)) =~= tb.take(
            i as int,
        ).map_values(|row: Seq<Option<usize>>| dense_row(row)).push(ov));
        i = i + 1;
    }
    assert(tb.take(i as int) =~= tb);
    let mut accept: Vec<String> = Vec::new();
    let mut none = Vec::new();
    push_str(&mut none, "None");
    accept.push(string_of(none.as_slice()));
    let rest = accept_strings(&dfa.accept);
    let mut k: usize = 0;
    let ghost first = accept@.map_values(|s: String| s@);
    assert(first =~= seq!["None"@]);
    while k < rest.len()
        invariant
            k <= rest.len(),
            accept@.map_values(|s: String| s@) == first + rest@.take(k as int).map_values(|s: String| s@),
        decreases rest.len() - k,
    {
        let ghost before = accept@.map_values(|s: String| s@);
        let s = rest[k].clone();
        let ghost sv = s@;
        accept.push(s);
        assert(accept@.map_values(|s: String| s@) =~= before.push(sv));
        k = k + 1;
        assert(accept@.map_values(|s: String| s@) =~= first + rest@.take(k as int).map_values(|s: String| s@));
    }
    assert(rest@.take(k as int) =~= rest@);
    let total = num_tokens + skip_token_ids.len();
    let t = DenseTables {
        start_state: dfa.start_state + 1,
        num_classes,
        transitions,
        accept,
        skip_flags: skip_flags(total, skip_token_ids),
        intervals: copy_intervals(&dfa.intervals),
    };
    assert(t.transitions@.map_values(|r: Vec<usize>| r@) == seq![Seq::new(dfa.intervals.len() as nat, |j: int| 0usize)]
        + tb.map_values(|row: Seq<Option<usize>>| dense_row(row)));
    assert(t.accept@.map_values(|s: String| s@) == seq!["None"@] + dfa.accept@.map_values(
        |a: Option<usize>| accept_text(a),
    ));
    t
}

/// The tables of the compressed scanner for `dfa`.
pub fn compressed_tables(dfa: &DFA, num_tokens: usize, skip_token_ids: &[usize]) -> (r: (
    CompressedDFA,
    CompressedTables,
))
    requires
        num_tokens + skip_token_ids@.len() <= usize::MAX,
    ensures
        compressed(*dfa, r.0),
        compressed_of(r.0, (num_tokens + skip_token_ids@.len()) as nat, skip_token_ids@, r.1),
{
    let c = dfa.compress();
    let ghost st = c.special_trans@.map_values(|v: Vec<(usize, usize)>| v@);
    let mut flat: Vec<(usize, usize, usize)> = Vec::new();
    let mut s: usize = 0;
    assert(st.take(0) =~= seq![]);
    while s < c.special_trans.len()
        invariant
            st == c.special_trans@.map_values(|v: Vec<(usize, usize)>| v@),
            s <= c.special_trans.len(),
            flat@ == flat_special(st.take(s as int)),
        decreases c.special_trans.len() - s,
    {
        let row = &c.special_trans[s];
        assert(row@ == st[s as int]);
        let ghost base = flat@;
        let mut k: usize = 0;
        while k < row.len()
            invariant
                s < c.special_trans.len(),
                k <= row.len(),
                flat@ == base + row@.take(k as int).map_values(
                    |p: (usize, usize)| (s as usize, p.0, p.1),
                ),
            decreases row.len() - k,
        {
            let (class, next) = row[k];
            flat.push((s, class, next));
            k = k + 1;
            assert(flat@ =~= base + row@.take(k as int).map_values(
                |p: (usize, usize)| (s as usize, p.0, p.1),
            ));
        }
        assert(row@.take(k as int) =~= row@);
        let ghost t1 = st.take(s + 1);
        assert(t1.drop_last() =~= st.take(s as int));
        assert(t1.last() == st[s as int]);
        assert(flat@ =~= flat_special(t1));
        s = s + 1;
    }
    assert(st.take(s as int) =~= st);
    let accept = accept_strings(&c.accept);
    let total = num_tokens + skip_token_ids.len();
    let tables = CompressedTables {
        start_state: c.start_state,
        num_classes: c.intervals.len(),
        states_len: c.default_trans.len(),
        accept_len: c.accept.len(),
        default_trans: copy_list(&c.default_trans),
        special_trans: flat,
        accept,
        skip_flags: skip_flags(total, skip_token_ids),
        intervals: copy_intervals(&c.intervals),
    };
    (c, tables)
}

fn copy_list(v: &Vec<usize>) -> (r: Vec<usize>)
    ensures
        r@ == v@,
{
    let mut r: Vec<usize> = Vec::new();
    let mut i: usize = 0;
    while i < v.len()
        invariant
            i <= v.len(),
            r@ == v@.take(i as int),
        decreases v.len() - i,
    {
        r.push(v[i]);
        i = i + 1;
        assert(r@ =~= v@.take(i as int));
    }
    assert(v@.take(i as int) =~= v@);
    r
}

} // verus!
