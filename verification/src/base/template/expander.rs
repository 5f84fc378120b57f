//! Expansion of `{NAME}` template references inside regular expressions.
use vstd::prelude::*;
use crate::base::error::Error;
use crate::base::text::{
    ascii_alphabetic, ascii_alphanumeric, chars_of, is_ascii_alphabetic, is_ascii_alphanumeric,
    push_chars, push_str, string_of,
};
use crate::config::PatternDef;

verus! {

/// Named template bodies, each name once.
#[derive(Debug, Clone)]
pub struct TemplateMap {
    names: Vec<String>,
    bodies: Vec<String>,
}

impl TemplateMap {
    /// Names and bodies pair up and no name occurs twice.
    pub closed spec fn wf(&self) -> bool {
        &&& self.names.len() == self.bodies.len()
        &&& forall|i: int, j: int|
            0 <= i < j < self.names.len() ==> self.names@[i]@ != self.names@[j]@
    }

    pub closed spec fn has_key(&self, k: Seq<char>) -> bool {
        exists|i: int| 0 <= i < self.names.len() && self.names@[i]@ == k
    }

    pub closed spec fn key_index(&self, k: Seq<char>) -> int {
        choose|i: int| 0 <= i < self.names.len() && self.names@[i]@ == k
    }

    /// The templates as a map from name to body.
    pub closed spec fn as_map(&self) -> Map<Seq<char>, Seq<char>> {
        Map::new(|k: Seq<char>| self.has_key(k), |k: Seq<char>| self.bodies@[self.key_index(k)]@)
    }

    proof fn lemma_index(&self, i: int)
        requires
            self.wf(),
            0 <= i < self.names.len(),
        ensures
            self@.contains_key(self.names@[i]@),
            self@[self.names@[i]@] == self.bodies@[i]@,
    {
        let k = self.names@[i]@;
        assert(self.has_key(k));
        let j = self.key_index(k);
        assert(j == i);
    }

    pub proof fn lemma_finite(&self)
        ensures
            self@.dom().finite(),
    {
        let keys = self.names@.map_values(|s: String| s@).to_set();
        assert(self@.dom().subset_of(keys)) by {
            assert forall|k: Seq<char>| self@.dom().contains(k) implies keys.contains(k) by {
                let i = choose|i: int| 0 <= i < self.names.len() && self.names@[i]@ == k;
                assert(self.names@.map_values(|s: String| s@)[i] == k);
            }
        }
        vstd::set_lib::lemma_len_subset(self@.dom(), keys);
    }

    pub fn new() -> (m: Self)
        ensures
            m.wf(),
            m@ == Map::<Seq<char>, Seq<char>>::empty(),
    {
        let m = TemplateMap { names: Vec::new(), bodies: Vec::new() };
        assert(m@ =~= Map::<Seq<char>, Seq<char>>::empty());
        m
    }

    pub fn len(&self) -> (n: usize)
        requires
            self.wf(),
        ensures
            n == self@.len(),
    {
        proof {
            self.lemma_finite();
            let keys = self.names@.map_values(|s: String| s@);
            assert(keys.no_duplicates());
            keys.unique_seq_to_set();
            assert(self@.dom() =~= keys.to_set()) by {
                assert forall|k: Seq<char>| keys.to_set().contains(k) implies self@.dom().contains(k) by {
                    let i = choose|i: int| 0 <= i < keys.len() && keys[i] == k;
                    assert(self.names@[i]@ == k);
                }
                assert forall|k: Seq<char>| self@.dom().contains(k) implies keys.to_set().contains(k) by {
                    let i = choose|i: int| 0 <= i < self.names.len() && self.names@[i]@ == k;
                    assert(keys[i] == k);
                }
            }
        }
        self.names.len()
    }

    /// The templates as name and body pairs, each name once.
    pub fn entries(&self) -> (r: Vec<(String, String)>)
        requires
            self.wf(),
        ensures
            forall|i: int| 0 <= i < r.len() ==> #[trigger] self@.contains_key(r@[i].0@) && self@[r@[i].0@] == r@[i].1@,
            forall|k: Seq<char>| #[trigger] self@.contains_key(k) ==> exists|i: int| 0 <= i < r.len() && r@[i].0@ == k,
            forall|i: int, j: int| 0 <= i < j < r.len() ==> r@[i].0@ != r@[j].0@,
    {
        let mut r: Vec<(String, String)> = Vec::new();
        let mut i: usize = 0;
        while i < self.names.len()
            invariant
                self.wf(),
                i <= self.names.len(),
                r.len() == i,
                forall|m: int| 0 <= m < i ==> #[trigger] r@[m].0@ == self.names@[m]@ && r@[m].1@ == self.bodies@[m]@,
            decreases self.names.len() - i,
        {
            r.push((self.names[i].clone(), self.bodies[i].clone()));
            i = i + 1;
        }
        proof {
            assert forall|m: int| 0 <= m < r.len() implies #[trigger] self@.contains_key(r@[m].0@) && self@[r@[m].0@] == r@[m].1@ by {
                self.lemma_index(m);
            }
            assert forall|k: Seq<char>| #[trigger] self@.contains_key(k) implies exists|m: int| 0 <= m < r.len() && r@[m].0@ == k by {
                assert(self.has_key(k));
                let m = choose|m: int| 0 <= m < self.names.len() && self.names@[m]@ == k;
                assert(r@[m].0@ == k);
            }
        }
        r
    }

    /// The index of `name`, if it is a key.
    fn find(&self, name: &String) -> (r: Option<usize>)
        requires
            self.wf(),
        ensures
            r matches Some(i) ==> i < self.names.len() && self.names@[i as int]@ == name@,
            r is None ==> !self@.contains_key(name@),
    {
        let mut i: usize = 0;
        while i < self.names.len()
            invariant
                i <= self.names.len(),
                forall|k: int| 0 <= k < i ==> self.names@[k]@ != name@,
            decreases self.names.len() - i,
        {
            if self.names[i] == *name {
                return Some(i);
            }
            i = i + 1;
        }
        None
    }

    /// The body stored under `name`.
    pub fn get(&self, name: &String) -> (r: Option<&String>)
        requires
            self.wf(),
        ensures
            r matches Some(b) ==> self@.contains_key(name@) && b@ == self@[name@],
            r is None ==> !self@.contains_key(name@),
    {
        match self.find(name) {
            Some(i) => {
                proof {
                    self.lemma_index(i as int);
                }
                Some(&self.bodies[i])
            },
            None => None,
        }
    }

    /// Stores `body` under `name`, handing back the body it replaces.
    pub fn insert(&mut self, name: String, body: String) -> (r: Option<String>)
        requires
            old(self).wf(),
        ensures
            final(self).wf(),
            final(self)@ == old(self)@.insert(name@, body@),
            r matches Some(b) ==> old(self)@.contains_key(name@) && b@ == old(self)@[name@],
            r is None ==> !old(self)@.contains_key(name@),
    {
        let ghost old_self = *self;
        match self.find(&name) {
            Some(i) => {
                proof {
                    old_self.lemma_index(i as int);
                }
                let mut bodies: Vec<String> = Vec::new();
                std::mem::swap(&mut bodies, &mut self.bodies);
                let mut replaced = body;
                std::mem::swap(&mut replaced, &mut bodies[i]);
                self.bodies = bodies;
                assert(self@ =~= old_self@.insert(name@, body@)) by {
                    assert forall|k: Seq<char>| #[trigger] self@.contains_key(k) <==> old_self@.insert(name@, body@).contains_key(k) by {
                        assert(self.names@ == old_self.names@);
                        assert(self.has_key(k) == old_self.has_key(k));
                    }
                    assert forall|k: Seq<char>| self@.contains_key(k) implies #[trigger] self@[k] == old_self@.insert(name@, body@)[k] by {
                        let j = self.key_index(k);
                        assert(self.names@[j]@ == k);
                        self.lemma_index(j);
                        if k != name@ {
                            old_self.lemma_index(j);
                        }
                    }
                }
                Some(replaced)
            },
            None => {
                self.names.push(name);
                self.bodies.push(body);
                assert(self@ =~= old_self@.insert(name@, body@)) by {
                    let n = old_self.names.len() as int;
                    assert forall|k: Seq<char>| #[trigger] self@.contains_key(k) <==> old_self@.insert(name@, body@).contains_key(k) by {
                        if self.has_key(k) {
                            let j = choose|j: int| 0 <= j < self.names.len() && self.names@[j]@ == k;
                            if j < n {
                                assert(old_self.names@[j]@ == k);
                            }
                        }
                        if old_self.has_key(k) {
                            let j = choose|j: int| 0 <= j < old_self.names.len() && old_self.names@[j]@ == k;
                            assert(self.names@[j]@ == k);
                        }
                        if k == name@ {
                            assert(self.names@[n]@ == k);
                        }
                    }
                    assert forall|k: Seq<char>| self@.contains_key(k) implies #[trigger] self@[k] == old_self@.insert(name@, body@)[k] by {
                        let j = self.key_index(k);
                        self.lemma_index(j);
                        if j < n {
                            assert(old_self.names@[j]@ == k);
                            old_self.lemma_index(j);
                        }
                    }
                }
                None
            },
        }
    }
}

impl View for TemplateMap {
    type V = Map<Seq<char>, Seq<char>>;

    open spec fn view(&self) -> Map<Seq<char>, Seq<char>> {
        self.as_map()
    }
}

/// How many templates are not yet being expanded.
pub open spec fn unseen(t: Map<Seq<char>, Seq<char>>, seen: Seq<Seq<char>>) -> nat {
    t.dom().difference(seen.to_set()).len()
}

pub proof fn lemma_unseen_shrinks(t: Map<Seq<char>, Seq<char>>, seen: Seq<Seq<char>>, k: Seq<char>)
    requires
        t.dom().finite(),
        t.contains_key(k),
        !seen.contains(k),
    ensures
        unseen(t, seen.push(k)) < unseen(t, seen),
{
    let a = t.dom().difference(seen.to_set());
    let b = t.dom().difference(seen.push(k).to_set());
    assert(b =~= a.remove(k)) by {
        assert forall|x: Seq<char>| #[trigger] b.contains(x) <==> a.remove(k).contains(x) by {
            if seen.push(k).contains(x) && x != k {
                let i = choose|i: int| 0 <= i < seen.push(k).len() && seen.push(k)[i] == x;
                assert(seen[i] == x);
            }
            if seen.contains(x) {
                let i = choose|i: int| 0 <= i < seen.len() && seen[i] == x;
                assert(seen.push(k)[i] == x);
            }
            if x == k {
                assert(seen.push(k)[seen.len() as int] == x);
            }
        }
    }
    assert(a.finite());
    assert(a.contains(k));
}

/// The end of the run of name characters from `j`.
pub open spec fn name_end(s: Seq<char>, j: int) -> int
    decreases s.len() - j,
{
    if 0 <= j < s.len() && (is_ascii_alphanumeric(s[j]) || s[j] == '_') {
        name_end(s, j + 1)
    } else {
        j
    }
}

/// The names joined by `sep`.
pub open spec fn join(list: Seq<Seq<char>>, sep: Seq<char>) -> Seq<char>
    decreases list.len(),
{
    if list.len() == 0 {
        seq![]
    } else if list.len() == 1 {
        list[0]
    } else {
        join(list.drop_last(), sep) + sep + list.last()
    }
}

pub open spec fn undefined_msg(name: Seq<char>) -> Seq<char> {
    "Undefined template: '"@ + name + "'"@
}

pub open spec fn cyclic_msg(seen: Seq<Seq<char>>, name: Seq<char>) -> Seq<char> {
    "Cyclic template reference: "@ + join(seen, " -> "@) + " -> "@ + name
}

/// The expansion of `s` from index `i` on, appended to `out`, while the
/// templates in `seen` are being expanded. An error carries its message and
/// the list of templates being expanded when it arose.
pub open spec fn expand_at(
    s: Seq<char>,
    i: int,
    t: Map<Seq<char>, Seq<char>>,
    seen: Seq<Seq<char>>,
    out: Seq<char>,
) -> Result<Seq<char>, (Seq<char>, Seq<Seq<char>>)>
    decreases unseen(t, seen), s.len() - i,
{
    if !t.dom().finite() || i < 0 || i >= s.len() {
        Ok(out)
    } else {
        let ch = s[i];
        if ch == '\\' {
            if i + 1 < s.len() {
                expand_at(s, i + 2, t, seen, out.push('\\').push(s[i + 1]))
            } else {
                expand_at(s, i + 1, t, seen, out.push('\\'))
            }
        } else if ch == '{' {
            let start = i + 1;
            let end = name_end(s, start);
            let valid = end > start && start < s.len() && (is_ascii_alphabetic(s[start]) || s[start]
                == '_');
            if start <= end < s.len() && s[end] == '}' && valid {
                let name = s.subrange(start, end);
                if !t.contains_key(name) {
                    Err((undefined_msg(name), seen))
                } else if seen.contains(name) {
                    Err((cyclic_msg(seen, name), seen))
                } else {
                    proof {
                        lemma_unseen_shrinks(t, seen, name);
                    }
                    match expand_at(t[name], 0, t, seen.push(name), seq![]) {
                        Err(e) => Err(e),
                        Ok(x) => expand_at(s, end + 1, t, seen, out + x),
                    }
                }
            } else {
                expand_at(s, i + 1, t, seen, out.push('{'))
            }
        } else {
            expand_at(s, i + 1, t, seen, out.push(ch))
        }
    }
}

proof fn lemma_plain_from(
    s: Seq<char>,
    i: int,
    t: Map<Seq<char>, Seq<char>>,
    seen: Seq<Seq<char>>,
    out: Seq<char>,
)
    requires
        t.dom().finite(),
        0 <= i <= s.len(),
        forall|k: int| i <= k < s.len() ==> #[trigger] s[k] != '{',
    ensures
        expand_at(s, i, t, seen, out) == Ok::<Seq<char>, (Seq<char>, Seq<Seq<char>>)>(
            out + s.subrange(i, s.len() as int),
        ),
    decreases s.len() - i,
{
    if i == s.len() {
        assert(out + s.subrange(i, s.len() as int) =~= out);
    } else {
        assert(s[i] != '{');
        if s[i] == '\\' && i + 1 < s.len() {
            lemma_plain_from(s, i + 2, t, seen, out.push('\\').push(s[i + 1]));
            assert(out.push('\\').push(s[i + 1]) + s.subrange(i + 2, s.len() as int) =~= out
                + s.subrange(i, s.len() as int));
        } else {
            lemma_plain_from(s, i + 1, t, seen, out.push(s[i]));
            assert(out.push(s[i]) + s.subrange(i + 1, s.len() as int) =~= out + s.subrange(
                i,
                s.len() as int,
            ));
        }
    }
}

/// A text without `{` names no template: it expands to itself, whatever
/// templates are defined.
pub proof fn law_plain_text_unchanged(t: Map<Seq<char>, Seq<char>>, s: Seq<char>)
    requires
        t.dom().finite(),
        !s.contains('{'),
    ensures
        expand_at(s, 0, t, seq![], seq![]) == Ok::<Seq<char>, (Seq<char>, Seq<Seq<char>>)>(s),
{
    assert forall|k: int| 0 <= k < s.len() implies #[trigger] s[k] != '{' by {
        if s[k] == '{' {
            assert(s.contains('{'));
        }
    }
    lemma_plain_from(s, 0, t, seq![], seq![]);
    assert(Seq::<char>::empty() + s.subrange(0, s.len() as int) =~= s);
}

/// Whether `name` can be written as a template reference: a letter or `_`,
/// then letters, digits and `_`.
pub open spec fn template_name(name: Seq<char>) -> bool {
    &&& name.len() > 0
    &&& (is_ascii_alphabetic(name[0]) || name[0] == '_')
    &&& forall|k: int| 0 <= k < name.len() ==> is_ascii_alphanumeric(#[trigger] name[k]) || name[k] == '_'
}

proof fn lemma_name_end(s: Seq<char>, j: int, e: int)
    requires
        0 <= j <= e < s.len(),
        forall|k: int| j <= k < e ==> is_ascii_alphanumeric(#[trigger] s[k]) || s[k] == '_',
        s[e] == '}',
    ensures
        name_end(s, j) == e,
    decreases e - j,
{
    if j < e {
        lemma_name_end(s, j + 1, e);
    }
}

/// A reference to a template whose body names no template is replaced by
/// that body.
pub proof fn law_reference_replaced(t: Map<Seq<char>, Seq<char>>, name: Seq<char>)
    requires
        t.dom().finite(),
        template_name(name),
        t.contains_key(name),
        !t[name].contains('{'),
    ensures
        expand_at(seq!['{'] + name + seq!['}'], 0, t, seq![], seq![]) == Ok::<
            Seq<char>,
            (Seq<char>, Seq<Seq<char>>),
        >(t[name]),
{
    let s = seq!['{'] + name + seq!['}'];
    let e: int = name.len() as int + 1;
    assert forall|k: int| 1 <= k < e implies is_ascii_alphanumeric(#[trigger] s[k]) || s[k] == '_' by {
        assert(s[k] == name[k - 1]);
    }
    assert(s[e] == '}');
    lemma_name_end(s, 1, e);
    assert(s.subrange(1, e) =~= name);
    assert(s[1] == name[0]);
    assert(!Seq::<Seq<char>>::empty().contains(name));
    let seen1 = Seq::<Seq<char>>::empty().push(name);
    assert forall|k: int| 0 <= k < t[name].len() implies #[trigger] t[name][k] != '{' by {
        if t[name][k] == '{' {
            assert(t[name].contains('{'));
        }
    }
    lemma_plain_from(t[name], 0, t, seen1, seq![]);
    assert(Seq::<char>::empty() + t[name].subrange(0, t[name].len() as int) =~= t[name]);
    assert(expand_at(t[name], 0, t, seen1, seq![]) == Ok::<Seq<char>, (Seq<char>, Seq<Seq<char>>)>(t[name]));
    assert(e + 1 == s.len());
    assert(Seq::<char>::empty() + t[name] =~= t[name]);
    assert(expand_at(s, e + 1, t, seq![], t[name]) == Ok::<Seq<char>, (Seq<char>, Seq<Seq<char>>)>(t[name]));
    assert(name_end(s, 1) == e);
    assert(expand_at(s, 0, t, seq![], seq![]) == expand_at(s, e + 1, t, seq![], Seq::<char>::empty() + t[name]));
}

/// Plain text without `{` and `\` is copied as it stands.
proof fn lemma_plain_prefix(
    s: Seq<char>,
    i: int,
    m: int,
    t: Map<Seq<char>, Seq<char>>,
    seen: Seq<Seq<char>>,
    out: Seq<char>,
)
    requires
        t.dom().finite(),
        0 <= i <= m <= s.len(),
        forall|k: int| i <= k < m ==> #[trigger] s[k] != '{' && s[k] != '\\',
    ensures
        expand_at(s, i, t, seen, out) == expand_at(s, m, t, seen, out + s.subrange(i, m)),
    decreases m - i,
{
    if i == m {
        assert(out + s.subrange(i, m) =~= out);
    } else {
        lemma_plain_prefix(s, i + 1, m, t, seen, out.push(s[i]));
        assert(out.push(s[i]) + s.subrange(i + 1, m) =~= out + s.subrange(i, m));
    }
}

/// Reading a reference after plain text: the text and the full expansion
/// of the template's body are written, and the scan goes on after the `}`.
proof fn lemma_ref_step(t: Map<Seq<char>, Seq<char>>, pre: Seq<char>, name: Seq<char>, post: Seq<char>, x: Seq<char>)
    requires
        t.dom().finite(),
        template_name(name),
        t.contains_key(name),
        !pre.contains('{'),
        !pre.contains('\\'),
        expand_at(t[name], 0, t, seq![name], seq![]) == Ok::<Seq<char>, (Seq<char>, Seq<Seq<char>>)>(x),
    ensures
        expand_at(pre + seq!['{'] + name + seq!['}'] + post, 0, t, seq![], seq![]) == expand_at(
            pre + seq!['{'] + name + seq!['}'] + post,
            (pre.len() + name.len() + 2) as int,
            t,
            seq![],
            pre + x,
        ),
{
    let s = pre + seq!['{'] + name + seq!['}'] + post;
    let m = pre.len() as int;
    let e: int = m + name.len() + 1;
    assert forall|k: int| 0 <= k < m implies #[trigger] s[k] != '{' && s[k] != '\\' by {
        assert(s[k] == pre[k]);
        if pre[k] == '{' {
            assert(pre.contains('{'));
        }
        if pre[k] == '\\' {
            assert(pre.contains('\\'));
        }
    }
    lemma_plain_prefix(s, 0, m, t, seq![], seq![]);
    assert(Seq::<char>::empty() + s.subrange(0, m) =~= pre);
    assert(s[m] == '{');
    assert forall|k: int| m + 1 <= k < e implies is_ascii_alphanumeric(#[trigger] s[k]) || s[k] == '_' by {
        assert(s[k] == name[k - m - 1]);
    }
    assert(s[e] == '}');
    lemma_name_end(s, m + 1, e);
    assert(s.subrange(m + 1, e) =~= name);
    assert(s[m + 1] == name[0]);
    assert(!Seq::<Seq<char>>::empty().contains(name));
    assert(Seq::<Seq<char>>::empty().push(name) =~= seq![name]);
    assert(expand_at(s, m, t, seq![], pre) == expand_at(s, e + 1, t, seq![], pre + x));
}

/// A reference between plain texts is replaced by the full expansion of
/// its template's body, made while that template is being expanded; text
/// around it is copied.
pub proof fn law_reference_expanded(
    t: Map<Seq<char>, Seq<char>>,
    pre: Seq<char>,
    name: Seq<char>,
    post: Seq<char>,
    x: Seq<char>,
)
    requires
        t.dom().finite(),
        template_name(name),
        t.contains_key(name),
        !pre.contains('{'),
        !pre.contains('\\'),
        !post.contains('{'),
        expand_at(t[name], 0, t, seq![name], seq![]) == Ok::<Seq<char>, (Seq<char>, Seq<Seq<char>>)>(x),
    ensures
        expand_at(pre + seq!['{'] + name + seq!['}'] + post, 0, t, seq![], seq![]) == Ok::<
            Seq<char>,
            (Seq<char>, Seq<Seq<char>>),
        >(pre + x + post),
{
    let s = pre + seq!['{'] + name + seq!['}'] + post;
    let e: int = (pre.len() + name.len() + 1) as int;
    lemma_ref_step(t, pre, name, post, x);
    assert forall|k: int| e + 1 <= k < s.len() implies #[trigger] s[k] != '{' by {
        assert(s[k] == post[k - e - 1]);
        if post[k - e - 1] == '{' {
            assert(post.contains('{'));
        }
    }
    lemma_plain_from(s, e + 1, t, seq![], pre + x);
    assert(s.subrange(e + 1, s.len() as int) =~= post);
}

/// The run of name characters from `j` ends at the same place behind text
/// put in front.
proof fn lemma_name_end_shift(p: Seq<char>, q: Seq<char>, j: int)
    requires
        0 <= j,
    ensures
        name_end(p + q, p.len() + j) == p.len() + name_end(q, j),
    decreases q.len() - j,
{
    if j < q.len() {
        assert((p + q)[p.len() + j] == q[j]);
        if is_ascii_alphanumeric(q[j]) || q[j] == '_' {
            lemma_name_end_shift(p, q, j + 1);
        }
    }
}

/// The scan looks only ahead: text before the current place does not
/// change what follows.
proof fn lemma_expand_shift(
    p: Seq<char>,
    q: Seq<char>,
    i: int,
    t: Map<Seq<char>, Seq<char>>,
    seen: Seq<Seq<char>>,
    out: Seq<char>,
)
    requires
        0 <= i,
    ensures
        expand_at(p + q, p.len() + i, t, seen, out) == expand_at(q, i, t, seen, out),
    decreases q.len() - i,
{
    let s = p + q;
    let n = p.len() as int;
    if t.dom().finite() && i < q.len() {
        assert(s[n + i] == q[i]);
        let ch = q[i];
        if ch == '\\' {
            if i + 1 < q.len() {
                assert(s[n + i + 1] == q[i + 1]);
                lemma_expand_shift(p, q, i + 2, t, seen, out.push('\\').push(q[i + 1]));
            } else {
                lemma_expand_shift(p, q, i + 1, t, seen, out.push('\\'));
            }
        } else if ch == '{' {
            lemma_name_end_shift(p, q, i + 1);
            let end = name_end(q, i + 1);
            if i + 1 < q.len() {
                assert(s[n + i + 1] == q[i + 1]);
            }
            if 0 <= end < q.len() {
                assert(s[n + end] == q[end]);
            }
            let valid = end > i + 1 && i + 1 < q.len() && (is_ascii_alphabetic(q[i + 1]) || q[i + 1] == '_');
            if i + 1 <= end < q.len() && q[end] == '}' && valid {
                let name = q.subrange(i + 1, end);
                assert(s.subrange(n + i + 1, n + end) =~= name);
                if t.contains_key(name) && !seen.contains(name) {
                    if let Ok(x) = expand_at(t[name], 0, t, seen.push(name), seq![]) {
                        lemma_expand_shift(p, q, end + 1, t, seen, out + x);
                    }
                }
            } else {
                lemma_expand_shift(p, q, i + 1, t, seen, out.push('{'));
            }
        } else {
            lemma_expand_shift(p, q, i + 1, t, seen, out.push(ch));
        }
    }
}

/// `r` with `out` written in front of what it expands to.
pub open spec fn after(out: Seq<char>, r: Result<Seq<char>, (Seq<char>, Seq<Seq<char>>)>) -> Result<
    Seq<char>,
    (Seq<char>, Seq<Seq<char>>),
> {
    match r {
        Ok(x) => Ok(out + x),
        Err(e) => Err(e),
    }
}

proof fn lemma_after_assoc(a: Seq<char>, b: Seq<char>, r: Result<Seq<char>, (Seq<char>, Seq<Seq<char>>)>)
    ensures
        after(a + b, r) == after(a, after(b, r)),
{
    if let Ok(x) = r {
        assert(a + b + x =~= a + (b + x));
    }
}

/// What has been written so far stays in front of the rest of the
/// expansion.
proof fn lemma_expand_prefix(
    s: Seq<char>,
    i: int,
    t: Map<Seq<char>, Seq<char>>,
    seen: Seq<Seq<char>>,
    out: Seq<char>,
)
    ensures
        expand_at(s, i, t, seen, out) == after(out, expand_at(s, i, t, seen, seq![])),
    decreases s.len() - i,
{
    if !t.dom().finite() || i < 0 || i >= s.len() {
        assert(out + Seq::<char>::empty() =~= out);
    } else {
        let ch = s[i];
        if ch == '\\' {
            if i + 1 < s.len() {
                let b = Seq::<char>::empty().push('\\').push(s[i + 1]);
                lemma_expand_prefix(s, i + 2, t, seen, out.push('\\').push(s[i + 1]));
                lemma_expand_prefix(s, i + 2, t, seen, b);
                assert(out.push('\\').push(s[i + 1]) =~= out + b);
                lemma_after_assoc(out, b, expand_at(s, i + 2, t, seen, seq![]));
            } else {
                let b = Seq::<char>::empty().push('\\');
                lemma_expand_prefix(s, i + 1, t, seen, out.push('\\'));
                lemma_expand_prefix(s, i + 1, t, seen, b);
                assert(out.push('\\') =~= out + b);
                lemma_after_assoc(out, b, expand_at(s, i + 1, t, seen, seq![]));
            }
        } else if ch == '{' {
            let start = i + 1;
            let end = name_end(s, start);
            let valid = end > start && start < s.len() && (is_ascii_alphabetic(s[start]) || s[start] == '_');
            if start <= end < s.len() && s[end] == '}' && valid {
                let name = s.subrange(start, end);
                if t.contains_key(name) && !seen.contains(name) {
                    if let Ok(x) = expand_at(t[name], 0, t, seen.push(name), seq![]) {
                        let b = Seq::<char>::empty() + x;
                        lemma_expand_prefix(s, end + 1, t, seen, out + x);
                        lemma_expand_prefix(s, end + 1, t, seen, b);
                        assert(out + x =~= out + b);
                        lemma_after_assoc(out, b, expand_at(s, end + 1, t, seen, seq![]));
                    }
                }
            } else {
                let b = Seq::<char>::empty().push('{');
                lemma_expand_prefix(s, i + 1, t, seen, out.push('{'));
                lemma_expand_prefix(s, i + 1, t, seen, b);
                assert(out.push('{') =~= out + b);
                lemma_after_assoc(out, b, expand_at(s, i + 1, t, seen, seq![]));
            }
        } else {
            let b = Seq::<char>::empty().push(ch);
            lemma_expand_prefix(s, i + 1, t, seen, out.push(ch));
            lemma_expand_prefix(s, i + 1, t, seen, b);
            assert(out.push(ch) =~= out + b);
            lemma_after_assoc(out, b, expand_at(s, i + 1, t, seen, seq![]));
        }
    }
}

/// Runs of plain text, each followed by a reference `{NAME}`.
pub open spec fn refs_text(plains: Seq<Seq<char>>, names: Seq<Seq<char>>) -> Seq<char>
    decreases plains.len(),
{
    if plains.len() == 0 || names.len() == 0 {
        seq![]
    } else {
        plains[0] + seq!['{'] + names[0] + seq!['}'] + refs_text(plains.drop_first(), names.drop_first())
    }
}

/// Runs of plain text, each followed by the text put for its reference.
pub open spec fn refs_out(plains: Seq<Seq<char>>, xs: Seq<Seq<char>>) -> Seq<char>
    decreases plains.len(),
{
    if plains.len() == 0 || xs.len() == 0 {
        seq![]
    } else {
        plains[0] + xs[0] + refs_out(plains.drop_first(), xs.drop_first())
    }
}

/// Every reference in a text is replaced by the full expansion of its
/// template's body, made while that template is being expanded, and the
/// rest is copied: a text made of runs of plain text, each followed by a
/// reference to a defined template, and a tail without `{`, expands to the
/// same runs with each reference replaced and the tail as it stands.
pub proof fn law_references_expanded(
    t: Map<Seq<char>, Seq<char>>,
    plains: Seq<Seq<char>>,
    names: Seq<Seq<char>>,
    xs: Seq<Seq<char>>,
    tail: Seq<char>,
)
    requires
        t.dom().finite(),
        plains.len() == names.len(),
        names.len() == xs.len(),
        forall|k: int| 0 <= k < plains.len() ==> !(#[trigger] plains[k]).contains('{') && !plains[k].contains('\\'),
        forall|k: int|
            0 <= k < names.len() ==> template_name(#[trigger] names[k]) && t.contains_key(names[k]) && expand_at(
                t[names[k]],
                0,
                t,
                seq![names[k]],
                seq![],
            ) == Ok::<Seq<char>, (Seq<char>, Seq<Seq<char>>)>(xs[k]),
        !tail.contains('{'),
    ensures
        expand_at(refs_text(plains, names) + tail, 0, t, seq![], seq![]) == Ok::<
            Seq<char>,
            (Seq<char>, Seq<Seq<char>>),
        >(refs_out(plains, xs) + tail),
    decreases plains.len(),
{
    if plains.len() == 0 {
        assert(refs_text(plains, names) + tail =~= tail);
        assert(refs_out(plains, xs) + tail =~= tail);
        law_plain_text_unchanged(t, tail);
    } else {
        let pre = plains[0];
        let name = names[0];
        let x = xs[0];
        let (p1, n1, x1) = (plains.drop_first(), names.drop_first(), xs.drop_first());
        assert forall|k: int| 0 <= k < p1.len() implies !(#[trigger] p1[k]).contains('{') && !p1[k].contains('\\') by {
            assert(p1[k] == plains[k + 1]);
        }
        assert forall|k: int| 0 <= k < n1.len() implies template_name(#[trigger] n1[k]) && t.contains_key(n1[k])
            && expand_at(t[n1[k]], 0, t, seq![n1[k]], seq![]) == Ok::<Seq<char>, (Seq<char>, Seq<Seq<char>>)>(
            x1[k],
        ) by {
            assert(n1[k] == names[k + 1]);
            assert(x1[k] == xs[k + 1]);
        }
        law_references_expanded(t, p1, n1, x1, tail);
        let rest = refs_text(p1, n1) + tail;
        let head = pre + seq!['{'] + name + seq!['}'];
        assert(refs_text(plains, names) + tail =~= head + rest);
        lemma_ref_step(t, pre, name, rest, x);
        assert(head.len() == pre.len() + name.len() + 2);
        lemma_expand_shift(head, rest, 0, t, seq![], pre + x);
        lemma_expand_prefix(rest, 0, t, seq![], pre + x);
        assert(refs_out(plains, xs) + tail =~= pre + x + (refs_out(p1, x1) + tail));
    }
}

/// A reference after plain text to a template that is not defined is the
/// error `Undefined template: 'NAME'`.
pub proof fn law_undefined_reference(t: Map<Seq<char>, Seq<char>>, pre: Seq<char>, name: Seq<char>, post: Seq<char>)
    requires
        t.dom().finite(),
        template_name(name),
        !t.contains_key(name),
        !pre.contains('{'),
        !pre.contains('\\'),
    ensures
        expand_at(pre + seq!['{'] + name + seq!['}'] + post, 0, t, seq![], seq![]) == Err::<
            Seq<char>,
            (Seq<char>, Seq<Seq<char>>),
        >((undefined_msg(name), seq![])),
{
    let s = pre + seq!['{'] + name + seq!['}'] + post;
    let m = pre.len() as int;
    let e: int = m + name.len() + 1;
    assert forall|k: int| 0 <= k < m implies #[trigger] s[k] != '{' && s[k] != '\\' by {
        assert(s[k] == pre[k]);
        if pre[k] == '{' {
            assert(pre.contains('{'));
        }
        if pre[k] == '\\' {
            assert(pre.contains('\\'));
        }
    }
    lemma_plain_prefix(s, 0, m, t, seq![], seq![]);
    assert(s[m] == '{');
    assert forall|k: int| m + 1 <= k < e implies is_ascii_alphanumeric(#[trigger] s[k]) || s[k] == '_' by {
        assert(s[k] == name[k - m - 1]);
    }
    assert(s[e] == '}');
    lemma_name_end(s, m + 1, e);
    assert(s.subrange(m + 1, e) =~= name);
    assert(s[m + 1] == name[0]);
}

/// The views of a list of strings.
pub open spec fn views(v: Seq<String>) -> Seq<Seq<char>> {
    v.map_values(|s: String| s@)
}


/// Whether `name` is one of `seen`.
fn contains_name(seen: &Vec<String>, name: &String) -> (b: bool)
    ensures
        b == views(seen@).contains(name@),
{
    let mut i: usize = 0;
    while i < seen.len()
        invariant
            i <= seen.len(),
            forall|k: int| 0 <= k < i ==> seen@[k]@ != name@,
        decreases seen.len() - i,
    {
        if seen[i] == *name {
            assert(views(seen@)[i as int] == name@);
            return true;
        }
        i = i + 1;
    }
    assert(!views(seen@).contains(name@)) by {
        if views(seen@).contains(name@) {
            let k = choose|k: int| 0 <= k < views(seen@).len() && views(seen@)[k] == name@;
            assert(seen@[k]@ == name@);
        }
    }
    false
}

/// The names joined by `sep`.
fn join_names(seen: &Vec<String>, sep: &str) -> (r: Vec<char>)
    ensures
        r@ == join(views(seen@), sep@),
{
    let mut r: Vec<char> = Vec::new();
    let mut i: usize = 0;
    while i < seen.len()
        invariant
            i <= seen.len(),
            r@ == join(views(seen@).take(i as int), sep@),
        decreases seen.len() - i,
    {
        let ghost before = r@;
        if i > 0 {
            push_str(&mut r, sep);
        }
        push_chars(&mut r, &chars_of(seen[i].as_str()));
        proof {
            let v = views(seen@);
            assert(v.take(i + 1).drop_last() =~= v.take(i as int));
            assert(v.take(i + 1).last() == seen@[i as int]@);
            if i == 0 {
                assert(join(v.take(1), sep@) == v.take(1)[0]);
                assert(r@ =~= join(v.take(1), sep@));
            } else {
                assert(r@ =~= join(v.take(i + 1), sep@));
            }
        }
        i = i + 1;
    }
    assert(views(seen@).take(seen.len() as int) =~= views(seen@));
    r
}

/// Replaces every `{NAME}` in `input` by the expansion of the template
/// `NAME`; `\x` is kept as it stands. `seen` lists the templates being
/// expanded, to detect cycles.
pub fn expand_templates(input: &str, templates: &TemplateMap, seen: &mut Vec<String>) -> (r: Result<
    String,
    Error,
>)
    requires
        templates.wf(),
    ensures
        match (r, expand_at(input@, 0, templates@, views(old(seen)@), seq![])) {
            (Ok(x), Ok(y)) => x@ == y && views(final(seen)@) == views(old(seen)@),
            (Err(e), Err((m, trail))) => e matches Error::Config(msg) && msg@ == m && views(
                final(seen)@,
            ) == trail,
            _ => false,
        },
    decreases unseen(templates@, views(old(seen)@)),
{
    proof {
        templates.lemma_finite();
    }
    let ghost t = templates@;
    let ghost sv = views(seen@);
    let chars = chars_of(input);
    let ghost s = chars@;
    let len = chars.len();
    let mut out: Vec<char> = Vec::new();
    let mut i: usize = 0;
    while i < len
        invariant
            templates.wf(),
            t == templates@,
            t.dom().finite(),
            s == chars@,
            s == input@,
            len == chars.len(),
            i <= len,
            views(seen@) == sv,
            sv == views(old(seen)@),
            expand_at(s, 0, t, sv, seq![]) == expand_at(s, i as int, t, sv, out@),
        decreases len - i,
    {
        let ch = chars[i];
        if ch == '\\' {
            if i + 1 < len {
                out.push('\\');
                out.push(chars[i + 1]);
                i = i + 2;
            } else {
                out.push('\\');
                i = i + 1;
            }
        } else if ch == '{' {
            let start = i + 1;
            let mut end = start;
            while end < len && (ascii_alphanumeric(chars[end]) || chars[end] == '_')
                invariant
                    start <= end <= len,
                    len == chars.len(),
                    name_end(s, start as int) == name_end(s, end as int),
                    s == chars@,
                decreases len - end,
            {
                end = end + 1;
            }
            let valid = end > start && start < len && (ascii_alphabetic(chars[start])
                || chars[start] == '_');
            if end < len && chars[end] == '}' && valid {
                let mut name_chars: Vec<char> = Vec::new();
                let mut k = start;
                while k < end
                    invariant
                        start <= k <= end < len,
                        len == chars.len(),
                        name_chars@ == chars@.subrange(start as int, k as int),
                    decreases end - k,
                {
                    name_chars.push(chars[k]);
                    k = k + 1;
                }
                let name = string_of(name_chars.as_slice());
                assert(name@ == s.subrange(start as int, end as int));
                let body = match templates.get(&name) {
                    Some(b) => b,
                    None => {
                        let mut m: Vec<char> = Vec::new();
                        push_str(&mut m, "Undefined template: '");
                        push_chars(&mut m, &name_chars);
                        push_str(&mut m, "'");
                        assert(m@ =~= undefined_msg(name@));
                        return Err(Error::config(string_of(m.as_slice())));
                    },
                };
                if contains_name(seen, &name) {
                    let mut m: Vec<char> = Vec::new();
                    push_str(&mut m, "Cyclic template reference: ");
                    push_chars(&mut m, &join_names(seen, " -> "));
                    push_str(&mut m, " -> ");
                    push_chars(&mut m, &name_chars);
                    assert(m@ =~= cyclic_msg(sv, name@));
                    return Err(Error::config(string_of(m.as_slice())));
                }
                proof {
                    lemma_unseen_shrinks(t, sv, name@);
                }
                seen.push(name.clone());
                assert(views(seen@) =~= sv.push(name@));
                let expanded = expand_templates(body.as_str(), templates, seen)?;
                let ghost before_pop = seen@;
                seen.pop();
                assert(views(seen@) =~= views(before_pop).drop_last());
                push_chars(&mut out, &chars_of(expanded.as_str()));
                i = end + 1;
            } else {
                out.push('{');
                i = i + 1;
            }
        } else {
            out.push(ch);
            i = i + 1;
        }
    }
    Ok(string_of(out.as_slice()))
}

/// What expanding the templates in a pattern's expression gives.
pub open spec fn expansion(p: PatternDef, t: Map<Seq<char>, Seq<char>>) -> Result<
    Seq<char>,
    (Seq<char>, Seq<Seq<char>>),
> {
    expand_at(p.regex@, 0, t, seq![], seq![])
}

/// Expands the templates in every pattern's expression, keeping the tokens.
/// The first pattern whose expansion fails gives the error.
pub fn expand_patterns(patterns: Vec<PatternDef>, templates: &TemplateMap) -> (r: Result<
    Vec<PatternDef>,
    Error,
>)
    requires
        templates.wf(),
    ensures
        match r {
            Ok(v) => v.len() == patterns.len() && forall|i: int|
                0 <= i < patterns.len() ==> #[trigger] v@[i].token == patterns@[i].token
                    && expansion(patterns@[i], templates@) == Ok::<
                    Seq<char>,
                    (Seq<char>, Seq<Seq<char>>),
                >(v@[i].regex@),
            Err(e) => exists|i: int|
                #![trigger patterns@[i]]
                0 <= i < patterns.len() && (forall|j: int|
                    0 <= j < i ==> #[trigger] expansion(patterns@[j], templates@) is Ok) && match
                    expansion(patterns@[i], templates@) {
                    Err((m, _)) => e matches Error::Config(msg) && msg@ == m,
                    Ok(_) => false,
                },
        },
{
    let mut expanded: Vec<PatternDef> = Vec::new();
    let mut i: usize = 0;
    while i < patterns.len()
        invariant
            templates.wf(),
            i <= patterns.len(),
            expanded.len() == i,
            forall|k: int|
                0 <= k < i ==> #[trigger] expanded@[k].token == patterns@[k].token && expansion(
                    patterns@[k],
                    templates@,
                ) == Ok::<Seq<char>, (Seq<char>, Seq<Seq<char>>)>(expanded@[k].regex@),
        decreases patterns.len() - i,
    {
        let mut seen: Vec<String> = Vec::new();
        assert(views(seen@) =~= seq![]);
        let new_regex = match expand_templates(patterns[i].regex.as_str(), templates, &mut seen) {
            Ok(x) => x,
            Err(e) => {
                assert forall|j: int| 0 <= j < i implies #[trigger] expansion(patterns@[j], templates@) is Ok by {
                    assert(expanded@[j].token == patterns@[j].token);
                }
                return Err(e);
            },
        };
        expanded.push(PatternDef { token: patterns[i].token.clone(), regex: new_regex });
        i = i + 1;
    }
    Ok(expanded)
}

} // verus!
