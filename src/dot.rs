use vstd::prelude::*;
use vstd::string::StringExecFns;
use crate::sam::{SAMPool, SamState, states_wf, state_wf, skels, propagated, same_but_owners, lemma_same_subtree};

verus! {

/// The decimal digit `d`.
pub open spec fn digit_char(d: nat) -> char {
    seq!['0', '1', '2', '3', '4', '5', '6', '7', '8', '9'][d as int]
}

/// Decimal text of `n`, without leading zeros.
pub open spec fn digits(n: nat) -> Seq<char>
    decreases n,
{
    if n < 10 {
        seq![digit_char(n)]
    } else {
        digits(n / 10).push(digit_char(n % 10))
    }
}

/// A symbol as it stands inside a quoted label: `"` and `\` get a backslash.
pub open spec fn escaped(c: char) -> Seq<char> {
    if c == '"' || c == '\\' {
        seq!['\\', c]
    } else {
        seq![c]
    }
}

pub open spec fn shape_attr(v: int) -> Seq<char> {
    if v == 0 {
        "shape=doublecircle"@
    } else {
        "shape=circle"@
    }
}

pub open spec fn clone_attr(st: SamState) -> Seq<char> {
    if st.is_clone {
        ", color=red"@
    } else {
        Seq::empty()
    }
}

/// Classes shared by several strings are filled in one color, classes of a single
/// string in another, classes without owners are left unfilled.
pub open spec fn owner_attr(st: SamState) -> Seq<char> {
    if st.owners@.len() > 1 {
        ", style=filled, fillcolor=lightblue"@
    } else if st.owners@.len() == 1 {
        ", style=filled, fillcolor=lightyellow"@
    } else {
        Seq::empty()
    }
}

pub open spec fn node_text(s: Seq<SamState>, v: int) -> Seq<char> {
    "  "@ + digits(v as nat) + " [label=\""@ + digits(v as nat) + "\\n"@ + digits(s[v].len as nat) + "\", "@
        + shape_attr(v) + clone_attr(s[v]) + owner_attr(s[v]) + "];\n"@
}

pub open spec fn edge_text(v: int, e: (char, usize)) -> Seq<char> {
    "  "@ + digits(v as nat) + " -> "@ + digits(e.1 as nat) + " [label=\""@ + escaped(e.0) + "\"];\n"@
}

pub open spec fn edges_text(v: int, t: Seq<(char, usize)>) -> Seq<char>
    decreases t.len(),
{
    if t.len() == 0 {
        Seq::empty()
    } else {
        edges_text(v, t.drop_last()) + edge_text(v, t.last())
    }
}

pub open spec fn link_text(s: Seq<SamState>, v: int) -> Seq<char> {
    match s[v].link {
        Some(l) => "  "@ + digits(v as nat) + " -> "@ + digits(l as nat) + " [style=dashed, color=gray];\n"@,
        None => Seq::empty(),
    }
}

/// A state's node, then its transitions in stored order, then its suffix link.
pub open spec fn state_text(s: Seq<SamState>, v: int) -> Seq<char> {
    node_text(s, v) + edges_text(v, s[v].next@) + link_text(s, v)
}

pub open spec fn states_text(s: Seq<SamState>, k: int) -> Seq<char>
    decreases k,
{
    if k <= 0 {
        Seq::empty()
    } else {
        states_text(s, k - 1) + state_text(s, k - 1)
    }
}

/// The whole diagram description: the states in index order.
pub open spec fn graph_text(s: Seq<SamState>) -> Seq<char> {
    "digraph SAM {\n  rankdir=LR;\n"@ + states_text(s, s.len() as int) + "}\n"@
}

/// Relies on `String::push`: appends one character.
#[verifier::external_body]
fn push_char(out: &mut String, c: char)
    ensures
        final(out)@ == old(out)@.push(c),
{
    out.push(c)
}

fn digit_of(d: usize) -> (r: char)
    requires
        d < 10,
    ensures
        r == digit_char(d as nat),
{
    match d {
        0 => '0',
        1 => '1',
        2 => '2',
        3 => '3',
        4 => '4',
        5 => '5',
        6 => '6',
        7 => '7',
        8 => '8',
        _ => '9',
    }
}

/// Appends the decimal text of `n`.
pub fn push_num(out: &mut String, n: usize)
    ensures
        final(out)@ == old(out)@ + digits(n as nat),
    decreases n,
{
    if n >= 10 {
        push_num(out, n / 10);
    }
    push_char(out, digit_of(n % 10));
    proof {
        if n >= 10 {
            assert(digits(n as nat) == digits((n / 10) as nat).push(digit_char((n % 10) as nat)));
        }
        assert(final(out)@ =~= old(out)@ + digits(n as nat));
    }
}

fn push_escaped(out: &mut String, c: char)
    ensures
        final(out)@ == old(out)@ + escaped(c),
{
    if c == '"' || c == '\\' {
        push_char(out, '\\');
    }
    push_char(out, c);
    assert(final(out)@ =~= old(out)@ + escaped(c));
}

fn push_edge(out: &mut String, v: usize, e: (char, usize))
    ensures
        final(out)@ == old(out)@ + edge_text(v as int, e),
{
    out.append("  ");
    push_num(out, v);
    out.append(" -> ");
    push_num(out, e.1);
    out.append(" [label=\"");
    push_escaped(out, e.0);
    out.append("\"];\n");
    assert(final(out)@ =~= old(out)@ + edge_text(v as int, e));
}

impl SAMPool {
    fn push_attrs(&self, out: &mut String, v: usize)
        requires
            v < self.states@.len(),
        ensures
            final(out)@ == old(out)@ + shape_attr(v as int) + clone_attr(self.states@[v as int])
                + owner_attr(self.states@[v as int]),
    {
        let st = &self.states[v];
        if v == 0 {
            out.append("shape=doublecircle");
        } else {
            out.append("shape=circle");
        }
        let ghost a1 = out@;
        if st.is_clone {
            out.append(", color=red");
        }
        assert(out@ =~= a1 + clone_attr(*st));
        let ghost a2 = out@;
        if st.owners.len() > 1 {
            out.append(", style=filled, fillcolor=lightblue");
        } else if st.owners.len() == 1 {
            out.append(", style=filled, fillcolor=lightyellow");
        }
        assert(out@ =~= a2 + owner_attr(*st));
    }

    fn push_node(&self, out: &mut String, v: usize)
        requires
            v < self.states@.len(),
        ensures
            final(out)@ == old(out)@ + node_text(self.states@, v as int),
    {
        out.append("  ");
        push_num(out, v);
        out.append(" [label=\"");
        push_num(out, v);
        out.append("\\n");
        push_num(out, self.states[v].len);
        out.append("\", ");
        self.push_attrs(out, v);
        out.append("];\n");
        proof {
            let s = self.states@;
            assert(final(out)@ =~= old(out)@ + node_text(s, v as int));
        }
    }

    fn push_state_text(&self, out: &mut String, v: usize)
        requires
            v < self.states@.len(),
        ensures
            final(out)@ == old(out)@ + state_text(self.states@, v as int),
    {
        let ghost s = self.states@;
        self.push_node(out, v);
        let ghost start = out@;
        let mut i: usize = 0;
        while i < self.states[v].next.len()
            invariant
                s == self.states@,
                v < s.len(),
                0 <= i <= s[v as int].next@.len(),
                out@ == start + edges_text(v as int, s[v as int].next@.subrange(0, i as int)),
            decreases s[v as int].next@.len() - i,
        {
            push_edge(out, v, self.states[v].next[i]);
            proof {
                let t = s[v as int].next@;
                assert(t.subrange(0, i + 1).drop_last() =~= t.subrange(0, i as int));
                assert(t.subrange(0, i + 1).last() == t[i as int]);
            }
            i += 1;
            proof {
                let t = s[v as int].next@;
                assert(out@ =~= start + edges_text(v as int, t.subrange(0, i as int)));
            }
        }
        proof {
            assert(s[v as int].next@.subrange(0, i as int) =~= s[v as int].next@);
        }
        let ghost mid = out@;
        match self.states[v].link {
            Some(l) => {
                out.append("  ");
                push_num(out, v);
                out.append(" -> ");
                push_num(out, l);
                out.append(" [style=dashed, color=gray];\n");
            },
            None => {},
        }
        proof {
            assert(out@ =~= mid + link_text(s, v as int));
            assert(final(out)@ =~= old(out)@ + state_text(s, v as int));
        }
    }

    /// Renders the automaton as a diagram description: one node per state, labelled
    /// with its index and length and styled for the root, clones and shared
    /// classes; one edge per transition, labelled with its symbol; one dashed edge
    /// per suffix link. The text depends on the automaton alone.
    pub fn generate_graph(&self) -> (r: String)
        ensures
            r@ == graph_text(self.states@),
    {
        let ghost s = self.states@;
        let mut out = String::new();
        out.append("digraph SAM {\n  rankdir=LR;\n");
        let ghost head = out@;
        let mut v: usize = 0;
        while v < self.states.len()
            invariant
                s == self.states@,
                0 <= v <= s.len(),
                out@ == head + states_text(s, v as int),
                head == "digraph SAM {\n  rankdir=LR;\n"@,
            decreases s.len() - v,
        {
            self.push_state_text(&mut out, v);
            v += 1;
            assert(out@ =~= head + states_text(s, v as int));
        }
        out.append("}\n");
        out
    }
}

pub proof fn lemma_states_text_eq(a: Seq<SamState>, b: Seq<SamState>, k: int)
    requires
        forall|v: int| 0 <= v < k ==> #[trigger] state_text(a, v) == state_text(b, v),
    ensures
        states_text(a, k) == states_text(b, k),
    decreases k,
{
    if k > 0 {
        lemma_states_text_eq(a, b, k - 1);
    }
}

/// The diagram depends only on what construction fixes and on propagation: two
/// well-formed, propagated automata built alike render to the same text.
pub proof fn lemma_graph_text_determined(a: Seq<SamState>, b: Seq<SamState>)
    requires
        states_wf(a),
        states_wf(b),
        skels(a) == skels(b),
        propagated(a),
        propagated(b),
    ensures
        graph_text(a) == graph_text(b),
{
    assert(a.len() == skels(a).len() && b.len() == skels(b).len());
    assert(same_but_owners(a, b)) by {
        assert forall|v: int| 0 <= v < a.len() implies {
            &&& (#[trigger] b[v]).len == a[v].len
            &&& b[v].link == a[v].link
            &&& b[v].next@ == a[v].next@
            &&& b[v].direct_owners@ == a[v].direct_owners@
            &&& b[v].is_clone == a[v].is_clone
        } by {
            assert(skels(a)[v] == skels(b)[v]);
        }
    }
    assert forall|v: int| 0 <= v < a.len() implies #[trigger] state_text(a, v) == state_text(b, v) by {
        lemma_same_subtree(a, b, v);
        assert(state_wf(a, v));
        assert(state_wf(b, v));
        a[v].owners@.unique_seq_to_set();
        b[v].owners@.unique_seq_to_set();
        assert(a[v].owners@.to_set() == b[v].owners@.to_set());
        assert(owner_attr(a[v]) == owner_attr(b[v]));
        assert(clone_attr(a[v]) == clone_attr(b[v]));
        assert(node_text(a, v) == node_text(b, v));
    }
    lemma_states_text_eq(a, b, a.len() as int);
}

/// Serialization is deterministic: two renderings of one automaton are the same text.
pub proof fn lemma_graph_deterministic(a: &SAMPool, r1: Seq<char>, r2: Seq<char>)
    requires
        r1 == graph_text(a.states@),
        r2 == graph_text(a.states@),
    ensures
        r1 == r2,
{
}

} // verus!
