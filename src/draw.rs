use vstd::prelude::*;
use crate::dot::graph_text;
use crate::sam::{SAMPool, SamState, states_wf, propagated, skels, sk_build};
use crate::dot::lemma_graph_text_determined;

verus! {

/// A drawing request: the strings to index, separated by `|`.
pub struct Req {
    pub string: String,
}

/// Why a drawing request was turned down.
#[derive(PartialEq, Eq, Structural, Debug, Clone, Copy)]
pub enum DrawError {
    /// The request holds more symbols than the configured maximum.
    TooLong,
}

/// The pieces of `s` between occurrences of `sep`; there is always at least one.
pub open spec fn split_on(s: Seq<char>, sep: char) -> Seq<Seq<char>>
    decreases s.len(),
{
    if s.len() == 0 {
        seq![Seq::empty()]
    } else {
        let rest = split_on(s.drop_last(), sep);
        if s.last() == sep {
            rest.push(Seq::empty())
        } else {
            rest.update(rest.len() - 1, rest.last().push(s.last()))
        }
    }
}

/// A well-formed automaton holding `pieces`, the k-th inserted under id k, then
/// propagated.
pub open spec fn is_build_of(s: Seq<SamState>, pieces: Seq<Seq<char>>) -> bool {
    states_wf(s) && skels(s) == sk_build(pieces) && propagated(s)
}

/// The diagram of the automaton of `pieces`.
pub open spec fn request_graph(pieces: Seq<Seq<char>>) -> Seq<char> {
    graph_text(choose|s: Seq<SamState>| is_build_of(s, pieces))
}

/// Splits `s` at every `|`.
pub fn split_parts(s: &Vec<char>) -> (r: Vec<Vec<char>>)
    ensures
        r@.len() == split_on(s@, '|').len(),
        forall|i: int| 0 <= i < r@.len() ==> (#[trigger] r@[i])@ == split_on(s@, '|')[i],
{
    let mut done: Vec<Vec<char>> = Vec::new();
    let mut cur: Vec<char> = Vec::new();
    let mut i: usize = 0;
    while i < s.len()
        invariant
            0 <= i <= s@.len(),
            split_on(s@.subrange(0, i as int), '|').len() == done@.len() + 1,
            forall|k: int| 0 <= k < done@.len() ==> (#[trigger] done@[k])@ == split_on(s@.subrange(0, i as int), '|')[k],
            cur@ == split_on(s@.subrange(0, i as int), '|').last(),
        decreases s@.len() - i,
    {
        let c = s[i];
        proof {
            let t = s@.subrange(0, i + 1);
            assert(t.drop_last() =~= s@.subrange(0, i as int));
            assert(t.last() == c);
        }
        if c == '|' {
            let mut piece: Vec<char> = Vec::new();
            std::mem::swap(&mut cur, &mut piece);
            done.push(piece);
        } else {
            cur.push(c);
        }
        i += 1;
        proof {
            let t = s@.subrange(0, i as int);
            assert forall|k: int| 0 <= k < done@.len() implies (#[trigger] done@[k])@ == split_on(t, '|')[k] by {}
        }
    }
    done.push(cur);
    proof {
        assert(s@.subrange(0, i as int) =~= s@);
    }
    done
}

/// Whether a request of `len` symbols exceeds the maximum `max_len`; a negative
/// maximum admits every length.
pub fn too_long(len: usize, max_len: i32) -> (r: bool)
    ensures
        r == (max_len >= 0 && len > max_len),
{
    max_len >= 0 && len > max_len as usize
}

/// Accepted requests with equal text give equal diagrams.
pub proof fn lemma_request_deterministic(text: Seq<char>, g1: Seq<char>, g2: Seq<char>)
    requires
        g1 == request_graph(split_on(text, '|')),
        g2 == request_graph(split_on(text, '|')),
    ensures
        g1 == g2,
{
}

/// The automaton of a request: its pieces inserted in order, the k-th under id k,
/// then propagated. A request of more than `max_len` symbols is turned down, where
/// `max_len` is not negative.
pub fn build_graph(text: &Vec<char>, max_len: i32) -> (r: Result<String, DrawError>)
    ensures
        r is Err <==> (max_len >= 0 && text@.len() > max_len),
        r matches Ok(g) ==> g@ == request_graph(split_on(text@, '|')),
{
    if too_long(text.len(), max_len) {
        return Err(DrawError::TooLong);
    }
    let parts = split_parts(text);
    let mut pool = SAMPool::new();
    let ghost pieces = split_on(text@, '|');
    let mut id: usize = 0;
    while id < parts.len()
        invariant
            pool.wf(),
            parts@.len() == pieces.len(),
            forall|i: int| 0 <= i < parts@.len() ==> (#[trigger] parts@[i])@ == pieces[i],
            0 <= id <= parts@.len(),
            skels(pool.states@) == sk_build(pieces.take(id as int)),
        decreases parts@.len() - id,
    {
        proof {
            assert(pieces.take(id + 1).drop_last() =~= pieces.take(id as int));
            assert(pieces.take(id + 1).last() == parts@[id as int]@);
        }
        pool.join_string(&parts[id], id as i32);
        id += 1;
    }
    pool.collect();
    let g = pool.generate_graph();
    proof {
        assert(pieces.take(id as int) =~= pieces);
        assert(is_build_of(pool.states@, pieces));
        let c = choose|s: Seq<SamState>| is_build_of(s, pieces);
        lemma_graph_text_determined(pool.states@, c);
    }
    Ok(g)
}

} // verus!
