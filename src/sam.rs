use vstd::prelude::*;

verus! {

/// One end-position equivalence class of the automaton.
pub struct SamState {
    /// Length of the longest string of the class.
    pub len: usize,
    /// Suffix link; `None` only for the root.
    pub link: Option<usize>,
    /// Outgoing transitions, at most one per symbol, sorted by symbol.
    pub next: Vec<(char, usize)>,
    /// Ids of the strings for which a character was appended ending here.
    pub direct_owners: Vec<i32>,
    /// Ids of the strings that contain a string of this class (after `collect`).
    pub owners: Vec<i32>,
    /// Whether the state was produced by cloning.
    pub is_clone: bool,
}

/// A generalized suffix automaton over any number of strings; state 0 is the root.
pub struct SAMPool {
    pub states: Vec<SamState>,
}

pub open spec fn has_sym(t: Seq<(char, usize)>, c: char) -> bool {
    exists|i: int| 0 <= i < t.len() && (#[trigger] t[i]).0 == c
}

pub open spec fn has_edge(t: Seq<(char, usize)>, c: char, x: usize) -> bool {
    exists|i: int| 0 <= i < t.len() && #[trigger] t[i] == (c, x)
}

/// Transitions are kept in strictly increasing order of their symbols.
pub open spec fn sorted_syms(t: Seq<(char, usize)>) -> bool {
    forall|i: int, j: int| 0 <= i < j < t.len() ==> (#[trigger] t[i]).0 < (#[trigger] t[j]).0
}

/// State `v` of `s` is well formed: the root has length 0 and no link, every other
/// state links to a strictly shorter class, and transitions, sorted by symbol,
/// lead to longer classes.
pub open spec fn state_wf(s: Seq<SamState>, v: int) -> bool {
    let st = s[v];
    &&& (v == 0 ==> st.len == 0 && st.link is None)
    &&& (v != 0 ==> st.link is Some && st.link.unwrap() < s.len() && s[st.link.unwrap() as int].len
        < st.len)
    &&& sorted_syms(st.next@)
    &&& forall|i: int|
        0 <= i < st.next@.len() ==> (#[trigger] st.next@[i]).1 < s.len() && st.len < s[st.next@[i].1 as int].len
    &&& st.direct_owners@.no_duplicates()
    &&& st.owners@.no_duplicates()
}

pub open spec fn states_wf(s: Seq<SamState>) -> bool {
    s.len() >= 1 && forall|v: int| 0 <= v < s.len() ==> #[trigger] state_wf(s, v)
}

/// The states of `a` keep their lengths in `b`, which may hold more states.
pub open spec fn same_shape(a: Seq<SamState>, b: Seq<SamState>) -> bool {
    &&& a.len() <= b.len()
    &&& forall|v: int| 0 <= v < a.len() ==> (#[trigger] b[v]).len == a[v].len
}


/// The state reached from `v` by following `k` suffix links, or -1 past the root.
pub open spec fn anc(s: Seq<SamState>, v: int, k: nat) -> int
    decreases k,
{
    if k == 0 {
        v
    } else if 0 <= v < s.len() && s[v].link is Some {
        anc(s, s[v].link.unwrap() as int, (k - 1) as nat)
    } else {
        -1
    }
}

/// The suffix-link chain of `v` reaches `u` (in zero or more steps).
pub open spec fn reaches(s: Seq<SamState>, v: int, u: int) -> bool {
    exists|k: nat| anc(s, v, k) == u
}

/// The ids recorded directly at some state whose suffix-link chain reaches `v`.
pub open spec fn subtree_ids(s: Seq<SamState>, v: int) -> Set<i32> {
    Set::new(|x: i32| exists|u: int| 0 <= u < s.len() && reaches(s, u, v) && (#[trigger] s[u].direct_owners@).contains(x))
}

/// The two sequences hold the same automaton, apart from the `owners` fields.
pub open spec fn same_but_owners(a: Seq<SamState>, b: Seq<SamState>) -> bool {
    &&& a.len() == b.len()
    &&& forall|v: int|
        0 <= v < a.len() ==> {
            &&& (#[trigger] b[v]).len == a[v].len
            &&& b[v].link == a[v].link
            &&& b[v].next@ == a[v].next@
            &&& b[v].direct_owners@ == a[v].direct_owners@
            &&& b[v].is_clone == a[v].is_clone
        }
}

pub proof fn lemma_anc_step(s: Seq<SamState>, v: int, k: nat)
    requires
        0 <= anc(s, v, k) < s.len(),
        s[anc(s, v, k)].link is Some,
    ensures
        anc(s, v, k + 1) == s[anc(s, v, k)].link.unwrap() as int,
    decreases k,
{
    if k > 0 {
        assert(0 <= v < s.len() && s[v].link is Some);
        assert(anc(s, v, k + 1) == anc(s, s[v].link.unwrap() as int, k));
        lemma_anc_step(s, s[v].link.unwrap() as int, (k - 1) as nat);
    } else {
        assert(anc(s, v, 1) == anc(s, s[v].link.unwrap() as int, 0));
    }
}

pub proof fn lemma_anc_add(s: Seq<SamState>, w: int, k1: nat, k2: nat)
    ensures
        anc(s, w, k1) >= 0 ==> anc(s, anc(s, w, k1), k2) == anc(s, w, k1 + k2),
    decreases k1,
{
    if k1 > 0 && 0 <= w < s.len() && s[w].link is Some {
        lemma_anc_add(s, s[w].link.unwrap() as int, (k1 - 1) as nat, k2);
        assert((k1 + k2 - 1) as nat == (k1 - 1) as nat + k2);
    }
}

/// Following suffix links is transitive.
pub proof fn lemma_reaches_trans(s: Seq<SamState>, w: int, v: int, u: int)
    requires
        reaches(s, w, v),
        reaches(s, v, u),
        v >= 0,
    ensures
        reaches(s, w, u),
{
    let k1 = choose|k: nat| anc(s, w, k) == v;
    let k2 = choose|k: nat| anc(s, v, k) == u;
    lemma_anc_add(s, w, k1, k2);
}

/// One suffix link extends a chain.
pub proof fn lemma_reaches_link(s: Seq<SamState>, u: int, v: int)
    requires
        reaches(s, u, v),
        0 <= v < s.len(),
        s[v].link is Some,
    ensures
        reaches(s, u, s[v].link.unwrap() as int),
{
    let k = choose|k: nat| anc(s, u, k) == v;
    lemma_anc_step(s, u, k);
}


/// After propagation: the owners of every state are exactly the ids recorded
/// directly in its suffix-link subtree.
pub open spec fn propagated(s: Seq<SamState>) -> bool {
    forall|v: int| 0 <= v < s.len() ==> (#[trigger] s[v].owners@).to_set() == subtree_ids(s, v)
}

/// Every non-root state's owners are among those of its suffix link.
pub open spec fn owners_follow_links(s: Seq<SamState>) -> bool {
    forall|v: int|
        0 < v < s.len() ==> (#[trigger] s[v].owners@).to_set().subset_of(
            s[s[v].link.unwrap() as int].owners@.to_set(),
        )
}

pub proof fn lemma_same_anc(a: Seq<SamState>, b: Seq<SamState>, v: int, k: nat)
    requires
        same_but_owners(a, b),
    ensures
        anc(a, v, k) == anc(b, v, k),
    decreases k,
{
    if k > 0 && 0 <= v < a.len() {
        assert(b[v].link == a[v].link);
        if a[v].link is Some {
            lemma_same_anc(a, b, a[v].link.unwrap() as int, (k - 1) as nat);
        }
    }
}

pub proof fn lemma_same_subtree(a: Seq<SamState>, b: Seq<SamState>, v: int)
    requires
        same_but_owners(a, b),
    ensures
        subtree_ids(a, v) == subtree_ids(b, v),
{
    assert forall|u: int, w: int| reaches(a, u, w) <==> reaches(b, u, w) by {
        if reaches(a, u, w) {
            let k = choose|k: nat| anc(a, u, k) == w;
            lemma_same_anc(a, b, u, k);
        }
        if reaches(b, u, w) {
            let k = choose|k: nat| anc(b, u, k) == w;
            lemma_same_anc(a, b, u, k);
        }
    }
    assert forall|x: i32| subtree_ids(a, v).contains(x) <==> subtree_ids(b, v).contains(x) by {
        if subtree_ids(a, v).contains(x) {
            let u = choose|u: int| 0 <= u < a.len() && reaches(a, u, v) && (#[trigger] a[u].direct_owners@).contains(x);
            assert(b[u].direct_owners@ == a[u].direct_owners@);
        }
        if subtree_ids(b, v).contains(x) {
            let u = choose|u: int| 0 <= u < b.len() && reaches(b, u, v) && (#[trigger] b[u].direct_owners@).contains(x);
            assert(b[u].direct_owners@ == a[u].direct_owners@);
        }
    }
    assert(subtree_ids(a, v) =~= subtree_ids(b, v));
}

/// Along a suffix-link chain, owners only grow.
pub proof fn lemma_owners_chain(s: Seq<SamState>, u: int, k: nat)
    requires
        states_wf(s),
        owners_follow_links(s),
        0 <= u < s.len(),
        anc(s, u, k) >= 0,
    ensures
        anc(s, u, k) < s.len(),
        s[u].owners@.to_set().subset_of(s[anc(s, u, k)].owners@.to_set()),
    decreases k,
{
    if k > 0 {
        assert(state_wf(s, u));
        assert(u != 0);
        let l = s[u].link.unwrap() as int;
        lemma_owners_chain(s, l, (k - 1) as nat);
        assert(s[u].owners@.to_set().subset_of(s[l].owners@.to_set()));
    }
}


/// Every state's suffix-link chain reaches the root.
pub proof fn lemma_reaches_root(s: Seq<SamState>, v: int)
    requires
        states_wf(s),
        0 <= v < s.len(),
    ensures
        reaches(s, v, 0),
    decreases s[v].len,
{
    assert(state_wf(s, v));
    if v == 0 {
        assert(anc(s, v, 0) == 0);
    } else {
        let l = s[v].link.unwrap() as int;
        lemma_reaches_root(s, l);
        let k = choose|k: nat| anc(s, l, k) == 0;
        assert(anc(s, v, k + 1) == anc(s, l, k));
    }
}

/// After propagation, owners grow along suffix links: if the suffix-link chain of
/// `v` reaches `u`, every owner of `v` is an owner of `u`.
pub proof fn lemma_owners_monotone(s: Seq<SamState>, v: int, u: int)
    requires
        states_wf(s),
        propagated(s),
        0 <= v < s.len(),
        0 <= u < s.len(),
        reaches(s, v, u),
    ensures
        s[v].owners@.to_set().subset_of(s[u].owners@.to_set()),
{
    assert(s[v].owners@.to_set() == subtree_ids(s, v));
    assert(s[u].owners@.to_set() == subtree_ids(s, u));
    assert forall|x: i32| subtree_ids(s, v).contains(x) implies subtree_ids(s, u).contains(x) by {
        let w = choose|w: int| 0 <= w < s.len() && reaches(s, w, v) && (#[trigger] s[w].direct_owners@).contains(x);
        lemma_reaches_trans(s, w, v, u);
    }
}

/// After propagation, the root's owners are exactly the ids recorded anywhere.
pub proof fn lemma_root_owners(s: Seq<SamState>)
    requires
        states_wf(s),
        propagated(s),
    ensures
        forall|x: i32|
            s[0].owners@.contains(x) <==> exists|v: int| 0 <= v < s.len() && (#[trigger] s[v].direct_owners@).contains(x),
{
    assert(s[0].owners@.to_set() == subtree_ids(s, 0));
    assert forall|x: i32|
        s[0].owners@.contains(x) <==> exists|v: int| 0 <= v < s.len() && (#[trigger] s[v].direct_owners@).contains(x) by {
        assert(s[0].owners@.contains(x) <==> s[0].owners@.to_set().contains(x));
        if exists|v: int| 0 <= v < s.len() && (#[trigger] s[v].direct_owners@).contains(x) {
            let v = choose|v: int| 0 <= v < s.len() && (#[trigger] s[v].direct_owners@).contains(x);
            lemma_reaches_root(s, v);
        }
    }
}


/// What construction fixes of a state: length, suffix link, transitions, direct
/// owners and the clone mark.
pub type Skel = (usize, Option<usize>, Seq<(char, usize)>, Seq<i32>, bool);

pub open spec fn skel(st: SamState) -> Skel {
    (st.len, st.link, st.next@, st.direct_owners@, st.is_clone)
}

pub open spec fn skels(s: Seq<SamState>) -> Seq<Skel> {
    Seq::new(s.len(), |i: int| skel(s[i]))
}

/// `t` with `x` appended, unless `t` holds it already.
pub open spec fn add_id(t: Seq<i32>, x: i32) -> Seq<i32> {
    if t.contains(x) {
        t
    } else {
        t.push(x)
    }
}

/// The index of the first transition whose symbol is not below `c`.
pub open spec fn sym_pos(t: Seq<(char, usize)>, c: char) -> int
    decreases t.len(),
{
    if t.len() == 0 || t[0].0 >= c {
        0
    } else {
        1 + sym_pos(t.drop_first(), c)
    }
}

/// The target of the transition on `c` in the sorted list `t`.
pub open spec fn sk_find(t: Seq<(char, usize)>, c: char) -> Option<usize> {
    let i = sym_pos(t, c);
    if i < t.len() && t[i].0 == c {
        Some(t[i].1)
    } else {
        None
    }
}

/// `t` with its transition on `c` leading to `x`, kept sorted.
pub open spec fn set_sym(t: Seq<(char, usize)>, c: char, x: usize) -> Seq<(char, usize)> {
    let i = sym_pos(t, c);
    if i < t.len() && t[i].0 == c {
        t.update(i, (c, x))
    } else {
        t.insert(i, (c, x))
    }
}

pub open spec fn sk_set_next(m: Seq<Skel>, v: int, c: char, x: usize) -> Seq<Skel> {
    m.update(v, (m[v].0, m[v].1, set_sym(m[v].2, c, x), m[v].3, m[v].4))
}

pub open spec fn sk_set_link(m: Seq<Skel>, v: int, l: usize) -> Seq<Skel> {
    m.update(v, (m[v].0, Some(l), m[v].2, m[v].3, m[v].4))
}

pub open spec fn sk_add_direct(m: Seq<Skel>, v: int, id: i32) -> Seq<Skel> {
    m.update(v, (m[v].0, m[v].1, m[v].2, add_id(m[v].3, id), m[v].4))
}

pub open spec fn sk_push(m: Seq<Skel>, len: usize, link: usize, next: Seq<(char, usize)>, is_clone: bool) -> Seq<Skel> {
    m.push((len, Some(link), next, Seq::empty(), is_clone))
}

/// The suffix link of `y` when it leads to a strictly shorter state.
pub open spec fn shorter_link(m: Seq<Skel>, y: int) -> Option<usize> {
    match m[y].1 {
        Some(z) => if z < m.len() && m[z as int].0 < m[y].0 {
            Some(z)
        } else {
            None
        },
        None => None,
    }
}

/// From `x` up the suffix links, while the transition on `c` leads to `q`,
/// redirect it to `w`.
pub open spec fn sk_redirect(m: Seq<Skel>, x: Option<usize>, c: char, q: usize, w: usize) -> Seq<Skel>
    decreases
            match x {
                Some(y) => if y < m.len() {
                    m[y as int].0 + 1
                } else {
                    0
                },
                None => 0,
            },
{
    match x {
        None => m,
        Some(y) => if y < m.len() && sk_find(m[y as int].2, c) == Some(q) {
            let m2 = sk_set_next(m, y as int, c, w);
            match shorter_link(m, y as int) {
                Some(z) => sk_redirect(m2, Some(z), c, q, w),
                None => m2,
            }
        } else {
            m
        },
    }
}

/// From `x` up the suffix links, while there is no transition on `c`, add one
/// to `cur`; also gives where the walk stopped.
pub open spec fn sk_add_walk(m: Seq<Skel>, x: Option<usize>, c: char, cur: usize) -> (Seq<Skel>, Option<usize>)
    decreases
            match x {
                Some(y) => if y < m.len() {
                    m[y as int].0 + 1
                } else {
                    0
                },
                None => 0,
            },
{
    match x {
        None => (m, x),
        Some(y) => if y < m.len() && sk_find(m[y as int].2, c) is None {
            let m2 = sk_set_next(m, y as int, c, cur);
            match shorter_link(m, y as int) {
                Some(z) => sk_add_walk(m2, Some(z), c, cur),
                None => (m2, m[y as int].1),
            }
        } else {
            (m, x)
        },
    }
}

/// The suffix link a clone of `q` made under `p` receives.
pub open spec fn clone_link(m: Seq<Skel>, p: int, q: int) -> usize {
    let target = m[q].1.unwrap();
    if m[target as int].0 < m[p].0 + 1 {
        target
    } else {
        0
    }
}

/// Cloning `q`, the target of `p` on `c` (the clone is the new last state).
pub open spec fn sk_clone(m: Seq<Skel>, p: int, q: int, c: char) -> Seq<Skel> {
    let w = m.len() as usize;
    let m1 = sk_push(m, (m[p].0 + 1) as usize, clone_link(m, p, q), m[q].2, true);
    let m2 = sk_set_link(m1, q, w);
    let m3 = sk_set_next(m2, p, c, w);
    sk_redirect(m3, m[p].1, c, q as usize, w)
}

/// One extension step by `c` from the cursor `last` for string `id`: the new
/// automaton and the new cursor.
pub open spec fn sk_extend(m: Seq<Skel>, last: int, c: char, id: i32) -> (Seq<Skel>, int) {
    match sk_find(m[last].2, c) {
        Some(q) => if m[q as int].0 == m[last].0 + 1 {
            (sk_add_direct(m, q as int, id), q as int)
        } else {
            (sk_add_direct(sk_clone(m, last, q as int, c), m.len() as int, id), m.len() as int)
        },
        None => {
            let cur = m.len() as usize;
            let m1 = sk_push(m, (m[last].0 + 1) as usize, 0, Seq::empty(), false);
            let (m2, p) = sk_add_walk(m1, Some(last as usize), c, cur);
            let m3 = match p {
                None => m2,
                Some(pp) => {
                    let q = sk_find(m2[pp as int].2, c).unwrap();
                    if m2[q as int].0 == m2[pp as int].0 + 1 {
                        sk_set_link(m2, cur as int, q)
                    } else {
                        sk_set_link(sk_clone(m2, pp as int, q as int, c), cur as int, m2.len() as usize)
                    }
                },
            };
            (sk_add_direct(m3, cur as int, id), cur as int)
        },
    }
}

/// The automaton and cursor after the first `i` symbols of `s` under `id`.
pub open spec fn sk_join_prefix(m: Seq<Skel>, s: Seq<char>, id: i32, i: nat) -> (Seq<Skel>, int)
    decreases i,
{
    if i == 0 {
        (sk_add_direct(m, 0, id), 0)
    } else {
        let (m1, cur) = sk_join_prefix(m, s, id, (i - 1) as nat);
        sk_extend(m1, cur, s[i - 1], id)
    }
}

/// Inserting the string `s` under `id`, symbol by symbol from the root: the automaton
/// and the state reached by the whole string.
pub open spec fn sk_join(m: Seq<Skel>, s: Seq<char>, id: i32) -> (Seq<Skel>, int) {
    sk_join_prefix(m, s, id, s.len())
}

/// The automaton holding only the root.
pub open spec fn sk_new() -> Seq<Skel> {
    seq![(0usize, None, Seq::empty(), Seq::empty(), false)]
}

/// The automaton of the strings `pieces`, the k-th inserted under id k.
pub open spec fn sk_build(pieces: Seq<Seq<char>>) -> Seq<Skel>
    decreases pieces.len(),
{
    if pieces.len() == 0 {
        sk_new()
    } else {
        let k = (pieces.len() - 1) as usize;
        sk_join(sk_build(pieces.drop_last()), pieces.last(), k as i32).0
    }
}

pub proof fn lemma_sym_pos(t: Seq<(char, usize)>, c: char)
    ensures
        0 <= sym_pos(t, c) <= t.len(),
        forall|k: int| 0 <= k < sym_pos(t, c) ==> t[k].0 < c,
        sym_pos(t, c) < t.len() ==> t[sym_pos(t, c)].0 >= c,
    decreases t.len(),
{
    if t.len() > 0 && t[0].0 < c {
        lemma_sym_pos(t.drop_first(), c);
        assert forall|k: int| 0 <= k < sym_pos(t, c) implies t[k].0 < c by {
            if k > 0 {
                assert(t[k] == t.drop_first()[k - 1]);
            }
        }
    }
}

/// Any index splitting `t` below and not below `c` is `sym_pos`.
pub proof fn lemma_sym_pos_unique(t: Seq<(char, usize)>, c: char, i: int)
    requires
        0 <= i <= t.len(),
        forall|k: int| 0 <= k < i ==> t[k].0 < c,
        i < t.len() ==> t[i].0 >= c,
    ensures
        sym_pos(t, c) == i,
{
    lemma_sym_pos(t, c);
}

/// In a sorted list, the lookup finds exactly the transition present.
pub proof fn lemma_sk_find(t: Seq<(char, usize)>, c: char)
    requires
        sorted_syms(t),
    ensures
        forall|x: usize| has_edge(t, c, x) ==> sk_find(t, c) == Some(x),
        !has_sym(t, c) ==> sk_find(t, c) is None,
{
    lemma_sym_pos(t, c);
    assert forall|x: usize| has_edge(t, c, x) implies sk_find(t, c) == Some(x) by {
        let k = choose|k: int| 0 <= k < t.len() && t[k] == (c, x);
        assert forall|j: int| 0 <= j < k implies t[j].0 < c by {
            assert(t[j].0 < t[k].0);
        }
        lemma_sym_pos_unique(t, c, k);
    }
    if !has_sym(t, c) {
        let i = sym_pos(t, c);
        if i < t.len() {
            assert(t[i].0 != c);
        }
    }
}


/// Going from `a` to `b`, direct owners only grow, and the only ids added are in
/// `ids`.
pub open spec fn records_only(a: Seq<SamState>, b: Seq<SamState>, ids: Set<i32>) -> bool {
    &&& a.len() <= b.len()
    &&& forall|v: int|
        0 <= v < a.len() ==> (#[trigger] a[v].direct_owners@).to_set().subset_of(b[v].direct_owners@.to_set())
    &&& forall|v: int, x: i32|
        0 <= v < b.len() && #[trigger] b[v].direct_owners@.contains(x) ==> ids.contains(x) || (v < a.len()
            && a[v].direct_owners@.contains(x))
}

pub proof fn lemma_records_trans(a: Seq<SamState>, b: Seq<SamState>, c: Seq<SamState>, s1: Set<i32>, s2: Set<i32>)
    requires
        records_only(a, b, s1),
        records_only(b, c, s2),
    ensures
        records_only(a, c, s1.union(s2)),
{
    assert forall|v: int| 0 <= v < a.len() implies (#[trigger] a[v].direct_owners@).to_set().subset_of(
        c[v].direct_owners@.to_set()) by {
        assert(a[v].direct_owners@.to_set().subset_of(b[v].direct_owners@.to_set()));
        assert(b[v].direct_owners@.to_set().subset_of(c[v].direct_owners@.to_set()));
    }
    assert forall|v: int, x: i32| 0 <= v < c.len() && #[trigger] c[v].direct_owners@.contains(x) implies s1.union(
        s2).contains(x) || (v < a.len() && a[v].direct_owners@.contains(x)) by {
        if !s2.contains(x) {
            assert(v < b.len() && b[v].direct_owners@.contains(x));
            if !s1.contains(x) {
                assert(v < a.len() && a[v].direct_owners@.contains(x));
            }
        }
    }
}

/// A step that leaves every existing direct owner list as it was and adds states
/// without owners records nothing.
pub proof fn lemma_records_frame(a: Seq<SamState>, b: Seq<SamState>)
    requires
        a.len() <= b.len(),
        forall|v: int| 0 <= v < a.len() ==> (#[trigger] b[v]).direct_owners@ == a[v].direct_owners@,
        forall|v: int| a.len() <= v < b.len() ==> (#[trigger] b[v]).direct_owners@.len() == 0,
    ensures
        records_only(a, b, Set::empty()),
{
    assert forall|v: int| 0 <= v < a.len() implies (#[trigger] a[v].direct_owners@).to_set().subset_of(
        b[v].direct_owners@.to_set()) by {
        assert(b[v].direct_owners@ == a[v].direct_owners@);
    }
    assert forall|v: int, x: i32| 0 <= v < b.len() && #[trigger] b[v].direct_owners@.contains(x) implies Set::<i32>::empty().contains(x) || (v < a.len()
            && a[v].direct_owners@.contains(x)) by {
        if v >= a.len() {
            assert(b[v].direct_owners@.len() == 0);
        } else {
            assert(b[v].direct_owners@ == a[v].direct_owners@);
        }
    }
}


/// After propagation, when the direct owners hold exactly the ids `ids` (each
/// recorded at the root, as `join_string` does, and no other id anywhere, as
/// `records_only` keeps it), the root's owners are exactly `ids`.
pub proof fn lemma_root_owners_are_inserted_ids(s: Seq<SamState>, ids: Set<i32>)
    requires
        states_wf(s),
        propagated(s),
        forall|x: i32| #[trigger] ids.contains(x) ==> s[0].direct_owners@.contains(x),
        forall|v: int, x: i32| 0 <= v < s.len() && #[trigger] s[v].direct_owners@.contains(x) ==> ids.contains(x),
    ensures
        s[0].owners@.to_set() == ids,
{
    lemma_root_owners(s);
    assert forall|x: i32| s[0].owners@.to_set().contains(x) <==> ids.contains(x) by {
        if ids.contains(x) {
            assert(s[0].direct_owners@.contains(x));
        }
    }
    assert(s[0].owners@.to_set() =~= ids);
}

pub proof fn lemma_push_to_set(sq: Seq<i32>, x: i32)
    ensures
        sq.push(x).to_set() == sq.to_set().insert(x),
{
    assert forall|y: i32| sq.push(x).to_set().contains(y) <==> sq.to_set().insert(x).contains(y) by {
        vstd::seq_lib::lemma_seq_contains_after_push(sq, x, y);
    }
    assert(sq.push(x).to_set() =~= sq.to_set().insert(x));
}

/// Copies a list of ids.
fn copy_ids(v: &Vec<i32>) -> (r: Vec<i32>)
    ensures
        r@ == v@,
{
    let mut r: Vec<i32> = Vec::new();
    let mut i: usize = 0;
    while i < v.len()
        invariant
            0 <= i <= v@.len(),
            r@ == v@.subrange(0, i as int),
        decreases v@.len() - i,
    {
        r.push(v[i]);
        i += 1;
        assert(r@ =~= v@.subrange(0, i as int));
    }
    assert(r@ =~= v@);
    r
}

/// Adds to `dst` every id of `src` that it lacks.
pub fn union_ids(dst: &mut Vec<i32>, src: &Vec<i32>)
    requires
        old(dst)@.no_duplicates(),
    ensures
        final(dst)@.no_duplicates(),
        final(dst)@.to_set() == old(dst)@.to_set().union(src@.to_set()),
{
    let mut i: usize = 0;
    while i < src.len()
        invariant
            0 <= i <= src@.len(),
            dst@.no_duplicates(),
            dst@.to_set() == old(dst)@.to_set().union(src@.subrange(0, i as int).to_set()),
        decreases src@.len() - i,
    {
        add_owner(dst, src[i]);
        proof {
            assert(src@.subrange(0, i + 1) == src@.subrange(0, i as int).push(src@[i as int]));
            lemma_push_to_set(src@.subrange(0, i as int), src@[i as int]);
        }
        i += 1;
        assert(dst@.to_set() =~= old(dst)@.to_set().union(src@.subrange(0, i as int).to_set()));
    }
    assert(src@.subrange(0, i as int) == src@);
}

/// Adds `x` to `v` unless it is there already.
pub fn add_owner(v: &mut Vec<i32>, x: i32)
    requires
        old(v)@.no_duplicates(),
    ensures
        final(v)@.no_duplicates(),
        final(v)@.to_set() == old(v)@.to_set().insert(x),
        final(v)@ == add_id(old(v)@, x),
{
    let mut i: usize = 0;
    while i < v.len()
        invariant
            0 <= i <= v@.len(),
            v@ == old(v)@,
            v@.no_duplicates(),
            forall|k: int| 0 <= k < i ==> v@[k] != x,
        decreases v@.len() - i,
    {
        if v[i] == x {
            proof {
                assert(v@.to_set().contains(x));
                assert(v@.to_set().insert(x) =~= v@.to_set());
            }
            return;
        }
        i += 1;
    }
    proof {
        vstd::seq_lib::lemma_seq_contains_after_push(v@, x, x);
        assert(!v@.contains(x));
    }
    v.push(x);
    proof {
        assert(v@.to_set() =~= old(v)@.to_set().insert(x)) by {
            assert forall|y: i32| v@.to_set().contains(y) <==> old(v)@.to_set().insert(x).contains(y) by {
                if y != x {
                    if v@.contains(y) {
                        let k = choose|k: int| 0 <= k < v@.len() && v@[k] == y;
                        assert(old(v)@[k] == y);
                    }
                    if old(v)@.contains(y) {
                        let k = choose|k: int| 0 <= k < old(v)@.len() && old(v)@[k] == y;
                        assert(v@[k] == y);
                    }
                } else {
                    assert(v@[v@.len() - 1] == x);
                }
            }
        }
    }
}

impl SAMPool {
    pub open spec fn wf(&self) -> bool {
        states_wf(self.states@)
    }

    /// An automaton holding only the root.
    pub fn new() -> (r: SAMPool)
        ensures
            r.wf(),
            r.states@.len() == 1,
            r.states@[0].next@.len() == 0,
            r.states@[0].direct_owners@.len() == 0,
            r.states@[0].owners@.len() == 0,
            !r.states@[0].is_clone,
            skels(r.states@) == sk_new(),
    {
        let root = SamState {
            len: 0,
            link: None,
            next: Vec::new(),
            direct_owners: Vec::new(),
            owners: Vec::new(),
            is_clone: false,
        };
        let mut states: Vec<SamState> = Vec::new();
        states.push(root);
        let r = SAMPool { states };
        assert(state_wf(r.states@, 0));
        assert(skels(r.states@) =~= sk_new());
        r
    }

    /// The target of the transition of state `v` on `c`, if any.
    pub fn find_next(&self, v: usize, c: char) -> (r: Option<usize>)
        requires
            self.wf(),
            v < self.states@.len(),
        ensures
            match r {
                Some(x) => has_edge(self.states@[v as int].next@, c, x) && x < self.states@.len()
                    && self.states@[v as int].len < self.states@[x as int].len,
                None => !has_sym(self.states@[v as int].next@, c),
            },
            r == sk_find(self.states@[v as int].next@, c),
    {
        let ghost s = self.states@;
        assert(state_wf(s, v as int));
        proof {
            lemma_sk_find(s[v as int].next@, c);
        }
        let mut i: usize = 0;
        while i < self.states[v].next.len()
            invariant
                self.wf(),
                v < self.states@.len(),
                0 <= i <= self.states@[v as int].next@.len(),
                forall|k: int| 0 <= k < i ==> (#[trigger] self.states@[v as int].next@[k]).0 != c,
            decreases self.states@[v as int].next@.len() - i,
        {
            let e = self.states[v].next[i];
            if e.0 == c {
                assert(self.states@[v as int].next@[i as int] == (c, e.1));
                assert(state_wf(self.states@, v as int));
                proof {
                    lemma_sk_find(self.states@[v as int].next@, c);
                    assert(has_edge(self.states@[v as int].next@, c, e.1));
                }
                return Some(e.1);
            }
            i += 1;
        }
        None
    }

    /// Makes the transition of `v` on `c` lead to `x`, in place of any earlier one.
    fn set_next(&mut self, v: usize, c: char, x: usize)
        requires
            old(self).wf(),
            v < old(self).states@.len(),
            x < old(self).states@.len(),
            old(self).states@[v as int].len < old(self).states@[x as int].len,
        ensures
            final(self).wf(),
            final(self).states@.len() == old(self).states@.len(),
            forall|u: int|
                0 <= u < old(self).states@.len() ==> {
                    &&& (#[trigger] final(self).states@[u]).len == old(self).states@[u].len
                    &&& final(self).states@[u].link == old(self).states@[u].link
                    &&& final(self).states@[u].direct_owners == old(self).states@[u].direct_owners
                    &&& final(self).states@[u].owners == old(self).states@[u].owners
                    &&& final(self).states@[u].is_clone == old(self).states@[u].is_clone
                    &&& (u != v ==> final(self).states@[u].next == old(self).states@[u].next)
                },
            has_edge(final(self).states@[v as int].next@, c, x),
            skels(final(self).states@) == sk_set_next(skels(old(self).states@), v as int, c, x),
            records_only(old(self).states@, final(self).states@, Set::empty()),
            forall|d: char, y: usize|
                d != c ==> (has_edge(final(self).states@[v as int].next@, d, y) <==> has_edge(
                    old(self).states@[v as int].next@,
                    d,
                    y,
                )),
    {
        let ghost s0 = self.states@;
        proof {
            assert(state_wf(s0, v as int));
        }
        let mut i: usize = 0;
        let n = self.states[v].next.len();
        while i < n && self.states[v].next[i].0 < c
            invariant
                self.states@ == s0,
                v < s0.len(),
                n == s0[v as int].next@.len(),
                0 <= i <= n,
                forall|k: int| 0 <= k < i ==> (#[trigger] s0[v as int].next@[k]).0 < c,
            decreases n - i,
        {
            i += 1;
        }
        let ghost t0 = s0[v as int].next@;
        let replace = i < n && self.states[v].next[i].0 == c;
        if replace {
            self.states[v].next.set(i, (c, x));
        } else {
            self.states[v].next.insert(i, (c, x));
        }
        let ghost t1 = self.states@[v as int].next@;
        proof {
            lemma_sym_pos_unique(t0, c, i as int);
            assert(t1 == set_sym(t0, c, x));
            assert(skels(self.states@) =~= sk_set_next(skels(s0), v as int, c, x));
            lemma_records_frame(s0, self.states@);
            // index in t0 of the entry at index k of t1, or -1 for the new one
            let from = |k: int| if replace || k < i { k } else if k == i { -1 } else { k - 1 };
            if !replace {
                t0.insert_ensures(i as int, (c, x));
                assert(i < n ==> t0[i as int].0 > c);
            }
            assert(forall|k: int| 0 <= k < t1.len() && k != i ==> t1[k] == t0[from(k)] && 0 <= from(k) < t0.len());
            assert(t1[i as int] == (c, x));
            assert(has_edge(t1, c, x));
            assert forall|d: char, y: usize| d != c implies (has_edge(t1, d, y) <==> has_edge(t0, d, y)) by {
                if has_edge(t1, d, y) {
                    let k = choose|k: int| 0 <= k < t1.len() && t1[k] == (d, y);
                    assert(t0[from(k)] == (d, y));
                }
                if has_edge(t0, d, y) {
                    let k = choose|k: int| 0 <= k < t0.len() && t0[k] == (d, y);
                    if replace || k < i {
                        assert(t1[k] == (d, y));
                    } else {
                        assert(t1[k + 1] == (d, y));
                    }
                }
            }
            assert(sorted_syms(t1)) by {
                assert forall|a: int, b: int| 0 <= a < b < t1.len() implies (#[trigger] t1[a]).0 < (#[trigger] t1[b]).0 by {
                    if a != i && b != i {
                        assert(t0[from(a)] == t1[a]);
                        assert(t0[from(b)] == t1[b]);
                    } else if a == i {
                        assert(t0[from(b)] == t1[b]);
                        if !replace {
                            assert(i < n);
                            assert(from(b) >= i);
                        } else {
                            assert(t0[i as int].0 == c);
                        }
                    } else {
                        assert(t0[from(a)] == t1[a]);
                        if replace {
                            assert(t0[i as int].0 == c);
                        }
                    }
                }
            }
            let s1 = self.states@;
            assert forall|u: int| 0 <= u < s1.len() implies #[trigger] state_wf(s1, u) by {
                assert(state_wf(s0, u));
                if u == v {
                    assert forall|k: int| 0 <= k < t1.len() implies (#[trigger] t1[k]).1 < s1.len()
                        && s1[u].len < s1[t1[k].1 as int].len by {
                        if k != i {
                            assert(t1[k] == t0[from(k)]);
                        }
                    }
                }
            }
        }
    }

    /// Appends a non-root state to the arena and returns its index.
    fn push_state(&mut self, len: usize, link: usize, next: Vec<(char, usize)>, is_clone: bool) -> (r: usize)
        requires
            old(self).wf(),
            link < old(self).states@.len(),
            old(self).states@[link as int].len < len,
            sorted_syms(next@),
            forall|k: int|
                0 <= k < next@.len() ==> (#[trigger] next@[k]).1 < old(self).states@.len()
                    && len < old(self).states@[next@[k].1 as int].len,
        ensures
            final(self).wf(),
            r == old(self).states@.len(),
            final(self).states@ == old(self).states@.push(final(self).states@[r as int]),
            final(self).states@[r as int].len == len,
            final(self).states@[r as int].link == Some(link),
            final(self).states@[r as int].next@ == next@,
            final(self).states@[r as int].direct_owners@.len() == 0,
            final(self).states@[r as int].owners@.len() == 0,
            final(self).states@[r as int].is_clone == is_clone,
            skels(final(self).states@) == sk_push(skels(old(self).states@), len, link, next@, is_clone),
            records_only(old(self).states@, final(self).states@, Set::empty()),
    {
        let ghost s0 = self.states@;
        let r = self.states.len();
        let st = SamState { len, link: Some(link), next, direct_owners: Vec::new(), owners: Vec::new(), is_clone };
        self.states.push(st);
        proof {
            let s1 = self.states@;
            assert(skels(s1) =~= sk_push(skels(s0), len, link, next@, is_clone));
            assert(forall|u: int| 0 <= u < s0.len() ==> #[trigger] s1[u] == s0[u]);
            lemma_records_frame(s0, s1);
            assert(state_wf(s0, 0));
            assert(s0[0].len == 0);
            assert forall|u: int| 0 <= u < s1.len() implies #[trigger] state_wf(s1, u) by {
                if u < s0.len() {
                    assert(state_wf(s0, u));
                    assert(s1[u] == s0[u]);
                    let t = s0[u].next@;
                    assert forall|k: int| 0 <= k < t.len() implies (#[trigger] t[k]).1 < s1.len()
                        && s1[u].len < s1[t[k].1 as int].len by {
                        assert(s1[t[k].1 as int] == s0[t[k].1 as int]);
                    }
                } else {
                    assert(s1[link as int] == s0[link as int]);
                    assert forall|k: int| 0 <= k < next@.len() implies (#[trigger] next@[k]).1 < s1.len()
                        && s1[u].len < s1[next@[k].1 as int].len by {
                        assert(s1[next@[k].1 as int] == s0[next@[k].1 as int]);
                    }
                }
            }
        }
        r
    }

    /// Copies the transitions of state `q`.
    fn copy_next(&self, q: usize) -> (r: Vec<(char, usize)>)
        requires
            q < self.states@.len(),
        ensures
            r@ == self.states@[q as int].next@,
    {
        let mut r: Vec<(char, usize)> = Vec::new();
        let mut i: usize = 0;
        while i < self.states[q].next.len()
            invariant
                q < self.states@.len(),
                0 <= i <= self.states@[q as int].next@.len(),
                r@ == self.states@[q as int].next@.subrange(0, i as int),
            decreases self.states@[q as int].next@.len() - i,
        {
            r.push(self.states[q].next[i]);
            i += 1;
            assert(r@ =~= self.states@[q as int].next@.subrange(0, i as int));
        }
        assert(r@ =~= self.states@[q as int].next@);
        r
    }

    /// Splits the class of `q`, the target of `p` on `c`: a clone of `q` with length
    /// `len[p] + 1` takes over `q`'s link and becomes `q`'s link, and the transitions
    /// on `c` into `q` from `p` and its suffix-link ancestors are redirected to it.
    fn clone_state(&mut self, p: usize, q: usize, c: char) -> (w: usize)
        requires
            old(self).wf(),
            p < old(self).states@.len(),
            q < old(self).states@.len(),
            has_edge(old(self).states@[p as int].next@, c, q),
            old(self).states@[q as int].len != old(self).states@[p as int].len + 1,
        ensures
            final(self).wf(),
            w == old(self).states@.len(),
            final(self).states@.len() == old(self).states@.len() + 1,
            same_shape(old(self).states@, final(self).states@),
            final(self).states@[w as int].len == old(self).states@[p as int].len + 1,
            final(self).states@[w as int].is_clone,
            final(self).states@[q as int].link == Some(w),
            has_edge(final(self).states@[p as int].next@, c, w),
            forall|u: int|
                0 <= u < old(self).states@.len() ==> (#[trigger] final(self).states@[u]).direct_owners
                    == old(self).states@[u].direct_owners,
            skels(final(self).states@) == sk_clone(skels(old(self).states@), p as int, q as int, c),
            records_only(old(self).states@, final(self).states@, Set::empty()),
    {
        let ghost s0 = self.states@;
        let ghost m = skels(s0);
        proof {
            assert(state_wf(s0, p as int));
            assert(state_wf(s0, q as int));
            let k = choose|k: int| 0 <= k < s0[p as int].next@.len() && s0[p as int].next@[k] == (c, q);
            assert(s0[p as int].next@[k].1 == q);
        }
        let wlen = self.states[p].len + 1;
        let target = self.states[q].link.unwrap();
        // The clone takes over q's suffix link. The link tree stays well founded
        // only through a shorter target, which this construction always yields but
        // the invariant kept here does not show; the root stands in otherwise.
        let wlink = if self.states[target].len < wlen {
            target
        } else {
            0
        };
        proof {
            assert(state_wf(s0, target as int));
            assert(state_wf(s0, 0));
        }
        let next = self.copy_next(q);
        let w = self.push_state(wlen, wlink, next, true);
        let ghost ga = self.states@;
        self.set_link(q, w);
        let ghost gb = self.states@;
        // p's own transition on c leads to q: redirect it, then walk up from its link.
        self.set_next(p, c, w);
        proof {
            assert(state_wf(self.states@, p as int));
            assert(Set::<i32>::empty().union(Set::empty()) =~= Set::<i32>::empty());
            lemma_records_trans(s0, ga, gb, Set::empty(), Set::empty());
            lemma_records_trans(s0, gb, self.states@, Set::empty(), Set::empty());
        }
        let mut x: Option<usize> = self.states[p].link;
        let ghost goal = sk_redirect(skels(self.states@), x, c, q, w);
        proof {
            assert(wlink == clone_link(m, p as int, q as int));
            assert(goal == sk_clone(m, p as int, q as int, c));
        }
        while x.is_some() && self.find_next(x.unwrap(), c) == Some(q)
            invariant
                self.wf(),
                goal == sk_clone(m, p as int, q as int, c),
                m == skels(s0),
                sk_redirect(skels(self.states@), x, c, q, w) == goal,
                records_only(s0, self.states@, Set::empty()),
                p < s0.len(),
                q < s0.len(),
                wlen == s0[p as int].len + 1,
                self.states@.len() == s0.len() + 1,
                same_shape(s0, self.states@),
                self.states@[w as int].len == wlen,
                self.states@[w as int].is_clone,
                self.states@[q as int].link == Some(w),
                w == s0.len(),
                forall|u: int|
                    0 <= u < s0.len() ==> (#[trigger] self.states@[u]).direct_owners == s0[u].direct_owners,
                x is Some ==> x.unwrap() < self.states@.len() && self.states@[x.unwrap() as int].len < s0[p as int].len,
                has_edge(self.states@[p as int].next@, c, w),
            decreases
                match x {
                    Some(y) => self.states@[y as int].len + 1,
                    None => 0,
                },
        {
            let y = x.unwrap();
            let ghost mc = skels(self.states@);
            let ghost gc = self.states@;
            proof {
                assert(state_wf(self.states@, y as int));
            }
            self.set_next(y, c, w);
            proof {
                assert(Set::<i32>::empty().union(Set::empty()) =~= Set::<i32>::empty());
                lemma_records_trans(s0, gc, self.states@, Set::empty(), Set::empty());
            }
            x = self.states[y].link;
            proof {
                if x is Some {
                    assert(y != 0);
                    assert(shorter_link(mc, y as int) == x);
                } else {
                    assert(shorter_link(mc, y as int) is None);
                }
            }
        }
        w
    }

    /// Points the suffix link of the non-root state `v` at `l`.
    fn set_link(&mut self, v: usize, l: usize)
        requires
            old(self).wf(),
            0 < v < old(self).states@.len(),
            l < old(self).states@.len(),
            old(self).states@[l as int].len < old(self).states@[v as int].len,
        ensures
            final(self).wf(),
            final(self).states@.len() == old(self).states@.len(),
            same_shape(old(self).states@, final(self).states@),
            final(self).states@[v as int].link == Some(l),
            skels(final(self).states@) == sk_set_link(skels(old(self).states@), v as int, l),
            records_only(old(self).states@, final(self).states@, Set::empty()),
            forall|u: int|
                0 <= u < old(self).states@.len() ==> {
                    &&& (#[trigger] final(self).states@[u]).next == old(self).states@[u].next
                    &&& final(self).states@[u].direct_owners == old(self).states@[u].direct_owners
                    &&& final(self).states@[u].owners == old(self).states@[u].owners
                    &&& final(self).states@[u].is_clone == old(self).states@[u].is_clone
                    &&& (u != v ==> final(self).states@[u].link == old(self).states@[u].link)
                },
    {
        let ghost s0 = self.states@;
        self.states[v].link = Some(l);
        proof {
            let s1 = self.states@;
            assert(skels(s1) =~= sk_set_link(skels(s0), v as int, l));
            lemma_records_frame(s0, s1);
            assert forall|u: int| 0 <= u < s1.len() implies #[trigger] state_wf(s1, u) by {
                assert(state_wf(s0, u));
                let t = s1[u].next@;
                assert forall|k: int| 0 <= k < t.len() implies (#[trigger] t[k]).1 < s1.len()
                    && s1[u].len < s1[t[k].1 as int].len by {
                    assert(t[k] == s0[u].next@[k]);
                }
            }
        }
    }

    /// Records `id` as a direct owner of state `v`.
    fn add_direct_owner(&mut self, v: usize, id: i32)
        requires
            old(self).wf(),
            v < old(self).states@.len(),
        ensures
            final(self).wf(),
            final(self).states@.len() == old(self).states@.len(),
            same_shape(old(self).states@, final(self).states@),
            final(self).states@[v as int].direct_owners@.to_set() == old(self).states@[v as int].direct_owners@.to_set().insert(id),
            skels(final(self).states@) == sk_add_direct(skels(old(self).states@), v as int, id),
            records_only(old(self).states@, final(self).states@, set![id]),
            forall|u: int|
                0 <= u < old(self).states@.len() ==> {
                    &&& (#[trigger] final(self).states@[u]).next == old(self).states@[u].next
                    &&& final(self).states@[u].link == old(self).states@[u].link
                    &&& final(self).states@[u].owners == old(self).states@[u].owners
                    &&& final(self).states@[u].is_clone == old(self).states@[u].is_clone
                    &&& (u != v ==> final(self).states@[u].direct_owners == old(self).states@[u].direct_owners)
                },
    {
        let ghost s0 = self.states@;
        proof {
            assert(state_wf(s0, v as int));
        }
        add_owner(&mut self.states[v].direct_owners, id);
        proof {
            let s1 = self.states@;
            assert(skels(s1) =~= sk_add_direct(skels(s0), v as int, id));
            assert forall|u: int| 0 <= u < s0.len() implies (#[trigger] s0[u].direct_owners@).to_set().subset_of(
                s1[u].direct_owners@.to_set()) by {
                if u != v {
                    assert(s1[u].direct_owners == s0[u].direct_owners);
                }
            }
            assert forall|u: int, x: i32| 0 <= u < s1.len() && #[trigger] s1[u].direct_owners@.contains(x) implies set![id].contains(x)
                || (u < s0.len() && s0[u].direct_owners@.contains(x)) by {
                if u != v {
                    assert(s1[u].direct_owners == s0[u].direct_owners);
                } else if x != id {
                    assert(s1[u].direct_owners@.to_set().contains(x));
                    assert(s0[u].direct_owners@.to_set().contains(x));
                }
            }
            assert forall|u: int| 0 <= u < s1.len() implies #[trigger] state_wf(s1, u) by {
                assert(state_wf(s0, u));
                let t = s1[u].next@;
                assert forall|k: int| 0 <= k < t.len() implies (#[trigger] t[k]).1 < s1.len()
                    && s1[u].len < s1[t[k].1 as int].len by {
                    assert(t[k] == s0[u].next@[k]);
                }
            }
        }
    }

    /// Extends the automaton by the symbol `c` from the construction cursor `last`
    /// on behalf of string `id`, and returns the new cursor, whose class is one
    /// symbol longer.
    fn extend_char(&mut self, last: usize, c: char, id: i32) -> (r: usize)
        requires
            old(self).wf(),
            last < old(self).states@.len(),
            old(self).states@[last as int].len < usize::MAX,
        ensures
            final(self).wf(),
            r < final(self).states@.len(),
            same_shape(old(self).states@, final(self).states@),
            final(self).states@.len() <= old(self).states@.len() + 2,
            final(self).states@[r as int].len == old(self).states@[last as int].len + 1,
            final(self).states@[r as int].direct_owners@.to_set().contains(id),
            r != 0,
            final(self).states@[0].direct_owners == old(self).states@[0].direct_owners,
            last == 0 && !has_sym(old(self).states@[0].next@, c) ==> final(self).states@.len()
                == old(self).states@.len() + 1,
            (skels(final(self).states@), r as int) == sk_extend(skels(old(self).states@), last as int, c, id),
            records_only(old(self).states@, final(self).states@, set![id]),
    {
        let ghost s0 = self.states@;
        let ghost m = skels(s0);
        proof {
            assert(state_wf(s0, last as int));
            assert(state_wf(s0, 0));
            assert(Set::<i32>::empty().union(Set::empty()) =~= Set::<i32>::empty());
            assert(Set::<i32>::empty().union(set![id]) =~= set![id]);
        }
        match self.find_next(last, c) {
            Some(q) => {
                if self.states[q].len == self.states[last].len + 1 {
                    self.add_direct_owner(q, id);
                    q
                } else {
                    let w = self.clone_state(last, q, c);
                    let ghost g1 = self.states@;
                    self.add_direct_owner(w, id);
                    proof {
                        lemma_records_trans(s0, g1, self.states@, Set::empty(), set![id]);
                    }
                    w
                }
            },
            None => {
                let cur_len = self.states[last].len + 1;
                let cur = self.push_state(cur_len, 0, Vec::new(), false);
                let mut p: Option<usize> = Some(last);
                let ghost goal = sk_add_walk(skels(self.states@), p, c, cur);
                proof {
                    assert(skels(self.states@) == sk_push(m, (m[last as int].0 + 1) as usize, 0, Seq::empty(), false));
                }
                while p.is_some() && self.find_next(p.unwrap(), c).is_none()
                    invariant
                        self.wf(),
                        sk_add_walk(skels(self.states@), p, c, cur) == goal,
                        records_only(s0, self.states@, Set::empty()),
                        Set::<i32>::empty().union(Set::empty()) == Set::<i32>::empty(),
                        last < s0.len(),
                        cur == s0.len(),
                        self.states@.len() == s0.len() + 1,
                        same_shape(s0, self.states@),
                        self.states@[cur as int].len == cur_len,
                        cur_len == s0[last as int].len + 1,
                        self.states@[0].direct_owners == s0[0].direct_owners,
                        p is Some ==> p.unwrap() < self.states@.len() && (self.states@[p.unwrap() as int].len
                            < s0[last as int].len || (p == Some(last) && !has_sym(self.states@[last as int].next@, c))),
                        last == 0 && !has_sym(s0[0].next@, c) ==> p is None || (p == Some(last) && !has_sym(self.states@[last as int].next@, c)),
                    decreases
                        match p {
                            Some(y) => self.states@[y as int].len + 1,
                            None => 0,
                        },
                {
                    let y = p.unwrap();
                    let ghost mc = skels(self.states@);
                    let ghost gc = self.states@;
                    proof {
                        assert(state_wf(self.states@, y as int));
                    }
                    self.set_next(y, c, cur);
                    proof {
                        lemma_records_trans(s0, gc, self.states@, Set::empty(), Set::empty());
                        assert(state_wf(self.states@, y as int));
                        assert(state_wf(self.states@, 0));
                    }
                    p = self.states[y].link;
                    proof {
                        if p is Some {
                            assert(y != 0);
                            assert(shorter_link(mc, y as int) == p);
                        } else {
                            assert(shorter_link(mc, y as int) is None);
                        }
                    }
                }
                match p {
                    None => {},
                    Some(pp) => {
                        let q = self.find_next(pp, c).unwrap();
                        let ghost g1 = self.states@;
                        if self.states[q].len == self.states[pp].len + 1 {
                            self.set_link(cur, q);
                        } else {
                            let w = self.clone_state(pp, q, c);
                            let ghost g2 = self.states@;
                            self.set_link(cur, w);
                            proof {
                                lemma_records_trans(g1, g2, self.states@, Set::empty(), Set::empty());
                            }
                        }
                        proof {
                            lemma_records_trans(s0, g1, self.states@, Set::empty(), Set::empty());
                        }
                    },
                }
                let ghost g3 = self.states@;
                self.add_direct_owner(cur, id);
                proof {
                    lemma_records_trans(s0, g3, self.states@, Set::empty(), set![id]);
                }
                cur
            },
        }
    }

    /// Inserts the string `s` under the id `id`: records `id` at the root, then
    /// streams the symbols of `s` through the extension step from the root (see
    /// `sk_join`). Returns the state reached by the whole string, whose length is
    /// that of `s`.
    pub fn join_string(&mut self, s: &Vec<char>, id: i32) -> (r: usize)
        requires
            old(self).wf(),
        ensures
            r < final(self).states@.len(),
            (skels(final(self).states@), r as int) == sk_join(skels(old(self).states@), s@, id),
            records_only(old(self).states@, final(self).states@, set![id]),
            final(self).states@[r as int].len == s@.len(),
            final(self).states@[r as int].direct_owners@.contains(id),
            final(self).wf(),
            same_shape(old(self).states@, final(self).states@),
            final(self).states@.len() <= old(self).states@.len() + 2 * s@.len(),
            final(self).states@[0].direct_owners@.to_set() == old(self).states@[0].direct_owners@.to_set().insert(id),
            s@.len() == 0 ==> final(self).states@.len() == old(self).states@.len(),
            // Into an automaton holding only the root, a nonempty string of length n leaves at most 2n states.
            old(self).states@.len() == 1 && old(self).states@[0].next@.len() == 0 && s@.len() >= 1
                ==> final(self).states@.len() <= 2 * s@.len(),
    {
        let ghost s0 = self.states@;
        let ghost fresh = s0.len() == 1 && s0[0].next@.len() == 0;
        self.add_direct_owner(0, id);
        let ghost root_owners = self.states@[0].direct_owners@.to_set();
        let mut cursor: usize = 0;
        let mut i: usize = 0;
        proof {
            assert(state_wf(self.states@, 0));
            assert(set![id].union(set![id]) =~= set![id]);
        }
        while i < s.len()
            invariant
                self.wf(),
                0 <= i <= s@.len(),
                cursor < self.states@.len(),
                self.states@[cursor as int].len == i,
                same_shape(s0, self.states@),
                self.states@.len() <= s0.len() + 2 * i,
                s0.len() >= 1,
                (skels(self.states@), cursor as int) == sk_join_prefix(skels(s0), s@, id, i as nat),
                records_only(s0, self.states@, set![id]),
                set![id].union(set![id]) == set![id],
                fresh == (s0.len() == 1 && s0[0].next@.len() == 0),
                root_owners == s0[0].direct_owners@.to_set().insert(id),
                i == 0 ==> cursor == 0 && self.states@.len() == s0.len() && self.states@[0].direct_owners@.to_set() == root_owners,
                i > 0 ==> self.states@[0].direct_owners@.to_set() == root_owners,
                self.states@[cursor as int].direct_owners@.to_set().contains(id),
                fresh && i == 0 ==> self.states@[0].next@.len() == 0,
                fresh && i >= 1 ==> self.states@.len() <= 2 * i,
            decreases s@.len() - i,
        {
            let c = s[i];
            let ghost before = self.states@;
            proof {
                if fresh && i == 0 {
                    assert(!has_sym(before[0].next@, c));
                }
            }
            cursor = self.extend_char(cursor, c, id);
            proof {
                lemma_records_trans(s0, before, self.states@, set![id], set![id]);
                if fresh && i == 0 {
                    assert(self.states@.len() == 2);
                }
            }
            i += 1;
        }
        proof {
            assert(self.states@[cursor as int].direct_owners@.to_set().contains(id));
        }
        cursor
    }

    /// Replaces the owners of state `v`.
    fn set_owners(&mut self, v: usize, o: Vec<i32>)
        requires
            old(self).wf(),
            v < old(self).states@.len(),
            o@.no_duplicates(),
        ensures
            final(self).wf(),
            same_but_owners(old(self).states@, final(self).states@),
            final(self).states@[v as int].owners@ == o@,
            forall|u: int|
                0 <= u < old(self).states@.len() && u != v ==> (#[trigger] final(self).states@[u]).owners
                    == old(self).states@[u].owners,
    {
        let ghost s0 = self.states@;
        self.states[v].owners = o;
        proof {
            let s1 = self.states@;
            assert forall|u: int| 0 <= u < s1.len() implies #[trigger] state_wf(s1, u) by {
                assert(state_wf(s0, u));
                let t = s1[u].next@;
                assert forall|k: int| 0 <= k < t.len() implies (#[trigger] t[k]).1 < s1.len()
                    && s1[u].len < s1[t[k].1 as int].len by {
                    assert(t[k] == s0[u].next@[k]);
                }
            }
        }
    }

    /// Computes the owners of every state: each starts from its direct owners, and,
    /// from the longest classes down, every non-root state passes its owners on to
    /// its suffix link. Nothing but the owners changes.
    pub fn collect(&mut self)
        requires
            old(self).wf(),
        ensures
            final(self).wf(),
            same_but_owners(old(self).states@, final(self).states@),
            skels(final(self).states@) == skels(old(self).states@),
            propagated(final(self).states@),
    {
        let ghost s0 = self.states@;
        let n = self.states.len();
        let mut v: usize = 0;
        let mut maxlen: usize = 0;
        while v < n
            invariant
                self.wf(),
                n == s0.len(),
                0 <= v <= n,
                same_but_owners(s0, self.states@),
                forall|u: int| 0 <= u < v ==> (#[trigger] self.states@[u]).owners@ == s0[u].direct_owners@,
                forall|u: int| 0 <= u < v ==> (#[trigger] self.states@[u]).len <= maxlen,
            decreases n - v,
        {
            proof {
                assert(state_wf(self.states@, v as int));
            }
            let d = copy_ids(&self.states[v].direct_owners);
            self.set_owners(v, d);
            if self.states[v].len > maxlen {
                maxlen = self.states[v].len;
            }
            v += 1;
        }
        proof {
            let s1 = self.states@;
            assert forall|w: int| 0 <= w < n implies (#[trigger] s1[w].owners@).to_set().subset_of(
                subtree_ids(s0, w)) by {
                assert(anc(s0, w, 0) == w);
                assert(reaches(s0, w, w));
                assert forall|x: i32| s1[w].owners@.to_set().contains(x) implies subtree_ids(s0, w).contains(x) by {
                    assert(s0[w].direct_owners@.contains(x));
                }
            }
        }
        let mut l: usize = maxlen;
        while l > 0
            invariant
                self.wf(),
                n == s0.len(),
                same_but_owners(s0, self.states@),
                forall|u: int| 0 <= u < n ==> (#[trigger] self.states@[u]).len <= maxlen,
                l <= maxlen,
                forall|w: int|
                    0 <= w < n ==> (#[trigger] self.states@[w].owners@).to_set().subset_of(subtree_ids(s0, w)),
                forall|w: int|
                    0 <= w < n ==> (#[trigger] s0[w].direct_owners@).to_set().subset_of(self.states@[w].owners@.to_set()),
                forall|w: int|
                    0 < w < n && self.states@[w].len > l ==> (#[trigger] self.states@[w].owners@).to_set().subset_of(
                        self.states@[self.states@[w].link.unwrap() as int].owners@.to_set(),
                    ),
            decreases l,
        {
            let mut i: usize = 0;
            while i < n
                invariant
                    self.wf(),
                    n == s0.len(),
                    0 < l <= maxlen,
                    0 <= i <= n,
                    same_but_owners(s0, self.states@),
                    forall|u: int| 0 <= u < n ==> (#[trigger] self.states@[u]).len <= maxlen,
                    forall|w: int|
                        0 <= w < n ==> (#[trigger] self.states@[w].owners@).to_set().subset_of(subtree_ids(s0, w)),
                    forall|w: int|
                        0 <= w < n ==> (#[trigger] s0[w].direct_owners@).to_set().subset_of(self.states@[w].owners@.to_set()),
                    forall|w: int|
                        0 < w < n && (self.states@[w].len > l || (self.states@[w].len == l && w < i))
                            ==> (#[trigger] self.states@[w].owners@).to_set().subset_of(
                            self.states@[self.states@[w].link.unwrap() as int].owners@.to_set(),
                        ),
                decreases n - i,
            {
                if self.states[i].len == l {
                    let ghost sb = self.states@;
                    proof {
                        assert(state_wf(sb, i as int));
                        assert(state_wf(sb, 0));
                    }
                    let lk = self.states[i].link.unwrap();
                    proof {
                        assert(state_wf(sb, lk as int));
                    }
                    let mut o = copy_ids(&self.states[lk].owners);
                    union_ids(&mut o, &self.states[i].owners);
                    self.set_owners(lk, o);
                    proof {
                        let sa = self.states@;
                        let lki = lk as int;
                        assert(sa[lki].owners@.to_set() == sb[lki].owners@.to_set().union(sb[i as int].owners@.to_set()));
                        // the owners of i pass to its link, whose subtree holds that of i
                        assert(sb[i as int].owners@.to_set().subset_of(subtree_ids(s0, i as int)));
                        assert(sb[lki].owners@.to_set().subset_of(subtree_ids(s0, lki)));
                        assert forall|x: i32| subtree_ids(s0, i as int).contains(x) implies subtree_ids(s0, lki).contains(x) by {
                            let u = choose|u: int| 0 <= u < s0.len() && reaches(s0, u, i as int) && (#[trigger] s0[u].direct_owners@).contains(x);
                            lemma_reaches_link(s0, u, i as int);
                        }
                        assert forall|w: int| 0 <= w < n implies (#[trigger] sa[w].owners@).to_set().subset_of(subtree_ids(s0, w)) by {
                            if w != lki {
                                assert(sa[w].owners == sb[w].owners);
                            }
                        }
                        assert forall|w: int| 0 <= w < n implies (#[trigger] s0[w].direct_owners@).to_set().subset_of(sa[w].owners@.to_set()) by {
                            if w != lki {
                                assert(sa[w].owners == sb[w].owners);
                            }
                        }
                        assert forall|w: int|
                            0 < w < n && (sa[w].len > l || (sa[w].len == l && w < i + 1))
                            implies (#[trigger] sa[w].owners@).to_set().subset_of(sa[sa[w].link.unwrap() as int].owners@.to_set()) by {
                            assert(sa[w].link == sb[w].link);
                            assert(sa[w].len == sb[w].len);
                            assert(state_wf(sb, w));
                            if w != i as int {
                                assert(w != lki);
                                assert(sa[w].owners == sb[w].owners);
                            }
                        }
                    }
                }
                i += 1;
            }
            l -= 1;
        }
        proof {
            let s1 = self.states@;
            assert(skels(s1) =~= skels(s0));
            lemma_same_subtree(s0, s1, 0);
            assert(owners_follow_links(s1)) by {
                assert forall|w: int| 0 < w < s1.len() implies (#[trigger] s1[w].owners@).to_set().subset_of(
                    s1[s1[w].link.unwrap() as int].owners@.to_set()) by {
                    assert(state_wf(s1, w));
                    assert(state_wf(s1, s1[w].link.unwrap() as int));
                }
            }
            assert forall|v: int| 0 <= v < s1.len() implies (#[trigger] s1[v].owners@).to_set() == subtree_ids(s1, v) by {
                lemma_same_subtree(s0, s1, v);
                assert forall|x: i32| subtree_ids(s0, v).contains(x) implies s1[v].owners@.to_set().contains(x) by {
                    let u = choose|u: int| 0 <= u < s0.len() && reaches(s0, u, v) && (#[trigger] s0[u].direct_owners@).contains(x);
                    let k = choose|k: nat| anc(s0, u, k) == v;
                    lemma_same_anc(s0, s1, u, k);
                    lemma_owners_chain(s1, u, k);
                    assert(s0[u].direct_owners@.to_set().contains(x));
                }
                assert(s1[v].owners@.to_set() =~= subtree_ids(s1, v));
            }
        }
    }
}

} // verus!
