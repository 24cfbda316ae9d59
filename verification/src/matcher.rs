//! The multi-pattern streaming matcher: a trie over the pattern list
//! with failure links, built breadth-first. The model ties every state to
//! the string its path spells; the failure link provably spells the
//! longest proper suffix of that string that is itself a state, and a
//! state's output is exactly the set of patterns that are suffixes of its
//! string. Feeding a stream therefore reports, at each position, exactly
//! the patterns that end there.

use vstd::prelude::*;
use vstd::set_lib::lemma_int_range;
use vstd::set_lib::lemma_len_subset;
use vstd::set_lib::set_int_range;

verus! {

/// One state of the pattern automaton: labelled edges to child states,
/// the failure link, and the indices of every pattern recognized when
/// this state is reached.
pub struct TrieNode {
    /// outgoing edges, one per distinct character
    pub children: Vec<(char, usize)>,
    /// the longest proper suffix of this state's path that is itself a state
    pub fallback: usize,
    /// indices of the patterns that end at this state, own or via the failure chain
    pub output: Vec<usize>,
}

/// A multi-pattern streaming matcher: a trie over the pattern list with
/// failure links, plus the live cursor state advanced by [`Matcher::next`].
pub struct Matcher {
    pub nodes: Vec<TrieNode>,
    pub current: usize,
    /// model: the pattern list the automaton was built from
    pub pats: Ghost<Seq<Seq<char>>>,
    /// model: the string spelled by the path from the root to each state
    pub strs: Ghost<Seq<Seq<char>>>,
    /// model: the characters fed so far
    pub fed: Ghost<Seq<char>>,
}

/// Looks a character up in an edge list, returning the first matching target.
pub open spec fn lookup(edges: Seq<(char, usize)>, c: char) -> Option<usize>
    decreases edges.len(),
{
    if edges.len() == 0 {
        None
    } else if edges[0].0 == c {
        Some(edges[0].1)
    } else {
        lookup(edges.drop_first(), c)
    }
}

/// `u` is a (not necessarily proper) suffix of `w`.
pub open spec fn is_suffix(u: Seq<char>, w: Seq<char>) -> bool {
    u.len() <= w.len() && u == w.skip(w.len() - u.len())
}

/// Some state of the trie spells exactly `u`.
pub open spec fn is_node(strs: Seq<Seq<char>>, u: Seq<char>) -> bool {
    exists|s: int| 0 <= s < strs.len() && strs[s] == u
}

/// Every edge target is a non-root state in range whose path string extends
/// the source's path string by the edge character.
pub open spec fn edges_wf(nodes: Seq<TrieNode>, strs: Seq<Seq<char>>) -> bool {
    forall|s: int, k: int|
        #![trigger nodes[s].children@[k]]
        0 <= s < nodes.len() && 0 <= k < nodes[s].children@.len() ==> {
            &&& 1 <= nodes[s].children@[k].1
            &&& (nodes[s].children@[k].1 as int) < nodes.len()
            &&& strs[nodes[s].children@[k].1 as int] == strs[s].push(nodes[s].children@[k].0)
        }
}

/// No state has two edges labelled with the same character.
pub open spec fn edge_chars_unique(nodes: Seq<TrieNode>) -> bool {
    forall|s: int, k1: int, k2: int|
        #![trigger nodes[s].children@[k1], nodes[s].children@[k2]]
        0 <= s < nodes.len() && 0 <= k1 < k2 < nodes[s].children@.len()
            ==> nodes[s].children@[k1].0 != nodes[s].children@[k2].0
}

/// State `t` is the target of some edge.
pub open spec fn has_parent_edge(nodes: Seq<TrieNode>, t: int) -> bool {
    exists|s: int, k: int|
        0 <= s < nodes.len() && 0 <= k < nodes[s].children@.len()
            && (#[trigger] nodes[s].children@[k].1) as int == t
}

/// Every non-root state is the target of some edge.
pub open spec fn parents_wf(nodes: Seq<TrieNode>) -> bool {
    forall|t: int| 1 <= t < nodes.len() ==> has_parent_edge(nodes, t)
}

/// Distinct states spell distinct path strings.
pub open spec fn strs_unique(strs: Seq<Seq<char>>) -> bool {
    forall|s1: int, s2: int| 0 <= s1 < s2 < strs.len() ==> strs[s1] != strs[s2]
}

/// The structural well-formedness of the trie part of the automaton.
pub open spec fn trie_wf(nodes: Seq<TrieNode>, strs: Seq<Seq<char>>) -> bool {
    &&& 1 <= nodes.len()
    &&& strs.len() == nodes.len()
    &&& strs[0] == Seq::<char>::empty()
    &&& edges_wf(nodes, strs)
    &&& edge_chars_unique(nodes)
    &&& parents_wf(nodes)
    &&& strs_unique(strs)
}

/// Failure links stay in range; the root's is the root; every other one
/// spells a proper suffix of its state's path string.
pub open spec fn fallback_wf(nodes: Seq<TrieNode>, strs: Seq<Seq<char>>) -> bool {
    &&& nodes[0].fallback == 0usize
    &&& forall|s: int|
        1 <= s < nodes.len() ==> {
            &&& (#[trigger] nodes[s].fallback as int) < nodes.len()
            &&& strs[nodes[s].fallback as int].len() < strs[s].len()
            &&& is_suffix(strs[nodes[s].fallback as int], strs[s])
        }
}

/// The failure link of `s` spells the longest proper suffix of `s`'s path
/// string that is spelled by any state.
pub open spec fn fallback_longest_at(nodes: Seq<TrieNode>, strs: Seq<Seq<char>>, s: int) -> bool {
    forall|u: Seq<char>|
        #![trigger is_suffix(u, strs[s])]
        is_suffix(u, strs[s]) && u.len() < strs[s].len() && is_node(strs, u)
            ==> u.len() <= strs[nodes[s].fallback as int].len()
}

/// Every pattern index a state reports names a pattern that is a suffix of
/// the state's path string.
pub open spec fn output_weak_at(
    nodes: Seq<TrieNode>,
    strs: Seq<Seq<char>>,
    pats: Seq<Seq<char>>,
    s: int,
) -> bool {
    forall|j: usize|
        #[trigger] nodes[s].output@.contains(j) ==> (j as int) < pats.len() && is_suffix(
            pats[j as int],
            strs[s],
        )
}

/// A state reports each nonempty pattern exactly when it is a suffix of
/// the state's path string. An empty pattern, which the stream never
/// completes by walking an edge, is left unconstrained.
pub open spec fn output_sem_at(
    nodes: Seq<TrieNode>,
    strs: Seq<Seq<char>>,
    pats: Seq<Seq<char>>,
    s: int,
) -> bool {
    forall|j: usize|
        #![trigger nodes[s].output@.contains(j)]
        #![trigger is_suffix(pats[j as int], strs[s])]
        (j as int) < pats.len() && pats[j as int].len() > 0 ==> (nodes[s].output@.contains(j)
            <==> is_suffix(pats[j as int], strs[s]))
}

/// Every edge of the trie carries a real character, never the null one.
pub open spec fn no_null_edges(nodes: Seq<TrieNode>) -> bool {
    forall|s: int, k: int|
        #![trigger nodes[s].children@[k]]
        0 <= s < nodes.len() && 0 <= k < nodes[s].children@.len() ==> nodes[s].children@[k].0
            != '\0'
}

/// `c` occurs in some pattern of the list.
pub open spec fn char_in_pats(pats: Seq<Seq<char>>, c: char) -> bool {
    exists|i: int, p: int|
        0 <= i < pats.len() && 0 <= p < pats[i].len() && (#[trigger] pats[i][p]) == c
}

/// No pattern contains the null character.
pub open spec fn no_null_pats(pats: Seq<Seq<char>>) -> bool {
    forall|i: int, p: int|
        0 <= i < pats.len() && 0 <= p < pats[i].len() ==> (#[trigger] pats[i][p]) != '\0'
}

/// Every non-root state spells a prefix of some pattern: the trie holds
/// nothing beyond the pattern list's prefixes.
pub open spec fn states_are_prefixes(strs: Seq<Seq<char>>, pats: Seq<Seq<char>>) -> bool {
    forall|s: int|
        #![trigger strs[s]]
        1 <= s < strs.len() ==> exists|i: int|
            0 <= i < pats.len() && strs[s].is_prefix_of(pats[i])
}

/// Every pattern is spelled by some state.
pub open spec fn pats_in_trie(strs: Seq<Seq<char>>, pats: Seq<Seq<char>>) -> bool {
    forall|i: int| 0 <= i < pats.len() ==> is_node(strs, #[trigger] pats[i])
}

impl Matcher {
    /// The whole invariant of a built automaton.
    pub open spec fn wf(self) -> bool {
        &&& trie_wf(self.nodes@, self.strs@)
        &&& fallback_wf(self.nodes@, self.strs@)
        &&& forall|s: int|
            1 <= s < self.nodes@.len() ==> fallback_longest_at(self.nodes@, self.strs@, s)
        &&& pats_in_trie(self.strs@, self.pats@)
        &&& states_are_prefixes(self.strs@, self.pats@)
        &&& forall|s: int|
            0 <= s < self.nodes@.len() ==> output_weak_at(self.nodes@, self.strs@, self.pats@, s)
        &&& forall|s: int| 0 <= s < self.nodes@.len() ==> (#[trigger] self.nodes@[s].output@).no_duplicates()
        &&& forall|s: int|
            0 <= s < self.nodes@.len() ==> output_sem_at(self.nodes@, self.strs@, self.pats@, s)
        &&& (self.current as int) < self.nodes@.len()
        &&& is_suffix(self.strs@[self.current as int], self.fed@)
        &&& forall|u: Seq<char>|
            #![trigger is_suffix(u, self.fed@)]
            is_suffix(u, self.fed@) && is_node(self.strs@, u) ==> u.len() <= self.strs@[self.current as int].len()
    }
}

/// Every edge label is a character of some pattern: the trie invents no
/// characters of its own.
pub proof fn lemma_edge_chars_in_pats(m: Matcher)
    requires
        m.wf(),
    ensures
        forall|s: int, k: int|
            #![trigger m.nodes@[s].children@[k]]
            0 <= s < m.nodes@.len() && 0 <= k < m.nodes@[s].children@.len() ==> char_in_pats(
                m.pats@,
                m.nodes@[s].children@[k].0,
            ),
{
    assert forall|s: int, k: int|
        0 <= s < m.nodes@.len() && 0 <= k < m.nodes@[s].children@.len() implies char_in_pats(
        m.pats@,
        (#[trigger] m.nodes@[s].children@[k]).0,
    ) by {
        let c = m.nodes@[s].children@[k].0;
        let t = m.nodes@[s].children@[k].1 as int;
        assert(m.strs@[t] == m.strs@[s].push(c));
        let i = choose|i: int|
            0 <= i < m.pats@.len() && m.strs@[t].is_prefix_of(m.pats@[i]);
        let p = m.strs@[t].len() - 1;
        assert(m.strs@[t][p] == c);
        assert(m.pats@[i][p] == c) by {
            assert(m.strs@[t][p] == m.pats@[i].subrange(0, m.strs@[t].len() as int)[p]);
        }
    }
}

/// A dictionary free of the null character yields a trie free of
/// null-labelled edges.
pub proof fn lemma_no_null_edges(m: Matcher)
    requires
        m.wf(),
        no_null_pats(m.pats@),
    ensures
        no_null_edges(m.nodes@),
{
    lemma_edge_chars_in_pats(m);
    assert forall|s: int, k: int|
        0 <= s < m.nodes@.len() && 0 <= k < m.nodes@[s].children@.len() implies (
    #[trigger] m.nodes@[s].children@[k]).0 != '\0' by {
        assert(char_in_pats(m.pats@, m.nodes@[s].children@[k].0));
    }
}

/// An automaton over no patterns is the root alone, with no edges: the
/// degenerate no-op matcher.
pub proof fn lemma_empty_matcher(m: Matcher)
    requires
        m.wf(),
        m.pats@.len() == 0,
    ensures
        m.nodes@.len() == 1,
        m.nodes@[0].children@.len() == 0,
{
    if m.nodes@.len() > 1 {
        assert(states_are_prefixes(m.strs@, m.pats@));
        assert(1 < m.strs@.len());
        assert(m.strs@[1].len() >= 0);
        assert(exists|i: int|
            0 <= i < m.pats@.len() && m.strs@[1].is_prefix_of(m.pats@[i]));
        assert(false);
    }
    if m.nodes@[0].children@.len() > 0 {
        assert(1 <= m.nodes@[0].children@[0].1);
        assert((m.nodes@[0].children@[0].1 as int) < m.nodes@.len());
        assert(false);
    }
}

/// Finds the target of the edge labelled `c`, scanning the edge list.
fn find_child(edges: &Vec<(char, usize)>, c: char) -> (r: Option<usize>)
    ensures
        r == lookup(edges@, c),
{
    let mut k: usize = 0;
    proof {
        assert(edges@.skip(0) =~= edges@);
    }
    while k < edges.len()
        invariant
            k <= edges@.len(),
            lookup(edges@, c) == lookup(edges@.skip(k as int), c),
        decreases edges@.len() - k,
    {
        proof {
            assert(edges@.skip(k as int)[0] == edges@[k as int]);
            assert(edges@.skip(k as int).drop_first() =~= edges@.skip(k as int + 1));
        }
        if edges[k].0 == c {
            return Some(edges[k].1);
        }
        k = k + 1;
    }
    proof {
        assert(edges@.skip(k as int).len() == 0);
    }
    None
}

/// Copies a vector of indices element by element.
fn copy_indices(v: &Vec<usize>) -> (r: Vec<usize>)
    ensures
        r@ == v@,
{
    let mut r: Vec<usize> = Vec::new();
    let mut k: usize = 0;
    while k < v.len()
        invariant
            k <= v@.len(),
            r@ == v@.take(k as int),
        decreases v@.len() - k,
    {
        r.push(v[k]);
        proof {
            assert(v@.take(k as int).push(v@[k as int]) =~= v@.take(k as int + 1));
        }
        k = k + 1;
    }
    proof {
        assert(v@.take(v@.len() as int) =~= v@);
    }
    r
}

/// A successful lookup names an edge of the list; a failed one means no
/// edge carries the character.
proof fn lemma_lookup(edges: Seq<(char, usize)>, c: char)
    ensures
        match lookup(edges, c) {
            Some(t) => exists|k: int| 0 <= k < edges.len() && edges[k] == (c, t),
            None => forall|k: int| 0 <= k < edges.len() ==> (#[trigger] edges[k]).0 != c,
        },
    decreases edges.len(),
{
    if edges.len() == 0 {
    } else if edges[0].0 == c {
        assert(edges[0] == (c, edges[0].1));
    } else {
        lemma_lookup(edges.drop_first(), c);
        match lookup(edges.drop_first(), c) {
            Some(t) => {
                let k = choose|k: int|
                    0 <= k < edges.drop_first().len() && edges.drop_first()[k] == (c, t);
                assert(edges[k + 1] == (c, t));
            },
            None => {
                assert forall|k: int| 0 <= k < edges.len() implies (#[trigger] edges[k]).0
                    != c by {
                    if k > 0 {
                        assert(edges.drop_first()[k - 1] == edges[k]);
                    }
                }
            },
        }
    }
}

/// Suffixes compose.
proof fn lemma_suffix_trans(u: Seq<char>, v: Seq<char>, w: Seq<char>)
    requires
        is_suffix(u, v),
        is_suffix(v, w),
    ensures
        is_suffix(u, w),
{
    assert(u =~= w.skip(w.len() - u.len()));
}

/// Of two suffixes of one string, the shorter is a suffix of the longer.
proof fn lemma_suffix_of_suffix(u: Seq<char>, v: Seq<char>, w: Seq<char>)
    requires
        is_suffix(u, w),
        is_suffix(v, w),
        u.len() <= v.len(),
    ensures
        is_suffix(u, v),
{
    assert(u =~= v.skip(v.len() - u.len()));
}

/// Appending one character to both sides preserves the suffix relation.
proof fn lemma_suffix_push(u: Seq<char>, w: Seq<char>, c: char)
    requires
        is_suffix(u, w),
    ensures
        is_suffix(u.push(c), w.push(c)),
{
    assert(u.push(c) =~= w.push(c).skip(w.push(c).len() - u.push(c).len()));
}

/// A nonempty suffix of `w.push(c)` ends in `c` and its front is a suffix of `w`.
proof fn lemma_suffix_unpush(u: Seq<char>, w: Seq<char>, c: char)
    requires
        is_suffix(u, w.push(c)),
        u.len() > 0,
    ensures
        u.last() == c,
        is_suffix(u.drop_last(), w),
{
    assert(u.last() == w.push(c)[w.push(c).len() - 1]);
    assert(u.drop_last() =~= w.skip(w.len() - u.drop_last().len()));
}

/// The empty string is a suffix of anything.
proof fn lemma_suffix_empty(w: Seq<char>)
    ensures
        is_suffix(Seq::<char>::empty(), w),
{
    assert(Seq::<char>::empty() =~= w.skip(w.len() - 0));
}

/// Two equal pushes have equal fronts and equal pushed characters.
proof fn lemma_push_injective(u: Seq<char>, v: Seq<char>, a: char, b: char)
    requires
        u.push(a) == v.push(b),
    ensures
        u == v,
        a == b,
{
    assert(a == u.push(a)[u.push(a).len() - 1]);
    assert(b == v.push(b)[v.push(b).len() - 1]);
    assert(u =~= v) by {
        assert forall|i: int| 0 <= i < u.len() implies u[i] == v[i] by {
            assert(u[i] == u.push(a)[i]);
            assert(v[i] == v.push(b)[i]);
        }
    }
}

/// If `u.push(c)` is spelled by a state, then `u` is spelled by a state,
/// and every state spelling `u` has an edge labelled `c` whose target
/// spells `u.push(c)`.
proof fn lemma_extension_edge(nodes: Seq<TrieNode>, strs: Seq<Seq<char>>, u: Seq<char>, c: char)
    requires
        trie_wf(nodes, strs),
        is_node(strs, u.push(c)),
    ensures
        is_node(strs, u),
        forall|s: int|
            0 <= s < nodes.len() && strs[s] == u ==> (#[trigger] lookup(
                nodes[s].children@,
                c,
            )) is Some,
{
    let t = choose|t: int| 0 <= t < strs.len() && strs[t] == u.push(c);
    assert(strs[t].len() > 0);
    assert(t != 0);
    assert(has_parent_edge(nodes, t));
    let (p, k) = choose|p: int, k: int|
        0 <= p < nodes.len() && 0 <= k < nodes[p].children@.len() && (#[trigger] nodes[p].children@[k].1) as int == t;
    lemma_push_injective(strs[p], u, nodes[p].children@[k].0, c);
    assert(strs[p] == u);
    assert forall|s: int| 0 <= s < nodes.len() && strs[s] == u implies (#[trigger] lookup(
        nodes[s].children@,
        c,
    )) is Some by {
        assert(s == p);
        lemma_lookup(nodes[s].children@, c);
        if lookup(nodes[s].children@, c) is None {
            assert(nodes[p].children@[k].0 != c);
        }
    }
}

/// Every failure link still points at the root.
pub open spec fn fallbacks_zero(nodes: Seq<TrieNode>) -> bool {
    forall|s: int| 0 <= s < nodes.len() ==> (#[trigger] nodes[s].fallback) == 0usize
}

/// Outputs mark exactly the already-inserted patterns at their end states.
pub open spec fn outputs_own_upto(
    nodes: Seq<TrieNode>,
    strs: Seq<Seq<char>>,
    pats: Seq<Seq<char>>,
    bound: int,
) -> bool {
    forall|s: int, j: usize|
        #![trigger nodes[s].output@.contains(j)]
        #![trigger nodes[s].output@, pats[j as int]]
        0 <= s < nodes.len() ==> (nodes[s].output@.contains(j) <==> 0 <= (j as int) < bound && (
        j as int) < pats.len() && pats[j as int] == strs[s])
}

/// No state's output list repeats an index.
pub open spec fn no_dup_outputs(nodes: Seq<TrieNode>) -> bool {
    forall|s: int|
        0 <= s < nodes.len() ==> (#[trigger] nodes[s].output@).no_duplicates()
}

/// A non-root state spells a nonempty string.
proof fn lemma_nonroot_nonempty(strs: Seq<Seq<char>>, s: int)
    requires
        strs_unique(strs),
        0 < strs.len(),
        strs[0] == Seq::<char>::empty(),
        1 <= s < strs.len(),
    ensures
        strs[s].len() > 0,
{
    if strs[s].len() == 0 {
        assert(strs[s] =~= strs[0]);
    }
}

/// A string one character past a state with no edge on that character is
/// spelled by no state at all.
proof fn lemma_fresh_string(nodes: Seq<TrieNode>, strs: Seq<Seq<char>>, cur: int, c: char)
    requires
        trie_wf(nodes, strs),
        0 <= cur < nodes.len(),
        lookup(nodes[cur].children@, c) is None,
    ensures
        !is_node(strs, strs[cur].push(c)),
{
    if is_node(strs, strs[cur].push(c)) {
        lemma_extension_edge(nodes, strs, strs[cur], c);
        assert(lookup(nodes[cur].children@, c) is Some);
    }
}

/// Builds the bare trie of the pattern list: one state per distinct
/// pattern prefix, outputs marking only the patterns' own end states,
/// every failure link still pointing at the root.
#[verifier::loop_isolation(false)]
fn build_trie(words: &Vec<String>) -> (r: (Vec<TrieNode>, Ghost<Seq<Seq<char>>>))
    ensures
        trie_wf(r.0@, r.1@),
        fallbacks_zero(r.0@),
        outputs_own_upto(r.0@, r.1@, words.deep_view(), words.deep_view().len() as int),
        no_dup_outputs(r.0@),
        pats_in_trie(r.1@, words.deep_view()),
        states_are_prefixes(r.1@, words.deep_view()),
{
    let ghost pats = words.deep_view();
    let mut nodes: Vec<TrieNode> = Vec::new();
    nodes.push(TrieNode { children: Vec::new(), fallback: 0, output: Vec::new() });
    let ghost mut strs = seq![Seq::<char>::empty()];
    proof {
        assert(nodes@[0].children@.len() == 0);
        assert(nodes@[0].output@ =~= Seq::<usize>::empty());
    }
    let mut i: usize = 0;
    while i < words.len()
        invariant
            i <= words@.len(),
            trie_wf(nodes@, strs),
            fallbacks_zero(nodes@),
            outputs_own_upto(nodes@, strs, pats, i as int),
            no_dup_outputs(nodes@),
            forall|i2: int| 0 <= i2 < i ==> is_node(strs, #[trigger] pats[i2]),
            states_are_prefixes(strs, pats),
        decreases words@.len() - i,
    {
        let n_chars = words[i].as_str().unicode_len();
        proof {
            assert(pats[i as int] == words@[i as int]@);
            assert(strs[0] =~= pats[i as int].take(0));
        }
        let mut cur: usize = 0;
        let mut k: usize = 0;
        while k < n_chars
            invariant
                k <= n_chars,
                (cur as int) < nodes@.len(),
                strs[cur as int] == pats[i as int].take(k as int),
                trie_wf(nodes@, strs),
                fallbacks_zero(nodes@),
                outputs_own_upto(nodes@, strs, pats, i as int),
                no_dup_outputs(nodes@),
                forall|i2: int| 0 <= i2 < i ==> is_node(strs, #[trigger] pats[i2]),
                states_are_prefixes(strs, pats),
                n_chars == pats[i as int].len(),
            decreases n_chars - k,
        {
            let c = words[i].as_str().get_char(k);
            proof {
                assert(c == pats[i as int][k as int]);
            }
            let next_cur: usize;
            match find_child(&nodes[cur].children, c) {
                Some(t) => {
                    proof {
                        lemma_lookup(nodes@[cur as int].children@, c);
                        let ke = choose|ke: int|
                            0 <= ke < nodes@[cur as int].children@.len()
                                && nodes@[cur as int].children@[ke] == (c, t);
                        assert(strs[t as int] == strs[cur as int].push(c));
                    }
                    next_cur = t;
                },
                None => {
                    let fresh = nodes.len();
                    let ghost old_nodes = nodes@;
                    let ghost old_strs = strs;
                    let ghost newstr = strs[cur as int].push(c);
                    proof {
                        lemma_fresh_string(nodes@, strs, cur as int, c);
                        lemma_lookup(nodes@[cur as int].children@, c);
                    }
                    nodes.push(TrieNode { children: Vec::new(), fallback: 0, output: Vec::new() });
                    proof {
                        strs = strs.push(newstr);
                    }
                    nodes[cur].children.push((c, fresh));
                    proof {
                        let nn = nodes@;
                        assert(nn.len() == old_nodes.len() + 1);
                        assert(nn[fresh as int].children@.len() == 0);
                        assert(nn[fresh as int].output@.len() == 0);
                        assert(nn[cur as int].children@ == old_nodes[cur as int].children@.push(
                            (c, fresh),
                        ));
                        assert(forall|s: int|
                            0 <= s < nn.len() && s != cur && s != fresh ==> nn[s]
                                == old_nodes[s]);
                        assert(nn[cur as int].output@ == old_nodes[cur as int].output@);
                        assert(nn[cur as int].fallback == old_nodes[cur as int].fallback);
                        // the trie stays well formed
                        assert(edges_wf(nn, strs)) by {
                            assert forall|s: int, kk: int|
                                0 <= s < nn.len() && 0 <= kk < nn[s].children@.len() implies {
                                &&& 1 <= nn[s].children@[kk].1
                                &&& (nn[s].children@[kk].1 as int) < nn.len()
                                &&& strs[nn[s].children@[kk].1 as int] == strs[s].push(
                                    nn[s].children@[kk].0,
                                )
                            } by {
                                if s == cur as int && kk == nn[s].children@.len() - 1 {
                                } else {
                                    assert(nn[s].children@[kk] == old_nodes[s].children@[kk]);
                                }
                            }
                        }
                        assert(edge_chars_unique(nn)) by {
                            assert forall|s: int, k1: int, k2: int|
                                0 <= s < nn.len() && 0 <= k1 < k2 < nn[s].children@.len() implies nn[s].children@[k1].0
                                != nn[s].children@[k2].0 by {
                                if s == cur as int && k2 == nn[s].children@.len() - 1 {
                                    assert(nn[s].children@[k1]
                                        == old_nodes[s].children@[k1]);
                                    assert(old_nodes[s].children@[k1].0 != c);
                                } else if s == cur as int {
                                    assert(nn[s].children@[k1] == old_nodes[s].children@[k1]);
                                    assert(nn[s].children@[k2] == old_nodes[s].children@[k2]);
                                } else {
                                    assert(nn[s].children@[k1] == old_nodes[s].children@[k1]);
                                    assert(nn[s].children@[k2] == old_nodes[s].children@[k2]);
                                }
                            }
                        }
                        assert(parents_wf(nn)) by {
                            assert forall|t: int| 1 <= t < nn.len() implies has_parent_edge(
                                nn,
                                t,
                            ) by {
                                if t == fresh as int {
                                    let kk = nn[cur as int].children@.len() - 1;
                                    assert(nn[cur as int].children@[kk].1 as int == t);
                                } else {
                                    assert(has_parent_edge(old_nodes, t));
                                    let (s0, k0) = choose|s0: int, k0: int|
                                        0 <= s0 < old_nodes.len() && 0 <= k0
                                            < old_nodes[s0].children@.len() && (
                                        #[trigger] old_nodes[s0].children@[k0].1) as int == t;
                                    assert(nn[s0].children@[k0].1 as int == t);
                                }
                            }
                        }
                        assert(strs_unique(strs)) by {
                            assert forall|s1: int, s2: int|
                                0 <= s1 < s2 < strs.len() implies strs[s1] != strs[s2] by {
                                if s2 == strs.len() - 1 {
                                    assert(!is_node(old_strs, newstr));
                                    assert(old_strs[s1] == strs[s1]);
                                }
                            }
                        }
                        // outputs and failure links are untouched
                        assert(outputs_own_upto(nn, strs, pats, i as int)) by {
                            assert forall|s: int, j: usize|
                                0 <= s < nn.len() implies (#[trigger] nn[s].output@.contains(j)
                                <==> 0 <= (j as int) < i && (j as int) < pats.len() && pats[j as int]
                                    == strs[s]) by {
                                if s == fresh as int {
                                    assert(!nn[s].output@.contains(j));
                                    if 0 <= (j as int) < i && pats[j as int] == strs[s] {
                                        assert(is_node(old_strs, pats[j as int]));
                                        assert(false);
                                    }
                                } else {
                                    assert(nn[s].output@ == old_nodes[s].output@);
                                    assert(strs[s] == old_strs[s]);
                                }
                            }
                        }
                        assert(no_dup_outputs(nn)) by {
                            assert forall|s: int| 0 <= s < nn.len() implies (
                            #[trigger] nn[s].output@).no_duplicates() by {
                                if s != fresh as int {
                                    assert(nn[s].output@ == old_nodes[s].output@);
                                }
                            }
                        }
                        assert(forall|i2: int|
                            0 <= i2 < i ==> is_node(strs, #[trigger] pats[i2])) by {
                            assert forall|i2: int| 0 <= i2 < i implies is_node(
                                strs,
                                #[trigger] pats[i2],
                            ) by {
                                let t = choose|t: int|
                                    0 <= t < old_strs.len() && old_strs[t] == pats[i2];
                                assert(strs[t] == pats[i2]);
                            }
                        }
                        assert(states_are_prefixes(strs, pats)) by {
                            assert forall|s2: int|
                                #![trigger strs[s2]]
                                1 <= s2 < strs.len() implies exists|i2: int|
                                0 <= i2 < pats.len() && strs[s2].is_prefix_of(pats[i2]) by {
                                if s2 == strs.len() - 1 {
                                    assert(strs[s2] == pats[i as int].take(k as int).push(
                                        pats[i as int][k as int],
                                    ));
                                    assert(strs[s2] =~= pats[i as int].take(k as int + 1));
                                    assert(strs[s2].is_prefix_of(pats[i as int])) by {
                                        assert(strs[s2] =~= pats[i as int].subrange(
                                            0,
                                            strs[s2].len() as int,
                                        ));
                                    }
                                } else {
                                    assert(strs[s2] == old_strs[s2]);
                                    let i2 = choose|i2: int|
                                        0 <= i2 < pats.len() && old_strs[s2].is_prefix_of(
                                            pats[i2],
                                        );
                                    assert(strs[s2].is_prefix_of(pats[i2]));
                                }
                            }
                        }
                    }
                    next_cur = fresh;
                },
            }
            cur = next_cur;
            proof {
                assert(pats[i as int].take(k as int).push(pats[i as int][k as int]) =~= pats[
                    i as int
                ].take(k as int + 1));
            }
            k = k + 1;
        }
        proof {
            assert(pats[i as int].take(n_chars as int) =~= pats[i as int]);
        }
        let ghost old_nodes = nodes@;
        let wi = i;
        nodes[cur].output.push(wi);
        proof {
            let nn = nodes@;
            assert(nn[cur as int].output@ == old_nodes[cur as int].output@.push(wi));
            assert(forall|s: int| 0 <= s < nn.len() && s != cur ==> nn[s] == old_nodes[s]);
            assert(nn[cur as int].children@ == old_nodes[cur as int].children@);
            assert(nn[cur as int].fallback == old_nodes[cur as int].fallback);
            assert(edges_wf(nn, strs)) by {
                assert forall|s: int, kk: int|
                    0 <= s < nn.len() && 0 <= kk < nn[s].children@.len() implies {
                    &&& 1 <= nn[s].children@[kk].1
                    &&& (nn[s].children@[kk].1 as int) < nn.len()
                    &&& strs[nn[s].children@[kk].1 as int] == strs[s].push(nn[s].children@[kk].0)
                } by {
                    assert(nn[s].children@[kk] == old_nodes[s].children@[kk]);
                }
            }
            assert(edge_chars_unique(nn)) by {
                assert forall|s: int, k1: int, k2: int|
                    0 <= s < nn.len() && 0 <= k1 < k2 < nn[s].children@.len() implies nn[s].children@[k1].0
                    != nn[s].children@[k2].0 by {
                    assert(nn[s].children@[k1] == old_nodes[s].children@[k1]);
                    assert(nn[s].children@[k2] == old_nodes[s].children@[k2]);
                }
            }
            assert(parents_wf(nn)) by {
                assert forall|t: int| 1 <= t < nn.len() implies has_parent_edge(nn, t) by {
                    assert(has_parent_edge(old_nodes, t));
                    let (s0, k0) = choose|s0: int, k0: int|
                        0 <= s0 < old_nodes.len() && 0 <= k0 < old_nodes[s0].children@.len() && (
                        #[trigger] old_nodes[s0].children@[k0].1) as int == t;
                    assert(nn[s0].children@[k0].1 as int == t);
                }
            }
            assert(outputs_own_upto(nn, strs, pats, i as int + 1)) by {
                assert forall|s: int, j: usize|
                    0 <= s < nn.len() implies (#[trigger] nn[s].output@.contains(j) <==> 0 <= (
                j as int) < i + 1 && (j as int) < pats.len() && pats[j as int] == strs[s]) by {
                    if s == cur as int {
                        if nn[s].output@.contains(j) {
                            if j == wi {
                            } else {
                                assert(old_nodes[s].output@.contains(j));
                            }
                        }
                        if 0 <= (j as int) < i + 1 && (j as int) < pats.len() && pats[j as int]
                            == strs[s] {
                            if j == wi {
                                assert(nn[s].output@.last() == wi);
                            } else {
                                assert(old_nodes[s].output@.contains(j));
                                assert(nn[s].output@[old_nodes[s].output@.index_of(j)] == j);
                            }
                        }
                    } else {
                        assert(nn[s].output@ == old_nodes[s].output@);
                        if nn[s].output@.contains(j) {
                            assert(0 <= (j as int) < i && pats[j as int] == strs[s]);
                        }
                        if 0 <= (j as int) < i + 1 && (j as int) < pats.len() && pats[j as int]
                            == strs[s] {
                            if j == wi {
                                // only the current end state spells this pattern
                                assert(strs[cur as int] == pats[i as int]);
                                assert(false);
                            }
                        }
                    }
                }
            }
            assert(no_dup_outputs(nn)) by {
                assert forall|s: int| 0 <= s < nn.len() implies (
                #[trigger] nn[s].output@).no_duplicates() by {
                    if s == cur as int {
                        assert(!old_nodes[s].output@.contains(wi));
                        assert forall|a: int, b: int|
                            0 <= a < b < nn[s].output@.len() implies nn[s].output@[a]
                            != nn[s].output@[b] by {
                            if b == nn[s].output@.len() - 1 {
                                assert(nn[s].output@[a] == old_nodes[s].output@[a]);
                                if nn[s].output@[a] == wi {
                                    assert(old_nodes[s].output@.contains(wi));
                                }
                            }
                        }
                    } else {
                        assert(nn[s].output@ == old_nodes[s].output@);
                    }
                }
            }
            assert(is_node(strs, pats[i as int])) by {
                assert(strs[cur as int] == pats[i as int]);
            }
        }
        i = i + 1;
    }
    (nodes, Ghost(strs))
}

/// Equal-length suffixes of one string coincide.
proof fn lemma_suffix_full(u: Seq<char>, w: Seq<char>)
    requires
        is_suffix(u, w),
        u.len() == w.len(),
    ensures
        u == w,
{
    assert(u =~= w.skip(0));
}

/// Two edges with the same target are the same edge.
proof fn lemma_parent_unique(
    nodes: Seq<TrieNode>,
    strs: Seq<Seq<char>>,
    s1: int,
    k1: int,
    s2: int,
    k2: int,
)
    requires
        trie_wf(nodes, strs),
        0 <= s1 < nodes.len(),
        0 <= k1 < nodes[s1].children@.len(),
        0 <= s2 < nodes.len(),
        0 <= k2 < nodes[s2].children@.len(),
        nodes[s1].children@[k1].1 == nodes[s2].children@[k2].1,
    ensures
        s1 == s2,
        k1 == k2,
{
    let t = nodes[s1].children@[k1].1 as int;
    lemma_push_injective(
        strs[s1],
        strs[s2],
        nodes[s1].children@[k1].0,
        nodes[s2].children@[k2].0,
    );
    assert(s1 == s2);
    if k1 != k2 {
        assert(nodes[s1].children@[k1].0 != nodes[s1].children@[k2].0);
    }
}

/// Walks the failure chain of `p` looking for a state with an edge on `c`,
/// and returns the state such an edge reaches, or the root when the chain
/// runs out: the correct failure target for a child of `p` reached on `c`.
#[verifier::loop_isolation(false)]
fn find_fallback_target(
    nodes: &Vec<TrieNode>,
    p: usize,
    c: char,
    Ghost(strs): Ghost<Seq<Seq<char>>>,
) -> (xf: usize)
    requires
        trie_wf(nodes@, strs),
        fallback_wf(nodes@, strs),
        1 <= (p as int) < nodes@.len(),
        forall|v: int|
            1 <= v < nodes@.len() && strs[v].len() < strs[p as int].len()
                ==> fallback_longest_at(nodes@, strs, v),
        fallback_longest_at(nodes@, strs, p as int),
    ensures
        0 <= (xf as int) < nodes@.len(),
        strs[xf as int].len() <= strs[p as int].len(),
        is_suffix(strs[xf as int], strs[p as int].push(c)),
        forall|u: Seq<char>|
            #![trigger is_suffix(u, strs[p as int].push(c))]
            is_suffix(u, strs[p as int].push(c)) && is_node(strs, u) && u.len() < strs[
                p as int
            ].push(c).len() ==> u.len() <= strs[xf as int].len(),
{
    let ghost dp = strs[p as int].len() as int;
    proof {
        lemma_nonroot_nonempty(strs, p as int);
    }
    let mut f: usize = nodes[p].fallback;
    let mut found: Option<usize> = find_child(&nodes[f].children, c);
    proof {
        // every longer proper suffix than the failure state is not a state at all
        assert forall|t: int|
            0 <= t < nodes@.len() && is_suffix(strs[t], strs[p as int]) && strs[
                f as int
            ].len() < strs[t].len() < dp implies lookup(nodes@[t].children@, c) is None by {
            assert(is_node(strs, strs[t]));
            assert(strs[t].len() <= strs[nodes@[p as int].fallback as int].len());
        }
    }
    while f != 0 && found.is_none()
        invariant
            0 <= (f as int) < nodes@.len(),
            is_suffix(strs[f as int], strs[p as int]),
            strs[f as int].len() < dp,
            found == lookup(nodes@[f as int].children@, c),
            forall|t: int|
                0 <= t < nodes@.len() && is_suffix(strs[t], strs[p as int]) && strs[
                    f as int
                ].len() < strs[t].len() < dp ==> lookup(#[trigger] nodes@[t].children@, c) is None,
        decreases strs[f as int].len(),
    {
        let ghost fold = f as int;
        proof {
            lemma_nonroot_nonempty(strs, fold);
        }
        f = nodes[f].fallback;
        proof {
            lemma_suffix_trans(strs[f as int], strs[fold], strs[p as int]);
            assert forall|t: int|
                0 <= t < nodes@.len() && is_suffix(strs[t], strs[p as int]) && strs[
                    f as int
                ].len() < strs[t].len() < dp implies lookup(
                #[trigger] nodes@[t].children@,
                c,
            ) is None by {
                if strs[t].len() > strs[fold].len() {
                } else if strs[t].len() == strs[fold].len() {
                    lemma_suffix_of_suffix(strs[t], strs[fold], strs[p as int]);
                    lemma_suffix_full(strs[t], strs[fold]);
                    assert(t == fold || t < fold || fold < t);
                    assert(strs[t] == strs[fold]);
                    assert(t == fold);
                } else {
                    // such a state would contradict the failure link of fold
                    lemma_suffix_of_suffix(strs[t], strs[fold], strs[p as int]);
                    assert(fallback_longest_at(nodes@, strs, fold));
                    assert(is_node(strs, strs[t]));
                    assert(strs[t].len() <= strs[f as int].len());
                    assert(false);
                }
            }
        }
        found = find_child(&nodes[f].children, c);
    }
    let ghost w = strs[p as int].push(c);
    match found {
        Some(t) => {
            proof {
                lemma_lookup(nodes@[f as int].children@, c);
                let ke = choose|ke: int|
                    0 <= ke < nodes@[f as int].children@.len() && nodes@[f as int].children@[ke]
                        == (c, t);
                assert(strs[t as int] == strs[f as int].push(c));
                lemma_suffix_push(strs[f as int], strs[p as int], c);
                assert forall|u: Seq<char>|
                    is_suffix(u, w) && is_node(strs, u) && u.len() < w.len() implies u.len()
                    <= strs[t as int].len() by {
                    if u.len() > 0 {
                        lemma_suffix_unpush(u, strs[p as int], c);
                        let v = u.drop_last();
                        assert(u =~= v.push(c));
                        lemma_extension_edge(nodes@, strs, v, c);
                        if v.len() > strs[f as int].len() {
                            let tv = choose|tv: int| 0 <= tv < strs.len() && strs[tv] == v;
                            assert(lookup(nodes@[tv].children@, c) is Some);
                            assert(v.len() < dp);
                            assert(false);
                        }
                    }
                }
            }
            t
        },
        None => {
            proof {
                assert(f == 0);
                lemma_suffix_empty(w);
                assert forall|u: Seq<char>|
                    is_suffix(u, w) && is_node(strs, u) && u.len() < w.len() implies u.len()
                    <= strs[0].len() by {
                    if u.len() > 0 {
                        lemma_suffix_unpush(u, strs[p as int], c);
                        let v = u.drop_last();
                        assert(u =~= v.push(c));
                        lemma_extension_edge(nodes@, strs, v, c);
                        let tv = choose|tv: int| 0 <= tv < strs.len() && strs[tv] == v;
                        assert(lookup(nodes@[tv].children@, c) is Some);
                        if v.len() == 0 {
                            assert(v =~= strs[0]);
                            assert(tv == 0 || 0 < tv);
                            assert(strs[tv] == strs[0]);
                            assert(tv == 0);
                            assert(false);
                        } else {
                            assert(v.len() < dp);
                            assert(false);
                        }
                    }
                }
            }
            0
        },
    }
}

/// `v` is one of the states waiting in the queue.
pub open spec fn in_q(q: Seq<usize>, v: int) -> bool {
    exists|idx: int| 0 <= idx < q.len() && ((#[trigger] q[idx]) as int) == v
}

/// `v` has been given its final failure link and output set: it is waiting
/// in the queue or was already taken out of it.
pub open spec fn fin(q: Seq<usize>, dset: Set<int>, v: int) -> bool {
    in_q(q, v) || dset.contains(v)
}

/// The output of `s` marks exactly the patterns equal to its path string.
pub open spec fn output_own_at(
    nodes: Seq<TrieNode>,
    strs: Seq<Seq<char>>,
    pats: Seq<Seq<char>>,
    s: int,
) -> bool {
    forall|j: usize|
        #![trigger nodes[s].output@.contains(j)]
        #![trigger nodes[s].output@, pats[j as int]]
        nodes[s].output@.contains(j) <==> (j as int) < pats.len() && pats[j as int] == strs[s]
}

/// What linking establishes for one state.
pub open spec fn finalized_at(
    nodes: Seq<TrieNode>,
    strs: Seq<Seq<char>>,
    pats: Seq<Seq<char>>,
    s: int,
) -> bool {
    &&& fallback_longest_at(nodes, strs, s)
    &&& output_sem_at(nodes, strs, pats, s)
}

/// At the root and at depth one, owning a pattern is the same as ending one.
proof fn lemma_own_is_sem_shallow(
    nodes: Seq<TrieNode>,
    strs: Seq<Seq<char>>,
    pats: Seq<Seq<char>>,
    s: int,
)
    requires
        0 <= s < nodes.len(),
        s < strs.len(),
        strs[s].len() <= 1,
        output_own_at(nodes, strs, pats, s),
    ensures
        output_sem_at(nodes, strs, pats, s),
{
    assert forall|j: usize|
        (j as int) < pats.len() && pats[j as int].len() > 0 implies (nodes[s].output@.contains(j)
        <==> is_suffix(pats[j as int], strs[s])) by {
        let wj = pats[j as int];
        if is_suffix(wj, strs[s]) {
            lemma_suffix_full(wj, strs[s]);
        }
        if wj == strs[s] {
            assert(wj =~= strs[s].skip(0));
        }
    }
}

/// Breadth-first computation of every failure link and every aggregated
/// output set, level by level from the root's children.
#[verifier::loop_isolation(false)]
#[verifier::rlimit(100)]
#[verifier::spinoff_prover]
fn link_fallbacks(
    nodes: &mut Vec<TrieNode>,
    Ghost(strs): Ghost<Seq<Seq<char>>>,
    Ghost(pats): Ghost<Seq<Seq<char>>>,
)
    requires
        trie_wf(old(nodes)@, strs),
        fallbacks_zero(old(nodes)@),
        outputs_own_upto(old(nodes)@, strs, pats, pats.len() as int),
        no_dup_outputs(old(nodes)@),
        pats_in_trie(strs, pats),
    ensures
        final(nodes)@.len() == old(nodes)@.len(),
        trie_wf(final(nodes)@, strs),
        fallback_wf(final(nodes)@, strs),
        forall|s: int|
            1 <= s < final(nodes)@.len() ==> fallback_longest_at(final(nodes)@, strs, s),
        forall|s: int|
            0 <= s < final(nodes)@.len() ==> output_weak_at(final(nodes)@, strs, pats, s),
        no_dup_outputs(final(nodes)@),
        forall|s: int|
            0 <= s < final(nodes)@.len() ==> output_sem_at(final(nodes)@, strs, pats, s),
{
    let ghost n_states = nodes@.len() as int;
    proof {
        assert forall|s: int| 0 <= s < n_states implies output_weak_at(nodes@, strs, pats, s) by {
            assert forall|j: usize| #[trigger] nodes@[s].output@.contains(j) implies (j as int)
                < pats.len() && is_suffix(pats[j as int], strs[s]) by {
                assert(pats[j as int] == strs[s]);
                assert(pats[j as int] =~= strs[s].skip(0));
            }
        }
        assert(fallback_wf(nodes@, strs)) by {
            assert forall|s: int| 1 <= s < n_states implies {
                &&& (#[trigger] nodes@[s].fallback as int) < n_states
                &&& strs[nodes@[s].fallback as int].len() < strs[s].len()
                &&& is_suffix(strs[nodes@[s].fallback as int], strs[s])
            } by {
                lemma_nonroot_nonempty(strs, s);
                lemma_suffix_empty(strs[s]);
            }
        }
    }
    // seed the queue with the root's children, whose failure link is the root
    let mut queue: std::collections::VecDeque<usize> = std::collections::VecDeque::new();
    let ghost mut dset = Set::<int>::empty();
    let mut k0: usize = 0;
    let n_root = nodes[0].children.len();
    while k0 < n_root
        invariant
            k0 <= n_root,
            queue@.len() == k0,
            forall|idx: int| 0 <= idx < k0 ==> (#[trigger] queue@[idx]) == nodes@[0].children@[idx].1,
        decreases n_root - k0,
    {
        let t = nodes[0].children[k0].1;
        queue.push_back(t);
        k0 = k0 + 1;
    }
    proof {
        // each seeded state is at depth one: its link and its own output are final
        assert forall|idx: int| 0 <= idx < queue@.len() implies {
            &&& 1 <= ((#[trigger] queue@[idx]) as int) < n_states
            &&& strs[queue@[idx] as int].len() == 1
            &&& finalized_at(nodes@, strs, pats, queue@[idx] as int)
        } by {
            let t = queue@[idx] as int;
            assert(nodes@[0].children@[idx].1 as int == t);
            assert(strs[t] == strs[0].push(nodes@[0].children@[idx].0));
            assert(fallback_longest_at(nodes@, strs, t)) by {
                assert forall|u: Seq<char>|
                    is_suffix(u, strs[t]) && u.len() < strs[t].len() && is_node(
                        strs,
                        u,
                    ) implies u.len() <= strs[nodes@[t].fallback as int].len() by {}
            }
            lemma_own_is_sem_shallow(nodes@, strs, pats, t);
        }
        assert(queue@.no_duplicates()) by {
            assert forall|i1: int, i2: int|
                0 <= i1 < i2 < queue@.len() implies queue@[i1] != queue@[i2] by {
                if queue@[i1] == queue@[i2] {
                    lemma_parent_unique(nodes@, strs, 0, i1, 0, i2);
                }
            }
        }
        assert forall|s: int, k: int|
            #![trigger nodes@[s].children@[k]]
            0 <= s < n_states && 0 <= k < nodes@[s].children@.len() && fin(
                queue@,
                dset,
                nodes@[s].children@[k].1 as int,
            ) implies s == 0 by {
            let t = nodes@[s].children@[k].1 as int;
            if in_q(queue@, t) {
                let idx = choose|idx: int|
                    0 <= idx < queue@.len() && ((#[trigger] queue@[idx]) as int) == t;
                lemma_parent_unique(nodes@, strs, s, k, 0, idx);
            }
        }
        lemma_int_range(1, n_states);
        assert forall|k: int| 0 <= k < nodes@[0].children@.len() implies fin(
            queue@,
            dset,
            (#[trigger] nodes@[0].children@[k]).1 as int,
        ) by {
            assert(queue@[k] == nodes@[0].children@[k].1);
            assert(in_q(queue@, nodes@[0].children@[k].1 as int));
        }
        assert forall|v: int, idx: int|
            #![trigger strs[v], queue@[idx]]
            1 <= v < n_states && 0 <= idx < queue@.len() && strs[v].len() < strs[
                queue@[idx] as int
            ].len() implies fin(queue@, dset, v) by {
            lemma_nonroot_nonempty(strs, v);
            assert(strs[queue@[idx] as int].len() == 1);
            assert(false);
        }
    }
    // take states out level by level; each takes its children's links
    while queue.len() > 0
        invariant
            nodes@.len() == n_states,
            trie_wf(nodes@, strs),
            fallback_wf(nodes@, strs),
            no_dup_outputs(nodes@),
            forall|s: int| 0 <= s < n_states ==> output_weak_at(nodes@, strs, pats, s),
            output_own_at(nodes@, strs, pats, 0),
            forall|v: int| #[trigger] dset.contains(v) ==> 1 <= v < n_states,
            forall|idx: int| 0 <= idx < queue@.len() ==> 1 <= ((#[trigger] queue@[idx]) as int) < n_states,
            forall|v: int| #[trigger] dset.contains(v) ==> finalized_at(nodes@, strs, pats, v),
            forall|idx: int|
                0 <= idx < queue@.len() ==> finalized_at(
                    nodes@,
                    strs,
                    pats,
                    (#[trigger] queue@[idx]) as int,
                ),
            forall|v: int|
                1 <= v < n_states && !in_q(queue@, v) && !dset.contains(v) ==> output_own_at(
                    nodes@,
                    strs,
                    pats,
                    v,
                ),
            forall|p2: int, k: int|
                #![trigger dset.contains(p2), nodes@[p2].children@[k]]
                dset.contains(p2) && 0 <= k < nodes@[p2].children@.len() ==> fin(
                    queue@,
                    dset,
                    nodes@[p2].children@[k].1 as int,
                ),
            forall|k: int|
                0 <= k < nodes@[0].children@.len() ==> fin(
                    queue@,
                    dset,
                    (#[trigger] nodes@[0].children@[k]).1 as int,
                ),
            forall|s: int, k: int|
                #![trigger nodes@[s].children@[k]]
                0 <= s < n_states && 0 <= k < nodes@[s].children@.len() && fin(
                    queue@,
                    dset,
                    nodes@[s].children@[k].1 as int,
                ) ==> s == 0 || dset.contains(s),
            forall|i1: int, i2: int|
                0 <= i1 <= i2 < queue@.len() ==> strs[(#[trigger] queue@[i1]) as int].len() <= strs[(
                #[trigger] queue@[i2]) as int].len(),
            forall|idx: int|
                0 <= idx < queue@.len() ==> strs[(#[trigger] queue@[idx]) as int].len() <= strs[
                    queue@[0] as int
                ].len() + 1,
            forall|v: int, idx: int|
                #![trigger strs[v], queue@[idx]]
                1 <= v < n_states && 0 <= idx < queue@.len() && strs[v].len() < strs[
                    queue@[idx] as int
                ].len() ==> fin(queue@, dset, v),
            queue@.no_duplicates(),
            forall|idx: int| 0 <= idx < queue@.len() ==> !dset.contains((#[trigger] queue@[idx]) as int),
            dset.finite(),
            dset.len() <= n_states - 1,
        decreases n_states - dset.len(),
    {
        let ghost q0 = queue@;
        let p = match queue.pop_front() {
            Some(p) => p,
            None => {
                proof {
                    assert(false);
                }
                0
            },
        };
        let ghost dp = strs[p as int].len() as int;
        proof {
            assert(in_q(q0, p as int)) by {
                assert(q0[0] == p);
            }
            assert(forall|idx: int|
                0 <= idx < queue@.len() ==> #[trigger] queue@[idx] == q0[idx + 1]);
            assert forall|v: int| in_q(q0, v) implies v == p as int || in_q(queue@, v) by {
                let idx = choose|idx: int| 0 <= idx < q0.len() && ((#[trigger] q0[idx]) as int) == v;
                if idx > 0 {
                    assert(queue@[idx - 1] == q0[idx]);
                }
            }
            assert(!in_q(queue@, p as int)) by {
                if in_q(queue@, p as int) {
                    let idx = choose|idx: int|
                        0 <= idx < queue@.len() && ((#[trigger] queue@[idx]) as int) == p as int;
                    assert(q0[idx + 1] == q0[0]);
                }
            }
            assert(finalized_at(nodes@, strs, pats, p as int)) by {
                assert(q0[0] == p);
            }
            // everything at most as deep as this level is already final
            assert forall|v: int| 1 <= v < n_states && strs[v].len() <= dp implies fin(
                queue@,
                dset,
                v,
            ) || v == p as int by {
                if strs[v].len() < dp {
                    assert(fin(q0, dset, v));
                } else {
                    // a state exactly this deep hangs off a finished parent
                    assert(has_parent_edge(nodes@, v));
                    let (pv, kv) = choose|pv: int, kv: int|
                        0 <= pv < nodes@.len() && 0 <= kv < nodes@[pv].children@.len() && (
                        #[trigger] nodes@[pv].children@[kv].1) as int == v;
                    assert(strs[v] == strs[pv].push(nodes@[pv].children@[kv].0));
                    if pv == 0 {
                        assert(fin(q0, dset, v));
                    } else {
                        assert(strs[pv].len() < dp);
                        assert(fin(q0, dset, pv));
                        if in_q(q0, pv) {
                            let idx = choose|idx: int|
                                0 <= idx < q0.len() && ((#[trigger] q0[idx]) as int) == pv;
                            assert(strs[q0[0] as int].len() <= strs[q0[idx] as int].len());
                            assert(false);
                        }
                        assert(dset.contains(pv));
                        assert(fin(q0, dset, v));
                    }
                }
                if fin(q0, dset, v) && v != p as int {
                    if in_q(q0, v) {
                        let idx = choose|idx: int|
                            0 <= idx < q0.len() && ((#[trigger] q0[idx]) as int) == v;
                        assert(q0[idx] != q0[0] || idx == 0);
                        assert(idx > 0);
                        assert(queue@[idx - 1] == q0[idx]);
                        assert(in_q(queue@, v));
                    }
                }
            }
            // the children about to be processed are all still untouched
            assert forall|kk: int|
                0 <= kk < nodes@[p as int].children@.len() implies {
                    let x = (#[trigger] nodes@[p as int].children@[kk]).1 as int;
                    &&& !in_q(queue@, x)
                    &&& !dset.contains(x)
                    &&& x != p as int
                } by {
                let x = nodes@[p as int].children@[kk].1 as int;
                assert(strs[x] == strs[p as int].push(nodes@[p as int].children@[kk].0));
                assert(x != p as int);
                if fin(q0, dset, x) {
                    assert(p as int == 0 || dset.contains(p as int));
                    assert(false);
                }
                if in_q(queue@, x) {
                    let idx = choose|idx: int|
                        0 <= idx < queue@.len() && ((#[trigger] queue@[idx]) as int) == x;
                    assert(q0[idx + 1] == queue@[idx]);
                    assert(in_q(q0, x));
                    assert(false);
                }
            }
        }
        let n_kids = nodes[p].children.len();
        let mut k: usize = 0;
        while k < n_kids
            invariant
                nodes@.len() == n_states,
                n_kids == nodes@[p as int].children@.len(),
                k <= n_kids,
                1 <= (p as int) < n_states,
                dp == strs[p as int].len(),
                !dset.contains(p as int),
                !in_q(queue@, p as int),
                finalized_at(nodes@, strs, pats, p as int),
                trie_wf(nodes@, strs),
                fallback_wf(nodes@, strs),
                no_dup_outputs(nodes@),
                forall|s: int| 0 <= s < n_states ==> output_weak_at(nodes@, strs, pats, s),
                output_own_at(nodes@, strs, pats, 0),
                forall|v: int| #[trigger] dset.contains(v) ==> 1 <= v < n_states,
                forall|idx: int|
                    0 <= idx < queue@.len() ==> 1 <= ((#[trigger] queue@[idx]) as int) < n_states,
                forall|v: int| #[trigger] dset.contains(v) ==> finalized_at(nodes@, strs, pats, v),
                forall|idx: int|
                    0 <= idx < queue@.len() ==> finalized_at(
                        nodes@,
                        strs,
                        pats,
                        (#[trigger] queue@[idx]) as int,
                    ),
                forall|v: int|
                    1 <= v < n_states && !in_q(queue@, v) && !dset.contains(v) && v != p as int
                        ==> output_own_at(nodes@, strs, pats, v),
                forall|p2: int, kk: int|
                    #![trigger dset.contains(p2), nodes@[p2].children@[kk]]
                    dset.contains(p2) && 0 <= kk < nodes@[p2].children@.len() ==> fin(
                        queue@,
                        dset,
                        nodes@[p2].children@[kk].1 as int,
                    ) || nodes@[p2].children@[kk].1 == p,
                forall|kk: int|
                    0 <= kk < nodes@[0].children@.len() ==> fin(
                        queue@,
                        dset,
                        (#[trigger] nodes@[0].children@[kk]).1 as int,
                    ) || nodes@[0].children@[kk].1 == p,
                forall|s: int, kk: int|
                    #![trigger nodes@[s].children@[kk]]
                    0 <= s < n_states && 0 <= kk < nodes@[s].children@.len() && fin(
                        queue@,
                        dset,
                        nodes@[s].children@[kk].1 as int,
                    ) ==> s == 0 || dset.contains(s) || s == p as int,
                forall|kk: int| 0 <= kk < k ==> in_q(queue@, (#[trigger] nodes@[p as int].children@[kk]).1 as int),
                forall|kk: int|
                    k <= kk < n_kids ==> {
                        let x = (#[trigger] nodes@[p as int].children@[kk]).1 as int;
                        &&& !in_q(queue@, x)
                        &&& !dset.contains(x)
                        &&& x != p as int
                    },
                forall|i1: int, i2: int|
                    0 <= i1 <= i2 < queue@.len() ==> strs[(#[trigger] queue@[i1]) as int].len()
                        <= strs[(#[trigger] queue@[i2]) as int].len(),
                forall|idx: int|
                    0 <= idx < queue@.len() ==> dp <= strs[(#[trigger] queue@[idx]) as int].len()
                        <= dp + 1,
                forall|v: int|
                    #![trigger strs[v]]
                    1 <= v < n_states && strs[v].len() <= dp ==> fin(queue@, dset, v) || v
                        == p as int,
                queue@.no_duplicates(),
                forall|idx: int|
                    0 <= idx < queue@.len() ==> !dset.contains((#[trigger] queue@[idx]) as int),
                dset.finite(),
                dset.len() <= n_states - 1,
            decreases n_kids - k,
        {
            let c = nodes[p].children[k].0;
            let x = nodes[p].children[k].1;
            let ghost xi = x as int;
            proof {
                assert(nodes@[p as int].children@[k as int] == (c, x));
                assert(strs[xi] == strs[p as int].push(c));
                assert forall|v: int|
                    1 <= v < n_states && strs[v].len() < strs[p as int].len() implies fallback_longest_at(
                    nodes@,
                    strs,
                    v,
                ) by {
                    assert(fin(queue@, dset, v) || v == p as int);
                    if in_q(queue@, v) {
                        let idx = choose|idx: int|
                            0 <= idx < queue@.len() && ((#[trigger] queue@[idx]) as int) == v;
                        assert(dp <= strs[queue@[idx] as int].len());
                        assert(false);
                    }
                }
            }
            let xf = find_fallback_target(nodes, p, c, Ghost(strs));
            let ghost old_nodes = nodes@;
            let tmp_xf = xf;
            nodes[x].fallback = tmp_xf;
            proof {
                assert(strs[xf as int].len() <= dp);
                assert(xf != x);
            }
            let mut add = copy_indices(&nodes[xf].output);
            let ghost added = add@;
            nodes[x].output.append(&mut add);
            let ghost qo = queue@;
            queue.push_back(x);
            proof {
                let nn = nodes@;
                assert(forall|v: int| 0 <= v < n_states && v != xi ==> nn[v] == old_nodes[v]);
                assert(nn[xi].children@ == old_nodes[xi].children@);
                assert(nn[xi].fallback == xf);
                assert(nn[xi].output@ == old_nodes[xi].output@ + added);
                assert(added == old_nodes[xf as int].output@);
                assert(strs[xi].len() == dp + 1);
                assert(xi != p as int);
                // the queue grew by exactly this child
                let qn = queue@;
                assert(qn == qo.push(x));
                assert(forall|idx: int| 0 <= idx < qo.len() ==> qo[idx] == #[trigger] qn[idx]);
                assert forall|v: int| in_q(qo, v) implies in_q(qn, v) by {
                    let idx = choose|idx: int|
                        0 <= idx < qo.len() && ((#[trigger] qo[idx]) as int) == v;
                    assert(qn[idx] == qo[idx]);
                }
                assert forall|v: int|
                    #![trigger strs[v]]
                    1 <= v < n_states && strs[v].len() <= dp implies fin(qn, dset, v) || v
                    == p as int by {
                    assert(fin(qo, dset, v) || v == p as int);
                }
                assert(in_q(qn, xi)) by {
                    assert(qn[qn.len() - 1] == x);
                }
                assert(forall|v: int| in_q(qn, v) ==> in_q(qo, v) || v == xi) by {
                    assert forall|v: int| in_q(qn, v) implies in_q(qo, v) || v == xi by {
                        let idx = choose|idx: int|
                            0 <= idx < qn.len() && ((#[trigger] qn[idx]) as int) == v;
                        if idx < qo.len() {
                            assert(qo[idx] == qn[idx]);
                        }
                    }
                }
                // the new failure link is sound and aggregation is exact
                assert(trie_wf(nn, strs)) by {
                    assert(edges_wf(nn, strs)) by {
                        assert forall|s: int, kk: int|
                            0 <= s < nn.len() && 0 <= kk < nn[s].children@.len() implies {
                            &&& 1 <= nn[s].children@[kk].1
                            &&& (nn[s].children@[kk].1 as int) < nn.len()
                            &&& strs[nn[s].children@[kk].1 as int] == strs[s].push(
                                nn[s].children@[kk].0,
                            )
                        } by {
                            assert(nn[s].children@ == old_nodes[s].children@);
                        }
                    }
                    assert(edge_chars_unique(nn)) by {
                        assert forall|s: int, k1: int, k2: int|
                            0 <= s < nn.len() && 0 <= k1 < k2 < nn[s].children@.len() implies nn[s].children@[k1].0
                            != nn[s].children@[k2].0 by {
                            assert(nn[s].children@ == old_nodes[s].children@);
                        }
                    }
                    assert(parents_wf(nn)) by {
                        assert forall|t: int| 1 <= t < nn.len() implies has_parent_edge(nn, t) by {
                            assert(has_parent_edge(old_nodes, t));
                            let (s0, kk0) = choose|s0: int, kk0: int|
                                0 <= s0 < old_nodes.len() && 0 <= kk0
                                    < old_nodes[s0].children@.len() && (
                                #[trigger] old_nodes[s0].children@[kk0].1) as int == t;
                            assert(nn[s0].children@[kk0].1 as int == t);
                        }
                    }
                }
                assert(fallback_wf(nn, strs)) by {
                    assert forall|s: int| 1 <= s < nn.len() implies {
                        &&& (#[trigger] nn[s].fallback as int) < nn.len()
                        &&& strs[nn[s].fallback as int].len() < strs[s].len()
                        &&& is_suffix(strs[nn[s].fallback as int], strs[s])
                    } by {
                        if s == xi {
                            assert(strs[xf as int].len() <= dp);
                        } else {
                            assert(nn[s] == old_nodes[s]);
                        }
                    }
                }
                assert(fallback_longest_at(nn, strs, xi)) by {
                    assert forall|u: Seq<char>|
                        is_suffix(u, strs[xi]) && u.len() < strs[xi].len() && is_node(
                            strs,
                            u,
                        ) implies u.len() <= strs[nn[xi].fallback as int].len() by {
                        assert(is_suffix(u, strs[p as int].push(c)));
                    }
                }
                // output of the child: its own patterns plus the failure state's
                assert(output_weak_at(nn, strs, pats, xi)) by {
                    assert forall|j: usize| #[trigger] nn[xi].output@.contains(j) implies (
                    j as int) < pats.len() && is_suffix(pats[j as int], strs[xi]) by {
                        if old_nodes[xi].output@.contains(j) {
                            assert(pats[j as int] == strs[xi]);
                            assert(pats[j as int] =~= strs[xi].skip(0));
                        } else {
                            let idx = choose|idx: int|
                                0 <= idx < nn[xi].output@.len() && nn[xi].output@[idx] == j;
                            if idx < old_nodes[xi].output@.len() {
                                assert(old_nodes[xi].output@.contains(j));
                            } else {
                                assert(added[idx - old_nodes[xi].output@.len()] == j);
                                assert(added.contains(j));
                                assert(old_nodes[xf as int].output@.contains(j));
                                assert(output_weak_at(old_nodes, strs, pats, xf as int));
                                lemma_suffix_trans(
                                    pats[j as int],
                                    strs[xf as int],
                                    strs[xi],
                                );
                            }
                        }
                    }
                }
                assert(forall|s: int|
                    0 <= s < n_states ==> output_weak_at(nn, strs, pats, s)) by {
                    assert forall|s: int| 0 <= s < n_states implies output_weak_at(
                        nn,
                        strs,
                        pats,
                        s,
                    ) by {
                        if s != xi {
                            assert(nn[s] == old_nodes[s]);
                            assert(output_weak_at(old_nodes, strs, pats, s));
                            assert forall|j: usize| #[trigger] nn[s].output@.contains(j) implies (
                            j as int) < pats.len() && is_suffix(pats[j as int], strs[s]) by {
                                assert(old_nodes[s].output@.contains(j));
                            }
                        }
                    }
                }
                // no index repeats: the own part ends patterns of full depth,
                // the inherited part only shorter ones
                assert(forall|j: usize|
                    #[trigger] added.contains(j) ==> (j as int) < pats.len() && is_suffix(
                        pats[j as int],
                        strs[xf as int],
                    )) by {
                    assert(output_weak_at(old_nodes, strs, pats, xf as int));
                }
                assert(nn[xi].output@.no_duplicates()) by {
                    let own_part = old_nodes[xi].output@;
                    assert(own_part.no_duplicates());
                    assert(added.no_duplicates());
                    assert forall|a: int, b: int|
                        0 <= a < b < nn[xi].output@.len() implies nn[xi].output@[a]
                        != nn[xi].output@[b] by {
                        if a < own_part.len() && b >= own_part.len() {
                            let ja = nn[xi].output@[a];
                            let jb = nn[xi].output@[b];
                            if ja == jb {
                                assert(own_part.contains(ja));
                                assert(added[b - own_part.len()] == jb);
                                assert(added.contains(jb));
                                assert(pats[ja as int] == strs[xi]);
                                assert(is_suffix(pats[jb as int], strs[xf as int]));
                                assert(pats[jb as int].len() <= dp);
                                assert(false);
                            }
                        } else if b < own_part.len() {
                            assert(nn[xi].output@[a] == own_part[a]);
                            assert(nn[xi].output@[b] == own_part[b]);
                        } else {
                            assert(nn[xi].output@[a] == added[a - own_part.len()]);
                            assert(nn[xi].output@[b] == added[b - own_part.len()]);
                        }
                    }
                }
                assert(no_dup_outputs(nn)) by {
                    assert forall|s: int| 0 <= s < nn.len() implies (
                    #[trigger] nn[s].output@).no_duplicates() by {
                        if s != xi {
                            assert(nn[s] == old_nodes[s]);
                        }
                    }
                }
                assert(output_sem_at(nn, strs, pats, xi)) by {
                    assert(output_sem_at(old_nodes, strs, pats, xf as int)) by {
                        if xf == 0 {
                            lemma_own_is_sem_shallow(old_nodes, strs, pats, 0);
                        } else {
                            assert(1 <= (xf as int) && (xf as int) < n_states);
                            assert(strs[xf as int].len() <= dp);
                            assert(fin(qo, dset, xf as int) || xf == p);
                            assert(finalized_at(old_nodes, strs, pats, xf as int)) by {
                                if in_q(qo, xf as int) {
                                    let idx = choose|idx: int|
                                        0 <= idx < qo.len() && ((#[trigger] qo[idx]) as int)
                                            == xf as int;
                                    assert(finalized_at(
                                        old_nodes,
                                        strs,
                                        pats,
                                        qo[idx] as int,
                                    ));
                                }
                            }
                        }
                    }
                    assert forall|j: usize|
                        (j as int) < pats.len() && pats[j as int].len() > 0 implies (
                    nn[xi].output@.contains(j) <==> is_suffix(pats[j as int], strs[xi])) by {
                        let own_part = old_nodes[xi].output@;
                        if nn[xi].output@.contains(j) {
                            let idx = choose|idx: int|
                                0 <= idx < nn[xi].output@.len() && nn[xi].output@[idx] == j;
                            if idx < own_part.len() {
                                assert(own_part.contains(j));
                                assert(pats[j as int] == strs[xi]);
                                assert(pats[j as int] =~= strs[xi].skip(0));
                            } else {
                                assert(added[idx - own_part.len()] == j);
                                assert(added.contains(j));
                                lemma_suffix_trans(
                                    pats[j as int],
                                    strs[xf as int],
                                    strs[xi],
                                );
                            }
                        }
                        if is_suffix(pats[j as int], strs[xi]) {
                            let wj = pats[j as int];
                            if wj.len() == strs[xi].len() {
                                lemma_suffix_full(wj, strs[xi]);
                                assert(own_part.contains(j));
                                let idx = choose|idx: int|
                                    0 <= idx < own_part.len() && own_part[idx] == j;
                                assert(nn[xi].output@[idx] == j);
                                assert(nn[xi].output@.contains(j));
                            } else {
                                assert(is_node(strs, wj));
                                assert(wj.len() <= strs[nn[xi].fallback as int].len());
                                lemma_suffix_of_suffix(wj, strs[xf as int], strs[xi]);
                                assert(old_nodes[xf as int].output@.contains(j));
                                assert(added.contains(j));
                                let idx = choose|idx: int|
                                    0 <= idx < added.len() && added[idx] == j;
                                assert(nn[xi].output@[own_part.len() + idx] == j);
                                assert(nn[xi].output@.contains(j));
                            }
                        }
                    }
                }
                assert(finalized_at(nn, strs, pats, xi));
                // the rest of the bookkeeping survives the push
                assert forall|v: int| #[trigger] dset.contains(v) implies finalized_at(
                    nn,
                    strs,
                    pats,
                    v,
                ) by {
                    assert(v != xi);
                    assert(nn[v] == old_nodes[v]);
                    assert(finalized_at(old_nodes, strs, pats, v));
                    assert(fallback_longest_at(nn, strs, v)) by {
                        assert(nn[v].fallback == old_nodes[v].fallback);
                    }
                    assert forall|j: usize|
                        (j as int) < pats.len() && pats[j as int].len() > 0 implies (
                    nn[v].output@.contains(j) <==> is_suffix(pats[j as int], strs[v])) by {
                        assert(nn[v].output@ == old_nodes[v].output@);
                        assert(output_sem_at(old_nodes, strs, pats, v));
                    }
                }
                assert forall|idx: int| 0 <= idx < qn.len() implies finalized_at(
                    nn,
                    strs,
                    pats,
                    (#[trigger] qn[idx]) as int,
                ) by {
                    let v = qn[idx] as int;
                    if idx < qo.len() {
                        assert(v != xi);
                        assert(nn[v] == old_nodes[v]);
                        assert(finalized_at(old_nodes, strs, pats, v));
                        assert(fallback_longest_at(nn, strs, v)) by {
                            assert(nn[v].fallback == old_nodes[v].fallback);
                        }
                        assert forall|j: usize|
                            (j as int) < pats.len() && pats[j as int].len() > 0 implies (
                        nn[v].output@.contains(j) <==> is_suffix(pats[j as int], strs[v])) by {
                            assert(nn[v].output@ == old_nodes[v].output@);
                            assert(output_sem_at(old_nodes, strs, pats, v));
                        }
                    } else {
                        assert(v == xi);
                    }
                }
                assert(output_own_at(nn, strs, pats, 0)) by {
                    assert(nn[0] == old_nodes[0]);
                    assert forall|j: usize|
                        (nn[0].output@.contains(j) <==> (j as int) < pats.len() && pats[j as int]
                            == strs[0]) by {
                        assert(output_own_at(old_nodes, strs, pats, 0));
                    }
                }
                assert forall|v: int|
                    1 <= v < n_states && !in_q(qn, v) && !dset.contains(v) && v
                        != p as int implies output_own_at(nn, strs, pats, v) by {
                    assert(!in_q(qo, v) && v != xi);
                    assert(nn[v] == old_nodes[v]);
                    assert(output_own_at(old_nodes, strs, pats, v));
                    assert forall|j: usize|
                        (nn[v].output@.contains(j) <==> (j as int) < pats.len() && pats[j as int]
                            == strs[v]) by {
                        assert(nn[v].output@ == old_nodes[v].output@);
                    }
                }
                // the one parent of the new queue member is this very state
                assert forall|s: int, kk: int|
                    #![trigger nn[s].children@[kk]]
                    0 <= s < n_states && 0 <= kk < nn[s].children@.len() && fin(
                        qn,
                        dset,
                        nn[s].children@[kk].1 as int,
                    ) implies s == 0 || dset.contains(s) || s == p as int by {
                    assert(nn[s].children@ == old_nodes[s].children@);
                    let t = nn[s].children@[kk].1 as int;
                    if t == xi {
                        lemma_parent_unique(nodes@, strs, s, kk, p as int, k as int);
                    } else {
                        assert(in_q(qn, t) ==> in_q(qo, t));
                        if fin(qo, dset, t) {
                        }
                    }
                }
                // distinct characters lead to distinct children
                assert forall|kk: int|
                    k as int + 1 <= kk < n_kids implies {
                        let x2 = (#[trigger] nn[p as int].children@[kk]).1 as int;
                        &&& !in_q(qn, x2)
                        &&& !dset.contains(x2)
                        &&& x2 != p as int
                    } by {
                    let x2 = nn[p as int].children@[kk].1 as int;
                    assert(nn[p as int].children@ == old_nodes[p as int].children@);
                    if x2 == xi {
                        lemma_parent_unique(nodes@, strs, p as int, kk, p as int, k as int);
                        assert(false);
                    }
                    assert(!in_q(qo, x2) && !dset.contains(x2) && x2 != p as int);
                    if in_q(qn, x2) {
                        assert(in_q(qo, x2) || x2 == xi);
                        assert(false);
                    }
                }
                assert forall|kk: int| 0 <= kk < k as int + 1 implies in_q(
                    qn,
                    (#[trigger] nn[p as int].children@[kk]).1 as int,
                ) by {
                    if kk < k as int {
                        assert(in_q(qo, old_nodes[p as int].children@[kk].1 as int));
                    } else {
                        assert(nn[p as int].children@[kk].1 as int == xi);
                    }
                }
                assert(qn.no_duplicates()) by {
                    assert forall|i1: int, i2: int|
                        0 <= i1 < i2 < qn.len() implies qn[i1] != qn[i2] by {
                        if i2 == qn.len() - 1 {
                            assert(qn[i1] == qo[i1]);
                            if qn[i1] == x {
                                assert(in_q(qo, xi));
                            }
                        } else {
                            assert(qn[i1] == qo[i1]);
                            assert(qn[i2] == qo[i2]);
                        }
                    }
                }
            }
            k = k + 1;
        }
        proof {
            let dset0 = dset;
            dset = dset.insert(p as int);
            assert(dset.contains(p as int));
            assert(forall|v: int| #[trigger] dset0.contains(v) ==> dset.contains(v));
            // with its children linked, this state counts as processed
            assert forall|p2: int, kk: int|
                #![trigger dset.contains(p2), nodes@[p2].children@[kk]]
                dset.contains(p2) && 0 <= kk < nodes@[p2].children@.len() implies fin(
                queue@,
                dset,
                nodes@[p2].children@[kk].1 as int,
            ) by {
                if p2 == p as int {
                    assert(in_q(queue@, nodes@[p2].children@[kk].1 as int));
                }
            }
            assert forall|idx: int|
                0 <= idx < queue@.len() implies strs[(#[trigger] queue@[idx]) as int].len() <= strs[
                    queue@[0] as int
                ].len() + 1 by {
                assert(dp <= strs[queue@[0] as int].len());
            }
            assert forall|v: int, idx: int|
                #![trigger strs[v], queue@[idx]]
                1 <= v < n_states && 0 <= idx < queue@.len() && strs[v].len() < strs[
                    queue@[idx] as int
                ].len() implies fin(queue@, dset, v) by {
                assert(strs[queue@[idx] as int].len() <= dp + 1);
                assert(strs[v].len() <= dp);
                assert(fin(queue@, dset0, v) || v == p as int);
                if in_q(queue@, v) {
                } else if dset0.contains(v) {
                    assert(dset.contains(v));
                } else {
                    assert(v == p as int);
                    assert(dset.contains(v));
                }
            }
            assert(dset.len() <= n_states - 1) by {
                lemma_int_range(1, n_states);
                lemma_len_subset(dset, set_int_range(1, n_states));
            }
        }
    }
    proof {
        // an empty queue means every state hangs below a processed one
        assert forall|v: int| 1 <= v < n_states implies dset.contains(v) by {
            lemma_all_processed(nodes@, strs, dset, v);
        }
        assert forall|s: int| 1 <= s < n_states implies fallback_longest_at(
            nodes@,
            strs,
            s,
        ) by {
            assert(dset.contains(s));
        }
        assert forall|s: int| 0 <= s < n_states implies output_sem_at(
            nodes@,
            strs,
            pats,
            s,
        ) by {
            if s == 0 {
                lemma_own_is_sem_shallow(nodes@, strs, pats, 0);
            } else {
                assert(dset.contains(s));
            }
        }
    }
}

/// Once the queue is drained, every non-root state has been processed.
proof fn lemma_all_processed(
    nodes: Seq<TrieNode>,
    strs: Seq<Seq<char>>,
    dset: Set<int>,
    v: int,
)
    requires
        trie_wf(nodes, strs),
        forall|p2: int, kk: int|
            #![trigger dset.contains(p2), nodes[p2].children@[kk]]
            dset.contains(p2) && 0 <= kk < nodes[p2].children@.len() ==> dset.contains(
                nodes[p2].children@[kk].1 as int,
            ),
        forall|kk: int|
            0 <= kk < nodes[0].children@.len() ==> dset.contains(
                (#[trigger] nodes[0].children@[kk]).1 as int,
            ),
        1 <= v < nodes.len(),
    ensures
        dset.contains(v),
    decreases strs[v].len(),
{
    assert(has_parent_edge(nodes, v));
    let (pv, kv) = choose|pv: int, kv: int|
        0 <= pv < nodes.len() && 0 <= kv < nodes[pv].children@.len() && (
        #[trigger] nodes[pv].children@[kv].1) as int == v;
    assert(strs[v] == strs[pv].push(nodes[pv].children@[kv].0));
    if pv == 0 {
    } else {
        lemma_all_processed(nodes, strs, dset, pv);
    }
}

/// The total transition function of the automaton: follow the direct edge
/// when there is one, else recurse along the failure chain, with the root
/// as the fixed point.
pub open spec fn spec_delta(nodes: Seq<TrieNode>, strs: Seq<Seq<char>>, s: int, c: char) -> int
    decreases strs[s].len(),
        when trie_wf(nodes, strs) && fallback_wf(nodes, strs) && 0 <= s < nodes.len()
{
    match lookup(nodes[s].children@, c) {
        Some(t) => t as int,
        None => if s == 0 {
            0
        } else {
            spec_delta(nodes, strs, nodes[s].fallback as int, c)
        },
    }
}

/// Exactly the index list one feed reports: the new state's output list,
/// or nothing when the stream falls back to the root.
pub open spec fn feed_output(m: Matcher, c: char) -> Seq<usize> {
    let d = spec_delta(m.nodes@, m.strs@, m.current as int, c);
    if d == 0 {
        Seq::empty()
    } else {
        m.nodes@[d].output@
    }
}

/// The transition lands on the state spelling the longest suffix of
/// `strs[s].push(c)` that any state spells.
proof fn lemma_delta_longest(nodes: Seq<TrieNode>, strs: Seq<Seq<char>>, s: int, c: char)
    requires
        trie_wf(nodes, strs),
        fallback_wf(nodes, strs),
        forall|t: int| 1 <= t < nodes.len() ==> fallback_longest_at(nodes, strs, t),
        0 <= s < nodes.len(),
    ensures
        ({
            let d = spec_delta(nodes, strs, s, c);
            &&& 0 <= d < nodes.len()
            &&& is_suffix(strs[d], strs[s].push(c))
            &&& forall|u: Seq<char>|
                is_suffix(u, strs[s].push(c)) && is_node(strs, u) ==> u.len() <= strs[d].len()
        }),
    decreases strs[s].len(),
{
    let w = strs[s].push(c);
    lemma_lookup(nodes[s].children@, c);
    match lookup(nodes[s].children@, c) {
        Some(t) => {
            let k = choose|k: int|
                0 <= k < nodes[s].children@.len() && nodes[s].children@[k] == (c, t);
            assert(strs[t as int] == w);
            assert(is_suffix(strs[t as int], w)) by {
                assert(w =~= w.skip(0));
            }
            assert forall|u: Seq<char>| is_suffix(u, w) && is_node(strs, u) implies u.len()
                <= strs[t as int].len() by {}
        },
        None => {
            if s == 0 {
                lemma_suffix_empty(w);
                assert forall|u: Seq<char>| is_suffix(u, w) && is_node(strs, u) implies u.len()
                    <= strs[0].len() by {
                    if u.len() > 0 {
                        lemma_suffix_unpush(u, strs[0], c);
                        assert(u.len() <= 1);
                        assert(u =~= u.drop_last().push(u.last()));
                        assert(u.drop_last() =~= Seq::<char>::empty());
                        assert(is_node(strs, Seq::<char>::empty().push(c)));
                        lemma_extension_edge(nodes, strs, Seq::<char>::empty(), c);
                        assert(strs[0] == Seq::<char>::empty());
                        assert(lookup(nodes[0].children@, c) is Some);
                        assert(false);
                    }
                }
            } else {
                let f = nodes[s].fallback as int;
                lemma_delta_longest(nodes, strs, f, c);
                let d = spec_delta(nodes, strs, f, c);
                assert(is_suffix(strs[f].push(c), w)) by {
                    lemma_suffix_push(strs[f], strs[s], c);
                }
                lemma_suffix_trans(strs[d], strs[f].push(c), w);
                assert forall|u: Seq<char>| is_suffix(u, w) && is_node(strs, u) implies u.len()
                    <= strs[d].len() by {
                    if u.len() <= strs[f].push(c).len() {
                        lemma_suffix_of_suffix(u, strs[f].push(c), w);
                        assert(is_suffix(u, strs[f].push(c)));
                    } else {
                        // a longer candidate would name a proper suffix of
                        // strs[s] past the failure link, which cannot exist
                        assert(u.len() > strs[f].len() + 1);
                        lemma_suffix_unpush(u, strs[s], c);
                        let v = u.drop_last();
                        assert(u =~= v.push(u.last()));
                        lemma_extension_edge(nodes, strs, v, c);
                        assert(is_node(strs, v));
                        if v.len() == strs[s].len() {
                            assert(v =~= strs[s]) by {
                                assert(is_suffix(v, strs[s]));
                                assert(v =~= strs[s].skip(0));
                            }
                            let sv = choose|sv: int| 0 <= sv < strs.len() && strs[sv] == v;
                            assert(sv == s || (s < sv || sv < s)) by {}
                            assert(strs[s] == v);
                            assert(lookup(nodes[s].children@, c) is Some);
                            assert(false);
                        } else {
                            assert(v.len() < strs[s].len());
                            assert(fallback_longest_at(nodes, strs, s));
                            assert(v.len() <= strs[f].len());
                            assert(false);
                        }
                    }
                }
            }
        },
    }
}

impl Matcher {
    /// Builds the automaton for a pattern list: the trie of all pattern
    /// prefixes, then the failure links and aggregated outputs, breadth
    /// first, so that feeding any stream reports every pattern occurrence.
    pub fn new(words: Vec<String>) -> (m: Matcher)
        ensures
            m.wf(),
            m.pats@ == words.deep_view(),
            m.current == 0usize,
            m.fed@ == Seq::<char>::empty(),
    {
        let r = build_trie(&words);
        let mut nodes = r.0;
        let ghost strs = r.1@;
        link_fallbacks(&mut nodes, Ghost(strs), Ghost(words.deep_view()));
        let m = Matcher {
            nodes,
            current: 0,
            pats: Ghost(words.deep_view()),
            strs: Ghost(strs),
            fed: Ghost(Seq::empty()),
        };
        proof {
            lemma_suffix_empty(Seq::<char>::empty());
            assert(is_suffix(m.strs@[0], m.fed@));
        }
        m
    }

    /// The set of characters with a direct edge out of `state`, in edge order.
    pub fn options(&self, state: usize) -> (r: Vec<char>)
        requires
            self.wf(),
            (state as int) < self.nodes@.len(),
        ensures
            r@.len() == self.nodes@[state as int].children@.len(),
            forall|k: int|
                0 <= k < r@.len() ==> r@[k] == self.nodes@[state as int].children@[k].0,
    {
        let edges = &self.nodes[state].children;
        let mut r: Vec<char> = Vec::new();
        let mut k: usize = 0;
        while k < edges.len()
            invariant
                k <= edges@.len(),
                r@.len() == k,
                forall|j: int| 0 <= j < k ==> r@[j] == edges@[j].0,
            decreases edges@.len() - k,
        {
            r.push(edges[k].0);
            k = k + 1;
        }
        r
    }

    /// Computes, without moving the cursor, the state reached from `state`
    /// on `c`: the direct edge when one exists, else the same transition
    /// from the failure state, with the root absorbing everything.
    pub fn next_state(&self, state: usize, c: char) -> (r: usize)
        requires
            self.wf(),
            (state as int) < self.nodes@.len(),
        ensures
            (r as int) == spec_delta(self.nodes@, self.strs@, state as int, c),
            (r as int) < self.nodes@.len(),
            is_suffix(self.strs@[r as int], self.strs@[state as int].push(c)),
            forall|u: Seq<char>|
                is_suffix(u, self.strs@[state as int].push(c)) && is_node(self.strs@, u)
                    ==> u.len() <= self.strs@[r as int].len(),
        decreases self.strs@[state as int].len(),
    {
        proof {
            lemma_delta_longest(self.nodes@, self.strs@, state as int, c);
        }
        match find_child(&self.nodes[state].children, c) {
            Some(t) => t,
            None => {
                if state == 0 {
                    0
                } else {
                    self.next_state(self.nodes[state].fallback, c)
                }
            },
        }
    }

    /// Moves the cursor back to the root, forgetting the stream fed so far.
    pub fn reset(&mut self)
        requires
            old(self).wf(),
        ensures
            final(self).wf(),
            final(self).nodes == old(self).nodes,
            final(self).strs == old(self).strs,
            final(self).pats == old(self).pats,
            final(self).current == 0usize,
            final(self).fed@ == Seq::<char>::empty(),
    {
        self.current = 0;
        self.fed = Ghost(Seq::empty());
        proof {
            lemma_suffix_empty(self.fed@);
            assert forall|u: Seq<char>|
                is_suffix(u, self.fed@) && is_node(self.strs@, u) implies u.len()
                <= self.strs@[0].len() by {}
        }
    }

    /// Feeds one character: advances the cursor and reports the indices of
    /// exactly those patterns that end at the current position of the
    /// stream (exactly, provided no pattern is empty; without that proviso
    /// still never a pattern that does not end here).
    pub fn next(&mut self, c: &char) -> (r: Vec<usize>)
        requires
            old(self).wf(),
        ensures
            final(self).wf(),
            final(self).nodes == old(self).nodes,
            final(self).strs == old(self).strs,
            final(self).pats == old(self).pats,
            final(self).fed@ == old(self).fed@.push(*c),
            (final(self).current as int) == spec_delta(
                old(self).nodes@,
                old(self).strs@,
                old(self).current as int,
                *c,
            ),
            r@ == feed_output(*old(self), *c),
            r@.no_duplicates(),
            forall|j: usize|
                #[trigger] r@.contains(j) ==> (j as int) < final(self).pats@.len() && is_suffix(
                    final(self).pats@[j as int],
                    final(self).fed@,
                ),
            forall|j: usize|
                (j as int) < final(self).pats@.len() && final(self).pats@[j as int].len() > 0
                    ==> ((#[trigger] r@.contains(j)) <==> is_suffix(
                    final(self).pats@[j as int],
                    final(self).fed@,
                )),
    {
        let ghost old_fed = self.fed@;
        let d = self.next_state(self.current, *c);
        proof {
            // the cursor keeps spelling the longest state-spelled suffix of the stream
            let cur = self.current as int;
            let strs = self.strs@;
            lemma_suffix_push(strs[cur], old_fed, *c);
            lemma_suffix_trans(strs[d as int], strs[cur].push(*c), old_fed.push(*c));
            assert forall|u: Seq<char>|
                is_suffix(u, old_fed.push(*c)) && is_node(strs, u) implies u.len()
                <= strs[d as int].len() by {
                if u.len() == 0 {
                } else {
                    lemma_suffix_unpush(u, old_fed, *c);
                    let v = u.drop_last();
                    assert(u =~= v.push(*c));
                    lemma_extension_edge(self.nodes@, strs, v, *c);
                    assert(is_suffix(v, old_fed) && is_node(strs, v));
                    assert(v.len() <= strs[cur].len());
                    lemma_suffix_of_suffix(u, strs[cur].push(*c), old_fed.push(*c));
                    assert(is_suffix(u, strs[cur].push(*c)));
                }
            }
        }
        self.current = d;
        self.fed = Ghost(self.fed@.push(*c));
        let r: Vec<usize> = if d == 0 {
            Vec::new()
        } else {
            copy_indices(&self.nodes[d].output)
        };
        proof {
            let strs = self.strs@;
            let pats = self.pats@;
            let nodes = self.nodes@;
            assert forall|j: usize| #[trigger] r@.contains(j) implies (j as int) < pats.len()
                && is_suffix(pats[j as int], self.fed@) by {
                assert(output_weak_at(nodes, strs, pats, d as int));
                lemma_suffix_trans(pats[j as int], strs[d as int], self.fed@);
            }
            assert forall|j: usize|
                (j as int) < pats.len() && pats[j as int].len() > 0 && is_suffix(
                    pats[j as int],
                    self.fed@,
                ) implies #[trigger] r@.contains(j) by {
                let wj = pats[j as int];
                assert(is_node(strs, wj));
                assert(wj.len() <= strs[d as int].len());
                if d == 0 {
                    assert(false);
                } else {
                    lemma_suffix_of_suffix(wj, strs[d as int], self.fed@);
                    assert(output_sem_at(nodes, strs, pats, d as int));
                }
            }
        }
        r
    }
}

} // verus!
