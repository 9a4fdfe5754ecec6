//! A small regular-expression engine: a pattern of literal bytes, groups,
//! alternation `|`, star `*`, plus `+` and optional `?` is compiled by
//! Thompson's construction into an automaton held in an arena, and a
//! depth-first walk decides whether a whole input is accepted.
//!
//! Concatenation binds loosest (precedence 0), then `|` (1), then the postfix
//! operators (2). The matcher reads each input byte modulo 128.
use vstd::prelude::*;
use vstd::string::StringSliceAdditionalSpecFns;
use id_arena::Arena;

pub mod arena;
pub mod compile;
pub mod matcher;
pub mod syntax;

use crate::arena::{NFAState, StateModel, arena_states, new_arena};
use crate::compile::{NFAFragment, postfix_ok, thompson, wf_states, frag_in, postfix_to_nfa, arity, depth};
use crate::matcher::{walk, dfs, accepts_from, lemma_walk_sound};
use crate::syntax::{with_concat, to_postfix, insert_concat_operator, regexp_to_postfix, CONCAT, ALT, QUEST, PLUS, STAR};

verus! {

/// The postfix token sequence of a pattern.
pub open spec fn postfix_of(p: Seq<u8>) -> Seq<u8> {
    to_postfix(with_concat(p))
}

/// A pattern compiles when every operator finds its operands and something is
/// left at the end (the empty pattern does not compile).
pub open spec fn valid_pattern(p: Seq<u8>) -> bool {
    postfix_ok(postfix_of(p))
}

/// The automaton of a pattern: its states and its outermost fragment.
pub open spec fn compiled(p: Seq<u8>) -> (Seq<StateModel>, NFAFragment) {
    thompson(Seq::empty(), postfix_of(p))
}

/// Whether the automaton of `p` accepts the whole of `s`.
pub open spec fn accepts(p: Seq<u8>, s: Seq<u8>) -> bool {
    walk(compiled(p).0, compiled(p).1.start, s, 0, Seq::empty()).0
}

/// Compiles a pattern into a fresh arena.
pub fn re(regexp: &[u8]) -> (r: (NFAFragment, Arena<NFAState>))
    requires
        valid_pattern(regexp@),
    ensures
        (arena_states(r.1), r.0) == compiled(regexp@),
        wf_states(arena_states(r.1)),
        frag_in(arena_states(r.1), r.0),
{
    let mut arena = new_arena();
    let concatted = insert_concat_operator(regexp);
    let postfix = regexp_to_postfix(concatted.as_slice());
    let result = postfix_to_nfa(&mut arena, postfix.as_slice());
    (result, arena)
}

/// Whether the automaton whose entry is `nfa.start` accepts all of `search`.
pub fn is_match(arena: &Arena<NFAState>, nfa: NFAFragment, search: &[u8]) -> (r: bool)
    requires
        wf_states(arena_states(*arena)),
        frag_in(arena_states(*arena), nfa),
    ensures
        r == walk(arena_states(*arena), nfa.start, search@, 0, Seq::empty()).0,
{
    let mut visited: Vec<usize> = Vec::new();
    dfs(arena, nfa.start, search, 0, &mut visited)
}

/// Whether `search` as a whole matches the pattern `regexp`.
pub fn regex_match(regexp: &str, search: &str) -> (r: bool)
    requires
        valid_pattern(regexp.spec_bytes()),
    ensures
        r == accepts(regexp.spec_bytes(), search.spec_bytes()),
{
    let (compiled, arena) = re(regexp.as_bytes());
    is_match(&arena, compiled, search.as_bytes())
}

/// Whether a pattern compiles: runs the operand count of the construction on
/// its postfix form.
pub fn pattern_is_valid(regexp: &[u8]) -> (r: bool)
    ensures
        r == valid_pattern(regexp@),
{
    let concatted = insert_concat_operator(regexp);
    let postfix = regexp_to_postfix(concatted.as_slice());
    let n = postfix.len();
    let mut d: usize = 0;
    let mut i: usize = 0;
    while i < n
        invariant
            n == postfix@.len(),
            postfix@ == postfix_of(regexp@),
            i <= n,
            d as int == depth(postfix@, i as nat),
            d <= i,
            forall|k: nat| k < i ==> depth(postfix@, k) >= arity(#[trigger] postfix@[k as int]),
        decreases n - i,
    {
        let t = postfix[i];
        let need: usize = if t == CONCAT || t == ALT {
            2
        } else if t == QUEST || t == PLUS || t == STAR {
            1
        } else {
            0
        };
        if d < need {
            return false;
        }
        d = d - need + 1;
        i = i + 1;
    }
    d >= 1
}

/// Like `regex_match`, but total: `None` when the pattern does not compile.
pub fn try_regex_match(regexp: &str, search: &str) -> (r: Option<bool>)
    ensures
        r == (if valid_pattern(regexp.spec_bytes()) {
            Some(accepts(regexp.spec_bytes(), search.spec_bytes()))
        } else {
            None
        }),
{
    if pattern_is_valid(regexp.as_bytes()) {
        Some(regex_match(regexp, search))
    } else {
        None
    }
}

/// Matching is deterministic: patterns with the same bytes, matched against
/// inputs with the same bytes, give the same answer.
pub proof fn lemma_match_deterministic(p1: &str, s1: &str, p2: &str, s2: &str)
    requires
        p1.spec_bytes() == p2.spec_bytes(),
        s1.spec_bytes() == s2.spec_bytes(),
    ensures
        accepts(p1.spec_bytes(), s1.spec_bytes()) == accepts(p2.spec_bytes(), s2.spec_bytes()),
{
}

/// A match is backed by a run of the pattern's automaton from its entry state
/// that reads the whole input and ends in an accepting state.
pub proof fn lemma_match_sound(p: Seq<u8>, s: Seq<u8>)
    requires
        accepts(p, s),
    ensures
        accepts_from(compiled(p).0, s, compiled(p).1.start, 0),
{
    lemma_walk_sound(compiled(p).0, compiled(p).1.start, s, 0, Seq::empty());
}

/// Compiling a pattern twice gives the same automaton, so matching an input
/// against either compiled result gives the same answer.
pub proof fn lemma_compile_idempotent(
    p: Seq<u8>,
    s: Seq<u8>,
    a1: Seq<StateModel>,
    f1: NFAFragment,
    a2: Seq<StateModel>,
    f2: NFAFragment,
)
    requires
        (a1, f1) == compiled(p),
        (a2, f2) == compiled(p),
    ensures
        a1 == a2,
        f1 == f2,
        walk(a1, f1.start, s, 0, Seq::empty()).0 == walk(a2, f2.start, s, 0, Seq::empty()).0,
{
}

} // verus!
