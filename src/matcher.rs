use vstd::prelude::*;
use id_arena::Arena;
use vstd::set::axiom_set_remove_len;
use vstd::set_lib::{lemma_int_range, lemma_len_subset, set_int_range};
use crate::arena::{NFAState, StateModel, arena_states, state_at};
use crate::compile::wf_states;

verus! {

/// The transition slot read for an input byte: bytes are taken modulo 128,
/// so the matcher works on a 7-bit alphabet and a byte of 128 or more reads
/// the slot of the byte 128 below it.
pub open spec fn slot(b: u8) -> int {
    (b % 128) as int
}

/// The states of `st` that `visited` does not hold.
pub open spec fn unvisited(st: Seq<StateModel>, visited: Seq<usize>) -> Set<int> {
    Set::new(|i: int| 0 <= i < st.len() && i <= usize::MAX && !visited.contains(i as usize))
}

/// States not yet entered: the walk's measure within one position.
pub open spec fn room(st: Seq<StateModel>, visited: Seq<usize>) -> nat {
    unvisited(st, visited).len()
}

/// The depth-first walk from `node` with `pos` bytes of `word` consumed and
/// `visited` the states already entered at this position. Returns whether the
/// rest of `word` is accepted from `node`, and the visited list afterwards.
/// A state entered twice at one position fails at once; consuming a byte
/// starts a fresh visited list; where a state has a transition for the next
/// byte only that transition is followed.
pub open spec fn walk(st: Seq<StateModel>, node: usize, word: Seq<u8>, pos: int, visited: Seq<usize>) -> (
    bool,
    Seq<usize>,
)
    decreases word.len() - pos, room(st, visited), 0int, 0int,
{
    if pos < 0 || pos > word.len() || node >= st.len() || visited.contains(node) {
        (false, visited)
    } else if room(st, visited.push(node)) >= room(st, visited) {
        // never taken: entering an unvisited state shrinks the measure
        (false, visited)
    } else {
        let v = visited.push(node);
        if pos == word.len() {
            if st[node as int].accepting {
                (true, v)
            } else {
                walk_eps(st, st[node as int].eps, 0, word, pos, v)
            }
        } else {
            match st[node as int].chars[slot(word[pos])] {
                Some(t) => (walk(st, t, word, pos + 1, Seq::empty()).0, v),
                None => walk_eps(st, st[node as int].eps, 0, word, pos, v),
            }
        }
    }
}

/// Tries the epsilon successors `succ[k..]` in order, threading the visited
/// list, until one accepts.
pub open spec fn walk_eps(
    st: Seq<StateModel>,
    succ: Seq<usize>,
    k: int,
    word: Seq<u8>,
    pos: int,
    visited: Seq<usize>,
) -> (bool, Seq<usize>)
    decreases word.len() - pos, room(st, visited), 1int, succ.len() - k,
{
    if k < 0 || k >= succ.len() || pos < 0 || pos > word.len() {
        (false, visited)
    } else {
        let res = walk(st, succ[k], word, pos, visited);
        if res.0 {
            (true, res.1)
        } else if room(st, res.1) > room(st, visited) {
            // never taken: a walk only adds to the visited list
            (false, res.1)
        } else {
            walk_eps(st, succ, k + 1, word, pos, res.1)
        }
    }
}

proof fn lemma_unvisited_finite(st: Seq<StateModel>, visited: Seq<usize>)
    ensures
        unvisited(st, visited).finite(),
        room(st, visited) <= st.len(),
{
    lemma_int_range(0, st.len() as int);
    lemma_len_subset(unvisited(st, visited), set_int_range(0, st.len() as int));
}

/// Entering a state of `st` not yet visited shrinks the measure by one.
proof fn lemma_room_push(st: Seq<StateModel>, visited: Seq<usize>, node: usize)
    requires
        node < st.len(),
        !visited.contains(node),
    ensures
        room(st, visited.push(node)) < room(st, visited),
{
    lemma_unvisited_finite(st, visited);
    assert forall|i: int| 0 <= i <= usize::MAX implies #[trigger] visited.push(node).contains(i as usize)
        == (visited.contains(i as usize) || i == node as int) by {
        if visited.contains(i as usize) {
            let j = choose|j: int| 0 <= j < visited.len() && visited[j] == i as usize;
            assert(visited.push(node)[j] == i as usize);
        }
        if i == node as int {
            assert(visited.push(node)[visited.len() as int] == node);
        }
        if visited.push(node).contains(i as usize) {
            let j = choose|j: int| 0 <= j < visited.len() + 1 && visited.push(node)[j] == i as usize;
            if j < visited.len() {
                assert(visited[j] == i as usize);
            }
        }
    }
    assert(unvisited(st, visited.push(node)) =~= unvisited(st, visited).remove(node as int));
    assert(unvisited(st, visited).contains(node as int));
    axiom_set_remove_len(unvisited(st, visited), node as int);
}

/// A list holding every entry of another leaves no more states unvisited.
proof fn lemma_room_superset(st: Seq<StateModel>, visited: Seq<usize>, more: Seq<usize>)
    requires
        forall|x: usize| visited.contains(x) ==> more.contains(x),
    ensures
        room(st, more) <= room(st, visited),
{
    lemma_unvisited_finite(st, visited);
    lemma_len_subset(unvisited(st, more), unvisited(st, visited));
}

/// The walk only adds to the visited list.
proof fn lemma_walk_keeps(st: Seq<StateModel>, node: usize, word: Seq<u8>, pos: int, visited: Seq<usize>)
    ensures
        forall|x: usize| visited.contains(x) ==> walk(st, node, word, pos, visited).1.contains(x),
    decreases word.len() - pos, room(st, visited), 0int, 0int,
{
    if pos < 0 || pos > word.len() || node >= st.len() || visited.contains(node) {
    } else if room(st, visited.push(node)) >= room(st, visited) {
    } else {
        let v = visited.push(node);
        assert forall|x: usize| visited.contains(x) implies v.contains(x) by {
            let i = choose|i: int| 0 <= i < visited.len() && visited[i] == x;
            assert(v[i] == x);
        }
        if pos == word.len() {
            if !st[node as int].accepting {
                lemma_walk_eps_keeps(st, st[node as int].eps, 0, word, pos, v);
            }
        } else {
            match st[node as int].chars[slot(word[pos])] {
                Some(t) => {},
                None => lemma_walk_eps_keeps(st, st[node as int].eps, 0, word, pos, v),
            }
        }
    }
}

proof fn lemma_walk_eps_keeps(
    st: Seq<StateModel>,
    succ: Seq<usize>,
    k: int,
    word: Seq<u8>,
    pos: int,
    visited: Seq<usize>,
)
    ensures
        forall|x: usize| visited.contains(x) ==> walk_eps(st, succ, k, word, pos, visited).1.contains(x),
    decreases word.len() - pos, room(st, visited), 1int, succ.len() - k,
{
    if k < 0 || k >= succ.len() || pos < 0 || pos > word.len() {
    } else {
        lemma_walk_keeps(st, succ[k], word, pos, visited);
        let res = walk(st, succ[k], word, pos, visited);
        if !res.0 && room(st, res.1) <= room(st, visited) {
            lemma_walk_eps_keeps(st, succ, k + 1, word, pos, res.1);
        }
    }
}

/// The walk's visited list afterwards holds the state it started from.
proof fn lemma_walk_enters(st: Seq<StateModel>, node: usize, word: Seq<u8>, pos: int, visited: Seq<usize>)
    requires
        node < st.len(),
        0 <= pos <= word.len(),
    ensures
        walk(st, node, word, pos, visited).1.contains(node),
{
    if !visited.contains(node) {
        lemma_room_push(st, visited, node);
        let v = visited.push(node);
        assert(v[visited.len() as int] == node);
        assert(v.contains(node));
        if pos == word.len() {
            if !st[node as int].accepting {
                lemma_walk_eps_keeps(st, st[node as int].eps, 0, word, pos, v);
            }
        } else {
            match st[node as int].chars[slot(word[pos])] {
                Some(t) => {},
                None => lemma_walk_eps_keeps(st, st[node as int].eps, 0, word, pos, v),
            }
        }
    }
}

/// Whatever the walk returns, it leaves no more states unvisited.
proof fn lemma_walk_room(st: Seq<StateModel>, node: usize, word: Seq<u8>, pos: int, visited: Seq<usize>)
    ensures
        room(st, walk(st, node, word, pos, visited).1) <= room(st, visited),
{
    lemma_walk_keeps(st, node, word, pos, visited);
    lemma_room_superset(st, visited, walk(st, node, word, pos, visited).1);
}

/// One move of the automaton between (state, bytes consumed) pairs: an
/// epsilon transition, or the transition for the next byte.
pub open spec fn step(st: Seq<StateModel>, word: Seq<u8>, a: (usize, int), b: (usize, int)) -> bool {
    &&& 0 <= a.0 < st.len()
    &&& ((b.1 == a.1 && st[a.0 as int].eps.contains(b.0)) || (0 <= a.1 < word.len() && b.1 == a.1 + 1
        && st[a.0 as int].chars[slot(word[a.1])] == Some(b.0)))
}

/// A run that ends in an accepting state with all of `word` consumed.
pub open spec fn accepting_run(st: Seq<StateModel>, word: Seq<u8>, r: Seq<(usize, int)>) -> bool {
    &&& r.len() > 0
    &&& forall|i: int| 0 <= i < r.len() - 1 ==> step(st, word, #[trigger] r[i], r[i + 1])
    &&& r.last().1 == word.len()
    &&& r.last().0 < st.len()
    &&& st[r.last().0 as int].accepting
}

/// Some accepting run starts in `node` with `pos` bytes consumed.
pub open spec fn accepts_from(st: Seq<StateModel>, word: Seq<u8>, node: usize, pos: int) -> bool {
    exists|r: Seq<(usize, int)>| accepting_run(st, word, r) && r[0] == (node, pos)
}

/// The walk accepts only along a real run of the automaton.
pub proof fn lemma_walk_sound(st: Seq<StateModel>, node: usize, word: Seq<u8>, pos: int, visited: Seq<usize>)
    requires
        walk(st, node, word, pos, visited).0,
    ensures
        accepts_from(st, word, node, pos),
    decreases word.len() - pos, room(st, visited), 0int, 0int,
{
    lemma_room_push(st, visited, node);
    let v = visited.push(node);
    if pos == word.len() {
        if st[node as int].accepting {
            let r = seq![(node, pos)];
            assert(accepting_run(st, word, r));
        } else {
            lemma_walk_eps_sound(st, st[node as int].eps, 0, word, pos, v);
            let j = choose|j: int|
                0 <= j < st[node as int].eps.len() && accepts_from(
                    st,
                    word,
                    #[trigger] st[node as int].eps[j],
                    pos,
                );
            let r0 = choose|r: Seq<(usize, int)>| accepting_run(st, word, r) && r[0] == (st[node as int].eps[j], pos);
            lemma_prepend(st, word, (node, pos), r0);
        }
    } else {
        match st[node as int].chars[slot(word[pos])] {
            Some(t) => {
                lemma_walk_sound(st, t, word, pos + 1, Seq::empty());
                let r0 = choose|r: Seq<(usize, int)>| accepting_run(st, word, r) && r[0] == (t, pos + 1);
                lemma_prepend(st, word, (node, pos), r0);
            },
            None => {
                lemma_walk_eps_sound(st, st[node as int].eps, 0, word, pos, v);
                let j = choose|j: int|
                    0 <= j < st[node as int].eps.len() && accepts_from(
                        st,
                        word,
                        #[trigger] st[node as int].eps[j],
                        pos,
                    );
                let r0 = choose|r: Seq<(usize, int)>| accepting_run(st, word, r) && r[0] == (st[node as int].eps[j], pos);
                lemma_prepend(st, word, (node, pos), r0);
            },
        }
    }
}

proof fn lemma_walk_eps_sound(
    st: Seq<StateModel>,
    succ: Seq<usize>,
    k: int,
    word: Seq<u8>,
    pos: int,
    visited: Seq<usize>,
)
    requires
        walk_eps(st, succ, k, word, pos, visited).0,
    ensures
        exists|j: int| 0 <= j < succ.len() && accepts_from(st, word, #[trigger] succ[j], pos),
    decreases word.len() - pos, room(st, visited), 1int, succ.len() - k,
{
    let res = walk(st, succ[k], word, pos, visited);
    if res.0 {
        lemma_walk_sound(st, succ[k], word, pos, visited);
    } else {
        lemma_walk_eps_sound(st, succ, k + 1, word, pos, res.1);
    }
}

proof fn lemma_prepend(st: Seq<StateModel>, word: Seq<u8>, a: (usize, int), r: Seq<(usize, int)>)
    requires
        accepting_run(st, word, r),
        step(st, word, a, r[0]),
    ensures
        accepting_run(st, word, seq![a] + r),
        (seq![a] + r)[0] == a,
{
    let r2 = seq![a] + r;
    assert forall|i: int| 0 <= i < r2.len() - 1 implies step(st, word, #[trigger] r2[i], r2[i + 1]) by {
        if i > 0 {
            assert(r2[i] == r[i - 1]);
            assert(r2[i + 1] == r[i]);
        }
    }
    assert(r2.last() == r.last());
}

pub fn already_visited(v: &Vec<usize>, node: usize) -> (r: bool)
    ensures
        r == v@.contains(node),
{
    let mut i: usize = 0;
    while i < v.len()
        invariant
            i <= v@.len(),
            forall|j: int| 0 <= j < i ==> v@[j] != node,
        decreases v@.len() - i,
    {
        if v[i] == node {
            return true;
        }
        i = i + 1;
    }
    false
}

/// Depth-first search from `root` with `matched_num` bytes of `word` consumed.
pub fn dfs(
    arena: &Arena<NFAState>,
    root: usize,
    word: &[u8],
    matched_num: usize,
    visited: &mut Vec<usize>,
) -> (r: bool)
    requires
        wf_states(arena_states(*arena)),
        root < arena_states(*arena).len(),
        matched_num <= word@.len(),
    ensures
        (r, final(visited)@) == walk(
            arena_states(*arena),
            root,
            word@,
            matched_num as int,
            old(visited)@,
        ),
        forall|x: usize| old(visited)@.contains(x) ==> final(visited)@.contains(x),
        final(visited)@.contains(root),
        !old(visited)@.contains(root) && matched_num == word@.len() && arena_states(
            *arena,
        )[root as int].accepting ==> r,
    decreases word@.len() - matched_num, room(arena_states(*arena), old(visited)@), 0int, 0int,
{
    let ghost st = arena_states(*arena);
    proof {
        lemma_walk_keeps(st, root, word@, matched_num as int, visited@);
        lemma_walk_enters(st, root, word@, matched_num as int, visited@);
        if !visited@.contains(root) {
            lemma_room_push(st, visited@, root);
        }
    }
    if already_visited(visited, root) {
        return false;
    }
    proof {
        lemma_room_push(st, visited@, root);
    }
    visited.push(root);
    let state = state_at(arena, root);
    assert(st[root as int].chars.len() == 256);
    assert forall|j: int| 0 <= j < state.epsilon_transition@.len() implies #[trigger] state.epsilon_transition@[j]
        < st.len() by {
        assert(st[root as int].eps[j] < st.len());
    }
    if matched_num == word.len() {
        if state.is_end {
            return true;
        }
        follow_epsilons(arena, &state.epsilon_transition, word, matched_num, visited)
    } else {
        let c = word[matched_num] % 128;
        match state.char_transition[c as usize] {
            Some(t) => {
                assert(st[root as int].chars[c as int] is Some);
                let mut fresh: Vec<usize> = Vec::new();
                dfs(arena, t, word, matched_num + 1, &mut fresh)
            },
            None => follow_epsilons(arena, &state.epsilon_transition, word, matched_num, visited),
        }
    }
}

/// Tries each epsilon successor in order with the shared visited list.
fn follow_epsilons(
    arena: &Arena<NFAState>,
    succ: &Vec<usize>,
    word: &[u8],
    matched_num: usize,
    visited: &mut Vec<usize>,
) -> (r: bool)
    requires
        wf_states(arena_states(*arena)),
        forall|j: int| 0 <= j < succ@.len() ==> #[trigger] succ@[j] < arena_states(*arena).len(),
        matched_num <= word@.len(),
    ensures
        (r, final(visited)@) == walk_eps(
            arena_states(*arena),
            succ@,
            0,
            word@,
            matched_num as int,
            old(visited)@,
        ),
    decreases word@.len() - matched_num, room(arena_states(*arena), old(visited)@), 1int, succ@.len(),
{
    let ghost st = arena_states(*arena);
    let ghost v0 = visited@;
    let mut k: usize = 0;
    while k < succ.len()
        invariant
            wf_states(st),
            st == arena_states(*arena),
            forall|j: int| 0 <= j < succ@.len() ==> #[trigger] succ@[j] < st.len(),
            matched_num <= word@.len(),
            k <= succ@.len(),
            v0 == old(visited)@,
            room(st, visited@) <= room(st, v0),
            walk_eps(st, succ@, k as int, word@, matched_num as int, visited@) == walk_eps(
                st,
                succ@,
                0,
                word@,
                matched_num as int,
                v0,
            ),
        decreases succ@.len() - k,
    {
        let ghost before = visited@;
        proof {
            lemma_walk_room(st, succ@[k as int], word@, matched_num as int, before);
        }
        if dfs(arena, succ[k], word, matched_num, visited) {
            return true;
        }
        k = k + 1;
    }
    false
}

} // verus!
