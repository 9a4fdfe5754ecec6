use vstd::prelude::*;
use id_arena::Arena;
use crate::arena::{NFAState, StateModel, arena_states, alloc_state, swap_state};
use crate::syntax::{ALT, CONCAT, PLUS, QUEST, STAR};

verus! {

/// A partial automaton under construction: one entry and one exit state.
#[derive(Clone, Copy)]
pub struct NFAFragment {
    pub start: usize,
    pub out: usize,
}

/// A state with no transitions.
pub open spec fn blank(accepting: bool) -> StateModel {
    StateModel { accepting, chars: Seq::new(256, |c: int| None::<usize>), eps: Seq::empty() }
}

/// Every state has one transition slot per byte value, and every transition
/// leads to a state of the sequence.
pub open spec fn wf_states(st: Seq<StateModel>) -> bool {
    forall|i: int|
        0 <= i < st.len() ==> {
            &&& (#[trigger] st[i]).chars.len() == 256
            &&& forall|c: int|
                0 <= c < 256 && (#[trigger] st[i].chars[c]) is Some ==> st[i].chars[c]->0
                    < st.len()
            &&& forall|j: int| 0 <= j < st[i].eps.len() ==> #[trigger] st[i].eps[j] < st.len()
        }
}

/// Both ends of the fragment are states of `st`.
pub open spec fn frag_in(st: Seq<StateModel>, f: NFAFragment) -> bool {
    f.start < st.len() && f.out < st.len()
}

/// `st` with the accepting flag of state `i` set to `b`.
pub open spec fn set_accepting(st: Seq<StateModel>, i: usize, b: bool) -> Seq<StateModel> {
    st.update(i as int, StateModel { accepting: b, chars: st[i as int].chars, eps: st[i as int].eps })
}

/// `st` with an epsilon transition from `i` to `to` appended.
pub open spec fn add_eps(st: Seq<StateModel>, i: usize, to: usize) -> Seq<StateModel> {
    st.update(
        i as int,
        StateModel { accepting: st[i as int].accepting, chars: st[i as int].chars, eps: st[i as int].eps.push(to) },
    )
}

/// `st` with the transition of state `i` on byte `c` leading to `to`.
pub open spec fn set_char(st: Seq<StateModel>, i: usize, c: u8, to: usize) -> Seq<StateModel> {
    st.update(
        i as int,
        StateModel {
            accepting: st[i as int].accepting,
            chars: st[i as int].chars.update(c as int, Some(to)),
            eps: st[i as int].eps,
        },
    )
}

/// Two fresh states appended: a plain entry and an accepting exit.
pub open spec fn with_fragment(st: Seq<StateModel>) -> Seq<StateModel> {
    st.push(blank(false)).push(blank(true))
}

/// The fragment made of the two states `with_fragment` appends.
pub open spec fn fresh_fragment(st: Seq<StateModel>) -> NFAFragment {
    NFAFragment { start: st.len() as usize, out: (st.len() + 1) as usize }
}

/// How many fragments a postfix token consumes.
pub open spec fn arity(t: u8) -> int {
    if t == CONCAT || t == ALT {
        2
    } else if t == QUEST || t == PLUS || t == STAR {
        1
    } else {
        0
    }
}

/// Fragments on the stack after the first `k` tokens.
pub open spec fn depth(post: Seq<u8>, k: nat) -> int
    decreases k,
{
    if k == 0 {
        0
    } else {
        depth(post, (k - 1) as nat) - arity(post[k - 1]) + 1
    }
}

/// Every operator finds its operands, and one fragment is left at the end.
pub open spec fn postfix_ok(post: Seq<u8>) -> bool {
    &&& forall|k: nat| k < post.len() ==> depth(post, k) >= arity(#[trigger] post[k as int])
    &&& depth(post, post.len()) >= 1
}

/// One step of Thompson's construction on the states and the fragment stack.
pub open spec fn thompson_step(st: Seq<StateModel>, fs: Seq<NFAFragment>, t: u8) -> (
    Seq<StateModel>,
    Seq<NFAFragment>,
) {
    if t == CONCAT {
        let r = fs.last();
        let l = fs.drop_last().last();
        let rest = fs.drop_last().drop_last();
        (
            add_eps(set_accepting(st, l.out, false), l.out, r.start),
            rest.push(NFAFragment { start: l.start, out: r.out }),
        )
    } else if t == ALT {
        let r = fs.last();
        let l = fs.drop_last().last();
        let rest = fs.drop_last().drop_last();
        let f = fresh_fragment(st);
        let s1 = add_eps(add_eps(with_fragment(st), f.start, r.start), f.start, l.start);
        let s2 = add_eps(set_accepting(s1, l.out, false), l.out, f.out);
        (add_eps(set_accepting(s2, r.out, false), r.out, f.out), rest.push(f))
    } else if t == QUEST {
        let op = fs.last();
        let f = fresh_fragment(st);
        let s1 = add_eps(add_eps(with_fragment(st), f.start, f.out), f.start, op.start);
        (set_accepting(add_eps(s1, op.out, f.out), op.out, false), fs.drop_last().push(f))
    } else if t == PLUS {
        let op = fs.last();
        let f = fresh_fragment(st);
        let s1 = add_eps(with_fragment(st), f.start, op.start);
        let s2 = add_eps(add_eps(s1, op.out, op.start), op.out, f.out);
        (set_accepting(s2, op.out, false), fs.drop_last().push(f))
    } else if t == STAR {
        let op = fs.last();
        let f = fresh_fragment(st);
        let s1 = add_eps(add_eps(with_fragment(st), f.start, op.start), f.start, f.out);
        let s2 = add_eps(add_eps(s1, op.out, op.start), op.out, f.out);
        (set_accepting(s2, op.out, false), fs.drop_last().push(f))
    } else {
        let f = fresh_fragment(st);
        (set_char(with_fragment(st), f.start, t, f.out), fs.push(f))
    }
}

/// States and fragment stack after the first `k` postfix tokens.
pub open spec fn thompson_prefix(st0: Seq<StateModel>, post: Seq<u8>, k: nat) -> (
    Seq<StateModel>,
    Seq<NFAFragment>,
)
    decreases k,
{
    if k == 0 {
        (st0, Seq::empty())
    } else {
        let (st, fs) = thompson_prefix(st0, post, (k - 1) as nat);
        thompson_step(st, fs, post[k - 1])
    }
}

/// The states after compiling `post` into `st0`, and the fragment on top of
/// the stack at the end.
pub open spec fn thompson(st0: Seq<StateModel>, post: Seq<u8>) -> (Seq<StateModel>, NFAFragment) {
    let (st, fs) = thompson_prefix(st0, post, post.len());
    (st, fs.last())
}

impl NFAState {
    /// A non-accepting state with no transitions.
    pub fn new() -> (r: NFAState)
        ensures
            r@ == blank(false),
    {
        let mut chars: Vec<Option<usize>> = Vec::new();
        let mut c: usize = 0;
        while c < 256
            invariant
                c <= 256,
                chars@ == Seq::new(c as nat, |i: int| None::<usize>),
            decreases 256 - c,
        {
            chars.push(None);
            c = c + 1;
        }
        NFAState { is_end: false, char_transition: chars, epsilon_transition: Vec::new() }
    }

    pub fn add_epsilon(&mut self, to: usize)
        ensures
            final(self)@ == (StateModel {
                accepting: old(self)@.accepting,
                chars: old(self)@.chars,
                eps: old(self)@.eps.push(to),
            }),
    {
        self.epsilon_transition.push(to)
    }

    fn placeholder() -> (r: NFAState) {
        NFAState { is_end: false, char_transition: Vec::new(), epsilon_transition: Vec::new() }
    }
}

proof fn lemma_wf_set_accepting(st: Seq<StateModel>, i: usize, b: bool)
    requires
        wf_states(st),
        i < st.len(),
    ensures
        wf_states(set_accepting(st, i, b)),
{
    let s2 = set_accepting(st, i, b);
    assert forall|k: int| 0 <= k < s2.len() implies {
        &&& (#[trigger] s2[k]).chars.len() == 256
        &&& forall|c: int|
            0 <= c < 256 && (#[trigger] s2[k].chars[c]) is Some ==> s2[k].chars[c]->0 < s2.len()
        &&& forall|j: int| 0 <= j < s2[k].eps.len() ==> #[trigger] s2[k].eps[j] < s2.len()
    } by {
        assert(st[k].chars.len() == 256);
    }
}

proof fn lemma_wf_add_eps(st: Seq<StateModel>, i: usize, to: usize)
    requires
        wf_states(st),
        i < st.len(),
        to < st.len(),
    ensures
        wf_states(add_eps(st, i, to)),
{
    let s2 = add_eps(st, i, to);
    assert forall|k: int| 0 <= k < s2.len() implies {
        &&& (#[trigger] s2[k]).chars.len() == 256
        &&& forall|c: int|
            0 <= c < 256 && (#[trigger] s2[k].chars[c]) is Some ==> s2[k].chars[c]->0 < s2.len()
        &&& forall|j: int| 0 <= j < s2[k].eps.len() ==> #[trigger] s2[k].eps[j] < s2.len()
    } by {
        assert(st[k].chars.len() == 256);
        if k == i {
            assert forall|j: int| 0 <= j < s2[k].eps.len() implies #[trigger] s2[k].eps[j] < s2.len() by {
                if j < st[k].eps.len() {
                    assert(s2[k].eps[j] == st[k].eps[j]);
                }
            }
        }
    }
}

proof fn lemma_wf_set_char(st: Seq<StateModel>, i: usize, c: u8, to: usize)
    requires
        wf_states(st),
        i < st.len(),
        to < st.len(),
    ensures
        wf_states(set_char(st, i, c, to)),
{
    let s2 = set_char(st, i, c, to);
    assert forall|k: int| 0 <= k < s2.len() implies {
        &&& (#[trigger] s2[k]).chars.len() == 256
        &&& forall|d: int|
            0 <= d < 256 && (#[trigger] s2[k].chars[d]) is Some ==> s2[k].chars[d]->0 < s2.len()
        &&& forall|j: int| 0 <= j < s2[k].eps.len() ==> #[trigger] s2[k].eps[j] < s2.len()
    } by {
        assert(st[k].chars.len() == 256);
        if k == i {
            assert forall|d: int| 0 <= d < 256 && (#[trigger] s2[k].chars[d]) is Some implies s2[k].chars[d]->0 < s2.len() by {
                if d != c as int {
                    assert(s2[k].chars[d] == st[k].chars[d]);
                }
            }
        }
    }
}

proof fn lemma_wf_with_fragment(st: Seq<StateModel>)
    requires
        wf_states(st),
    ensures
        wf_states(with_fragment(st)),
{
    let s2 = with_fragment(st);
    assert forall|k: int| 0 <= k < s2.len() implies {
        &&& (#[trigger] s2[k]).chars.len() == 256
        &&& forall|d: int|
            0 <= d < 256 && (#[trigger] s2[k].chars[d]) is Some ==> s2[k].chars[d]->0 < s2.len()
        &&& forall|j: int| 0 <= j < s2[k].eps.len() ==> #[trigger] s2[k].eps[j] < s2.len()
    } by {
        if k < st.len() {
            assert(s2[k] == st[k]);
            assert(st[k].chars.len() == 256);
        }
    }
}

/// The exits of the fragments on the stack are distinct and accepting, and
/// they are the only accepting states among those from `base` on.
pub open spec fn exits_accepting(st: Seq<StateModel>, base: int, fs: Seq<NFAFragment>) -> bool {
    &&& forall|j: int| 0 <= j < fs.len() ==> st[(#[trigger] fs[j]).out as int].accepting
    &&& forall|j: int, k: int| 0 <= j < k < fs.len() ==> (#[trigger] fs[j]).out != (#[trigger] fs[k]).out
    &&& forall|i: int|
        base <= i < st.len() && (#[trigger] st[i]).accepting ==> exists|j: int|
            0 <= j < fs.len() && (#[trigger] fs[j]).out == i
}

/// Whether state `k` is an operand exit that the step on `t` clears.
pub open spec fn cleared_by(fs: Seq<NFAFragment>, t: u8, k: int) -> bool {
    if t == CONCAT {
        k == fs.drop_last().last().out
    } else if t == ALT {
        k == fs.drop_last().last().out || k == fs.last().out
    } else if t == QUEST || t == PLUS || t == STAR {
        k == fs.last().out
    } else {
        false
    }
}

proof fn lemma_flags_add_eps(st: Seq<StateModel>, i: usize, to: usize)
    requires
        i < st.len(),
    ensures
        add_eps(st, i, to).len() == st.len(),
        forall|k: int| 0 <= k < st.len() ==> (#[trigger] add_eps(st, i, to)[k]).accepting == st[k].accepting,
{
}

proof fn lemma_flags_set_accepting(st: Seq<StateModel>, i: usize, b: bool)
    requires
        i < st.len(),
    ensures
        set_accepting(st, i, b).len() == st.len(),
        forall|k: int| 0 <= k < st.len() ==> (#[trigger] set_accepting(st, i, b)[k]).accepting
            == if k == i { b } else { st[k].accepting },
{
}

proof fn lemma_flags_set_char(st: Seq<StateModel>, i: usize, c: u8, to: usize)
    requires
        i < st.len(),
    ensures
        set_char(st, i, c, to).len() == st.len(),
        forall|k: int| 0 <= k < st.len() ==> (#[trigger] set_char(st, i, c, to)[k]).accepting == st[k].accepting,
{
}

proof fn lemma_flags_with_fragment(st: Seq<StateModel>)
    ensures
        with_fragment(st).len() == st.len() + 2,
        forall|k: int| 0 <= k < st.len() + 2 ==> (#[trigger] with_fragment(st)[k]).accepting
            == if k < st.len() { st[k].accepting } else { k == st.len() + 1 },
{
    assert forall|k: int| 0 <= k < st.len() + 2 implies (#[trigger] with_fragment(st)[k]).accepting
        == if k < st.len() { st[k].accepting } else { k == st.len() + 1 } by {
        if k < st.len() {
            assert(with_fragment(st)[k] == st[k]);
        }
    }
}

/// The accepting flags after one step: operand exits that the step wires in
/// are cleared, a fresh exit is accepting, a fresh entry is not, and every
/// other state keeps its flag.
proof fn lemma_step_flags(st: Seq<StateModel>, fs: Seq<NFAFragment>, t: u8)
    requires
        frags_in(st, fs),
        fs.len() >= arity(t),
    ensures
        thompson_step(st, fs, t).0.len() == st.len() + if t == CONCAT { 0int } else { 2int },
        forall|k: int| 0 <= k < thompson_step(st, fs, t).0.len() ==> (#[trigger] thompson_step(st, fs, t).0[k]).accepting
            == if k >= st.len() { k == st.len() + 1 } else if cleared_by(fs, t, k) { false } else { st[k].accepting },
{
    let n = st.len();
    if t == CONCAT {
        let r = fs.last();
        let l = fs.drop_last().last();
        assert(frag_in(st, fs[fs.len() - 2]));
        lemma_flags_set_accepting(st, l.out, false);
        lemma_flags_add_eps(set_accepting(st, l.out, false), l.out, r.start);
    } else if t == ALT {
        let r = fs.last();
        let l = fs.drop_last().last();
        assert(frag_in(st, fs[fs.len() - 2]));
        assert(frag_in(st, fs[fs.len() - 1]));
        let f = fresh_fragment(st);
        let s0 = with_fragment(st);
        lemma_flags_with_fragment(st);
        lemma_flags_add_eps(s0, f.start, r.start);
        let s01 = add_eps(s0, f.start, r.start);
        lemma_flags_add_eps(s01, f.start, l.start);
        let s1 = add_eps(s01, f.start, l.start);
        lemma_flags_set_accepting(s1, l.out, false);
        lemma_flags_add_eps(set_accepting(s1, l.out, false), l.out, f.out);
        let s2 = add_eps(set_accepting(s1, l.out, false), l.out, f.out);
        lemma_flags_set_accepting(s2, r.out, false);
        lemma_flags_add_eps(set_accepting(s2, r.out, false), r.out, f.out);
    } else if t == QUEST || t == PLUS || t == STAR {
        let op = fs.last();
        assert(frag_in(st, fs[fs.len() - 1]));
        let f = fresh_fragment(st);
        let s0 = with_fragment(st);
        lemma_flags_with_fragment(st);
        if t == QUEST {
            lemma_flags_add_eps(s0, f.start, f.out);
            let s01 = add_eps(s0, f.start, f.out);
            lemma_flags_add_eps(s01, f.start, op.start);
            let s1 = add_eps(s01, f.start, op.start);
            lemma_flags_add_eps(s1, op.out, f.out);
            lemma_flags_set_accepting(add_eps(s1, op.out, f.out), op.out, false);
        } else if t == PLUS {
            lemma_flags_add_eps(s0, f.start, op.start);
            let s1 = add_eps(s0, f.start, op.start);
            lemma_flags_add_eps(s1, op.out, op.start);
            let s11 = add_eps(s1, op.out, op.start);
            lemma_flags_add_eps(s11, op.out, f.out);
            lemma_flags_set_accepting(add_eps(s11, op.out, f.out), op.out, false);
        } else {
            lemma_flags_add_eps(s0, f.start, op.start);
            let s01 = add_eps(s0, f.start, op.start);
            lemma_flags_add_eps(s01, f.start, f.out);
            let s1 = add_eps(s01, f.start, f.out);
            lemma_flags_add_eps(s1, op.out, op.start);
            let s11 = add_eps(s1, op.out, op.start);
            lemma_flags_add_eps(s11, op.out, f.out);
            lemma_flags_set_accepting(add_eps(s11, op.out, f.out), op.out, false);
        }
    } else {
        let f = fresh_fragment(st);
        lemma_flags_with_fragment(st);
        lemma_flags_set_char(with_fragment(st), f.start, t, f.out);
    }
}


/// The fragment stack after one step: the untouched lower part, and a new
/// top whose exit is the right operand's (for concatenation) or fresh.
proof fn lemma_step_stack(st: Seq<StateModel>, fs: Seq<NFAFragment>, t: u8)
    requires
        fs.len() >= arity(t),
    ensures
        thompson_step(st, fs, t).1.len() == fs.len() - arity(t) + 1,
        forall|j: int| 0 <= j < fs.len() - arity(t) ==> #[trigger] thompson_step(st, fs, t).1[j] == fs[j],
        thompson_step(st, fs, t).1.last().out == if t == CONCAT { fs.last().out } else { (st.len() + 1) as usize },
        thompson_step(st, fs, t).1.last().start == if t == CONCAT { fs.drop_last().last().start } else { st.len() as usize },
{
}

proof fn lemma_step_exits(st: Seq<StateModel>, base: int, fs: Seq<NFAFragment>, t: u8)
    requires
        frags_in(st, fs),
        fs.len() >= arity(t),
        exits_accepting(st, base, fs),
        0 <= base <= st.len(),
        st.len() + 2 <= usize::MAX,
        forall|j: int| 0 <= j < fs.len() ==> base <= (#[trigger] fs[j]).out,
    ensures
        frags_in(thompson_step(st, fs, t).0, thompson_step(st, fs, t).1),
        exits_accepting(thompson_step(st, fs, t).0, base, thompson_step(st, fs, t).1),
        thompson_step(st, fs, t).0.len() >= st.len(),
        thompson_step(st, fs, t).1.len() == fs.len() - arity(t) + 1,
        forall|j: int|
            0 <= j < thompson_step(st, fs, t).1.len() ==> base <= (#[trigger] thompson_step(st, fs, t).1[j]).out,
{
    let (st2, fs2) = thompson_step(st, fs, t);
    lemma_step_flags(st, fs, t);
    lemma_step_stack(st, fs, t);
    let keep = fs.len() - arity(t);
    let top = fs2.len() - 1;
    assert(fs2[top] == fs2.last());
    if arity(t) >= 1 {
        assert(fs.last() == fs[fs.len() - 1]);
    }
    if arity(t) == 2 {
        assert(fs.drop_last().last() == fs[fs.len() - 2]);
    }
    if arity(t) >= 1 {
        assert(frag_in(st, fs[fs.len() - 1]));
    }
    if arity(t) == 2 {
        assert(frag_in(st, fs[fs.len() - 2]));
    }
    assert forall|j: int| 0 <= j < fs2.len() implies frag_in(st2, #[trigger] fs2[j]) && base <= fs2[j].out by {
        if j < keep {
            assert(fs2[j] == fs[j]);
            assert(frag_in(st, fs[j]));
        } else if t == CONCAT {
            assert(fs[fs.len() - 1].out >= base);
        }
    }
    assert forall|j: int| 0 <= j < fs2.len() implies st2[(#[trigger] fs2[j]).out as int].accepting by {
        if j < keep {
            assert(fs2[j] == fs[j]);
            assert(frag_in(st, fs[j]));
            assert(st[fs[j].out as int].accepting);
            if arity(t) >= 1 {
                assert(fs[j].out != fs[fs.len() - 1].out);
            }
            if arity(t) == 2 {
                assert(fs[j].out != fs[fs.len() - 2].out);
            }
        } else {
            assert(j == top);
            if t == CONCAT {
                assert(st[fs[fs.len() - 1].out as int].accepting);
                assert(fs[fs.len() - 2].out != fs[fs.len() - 1].out);
            }
        }
    }
    assert forall|j: int, k: int| 0 <= j < k < fs2.len() implies (#[trigger] fs2[j]).out != (#[trigger] fs2[k]).out by {
        assert(fs2[j] == fs[j]);
        if k < keep {
            assert(fs2[k] == fs[k]);
        } else if t == CONCAT {
            assert(fs[j].out != fs[fs.len() - 1].out);
        } else {
            assert(frag_in(st, fs[j]));
        }
    }
    assert forall|i: int| base <= i < st2.len() && (#[trigger] st2[i]).accepting implies exists|j: int|
        0 <= j < fs2.len() && (#[trigger] fs2[j]).out == i by {
        if i < st.len() {
            assert(st[i].accepting);
            let j = choose|j: int| 0 <= j < fs.len() && (#[trigger] fs[j]).out == i;
            if j < keep {
                assert(fs2[j] == fs[j]);
            } else {
                assert(fs2[top].out == i);
            }
        } else {
            assert(fs2[top].out == i);
        }
    }
}

/// The construction keeps its fragments inside the states and the exits
/// invariant from the start up to token `k`.
proof fn lemma_thompson_inv(st0: Seq<StateModel>, post: Seq<u8>, k: nat)
    requires
        k <= post.len(),
        st0.len() + 2 * post.len() <= usize::MAX,
        forall|m: nat| m < post.len() ==> depth(post, m) >= arity(#[trigger] post[m as int]),
    ensures
        thompson_prefix(st0, post, k).0.len() <= st0.len() + 2 * k,
        frags_in(thompson_prefix(st0, post, k).0, thompson_prefix(st0, post, k).1),
        exits_accepting(thompson_prefix(st0, post, k).0, st0.len() as int, thompson_prefix(st0, post, k).1),
        thompson_prefix(st0, post, k).0.len() >= st0.len(),
        thompson_prefix(st0, post, k).1.len() == depth(post, k),
        forall|j: int|
            0 <= j < thompson_prefix(st0, post, k).1.len() ==> st0.len() <= (#[trigger] thompson_prefix(
                st0,
                post,
                k,
            ).1[j]).out,
    decreases k,
{
    if k > 0 {
        let k1 = (k - 1) as nat;
        lemma_thompson_inv(st0, post, k1);
        let (st, fs) = thompson_prefix(st0, post, k1);
        assert(depth(post, k1) >= arity(post[k1 as int]));
        lemma_step_flags(st, fs, post[k1 as int]);
        lemma_step_exits(st, st0.len() as int, fs, post[k1 as int]);
    }
}

/// The automaton's exit is accepting; when the construction ends with a
/// single fragment, it is the only accepting state.
pub proof fn lemma_thompson_exit(post: Seq<u8>)
    requires
        postfix_ok(post),
        2 * post.len() <= usize::MAX,
    ensures
        thompson(Seq::empty(), post).0[thompson(Seq::empty(), post).1.out as int].accepting,
        depth(post, post.len()) == 1 ==> forall|i: int|
            0 <= i < thompson(Seq::empty(), post).0.len() && (#[trigger] thompson(Seq::empty(), post).0[i]).accepting
                ==> i == thompson(Seq::empty(), post).1.out,
{
    let st0 = Seq::<StateModel>::empty();
    lemma_thompson_inv(st0, post, post.len());
    let (st, fs) = thompson_prefix(st0, post, post.len());
    assert(st[fs[fs.len() - 1].out as int].accepting);
    if depth(post, post.len()) == 1 {
        assert forall|i: int| 0 <= i < st.len() && (#[trigger] st[i]).accepting implies i == fs.last().out by {
            let j = choose|j: int| 0 <= j < fs.len() && (#[trigger] fs[j]).out == i;
        }
    }
}

fn set_end(arena: &mut Arena<NFAState>, i: usize, b: bool)
    requires
        i < arena_states(*old(arena)).len(),
    ensures
        arena_states(*final(arena)) == set_accepting(arena_states(*old(arena)), i, b),
        wf_states(arena_states(*old(arena))) ==> wf_states(arena_states(*final(arena))),
{
    proof {
        if wf_states(arena_states(*old(arena))) {
            lemma_wf_set_accepting(arena_states(*old(arena)), i, b);
        }
    }
    let mut s = swap_state(arena, i, NFAState::placeholder());
    s.is_end = b;
    let _ = swap_state(arena, i, s);
    assert(arena_states(*arena) =~= set_accepting(arena_states(*old(arena)), i, b));
}

fn add_epsilon(arena: &mut Arena<NFAState>, i: usize, to: usize)
    requires
        i < arena_states(*old(arena)).len(),
    ensures
        arena_states(*final(arena)) == add_eps(arena_states(*old(arena)), i, to),
        wf_states(arena_states(*old(arena))) && to < arena_states(*old(arena)).len()
            ==> wf_states(arena_states(*final(arena))),
{
    proof {
        if wf_states(arena_states(*old(arena))) && to < arena_states(*old(arena)).len() {
            lemma_wf_add_eps(arena_states(*old(arena)), i, to);
        }
    }
    let mut s = swap_state(arena, i, NFAState::placeholder());
    s.add_epsilon(to);
    let _ = swap_state(arena, i, s);
    assert(arena_states(*arena) =~= add_eps(arena_states(*old(arena)), i, to));
}

fn set_transition(arena: &mut Arena<NFAState>, i: usize, c: u8, to: usize)
    requires
        i < arena_states(*old(arena)).len(),
        arena_states(*old(arena))[i as int].chars.len() == 256,
    ensures
        arena_states(*final(arena)) == set_char(arena_states(*old(arena)), i, c, to),
        wf_states(arena_states(*old(arena))) && to < arena_states(*old(arena)).len()
            ==> wf_states(arena_states(*final(arena))),
{
    proof {
        if wf_states(arena_states(*old(arena))) && to < arena_states(*old(arena)).len() {
            lemma_wf_set_char(arena_states(*old(arena)), i, c, to);
        }
    }
    let mut s = swap_state(arena, i, NFAState::placeholder());
    s.char_transition.set(c as usize, Some(to));
    let _ = swap_state(arena, i, s);
    assert(arena_states(*arena) =~= set_char(arena_states(*old(arena)), i, c, to));
}

impl NFAFragment {
    /// Allocates a plain entry state and an accepting exit state.
    pub fn new(arena: &mut Arena<NFAState>) -> (r: NFAFragment)
        ensures
            arena_states(*final(arena)) == with_fragment(arena_states(*old(arena))),
            r == fresh_fragment(arena_states(*old(arena))),
            wf_states(arena_states(*old(arena))) ==> wf_states(arena_states(*final(arena))),
    {
        proof {
            if wf_states(arena_states(*old(arena))) {
                lemma_wf_with_fragment(arena_states(*old(arena)));
            }
        }
        let start = alloc_state(arena, NFAState::new());
        let mut exit = NFAState::new();
        exit.is_end = true;
        let out = alloc_state(arena, exit);
        proof {
            assert(arena_states(*arena) =~= with_fragment(arena_states(*old(arena))));
        }
        NFAFragment { start, out }
    }
}

/// Every fragment on the stack lies within `st`.
pub open spec fn frags_in(st: Seq<StateModel>, fs: Seq<NFAFragment>) -> bool {
    forall|j: int| 0 <= j < fs.len() ==> frag_in(st, #[trigger] fs[j])
}

/// Thompson's construction: compiles a postfix token sequence into the arena
/// with a stack of fragments and returns the fragment left on top. Every
/// fragment's exit is accepting when it is pushed and stops being so once it
/// is wired into a larger fragment.
pub fn postfix_to_nfa(arena: &mut Arena<NFAState>, postfix_regexp: &[u8]) -> (r: NFAFragment)
    requires
        wf_states(arena_states(*old(arena))),
        postfix_ok(postfix_regexp@),
    ensures
        (arena_states(*final(arena)), r) == thompson(arena_states(*old(arena)), postfix_regexp@),
        wf_states(arena_states(*final(arena))),
        frag_in(arena_states(*final(arena)), r),
{
    let ghost st0 = arena_states(*arena);
    let n = postfix_regexp.len();
    let mut stack: Vec<NFAFragment> = Vec::new();
    let mut i: usize = 0;
    while i < n
        invariant
            n == postfix_regexp@.len(),
            i <= n,
            postfix_ok(postfix_regexp@),
            (arena_states(*arena), stack@) == thompson_prefix(st0, postfix_regexp@, i as nat),
            wf_states(arena_states(*arena)),
            frags_in(arena_states(*arena), stack@),
            stack@.len() == depth(postfix_regexp@, i as nat),
        decreases n - i,
    {
        let at = postfix_regexp[i];
        assert(depth(postfix_regexp@, i as nat) >= arity(postfix_regexp@[i as int]));
        let ghost fs = stack@;
        if at == CONCAT {
            let right = stack.pop().unwrap();
            let left = stack.pop().unwrap();
            assert(frag_in(arena_states(*arena), fs[fs.len() - 2]));
            set_end(arena, left.out, false);
            add_epsilon(arena, left.out, right.start);
            stack.push(NFAFragment { start: left.start, out: right.out });
        } else if at == ALT {
            let right = stack.pop().unwrap();
            let left = stack.pop().unwrap();
            assert(frag_in(arena_states(*arena), fs[fs.len() - 2]));
            let frag = NFAFragment::new(arena);
            add_epsilon(arena, frag.start, right.start);
            add_epsilon(arena, frag.start, left.start);
            set_end(arena, left.out, false);
            add_epsilon(arena, left.out, frag.out);
            set_end(arena, right.out, false);
            add_epsilon(arena, right.out, frag.out);
            stack.push(frag);
        } else if at == QUEST {
            let op = stack.pop().unwrap();
            let frag = NFAFragment::new(arena);
            add_epsilon(arena, frag.start, frag.out);
            add_epsilon(arena, frag.start, op.start);
            add_epsilon(arena, op.out, frag.out);
            set_end(arena, op.out, false);
            stack.push(frag);
        } else if at == PLUS {
            let op = stack.pop().unwrap();
            let frag = NFAFragment::new(arena);
            add_epsilon(arena, frag.start, op.start);
            add_epsilon(arena, op.out, op.start);
            add_epsilon(arena, op.out, frag.out);
            set_end(arena, op.out, false);
            stack.push(frag);
        } else if at == STAR {
            let op = stack.pop().unwrap();
            let frag = NFAFragment::new(arena);
            add_epsilon(arena, frag.start, op.start);
            add_epsilon(arena, frag.start, frag.out);
            add_epsilon(arena, op.out, op.start);
            add_epsilon(arena, op.out, frag.out);
            set_end(arena, op.out, false);
            stack.push(frag);
        } else {
            let frag = NFAFragment::new(arena);
            set_transition(arena, frag.start, at, frag.out);
            stack.push(frag);
        }
        assert(frags_in(arena_states(*arena), stack@)) by {
            assert forall|j: int| 0 <= j < stack@.len() implies frag_in(arena_states(*arena), #[trigger] stack@[j]) by {
                if j < stack@.len() - 1 {
                    assert(stack@[j] == fs[j]);
                }
            }
        }
        i = i + 1;
    }
    let result = stack.pop().unwrap();
    result
}

} // verus!
