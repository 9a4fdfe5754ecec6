use vstd::prelude::*;
use id_arena::{Arena, ArenaBehavior, DefaultArenaBehavior};

verus! {

/// One automaton state: an accepting flag, a table of byte transitions
/// (one optional successor per byte value) and a list of epsilon successors.
/// Successors are indices of states in the same arena.
pub struct NFAState {
    pub is_end: bool,
    pub char_transition: Vec<Option<usize>>,
    pub epsilon_transition: Vec<usize>,
}

/// Mathematical model of a state.
pub ghost struct StateModel {
    pub accepting: bool,
    pub chars: Seq<Option<usize>>,
    pub eps: Seq<usize>,
}

impl NFAState {
    pub open spec fn view(&self) -> StateModel {
        StateModel {
            accepting: self.is_end,
            chars: self.char_transition@,
            eps: self.epsilon_transition@,
        }
    }
}

#[verifier::external_type_specification]
#[verifier::external_body]
#[verifier::reject_recursive_types(T)]
pub struct ExDefaultArenaBehavior<T>(DefaultArenaBehavior<T>);

#[verifier::external_type_specification]
#[verifier::external_body]
#[verifier::reject_recursive_types(T)]
#[verifier::reject_recursive_types(A)]
pub struct ExArena<T, A>(Arena<T, A>);

/// The states an arena holds, in order of allocation.
pub uninterp spec fn arena_states(a: Arena<NFAState>) -> Seq<StateModel>;

/// Relies on `id_arena::Arena::new`: a new arena holds nothing.
#[verifier::external_body]
pub(crate) fn new_arena() -> (r: Arena<NFAState>)
    ensures
        arena_states(r) == Seq::<StateModel>::empty(),
{
    Arena::new()
}

/// Relies on `id_arena::Arena::alloc` and `id_arena::Id::index`: the item is
/// appended to the arena's items and its id holds its position there.
#[verifier::external_body]
pub(crate) fn alloc_state(a: &mut Arena<NFAState>, s: NFAState) -> (r: usize)
    ensures
        r == arena_states(*old(a)).len(),
        arena_states(*final(a)) == arena_states(*old(a)).push(s@),
{
    a.alloc(s).index()
}

/// Relies on `id_arena::Arena::len`: the number of items allocated.
#[verifier::external_body]
pub(crate) fn arena_len(a: &Arena<NFAState>) -> (r: usize)
    ensures
        r == arena_states(*a).len(),
{
    a.len()
}

/// Relies on `id_arena::Arena::next_id`, `DefaultArenaBehavior::{arena_id, new_id}`
/// and `Index` on `Arena`: an id made of the arena's own tag and a position
/// below its length names the item at that position.
#[verifier::external_body]
pub(crate) fn state_at(a: &Arena<NFAState>, i: usize) -> (r: &NFAState)
    requires
        i < arena_states(*a).len(),
    ensures
        r@ == arena_states(*a)[i as int],
{
    let tag = DefaultArenaBehavior::<NFAState>::arena_id(a.next_id());
    &a[DefaultArenaBehavior::<NFAState>::new_id(tag, i)]
}

/// Relies on the same id construction and on `IndexMut` on `Arena`: the item
/// at position `i` is handed out and `s` takes its place.
#[verifier::external_body]
pub(crate) fn swap_state(a: &mut Arena<NFAState>, i: usize, s: NFAState) -> (r: NFAState)
    requires
        i < arena_states(*old(a)).len(),
    ensures
        r@ == arena_states(*old(a))[i as int],
        arena_states(*final(a)) == arena_states(*old(a)).update(i as int, s@),
{
    let tag = DefaultArenaBehavior::<NFAState>::arena_id(a.next_id());
    std::mem::replace(&mut a[DefaultArenaBehavior::<NFAState>::new_id(tag, i)], s)
}

} // verus!
