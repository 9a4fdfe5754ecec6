use vstd::prelude::*;

verus! {

/// The explicit concatenation marker.
pub const CONCAT: u8 = 46;
/// `|`
pub const ALT: u8 = 124;
/// `+`
pub const PLUS: u8 = 43;
/// `*`
pub const STAR: u8 = 42;
/// `?`
pub const QUEST: u8 = 63;
/// `(`
pub const LPAREN: u8 = 40;
/// `)`
pub const RPAREN: u8 = 41;

/// A byte before which no concatenation marker is placed.
pub open spec fn blocks_marker(c: u8) -> bool {
    c == ALT || c == PLUS || c == STAR || c == RPAREN || c == QUEST
}

/// What the concatenator emits for position `i` of `p`: the byte, followed by
/// a marker when the grammar implies sequencing with the next byte.
pub open spec fn emitted_at(p: Seq<u8>, i: int) -> Seq<u8> {
    if p[i] == LPAREN || p[i] == ALT || i + 1 >= p.len() || blocks_marker(p[i + 1]) {
        seq![p[i]]
    } else {
        seq![p[i], CONCAT]
    }
}

/// The concatenator's output for the first `k` bytes of `p`.
pub open spec fn concat_prefix(p: Seq<u8>, k: nat) -> Seq<u8>
    decreases k,
{
    if k == 0 {
        Seq::empty()
    } else {
        concat_prefix(p, (k - 1) as nat) + emitted_at(p, k - 1)
    }
}

pub open spec fn with_concat(p: Seq<u8>) -> Seq<u8> {
    concat_prefix(p, p.len())
}

/// Makes concatenation explicit: a marker is inserted after every byte other
/// than `(` and `|` unless the next byte is `|`, `)`, `+`, `*` or `?`, or
/// there is no next byte.
pub fn insert_concat_operator(regexp_bytes: &[u8]) -> (r: Vec<u8>)
    ensures
        r@ == with_concat(regexp_bytes@),
{
    let n = regexp_bytes.len();
    let mut result: Vec<u8> = Vec::new();
    let mut i: usize = 0;
    while i < n
        invariant
            n == regexp_bytes@.len(),
            i <= n,
            result@ == concat_prefix(regexp_bytes@, i as nat),
        decreases n - i,
    {
        let at = regexp_bytes[i];
        result.push(at);
        if !(at == LPAREN || at == ALT) && i + 1 < n {
            let next = regexp_bytes[i + 1];
            if !(next == ALT || next == PLUS || next == STAR || next == RPAREN || next == QUEST) {
                result.push(CONCAT);
            }
        }
        i = i + 1;
    }
    result
}

/// Precedence of an operator: concatenation 0, alternation 1, the postfix
/// operators 2; any other byte 0.
pub open spec fn precedence(c: u8) -> u8 {
    if c == ALT {
        1
    } else if c == PLUS || c == QUEST || c == STAR {
        2
    } else {
        0
    }
}

pub fn operator_precedence(c: u8) -> (r: u8)
    ensures
        r == precedence(c),
{
    if c == ALT {
        1
    } else if c == PLUS || c == QUEST || c == STAR {
        2
    } else {
        0
    }
}

pub open spec fn is_op(c: u8) -> bool {
    c == ALT || c == PLUS || c == CONCAT || c == STAR || c == QUEST
}

pub fn is_operator(c: u8) -> (r: bool)
    ensures
        r == is_op(c),
{
    c == ALT || c == PLUS || c == CONCAT || c == STAR || c == QUEST
}

/// Pops operators from the top of `stack` to `out` while the top is not `(`
/// and binds at least as tightly as `prec`.
pub open spec fn pop_while(out: Seq<u8>, stack: Seq<u8>, prec: u8) -> (Seq<u8>, Seq<u8>)
    decreases stack.len(),
{
    if stack.len() > 0 && stack.last() != LPAREN && precedence(stack.last()) >= prec {
        pop_while(out.push(stack.last()), stack.drop_last(), prec)
    } else {
        (out, stack)
    }
}

/// Pops operators from the top of `stack` to `out` up to the nearest `(`,
/// then discards that `(` if there is one.
pub open spec fn pop_group(out: Seq<u8>, stack: Seq<u8>) -> (Seq<u8>, Seq<u8>)
    decreases stack.len(),
{
    if stack.len() == 0 {
        (out, stack)
    } else if stack.last() == LPAREN {
        (out, stack.drop_last())
    } else {
        pop_group(out.push(stack.last()), stack.drop_last())
    }
}

/// Moves the whole stack to `out`, top first.
pub open spec fn drain(out: Seq<u8>, stack: Seq<u8>) -> Seq<u8>
    decreases stack.len(),
{
    if stack.len() == 0 {
        out
    } else {
        drain(out.push(stack.last()), stack.drop_last())
    }
}

/// One token of the operator-precedence conversion.
pub open spec fn postfix_step(out: Seq<u8>, stack: Seq<u8>, t: u8) -> (Seq<u8>, Seq<u8>) {
    if is_op(t) {
        let (o, s) = pop_while(out, stack, precedence(t));
        (o, s.push(t))
    } else if t == LPAREN {
        (out, stack.push(t))
    } else if t == RPAREN {
        pop_group(out, stack)
    } else {
        (out.push(t), stack)
    }
}

/// Output and operator stack after the first `k` tokens of `p`.
pub open spec fn postfix_prefix(p: Seq<u8>, k: nat) -> (Seq<u8>, Seq<u8>)
    decreases k,
{
    if k == 0 {
        (Seq::empty(), Seq::empty())
    } else {
        let (o, s) = postfix_prefix(p, (k - 1) as nat);
        postfix_step(o, s, p[k - 1])
    }
}

/// The postfix form of an infix token sequence.
pub open spec fn to_postfix(p: Seq<u8>) -> Seq<u8> {
    let (o, s) = postfix_prefix(p, p.len());
    drain(o, s)
}

/// Converts an infix token sequence (with explicit concatenation) to postfix
/// order with an operator stack. An operator first pops every operator above
/// the nearest `(` that binds at least as tightly, reading the top of the
/// stack each time; `)` pops up to its `(`, which is dropped; what is left on
/// the stack at the end follows, top first.
pub fn regexp_to_postfix(regexp: &[u8]) -> (r: Vec<u8>)
    ensures
        r@ == to_postfix(regexp@),
{
    let n = regexp.len();
    let mut result: Vec<u8> = Vec::new();
    let mut stack: Vec<u8> = Vec::new();
    let mut i: usize = 0;
    while i < n
        invariant
            n == regexp@.len(),
            i <= n,
            (result@, stack@) == postfix_prefix(regexp@, i as nat),
        decreases n - i,
    {
        let token = regexp[i];
        if is_operator(token) {
            let prec = operator_precedence(token);
            while stack.len() > 0 && stack[stack.len() - 1] != LPAREN
                && operator_precedence(stack[stack.len() - 1]) >= prec
                invariant
                    pop_while(result@, stack@, prec) == pop_while(
                        postfix_prefix(regexp@, i as nat).0,
                        postfix_prefix(regexp@, i as nat).1,
                        prec,
                    ),
                decreases stack@.len(),
            {
                let c = stack.pop().unwrap();
                result.push(c);
            }
            stack.push(token);
        } else if token == LPAREN {
            stack.push(token);
        } else if token == RPAREN {
            while stack.len() > 0 && stack[stack.len() - 1] != LPAREN
                invariant
                    pop_group(result@, stack@) == pop_group(
                        postfix_prefix(regexp@, i as nat).0,
                        postfix_prefix(regexp@, i as nat).1,
                    ),
                decreases stack@.len(),
            {
                let c = stack.pop().unwrap();
                result.push(c);
            }
            if stack.len() > 0 {
                stack.pop();
            }
        } else {
            result.push(token);
        }
        i = i + 1;
    }
    while stack.len() > 0
        invariant
            drain(result@, stack@) == to_postfix(regexp@),
        decreases stack@.len(),
    {
        let c = stack.pop().unwrap();
        result.push(c);
    }
    result
}

} // verus!
