//! The mathematical model of the machine: decoding, loop resolution, and a
//! small-step operational semantics over ghost state.  The executable engine
//! in [`crate::interpreter`] is specified and verified against this model.

use vstd::prelude::*;
use vstd::arithmetic::div_mod::{
    lemma_small_mod,
    lemma_mod_add_multiples_vanish,
    lemma_mod_sub_multiples_vanish,
};
use crate::instructions::Instructions;

verus! {

/// Number of cells on the memory tape.
pub const RAM_SIZE: usize = 65536;

/// ASCII `>`.
pub const SYM_POINTER_FORWARD: u8 = 62;

/// ASCII `<`.
pub const SYM_POINTER_BACKWARD: u8 = 60;

/// ASCII `+`.
pub const SYM_CELL_INCREMENT: u8 = 43;

/// ASCII `-`.
pub const SYM_CELL_DECREMENT: u8 = 45;

/// ASCII `.`.
pub const SYM_OUTPUT: u8 = 46;

/// ASCII `,`.
pub const SYM_INPUT: u8 = 44;

/// ASCII `[`.
pub const SYM_LOOP_START: u8 = 91;

/// ASCII `]`.
pub const SYM_LOOP_END: u8 = 93;

// ---------------------------------------------------------------------------
// Wraparound arithmetic
// ---------------------------------------------------------------------------

/// Successor modulo `m`: the wrap rule used by pointer and cell increments.
pub open spec fn wrap_succ(v: int, m: int) -> int {
    if v == m - 1 {
        0
    } else {
        v + 1
    }
}

/// Predecessor modulo `m`: the wrap rule used by pointer and cell decrements.
pub open spec fn wrap_pred(v: int, m: int) -> int {
    if v == 0 {
        m - 1
    } else {
        v - 1
    }
}

/// The cell increment: add 1 modulo 256, never failing.
pub open spec fn inc_byte(v: u8) -> u8 {
    wrap_succ(v as int, 256) as u8
}

/// The cell decrement: subtract 1 modulo 256, never failing.
pub open spec fn dec_byte(v: u8) -> u8 {
    wrap_pred(v as int, 256) as u8
}

/// `wrap_succ` applied `n` times.
pub open spec fn iter_succ(v: int, n: nat, m: int) -> int
    decreases n,
{
    if n == 0 {
        v
    } else {
        iter_succ(wrap_succ(v, m), (n - 1) as nat, m)
    }
}

/// `wrap_pred` applied `n` times.
pub open spec fn iter_pred(v: int, n: nat, m: int) -> int
    decreases n,
{
    if n == 0 {
        v
    } else {
        iter_pred(wrap_pred(v, m), (n - 1) as nat, m)
    }
}

/// The cell increment applied `n` times.
pub open spec fn iter_inc_byte(v: u8, n: nat) -> u8
    decreases n,
{
    if n == 0 {
        v
    } else {
        iter_inc_byte(inc_byte(v), (n - 1) as nat)
    }
}

/// The cell decrement applied `n` times.
pub open spec fn iter_dec_byte(v: u8, n: nat) -> u8
    decreases n,
{
    if n == 0 {
        v
    } else {
        iter_dec_byte(dec_byte(v), (n - 1) as nat)
    }
}

/// `n` wrap-successors land on `(v + n) % m`.
proof fn lemma_iter_succ_mod(v: int, n: nat, m: int)
    requires
        0 <= v < m,
    ensures
        iter_succ(v, n, m) == (v + n) % m,
    decreases n,
{
    if n == 0 {
        lemma_small_mod(v as nat, m as nat);
    } else {
        let w = wrap_succ(v, m);
        lemma_iter_succ_mod(w, (n - 1) as nat, m);
        if v == m - 1 {
            lemma_mod_add_multiples_vanish(n - 1, m);
        }
    }
}

/// `n` wrap-predecessors land on `(v - n) % m`.
proof fn lemma_iter_pred_mod(v: int, n: nat, m: int)
    requires
        0 <= v < m,
    ensures
        iter_pred(v, n, m) == (v - n) % m,
    decreases n,
{
    if n == 0 {
        lemma_small_mod(v as nat, m as nat);
    } else {
        let w = wrap_pred(v, m);
        lemma_iter_pred_mod(w, (n - 1) as nat, m);
        if v == 0 {
            lemma_mod_add_multiples_vanish(-(n as int), m);
        }
    }
}

/// Wraparound group law: `m` wrap-successors return any value to itself.
pub proof fn lemma_iter_succ_cycle(v: int, m: int)
    requires
        0 <= v < m,
    ensures
        iter_succ(v, m as nat, m) == v,
{
    lemma_iter_succ_mod(v, m as nat, m);
    lemma_mod_add_multiples_vanish(v, m);
    lemma_small_mod(v as nat, m as nat);
}

/// Wraparound group law: `m` wrap-predecessors return any value to itself.
pub proof fn lemma_iter_pred_cycle(v: int, m: int)
    requires
        0 <= v < m,
    ensures
        iter_pred(v, m as nat, m) == v,
{
    lemma_iter_pred_mod(v, m as nat, m);
    lemma_mod_sub_multiples_vanish(v, m);
    lemma_small_mod(v as nat, m as nat);
}

/// Iterating the cell increment is iterating the wrap-successor modulo 256.
proof fn lemma_iter_inc_byte_eq(v: u8, n: nat)
    ensures
        iter_inc_byte(v, n) as int == iter_succ(v as int, n, 256),
    decreases n,
{
    if n != 0 {
        lemma_iter_inc_byte_eq(inc_byte(v), (n - 1) as nat);
    }
}

/// Iterating the cell decrement is iterating the wrap-predecessor modulo 256.
proof fn lemma_iter_dec_byte_eq(v: u8, n: nat)
    ensures
        iter_dec_byte(v, n) as int == iter_pred(v as int, n, 256),
    decreases n,
{
    if n != 0 {
        lemma_iter_dec_byte_eq(dec_byte(v), (n - 1) as nat);
    }
}

/// For every cell value, 256 cell increments return the cell to its value.
pub proof fn lemma_cell_increment_cycle(v: u8)
    ensures
        iter_inc_byte(v, 256) == v,
{
    lemma_iter_inc_byte_eq(v, 256);
    lemma_iter_succ_cycle(v as int, 256);
}

/// For every cell value, 256 cell decrements return the cell to its value.
pub proof fn lemma_cell_decrement_cycle(v: u8)
    ensures
        iter_dec_byte(v, 256) == v,
{
    lemma_iter_dec_byte_eq(v, 256);
    lemma_iter_pred_cycle(v as int, 256);
}

/// For every pointer position, `RAM_SIZE` forward moves return the pointer
/// to its position.
pub proof fn lemma_pointer_forward_cycle(p: int)
    requires
        0 <= p < RAM_SIZE,
    ensures
        iter_succ(p, RAM_SIZE as nat, RAM_SIZE as int) == p,
{
    lemma_iter_succ_cycle(p, RAM_SIZE as int);
}

/// For every pointer position, `RAM_SIZE` backward moves return the pointer
/// to its position.
pub proof fn lemma_pointer_backward_cycle(p: int)
    requires
        0 <= p < RAM_SIZE,
    ensures
        iter_pred(p, RAM_SIZE as nat, RAM_SIZE as int) == p,
{
    lemma_iter_pred_cycle(p, RAM_SIZE as int);
}

// ---------------------------------------------------------------------------
// Decoding source text
// ---------------------------------------------------------------------------

/// Maps one source byte to its instruction; every unrecognized byte is a
/// comment and decodes to nothing.
pub open spec fn decode_symbol(b: u8) -> Option<Instructions> {
    if b == SYM_POINTER_FORWARD {
        Some(Instructions::IncrementPointer)
    } else if b == SYM_POINTER_BACKWARD {
        Some(Instructions::DecrementPointer)
    } else if b == SYM_CELL_INCREMENT {
        Some(Instructions::IncrementByte)
    } else if b == SYM_CELL_DECREMENT {
        Some(Instructions::DecrementByte)
    } else if b == SYM_OUTPUT {
        Some(Instructions::WriteByte)
    } else if b == SYM_INPUT {
        Some(Instructions::ReadByte)
    } else if b == SYM_LOOP_START {
        Some(Instructions::JumpForward)
    } else if b == SYM_LOOP_END {
        Some(Instructions::JumpBackward)
    } else {
        None
    }
}

/// The instruction sequence that a piece of source text decodes to:
/// recognized symbols in order, everything else discarded.
pub open spec fn decode(src: Seq<u8>) -> Seq<Instructions>
    decreases src.len(),
{
    if src.len() == 0 {
        Seq::empty()
    } else {
        match decode_symbol(src[0]) {
            Some(instr) => seq![instr] + decode(src.drop_first()),
            None => decode(src.drop_first()),
        }
    }
}

/// Decoding distributes over concatenation of source text.
pub proof fn lemma_decode_append(a: Seq<u8>, b: Seq<u8>)
    ensures
        decode(a + b) == decode(a) + decode(b),
    decreases a.len(),
{
    if a.len() == 0 {
        assert(a + b =~= b);
        assert(decode(a) + decode(b) =~= decode(b));
    } else {
        assert((a + b).drop_first() =~= a.drop_first() + b);
        assert((a + b)[0] == a[0]);
        lemma_decode_append(a.drop_first(), b);
        match decode_symbol(a[0]) {
            Some(instr) => {
                assert(decode(a + b) =~= decode(a) + decode(b));
            },
            None => {
                assert(decode(a + b) =~= decode(a) + decode(b));
            },
        }
    }
}

/// What one source byte contributes to the decoded sequence.
pub proof fn lemma_decode_singleton(b: u8)
    ensures
        decode(seq![b]) == match decode_symbol(b) {
            Some(instr) => seq![instr],
            None => Seq::<Instructions>::empty(),
        },
{
    assert(seq![b].drop_first() =~= Seq::<u8>::empty());
    assert(decode(Seq::<u8>::empty()) =~= Seq::<Instructions>::empty());
    match decode_symbol(b) {
        Some(instr) => {
            assert(decode(seq![b]) =~= seq![instr]);
        },
        None => {},
    }
}

// ---------------------------------------------------------------------------
// Loop resolution
// ---------------------------------------------------------------------------

/// One linear pass of the loop resolver, starting at position `i` with the
/// stack of still-open `[` positions and the pairs recorded so far.  Yields
/// `None` exactly when the program is malformed: a `]` with no open `[`, or
/// an open `[` left on the stack at the end.
pub open spec fn resolve_from(
    prog: Seq<Instructions>,
    i: nat,
    stack: Seq<int>,
    table: Map<int, int>,
) -> Option<Map<int, int>>
    decreases prog.len() - i,
{
    if i >= prog.len() {
        if stack.len() == 0 {
            Some(table)
        } else {
            None
        }
    } else if prog[i as int] is JumpForward {
        resolve_from(prog, i + 1, stack.push(i as int), table)
    } else if prog[i as int] is JumpBackward {
        if stack.len() == 0 {
            None
        } else {
            resolve_from(
                prog,
                i + 1,
                stack.drop_last(),
                table.insert(stack.last(), i as int).insert(i as int, stack.last()),
            )
        }
    } else {
        resolve_from(prog, i + 1, stack, table)
    }
}

/// The loop table of a program: `Some` with the symmetric pairing of every
/// `[` and `]` when all brackets match, `None` when the program is malformed.
pub open spec fn resolve(prog: Seq<Instructions>) -> Option<Map<int, int>> {
    resolve_from(prog, 0, Seq::empty(), Map::empty())
}

/// What a finished loop table looks like: entries are in range, pair the two
/// bracket kinds, and are symmetric; and every bracket position has an entry.
pub open spec fn table_complete(prog: Seq<Instructions>, m: Map<int, int>) -> bool {
    &&& forall|j: int|
        #[trigger] m.dom().contains(j) ==> 0 <= j < prog.len() && m.dom().contains(m[j]) && m[m[j]]
            == j
    &&& forall|j: int|
        #[trigger] m.dom().contains(j) ==> ((prog[j] is JumpForward && prog[m[j]] is JumpBackward
            && j < m[j]) || (prog[j] is JumpBackward && prog[m[j]] is JumpForward && m[j] < j))
    &&& forall|j: int|
        0 <= j < prog.len() && ((#[trigger] prog[j]) is JumpForward || prog[j] is JumpBackward)
            ==> m.dom().contains(j)
}

/// The invariant the resolver's pass maintains: stack entries are open `[`
/// positions below `i`, strictly increasing and not yet paired; recorded
/// pairs are symmetric, correctly typed, and below `i`; and every bracket
/// below `i` is either paired or still on the stack.
pub open spec fn resolve_inv(
    prog: Seq<Instructions>,
    i: nat,
    stack: Seq<int>,
    table: Map<int, int>,
) -> bool {
    &&& i <= prog.len()
    &&& forall|k: int|
        0 <= k < stack.len() ==> 0 <= #[trigger] stack[k] < i && prog[stack[k]] is JumpForward
            && !table.dom().contains(stack[k])
    &&& forall|k1: int, k2: int| 0 <= k1 < k2 < stack.len() ==> stack[k1] < stack[k2]
    &&& forall|j: int|
        #[trigger] table.dom().contains(j) ==> 0 <= j < i && table.dom().contains(table[j])
            && table[table[j]] == j
    &&& forall|j: int|
        #[trigger] table.dom().contains(j) ==> ((prog[j] is JumpForward && prog[table[j]] is
        JumpBackward && j < table[j]) || (prog[j] is JumpBackward && prog[table[j]] is JumpForward
            && table[j] < j))
    &&& forall|j: int|
        0 <= j < i && ((#[trigger] prog[j]) is JumpForward || prog[j] is JumpBackward)
            ==> table.dom().contains(j) || stack.contains(j)
}

/// One resolver step over a `[`: pushing its position keeps the invariant.
pub proof fn lemma_resolve_inv_open(
    prog: Seq<Instructions>,
    i: nat,
    stack: Seq<int>,
    table: Map<int, int>,
)
    requires
        resolve_inv(prog, i, stack, table),
        i < prog.len(),
        prog[i as int] is JumpForward,
    ensures
        resolve_inv(prog, i + 1, stack.push(i as int), table),
{
    let stack2 = stack.push(i as int);
    assert(stack2[stack.len() as int] == i as int);
    assert forall|j: int|
        0 <= j < i + 1 && ((#[trigger] prog[j]) is JumpForward || prog[j] is JumpBackward)
            implies table.dom().contains(j) || stack2.contains(j) by {
        if j == i as int {
            assert(stack2[stack.len() as int] == j);
        } else {
            if stack.contains(j) {
                let k = choose|k: int| 0 <= k < stack.len() && stack[k] == j;
                assert(stack2[k] == j);
            }
        }
    }
}

/// One resolver step over a `]` with an open `[` on the stack: popping it
/// and recording the pair in both directions keeps the invariant.
pub proof fn lemma_resolve_inv_close(
    prog: Seq<Instructions>,
    i: nat,
    stack: Seq<int>,
    table: Map<int, int>,
)
    requires
        resolve_inv(prog, i, stack, table),
        i < prog.len(),
        prog[i as int] is JumpBackward,
        stack.len() > 0,
    ensures
        resolve_inv(
            prog,
            i + 1,
            stack.drop_last(),
            table.insert(stack.last(), i as int).insert(i as int, stack.last()),
        ),
{
    let t = stack.last();
    let stack2 = stack.drop_last();
    let table2 = table.insert(t, i as int).insert(i as int, t);
    assert(0 <= t < i);
    assert(table2[t] == i as int);
    assert(table2[i as int] == t);
    assert forall|k: int| 0 <= k < stack2.len() implies 0 <= #[trigger] stack2[k] < i + 1
        && prog[stack2[k]] is JumpForward && !table2.dom().contains(stack2[k]) by {
        assert(stack2[k] == stack[k]);
        assert(stack[k] < stack[stack.len() - 1]);
    }
    assert forall|j: int| #[trigger] table2.dom().contains(j) implies 0 <= j < i + 1
        && table2.dom().contains(table2[j]) && table2[table2[j]] == j by {
        if j != t && j != i as int {
            assert(table.dom().contains(j));
            assert(table.dom().contains(table[j]));
            assert(table[j] != t);
            assert(table[j] != i as int);
            assert(table2[j] == table[j]);
            assert(table2[table[j]] == table[table[j]]);
        }
    }
    assert forall|j: int| #[trigger] table2.dom().contains(j) implies ((prog[j] is JumpForward
        && prog[table2[j]] is JumpBackward && j < table2[j]) || (prog[j] is JumpBackward
        && prog[table2[j]] is JumpForward && table2[j] < j)) by {
        if j != t && j != i as int {
            assert(table.dom().contains(table[j]));
            assert(table2[j] == table[j]);
        }
    }
    assert forall|j: int|
        0 <= j < i + 1 && ((#[trigger] prog[j]) is JumpForward || prog[j] is JumpBackward)
            implies table2.dom().contains(j) || stack2.contains(j) by {
        if j < i as int && !table.dom().contains(j) {
            let k = choose|k: int| 0 <= k < stack.len() && stack[k] == j;
            if k == stack.len() - 1 {
                assert(j == t);
            } else {
                assert(stack2[k] == j);
            }
        }
    }
}

/// When the resolver's pass starts from a state satisfying its invariant and
/// succeeds, the finished table is complete.
pub proof fn lemma_resolve_from_props(
    prog: Seq<Instructions>,
    i: nat,
    stack: Seq<int>,
    table: Map<int, int>,
)
    requires
        resolve_inv(prog, i, stack, table),
    ensures
        match resolve_from(prog, i, stack, table) {
            Some(m) => table_complete(prog, m),
            None => true,
        },
    decreases prog.len() - i,
{
    if i >= prog.len() {
        // base case: a successful pass returns `table`, whose invariant is
        // exactly completeness once the stack is empty
    } else if prog[i as int] is JumpForward {
        lemma_resolve_inv_open(prog, i, stack, table);
        lemma_resolve_from_props(prog, i + 1, stack.push(i as int), table);
    } else if prog[i as int] is JumpBackward {
        if stack.len() > 0 {
            lemma_resolve_inv_close(prog, i, stack, table);
            lemma_resolve_from_props(
                prog,
                i + 1,
                stack.drop_last(),
                table.insert(stack.last(), i as int).insert(i as int, stack.last()),
            );
        }
    } else {
        lemma_resolve_from_props(prog, i + 1, stack, table);
    }
}

/// A successful resolution yields a complete loop table.
pub proof fn lemma_resolve_props(prog: Seq<Instructions>)
    ensures
        match resolve(prog) {
            Some(m) => table_complete(prog, m),
            None => true,
        },
{
    lemma_resolve_from_props(prog, 0, Seq::empty(), Map::empty());
}

/// Loop table symmetry: every matched pair produced by the resolver is
/// recorded in both directions, so `m[i] == j` exactly when `m[j] == i`.
pub proof fn lemma_loop_table_symmetric(prog: Seq<Instructions>, m: Map<int, int>, i: int)
    requires
        resolve(prog) == Some(m),
        m.dom().contains(i),
    ensures
        m.dom().contains(m[i]),
        m[m[i]] == i,
{
    lemma_resolve_props(prog);
}

/// How many more `[` than `]` the first `i` instructions hold.
pub open spec fn bracket_excess(prog: Seq<Instructions>, i: int) -> int
    decreases i,
{
    if i <= 0 {
        0
    } else {
        bracket_excess(prog, i - 1) + (if prog[i - 1] is JumpForward {
            1int
        } else if prog[i - 1] is JumpBackward {
            -1int
        } else {
            0int
        })
    }
}

/// A program's brackets balance: no prefix closes more loops than it has
/// opened, and every opened loop is closed by the end.
pub open spec fn balanced(prog: Seq<Instructions>) -> bool {
    &&& forall|i: int| 0 <= i <= prog.len() ==> bracket_excess(prog, i) >= 0
    &&& bracket_excess(prog, prog.len() as int) == 0
}

/// The resolver's pass succeeds exactly on the balanced remainder, given
/// that the stack length records the bracket excess of the prefix.
proof fn lemma_resolve_from_balance(
    prog: Seq<Instructions>,
    i: nat,
    stack: Seq<int>,
    table: Map<int, int>,
)
    requires
        i <= prog.len(),
        stack.len() == bracket_excess(prog, i as int),
    ensures
        resolve_from(prog, i, stack, table) is Some <==> ((forall|j: int|
            i < j <= prog.len() ==> bracket_excess(prog, j) >= 0) && bracket_excess(
            prog,
            prog.len() as int,
        ) == 0),
    decreases prog.len() - i,
{
    if i >= prog.len() {
    } else if prog[i as int] is JumpForward {
        lemma_resolve_from_balance(prog, i + 1, stack.push(i as int), table);
    } else if prog[i as int] is JumpBackward {
        if stack.len() == 0 {
            assert(bracket_excess(prog, i as int + 1) < 0);
        } else {
            lemma_resolve_from_balance(
                prog,
                i + 1,
                stack.drop_last(),
                table.insert(stack.last(), i as int).insert(i as int, stack.last()),
            );
        }
    } else {
        lemma_resolve_from_balance(prog, i + 1, stack, table);
    }
}

/// The resolver accepts exactly the programs whose brackets balance; in
/// particular it rejects every `]` with no open `[` before it, and every
/// program that ends with an unclosed `[`.
pub proof fn lemma_resolve_rejects_unbalanced(prog: Seq<Instructions>)
    ensures
        resolve(prog) is Some <==> balanced(prog),
{
    lemma_resolve_from_balance(prog, 0, Seq::empty(), Map::empty());
}

/// What the engine's concrete jump table holds for a program whose brackets
/// all match: at every bracket position the partner's position, and 0 at
/// every other position.
pub open spec fn table_matches(prog: Seq<Instructions>, t: Seq<usize>) -> bool {
    &&& resolve(prog) is Some
    &&& t.len() == prog.len()
    &&& forall|j: int|
        0 <= j < t.len() ==> #[trigger] t[j] as int == if resolve(prog)->Some_0.dom().contains(j) {
            resolve(prog)->Some_0[j]
        } else {
            0
        }
}

/// The loop resolver is a pure function of the instruction sequence: any two
/// jump tables built for the same program are identical, so resolving twice
/// changes nothing.
pub proof fn lemma_table_unique(prog: Seq<Instructions>, t1: Seq<usize>, t2: Seq<usize>)
    requires
        table_matches(prog, t1),
        table_matches(prog, t2),
    ensures
        t1 == t2,
{
    assert(t1 =~= t2);
}

// ---------------------------------------------------------------------------
// The machine state and its small-step semantics
// ---------------------------------------------------------------------------

/// The whole observable state of one execution: the tape, the two cursors,
/// the input bytes not yet consumed, and the output bytes produced so far.
#[verifier::ext_equal]
pub struct State {
    pub tape: Seq<u8>,
    pub ptr: int,
    pub pc: int,
    pub input: Seq<u8>,
    pub output: Seq<u8>,
}

/// Executes the single instruction under the program counter.  `None` exactly
/// when that instruction is `,` and no input byte is left.  A taken loop jump
/// moves the counter onto the matching bracket, which the next step
/// re-examines and falls through; every other instruction advances by one.
pub open spec fn step(prog: Seq<Instructions>, table: Map<int, int>, s: State) -> Option<State>
    recommends
        0 <= s.pc < prog.len(),
{
    match prog[s.pc] {
        Instructions::IncrementPointer => Some(
            State { ptr: wrap_succ(s.ptr, RAM_SIZE as int), pc: s.pc + 1, ..s },
        ),
        Instructions::DecrementPointer => Some(
            State { ptr: wrap_pred(s.ptr, RAM_SIZE as int), pc: s.pc + 1, ..s },
        ),
        Instructions::IncrementByte => Some(
            State { tape: s.tape.update(s.ptr, inc_byte(s.tape[s.ptr])), pc: s.pc + 1, ..s },
        ),
        Instructions::DecrementByte => Some(
            State { tape: s.tape.update(s.ptr, dec_byte(s.tape[s.ptr])), pc: s.pc + 1, ..s },
        ),
        Instructions::WriteByte => Some(
            State { output: s.output.push(s.tape[s.ptr]), pc: s.pc + 1, ..s },
        ),
        Instructions::ReadByte => if s.input.len() == 0 {
            None
        } else {
            Some(
                State {
                    tape: s.tape.update(s.ptr, s.input[0]),
                    input: s.input.drop_first(),
                    pc: s.pc + 1,
                    ..s
                },
            )
        },
        Instructions::JumpForward => if s.tape[s.ptr] == 0 {
            Some(State { pc: table[s.pc], ..s })
        } else {
            Some(State { pc: s.pc + 1, ..s })
        },
        Instructions::JumpBackward => if s.tape[s.ptr] != 0 {
            Some(State { pc: table[s.pc], ..s })
        } else {
            Some(State { pc: s.pc + 1, ..s })
        },
    }
}

/// How a bounded run ends: the counter left the sequence, the input ran dry
/// at a `,`, or the step budget ran out first.  Each variant carries the
/// state at that moment.
pub enum RunResult {
    Halted(State),
    InputExhausted(State),
    OutOfFuel(State),
}

/// Runs the machine for at most `fuel` steps.
pub open spec fn run(prog: Seq<Instructions>, table: Map<int, int>, s: State, fuel: nat) -> RunResult
    decreases fuel,
{
    if s.pc == prog.len() {
        RunResult::Halted(s)
    } else if fuel == 0 {
        RunResult::OutOfFuel(s)
    } else {
        match step(prog, table, s) {
            Some(s2) => run(prog, table, s2, (fuel - 1) as nat),
            None => RunResult::InputExhausted(s),
        }
    }
}

} // verus!
