//! Negamax search with alpha-beta pruning, a transposition table and
//! iterative deepening.
use vstd::prelude::*;
use std::sync::atomic::AtomicBool;
use crate::board::{State, Move, legal_moves, updated_hash, played, lemma_played};
use crate::eval::{evaluate, evaluation, lemma_eval_bounded, EVAL_BOUND};
use crate::laws::{board_ok, move_facts, lemma_legal_move_facts, lemma_move_keeps_board};
use crate::weights::Weights;
use crate::abort::should_abort;

verus! {

pub const WIN_SCORE: i32 = 100_000;
pub const DRAW_SCORE: i32 = -50_000;
pub const ALPHA_START: i32 = -200_000;
pub const BETA_START: i32 = 200_000;

pub const TT_BITS: usize = 24;
pub const TT_SIZE: usize = 16777216;
pub const TT_MASK: u64 = 16777215;

/// Largest magnitude of a search value.
pub const VALUE_BOUND: i32 = EVAL_BOUND;

/// Node counters of one search depth.
#[derive(Clone, Copy, Debug)]
pub struct LevelStats {
    pub nodes_visited: u64,
    pub tt_hits: u64,
    pub beta_cutoffs: u64,
    pub satisfaction_cutoffs: u64,
    pub tt_collisions: u64,
}

impl Default for LevelStats {
    fn default() -> (s: Self)
        ensures
            s == (LevelStats {
                nodes_visited: 0,
                tt_hits: 0,
                beta_cutoffs: 0,
                satisfaction_cutoffs: 0,
                tt_collisions: 0,
            }),
    {
        LevelStats { nodes_visited: 0, tt_hits: 0, beta_cutoffs: 0, satisfaction_cutoffs: 0, tt_collisions: 0 }
    }
}

pub open spec fn zero_stats() -> LevelStats {
    LevelStats { nodes_visited: 0, tt_hits: 0, beta_cutoffs: 0, satisfaction_cutoffs: 0, tt_collisions: 0 }
}

/// Counter increment that stays at the maximum.
pub open spec fn sat_add(x: u64, y: u64) -> u64 {
    if x + y <= u64::MAX {
        (x + y) as u64
    } else {
        u64::MAX
    }
}

fn add_sat(x: u64, y: u64) -> (r: u64)
    ensures
        r == sat_add(x, y),
{
    x.saturating_add(y)
}

/// Result of a search: the value of the position for the side to move, the
/// move to play and the counters of the last completed depth.
pub struct SearchResult {
    pub value: i32,
    pub best_move: Option<Move>,
    pub stats: Vec<LevelStats>,
}

#[derive(Clone, Copy)]
pub struct TTEntry {
    pub hash: u64,
    pub value: i32,
    pub depth_from_root: u32,
}

pub open spec fn empty_entry() -> TTEntry {
    TTEntry { hash: 0, value: 0, depth_from_root: 999 }
}

/// Slot of a key in the table.
pub open spec fn tt_index(key: u64) -> int {
    (key & TT_MASK) as int
}

proof fn lemma_tt_index(key: u64)
    by (bit_vector)
    ensures
        key & 16777215u64 <= 16777215u64,
{
}

/// The slot of `key` in the slots of a table.
pub open spec fn slot_of(slots: Seq<TTEntry>, key: u64) -> TTEntry {
    slots[tt_index(key)]
}

/// The slot of `key` is empty or holds an entry found deeper than `depth`.
pub open spec fn slots_accept(slots: Seq<TTEntry>, key: u64, depth: u32) -> bool {
    slot_of(slots, key).hash == 0 || depth < slot_of(slots, key).depth_from_root
}

/// The slots after storing `value` for `key` found at `depth`.
pub open spec fn slots_inserted(slots: Seq<TTEntry>, key: u64, value: i32, depth: u32) -> Seq<TTEntry> {
    if slots_accept(slots, key, depth) {
        slots.update(tt_index(key), TTEntry { hash: key, value, depth_from_root: depth })
    } else {
        slots
    }
}

/// A fixed-size table from position hashes to search values.
pub struct TranspositionTable {
    pub table: Vec<TTEntry>,
}

impl TranspositionTable {
    pub open spec fn wf(&self) -> bool {
        self.table.len() == TT_SIZE
    }

    pub open spec fn entry(&self, key: u64) -> TTEntry {
        slot_of(self.table@, key)
    }

    /// The value and depth stored for `key`, if its slot holds that key.
    pub open spec fn lookup(&self, key: u64) -> Option<(i32, u32)> {
        if self.entry(key).hash == key {
            Some((self.entry(key).value, self.entry(key).depth_from_root))
        } else {
            None
        }
    }

    /// The slot of `key` takes an entry found `depth` plies from the root:
    /// it is empty or holds an entry found deeper.
    pub open spec fn accepts(&self, key: u64, depth: u32) -> bool {
        slots_accept(self.table@, key, depth)
    }

    /// The slots after storing `value` for `key` found at `depth`.
    pub open spec fn inserted(&self, key: u64, value: i32, depth: u32) -> Seq<TTEntry> {
        slots_inserted(self.table@, key, value, depth)
    }

    /// Every stored value lies within `VALUE_BOUND`.
    pub open spec fn bounded(&self) -> bool {
        forall|i: int| 0 <= i < self.table.len() ==> -VALUE_BOUND <= #[trigger] self.table@[i].value <= VALUE_BOUND
    }

    /// A table of empty slots.
    pub fn new() -> (t: Self)
        ensures
            t.wf(),
            t.bounded(),
            forall|i: int| 0 <= i < TT_SIZE ==> #[trigger] t.table@[i] == empty_entry(),
    {
        let mut table: Vec<TTEntry> = Vec::with_capacity(TT_SIZE);
        let mut i: usize = 0;
        while i < TT_SIZE
            invariant
                i <= TT_SIZE,
                table.len() == i,
                forall|j: int| 0 <= j < i ==> #[trigger] table@[j] == empty_entry(),
            decreases TT_SIZE - i,
        {
            table.push(TTEntry { hash: 0, value: 0, depth_from_root: 999 });
            i += 1;
        }
        Self { table }
    }

    /// Empties every slot (the stored values stay).
    pub fn clear(&mut self)
        requires
            old(self).wf(),
        ensures
            final(self).wf(),
            forall|i: int| 0 <= i < TT_SIZE ==> #[trigger] final(self).table@[i] == (TTEntry {
                hash: 0,
                depth_from_root: 999,
                ..old(self).table@[i]
            }),
    {
        let mut i: usize = 0;
        while i < self.table.len()
            invariant
                self.table.len() == TT_SIZE,
                i <= TT_SIZE,
                forall|j: int| 0 <= j < i ==> #[trigger] self.table@[j] == (TTEntry {
                    hash: 0,
                    depth_from_root: 999,
                    ..old(self).table@[j]
                }),
                forall|j: int| i <= j < TT_SIZE ==> #[trigger] self.table@[j] == old(self).table@[j],
            decreases TT_SIZE - i,
        {
            let e = self.table[i];
            self.table.set(i, TTEntry { hash: 0, depth_from_root: 999, ..e });
            i += 1;
        }
    }

    /// Stores `value` for `key` found `depth` plies from the root, unless its
    /// slot holds an entry found nearer the root; a different key kept that
    /// way counts as a collision at `depth`.
    pub fn insert(&mut self, key: u64, value: i32, depth: u32, stats: &mut Vec<LevelStats>)
        requires
            old(self).wf(),
            old(self).accepts(key, depth) || old(self).entry(key).hash == key || depth < old(stats).len(),
        ensures
            final(self).wf(),
            final(self).table@ == old(self).inserted(key, value, depth),
            ({
                let e = old(self).entry(key);
                if old(self).accepts(key, depth) {
                    final(stats)@ == old(stats)@
                } else if e.hash != key {
                    final(stats)@ == old(stats)@.update(
                        depth as int,
                        LevelStats {
                            tt_collisions: sat_add(old(stats)@[depth as int].tt_collisions, 1),
                            ..old(stats)@[depth as int]
                        },
                    )
                } else {
                    final(stats)@ == old(stats)@
                }
            }),
    {
        proof {
            lemma_tt_index(key);
        }
        let index = (key & TT_MASK) as usize;
        let entry = self.table[index];
        if entry.hash == 0 || depth < entry.depth_from_root {
            self.table.set(index, TTEntry { hash: key, value, depth_from_root: depth });
        } else if entry.hash != key {
            let mut st = stats[depth as usize];
            st.tt_collisions = add_sat(st.tt_collisions, 1);
            stats.set(depth as usize, st);
        }
    }

    /// The value and depth stored for `key`, if its slot holds that key.
    pub fn get(&self, key: u64) -> (r: Option<(i32, u32)>)
        requires
            self.wf(),
        ensures
            r == self.lookup(key),
    {
        proof {
            lemma_tt_index(key);
        }
        let entry = self.table[(key & TT_MASK) as usize];
        if entry.hash == key {
            Some((entry.value, entry.depth_from_root))
        } else {
            None
        }
    }
}

/// A read gives back a write: after storing `value` for `key`, looking `key`
/// up finds `value` and `depth` when its slot took the entry, and what it
/// found before when the slot kept an entry found nearer the root; keys of
/// other slots are unaffected.
pub proof fn lemma_tt_read_after_write(
    t: TranspositionTable,
    u: TranspositionTable,
    key: u64,
    value: i32,
    depth: u32,
    other: u64,
)
    requires
        t.wf(),
        u.table@ == t.inserted(key, value, depth),
    ensures
        t.accepts(key, depth) ==> u.lookup(key) == Some((value, depth)),
        !t.accepts(key, depth) ==> u.lookup(key) == t.lookup(key),
        tt_index(other) != tt_index(key) ==> u.lookup(other) == t.lookup(other),
{
    lemma_tt_index(key);
    lemma_tt_index(other);
}


/// `a` comes before `b` when ordered by key, ties by position.
pub open spec fn key_before(keys: Seq<i32>, a: int, b: int) -> bool {
    keys[a] < keys[b] || (keys[a] == keys[b] && a < b)
}

/// `order` lists the positions of `keys` sorted by key, equal keys in
/// the order they come in.
pub open spec fn stable_order(keys: Seq<i32>, order: Seq<usize>) -> bool {
    &&& order.len() == keys.len()
    &&& forall|p: int| 0 <= p < order.len() ==> #[trigger] order[p] < keys.len()
    &&& forall|p: int, q: int|
        0 <= p < q < order.len() ==> key_before(keys, #[trigger] order[p] as int, #[trigger] order[q] as int)
}

/// The first place at or after `pos` in `order` whose key exceeds `k` (the
/// end when there is none).
pub open spec fn insert_place(keys: Seq<i32>, order: Seq<usize>, k: i32, pos: int) -> int
    decreases order.len() - pos,
{
    if pos >= order.len() || pos < 0 {
        order.len() as int
    } else if keys[order[pos] as int] > k {
        pos
    } else {
        insert_place(keys, order, k, pos + 1)
    }
}

/// The first `i` positions of `keys`, each inserted after the positions
/// with keys no larger than its own.
pub open spec fn insertion_order(keys: Seq<i32>, i: int) -> Seq<usize>
    decreases i,
{
    if i <= 0 {
        seq![]
    } else {
        let o = insertion_order(keys, i - 1);
        o.insert(insert_place(keys, o, keys[i - 1], 0), (i - 1) as usize)
    }
}

proof fn lemma_insert_place(keys: Seq<i32>, order: Seq<usize>, k: i32, pos: int, p: int)
    requires
        0 <= p <= pos <= order.len(),
        forall|j: int| p <= j < pos ==> keys[#[trigger] order[j] as int] <= k,
    ensures
        insert_place(keys, order, k, p) == insert_place(keys, order, k, pos),
    decreases pos - p,
{
    if p < pos {
        lemma_insert_place(keys, order, k, pos, p + 1);
    }
}

/// The positions of `keys` in stable ascending order of key.
pub fn order_by_keys(keys: &Vec<i32>) -> (order: Vec<usize>)
    ensures
        stable_order(keys@, order@),
        order@ == insertion_order(keys@, keys@.len() as int),
{
    let mut order: Vec<usize> = Vec::new();
    let n = keys.len();
    let mut i: usize = 0;
    while i < n
        invariant
            n == keys.len(),
            i <= n,
            order.len() == i,
            order@ == insertion_order(keys@, i as int),
            forall|p: int| 0 <= p < order.len() ==> #[trigger] order@[p] < i,
            forall|p: int, q: int|
                0 <= p < q < order.len() ==> key_before(keys@, #[trigger] order@[p] as int, #[trigger] order@[q] as int),
        decreases n - i,
    {
        let k = keys[i];
        let mut pos: usize = 0;
        while pos < order.len() && keys[order[pos]] <= k
            invariant
                pos <= order.len(),
                order.len() == i,
                i < n,
                n == keys.len(),
                forall|p: int| 0 <= p < order.len() ==> #[trigger] order@[p] < i,
                forall|p: int| 0 <= p < pos ==> keys@[#[trigger] order@[p] as int] <= k,
            decreases order.len() - pos,
        {
            pos += 1;
        }
        proof {
            assert forall|p: int| pos <= p < order.len() implies keys@[#[trigger] order@[p] as int] > k by {
                if p > pos {
                    assert(key_before(keys@, order@[pos as int] as int, order@[p] as int));
                }
            }
        }
        let ghost old_order = order@;
        proof {
            lemma_insert_place(keys@, old_order, k, pos as int, 0);
        }
        order.insert(pos, i);
        proof {
            assert forall|p: int| 0 <= p < order.len() implies #[trigger] order@[p] < i + 1 by {
                if p < pos {
                    assert(order@[p] == old_order[p]);
                } else if p > pos {
                    assert(order@[p] == old_order[p - 1]);
                }
            }
            assert forall|p: int, q: int|
                0 <= p < q < order.len() implies key_before(keys@, #[trigger] order@[p] as int, #[trigger] order@[q] as int) by {
                if p < pos {
                    assert(order@[p] == old_order[p]);
                    if q > pos {
                        assert(order@[q] == old_order[q - 1]);
                        assert(key_before(keys@, old_order[p] as int, old_order[q - 1] as int));
                    }
                } else if p == pos {
                    assert(order@[q] == old_order[q - 1]);
                } else {
                    assert(order@[p] == old_order[p - 1]);
                    assert(order@[q] == old_order[q - 1]);
                    assert(key_before(keys@, old_order[p - 1] as int, old_order[q - 1] as int));
                }
            }
        }
        i += 1;
    }
    order
}

/// `v / 10` rounded towards zero.
pub open spec fn div10(v: int) -> int {
    if v >= 0 {
        v / 10
    } else {
        -((-v) / 10)
    }
}

fn div10_exec(v: i32) -> (r: i32)
    ensures
        r == div10(v as int),
{
    v / 10
}


/// Ordering key of a move whose resulting position hashes to `h`: moves to
/// positions already valued at this depth first, best for the mover first,
/// then positions valued in the previous iteration, then the rest.
pub open spec fn order_key(curr: Seq<TTEntry>, prev: Seq<TTEntry>, h: u64, depth: int) -> int {
    let c = slot_of(curr, h);
    let p = slot_of(prev, h);
    if c.hash == h && c.depth_from_root <= depth + 1 {
        0 - div10(c.value as int)
    } else if p.hash == h {
        100_000 - div10(p.value as int)
    } else {
        200_000
    }
}

fn move_order_key(
    state: &State,
    mv: &Move,
    history: &Vec<u64>,
    tt_curr: &TranspositionTable,
    tt_prev: &TranspositionTable,
    depth: usize,
) -> (k: i32)
    requires
        board_ok(*state),
        move_facts(*state, *mv),
        tt_curr.wf(),
        tt_curr.bounded(),
        tt_prev.wf(),
        tt_prev.bounded(),
        depth < usize::MAX,
    ensures
        k == order_key(tt_curr.table@, tt_prev.table@, updated_hash(*state, *mv, 0), depth as int),
{
    let mut child = *state;
    child.apply_move(mv, history);
    let child_hash = child.hash();
    proof {
        lemma_tt_index(child_hash);
    }
    if let Some((v, d_entry)) = tt_curr.get(child_hash) {
        if d_entry as usize <= depth + 1 {
            return 0 - div10_exec(v);
        }
    }
    if let Some((v, _)) = tt_prev.get(child_hash) {
        return 100_000 - div10_exec(v);
    }
    200_000
}

/// The transposition table holds `key` from a depth no deeper than `depth`.
pub open spec fn tt_hit(tt: TranspositionTable, key: u64, depth: int) -> bool {
    tt.entry(key).hash == key && tt.entry(key).depth_from_root <= depth
}

pub open spec fn within(v: int) -> bool {
    -VALUE_BOUND <= v <= VALUE_BOUND
}

/// A best value one step nearer zero, so that a win found deeper counts a
/// little less than one found sooner.
pub open spec fn toward_zero(v: int) -> int {
    if v > 0 {
        v - 1
    } else if v < 0 {
        v + 1
    } else {
        0
    }
}

/// The order in which a node searches its moves: by the ordering keys of
/// the positions they lead to while more than two plies remain, else as
/// generated.
pub open spec fn node_order(
    s: State,
    moves: Seq<Move>,
    depth: int,
    max_depth: int,
    curr: Seq<TTEntry>,
    prev: Seq<TTEntry>,
) -> Seq<usize> {
    if depth + 2 < max_depth {
        insertion_order(
            Seq::new(moves.len(), |j: int| order_key(curr, prev, updated_hash(s, moves[j], 0), depth) as i32),
            moves.len() as int,
        )
    } else {
        Seq::new(moves.len(), |j: int| j as usize)
    }
}

/// Counters with one more node visited at depth `d`.
pub open spec fn count_node(stats: Seq<LevelStats>, d: int) -> Seq<LevelStats> {
    stats.update(d, LevelStats { nodes_visited: sat_add(stats[d].nodes_visited, 1), ..stats[d] })
}

/// Counters with one more table hit at depth `d`.
pub open spec fn count_hit(stats: Seq<LevelStats>, d: int) -> Seq<LevelStats> {
    stats.update(d, LevelStats { tt_hits: sat_add(stats[d].tt_hits, 1), ..stats[d] })
}

/// Counters with `k` moves left unsearched after a window cut-off, counted
/// at depth `d` when the counters reach that deep.
pub open spec fn count_beta_cutoffs(stats: Seq<LevelStats>, d: int, k: int) -> Seq<LevelStats> {
    if d < stats.len() {
        stats.update(d, LevelStats { beta_cutoffs: sat_add(stats[d].beta_cutoffs, k as u64), ..stats[d] })
    } else {
        stats
    }
}

/// Counters with `k` moves left unsearched after a satisfaction cut-off,
/// counted at depth `d` when the counters reach that deep.
pub open spec fn count_satisfaction_cutoffs(stats: Seq<LevelStats>, d: int, k: int) -> Seq<LevelStats> {
    if d < stats.len() {
        stats.update(
            d,
            LevelStats { satisfaction_cutoffs: sat_add(stats[d].satisfaction_cutoffs, k as u64), ..stats[d] },
        )
    } else {
        stats
    }
}

/// Counters after storing an entry for `key` found at `depth`: a slot that
/// keeps an entry of another key counts a collision.
pub open spec fn count_insert(slots: Seq<TTEntry>, stats: Seq<LevelStats>, key: u64, depth: u32) -> Seq<
    LevelStats,
> {
    if !slots_accept(slots, key, depth) && slot_of(slots, key).hash != key {
        stats.update(
            depth as int,
            LevelStats { tt_collisions: sat_add(stats[depth as int].tt_collisions, 1), ..stats[depth as int] },
        )
    } else {
        stats
    }
}

/// The stop flag is read on entering a node at the root or at a depth whose
/// node count is a multiple of 65536.
pub open spec fn reads_flag(depth: int, stats: Seq<LevelStats>) -> bool {
    depth == 0 || stats[depth].nodes_visited % 65536 == 0
}

/// The negamax search of a node: its value for the side to move, the best
/// move, the table slots and the counters afterwards. The node is counted;
/// a finished game, a position the table holds from no deeper than
/// `depth` (counted as a hit), or the last ply score directly; otherwise the
/// moves are searched in `node_order` and the result is stored in the
/// table.
pub open spec fn search_node(
    s: State,
    depth: int,
    max_depth: int,
    alpha: int,
    beta: int,
    history: Seq<u64>,
    curr: Seq<TTEntry>,
    prev: Seq<TTEntry>,
    w: Weights,
    searcher: bool,
    last: Option<i32>,
    stats: Seq<LevelStats>,
) -> (int, Option<Move>, Seq<TTEntry>, Seq<LevelStats>)
    decreases max_depth - depth, 1int, 0int,
{
    let st = count_node(stats, depth);
    if s.win {
        (-WIN_SCORE as int, None, curr, st)
    } else if s.draw {
        (if s.white_to_move == searcher {
            DRAW_SCORE as int
        } else {
            -DRAW_SCORE
        }, None, curr, st)
    } else if slot_of(curr, s.hash[0]).hash == s.hash[0] && slot_of(curr, s.hash[0]).depth_from_root <= depth {
        (slot_of(curr, s.hash[0]).value as int, None, curr, count_hit(st, depth))
    } else if depth >= max_depth {
        (evaluation(s, w), None, curr, st)
    } else {
        let moves = legal_moves(s);
        let r = search_moves(
            s,
            depth,
            max_depth,
            alpha,
            beta,
            history.push(s.hash[0]),
            curr,
            prev,
            w,
            searcher,
            last,
            moves,
            node_order(s, moves, depth, max_depth, curr, prev),
            0,
            ALPHA_START - 1,
            None,
            st,
        );
        let v = toward_zero(r.0);
        (v, r.1, slots_inserted(r.2, s.hash[0], v as i32, depth as u32), count_insert(r.2, r.3, s.hash[0], depth as u32))
    }
}

/// The moves of a node from the `i`-th in `order` on, with the best value
/// and move so far: each child is searched with the window negated; the
/// search stops when the window closes or, given the previous iteration's
/// value, when a move gains the satisfaction threshold over it, and the
/// moves left unsearched are counted one ply deeper.
pub open spec fn search_moves(
    s: State,
    depth: int,
    max_depth: int,
    alpha: int,
    beta: int,
    history: Seq<u64>,
    curr: Seq<TTEntry>,
    prev: Seq<TTEntry>,
    w: Weights,
    searcher: bool,
    last: Option<i32>,
    moves: Seq<Move>,
    order: Seq<usize>,
    i: int,
    best: int,
    best_move: Option<Move>,
    stats: Seq<LevelStats>,
) -> (int, Option<Move>, Seq<TTEntry>, Seq<LevelStats>)
    decreases max_depth - depth, 0int, order.len() - i,
{
    if depth >= max_depth || i < 0 || i >= order.len() {
        (best, best_move, curr, stats)
    } else {
        let mv = moves[order[i] as int];
        let child_last = match last {
            Some(v) => Some((-v) as i32),
            None => None,
        };
        let c = search_node(
            played(s, mv, history),
            depth + 1,
            max_depth,
            -beta,
            -alpha,
            history,
            curr,
            prev,
            w,
            searcher,
            child_last,
            stats,
        );
        let val = -c.0;
        let best2 = if val > best {
            val
        } else {
            best
        };
        let move2 = if val > best {
            Some(mv)
        } else {
            best_move
        };
        let alpha2 = if val > alpha {
            val
        } else {
            alpha
        };
        let left = order.len() - (i + 1);
        if alpha2 >= beta {
            (best2, move2, c.2, count_beta_cutoffs(c.3, depth + 1, left))
        } else if last is Some && val >= last->0 + w.satisfaction_threshold {
            (best2, move2, c.2, count_satisfaction_cutoffs(c.3, depth + 1, left))
        } else {
            search_moves(
                s,
                depth,
                max_depth,
                alpha2,
                beta,
                history,
                c.2,
                prev,
                w,
                searcher,
                last,
                moves,
                order,
                i + 1,
                best2,
                move2,
                c.3,
            )
        }
    }
}

/// Whether the search of a node, run without stopping, reads the stop flag
/// somewhere: on entering the node or in the search of its moves.
pub open spec fn node_reads_flag(
    s: State,
    depth: int,
    max_depth: int,
    alpha: int,
    beta: int,
    history: Seq<u64>,
    curr: Seq<TTEntry>,
    prev: Seq<TTEntry>,
    w: Weights,
    searcher: bool,
    last: Option<i32>,
    stats: Seq<LevelStats>,
) -> bool
    decreases max_depth - depth, 1int, 0int,
{
    if reads_flag(depth, stats) {
        true
    } else if s.win || s.draw || (slot_of(curr, s.hash[0]).hash == s.hash[0] && slot_of(curr, s.hash[0]).depth_from_root
        <= depth) || depth >= max_depth {
        false
    } else {
        let moves = legal_moves(s);
        moves_read_flag(
            s,
            depth,
            max_depth,
            alpha,
            beta,
            history.push(s.hash[0]),
            curr,
            prev,
            w,
            searcher,
            last,
            moves,
            node_order(s, moves, depth, max_depth, curr, prev),
            0,
            ALPHA_START - 1,
            None,
            count_node(stats, depth),
        )
    }
}

/// Whether the search of the moves from the `i`-th on reads the stop flag.
pub open spec fn moves_read_flag(
    s: State,
    depth: int,
    max_depth: int,
    alpha: int,
    beta: int,
    history: Seq<u64>,
    curr: Seq<TTEntry>,
    prev: Seq<TTEntry>,
    w: Weights,
    searcher: bool,
    last: Option<i32>,
    moves: Seq<Move>,
    order: Seq<usize>,
    i: int,
    best: int,
    best_move: Option<Move>,
    stats: Seq<LevelStats>,
) -> bool
    decreases max_depth - depth, 0int, order.len() - i,
{
    if depth >= max_depth || i < 0 || i >= order.len() {
        false
    } else {
        let mv = moves[order[i] as int];
        let child_last = match last {
            Some(v) => Some((-v) as i32),
            None => None,
        };
        let child = played(s, mv, history);
        if node_reads_flag(child, depth + 1, max_depth, -beta, -alpha, history, curr, prev, w, searcher, child_last, stats) {
            true
        } else {
            let c = search_node(child, depth + 1, max_depth, -beta, -alpha, history, curr, prev, w, searcher, child_last, stats);
            let val = -c.0;
            let best2 = if val > best {
                val
            } else {
                best
            };
            let move2 = if val > best {
                Some(mv)
            } else {
                best_move
            };
            let alpha2 = if val > alpha {
                val
            } else {
                alpha
            };
            if alpha2 >= beta || (last is Some && val >= last->0 + w.satisfaction_threshold) {
                false
            } else {
                moves_read_flag(
                    s,
                    depth,
                    max_depth,
                    alpha2,
                    beta,
                    history,
                    c.2,
                    prev,
                    w,
                    searcher,
                    last,
                    moves,
                    order,
                    i + 1,
                    best2,
                    move2,
                    c.3,
                )
            }
        }
    }
}

/// Negamax value of `state` searched to `max_depth` plies from the root
/// with the window (alpha, beta), as `search_node` describes it, and the
/// table left after the search. `None` when the search was stopped, which
/// happens only where the stop flag is read: at the root, and at a node
/// whose depth has counted a multiple of 65536 nodes. A node stopped at its
/// own check leaves history, table and counters as they were; a node
/// stopped below has counted itself and leaves its hash pushed on the
/// history. Counters of shallower depths are never touched.
#[verifier::rlimit(100)]
pub fn alphabeta(
    state: State,
    depth: usize,
    max_depth: usize,
    alpha: i32,
    beta: i32,
    history: &mut Vec<u64>,
    tt_curr: &mut TranspositionTable,
    tt_prev: &TranspositionTable,
    weights: &Weights,
    is_white_searcher: bool,
    stats: &mut Vec<LevelStats>,
    last_value: Option<i32>,
    abort: &AtomicBool,
) -> (r: Option<(i32, Option<Move>)>)
    requires
        board_ok(state),
        depth <= max_depth,
        max_depth < old(stats).len(),
        max_depth <= u32::MAX,
        old(tt_curr).wf(),
        old(tt_curr).bounded(),
        tt_prev.wf(),
        tt_prev.bounded(),
        weights.bounded(),
        within(alpha as int),
        within(beta as int),
        last_value matches Some(v) ==> within(v as int),
    ensures
        final(tt_curr).wf(),
        final(tt_curr).bounded(),
        final(stats).len() == old(stats).len(),
        r is None ==> node_reads_flag(
            state,
            depth as int,
            max_depth as int,
            alpha as int,
            beta as int,
            old(history)@,
            old(tt_curr).table@,
            tt_prev.table@,
            *weights,
            is_white_searcher,
            last_value,
            old(stats)@,
        ),
        r is Some ==> final(history)@ == old(history)@,
        forall|d: int| 0 <= d < depth ==> #[trigger] final(stats)@[d] == old(stats)@[d],
        r is None ==> (final(history)@ == old(history)@ && final(stats)@ == old(stats)@ && final(tt_curr).table@
            == old(tt_curr).table@ && reads_flag(depth as int, old(stats)@)) || (!state.win && !state.draw && depth
            < max_depth && final(stats)@[depth as int] == count_node(old(stats)@, depth as int)[depth as int]
            && final(history)@.len() > old(history)@.len() && final(history)@.subrange(0, old(history)@.len() + 1int)
            == old(history)@.push(state.hash[0])),
        r matches Some((v, m)) ==> within(v as int),
        r matches Some((v, Some(m))) ==> legal_moves(state).contains(m),
        r matches Some((v, m)) ==> (state.win ==> v == -WIN_SCORE as int && m is None),
        r matches Some((v, m)) ==> (!state.win && state.draw ==> m is None && v == (if state.white_to_move
            == is_white_searcher {
            DRAW_SCORE as int
        } else {
            -DRAW_SCORE
        })),
        r matches Some((v, m)) ==> (!state.win && !state.draw && tt_hit(*old(tt_curr), state.hash[0], depth as int)
            ==> m is None && v == old(tt_curr).entry(state.hash[0]).value),
        r matches Some((v, m)) ==> (!state.win && !state.draw && !tt_hit(*old(tt_curr), state.hash[0], depth as int)
            && depth >= max_depth ==> m is None && v == evaluation(state, *weights)),
        r matches Some((v, m)) ==> (!state.win && !state.draw && !tt_hit(*old(tt_curr), state.hash[0], depth as int)
            && depth < max_depth && legal_moves(state).len() == 0 ==> m is None && v == ALPHA_START),
        r matches Some((v, m)) ==> search_node(
            state,
            depth as int,
            max_depth as int,
            alpha as int,
            beta as int,
            old(history)@,
            old(tt_curr).table@,
            tt_prev.table@,
            *weights,
            is_white_searcher,
            last_value,
            old(stats)@,
        ) == (v as int, m, final(tt_curr).table@, final(stats)@),
        r matches Some((v, m)) ==> (!state.win && !state.draw && !tt_hit(*old(tt_curr), state.hash[0], depth as int)
            && depth < max_depth ==> final(tt_curr).lookup(state.hash[0]) == Some((v, depth as u32))
            || (final(tt_curr).entry(state.hash[0]).hash != 0
            && final(tt_curr).entry(state.hash[0]).depth_from_root <= depth)),
    decreases max_depth - depth,
{
    if (depth == 0 || stats[depth].nodes_visited % 65536 == 0) && should_abort(abort) {
        return None;
    }
    let mut st = stats[depth];
    st.nodes_visited = add_sat(st.nodes_visited, 1);
    stats.set(depth, st);
    assert(stats@ == count_node(old(stats)@, depth as int));

    if state.win || state.draw {
        if state.win {
            return Some((-WIN_SCORE, None));
        }
        let score = if state.white_to_move == is_white_searcher { DRAW_SCORE } else { -DRAW_SCORE };
        return Some((score, None));
    }

    let key = state.hash();
    proof {
        lemma_tt_index(key);
    }
    if let Some((v, d_entry)) = tt_curr.get(key) {
        if d_entry as usize <= depth {
            let mut st = stats[depth];
            st.tt_hits = add_sat(st.tt_hits, 1);
            stats.set(depth, st);
            return Some((v, None));
        }
    }

    if depth >= max_depth {
        proof {
            lemma_eval_bounded(state, *weights);
        }
        let eval = evaluate(&state, weights);
        return Some((eval, None));
    }

    let mut moves: Vec<Move> = Vec::with_capacity(128);
    state.generate_moves(&mut moves);
    assert(moves@ =~= legal_moves(state));
    let n = moves.len();

    let mut order: Vec<usize> = Vec::new();
    if depth < max_depth.saturating_sub(2) {
        let mut keys: Vec<i32> = Vec::new();
        let mut j: usize = 0;
        while j < n
            invariant
                j <= n,
                n == moves.len(),
                moves@ == legal_moves(state),
                board_ok(state),
                keys.len() == j,
                forall|p: int| 0 <= p < j ==> #[trigger] keys@[p] as int == order_key(tt_curr.table@, tt_prev.table@,
                    updated_hash(state, moves@[p], 0), depth as int),
                tt_curr.wf(),
                tt_curr.bounded(),
                tt_prev.wf(),
                tt_prev.bounded(),
                depth < usize::MAX,
            decreases n - j,
        {
            proof {
                lemma_legal_move_facts(state, moves@[j as int]);
            }
            let k = move_order_key(&state, &moves[j], history, tt_curr, tt_prev, depth);
            keys.push(k);
            j += 1;
        }
        order = order_by_keys(&keys);
        assert(keys@ =~= Seq::new(n as nat, |p: int| order_key(tt_curr.table@, tt_prev.table@, updated_hash(state,
            moves@[p], 0), depth as int) as i32));
    } else {
        let mut j: usize = 0;
        while j < n
            invariant
                j <= n,
                order.len() == j,
                forall|p: int| 0 <= p < j ==> #[trigger] order@[p] == p,
            decreases n - j,
        {
            order.push(j);
            j += 1;
        }
        assert(order@ =~= Seq::new(n as nat, |p: int| p as usize));
    }
    assert(order.len() == n);
    assert(forall|p: int| 0 <= p < n ==> #[trigger] order@[p] < n);
    assert(order@ == node_order(state, moves@, depth as int, max_depth as int, tt_curr.table@, tt_prev.table@));

    let mut window_alpha = alpha;
    let mut best_value: i32 = ALPHA_START - 1;
    let mut best_move: Option<Move> = None;
    let ghost start_history = history@;
    history.push(key);
    let ghost full = search_moves(
        state,
        depth as int,
        max_depth as int,
        window_alpha as int,
        beta as int,
        history@,
        tt_curr.table@,
        tt_prev.table@,
        *weights,
        is_white_searcher,
        last_value,
        moves@,
        order@,
        0,
        ALPHA_START - 1,
        None,
        stats@,
    );
    let ghost full_reads = moves_read_flag(
        state,
        depth as int,
        max_depth as int,
        window_alpha as int,
        beta as int,
        history@,
        tt_curr.table@,
        tt_prev.table@,
        *weights,
        is_white_searcher,
        last_value,
        moves@,
        order@,
        0,
        ALPHA_START - 1,
        None,
        stats@,
    );

    assert(full_reads ==> node_reads_flag(
        state,
        depth as int,
        max_depth as int,
        alpha as int,
        beta as int,
        old(history)@,
        old(tt_curr).table@,
        tt_prev.table@,
        *weights,
        is_white_searcher,
        last_value,
        old(stats)@,
    ));
    let mut i: usize = 0;
    while i < n
        invariant_except_break
            search_moves(
                state,
                depth as int,
                max_depth as int,
                window_alpha as int,
                beta as int,
                history@,
                tt_curr.table@,
                tt_prev.table@,
                *weights,
                is_white_searcher,
                last_value,
                moves@,
                order@,
                i as int,
                best_value as int,
                best_move,
                stats@,
            ) == full,
            moves_read_flag(
                state,
                depth as int,
                max_depth as int,
                window_alpha as int,
                beta as int,
                history@,
                tt_curr.table@,
                tt_prev.table@,
                *weights,
                is_white_searcher,
                last_value,
                moves@,
                order@,
                i as int,
                best_value as int,
                best_move,
                stats@,
            ) ==> full_reads,
        invariant
            full_reads ==> node_reads_flag(
                state,
                depth as int,
                max_depth as int,
                alpha as int,
                beta as int,
                old(history)@,
                old(tt_curr).table@,
                tt_prev.table@,
                *weights,
                is_white_searcher,
                last_value,
                old(stats)@,
            ),
            i <= n,
            n == moves.len(),
            order.len() == n,
            forall|p: int| 0 <= p < n ==> #[trigger] order@[p] < n,
            moves@ == legal_moves(state),
            board_ok(state),
            history@ == start_history.push(key),
            start_history == old(history)@,
            !state.win,
            !state.draw,
            key == state.hash[0],
            forall|d: int| 0 <= d <= depth ==> #[trigger] stats@[d] == count_node(old(stats)@, depth as int)[d],
            tt_curr.wf(),
            tt_curr.bounded(),
            tt_prev.wf(),
            tt_prev.bounded(),
            weights.bounded(),
            stats.len() == old(stats).len(),
            depth < max_depth,
            max_depth < stats.len(),
            max_depth <= u32::MAX,
            within(window_alpha as int),
            within(beta as int),
            within(best_value as int),
            last_value matches Some(v) ==> within(v as int),
            best_move matches Some(m) ==> legal_moves(state).contains(m),
            n == 0 ==> best_value == ALPHA_START - 1 && best_move is None,
        ensures
            full == (best_value as int, best_move, tt_curr.table@, stats@),
        decreases n - i,
    {
        let ghost alpha_before = window_alpha;
        let ghost best_before = best_value;
        let ghost move_before = best_move;
        let ghost table_before = tt_curr.table@;
        let ghost stats_before = stats@;
        let ghost history_before = history@;
        let idx = order[i];
        let mv = moves[idx];
        assert(legal_moves(state).contains(mv)) by {
            assert(legal_moves(state)[idx as int] == mv);
        }
        proof {
            lemma_legal_move_facts(state, mv);
        }
        let mut child = state;
        child.apply_move(&mv, history);
        proof {
            lemma_played(state, mv, history@, child);
            lemma_move_keeps_board(state.white, mv.fr * 9 + mv.fc, mv.tr * 9 + mv.tc, mv.captured);
            lemma_move_keeps_board(state.black, mv.fr * 9 + mv.fc, mv.tr * 9 + mv.tc, mv.captured);
            lemma_move_keeps_board(state.king, mv.fr * 9 + mv.fc, mv.tr * 9 + mv.tc, mv.captured);
        }
        let child_last = match last_value {
            Some(v) => Some(-v),
            None => None,
        };
        let res = alphabeta(
            child,
            depth + 1,
            max_depth,
            -beta,
            -window_alpha,
            history,
            tt_curr,
            tt_prev,
            weights,
            is_white_searcher,
            stats,
            child_last,
            abort,
        );
        let (child_val, _) = match res {
            Some(x) => x,
            None => {
                proof {
                    assert(moves_read_flag(
                        state,
                        depth as int,
                        max_depth as int,
                        alpha_before as int,
                        beta as int,
                        history_before,
                        table_before,
                        tt_prev.table@,
                        *weights,
                        is_white_searcher,
                        last_value,
                        moves@,
                        order@,
                        i as int,
                        best_before as int,
                        move_before,
                        stats_before,
                    ));
                    assert(full_reads);
                    let cl: int = history_before.len() as int;
                    assert(history@.len() >= cl);
                    assert forall|j: int| 0 <= j < cl implies history@[j] == history_before[j] by {
                        if history@ != history_before {
                            assert(history@[j] == history@.subrange(0, cl + 1int)[j]);
                        }
                    }
                    assert(history@.subrange(0, start_history.len() + 1int) =~= start_history.push(key));
                    assert(stats_before[depth as int] == count_node(old(stats)@, depth as int)[depth as int]);
                    assert(stats@[depth as int] == stats_before[depth as int]);
                    assert(history@.len() > start_history.len());
                }
                return None;
            },
        };
        let val = -child_val;

        if val > best_value {
            best_value = val;
            best_move = Some(mv);
        }

        if val > window_alpha {
            window_alpha = val;
        }

        if window_alpha >= beta {
            let remaining = (n - (i + 1)) as u64;
            if depth + 1 < stats.len() {
                let mut st = stats[depth + 1];
                st.beta_cutoffs = add_sat(st.beta_cutoffs, remaining);
                stats.set(depth + 1, st);
            }
            break;
        }

        if let Some(lv) = last_value {
            let remaining = (n - (i + 1)) as u64;
            if val >= lv + weights.satisfaction_threshold {
                if depth + 1 < stats.len() {
                    let mut st = stats[depth + 1];
                    st.satisfaction_cutoffs = add_sat(st.satisfaction_cutoffs, remaining);
                    stats.set(depth + 1, st);
                }
                break;
            }
        }
        i += 1;
    }

    history.pop();
    assert(history@ =~= start_history);

    let final_score = if best_value > 0 {
        best_value - 1
    } else if best_value < 0 {
        best_value + 1
    } else {
        0
    };
    let ghost before_insert = *tt_curr;
    let ghost stats_mid = stats@;
    assert(full == (best_value as int, best_move, before_insert.table@, stats_mid));
    tt_curr.insert(key, final_score, depth as u32, stats);
    proof {
        lemma_tt_index(key);
        if !before_insert.accepts(key, depth as u32) && before_insert.entry(key).hash != key {
            assert(stats@ =~= count_insert(before_insert.table@, stats_mid, key, depth as u32));
        } else {
            assert(stats@ =~= count_insert(before_insert.table@, stats_mid, key, depth as u32));
        }
        lemma_tt_read_after_write(before_insert, *tt_curr, key, final_score, depth as u32, key);
        assert forall|d: int| 0 <= d < depth implies #[trigger] stats@[d] == old(stats)@[d] by {
            assert(stats_mid[d] == count_node(old(stats)@, depth as int)[d]);
            assert(count_insert(before_insert.table@, stats_mid, key, depth as u32)[d] == stats_mid[d]);
        }
        assert forall|j: int| 0 <= j < tt_curr.table.len() implies within(#[trigger] tt_curr.table@[j].value as int) by {
            assert(within(before_insert.table@[j].value as int));
        }
    }
    Some((final_score, best_move))
}


fn default_stats(n: usize) -> (v: Vec<LevelStats>)
    ensures
        v.len() == n,
        forall|i: int| 0 <= i < n ==> #[trigger] v@[i] == zero_stats(),
{
    let mut v: Vec<LevelStats> = Vec::new();
    let mut i: usize = 0;
    while i < n
        invariant
            i <= n,
            v.len() == i,
            forall|j: int| 0 <= j < i ==> #[trigger] v@[j] == zero_stats(),
        decreases n - i,
    {
        v.push(LevelStats::default());
        i += 1;
    }
    v
}

/// Slots of a new table.
pub open spec fn empty_slots() -> Seq<TTEntry> {
    Seq::new(TT_SIZE as nat, |i: int| empty_entry())
}

/// Slots after `clear`.
pub open spec fn cleared(slots: Seq<TTEntry>) -> Seq<TTEntry> {
    Seq::new(slots.len(), |i: int| TTEntry { hash: 0, depth_from_root: 999, ..slots[i] })
}

/// Counters at zero for depths 0 to `d`.
pub open spec fn zero_counters(d: int) -> Seq<LevelStats> {
    Seq::new((d + 1) as nat, |i: int| zero_stats())
}

/// Iterative deepening once depth `d` is done (before the first depth for
/// `d <= 2`): the table that depth filled, the table before it, the value
/// handed to the next depth, and that depth's value, best move and
/// counters. Each depth searches from the root with the full window, a
/// cleared table, the previous depth's table for move ordering and fresh
/// counters.
pub open spec fn deepening(s: State, history: Seq<u64>, w: Weights, d: int) -> (
    Seq<TTEntry>,
    Seq<TTEntry>,
    Option<i32>,
    int,
    Option<Move>,
    Seq<LevelStats>,
)
    decreases d,
{
    if d <= 2 {
        (empty_slots(), empty_slots(), None, 0, None, zero_counters(20))
    } else {
        let before = deepening(s, history, w, d - 1);
        let r = search_node(
            s,
            0,
            d,
            ALPHA_START as int,
            BETA_START as int,
            history,
            cleared(before.1),
            before.0,
            w,
            s.white_to_move,
            before.2,
            zero_counters(d),
        );
        (r.2, before.0, Some(r.0 as i32), r.0, r.1, r.3)
    }
}

/// A depth whose value is no win or loss lets the deepening go on.
pub open spec fn goes_on(v: int) -> bool {
    -(WIN_SCORE - 100) < v < WIN_SCORE - 100
}

/// The result of the search is that of depth `d`, and every depth before it
/// went on.
pub open spec fn result_of_depth(s: State, history: Seq<u64>, w: Weights, res: SearchResult, d: int) -> bool {
    &&& 3 <= d <= 20
    &&& res.stats.len() == d + 1
    &&& res.stats@ == deepening(s, history, w, d).5
    &&& res.value == deepening(s, history, w, d).3
    &&& res.best_move == deepening(s, history, w, d).4
    &&& forall|e: int| 3 <= e < d ==> goes_on(#[trigger] deepening(s, history, w, e).3)
}

/// Iterative deepening from depth 3 to 20 until `abort` is raised or a win
/// or loss is found; returns the result of the last completed depth (value
/// 0, no move and zero counters when none completed). Each depth starts from
/// a fresh copy of `history` and orders moves with the table of the previous
/// depth.
#[verifier::rlimit(40)]
pub fn search(state: &State, history: &Vec<u64>, weights: &Weights, abort: &AtomicBool) -> (res: SearchResult)
    requires
        board_ok(*state),
        weights.bounded(),
    ensures
        within(res.value as int),
        res.best_move matches Some(m) ==> legal_moves(*state).contains(m),
        4 <= res.stats.len() <= 21,
        state.win ==> res.best_move is None && (res.value == 0 || res.value == -WIN_SCORE),
        !state.win && state.draw ==> res.best_move is None && (res.value == 0 || res.value == DRAW_SCORE),
        (res.stats.len() == 21 && res.value == 0 && res.best_move is None && forall|d: int|
            0 <= d < 21 ==> #[trigger] res.stats@[d] == zero_stats()) || exists|d: int|
            result_of_depth(*state, history@, *weights, res, d),
{
    let mut tt_prev = TranspositionTable::new();
    let mut tt_curr = TranspositionTable::new();
    assert(tt_prev.table@ =~= empty_slots());
    assert(tt_curr.table@ =~= empty_slots());
    let mut last_valid_result = SearchResult { value: 0, best_move: None, stats: default_stats(21) };
    let mut prev_score: Option<i32> = None;
    let mut current_max_depth: usize = 3;
    while current_max_depth <= 20
        invariant_except_break
            tt_prev.table@ == deepening(*state, history@, *weights, current_max_depth - 1).0,
            tt_curr.table@ == deepening(*state, history@, *weights, current_max_depth - 1).1,
            prev_score == deepening(*state, history@, *weights, current_max_depth - 1).2,
            current_max_depth == 3 ==> last_valid_result.stats.len() == 21 && last_valid_result.value == 0
                && last_valid_result.best_move is None && forall|d: int|
                0 <= d < 21 ==> #[trigger] last_valid_result.stats@[d] == zero_stats(),
            current_max_depth > 3 ==> result_of_depth(*state, history@, *weights, last_valid_result, current_max_depth - 1),
            forall|e: int| 3 <= e < current_max_depth ==> goes_on(#[trigger] deepening(*state, history@, *weights, e).3),
        invariant
            3 <= current_max_depth <= 21,
            board_ok(*state),
            weights.bounded(),
            tt_prev.wf(),
            tt_prev.bounded(),
            tt_curr.wf(),
            tt_curr.bounded(),
            within(last_valid_result.value as int),
            last_valid_result.best_move matches Some(m) ==> legal_moves(*state).contains(m),
            4 <= last_valid_result.stats.len() <= 21,
            prev_score matches Some(v) ==> within(v as int),
            state.win ==> last_valid_result.best_move is None && (last_valid_result.value == 0
                || last_valid_result.value == -WIN_SCORE),
            !state.win && state.draw ==> last_valid_result.best_move is None && (last_valid_result.value == 0
                || last_valid_result.value == DRAW_SCORE),
        ensures
            (last_valid_result.stats.len() == 21 && last_valid_result.value == 0 && last_valid_result.best_move is None
                && forall|d: int| 0 <= d < 21 ==> #[trigger] last_valid_result.stats@[d] == zero_stats())
                || exists|d: int| result_of_depth(*state, history@, *weights, last_valid_result, d),
        decreases 21 - current_max_depth,
    {
        if should_abort(abort) {
            break;
        }
        let ghost before_clear = tt_curr;
        tt_curr.clear();
        assert(tt_curr.table@ =~= cleared(before_clear.table@));
        proof {
            assert forall|j: int| 0 <= j < tt_curr.table.len() implies within(#[trigger] tt_curr.table@[j].value as int) by {
                assert(within(before_clear.table@[j].value as int));
            }
        }
        proof {
            lemma_tt_index(state.hash[0]);
            assert(tt_curr.table@[tt_index(state.hash[0])].depth_from_root == 999);
        }
        let mut stats = default_stats(current_max_depth + 1);
        assert(stats@ =~= zero_counters(current_max_depth as int));
        let mut local_history = history.clone();
        assert(local_history@ =~= history@);
        let ghost done = deepening(*state, history@, *weights, current_max_depth as int);
        let result = alphabeta(
            *state,
            0,
            current_max_depth,
            ALPHA_START,
            BETA_START,
            &mut local_history,
            &mut tt_curr,
            &tt_prev,
            weights,
            state.white_to_move,
            &mut stats,
            prev_score,
            abort,
        );
        match result {
            Some((value, mv)) => {
                last_valid_result = SearchResult { value, best_move: mv, stats };
                prev_score = Some(value);
                std::mem::swap(&mut tt_prev, &mut tt_curr);
                assert(result_of_depth(*state, history@, *weights, last_valid_result, current_max_depth as int));
                if value >= WIN_SCORE - 100 || value <= -(WIN_SCORE - 100) {
                    break;
                }
            },
            None => {
                break;
            },
        }
        current_max_depth += 1;
    }
    last_valid_result
}

/// Every evaluation with these weights lies within the search window.
pub open spec fn evals_within_window(w: Weights) -> bool {
    forall|x: State| -(BETA_START as int) <= #[trigger] evaluation(x, w) <= BETA_START as int
}

/// A full-size table whose entries found within `max_depth` plies hold
/// values within the search window.
pub open spec fn table_within(t: Seq<TTEntry>, max_depth: int) -> bool {
    &&& t.len() == TT_SIZE
    &&& forall|i: int|
        0 <= i < t.len() && #[trigger] t[i].depth_from_root <= max_depth ==> -(BETA_START as int) <= t[i].value
            <= BETA_START as int
}

/// Search values stay within the window, and so do the entries the search
/// stores.
proof fn lemma_node_within(
    s: State,
    depth: int,
    max_depth: int,
    alpha: int,
    beta: int,
    history: Seq<u64>,
    curr: Seq<TTEntry>,
    prev: Seq<TTEntry>,
    w: Weights,
    searcher: bool,
    last: Option<i32>,
    stats: Seq<LevelStats>,
)
    requires
        table_within(curr, max_depth),
        evals_within_window(w),
        0 <= depth <= max_depth,
        max_depth <= 20,
    ensures
        -(BETA_START as int) <= search_node(s, depth, max_depth, alpha, beta, history, curr, prev, w, searcher, last, stats).0
            <= BETA_START as int,
        table_within(search_node(s, depth, max_depth, alpha, beta, history, curr, prev, w, searcher, last, stats).2, max_depth),
    decreases max_depth - depth, 1int, 0int,
{
    lemma_tt_index(s.hash[0]);
    let st = count_node(stats, depth);
    if s.win || s.draw {
    } else if slot_of(curr, s.hash[0]).hash == s.hash[0] && slot_of(curr, s.hash[0]).depth_from_root <= depth {
        assert(curr[tt_index(s.hash[0])].depth_from_root <= max_depth);
    } else if depth >= max_depth {
        assert(-(BETA_START as int) <= evaluation(s, w) <= BETA_START as int);
    } else {
        let moves = legal_moves(s);
        let order = node_order(s, moves, depth, max_depth, curr, prev);
        let h = history.push(s.hash[0]);
        lemma_moves_within(s, depth, max_depth, alpha, beta, h, curr, prev, w, searcher, last, moves, order, 0,
            ALPHA_START - 1, None, st);
        let r = search_moves(s, depth, max_depth, alpha, beta, h, curr, prev, w, searcher, last, moves, order, 0,
            ALPHA_START - 1, None, st);
        let v = toward_zero(r.0);
        assert((v as i32) as int == v);
        assert((depth as u32) as int == depth);
        let t = slots_inserted(r.2, s.hash[0], v as i32, depth as u32);
        assert forall|i: int| 0 <= i < t.len() && #[trigger] t[i].depth_from_root <= max_depth implies -(BETA_START as int)
            <= t[i].value <= BETA_START as int by {
            if i != tt_index(s.hash[0]) || !slots_accept(r.2, s.hash[0], depth as u32) {
                assert(t[i] == r.2[i]);
            }
        }
    }
}

proof fn lemma_moves_within(
    s: State,
    depth: int,
    max_depth: int,
    alpha: int,
    beta: int,
    history: Seq<u64>,
    curr: Seq<TTEntry>,
    prev: Seq<TTEntry>,
    w: Weights,
    searcher: bool,
    last: Option<i32>,
    moves: Seq<Move>,
    order: Seq<usize>,
    i: int,
    best: int,
    best_move: Option<Move>,
    stats: Seq<LevelStats>,
)
    requires
        table_within(curr, max_depth),
        evals_within_window(w),
        0 <= depth <= max_depth,
        max_depth <= 20,
        -(BETA_START as int) - 1 <= best <= BETA_START as int,
    ensures
        -(BETA_START as int) - 1 <= search_moves(s, depth, max_depth, alpha, beta, history, curr, prev, w, searcher, last,
            moves, order, i, best, best_move, stats).0 <= BETA_START as int,
        table_within(search_moves(s, depth, max_depth, alpha, beta, history, curr, prev, w, searcher, last, moves, order,
            i, best, best_move, stats).2, max_depth),
    decreases max_depth - depth, 0int, order.len() - i,
{
    if depth >= max_depth || i < 0 || i >= order.len() {
    } else {
        let mv = moves[order[i] as int];
        let child_last = match last {
            Some(v) => Some((-v) as i32),
            None => None,
        };
        lemma_node_within(played(s, mv, history), depth + 1, max_depth, -beta, -alpha, history, curr, prev, w, searcher,
            child_last, stats);
        let c = search_node(played(s, mv, history), depth + 1, max_depth, -beta, -alpha, history, curr, prev, w,
            searcher, child_last, stats);
        let val = -c.0;
        let best2 = if val > best { val } else { best };
        let move2 = if val > best { Some(mv) } else { best_move };
        let alpha2 = if val > alpha { val } else { alpha };
        lemma_moves_within(s, depth, max_depth, alpha2, beta, history, c.2, prev, w, searcher, last, moves, order, i + 1,
            best2, move2, c.3);
    }
}

/// Once the node has a best move, it keeps one.
proof fn lemma_moves_keep_move(
    s: State,
    depth: int,
    max_depth: int,
    alpha: int,
    beta: int,
    history: Seq<u64>,
    curr: Seq<TTEntry>,
    prev: Seq<TTEntry>,
    w: Weights,
    searcher: bool,
    last: Option<i32>,
    moves: Seq<Move>,
    order: Seq<usize>,
    i: int,
    best: int,
    best_move: Option<Move>,
    stats: Seq<LevelStats>,
)
    requires
        best_move is Some,
    ensures
        search_moves(s, depth, max_depth, alpha, beta, history, curr, prev, w, searcher, last, moves, order, i, best,
            best_move, stats).1 is Some,
    decreases order.len() - i,
{
    if depth >= max_depth || i < 0 || i >= order.len() {
    } else {
        let mv = moves[order[i] as int];
        let child_last = match last {
            Some(v) => Some((-v) as i32),
            None => None,
        };
        let c = search_node(played(s, mv, history), depth + 1, max_depth, -beta, -alpha, history, curr, prev, w,
            searcher, child_last, stats);
        let val = -c.0;
        let best2 = if val > best { val } else { best };
        let move2 = if val > best { Some(mv) } else { best_move };
        let alpha2 = if val > alpha { val } else { alpha };
        lemma_moves_keep_move(s, depth, max_depth, alpha2, beta, history, c.2, prev, w, searcher, last, moves, order,
            i + 1, best2, move2, c.3);
    }
}

/// The best move a node names is the one it started with or one of its moves.
proof fn lemma_moves_move_from(
    s: State,
    depth: int,
    max_depth: int,
    alpha: int,
    beta: int,
    history: Seq<u64>,
    curr: Seq<TTEntry>,
    prev: Seq<TTEntry>,
    w: Weights,
    searcher: bool,
    last: Option<i32>,
    moves: Seq<Move>,
    order: Seq<usize>,
    i: int,
    best: int,
    best_move: Option<Move>,
    stats: Seq<LevelStats>,
)
    requires
        forall|p: int| 0 <= p < order.len() ==> #[trigger] order[p] < moves.len(),
    ensures
        search_moves(s, depth, max_depth, alpha, beta, history, curr, prev, w, searcher, last, moves, order, i, best,
            best_move, stats).1 matches Some(m) ==> best_move == Some(m) || moves.contains(m),
    decreases order.len() - i,
{
    if depth >= max_depth || i < 0 || i >= order.len() {
    } else {
        let mv = moves[order[i] as int];
        assert(moves.contains(mv));
        let child_last = match last {
            Some(v) => Some((-v) as i32),
            None => None,
        };
        let c = search_node(played(s, mv, history), depth + 1, max_depth, -beta, -alpha, history, curr, prev, w,
            searcher, child_last, stats);
        let val = -c.0;
        let best2 = if val > best { val } else { best };
        let move2 = if val > best { Some(mv) } else { best_move };
        let alpha2 = if val > alpha { val } else { alpha };
        lemma_moves_move_from(s, depth, max_depth, alpha2, beta, history, c.2, prev, w, searcher, last, moves, order,
            i + 1, best2, move2, c.3);
    }
}

/// A node with a move to search names a best move: the first child's value
/// lies within the window, above the starting best value.
proof fn lemma_moves_find_move(
    s: State,
    depth: int,
    max_depth: int,
    alpha: int,
    beta: int,
    history: Seq<u64>,
    curr: Seq<TTEntry>,
    prev: Seq<TTEntry>,
    w: Weights,
    searcher: bool,
    last: Option<i32>,
    moves: Seq<Move>,
    order: Seq<usize>,
    stats: Seq<LevelStats>,
)
    requires
        table_within(curr, max_depth),
        evals_within_window(w),
        0 <= depth < max_depth,
        max_depth <= 20,
        order.len() > 0,
    ensures
        search_moves(s, depth, max_depth, alpha, beta, history, curr, prev, w, searcher, last, moves, order, 0,
            ALPHA_START - 1, None, stats).1 is Some,
{
    let mv = moves[order[0] as int];
    let child_last = match last {
        Some(v) => Some((-v) as i32),
        None => None,
    };
    lemma_node_within(played(s, mv, history), depth + 1, max_depth, -beta, -alpha, history, curr, prev, w, searcher,
        child_last, stats);
    let c = search_node(played(s, mv, history), depth + 1, max_depth, -beta, -alpha, history, curr, prev, w, searcher,
        child_last, stats);
    let val = -c.0;
    assert(val > ALPHA_START - 1);
    let alpha2 = if val > alpha { val } else { alpha };
    lemma_moves_keep_move(s, depth, max_depth, alpha2, beta, history, c.2, prev, w, searcher, last, moves, order, 1, val,
        Some(mv), c.3);
}

proof fn lemma_insert_place_range(keys: Seq<i32>, order: Seq<usize>, k: i32, pos: int)
    requires
        0 <= pos <= order.len(),
    ensures
        pos <= insert_place(keys, order, k, pos) <= order.len(),
    decreases order.len() - pos,
{
    if pos < order.len() && keys[order[pos] as int] <= k {
        lemma_insert_place_range(keys, order, k, pos + 1);
    }
}

/// Ordering `i` moves by key lists each of them in a place of its own.
proof fn lemma_insertion_order_shape(keys: Seq<i32>, i: int)
    requires
        0 <= i,
    ensures
        insertion_order(keys, i).len() == i,
        forall|p: int| 0 <= p < i ==> #[trigger] insertion_order(keys, i)[p] < i,
    decreases i,
{
    if i > 0 {
        lemma_insertion_order_shape(keys, i - 1);
        let o = insertion_order(keys, i - 1);
        lemma_insert_place_range(keys, o, keys[i - 1], 0);
        let q = insert_place(keys, o, keys[i - 1], 0);
        let n = o.insert(q, (i - 1) as usize);
        assert forall|p: int| 0 <= p < i implies #[trigger] n[p] < i by {
            if p < q {
                assert(n[p] == o[p]);
            } else if p > q {
                assert(n[p] == o[p - 1]);
            }
        }
    }
}

/// The tables iterative deepening hands from depth to depth have every slot.
proof fn lemma_deepening_tables(s: State, history: Seq<u64>, w: Weights, d: int)
    requires
        evals_within_window(w),
        d <= 20,
    ensures
        deepening(s, history, w, d).0.len() == TT_SIZE,
        deepening(s, history, w, d).1.len() == TT_SIZE,
    decreases d,
{
    if d > 2 {
        lemma_deepening_tables(s, history, w, d - 1);
        let before = deepening(s, history, w, d - 1);
        let t = cleared(before.1);
        assert(table_within(t, d));
        lemma_node_within(s, 0, d, ALPHA_START as int, BETA_START as int, history, t, before.0, w, s.white_to_move,
            before.2, zero_counters(d));
    }
}

/// The search always suggests a move while the game goes on: each depth
/// searches the root afresh on a table that holds no entry, so for a
/// position that is neither won nor drawn and has a legal move, the result
/// of any completed depth names one of the legal moves (for weights whose
/// evaluations stay within the search window).
pub proof fn lemma_search_result_has_move(s: State, history: Seq<u64>, w: Weights, res: SearchResult, d: int)
    requires
        result_of_depth(s, history, w, res, d),
        !s.win,
        !s.draw,
        legal_moves(s).len() > 0,
        evals_within_window(w),
    ensures
        res.best_move matches Some(m) && legal_moves(s).contains(m),
{
    lemma_deepening_tables(s, history, w, d - 1);
    let before = deepening(s, history, w, d - 1);
    let t = cleared(before.1);
    assert(table_within(t, d));
    lemma_tt_index(s.hash[0]);
    assert(slot_of(t, s.hash[0]).depth_from_root == 999);
    let moves = legal_moves(s);
    let order = node_order(s, moves, 0, d, t, before.0);
    let keys = Seq::new(moves.len(), |j: int| order_key(t, before.0, updated_hash(s, moves[j], 0), 0) as i32);
    lemma_insertion_order_shape(keys, moves.len() as int);
    assert(order == insertion_order(keys, moves.len() as int));
    let h = history.push(s.hash[0]);
    let st = count_node(zero_counters(d), 0);
    lemma_moves_find_move(s, 0, d, ALPHA_START as int, BETA_START as int, h, t, before.0, w, s.white_to_move, before.2,
        moves, order, st);
    lemma_moves_move_from(s, 0, d, ALPHA_START as int, BETA_START as int, h, t, before.0, w, s.white_to_move, before.2,
        moves, order, 0, ALPHA_START - 1, None, st);
}

/// The best value of a node never drops below the best found so far.
proof fn lemma_moves_keep_best(
    s: State,
    depth: int,
    max_depth: int,
    alpha: int,
    beta: int,
    history: Seq<u64>,
    curr: Seq<TTEntry>,
    prev: Seq<TTEntry>,
    w: Weights,
    searcher: bool,
    last: Option<i32>,
    moves: Seq<Move>,
    order: Seq<usize>,
    i: int,
    best: int,
    best_move: Option<Move>,
    stats: Seq<LevelStats>,
)
    ensures
        search_moves(s, depth, max_depth, alpha, beta, history, curr, prev, w, searcher, last, moves, order, i, best, best_move, stats).0 >= best,
    decreases order.len() - i,
{
    if depth >= max_depth || i < 0 || i >= order.len() {
    } else {
        let mv = moves[order[i] as int];
        let child_last = match last {
            Some(v) => Some((-v) as i32),
            None => None,
        };
        let c = search_node(played(s, mv, history), depth + 1, max_depth, -beta, -alpha, history, curr, prev, w,
            searcher, child_last, stats);
        let val = -c.0;
        let best2 = if val > best { val } else { best };
        let move2 = if val > best { Some(mv) } else { best_move };
        let alpha2 = if val > alpha { val } else { alpha };
        lemma_moves_keep_best(s, depth, max_depth, alpha2, beta, history, c.2, prev, w, searcher, last, moves, order,
            i + 1, best2, move2, c.3);
    }
}

/// One ply above the last: the table stays as it is, and no value exceeds
/// the evaluation bound, while the entries found within that ply hold no
/// negative value.
proof fn lemma_last_ply_moves(
    s: State,
    depth: int,
    max_depth: int,
    alpha: int,
    beta: int,
    history: Seq<u64>,
    curr: Seq<TTEntry>,
    prev: Seq<TTEntry>,
    w: Weights,
    searcher: bool,
    last: Option<i32>,
    moves: Seq<Move>,
    order: Seq<usize>,
    i: int,
    best: int,
    best_move: Option<Move>,
    stats: Seq<LevelStats>,
)
    requires
        max_depth == depth + 1,
        w.bounded(),
        forall|j: int| 0 <= j < curr.len() && #[trigger] curr[j].depth_from_root <= max_depth ==> curr[j].value >= 0,
        curr.len() == TT_SIZE,
    ensures
        search_moves(s, depth, max_depth, alpha, beta, history, curr, prev, w, searcher, last, moves, order, i, best, best_move, stats).2 == curr,
        search_moves(s, depth, max_depth, alpha, beta, history, curr, prev, w, searcher, last, moves, order, i, best, best_move, stats).0 <= (if best > EVAL_BOUND { best } else { EVAL_BOUND as int }),
    decreases order.len() - i,
{
    if depth >= max_depth || i < 0 || i >= order.len() {
    } else {
        let mv = moves[order[i] as int];
        let child_last = match last {
            Some(v) => Some((-v) as i32),
            None => None,
        };
        let c = search_node(played(s, mv, history), depth + 1, max_depth, -beta, -alpha, history, curr, prev, w,
            searcher, child_last, stats);
        let val = -c.0;
        let best2 = if val > best { val } else { best };
        let move2 = if val > best { Some(mv) } else { best_move };
        let alpha2 = if val > alpha { val } else { alpha };
        let g = played(s, mv, history);
        lemma_tt_index(g.hash[0]);
        lemma_eval_bounded(g, w);
        if !g.win && !g.draw && slot_of(curr, g.hash[0]).hash == g.hash[0] && slot_of(curr, g.hash[0]).depth_from_root
            <= depth + 1 {
            assert(curr[tt_index(g.hash[0])].value >= 0);
        }
        assert(val <= EVAL_BOUND);
        lemma_last_ply_moves(s, depth, max_depth, alpha2, beta, history, c.2, prev, w, searcher, last, moves, order,
            i + 1, best2, move2, c.3);
    }
}

/// A node one ply above the last that has a reply winning at once finds a
/// value of at least a win, or of at least the top of its window when it
/// cuts off before the winning reply, as long as its window is open.
proof fn lemma_winning_reply_found(
    s: State,
    depth: int,
    max_depth: int,
    alpha: int,
    beta: int,
    history: Seq<u64>,
    curr: Seq<TTEntry>,
    prev: Seq<TTEntry>,
    w: Weights,
    searcher: bool,
    last: Option<i32>,
    moves: Seq<Move>,
    order: Seq<usize>,
    i: int,
    best: int,
    best_move: Option<Move>,
    stats: Seq<LevelStats>,
    k: int,
)
    requires
        max_depth == depth + 1,
        last is None,
        order.len() == moves.len(),
        forall|p: int| 0 <= p < order.len() ==> #[trigger] order[p] == p,
        0 <= i <= k < moves.len(),
        played(s, moves[k], history).win,
        alpha < beta,
    ensures
        search_moves(s, depth, max_depth, alpha, beta, history, curr, prev, w, searcher, last, moves, order, i, best, best_move, stats).0 >= WIN_SCORE || search_moves(s, depth, max_depth, alpha, beta, history, curr, prev, w, searcher, last, moves, order, i, best, best_move, stats).0 >= beta,
    decreases k - i,
{
        let mv = moves[order[i] as int];
        let child_last = match last {
            Some(v) => Some((-v) as i32),
            None => None,
        };
        let c = search_node(played(s, mv, history), depth + 1, max_depth, -beta, -alpha, history, curr, prev, w,
            searcher, child_last, stats);
        let val = -c.0;
        let best2 = if val > best { val } else { best };
        let move2 = if val > best { Some(mv) } else { best_move };
        let alpha2 = if val > alpha { val } else { alpha };
    if i == k {
        assert(val == WIN_SCORE);
        if !(alpha2 >= beta) {
            lemma_moves_keep_best(s, depth, max_depth, alpha2, beta, history, c.2, prev, w, searcher, last, moves, order,
                i + 1, best2, move2, c.3);
        }
    } else if !(alpha2 >= beta) {
        lemma_winning_reply_found(s, depth, max_depth, alpha2, beta, history, c.2, prev, w, searcher, last, moves, order,
            i + 1, best2, move2, c.3, k);
    }
}

/// After move `m` the opponent is neither beaten nor drawn, and among its
/// (fewer than a thousand) replies is one that wins the game at once.
pub open spec fn loses_to_a_reply(s: State, m: Move, history: Seq<u64>) -> bool {
    let h = history.push(s.hash[0]);
    let c = played(s, m, h);
    &&& !c.win
    &&& !c.draw
    &&& legal_moves(c).len() < 1000
    &&& exists|m2: Move| #[trigger] legal_moves(c).contains(m2) && played(c, m2, h.push(c.hash[0])).win
}

proof fn lemma_forced_loss_moves(
    s: State,
    depth: int,
    max_depth: int,
    alpha: int,
    beta: int,
    history: Seq<u64>,
    curr: Seq<TTEntry>,
    prev: Seq<TTEntry>,
    w: Weights,
    searcher: bool,
    last: Option<i32>,
    moves: Seq<Move>,
    order: Seq<usize>,
    i: int,
    best: int,
    best_move: Option<Move>,
    stats: Seq<LevelStats>,
    root_history: Seq<u64>,
)
    requires
        max_depth == depth + 2,
        0 <= depth,
        beta == BETA_START,
        last is None,
        moves == legal_moves(s),
        history == root_history.push(s.hash[0]),
        moves.len() < 1000,
        order.len() == moves.len(),
        forall|p: int| 0 <= p < order.len() ==> #[trigger] order[p] == p,
        forall|m: Move| #[trigger] legal_moves(s).contains(m) ==> loses_to_a_reply(s, m, root_history),
        0 <= i <= moves.len(),
        w.bounded(),
        curr.len() == TT_SIZE,
        forall|j: int|
            0 <= j < curr.len() ==> #[trigger] curr[j].depth_from_root > max_depth || curr[j].value >= WIN_SCORE - 1 - i,
        alpha <= -(WIN_SCORE - 1 - i),
        best <= -(WIN_SCORE - 1 - i),
    ensures
        search_moves(s, depth, max_depth, alpha, beta, history, curr, prev, w, searcher, last, moves, order, i, best, best_move, stats).0 <= -(WIN_SCORE - 1 - moves.len()),
    decreases moves.len() - i,
{
    if i < moves.len() {
        let mv = moves[order[i] as int];
        let child_last = match last {
            Some(v) => Some((-v) as i32),
            None => None,
        };
        let c = search_node(played(s, mv, history), depth + 1, max_depth, -beta, -alpha, history, curr, prev, w,
            searcher, child_last, stats);
        let val = -c.0;
        let best2 = if val > best { val } else { best };
        let move2 = if val > best { Some(mv) } else { best_move };
        let alpha2 = if val > alpha { val } else { alpha };
        assert(moves.contains(mv));
        let cs = played(s, mv, history);
        assert(loses_to_a_reply(s, mv, root_history));
        lemma_tt_index(cs.hash[0]);
        if slot_of(curr, cs.hash[0]).hash == cs.hash[0] && slot_of(curr, cs.hash[0]).depth_from_root <= depth + 1 {
            assert(curr[tt_index(cs.hash[0])].value >= WIN_SCORE - 1 - i);
            assert(c.2 == curr);
        } else {
            let cm = legal_moves(cs);
            let corder = node_order(cs, cm, depth + 1, max_depth, curr, prev);
            let ch = history.push(cs.hash[0]);
            let cst = count_node(stats, depth + 1);
            let m2 = choose|m2: Move| #[trigger] legal_moves(cs).contains(m2) && played(cs, m2, ch).win;
            let k = cm.index_of(m2);
            assert forall|p: int| 0 <= p < corder.len() implies #[trigger] corder[p] == p by {
                assert(corder == Seq::new(cm.len(), |j: int| j as usize));
            }
            lemma_winning_reply_found(cs, depth + 1, max_depth, -(BETA_START as int), -alpha, ch, curr, prev, w,
                searcher, None, cm, corder, 0, ALPHA_START - 1, None, cst, k);
            lemma_last_ply_moves(cs, depth + 1, max_depth, -(BETA_START as int), -alpha, ch, curr, prev, w, searcher,
                None, cm, corder, 0, ALPHA_START - 1, None, cst);
            let r = search_moves(cs, depth + 1, max_depth, -(BETA_START as int), -alpha, ch, curr, prev, w, searcher,
                None, cm, corder, 0, ALPHA_START - 1, None, cst);
            let v = toward_zero(r.0);
            assert(v >= WIN_SCORE - 2 - i);
            assert((v as i32) as int == v);
        }
        assert(val <= -(WIN_SCORE - 1 - (i + 1)));
        if !(alpha2 >= beta) {
            let t = c.2;
            assert forall|j: int| 0 <= j < t.len() implies #[trigger] t[j].depth_from_root > max_depth || t[j].value
                >= WIN_SCORE - 1 - (i + 1) by {
                if t[j] != curr[j] {
                    assert(t[j].value == c.0);
                }
            }
            lemma_forced_loss_moves(s, depth, max_depth, alpha2, beta, history, c.2, prev, w, searcher, last, moves,
                order, i + 1, best2, move2, c.3, root_history);
        }
    }
}

/// A move into a lost position is seen as lost: when every move of the side
/// to move lets the opponent win with the reply, a search two plies deep
/// with the full window, no previous value and a table holding nothing
/// found within those plies scores the position as all but lost, within one
/// point per move of the loss itself.
pub proof fn lemma_forced_loss_is_seen(
    s: State,
    depth: int,
    history: Seq<u64>,
    curr: Seq<TTEntry>,
    prev: Seq<TTEntry>,
    w: Weights,
    searcher: bool,
    stats: Seq<LevelStats>,
)
    requires
        !s.win,
        !s.draw,
        0 <= depth,
        w.bounded(),
        curr.len() == TT_SIZE,
        forall|j: int| 0 <= j < curr.len() ==> #[trigger] curr[j].depth_from_root > depth + 2,
        legal_moves(s).len() < 1000,
        forall|m: Move| #[trigger] legal_moves(s).contains(m) ==> loses_to_a_reply(s, m, history),
    ensures
        search_node(s, depth, depth + 2, ALPHA_START as int, BETA_START as int, history, curr, prev, w, searcher, None,
            stats).0 <= legal_moves(s).len() + 2 - WIN_SCORE,
{
    lemma_tt_index(s.hash[0]);
    let moves = legal_moves(s);
    let order = node_order(s, moves, depth, depth + 2, curr, prev);
    let h = history.push(s.hash[0]);
    let st = count_node(stats, depth);
    lemma_forced_loss_moves(s, depth, depth + 2, ALPHA_START as int, BETA_START as int, h, curr, prev, w, searcher,
        None, moves, order, 0, ALPHA_START - 1, None, st, history);
}

} // verus!
