//! The layer generator: keeps two buffers of frontier nodes one ply apart
//! and expands them one node at a time, so tree growth can be paused and
//! resumed under a memory ceiling.
use vstd::prelude::*;

use crate::board::piece_count;
use crate::transposition::TranspositionStateTable;
use crate::win_check::GameOver;

verus! {

/// Iterator-style generator used to grow a BoardState decision tree. Each
/// step reports how many board states were generated, and steps stop
/// producing once the reachable tree is complete.
pub struct LayerGenerator {
    generation_1: Vec<usize>,
    generation_2: Vec<usize>,
    generation_1_is_new: bool,
}

/// All buffered nodes of one generation sit at one depth.
pub open spec fn buffer_at_depth(t: TranspositionStateTable, buf: Seq<usize>, d: int) -> bool {
    forall|x: int|
        0 <= x < buf.len() ==> t.alive(#[trigger] buf[x] as int) && piece_count(
            t.grid_of(buf[x] as int),
        ) == d
}

/// Extending a one-depth buffer with another node of that depth keeps it
/// one-depth.
proof fn lemma_buffer_push(t: TranspositionStateTable, buf: Seq<usize>, d: int, i: usize)
    requires
        buffer_at_depth(t, buf, d),
        t.alive(i as int),
        piece_count(t.grid_of(i as int)) == d,
    ensures
        buffer_at_depth(t, buf.push(i), d),
{
    assert forall|x: int| 0 <= x < buf.push(i).len() implies t.alive(
        #[trigger] buf.push(i)[x] as int,
    ) && piece_count(t.grid_of(buf.push(i)[x] as int)) == d by {
        if x < buf.len() {
            assert(buf.push(i)[x] == buf[x]);
            assert(t.alive(buf[x] as int) && piece_count(t.grid_of(buf[x] as int)) == d);
        } else {
            assert(buf.push(i)[x] == i);
        }
    }
}

/// A live node that still needs children generated: unexpanded and
/// undecided.
pub open spec fn frontier_node(t: TranspositionStateTable, j: int) -> bool {
    &&& t.alive(j)
    &&& t.node(j).children@.len() == 0
    &&& t.node(j).game_over == GameOver::NoWin
}

/// The two buffers hold the complete frontier of the two shallowest
/// frontier depths: no frontier node is shallower than `d`, every frontier
/// node at `d` is in `prev` and every one at `d + 1` in `newer`, the
/// buffers hold only such nodes, and `prev` is empty only when the table
/// has no frontier at all.
pub open spec fn frontier_layers(
    t: TranspositionStateTable,
    prev: Seq<usize>,
    newer: Seq<usize>,
    d: int,
) -> bool {
    &&& forall|j: int| #[trigger] frontier_node(t, j) ==> piece_count(t.grid_of(j)) >= d
    &&& forall|j: int|
        #[trigger] frontier_node(t, j) && piece_count(t.grid_of(j)) == d ==> prev.contains(
            j as usize,
        )
    &&& forall|j: int|
        #[trigger] frontier_node(t, j) && piece_count(t.grid_of(j)) == d + 1 ==> newer.contains(
            j as usize,
        )
    &&& forall|x: int|
        0 <= x < prev.len() ==> frontier_node(t, #[trigger] prev[x] as int) && piece_count(
            t.grid_of(prev[x] as int),
        ) == d
    &&& forall|x: int|
        0 <= x < newer.len() ==> frontier_node(t, #[trigger] newer[x] as int) && piece_count(
            t.grid_of(newer[x] as int),
        ) == d + 1
    &&& (prev.len() == 0 ==> forall|j: int| !#[trigger] frontier_node(t, j))
}

/// Two frontier buffers lie one ply apart at depth `d`, inside the game.
pub open spec fn layers_ok(
    t: TranspositionStateTable,
    prev: Seq<usize>,
    newer: Seq<usize>,
    d: int,
) -> bool {
    &&& 0 <= d <= 42
    &&& buffer_at_depth(t, prev, d)
    &&& buffer_at_depth(t, newer, d + 1)
    &&& d + 1 <= 42 || newer.len() == 0
}

/// 8 to the `n`th power: the weight of one frontier node, chosen so a node
/// always outweighs the at most seven children that replace it.
pub open spec fn pow8(n: int) -> int
    decreases n,
{
    if n <= 0 {
        1
    } else {
        8 * pow8(n - 1)
    }
}

proof fn lemma_pow8_pos(n: int)
    ensures
        pow8(n) >= 1,
    decreases n,
{
    if n > 0 {
        lemma_pow8_pos(n - 1);
        assert(8 * pow8(n - 1) >= 1) by (nonlinear_arith)
            requires
                pow8(n - 1) >= 1,
        ;
    }
}

/// The work a buffer still holds: one weight per entry, heavier the
/// shallower the entry sits.
pub open spec fn buf_potential(t: TranspositionStateTable, buf: Seq<usize>) -> int
    decreases buf.len(),
{
    if buf.len() == 0 {
        0
    } else {
        buf_potential(t, buf.drop_last()) + pow8(43 - piece_count(t.grid_of(buf.last() as int)))
    }
}

/// A depth-uniform buffer weighs its length times the depth's weight.
proof fn lemma_buf_potential_uniform(t: TranspositionStateTable, buf: Seq<usize>, d: int)
    requires
        buffer_at_depth(t, buf, d),
    ensures
        buf_potential(t, buf) == buf.len() * pow8(43 - d),
    decreases buf.len(),
{
    if buf.len() > 0 {
        assert(buffer_at_depth(t, buf.drop_last(), d)) by {
            assert forall|x: int| 0 <= x < buf.drop_last().len() implies t.alive(
                #[trigger] buf.drop_last()[x] as int,
            ) && piece_count(t.grid_of(buf.drop_last()[x] as int)) == d by {
                assert(buf.drop_last()[x] == buf[x]);
            }
        }
        lemma_buf_potential_uniform(t, buf.drop_last(), d);
        assert(buf[buf.len() - 1] == buf.last());
        assert(piece_count(t.grid_of(buf.last() as int)) == d);
        assert(buf.len() * pow8(43 - d) == (buf.len() - 1) * pow8(43 - d) + pow8(43 - d))
            by (nonlinear_arith);
    }
}

/// The total work the generator still holds against a table.
pub open spec fn gen_potential(g: LayerGenerator, t: TranspositionStateTable) -> int {
    buf_potential(t, g.previous_view()) + buf_potential(t, g.new_view())
}

/// A consistent generator never holds negative work.
pub proof fn lemma_gen_potential_nonneg(g: LayerGenerator, t: TranspositionStateTable)
    requires
        g.buffers_wf(t),
    ensures
        gen_potential(g, t) >= 0,
{
    let d = choose|d: int| #[trigger] layers_ok(t, g.previous_view(), g.new_view(), d);
    lemma_buf_potential_uniform(t, g.previous_view(), d);
    lemma_buf_potential_uniform(t, g.new_view(), d + 1);
    lemma_pow8_pos(43 - d);
    lemma_pow8_pos(42 - d);
    let lp = g.previous_view().len() as int;
    let ln = g.new_view().len() as int;
    assert(lp * pow8(43 - d) >= 0 && ln * pow8(42 - d) >= 0) by (nonlinear_arith)
        requires
            lp >= 0,
            ln >= 0,
            pow8(43 - d) >= 1,
            pow8(42 - d) >= 1,
    ;
}

/// The newer buffer after one expansion: the base extended by the expanded
/// node's children, in order.
pub open spec fn expansion_append(
    t1: TranspositionStateTable,
    i: usize,
    c: int,
    base: Seq<usize>,
    out: Seq<usize>,
) -> bool {
    &&& out.len() == base.len() + c
    &&& forall|x: int| 0 <= x < base.len() ==> out[x] == base[x]
    &&& forall|k: int|
        0 <= k < c ==> #[trigger] out[base.len() + k] == t1.node(
            i as int,
        ).children@[k].state as usize
}

/// One step of the generator: a node `i` comes off the older generation
/// (the buffers first swapping roles when the older one is empty); if it was
/// an unexpanded, undecided node it is expanded and its `c` children are
/// appended to the newer generation, and otherwise nothing changes and no
/// children are reported.
pub open spec fn expansion_step(
    g0: LayerGenerator,
    t0: TranspositionStateTable,
    g1: LayerGenerator,
    t1: TranspositionStateTable,
    i: usize,
    c: int,
) -> bool {
    &&& {
        ||| (g0.previous_view().len() > 0 && i == g0.previous_view().last()
            && g1.previous_view() == g0.previous_view().drop_last() && expansion_append(
            t1,
            i,
            c,
            g0.new_view(),
            g1.new_view(),
        ))
        ||| (g0.previous_view().len() == 0 && g0.new_view().len() > 0 && i == g0.new_view().last()
            && g1.previous_view() == g0.new_view().drop_last() && expansion_append(
            t1,
            i,
            c,
            Seq::empty(),
            g1.new_view(),
        ))
    }
    &&& t0.alive(i as int)
    &&& ((t0.node(i as int).game_over != crate::win_check::GameOver::NoWin || t0.node(
        i as int,
    ).children@.len() > 0) ==> c == 0 && t1 == t0)
    &&& ((t0.node(i as int).game_over == crate::win_check::GameOver::NoWin && t0.node(
        i as int,
    ).children@.len() == 0) ==> {
        &&& c == t1.node(i as int).children@.len()
        &&& c > 0
        &&& forall|j: int|
            #[trigger] t0.alive(j) && j != i as int ==> t1.node(j) == t0.node(j)
        &&& forall|j: int|
            t0.num_slots() <= j < t1.num_slots() && #[trigger] t1.alive(j) ==> t1.node(
                j,
            ).children@.len() == 0
    })
}

/// The node the generator hands out next: the last entry of the older
/// generation, or of the newer one once the buffers swap roles.
pub open spec fn next_pick(g: LayerGenerator) -> usize {
    if g.previous_view().len() > 0 {
        g.previous_view().last()
    } else {
        g.new_view().last()
    }
}

impl LayerGenerator {
    /// The buffer holding the older, shallower generation.
    pub closed spec fn previous_view(self) -> Seq<usize> {
        if self.generation_1_is_new {
            self.generation_2@
        } else {
            self.generation_1@
        }
    }

    /// The buffer holding the newer, deeper generation.
    pub closed spec fn new_view(self) -> Seq<usize> {
        if self.generation_1_is_new {
            self.generation_1@
        } else {
            self.generation_2@
        }
    }

    /// The generator is consistent with a table: its buffers hold live
    /// nodes, the two generations one ply apart and within the game's depth.
    pub open spec fn buffers_wf(self, t: TranspositionStateTable) -> bool {
        exists|d: int| #[trigger] layers_ok(t, self.previous_view(), self.new_view(), d)
    }

    /// Gets the sizes of the internal buffers.
    pub fn buffer_size(&self) -> (r: usize)
        requires
            self.previous_view().len() + self.new_view().len() < usize::MAX,
        ensures
            r == self.previous_view().len() + self.new_view().len(),
    {
        self.generation_1.len() + self.generation_2.len()
    }

    /// Finds the board states at the bottom of the decision tree: the
    /// shallowest two generations that still need children generated.
    ///
    /// Returns a tuple of (previous_generation, new_generation).
    pub fn get_bottom_two_layers(table: &TranspositionStateTable) -> (r: (Vec<usize>, Vec<usize>))
        requires
            table.wf(),
        ensures
            exists|d: int|
                #[trigger] layers_ok(*table, r.0@, r.1@, d) && frontier_layers(
                    *table,
                    r.0@,
                    r.1@,
                    d,
                ),
    {
        let n = table.nodes_ref().len();
        // First pass: the shallowest depth that still has an unexpanded,
        // undecided node.
        let mut best: u8 = 43;
        let mut i: usize = 0;
        while i < n
            invariant
                table.wf(),
                n == table.num_slots(),
                0 <= i <= n,
                best <= 43,
                forall|j: int|
                    0 <= j < i && #[trigger] frontier_node(*table, j) ==> piece_count(
                        table.grid_of(j),
                    ) >= best,
                best < 43 ==> exists|j: int|
                    0 <= j < i && #[trigger] frontier_node(*table, j) && piece_count(
                        table.grid_of(j),
                    ) == best,
            decreases n - i,
        {
            match &table.nodes_ref()[i] {
                Some(node) => {
                    if node.children.len() == 0 && matches!(node.is_game_over(), GameOver::NoWin) {
                        proof {
                            assert(table.alive(i as int));
                            assert(*node == table.node(i as int));
                            assert(frontier_node(*table, i as int));
                            table.node(i as int).board.lemma_wf_grid();
                            crate::board::lemma_piece_count_bounds(table.grid_of(i as int));
                        }
                        let d = node.get_depth();
                        proof {
                            assert(d as int == piece_count(table.grid_of(i as int)));
                        }
                        if d < best {
                            best = d;
                        }
                        proof {
                            assert(frontier_node(*table, i as int) && piece_count(
                                table.grid_of(i as int),
                            ) >= best);
                        }
                    } else {
                        proof {
                            assert(*node == table.node(i as int));
                            assert(!frontier_node(*table, i as int));
                        }
                    }
                },
                None => {
                    proof {
                        assert(!frontier_node(*table, i as int));
                    }
                },
            }
            i = i + 1;
        }
        proof {
            assert forall|j: int| #[trigger] frontier_node(*table, j) implies 0 <= j < n by {}
        }
        let ghost d0 = best as int;
        // Second pass: bucket the candidates of the two shallowest depths.
        let mut previous: Vec<usize> = Vec::new();
        let mut newer: Vec<usize> = Vec::new();
        if best >= 43 {
            let result = (previous, newer);
            proof {
                assert forall|j: int| !#[trigger] frontier_node(*table, j) by {
                    if frontier_node(*table, j) {
                        table.node(j).board.lemma_wf_grid();
                        crate::board::lemma_piece_count_bounds(table.grid_of(j));
                    }
                }
                assert(layers_ok(*table, result.0@, result.1@, 0) && frontier_layers(
                    *table,
                    result.0@,
                    result.1@,
                    0,
                ));
            }
            return result;
        }
        let mut i: usize = 0;
        while i < n
            invariant
                table.wf(),
                n == table.num_slots(),
                0 <= i <= n,
                0 <= d0 <= 42,
                d0 == best as int,
                buffer_at_depth(*table, previous@, d0),
                buffer_at_depth(*table, newer@, d0 + 1),
                forall|x: int|
                    0 <= x < previous@.len() ==> frontier_node(
                        *table,
                        #[trigger] previous@[x] as int,
                    ),
                forall|x: int|
                    0 <= x < newer@.len() ==> frontier_node(*table, #[trigger] newer@[x] as int),
                forall|j: int|
                    0 <= j < i && #[trigger] frontier_node(*table, j) && piece_count(
                        table.grid_of(j),
                    ) == d0 ==> previous@.contains(j as usize),
                forall|j: int|
                    0 <= j < i && #[trigger] frontier_node(*table, j) && piece_count(
                        table.grid_of(j),
                    ) == d0 + 1 ==> newer@.contains(j as usize),
            decreases n - i,
        {
            let ghost prev_snapshot = previous@;
            let ghost new_snapshot = newer@;
            match &table.nodes_ref()[i] {
                Some(node) => {
                    if node.children.len() == 0 && matches!(node.is_game_over(), GameOver::NoWin) {
                        proof {
                            assert(table.alive(i as int));
                            table.node(i as int).board.lemma_wf_grid();
                            crate::board::lemma_piece_count_bounds(table.grid_of(i as int));
                        }
                        let d = node.get_depth();
                        proof {
                            assert(*node == table.node(i as int));
                            assert(frontier_node(*table, i as int));
                            assert(d as int == piece_count(table.grid_of(i as int)));
                        }
                        if d == best {
                            previous.push(i);
                            proof {
                                lemma_buffer_push(*table, prev_snapshot, d0, i);
                                assert(previous@ == prev_snapshot.push(i));
                                assert(previous@[previous@.len() - 1] == i);
                                assert(previous@.contains(i));
                            }
                        } else if best < 42 && d == best + 1 {
                            newer.push(i);
                            proof {
                                lemma_buffer_push(*table, new_snapshot, d0 + 1, i);
                                assert(newer@ == new_snapshot.push(i));
                                assert(newer@[newer@.len() - 1] == i);
                                assert(newer@.contains(i));
                            }
                        } else {
                            proof {
                                // a frontier node deeper than the window is
                                // impossible above the board's capacity
                                assert(d as int != d0 && d as int != d0 + 1);
                            }
                        }
                    } else {
                        proof {
                            assert(*node == table.node(i as int));
                            assert(!frontier_node(*table, i as int));
                        }
                    }
                },
                None => {
                    proof {
                        assert(!frontier_node(*table, i as int));
                    }
                },
            }
            proof {
                assert forall|j: int|
                    0 <= j < i + 1 && #[trigger] frontier_node(*table, j) && piece_count(
                        table.grid_of(j),
                    ) == d0 implies previous@.contains(j as usize) by {
                    if j < i {
                        assert(prev_snapshot.contains(j as usize));
                        let x = choose|x: int|
                            0 <= x < prev_snapshot.len() && prev_snapshot[x] == j as usize;
                        assert(previous@[x] == j as usize);
                    }
                }
                assert forall|j: int|
                    0 <= j < i + 1 && #[trigger] frontier_node(*table, j) && piece_count(
                        table.grid_of(j),
                    ) == d0 + 1 implies newer@.contains(j as usize) by {
                    if j < i {
                        assert(new_snapshot.contains(j as usize));
                        let x = choose|x: int|
                            0 <= x < new_snapshot.len() && new_snapshot[x] == j as usize;
                        assert(newer@[x] == j as usize);
                    }
                }
            }
            i = i + 1;
        }
        let result = (previous, newer);
        proof {
            assert(layers_ok(*table, result.0@, result.1@, d0)) by {
                if d0 + 1 > 42 && result.1@.len() > 0 {
                    assert(table.alive(result.1@[0] as int));
                    table.node(result.1@[0] as int).board.lemma_wf_grid();
                    crate::board::lemma_piece_count_bounds(table.grid_of(result.1@[0] as int));
                    assert(false);
                }
            }
            assert(frontier_layers(*table, result.0@, result.1@, d0)) by {
                let j0 = choose|j: int|
                    0 <= j < n && #[trigger] frontier_node(*table, j) && piece_count(
                        table.grid_of(j),
                    ) == d0;
                assert(result.0@.contains(j0 as usize));
            }
        }
        result
    }

    /// Constructs a new LayerGenerator over the given table.
    pub fn new(table: &TranspositionStateTable) -> (r: LayerGenerator)
        requires
            table.wf(),
        ensures
            r.buffers_wf(*table),
            exists|d: int| #[trigger] frontier_layers(*table, r.previous_view(), r.new_view(), d),
    {
        let (previous_generation, new_generation) = LayerGenerator::get_bottom_two_layers(table);
        let r = LayerGenerator {
            generation_1: previous_generation,
            generation_2: new_generation,
            generation_1_is_new: false,
        };
        proof {
            let d = choose|d: int|
                #[trigger] layers_ok(*table, previous_generation@, new_generation@, d)
                    && frontier_layers(*table, previous_generation@, new_generation@, d);
            assert(layers_ok(*table, r.previous_view(), r.new_view(), d));
            assert(frontier_layers(*table, r.previous_view(), r.new_view(), d));
        }
        r
    }

    /// Restarts the layer generation process, rescanning the table: this is
    /// how the generator resumes correctly after a move has narrowed the
    /// tree to a new root.
    pub fn restart(&mut self, table: &TranspositionStateTable)
        requires
            table.wf(),
        ensures
            final(self).buffers_wf(*table),
            exists|d: int|
                #[trigger] frontier_layers(
                    *table,
                    final(self).previous_view(),
                    final(self).new_view(),
                    d,
                ),
    {
        let (previous_generation, new_generation) = LayerGenerator::get_bottom_two_layers(table);
        let ghost d0 = choose|d: int|
            #[trigger] layers_ok(*table, previous_generation@, new_generation@, d)
                && frontier_layers(*table, previous_generation@, new_generation@, d);
        self.generation_1 = previous_generation;
        self.generation_2 = new_generation;
        self.generation_1_is_new = false;
        proof {
            assert(layers_ok(*table, self.previous_view(), self.new_view(), d0));
            assert(frontier_layers(*table, self.previous_view(), self.new_view(), d0));
        }
    }

    /// Pops one node of the older generation.
    fn pop_previous(&mut self) -> (r: Option<usize>)
        ensures
            final(self).new_view() == old(self).new_view(),
            old(self).previous_view().len() == 0 ==> r is None && final(self).previous_view()
                == old(self).previous_view(),
            old(self).previous_view().len() > 0 ==> r == Some(
                old(self).previous_view()[old(self).previous_view().len() - 1],
            ) && final(self).previous_view() == old(self).previous_view().drop_last(),
    {
        if self.generation_1_is_new {
            self.generation_2.pop()
        } else {
            self.generation_1.pop()
        }
    }

    /// Pushes newly generated children onto the newer generation.
    fn extend_new(&mut self, children: Vec<usize>)
        ensures
            final(self).generation_1_is_new == old(self).generation_1_is_new,
            final(self).previous_view() == old(self).previous_view(),
            final(self).new_view() == old(self).new_view() + children@,
    {
        let mut children = children;
        if self.generation_1_is_new {
            self.generation_1.append(&mut children);
        } else {
            self.generation_2.append(&mut children);
        }
    }

    /// Expands one frontier node, extending the newer generation with its
    /// children, and reports how many board states were generated; reports
    /// nothing once both buffers are exhausted.
    #[verifier::rlimit(100)]
    #[verifier::spinoff_prover]
    pub fn next(&mut self, table: &mut TranspositionStateTable) -> (r: Option<usize>)
        requires
            old(table).wf(),
            old(self).buffers_wf(*old(table)),
        ensures
            final(table).wf(),
            final(self).buffers_wf(*final(table)),
            old(table).num_slots() <= final(table).num_slots(),
            forall|j: int|
                #[trigger] old(table).alive(j) ==> final(table).alive(j) && final(table).node(
                    j,
                ).board.grid() == old(table).node(j).board.grid() && final(table).node(j).turn
                    == old(table).node(j).turn && final(table).node(j).children@.len() >= old(
                    table,
                ).node(j).children@.len(),
            forall|j: int|
                0 <= j < old(table).num_slots() && !old(table).alive(j) ==> !final(table).alive(j),
            r is None ==> *final(table) == *old(table) && old(self).previous_view().len() == 0
                && old(self).new_view().len() == 0,
            (old(self).previous_view().len() == 0 && old(self).new_view().len() == 0) ==> r
                is None,
            r is None ==> final(self).previous_view() == old(self).previous_view() && final(
                self
            ).new_view() == old(self).new_view(),
            r matches Some(c) ==> (c <= 7 && expansion_step(
                *old(self),
                *old(table),
                *final(self),
                *final(table),
                next_pick(*old(self)),
                c as int,
            )),
            r matches Some(c) ==> gen_potential(*final(self), *final(table)) < gen_potential(
                *old(self),
                *old(table),
            ),
            gen_potential(*final(self), *final(table)) >= 0,
    {
        let ghost t0 = *table;
        let ghost d0 = choose|d: int|
            #[trigger] layers_ok(t0, old(self).previous_view(), old(self).new_view(), d);
        let first = self.pop_previous();
        let ghost d_cur: int = if first is Some {
            d0
        } else {
            d0 + 1
        };
        let picked = match first {
            Some(i) => Some(i),
            None => {
                let has_new = if self.generation_1_is_new {
                    self.generation_1.len() > 0
                } else {
                    self.generation_2.len() > 0
                };
                proof {
                    assert(has_new == (self.new_view().len() > 0));
                }
                if has_new {
                    // Flip our generation buffers: the exhausted previous
                    // generation becomes the new one and vice versa.
                    self.generation_1_is_new = !self.generation_1_is_new;
                    self.pop_previous()
                } else {
                    None
                }
            },
        };
        match picked {
            None => {
                proof {
                    assert(layers_ok(*table, self.previous_view(), self.new_view(), d0));
                    assert(buf_potential(*table, self.previous_view()) == 0);
                    assert(buf_potential(*table, self.new_view()) == 0);
                }
                None
            },
            Some(i) => {
                let ghost prev_before = self.previous_view();
                let ghost new_before = self.new_view();
                proof {
                    assert(t0.alive(i as int));
                    assert(piece_count(t0.grid_of(i as int)) == d_cur);
                    assert(buffer_at_depth(t0, prev_before, d_cur));
                    assert(buffer_at_depth(t0, new_before, d_cur + 1));
                    assert(d_cur + 1 <= 42 || new_before.len() == 0);
                }
                let generated = table.generate_children(i);
                let num = generated.len();
                proof {
                    if num > 0 {
                        assert(table.node(i as int).children@.len() == num);
                        lemma_children_count_bound(*table, i as int);
                    }
                }
                self.extend_new(generated);
                proof {
                    assert forall|x: int| 0 <= x < self.previous_view().len() implies table.alive(
                        #[trigger] self.previous_view()[x] as int,
                    ) && piece_count(table.grid_of(self.previous_view()[x] as int)) == d_cur by {
                        assert(t0.alive(prev_before[x] as int));
                    }
                    assert forall|x: int| 0 <= x < self.new_view().len() implies table.alive(
                        #[trigger] self.new_view()[x] as int,
                    ) && piece_count(table.grid_of(self.new_view()[x] as int)) == d_cur + 1 by {
                        if x < new_before.len() {
                            assert(self.new_view()[x] == new_before[x]);
                            assert(t0.alive(new_before[x] as int));
                        } else {
                            let k = x - new_before.len();
                            assert(self.new_view()[x] == generated@[k]);
                            assert(generated@[k] == table.node(i as int).children@[k].state);
                            crate::tree_analysis::lemma_edge_count_pub(*table, i as int, k);
                            assert(table.grid_of(i as int) == t0.grid_of(i as int));
                        }
                    }
                    assert(layers_ok(*table, self.previous_view(), self.new_view(), d_cur)) by {
                        if self.new_view().len() > 0 && d_cur + 1 > 42 {
                            assert(table.alive(self.new_view()[0] as int));
                            table.node(self.new_view()[0] as int).board.lemma_wf_grid();
                            crate::board::lemma_piece_count_bounds(
                                table.grid_of(self.new_view()[0] as int),
                            );
                            assert(false);
                        }
                        assert(0 <= d_cur <= 42) by {
                            t0.node(i as int).board.lemma_wf_grid();
                            crate::board::lemma_piece_count_bounds(t0.grid_of(i as int));
                        }
                    }
                    // the step's shape: pop, expand, append
                    assert(expansion_step(
                        *old(self),
                        *old(table),
                        *self,
                        *table,
                        i,
                        num as int,
                    )) by {
                        if old(self).previous_view().len() == 0 {
                            assert(new_before =~= Seq::<usize>::empty());
                        }
                        assert forall|k: int| 0 <= k < num implies #[trigger] self.new_view()[
                            new_before.len() + k] == table.node(
                            i as int,
                        ).children@[k].state as usize by {
                            assert(self.new_view()[new_before.len() + k] == generated@[k]);
                        }
                    }
                    assert(num <= 7) by {
                        if num > 0 {
                            lemma_children_count_bound(*table, i as int);
                        }
                    }
                    assert(i == next_pick(*old(self)));
                    assert(expansion_step(
                        *old(self),
                        *old(table),
                        *self,
                        *table,
                        next_pick(*old(self)),
                        num as int,
                    ));
                    // the step consumed more weight than it added
                    let p_out = pow8(43 - d_cur);
                    let p_in = pow8(42 - d_cur);
                    lemma_pow8_pos(42 - d_cur);
                    assert(p_out == 8 * p_in);
                    lemma_buf_potential_uniform(*table, self.previous_view(), d_cur);
                    lemma_buf_potential_uniform(*table, self.new_view(), d_cur + 1);
                    assert(pow8(43 - (d_cur + 1)) == p_in);
                    let lp2 = self.previous_view().len() as int;
                    let ln2 = self.new_view().len() as int;
                    assert(gen_potential(*self, *table) == lp2 * p_out + ln2 * p_in);
                    assert(gen_potential(*self, *table) >= 0) by (nonlinear_arith)
                        requires
                            gen_potential(*self, *table) == lp2 * p_out + ln2 * p_in,
                            lp2 >= 0,
                            ln2 >= 0,
                            p_out >= 1,
                            p_in >= 1,
                    ;
                    lemma_buf_potential_uniform(t0, old(self).previous_view(), d0);
                    lemma_buf_potential_uniform(t0, old(self).new_view(), d0 + 1);
                    let lp0 = old(self).previous_view().len() as int;
                    let ln0 = old(self).new_view().len() as int;
                    if first is Some {
                        // popped from the older generation at depth d0
                        assert(gen_potential(*old(self), t0) == lp0 * p_out + ln0 * p_in);
                        assert(lp2 == lp0 - 1 && ln2 == ln0 + num);
                        assert((lp0 - 1) * p_out + (ln0 + num) * p_in < lp0 * p_out + ln0 * p_in)
                            by (nonlinear_arith)
                            requires
                                p_out == 8 * p_in,
                                p_in >= 1,
                                0 <= num <= 7,
                        ;
                    } else {
                        // the buffers swapped roles: the popped node sits at
                        // depth d0 + 1
                        assert(pow8(43 - d0) == 8 * p_out);
                        assert(gen_potential(*old(self), t0) == lp0 * pow8(43 - d0) + ln0
                            * p_out);
                        assert(lp0 == 0);
                        assert(lp2 == ln0 - 1 && ln2 == num as int);
                        assert(lp0 * pow8(43 - d0) == 0) by (nonlinear_arith)
                            requires
                                lp0 == 0,
                        ;
                        assert((ln0 - 1) * p_out + num * p_in < ln0 * p_out) by (nonlinear_arith)
                            requires
                                p_out == 8 * p_in,
                                p_in >= 1,
                                0 <= num <= 7,
                        ;
                    }
                }
                Some(num)
            },
        }
    }
}

/// An expanded node has at most one child per column.
proof fn lemma_children_count_bound(t: TranspositionStateTable, i: int)
    requires
        t.wf(),
        t.alive(i),
    ensures
        t.node(i).children@.len() <= 7,
{
    assert(t.node_ok(i));
}

} // verus!
