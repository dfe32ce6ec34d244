//! The transposition table: boards are keyed by an injective canonical code,
//! and a lookup tries the board's own code first and its mirror image's code
//! second, reporting which orientation matched.
use vstd::prelude::*;

use crate::board::{
    board_key, grid_wf, lemma_board_key_injective, lemma_key_from_bounds, lemma_mirror_involution,
    lemma_piece_count_bounds, mirrored, piece_count, Board, Grid, BOARD_HEIGHT, BOARD_WIDTH,
};
use crate::board_state::{turn_base, BoardState, ChildState};
use crate::monte_carlo::RolloutResults;
use crate::win_check::{drop_result, game_outcome, GameOver};

verus! {

/// The canonical key of a grid as stored in a table.
pub open spec fn grid_key(g: Grid) -> u64 {
    board_key(g) as u64
}

/// On well-formed grids, key equality is grid equality.
pub proof fn lemma_grid_key_injective(g1: Grid, g2: Grid)
    requires
        grid_wf(g1),
        grid_wf(g2),
        grid_key(g1) == grid_key(g2),
    ensures
        g1 == g2,
{
    lemma_key_from_bounds(g1, 0);
    lemma_key_from_bounds(g2, 0);
    crate::board::lemma_pow128_le_u64();
    lemma_board_key_injective(g1, g2);
}

/// Represents whether a transposition has had its X axis flipped.
#[derive(PartialEq, Eq, Structural, Debug, Clone, Copy)]
pub enum IsFlipped {
    Normal,
    Flipped,
}

impl IsFlipped {
    /// The opposite orientation.
    pub open spec fn spec_flip(self) -> IsFlipped {
        match self {
            IsFlipped::Normal => IsFlipped::Flipped,
            IsFlipped::Flipped => IsFlipped::Normal,
        }
    }

    /// Flips the orientation.
    pub fn flip(&self) -> (r: IsFlipped)
        ensures
            r == self.spec_flip(),
    {
        match *self {
            IsFlipped::Normal => IsFlipped::Flipped,
            IsFlipped::Flipped => IsFlipped::Normal,
        }
    }
}

impl Default for IsFlipped {
    /// The unflipped orientation.
    fn default() -> (r: IsFlipped)
        ensures
            r == IsFlipped::Normal,
    {
        IsFlipped::Normal
    }
}

/// The mapping an entry list denotes: later entries shadow earlier ones.
pub open spec fn map_of<T>(entries: Seq<(u64, T)>) -> Map<u64, T>
    decreases entries.len(),
{
    if entries.len() == 0 {
        Map::empty()
    } else {
        map_of(entries.drop_last()).insert(entries.last().0, entries.last().1)
    }
}

/// No key occurs twice in the entry list.
pub open spec fn keys_unique<T>(entries: Seq<(u64, T)>) -> bool {
    forall|i: int, j: int|
        0 <= i < j < entries.len() ==> (#[trigger] entries[i]).0 != (#[trigger] entries[j]).0
}

/// A key is in the denoted map exactly when some entry carries it, and that
/// entry gives its value.
pub proof fn lemma_map_of_entries<T>(entries: Seq<(u64, T)>)
    ensures
        forall|k: u64|
            #[trigger] map_of(entries).dom().contains(k) <==> exists|i: int|
                0 <= i < entries.len() && (#[trigger] entries[i]).0 == k,
        keys_unique(entries) ==> forall|i: int|
            0 <= i < entries.len() ==> map_of(entries).dom().contains((#[trigger] entries[i]).0)
                && map_of(entries)[entries[i].0] == entries[i].1,
    decreases entries.len(),
{
    if entries.len() > 0 {
        lemma_map_of_entries(entries.drop_last());
        assert forall|k: u64| #[trigger] map_of(entries).dom().contains(k) implies exists|i: int|
            0 <= i < entries.len() && (#[trigger] entries[i]).0 == k by {
            if k == entries.last().0 {
                assert(entries[entries.len() - 1] == entries.last());
                assert(entries[entries.len() - 1].0 == k);
            } else {
                assert(map_of(entries.drop_last()).dom().contains(k));
                let i = choose|i: int|
                    0 <= i < entries.drop_last().len() && (#[trigger] entries.drop_last()[i]).0
                        == k;
                assert(entries.drop_last()[i] == entries[i]);
                assert(entries[i].0 == k);
            }
        }
        assert forall|k: u64|
            (exists|i: int| 0 <= i < entries.len() && (#[trigger] entries[i]).0 == k) implies
            #[trigger] map_of(entries).dom().contains(k) by {
            let i = choose|i: int| 0 <= i < entries.len() && (#[trigger] entries[i]).0 == k;
            if i < entries.len() - 1 {
                assert(entries.drop_last()[i] == entries[i]);
                assert(entries.drop_last()[i].0 == k);
                assert(map_of(entries.drop_last()).dom().contains(k));
            } else {
                assert(entries[entries.len() - 1] == entries.last());
            }
        }
        if keys_unique(entries) {
            assert(keys_unique(entries.drop_last()));
            assert forall|i: int| 0 <= i < entries.len() implies map_of(entries).dom().contains(
                (#[trigger] entries[i]).0,
            ) && map_of(entries)[entries[i].0] == entries[i].1 by {
                if i < entries.len() - 1 {
                    assert(entries.drop_last()[i] == entries[i]);
                    assert(map_of(entries.drop_last()).dom().contains(entries.drop_last()[i].0));
                    assert(map_of(entries.drop_last())[entries[i].0] == entries[i].1);
                    assert(entries[entries.len() - 1] == entries.last());
                    assert(entries[i].0 != entries.last().0);
                } else {
                    assert(entries[entries.len() - 1] == entries.last());
                }
            }
        }
    }
}

/// With no key repeated, the denoted map has exactly one entry per list
/// entry.
pub proof fn lemma_map_of_dom_len<T>(entries: Seq<(u64, T)>)
    requires
        keys_unique(entries),
    ensures
        map_of(entries).dom().finite(),
        map_of(entries).dom().len() == entries.len(),
    decreases entries.len(),
{
    if entries.len() > 0 {
        assert(keys_unique(entries.drop_last()));
        lemma_map_of_dom_len(entries.drop_last());
        lemma_map_of_entries(entries.drop_last());
        assert(!map_of(entries.drop_last()).dom().contains(entries.last().0)) by {
            if map_of(entries.drop_last()).dom().contains(entries.last().0) {
                let i = choose|i: int|
                    0 <= i < entries.drop_last().len() && (#[trigger] entries.drop_last()[i]).0
                        == entries.last().0;
                assert(entries.drop_last()[i] == entries[i]);
                assert(entries[entries.len() - 1] == entries.last());
                assert(false);
            }
        }
        assert(map_of(entries).dom() =~= map_of(entries.drop_last()).dom().insert(
            entries.last().0,
        ));
    } else {
        assert(map_of(entries).dom() =~= Set::<u64>::empty());
    }
}

/// Replacing the value of entry `i` updates the denoted map at its key.
pub proof fn lemma_map_of_update<T>(entries: Seq<(u64, T)>, i: int, v: T)
    requires
        keys_unique(entries),
        0 <= i < entries.len(),
    ensures
        keys_unique(entries.update(i, (entries[i].0, v))),
        map_of(entries.update(i, (entries[i].0, v))) == map_of(entries).insert(entries[i].0, v),
    decreases entries.len(),
{
    let updated = entries.update(i, (entries[i].0, v));
    assert forall|a: int, b: int| 0 <= a < b < updated.len() implies (#[trigger] updated[a]).0 != (
    #[trigger] updated[b]).0 by {
        assert(updated[a].0 == entries[a].0 && updated[b].0 == entries[b].0);
    }
    if i == entries.len() - 1 {
        assert(updated.drop_last() =~= entries.drop_last());
        assert(map_of(updated) =~= map_of(entries).insert(entries[i].0, v));
    } else {
        assert(keys_unique(entries.drop_last()));
        assert(entries.drop_last()[i] == entries[i]);
        lemma_map_of_update(entries.drop_last(), i, v);
        assert(updated.drop_last() =~= entries.drop_last().update(i, (entries[i].0, v)));
        assert(updated.last() == entries.last());
        assert(map_of(updated) == map_of(entries.drop_last()).insert(entries[i].0, v).insert(
            entries.last().0,
            entries.last().1,
        ));
        assert(entries[i].0 != entries.last().0);
        assert(map_of(entries.drop_last()).insert(entries[i].0, v).insert(
            entries.last().0,
            entries.last().1,
        ) =~= map_of(entries).insert(entries[i].0, v));
    }
}

/// Removing entry `i` removes exactly its key from the denoted map.
pub proof fn lemma_map_of_remove<T>(entries: Seq<(u64, T)>, i: int)
    requires
        keys_unique(entries),
        0 <= i < entries.len(),
    ensures
        keys_unique(entries.remove(i)),
        map_of(entries.remove(i)) == map_of(entries).remove(entries[i].0),
    decreases entries.len(),
{
    let removed = entries.remove(i);
    assert forall|a: int, b: int| 0 <= a < b < removed.len() implies (#[trigger] removed[a]).0 != (
    #[trigger] removed[b]).0 by {
        let a0 = if a < i {
            a
        } else {
            a + 1
        };
        let b0 = if b < i {
            b
        } else {
            b + 1
        };
        assert(removed[a].0 == entries[a0].0 && removed[b].0 == entries[b0].0);
    }
    lemma_map_of_entries(entries);
    lemma_map_of_entries(removed);
    if i == entries.len() - 1 {
        assert(removed =~= entries.drop_last());
        assert forall|k: u64| #[trigger]
            map_of(entries).remove(entries[i].0).dom().contains(k) implies map_of(
            removed,
        ).dom().contains(k) by {
            let a = choose|a: int| 0 <= a < entries.len() && (#[trigger] entries[a]).0 == k;
            assert(a < entries.len() - 1);
            assert(removed[a].0 == k);
        }
        assert(map_of(removed) =~= map_of(entries).remove(entries[i].0));
    } else {
        assert(keys_unique(entries.drop_last()));
        assert(entries.drop_last()[i] == entries[i]);
        lemma_map_of_remove(entries.drop_last(), i);
        assert(removed.drop_last() =~= entries.drop_last().remove(i));
        assert(removed.last() == entries.last());
        assert(map_of(removed) == map_of(entries.drop_last()).remove(entries[i].0).insert(
            entries.last().0,
            entries.last().1,
        ));
        assert(entries[i].0 != entries.last().0);
        assert(map_of(entries.drop_last()).remove(entries[i].0).insert(
            entries.last().0,
            entries.last().1,
        ) =~= map_of(entries).remove(entries[i].0));
    }
}

/// A table with values that can be accessed by using a Board. Will consider
/// symmetrical boards to be the same.
pub struct TranspositionTable<T> {
    entries: Vec<(u64, T)>,
}

impl<T: Copy> TranspositionTable<T> {
    /// The entries the table holds, in insertion order.
    pub closed spec fn entries_view(self) -> Seq<(u64, T)> {
        self.entries@
    }

    /// The mapping from canonical board keys to values.
    pub open spec fn as_map(self) -> Map<u64, T> {
        map_of(self.entries_view())
    }

    /// Each key occurs at most once.
    pub open spec fn wf(self) -> bool {
        keys_unique(self.entries_view())
    }

    /// An empty table.
    pub fn new() -> (r: TranspositionTable<T>)
        ensures
            r.wf(),
            r.as_map() == Map::<u64, T>::empty(),
            r.entries_view().len() == 0,
    {
        TranspositionTable { entries: Vec::new() }
    }

    /// The position of the entry holding a key, if any.
    fn find(&self, key: u64) -> (r: Option<usize>)
        ensures
            match r {
                Some(i) => i < self.entries_view().len() && self.entries_view()[i as int].0 == key,
                None => forall|i: int|
                    0 <= i < self.entries_view().len() ==> (#[trigger] self.entries_view()[i]).0
                        != key,
            },
    {
        let mut i: usize = 0;
        while i < self.entries.len()
            invariant
                0 <= i <= self.entries@.len(),
                forall|a: int| 0 <= a < i ==> (#[trigger] self.entries@[a]).0 != key,
            decreases self.entries@.len() - i,
        {
            if self.entries[i].0 == key {
                return Some(i);
            }
            i = i + 1;
        }
        None
    }

    /// Gets a value in the table corresponding to a board, trying the
    /// board's own key first and its mirror image's key second.
    pub fn get_transposed(&self, board: &Board) -> (r: Option<(T, IsFlipped)>)
        requires
            self.wf(),
            board.wf(),
        ensures
            ({
                let m = self.as_map();
                let nk = board_key(board.grid()) as u64;
                let fk = board_key(mirrored(board.grid())) as u64;
                match r {
                    Some(p) => {
                        if m.dom().contains(nk) {
                            p.0 == m[nk] && p.1 == IsFlipped::Normal
                        } else {
                            m.dom().contains(fk) && p.0 == m[fk] && p.1 == IsFlipped::Flipped
                        }
                    },
                    None => !m.dom().contains(nk) && !m.dom().contains(fk),
                }
            }),
    {
        proof {
            lemma_map_of_entries(self.entries@);
        }
        let normal = board.canonical_code();
        if let Some(i) = self.find(normal) {
            return Some((self.entries[i].1, IsFlipped::Normal));
        }
        let flipped = board.mirrored_code();
        if let Some(i) = self.find(flipped) {
            return Some((self.entries[i].1, IsFlipped::Flipped));
        }
        None
    }

    /// Inserts a key value pair into the transposition table, keyed by the
    /// board's own canonical code.
    pub fn insert(&mut self, board: &Board, value: T)
        requires
            old(self).wf(),
            board.wf(),
        ensures
            final(self).wf(),
            final(self).as_map() == old(self).as_map().insert(
                board_key(board.grid()) as u64,
                value,
            ),
            final(self).entries_view().len() <= old(self).entries_view().len() + 1,
    {
        proof {
            lemma_map_of_entries(self.entries@);
        }
        let key = board.canonical_code();
        self.insert_key(key, value);
    }

    /// Inserts a value under an explicit key.
    pub fn insert_key(&mut self, key: u64, value: T)
        requires
            old(self).wf(),
        ensures
            final(self).wf(),
            final(self).as_map() == old(self).as_map().insert(key, value),
            final(self).entries_view().len() <= old(self).entries_view().len() + 1,
    {
        match self.find(key) {
            Some(i) => {
                proof {
                    lemma_map_of_update(self.entries@, i as int, value);
                }
                self.entries.set(i, (key, value));
            },
            None => {
                let ghost prev = self.entries@;
                self.entries.push((key, value));
                proof {
                    assert(self.entries@.drop_last() =~= prev);
                    assert forall|a: int, b: int| 0 <= a < b < self.entries@.len() implies (
                    #[trigger] self.entries@[a]).0 != (#[trigger] self.entries@[b]).0 by {
                        if b < self.entries@.len() - 1 {
                            assert(prev[a].0 != prev[b].0);
                        } else {
                            assert(prev[a].0 != key);
                        }
                    }
                }
            },
        }
    }

    /// Removes the entry under an explicit key, if present.
    pub fn remove_key(&mut self, key: u64)
        requires
            old(self).wf(),
        ensures
            final(self).wf(),
            final(self).as_map() == old(self).as_map().remove(key),
    {
        proof {
            lemma_map_of_entries(self.entries@);
        }
        match self.find(key) {
            Some(i) => {
                proof {
                    lemma_map_of_remove(self.entries@, i as int);
                }
                self.entries.remove(i);
            },
            None => {
                proof {
                    assert(!self.as_map().dom().contains(key));
                    assert(self.as_map() =~= self.as_map().remove(key));
                }
            },
        }
    }

    /// Gets a reference to the entries of the transposition table.
    pub fn iter(&self) -> (r: &Vec<(u64, T)>)
        ensures
            r@ == self.entries_view(),
    {
        &self.entries
    }

    /// Gets how many entries are in the table.
    pub fn len(&self) -> (r: usize)
        ensures
            r == self.entries_view().len(),
            self.wf() ==> r == self.as_map().dom().len(),
    {
        proof {
            if self.wf() {
                lemma_map_of_dom_len(self.entries@);
            }
        }
        self.entries.len()
    }
}

/// A table with weak-style references to every board state that has been
/// created, held in an arena of slots. Will consider symmetrical board
/// states to be the same.
pub struct TranspositionStateTable {
    table: TranspositionTable<usize>,
    nodes: Vec<Option<BoardState>>,
}

impl TranspositionStateTable {
    /// The arena slots: freed slots hold nothing.
    pub closed spec fn nodes_view(self) -> Seq<Option<BoardState>> {
        self.nodes@
    }

    /// The mapping from canonical board keys to arena indices.
    pub closed spec fn key_map(self) -> Map<u64, usize> {
        self.table.as_map()
    }

    /// How many slots the arena has ever allocated.
    pub open spec fn num_slots(self) -> int {
        self.nodes_view().len() as int
    }

    /// Whether slot `i` holds a live node.
    pub open spec fn alive(self, i: int) -> bool {
        0 <= i < self.nodes_view().len() && self.nodes_view()[i] is Some
    }

    /// The node in slot `i`.
    pub open spec fn node(self, i: int) -> BoardState {
        self.nodes_view()[i]->Some_0
    }

    /// The grid of the node in slot `i`.
    pub open spec fn grid_of(self, i: int) -> Grid {
        self.node(i).board.grid()
    }

    /// One child edge is consistent: it names a live node one legal move
    /// after the parent, stored either as played or mirror-flipped, with the
    /// turn alternated.
    pub open spec fn edge_ok(self, i: int, e: ChildState) -> bool {
        &&& self.alive(e.state as int)
        &&& e.last_move < BOARD_WIDTH
        &&& self.grid_of(i)[e.last_move as int].len() < BOARD_HEIGHT
        &&& {
            let rb = drop_result(self.grid_of(i), e.last_move as int, self.node(i).turn);
            if e.is_flipped == IsFlipped::Normal {
                self.grid_of(e.state as int) == rb
            } else {
                self.grid_of(e.state as int) == mirrored(rb)
            }
        }
        &&& self.node(e.state as int).turn == !self.node(i).turn
    }

    /// A live node is consistent: well formed in isolation, every edge
    /// consistent, and, once expanded, holding a child for every legal move.
    pub open spec fn node_ok(self, i: int) -> bool {
        &&& self.node(i).node_wf()
        &&& self.node(i).children@.len() <= BOARD_WIDTH
        &&& forall|k: int|
            0 <= k < self.node(i).children@.len() ==> self.edge_ok(
                i,
                #[trigger] self.node(i).children@[k],
            )
        &&& (self.node(i).children@.len() > 0 ==> forall|c: int|
            0 <= c < BOARD_WIDTH && #[trigger] self.grid_of(i)[c].len() < BOARD_HEIGHT
                ==> exists|k: int|
                0 <= k < self.node(i).children@.len() && (#[trigger] self.node(
                    i,
                ).children@[k]).last_move == c)
    }

    /// Every table entry points at a live node it is the key of, and every
    /// live node is on file under its key.
    pub open spec fn keys_ok(self) -> bool {
        &&& forall|k: u64|
            #[trigger] self.key_map().dom().contains(k) ==> self.alive(self.key_map()[k] as int)
                && grid_key(self.grid_of(self.key_map()[k] as int)) == k
        &&& forall|i: int|
            #[trigger] self.alive(i) ==> self.key_map().dom().contains(grid_key(self.grid_of(i)))
                && self.key_map()[grid_key(self.grid_of(i))] == i
    }

    /// No two live nodes are mirror images of one another: each position is
    /// materialized at most once up to symmetry.
    pub open spec fn mirror_distinct(self) -> bool {
        forall|i: int, j: int|
            #[trigger] self.alive(i) && #[trigger] self.alive(j) && self.grid_of(j) == mirrored(
                self.grid_of(i),
            ) ==> i == j
    }

    /// All live nodes agree on which player moves at which parity of the
    /// piece count.
    pub open spec fn parity_ok(self) -> bool {
        forall|i: int, j: int|
            self.alive(i) && self.alive(j) ==> turn_base(
                #[trigger] self.node(i).turn,
                piece_count(self.grid_of(i)),
            ) == turn_base(#[trigger] self.node(j).turn, piece_count(self.grid_of(j)))
    }

    /// The key table holds each key at most once.
    pub closed spec fn table_wf(self) -> bool {
        self.table.wf()
    }

    /// The whole table is consistent.
    pub open spec fn wf(self) -> bool {
        &&& self.table_wf()
        &&& forall|i: int| #[trigger] self.alive(i) ==> self.node_ok(i)
        &&& self.keys_ok()
        &&& self.mirror_distinct()
        &&& self.parity_ok()
    }

    /// A new node can join the table: its anchor matches every live node's.
    pub open spec fn parity_compatible(self, g: Grid, turn: bool) -> bool {
        forall|j: int|
            #[trigger] self.alive(j) ==> turn_base(turn, piece_count(g)) == turn_base(
                self.node(j).turn,
                piece_count(self.grid_of(j)),
            )
    }

    /// An empty state table.
    pub fn new() -> (r: TranspositionStateTable)
        ensures
            r.wf(),
            r.num_slots() == 0,
            r.key_map() == Map::<u64, usize>::empty(),
    {
        TranspositionStateTable { table: TranspositionTable::new(), nodes: Vec::new() }
    }

    /// Gets a reference to the arena slots.
    pub fn nodes_ref(&self) -> (r: &Vec<Option<BoardState>>)
        ensures
            r@ == self.nodes_view(),
    {
        &self.nodes
    }

    /// Gets how many entries are in the table: one per live node.
    pub fn len(&self) -> (r: usize)
        requires
            self.wf(),
        ensures
            r == self.key_map().dom().len(),
            r == 0 <==> self.key_map() == Map::<u64, usize>::empty(),
    {
        proof {
            lemma_map_of_entries(self.table.entries_view());
            lemma_map_of_dom_len(self.table.entries_view());
            if self.table.entries_view().len() == 0 {
                assert(self.key_map() =~= Map::<u64, usize>::empty());
            } else {
                let e0 = self.table.entries_view()[0];
                assert(self.key_map().dom().contains(e0.0));
            }
        }
        self.table.len()
    }

    /// Using a board, gets a corresponding BoardState transposition.
    ///
    /// The IsFlipped return value represents whether the returned
    /// transposition is horizontally flipped. A position already on file,
    /// directly or as a mirror image, is returned rather than rebuilt.
    pub fn get_board_state(&mut self, board: Board, turn: bool) -> (r: (usize, IsFlipped))
        requires
            old(self).wf(),
            board.wf(),
            old(self).parity_compatible(board.grid(), turn),
        ensures
            final(self).wf(),
            final(self).alive(r.0 as int),
            old(self).num_slots() <= final(self).num_slots(),
            forall|i: int|
                #[trigger] old(self).alive(i) ==> final(self).alive(i) && final(self).node(i)
                    == old(self).node(i),
            forall|i: int|
                0 <= i < old(self).num_slots() && !old(self).alive(i) ==> !final(self).alive(i),
            r.1 == IsFlipped::Normal ==> final(self).grid_of(r.0 as int) == board.grid(),
            r.1 == IsFlipped::Flipped ==> final(self).grid_of(r.0 as int) == mirrored(
                board.grid(),
            ),
            final(self).node(r.0 as int).turn == turn,
            old(self).key_map().dom().contains(grid_key(board.grid())) ==> {
                &&& r.0 == old(self).key_map()[grid_key(board.grid())]
                &&& r.1 == IsFlipped::Normal
                &&& *final(self) == *old(self)
            },
            !old(self).key_map().dom().contains(grid_key(board.grid())) && old(
                self,
            ).key_map().dom().contains(grid_key(mirrored(board.grid()))) ==> {
                &&& r.0 == old(self).key_map()[grid_key(mirrored(board.grid()))]
                &&& r.1 == IsFlipped::Flipped
                &&& *final(self) == *old(self)
            },
            !old(self).key_map().dom().contains(grid_key(board.grid())) && !old(
                self,
            ).key_map().dom().contains(grid_key(mirrored(board.grid()))) ==> {
                &&& r.0 == old(self).num_slots()
                &&& r.1 == IsFlipped::Normal
                &&& final(self).num_slots() == old(self).num_slots() + 1
                &&& final(self).node(r.0 as int).children@.len() == 0
                &&& final(self).node(r.0 as int).rollout_results == (RolloutResults {
                    success: 0,
                    total: 0,
                })
                &&& final(self).key_map() == old(self).key_map().insert(
                    grid_key(board.grid()),
                    r.0,
                )
            },
    {
        proof {
            board.lemma_wf_grid();
        }
        let found = self.table.get_transposed(&board);
        match found {
            Some((i, f)) => {
                proof {
                    let g = board.grid();
                    let nk = grid_key(g);
                    let fk = grid_key(mirrored(g));
                    if self.key_map().dom().contains(nk) {
                        let j = self.key_map()[nk] as int;
                        assert(self.alive(j));
                        assert(grid_key(self.grid_of(j)) == nk);
                        assert(self.node(j).node_wf());
                        self.node(j).board.lemma_wf_grid();
                        lemma_grid_key_injective(self.grid_of(j), g);
                        assert(self.grid_of(j) == g);
                    } else {
                        let j = self.key_map()[fk] as int;
                        assert(self.alive(j));
                        assert(grid_key(self.grid_of(j)) == fk);
                        self.node(j).board.lemma_wf_grid();
                        assert(grid_wf(mirrored(g)));
                        lemma_grid_key_injective(self.grid_of(j), mirrored(g));
                        assert(self.grid_of(j) == mirrored(g));
                    }
                    // the hit node's turn matches the requested turn
                    let j = i as int;
                    crate::board::lemma_mirror_piece_count(g);
                    lemma_piece_count_bounds(g);
                    assert(turn_base(turn, piece_count(self.grid_of(j))) == turn_base(
                        self.node(j).turn,
                        piece_count(self.grid_of(j)),
                    ));
                    assert(self.node(j).turn == turn);
                }
                (i, f)
            },
            None => {
                let idx = self.nodes.len();
                let key = board.canonical_code();
                proof {
                    lemma_key_from_bounds(board.grid(), 0);
                    crate::board::lemma_pow128_le_u64();
                    assert(key == grid_key(board.grid()));
                }
                let node = BoardState::new(board, turn);
                let ghost oldt = *self;
                self.nodes.push(Some(node));
                self.table.insert_key(key, idx);
                proof {
                    let t = *self;
                    let g = t.grid_of(idx as int);
                    assert forall|i: int| #[trigger] oldt.alive(i) implies t.alive(i) && t.node(i)
                        == oldt.node(i) by {
                        assert(t.nodes_view()[i] == oldt.nodes_view()[i]);
                    }
                    assert(t.alive(idx as int));
                    assert forall|i: int| #[trigger] t.alive(i) implies t.node_ok(i) by {
                        if i == idx as int {
                            assert(t.node(i).children@.len() == 0);
                        } else {
                            assert(oldt.alive(i));
                            assert(oldt.node_ok(i));
                            assert forall|k: int|
                                0 <= k < t.node(i).children@.len() implies t.edge_ok(
                                i,
                                #[trigger] t.node(i).children@[k],
                            ) by {
                                assert(oldt.edge_ok(i, oldt.node(i).children@[k]));
                                assert(t.alive(oldt.node(i).children@[k].state as int));
                            }
                        }
                    }
                    assert forall|k: u64| #[trigger] t.key_map().dom().contains(k) implies t.alive(
                        t.key_map()[k] as int,
                    ) && grid_key(t.grid_of(t.key_map()[k] as int)) == k by {
                        if k == key {
                        } else {
                            assert(oldt.key_map().dom().contains(k));
                            assert(oldt.alive(oldt.key_map()[k] as int));
                        }
                    }
                    assert forall|i: int| #[trigger] t.alive(i) implies t.key_map().dom().contains(
                        grid_key(t.grid_of(i)),
                    ) && t.key_map()[grid_key(t.grid_of(i))] == i by {
                        if i == idx as int {
                        } else {
                            assert(oldt.alive(i));
                            // the new key cannot collide with a live node's key
                            if grid_key(t.grid_of(i)) == key {
                                oldt.node(i).board.lemma_wf_grid();
                                assert(oldt.key_map().dom().contains(grid_key(oldt.grid_of(i))));
                                assert(false);
                            }
                        }
                    }
                    assert forall|i: int, j: int|
                        #[trigger] t.alive(i) && #[trigger] t.alive(j) && t.grid_of(j) == mirrored(
                            t.grid_of(i),
                        ) implies i == j by {
                        if i == idx as int && j != idx as int {
                            assert(oldt.alive(j));
                            oldt.node(j).board.lemma_wf_grid();
                            assert(grid_wf(mirrored(g)));
                            assert(grid_key(oldt.grid_of(j)) == grid_key(mirrored(g)));
                            assert(oldt.key_map().dom().contains(grid_key(mirrored(g))));
                            assert(false);
                        } else if j == idx as int && i != idx as int {
                            assert(oldt.alive(i));
                            oldt.node(i).board.lemma_wf_grid();
                            lemma_mirror_involution(t.grid_of(i));
                            assert(oldt.grid_of(i) == mirrored(g));
                            assert(grid_key(oldt.grid_of(i)) == grid_key(mirrored(g)));
                            assert(oldt.key_map().dom().contains(grid_key(mirrored(g))));
                            assert(false);
                        } else if i != idx as int && j != idx as int {
                            assert(oldt.alive(i) && oldt.alive(j));
                        }
                    }
                    assert forall|i: int, j: int| t.alive(i) && t.alive(j) implies turn_base(
                        #[trigger] t.node(i).turn,
                        piece_count(t.grid_of(i)),
                    ) == turn_base(#[trigger] t.node(j).turn, piece_count(t.grid_of(j))) by {
                        if i != idx as int {
                            assert(oldt.alive(i));
                        }
                        if j != idx as int {
                            assert(oldt.alive(j));
                        }
                    }
                }
                (idx, IsFlipped::Normal)
            },
        }
    }
}

/// The column to try at position `k` of the tuned, center-first move order.
pub open spec fn ideal_col(k: int) -> int {
    if k == 0 {
        3
    } else if k == 1 {
        4
    } else if k == 2 {
        2
    } else if k == 3 {
        5
    } else if k == 4 {
        1
    } else if k == 5 {
        6
    } else {
        0
    }
}

/// Used to optimize alpha-beta pruning by generating moves that are most
/// likely to be good first.
fn ideal_col_exec(k: u8) -> (r: u8)
    requires
        k < BOARD_WIDTH,
    ensures
        r as int == ideal_col(k as int),
        r < BOARD_WIDTH,
{
    if k == 0 {
        3
    } else if k == 1 {
        4
    } else if k == 2 {
        2
    } else if k == 3 {
        5
    } else if k == 4 {
        1
    } else if k == 5 {
        6
    } else {
        0
    }
}

/// The legal columns of a position among the first `k` entries of the tuned
/// order, kept in that order.
pub open spec fn ideal_filtered(g: Grid, k: int) -> Seq<int>
    decreases k,
{
    if k <= 0 {
        Seq::empty()
    } else {
        let rest = ideal_filtered(g, k - 1);
        if g[ideal_col(k - 1)].len() < BOARD_HEIGHT {
            rest.push(ideal_col(k - 1))
        } else {
            rest
        }
    }
}

/// Every column is somewhere in the tuned order.
proof fn lemma_ideal_cols_cover(c: int)
    requires
        0 <= c < BOARD_WIDTH,
    ensures
        exists|k: int| 0 <= k < BOARD_WIDTH && #[trigger] ideal_col(k) == c,
{
    if c == 3 {
        assert(ideal_col(0) == 3);
    } else if c == 4 {
        assert(ideal_col(1) == 4);
    } else if c == 2 {
        assert(ideal_col(2) == 2);
    } else if c == 5 {
        assert(ideal_col(3) == 5);
    } else if c == 1 {
        assert(ideal_col(4) == 1);
    } else if c == 6 {
        assert(ideal_col(5) == 6);
    } else {
        assert(ideal_col(6) == 0);
    }
}

impl TranspositionStateTable {
    /// Replacing one node by another with the same position, turn and
    /// outcome keeps the table consistent, as long as the new node's edges
    /// are consistent and, once expanded, complete.
    proof fn lemma_wf_after_node_update(
        pre: TranspositionStateTable,
        post: TranspositionStateTable,
        i: int,
    )
        requires
            pre.wf(),
            pre.alive(i),
            post.table_wf(),
            post.key_map() == pre.key_map(),
            post.num_slots() == pre.num_slots(),
            post.alive(i),
            forall|j: int|
                0 <= j < pre.num_slots() && j != i ==> #[trigger] post.nodes_view()[j]
                    == pre.nodes_view()[j],
            post.grid_of(i) == pre.grid_of(i),
            post.node(i).turn == pre.node(i).turn,
            post.node(i).game_over == pre.node(i).game_over,
            post.node_ok(i),
        ensures
            post.wf(),
    {
        assert forall|j: int| #[trigger] post.alive(j) implies post.node_ok(j) by {
            if j != i {
                assert(pre.alive(j));
                assert(pre.node_ok(j));
                assert(post.node(j) == pre.node(j));
                assert forall|k: int|
                    0 <= k < post.node(j).children@.len() implies post.edge_ok(
                    j,
                    #[trigger] post.node(j).children@[k],
                ) by {
                    let e = pre.node(j).children@[k];
                    assert(pre.edge_ok(j, e));
                    if e.state as int != i {
                        assert(post.nodes_view()[e.state as int] == pre.nodes_view()[e.state as int]);
                    }
                }
            }
        }
        assert forall|k: u64| #[trigger] post.key_map().dom().contains(k) implies post.alive(
            post.key_map()[k] as int,
        ) && grid_key(post.grid_of(post.key_map()[k] as int)) == k by {
            let j = pre.key_map()[k] as int;
            assert(pre.alive(j));
            if j != i {
                assert(post.nodes_view()[j] == pre.nodes_view()[j]);
            }
        }
        assert forall|j: int| #[trigger] post.alive(j) implies post.key_map().dom().contains(
            grid_key(post.grid_of(j)),
        ) && post.key_map()[grid_key(post.grid_of(j))] == j by {
            assert(pre.alive(j));
            if j != i {
                assert(post.nodes_view()[j] == pre.nodes_view()[j]);
            }
        }
        assert forall|a: int, b: int|
            #[trigger] post.alive(a) && #[trigger] post.alive(b) && post.grid_of(b) == mirrored(
                post.grid_of(a),
            ) implies a == b by {
            assert(pre.alive(a) && pre.alive(b));
            if a != i {
                assert(post.nodes_view()[a] == pre.nodes_view()[a]);
            }
            if b != i {
                assert(post.nodes_view()[b] == pre.nodes_view()[b]);
            }
            assert(pre.grid_of(b) == mirrored(pre.grid_of(a)));
        }
        assert forall|a: int, b: int| post.alive(a) && post.alive(b) implies turn_base(
            #[trigger] post.node(a).turn,
            piece_count(post.grid_of(a)),
        ) == turn_base(#[trigger] post.node(b).turn, piece_count(post.grid_of(b))) by {
            assert(pre.alive(a) && pre.alive(b));
            if a != i {
                assert(post.nodes_view()[a] == pre.nodes_view()[a]);
            }
            if b != i {
                assert(post.nodes_view()[b] == pre.nodes_view()[b]);
            }
        }
    }

    /// Populates the children of node `i` with the positions one move ahead,
    /// obtained through the table so transpositions share a single node.
    ///
    /// If the node is decided, or its children were already generated via
    /// another path reaching the same transposition, nothing changes and no
    /// children are reported.
    pub fn generate_children(&mut self, i: usize) -> (r: Vec<usize>)
        requires
            old(self).wf(),
            old(self).alive(i as int),
        ensures
            final(self).wf(),
            old(self).num_slots() <= final(self).num_slots(),
            final(self).alive(i as int),
            forall|j: int|
                #[trigger] old(self).alive(j) ==> final(self).alive(j) && (j != i
                    ==> final(self).node(j) == old(self).node(j)),
            forall|j: int|
                0 <= j < old(self).num_slots() && !old(self).alive(j) ==> !final(self).alive(j),
            forall|j: int|
                old(self).num_slots() <= j < final(self).num_slots()
                    && #[trigger] final(self).alive(j) ==> final(self).node(j).children@.len()
                    == 0,
            final(self).grid_of(i as int) == old(self).grid_of(i as int),
            final(self).node(i as int).turn == old(self).node(i as int).turn,
            final(self).node(i as int).game_over == old(self).node(i as int).game_over,
            final(self).node(i as int).rollout_results == old(self).node(i as int).rollout_results,
            (old(self).node(i as int).game_over != GameOver::NoWin || old(self).node(
                i as int,
            ).children@.len() > 0) ==> {
                &&& *final(self) == *old(self)
                &&& r@.len() == 0
            },
            (old(self).node(i as int).game_over == GameOver::NoWin && old(self).node(
                i as int,
            ).children@.len() == 0) ==> {
                &&& final(self).node(i as int).children@.len() == r@.len()
                &&& r@.len() > 0
                &&& forall|k: int|
                    0 <= k < r@.len() ==> #[trigger] r@[k] == final(self).node(
                        i as int,
                    ).children@[k].state as usize
                &&& Seq::new(
                    r@.len(),
                    |m: int| final(self).node(i as int).children@[m].last_move as int,
                ) == ideal_filtered(old(self).grid_of(i as int), BOARD_WIDTH as int)
            },
    {
        let mut out: Vec<usize> = Vec::new();

        // If this BoardState has an already decided game, no children are
        // generated
        let decided = match &self.nodes[i] {
            Some(n) => n.is_game_over(),
            None => GameOver::NoWin,
        };
        match decided {
            GameOver::NoWin => (),
            _ => {
                return out;
            },
        }
        // Children can be already generated if a different transposition
        // calculated them
        let already = match &self.nodes[i] {
            Some(n) => n.children.len(),
            None => 0,
        };
        if already > 0 {
            return out;
        }
        let (base_board, turn) = match &self.nodes[i] {
            Some(n) => (n.board.clone(), n.get_turn()),
            None => (Board::default(), false),
        };
        let ghost g = old(self).grid_of(i as int);
        proof {
            assert(base_board.grid() == g);
            assert(base_board.wf());
            base_board.lemma_wf_grid();
        }
        let mut children: Vec<ChildState> = Vec::new();
        let mut k: u8 = 0;
        while k < BOARD_WIDTH
            invariant
                self.wf(),
                self.alive(i as int),
                0 <= k <= BOARD_WIDTH,
                base_board.wf(),
                grid_wf(g),
                base_board.grid() == g,
                g == self.grid_of(i as int),
                turn == self.node(i as int).turn,
                self.node(i as int).game_over == GameOver::NoWin,
                self.node(i as int).children@.len() == 0,
                self.node(i as int).rollout_results == old(self).node(i as int).rollout_results,
                old(self).num_slots() <= self.num_slots(),
                forall|j: int|
                    #[trigger] old(self).alive(j) ==> self.alive(j) && self.node(j) == old(
                        self,
                    ).node(j),
                forall|j: int|
                    0 <= j < old(self).num_slots() && !old(self).alive(j) ==> !self.alive(j),
                forall|j: int|
                    old(self).num_slots() <= j < self.num_slots() && #[trigger] self.alive(j)
                        ==> self.node(j).children@.len() == 0,
                out@.len() == children@.len(),
                children@.len() <= k,
                forall|m: int|
                    0 <= m < children@.len() ==> #[trigger] out@[m] == children@[m].state as usize,
                forall|m: int|
                    0 <= m < children@.len() ==> self.edge_ok(i as int, #[trigger] children@[m]),
                forall|kk: int|
                    0 <= kk < k && g[ideal_col(kk)].len() < BOARD_HEIGHT ==> exists|m: int|
                        0 <= m < children@.len() && (#[trigger] children@[m]).last_move as int
                            == ideal_col(kk),
                Seq::new(children@.len() as nat, |m: int| children@[m].last_move as int)
                    == ideal_filtered(g, k as int),
            decreases BOARD_WIDTH as int - k as int,
        {
            let col = ideal_col_exec(k);
            let ghost prev_children = children@;
            let mut new_board = base_board.clone();
            let dropped = new_board.drop_piece(col, turn);
            match dropped {
                Err(_) => {
                    // If the column is full, we proceed to the next
                },
                Ok(_) => {
                    proof {
                        crate::board::lemma_drop_piece_count(g, col as int, turn);
                        lemma_piece_count_bounds(g);
                        crate::board_state::lemma_turn_base_step(turn, piece_count(g));
                        assert(self.parity_compatible(new_board.grid(), !turn));
                    }
                    let ghost pre = *self;
                    let (child_state, is_flipped) = self.get_board_state(new_board, !turn);
                    children.push(ChildState { state: child_state, last_move: col, is_flipped });
                    out.push(child_state);
                    proof {
                        assert(self.grid_of(i as int) == g);
                        assert forall|m: int|
                            0 <= m < children@.len() implies self.edge_ok(
                            i as int,
                            #[trigger] children@[m],
                        ) by {
                            if m < children@.len() - 1 {
                                assert(pre.edge_ok(i as int, children@[m]));
                                assert(self.alive(children@[m].state as int) && self.node(
                                    children@[m].state as int,
                                ) == pre.node(children@[m].state as int));
                            } else {
                                assert(children@[m] == (ChildState {
                                    state: child_state,
                                    last_move: col,
                                    is_flipped,
                                }));
                            }
                        }
                    }
                },
            }
            proof {
                assert forall|kk: int|
                    0 <= kk < k + 1 && g[ideal_col(kk)].len() < BOARD_HEIGHT implies exists|m: int|
                        0 <= m < children@.len() && (#[trigger] children@[m]).last_move as int
                            == ideal_col(kk) by {
                    if kk < k {
                        let m = choose|m: int|
                            0 <= m < prev_children.len() && (#[trigger] prev_children[
                                m]).last_move as int == ideal_col(kk);
                        assert(children@[m].last_move as int == ideal_col(kk));
                    } else {
                        assert(g[col as int].len() < BOARD_HEIGHT);
                        assert(children@.len() == prev_children.len() + 1);
                        assert(children@[children@.len() - 1].last_move as int == ideal_col(kk));
                    }
                }
                assert(Seq::new(children@.len() as nat, |m: int| children@[m].last_move as int)
                    =~= ideal_filtered(g, k as int + 1));
            }
            k = k + 1;
        }
        // Install the generated edges on the node
        let ghost pre = *self;
        let ghost kids = children@;
        let updated = match &self.nodes[i] {
            Some(n) => BoardState {
                board: n.board.clone(),
                children,
                rollout_results: n.rollout_results,
                turn: n.turn,
                game_over: n.game_over,
            },
            None => BoardState::new(Board::default(), false),
        };
        self.nodes.set(i, Some(updated));
        proof {
            assert(self.node(i as int).children@ == kids);
            assert(Seq::new(kids.len(), |m: int| kids[m].last_move as int) =~= Seq::new(
                self.node(i as int).children@.len(),
                |m: int| self.node(i as int).children@[m].last_move as int,
            ));
            assert(self.grid_of(i as int) == g);
            assert forall|m: int|
                0 <= m < self.node(i as int).children@.len() implies self.edge_ok(
                i as int,
                #[trigger] self.node(i as int).children@[m],
            ) by {
                assert(pre.edge_ok(i as int, kids[m]));
                let e = self.node(i as int).children@[m];
                if e.state as int != i {
                    assert(self.nodes_view()[e.state as int] == pre.nodes_view()[e.state as int]);
                } else {
                    assert(self.grid_of(i as int) == pre.grid_of(i as int));
                }
            }
            assert forall|c: int|
                0 <= c < BOARD_WIDTH && #[trigger] self.grid_of(i as int)[c].len() < BOARD_HEIGHT
                    implies exists|m: int|
                    0 <= m < self.node(i as int).children@.len() && (#[trigger] self.node(
                        i as int,
                    ).children@[m]).last_move as int == c by {
                lemma_ideal_cols_cover(c);
                let kk = choose|kk: int| 0 <= kk < BOARD_WIDTH && #[trigger] ideal_col(kk) == c;
                assert(g[ideal_col(kk)].len() < BOARD_HEIGHT);
                let m = choose|m: int|
                    0 <= m < kids.len() && (#[trigger] kids[m]).last_move as int == ideal_col(kk);
                assert(self.node(i as int).children@[m].last_move as int == c);
            }
            assert(self.node_ok(i as int)) by {
                assert(self.node(i as int).node_wf());
            }
            Self::lemma_wf_after_node_update(pre, *self, i as int);
            // the expanded node cannot be childless: an undecided board has
            // a legal move
            if self.node(i as int).children@.len() == 0 {
                assert(game_outcome(g, turn) == GameOver::NoWin);
                assert(!(forall|c: int|
                    0 <= c < BOARD_WIDTH ==> #[trigger] g[c].len() == BOARD_HEIGHT));
                let c = choose|c: int| 0 <= c < BOARD_WIDTH && #[trigger] g[c].len() != BOARD_HEIGHT;
                lemma_ideal_cols_cover(c);
                let kk = choose|kk: int| 0 <= kk < BOARD_WIDTH && #[trigger] ideal_col(kk) == c;
                assert(g[ideal_col(kk)].len() < BOARD_HEIGHT);
                assert(false);
            }
        }
        out
    }
}

/// How many entries of a marking are still false.
pub open spec fn count_false(s: Seq<bool>) -> int
    decreases s.len(),
{
    if s.len() == 0 {
        0
    } else {
        count_false(s.drop_last()) + (if s.last() {
            0int
        } else {
            1int
        })
    }
}

proof fn lemma_count_false_update(s: Seq<bool>, j: int)
    requires
        0 <= j < s.len(),
        !s[j],
    ensures
        count_false(s.update(j, true)) == count_false(s) - 1,
        count_false(s) >= 1,
    decreases s.len(),
{
    let u = s.update(j, true);
    if j == s.len() - 1 {
        assert(u.drop_last() =~= s.drop_last());
        lemma_count_false_nonneg(s.drop_last());
    } else {
        assert(u.drop_last() =~= s.drop_last().update(j, true));
        assert(u.last() == s.last());
        lemma_count_false_update(s.drop_last(), j);
    }
}

proof fn lemma_count_false_nonneg(s: Seq<bool>)
    ensures
        count_false(s) >= 0,
    decreases s.len(),
{
    if s.len() > 0 {
        lemma_count_false_nonneg(s.drop_last());
    }
}

impl TranspositionStateTable {
    /// Node `b` is a child of node `a`.
    pub open spec fn is_edge(self, a: int, b: int) -> bool {
        self.alive(a) && exists|k: int|
            0 <= k < self.node(a).children@.len() && (#[trigger] self.node(
                a,
            ).children@[k]).state as int == b
    }

    /// `p` walks child edges from `a` to `b`.
    pub open spec fn is_path(self, p: Seq<int>, a: int, b: int) -> bool {
        &&& p.len() >= 1
        &&& p[0] == a
        &&& p[p.len() - 1] == b
        &&& forall|x: int| 0 <= x < p.len() - 1 ==> self.is_edge(#[trigger] p[x], p[x + 1])
    }

    /// Node `b` lies in the subtree rooted at `a`.
    pub open spec fn reachable_from(self, a: int, b: int) -> bool {
        exists|p: Seq<int>| #[trigger] self.is_path(p, a, b)
    }

    /// Every node is in its own subtree.
    pub proof fn lemma_reachable_refl(self, a: int)
        requires
            self.alive(a),
        ensures
            self.reachable_from(a, a),
    {
        let p = seq![a];
        assert(self.is_path(p, a, a));
    }

    /// A subtree extends along child edges.
    pub proof fn lemma_reachable_step(self, a: int, b: int, c: int)
        requires
            self.reachable_from(a, b),
            self.is_edge(b, c),
        ensures
            self.reachable_from(a, c),
    {
        let p = choose|p: Seq<int>| #[trigger] self.is_path(p, a, b);
        let q = p.push(c);
        assert forall|x: int| 0 <= x < q.len() - 1 implies self.is_edge(#[trigger] q[x], q[x + 1]) by {
            if x < p.len() - 1 {
                assert(self.is_edge(p[x], p[x + 1]));
            }
        }
        assert(self.is_path(q, a, c));
    }

    /// Along a path of a consistent table every node is live, and the piece
    /// count never decreases.
    pub proof fn lemma_path_properties(self, p: Seq<int>, a: int, b: int)
        requires
            self.wf(),
            self.alive(a),
            self.is_path(p, a, b),
        ensures
            self.alive(b),
            piece_count(self.grid_of(b)) >= piece_count(self.grid_of(a)) + p.len() - 1,
        decreases p.len(),
    {
        if p.len() == 1 {
        } else {
            let q = p.drop_last();
            let m = p[p.len() - 2];
            assert(q[q.len() - 1] == m);
            assert forall|x: int| 0 <= x < q.len() - 1 implies self.is_edge(
                #[trigger] q[x],
                q[x + 1],
            ) by {
                assert(self.is_edge(p[x], p[x + 1]));
            }
            assert(self.is_path(q, a, m));
            self.lemma_path_properties(q, a, m);
            assert(self.is_edge(p[p.len() - 2], p[p.len() - 1]));
            let k = choose|k: int|
                0 <= k < self.node(m).children@.len() && (#[trigger] self.node(
                    m,
                ).children@[k]).state as int == b;
            let e = self.node(m).children@[k];
            assert(self.node_ok(m));
            assert(self.edge_ok(m, e));
            let rb = drop_result(self.grid_of(m), e.last_move as int, self.node(m).turn);
            self.node(m).board.lemma_wf_grid();
            crate::board::lemma_drop_piece_count(
                self.grid_of(m),
                e.last_move as int,
                self.node(m).turn,
            );
            if e.is_flipped == IsFlipped::Normal {
            } else {
                crate::board::lemma_mirror_piece_count(rb);
            }
        }
    }

    /// Every stop of a path is itself in the subtree of the path's start.
    pub proof fn lemma_path_prefix(self, p: Seq<int>, a: int, b: int, x: int)
        requires
            self.is_path(p, a, b),
            0 <= x < p.len(),
        ensures
            self.reachable_from(a, p[x]),
    {
        let q = p.take(x + 1);
        assert(q[q.len() - 1] == p[x]);
        assert forall|y: int| 0 <= y < q.len() - 1 implies self.is_edge(
            #[trigger] q[y],
            q[y + 1],
        ) by {
            assert(self.is_edge(p[y], p[y + 1]));
        }
        assert(self.is_path(q, a, p[x]));
    }

    /// Two tables with the same live slots and the same child targets reach
    /// the same nodes.
    pub proof fn lemma_reachable_same_edges(
        t1: TranspositionStateTable,
        t2: TranspositionStateTable,
        a: int,
        b: int,
    )
        requires
            t1.num_slots() == t2.num_slots(),
            forall|x: int| t1.alive(x) <==> t2.alive(x),
            forall|x: int|
                #[trigger] t1.alive(x) ==> t2.node(x).children@.len() == t1.node(
                    x,
                ).children@.len(),
            forall|x: int, k: int|
                t1.alive(x) && 0 <= k < t1.node(x).children@.len() ==> (#[trigger] t2.node(
                    x,
                ).children@[k]).state == t1.node(x).children@[k].state,
            t1.reachable_from(a, b),
        ensures
            t2.reachable_from(a, b),
    {
        let p = choose|p: Seq<int>| #[trigger] t1.is_path(p, a, b);
        assert forall|y: int| 0 <= y < p.len() - 1 implies t2.is_edge(
            #[trigger] p[y],
            p[y + 1],
        ) by {
            assert(t1.is_edge(p[y], p[y + 1]));
            let k = choose|k: int|
                0 <= k < t1.node(p[y]).children@.len() && (#[trigger] t1.node(
                    p[y],
                ).children@[k]).state as int == p[y + 1];
            assert(t2.node(p[y]).children@[k].state as int == p[y + 1]);
        }
        assert(t2.is_path(p, a, b));
    }

    /// A subtree stays inside any edge-closed marked set that holds its
    /// root.
    proof fn lemma_closed_marking(self, marks: Seq<bool>, p: Seq<int>, a: int, b: int)
        requires
            self.wf(),
            marks.len() == self.num_slots(),
            self.alive(a),
            0 <= a < marks.len(),
            marks[a],
            forall|j: int, k: int|
                0 <= j < marks.len() && marks[j] && self.alive(j) && 0 <= k < self.node(
                    j,
                ).children@.len() ==> marks[(#[trigger] self.node(j).children@[k]).state as int],
            self.is_path(p, a, b),
        ensures
            0 <= b < marks.len() && marks[b],
            self.alive(b),
        decreases p.len(),
    {
        if p.len() == 1 {
        } else {
            let q = p.drop_last();
            let m = p[p.len() - 2];
            assert(q[q.len() - 1] == m);
            assert forall|x: int| 0 <= x < q.len() - 1 implies self.is_edge(
                #[trigger] q[x],
                q[x + 1],
            ) by {
                assert(self.is_edge(p[x], p[x + 1]));
            }
            assert(self.is_path(q, a, m));
            self.lemma_closed_marking(marks, q, a, m);
            assert(self.is_edge(p[p.len() - 2], p[p.len() - 1]));
            let k = choose|k: int|
                0 <= k < self.node(m).children@.len() && (#[trigger] self.node(
                    m,
                ).children@[k]).state as int == b;
            assert(marks[(self.node(m).children@[k]).state as int]);
            assert(self.node_ok(m));
            assert(self.edge_ok(m, self.node(m).children@[k]));
        }
    }

    /// Marks every node of the subtree rooted at `root`.
    fn mark_reachable(&self, root: usize) -> (r: Vec<bool>)
        requires
            self.wf(),
            self.alive(root as int),
        ensures
            r@.len() == self.num_slots(),
            forall|i: int| 0 <= i < r@.len() ==> (r@[i] <==> self.reachable_from(root as int, i)),
            forall|i: int| 0 <= i < r@.len() && #[trigger] r@[i] ==> self.alive(i),
    {
        let n = self.nodes.len();
        let mut visited: Vec<bool> = vec![false; n];
        let mut stack: Vec<usize> = Vec::new();
        visited.set(root, true);
        stack.push(root);
        proof {
            self.lemma_reachable_refl(root as int);
            assert(stack@[0] == root);
            assert(stack@.contains(root));
        }
        loop
            invariant
                self.wf(),
                self.alive(root as int),
                visited@.len() == n,
                n == self.num_slots(),
                visited@[root as int],
                forall|i: int|
                    0 <= i < n && #[trigger] visited@[i] ==> self.reachable_from(root as int, i)
                        && self.alive(i),
                forall|x: int|
                    0 <= x < stack@.len() ==> 0 <= #[trigger] stack@[x] < n && visited@[stack@[
                        x] as int],
                forall|j: int, k: int|
                    0 <= j < n && visited@[j] && !stack@.contains(j as usize) && self.alive(j) && 0
                        <= k < self.node(j).children@.len() ==> visited@[(#[trigger] self.node(
                        j,
                    ).children@[k]).state as int],
            ensures
                visited@.len() == n,
                forall|i: int|
                    0 <= i < n && #[trigger] visited@[i] ==> self.reachable_from(root as int, i)
                        && self.alive(i),
                visited@[root as int],
                forall|j: int, k: int|
                    0 <= j < n && visited@[j] && self.alive(j) && 0 <= k < self.node(
                        j,
                    ).children@.len() ==> visited@[(#[trigger] self.node(
                        j,
                    ).children@[k]).state as int],
            decreases count_false(visited@), stack@.len(),
        {
            if stack.len() == 0 {
                break ;
            }
            let ghost cf0 = count_false(visited@);
            let ghost st0 = stack@.len() as int;
            let ghost prev_stack = stack@;
            let cur = match stack.pop() {
                Some(c) => c,
                None => 0,
            };
            proof {
                lemma_count_false_nonneg(visited@);
                assert(stack@ =~= prev_stack.drop_last());
                assert(prev_stack[prev_stack.len() - 1] == cur);
                assert forall|j: usize| !stack@.contains(j) && j != cur implies !prev_stack.contains(
                    j,
                ) by {
                    if prev_stack.contains(j) {
                        let x = choose|x: int| 0 <= x < prev_stack.len() && prev_stack[x] == j;
                        if x < prev_stack.len() - 1 {
                            assert(stack@[x] == j);
                        }
                    }
                }
                assert(visited@[cur as int]);
            }
            let child_count = match &self.nodes[cur] {
                Some(node) => node.children.len(),
                None => 0,
            };
            let mut k: usize = 0;
            while k < child_count
                invariant
                    self.wf(),
                    self.alive(root as int),
                    self.alive(cur as int),
                    cur < n,
                    visited@[cur as int],
                    self.reachable_from(root as int, cur as int),
                    child_count == self.node(cur as int).children@.len(),
                    0 <= k <= child_count,
                    visited@.len() == n,
                    n == self.num_slots(),
                    visited@[root as int],
                    forall|i: int|
                        0 <= i < n && #[trigger] visited@[i] ==> self.reachable_from(root as int, i)
                            && self.alive(i),
                    forall|x: int|
                        0 <= x < stack@.len() ==> 0 <= #[trigger] stack@[x] < n && visited@[stack@[
                            x] as int],
                    forall|j: int, kk: int|
                        0 <= j < n && visited@[j] && j != cur as int && !stack@.contains(j as usize)
                            && self.alive(j) && 0 <= kk < self.node(j).children@.len()
                            ==> visited@[(#[trigger] self.node(j).children@[kk]).state as int],
                    forall|kk: int|
                        0 <= kk < k ==> visited@[(#[trigger] self.node(
                            cur as int,
                        ).children@[kk]).state as int],
                    count_false(visited@) >= 0,
                    count_false(visited@) <= cf0,
                    stack@.len() - (st0 - 1) <= cf0 - count_false(visited@),
                decreases child_count - k,
            {
                let e_state = match &self.nodes[cur] {
                    Some(node) => node.children[k].get_state(),
                    None => 0,
                };
                proof {
                    assert(self.edge_ok(cur as int, self.node(cur as int).children@[k as int]));
                    assert(self.is_edge(cur as int, e_state as int)) by {
                        assert((self.node(cur as int).children@[k as int]).state as int
                            == e_state as int);
                    }
                    self.lemma_reachable_step(root as int, cur as int, e_state as int);
                }
                if !visited[e_state] {
                    proof {
                        lemma_count_false_update(visited@, e_state as int);
                    }
                    let ghost mid_stack = stack@;
                    visited.set(e_state, true);
                    stack.push(e_state);
                    proof {
                        assert(stack@[stack@.len() - 1] == e_state);
                        assert(stack@.contains(e_state));
                        assert forall|j: usize| !stack@.contains(j) implies !mid_stack.contains(
                            j,
                        ) by {
                            if mid_stack.contains(j) {
                                let x = choose|x: int| 0 <= x < mid_stack.len() && mid_stack[x] == j;
                                assert(stack@[x] == j);
                            }
                        }
                    }
                }
                k = k + 1;
            }
        }
        proof {
            assert forall|i: int| 0 <= i < n implies (visited@[i] <==> self.reachable_from(
                root as int,
                i,
            )) by {
                if self.reachable_from(root as int, i) {
                    let p = choose|p: Seq<int>| #[trigger] self.is_path(p, root as int, i);
                    self.lemma_closed_marking(visited@, p, root as int, i);
                }
            }
        }
        visited
    }

    /// After the sweep, the table holding only the marked slots and their
    /// keys is consistent, and its entries are exactly the live ones.
    #[verifier::spinoff_prover]
    proof fn lemma_clean_reestablish(
        pre: TranspositionStateTable,
        post: TranspositionStateTable,
        marks: Seq<bool>,
        root: int,
    )
        requires
            pre.wf(),
            pre.alive(root),
            marks.len() == pre.num_slots(),
            post.num_slots() == pre.num_slots(),
            forall|j: int| 0 <= j < marks.len() ==> (marks[j] <==> pre.reachable_from(root, j)),
            forall|j: int| 0 <= j < marks.len() && #[trigger] marks[j] ==> pre.alive(j),
            forall|x: int|
                0 <= x < marks.len() && #[trigger] marks[x] ==> post.nodes_view()[x]
                    == pre.nodes_view()[x],
            forall|x: int|
                0 <= x < marks.len() && !(#[trigger] marks[x]) ==> post.nodes_view()[x] is None,
            post.table_wf(),
            forall|j: int|
                0 <= j < marks.len() && #[trigger] marks[j] ==> post.key_map().dom().contains(
                    grid_key(pre.grid_of(j)),
                ) && post.key_map()[grid_key(pre.grid_of(j))] == j,
            forall|k: u64|
                #[trigger] post.key_map().dom().contains(k) ==> exists|j: int|
                    0 <= j < marks.len() && #[trigger] marks[j] && grid_key(pre.grid_of(j)) == k
                        && post.key_map()[k] == j,
        ensures
            post.wf(),
            forall|i: int|
                0 <= i < post.num_slots() ==> (post.alive(i) <==> pre.reachable_from(root, i)),
            forall|i: int| #[trigger] post.alive(i) ==> post.node(i) == pre.node(i),
            post.alive(root),
            forall|i: int| #[trigger] post.alive(i) ==> post.reachable_from(root, i),
            forall|k: u64|
                #[trigger] post.key_map().dom().contains(k) <==> (pre.key_map().dom().contains(k)
                    && pre.reachable_from(root, pre.key_map()[k] as int)),
            forall|k: u64|
                #[trigger] post.key_map().dom().contains(k) ==> post.key_map()[k]
                    == pre.key_map()[k],
    {
        let n = marks.len() as int;
        assert forall|x: int| 0 <= x < n implies (post.alive(x) <==> pre.reachable_from(
            root,
            x,
        )) by {
            if marks[x] {
                assert(post.nodes_view()[x] == pre.nodes_view()[x]);
                assert(pre.alive(x));
            } else {
                assert(post.nodes_view()[x] is None);
            }
        }
        pre.lemma_reachable_refl(root);
        assert forall|j2: int| #[trigger] post.alive(j2) implies post.key_map().dom().contains(
            grid_key(post.grid_of(j2)),
        ) && post.key_map()[grid_key(post.grid_of(j2))] == j2 by {
            assert(marks[j2]);
            assert(post.node(j2) == pre.node(j2));
        }
        assert forall|k: u64| #[trigger] post.key_map().dom().contains(k) implies post.alive(
            post.key_map()[k] as int,
        ) && grid_key(post.grid_of(post.key_map()[k] as int)) == k by {
            let j2 = choose|j2: int|
                0 <= j2 < n && #[trigger] marks[j2] && grid_key(pre.grid_of(j2)) == k
                    && post.key_map()[k] == j2;
            assert(post.nodes_view()[j2] == pre.nodes_view()[j2]);
        }
        assert forall|x: int| #[trigger] post.alive(x) implies post.node_ok(x) by {
            assert(marks[x]);
            assert(pre.alive(x) && pre.node_ok(x));
            assert(post.node(x) == pre.node(x));
            assert forall|k: int|
                0 <= k < post.node(x).children@.len() implies post.edge_ok(
                x,
                #[trigger] post.node(x).children@[k],
            ) by {
                let e = pre.node(x).children@[k];
                assert(pre.edge_ok(x, e));
                assert(pre.is_edge(x, e.state as int)) by {
                    assert((pre.node(x).children@[k]).state as int == e.state as int);
                }
                pre.lemma_reachable_step(root, x, e.state as int);
                assert(marks[e.state as int]);
                assert(post.nodes_view()[e.state as int] == pre.nodes_view()[e.state as int]);
            }
        }
        assert forall|a: int, b: int|
            #[trigger] post.alive(a) && #[trigger] post.alive(b) && post.grid_of(b) == mirrored(
                post.grid_of(a),
            ) implies a == b by {
            assert(pre.alive(a) && pre.alive(b));
            assert(post.node(a) == pre.node(a) && post.node(b) == pre.node(b));
            assert(pre.grid_of(b) == mirrored(pre.grid_of(a)));
        }
        assert forall|a: int, b: int| post.alive(a) && post.alive(b) implies turn_base(
            #[trigger] post.node(a).turn,
            piece_count(post.grid_of(a)),
        ) == turn_base(#[trigger] post.node(b).turn, piece_count(post.grid_of(b))) by {
            assert(pre.alive(a) && pre.alive(b));
            assert(post.node(a) == pre.node(a) && post.node(b) == pre.node(b));
        }
        assert forall|k: u64|
            (pre.key_map().dom().contains(k) && pre.reachable_from(
                root,
                pre.key_map()[k] as int,
            )) implies #[trigger] post.key_map().dom().contains(k) by {
            let j2 = pre.key_map()[k] as int;
            assert(pre.alive(j2));
            assert(marks[j2]);
            assert(grid_key(pre.grid_of(j2)) == k);
        }
        assert forall|i: int| #[trigger] post.alive(i) implies post.reachable_from(root, i) by {
            assert(pre.reachable_from(root, i));
            let p = choose|p: Seq<int>| #[trigger] pre.is_path(p, root, i);
            assert forall|y: int| 0 <= y < p.len() - 1 implies post.is_edge(
                #[trigger] p[y],
                p[y + 1],
            ) by {
                assert(pre.is_edge(p[y], p[y + 1]));
                pre.lemma_path_prefix(p, root, i, y);
                assert(marks[p[y]]);
                assert(post.nodes_view()[p[y]] == pre.nodes_view()[p[y]]);
                let k = choose|k: int|
                    0 <= k < pre.node(p[y]).children@.len() && (#[trigger] pre.node(
                        p[y],
                    ).children@[k]).state as int == p[y + 1];
                assert(post.node(p[y]).children@[k].state as int == p[y + 1]);
            }
            assert(post.is_path(p, root, i));
        }
        assert forall|k: u64| #[trigger] post.key_map().dom().contains(k) implies (
        pre.key_map().dom().contains(k) && pre.reachable_from(root, pre.key_map()[k] as int)
            && post.key_map()[k] == pre.key_map()[k]) by {
            let j2 = choose|j2: int|
                0 <= j2 < n && #[trigger] marks[j2] && grid_key(pre.grid_of(j2)) == k
                    && post.key_map()[k] == j2;
            assert(pre.alive(j2));
            assert(pre.key_map().dom().contains(grid_key(pre.grid_of(j2))));
            assert(pre.key_map()[k] == j2);
        }
    }

    /// Removes unreachable board states from the transposition table,
    /// keeping exactly the subtree of the given root: entries whose nodes
    /// have been dropped disappear, and no live entry does.
    /// The key table for exactly the marked slots.
    fn rebuild_key_table(&self, visited: &Vec<bool>) -> (r: TranspositionTable<usize>)
        requires
            self.wf(),
            visited@.len() == self.num_slots(),
            forall|j: int|
                0 <= j < visited@.len() && #[trigger] visited@[j] ==> self.alive(j),
        ensures
            r.wf(),
            forall|j: int|
                0 <= j < visited@.len() && #[trigger] visited@[j] ==> r.as_map().dom().contains(
                    grid_key(self.grid_of(j)),
                ) && r.as_map()[grid_key(self.grid_of(j))] == j,
            forall|k: u64|
                #[trigger] r.as_map().dom().contains(k) ==> exists|j: int|
                    0 <= j < visited@.len() && #[trigger] visited@[j] && grid_key(self.grid_of(j))
                        == k && r.as_map()[k] == j,
    {
        let n = self.nodes.len();
        let mut new_table: TranspositionTable<usize> = TranspositionTable::new();
        let mut i: usize = 0;
        while i < n
            invariant
                self.wf(),
                n == self.num_slots(),
                visited@.len() == n,
                forall|j: int| 0 <= j < n && #[trigger] visited@[j] ==> self.alive(j),
                0 <= i <= n,
                new_table.wf(),
                forall|j: int|
                    0 <= j < i && #[trigger] visited@[j] ==> new_table.as_map().dom().contains(
                        grid_key(self.grid_of(j)),
                    ) && new_table.as_map()[grid_key(self.grid_of(j))] == j,
                forall|k: u64|
                    #[trigger] new_table.as_map().dom().contains(k) ==> exists|j: int|
                        0 <= j < i && #[trigger] visited@[j] && grid_key(self.grid_of(j)) == k
                            && new_table.as_map()[k] == j,
            decreases n - i,
        {
            if visited[i] {
                let key = match &self.nodes[i] {
                    Some(node) => node.board.canonical_code(),
                    None => 0,
                };
                proof {
                    self.node(i as int).board.lemma_wf_grid();
                    lemma_key_from_bounds(self.grid_of(i as int), 0);
                    crate::board::lemma_pow128_le_u64();
                    assert(key == grid_key(self.grid_of(i as int)));
                }
                let ghost prev = new_table;
                new_table.insert_key(key, i);
                proof {
                    assert forall|k: u64|
                        #[trigger] new_table.as_map().dom().contains(k) implies exists|j: int|
                            0 <= j < i + 1 && #[trigger] visited@[j] && grid_key(
                                self.grid_of(j),
                            ) == k && new_table.as_map()[k] == j by {
                        if k == key {
                            assert(visited@[i as int] && grid_key(self.grid_of(i as int)) == k
                                && new_table.as_map()[k] == i as int);
                        } else {
                            assert(prev.as_map().dom().contains(k));
                            let j = choose|j: int|
                                0 <= j < i && #[trigger] visited@[j] && grid_key(self.grid_of(j))
                                    == k && prev.as_map()[k] == j;
                            assert(visited@[j] && grid_key(self.grid_of(j)) == k
                                && new_table.as_map()[k] == j);
                        }
                    }
                }
            }
            i = i + 1;
        }
        new_table
    }

    #[verifier::rlimit(100)]
    #[verifier::spinoff_prover]
    pub fn clean(&mut self, root: usize)
        requires
            old(self).wf(),
            old(self).alive(root as int),
        ensures
            final(self).wf(),
            final(self).num_slots() == old(self).num_slots(),
            forall|i: int|
                0 <= i < final(self).num_slots() ==> (final(self).alive(i) <==> old(
                    self,
                ).reachable_from(root as int, i)),
            forall|i: int|
                #[trigger] final(self).alive(i) ==> final(self).node(i) == old(self).node(i),
            final(self).alive(root as int),
            forall|i: int|
                #[trigger] final(self).alive(i) ==> final(self).reachable_from(root as int, i),
            forall|k: u64|
                #[trigger] final(self).key_map().dom().contains(k) <==> (old(
                    self,
                ).key_map().dom().contains(k) && old(self).reachable_from(
                    root as int,
                    old(self).key_map()[k] as int,
                )),
            forall|k: u64|
                #[trigger] final(self).key_map().dom().contains(k) ==> final(self).key_map()[k]
                    == old(self).key_map()[k],
    {
        let visited = self.mark_reachable(root);
        let n = self.nodes.len();
        let new_table = self.rebuild_key_table(&visited);
        let ghost pre = *self;
        self.table = new_table;
        let mut j: usize = 0;
        while j < n
            invariant
                n == self.num_slots(),
                visited@.len() == n,
                0 <= j <= n,
                self.table_wf(),
                self.key_map() == new_table.as_map(),
                forall|x: int| 0 <= x < j && !(#[trigger] visited@[x]) ==> self.nodes_view()[x] is None,
                forall|x: int|
                    j <= x < n && !(#[trigger] visited@[x]) ==> self.nodes_view()[x]
                        == pre.nodes_view()[x],
                forall|x: int|
                    0 <= x < n && #[trigger] visited@[x] ==> self.nodes_view()[x]
                        == pre.nodes_view()[x],
            decreases n - j,
        {
            if !visited[j] {
                self.nodes.set(j, None);
            }
            j = j + 1;
        }
        proof {
            Self::lemma_clean_reestablish(pre, *self, visited@, root as int);
        }
    }
}

impl TranspositionStateTable {
    /// Mirroring a node in place keeps the table consistent when no live
    /// node still points at it: its grandchild edges are re-aimed and its
    /// table key is exchanged for the mirror key.
    #[verifier::spinoff_prover]
    proof fn lemma_wf_after_flip(
        pre: TranspositionStateTable,
        post: TranspositionStateTable,
        cc: int,
    )
        requires
            pre.wf(),
            pre.alive(cc),
            forall|j: int, k: int|
                pre.alive(j) && 0 <= k < pre.node(j).children@.len() ==> (#[trigger] pre.node(
                    j,
                ).children@[k]).state as int != cc,
            post.num_slots() == pre.num_slots(),
            forall|j: int|
                0 <= j < pre.num_slots() && j != cc ==> #[trigger] post.nodes_view()[j]
                    == pre.nodes_view()[j],
            post.alive(cc),
            post.node(cc).board.wf(),
            post.grid_of(cc) == mirrored(pre.grid_of(cc)),
            post.node(cc).turn == pre.node(cc).turn,
            post.node(cc).game_over == pre.node(cc).game_over,
            post.node(cc).children@.len() == pre.node(cc).children@.len(),
            forall|k: int|
                0 <= k < pre.node(cc).children@.len() ==> {
                    let e0 = pre.node(cc).children@[k];
                    let e1 = #[trigger] post.node(cc).children@[k];
                    &&& e1.state == e0.state
                    &&& e1.last_move as int == BOARD_WIDTH - 1 - e0.last_move
                    &&& e0.last_move < BOARD_WIDTH
                    &&& e1.is_flipped == e0.is_flipped.spec_flip()
                },
            post.table_wf(),
            post.key_map() == pre.key_map().remove(grid_key(pre.grid_of(cc))).insert(
                grid_key(mirrored(pre.grid_of(cc))),
                cc as usize,
            ),
        ensures
            post.wf(),
    {
        let g = pre.grid_of(cc);
        let m = mirrored(g);
        pre.node(cc).board.lemma_wf_grid();
        assert(grid_wf(m));
        crate::win_check::lemma_mirror_outcome(g, pre.node(cc).turn);
        crate::board::lemma_mirror_piece_count(g);
        lemma_mirror_involution(g);
        // node consistency
        assert forall|j: int| #[trigger] post.alive(j) implies post.node_ok(j) by {
            if j == cc {
                assert(post.node(cc).node_wf());
                assert forall|k: int|
                    0 <= k < post.node(cc).children@.len() implies post.edge_ok(
                    cc,
                    #[trigger] post.node(cc).children@[k],
                ) by {
                    let e0 = pre.node(cc).children@[k];
                    let e1 = post.node(cc).children@[k];
                    assert(pre.edge_ok(cc, e0));
                    assert(e0.state as int != cc);
                    assert(post.nodes_view()[e0.state as int] == pre.nodes_view()[e0.state as int]);
                    let rb = drop_result(g, e0.last_move as int, pre.node(cc).turn);
                    crate::board::lemma_mirror_drop(g, e0.last_move as int, pre.node(cc).turn);
                    let rb2 = drop_result(m, e1.last_move as int, post.node(cc).turn);
                    assert(rb2 == mirrored(rb));
                    if e0.is_flipped == IsFlipped::Normal {
                        assert(post.grid_of(e1.state as int) == rb);
                        lemma_mirror_involution(rb);
                        assert(post.grid_of(e1.state as int) == mirrored(rb2));
                        assert(e1.is_flipped == IsFlipped::Flipped);
                    } else {
                        assert(post.grid_of(e1.state as int) == mirrored(rb));
                        assert(post.grid_of(e1.state as int) == rb2);
                        assert(e1.is_flipped == IsFlipped::Normal);
                    }
                    assert(m[e1.last_move as int].len() == g[e0.last_move as int].len());
                }
                if post.node(cc).children@.len() > 0 {
                    assert forall|c: int|
                        0 <= c < BOARD_WIDTH && #[trigger] post.grid_of(cc)[c].len()
                            < BOARD_HEIGHT implies exists|k: int|
                            0 <= k < post.node(cc).children@.len() && (#[trigger] post.node(
                                cc,
                            ).children@[k]).last_move as int == c by {
                        assert(g[BOARD_WIDTH - 1 - c].len() == m[c].len());
                        assert(pre.node_ok(cc));
                        let k = choose|k: int|
                            0 <= k < pre.node(cc).children@.len() && (#[trigger] pre.node(
                                cc,
                            ).children@[k]).last_move as int == BOARD_WIDTH - 1 - c;
                        assert(post.node(cc).children@[k].last_move as int == c);
                    }
                }
            } else {
                assert(pre.alive(j));
                assert(pre.node_ok(j));
                assert(post.node(j) == pre.node(j));
                assert forall|k: int|
                    0 <= k < post.node(j).children@.len() implies post.edge_ok(
                    j,
                    #[trigger] post.node(j).children@[k],
                ) by {
                    let e = pre.node(j).children@[k];
                    assert(pre.edge_ok(j, e));
                    assert(e.state as int != cc);
                    assert(post.nodes_view()[e.state as int] == pre.nodes_view()[e.state as int]);
                }
            }
        }
        // keys
        assert forall|k: u64| #[trigger] post.key_map().dom().contains(k) implies post.alive(
            post.key_map()[k] as int,
        ) && grid_key(post.grid_of(post.key_map()[k] as int)) == k by {
            if k == grid_key(m) {
            } else {
                assert(pre.key_map().dom().contains(k));
                let j = pre.key_map()[k] as int;
                assert(pre.alive(j));
                if j == cc {
                    assert(grid_key(pre.grid_of(cc)) == k);
                    assert(false);
                }
                assert(post.nodes_view()[j] == pre.nodes_view()[j]);
            }
        }
        assert forall|j: int| #[trigger] post.alive(j) implies post.key_map().dom().contains(
            grid_key(post.grid_of(j)),
        ) && post.key_map()[grid_key(post.grid_of(j))] == j by {
            if j == cc {
            } else {
                assert(pre.alive(j));
                assert(post.nodes_view()[j] == pre.nodes_view()[j]);
                assert(pre.key_map().dom().contains(grid_key(pre.grid_of(j))));
                assert(pre.key_map()[grid_key(pre.grid_of(j))] == j);
                // the mirror key cannot belong to another live node
                if grid_key(post.grid_of(j)) == grid_key(m) {
                    pre.node(j).board.lemma_wf_grid();
                    lemma_grid_key_injective(pre.grid_of(j), m);
                    assert(pre.grid_of(j) == mirrored(pre.grid_of(cc)));
                    assert(j == cc);
                    assert(false);
                }
                if grid_key(post.grid_of(j)) == grid_key(g) {
                    pre.node(j).board.lemma_wf_grid();
                    lemma_grid_key_injective(pre.grid_of(j), g);
                    assert(j == cc);
                    assert(false);
                }
            }
        }
        // mirror distinctness
        assert forall|a: int, b: int|
            #[trigger] post.alive(a) && #[trigger] post.alive(b) && post.grid_of(b) == mirrored(
                post.grid_of(a),
            ) implies a == b by {
            assert(pre.alive(a) && pre.alive(b));
            if a == cc && b == cc {
            } else if a == cc {
                assert(post.nodes_view()[b] == pre.nodes_view()[b]);
                assert(pre.grid_of(b) == mirrored(m));
                assert(pre.grid_of(b) == mirrored(mirrored(pre.grid_of(cc))));
                assert(pre.grid_of(b) == pre.grid_of(cc));
                pre.node(b).board.lemma_wf_grid();
                assert(grid_key(pre.grid_of(b)) == grid_key(pre.grid_of(cc)));
                assert(b == cc);
            } else if b == cc {
                assert(post.nodes_view()[a] == pre.nodes_view()[a]);
                assert(m == mirrored(pre.grid_of(a)));
                lemma_mirror_involution(pre.grid_of(a));
                assert(pre.grid_of(a) == mirrored(m));
                assert(pre.grid_of(a) == pre.grid_of(cc));
                pre.node(a).board.lemma_wf_grid();
                assert(grid_key(pre.grid_of(a)) == grid_key(pre.grid_of(cc)));
                assert(a == cc);
            } else {
                assert(post.nodes_view()[a] == pre.nodes_view()[a]);
                assert(post.nodes_view()[b] == pre.nodes_view()[b]);
                assert(pre.grid_of(b) == mirrored(pre.grid_of(a)));
            }
        }
        // parity
        assert forall|a: int, b: int| post.alive(a) && post.alive(b) implies turn_base(
            #[trigger] post.node(a).turn,
            piece_count(post.grid_of(a)),
        ) == turn_base(#[trigger] post.node(b).turn, piece_count(post.grid_of(b))) by {
            assert(pre.alive(a) && pre.alive(b));
            if a != cc {
                assert(post.nodes_view()[a] == pre.nodes_view()[a]);
            }
            if b != cc {
                assert(post.nodes_view()[b] == pre.nodes_view()[b]);
            }
        }
    }

    /// Used to return the child BoardState corresponding to a particular
    /// move, narrowing the tree to that child's subtree. A child stored in
    /// mirrored orientation is unflipped, its grandchild edges and table key
    /// corrected to match.
    #[verifier::rlimit(100)]
    pub fn narrow_possibilities(&mut self, i: usize, col: u8) -> (r: usize)
        requires
            old(self).wf(),
            old(self).alive(i as int),
            exists|k: int|
                0 <= k < old(self).node(i as int).children@.len() && (#[trigger] old(self).node(
                    i as int,
                ).children@[k]).last_move == col,
        ensures
            final(self).wf(),
            final(self).alive(r as int),
            final(self).num_slots() == old(self).num_slots(),
            forall|j: int| #[trigger] final(self).alive(j) ==> old(self).alive(j),
            forall|j: int|
                #[trigger] final(self).alive(j) ==> final(self).reachable_from(r as int, j),
            final(self).grid_of(r as int) == drop_result(
                old(self).grid_of(i as int),
                col as int,
                old(self).node(i as int).turn,
            ),
            final(self).node(r as int).turn == !old(self).node(i as int).turn,
    {
        let child_count = match &self.nodes[i] {
            Some(n) => n.children.len(),
            None => 0,
        };
        let mut k: usize = 0;
        let mut found: usize = 0;
        let mut flipped = IsFlipped::Normal;
        let mut matched = false;
        while k < child_count
            invariant
                self.wf(),
                self.alive(i as int),
                *self == *old(self),
                child_count == self.node(i as int).children@.len(),
                0 <= k <= child_count,
                !matched ==> exists|kk: int|
                    k <= kk < child_count && (#[trigger] self.node(
                        i as int,
                    ).children@[kk]).last_move == col,
                matched ==> exists|kk: int|
                    0 <= kk < child_count && (#[trigger] self.node(i as int).children@[kk])
                        == (ChildState { state: found, last_move: col, is_flipped: flipped }),
            decreases child_count - k,
        {
            let e = match &self.nodes[i] {
                Some(n) => n.children[k],
                None => ChildState { state: 0, last_move: 0, is_flipped: IsFlipped::Normal },
            };
            if !matched && e.get_last_move() == col {
                found = e.get_state();
                flipped = e.is_flipped;
                matched = true;
                proof {
                    assert(self.node(i as int).children@[k as int] == (ChildState {
                        state: found,
                        last_move: col,
                        is_flipped: flipped,
                    }));
                }
            }
            k = k + 1;
        }
        let ghost pre0 = *self;
        let ghost kk = choose|kk: int|
            0 <= kk < pre0.node(i as int).children@.len() && (#[trigger] pre0.node(
                i as int,
            ).children@[kk]) == (ChildState { state: found, last_move: col, is_flipped: flipped });
        let ghost e = pre0.node(i as int).children@[kk];
        let ghost g0 = pre0.grid_of(i as int);
        let ghost turn0 = pre0.node(i as int).turn;
        let ghost rb = drop_result(g0, col as int, turn0);
        proof {
            assert(pre0.edge_ok(i as int, e));
            assert(pre0.alive(found as int));
            pre0.node(i as int).board.lemma_wf_grid();
        }
        self.clean(found);
        proof {
            // after the sweep nothing points at the new root any more: a
            // parent of it would have to be deeper than it
            assert forall|j: int, k2: int|
                self.alive(j) && 0 <= k2 < self.node(j).children@.len() implies (
            #[trigger] self.node(j).children@[k2]).state as int != found as int by {
                if self.node(j).children@[k2].state as int == found as int {
                    assert(pre0.reachable_from(found as int, j));
                    let p = choose|p: Seq<int>| #[trigger] pre0.is_path(p, found as int, j);
                    pre0.lemma_path_properties(p, found as int, j);
                    assert(self.node(j) == pre0.node(j));
                    let e2 = self.node(j).children@[k2];
                    assert(pre0.edge_ok(j, e2));
                    pre0.node(j).board.lemma_wf_grid();
                    crate::board::lemma_drop_piece_count(
                        pre0.grid_of(j),
                        e2.last_move as int,
                        pre0.node(j).turn,
                    );
                    let rbj = drop_result(pre0.grid_of(j), e2.last_move as int, pre0.node(j).turn);
                    if e2.is_flipped == IsFlipped::Normal {
                    } else {
                        crate::board::lemma_mirror_piece_count(rbj);
                    }
                    assert(piece_count(pre0.grid_of(found as int)) == piece_count(pre0.grid_of(j))
                        + 1);
                    assert(false);
                }
            }
        }
        match flipped {
            IsFlipped::Normal => {
                proof {
                    assert(self.grid_of(found as int) == rb);
                }
                found
            },
            IsFlipped::Flipped => {
                let ghost pre = *self;
                let (old_key, mut new_board, mut new_children, rr, turn2, go) = match &self.nodes[
                    found] {
                    Some(n) => (
                        n.board.canonical_code(),
                        n.board.clone(),
                        Vec::new(),
                        n.rollout_results,
                        n.turn,
                        n.game_over,
                    ),
                    None => (
                        0,
                        Board::default(),
                        Vec::new(),
                        RolloutResults { success: 0, total: 0 },
                        false,
                        GameOver::NoWin,
                    ),
                };
                proof {
                    self.node(found as int).board.lemma_wf_grid();
                    lemma_key_from_bounds(self.grid_of(found as int), 0);
                    crate::board::lemma_pow128_le_u64();
                    assert(old_key == grid_key(self.grid_of(found as int)));
                }
                new_board.flip();
                let new_key = new_board.canonical_code();
                proof {
                    new_board.lemma_wf_grid();
                    lemma_key_from_bounds(new_board.grid(), 0);
                    assert(new_key == grid_key(mirrored(pre.grid_of(found as int))));
                }
                let gc_count = match &self.nodes[found] {
                    Some(n) => n.children.len(),
                    None => 0,
                };
                let mut k2: usize = 0;
                while k2 < gc_count
                    invariant
                        self.wf(),
                        *self == pre,
                        self.alive(found as int),
                        gc_count == self.node(found as int).children@.len(),
                        0 <= k2 <= gc_count,
                        new_children@.len() == k2,
                        forall|x: int|
                            0 <= x < k2 ==> {
                                let e0 = self.node(found as int).children@[x];
                                let e1: ChildState = #[trigger] new_children@[x];
                                &&& e1.state == e0.state
                                &&& e1.last_move as int == BOARD_WIDTH - 1 - e0.last_move
                                &&& e1.is_flipped == e0.is_flipped.spec_flip()
                            },
                    decreases gc_count - k2,
                {
                    let mut e2 = match &self.nodes[found] {
                        Some(n) => n.children[k2],
                        None => ChildState {
                            state: 0,
                            last_move: 0,
                            is_flipped: IsFlipped::Normal,
                        },
                    };
                    proof {
                        assert(self.edge_ok(
                            found as int,
                            self.node(found as int).children@[k2 as int],
                        ));
                    }
                    e2.parent_flipped();
                    new_children.push(e2);
                    k2 = k2 + 1;
                }
                self.table.remove_key(old_key);
                self.table.insert_key(new_key, found);
                self.nodes.set(
                    found,
                    Some(
                        BoardState {
                            board: new_board,
                            children: new_children,
                            rollout_results: rr,
                            turn: turn2,
                            game_over: go,
                        },
                    ),
                );
                proof {
                    assert forall|j: int|
                        0 <= j < pre.num_slots() && j != found as int implies #[trigger] self.nodes_view()[j]
                        == pre.nodes_view()[j] by {}
                    Self::lemma_wf_after_flip(pre, *self, found as int);
                    lemma_mirror_involution(rb);
                    assert(pre.grid_of(found as int) == mirrored(rb));
                    assert(self.grid_of(found as int) == mirrored(mirrored(rb)));
                    assert(self.grid_of(found as int) == rb);
                    // unflipping renames moves but keeps every edge's
                    // target, so the subtree is unchanged
                    assert forall|j: int| #[trigger] self.alive(j) implies self.reachable_from(
                        found as int,
                        j,
                    ) by {
                        assert(pre.alive(j));
                        assert(pre.reachable_from(found as int, j));
                        Self::lemma_reachable_same_edges(pre, *self, found as int, j);
                    }
                }
                found
            },
        }
    }
}

impl TranspositionStateTable {
    /// Looking a stored position up through its mirror image finds the very
    /// node that the position itself is stored under: the mirror key of an
    /// asymmetric stored position is never separately on file, so a query
    /// for the mirror image falls through to the stored node and reports it
    /// flipped, while a query for the position itself still reports it
    /// unflipped.
    pub proof fn lemma_mirror_query(self, g: Grid)
        requires
            self.wf(),
            grid_wf(g),
            self.key_map().dom().contains(grid_key(g)),
            g != mirrored(g),
        ensures
            !self.key_map().dom().contains(grid_key(mirrored(g))),
            self.key_map().dom().contains(grid_key(mirrored(mirrored(g)))),
            self.key_map()[grid_key(mirrored(mirrored(g)))] == self.key_map()[grid_key(g)],
    {
        let i = self.key_map()[grid_key(g)] as int;
        assert(self.alive(i));
        self.node(i).board.lemma_wf_grid();
        lemma_grid_key_injective(self.grid_of(i), g);
        lemma_mirror_involution(g);
        if self.key_map().dom().contains(grid_key(mirrored(g))) {
            let j = self.key_map()[grid_key(mirrored(g))] as int;
            assert(self.alive(j));
            self.node(j).board.lemma_wf_grid();
            assert(grid_wf(mirrored(g)));
            lemma_grid_key_injective(self.grid_of(j), mirrored(g));
            assert(self.grid_of(j) == mirrored(self.grid_of(i)));
            assert(i == j);
            assert(g == mirrored(g));
            assert(false);
        }
    }
}

impl TranspositionStateTable {
    /// Credits one finished rollout to node `i`'s counters; once a counter
    /// nears its range's end further rollouts stop moving it.
    pub fn record_result(&mut self, i: usize, result: GameOver)
        requires
            old(self).wf(),
            old(self).alive(i as int),
            result != GameOver::NoWin,
        ensures
            final(self).wf(),
            final(self).num_slots() == old(self).num_slots(),
            forall|j: int|
                0 <= j < final(self).num_slots() ==> (final(self).alive(j) <==> old(self).alive(
                    j,
                )),
            forall|j: int|
                #[trigger] final(self).alive(j) && j != i ==> final(self).node(j) == old(
                    self,
                ).node(j),
            final(self).grid_of(i as int) == old(self).grid_of(i as int),
            final(self).node(i as int).turn == old(self).node(i as int).turn,
            final(self).node(i as int).game_over == old(self).node(i as int).game_over,
            final(self).node(i as int).children@ == old(self).node(i as int).children@,
            (old(self).node(i as int).rollout_results.success <= 0xF000_0000 && old(self).node(
                i as int,
            ).rollout_results.total <= 0xF000_0000) ==> {
                &&& final(self).node(i as int).rollout_results.success as int == old(self).node(
                    i as int,
                ).rollout_results.success + crate::monte_carlo::rollout_credit(
                    old(self).node(i as int).turn,
                    result,
                )
                &&& final(self).node(i as int).rollout_results.total as int == old(self).node(
                    i as int,
                ).rollout_results.total + 2
            },
    {
        let ghost pre = *self;
        let updated = match &self.nodes[i] {
            Some(n) => {
                let mut results = n.rollout_results;
                if results.success <= 0xF000_0000 && results.total <= 0xF000_0000 {
                    results.record(n.turn, result);
                }
                BoardState {
                    board: n.board.clone(),
                    children: clone_children(&n.children),
                    rollout_results: results,
                    turn: n.turn,
                    game_over: n.game_over,
                }
            },
            None => BoardState::new(Board::default(), false),
        };
        self.nodes.set(i, Some(updated));
        proof {
            assert(self.node(i as int).children@ =~= pre.node(i as int).children@);
            assert forall|k: int|
                0 <= k < self.node(i as int).children@.len() implies self.edge_ok(
                i as int,
                #[trigger] self.node(i as int).children@[k],
            ) by {
                let e = pre.node(i as int).children@[k];
                assert(pre.edge_ok(i as int, e));
                if e.state as int != i {
                    assert(self.nodes_view()[e.state as int] == pre.nodes_view()[e.state as int]);
                }
            }
            assert(self.node_ok(i as int));
            Self::lemma_wf_after_node_update(pre, *self, i as int);
        }
    }

    /// Performs a random rollout on a node: generates its children if
    /// needed, descends into a uniformly random child until an outcome is
    /// reached, and credits the result to every node along the way. Whatever
    /// the random draws, the table stays consistent, existing positions keep
    /// their boards, and the returned outcome is decided.
    pub fn simulation(&mut self, i: usize) -> (r: GameOver)
        requires
            old(self).wf(),
            old(self).alive(i as int),
        ensures
            final(self).wf(),
            r != GameOver::NoWin,
            old(self).num_slots() <= final(self).num_slots(),
            forall|j: int|
                #[trigger] old(self).alive(j) ==> final(self).alive(j) && final(self).node(
                    j,
                ).board.grid() == old(self).node(j).board.grid() && final(self).node(j).turn
                    == old(self).node(j).turn && final(self).node(j).game_over == old(self).node(
                    j,
                ).game_over,
            forall|j: int|
                0 <= j < old(self).num_slots() && !old(self).alive(j) ==> !final(self).alive(j),
            forall|j: int|
                #[trigger] old(self).alive(j) && piece_count(old(self).grid_of(j)) < piece_count(
                    old(self).grid_of(i as int),
                ) ==> final(self).node(j) == old(self).node(j),
            (old(self).node(i as int).rollout_results.success <= 0xF000_0000 && old(self).node(
                i as int,
            ).rollout_results.total <= 0xF000_0000) ==> {
                &&& final(self).node(i as int).rollout_results.success as int == old(self).node(
                    i as int,
                ).rollout_results.success + crate::monte_carlo::rollout_credit(
                    old(self).node(i as int).turn,
                    r,
                )
                &&& final(self).node(i as int).rollout_results.total as int == old(self).node(
                    i as int,
                ).rollout_results.total + 2
            },
        decreases 43 - piece_count(old(self).grid_of(i as int)),
    {
        proof {
            self.node(i as int).board.lemma_wf_grid();
            lemma_piece_count_bounds(self.grid_of(i as int));
        }
        let over = match &self.nodes[i] {
            Some(n) => n.is_game_over(),
            None => GameOver::NoWin,
        };
        match over {
            GameOver::NoWin => {},
            result => {
                self.record_result(i, result);
                return result;
            },
        }
        let _ = self.generate_children(i);
        let count = match &self.nodes[i] {
            Some(n) => n.children.len(),
            None => 0,
        };
        let pick = crate::monte_carlo::random_below(count);
        let child = match &self.nodes[i] {
            Some(n) => n.children[pick].get_state(),
            None => 0,
        };
        proof {
            assert(self.edge_ok(i as int, self.node(i as int).children@[pick as int]));
            crate::tree_analysis::lemma_edge_count_pub(*self, i as int, pick as int);
        }
        let result = self.simulation(child);
        self.record_result(i, result);
        result
    }
}

fn clone_children(children: &Vec<ChildState>) -> (r: Vec<ChildState>)
    ensures
        r@ == children@,
{
    let mut out: Vec<ChildState> = Vec::new();
    let mut k: usize = 0;
    while k < children.len()
        invariant
            0 <= k <= children@.len(),
            out@.len() == k,
            forall|x: int| 0 <= x < k ==> out@[x] == #[trigger] children@[x],
        decreases children@.len() - k,
    {
        out.push(children[k]);
        k = k + 1;
    }
    proof {
        assert(out@ =~= children@);
    }
    out
}

} // verus!
