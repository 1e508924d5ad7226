//! The turn state machine: player identities, a monotonic turn counter, the
//! owned board, audit block markers, and the finished flag. Moves are
//! validated before any mutation, so a failing move leaves the game
//! untouched.

use vstd::prelude::*;

use vstd::arithmetic::div_mod::lemma_fundamental_div_mod_converse;

use crate::board::{
    count_ne, lemma_cell_index_decomp, lemma_count_ne_all, lemma_count_ne_le_len,
    lemma_count_ne_single, lemma_count_ne_update, lemma_index_of_coords, lemma_lone_stone_bytes,
    lemma_slot_byte_in_storage, lone_first_stone, Board,
};
use crate::cell::Cell;
use crate::errors::GameError;

verus! {

/// Index of a game in the contract's store.
pub type GameIndex = u64;

/// The two games carry the same snapshot: same players, turn, board
/// contents, block markers and finished flag.
pub open spec fn snap_eq(a: Game, b: Game) -> bool {
    &&& a.first_player@ == b.first_player@
    &&& a.second_player@ == b.second_player@
    &&& a.turn == b.turn
    &&& a.board.size == b.board.size
    &&& a.board.field@ == b.board.field@
    &&& a.current_block_height == b.current_block_height
    &&& a.prev_block_height == b.prev_block_height
    &&& a.is_finished == b.is_finished
}

#[derive(Debug)]
pub struct Game {
    pub first_player: String,
    pub second_player: String,
    pub turn: usize,
    pub board: Board,
    pub current_block_height: u64,
    pub prev_block_height: u64,
    pub is_finished: bool,
}

impl Game {
    /// The game invariant: a valid board, the turn counter bounded by the
    /// stone count, an empty board before the first move, and exactly the
    /// opening stone on the board at turn 1.
    pub open spec fn inv(self) -> bool {
        &&& self.board.valid()
        &&& self.turn <= count_ne(self.board.cells(), 0) + 1
        &&& (self.turn == 0 ==> forall|i: int|
            0 <= i < self.board.cells().len() ==> self.board.cells()[i] == 0)
        &&& (self.turn == 1 ==> exists|i: int| lone_first_stone(self.board.cells(), i))
    }

    /// The block marker bookkeeping of a successful move: when the move runs
    /// in a new block, the previous marker is pushed back and the current one
    /// updated; otherwise both stay.
    pub open spec fn heights_updated(pre: Game, post: Game, block_height: u64) -> bool {
        if block_height != pre.current_block_height {
            post.prev_block_height == pre.current_block_height && post.current_block_height
                == block_height
        } else {
            post.prev_block_height == pre.prev_block_height && post.current_block_height
                == pre.current_block_height
        }
    }

    /// A fresh game between the two players on an empty board of the given
    /// side, created in the given block; `ConfigError` exactly when the side
    /// exceeds 19.
    pub fn new(first_player: String, second_player: String, field_size: usize, block_height: u64)
        -> (r: Result<Game, GameError>)
        ensures
            r is Ok <==> field_size <= 19,
            r is Err ==> r == Err::<Game, GameError>(GameError::ConfigError),
            r matches Ok(g) ==> {
                &&& g.first_player@ == first_player@
                &&& g.second_player@ == second_player@
                &&& g.turn == 0
                &&& g.board.size == field_size
                &&& forall|i: int| 0 <= i < g.board.cells().len() ==> g.board.cells()[i] == 0
                &&& g.current_block_height == block_height
                &&& g.prev_block_height == 0
                &&& !g.is_finished
                &&& g.inv()
            },
    {
        let board = match Board::new(field_size) {
            Ok(b) => b,
            Err(e) => { return Err(e) },
        };
        let g = Game {
            first_player,
            second_player,
            turn: 0,
            board,
            current_block_height: block_height,
            prev_block_height: 0,
            is_finished: false,
        };
        proof {
            lemma_count_ne_all(g.board.cells(), 0);
        }
        Ok(g)
    }

    /// Places the given player's stone on an empty cell if it is that
    /// player's turn, advances the turn counter, and keeps the audit block
    /// markers up to date. Fails with `OutOfBounds`, `CellOccupied` or
    /// `WrongTurn` — in that order of checks — leaving the game unchanged.
    pub fn place_counter(&mut self, cell: &Cell, player: u8, block_height: u64) -> (r: Result<
        (),
        GameError,
    >)
        requires
            old(self).inv(),
        ensures
            r is Ok <==> (cell.in_bounds(old(self).board.size as int) && old(self).board.spec_get(
                *cell,
            ) == 0 && old(self).turn % 2 + 1 == player as int),
            r is Err ==> *final(self) == *old(self),
            !cell.in_bounds(old(self).board.size as int) ==> r == Err::<(), GameError>(
                GameError::OutOfBounds,
            ),
            cell.in_bounds(old(self).board.size as int) && old(self).board.spec_get(*cell) != 0
                ==> r == Err::<(), GameError>(GameError::CellOccupied),
            cell.in_bounds(old(self).board.size as int) && old(self).board.spec_get(*cell) == 0
                && old(self).turn % 2 + 1 != player as int ==> r == Err::<(), GameError>(
                GameError::WrongTurn,
            ),
            r is Ok ==> {
                &&& final(self).board.size == old(self).board.size
                &&& final(self).board.cells() == old(self).board.cells().update(
                    old(self).board.cell_index(*cell),
                    player,
                )
                &&& final(self).turn == old(self).turn + 1
                &&& final(self).first_player == old(self).first_player
                &&& final(self).second_player == old(self).second_player
                &&& final(self).is_finished == old(self).is_finished
                &&& Game::heights_updated(*old(self), *final(self), block_height)
                &&& final(self).board.valid()
                &&& final(self).inv()
            },
    {
        let value = match self.board.get_cell(cell) {
            Ok(v) => v,
            Err(e) => { return Err(e) },
        };
        if value != 0 {
            return Err(GameError::CellOccupied);
        }
        if self.turn % 2 + 1 != player as usize {
            return Err(GameError::WrongTurn);
        }
        proof {
            lemma_cell_index_decomp(self.board, *cell);
            lemma_count_ne_le_len(self.board.cells(), 0);
            assert(self.board.cells().len() <= 361) by (nonlinear_arith)
                requires
                    self.board.cells().len() == self.board.size * self.board.size,
                    self.board.size <= 19,
            ;
        }
        let res = self.board.set_cell(cell, player);
        proof {
            assert(res is Ok);
            lemma_count_ne_update(
                old(self).board.cells(),
                0,
                old(self).board.cell_index(*cell),
                player,
            );
        }
        self.turn = self.turn + 1;
        if block_height != self.current_block_height {
            self.prev_block_height = self.current_block_height;
            self.current_block_height = block_height;
        }
        proof {
            let idx = old(self).board.cell_index(*cell);
            if self.turn == 1 {
                assert(lone_first_stone(self.board.cells(), idx));
            }
        }
        Ok(())
    }

    /// The swap (pie) rule: legal exactly at turn 1. Finds the single stone
    /// by scanning the packed bytes, clears it, places colour 2 on its
    /// diagonal reflection, advances the turn to 2, and returns the
    /// reflected coordinate, from which win detection must be re-run. Fails
    /// with `SwapNotAllowed` at any other turn, leaving the game unchanged.
    pub fn swap_rule(&mut self, block_height: u64) -> (r: Result<Cell, GameError>)
        requires
            old(self).inv(),
        ensures
            r is Ok <==> old(self).turn == 1,
            r is Err ==> r == Err::<Cell, GameError>(GameError::SwapNotAllowed) && *final(self)
                == *old(self),
            r matches Ok(c) ==> {
                let vacated = Cell { x: c.y, y: c.x };
                let vidx = old(self).board.cell_index(vacated);
                let cidx = old(self).board.cell_index(c);
                &&& c.in_bounds(old(self).board.size as int)
                &&& old(self).board.spec_get(vacated) == 1
                &&& final(self).board.size == old(self).board.size
                &&& final(self).board.cells() == old(self).board.cells().update(vidx, 0u8).update(
                    cidx,
                    2u8,
                )
                &&& final(self).turn == 2
                &&& final(self).first_player == old(self).first_player
                &&& final(self).second_player == old(self).second_player
                &&& final(self).is_finished == old(self).is_finished
                &&& Game::heights_updated(*old(self), *final(self), block_height)
                &&& final(self).board.valid()
                &&& final(self).inv()
            },
    {
        if self.turn != 1 {
            return Err(GameError::SwapNotAllowed);
        }
        let ghost gi = choose|i: int| lone_first_stone(self.board.cells(), i);
        let ghost gbyte = gi / 4;
        proof {
            lemma_slot_byte_in_storage(self.board, gi);
            lemma_lone_stone_bytes(self.board, gi, gbyte);
            assert(self.board.field@[gbyte] != 0);
        }
        let mut byte_index: usize = 0;
        while self.board.field[byte_index] == 0
            invariant
                byte_index <= gbyte,
                0 <= gbyte < self.board.field@.len(),
                gbyte <= 91,
                self.board.field@[gbyte] != 0,
            decreases gbyte - byte_index,
        {
            byte_index += 1;
        }
        proof {
            // Every byte but the stone's decodes to four empty slots, so the
            // scan can only have stopped at the stone's byte.
            lemma_lone_stone_bytes(self.board, gi, byte_index as int);
            assert(byte_index == gbyte);
        }
        let byte = self.board.field[byte_index];
        let mut bit_number = 8 * byte_index;
        if byte & 4 == 4 {
            bit_number += 2;
        } else if byte & 16 == 16 {
            bit_number += 4;
        } else if byte & 64 == 64 {
            bit_number += 6;
        }
        proof {
            lemma_scan_offsets();
            assert(bit_number == 8 * gbyte + 2 * (gi % 4));
            assert(bit_number == 2 * gi);
            lemma_fundamental_div_mod_converse(2 * gi, 2, gi, 0);
            assert(bit_number as int / 2 == gi);
            lemma_index_of_coords(self.board, bit_number as int);
        }
        let cell = self.board.get_coords(bit_number);
        proof {
            assert(self.board.cell_index(cell) == gi);
            assert(cell.in_bounds(self.board.size as int));
        }
        let res1 = self.board.set_cell(&cell, 0);
        proof {
            assert(res1 is Ok);
        }
        let sym = cell.symm();
        proof {
            assert(sym.in_bounds(self.board.size as int));
            lemma_cell_index_decomp(old(self).board, sym);
        }
        let res2 = self.board.set_cell(&sym, 2);
        proof {
            assert(res2 is Ok);
            lemma_count_ne_single(old(self).board.cells(), 0, gi);
            lemma_count_ne_update(old(self).board.cells(), 0, gi, 0);
            lemma_count_ne_update(
                old(self).board.cells().update(gi, 0),
                0,
                old(self).board.cell_index(sym),
                2,
            );
        }
        self.turn = self.turn + 1;
        if block_height != self.current_block_height {
            self.prev_block_height = self.current_block_height;
            self.current_block_height = block_height;
        }
        Ok(sym)
    }
}

impl Clone for Game {
    /// A deep copy carrying the same snapshot.
    fn clone(&self) -> (r: Self)
        ensures
            snap_eq(r, *self),
    {
        Game {
            first_player: self.first_player.clone(),
            second_player: self.second_player.clone(),
            turn: self.turn,
            board: self.board.clone(),
            current_block_height: self.current_block_height,
            prev_block_height: self.prev_block_height,
            is_finished: self.is_finished,
        }
    }
}

impl PartialEq for Game {
    /// Snapshot equality: players, turn, board, block markers and flag.
    fn eq(&self, other: &Self) -> (r: bool) {
        self.first_player == other.first_player && self.second_player == other.second_player
            && self.turn == other.turn && self.board == other.board
            && self.current_block_height == other.current_block_height
            && self.prev_block_height == other.prev_block_height && self.is_finished
            == other.is_finished
    }
}

impl vstd::std_specs::cmp::PartialEqSpecImpl for Game {
    open spec fn obeys_eq_spec() -> bool {
        true
    }

    open spec fn eq_spec(&self, other: &Game) -> bool {
        snap_eq(*self, *other)
    }
}

/// Games with equal snapshots decode to the same grid and satisfy the same
/// invariant.
pub proof fn lemma_snap_eq_same_state(a: Game, b: Game)
    requires
        snap_eq(a, b),
    ensures
        a.board.cells() == b.board.cells(),
        a.inv() == b.inv(),
{
    assert(a.board.cells() =~= b.board.cells());
}

/// Which scan offset each possible lone-stone byte selects.
proof fn lemma_scan_offsets()
    by (bit_vector)
    ensures
        1u8 & 4 != 4 && 1u8 & 16 != 16 && 1u8 & 64 != 64,
        4u8 & 4 == 4,
        16u8 & 4 != 4 && 16u8 & 16 == 16,
        64u8 & 4 != 4 && 64u8 & 16 != 16 && 64u8 & 64 == 64,
{
}

/// What a successful swap leaves on the board, for an opening stone off the
/// main diagonal: the vacated cell is empty and its reflection holds
/// colour 2. (A stone on the diagonal is its own reflection, so the vacated
/// cell then holds colour 2 instead of being empty.)
pub proof fn lemma_swap_board_effect(pre: Board, post: Board, c: Cell)
    requires
        pre.wf(),
        c.in_bounds(pre.size as int),
        c.x != c.y,
        post.size == pre.size,
        post.cells() == pre.cells().update(pre.cell_index(c), 0u8).update(
            pre.cell_index(Cell { x: c.y, y: c.x }),
            2u8,
        ),
    ensures
        post.spec_get(c) == 0,
        post.spec_get(Cell { x: c.y, y: c.x }) == 2,
{
    let sym = Cell { x: c.y, y: c.x };
    lemma_cell_index_decomp(pre, c);
    lemma_cell_index_decomp(pre, sym);
    crate::board::lemma_cell_index_injective(pre, c, sym);
}

/// A swap is allowed only at turn 1.
pub open spec fn swap_allowed(g: Game) -> bool {
    g.turn == 1
}

/// The swap applies at most once: a successful swap leaves the game at
/// turn 2, and the turn counter never decreases, so no later state allows a
/// swap again.
pub proof fn lemma_swap_applies_once(post: Game)
    requires
        post.turn == 2,
    ensures
        !swap_allowed(post),
{
}

} // verus!
