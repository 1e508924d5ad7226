//! Rules engine for a two-player, hexagonally-adjacent connection board game,
//! with a packed 2-bit-per-cell grid, a turn state machine including the
//! one-time swap (pie) rule, and incremental breadth-first win detection.

use vstd::prelude::*;

pub mod board;
pub mod cell;
pub mod errors;
pub mod external;
pub mod game;
pub mod game_with_data;

use crate::cell::Cell;
use crate::errors::GameError;
use crate::external::{check_premium_streams, spec_qualifies, Stream};
use crate::game::{snap_eq, Game, GameIndex};
use crate::game_with_data::{lemma_copy_like, place_tracked, swap_tracked, GameWithData};

verus! {

/// The two kinds of move a player can request: placing a stone on a cell,
/// or invoking the one-time swap rule.
#[derive(Clone, Copy, Debug, PartialEq, Eq, Structural)]
pub enum MoveType {
    PLACE,
    SWAP,
}

/// The orchestrator: the append-only store of games, indexed in creation
/// order, and the optional account of the external streaming service used
/// for premium checks.
pub struct Contract {
    pub games: Vec<GameWithData>,
    pub roketo_acc: Option<String>,
}

impl Contract {
    /// Every stored game satisfies its invariant.
    pub open spec fn inv(self) -> bool {
        forall|i: int| 0 <= i < self.games@.len() ==> (#[trigger] self.games@[i]).inv()
    }

    /// Why a move request on the store would be rejected, or `None` when it
    /// is legal: the game must exist and not be finished, then the game's
    /// own move rules apply.
    pub open spec fn store_move_error(
        self,
        index: GameIndex,
        move_type: MoveType,
        cell: Option<Cell>,
        caller: Seq<char>,
    ) -> Option<GameError> {
        if index as int >= self.games@.len() {
            Option::Some(GameError::GameNotFound)
        } else if self.games@[index as int].game.is_finished {
            Option::Some(GameError::GameAlreadyFinished)
        } else {
            self.games@[index as int].move_error(move_type, cell, caller)
        }
    }

    /// An empty store.
    pub fn new(roketo_acc: Option<String>) -> (r: Contract)
        ensures
            r.games@.len() == 0,
            r.roketo_acc == roketo_acc,
            r.inv(),
    {
        Contract { games: Vec::new(), roketo_acc }
    }

    /// Appends a fresh game between the two players, on a board of the given
    /// side (11 when none is given), and returns its index: the former store
    /// length. `ConfigError` exactly when the side exceeds 19, leaving the
    /// store unchanged.
    pub fn create_game(
        &mut self,
        first_player: String,
        second_player: String,
        field_size: Option<usize>,
        block_height: u64,
    ) -> (r: Result<GameIndex, GameError>)
        requires
            old(self).inv(),
        ensures
            final(self).inv(),
            final(self).roketo_acc == old(self).roketo_acc,
            ({
                let size = if field_size is Some {
                    field_size->Some_0
                } else {
                    11
                };
                &&& (r is Ok <==> size <= 19)
                &&& (r is Err ==> r == Err::<GameIndex, GameError>(GameError::ConfigError)
                    && *final(self) == *old(self))
                &&& (r matches Ok(idx) ==> {
                    let g = final(self).games@[idx as int];
                    &&& idx as int == old(self).games@.len()
                    &&& final(self).games@.len() == old(self).games@.len() + 1
                    &&& forall|j: int|
                        0 <= j < old(self).games@.len() ==> final(self).games@[j] == old(
                            self,
                        ).games@[j]
                    &&& g.game.first_player@ == first_player@
                    &&& g.game.second_player@ == second_player@
                    &&& g.game.turn == 0
                    &&& g.game.board.size == size
                    &&& forall|i: int|
                        0 <= i < g.game.board.cells().len() ==> g.game.board.cells()[i] == 0
                    &&& g.game.current_block_height == block_height
                    &&& !g.game.is_finished
                })
            }),
    {
        let size = match field_size {
            Some(s) => s,
            None => 11,
        };
        let gwd = match GameWithData::new(first_player, second_player, size, block_height) {
            Ok(g) => g,
            Err(e) => { return Err(e) },
        };
        let index = self.games.len() as u64;
        self.games.push(gwd);
        Ok(index)
    }

    /// The snapshot of the game stored under `index`, or `None` when no such
    /// game exists. The store itself is never touched, so repeated calls
    /// return identical snapshots.
    pub fn get_game(&self, index: GameIndex) -> (r: Option<Game>)
        ensures
            r is Some <==> (index as int) < self.games@.len(),
            r matches Some(g) ==> snap_eq(g, self.games@[index as int].game),
    {
        if index >= self.games.len() as u64 {
            return None;
        }
        let stored = &self.games[index as usize];
        Some(stored.game.clone())
    }

    /// Applies a move request from `caller` to the game under `index` and
    /// returns the updated snapshot. A rejected request — unknown game,
    /// finished game, or a move the game refuses — reports exactly the
    /// reason given by `store_move_error` and leaves every game unchanged.
    pub fn make_move(
        &mut self,
        index: GameIndex,
        move_type: MoveType,
        cell: Option<Cell>,
        caller: &String,
        block_height: u64,
    ) -> (r: Result<Game, GameError>)
        requires
            old(self).inv(),
        ensures
            final(self).inv(),
            final(self).roketo_acc == old(self).roketo_acc,
            r is Err <==> old(self).store_move_error(index, move_type, cell, caller@) is Some,
            r is Err ==> *final(self) == *old(self) && old(self).store_move_error(
                index,
                move_type,
                cell,
                caller@,
            ) == Some(r->Err_0),
            r is Ok ==> {
                let pre = old(self).games@[index as int];
                let post = final(self).games@[index as int];
                &&& final(self).games@.len() == old(self).games@.len()
                &&& forall|j: int|
                    0 <= j < old(self).games@.len() && j != index as int ==> final(self).games@[j]
                        == old(self).games@[j]
                &&& snap_eq(r->Ok_0, post.game)
                &&& post.game.first_player@ == pre.game.first_player@
                &&& post.game.second_player@ == pre.game.second_player@
                &&& post.game.board.size == pre.game.board.size
                &&& crate::game::Game::heights_updated(pre.game, post.game, block_height)
                &&& (move_type is PLACE ==> {
                    let c = cell->Some_0;
                    &&& post.game.turn == pre.game.turn + 1
                    &&& post.game.board.cells() == pre.game.board.cells().update(
                        pre.game.board.cell_index(c),
                        (pre.game.turn % 2 + 1) as u8,
                    )
                })
                &&& (move_type is SWAP ==> post.game.turn == 2)
                &&& (move_type is PLACE ==> place_tracked(pre, post, cell->Some_0))
                &&& (move_type is SWAP ==> swap_tracked(pre, post))
            },
    {
        if index >= self.games.len() as u64 {
            return Err(GameError::GameNotFound);
        }
        let i = index as usize;
        let stored = &self.games[i];
        let mut game_with_data = stored.clone();
        proof {
            lemma_copy_like(self.games@[i as int], game_with_data);
        }
        if game_with_data.game.is_finished {
            return Err(GameError::GameAlreadyFinished);
        }
        let ghost cloned_entry = game_with_data;
        let moved = game_with_data.make_move(move_type, cell, caller, block_height);
        match moved {
            Ok(()) => {},
            Err(e) => { return Err(e) },
        }
        proof {
            lemma_copy_like(cloned_entry, old(self).games@[i as int]);
        }
        self.games[i] = game_with_data;
        let snapshot = self.games[i].game.clone();
        Ok(snapshot)
    }

    /// Whether the given streams, reported by the external streaming service
    /// for an account and evaluated at time `now`, qualify the account as
    /// premium: some stream must be locked, expirable, active, paying into
    /// `receiver`, and not yet fully accrued.
    pub fn check_premium_account_internal(
        &self,
        streams: Vec<Stream>,
        receiver: &String,
        now: u64,
    ) -> (r: bool)
        requires
            forall|i: int| 0 <= i < streams@.len() ==> (#[trigger] streams@[i]).last_action <= now,
        ensures
            r == exists|i: int|
                0 <= i < streams@.len() && spec_qualifies(#[trigger] streams@[i], receiver@, now),
    {
        check_premium_streams(&streams, receiver, now)
    }
}

} // verus!
