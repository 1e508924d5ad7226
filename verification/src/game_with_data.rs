//! The connectivity tracker: a game together with a same-size label grid.
//! After every accepted move the placed cell is processed; border labels are
//! propagated breadth-first through same-coloured cells, and the game is
//! marked finished as soon as one colour connects its two borders.

use vstd::prelude::*;

use std::collections::VecDeque;

use crate::board::{count_ne, lemma_cell_index_decomp, lemma_count_ne_update, Board};
use crate::cell::{hex_adjacent, lemma_neighbours_iff, neighbours_of, Cell};
use crate::errors::GameError;
use crate::game::{snap_eq, Game};
use crate::MoveType;

verus! {

/// `post` agrees with `pre` on everything but possibly the finished flag.
pub open spec fn same_but_finished(pre: Game, post: Game) -> bool {
    &&& post.first_player == pre.first_player
    &&& post.second_player == pre.second_player
    &&& post.turn == pre.turn
    &&& post.board == pre.board
    &&& post.current_block_height == pre.current_block_height
    &&& post.prev_block_height == pre.prev_block_height
}

/// Value of coordinate `c` in a row-major grid of side `size`.
pub open spec fn grid_at(size: int, grid: Seq<u8>, c: Cell) -> u8 {
    grid[c.y * size + c.x]
}

/// A flood path on `board`: hex-adjacent in-bounds cells all of colour
/// `color`, every cell after the first not yet labelled `border` in
/// `labels`. The flood treats already-labelled cells as visited and never
/// passes through them.
pub open spec fn flood_path(
    size: int,
    board: Seq<u8>,
    labels: Seq<u8>,
    color: u8,
    border: u8,
    p: Seq<Cell>,
) -> bool {
    &&& p.len() > 0
    &&& forall|i: int|
        0 <= i < p.len() ==> (#[trigger] p[i]).in_bounds(size) && grid_at(size, board, p[i])
            == color
    &&& forall|i: int| 0 < i < p.len() ==> grid_at(size, labels, #[trigger] p[i]) != border
    &&& forall|i: int| 0 <= i < p.len() - 1 ==> hex_adjacent(#[trigger] p[i], p[i + 1])
}

/// `to` is reached from `from` by some flood path.
pub open spec fn flood_reaches(
    size: int,
    board: Seq<u8>,
    labels: Seq<u8>,
    color: u8,
    border: u8,
    from: Cell,
    to: Cell,
) -> bool {
    exists|p: Seq<Cell>|
        #[trigger] flood_path(size, board, labels, color, border, p) && p.first() == from
            && p.last() == to
}

/// The flood from `from` runs into a same-coloured cell — other than `from`
/// itself, whose stale label the seed write overwrites — that already
/// carries a nonzero label other than `border`: the move merges two
/// oppositely labelled components, so the colour connects both borders.
pub open spec fn flood_merges(
    size: int,
    board: Seq<u8>,
    labels: Seq<u8>,
    color: u8,
    border: u8,
    from: Cell,
) -> bool {
    exists|v: Cell, n: Cell|
        {
            &&& #[trigger] flood_reaches(size, board, labels, color, border, from, v)
            &&& #[trigger] hex_adjacent(v, n)
            &&& n.in_bounds(size)
            &&& grid_at(size, board, n) == color
            &&& grid_at(size, labels, n) != 0
            &&& grid_at(size, labels, n) != border
            &&& n != from
        }
}

/// Every cell freshly labelled `border` (labelled now but not in `pre`,
/// or the seed itself) and not in the exclusion list has all its in-bounds
/// same-coloured neighbours labelled `border` too.
#[verifier::opaque]
pub open spec fn flood_closed(
    size: int,
    board: Seq<u8>,
    pre: Board,
    cur: Board,
    excl: Seq<Cell>,
    cell: Cell,
    color: u8,
    border: u8,
) -> bool {
    forall|a: Cell, n: Cell|
        a.in_bounds(size) && n.in_bounds(size) && cur.spec_get(a) == border && (pre.spec_get(a)
            != border || a == cell) && !excl.contains(a) && #[trigger] hex_adjacent(a, n)
            && grid_at(size, board, n) == color ==> cur.spec_get(n) == border
}

/// Some in-bounds neighbour of `c` holds `color` on the board and `label`
/// on the label grid.
pub open spec fn grid_sees_label(
    size: int,
    board: Seq<u8>,
    labels: Seq<u8>,
    c: Cell,
    color: u8,
    label: u8,
) -> bool {
    exists|n: Cell|
        #[trigger] hex_adjacent(c, n) && n.in_bounds(size) && grid_at(size, board, n) == color
            && grid_at(size, labels, n) == label
}

/// The cell lies on its colour's first border (the top row for colour 1,
/// the left column otherwise), or a same-coloured neighbour is already
/// labelled 1.
pub open spec fn grid_reaches_first(
    size: int,
    board: Seq<u8>,
    labels: Seq<u8>,
    c: Cell,
    color: u8,
) -> bool {
    (if color == 1 {
        c.y == 0
    } else {
        c.x == 0
    }) || grid_sees_label(size, board, labels, c, color, 1)
}

/// The cell lies on its colour's second border (the bottom row for colour 1,
/// the right column otherwise), or a same-coloured neighbour is already
/// labelled 2.
pub open spec fn grid_reaches_second(
    size: int,
    board: Seq<u8>,
    labels: Seq<u8>,
    c: Cell,
    color: u8,
) -> bool {
    (if color == 1 {
        c.y as int + 1 == size
    } else {
        c.x as int + 1 == size
    }) || grid_sees_label(size, board, labels, c, color, 2)
}

/// What one flood did to the tracker: the finished flag became true exactly
/// when the flood merged two oppositely labelled components, and otherwise
/// the label grid gained `border` exactly on the cells the flood reaches.
pub open spec fn tracked_flood(
    size: int,
    board: Seq<u8>,
    labels: Seq<u8>,
    color: u8,
    border: u8,
    from: Cell,
    was_finished: bool,
    post: GameWithData,
) -> bool {
    let merges = flood_merges(size, board, labels, color, border, from);
    &&& post.game.is_finished == (was_finished || merges)
    &&& (!merges ==> forall|d: Cell|
        d.in_bounds(size) ==> #[trigger] post.data.spec_get(d) == (if flood_reaches(
            size,
            board,
            labels,
            color,
            border,
            from,
            d,
        ) {
            border
        } else {
            grid_at(size, labels, d)
        }))
}

/// What an accepted placement at `c` does to the tracker: the placed cell is
/// processed on the post-placement board with the mover's colour — both
/// borders reached wins outright, one reached floods its label, none leaves
/// the grid and the flag alone.
pub open spec fn place_tracked(pre: GameWithData, post: GameWithData, c: Cell) -> bool {
    let player = (pre.game.turn % 2 + 1) as u8;
    let size = pre.data.size as int;
    let bcells = pre.game.board.cells().update(pre.game.board.cell_index(c), player);
    let labels = pre.data.cells();
    let b1 = grid_reaches_first(size, bcells, labels, c, player);
    let b2 = grid_reaches_second(size, bcells, labels, c, player);
    &&& (b1 && b2 ==> post.game.is_finished && post.data.cells() == labels)
    &&& (!b1 && !b2 ==> post.data.cells() == labels && post.game.is_finished
        == pre.game.is_finished)
    &&& (b1 && !b2 ==> tracked_flood(size, bcells, labels, player, 1, c, pre.game.is_finished, post))
    &&& (!b1 && b2 ==> tracked_flood(size, bcells, labels, player, 2, c, pre.game.is_finished, post))
}

/// What an accepted swap of the opening stone `stone` does: the stone is
/// cleared, its reflection holds colour 2, the vacated cell's label is
/// discarded, and the reflection is processed like a fresh placement of
/// colour 2.
pub open spec fn swap_tracked_at(pre: GameWithData, post: GameWithData, stone: Cell) -> bool {
    let size = pre.data.size as int;
    let labels = pre.data.cells();
    let vidx = pre.game.board.cell_index(stone);
    let refl = Cell { x: stone.y, y: stone.x };
    let ridx = pre.game.board.cell_index(refl);
    let bcells2 = pre.game.board.cells().update(vidx, 0u8).update(ridx, 2u8);
    let labels2 = labels.update(vidx, 0u8);
    let b1 = grid_reaches_first(size, bcells2, labels2, refl, 2);
    let b2 = grid_reaches_second(size, bcells2, labels2, refl, 2);
    &&& stone.in_bounds(size)
    &&& grid_at(size, pre.game.board.cells(), stone) == 1
    &&& post.game.board.cells() == bcells2
    &&& (b1 && b2 ==> post.game.is_finished && post.data.cells() == labels2)
    &&& (!b1 && !b2 ==> post.data.cells() == labels2 && post.game.is_finished
        == pre.game.is_finished)
    &&& (b1 && !b2 ==> tracked_flood(size, bcells2, labels2, 2, 1, refl, pre.game.is_finished, post))
    &&& (!b1 && b2 ==> tracked_flood(size, bcells2, labels2, 2, 2, refl, pre.game.is_finished, post))
}

/// Some opening stone accounts for the whole observable effect of a swap.
pub open spec fn swap_tracked(pre: GameWithData, post: GameWithData) -> bool {
    exists|stone: Cell| #[trigger] swap_tracked_at(pre, post, stone)
}

/// A game with its secondary label grid. Label values mean: 0 = unlabelled,
/// 1 = reaches the colour's first border, 2 = reaches its second border.
#[derive(Debug)]
pub struct GameWithData {
    pub game: Game,
    pub data: Board,
}

impl GameWithData {
    /// The game invariant together with a valid label grid of the same side.
    pub open spec fn inv(self) -> bool {
        &&& self.game.inv()
        &&& self.data.valid()
        &&& self.data.size == self.game.board.size
    }

    /// A same-coloured in-bounds neighbour of `c` already carries `label`.
    pub open spec fn sees_label(self, c: Cell, color: u8, label: u8) -> bool {
        grid_sees_label(
            self.data.size as int,
            self.game.board.cells(),
            self.data.cells(),
            c,
            color,
            label,
        )
    }

    /// The cell reaches its colour's first border directly or through an
    /// already-labelled neighbour.
    pub open spec fn reaches_first(self, c: Cell, color: u8) -> bool {
        grid_reaches_first(self.data.size as int, self.game.board.cells(), self.data.cells(), c, color)
    }

    /// The cell reaches its colour's second border directly or through an
    /// already-labelled neighbour.
    pub open spec fn reaches_second(self, c: Cell, color: u8) -> bool {
        grid_reaches_second(self.data.size as int, self.game.board.cells(), self.data.cells(), c, color)
    }

    /// A fresh game and an all-empty label grid; `ConfigError` exactly when
    /// the side exceeds 19.
    pub fn new(first_player: String, second_player: String, field_size: usize, block_height: u64)
        -> (r: Result<GameWithData, GameError>)
        ensures
            r is Ok <==> field_size <= 19,
            r is Err ==> r == Err::<GameWithData, GameError>(GameError::ConfigError),
            r matches Ok(g) ==> {
                &&& g.game.first_player@ == first_player@
                &&& g.game.second_player@ == second_player@
                &&& g.game.turn == 0
                &&& g.game.board.size == field_size
                &&& forall|i: int|
                    0 <= i < g.game.board.cells().len() ==> g.game.board.cells()[i] == 0
                &&& g.game.current_block_height == block_height
                &&& g.game.prev_block_height == 0
                &&& !g.game.is_finished
                &&& g.data.size == field_size
                &&& forall|i: int| 0 <= i < g.data.cells().len() ==> g.data.cells()[i] == 0
                &&& g.inv()
            },
    {
        let game = match Game::new(first_player, second_player, field_size, block_height) {
            Ok(g) => g,
            Err(e) => { return Err(e) },
        };
        let data = match Board::new(field_size) {
            Ok(d) => d,
            Err(_) => { return vstd::pervasive::unreached() },
        };
        Ok(GameWithData { game, data })
    }

    /// Breadth-first label propagation from `cell`, which must carry
    /// `color` on the board. Labels `cell` with `border` — overwriting any
    /// stale label it carried — and spreads the label through same-coloured
    /// cells not yet labelled `border`. If the propagation meets a
    /// same-coloured cell already carrying a different nonzero label, two
    /// oppositely labelled components have merged and the game is marked
    /// finished, exactly when `flood_merges` holds; with no merge ahead, the
    /// cells labelled `border` afterwards are exactly those labelled before
    /// plus everything `flood_reaches` from `cell`, and the finished flag
    /// keeps its old value. The rest of the game state is never touched.
    #[verifier::loop_isolation(false)]
    #[verifier::rlimit(100)]
    pub fn bfs(&mut self, cell: Cell, color: u8, border: u8)
        requires
            old(self).game.board.wf(),
            old(self).data.valid(),
            old(self).data.size == old(self).game.board.size,
            cell.in_bounds(old(self).data.size as int),
            old(self).game.board.spec_get(cell) == color,
            border == 1 || border == 2,
        ensures
            same_but_finished(old(self).game, final(self).game),
            old(self).game.is_finished ==> final(self).game.is_finished,
            final(self).data.size == old(self).data.size,
            final(self).data.valid(),
            forall|j: int|
                0 <= j < final(self).data.cells().len() ==> final(self).data.cells()[j] == old(
                    self,
                ).data.cells()[j] || final(self).data.cells()[j] == border,
            forall|j: int|
                0 <= j < final(self).data.cells().len() && final(self).data.cells()[j] != old(
                    self,
                ).data.cells()[j] ==> j == old(self).data.cell_index(cell) || old(
                    self,
                ).game.board.cells()[j] == color,
            final(self).data.spec_get(cell) == border,
            ({
                let size = old(self).data.size as int;
                let board = old(self).game.board.cells();
                let labels = old(self).data.cells();
                let merges = flood_merges(size, board, labels, color, border, cell);
                &&& final(self).game.is_finished == (old(self).game.is_finished || merges)
                &&& (!merges ==> forall|d: Cell|
                    d.in_bounds(size) ==> #[trigger] final(self).data.spec_get(d) == (
                    if flood_reaches(size, board, labels, color, border, cell, d) {
                        border
                    } else {
                        old(self).data.spec_get(d)
                    }))
                &&& forall|d: Cell|
                    d.in_bounds(size) && #[trigger] final(self).data.spec_get(d) != old(
                        self,
                    ).data.spec_get(d) ==> final(self).data.spec_get(d) == border && (d == cell || (
                    old(self).data.spec_get(d) == 0 && flood_reaches(
                        size,
                        board,
                        labels,
                        color,
                        border,
                        cell,
                        d,
                    )))
            }),
    {
        let ghost pre = *self;
        let ghost size0 = self.data.size as int;
        let ghost board0 = self.game.board.cells();
        let ghost labels0 = self.data.cells();
        proof {
            lemma_cell_index_decomp(self.data, cell);
            lemma_flood_here(size0, board0, labels0, color, border, cell);
        }
        let res0 = self.data.set_cell(&cell, border);
        proof {
            assert(res0 is Ok);
            assert forall|d: Cell|
                d.in_bounds(size0) && self.data.spec_get(d) != pre.data.spec_get(d) implies d
                == cell by {
                lemma_cell_index_decomp(pre.data, d);
                if d != cell {
                    crate::board::lemma_cell_index_injective(pre.data, cell, d);
                }
            }
        }
        let mut q: VecDeque<Cell> = VecDeque::new();
        q.push_back(cell);
        proof {
            assert(q@[0] == cell);
            assert(q@.contains(cell));
            assert(flood_closed(size0, board0, pre.data, self.data, q@, cell, color, border)) by {
                reveal(flood_closed);
            }
        }
        let field_size = self.data.size;
        #[verifier::loop_isolation(true)]
        while q.len() != 0
            invariant
                pre == *old(self),
                size0 == pre.data.size as int,
                board0 == pre.game.board.cells(),
                labels0 == pre.data.cells(),
                pre.game.board.wf(),
                pre.data.valid(),
                border == 1 || border == 2,
                cell.in_bounds(size0),
                grid_at(size0, board0, cell) == color,
                self.data.size == self.game.board.size,
                field_size == self.data.size,
                self.data.size == pre.data.size,
                self.data.valid(),
                same_but_finished(pre.game, self.game),
                self.game.is_finished == pre.game.is_finished,
                forall|j: int|
                    0 <= j < self.data.cells().len() ==> self.data.cells()[j]
                        == pre.data.cells()[j] || self.data.cells()[j] == border,
                forall|j: int|
                    0 <= j < self.data.cells().len() && self.data.cells()[j]
                        != pre.data.cells()[j] ==> j == pre.data.cell_index(cell)
                        || pre.game.board.cells()[j] == color,
                forall|d: Cell|
                    d.in_bounds(size0) && #[trigger] self.data.spec_get(d) != pre.data.spec_get(d)
                        ==> self.data.spec_get(d) == border && (d == cell || (pre.data.spec_get(d)
                        == 0 && flood_reaches(size0, board0, labels0, color, border, cell, d))),
                self.data.spec_get(cell) == border,
                forall|k: int|
                    0 <= k < q@.len() ==> (#[trigger] q@[k]).in_bounds(size0) && flood_reaches(
                        size0,
                        board0,
                        labels0,
                        color,
                        border,
                        cell,
                        q@[k],
                    ),
                flood_closed(size0, board0, pre.data, self.data, q@, cell, color, border),
            decreases q@.len() + count_ne(self.data.cells(), border),
        {
            let ghost measure0 = q@.len() + count_ne(self.data.cells(), border);
            let ghost q_pre = q@;
            let v = match q.pop_front() {
                Some(v) => v,
                None => { return vstd::pervasive::unreached() },
            };
            proof {
                assert(v == q_pre[0]);
                assert forall|a: Cell| q_pre.contains(a) implies a == v || q@.contains(a) by {
                    let k = choose|k: int| 0 <= k < q_pre.len() && q_pre[k] == a;
                    if k > 0 {
                        assert(q@[k - 1] == a);
                    }
                }
            }
            let neighbours = match v.get_neighbours(field_size) {
                Ok(ns) => ns,
                Err(_) => { return vstd::pervasive::unreached() },
            };
            proof {
                assert forall|k: int| 0 <= k < neighbours@.len() implies (
                #[trigger] neighbours@[k]).in_bounds(field_size as int) && neighbours@[k] != v by {
                    assert(neighbours@.contains(neighbours@[k]));
                    lemma_neighbours_iff(v, neighbours@[k], field_size);
                }
            }
            let ghost data1 = self.data;
            let ghost snap = *self;
            // First pass: if the frontier meets a same-coloured cell that
            // already carries a different nonzero label, two labelled
            // components have just merged - the colour connects both borders.
            let mut i: usize = 0;
            while i < neighbours.len()
                invariant
                    *self == snap,
                    i <= neighbours@.len(),
                    forall|k: int|
                        0 <= k < i ==> !(grid_at(size0, board0, #[trigger] neighbours@[k]) == color
                            && data1.spec_get(neighbours@[k]) != border && data1.spec_get(
                            neighbours@[k],
                        ) != 0),
                decreases neighbours@.len() - i,
            {
                let c = neighbours[i];
                let bc = match self.game.board.get_cell(&c) {
                    Ok(b) => b,
                    Err(_) => { return vstd::pervasive::unreached() },
                };
                let dc = match self.data.get_cell(&c) {
                    Ok(d) => d,
                    Err(_) => { return vstd::pervasive::unreached() },
                };
                if bc == color && dc != border && dc != 0 {
                    self.game.is_finished = true;
                    proof {
                        assert(neighbours@.contains(c));
                        lemma_neighbours_iff(v, c, field_size);
                        assert(hex_adjacent(v, c));
                        // The met cell kept its old label, so the merge was
                        // already ahead of the flood in the old state.
                        assert(pre.data.spec_get(c) == dc);
                        assert(grid_at(size0, labels0, c) == dc);
                        assert(c != cell);
                        assert(grid_at(size0, board0, c) == color);
                        assert(flood_reaches(size0, board0, labels0, color, border, cell, v));
                        assert(flood_merges(size0, board0, labels0, color, border, cell));
                    }
                    return ;
                }
                i += 1;
            }
            // Second pass: label the same-coloured not-yet-labelled
            // neighbours and enqueue them for further propagation.
            proof {
                assert(flood_closed(
                    size0,
                    board0,
                    pre.data,
                    self.data,
                    q@.push(v),
                    cell,
                    color,
                    border,
                )) by {
                    assert forall|a: Cell| q_pre.contains(a) implies q@.push(v).contains(a) by {
                        if a == v {
                            assert(q@.push(v)[q@.len() as int] == v);
                        } else {
                            assert(q@.contains(a));
                            let k = choose|k: int| 0 <= k < q@.len() && q@[k] == a;
                            assert(q@.push(v)[k] == a);
                        }
                    }
                    lemma_flood_closed_weaken(
                        size0,
                        board0,
                        pre.data,
                        self.data,
                        q_pre,
                        q@.push(v),
                        cell,
                        color,
                        border,
                    );
                }
            }
            let ghost sum0 = q@.len() + count_ne(self.data.cells(), border);
            let mut i: usize = 0;
            #[verifier::loop_isolation(true)]
            while i < neighbours.len()
                invariant
                    size0 == pre.data.size as int,
                    board0 == pre.game.board.cells(),
                    labels0 == pre.data.cells(),
                    pre.game.board.wf(),
                    pre.data.valid(),
                    border == 1 || border == 2,
                    cell.in_bounds(size0),
                    v.in_bounds(size0),
                    flood_reaches(size0, board0, labels0, color, border, cell, v),
                    neighbours@ == neighbours_of(v, field_size),
                    forall|k: int|
                        0 <= k < neighbours@.len() ==> (#[trigger] neighbours@[k]).in_bounds(
                            size0,
                        ) && neighbours@[k] != v,
                    forall|k: int|
                        0 <= k < neighbours@.len() ==> !(grid_at(
                            size0,
                            board0,
                            #[trigger] neighbours@[k],
                        ) == color && data1.spec_get(neighbours@[k]) != border && data1.spec_get(
                            neighbours@[k],
                        ) != 0),
                    i <= neighbours@.len(),
                    self.game == snap.game,
                    self.game.board == pre.game.board,
                    self.data.size == self.game.board.size,
                    field_size == self.data.size,
                    self.data.size == pre.data.size,
                    self.data.valid(),
                    q@.len() + count_ne(self.data.cells(), border) == sum0,
                    forall|d: Cell|
                        d.in_bounds(size0) ==> #[trigger] self.data.spec_get(d) == data1.spec_get(
                            d,
                        ) || self.data.spec_get(d) == border,
                    forall|j: int|
                        0 <= j < self.data.cells().len() ==> self.data.cells()[j]
                            == pre.data.cells()[j] || self.data.cells()[j] == border,
                    forall|j: int|
                        0 <= j < self.data.cells().len() && self.data.cells()[j]
                            != pre.data.cells()[j] ==> j == pre.data.cell_index(cell)
                            || pre.game.board.cells()[j] == color,
                    forall|d: Cell|
                        d.in_bounds(size0) && #[trigger] self.data.spec_get(d)
                            != pre.data.spec_get(d) ==> self.data.spec_get(d) == border && (d
                            == cell || (pre.data.spec_get(d) == 0 && flood_reaches(
                            size0,
                            board0,
                            labels0,
                            color,
                            border,
                            cell,
                            d,
                        ))),
                    self.data.spec_get(cell) == border,
                    forall|k: int|
                        0 <= k < q@.len() ==> (#[trigger] q@[k]).in_bounds(size0) && flood_reaches(
                            size0,
                            board0,
                            labels0,
                            color,
                            border,
                            cell,
                            q@[k],
                        ),
                    flood_closed(
                        size0,
                        board0,
                        pre.data,
                        self.data,
                        q@.push(v),
                        cell,
                        color,
                        border,
                    ),
                    forall|k: int|
                        0 <= k < i && grid_at(size0, board0, #[trigger] neighbours@[k]) == color
                            ==> self.data.spec_get(neighbours@[k]) == border,
                decreases neighbours@.len() - i,
            {
                let c = neighbours[i];
                let bc = match self.game.board.get_cell(&c) {
                    Ok(b) => b,
                    Err(_) => { return vstd::pervasive::unreached() },
                };
                let dc = match self.data.get_cell(&c) {
                    Ok(d) => d,
                    Err(_) => { return vstd::pervasive::unreached() },
                };
                if bc == color && dc != border {
                    proof {
                        assert(neighbours@.contains(c));
                        lemma_neighbours_iff(v, c, field_size);
                        // The first pass found no label at all here, so this
                        // neighbour was unlabelled and the flood reaches it.
                        assert(data1.spec_get(c) == dc);
                        assert(dc == 0);
                        assert(pre.data.spec_get(c) == 0);
                        lemma_flood_extend(size0, board0, labels0, color, border, cell, v, c);
                        lemma_cell_index_decomp(self.data, c);
                        lemma_cell_index_decomp(self.data, cell);
                        lemma_count_ne_update(
                            self.data.cells(),
                            border,
                            self.data.cell_index(c),
                            border,
                        );
                    }
                    let ghost before = self.data;
                    let ghost qb = q@;
                    let res = self.data.set_cell(&c, border);
                    proof {
                        assert(res is Ok);
                        assert forall|d: Cell|
                            d.in_bounds(size0) && self.data.spec_get(d) != before.spec_get(
                                d,
                            ) implies d == c by {
                            lemma_cell_index_decomp(before, d);
                            if d != c {
                                crate::board::lemma_cell_index_injective(before, c, d);
                            }
                        }
                    }
                    q.push_back(Cell { x: c.x, y: c.y });
                    proof {
                        assert(Cell { x: c.x, y: c.y } == c);
                        assert(q@ == qb.push(c));
                        lemma_flood_closed_grow(
                            size0,
                            board0,
                            pre.data,
                            before,
                            self.data,
                            qb.push(v),
                            c,
                            cell,
                            color,
                            border,
                        );
                        assert(flood_closed(
                            size0,
                            board0,
                            pre.data,
                            self.data,
                            q@.push(v),
                            cell,
                            color,
                            border,
                        )) by {
                            assert forall|a: Cell| qb.push(v).push(c).contains(a) implies q@.push(
                                v,
                            ).contains(a) by {
                                let k = choose|k: int|
                                    0 <= k < qb.push(v).push(c).len() && qb.push(v).push(c)[k]
                                        == a;
                                if k < qb.len() {
                                    assert(q@.push(v)[k] == a);
                                } else if k == qb.len() {
                                    assert(q@.push(v)[qb.len() as int + 1] == a);
                                } else {
                                    assert(q@.push(v)[qb.len() as int] == a);
                                }
                            }
                            lemma_flood_closed_weaken(
                                size0,
                                board0,
                                pre.data,
                                self.data,
                                qb.push(v).push(c),
                                q@.push(v),
                                cell,
                                color,
                                border,
                            );
                        }
                    }
                }
                i += 1;
            }
            proof {
                // Every same-coloured in-bounds neighbour of the popped cell
                // now carries the label: the closure extends to it.
                assert forall|n: Cell|
                    n.in_bounds(size0) && hex_adjacent(v, n) && grid_at(size0, board0, n)
                        == color implies self.data.spec_get(n) == border by {
                    lemma_neighbours_iff(v, n, field_size);
                    assert(neighbours_of(v, field_size).contains(n));
                    let k = choose|k: int|
                        0 <= k < neighbours@.len() && neighbours@[k] == n;
                    assert(grid_at(size0, board0, neighbours@[k]) == color);
                }
                assert(flood_closed(size0, board0, pre.data, self.data, q@, cell, color, border))
                    by {
                    reveal(flood_closed);
                    assert forall|a: Cell, n: Cell|
                        a.in_bounds(size0) && n.in_bounds(size0) && self.data.spec_get(a) == border
                            && (pre.data.spec_get(a) != border || a == cell) && !q@.contains(a)
                            && #[trigger] hex_adjacent(a, n) && grid_at(size0, board0, n)
                            == color implies self.data.spec_get(n) == border by {
                        if a != v {
                            assert(!q@.push(v).contains(a));
                        }
                    }
                }
                assert(sum0 == measure0 - 1);
            }
        }
        proof {
            assert forall|a: Cell, n: Cell|
                a.in_bounds(size0) && n.in_bounds(size0) && self.data.spec_get(a) == border && (
                pre.data.spec_get(a) != border || a == cell) && #[trigger] hex_adjacent(a, n)
                    && grid_at(size0, board0, n) == color implies self.data.spec_get(n)
                == border by {
                reveal(flood_closed);
                assert(!q@.contains(a));
            }
            lemma_flood_exit(size0, board0, labels0, color, border, cell, pre.data, self.data);
        }
    }

    /// Processes an accepted move at `cell`: reads the cell's colour, checks
    /// whether the cell reaches each of the colour's borders directly or
    /// through already-labelled neighbours, and then either marks the game
    /// finished (both borders), propagates the single reached border label,
    /// or does nothing.
    #[verifier::rlimit(100)]
    pub fn process_cell(&mut self, cell: Cell)
        requires
            old(self).game.board.wf(),
            old(self).data.valid(),
            old(self).data.size == old(self).game.board.size,
            cell.in_bounds(old(self).data.size as int),
        ensures
            same_but_finished(old(self).game, final(self).game),
            old(self).game.is_finished ==> final(self).game.is_finished,
            final(self).data.size == old(self).data.size,
            final(self).data.valid(),
            forall|j: int|
                0 <= j < final(self).data.cells().len() ==> {
                    ||| final(self).data.cells()[j] == old(self).data.cells()[j]
                    ||| final(self).data.cells()[j] == 1
                    ||| final(self).data.cells()[j] == 2
                },
            forall|j: int|
                0 <= j < final(self).data.cells().len() && final(self).data.cells()[j] != old(
                    self,
                ).data.cells()[j] ==> j == old(self).data.cell_index(cell) || old(
                    self,
                ).game.board.cells()[j] == old(self).game.board.spec_get(cell),
            ({
                let color = old(self).game.board.spec_get(cell);
                let b1 = old(self).reaches_first(cell, color);
                let b2 = old(self).reaches_second(cell, color);
                &&& (b1 && b2 ==> final(self).game.is_finished && final(self).data == old(
                    self,
                ).data)
                &&& (b1 && !b2 ==> final(self).data.spec_get(cell) == 1)
                &&& (!b1 && b2 ==> final(self).data.spec_get(cell) == 2)
                &&& (!b1 && !b2 ==> final(self).data == old(self).data && final(self).game == old(
                    self,
                ).game)
            }),
            ({
                let size = old(self).data.size as int;
                let board = old(self).game.board.cells();
                let labels = old(self).data.cells();
                let color = old(self).game.board.spec_get(cell);
                let b1 = old(self).reaches_first(cell, color);
                let b2 = old(self).reaches_second(cell, color);
                &&& (b1 && !b2 ==> {
                    let merges = flood_merges(size, board, labels, color, 1, cell);
                    &&& final(self).game.is_finished == (old(self).game.is_finished || merges)
                    &&& (!merges ==> forall|d: Cell|
                        d.in_bounds(size) ==> #[trigger] final(self).data.spec_get(d) == (
                        if flood_reaches(size, board, labels, color, 1, cell, d) {
                            1u8
                        } else {
                            old(self).data.spec_get(d)
                        }))
                })
                &&& (!b1 && b2 ==> {
                    let merges = flood_merges(size, board, labels, color, 2, cell);
                    &&& final(self).game.is_finished == (old(self).game.is_finished || merges)
                    &&& (!merges ==> forall|d: Cell|
                        d.in_bounds(size) ==> #[trigger] final(self).data.spec_get(d) == (
                        if flood_reaches(size, board, labels, color, 2, cell, d) {
                            2u8
                        } else {
                            old(self).data.spec_get(d)
                        }))
                })
                &&& (!b1 && !b2 ==> final(self).game.is_finished == old(self).game.is_finished)
            }),
    {
        let color = match self.game.board.get_cell(&cell) {
            Ok(c) => c,
            Err(_) => { return vstd::pervasive::unreached() },
        };
        let (mut border1, mut border2) = if color == 1 {
            (cell.y == 0, cell.y + 1 == self.data.size)
        } else {
            (cell.x == 0, cell.x + 1 == self.data.size)
        };
        let neighbours = match cell.get_neighbours(self.data.size) {
            Ok(ns) => ns,
            Err(_) => { return vstd::pervasive::unreached() },
        };
        proof {
            assert forall|k: int| 0 <= k < neighbours@.len() implies (
            #[trigger] neighbours@[k]).in_bounds(self.data.size as int) by {
                assert(neighbours@.contains(neighbours@[k]));
                lemma_neighbours_iff(cell, neighbours@[k], self.data.size);
            }
        }
        let ghost edge1 = border1;
        let ghost edge2 = border2;
        let mut i: usize = 0;
        while i < neighbours.len()
            invariant
                i <= neighbours@.len(),
                *self == *old(self),
                self.game.board.wf(),
                self.data.valid(),
                self.data.size == self.game.board.size,
                neighbours@ == neighbours_of(cell, self.data.size),
                cell.in_bounds(self.data.size as int),
                color == self.game.board.spec_get(cell),
                forall|k: int|
                    0 <= k < neighbours@.len() ==> (#[trigger] neighbours@[k]).in_bounds(
                        self.data.size as int,
                    ),
                border1 == edge1 || exists|k: int|
                    0 <= k < i && cond_label(*self, #[trigger] neighbours@[k], color, 1),
                border2 == edge2 || exists|k: int|
                    0 <= k < i && cond_label(*self, #[trigger] neighbours@[k], color, 2),
                (exists|k: int| 0 <= k < i && cond_label(*self, #[trigger] neighbours@[k], color, 1))
                    ==> border1,
                (exists|k: int| 0 <= k < i && cond_label(*self, #[trigger] neighbours@[k], color, 2))
                    ==> border2,
            decreases neighbours@.len() - i,
        {
            let c = neighbours[i];
            let bc = match self.game.board.get_cell(&c) {
                Ok(b) => b,
                Err(_) => { return vstd::pervasive::unreached() },
            };
            let dc = match self.data.get_cell(&c) {
                Ok(d) => d,
                Err(_) => { return vstd::pervasive::unreached() },
            };
            if bc == color {
                if dc == 1 {
                    border1 = true;
                }
                if dc == 2 {
                    border2 = true;
                }
            }
            i += 1;
        }
        proof {
            lemma_borders_match(*self, cell, color, 1, border1, edge1);
            lemma_borders_match(*self, cell, color, 2, border2, edge2);
        }
        if border1 && border2 {
            self.game.is_finished = true;
        } else if border1 {
            self.bfs(cell, color, 1);
        } else if border2 {
            self.bfs(cell, color, 2);
        }
    }
}

impl GameWithData {
    /// Why a move request would be rejected, or `None` when it is legal:
    /// a PLACE needs a cell argument, the caller must be the player whose
    /// turn it is, and the cell must be an empty in-bounds one; a SWAP must
    /// come without a cell argument, from the second player, at turn 1.
    pub open spec fn move_error(
        self,
        move_type: MoveType,
        cell: Option<Cell>,
        caller: Seq<char>,
    ) -> Option<GameError> {
        match move_type {
            MoveType::PLACE => match cell {
                Option::Some(c) => {
                    let expected = if self.game.turn % 2 == 0 {
                        self.game.first_player@
                    } else {
                        self.game.second_player@
                    };
                    if caller != expected {
                        Option::Some(GameError::UnauthorizedCaller)
                    } else if !c.in_bounds(self.game.board.size as int) {
                        Option::Some(GameError::OutOfBounds)
                    } else if self.game.board.spec_get(c) != 0 {
                        Option::Some(GameError::CellOccupied)
                    } else {
                        Option::None
                    }
                },
                Option::None => Option::Some(GameError::MalformedRequest),
            },
            MoveType::SWAP => match cell {
                Option::Some(_) => Option::Some(GameError::MalformedRequest),
                Option::None => {
                    if caller != self.game.second_player@ {
                        Option::Some(GameError::UnauthorizedCaller)
                    } else if self.game.turn != 1 {
                        Option::Some(GameError::SwapNotAllowed)
                    } else {
                        Option::None
                    }
                },
            },
        }
    }

    /// Dispatches a move request made by `caller`: a PLACE puts the stone of
    /// the player whose turn it is on the given cell, a SWAP applies the swap
    /// rule and clears the vacated cell's label; either way the affected cell
    /// is then processed for win detection. A rejected request leaves the
    /// whole state unchanged and reports exactly the reason given by
    /// `move_error`.
    pub fn make_move(
        &mut self,
        move_type: MoveType,
        cell: Option<Cell>,
        caller: &String,
        block_height: u64,
    ) -> (r: Result<(), GameError>)
        requires
            old(self).inv(),
        ensures
            r is Err <==> old(self).move_error(move_type, cell, caller@) is Some,
            r is Err ==> *final(self) == *old(self) && old(self).move_error(
                move_type,
                cell,
                caller@,
            ) == Some(r->Err_0),
            r is Ok ==> final(self).inv(),
            r is Ok ==> old(self).game.is_finished ==> final(self).game.is_finished,
            r is Ok ==> {
                &&& final(self).game.first_player@ == old(self).game.first_player@
                &&& final(self).game.second_player@ == old(self).game.second_player@
            },
            r is Ok ==> {
                &&& final(self).game.board.size == old(self).game.board.size
                &&& final(self).data.size == old(self).data.size
            },
            r is Ok ==> Game::heights_updated(old(self).game, final(self).game, block_height),
            r is Ok && move_type is PLACE ==> {
                let c = cell->Some_0;
                &&& final(self).game.turn == old(self).game.turn + 1
                &&& final(self).game.board.cells() == old(self).game.board.cells().update(
                    old(self).game.board.cell_index(c),
                    (old(self).game.turn % 2 + 1) as u8,
                )
            },
            r is Ok && move_type is PLACE ==> place_tracked(
                *old(self),
                *final(self),
                cell->Some_0,
            ),
            r is Ok && move_type is SWAP ==> final(self).game.turn == 2 && swap_tracked(
                *old(self),
                *final(self),
            ),
    {
        match (move_type, cell) {
            (MoveType::PLACE, Some(cell)) => {
                if self.game.turn % 2 == 0 {
                    if !(*caller == self.game.first_player) {
                        return Err(GameError::UnauthorizedCaller);
                    }
                    let placed = self.game.place_counter(&cell, 1, block_height);
                    match placed {
                        Ok(()) => {},
                        Err(e) => { return Err(e) },
                    }
                } else {
                    if !(*caller == self.game.second_player) {
                        return Err(GameError::UnauthorizedCaller);
                    }
                    let placed = self.game.place_counter(&cell, 2, block_height);
                    match placed {
                        Ok(()) => {},
                        Err(e) => { return Err(e) },
                    }
                }
                proof {
                    lemma_cell_index_decomp(self.game.board, cell);
                }
                self.process_cell(cell);
                Ok(())
            },
            (MoveType::SWAP, None) => {
                if !(*caller == self.game.second_player) {
                    return Err(GameError::UnauthorizedCaller);
                }
                let swapped = self.game.swap_rule(block_height);
                let reflected = match swapped {
                    Ok(c) => c,
                    Err(e) => { return Err(e) },
                };
                let vacated = reflected.symm();
                proof {
                    lemma_cell_index_decomp(self.game.board, reflected);
                    lemma_cell_index_decomp(old(self).game.board, vacated);
                }
                let cleared = self.data.set_cell(&vacated, 0);
                proof {
                    assert(cleared is Ok);
                    assert(self.game.board.spec_get(reflected) == 2);
                }
                self.process_cell(reflected);
                proof {
                    assert(vacated.in_bounds(old(self).data.size as int));
                    assert(Cell { x: vacated.y, y: vacated.x } == reflected);
                    assert(swap_tracked_at(*old(self), *self, vacated));
                }
                Ok(())
            },
            _ => Err(GameError::MalformedRequest),
        }
    }
}

impl Clone for GameWithData {
    /// A deep copy carrying the same snapshot and the same label grid.
    fn clone(&self) -> (r: Self)
        ensures
            snap_eq(r.game, self.game),
            r.data.size == self.data.size,
            r.data.field@ == self.data.field@,
    {
        GameWithData { game: self.game.clone(), data: self.data.clone() }
    }
}

impl PartialEq for GameWithData {
    /// Equal games and equal label grids.
    fn eq(&self, other: &Self) -> (r: bool) {
        self.game == other.game && self.data == other.data
    }
}

impl vstd::std_specs::cmp::PartialEqSpecImpl for GameWithData {
    open spec fn obeys_eq_spec() -> bool {
        true
    }

    open spec fn eq_spec(&self, other: &GameWithData) -> bool {
        &&& snap_eq(self.game, other.game)
        &&& self.data.size == other.data.size
        &&& self.data.field@ == other.data.field@
    }
}

/// Copies carrying the same snapshot and label grid decode to the same
/// state: they satisfy the same invariant and make the same move decisions.
pub proof fn lemma_copy_like(a: GameWithData, b: GameWithData)
    requires
        snap_eq(a.game, b.game),
        a.data.size == b.data.size,
        a.data.field@ == b.data.field@,
    ensures
        a.inv() == b.inv(),
        a.game.board.cells() == b.game.board.cells(),
        a.data.cells() == b.data.cells(),
        forall|mt: MoveType, cell: Option<Cell>, caller: Seq<char>|
            a.move_error(mt, cell, caller) == #[trigger] b.move_error(mt, cell, caller),
        forall|post: GameWithData, c: Cell| #[trigger] place_tracked(a, post, c) ==> place_tracked(
            b,
            post,
            c,
        ),
        forall|post: GameWithData| #[trigger] swap_tracked(a, post) ==> swap_tracked(b, post),
{
    crate::game::lemma_snap_eq_same_state(a.game, b.game);
    assert(a.data.cells() =~= b.data.cells());
    assert forall|mt: MoveType, cell: Option<Cell>, caller: Seq<char>| a.move_error(
        mt,
        cell,
        caller,
    ) == #[trigger] b.move_error(mt, cell, caller) by {
        assert(a.game.board.cells() == b.game.board.cells());
    }
    assert forall|post: GameWithData, c: Cell| #[trigger] place_tracked(a, post, c) implies
    place_tracked(b, post, c) by {
        assert(a.game.board.cells() == b.game.board.cells());
    }
    assert forall|post: GameWithData| #[trigger] swap_tracked(a, post) implies swap_tracked(
        b,
        post,
    ) by {
        let w = choose|stone: Cell| #[trigger] swap_tracked_at(a, post, stone);
        assert(swap_tracked_at(b, post, w));
    }
}

/// A cell of the right colour reaches itself by the one-cell flood path.
proof fn lemma_flood_here(size: int, board: Seq<u8>, labels: Seq<u8>, color: u8, border: u8, c: Cell)
    requires
        c.in_bounds(size),
        grid_at(size, board, c) == color,
    ensures
        flood_reaches(size, board, labels, color, border, c, c),
{
    let p = seq![c];
    assert(p[0] == c);
    assert(flood_path(size, board, labels, color, border, p));
    assert(p.first() == c && p.last() == c);
}

/// A flood path extends by one same-coloured, not-yet-labelled neighbour.
proof fn lemma_flood_extend(
    size: int,
    board: Seq<u8>,
    labels: Seq<u8>,
    color: u8,
    border: u8,
    from: Cell,
    v: Cell,
    n: Cell,
)
    requires
        flood_reaches(size, board, labels, color, border, from, v),
        hex_adjacent(v, n),
        n.in_bounds(size),
        grid_at(size, board, n) == color,
        grid_at(size, labels, n) != border,
    ensures
        flood_reaches(size, board, labels, color, border, from, n),
{
    let p = choose|p: Seq<Cell>|
        #[trigger] flood_path(size, board, labels, color, border, p) && p.first() == from
            && p.last() == v;
    let p2 = p.push(n);
    assert(forall|i: int| 0 <= i < p.len() ==> #[trigger] p2[i] == p[i]);
    assert(p2[p.len() as int] == n);
    assert(p[p.len() - 1] == v);
    assert(flood_path(size, board, labels, color, border, p2));
    assert(p2.first() == from && p2.last() == n);
}

/// The endpoint of a flood path is in bounds, coloured `color`, and — when
/// the path moved at all — was not yet labelled `border`.
proof fn lemma_flood_reach_props(
    size: int,
    board: Seq<u8>,
    labels: Seq<u8>,
    color: u8,
    border: u8,
    from: Cell,
    to: Cell,
)
    requires
        flood_reaches(size, board, labels, color, border, from, to),
    ensures
        to.in_bounds(size),
        grid_at(size, board, to) == color,
        to != from ==> grid_at(size, labels, to) != border,
{
    let p = choose|p: Seq<Cell>|
        #[trigger] flood_path(size, board, labels, color, border, p) && p.first() == from
            && p.last() == to;
    assert(p[p.len() - 1] == to);
    if to != from {
        assert(p.len() > 1);
    }
}

/// Following a flood path through a closed labelling: when the seed carries
/// `border` and every freshly labelled cell has all its same-coloured
/// neighbours labelled, the path's endpoint carries `border` too.
proof fn lemma_flood_follow(
    size: int,
    board: Seq<u8>,
    labels: Seq<u8>,
    post: Board,
    cell: Cell,
    color: u8,
    border: u8,
    p: Seq<Cell>,
)
    requires
        post.size as int == size,
        flood_path(size, board, labels, color, border, p),
        p.first() == cell,
        post.spec_get(cell) == border,
        forall|v: Cell, n: Cell|
            v.in_bounds(size) && n.in_bounds(size) && post.spec_get(v) == border && (grid_at(
                size,
                labels,
                v,
            ) != border || v == cell) && #[trigger] hex_adjacent(v, n) && grid_at(size, board, n)
                == color ==> post.spec_get(n) == border,
    ensures
        post.spec_get(p.last()) == border,
    decreases p.len(),
{
    if p.len() > 1 {
        let q = p.drop_last();
        assert(q.len() == p.len() - 1);
        assert(forall|i: int| 0 <= i < q.len() ==> #[trigger] q[i] == p[i]);
        assert(flood_path(size, board, labels, color, border, q));
        assert(q.first() == cell);
        lemma_flood_follow(size, board, labels, post, cell, color, border, q);
        let u = p[p.len() - 2];
        assert(q.last() == u);
        let d = p[p.len() - 1];
        assert(hex_adjacent(u, d));
        assert(grid_at(size, labels, u) != border || u == cell);
        assert(post.spec_get(d) == border);
    }
}

/// A closure with a given exclusion list also holds for any exclusion list
/// with at least the same members.
proof fn lemma_flood_closed_weaken(
    size: int,
    board: Seq<u8>,
    pre: Board,
    cur: Board,
    excl1: Seq<Cell>,
    excl2: Seq<Cell>,
    cell: Cell,
    color: u8,
    border: u8,
)
    requires
        flood_closed(size, board, pre, cur, excl1, cell, color, border),
        forall|a: Cell| excl1.contains(a) ==> excl2.contains(a),
    ensures
        flood_closed(size, board, pre, cur, excl2, cell, color, border),
{
    reveal(flood_closed);
}

/// Labelling one more excluded cell preserves the closure.
proof fn lemma_flood_closed_grow(
    size: int,
    board: Seq<u8>,
    pre: Board,
    before: Board,
    after: Board,
    excl: Seq<Cell>,
    c: Cell,
    cell: Cell,
    color: u8,
    border: u8,
)
    requires
        flood_closed(size, board, pre, before, excl, cell, color, border),
        c.in_bounds(size),
        after.spec_get(c) == border,
        forall|d: Cell|
            d.in_bounds(size) && #[trigger] after.spec_get(d) != before.spec_get(d) ==> d == c,
    ensures
        flood_closed(size, board, pre, after, excl.push(c), cell, color, border),
{
    reveal(flood_closed);
    assert forall|a: Cell, n: Cell|
        a.in_bounds(size) && n.in_bounds(size) && after.spec_get(a) == border && (pre.spec_get(a)
            != border || a == cell) && !excl.push(c).contains(a) && #[trigger] hex_adjacent(a, n)
            && grid_at(size, board, n) == color implies after.spec_get(n) == border by {
        assert(excl.push(c)[excl.len() as int] == c);
        assert(a != c);
        assert(!excl.contains(a)) by {
            if excl.contains(a) {
                let k = choose|k: int| 0 <= k < excl.len() && excl[k] == a;
                assert(excl.push(c)[k] == a);
            }
        }
        assert(before.spec_get(a) == border);
        assert(before.spec_get(n) == border);
    }
}

/// At the end of an unfinished flood the freshly labelled cells are closed
/// under same-coloured adjacency, so the flood covered exactly what it
/// reaches, and no merge was ahead of it.
proof fn lemma_flood_exit(
    size: int,
    board0: Seq<u8>,
    labels0: Seq<u8>,
    color: u8,
    border: u8,
    cell: Cell,
    pre_data: Board,
    post: Board,
)
    requires
        post.size as int == size,
        pre_data.size as int == size,
        labels0 == pre_data.cells(),
        cell.in_bounds(size),
        post.spec_get(cell) == border,
        grid_at(size, board0, cell) == color,
        forall|d: Cell|
            d.in_bounds(size) && #[trigger] post.spec_get(d) != pre_data.spec_get(d)
                ==> post.spec_get(d) == border && (d == cell || (pre_data.spec_get(d) == 0
                && flood_reaches(size, board0, labels0, color, border, cell, d))),
        forall|a: Cell, n: Cell|
            a.in_bounds(size) && n.in_bounds(size) && post.spec_get(a) == border && (
            pre_data.spec_get(a) != border || a == cell) && #[trigger] hex_adjacent(a, n)
                && grid_at(size, board0, n) == color ==> post.spec_get(n) == border,
    ensures
        !flood_merges(size, board0, labels0, color, border, cell),
        forall|d: Cell|
            d.in_bounds(size) ==> #[trigger] post.spec_get(d) == (if flood_reaches(
                size,
                board0,
                labels0,
                color,
                border,
                cell,
                d,
            ) {
                border
            } else {
                pre_data.spec_get(d)
            }),
{
    lemma_flood_here(size, board0, labels0, color, border, cell);
    assert forall|d: Cell|
        d.in_bounds(size) && flood_reaches(size, board0, labels0, color, border, cell, d) implies
        post.spec_get(d) == border by {
        let p = choose|p: Seq<Cell>|
            #[trigger] flood_path(size, board0, labels0, color, border, p) && p.first() == cell
                && p.last() == d;
        lemma_flood_follow(size, board0, labels0, post, cell, color, border, p);
    }
    if flood_merges(size, board0, labels0, color, border, cell) {
        let (w, n) = choose|w: Cell, n: Cell|
            {
                &&& #[trigger] flood_reaches(size, board0, labels0, color, border, cell, w)
                &&& #[trigger] hex_adjacent(w, n)
                &&& n.in_bounds(size)
                &&& grid_at(size, board0, n) == color
                &&& grid_at(size, labels0, n) != 0
                &&& grid_at(size, labels0, n) != border
                &&& n != cell
            };
        lemma_flood_reach_props(size, board0, labels0, color, border, cell, w);
        assert(post.spec_get(w) == border);
        assert(post.spec_get(n) == border);
        assert(pre_data.spec_get(n) != border && pre_data.spec_get(n) != 0);
        assert(false);
    }
    assert forall|d: Cell| d.in_bounds(size) implies #[trigger] post.spec_get(d) == (
    if flood_reaches(size, board0, labels0, color, border, cell, d) {
        border
    } else {
        pre_data.spec_get(d)
    }) by {
        if !flood_reaches(size, board0, labels0, color, border, cell, d) {
            assert(d != cell);
            assert(post.spec_get(d) == pre_data.spec_get(d));
        }
    }
}

/// The neighbour `n` is same-coloured and carries `label`.
pub open spec fn cond_label(g: GameWithData, n: Cell, color: u8, label: u8) -> bool {
    g.game.board.spec_get(n) == color && g.data.spec_get(n) == label
}

/// A label was seen among the neighbours of `c` exactly when some adjacent
/// in-bounds cell of the same colour carries it.
proof fn lemma_borders_match(g: GameWithData, c: Cell, color: u8, label: u8, flag: bool, edge: bool)
    requires
        g.data.size == g.game.board.size,
        c.in_bounds(g.data.size as int),
        flag == edge || exists|k: int|
            0 <= k < neighbours_of(c, g.data.size).len() && cond_label(
                g,
                #[trigger] neighbours_of(c, g.data.size)[k],
                color,
                label,
            ),
        (exists|k: int|
            0 <= k < neighbours_of(c, g.data.size).len() && cond_label(
                g,
                #[trigger] neighbours_of(c, g.data.size)[k],
                color,
                label,
            )) ==> flag,
    ensures
        flag == (edge || g.sees_label(c, color, label)),
{
    let ns = neighbours_of(c, g.data.size);
    if exists|k: int| 0 <= k < ns.len() && cond_label(g, #[trigger] ns[k], color, label) {
        let k = choose|k: int| 0 <= k < ns.len() && cond_label(g, #[trigger] ns[k], color, label);
        assert(ns.contains(ns[k]));
        lemma_neighbours_iff(c, ns[k], g.data.size);
        assert(hex_adjacent(c, ns[k]) && ns[k].in_bounds(g.data.size as int));
        assert(g.sees_label(c, color, label));
    }
    if g.sees_label(c, color, label) {
        let n = choose|n: Cell|
            #[trigger] hex_adjacent(c, n) && n.in_bounds(g.data.size as int)
                && g.game.board.spec_get(n) == color && g.data.spec_get(n) == label;
        lemma_neighbours_iff(c, n, g.data.size);
        assert(ns.contains(n));
        let k = choose|k: int| 0 <= k < ns.len() && ns[k] == n;
        assert(cond_label(g, ns[k], color, label));
    }
}

} // verus!
