//! The packed board: a square grid of cells, each holding a value in
//! {0 = empty, 1 = colour A, 2 = colour B}, stored as 2 bits per cell in a
//! contiguous byte vector.

use vstd::prelude::*;

use vstd::string::StringExecFns;

use vstd::arithmetic::div_mod::{lemma_fundamental_div_mod, lemma_fundamental_div_mod_converse};

use crate::cell::Cell;
use crate::errors::GameError;

verus! {

/// Decoded value of the 2-bit pair `k` (0..4) of byte `b`.
pub open spec fn pair_of_byte(b: u8, k: int) -> u8 {
    (b >> ((2 * k) as u8)) & 3
}

/// Decoded value of cell slot `i` of the packed storage.
pub open spec fn pair_at(field: Seq<u8>, i: int) -> u8 {
    pair_of_byte(field[i / 4], i % 4)
}

/// A square board of side `size`, its cells packed two bits each into
/// `field`, row by row.
#[derive(Debug)]
pub struct Board {
    pub size: usize,
    pub field: Vec<u8>,
}

/// A zero byte decodes to four empty cells.
proof fn lemma_pair_of_zero(s: u8)
    by (bit_vector)
    ensures
        (0u8 >> s) & 3 == 0,
{
}

/// Clearing the 2-bit pair at shift `s` of `b` with xor and oring in `v`
/// yields a byte whose pair at `s` is `v` and whose other pairs are those
/// of `b`.
proof fn lemma_set_pair(b: u8, v: u8, s: u8, t: u8)
    by (bit_vector)
    requires
        s < 8,
        s % 2 == 0,
        t < 8,
        t % 2 == 0,
        v <= 3,
    ensures
        ((b ^ (((b >> s) & 3) << s) ^ (v << s)) >> s) & 3 == v,
        t != s ==> ((b ^ (((b >> s) & 3) << s) ^ (v << s)) >> t) & 3 == (b >> t) & 3,
{
}

/// `2 * i` split into a byte offset and a bit offset.
proof fn lemma_index_decomp(i: int)
    requires
        0 <= i,
    ensures
        (2 * i) / 8 == i / 4,
        (2 * i) % 8 == 2 * (i % 4),
        0 <= i % 4 < 4,
        4 * (i / 4) + i % 4 == i,
{
    lemma_fundamental_div_mod(i, 4);
    lemma_fundamental_div_mod_converse(2 * i, 8, i / 4, 2 * (i % 4));
}

impl Board {
    /// The storage is exactly large enough for `size * size` 2-bit cells,
    /// and the side is at most 19.
    pub open spec fn wf(self) -> bool {
        &&& self.size <= 19
        &&& self.field@.len() == (self.size * self.size + 3) / 4
    }

    /// The decoded cell values, row-major.
    pub open spec fn cells(self) -> Seq<u8> {
        Seq::new((self.size * self.size) as nat, |i: int| pair_at(self.field@, i))
    }

    /// The slot of a coordinate in `cells`.
    pub open spec fn cell_index(self, c: Cell) -> int {
        c.y * self.size + c.x
    }

    /// The decoded value of an in-bounds coordinate.
    pub open spec fn spec_get(self, c: Cell) -> u8 {
        self.cells()[self.cell_index(c)]
    }

    /// The 2-bit slots past `size * size` in the final byte are all zero.
    pub open spec fn tail_clear(self) -> bool {
        forall|i: int|
            self.size * self.size <= i < self.field@.len() * 4 ==> pair_at(self.field@, i) == 0
    }

    /// Every decoded cell value is in {0, 1, 2}.
    pub open spec fn values_ok(self) -> bool {
        forall|i: int| 0 <= i < self.cells().len() ==> self.cells()[i] <= 2
    }

    /// The full board invariant, established by `new` and preserved by
    /// `set_cell` for values up to 2.
    pub open spec fn valid(self) -> bool {
        &&& self.wf()
        &&& self.tail_clear()
        &&& self.values_ok()
    }

    /// A fresh all-empty board, or `ConfigError` exactly when the requested
    /// side exceeds 19.
    pub fn new(size: usize) -> (r: Result<Board, GameError>)
        ensures
            r is Ok <==> size <= 19,
            r is Err ==> r == Err::<Board, GameError>(GameError::ConfigError),
            r matches Ok(b) ==> {
                &&& b.size == size
                &&& b.valid()
                &&& b.field@.len() == (size * size + 3) / 4
                &&& forall|i: int| 0 <= i < b.field@.len() ==> b.field@[i] == 0
                &&& forall|i: int| 0 <= i < b.cells().len() ==> b.cells()[i] == 0
            },
    {
        if size > 19 {
            return Err(GameError::ConfigError);
        }
        proof {
            assert(size * size <= 361) by (nonlinear_arith)
                requires
                    size <= 19,
            ;
        }
        let field_len = (size * size + 3) / 4;
        let mut field: Vec<u8> = Vec::new();
        while field.len() < field_len
            invariant
                field@.len() <= field_len,
                forall|i: int| 0 <= i < field@.len() ==> field@[i] == 0,
            decreases field_len - field@.len(),
        {
            field.push(0u8);
        }
        let b = Board { size, field };
        proof {
            assert forall|i: int| 0 <= i < b.field@.len() * 4 implies pair_at(b.field@, i)
                == 0 by {
                lemma_index_decomp(i);
                assert(i / 4 < b.field@.len()) by (nonlinear_arith)
                    requires
                        0 <= i,
                        i < b.field@.len() * 4,
                        4 * (i / 4) + i % 4 == i,
                        0 <= i % 4 < 4,
                ;
                lemma_pair_of_zero((2 * (i % 4)) as u8);
            }
            assert forall|i: int| 0 <= i < b.cells().len() implies b.cells()[i] == 0 by {
                assert(b.cells().len() <= b.field@.len() * 4) by (nonlinear_arith)
                    requires
                        b.field@.len() == (b.size * b.size + 3) / 4,
                        b.cells().len() == b.size * b.size,
                ;
            }
        }
        Ok(b)
    }

    /// The byte holding a coordinate's pair, its index, and the bit offset
    /// of the pair inside it.
    pub fn get_byte_and_bit(&self, cell: &Cell) -> (r: (u8, usize, usize))
        requires
            self.wf(),
            cell.in_bounds(self.size as int),
        ensures
            ({
                let idx = self.cell_index(*cell);
                &&& r.0 == self.field@[idx / 4]
                &&& r.1 == idx / 4
                &&& r.2 == 2 * (idx % 4)
                &&& 0 <= idx / 4 < self.field@.len()
                &&& 0 <= idx < self.size * self.size
            }),
    {
        proof {
            lemma_mul_bounds(self.size as int, cell.y as int, cell.x as int);
            lemma_index_decomp(self.cell_index(*cell));
            assert(self.cell_index(*cell) / 4 < self.field@.len()) by (nonlinear_arith)
                requires
                    0 <= self.cell_index(*cell) < self.size * self.size,
                    self.field@.len() == (self.size * self.size + 3) / 4,
                    4 * (self.cell_index(*cell) / 4) + self.cell_index(*cell) % 4
                        == self.cell_index(*cell),
                    0 <= self.cell_index(*cell) % 4 < 4,
            ;
        }
        let index = (self.size * cell.y + cell.x) * 2;
        let byte_index = index / 8;
        let byte: u8 = self.field[byte_index];
        let bit_index = index % 8;
        (byte, byte_index, bit_index)
    }

    /// The decoded value of the given coordinate, or `OutOfBounds`.
    pub fn get_cell(&self, cell: &Cell) -> (r: Result<u8, GameError>)
        requires
            self.wf(),
        ensures
            r is Ok <==> cell.in_bounds(self.size as int),
            r is Err ==> r == Err::<u8, GameError>(GameError::OutOfBounds),
            r matches Ok(v) ==> v == self.spec_get(*cell) && v <= 3,
    {
        if !(cell.x < self.size && cell.y < self.size) {
            return Err(GameError::OutOfBounds);
        }
        let (byte, _byte_index, bit_index) = self.get_byte_and_bit(cell);
        let v = (byte >> (bit_index as u8)) & 3;
        proof {
            let idx = self.cell_index(*cell);
            assert(v <= 3) by (bit_vector)
                requires
                    v == (byte >> (bit_index as u8)) & 3,
            ;
            assert(v == pair_of_byte(self.field@[idx / 4], idx % 4));
        }
        Ok(v)
    }

    /// Writes `value` into the given coordinate's 2 bits, leaving every other
    /// decoded slot of the storage untouched; `OutOfBounds` or `InvalidValue`
    /// exactly when the coordinate or the value is unacceptable.
    pub fn set_cell(&mut self, cell: &Cell, value: u8) -> (r: Result<(), GameError>)
        requires
            old(self).wf(),
        ensures
            r is Ok <==> (cell.in_bounds(old(self).size as int) && value <= 2),
            r is Err ==> *final(self) == *old(self),
            !cell.in_bounds(old(self).size as int) ==> r == Err::<(), GameError>(
                GameError::OutOfBounds,
            ),
            cell.in_bounds(old(self).size as int) && value > 2 ==> r == Err::<(), GameError>(
                GameError::InvalidValue,
            ),
            r is Ok ==> {
                let idx = old(self).cell_index(*cell);
                &&& final(self).size == old(self).size
                &&& final(self).field@.len() == old(self).field@.len()
                &&& final(self).wf()
                &&& forall|j: int|
                    0 <= j < final(self).field@.len() * 4 ==> pair_at(final(self).field@, j) == (
                    if j == idx {
                        value
                    } else {
                        pair_at(old(self).field@, j)
                    })
                &&& final(self).cells() == old(self).cells().update(idx, value)
                &&& (old(self).tail_clear() ==> final(self).tail_clear())
                &&& (old(self).valid() ==> final(self).valid())
            },
    {
        if !(cell.x < self.size && cell.y < self.size) {
            return Err(GameError::OutOfBounds);
        }
        if value > 2 {
            return Err(GameError::InvalidValue);
        }
        let (byte, byte_index, bit_index) = self.get_byte_and_bit(cell);
        let bits = (byte >> (bit_index as u8)) & 3;
        let new_byte = byte ^ (bits << (bit_index as u8)) ^ (value << (bit_index as u8));
        self.field[byte_index] = new_byte;
        proof {
            let idx = old(self).cell_index(*cell);
            let s = (2 * (idx % 4)) as u8;
            lemma_index_decomp(idx);
            assert forall|j: int| 0 <= j < self.field@.len() * 4 implies pair_at(self.field@, j)
                == (if j == idx {
                value
            } else {
                pair_at(old(self).field@, j)
            }) by {
                lemma_index_decomp(j);
                assert(j / 4 < self.field@.len()) by (nonlinear_arith)
                    requires
                        0 <= j,
                        j < self.field@.len() * 4,
                        4 * (j / 4) + j % 4 == j,
                        0 <= j % 4 < 4,
                ;
                if j / 4 == idx / 4 {
                    lemma_set_pair(byte, value, s, (2 * (j % 4)) as u8);
                } else {
                    assert(self.field@[j / 4] == old(self).field@[j / 4]);
                }
            }
            assert(self.cells() =~= old(self).cells().update(idx, value));
        }
        Ok(())
    }

    /// Recovers a coordinate from a raw bit position of the packed storage:
    /// bit pair `n / 2` holds cell `(n / 2 % size, n / 2 / size)`.
    pub fn get_coords(&self, bit_number: usize) -> (r: Cell)
        requires
            self.size >= 1,
        ensures
            r.x == (bit_number / 2) % self.size,
            r.y == (bit_number / 2) / self.size,
    {
        Cell::new(bit_number / 2 % self.size, bit_number / 2 / self.size)
    }
}

/// The symbol a cell value is printed as.
pub open spec fn symbol_of(v: u8) -> char {
    if v == 0 {
        '.'
    } else if v == 1 {
        'R'
    } else {
        'B'
    }
}

/// The printed form of row `i` after its first `j` cells: `i` leading
/// blanks, then the `j` cell symbols, a blank after each symbol but the
/// row's last.
pub open spec fn row_prefix(b: Board, i: int, j: int) -> Seq<char>
    decreases j,
{
    if j <= 0 {
        Seq::new(i as nat, |k: int| ' ')
    } else {
        row_prefix(b, i, j - 1) + seq![symbol_of(b.spec_get(Cell { x: (j - 1) as usize, y: i as usize }))]
            + (if j == b.size {
            Seq::<char>::empty()
        } else {
            seq![' ']
        })
    }
}

impl Board {
    /// The board rendered one row per string: row `i` indented by `i`
    /// blanks, empty cells as '.', colour A as 'R', colour B as 'B',
    /// blank-separated.
    pub fn get_board_as_strings(&self) -> (r: Vec<String>)
        requires
            self.valid(),
        ensures
            r@.len() == self.size,
            forall|i: int| 0 <= i < self.size ==> r@[i]@ == row_prefix(*self, i, self.size as int),
    {
        let mut vector: Vec<String> = Vec::new();
        let mut i: usize = 0;
        while i < self.size
            invariant
                i <= self.size,
                self.valid(),
                vector@.len() == i,
                forall|k: int| 0 <= k < i ==> vector@[k]@ == row_prefix(*self, k, self.size as int),
            decreases self.size - i,
        {
            let mut result = String::new();
            let mut p: usize = 0;
            while p < i
                invariant
                    p <= i,
                    result@ == Seq::new(p as nat, |k: int| ' '),
                decreases i - p,
            {
                result.append(" ");
                proof {
                    reveal_strlit(" ");
                    assert(result@ =~= Seq::new((p + 1) as nat, |k: int| ' '));
                }
                p += 1;
            }
            proof {
                assert(result@ == row_prefix(*self, i as int, 0));
            }
            let mut j: usize = 0;
            while j < self.size
                invariant
                    j <= self.size,
                    i < self.size,
                    self.valid(),
                    result@ == row_prefix(*self, i as int, j as int),
                decreases self.size - j,
            {
                let cell = Cell::new(j, i);
                let value = match self.get_cell(&cell) {
                    Ok(v) => v,
                    Err(_) => { return vstd::pervasive::unreached() },
                };
                if value == 0 {
                    result.append(".");
                } else if value == 1 {
                    result.append("R");
                } else {
                    result.append("B");
                }
                proof {
                    reveal_strlit(".");
                    reveal_strlit("R");
                    reveal_strlit("B");
                    lemma_cell_index_decomp(*self, cell);
                    assert(result@ =~= row_prefix(*self, i as int, j as int) + seq![
                        symbol_of(self.spec_get(cell)),
                    ]);
                }
                if j + 1 != self.size {
                    result.append(" ");
                    proof {
                        reveal_strlit(" ");
                    }
                }
                proof {
                    assert(result@ =~= row_prefix(*self, i as int, j as int + 1));
                }
                j += 1;
            }
            vector.push(result);
            i += 1;
        }
        vector
    }
}

impl Clone for Board {
    /// A deep copy: same side, same packed bytes.
    fn clone(&self) -> (r: Self)
        ensures
            r.size == self.size,
            r.field@ == self.field@,
    {
        let field = self.field.clone();
        proof {
            assert forall|i: int| 0 <= i < self.field@.len() implies field@[i]
                == self.field@[i] by {
                assert(cloned(self.field@[i], field@[i]));
            }
            assert(field@ =~= self.field@);
        }
        Board { size: self.size, field }
    }
}

impl PartialEq for Board {
    /// Two boards are equal when they have the same side and the same packed
    /// storage.
    fn eq(&self, other: &Self) -> (r: bool) {
        let same = self.size == other.size && self.field == other.field;
        proof {
            if self.field@.len() == other.field@.len() && (forall|i: int|
                0 <= i < self.field@.len() ==> self.field@[i] == other.field@[i]) {
                assert(self.field@ =~= other.field@);
            }
        }
        same
    }
}

impl vstd::std_specs::cmp::PartialEqSpecImpl for Board {
    open spec fn obeys_eq_spec() -> bool {
        true
    }

    open spec fn eq_spec(&self, other: &Board) -> bool {
        self.size == other.size && self.field@ == other.field@
    }
}

/// `size * y + x` stays within `size * size` for in-bounds coordinates.
proof fn lemma_mul_bounds(size: int, y: int, x: int)
    by (nonlinear_arith)
    requires
        0 <= x < size,
        0 <= y < size,
        size <= 19,
    ensures
        0 <= size * y + x < size * size,
        size * y + x <= 360,
{
}

/// The slot of an in-bounds coordinate lies inside `cells`, and the
/// coordinate can be recovered from it by division and remainder.
pub proof fn lemma_cell_index_decomp(b: Board, c: Cell)
    requires
        b.wf(),
        c.in_bounds(b.size as int),
    ensures
        0 <= b.cell_index(c) < b.size * b.size,
        b.cell_index(c) % (b.size as int) == c.x as int,
        b.cell_index(c) / (b.size as int) == c.y as int,
{
    lemma_mul_bounds(b.size as int, c.y as int, c.x as int);
    lemma_fundamental_div_mod_converse(b.cell_index(c), b.size as int, c.y as int, c.x as int);
}

/// Distinct in-bounds coordinates occupy distinct slots.
pub proof fn lemma_cell_index_injective(b: Board, c: Cell, d: Cell)
    requires
        b.wf(),
        c.in_bounds(b.size as int),
        d.in_bounds(b.size as int),
        c != d,
    ensures
        b.cell_index(c) != b.cell_index(d),
{
    lemma_cell_index_decomp(b, c);
    lemma_cell_index_decomp(b, d);
}

/// Reading a cell right after writing it yields the written value, and the
/// write changes no other cell: the contract of `set_cell` pins the decoded
/// grid to a single-point update.
pub proof fn lemma_set_get_roundtrip(pre: Board, post: Board, c: Cell, v: u8)
    requires
        pre.wf(),
        c.in_bounds(pre.size as int),
        v <= 2,
        post.size == pre.size,
        post.cells() == pre.cells().update(pre.cell_index(c), v),
    ensures
        post.spec_get(c) == v,
        forall|d: Cell|
            d.in_bounds(pre.size as int) && d != c ==> #[trigger] post.spec_get(d)
                == pre.spec_get(d),
{
    lemma_cell_index_decomp(pre, c);
    assert forall|d: Cell| d.in_bounds(pre.size as int) && d != c implies #[trigger] post.spec_get(
        d,
    ) == pre.spec_get(d) by {
        lemma_cell_index_decomp(pre, d);
        lemma_cell_index_injective(pre, c, d);
    }
}

/// Forward direction of the index mapping: recovering a coordinate from
/// twice its slot (its bit position) gives the coordinate back.
pub proof fn lemma_coords_of_index(b: Board, c: Cell)
    requires
        b.wf(),
        c.in_bounds(b.size as int),
    ensures
        ((2 * b.cell_index(c)) / 2) % (b.size as int) == c.x as int,
        ((2 * b.cell_index(c)) / 2) / (b.size as int) == c.y as int,
{
    lemma_cell_index_decomp(b, c);
}

/// Backward direction of the index mapping: the coordinate recovered from a
/// bit position `n` with `n / 2` inside the grid is in bounds, and its slot
/// is `n / 2` again.
pub proof fn lemma_index_of_coords(b: Board, n: int)
    requires
        b.wf(),
        0 <= n,
        n / 2 < b.size * b.size,
    ensures
        b.size >= 1,
        ({
            let back = Cell {
                x: ((n / 2) % (b.size as int)) as usize,
                y: ((n / 2) / (b.size as int)) as usize,
            };
            back.in_bounds(b.size as int) && b.cell_index(back) == n / 2
        }),
{
    assert(b.size >= 1) by (nonlinear_arith)
        requires
            n / 2 < b.size * b.size,
            0 <= n / 2,
    ;
    lemma_fundamental_div_mod(n / 2, b.size as int);
    let q = (n / 2) / (b.size as int);
    let r = (n / 2) % (b.size as int);
    assert(0 <= r < b.size as int);
    assert(0 <= q < b.size as int) by (nonlinear_arith)
        requires
            0 <= n / 2 < b.size * b.size,
            b.size >= 1,
            q == (n / 2) / (b.size as int),
    ;
    let back = Cell { x: r as usize, y: q as usize };
    assert(b.cell_index(back) == q * (b.size as int) + r);
    assert(q * (b.size as int) == (b.size as int) * q) by (nonlinear_arith);
}

/// How many slots of `s` differ from `v`.
pub open spec fn count_ne(s: Seq<u8>, v: u8) -> nat
    decreases s.len(),
{
    if s.len() == 0 {
        0
    } else {
        count_ne(s.drop_last(), v) + if s.last() == v {
            0nat
        } else {
            1nat
        }
    }
}

/// The count of differing slots never exceeds the length.
pub proof fn lemma_count_ne_le_len(s: Seq<u8>, v: u8)
    ensures
        count_ne(s, v) <= s.len(),
    decreases s.len(),
{
    if s.len() > 0 {
        lemma_count_ne_le_len(s.drop_last(), v);
    }
}

/// A sequence of nothing but `v` has no differing slot.
pub proof fn lemma_count_ne_all(s: Seq<u8>, v: u8)
    requires
        forall|i: int| 0 <= i < s.len() ==> s[i] == v,
    ensures
        count_ne(s, v) == 0,
    decreases s.len(),
{
    if s.len() > 0 {
        lemma_count_ne_all(s.drop_last(), v);
    }
}

/// Updating one slot changes the count by the difference the update makes at
/// that slot alone.
pub proof fn lemma_count_ne_update(s: Seq<u8>, v: u8, i: int, w: u8)
    requires
        0 <= i < s.len(),
    ensures
        count_ne(s.update(i, w), v) == count_ne(s, v) - (if s[i] == v {
            0int
        } else {
            1int
        }) + (if w == v {
            0int
        } else {
            1int
        }),
    decreases s.len(),
{
    let t = s.update(i, w);
    if i == s.len() - 1 {
        assert(t.drop_last() =~= s.drop_last());
    } else {
        assert(t.drop_last() =~= s.drop_last().update(i, w));
        lemma_count_ne_update(s.drop_last(), v, i, w);
    }
}

/// A sequence with a single slot differing from `v` counts exactly one.
pub proof fn lemma_count_ne_single(s: Seq<u8>, v: u8, i: int)
    requires
        0 <= i < s.len(),
        s[i] != v,
        forall|j: int| 0 <= j < s.len() && j != i ==> s[j] == v,
    ensures
        count_ne(s, v) == 1,
    decreases s.len(),
{
    if i == s.len() - 1 {
        lemma_count_ne_all(s.drop_last(), v);
    } else {
        lemma_count_ne_single(s.drop_last(), v, i);
    }
}

/// `s` holds the opening stone alone: slot `i` carries colour 1 and every
/// other slot is empty.
pub open spec fn lone_first_stone(s: Seq<u8>, i: int) -> bool {
    &&& 0 <= i < s.len()
    &&& s[i] == 1
    &&& forall|j: int| 0 <= j < s.len() && j != i ==> s[j] == 0
}

/// The byte of an in-grid slot lies inside the storage, which never exceeds
/// 91 bytes for boards of side at most 19.
pub proof fn lemma_slot_byte_in_storage(b: Board, i: int)
    requires
        b.wf(),
        0 <= i < b.size * b.size,
    ensures
        0 <= i / 4 < b.field@.len(),
        b.field@.len() <= 91,
        b.size * b.size <= 4 * b.field@.len(),
{
    assert(b.size * b.size <= 361) by (nonlinear_arith)
        requires
            b.size <= 19,
    ;
    lemma_fundamental_div_mod(b.size * b.size + 3, 4);
    lemma_fundamental_div_mod(i, 4);
}

/// A byte whose four 2-bit slots all decode to zero is itself zero.
pub proof fn lemma_zero_slots_zero_byte(b: Board, j: int)
    requires
        b.wf(),
        0 <= j < b.field@.len(),
        forall|i: int| 4 * j <= i < 4 * j + 4 ==> pair_at(b.field@, i) == 0,
    ensures
        b.field@[j] == 0,
{
    let byte = b.field@[j];
    assert forall|k: int| 0 <= k < 4 implies pair_of_byte(byte, k) == 0 by {
        lemma_fundamental_div_mod_converse(4 * j + k, 4, j, k);
        assert(pair_at(b.field@, 4 * j + k) == 0);
    }
    assert(pair_of_byte(byte, 0) == 0 && pair_of_byte(byte, 1) == 0 && pair_of_byte(byte, 2) == 0
        && pair_of_byte(byte, 3) == 0);
    lemma_byte_from_pairs(byte);
    assert((2 * 0) as u8 == 0u8 && (2 * 1) as u8 == 2u8 && (2 * 2) as u8 == 4u8 && (2 * 3) as u8
        == 6u8);
}

/// In a valid board holding the opening stone alone, the stone's byte is the
/// power of four selected by the stone's offset within it, and every other
/// byte is zero.
pub proof fn lemma_lone_stone_bytes(b: Board, gi: int, j: int)
    requires
        b.valid(),
        lone_first_stone(b.cells(), gi),
        0 <= j < b.field@.len(),
    ensures
        4 * (gi / 4) + gi % 4 == gi,
        0 <= gi % 4 < 4,
        0 <= gi / 4 < b.field@.len(),
        j != gi / 4 ==> b.field@[j] == 0,
        b.field@[gi / 4] == (if gi % 4 == 0 {
            1u8
        } else if gi % 4 == 1 {
            4u8
        } else if gi % 4 == 2 {
            16u8
        } else {
            64u8
        }),
{
    lemma_fundamental_div_mod(gi, 4);
    lemma_slot_byte_in_storage(b, gi);
    if j != gi / 4 {
        assert forall|i: int| 4 * j <= i < 4 * j + 4 implies pair_at(b.field@, i) == 0 by {
            lemma_fundamental_div_mod_converse(i, 4, j, i - 4 * j);
            assert(i != gi);
            if i < b.size * b.size {
                assert(b.cells()[i] == 0);
            } else {
                assert(i < b.field@.len() * 4);
            }
        }
        lemma_zero_slots_zero_byte(b, j);
    }
    let sb = gi / 4;
    let byte = b.field@[sb];
    assert forall|k: int| 0 <= k < 4 implies pair_of_byte(byte, k) == (if 4 * sb + k == gi {
        1u8
    } else {
        0u8
    }) by {
        lemma_fundamental_div_mod_converse(4 * sb + k, 4, sb, k);
        let i = 4 * sb + k;
        assert(pair_at(b.field@, i) == pair_of_byte(byte, k));
        if i < b.size * b.size {
            assert(b.cells()[i] == pair_at(b.field@, i));
        } else {
            assert(i < b.field@.len() * 4);
            assert(pair_at(b.field@, i) == 0);
        }
    }
    assert(pair_of_byte(byte, 0) == (if gi % 4 == 0 { 1u8 } else { 0u8 }));
    assert(pair_of_byte(byte, 1) == (if gi % 4 == 1 { 1u8 } else { 0u8 }));
    assert(pair_of_byte(byte, 2) == (if gi % 4 == 2 { 1u8 } else { 0u8 }));
    assert(pair_of_byte(byte, 3) == (if gi % 4 == 3 { 1u8 } else { 0u8 }));
    lemma_byte_from_pairs(byte);
    assert((2 * 0) as u8 == 0u8 && (2 * 1) as u8 == 2u8 && (2 * 2) as u8 == 4u8 && (2 * 3) as u8
        == 6u8);
}

/// A byte is the weighted sum of its four decoded 2-bit pairs.
pub proof fn lemma_byte_from_pairs(b: u8)
    by (bit_vector)
    ensures
        b as int == ((b >> 0u8) & 3) as int + 4 * (((b >> 2u8) & 3) as int) + 16 * (((b >> 4u8) & 3)
            as int) + 64 * (((b >> 6u8) & 3) as int),
{
}

} // verus!
