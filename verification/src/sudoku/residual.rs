//! The final check of a board: which digits each row, column and box still
//! lacks, and why a zero residual is the same as a solved puzzle.

use crate::sudoku::board::{in_grid, same_box, sees, CellType, SudokuBoard};
use vstd::prelude::*;
use vstd::set_lib::{lemma_int_range, lemma_subset_equality, set_int_range};

verus! {

/// The sum of the digits `1..=n` that `present` lacks.
pub open spec fn missing_sum(present: Set<CellType>, n: nat) -> int
    decreases n,
{
    if n == 0 {
        0
    } else {
        missing_sum(present, (n - 1) as nat) + if present.contains(n as CellType) {
            0
        } else {
            n as int
        }
    }
}

/// `1 + 2 + .. + n`.
pub open spec fn triangle(n: nat) -> int
    decreases n,
{
    if n == 0 {
        0
    } else {
        triangle((n - 1) as nat) + n
    }
}

/// A sum of missing digits is never negative, is bounded by `1 + .. + n`, and
/// is zero exactly when no digit is missing.
pub proof fn lemma_missing_sum(present: Set<CellType>, n: nat)
    requires
        n <= 9,
    ensures
        0 <= missing_sum(present, n) <= triangle(n),
        missing_sum(present, n) == 0 <==> forall|v: CellType|
            1 <= v <= n ==> #[trigger] present.contains(v),
    decreases n,
{
    if n > 0 {
        lemma_missing_sum(present, (n - 1) as nat);
        if missing_sum(present, n) == 0 {
            assert(present.contains(n as CellType));
            assert forall|v: CellType| 1 <= v <= n implies #[trigger] present.contains(v) by {
                if v < n {
                }
            }
        }
    }
}

/// Cell `m` of house `k`. Houses `0..9` are the rows, `9..18` the columns and
/// `18..27` the boxes; each has the cells `0..9`.
pub open spec fn house_cell(k: int, m: int) -> (int, int) {
    if k < 9 {
        (k, m)
    } else if k < 18 {
        (m, k - 9)
    } else {
        (3 * ((k - 18) / 3) + m / 3, 3 * ((k - 18) % 3) + m % 3)
    }
}

/// The cells of a house lie in the grid, differ from each other and see each
/// other.
pub proof fn lemma_house_cells(k: int, m1: int, m2: int)
    requires
        0 <= k < 27,
        0 <= m1 < 9,
        0 <= m2 < 9,
    ensures
        in_grid(house_cell(k, m1).0, house_cell(k, m1).1),
        sees(house_cell(k, m1).0, house_cell(k, m1).1, house_cell(k, m2).0, house_cell(k, m2).1),
        m1 != m2 ==> house_cell(k, m1) != house_cell(k, m2),
{
    if k >= 18 {
        let b = k - 18;
        let bx = 3 * (b / 3);
        let by = 3 * (b % 3);
        assert(0 <= b / 3 < 3 && 0 <= b % 3 < 3);
        assert(0 <= m1 / 3 < 3 && 0 <= m1 % 3 < 3 && m1 == 3 * (m1 / 3) + m1 % 3);
        assert(0 <= m2 / 3 < 3 && 0 <= m2 % 3 < 3 && m2 == 3 * (m2 / 3) + m2 % 3);
        assert((bx + m1 / 3) / 3 == b / 3 && (by + m1 % 3) / 3 == b % 3);
        assert((bx + m2 / 3) / 3 == b / 3 && (by + m2 % 3) / 3 == b % 3);
    }
}

/// Two cells that see each other are cells of one house.
pub proof fn lemma_shared_house(x1: int, y1: int, x2: int, y2: int) -> (found: (int, int, int))
    requires
        in_grid(x1, y1),
        in_grid(x2, y2),
        sees(x1, y1, x2, y2),
    ensures
        0 <= found.0 < 27,
        0 <= found.1 < 9,
        0 <= found.2 < 9,
        house_cell(found.0, found.1) == (x1, y1),
        house_cell(found.0, found.2) == (x2, y2),
{
    if x1 == x2 {
        (x1, y1, y2)
    } else if y1 == y2 {
        (9 + y1, x1, x2)
    } else {
        let bx = x1 / 3;
        let by = y1 / 3;
        let b = 3 * bx + by;
        let m1 = 3 * (x1 % 3) + y1 % 3;
        let m2 = 3 * (x2 % 3) + y2 % 3;
        assert(0 <= bx < 3 && 0 <= by < 3 && b / 3 == bx && b % 3 == by);
        assert(m1 / 3 == x1 % 3 && m1 % 3 == y1 % 3);
        assert(m2 / 3 == x2 % 3 && m2 % 3 == y2 % 3);
        assert(x1 == 3 * bx + x1 % 3 && y1 == 3 * by + y1 % 3);
        assert(x2 == 3 * bx + x2 % 3 && y2 == 3 * by + y2 % 3);
        (18 + b, m1, m2)
    }
}

/// Nine different numbers below nine are all of them.
pub proof fn lemma_pigeonhole(s: Seq<int>)
    requires
        s.len() == 9,
        s.no_duplicates(),
        forall|i: int| 0 <= i < 9 ==> 0 <= #[trigger] s[i] < 9,
    ensures
        forall|v: int| 0 <= v < 9 ==> s.contains(v),
{
    let all = set_int_range(0, 9);
    lemma_int_range(0, 9);
    s.unique_seq_to_set();
    assert(s.to_set().subset_of(all)) by {
        assert forall|v: int| s.to_set().contains(v) implies all.contains(v) by {
            let i = choose|i: int| 0 <= i < s.len() && s[i] == v;
        }
    }
    vstd::set_lib::lemma_len_subset(s.to_set(), all);
    lemma_subset_equality(s.to_set(), all);
    assert forall|v: int| 0 <= v < 9 implies s.contains(v) by {
        assert(all.contains(v));
        assert(s.to_set().contains(v));
    }
}

impl SudokuBoard {
    /// The digits that occur in row `x`.
    pub open spec fn row_values(&self, x: int) -> Set<CellType> {
        Set::new(|v: CellType| self.row_has(x, v))
    }

    /// The digits that occur in column `y`.
    pub open spec fn column_values(&self, y: int) -> Set<CellType> {
        Set::new(|v: CellType| self.column_has(y, v))
    }

    /// The digits that occur in the box that holds `(x, y)`.
    pub open spec fn box_values(&self, x: int, y: int) -> Set<CellType> {
        Set::new(|v: CellType| self.box_has(x, y, v))
    }

    /// What rows and columns `0..n` lack, summed.
    pub open spec fn lines_residual(&self, n: nat) -> int
        decreases n,
    {
        if n == 0 {
            0
        } else {
            self.lines_residual((n - 1) as nat) + missing_sum(self.row_values(n - 1), 9)
                + missing_sum(self.column_values(n - 1), 9)
        }
    }

    /// What boxes `0..n` lack, summed; box `b` is the one at box row `b / 3`
    /// and box column `b % 3`.
    pub open spec fn boxes_residual(&self, n: nat) -> int
        decreases n,
    {
        if n == 0 {
            0
        } else {
            self.boxes_residual((n - 1) as nat) + missing_sum(
                self.box_values(3 * ((n - 1) / 3), 3 * ((n - 1) % 3)),
                9,
            )
        }
    }

    /// The residual cost: every digit that a row, a column or a box lacks,
    /// counted with its numeric value.
    pub open spec fn residual_cost(&self) -> int {
        self.lines_residual(9) + self.boxes_residual(9)
    }

    /// No cell is empty.
    pub open spec fn is_complete(&self) -> bool {
        forall|x: int, y: int| in_grid(x, y) ==> (#[trigger] self.value_at(x, y)) is Some
    }

    /// Every stored value is one of `1..=9`.
    pub open spec fn digits_in_range(&self) -> bool {
        forall|x: int, y: int|
            in_grid(x, y) ==> (#[trigger] self.value_at(x, y) matches Some(v) ==> 1 <= v <= 9)
    }

    /// Each of the first `n` rows holds each of `1..=9`.
    pub open spec fn rows_full(&self, n: int) -> bool {
        forall|k: int, v: CellType| 0 <= k < n && 1 <= v <= 9 ==> #[trigger] self.row_has(k, v)
    }

    /// Each of the first `n` columns holds each of `1..=9`.
    pub open spec fn columns_full(&self, n: int) -> bool {
        forall|k: int, v: CellType| 0 <= k < n && 1 <= v <= 9 ==> #[trigger] self.column_has(k, v)
    }

    /// Each of the first `n` boxes holds each of `1..=9`.
    pub open spec fn boxes_full(&self, n: int) -> bool {
        forall|k: int, v: CellType|
            0 <= k < n && 1 <= v <= 9 ==> #[trigger] self.box_has(3 * (k / 3), 3 * (k % 3), v)
    }

    /// Every row, every column and every box holds each of `1..=9`.
    pub open spec fn is_solution(&self) -> bool {
        self.rows_full(9) && self.columns_full(9) && self.boxes_full(9)
    }

    /// Bounds and the zero case of the residual of the first `n` rows and
    /// columns.
    pub proof fn lemma_lines_residual(&self, n: nat)
        requires
            n <= 9,
        ensures
            0 <= self.lines_residual(n) <= 90 * n,
            self.lines_residual(n) == 0 <==> self.rows_full(n as int) && self.columns_full(n as int),
        decreases n,
    {
        reveal_with_fuel(triangle, 10);
        if n > 0 {
            self.lemma_lines_residual((n - 1) as nat);
            lemma_missing_sum(self.row_values(n - 1), 9);
            lemma_missing_sum(self.column_values(n - 1), 9);
            if self.lines_residual(n) == 0 {
                assert forall|k: int, v: CellType| 0 <= k < n && 1 <= v <= 9 implies #[trigger] self.row_has(
                    k,
                    v,
                ) by {
                    if k == n - 1 {
                        assert(self.row_values(n - 1).contains(v));
                    }
                }
                assert forall|k: int, v: CellType| 0 <= k < n && 1 <= v <= 9 implies #[trigger] self.column_has(
                    k,
                    v,
                ) by {
                    if k == n - 1 {
                        assert(self.column_values(n - 1).contains(v));
                    }
                }
            }
            if self.rows_full(n as int) && self.columns_full(n as int) {
                assert(self.rows_full(n - 1) && self.columns_full(n - 1));
                assert forall|v: CellType| 1 <= v <= 9 implies #[trigger] self.row_values(
                    n - 1,
                ).contains(v) by {
                    assert(self.row_has(n - 1, v));
                }
                assert forall|v: CellType| 1 <= v <= 9 implies #[trigger] self.column_values(
                    n - 1,
                ).contains(v) by {
                    assert(self.column_has(n - 1, v));
                }
            }
        }
    }

    /// Bounds and the zero case of the residual of the first `n` boxes.
    pub proof fn lemma_boxes_residual(&self, n: nat)
        requires
            n <= 9,
        ensures
            0 <= self.boxes_residual(n) <= 45 * n,
            self.boxes_residual(n) == 0 <==> self.boxes_full(n as int),
        decreases n,
    {
        reveal_with_fuel(triangle, 10);
        if n > 0 {
            self.lemma_boxes_residual((n - 1) as nat);
            let last = self.box_values(3 * ((n - 1) / 3), 3 * ((n - 1) % 3));
            lemma_missing_sum(last, 9);
            if self.boxes_residual(n) == 0 {
                assert forall|k: int, v: CellType| 0 <= k < n && 1 <= v <= 9 implies #[trigger] self.box_has(
                    3 * (k / 3),
                    3 * (k % 3),
                    v,
                ) by {
                    if k == n - 1 {
                        assert(last.contains(v));
                    }
                }
            }
            if self.boxes_full(n as int) {
                assert(self.boxes_full(n - 1));
                assert forall|v: CellType| 1 <= v <= 9 implies #[trigger] last.contains(v) by {
                    assert(self.box_has(3 * ((n - 1) / 3), 3 * ((n - 1) % 3), v));
                }
            }
        }
    }

    /// A board is solved exactly when it is full, holds only the digits
    /// `1..=9`, and repeats none of them in a row, a column or a box.
    pub proof fn lemma_solution_characterised(&self)
        ensures
            self.is_solution() <==> self.is_complete() && self.digits_in_range()
                && self.consistent(),
    {
        if self.is_solution() {
            assert forall|x: int, y: int| in_grid(x, y) implies (#[trigger] self.value_at(
                x,
                y,
            ) matches Some(v) && 1 <= v <= 9) by {
                self.lemma_full_house_is_permutation(x);
                assert(self.house_value(x, y) == self.value_at(x, y));
            }
            assert forall|x1: int, y1: int, x2: int, y2: int|
                in_grid(x1, y1) && in_grid(x2, y2) && sees(x1, y1, x2, y2) && !(x1 == x2 && y1
                    == y2) && (#[trigger] self.value_at(x1, y1)) is Some implies self.value_at(
                x1,
                y1,
            ) != #[trigger] self.value_at(x2, y2) by {
                let (k, m1, m2) = lemma_shared_house(x1, y1, x2, y2);
                self.lemma_full_house_is_permutation(k);
                assert(self.house_value(k, m1) == self.value_at(x1, y1));
                assert(self.house_value(k, m2) == self.value_at(x2, y2));
            }
        }
        if self.is_complete() && self.digits_in_range() && self.consistent() {
            assert forall|k: int, v: CellType| 0 <= k < 27 && 1 <= v <= 9 implies self.house_has(
                k,
                v,
            ) by {
                self.lemma_distinct_house_is_full(k, v);
            }
            assert forall|k: int, v: CellType| 0 <= k < 9 && 1 <= v <= 9 implies #[trigger] self.row_has(
                k,
                v,
            ) by {
                self.lemma_house_has(k, v);
            }
            assert forall|k: int, v: CellType| 0 <= k < 9 && 1 <= v <= 9 implies #[trigger] self.column_has(
                k,
                v,
            ) by {
                self.lemma_house_has(9 + k, v);
            }
            assert forall|k: int, v: CellType| 0 <= k < 9 && 1 <= v <= 9 implies #[trigger] self.box_has(
                3 * (k / 3),
                3 * (k % 3),
                v,
            ) by {
                self.lemma_house_has(18 + k, v);
            }
        }
    }

    /// The value of cell `m` of house `k`.
    pub open spec fn house_value(&self, k: int, m: int) -> Option<CellType> {
        self.value_at(house_cell(k, m).0, house_cell(k, m).1)
    }

    /// `v` occurs in house `k`.
    pub open spec fn house_has(&self, k: int, v: CellType) -> bool {
        exists|m: int| 0 <= m < 9 && #[trigger] self.house_value(k, m) == Some(v)
    }

    /// The digits that occur in house `k`.
    pub open spec fn house_values(&self, k: int) -> Set<CellType> {
        Set::new(|v: CellType| self.house_has(k, v))
    }

    /// The digits of a house are those of its row, its column or its box.
    pub proof fn lemma_house_values(&self, k: int)
        requires
            0 <= k < 27,
        ensures
            self.house_values(k) == if k < 9 {
                self.row_values(k)
            } else if k < 18 {
                self.column_values(k - 9)
            } else {
                self.box_values(3 * ((k - 18) / 3), 3 * ((k - 18) % 3))
            },
    {
        assert forall|v: CellType|
            self.house_values(k).contains(v) == (if k < 9 {
                self.row_values(k)
            } else if k < 18 {
                self.column_values(k - 9)
            } else {
                self.box_values(3 * ((k - 18) / 3), 3 * ((k - 18) % 3))
            }).contains(v) by {
            self.lemma_house_has(k, v);
        }
        if k < 9 {
            assert(self.house_values(k) =~= self.row_values(k));
        } else if k < 18 {
            assert(self.house_values(k) =~= self.column_values(k - 9));
        } else {
            assert(self.house_values(k) =~= self.box_values(
                3 * ((k - 18) / 3),
                3 * ((k - 18) % 3),
            ));
        }
    }

    /// Houses `0..9` are the rows, `9..18` the columns and `18..27` the boxes.
    pub proof fn lemma_house_has(&self, k: int, v: CellType)
        requires
            0 <= k < 27,
        ensures
            self.house_has(k, v) <==> if k < 9 {
                self.row_has(k, v)
            } else if k < 18 {
                self.column_has(k - 9, v)
            } else {
                self.box_has(3 * ((k - 18) / 3), 3 * ((k - 18) % 3), v)
            },
    {
        if self.house_has(k, v) {
            let m = choose|m: int| 0 <= m < 9 && #[trigger] self.house_value(k, m) == Some(v);
            let (x, y) = house_cell(k, m);
            assert(self.value_at(x, y) == Some(v));
            assert(in_grid(x, y));
            if k >= 18 {
                assert(same_box(x, y, 3 * ((k - 18) / 3), 3 * ((k - 18) % 3)));
            }
        }
        if k < 9 {
            if self.row_has(k, v) {
                let j = choose|j: int| in_grid(k, j) && #[trigger] self.value_at(k, j) == Some(v);
                assert(self.house_value(k, j) == Some(v));
            }
        } else if k < 18 {
            if self.column_has(k - 9, v) {
                let i = choose|i: int|
                    in_grid(i, k - 9) && #[trigger] self.value_at(i, k - 9) == Some(v);
                assert(self.house_value(k, i) == Some(v));
            }
        } else {
            let bx = 3 * ((k - 18) / 3);
            let by = 3 * ((k - 18) % 3);
            if self.box_has(bx, by, v) {
                let (i, j) = choose|i: int, j: int|
                    in_grid(i, j) && same_box(i, j, bx, by) && #[trigger] self.value_at(i, j)
                        == Some(v);
                let m = 3 * (i % 3) + j % 3;
                assert(house_cell(k, m) == (i, j));
                assert(self.house_value(k, m) == Some(v));
            }
        }
    }

    /// In a house that holds each of `1..=9`, every cell holds one of them,
    /// and no two cells hold the same.
    proof fn lemma_full_house_is_permutation(&self, k: int)
        requires
            0 <= k < 27,
            self.is_solution(),
        ensures
            forall|m: int|
                0 <= m < 9 ==> (#[trigger] self.house_value(k, m) matches Some(v) && 1 <= v <= 9),
            forall|m1: int, m2: int|
                0 <= m1 < 9 && 0 <= m2 < 9 && m1 != m2 ==> #[trigger] self.house_value(k, m1)
                    != #[trigger] self.house_value(k, m2),
    {
        assert forall|v: CellType| 1 <= v <= 9 implies self.house_has(k, v) by {
            self.lemma_house_has(k, v);
            if k < 9 {
                assert(self.row_has(k, v));
            } else if k < 18 {
                assert(self.column_has(k - 9, v));
            } else {
                assert(self.box_has(3 * ((k - 18) / 3), 3 * ((k - 18) % 3), v));
            }
        }
        let place = Seq::new(
            9,
            |i: int|
                choose|m: int|
                    0 <= m < 9 && #[trigger] self.house_value(k, m) == Some((i + 1) as CellType),
        );
        assert forall|i: int| 0 <= i < 9 implies 0 <= #[trigger] place[i] < 9 && self.house_value(
            k,
            place[i],
        ) == Some((i + 1) as CellType) by {
            assert(self.house_has(k, (i + 1) as CellType));
        }
        assert(place.no_duplicates());
        lemma_pigeonhole(place);
        assert forall|m: int| 0 <= m < 9 implies (#[trigger] self.house_value(k, m) matches Some(
            v,
        ) && 1 <= v <= 9) by {
            assert(place.contains(m));
            let i = choose|i: int| 0 <= i < 9 && place[i] == m;
            assert(self.house_value(k, m) == Some((i + 1) as CellType));
        }
        assert forall|m1: int, m2: int| 0 <= m1 < 9 && 0 <= m2 < 9 && m1 != m2 implies #[trigger] self.house_value(
            k,
            m1,
        ) != #[trigger] self.house_value(k, m2) by {
            assert(place.contains(m1));
            assert(place.contains(m2));
            let i1 = choose|i: int| 0 <= i < 9 && place[i] == m1;
            let i2 = choose|i: int| 0 <= i < 9 && place[i] == m2;
            assert(i1 != i2);
        }
    }

    /// In a full house of distinct digits `1..=9`, each digit occurs.
    proof fn lemma_distinct_house_is_full(&self, k: int, v: CellType)
        requires
            0 <= k < 27,
            1 <= v <= 9,
            self.is_complete(),
            self.digits_in_range(),
            self.consistent(),
        ensures
            self.house_has(k, v),
    {
        let held = Seq::new(9, |m: int| self.house_value(k, m)->0 as int - 1);
        assert forall|m: int| 0 <= m < 9 implies 0 <= #[trigger] held[m] < 9 && self.house_value(
            k,
            m,
        ) == Some((held[m] + 1) as CellType) by {
            lemma_house_cells(k, m, m);
            let (x, y) = house_cell(k, m);
            assert(self.value_at(x, y) is Some);
        }
        assert forall|m1: int, m2: int| 0 <= m1 < 9 && 0 <= m2 < 9 && m1 != m2 implies held[m1]
            != held[m2] by {
            lemma_house_cells(k, m1, m2);
            let (x1, y1) = house_cell(k, m1);
            let (x2, y2) = house_cell(k, m2);
            assert(self.value_at(x1, y1) is Some);
            assert(self.value_at(x1, y1) != self.value_at(x2, y2));
        }
        assert(held.no_duplicates());
        lemma_pigeonhole(held);
        assert(held.contains(v as int - 1));
        let m = choose|m: int| 0 <= m < 9 && held[m] == v as int - 1;
        assert(self.house_value(k, m) == Some(v));
    }

    /// The residual cost is zero exactly on a solved board, and it always
    /// fits sixteen bits.
    pub proof fn lemma_residual_cost(&self)
        ensures
            0 <= self.residual_cost() <= 1215,
            self.residual_cost() == 0 <==> self.is_solution(),
    {
        self.lemma_lines_residual(9);
        self.lemma_boxes_residual(9);
    }
}

} // verus!
