//! A table-driven game: positions, moves, scores and the board-cell graph
//! are all given explicitly as data. It implements the game-state adapter
//! contract, so any game small enough to write down — ordinary test
//! scenarios, puzzles, self-play demonstrations — can drive the engine.

use crate::game::GamePosition;
use crate::game::Side;
use crate::game::CELL_LIMIT;
use vstd::prelude::*;

verus! {

/// One board cell: its fish, which sides occupy it, and the cells one
/// move-step away.
pub struct TableCell {
    pub fish: u32,
    pub src_one: bool,
    pub src_two: bool,
    pub dests: Vec<usize>,
}

/// One position: its successors (one per legal move, in order), whether it
/// ends the game, whose turn it is, both scores, and its board cells.
pub struct TableRow {
    pub succs: Vec<usize>,
    pub terminal: bool,
    pub to_move: Side,
    pub points_one: u32,
    pub points_two: u32,
    pub cells: Vec<TableCell>,
}

/// A position of a table-driven game: the whole game table plus the row this
/// position sits at.
pub struct TablePos {
    pub rows: Vec<TableRow>,
    pub id: usize,
}

/// The two cells carry the same data.
pub open spec fn cell_eq(a: TableCell, b: TableCell) -> bool {
    &&& a.fish == b.fish
    &&& a.src_one == b.src_one
    &&& a.src_two == b.src_two
    &&& a.dests@ == b.dests@
}

pub open spec fn cells_eq(a: Seq<TableCell>, b: Seq<TableCell>) -> bool {
    &&& a.len() == b.len()
    &&& forall|i: int| 0 <= i < a.len() ==> cell_eq(#[trigger] a[i], b[i])
}

/// The two rows carry the same data.
pub open spec fn row_eq(a: TableRow, b: TableRow) -> bool {
    &&& a.succs@ == b.succs@
    &&& a.terminal == b.terminal
    &&& a.to_move == b.to_move
    &&& a.points_one == b.points_one
    &&& a.points_two == b.points_two
    &&& cells_eq(a.cells@, b.cells@)
}

/// The two tables carry the same data.
pub open spec fn table_eq(a: Seq<TableRow>, b: Seq<TableRow>) -> bool {
    &&& a.len() == b.len()
    &&& forall|i: int| 0 <= i < a.len() ==> row_eq(#[trigger] a[i], b[i])
}

/// A row is sound within its table: a playable position has a move, every
/// successor points into the table, and the cell graph stays on the board.
pub open spec fn row_ok(rows: Seq<TableRow>, r: TableRow) -> bool {
    &&& (!r.terminal ==> r.succs@.len() > 0)
    &&& (forall|j: int| 0 <= j < r.succs@.len() ==> (#[trigger] r.succs@[j]) < rows.len())
    &&& r.cells@.len() <= CELL_LIMIT
    &&& (forall|c: int, d: int|
        #![trigger r.cells@[c].dests@[d]]
        0 <= c < r.cells@.len() && 0 <= d < r.cells@[c].dests@.len() ==> r.cells@[c].dests@[d]
            < r.cells@.len())
}

proof fn lemma_table_eq_ok(a: Seq<TableRow>, b: Seq<TableRow>)
    requires
        table_eq(a, b),
        forall|i: int| 0 <= i < b.len() ==> row_ok(b, #[trigger] b[i]),
    ensures
        forall|i: int| 0 <= i < a.len() ==> row_ok(a, #[trigger] a[i]),
{
    assert forall|i: int| 0 <= i < a.len() implies row_ok(a, #[trigger] a[i]) by {
        assert(row_eq(a[i], b[i]));
        assert(row_ok(b, b[i]));
        assert forall|c: int, d: int|
            #![trigger a[i].cells@[c].dests@[d]]
            0 <= c < a[i].cells@.len() && 0 <= d < a[i].cells@[c].dests@.len() implies a[i].cells@[
            c].dests@[d] < a[i].cells@.len() by {
            assert(cell_eq(a[i].cells@[c], b[i].cells@[c]));
        }
    }
}

fn copy_usize_vec(v: &Vec<usize>) -> (r: Vec<usize>)
    ensures
        r@ == v@,
{
    let mut r: Vec<usize> = Vec::new();
    let mut i: usize = 0;
    while i < v.len()
        invariant
            i <= v@.len(),
            r@ == v@.subrange(0, i as int),
        decreases v@.len() - i,
    {
        r.push(v[i]);
        assert(r@ =~= v@.subrange(0, i + 1 as int));
        i = i + 1;
    }
    assert(r@ =~= v@);
    r
}

fn copy_cells(v: &Vec<TableCell>) -> (r: Vec<TableCell>)
    ensures
        cells_eq(r@, v@),
{
    let mut r: Vec<TableCell> = Vec::new();
    let mut i: usize = 0;
    while i < v.len()
        invariant
            i <= v@.len(),
            r@.len() == i,
            forall|t: int| 0 <= t < i ==> cell_eq(#[trigger] r@[t], v@[t]),
        decreases v@.len() - i,
    {
        let c = &v[i];
        r.push(
            TableCell {
                fish: c.fish,
                src_one: c.src_one,
                src_two: c.src_two,
                dests: copy_usize_vec(&c.dests),
            },
        );
        i = i + 1;
    }
    r
}

fn copy_rows(v: &Vec<TableRow>) -> (r: Vec<TableRow>)
    ensures
        table_eq(r@, v@),
{
    let mut r: Vec<TableRow> = Vec::new();
    let mut i: usize = 0;
    while i < v.len()
        invariant
            i <= v@.len(),
            r@.len() == i,
            forall|t: int| 0 <= t < i ==> row_eq(#[trigger] r@[t], v@[t]),
        decreases v@.len() - i,
    {
        let w = &v[i];
        r.push(
            TableRow {
                succs: copy_usize_vec(&w.succs),
                terminal: w.terminal,
                to_move: w.to_move,
                points_one: w.points_one,
                points_two: w.points_two,
                cells: copy_cells(&w.cells),
            },
        );
        i = i + 1;
    }
    r
}

fn usize_vec_eq(a: &Vec<usize>, b: &Vec<usize>) -> (r: bool)
    ensures
        r == (a@ == b@),
{
    if a.len() != b.len() {
        assert(a@ != b@);
        return false;
    }
    let mut i: usize = 0;
    while i < a.len()
        invariant
            i <= a@.len(),
            a@.len() == b@.len(),
            forall|t: int| 0 <= t < i ==> a@[t] == b@[t],
        decreases a@.len() - i,
    {
        if a[i] != b[i] {
            assert(a@[i as int] != b@[i as int]);
            return false;
        }
        i = i + 1;
    }
    assert(a@ =~= b@);
    true
}

fn cell_vec_eq(a: &Vec<TableCell>, b: &Vec<TableCell>) -> (r: bool)
    ensures
        r == cells_eq(a@, b@),
{
    if a.len() != b.len() {
        return false;
    }
    let mut i: usize = 0;
    while i < a.len()
        invariant
            i <= a@.len(),
            a@.len() == b@.len(),
            forall|t: int| 0 <= t < i ==> cell_eq(#[trigger] a@[t], b@[t]),
        decreases a@.len() - i,
    {
        let x = &a[i];
        let y = &b[i];
        if x.fish != y.fish || x.src_one != y.src_one || x.src_two != y.src_two {
            return false;
        }
        if !usize_vec_eq(&x.dests, &y.dests) {
            return false;
        }
        i = i + 1;
    }
    true
}

fn row_eq_exec(a: &TableRow, b: &TableRow) -> (r: bool)
    ensures
        r == row_eq(*a, *b),
{
    if a.terminal != b.terminal || !(a.to_move == b.to_move) || a.points_one != b.points_one
        || a.points_two != b.points_two {
        return false;
    }
    if !usize_vec_eq(&a.succs, &b.succs) {
        return false;
    }
    cell_vec_eq(&a.cells, &b.cells)
}

impl GamePosition for TablePos {
    open spec fn inv(&self) -> bool {
        &&& self.id < self.rows@.len()
        &&& forall|i: int| 0 <= i < self.rows@.len() ==> row_ok(self.rows@, #[trigger] self.rows@[i])
    }

    open spec fn move_total(&self) -> nat {
        self.rows@[self.id as int].succs@.len()
    }

    open spec fn is_succ(&self, i: int, r: Self) -> bool {
        &&& 0 <= i < self.move_total()
        &&& r.id == self.rows@[self.id as int].succs@[i]
        &&& table_eq(r.rows@, self.rows@)
    }

    open spec fn terminal(&self) -> bool {
        self.rows@[self.id as int].terminal
    }

    open spec fn to_move(&self) -> Side {
        self.rows@[self.id as int].to_move
    }

    open spec fn points(&self, side: Side) -> nat {
        match side {
            Side::One => self.rows@[self.id as int].points_one as nat,
            Side::Two => self.rows@[self.id as int].points_two as nat,
        }
    }

    open spec fn same_pos(&self, o: &Self) -> bool {
        &&& self.id == o.id
        &&& self.rows@.len() == o.rows@.len()
        &&& row_eq(self.rows@[self.id as int], o.rows@[o.id as int])
    }

    open spec fn cell_total(&self) -> nat {
        self.rows@[self.id as int].cells@.len()
    }

    open spec fn fish_on(&self, c: int) -> nat {
        self.rows@[self.id as int].cells@[c].fish as nat
    }

    open spec fn is_source(&self, side: Side, c: int) -> bool {
        &&& 0 <= c < self.cell_total()
        &&& match side {
            Side::One => self.rows@[self.id as int].cells@[c].src_one,
            Side::Two => self.rows@[self.id as int].cells@[c].src_two,
        }
    }

    open spec fn edge(&self, a: int, b: int) -> bool {
        &&& 0 <= a < self.cell_total()
        &&& exists|d: int|
            0 <= d < self.rows@[self.id as int].cells@[a].dests@.len()
                && (#[trigger] self.rows@[self.id as int].cells@[a].dests@[d]) == b
    }

    fn move_count(&self) -> (n: usize) {
        self.rows[self.id].succs.len()
    }

    fn apply_move(&self, i: usize) -> (r: Self) {
        let nid = self.rows[self.id].succs[i];
        let rows2 = copy_rows(&self.rows);
        proof {
            lemma_table_eq_ok(rows2@, self.rows@);
        }
        TablePos { rows: rows2, id: nid }
    }

    fn is_terminal(&self) -> (b: bool) {
        self.rows[self.id].terminal
    }

    fn side_to_move(&self) -> (s: Side) {
        self.rows[self.id].to_move
    }

    fn score(&self, side: Side) -> (p: u32) {
        match side {
            Side::One => self.rows[self.id].points_one,
            Side::Two => self.rows[self.id].points_two,
        }
    }

    fn equals(&self, o: &Self) -> (b: bool) {
        if self.id != o.id || self.rows.len() != o.rows.len() {
            return false;
        }
        row_eq_exec(&self.rows[self.id], &o.rows[o.id])
    }

    fn cell_count(&self) -> (n: usize) {
        self.rows[self.id].cells.len()
    }

    fn fish_at(&self, c: usize) -> (f: u32) {
        self.rows[self.id].cells[c].fish
    }

    fn occupied_cells(&self, side: Side) -> (v: Vec<usize>) {
        let row = &self.rows[self.id];
        let n = row.cells.len();
        let mut v: Vec<usize> = Vec::new();
        let mut c: usize = 0;
        while c < n
            invariant
                c <= n,
                n == self.cell_total(),
                self.inv(),
                forall|j: int|
                    0 <= j < v@.len() ==> self.is_source(side, #[trigger] v@[j] as int) && v@[j]
                        < self.cell_total(),
                forall|x: int|
                    0 <= x < c && self.is_source(side, x) ==> exists|j: int|
                        0 <= j < v@.len() && #[trigger] v@[j] == x,
            decreases n - c,
        {
            let cell = &self.rows[self.id].cells[c];
            let hit = match side {
                Side::One => cell.src_one,
                Side::Two => cell.src_two,
            };
            if hit {
                let ghost v0 = v@;
                v.push(c);
                proof {
                    assert forall|x: int|
                        0 <= x < c + 1 && self.is_source(side, x) implies exists|j: int|
                        0 <= j < v@.len() && #[trigger] v@[j] == x by {
                        if x == c as int {
                            assert(v@[v@.len() - 1] == x);
                        } else {
                            let j = choose|j: int| 0 <= j < v0.len() && v0[j] == x;
                            assert(v@[j] == x);
                        }
                    }
                }
            }
            c = c + 1;
        }
        v
    }

    fn destinations(&self, c: usize) -> (v: Vec<usize>)
        ensures
            forall|j: int|
                0 <= j < v@.len() ==> self.edge(c as int, #[trigger] v@[j] as int) && v@[j]
                    < self.cell_total(),
            forall|b: int|
                0 <= b < self.cell_total() && self.edge(c as int, b) ==> exists|j: int|
                    0 <= j < v@.len() && #[trigger] v@[j] == b,
    {
        let v = copy_usize_vec(&self.rows[self.id].cells[c].dests);
        proof {
            assert forall|j: int|
                0 <= j < v@.len() implies self.edge(c as int, #[trigger] v@[j] as int) && v@[j]
                < self.cell_total() by {
                assert(self.rows@[self.id as int].cells@[c as int].dests@[j] == v@[j]);
            }
        }
        v
    }

    proof fn law_moves(&self) {
    }

    proof fn law_refl(&self) {
    }

    proof fn law_same(&self, o: &Self) {
    }

    proof fn law_board(&self) {
        assert forall|a: int, b: int| #[trigger] self.edge(a, b) implies 0 <= a
            < self.cell_total() && 0 <= b < self.cell_total() by {
            let d = choose|d: int|
                0 <= d < self.rows@[self.id as int].cells@[a].dests@.len() && (
                #[trigger] self.rows@[self.id as int].cells@[a].dests@[d]) == b;
            assert(row_ok(self.rows@, self.rows@[self.id as int]));
        }
    }
}

} // verus!
