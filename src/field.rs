//! The sparse field of alive cells.
use vstd::prelude::*;

use vstd::seq_lib::seq_to_set_is_finite;
use vstd::std_specs::iter::IteratorSpec;
use vstd::string::StrSliceExecFns;

use crate::cell::{has_room, is_adjacent, is_neighbor, neighbor_seq, Cell};

verus! {

/// The set of currently alive cells. Dead cells are those absent from it.
pub struct Field {
    cells: Vec<Cell>,
}

/// How many cells of `alive` are neighbors of `c`.
pub open spec fn live_count(alive: Set<Cell>, c: Cell) -> nat {
    alive.filter(|n: Cell| is_neighbor(c, n)).len()
}

/// The next generation under the standard rule: a cell with three alive
/// neighbors is alive, and an alive cell with two alive neighbors stays alive.
pub open spec fn next_gen(alive: Set<Cell>) -> Set<Cell> {
    Set::new(|c: Cell| lives_next(alive, c))
}

/// Whether `c` is alive in the generation after `alive`.
pub open spec fn lives_next(alive: Set<Cell>, c: Cell) -> bool {
    live_count(alive, c) == 3 || (alive.contains(c) && live_count(alive, c) == 2)
}

/// Every cell of `alive` leaves room for its neighbors in `i64`.
pub open spec fn all_have_room(alive: Set<Cell>) -> bool {
    forall|c: Cell| #[trigger] alive.contains(c) ==> has_room(c)
}

/// Some entry of `s` is a neighbor of `c`.
pub open spec fn touches(s: Seq<Cell>, c: Cell) -> bool {
    exists|k: int| 0 <= k < s.len() && is_neighbor(c, #[trigger] s[k])
}

/// `counts` holds one entry for each cell with at least one alive neighbor,
/// giving the number of its alive neighbors, and no other entry.
pub open spec fn is_neighbor_counts(alive: Set<Cell>, counts: Seq<(Cell, u64)>) -> bool {
    &&& forall|i: int, j: int|
        0 <= i < counts.len() && 0 <= j < counts.len() && i != j ==> #[trigger] counts[i].0
            != #[trigger] counts[j].0
    &&& forall|i: int|
        0 <= i < counts.len() ==> #[trigger] counts[i].1 == live_count(alive, counts[i].0)
            && counts[i].1 > 0
    &&& forall|c: Cell|
        live_count(alive, c) > 0 ==> exists|i: int| 0 <= i < counts.len() && #[trigger] counts[i].0 == c
}

/// The row of position `i` of `text`: the number of line feeds before it.
pub open spec fn row_of(text: Seq<char>, i: int) -> int
    decreases i,
{
    if i <= 0 {
        0
    } else {
        row_of(text, i - 1) + if text[i - 1] == '\n' {
            1int
        } else {
            0int
        }
    }
}

/// The column of position `i` of `text`: its distance from the start of its line.
pub open spec fn col_of(text: Seq<char>, i: int) -> int
    decreases i,
{
    if i <= 0 {
        0
    } else if text[i - 1] == '\n' {
        0
    } else {
        col_of(text, i - 1) + 1
    }
}

/// The cell that position `i` of `text` stands for: its column is `x`, its row `y`.
pub open spec fn cell_at(text: Seq<char>, i: int) -> Cell {
    Cell { x: col_of(text, i) as i64, y: row_of(text, i) as i64 }
}

/// The alive cells that `text` describes: one for each `X`, at its column
/// and row; every other character stands for a dead cell.
pub open spec fn parsed(text: Seq<char>) -> Set<Cell> {
    Set::new(|c: Cell| exists|i: int| 0 <= i < text.len() && text[i] == 'X' && cell_at(text, i) == c)
}

pub(crate) proof fn lemma_row_col_bounds(text: Seq<char>, i: int)
    requires
        0 <= i <= text.len(),
    ensures
        0 <= row_of(text, i) <= i,
        0 <= col_of(text, i) <= i,
    decreases i,
{
    if i > 0 {
        lemma_row_col_bounds(text, i - 1);
    }
}

/// How many entries of `s` are neighbors of `c`, duplicates counted.
pub open spec fn seq_count(s: Seq<Cell>, c: Cell) -> nat
    decreases s.len(),
{
    if s.len() == 0 {
        0
    } else {
        seq_count(s.drop_last(), c) + if is_neighbor(c, s.last()) {
            1nat
        } else {
            0nat
        }
    }
}

proof fn lemma_push_contains(s: Seq<Cell>, x: Cell)
    ensures
        forall|c: Cell| #[trigger] s.push(x).contains(c) <==> s.contains(c) || c == x,
{
    assert forall|c: Cell| #[trigger] s.push(x).contains(c) <==> s.contains(c) || c == x by {
        let t = s.push(x);
        if t.contains(c) && c != x {
            let q = choose|q: int| 0 <= q < t.len() && t[q] == c;
            assert(s[q] == c);
        }
        if s.contains(c) {
            let q = choose|q: int| 0 <= q < s.len() && s[q] == c;
            assert(t[q] == c);
        }
        if c == x {
            assert(t[s.len() as int] == c);
        }
    }
}

proof fn lemma_seq_count_positive(s: Seq<Cell>, c: Cell)
    ensures
        seq_count(s, c) > 0 <==> touches(s, c),
        seq_count(s, c) <= s.len(),
    decreases s.len(),
{
    if s.len() > 0 {
        let t = s.drop_last();
        lemma_seq_count_positive(t, c);
        if touches(t, c) {
            let k = choose|k: int| 0 <= k < t.len() && is_neighbor(c, #[trigger] t[k]);
            assert(s[k] == t[k]);
        }
        if touches(s, c) && !is_neighbor(c, s.last()) {
            let k = choose|k: int| 0 <= k < s.len() && is_neighbor(c, #[trigger] s[k]);
            assert(t[k] == s[k]);
        }
        if is_neighbor(c, s.last()) {
            assert(is_neighbor(c, s[s.len() - 1]));
        }
    }
}

proof fn lemma_seq_count_is_live_count(s: Seq<Cell>, c: Cell)
    requires
        s.no_duplicates(),
    ensures
        seq_count(s, c) == live_count(s.to_set(), c),
    decreases s.len(),
{
    let p = |n: Cell| is_neighbor(c, n);
    if s.len() == 0 {
        assert(s.to_set().filter(p) =~= Set::empty());
    } else {
        let t = s.drop_last();
        let x = s.last();
        assert(t.no_duplicates());
        lemma_seq_count_is_live_count(t, c);
        assert(s =~= t.push(x));
        assert(s.to_set() =~= t.to_set().insert(x)) by {
            t.lemma_push_to_set_commute(x);
        }
        assert(!t.to_set().contains(x)) by {
            if t.to_set().contains(x) {
                let i = choose|i: int| 0 <= i < t.len() && t[i] == x;
                assert(s[i] == s[s.len() - 1]);
            }
        }
        seq_to_set_is_finite(t);
        if p(x) {
            assert(s.to_set().filter(p) =~= t.to_set().filter(p).insert(x));
        } else {
            assert(s.to_set().filter(p) =~= t.to_set().filter(p));
        }
    }
}

/// The character that stands for position `(x, y)`: `X` where a cell is alive, `.` elsewhere.
pub open spec fn cell_char(alive: Set<Cell>, x: int, y: int) -> char {
    if alive.contains(Cell { x: x as i64, y: y as i64 }) {
        'X'
    } else {
        '.'
    }
}

/// Row `y` of the grid over columns `x0..=x1`, followed by a line feed.
pub open spec fn render_row(alive: Set<Cell>, y: int, x0: int, x1: int) -> Seq<char> {
    Seq::new((x1 - x0 + 1) as nat, |i: int| cell_char(alive, x0 + i, y)).push('\n')
}

/// Rows `y0..=y1` of the grid over columns `x0..=x1`, top to bottom.
pub open spec fn render_rows(alive: Set<Cell>, x0: int, x1: int, y0: int, y1: int) -> Seq<char>
    decreases y1 - y0 + 1,
{
    if y1 < y0 {
        Seq::empty()
    } else {
        render_rows(alive, x0, x1, y0, y1 - 1) + render_row(alive, y1, x0, x1)
    }
}

/// `[x0, x1] x [y0, y1]` is the smallest box that holds every cell of `alive`.
pub open spec fn is_bbox(alive: Set<Cell>, x0: int, x1: int, y0: int, y1: int) -> bool {
    &&& forall|c: Cell| #[trigger] alive.contains(c) ==> x0 <= c.x <= x1 && y0 <= c.y <= y1
    &&& exists|c: Cell| #[trigger] alive.contains(c) && c.x == x0
    &&& exists|c: Cell| #[trigger] alive.contains(c) && c.x == x1
    &&& exists|c: Cell| #[trigger] alive.contains(c) && c.y == y0
    &&& exists|c: Cell| #[trigger] alive.contains(c) && c.y == y1
}

/// The bounding box of a non-empty field, as `(min x, max x, min y, max y)`.
pub open spec fn bbox(alive: Set<Cell>) -> (int, int, int, int) {
    choose|b: (int, int, int, int)| is_bbox(alive, b.0, b.1, b.2, b.3)
}

/// The text of a field: `empty` where no cell is alive, else the grid over the
/// bounding box widened by `padding` on every side, each row ended by a line feed.
pub open spec fn render(alive: Set<Cell>, padding: int) -> Seq<char> {
    if alive.is_empty() {
        seq!['e', 'm', 'p', 't', 'y']
    } else {
        let b = bbox(alive);
        render_rows(alive, b.0 - padding, b.1 + padding, b.2 - padding, b.3 + padding)
    }
}

/// Every cell of `alive` leaves room for `padding` more positions, and one
/// past them, on every side within `i64`.
pub open spec fn fits_padding(alive: Set<Cell>, padding: int) -> bool {
    forall|c: Cell| #[trigger]
        alive.contains(c) ==> i64::MIN + padding <= c.x && c.x + padding < i64::MAX
            && i64::MIN + padding <= c.y && c.y + padding < i64::MAX
}

pub(crate) proof fn lemma_bbox_unique(alive: Set<Cell>, x0: int, x1: int, y0: int, y1: int)
    requires
        is_bbox(alive, x0, x1, y0, y1),
    ensures
        bbox(alive) == (x0, x1, y0, y1),
{
    let t = (x0, x1, y0, y1);
    assert(is_bbox(alive, t.0, t.1, t.2, t.3));
    let b = bbox(alive);
    assert(is_bbox(alive, b.0, b.1, b.2, b.3));
    let c0 = choose|c: Cell| #[trigger] alive.contains(c) && c.x == x0;
    let c1 = choose|c: Cell| #[trigger] alive.contains(c) && c.x == x1;
    let c2 = choose|c: Cell| #[trigger] alive.contains(c) && c.y == y0;
    let c3 = choose|c: Cell| #[trigger] alive.contains(c) && c.y == y1;
    let d0 = choose|c: Cell| #[trigger] alive.contains(c) && c.x == b.0;
    let d1 = choose|c: Cell| #[trigger] alive.contains(c) && c.x == b.1;
    let d2 = choose|c: Cell| #[trigger] alive.contains(c) && c.y == b.2;
    let d3 = choose|c: Cell| #[trigger] alive.contains(c) && c.y == b.3;
}

/// Relies on String::push: appends one character to the end of the string.
#[verifier::external_body]
fn push_char(s: &mut String, c: char)
    ensures
        final(s)@ == old(s)@.push(c),
{
    s.push(c)
}

impl View for Field {
    type V = Set<Cell>;

    closed spec fn view(&self) -> Set<Cell> {
        self.cells@.to_set()
    }
}

impl Field {
    /// The representation holds each alive cell once.
    pub closed spec fn wf(&self) -> bool {
        self.cells@.no_duplicates()
    }

    /// An empty field, with no alive cell.
    pub fn new() -> (r: Field)
        ensures
            r.wf(),
            r@ == Set::<Cell>::empty(),
    {
        let r = Field { cells: Vec::new() };
        assert(r@ =~= Set::<Cell>::empty());
        r
    }

    /// The field that `desc` describes: rows are separated by line feeds, an
    /// `X` at column `x` of row `y` is an alive cell at `(x, y)`, and every
    /// other character is a dead cell.
    pub fn from(desc: &str) -> (r: Field)
        requires
            desc@.len() < i64::MAX,
        ensures
            r.wf(),
            r@ == parsed(desc@),
    {
        broadcast use vstd::string::group_string_axioms;

        let ghost text = desc@;
        let len = desc.unicode_len();
        let mut chars = desc.chars();
        let mut field = Field { cells: Vec::new() };
        let mut x: i64 = 0;
        let mut y: i64 = 0;
        let mut i: usize = 0;
        while i < len
            invariant
                len == text.len(),
                text.len() < i64::MAX,
                i <= len,
                chars.remaining() == text.skip(i as int),
                chars.obeys_prophetic_iter_laws(),
                x == col_of(text, i as int),
                y == row_of(text, i as int),
                field.wf(),
                forall|q: int| 0 <= q < field.cells@.len() ==> {
                    let c = #[trigger] field.cells@[q];
                    c.y < y || (c.y == y && c.x < x)
                },
                forall|c: Cell| #[trigger] field@.contains(c) <==>
                    exists|k: int| 0 <= k < i && text[k] == 'X' && cell_at(text, k) == c,
            decreases len - i,
        {
            let ghost before = field.cells@;
            let ghost old_view = field@;
            let ch = chars.next().unwrap();
            proof {
                assert(ch == text[i as int]);
                assert(text.skip(i as int).drop_first() =~= text.skip(i + 1));
                lemma_row_col_bounds(text, i as int);
                lemma_row_col_bounds(text, i + 1);
            }
            if ch == 'X' {
                field.cells.push(Cell { x, y });
                proof {
                    let c = Cell { x, y };
                    assert(field.cells@ == before.push(c));
                    before.lemma_push_to_set_commute(c);
                    assert forall|a: int, b: int|
                        0 <= a < field.cells@.len() && 0 <= b < field.cells@.len() && a != b implies
                        field.cells@[a] != field.cells@[b] by {
                        if b == before.len() {
                            assert(field.cells@[a] == before[a]);
                        } else if a == before.len() {
                            assert(field.cells@[b] == before[b]);
                        }
                    }
                }
            }
            proof {
                assert(cell_at(text, i as int) == Cell { x, y });
                if ch == 'X' {
                    assert(field@ == old_view.insert(Cell { x, y }));
                } else {
                    assert(field@ == old_view);
                }
                assert forall|c: Cell| #[trigger] field@.contains(c) <==>
                    exists|k: int| 0 <= k < i + 1 && text[k] == 'X' && cell_at(text, k) == c by {
                    if exists|k: int| 0 <= k < i + 1 && text[k] == 'X' && cell_at(text, k) == c {
                        let k = choose|k: int| 0 <= k < i + 1 && text[k] == 'X' && cell_at(text, k) == c;
                        if k < i {
                            assert(old_view.contains(c));
                        }
                    }
                }
            }
            if ch == '\n' {
                x = 0;
                y = y + 1;
            } else {
                x = x + 1;
            }
            i = i + 1;
        }
        proof {
            assert(field@ =~= parsed(text));
        }
        field
    }

    /// Whether `cell` is alive.
    pub fn contains(&self, cell: &Cell) -> (r: bool)
        requires
            self.wf(),
        ensures
            r == self@.contains(*cell),
    {
        let mut i: usize = 0;
        while i < self.cells.len()
            invariant
                i <= self.cells@.len(),
                forall|k: int| 0 <= k < i ==> self.cells@[k] != *cell,
            decreases self.cells@.len() - i,
        {
            if self.cells[i] == *cell {
                return true;
            }
            i = i + 1;
        }
        false
    }

    /// Makes `cell` alive.
    pub fn add(&mut self, cell: Cell)
        requires
            old(self).wf(),
        ensures
            final(self).wf(),
            final(self)@ == old(self)@.insert(cell),
    {
        let ghost before = self.cells@;
        if !self.contains(&cell) {
            self.cells.push(cell);
            proof {
                before.lemma_push_to_set_commute(cell);
                assert(self.cells@ == before.push(cell));
                assert forall|i: int, j: int|
                    0 <= i < self.cells@.len() && 0 <= j < self.cells@.len() && i != j implies
                    self.cells@[i] != self.cells@[j] by {
                    if j == before.len() {
                        assert(before.to_set().contains(before[i]));
                    } else if i == before.len() {
                        assert(before.to_set().contains(before[j]));
                    }
                }
            }
        }
        assert(self@ =~= old(self)@.insert(cell));
    }

    /// The text of this field: `empty` where no cell is alive, else the grid
    /// over the bounding box widened by `padding` on every side, one line per
    /// row from the smallest `y` down, `X` for an alive cell and `.` for a dead one.
    pub fn to_string(&self, padding: i64) -> (r: String)
        requires
            self.wf(),
            0 <= padding,
            fits_padding(self@, padding as int),
        ensures
            r@ == render(self@, padding as int),
    {
        if self.cells.len() == 0 {
            proof {
                reveal_strlit("empty");
                assert(self@ =~= Set::<Cell>::empty());
            }
            return "empty".to_owned();
        }
        proof {
            let first = self.cells@.take(1);
            assert(first =~= seq![self.cells@[0]]);
            assert(first[0] == self.cells@[0]);
            assert(first.contains(self.cells@[0]));
            assert(first.to_set().contains(self.cells@[0]));
            assert forall|c: Cell| #[trigger] first.to_set().contains(c) implies c == self.cells@[0] by {
                let k = choose|k: int| 0 <= k < first.len() && first[k] == c;
            }
        }
        let mut min_x: i64 = self.cells[0].x;
        let mut max_x: i64 = self.cells[0].x;
        let mut min_y: i64 = self.cells[0].y;
        let mut max_y: i64 = self.cells[0].y;
        let mut i: usize = 1;
        while i < self.cells.len()
            invariant
                self.wf(),
                1 <= i <= self.cells@.len(),
                is_bbox(self.cells@.take(i as int).to_set(), min_x as int, max_x as int, min_y as int, max_y as int),
            decreases self.cells@.len() - i,
        {
            let c = self.cells[i];
            if c.x < min_x {
                min_x = c.x;
            }
            if c.x > max_x {
                max_x = c.x;
            }
            if c.y < min_y {
                min_y = c.y;
            }
            if c.y > max_y {
                max_y = c.y;
            }
            proof {
                let prev = self.cells@.take(i as int);
                assert(self.cells@.take(i + 1) =~= prev.push(c));
                prev.lemma_push_to_set_commute(c);
                let cur = prev.to_set().insert(c);
                assert(cur.contains(c));
                if min_x != c.x {
                    let w = choose|w: Cell| #[trigger] prev.to_set().contains(w) && w.x == min_x;
                    assert(cur.contains(w));
                }
                if max_x != c.x {
                    let w = choose|w: Cell| #[trigger] prev.to_set().contains(w) && w.x == max_x;
                    assert(cur.contains(w));
                }
                if min_y != c.y {
                    let w = choose|w: Cell| #[trigger] prev.to_set().contains(w) && w.y == min_y;
                    assert(cur.contains(w));
                }
                if max_y != c.y {
                    let w = choose|w: Cell| #[trigger] prev.to_set().contains(w) && w.y == max_y;
                    assert(cur.contains(w));
                }
            }
            i = i + 1;
        }
        proof {
            assert(self.cells@.take(i as int) =~= self.cells@);
            lemma_bbox_unique(self@, min_x as int, max_x as int, min_y as int, max_y as int);
            let w = choose|w: Cell| #[trigger] self@.contains(w) && w.x == min_x;
            let w = choose|w: Cell| #[trigger] self@.contains(w) && w.x == max_x;
            let w = choose|w: Cell| #[trigger] self@.contains(w) && w.y == min_y;
            let w = choose|w: Cell| #[trigger] self@.contains(w) && w.y == max_y;
            assert(!self@.is_empty());
        }
        let x0 = min_x - padding;
        let x1 = max_x + padding;
        let y0 = min_y - padding;
        let y1 = max_y + padding;
        let mut out = String::new();
        let mut y: i64 = y0;
        while y <= y1
            invariant
                self.wf(),
                x0 <= x1 < i64::MAX,
                y0 <= y <= y1 + 1,
                y1 < i64::MAX,
                out@ == render_rows(self@, x0 as int, x1 as int, y0 as int, y - 1),
            decreases y1 + 1 - y,
        {
            let mut x: i64 = x0;
            while x <= x1
                invariant
                    self.wf(),
                    x0 <= x <= x1 + 1,
                    x1 < i64::MAX,
                    y0 <= y <= y1,
                    out@ == render_rows(self@, x0 as int, x1 as int, y0 as int, y - 1)
                        + Seq::new((x - x0) as nat, |k: int| cell_char(self@, x0 + k, y as int)),
                decreases x1 + 1 - x,
            {
                let ghost before = out@;
                if self.contains(&Cell { x, y }) {
                    push_char(&mut out, 'X');
                } else {
                    push_char(&mut out, '.');
                }
                proof {
                    let rows = render_rows(self@, x0 as int, x1 as int, y0 as int, y - 1);
                    assert(Seq::new((x + 1 - x0) as nat, |k: int| cell_char(self@, x0 + k, y as int))
                        =~= Seq::new((x - x0) as nat, |k: int| cell_char(self@, x0 + k, y as int))
                        .push(cell_char(self@, x as int, y as int)));
                    assert(out@ =~= rows + Seq::new((x + 1 - x0) as nat, |k: int| cell_char(self@, x0 + k, y as int)));
                }
                x = x + 1;
            }
            push_char(&mut out, '\n');
            proof {
                let rows = render_rows(self@, x0 as int, x1 as int, y0 as int, y - 1);
                assert(out@ =~= rows + render_row(self@, y as int, x0 as int, x1 as int));
            }
            y = y + 1;
        }
        out
    }

    /// For each cell with at least one alive neighbor, that cell and the
    /// number of its alive neighbors, one entry per cell.
    pub fn neighbor_counts(&self) -> (r: Vec<(Cell, u64)>)
        requires
            self.wf(),
            all_have_room(self@),
        ensures
            is_neighbor_counts(self@, r@),
    {
        let mut candidates: Vec<Cell> = Vec::new();
        let mut neighbors: [Cell; 8] = [Cell { x: 0, y: 0 }; 8];
        let mut i: usize = 0;
        while i < self.cells.len()
            invariant
                self.wf(),
                all_have_room(self@),
                i <= self.cells@.len(),
                candidates@.no_duplicates(),
                forall|c: Cell| #[trigger] candidates@.contains(c) <==> touches(self.cells@.take(i as int), c),
            decreases self.cells@.len() - i,
        {
            let cell = self.cells[i];
            proof {
                assert(self@.contains(cell));
                crate::cell::lemma_neighbor_seq_exact(cell);
            }
            cell.neighbors(&mut neighbors);
            let mut j: usize = 0;
            while j < 8
                invariant
                    i < self.cells@.len(),
                    cell == self.cells@[i as int],
                    neighbors@ == neighbor_seq(cell),
                    forall|n: Cell| #[trigger] neighbor_seq(cell).contains(n) <==> is_neighbor(cell, n),
                    j <= 8,
                    candidates@.no_duplicates(),
                    forall|c: Cell| #[trigger] candidates@.contains(c) <==>
                        (touches(self.cells@.take(i as int), c) || neighbors@.take(j as int).contains(c)),
                decreases 8 - j,
            {
                let n = neighbors[j];
                let mut found = false;
                let mut k: usize = 0;
                while k < candidates.len()
                    invariant
                        k <= candidates@.len(),
                        found == (exists|q: int| 0 <= q < k && #[trigger] candidates@[q] == n),
                    decreases candidates@.len() - k,
                {
                    if candidates[k] == n {
                        found = true;
                    }
                    k = k + 1;
                }
                proof {
                    assert(neighbors@.take(j + 1) =~= neighbors@.take(j as int).push(n));
                    lemma_push_contains(neighbors@.take(j as int), n);
                }
                if !found {
                    let ghost before = candidates@;
                    candidates.push(n);
                    proof {
                        assert forall|a: int, b: int|
                            0 <= a < candidates@.len() && 0 <= b < candidates@.len() && a != b implies
                            candidates@[a] != candidates@[b] by {
                            if b == before.len() {
                                assert(before.contains(before[a]));
                            } else if a == before.len() {
                                assert(before.contains(before[b]));
                            }
                        }
                        assert forall|c: Cell| #[trigger] candidates@.contains(c) <==> before.contains(c) || c == n by {
                            if candidates@.contains(c) && c != n {
                                let q = choose|q: int| 0 <= q < candidates@.len() && candidates@[q] == c;
                                assert(before[q] == c);
                            }
                            if before.contains(c) {
                                let q = choose|q: int| 0 <= q < before.len() && before[q] == c;
                                assert(candidates@[q] == c);
                            }
                            if c == n {
                                assert(candidates@[before.len() as int] == n);
                            }
                        }
                    }
                }
                j = j + 1;
            }
            proof {
                let prev = self.cells@.take(i as int);
                let next = self.cells@.take(i + 1);
                assert(neighbors@.take(8) =~= neighbors@);
                assert forall|c: Cell| touches(next, c) <==> touches(prev, c) || is_neighbor(c, cell) by {
                    if touches(next, c) {
                        let k = choose|k: int| 0 <= k < next.len() && is_neighbor(c, #[trigger] next[k]);
                        if k < i {
                            assert(prev[k] == next[k]);
                        }
                    }
                    if touches(prev, c) {
                        let k = choose|k: int| 0 <= k < prev.len() && is_neighbor(c, #[trigger] prev[k]);
                        assert(next[k] == prev[k]);
                    }
                    if is_neighbor(c, cell) {
                        assert(next[i as int] == cell);
                    }
                }
            }
            i = i + 1;
        }
        proof {
            assert(self.cells@.take(i as int) =~= self.cells@);
        }
        let mut counts: Vec<(Cell, u64)> = Vec::new();
        let mut m: usize = 0;
        while m < candidates.len()
            invariant
                self.wf(),
                m <= candidates@.len(),
                candidates@.no_duplicates(),
                forall|c: Cell| #[trigger] candidates@.contains(c) <==> touches(self.cells@, c),
                counts@.len() == m,
                forall|q: int| 0 <= q < m ==> #[trigger] counts@[q].0 == candidates@[q],
                forall|q: int|
                    0 <= q < m ==> #[trigger] counts@[q].1 == live_count(self@, counts@[q].0)
                        && counts@[q].1 > 0,
            decreases candidates@.len() - m,
        {
            let c = candidates[m];
            let mut count: u64 = 0;
            let mut k: usize = 0;
            while k < self.cells.len()
                invariant
                    k <= self.cells@.len(),
                    count as nat == seq_count(self.cells@.take(k as int), c),
                decreases self.cells@.len() - k,
            {
                proof {
                    assert(self.cells@.take(k + 1).drop_last() =~= self.cells@.take(k as int));
                    lemma_seq_count_positive(self.cells@.take(k as int), c);
                }
                if is_adjacent(&c, &self.cells[k]) {
                    count = count + 1;
                }
                k = k + 1;
            }
            proof {
                assert(self.cells@.take(k as int) =~= self.cells@);
                assert(candidates@.contains(c));
                lemma_seq_count_positive(self.cells@, c);
                lemma_seq_count_is_live_count(self.cells@, c);
            }
            counts.push((c, count));
            m = m + 1;
        }
        proof {
            assert forall|c: Cell| live_count(self@, c) > 0 implies exists|q: int|
                0 <= q < counts@.len() && #[trigger] counts@[q].0 == c by {
                lemma_seq_count_positive(self.cells@, c);
                lemma_seq_count_is_live_count(self.cells@, c);
                assert(candidates@.contains(c));
                let q = choose|q: int| 0 <= q < candidates@.len() && candidates@[q] == c;
                assert(counts@[q].0 == c);
            }
        }
        counts
    }

    /// The next generation of this field; this field is left as it is.
    pub fn step(&self) -> (r: Field)
        requires
            self.wf(),
            all_have_room(self@),
        ensures
            r.wf(),
            r@ == next_gen(self@),
    {
        let counts = self.neighbor_counts();
        let mut field = Field::new();
        let mut i: usize = 0;
        while i < counts.len()
            invariant
                self.wf(),
                field.wf(),
                i <= counts@.len(),
                is_neighbor_counts(self@, counts@),
                forall|c: Cell| #[trigger] field@.contains(c) <==> exists|k: int|
                    0 <= k < i && #[trigger] counts@[k].0 == c && lives_next(self@, c),
            decreases counts@.len() - i,
        {
            let (cell, count) = counts[i];
            let ghost before = field@;
            if count == 3 || (self.contains(&cell) && count == 2) {
                field.add(cell);
            }
            proof {
                assert forall|c: Cell| #[trigger] field@.contains(c) <==> exists|k: int|
                    0 <= k < i + 1 && #[trigger] counts@[k].0 == c && lives_next(self@, c) by {
                    if c == cell && lives_next(self@, c) {
                        assert(counts@[i as int].0 == c);
                    }
                    if exists|k: int| 0 <= k < i + 1 && #[trigger] counts@[k].0 == c && lives_next(self@, c) {
                        let k = choose|k: int| 0 <= k < i + 1 && #[trigger] counts@[k].0 == c && lives_next(self@, c);
                        if k < i {
                            assert(before.contains(c));
                        }
                    }
                }
            }
            i = i + 1;
        }
        proof {
            assert forall|c: Cell| #[trigger] field@.contains(c) <==> next_gen(self@).contains(c) by {
                if lives_next(self@, c) {
                    let k = choose|k: int| 0 <= k < counts@.len() && #[trigger] counts@[k].0 == c;
                }
            }
            assert(field@ =~= next_gen(self@));
        }
        field
    }

    /// The alive cells, each once, in no particular order.
    pub fn cells(&self) -> (r: Vec<Cell>)
        requires
            self.wf(),
        ensures
            r@.no_duplicates(),
            r@.to_set() == self@,
    {
        self.cells.clone()
    }

    /// Whether every alive cell leaves room for `padding` more positions, and
    /// one past them, on every side within `i64`; with `padding` at least one
    /// this also leaves room for every neighbor.
    pub fn fits(&self, padding: i64) -> (r: bool)
        requires
            self.wf(),
            0 <= padding,
        ensures
            r == fits_padding(self@, padding as int),
            r && padding >= 1 ==> all_have_room(self@),
    {
        let mut i: usize = 0;
        while i < self.cells.len()
            invariant
                0 <= padding,
                i <= self.cells@.len(),
                forall|k: int| 0 <= k < i ==> {
                    let c = #[trigger] self.cells@[k];
                    i64::MIN + padding <= c.x && c.x + padding < i64::MAX
                        && i64::MIN + padding <= c.y && c.y + padding < i64::MAX
                },
            decreases self.cells@.len() - i,
        {
            let c = self.cells[i];
            if !(c.x >= i64::MIN + padding && c.x < i64::MAX - padding
                && c.y >= i64::MIN + padding && c.y < i64::MAX - padding) {
                proof {
                    assert(self@.contains(c));
                }
                return false;
            }
            i = i + 1;
        }
        proof {
            assert forall|c: Cell| #[trigger] self@.contains(c) implies
                i64::MIN + padding <= c.x && c.x + padding < i64::MAX
                && i64::MIN + padding <= c.y && c.y + padding < i64::MAX by {
                let k = choose|k: int| 0 <= k < self.cells@.len() && self.cells@[k] == c;
            }
        }
        true
    }
}

/// The padding used when a field is shown to a person.
pub const DISPLAY_PADDING: i64 = 2;

/// Stepping is deterministic: two fields holding the same alive cells, even as
/// distinct values, step to the same alive cells.
pub proof fn lemma_step_deterministic(a: &Field, b: &Field)
    requires
        a.wf(),
        b.wf(),
        a@ == b@,
    ensures
        next_gen(a@) == next_gen(b@),
{
}

} // verus!
