//! Texts made of rows, and how parsing and rendering relate on them.
use vstd::prelude::*;

use crate::cell::Cell;
use crate::field::{bbox, cell_char, cell_at, col_of, is_bbox, parsed, render, render_row, render_rows, row_of};

verus! {

/// The text of `rows`, each row followed by a line feed.
pub open spec fn join_rows(rows: Seq<Seq<char>>) -> Seq<char>
    decreases rows.len(),
{
    if rows.len() == 0 {
        Seq::empty()
    } else {
        join_rows(rows.drop_last()) + rows.last().push('\n')
    }
}

/// At least one row, all of one non-zero length, made of `X` and `.` only.
pub open spec fn is_pattern(rows: Seq<Seq<char>>) -> bool {
    &&& rows.len() > 0
    &&& rows[0].len() > 0
    &&& forall|y: int| 0 <= y < rows.len() ==> #[trigger] rows[y].len() == rows[0].len()
    &&& forall|y: int, x: int|
        0 <= y < rows.len() && 0 <= x < rows[y].len() ==> #[trigger] rows[y][x] == 'X'
            || rows[y][x] == '.'
}

/// The first and last rows and the first and last columns of a pattern each hold an `X`.
pub open spec fn is_tight(rows: Seq<Seq<char>>) -> bool {
    let h = rows.len();
    let w = rows[0].len();
    &&& exists|x: int| 0 <= x < w && #[trigger] rows[0][x] == 'X'
    &&& exists|x: int| 0 <= x < w && #[trigger] rows[h - 1][x] == 'X'
    &&& exists|y: int| 0 <= y < h && #[trigger] rows[y][0] == 'X'
    &&& exists|y: int| 0 <= y < h && #[trigger] rows[y][w - 1] == 'X'
}

/// The alive cells of a grid of rows: `X` at column `x` of row `y`.
pub open spec fn grid_cells(rows: Seq<Seq<char>>) -> Set<Cell> {
    Set::new(
        |c: Cell|
            0 <= c.y < rows.len() && 0 <= c.x < rows[c.y as int].len() && rows[c.y as int][c.x as int]
                == 'X',
    )
}

/// No row holds a line feed.
pub open spec fn rows_without_feed(rows: Seq<Seq<char>>) -> bool {
    forall|y: int, x: int|
        0 <= y < rows.len() && 0 <= x < rows[y].len() ==> #[trigger] rows[y][x] != '\n'
}

proof fn lemma_prefix(a: Seq<char>, b: Seq<char>, i: int)
    requires
        0 <= i <= a.len(),
    ensures
        row_of(a + b, i) == row_of(a, i),
        col_of(a + b, i) == col_of(a, i),
    decreases i,
{
    if i > 0 {
        lemma_prefix(a, b, i - 1);
        assert((a + b)[i - 1] == a[i - 1]);
    }
}

proof fn lemma_in_row(p: Seq<char>, r: Seq<char>, k: int)
    requires
        col_of(p, p.len() as int) == 0,
        0 <= k <= r.len(),
        forall|x: int| 0 <= x < r.len() ==> #[trigger] r[x] != '\n',
    ensures
        row_of(p + r.push('\n'), p.len() + k) == row_of(p, p.len() as int),
        col_of(p + r.push('\n'), p.len() + k) == k,
    decreases k,
{
    let t = p + r.push('\n');
    if k == 0 {
        lemma_prefix(p, r.push('\n'), p.len() as int);
    } else {
        lemma_in_row(p, r, k - 1);
        assert(t[p.len() + k - 1] == r[k - 1]);
    }
}

proof fn lemma_join(rows: Seq<Seq<char>>)
    requires
        rows_without_feed(rows),
        join_rows(rows).len() < i64::MAX,
    ensures
        row_of(join_rows(rows), join_rows(rows).len() as int) == rows.len(),
        col_of(join_rows(rows), join_rows(rows).len() as int) == 0,
        parsed(join_rows(rows)) == grid_cells(rows),
    decreases rows.len(),
{
    let j = join_rows(rows);
    if rows.len() == 0 {
        assert(parsed(j) =~= grid_cells(rows));
    } else {
        let prev = rows.drop_last();
        let r = rows.last();
        let jp = join_rows(prev);
        let tail = r.push('\n');
        assert(j == jp + tail);
        assert(rows_without_feed(prev)) by {
            assert forall|y: int, x: int| 0 <= y < prev.len() && 0 <= x < prev[y].len() implies
                #[trigger] prev[y][x] != '\n' by {
                assert(prev[y] == rows[y]);
            }
        }
        assert forall|x: int| 0 <= x < r.len() implies #[trigger] r[x] != '\n' by {
            assert(rows[rows.len() - 1][x] == r[x]);
        }
        lemma_join(prev);
        let h = prev.len() as int;
        lemma_in_row(jp, r, r.len() as int);
        assert(j[(jp.len() + r.len()) as int] == '\n');
        crate::field::lemma_row_col_bounds(j, j.len() as int);
        assert forall|c: Cell| #[trigger] parsed(j).contains(c) <==> grid_cells(rows).contains(c) by {
            if parsed(j).contains(c) {
                let i = choose|i: int| 0 <= i < j.len() && j[i] == 'X' && cell_at(j, i) == c;
                if i < jp.len() {
                    lemma_prefix(jp, tail, i);
                    assert(jp[i] == j[i]);
                    assert(parsed(jp).contains(c));
                    assert(prev[c.y as int] == rows[c.y as int]);
                } else {
                    let k = i - jp.len();
                    lemma_in_row(jp, r, k);
                    assert(j[i] == r[k]);
                    assert(rows[h] == r);
                }
            }
            if grid_cells(rows).contains(c) {
                let y = c.y as int;
                let x = c.x as int;
                if y < h {
                    assert(prev[y] == rows[y]);
                    assert(grid_cells(prev).contains(c));
                    let i = choose|i: int| 0 <= i < jp.len() && jp[i] == 'X' && cell_at(jp, i) == c;
                    lemma_prefix(jp, tail, i);
                    assert(j[i] == jp[i]);
                    assert(cell_at(j, i) == c);
                } else {
                    assert(rows[y] == r);
                    let i = jp.len() + x;
                    lemma_in_row(jp, r, x);
                    assert(j[i] == r[x]);
                    assert(cell_at(j, i) == c);
                }
            }
        }
        assert(parsed(j) =~= grid_cells(rows));
    }
}

proof fn lemma_render_rows(rows: Seq<Seq<char>>, y: int)
    requires
        is_pattern(rows),
        -1 <= y < rows.len(),
        rows.len() < i64::MAX,
        rows[0].len() < i64::MAX,
    ensures
        render_rows(grid_cells(rows), 0, rows[0].len() - 1, 0, y) == join_rows(rows.take(y + 1)),
    decreases y + 1,
{
    let s = grid_cells(rows);
    let w = rows[0].len() as int;
    if y < 0 {
        assert(rows.take(0) =~= Seq::<Seq<char>>::empty());
    } else {
        lemma_render_rows(rows, y - 1);
        let t = rows.take(y + 1);
        assert(t.drop_last() =~= rows.take(y));
        assert(t.last() == rows[y]);
        assert(rows[y].len() == w);
        let cells = Seq::new(w as nat, |i: int| cell_char(s, 0 + i, y));
        assert forall|i: int| 0 <= i < w implies #[trigger] cells[i] == rows[y][i] by {
            let c = Cell { x: i as i64, y: y as i64 };
            assert(c.x as int == i && c.y as int == y);
            if rows[y][i] == 'X' {
                assert(s.contains(c));
            } else {
                assert(!s.contains(c));
            }
        }
        assert(cells =~= rows[y]);
        assert(render_row(s, y, 0, w - 1) == rows[y].push('\n'));
    }
}

/// Rendering the exact bounding box gives back the text that was parsed, for
/// a text of equal-length rows of `X` and `.`, each ended by a line feed, whose
/// first and last rows and first and last columns each hold an `X`.
pub proof fn lemma_render_inverts_parse(rows: Seq<Seq<char>>)
    requires
        is_pattern(rows),
        is_tight(rows),
        join_rows(rows).len() < i64::MAX,
    ensures
        render(parsed(join_rows(rows)), 0) == join_rows(rows),
{
    let h = rows.len() as int;
    let w = rows[0].len() as int;
    let j = join_rows(rows);
    assert(rows_without_feed(rows)) by {
        assert forall|y: int, x: int| 0 <= y < rows.len() && 0 <= x < rows[y].len() implies
            #[trigger] rows[y][x] != '\n' by {
            assert(rows[y][x] == 'X' || rows[y][x] == '.');
        }
    }
    lemma_join(rows);
    let s = grid_cells(rows);
    crate::field::lemma_row_col_bounds(j, j.len() as int);
    assert(h < i64::MAX);
    assert(w < i64::MAX) by {
        lemma_join_len(rows);
    }
    let x0 = choose|x: int| 0 <= x < w && #[trigger] rows[0][x] == 'X';
    let x1 = choose|x: int| 0 <= x < w && #[trigger] rows[h - 1][x] == 'X';
    let y0 = choose|y: int| 0 <= y < h && #[trigger] rows[y][0] == 'X';
    let y1 = choose|y: int| 0 <= y < h && #[trigger] rows[y][w - 1] == 'X';
    assert(rows[h - 1].len() == w);
    assert(rows[y0].len() == w);
    assert(rows[y1].len() == w);
    assert(s.contains(Cell { x: x0 as i64, y: 0 }));
    assert(s.contains(Cell { x: x1 as i64, y: (h - 1) as i64 }));
    assert(s.contains(Cell { x: 0, y: y0 as i64 }));
    assert(s.contains(Cell { x: (w - 1) as i64, y: y1 as i64 }));
    assert forall|c: Cell| #[trigger] s.contains(c) implies 0 <= c.x <= w - 1 && 0 <= c.y <= h - 1 by {
        assert(rows[c.y as int].len() == w);
    }
    assert(is_bbox(s, 0, w - 1, 0, h - 1));
    crate::field::lemma_bbox_unique(s, 0, w - 1, 0, h - 1);
    assert(!s.is_empty()) by {
        assert(s.contains(Cell { x: 0, y: y0 as i64 }));
    }
    lemma_render_rows(rows, h - 1);
    assert(rows.take(h) =~= rows);
}

proof fn lemma_join_len(rows: Seq<Seq<char>>)
    requires
        rows.len() > 0,
    ensures
        join_rows(rows).len() > rows[0].len(),
    decreases rows.len(),
{
    if rows.len() > 1 {
        lemma_join_len(rows.drop_last());
        assert(rows.drop_last()[0] == rows[0]);
    } else {
        assert(rows.drop_last().len() == 0);
    }
}

} // verus!
