//! The text picture of a board.
//!
//! A border of dashes; then for each row a line of cells, where the gap
//! between two neighbours is `|` for a wall and `\u{a6}` for a passage; and,
//! below every row but the last, a line with `---` under each cell whose
//! edge to the cell below is a wall and `- -` where it is a passage.
use vstd::prelude::*;

verus! {

/// The edge from the cell in row `i`, column `j` to its right neighbour.
pub open spec fn right_edge(i: int, j: int) -> (u8, u8) {
    ((6 * i + j) as u8, (6 * i + j + 1) as u8)
}

/// The edge from the cell in row `i`, column `j` to the cell below it.
pub open spec fn down_edge(i: int, j: int) -> (u8, u8) {
    ((6 * i + j) as u8, (6 * i + j + 6) as u8)
}

pub open spec fn border_text() -> Seq<char> {
    Seq::new(25, |k: int| '-')
}

/// What follows cell `j` of row `i` on the row's cell line.
pub open spec fn cell_piece(b: Set<(u8, u8)>, i: int, j: int) -> Seq<char> {
    if j < 5 {
        (if b.contains(right_edge(i, j)) {
            seq!['|']
        } else {
            seq!['\u{a6}']
        }) + seq!['\t']
    } else {
        seq!['|']
    }
}

/// The cell line of row `i`, up to and including cell `j - 1`.
pub open spec fn cell_line(b: Set<(u8, u8)>, i: int, j: int) -> Seq<char>
    decreases j,
{
    if j <= 0 {
        seq!['|', '\t']
    } else {
        cell_line(b, i, j - 1) + cell_piece(b, i, j - 1)
    }
}

/// The mark under cell `j` of row `i`.
pub open spec fn gap_piece(b: Set<(u8, u8)>, i: int, j: int) -> Seq<char> {
    seq![' '] + if b.contains(down_edge(i, j)) {
        seq!['-', '-', '-']
    } else {
        seq!['-', ' ', '-']
    }
}

/// The line below row `i`, up to and including cell `j - 1`.
pub open spec fn gap_line(b: Set<(u8, u8)>, i: int, j: int) -> Seq<char>
    decreases j,
{
    if j <= 0 {
        Seq::empty()
    } else {
        gap_line(b, i, j - 1) + gap_piece(b, i, j - 1)
    }
}

/// The lines that row `i` contributes.
pub open spec fn row_text(b: Set<(u8, u8)>, i: int) -> Seq<char> {
    cell_line(b, i, 6) + seq!['\n'] + if i < 5 {
        gap_line(b, i, 6) + seq!['\n']
    } else {
        Seq::empty()
    }
}

/// The lines of the first `i` rows.
pub open spec fn rows_text(b: Set<(u8, u8)>, i: int) -> Seq<char>
    decreases i,
{
    if i <= 0 {
        Seq::empty()
    } else {
        rows_text(b, i - 1) + row_text(b, i - 1)
    }
}

/// The whole picture of a board whose barriers are `b`.
pub open spec fn render_text(b: Set<(u8, u8)>) -> Seq<char> {
    border_text() + seq!['\n'] + rows_text(b, 6) + border_text()
}

/// Without barriers every gap between neighbours is drawn open: each cell
/// line shows the open glyph between cells and each line between rows shows
/// the open mark under every cell.
pub proof fn lemma_open_picture_without_barriers()
    ensures
        forall|i: int, j: int|
            0 <= i < 6 && 0 <= j < 5 ==> #[trigger] cell_piece(Set::empty(), i, j) == seq![
                '\u{a6}',
                '\t',
            ],
        forall|i: int, j: int|
            0 <= i < 5 && 0 <= j < 6 ==> #[trigger] gap_piece(Set::empty(), i, j) == seq![
                ' ',
                '-',
                ' ',
                '-',
            ],
{
    assert forall|i: int, j: int| 0 <= i < 6 && 0 <= j < 5 implies #[trigger] cell_piece(
        Set::empty(),
        i,
        j,
    ) == seq!['\u{a6}', '\t'] by {
        assert(cell_piece(Set::empty(), i, j) =~= seq!['\u{a6}', '\t']);
    }
    assert forall|i: int, j: int| 0 <= i < 5 && 0 <= j < 6 implies #[trigger] gap_piece(
        Set::empty(),
        i,
        j,
    ) == seq![' ', '-', ' ', '-'] by {
        assert(gap_piece(Set::empty(), i, j) =~= seq![' ', '-', ' ', '-']);
    }
}

} // verus!
