//! The renderer: from an occupancy grid and the keys of a table to the box
//! diagram of the table and to its aligned key list.

use crate::ast::KeymapStatement;
use crate::text::{byte_len, text_len};
use vstd::prelude::*;

verus! {

/// A piece of rendered text: a box-drawing glyph, a line start, a line
/// end, a space, or a key.
#[derive(Debug, PartialEq)]
pub enum Element {
    TopLeft,
    TopRight,
    BottomRight,
    BottomLeft,
    Horizontal,
    Vertical,
    TopT,
    BottomT,
    LeftT,
    RightT,
    Plus,
    Newline,
    LineStart,
    Space,
    Key(String),
}

/// What an `Element` stands for.
pub enum Piece {
    TopLeft,
    TopRight,
    BottomRight,
    BottomLeft,
    Horizontal,
    Vertical,
    TopT,
    BottomT,
    LeftT,
    RightT,
    Plus,
    Newline,
    LineStart,
    Space,
    Key(Seq<char>),
}

impl View for Element {
    type V = Piece;

    open spec fn view(&self) -> Piece {
        match self {
            Element::TopLeft => Piece::TopLeft,
            Element::TopRight => Piece::TopRight,
            Element::BottomRight => Piece::BottomRight,
            Element::BottomLeft => Piece::BottomLeft,
            Element::Horizontal => Piece::Horizontal,
            Element::Vertical => Piece::Vertical,
            Element::TopT => Piece::TopT,
            Element::BottomT => Piece::BottomT,
            Element::LeftT => Piece::LeftT,
            Element::RightT => Piece::RightT,
            Element::Plus => Piece::Plus,
            Element::Newline => Piece::Newline,
            Element::LineStart => Piece::LineStart,
            Element::Space => Piece::Space,
            Element::Key(text) => Piece::Key(text@),
        }
    }
}

impl DeepView for Element {
    type V = Piece;

    open spec fn deep_view(&self) -> Piece {
        self@
    }
}

impl Piece {
    /// The text of a piece.
    pub open spec fn text(self) -> Seq<char> {
        match self {
            Piece::TopLeft => "╭"@,
            Piece::TopRight => "╮"@,
            Piece::BottomRight => "╯"@,
            Piece::BottomLeft => "╰"@,
            Piece::Horizontal => "─"@,
            Piece::Vertical => "│"@,
            Piece::TopT => "┬"@,
            Piece::BottomT => "┴"@,
            Piece::LeftT => "├"@,
            Piece::RightT => "┤"@,
            Piece::Plus => "┼"@,
            Piece::Newline => "\n"@,
            Piece::LineStart => "//    "@,
            Piece::Space => " "@,
            Piece::Key(text) => text,
        }
    }
}

impl Clone for Element {
    fn clone(&self) -> (copy: Self)
        ensures
            copy@ == self@,
    {
        match self {
            Element::TopLeft => Element::TopLeft,
            Element::TopRight => Element::TopRight,
            Element::BottomRight => Element::BottomRight,
            Element::BottomLeft => Element::BottomLeft,
            Element::Horizontal => Element::Horizontal,
            Element::Vertical => Element::Vertical,
            Element::TopT => Element::TopT,
            Element::BottomT => Element::BottomT,
            Element::LeftT => Element::LeftT,
            Element::RightT => Element::RightT,
            Element::Plus => Element::Plus,
            Element::Newline => Element::Newline,
            Element::LineStart => Element::LineStart,
            Element::Space => Element::Space,
            Element::Key(text) => Element::Key(text.clone()),
        }
    }
}

impl Element {
    /// The text of the element.
    pub fn to_string(&self) -> (s: String)
        ensures
            s@ == self@.text(),
    {
        match self {
            Element::TopLeft => String::from_str("╭"),
            Element::TopRight => String::from_str("╮"),
            Element::BottomRight => String::from_str("╯"),
            Element::BottomLeft => String::from_str("╰"),
            Element::Horizontal => String::from_str("─"),
            Element::Vertical => String::from_str("│"),
            Element::TopT => String::from_str("┬"),
            Element::BottomT => String::from_str("┴"),
            Element::LeftT => String::from_str("├"),
            Element::RightT => String::from_str("┤"),
            Element::Plus => String::from_str("┼"),
            Element::Newline => String::from_str("\n"),
            Element::LineStart => String::from_str("//    "),
            Element::Space => String::from_str(" "),
            Element::Key(text) => text.clone(),
        }
    }
}

/// One cell of the occupancy grid: a key, or a gap.
#[derive(Clone, Copy, Debug, PartialEq)]
pub enum Mark {
    K,
    B,
}

/// The occupancy grid: rows of cells, not all of one length.
pub type Layout = Vec<Vec<Mark>>;

/// The grid that a `Layout` stands for.
pub open spec fn grid_of(layout: Seq<Vec<Mark>>) -> Seq<Seq<Mark>> {
    Seq::new(layout.len(), |i: int| layout[i]@)
}

/// Whether the cell in column `j` of `row` holds a key. Outside the row
/// nothing does.
pub open spec fn occupied(row: Seq<Mark>, j: int) -> bool {
    0 <= j < row.len() && row[j] == Mark::K
}

/// Row `i` of the grid; an empty row outside of it.
pub open spec fn row_of(grid: Seq<Seq<Mark>>, i: int) -> Seq<Mark> {
    if 0 <= i < grid.len() {
        grid[i]
    } else {
        Seq::empty()
    }
}

/// The number of columns that the lines of a row run over: one more than
/// the row has cells, which closes the last box.
pub open spec fn columns(row: Seq<Mark>) -> int {
    row.len() as int + 1
}

/// The number of keys in the first `n` cells of a row.
pub open spec fn keys_in(row: Seq<Mark>, n: int) -> int
    decreases n,
{
    if n <= 0 {
        0
    } else {
        keys_in(row, n - 1) + if occupied(row, n - 1) {
            1int
        } else {
            0int
        }
    }
}

/// The number of keys in the first `n` rows of a grid.
pub open spec fn keys_before(grid: Seq<Seq<Mark>>, n: int) -> int
    decreases n,
{
    if n <= 0 {
        0
    } else {
        keys_before(grid, n - 1) + keys_in(row_of(grid, n - 1), row_of(grid, n - 1).len() as int)
    }
}

/// The number of keys of a grid.
pub open spec fn occupied_count(grid: Seq<Seq<Mark>>) -> int {
    keys_before(grid, grid.len() as int)
}

/// The length in bytes of the longest of `keys`; zero where there is none.
pub open spec fn max_width(keys: Seq<Seq<char>>) -> nat
    decreases keys.len(),
{
    if keys.len() == 0 {
        0
    } else {
        let rest = max_width(keys.drop_last());
        if byte_len(keys.last()) > rest {
            byte_len(keys.last())
        } else {
            rest
        }
    }
}

/// `n` times the same piece; nothing where `n` is not positive.
pub open spec fn repeat(piece: Piece, n: int) -> Seq<Piece> {
    Seq::new(
        if n > 0 {
            n as nat
        } else {
            0
        },
        |i: int| piece,
    )
}

/// The glyph at a point where four cells meet, from which of the four hold
/// a key: the two above the point, left and right, and the two below it.
/// A line runs from the point along every side of an occupied cell.
pub open spec fn corner(nw: bool, ne: bool, sw: bool, se: bool) -> Piece {
    match (nw, ne, sw, se) {
        (false, false, false, false) => Piece::Space,
        (false, false, false, true) => Piece::TopLeft,
        (false, false, true, false) => Piece::TopRight,
        (false, false, true, true) => Piece::TopT,
        (false, true, false, false) => Piece::BottomLeft,
        (false, true, false, true) => Piece::LeftT,
        (true, false, false, false) => Piece::BottomRight,
        (true, false, true, false) => Piece::RightT,
        (true, true, false, false) => Piece::BottomT,
        _ => Piece::Plus,
    }
}

/// The run under a cell: a line where the cell above or below it holds a
/// key, and spaces where neither does. It is as wide as the longest key and
/// a space on either side.
pub open spec fn fill(on: bool, width: int) -> Seq<Piece> {
    repeat(
        if on {
            Piece::Horizontal
        } else {
            Piece::Space
        },
        width + 2,
    )
}

/// Column `j` of the line between the rows `upper` and `lower`: the glyph
/// at its left end, and the run to the next column.
pub open spec fn edge_cell(upper: Seq<Mark>, lower: Seq<Mark>, j: int, width: int) -> Seq<Piece> {
    seq![corner(occupied(upper, j - 1), occupied(upper, j), occupied(lower, j - 1), occupied(lower, j))]
        + fill(occupied(upper, j) || occupied(lower, j), width)
}

/// The first `n` columns of the line between the rows `upper` and `lower`.
pub open spec fn edge(upper: Seq<Mark>, lower: Seq<Mark>, n: int, width: int) -> Seq<Piece>
    decreases n,
{
    if n <= 0 {
        Seq::empty()
    } else {
        edge(upper, lower, n - 1, width) + edge_cell(upper, lower, n - 1, width)
    }
}

/// `width - used` spaces.
pub open spec fn padding(used: int, width: int) -> Seq<Piece> {
    repeat(Piece::Space, width - used)
}

/// Column `j` of a row of the diagram: a bar where the cell or the one left
/// of it holds a key, and the key of the cell, padded to `width`. The key
/// of the cell is `keys[index]`.
pub open spec fn key_cell(row: Seq<Mark>, j: int, keys: Seq<Seq<char>>, index: int, width: int) -> Seq<
    Piece,
> {
    seq![
        if occupied(row, j - 1) || occupied(row, j) {
            Piece::Vertical
        } else {
            Piece::Space
        },
        Piece::Space,
    ] + (if occupied(row, j) {
        seq![Piece::Key(keys[index])] + padding(byte_len(keys[index]) as int, width)
    } else {
        padding(0, width)
    }) + seq![Piece::Space]
}

/// The first `n` columns of a row of the diagram. The keys of the row
/// start at `keys[base]`.
pub open spec fn key_row(row: Seq<Mark>, n: int, keys: Seq<Seq<char>>, base: int, width: int) -> Seq<
    Piece,
>
    decreases n,
{
    if n <= 0 {
        Seq::empty()
    } else {
        key_row(row, n - 1, keys, base, width) + key_cell(
            row,
            n - 1,
            keys,
            base + keys_in(row, n - 1),
            width,
        )
    }
}

/// Row `i` of the diagram with what follows it: the line of keys, and,
/// unless the row is the last, the line between it and the next row. Each
/// line runs one column further than the row, which closes the last box.
pub open spec fn diagram_row(grid: Seq<Seq<Mark>>, i: int, keys: Seq<Seq<char>>, width: int) -> Seq<
    Piece,
> {
    let row = row_of(grid, i);
    seq![Piece::LineStart] + key_row(row, columns(row), keys, keys_before(grid, i), width)
        + seq![Piece::Newline] + (if i + 1 < grid.len() {
        seq![Piece::LineStart] + edge(row, row_of(grid, i + 1), columns(row), width)
            + seq![Piece::Newline]
    } else {
        Seq::empty()
    })
}

/// The first `n` rows of the diagram.
pub open spec fn diagram_rows(grid: Seq<Seq<Mark>>, n: int, keys: Seq<Seq<char>>, width: int) -> Seq<
    Piece,
>
    decreases n,
{
    if n <= 0 {
        Seq::empty()
    } else {
        diagram_rows(grid, n - 1, keys, width) + diagram_row(grid, n - 1, keys, width)
    }
}

/// The diagram of a table: the top line of the boxes, the rows with the
/// lines between them, and the bottom line, each line as a comment. The
/// last line is not closed.
pub open spec fn diagram(grid: Seq<Seq<Mark>>, keys: Seq<Seq<char>>) -> Seq<Piece> {
    let width = max_width(keys) as int;
    let first = row_of(grid, 0);
    let last = row_of(grid, grid.len() - 1);
    seq![Piece::LineStart] + edge(Seq::empty(), first, columns(first), width)
        + seq![Piece::Newline] + diagram_rows(grid, grid.len() as int, keys, width)
        + seq![Piece::LineStart] + edge(last, Seq::empty(), columns(last), width)
}

/// A key as the key list shows it: a blank as seven underscores.
pub open spec fn shown(key: Seq<char>) -> Seq<char> {
    if key.len() == 0 {
        "_______"@
    } else {
        key
    }
}

/// Column `j` of a row of the key list: the key of the cell, padded to
/// `width`, between two spaces, and a comma behind it unless it is the last
/// key of the table. A cell without a key gives spaces of the same number.
pub open spec fn list_cell(row: Seq<Mark>, j: int, keys: Seq<Seq<char>>, index: int, width: int) -> Seq<
    Piece,
> {
    seq![Piece::Space] + (if occupied(row, j) {
        seq![Piece::Key(shown(keys[index]))] + padding(byte_len(shown(keys[index])) as int, width)
    } else {
        padding(0, width)
    }) + seq![
        Piece::Space,
        if occupied(row, j) && index + 1 < keys.len() {
            Piece::Key(","@)
        } else {
            Piece::Space
        },
    ]
}

/// The first `n` columns of a row of the key list. The keys of the row
/// start at `keys[base]`.
pub open spec fn list_row(row: Seq<Mark>, n: int, keys: Seq<Seq<char>>, base: int, width: int) -> Seq<
    Piece,
>
    decreases n,
{
    if n <= 0 {
        Seq::empty()
    } else {
        list_row(row, n - 1, keys, base, width) + list_cell(
            row,
            n - 1,
            keys,
            base + keys_in(row, n - 1),
            width,
        )
    }
}

/// The first `n` rows of the key list, each closed by a line end.
pub open spec fn list_rows(grid: Seq<Seq<Mark>>, n: int, keys: Seq<Seq<char>>, width: int) -> Seq<
    Piece,
>
    decreases n,
{
    if n <= 0 {
        Seq::empty()
    } else {
        let row = row_of(grid, n - 1);
        list_rows(grid, n - 1, keys, width) + list_row(
            row,
            columns(row),
            keys,
            keys_before(grid, n - 1),
            width,
        ) + seq![Piece::Newline]
    }
}

/// The key list of a table: the keys in the order of the grid, row by row,
/// each under its box of the diagram.
pub open spec fn key_list(grid: Seq<Seq<Mark>>, keys: Seq<Seq<char>>) -> Seq<Piece> {
    list_rows(grid, grid.len() as int, keys, max_width(keys) as int)
}

/// The texts of `pieces`, one behind the other.
pub open spec fn text_of(pieces: Seq<Piece>) -> Seq<char>
    decreases pieces.len(),
{
    if pieces.len() == 0 {
        Seq::empty()
    } else {
        text_of(pieces.drop_last()) + pieces.last().text()
    }
}

/// The keys of a row are counted cell by cell.
pub proof fn lemma_keys_in_grows(row: Seq<Mark>, m: int, n: int)
    requires
        m <= n,
    ensures
        0 <= keys_in(row, m) <= keys_in(row, n),
    decreases n - m,
{
    if m < n {
        lemma_keys_in_grows(row, m, n - 1);
    } else {
        lemma_keys_in_positive(row, m);
    }
}

proof fn lemma_keys_in_positive(row: Seq<Mark>, n: int)
    ensures
        0 <= keys_in(row, n),
    decreases n,
{
    if n > 0 {
        lemma_keys_in_positive(row, n - 1);
    }
}

/// The keys of a grid are counted row by row.
pub proof fn lemma_keys_before_grows(grid: Seq<Seq<Mark>>, m: int, n: int)
    requires
        m <= n,
    ensures
        0 <= keys_before(grid, m) <= keys_before(grid, n),
    decreases n - m,
{
    if m < n {
        lemma_keys_before_grows(grid, m, n - 1);
        let row = row_of(grid, n - 1);
        lemma_keys_in_positive(row, row.len() as int);
    } else {
        lemma_keys_before_positive(grid, m);
    }
}

proof fn lemma_keys_before_positive(grid: Seq<Seq<Mark>>, n: int)
    ensures
        0 <= keys_before(grid, n),
    decreases n,
{
    if n > 0 {
        lemma_keys_before_positive(grid, n - 1);
        let row = row_of(grid, n - 1);
        lemma_keys_in_positive(row, row.len() as int);
    }
}

/// The width of a table is the length of one of its keys, and no key is
/// longer.
pub proof fn lemma_max_width(keys: Seq<Seq<char>>)
    ensures
        forall|i: int| 0 <= i < keys.len() ==> byte_len(#[trigger] keys[i]) <= max_width(keys),
        keys.len() > 0 ==> exists|i: int|
            0 <= i < keys.len() && byte_len(#[trigger] keys[i]) == max_width(keys),
    decreases keys.len(),
{
    if keys.len() > 0 {
        let before = keys.drop_last();
        lemma_max_width(before);
        assert forall|i: int| 0 <= i < keys.len() implies byte_len(#[trigger] keys[i])
            <= max_width(keys) by {
            if i < before.len() {
                assert(before[i] == keys[i]);
            }
        }
        if byte_len(keys.last()) > max_width(before) || before.len() == 0 {
            assert(byte_len(keys[keys.len() - 1]) == max_width(keys));
        } else {
            let i = choose|i: int|
                0 <= i < before.len() && byte_len(#[trigger] before[i]) == max_width(before);
            assert(before[i] == keys[i]);
            assert(byte_len(keys[i]) == max_width(keys));
        }
    }
}

/// The keys among `pieces`, in their order.
pub open spec fn keys_of(pieces: Seq<Piece>) -> Seq<Seq<char>>
    decreases pieces.len(),
{
    if pieces.len() == 0 {
        Seq::empty()
    } else {
        let before = keys_of(pieces.drop_last());
        match pieces.last() {
            Piece::Key(text) => before.push(text),
            _ => before,
        }
    }
}

/// What the key list holds for the keys from place `from` up to place
/// `to`: each key as it is shown, and a comma behind it unless it is the
/// last key of all.
pub open spec fn entries(keys: Seq<Seq<char>>, from: int, to: int) -> Seq<Seq<char>>
    decreases to - from,
{
    if to <= from {
        Seq::empty()
    } else {
        entries(keys, from, to - 1) + seq![shown(keys[to - 1])] + (if to < keys.len() {
            seq![","@]
        } else {
            Seq::empty()
        })
    }
}

/// Entry `i` of a list of keys with commas between them.
pub open spec fn entry(listed: Seq<Seq<char>>, i: int) -> Seq<char> {
    listed[2 * i]
}

/// What stands behind entry `i` of a list of keys with commas between them.
pub open spec fn separator(listed: Seq<Seq<char>>, i: int) -> Seq<char> {
    listed[2 * i + 1]
}

/// The keys among pieces with one more.
pub proof fn lemma_keys_of_push(pieces: Seq<Piece>, piece: Piece)
    ensures
        keys_of(pieces.push(piece)) == (match piece {
            Piece::Key(text) => keys_of(pieces).push(text),
            _ => keys_of(pieces),
        }),
{
    assert(pieces.push(piece).drop_last() =~= pieces);
}

/// The keys among pieces behind pieces are the keys among the first, and
/// behind them those among the second.
pub proof fn lemma_keys_of_concat(a: Seq<Piece>, b: Seq<Piece>)
    ensures
        keys_of(a + b) == keys_of(a) + keys_of(b),
    decreases b.len(),
{
    if b.len() == 0 {
        assert(a + b =~= a);
        assert(keys_of(a) + keys_of(b) =~= keys_of(a));
    } else {
        lemma_keys_of_concat(a, b.drop_last());
        assert((a + b).drop_last() =~= a + b.drop_last());
        assert((a + b).last() == b.last());
        assert(keys_of(a + b) =~= keys_of(a) + keys_of(b));
    }
}

/// There is no key among spaces.
pub proof fn lemma_keys_of_spaces(n: int)
    ensures
        keys_of(repeat(Piece::Space, n)) == Seq::<Seq<char>>::empty(),
    decreases n,
{
    if n > 0 {
        lemma_keys_of_spaces(n - 1);
        assert(repeat(Piece::Space, n).drop_last() =~= repeat(Piece::Space, n - 1));
    }
}

/// A cell of the key list holds the entry of its key, and none where it
/// has no key.
pub proof fn lemma_keys_of_list_cell(
    row: Seq<Mark>,
    j: int,
    keys: Seq<Seq<char>>,
    index: int,
    width: int,
)
    ensures
        keys_of(list_cell(row, j, keys, index, width)) == (if occupied(row, j) {
            entries(keys, index, index + 1)
        } else {
            Seq::empty()
        }),
{
    let none = Seq::<Piece>::empty();
    let lead = none.push(Piece::Space);
    let comma = occupied(row, j) && index + 1 < keys.len();
    let close = none.push(Piece::Space).push(
        if comma {
            Piece::Key(","@)
        } else {
            Piece::Space
        },
    );
    let used = byte_len(shown(keys[index])) as int;
    let middle = if occupied(row, j) {
        none.push(Piece::Key(shown(keys[index]))) + padding(used, width)
    } else {
        padding(0, width)
    };
    assert(list_cell(row, j, keys, index, width) =~= lead + middle + close);
    lemma_keys_of_push(none, Piece::Space);
    lemma_keys_of_push(none.push(Piece::Space), close.last());
    lemma_keys_of_push(none, Piece::Key(shown(keys[index])));
    lemma_keys_of_spaces(width - used);
    lemma_keys_of_spaces(width);
    lemma_keys_of_concat(none.push(Piece::Key(shown(keys[index]))), padding(used, width));
    lemma_keys_of_concat(lead, middle);
    lemma_keys_of_concat(lead + middle, close);
    assert(entries(keys, index, index) =~= Seq::<Seq<char>>::empty());
    assert(keys_of(list_cell(row, j, keys, index, width)) =~= (if occupied(row, j) {
        entries(keys, index, index + 1)
    } else {
        Seq::empty()
    }));
}

/// The first cells of a row of the key list hold the entries of their
/// keys.
pub proof fn lemma_keys_of_list_row(
    row: Seq<Mark>,
    n: int,
    keys: Seq<Seq<char>>,
    base: int,
    width: int,
)
    ensures
        keys_of(list_row(row, n, keys, base, width)) == entries(keys, base, base + keys_in(row, n)),
    decreases n,
{
    if n > 0 {
        let index = base + keys_in(row, n - 1);
        lemma_keys_of_list_row(row, n - 1, keys, base, width);
        lemma_keys_of_list_cell(row, n - 1, keys, index, width);
        lemma_keys_of_concat(
            list_row(row, n - 1, keys, base, width),
            list_cell(row, n - 1, keys, index, width),
        );
        lemma_keys_in_grows(row, 0, n - 1);
        assert(entries(keys, index, index) =~= Seq::<Seq<char>>::empty());
        assert(keys_of(list_row(row, n, keys, base, width)) =~= entries(
            keys,
            base,
            base + keys_in(row, n),
        ));
    }
}

/// The entries of keys that follow one another follow one another.
pub proof fn lemma_entries_join(keys: Seq<Seq<char>>, a: int, b: int, c: int)
    requires
        a <= b <= c,
    ensures
        entries(keys, a, b) + entries(keys, b, c) == entries(keys, a, c),
    decreases c - b,
{
    if b < c {
        lemma_entries_join(keys, a, b, c - 1);
        assert(entries(keys, a, b) + entries(keys, b, c) =~= entries(keys, a, c));
    } else {
        assert(entries(keys, a, b) + entries(keys, b, c) =~= entries(keys, a, c));
    }
}

/// The first rows of the key list hold the entries of their keys.
pub proof fn lemma_keys_of_list_rows(grid: Seq<Seq<Mark>>, n: int, keys: Seq<Seq<char>>, width: int)
    ensures
        keys_of(list_rows(grid, n, keys, width)) == entries(keys, 0, keys_before(grid, n)),
    decreases n,
{
    if n > 0 {
        let row = row_of(grid, n - 1);
        let base = keys_before(grid, n - 1);
        let cells = list_row(row, columns(row), keys, base, width);
        lemma_keys_of_list_rows(grid, n - 1, keys, width);
        lemma_keys_of_list_row(row, columns(row), keys, base, width);
        lemma_keys_of_concat(list_rows(grid, n - 1, keys, width), cells);
        lemma_keys_of_push(list_rows(grid, n - 1, keys, width) + cells, Piece::Newline);
        assert(list_rows(grid, n, keys, width) =~= (list_rows(grid, n - 1, keys, width)
            + cells).push(Piece::Newline));
        lemma_keys_before_grows(grid, 0, n - 1);
        lemma_keys_in_grows(row, 0, row.len() as int);
        assert(keys_in(row, columns(row)) == keys_in(row, row.len() as int));
        lemma_entries_join(keys, 0, base, keys_before(grid, n));
    }
}

/// The entries of the first keys: a key at every even place, and a comma
/// behind every key but the last of all.
pub proof fn lemma_entries_shape(keys: Seq<Seq<char>>, m: int)
    requires
        0 <= m <= keys.len(),
    ensures
        entries(keys, 0, m).len() == (if m < keys.len() {
            2 * m
        } else if m == 0 {
            0
        } else {
            2 * m - 1
        }),
        forall|i: int| 0 <= i < m ==> #[trigger] entry(entries(keys, 0, m), i) == shown(keys[i]),
        forall|i: int|
            0 <= i < m && i + 1 < keys.len() ==> #[trigger] separator(entries(keys, 0, m), i)
                == ","@,
    decreases m,
{
    if m > 0 {
        lemma_entries_shape(keys, m - 1);
        let before = entries(keys, 0, m - 1);
        let all = entries(keys, 0, m);
        assert(before.len() == 2 * (m - 1));
        assert forall|i: int| 0 <= i < m implies #[trigger] entry(all, i) == shown(keys[i]) by {
            if i < m - 1 {
                assert(entry(before, i) == shown(keys[i]));
                assert(all[2 * i] == before[2 * i]);
            }
        }
        assert forall|i: int| 0 <= i < m && i + 1 < keys.len() implies #[trigger] separator(
            all,
            i,
        ) == ","@ by {
            if i < m - 1 {
                assert(separator(before, i) == ","@);
                assert(all[2 * i + 1] == before[2 * i + 1]);
            }
        }
    }
}

/// The key list gives the keys back: between its spaces and line ends it
/// holds one entry for each key, in the order of the keys, which is the
/// order of their cells in the grid, row by row. An entry is the key, or
/// seven underscores for an empty key. A comma stands behind every entry
/// but the last, and nowhere else.
pub proof fn lemma_key_list_round_trip(grid: Seq<Seq<Mark>>, keys: Seq<Seq<char>>)
    requires
        keys.len() == occupied_count(grid),
    ensures
        keys_of(key_list(grid, keys)).len() == (if keys.len() == 0 {
            0
        } else {
            2 * keys.len() - 1
        }),
        forall|i: int|
            0 <= i < keys.len() ==> #[trigger] entry(keys_of(key_list(grid, keys)), i) == shown(
                keys[i],
            ),
        forall|i: int|
            0 <= i < keys.len() - 1 ==> #[trigger] separator(keys_of(key_list(grid, keys)), i)
                == ","@,
{
    lemma_keys_of_list_rows(grid, grid.len() as int, keys, max_width(keys) as int);
    lemma_entries_shape(keys, keys.len() as int);
}

fn push_piece(out: &mut Vec<Element>, element: Element)
    ensures
        final(out).deep_view() == old(out).deep_view().push(element@),
{
    out.push(element);
    assert(out.deep_view() =~= old(out).deep_view().push(element@));
}

/// Appends `to - from` copies of `element`, or none where `to` is not
/// behind `from`.
fn push_repeated(out: &mut Vec<Element>, element: &Element, from: usize, to: usize)
    ensures
        final(out).deep_view() == old(out).deep_view() + repeat(element@, to - from),
{
    let mut i = from;
    assert(out.deep_view() =~= old(out).deep_view() + repeat(element@, 0));
    while i < to
        invariant
            from <= i,
            from <= to ==> i <= to,
            from > to ==> i == from,
            out.deep_view() == old(out).deep_view() + repeat(element@, i - from),
        decreases to - i,
    {
        let ghost before = out.deep_view();
        push_piece(out, element.clone());
        i = i + 1;
        assert(out.deep_view() =~= old(out).deep_view() + repeat(element@, i - from));
    }
    assert(repeat(element@, i - from) =~= repeat(element@, to - from));
}

/// Whether the cell in column `j` of `row` holds a key.
fn is_key(row: &Vec<Mark>, j: usize) -> (yes: bool)
    ensures
        yes == occupied(row@, j as int),
{
    if j < row.len() {
        match row[j] {
            Mark::K => true,
            Mark::B => false,
        }
    } else {
        false
    }
}

/// Whether the cell left of column `j` of `row` holds a key.
fn is_key_before(row: &Vec<Mark>, j: usize) -> (yes: bool)
    ensures
        yes == occupied(row@, j - 1),
{
    j > 0 && is_key(row, j - 1)
}

/// The glyph at a point where four cells meet, looked up under the four
/// cells as the bits of a number.
pub fn corner_element(nw: bool, ne: bool, sw: bool, se: bool) -> (element: Element)
    ensures
        element@ == corner(nw, ne, sw, se),
{
    let mut mask: u8 = 0;
    if nw {
        mask = mask + 8;
    }
    if ne {
        mask = mask + 4;
    }
    if sw {
        mask = mask + 2;
    }
    if se {
        mask = mask + 1;
    }
    match mask {
        0 => Element::Space,
        1 => Element::TopLeft,
        2 => Element::TopRight,
        3 => Element::TopT,
        4 => Element::BottomLeft,
        5 => Element::LeftT,
        8 => Element::BottomRight,
        10 => Element::RightT,
        12 => Element::BottomT,
        _ => Element::Plus,
    }
}

fn push_fill(out: &mut Vec<Element>, on: bool, width: usize)
    ensures
        final(out).deep_view() == old(out).deep_view() + fill(on, width as int),
{
    let element = if on {
        Element::Horizontal
    } else {
        Element::Space
    };
    push_repeated(out, &element, 0, width);
    push_piece(out, element.clone());
    push_piece(out, element.clone());
    assert(out.deep_view() =~= old(out).deep_view() + fill(on, width as int));
}

fn push_edge_cell(
    out: &mut Vec<Element>,
    upper: &Vec<Mark>,
    lower: &Vec<Mark>,
    j: usize,
    width: usize,
)
    ensures
        final(out).deep_view() == old(out).deep_view() + edge_cell(
            upper@,
            lower@,
            j as int,
            width as int,
        ),
{
    let above = is_key(upper, j);
    let below = is_key(lower, j);
    push_piece(out, corner_element(is_key_before(upper, j), above, is_key_before(lower, j), below));
    push_fill(out, above || below, width);
    assert(out.deep_view() =~= old(out).deep_view() + edge_cell(
        upper@,
        lower@,
        j as int,
        width as int,
    ));
}

/// Appends the line between the rows `upper` and `lower`, over `columns`
/// columns and one more.
fn push_edge(
    out: &mut Vec<Element>,
    upper: &Vec<Mark>,
    lower: &Vec<Mark>,
    columns: usize,
    width: usize,
)
    ensures
        final(out).deep_view() == old(out).deep_view() + edge(
            upper@,
            lower@,
            columns + 1,
            width as int,
        ),
{
    let mut j: usize = 0;
    assert(out.deep_view() =~= old(out).deep_view() + edge(upper@, lower@, 0, width as int));
    while j < columns
        invariant
            j <= columns,
            out.deep_view() == old(out).deep_view() + edge(upper@, lower@, j as int, width as int),
        decreases columns - j,
    {
        push_edge_cell(out, upper, lower, j, width);
        j = j + 1;
        assert(out.deep_view() =~= old(out).deep_view() + edge(
            upper@,
            lower@,
            j as int,
            width as int,
        ));
    }
    push_edge_cell(out, upper, lower, columns, width);
    assert(out.deep_view() =~= old(out).deep_view() + edge(
        upper@,
        lower@,
        columns + 1,
        width as int,
    ));
}

fn push_key_cell(
    out: &mut Vec<Element>,
    row: &Vec<Mark>,
    j: usize,
    keys: &Vec<String>,
    index: usize,
    width: usize,
)
    requires
        occupied(row@, j as int) ==> index < keys.len(),
    ensures
        final(out).deep_view() == old(out).deep_view() + key_cell(
            row@,
            j as int,
            keys.deep_view(),
            index as int,
            width as int,
        ),
{
    let here = is_key(row, j);
    let bar = if is_key_before(row, j) || here {
        Element::Vertical
    } else {
        Element::Space
    };
    push_piece(out, bar);
    push_piece(out, Element::Space);
    if here {
        let key = &keys[index];
        push_piece(out, Element::Key(key.clone()));
        push_repeated(out, &Element::Space, text_len(key.as_str()), width);
    } else {
        push_repeated(out, &Element::Space, 0, width);
    }
    push_piece(out, Element::Space);
    assert(out.deep_view() =~= old(out).deep_view() + key_cell(
        row@,
        j as int,
        keys.deep_view(),
        index as int,
        width as int,
    ));
}

fn push_list_cell(
    out: &mut Vec<Element>,
    row: &Vec<Mark>,
    j: usize,
    keys: &Vec<String>,
    index: usize,
    width: usize,
)
    requires
        occupied(row@, j as int) ==> index < keys.len(),
    ensures
        final(out).deep_view() == old(out).deep_view() + list_cell(
            row@,
            j as int,
            keys.deep_view(),
            index as int,
            width as int,
        ),
{
    let here = is_key(row, j);
    push_piece(out, Element::Space);
    if here {
        let key = &keys[index];
        let text = if key.as_str().is_empty() {
            String::from_str("_______")
        } else {
            key.clone()
        };
        let used = text_len(text.as_str());
        push_piece(out, Element::Key(text));
        push_repeated(out, &Element::Space, used, width);
    } else {
        push_repeated(out, &Element::Space, 0, width);
    }
    push_piece(out, Element::Space);
    if here && index + 1 < keys.len() {
        push_piece(out, Element::Key(String::from_str(",")));
    } else {
        push_piece(out, Element::Space);
    }
    assert(out.deep_view() =~= old(out).deep_view() + list_cell(
        row@,
        j as int,
        keys.deep_view(),
        index as int,
        width as int,
    ));
}

/// Appends a row of the diagram, or of the key list where `list` is set.
/// The keys of the row start at `keys[base]`; returned is where those of
/// the next row start.
fn push_row(
    out: &mut Vec<Element>,
    row: &Vec<Mark>,
    keys: &Vec<String>,
    base: usize,
    width: usize,
    list: bool,
) -> (next: usize)
    requires
        base + keys_in(row@, row@.len() as int) <= keys.len(),
    ensures
        next == base + keys_in(row@, row@.len() as int),
        list ==> final(out).deep_view() == old(out).deep_view() + list_row(
            row@,
            columns(row@),
            keys.deep_view(),
            base as int,
            width as int,
        ),
        !list ==> final(out).deep_view() == old(out).deep_view() + key_row(
            row@,
            columns(row@),
            keys.deep_view(),
            base as int,
            width as int,
        ),
{
    let ghost texts = keys.deep_view();
    let columns = row.len();
    let mut index = base;
    let mut j: usize = 0;
    assert(out.deep_view() =~= old(out).deep_view() + list_row(row@, 0, texts, base as int, width as int));
    assert(out.deep_view() =~= old(out).deep_view() + key_row(row@, 0, texts, base as int, width as int));
    while j < columns
        invariant
            j <= columns == row@.len(),
            texts == keys.deep_view(),
            base + keys_in(row@, row@.len() as int) <= keys.len(),
            index == base + keys_in(row@, j as int),
            list ==> out.deep_view() == old(out).deep_view() + list_row(
                row@,
                j as int,
                texts,
                base as int,
                width as int,
            ),
            !list ==> out.deep_view() == old(out).deep_view() + key_row(
                row@,
                j as int,
                texts,
                base as int,
                width as int,
            ),
        decreases columns - j,
    {
        proof {
            lemma_keys_in_grows(row@, j + 1, row@.len() as int);
        }
        if list {
            push_list_cell(out, row, j, keys, index, width);
        } else {
            push_key_cell(out, row, j, keys, index, width);
        }
        if is_key(row, j) {
            index = index + 1;
        }
        j = j + 1;
        assert(list ==> out.deep_view() =~= old(out).deep_view() + list_row(
            row@,
            j as int,
            texts,
            base as int,
            width as int,
        ));
        assert(!list ==> out.deep_view() =~= old(out).deep_view() + key_row(
            row@,
            j as int,
            texts,
            base as int,
            width as int,
        ));
    }
    if list {
        push_list_cell(out, row, columns, keys, index, width);
    } else {
        push_key_cell(out, row, columns, keys, index, width);
    }
    assert(list ==> out.deep_view() =~= old(out).deep_view() + list_row(
        row@,
        columns + 1,
        texts,
        base as int,
        width as int,
    ));
    assert(!list ==> out.deep_view() =~= old(out).deep_view() + key_row(
        row@,
        columns + 1,
        texts,
        base as int,
        width as int,
    ));
    index
}

/// The length in bytes of the longest of `keys`.
fn longest(keys: &Vec<String>) -> (width: usize)
    ensures
        width == max_width(keys.deep_view()),
{
    let ghost texts = keys.deep_view();
    let mut width: usize = 0;
    let mut i: usize = 0;
    assert(texts.take(0) =~= Seq::<Seq<char>>::empty());
    while i < keys.len()
        invariant
            i <= keys.len(),
            texts == keys.deep_view(),
            width == max_width(texts.take(i as int)),
        decreases keys.len() - i,
    {
        let n = text_len(keys[i].as_str());
        assert(texts.take(i + 1).drop_last() =~= texts.take(i as int));
        assert(texts.take(i + 1).last() == keys[i as int]@);
        if n > width {
            width = n;
        }
        i = i + 1;
    }
    assert(texts.take(i as int) =~= texts);
    width
}

/// Whether `layout` holds as many keys as `keymap` gives.
pub fn fits(keymap: &KeymapStatement, layout: &Layout) -> (yes: bool)
    ensures
        yes == (keymap@.layout_statement.keys.len() == occupied_count(grid_of(layout@))),
{
    let ghost grid = grid_of(layout@);
    let wanted = keymap.layout_statement.keys.len();
    assert(keymap.layout_statement.keys.deep_view().len() == wanted);
    let mut found: usize = 0;
    let mut i: usize = 0;
    while i < layout.len()
        invariant
            i <= layout.len(),
            grid == grid_of(layout@),
            wanted == keymap@.layout_statement.keys.len(),
            found == keys_before(grid, i as int),
            found <= wanted,
        decreases layout.len() - i,
    {
        let row = &layout[i];
        assert(row_of(grid, i as int) == row@);
        let mut j: usize = 0;
        while j < row.len()
            invariant
                j <= row.len(),
                i < layout.len(),
                grid == grid_of(layout@),
                wanted == keymap@.layout_statement.keys.len(),
                row_of(grid, i as int) == row@,
                found == keys_before(grid, i as int) + keys_in(row@, j as int),
                found <= wanted,
            decreases row.len() - j,
        {
            if is_key(row, j) {
                if found == wanted {
                    proof {
                        lemma_keys_in_grows(row@, j + 1, row@.len() as int);
                        lemma_keys_before_grows(grid, i + 1, grid.len() as int);
                    }
                    return false;
                }
                found = found + 1;
            }
            j = j + 1;
        }
        i = i + 1;
    }
    found == wanted
}

/// The number of keys that `layout` holds, unless it is greater than any
/// `usize`.
pub fn count_keys(layout: &Layout) -> (count: Option<usize>)
    ensures
        match count {
            Some(count) => count == occupied_count(grid_of(layout@)),
            None => occupied_count(grid_of(layout@)) > usize::MAX,
        },
{
    let ghost grid = grid_of(layout@);
    let mut found: usize = 0;
    let mut i: usize = 0;
    while i < layout.len()
        invariant
            i <= layout.len(),
            grid == grid_of(layout@),
            found == keys_before(grid, i as int),
        decreases layout.len() - i,
    {
        let row = &layout[i];
        assert(row_of(grid, i as int) == row@);
        let mut j: usize = 0;
        while j < row.len()
            invariant
                j <= row.len(),
                i < layout.len(),
                grid == grid_of(layout@),
                row_of(grid, i as int) == row@,
                found == keys_before(grid, i as int) + keys_in(row@, j as int),
            decreases row.len() - j,
        {
            if is_key(row, j) {
                if found == usize::MAX {
                    proof {
                        lemma_keys_in_grows(row@, j + 1, row@.len() as int);
                        lemma_keys_before_grows(grid, i + 1, grid.len() as int);
                    }
                    return None;
                }
                found = found + 1;
            }
            j = j + 1;
        }
        i = i + 1;
    }
    Some(found)
}

/// Renders a table over a grid that holds as many keys as the table gives:
/// the diagram of the table, and its key list.
pub fn get_keymap_format(keymap: &KeymapStatement, layout: Layout) -> (rendered: (
    Vec<Element>,
    Vec<Element>,
))
    requires
        keymap@.layout_statement.keys.len() == occupied_count(grid_of(layout@)),
    ensures
        rendered.0.deep_view() == diagram(grid_of(layout@), keymap@.layout_statement.keys),
        rendered.1.deep_view() == key_list(grid_of(layout@), keymap@.layout_statement.keys),
{
    render(keymap, &layout)
}

/// Renders a table as `get_keymap_format` does, over a grid that is only
/// lent.
pub fn render(keymap: &KeymapStatement, layout: &Layout) -> (rendered: (Vec<Element>, Vec<Element>))
    requires
        keymap@.layout_statement.keys.len() == occupied_count(grid_of(layout@)),
    ensures
        rendered.0.deep_view() == diagram(grid_of(layout@), keymap@.layout_statement.keys),
        rendered.1.deep_view() == key_list(grid_of(layout@), keymap@.layout_statement.keys),
{
    let ghost grid = grid_of(layout@);
    let ghost texts = keymap@.layout_statement.keys;
    let keys = &keymap.layout_statement.keys;
    let width = longest(keys);
    let rows = layout.len();
    let none: Vec<Mark> = Vec::new();
    assert(none@ =~= Seq::<Mark>::empty());
    let mut output: Vec<Element> = Vec::new();
    let mut output2: Vec<Element> = Vec::new();
    assert(output.deep_view() =~= Seq::<Piece>::empty());
    assert(output2.deep_view() =~= Seq::<Piece>::empty());

    push_piece(&mut output, Element::LineStart);
    if rows > 0 {
        assert(row_of(grid, 0) == layout[0]@);
        push_edge(&mut output, &none, &layout[0], layout[0].len(), width);
    } else {
        push_edge(&mut output, &none, &none, 0, width);
    }
    push_piece(&mut output, Element::Newline);
    let ghost head = output.deep_view();
    assert(head =~= seq![Piece::LineStart] + edge(
        Seq::empty(),
        row_of(grid, 0),
        columns(row_of(grid, 0)),
        width as int,
    ) + seq![Piece::Newline]);

    let mut index: usize = 0;
    let mut i: usize = 0;
    assert(output.deep_view() =~= head + diagram_rows(grid, 0, texts, width as int));
    assert(output2.deep_view() =~= list_rows(grid, 0, texts, width as int));
    while i < rows
        invariant
            i <= rows == layout.len(),
            grid == grid_of(layout@),
            texts == keys.deep_view(),
            texts.len() == occupied_count(grid),
            index == keys_before(grid, i as int),
            output.deep_view() == head + diagram_rows(grid, i as int, texts, width as int),
            output2.deep_view() == list_rows(grid, i as int, texts, width as int),
        decreases rows - i,
    {
        let row = &layout[i];
        let ghost drawn = output.deep_view();
        let ghost listed = output2.deep_view();
        proof {
            assert(row_of(grid, i as int) == row@);
            lemma_keys_before_grows(grid, i + 1, grid.len() as int);
        }
        push_piece(&mut output, Element::LineStart);
        let next = push_row(&mut output, row, keys, index, width, false);
        push_piece(&mut output, Element::Newline);
        let _ = push_row(&mut output2, row, keys, index, width, true);
        push_piece(&mut output2, Element::Newline);
        if i + 1 < rows {
            assert(row_of(grid, i + 1) == layout[i + 1]@);
            push_piece(&mut output, Element::LineStart);
            push_edge(&mut output, row, &layout[i + 1], row.len(), width);
            push_piece(&mut output, Element::Newline);
        }
        assert(output.deep_view() =~= drawn + diagram_row(grid, i as int, texts, width as int));
        assert(output2.deep_view() =~= list_rows(grid, i + 1, texts, width as int));
        index = next;
        i = i + 1;
    }
    let ghost body = output.deep_view();
    push_piece(&mut output, Element::LineStart);
    if rows > 0 {
        assert(row_of(grid, grid.len() - 1) == layout[rows - 1]@);
        push_edge(&mut output, &layout[rows - 1], &none, layout[rows - 1].len(), width);
    } else {
        push_edge(&mut output, &none, &none, 0, width);
    }
    assert(output.deep_view() =~= diagram(grid, texts));
    (output, output2)
}

/// The text of `keymap_format`: the texts of its elements, one behind the
/// other.
pub fn get_keymap_string(keymap_format: Vec<Element>) -> (s: String)
    ensures
        s@ == text_of(keymap_format.deep_view()),
{
    let ghost pieces = keymap_format.deep_view();
    let mut s = String::new();
    let mut i: usize = 0;
    assert(pieces.take(0) =~= Seq::<Piece>::empty());
    while i < keymap_format.len()
        invariant
            i <= keymap_format.len(),
            pieces == keymap_format.deep_view(),
            s@ == text_of(pieces.take(i as int)),
        decreases keymap_format.len() - i,
    {
        let text = keymap_format[i].to_string();
        assert(pieces.take(i + 1).drop_last() =~= pieces.take(i as int));
        assert(pieces.take(i + 1).last() == keymap_format[i as int]@);
        s.append(text.as_str());
        i = i + 1;
    }
    assert(pieces.take(i as int) =~= pieces);
    s
}

} // verus!
