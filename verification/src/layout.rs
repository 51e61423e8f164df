//! What the editor draws: the rows of a text area, the rows of a text cut to a box, the text
//! in a node's box, and the strokes of a connection line.
use vstd::prelude::*;

use crate::command::{split_at, split_on};
use crate::editor::{Editor, InputView, Node, NodeView};
use crate::value::{decimal_text, usize_to_text};

verus! {

broadcast use vstd::string::group_string_axioms;

/// The number of bytes a text takes in UTF-8.
pub open spec fn byte_len(s: Seq<char>) -> nat {
    vstd::utf8::encode_utf8(s).len()
}

/// `n` spaces.
pub open spec fn spaces(n: nat) -> Seq<char> {
    Seq::new(n, |i: int| ' ')
}

/// The length, in characters, of the longest line; 0 when there is none.
pub open spec fn longest(lines: Seq<Seq<char>>) -> nat
    decreases lines.len(),
{
    if lines.len() == 0 {
        0
    } else {
        let m = longest(lines.drop_last());
        if lines.last().len() > m {
            lines.last().len()
        } else {
            m
        }
    }
}

/// The lines of a text.
pub open spec fn lines_of(text: Seq<char>) -> Seq<Seq<char>> {
    split_on(text, '\n')
}

/// The rows of a text area: each line followed by spaces, as many as the longest line has
/// characters minus the line's bytes.
pub open spec fn padded_rows(lines: Seq<Seq<char>>, width: nat) -> Seq<Seq<char>> {
    Seq::new(lines.len(), |i: int| lines[i] + spaces((width - byte_len(lines[i])) as nat))
}

/// A line fitted to width `w`: a longer line keeps its first `w - 1` characters followed by a
/// hyphen (no hyphen when the longest line has one character); a line that fits is followed by
/// spaces, as many as `w` minus its bytes.
pub open spec fn cut_row(line: Seq<char>, w: nat, widest: nat) -> Seq<char> {
    if line.len() > w {
        line.take(w - 1) + if widest > 1 {
            seq!['-']
        } else {
            Seq::empty()
        }
    } else {
        line + spaces((w - byte_len(line)) as nat)
    }
}

/// The rows of a text cut to a box of width `w` and height `h`: none when the longest line is
/// empty, else the first `h` lines, each fitted to the width.
pub open spec fn cut_rows(lines: Seq<Seq<char>>, w: nat, h: nat) -> Seq<Seq<char>> {
    let n = if lines.len() < h {
        lines.len()
    } else {
        h
    };
    if longest(lines) == 0 {
        Seq::empty()
    } else {
        Seq::new(n, |i: int| cut_row(lines[i], w, longest(lines)))
    }
}

/// The lines of a text can be fitted to width `w` without the subtractions underflowing: a
/// line longer than `w` needs `w` at least 1, and a line that fits needs its bytes within `w`.
pub open spec fn line_fits(line: Seq<char>, w: nat) -> bool {
    if line.len() > w {
        w >= 1
    } else {
        byte_len(line) <= w
    }
}

/// The rows of a text area and its size.
#[derive(Debug)]
pub struct TextArea {
    pub rows: Vec<String>,
    pub width: usize,
    pub height: usize,
}

/// The views of a sequence of texts.
pub open spec fn texts(v: Seq<String>) -> Seq<Seq<char>> {
    v.map_values(|s: String| s@)
}

/// `n` spaces.
fn spaces_text(n: usize) -> (text: String)
    ensures
        text@ == spaces(n as nat),
{
    let mut text = String::new();
    let mut i: usize = 0;
    while i < n
        invariant
            i <= n,
            text@ == spaces(i as nat),
        decreases n - i,
    {
        proof {
            reveal_strlit(" ");
        }
        text.append(" ");
        i += 1;
        assert(text@ =~= spaces(i as nat));
    }
    text
}

/// The length, in characters, of the longest text.
fn longest_line(lines: &Vec<String>) -> (widest: usize)
    ensures
        widest == longest(texts(lines@)),
{
    let ghost v = texts(lines@);
    let mut widest: usize = 0;
    let mut i: usize = 0;
    assert(v.take(0) =~= Seq::<Seq<char>>::empty());
    while i < lines.len()
        invariant
            i <= lines.len(),
            v == texts(lines@),
            widest == longest(v.take(i as int)),
        decreases lines.len() - i,
    {
        let n = lines[i].as_str().unicode_len();
        assert(v.take(i + 1).drop_last() =~= v.take(i as int));
        assert(v.take(i + 1).last() == lines@[i as int]@);
        if n > widest {
            widest = n;
        }
        i += 1;
    }
    assert(v.take(i as int) =~= v);
    widest
}

/// `line` followed by `n` spaces.
fn padded(line: &str, n: usize) -> (row: String)
    ensures
        row@ == line@ + spaces(n as nat),
{
    let mut row = line.to_string();
    let pad = spaces_text(n);
    row.append(pad.as_str());
    row
}

/// No line of a text area has more bytes than the longest line has characters, so that the
/// padding of each line can be counted.
pub open spec fn area_fits(lines: Seq<Seq<char>>) -> bool {
    forall|i: int| 0 <= i < lines.len() ==> byte_len(#[trigger] lines[i]) <= longest(lines)
}

/// Whether every text has at most `widest` bytes.
fn all_within(lines: &Vec<String>, widest: usize) -> (ok: bool)
    ensures
        ok == forall|i: int| 0 <= i < lines@.len() ==> byte_len(#[trigger] texts(lines@)[i]) <= widest,
{
    let mut i: usize = 0;
    while i < lines.len()
        invariant
            i <= lines.len(),
            forall|j: int| 0 <= j < i ==> byte_len(#[trigger] texts(lines@)[j]) <= widest,
        decreases lines.len() - i,
    {
        let line = lines[i].as_str();
        assert(line@ == texts(lines@)[i as int]);
        let bytes = line.as_bytes().len();
        if bytes > widest {
            return false;
        }
        assert(byte_len(texts(lines@)[i as int]) <= widest);
        i += 1;
    }
    true
}

/// Lays out a text as the editor draws it in an area: its lines, padded with spaces to the
/// longest line, and the area's width (the longest line's length) and height (the number of
/// lines); an empty area when every line is empty. `None` when a line has more bytes than the
/// longest line has characters, so that its padding cannot be counted.
pub fn textarea(text: &str) -> (area: Option<TextArea>)
    ensures
        area is None <==> longest(lines_of(text@)) > 0 && !area_fits(lines_of(text@)),
        longest(lines_of(text@)) == 0 ==> (area matches Some(a) && a.rows@.len() == 0 && a.width == 0
            && a.height == 0),
        longest(lines_of(text@)) > 0 ==> (area matches Some(a) ==> {
            &&& a.width == longest(lines_of(text@))
            &&& a.height == lines_of(text@).len()
            &&& texts(a.rows@) == padded_rows(lines_of(text@), longest(lines_of(text@)))
        }),
{
    let lines = split_at(text, '\n');
    let ghost ls = lines_of(text@);
    assert(texts(lines@) == ls);
    let widest = longest_line(&lines);
    if widest == 0 {
        return Some(TextArea { rows: Vec::new(), width: 0, height: 0 });
    }
    if !all_within(&lines, widest) {
        return None;
    }
    let mut rows: Vec<String> = Vec::new();
    let mut i: usize = 0;
    while i < lines.len()
        invariant
            i <= lines.len(),
            ls == texts(lines@),
            widest == longest(ls),
            forall|j: int| 0 <= j < ls.len() ==> byte_len(#[trigger] ls[j]) <= longest(ls),
            texts(rows@) == padded_rows(ls, widest as nat).take(i as int),
        decreases lines.len() - i,
    {
        let line = lines[i].as_str();
        assert(line@ == ls[i as int]);
        assert(byte_len(ls[i as int]) <= widest);
        let bytes = line.len();
        let row = padded(line, widest - bytes);
        let ghost before = rows@;
        rows.push(row);
        assert(rows@ == before.push(row));
        assert(texts(rows@) =~= texts(before).push(row@));
        assert(row@ == padded_rows(ls, widest as nat)[i as int]);
        assert(padded_rows(ls, widest as nat).take(i + 1) =~= padded_rows(ls, widest as nat).take(
            i as int,
        ).push(padded_rows(ls, widest as nat)[i as int]));
        i += 1;
    }
    assert(padded_rows(ls, widest as nat).take(i as int) =~= padded_rows(ls, widest as nat));
    Some(TextArea { rows, width: widest, height: lines.len() })
}

/// Each of the first `h` lines can be fitted to width `w`.
pub open spec fn rows_fit(lines: Seq<Seq<char>>, w: nat, h: nat) -> bool {
    forall|i: int| 0 <= i < lines.len() && i < h ==> line_fits(#[trigger] lines[i], w)
}

/// Whether each of the first `h` texts can be fitted to width `w`.
fn first_lines_fit(lines: &Vec<String>, w: usize, h: usize) -> (ok: bool)
    ensures
        ok == rows_fit(texts(lines@), w as nat, h as nat),
{
    let mut i: usize = 0;
    while i < lines.len() && i < h
        invariant
            i <= lines.len(),
            forall|j: int| 0 <= j < i && j < h ==> line_fits(#[trigger] texts(lines@)[j], w as nat),
        decreases lines.len() - i,
    {
        let line = lines[i].as_str();
        assert(line@ == texts(lines@)[i as int]);
        let fits = if line.unicode_len() > w {
            w >= 1
        } else {
            line.as_bytes().len() <= w
        };
        if !fits {
            assert(!line_fits(texts(lines@)[i as int], w as nat));
            return false;
        }
        assert(line_fits(texts(lines@)[i as int], w as nat));
        i += 1;
    }
    true
}

/// Lays out a text as the editor draws it cut to a box of width `w` and height `h`: the first
/// `h` lines, each fitted to the width; no rows when every line is empty. `None` when one of
/// those lines cannot be fitted: a longer line with no room for its hyphen, or a shorter line
/// with more bytes than the width.
pub fn fitted_rows(text: &str, w: usize, h: usize) -> (rows: Option<Vec<String>>)
    ensures
        rows is None <==> longest(lines_of(text@)) > 0 && !rows_fit(lines_of(text@), w as nat, h as nat),
        rows matches Some(r) ==> texts(r@) == cut_rows(lines_of(text@), w as nat, h as nat),
{
    let lines = split_at(text, '\n');
    let ghost ls = lines_of(text@);
    assert(texts(lines@) == ls);
    let widest = longest_line(&lines);
    let mut rows: Vec<String> = Vec::new();
    if widest == 0 {
        assert(texts(rows@) =~= cut_rows(ls, w as nat, h as nat));
        return Some(rows);
    }
    if !first_lines_fit(&lines, w, h) {
        return None;
    }
    let n = if lines.len() < h {
        lines.len()
    } else {
        h
    };
    let ghost target = cut_rows(ls, w as nat, h as nat);
    let mut i: usize = 0;
    while i < n
        invariant
            i <= n,
            n <= lines.len(),
            n == target.len(),
            ls == texts(lines@),
            widest == longest(ls),
            widest > 0,
            target == cut_rows(ls, w as nat, h as nat),
            forall|j: int| 0 <= j < ls.len() && j < h ==> line_fits(#[trigger] ls[j], w as nat),
            texts(rows@) == target.take(i as int),
        decreases n - i,
    {
        let line = lines[i].as_str();
        assert(line@ == ls[i as int]);
        assert(line_fits(ls[i as int], w as nat));
        proof {
            reveal_strlit("-");
        }
        let chars = line.unicode_len();
        let row = if chars > w {
            let mut cut = line.substring_char(0, w - 1).to_string();
            assert(cut@ =~= ls[i as int].take(w - 1));
            if widest > 1 {
                cut.append("-");
            }
            cut
        } else {
            let bytes = line.len();
            padded(line, w - bytes)
        };
        assert(row@ =~= cut_row(ls[i as int], w as nat, widest as nat));
        let ghost before = rows@;
        rows.push(row);
        assert(rows@ == before.push(row));
        assert(texts(rows@) =~= texts(before).push(row@));
        assert(target[i as int] == cut_row(ls[i as int], w as nat, widest as nat));
        assert(target.take(i + 1) =~= target.take(i as int).push(target[i as int]));
        i += 1;
    }
    assert(target.take(i as int) =~= target);
    Some(rows)
}

/// The line of a node's box for one input socket: a new line, a space, the label, and room
/// for the value.
pub open spec fn input_line(label: Seq<char>, room: nat) -> Seq<char> {
    "\n "@ + label + spaces(room + 2)
}

/// The lines of a node's box for its input sockets.
pub open spec fn inputs_text(s: Seq<InputView>, room: nat) -> Seq<char>
    decreases s.len(),
{
    if s.len() == 0 {
        Seq::empty()
    } else {
        inputs_text(s.drop_last(), room) + input_line(s.last().label, room)
    }
}

/// The text in a node's box: the title in brackets, a line for each input socket with room
/// for its value, and the node's id.
pub open spec fn node_text_of(v: NodeView, room: nat) -> Seq<char> {
    " ["@ + v.title + "] "@ + inputs_text(v.inputs, room) + "\n (id: "@ + decimal_text(v.id as int) + ")"@
}

/// The text the editor draws in a node's box, with `default_value_display_length` columns of
/// room for each input's value.
pub fn node_text(node: &Node, default_value_display_length: usize) -> (text: String)
    requires
        default_value_display_length + 2 <= usize::MAX,
    ensures
        text@ == node_text_of(node@, default_value_display_length as nat),
{
    let ghost v = node@;
    let mut text = " [".to_string();
    text.append(node.get_title());
    text.append("] ");
    let n = node.input_count();
    let mut i: usize = 0;
    assert(v.inputs.take(0) =~= Seq::<InputView>::empty());
    while i < n
        invariant
            i <= n,
            n == v.inputs.len(),
            v == node@,
            default_value_display_length + 2 <= usize::MAX,
            text@ == " ["@ + v.title + "] "@ + inputs_text(v.inputs.take(i as int), default_value_display_length as nat),
        decreases n - i,
    {
        let input = node.get_input(i);
        text.append("\n ");
        text.append(input.get_label());
        let room = spaces_text(default_value_display_length + 2);
        text.append(room.as_str());
        assert(v.inputs.take(i + 1).drop_last() =~= v.inputs.take(i as int));
        assert(text@ =~= " ["@ + v.title + "] "@ + inputs_text(v.inputs.take(i + 1), default_value_display_length as nat));
        i += 1;
    }
    assert(v.inputs.take(i as int) =~= v.inputs);
    text.append("\n (id: ");
    let id = usize_to_text(node.get_id());
    text.append(id.as_str());
    text.append(")");
    assert(text@ =~= node_text_of(v, default_value_display_length as nat));
    text
}

/// The heights of the editor area and the output area on a screen `h` rows high: the output
/// area takes a fifth, and three rows go to borders and the prompt; `None` when there is no
/// room for them.
pub fn screen_split(h: usize) -> (heights: Option<(usize, usize)>)
    ensures
        heights is None <==> h - h / 5 < 3,
        heights matches Some((editor_h, out_h)) ==> out_h == h / 5 && editor_h == h - h / 5 - 3,
{
    let out_h = h / 5;
    if h - out_h < 3 {
        None
    } else {
        Some((h - out_h - 3, out_h))
    }
}

/// Where the parts of a node box drawn `w` wide at column `x`, row `y` go.
pub struct NodePlaces {
    /// The column where a free socket's value starts, `room` columns before the box's right
    /// edge; `None` when the box is narrower than that.
    pub value_column: Option<usize>,
    /// The column of the output socket, just right of the box.
    pub output_column: usize,
    /// The row of the output socket: the third row of the box.
    pub output_row: usize,
    /// The row of each input socket: the third row of the box and on.
    pub socket_rows: Vec<usize>,
}

/// Where the parts of a node box go, for a box drawn `w` wide at (`x`, `y`) with `inputs`
/// input sockets and `room` columns for each value; `None` when a column or row would leave
/// the range of `usize`.
pub fn node_places(x: usize, y: usize, w: usize, room: usize, inputs: usize) -> (places: Option<NodePlaces>)
    ensures
        places is None <==> (x + w + 1 > usize::MAX || y + 2 + inputs > usize::MAX),
        places matches Some(p) ==> {
            &&& p.output_column == x + w + 1
            &&& p.output_row == y + 2
            &&& (p.value_column is Some <==> x + w >= room)
            &&& (p.value_column matches Some(c) ==> c == x + w - room)
            &&& p.socket_rows@.len() == inputs
            &&& forall|i: int| 0 <= i < inputs ==> p.socket_rows@[i] == y + 2 + i
        },
{
    if x > usize::MAX - 1 || w > usize::MAX - 1 - x || y > usize::MAX - 2 || inputs > usize::MAX - 2 - y {
        return None;
    }
    let right = x + w;
    let value_column = if right >= room {
        Some(right - room)
    } else {
        None
    };
    let mut socket_rows: Vec<usize> = Vec::new();
    let mut i: usize = 0;
    while i < inputs
        invariant
            i <= inputs,
            y + 2 + inputs <= usize::MAX,
            socket_rows@.len() == i,
            forall|j: int| 0 <= j < i ==> socket_rows@[j] == y + 2 + j,
        decreases inputs - i,
    {
        socket_rows.push(y + 2 + i);
        i += 1;
    }
    Some(NodePlaces { value_column, output_column: right + 1, output_row: y + 2, socket_rows })
}

/// The pieces a connection line is drawn with.
#[derive(Debug, Clone, Copy, PartialEq, Eq, Structural)]
pub enum Glyph {
    Horizontal,
    Vertical,
    TopRight,
    TopLeft,
    BottomRight,
    BottomLeft,
}

/// `count` copies of a glyph drawn from `column` rightwards on `row`.
#[derive(Debug, Clone, Copy, PartialEq, Eq, Structural)]
pub struct Stroke {
    pub row: usize,
    pub column: usize,
    pub glyph: Glyph,
    pub count: usize,
}

/// Vertical glyphs on the rows from `first` up to, not including, `end`, in a column.
pub open spec fn vertical_run(first: int, end: int, column: usize) -> Seq<Stroke> {
    Seq::new(
        if end > first {
            (end - first) as nat
        } else {
            0
        },
        |k: int| Stroke { row: (first + k) as usize, column: column, glyph: Glyph::Vertical, count: 1 },
    )
}

/// A line from (`sx`, `sy`) rightwards to (`ex`, `ey`): horizontal from the start to the middle
/// column, vertical in the middle column with a corner at each end (or a single horizontal glyph
/// when the rows are the same), and horizontal from after the middle column on the end row.
pub open spec fn route(sx: usize, sy: usize, ex: usize, ey: usize) -> Seq<Stroke> {
    let len = ex - sx;
    let half = len / 2;
    let mid = (sx + half) as usize;
    let turn = if sy == ey {
        seq![Stroke { row: ey, column: mid, glyph: Glyph::Horizontal, count: 1 }]
    } else if sy > ey {
        vertical_run(ey + 1, sy as int, mid) + seq![
            Stroke { row: sy, column: mid, glyph: Glyph::BottomRight, count: 1 },
            Stroke { row: ey, column: mid, glyph: Glyph::TopLeft, count: 1 },
        ]
    } else {
        vertical_run(sy + 1, ey as int, mid) + seq![
            Stroke { row: sy, column: mid, glyph: Glyph::TopRight, count: 1 },
            Stroke { row: ey, column: mid, glyph: Glyph::BottomLeft, count: 1 },
        ]
    };
    turn + seq![
        Stroke { row: sy, column: sx, glyph: Glyph::Horizontal, count: half as usize },
        Stroke { row: ey, column: (mid + 1) as usize, glyph: Glyph::Horizontal, count: (len - half - 1) as usize },
    ]
}

/// Where a connection line starts: the column just inside the right edge of the feeding node
/// (taken `from_w` wide) on its first socket row.
pub open spec fn line_start_x(from_x: usize, from_w: usize) -> int {
    from_x + from_w - 1
}

/// The strokes of the line from a feeding node at (`from_x`, `from_y`), taken `from_w` wide, to
/// input `input_index` of a node at (`to_x`, `to_y`); the ends are swapped when the start lies
/// right of the end.
pub open spec fn connection_plan(
    from_x: usize,
    from_y: usize,
    from_w: usize,
    to_x: usize,
    to_y: usize,
    input_index: usize,
) -> Seq<Stroke> {
    let sx = line_start_x(from_x, from_w) as usize;
    let sy = (from_y + 2) as usize;
    let ex = to_x;
    let ey = (to_y + input_index + 2) as usize;
    if sx > ex {
        route((ex + 1) as usize, ey, (sx + 1) as usize, sy)
    } else {
        route(sx, sy, ex, ey)
    }
}

/// The coordinates stay within `usize` and the line is at least one column long.
pub open spec fn plan_fits(
    from_x: usize,
    from_y: usize,
    from_w: usize,
    to_x: usize,
    to_y: usize,
    input_index: usize,
) -> bool {
    &&& 1 <= from_x + from_w <= usize::MAX
    &&& from_y + 2 <= usize::MAX
    &&& to_y + input_index + 2 <= usize::MAX
    &&& line_start_x(from_x, from_w) != to_x
    &&& line_start_x(from_x, from_w) + 1 <= usize::MAX
}

/// A connection line joins the two sockets. Its next-to-last stroke is horizontal and starts
/// at the line's left end on the row of the socket there; its last stroke is horizontal and
/// ends at the line's right end on the row of the socket there; the two meet on either side
/// of the turning column. The left end is the feeding node's right edge on the feeding row,
/// unless the feeding node lies right of the fed socket: then the left end is just right of the
/// fed node's left edge on the fed socket's row, and the right end is just right of the feeding
/// node's edge on the feeding row.
pub proof fn law_line_joins_the_sockets(
    from_x: usize,
    from_y: usize,
    from_w: usize,
    to_x: usize,
    to_y: usize,
    input_index: usize,
)
    requires
        plan_fits(from_x, from_y, from_w, to_x, to_y, input_index),
    ensures
        ({
            let p = connection_plan(from_x, from_y, from_w, to_x, to_y, input_index);
            let feeder_row = from_y + 2;
            let socket_row = to_y + input_index + 2;
            let start = line_start_x(from_x, from_w);
            let first = p[p.len() - 2];
            let last = p[p.len() - 1];
            &&& p.len() >= 3
            &&& first.glyph == Glyph::Horizontal
            &&& last.glyph == Glyph::Horizontal
            &&& first.column + first.count + 1 == last.column
            &&& if start > to_x {
                &&& first.row == socket_row
                &&& first.column == to_x + 1
                &&& last.row == feeder_row
                &&& last.column + last.count == start + 1
            } else {
                &&& first.row == feeder_row
                &&& first.column == start
                &&& last.row == socket_row
                &&& last.column + last.count == to_x
            }
            &&& first.row == last.row ==> p.len() == 3 && p[0] == (Stroke {
                row: first.row,
                column: (first.column + first.count) as usize,
                glyph: Glyph::Horizontal,
                count: 1,
            })
        }),
        ({
            let p = connection_plan(from_x, from_y, from_w, to_x, to_y, input_index);
            let first = p[p.len() - 2];
            let last = p[p.len() - 1];
            let mid = (first.column + first.count) as usize;
            let low = if first.row < last.row { first.row } else { last.row };
            let high = if first.row < last.row { last.row } else { first.row };
            first.row != last.row ==> {
                &&& p.len() == high - low + 3
                &&& forall|k: int|
                    0 <= k < high - low - 1 ==> #[trigger] p[k] == (Stroke {
                        row: (low + 1 + k) as usize,
                        column: mid,
                        glyph: Glyph::Vertical,
                        count: 1,
                    })
                &&& p[p.len() - 4] == (Stroke {
                    row: first.row,
                    column: mid,
                    glyph: if first.row > last.row { Glyph::BottomRight } else { Glyph::TopRight },
                    count: 1,
                })
                &&& p[p.len() - 3] == (Stroke {
                    row: last.row,
                    column: mid,
                    glyph: if first.row > last.row { Glyph::TopLeft } else { Glyph::BottomLeft },
                    count: 1,
                })
            }
        }),
{
    let start = line_start_x(from_x, from_w);
    let (sx, sy, ex, ey) = if start > to_x {
        ((to_x + 1) as usize, (to_y + input_index + 2) as usize, (start + 1) as usize, (from_y + 2) as usize)
    } else {
        (start as usize, (from_y + 2) as usize, to_x, (to_y + input_index + 2) as usize)
    };
    let p = route(sx, sy, ex, ey);
    assert(p == connection_plan(from_x, from_y, from_w, to_x, to_y, input_index));
    let len = ex - sx;
    let half = len / 2;
    let mid = (sx + half) as usize;
    let turn = if sy == ey {
        seq![Stroke { row: ey, column: mid, glyph: Glyph::Horizontal, count: 1 }]
    } else if sy > ey {
        vertical_run(ey + 1, sy as int, mid) + seq![
            Stroke { row: sy, column: mid, glyph: Glyph::BottomRight, count: 1 },
            Stroke { row: ey, column: mid, glyph: Glyph::TopLeft, count: 1 },
        ]
    } else {
        vertical_run(sy + 1, ey as int, mid) + seq![
            Stroke { row: sy, column: mid, glyph: Glyph::TopRight, count: 1 },
            Stroke { row: ey, column: mid, glyph: Glyph::BottomLeft, count: 1 },
        ]
    };
    let h1 = Stroke { row: sy, column: sx, glyph: Glyph::Horizontal, count: half as usize };
    let h2 = Stroke { row: ey, column: (mid + 1) as usize, glyph: Glyph::Horizontal, count: (len - half - 1) as usize };
    assert(p == turn + seq![h1, h2]);
    assert(turn.len() >= 1);
    assert(p[p.len() - 2] == h1);
    assert(p[p.len() - 1] == h2);
    assert(len >= 1);
    if sy != ey {
        let low = if sy < ey { sy } else { ey };
        let high = if sy < ey { ey } else { sy };
        let run = vertical_run(low + 1, high as int, mid);
        assert(run.len() == high - low - 1);
        assert forall|k: int| 0 <= k < high - low - 1 implies #[trigger] p[k] == (Stroke {
            row: (low + 1 + k) as usize,
            column: mid,
            glyph: Glyph::Vertical,
            count: 1,
        }) by {
            assert(p[k] == run[k]);
        }
    }
}

/// The strokes of a connection line, in the order the editor draws them.
fn plan_strokes(
    from_x: usize,
    from_y: usize,
    from_w: usize,
    to_x: usize,
    to_y: usize,
    input_index: usize,
) -> (strokes: Vec<Stroke>)
    requires
        plan_fits(from_x, from_y, from_w, to_x, to_y, input_index),
    ensures
        strokes@ == connection_plan(from_x, from_y, from_w, to_x, to_y, input_index),
{
    let mut start_x = from_x + from_w - 1;
    let mut end_x = to_x;
    let mut start_y = from_y + 2;
    let mut end_y = to_y + input_index + 2;
    if start_x > end_x {
        let sx = end_x + 1;
        let ex = start_x + 1;
        start_x = sx;
        end_x = ex;
        let sy = end_y;
        let ey = start_y;
        start_y = sy;
        end_y = ey;
    }
    let len = end_x - start_x;
    let half = len / 2;
    let mid = start_x + half;
    let mut strokes: Vec<Stroke> = Vec::new();
    if start_y == end_y {
        strokes.push(Stroke { row: end_y, column: mid, glyph: Glyph::Horizontal, count: 1 });
    } else {
        let (low, high) = if start_y > end_y {
            (end_y, start_y)
        } else {
            (start_y, end_y)
        };
        let mut r = low + 1;
        while r < high
            invariant
                low < high,
                low + 1 <= r <= high,
                strokes@ == vertical_run(low + 1, r as int, mid),
            decreases high - r,
        {
            strokes.push(Stroke { row: r, column: mid, glyph: Glyph::Vertical, count: 1 });
            r += 1;
            assert(strokes@ =~= vertical_run(low + 1, r as int, mid));
        }
        assert(strokes@ =~= vertical_run(low + 1, high as int, mid));
        if start_y > end_y {
            strokes.push(Stroke { row: start_y, column: mid, glyph: Glyph::BottomRight, count: 1 });
            strokes.push(Stroke { row: end_y, column: mid, glyph: Glyph::TopLeft, count: 1 });
        } else {
            strokes.push(Stroke { row: start_y, column: mid, glyph: Glyph::TopRight, count: 1 });
            strokes.push(Stroke { row: end_y, column: mid, glyph: Glyph::BottomLeft, count: 1 });
        }
    }
    strokes.push(Stroke { row: start_y, column: start_x, glyph: Glyph::Horizontal, count: half });
    strokes.push(Stroke { row: end_y, column: mid + 1, glyph: Glyph::Horizontal, count: len - half - 1 });
    assert(strokes@ =~= connection_plan(from_x, from_y, from_w, to_x, to_y, input_index));
    strokes
}

/// The strokes of a connection line, in the order the editor draws them; `None` when a
/// coordinate would leave the range of `usize` or the line would have no length.
pub fn connection_strokes(
    from_x: usize,
    from_y: usize,
    from_w: usize,
    to_x: usize,
    to_y: usize,
    input_index: usize,
) -> (strokes: Option<Vec<Stroke>>)
    ensures
        strokes is None <==> !plan_fits(from_x, from_y, from_w, to_x, to_y, input_index),
        strokes matches Some(s) ==> s@ == connection_plan(from_x, from_y, from_w, to_x, to_y, input_index),
{
    let right = match from_x.checked_add(from_w) {
        Some(r) => r,
        None => return None,
    };
    if right == 0 || right - 1 == to_x || right - 1 == usize::MAX {
        return None;
    }
    if from_y > usize::MAX - 2 {
        return None;
    }
    let row = match to_y.checked_add(input_index) {
        Some(r) => r,
        None => return None,
    };
    if row > usize::MAX - 2 {
        return None;
    }
    Some(plan_strokes(from_x, from_y, from_w, to_x, to_y, input_index))
}

impl Editor {
    /// The strokes of the line into input `input_index` of node `to_node_id` from the node
    /// feeding it, taking the feeding node to be `from_node_w` wide; `None` as for
    /// `connection_strokes`.
    pub fn connection_route(&self, from_node_w: usize, to_node_id: usize, input_index: usize) -> (strokes: Option<
        Vec<Stroke>,
    >)
        requires
            self@.nodes.contains_key(to_node_id),
            input_index < self@.nodes[to_node_id].inputs.len(),
            self@.nodes.contains_key(self@.nodes[to_node_id].inputs[input_index as int].connected),
        ensures
            ({
                let to = self@.nodes[to_node_id];
                let from = self@.nodes[to.inputs[input_index as int].connected];
                &&& strokes is None <==> !plan_fits(from.x, from.y, from_node_w, to.x, to.y, input_index)
                &&& strokes matches Some(s) ==> s@ == connection_plan(
                    from.x,
                    from.y,
                    from_node_w,
                    to.x,
                    to.y,
                    input_index,
                )
            }),
    {
        let to_node = self.get_node(to_node_id).unwrap();
        let from_id = to_node.get_input(input_index).get_connected_id();
        let from_node = self.get_node(from_id).unwrap();
        connection_strokes(
            from_node.get_x(),
            from_node.get_y(),
            from_node_w,
            to_node.get_x(),
            to_node.get_y(),
            input_index,
        )
    }
}

} // verus!
