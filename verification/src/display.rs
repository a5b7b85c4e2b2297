//! What the OLED shows of a message: the message is broken into lines of at
//! most twelve characters (and twelve UTF-8 bytes), drawn from the top at a
//! fixed line height until the 72x40 screen is full.
use vstd::prelude::*;
use vstd::utf8::{encode_utf8, is_ascii_chars};
use crate::bounded::{
    line_chars, line_is_empty, line_push, message_chars, message_push_str, new_line, new_message,
    LINE_CAPACITY, MESSAGE_CAPACITY,
};
use crate::line_breaks::{
    concat_all, fits_bytes, lemma_char_bytes, lemma_message_pieces_concat, lemma_message_pieces_push,
    lemma_pieces_push, lemma_single_piece, message_pieces, parts_pieces, pieces, MAX_CHARS_PER_LINE,
};
use crate::text::{chars_of, split_on, trim};
use crate::web::{form_encode_spaces, message_key, plain_text, submitted_message, lemma_form_round_trip};

verus! {

/// Vertical position of the first line.
pub const FIRST_LINE_Y: i32 = 10;

/// Distance between the tops of two lines.
pub const LINE_HEIGHT: i32 = 13;

/// Lowest vertical position at which a line is still drawn.
pub const MAX_LINE_Y: i32 = 40;

/// A line of text to draw, with the vertical position of its top.
pub struct DisplayLine {
    pub y: i32,
    pub text: heapless::String<12>,
}

/// A drawn line as position and characters.
pub open spec fn line_view(line: DisplayLine) -> (int, Seq<char>) {
    (line.y as int, line_chars(line.text))
}

/// Where the layout stands after some characters of the message.
pub struct LayoutState {
    /// The lines drawn so far, as position and characters.
    pub lines: Seq<(int, Seq<char>)>,
    /// Position of the next line.
    pub y: int,
    /// Characters of the line being filled.
    pub current: Seq<char>,
    /// Whether the screen is full and the rest of the message is dropped.
    pub stopped: bool,
}

/// Whether `c` still fits, in bytes, behind `line`.
pub open spec fn fits_line(line: Seq<char>, c: char) -> bool {
    encode_utf8(line.push(c)).len() <= LINE_CAPACITY
}

/// The layout before any character.
pub open spec fn layout_start() -> LayoutState {
    LayoutState { lines: Seq::empty(), y: FIRST_LINE_Y as int, current: Seq::empty(), stopped: false }
}

/// The layout after one more character `c`: a newline, or a full line, ends
/// the current line; a character that does not fit in bytes starts a new one;
/// once a line would start below the screen, nothing more is taken.
pub open spec fn layout_step(st: LayoutState, c: char) -> LayoutState {
    if st.stopped {
        st
    } else {
        let flush = (c == '\n' || st.current.len() >= MAX_CHARS_PER_LINE) && st.current.len() > 0;
        let lines1 = if flush { st.lines.push((st.y, st.current)) } else { st.lines };
        let y1 = if flush { st.y + LINE_HEIGHT } else { st.y };
        let cur1 = if flush { Seq::<char>::empty() } else { st.current };
        if flush && y1 > MAX_LINE_Y {
            LayoutState { lines: lines1, y: y1, current: cur1, stopped: true }
        } else if c == '\n' {
            LayoutState { lines: lines1, y: y1, current: cur1, stopped: false }
        } else if fits_line(cur1, c) {
            LayoutState { lines: lines1, y: y1, current: cur1.push(c), stopped: false }
        } else {
            let y2 = y1 + LINE_HEIGHT;
            LayoutState {
                lines: lines1.push((y1, cur1)),
                y: y2,
                current: seq![c],
                stopped: y2 > MAX_LINE_Y,
            }
        }
    }
}

/// The layout after the first `n` characters of `msg`.
pub open spec fn layout_prefix(msg: Seq<char>, n: nat) -> LayoutState
    decreases n,
{
    if n == 0 || n > msg.len() {
        layout_start()
    } else {
        layout_step(layout_prefix(msg, (n - 1) as nat), msg[n - 1])
    }
}

/// The lines that show `msg`: those of the layout after the whole message,
/// and the line still being filled where it is not empty and on the screen.
pub open spec fn layout_lines(msg: Seq<char>) -> Seq<(int, Seq<char>)> {
    let st = layout_prefix(msg, msg.len());
    if st.current.len() > 0 && st.y <= MAX_LINE_Y {
        st.lines.push((st.y, st.current))
    } else {
        st.lines
    }
}

/// A layout that has stopped takes no more characters.
proof fn lemma_stopped_stays(msg: Seq<char>, k: nat, n: nat)
    requires
        k <= n <= msg.len(),
        layout_prefix(msg, k).stopped,
    ensures
        layout_prefix(msg, n) == layout_prefix(msg, k),
    decreases n - k,
{
    if n > k {
        lemma_stopped_stays(msg, k, (n - 1) as nat);
    }
}

/// `msg` with its newlines removed.
pub open spec fn without_newlines(msg: Seq<char>) -> Seq<char>
    decreases msg.len(),
{
    if msg.len() == 0 {
        Seq::empty()
    } else if msg.last() == '\n' {
        without_newlines(msg.drop_last())
    } else {
        without_newlines(msg.drop_last()).push(msg.last())
    }
}

/// The texts of `lines`, one after the other.
pub open spec fn joined_text(lines: Seq<(int, Seq<char>)>) -> Seq<char>
    decreases lines.len(),
{
    if lines.len() == 0 {
        Seq::empty()
    } else {
        joined_text(lines.drop_last()) + lines.last().1
    }
}

/// What every drawn line satisfies: it is not empty, holds at most twelve
/// characters in at most twelve bytes, and no newline.
pub open spec fn line_text_ok(text: Seq<char>) -> bool {
    &&& 0 < text.len() <= MAX_CHARS_PER_LINE
    &&& encode_utf8(text).len() <= LINE_CAPACITY
    &&& !text.contains('\n')
}

/// What every list of drawn lines satisfies: line `i` starts at
/// `10 + 13 * i`, on the screen, and its text is a proper line.
pub open spec fn lines_ok(lines: Seq<(int, Seq<char>)>) -> bool {
    forall|i: int|
        0 <= i < lines.len() ==> {
            &&& (#[trigger] lines[i]).0 == FIRST_LINE_Y + LINE_HEIGHT * i
            &&& lines[i].0 <= MAX_LINE_Y
            &&& line_text_ok(lines[i].1)
        }
}

/// What holds of the layout after the first `k` characters of `msg`.
pub open spec fn layout_ok(msg: Seq<char>, k: nat, st: LayoutState) -> bool {
    &&& lines_ok(st.lines)
    &&& st.y == FIRST_LINE_Y + LINE_HEIGHT * st.lines.len()
    &&& !st.stopped ==> st.y <= MAX_LINE_Y
    &&& st.current.len() <= MAX_CHARS_PER_LINE
    &&& encode_utf8(st.current).len() <= LINE_CAPACITY
    &&& !st.current.contains('\n')
    &&& (joined_text(st.lines) + st.current).is_prefix_of(without_newlines(msg.take(k as int)))
    &&& !st.stopped ==> joined_text(st.lines) + st.current == without_newlines(msg.take(k as int))
}

proof fn lemma_prefix_trans(a: Seq<char>, b: Seq<char>, c: Seq<char>)
    requires
        a.is_prefix_of(b),
        b.is_prefix_of(c),
    ensures
        a.is_prefix_of(c),
{
    assert forall|i: int| 0 <= i < a.len() implies a[i] == c.subrange(0, a.len() as int)[i] by {
        assert(a[i] == b[i]);
        assert(b[i] == c[i]);
    }
    assert(a =~= c.subrange(0, a.len() as int));
}

proof fn lemma_without_newlines_step(msg: Seq<char>, k: nat)
    requires
        k < msg.len(),
    ensures
        msg[k as int] == '\n' ==> without_newlines(msg.take(k + 1 as int)) == without_newlines(msg.take(k as int)),
        msg[k as int] != '\n' ==> without_newlines(msg.take(k + 1 as int)) == without_newlines(msg.take(k as int)).push(msg[k as int]),
        without_newlines(msg.take(k as int)).is_prefix_of(without_newlines(msg.take(k + 1 as int))),
{
    assert(msg.take(k + 1 as int).drop_last() =~= msg.take(k as int));
    assert(msg.take(k + 1 as int).last() == msg[k as int]);
    let w = without_newlines(msg.take(k as int));
    assert(w =~= w.subrange(0, w.len() as int));
    assert(w =~= w.push(msg[k as int]).subrange(0, w.len() as int));
}

proof fn lemma_joined_push(lines: Seq<(int, Seq<char>)>, line: (int, Seq<char>))
    ensures
        joined_text(lines.push(line)) == joined_text(lines) + line.1,
{
    assert(lines.push(line).drop_last() =~= lines);
}

proof fn lemma_lines_ok_push(lines: Seq<(int, Seq<char>)>, line: (int, Seq<char>))
    requires
        lines_ok(lines),
        line.0 == FIRST_LINE_Y + LINE_HEIGHT * lines.len(),
        line.0 <= MAX_LINE_Y,
        line_text_ok(line.1),
    ensures
        lines_ok(lines.push(line)),
{
    assert forall|i: int| 0 <= i < lines.push(line).len() implies {
        &&& (#[trigger] lines.push(line)[i]).0 == FIRST_LINE_Y + LINE_HEIGHT * i
        &&& lines.push(line)[i].0 <= MAX_LINE_Y
        &&& line_text_ok(lines.push(line)[i].1)
    } by {
        if i < lines.len() {
            assert(lines.push(line)[i] == lines[i]);
        }
    }
}

proof fn lemma_no_newline_push(s: Seq<char>, c: char)
    requires
        !s.contains('\n'),
        c != '\n',
    ensures
        !s.push(c).contains('\n'),
{
    if s.push(c).contains('\n') {
        let i = choose|i: int| 0 <= i < s.push(c).len() && s.push(c)[i] == '\n';
        if i < s.len() {
            assert(s[i] == '\n');
        }
    }
}

/// Every layout step keeps `layout_ok`.
proof fn lemma_layout_ok(msg: Seq<char>, k: nat)
    requires
        k <= msg.len(),
    ensures
        layout_ok(msg, k, layout_prefix(msg, k)),
    decreases k,
{
    if k == 0 {
        assert(msg.take(0) =~= Seq::<char>::empty());
        assert(joined_text(Seq::<(int, Seq<char>)>::empty()) + Seq::<char>::empty() =~= Seq::<
            char,
        >::empty());
        assert(encode_utf8(Seq::<char>::empty()) =~= Seq::<u8>::empty());
        assert(Seq::<char>::empty().is_prefix_of(Seq::<char>::empty()));
    } else {
        let j = (k - 1) as nat;
        lemma_layout_ok(msg, j);
        lemma_without_newlines_step(msg, j);
        let st = layout_prefix(msg, j);
        let c = msg[j as int];
        let w0 = without_newlines(msg.take(j as int));
        let w1 = without_newlines(msg.take(k as int));
        let nx = layout_prefix(msg, k);
        assert(nx == layout_step(st, c));
        if st.stopped {
            lemma_prefix_trans(joined_text(st.lines) + st.current, w0, w1);
        } else {
            let flush = (c == '\n' || st.current.len() >= MAX_CHARS_PER_LINE) && st.current.len()
                > 0;
            let lines1 = if flush { st.lines.push((st.y, st.current)) } else { st.lines };
            let y1 = if flush { st.y + LINE_HEIGHT } else { st.y };
            let cur1 = if flush { Seq::<char>::empty() } else { st.current };
            if flush {
                lemma_lines_ok_push(st.lines, (st.y, st.current));
                lemma_joined_push(st.lines, (st.y, st.current));
                assert(joined_text(lines1) + cur1 =~= joined_text(st.lines) + st.current);
                assert(encode_utf8(Seq::<char>::empty()) =~= Seq::<u8>::empty());
            }
            assert(joined_text(lines1) + cur1 == w0);
            assert(lines_ok(lines1));
            assert(y1 == FIRST_LINE_Y + LINE_HEIGHT * lines1.len());
            if flush && y1 > MAX_LINE_Y {
                assert(w0.is_prefix_of(w1));
                assert(w0 =~= w0.subrange(0, w0.len() as int));
                assert(w0.is_prefix_of(w0));
            } else if c == '\n' {
                assert(w0 =~= w0.subrange(0, w0.len() as int));
            } else if fits_line(cur1, c) {
                lemma_no_newline_push(cur1, c);
                assert(joined_text(lines1) + cur1.push(c) =~= (joined_text(lines1) + cur1).push(c));
                assert(w1 =~= w1.subrange(0, w1.len() as int));
            } else {
                lemma_char_bytes(c);
                assert(Seq::<char>::empty().push(c) =~= seq![c]);
                if cur1.len() == 0 {
                    assert(cur1.push(c) =~= seq![c]);
                }
                assert(cur1.len() > 0);
                lemma_lines_ok_push(lines1, (y1, cur1));
                lemma_joined_push(lines1, (y1, cur1));
                assert(!seq![c].contains('\n')) by {
                    if seq![c].contains('\n') {
                        assert(seq![c][0] == '\n');
                    }
                }
                assert(joined_text(lines1.push((y1, cur1))) + seq![c] =~= (joined_text(lines1)
                    + cur1).push(c));
                assert(w1 =~= w1.subrange(0, w1.len() as int));
            }
        }
    }
}

/// How the display shows any message: line `i` starts at `10 + 13 * i` and
/// on the 40-pixel screen, so there are at most three lines; each holds one
/// to twelve characters in at most twelve bytes and no newline; and the lines
/// read one after the other give the start of the message without its newlines.
pub proof fn lemma_layout_shape(msg: Seq<char>)
    ensures
        lines_ok(layout_lines(msg)),
        layout_lines(msg).len() <= 3,
        joined_text(layout_lines(msg)).is_prefix_of(without_newlines(msg)),
{
    lemma_layout_ok(msg, msg.len());
    assert(msg.take(msg.len() as int) =~= msg);
    let st = layout_prefix(msg, msg.len());
    if st.current.len() > 0 && st.y <= MAX_LINE_Y {
        lemma_lines_ok_push(st.lines, (st.y, st.current));
        lemma_joined_push(st.lines, (st.y, st.current));
    } else {
        let a = joined_text(st.lines);
        assert(a.is_prefix_of(a + st.current)) by {
            assert(a =~= (a + st.current).subrange(0, a.len() as int));
        }
        lemma_prefix_trans(a, a + st.current, without_newlines(msg));
    }
    let lines = layout_lines(msg);
    if lines.len() > 3 {
        assert(lines[3].0 == FIRST_LINE_Y + LINE_HEIGHT * 3);
    }
}

proof fn lemma_without_newlines_none(msg: Seq<char>)
    requires
        !msg.contains('\n'),
    ensures
        without_newlines(msg) == msg,
    decreases msg.len(),
{
    if msg.len() > 0 {
        assert(!msg.drop_last().contains('\n')) by {
            if msg.drop_last().contains('\n') {
                let i = choose|i: int| 0 <= i < msg.drop_last().len() && msg.drop_last()[i] == '\n';
                assert(msg[i] == '\n');
            }
        }
        lemma_without_newlines_none(msg.drop_last());
        assert(msg.last() != '\n') by {
            assert(msg[msg.len() - 1] == msg.last());
        }
        assert(msg.drop_last().push(msg.last()) =~= msg);
    }
}

/// The layout of an ASCII message without newlines of at most 36 characters
/// never stops: it fills lines of twelve characters one after the other.
proof fn lemma_short_ascii_layout(msg: Seq<char>, k: nat)
    requires
        k <= msg.len() <= 36,
        is_ascii_chars(msg),
        !msg.contains('\n'),
    ensures
        ({
            let st = layout_prefix(msg, k);
            &&& !st.stopped
            &&& k == MAX_CHARS_PER_LINE * st.lines.len() + st.current.len()
            &&& k > 0 ==> st.current.len() >= 1
            &&& is_ascii_chars(st.current)
        }),
    decreases k,
{
    if k > 0 {
        let j = (k - 1) as nat;
        lemma_short_ascii_layout(msg, j);
        lemma_layout_ok(msg, j);
        let st = layout_prefix(msg, j);
        let c = msg[j as int];
        assert(c != '\n') by {
            if c == '\n' {
                assert(msg.contains('\n'));
            }
        }
        assert('\0' <= c <= '\u{7f}');
        let flush = st.current.len() >= MAX_CHARS_PER_LINE && st.current.len() > 0;
        let cur1 = if flush { Seq::<char>::empty() } else { st.current };
        assert(is_ascii_chars(cur1.push(c)));
        vstd::utf8::is_ascii_chars_encode_utf8(cur1.push(c));
        assert(fits_line(cur1, c));
        if flush {
            assert(st.lines.len() <= 1);
        }
    }
}

/// An ASCII message without newlines of at most 36 characters is shown whole.
pub proof fn lemma_short_message_shown_whole(msg: Seq<char>)
    requires
        msg.len() <= 36,
        is_ascii_chars(msg),
        !msg.contains('\n'),
    ensures
        joined_text(layout_lines(msg)) == msg,
{
    lemma_short_ascii_layout(msg, msg.len());
    lemma_layout_ok(msg, msg.len());
    lemma_without_newlines_none(msg);
    assert(msg.take(msg.len() as int) =~= msg);
    let st = layout_prefix(msg, msg.len());
    if st.current.len() > 0 {
        assert(st.lines.len() <= 2);
        lemma_joined_push(st.lines, (st.y, st.current));
    } else {
        assert(msg.len() == 0);
        assert(joined_text(st.lines) + st.current =~= joined_text(st.lines));
    }
}

/// The lines that show `msg` in the direct form: the message's lines as
/// `message_pieces` cuts them, the first three of them, line `i` at
/// `10 + 13 * i`.
pub open spec fn greedy_lines(msg: Seq<char>) -> Seq<(int, Seq<char>)> {
    let w = message_pieces(msg);
    let n: int = if w.len() < 3 {
        w.len() as int
    } else {
        3
    };
    Seq::new(n as nat, |i: int| (FIRST_LINE_Y + LINE_HEIGHT * i, w[i]))
}

/// The texts of some drawn lines.
pub open spec fn line_texts(lines: Seq<(int, Seq<char>)>) -> Seq<Seq<char>> {
    lines.map_values(|l: (int, Seq<char>)| l.1)
}

/// How the layout after the first `k` characters relates to the lines of
/// those characters: until the screen is full, the drawn lines and the line
/// being filled are those lines; once full, the three drawn lines are the
/// first three of them.
spec fn layout_greedy_inv(m: Seq<char>, k: nat) -> bool {
    let st = layout_prefix(m, k);
    let d = message_pieces(m.take(k as int));
    let o = split_on(m.take(k as int), '\n').last();
    let t = line_texts(st.lines);
    &&& !st.stopped ==> (if st.current.len() > 0 {
        t.push(st.current)
    } else {
        t
    }) == d && (st.current.len() > 0 <==> o.len() > 0)
    &&& st.stopped ==> st.lines.len() == 3 && t == d.take(3) && d.len() >= 3 && (d.len() == 3
        ==> o.len() == 0)
}

proof fn lemma_layout_greedy(m: Seq<char>, k: nat)
    requires
        k <= m.len(),
    ensures
        layout_greedy_inv(m, k),
    decreases k,
{
    if k == 0 {
        let e = Seq::<char>::empty();
        assert(m.take(0) =~= e);
        lemma_message_pieces_concat(e);
        lemma_message_pieces_push(e, 'a');
        assert(split_on(e, '\n') =~= seq![e]);
        assert(message_pieces(e).len() == 0) by {
            if message_pieces(e).len() > 0 {
                assert(message_pieces(e)[message_pieces(e).len() - 1].len() > 0);
                lemma_concat_take(message_pieces(e), (message_pieces(e).len() - 1) as nat);
            }
        }
        assert(line_texts(Seq::<(int, Seq<char>)>::empty()) =~= Seq::<Seq<char>>::empty());
        assert(message_pieces(e) =~= Seq::<Seq<char>>::empty());
    } else {
        let j = (k - 1) as nat;
        lemma_layout_greedy(m, j);
        lemma_layout_ok(m, j);
        assert(m.take(k as int) =~= m.take(j as int).push(m[j as int]));
        lemma_message_pieces_push(m.take(j as int), m[j as int]);
        lemma_message_pieces_concat(m.take(j as int));
        assert(layout_prefix(m, k) == layout_step(layout_prefix(m, j), m[j as int]));
        if layout_prefix(m, j).stopped {
            lemma_greedy_step_stopped(m, j);
        } else if m[j as int] == '\n' {
            lemma_greedy_step_newline(m, j);
        } else {
            lemma_greedy_step_char(m, j);
        }
    }
}

proof fn lemma_greedy_step_stopped(m: Seq<char>, j: nat)
    requires
        j < m.len(),
        layout_greedy_inv(m, j),
        layout_prefix(m, j).stopped,
        m.take(j + 1 as int) == m.take(j as int).push(m[j as int]),
        layout_prefix(m, j + 1 as nat) == layout_step(layout_prefix(m, j), m[j as int]),
    ensures
        layout_greedy_inv(m, j + 1 as nat),
{
    let p = m.take(j as int);
    let c = m[j as int];
    lemma_message_pieces_push(p, c);
    lemma_message_pieces_concat(p);
    let d = message_pieces(p);
    let d2 = message_pieces(p.push(c));
    let o = split_on(p, '\n').last();
    let before = parts_pieces(split_on(p, '\n').drop_last());
    if c != '\n' {
        if o.len() == 0 {
            lemma_single_piece(c);
            assert(o.push(c) =~= seq![c]);
            assert(pieces(o) =~= Seq::<Seq<char>>::empty());
            assert(d =~= before);
            assert(d2 =~= d.push(seq![c]));
            assert(d2.take(3) =~= d.take(3));
        } else {
            lemma_pieces_push(o, c);
            let po = pieces(o);
            let q = po.last();
            if q.len() < MAX_CHARS_PER_LINE && fits_bytes(q.push(c)) {
                assert(d2 =~= d.update(d.len() - 1, q.push(c)));
            } else {
                assert(d2 =~= d.push(seq![c]));
            }
            assert(d2.take(3) =~= d.take(3));
        }
    }
}

proof fn lemma_greedy_step_newline(m: Seq<char>, j: nat)
    requires
        j < m.len(),
        m[j as int] == '\n',
        layout_greedy_inv(m, j),
        layout_ok(m, j, layout_prefix(m, j)),
        !layout_prefix(m, j).stopped,
        m.take(j + 1 as int) == m.take(j as int).push(m[j as int]),
        layout_prefix(m, j + 1 as nat) == layout_step(layout_prefix(m, j), m[j as int]),
    ensures
        layout_greedy_inv(m, j + 1 as nat),
{
    let p = m.take(j as int);
    let c = m[j as int];
    lemma_message_pieces_push(p, c);
    let st = layout_prefix(m, j);
    let d = message_pieces(p);
    let t = line_texts(st.lines);
    let cur = st.current;
    assert(st.lines.len() <= 2);
    if cur.len() > 0 {
        let lines1 = st.lines.push((st.y, cur));
        assert(line_texts(lines1) =~= t.push(cur));
        if st.y + LINE_HEIGHT > MAX_LINE_Y {
            assert(st.lines.len() == 2);
            assert(d.len() == 3);
            assert(d.take(3) =~= d);
        }
    }
}

proof fn lemma_greedy_step_char(m: Seq<char>, j: nat)
    requires
        j < m.len(),
        m[j as int] != '\n',
        layout_greedy_inv(m, j),
        layout_ok(m, j, layout_prefix(m, j)),
        !layout_prefix(m, j).stopped,
        m.take(j + 1 as int) == m.take(j as int).push(m[j as int]),
        layout_prefix(m, j + 1 as nat) == layout_step(layout_prefix(m, j), m[j as int]),
    ensures
        layout_greedy_inv(m, j + 1 as nat),
{
    let p = m.take(j as int);
    let c = m[j as int];
    lemma_message_pieces_push(p, c);
    lemma_message_pieces_concat(p);
    let st = layout_prefix(m, j);
    let d = message_pieces(p);
    let d2 = message_pieces(p.push(c));
    let o = split_on(p, '\n').last();
    let before = parts_pieces(split_on(p, '\n').drop_last());
    let t = line_texts(st.lines);
    let cur = st.current;
    assert(st.lines.len() <= 2);
    lemma_char_bytes(c);
    assert(Seq::<char>::empty().push(c) =~= seq![c]);
    assert(fits_line(Seq::<char>::empty(), c));
    let lines1 = st.lines.push((st.y, cur));
    assert(line_texts(lines1) =~= t.push(cur));
    if o.len() == 0 {
        assert(cur =~= Seq::<char>::empty());
        lemma_single_piece(c);
        assert(o.push(c) =~= seq![c]);
        assert(pieces(o) =~= Seq::<Seq<char>>::empty());
        assert(d =~= before);
        assert(d2 =~= d.push(seq![c]));
        assert(cur.push(c) =~= seq![c]);
        assert(t.push(seq![c]) =~= d2);
    } else {
        lemma_pieces_push(o, c);
        let po = pieces(o);
        let q = po.last();
        assert(d == before + po);
        assert(d.last() == q);
        assert(cur == q);
        if cur.len() >= MAX_CHARS_PER_LINE {
            assert(d2 =~= d.push(seq![c]));
            assert(t.push(cur) =~= d);
            if st.y + LINE_HEIGHT > MAX_LINE_Y {
                assert(d2.take(3) =~= d);
            } else {
                assert(line_texts(lines1).push(seq![c]) =~= d2);
            }
        } else if fits_line(cur, c) {
            assert(d2 =~= d.update(d.len() - 1, q.push(c)));
            assert(t.push(cur.push(c)) =~= d2);
        } else {
            assert(d2 =~= d.push(seq![c]));
            assert(t.push(cur) =~= d);
            if st.y + LINE_HEIGHT > MAX_LINE_Y {
                assert(d2.take(3) =~= d);
            } else {
                assert(line_texts(lines1).push(seq![c]) =~= d2);
            }
        }
    }
}

/// The texts `ws[..n]` one after the other start the texts `ws` one after the
/// other, and where `n < ws.len()` the whole is longer by at least `ws[n]`.
pub proof fn lemma_concat_take(ws: Seq<Seq<char>>, n: nat)
    requires
        n <= ws.len(),
    ensures
        concat_all(ws.take(n as int)).is_prefix_of(concat_all(ws)),
        n < ws.len() ==> concat_all(ws).len() >= concat_all(ws.take(n as int)).len() + ws[n as int].len(),
    decreases ws.len(),
{
    if n == ws.len() {
        assert(ws.take(n as int) =~= ws);
        let a = concat_all(ws);
        assert(a =~= a.subrange(0, a.len() as int));
    } else {
        let w0 = ws.drop_last();
        assert(ws.take(n as int) =~= w0.take(n as int));
        lemma_concat_take(w0, n);
        let a = concat_all(w0.take(n as int));
        let b = concat_all(w0);
        let whole = concat_all(ws);
        assert(whole == b + ws.last());
        assert(a =~= whole.subrange(0, a.len() as int)) by {
            assert(a =~= b.subrange(0, a.len() as int));
        }
        if n == w0.len() {
            assert(w0.take(n as int) =~= w0);
            assert(ws[n as int] == ws.last());
        } else {
            assert(ws[n as int] == w0[n as int]);
        }
    }
}

proof fn lemma_joined_greedy(w: Seq<Seq<char>>, n: nat)
    requires
        n <= w.len(),
    ensures
        joined_text(Seq::new(n, |i: int| (FIRST_LINE_Y + LINE_HEIGHT * i, w[i]))) == concat_all(
            w.take(n as int),
        ),
    decreases n,
{
    let f = |i: int| (FIRST_LINE_Y + LINE_HEIGHT * i, w[i]);
    if n == 0 {
        assert(w.take(0) =~= Seq::<Seq<char>>::empty());
        assert(Seq::new(0, f) =~= Seq::<(int, Seq<char>)>::empty());
    } else {
        lemma_joined_greedy(w, (n - 1) as nat);
        assert(Seq::new(n, f).drop_last() =~= Seq::new((n - 1) as nat, f));
        assert(w.take(n as int).drop_last() =~= w.take(n - 1));
        assert(Seq::new(n, f).last() == f(n - 1));
        assert(w.take(n as int).last() == w[n - 1]);
    }
}

/// The display shows every message as the direct form says: its lines, cut
/// at newlines and then greedily into the longest pieces of at most twelve
/// characters and twelve bytes, the first three drawn at `10 + 13 * i`.
pub proof fn lemma_layout_is_greedy(msg: Seq<char>)
    ensures
        layout_lines(msg) == greedy_lines(msg),
{
    let n = msg.len();
    lemma_layout_greedy(msg, n);
    lemma_layout_ok(msg, n);
    assert(msg.take(n as int) =~= msg);
    let st = layout_prefix(msg, n);
    let d = message_pieces(msg);
    let t = line_texts(st.lines);
    let ll = layout_lines(msg);
    let gl = greedy_lines(msg);
    if st.stopped {
        assert(st.y > MAX_LINE_Y);
        assert(ll == st.lines);
        assert forall|i: int| 0 <= i < ll.len() implies ll[i] == gl[i] by {
            assert(ll[i].1 == t[i]);
            assert(t[i] == d.take(3)[i]);
        }
        assert(ll =~= gl);
    } else {
        if st.current.len() > 0 {
            assert(ll == st.lines.push((st.y, st.current)));
            assert(t.push(st.current) == d);
            assert forall|i: int| 0 <= i < ll.len() implies ll[i] == gl[i] by {
                if i < st.lines.len() {
                    assert(ll[i] == st.lines[i]);
                    assert(ll[i].1 == t[i]);
                    assert(d[i] == t[i]);
                } else {
                    assert(d[i] == st.current);
                }
            }
        } else {
            assert(ll == st.lines);
            assert forall|i: int| 0 <= i < ll.len() implies ll[i] == gl[i] by {
                assert(ll[i].1 == t[i]);
            }
        }
        assert(ll =~= gl);
    }
}

/// Every message is shown whole, without its newlines, exactly when it makes
/// at most three lines; otherwise what is shown is a proper start of it.
pub proof fn lemma_shown_whole_iff_three_lines(msg: Seq<char>)
    ensures
        message_pieces(msg).len() <= 3 ==> joined_text(layout_lines(msg)) == without_newlines(msg),
        message_pieces(msg).len() > 3 ==> joined_text(layout_lines(msg)).is_prefix_of(
            without_newlines(msg),
        ) && joined_text(layout_lines(msg)).len() < without_newlines(msg).len(),
{
    lemma_layout_is_greedy(msg);
    lemma_message_pieces_concat(msg);
    let w = message_pieces(msg);
    if w.len() <= 3 {
        lemma_joined_greedy(w, w.len() as nat);
        assert(w.take(w.len() as int) =~= w);
    } else {
        lemma_joined_greedy(w, 3);
        lemma_concat_take(w, 3);
        assert(w[3].len() > 0);
    }
}

/// What is typed into the web form is what the display shows: a short ASCII
/// text on one line, with none of `+`, `%` and `&` and no white space at
/// either end, sent as the form sends it, is the message that the handler
/// reads, fits in the display channel's buffer, and is drawn whole.
pub proof fn lemma_typed_message_displayed(t: Seq<char>, rest: Seq<char>)
    requires
        plain_text(t),
        trim(t) == t,
        is_ascii_chars(t),
        !t.contains('\n'),
        t.len() <= 36,
    ensures
        submitted_message(message_key() + form_encode_spaces(t)) == Some(t),
        submitted_message(message_key() + form_encode_spaces(t) + seq!['&'] + rest) == Some(t),
        encode_utf8(t).len() <= MESSAGE_CAPACITY,
        joined_text(layout_lines(t)) == t,
{
    lemma_form_round_trip(t, rest);
    vstd::utf8::is_ascii_chars_encode_utf8(t);
    lemma_short_message_shown_whole(t);
}

/// The lines that show `msg` on the display, each with the vertical position
/// of its top.
pub fn layout_message(msg: &str) -> (lines: Vec<DisplayLine>)
    ensures
        lines@.map_values(|l: DisplayLine| line_view(l)) == layout_lines(msg@),
        lines@.map_values(|l: DisplayLine| line_view(l)) == greedy_lines(msg@),
{
    proof {
        lemma_layout_is_greedy(msg@);
    }
    let v = chars_of(msg);
    let n = v.len();
    let mut lines: Vec<DisplayLine> = Vec::new();
    let mut y_pos: i32 = FIRST_LINE_Y;
    let mut char_count: usize = 0;
    let mut current_line = new_line();
    let mut stopped = false;
    let mut idx: usize = 0;
    assert(lines@.map_values(|l: DisplayLine| line_view(l)) =~= Seq::<(int, Seq<char>)>::empty());
    while idx < n && !stopped
        invariant
            idx <= n == v.len(),
            v@ == msg@,
            layout_prefix(v@, idx as nat) == (LayoutState {
                lines: lines@.map_values(|l: DisplayLine| line_view(l)),
                y: y_pos as int,
                current: line_chars(current_line),
                stopped,
            }),
            char_count == line_chars(current_line).len(),
            FIRST_LINE_Y <= y_pos <= MAX_LINE_Y + LINE_HEIGHT + LINE_HEIGHT,
            !stopped ==> y_pos <= MAX_LINE_Y,
        decreases n - idx,
    {
        let ghost st = layout_prefix(v@, idx as nat);
        let ghost old_lines = lines@;
        let ch = v[idx];
        let mut handled = false;
        if ch == '\n' || char_count >= MAX_CHARS_PER_LINE {
            if !line_is_empty(&current_line) {
                let drawn = DisplayLine { y: y_pos, text: current_line };
                lines.push(drawn);
                current_line = new_line();
                y_pos = y_pos + LINE_HEIGHT;
                char_count = 0;
                assert(lines@.map_values(|l: DisplayLine| line_view(l)) == old_lines.map_values(
                    |l: DisplayLine| line_view(l),
                ).push((st.y, st.current)));
                if y_pos > MAX_LINE_Y {
                    stopped = true;
                    handled = true;
                }
            }
            if ch == '\n' {
                handled = true;
            }
        }
        if !handled {
            let ghost mid_lines = lines@;
            let ghost cur1 = line_chars(current_line);
            if line_push(&mut current_line, ch) {
                char_count = char_count + 1;
            } else {
                let drawn = DisplayLine { y: y_pos, text: current_line };
                lines.push(drawn);
                assert(lines@.map_values(|l: DisplayLine| line_view(l)) == mid_lines.map_values(
                    |l: DisplayLine| line_view(l),
                ).push((y_pos as int, cur1)));
                current_line = new_line();
                y_pos = y_pos + LINE_HEIGHT;
                proof {
                    lemma_char_bytes(ch);
                    assert(Seq::<char>::empty().push(ch) == seq![ch]);
                }
                if line_push(&mut current_line, ch) {
                    char_count = 1;
                }
                if y_pos > MAX_LINE_Y {
                    stopped = true;
                }
            }
        }
        idx += 1;
    }
    proof {
        if stopped {
            lemma_stopped_stays(v@, idx as nat, n as nat);
        }
    }
    if !line_is_empty(&current_line) && y_pos <= MAX_LINE_Y {
        let ghost before = lines@;
        let drawn = DisplayLine { y: y_pos, text: current_line };
        lines.push(drawn);
        assert(lines@.map_values(|l: DisplayLine| line_view(l)) == before.map_values(
            |l: DisplayLine| line_view(l),
        ).push((y_pos as int, line_chars(drawn.text))));
    }
    lines
}

/// The message as it goes to the display, where its UTF-8 bytes fit in the
/// display channel's 64-byte buffer; `None` where they do not, and then the
/// message is not sent.
pub fn frame_for_display(message: &str) -> (framed: Option<heapless::String<64>>)
    ensures
        framed is Some <==> encode_utf8(message@).len() <= MESSAGE_CAPACITY,
        framed matches Some(m) ==> message_chars(m) == message@,
{
    let mut m = new_message();
    assert(Seq::<char>::empty() + message@ == message@);
    if message_push_str(&mut m, message) {
        Some(m)
    } else {
        None
    }
}

} // verus!
