//! Breaking a message into display lines in the direct, greedy form: the
//! message is split at its newlines, and each part is cut from the front into
//! the longest pieces of at most twelve characters and twelve UTF-8 bytes.
use vstd::prelude::*;
use vstd::utf8::encode_utf8;
use crate::bounded::LINE_CAPACITY;
use crate::text::{lemma_split_on_len, split_on};

verus! {

/// Characters per line: 72 pixels of 6-pixel-wide glyphs.
pub const MAX_CHARS_PER_LINE: usize = 12;

/// Whether `t` fits, in UTF-8 bytes, in one line.
pub open spec fn fits_bytes(t: Seq<char>) -> bool {
    encode_utf8(t).len() <= LINE_CAPACITY
}

/// Whether the first `k` characters of `s` are the longest start of `s` that
/// makes a line: one to twelve characters that fit in twelve bytes, where no
/// longer start of at most twelve characters fits.
pub open spec fn is_first_piece_len(s: Seq<char>, k: int) -> bool {
    &&& 1 <= k <= s.len()
    &&& k <= MAX_CHARS_PER_LINE
    &&& fits_bytes(s.take(k))
    &&& forall|j: int| k < j <= s.len() && j <= MAX_CHARS_PER_LINE ==> !fits_bytes(#[trigger] s.take(j))
}

/// The length of the longest line that `s` starts with.
pub open spec fn first_piece_len(s: Seq<char>) -> int {
    choose|k: int| is_first_piece_len(s, k)
}

/// `s` cut from the front into the longest lines, one after the other.
pub open spec fn pieces(s: Seq<char>) -> Seq<Seq<char>>
    decreases s.len(),
{
    if s.len() == 0 {
        Seq::empty()
    } else {
        let k = first_piece_len(s);
        if 1 <= k <= s.len() {
            seq![s.take(k)] + pieces(s.skip(k))
        } else {
            Seq::empty()
        }
    }
}

/// The lines of several parts, the lines of each part after those of the parts before it.
pub open spec fn parts_pieces(parts: Seq<Seq<char>>) -> Seq<Seq<char>>
    decreases parts.len(),
{
    if parts.len() == 0 {
        Seq::empty()
    } else {
        parts_pieces(parts.drop_last()) + pieces(parts.last())
    }
}

/// All lines of a message: each newline-free part between newlines, cut into
/// the longest lines; an empty part gives none.
pub open spec fn message_pieces(msg: Seq<char>) -> Seq<Seq<char>> {
    parts_pieces(split_on(msg, '\n'))
}

/// The texts `ws` one after the other.
pub open spec fn concat_all(ws: Seq<Seq<char>>) -> Seq<char>
    decreases ws.len(),
{
    if ws.len() == 0 {
        Seq::empty()
    } else {
        concat_all(ws.drop_last()) + ws.last()
    }
}

/// The UTF-8 encoding of two texts one after the other is the two encodings
/// one after the other.
pub proof fn lemma_encode_utf8_append(a: Seq<char>, b: Seq<char>)
    ensures
        encode_utf8(a + b) == encode_utf8(a) + encode_utf8(b),
    decreases a.len(),
{
    if a.len() == 0 {
        assert(a + b =~= b);
        assert(encode_utf8(a) + encode_utf8(b) =~= encode_utf8(b));
    } else {
        lemma_encode_utf8_append(a.drop_first(), b);
        assert((a + b).drop_first() =~= a.drop_first() + b);
        assert((a + b)[0] == a[0]);
        let x = vstd::utf8::encode_scalar(a[0] as u32);
        assert(x + (encode_utf8(a.drop_first()) + encode_utf8(b)) =~= (x + encode_utf8(
            a.drop_first(),
        )) + encode_utf8(b));
    }
}

/// One character takes one to four bytes in UTF-8, and an ASCII one takes one.
pub proof fn lemma_char_bytes(c: char)
    ensures
        1 <= encode_utf8(seq![c]).len() <= 4,
        (c as u32) < 0x80 ==> encode_utf8(seq![c]).len() == 1,
{
    let s = seq![c];
    assert(s.drop_first() =~= Seq::<char>::empty());
    assert(encode_utf8(s.drop_first()) == Seq::<u8>::empty());
    assert(encode_utf8(s) == vstd::utf8::encode_scalar(c as u32) + encode_utf8(s.drop_first()));
}

/// A longer start of a text takes at least as many bytes.
proof fn lemma_take_bytes_mono(s: Seq<char>, i: int, j: int)
    requires
        0 <= i <= j <= s.len(),
    ensures
        encode_utf8(s.take(i)).len() <= encode_utf8(s.take(j)).len(),
{
    assert(s.take(j) =~= s.take(i) + s.subrange(i, j));
    lemma_encode_utf8_append(s.take(i), s.subrange(i, j));
}

proof fn lemma_first_piece_exists_from(s: Seq<char>, j: int)
    requires
        1 <= j <= s.len(),
        j <= MAX_CHARS_PER_LINE,
        fits_bytes(s.take(j)),
    ensures
        exists|k: int| is_first_piece_len(s, k),
    decreases s.len() - j,
{
    if j == s.len() || j == MAX_CHARS_PER_LINE {
        assert(is_first_piece_len(s, j));
    } else if !fits_bytes(s.take(j + 1)) {
        assert forall|i: int| j < i <= s.len() && i <= MAX_CHARS_PER_LINE implies !fits_bytes(
            #[trigger] s.take(i),
        ) by {
            lemma_take_bytes_mono(s, j + 1, i);
        }
        assert(is_first_piece_len(s, j));
    } else {
        lemma_first_piece_exists_from(s, j + 1);
    }
}

/// A non-empty text starts with exactly one longest line, of `first_piece_len` characters.
pub proof fn lemma_first_piece(s: Seq<char>, k: int)
    requires
        s.len() > 0,
    ensures
        is_first_piece_len(s, first_piece_len(s)),
        is_first_piece_len(s, k) ==> first_piece_len(s) == k,
{
    lemma_char_bytes(s[0]);
    assert(s.take(1) =~= seq![s[0]]);
    lemma_first_piece_exists_from(s, 1);
    let f = first_piece_len(s);
    if is_first_piece_len(s, k) && f != k {
        if f < k {
            assert(!fits_bytes(s.take(k)));
        } else {
            assert(!fits_bytes(s.take(f)));
        }
    }
}

/// How the lines of a non-empty text change when a character is added at the
/// end: the last line takes it where it still fits, and it starts a new line
/// otherwise.
pub proof fn lemma_pieces_push(s: Seq<char>, c: char)
    requires
        s.len() > 0,
    ensures
        pieces(s).len() > 0,
        ({
            let ps = pieces(s);
            let q = ps.last();
            pieces(s.push(c)) == if q.len() < MAX_CHARS_PER_LINE && fits_bytes(q.push(c)) {
                ps.update(ps.len() - 1, q.push(c))
            } else {
                ps.push(seq![c])
            }
        }),
    decreases s.len(),
{
    let t = s.push(c);
    lemma_first_piece(s, 0);
    let k = first_piece_len(s);
    let rest = s.skip(k);
    assert(pieces(s) == seq![s.take(k)] + pieces(rest));
    assert(t.take(k) =~= s.take(k));
    if k < s.len() {
        assert forall|j: int| k < j <= t.len() && j <= MAX_CHARS_PER_LINE implies !fits_bytes(
            #[trigger] t.take(j),
        ) by {
            if j <= s.len() {
                assert(t.take(j) =~= s.take(j));
            } else {
                assert(t.take(k + 1) =~= s.take(k + 1));
                lemma_take_bytes_mono(t, k + 1, j);
            }
        }
        assert(is_first_piece_len(t, k));
        lemma_first_piece(t, k);
        assert(t.skip(k) =~= rest.push(c));
        assert(pieces(t) == seq![s.take(k)] + pieces(rest.push(c)));
        lemma_pieces_push(rest, c);
        let pr = pieces(rest);
        let ps = pieces(s);
        assert(ps.last() == pr.last());
        let q = pr.last();
        if q.len() < MAX_CHARS_PER_LINE && fits_bytes(q.push(c)) {
            assert(seq![s.take(k)] + pr.update(pr.len() - 1, q.push(c)) =~= ps.update(
                ps.len() - 1,
                q.push(c),
            ));
        } else {
            assert(seq![s.take(k)] + pr.push(seq![c]) =~= ps.push(seq![c]));
        }
    } else {
        assert(rest =~= Seq::<char>::empty());
        assert(s.take(k) =~= s);
        assert(pieces(s) =~= seq![s]);
        assert(t.take(s.len() as int) =~= s);
        if s.len() < MAX_CHARS_PER_LINE && fits_bytes(s.push(c)) {
            assert(t.take(t.len() as int) =~= t);
            assert(is_first_piece_len(t, t.len() as int));
            lemma_first_piece(t, t.len() as int);
            assert(t.skip(t.len() as int) =~= Seq::<char>::empty());
            assert(pieces(t) =~= seq![t]);
            assert(seq![s].update(0, t) =~= seq![t]);
        } else {
            assert forall|j: int| s.len() < j <= t.len() && j <= MAX_CHARS_PER_LINE implies !fits_bytes(
                #[trigger] t.take(j),
            ) by {
                assert(t.take(j) =~= t);
            }
            assert(is_first_piece_len(t, s.len() as int));
            lemma_first_piece(t, s.len() as int);
            assert(t.skip(s.len() as int) =~= seq![c]);
            lemma_single_piece(c);
            assert(pieces(t) =~= seq![s] + seq![seq![c]]);
        }
    }
}

/// A single character is a single line.
pub proof fn lemma_single_piece(c: char)
    ensures
        pieces(seq![c]) == seq![seq![c]],
{
    let s = seq![c];
    lemma_char_bytes(c);
    assert(s.take(1) =~= s);
    assert(is_first_piece_len(s, 1));
    lemma_first_piece(s, 1);
    assert(s.skip(1) =~= Seq::<char>::empty());
    assert(pieces(Seq::<char>::empty()) == Seq::<Seq<char>>::empty());
    assert(pieces(s.skip(1)) == Seq::<Seq<char>>::empty());
    assert(seq![s.take(1)] + Seq::<Seq<char>>::empty() =~= seq![s]);
}

/// How the lines of a message change when a character is added at the end:
/// a newline closes the part being cut, and any other character goes to the
/// lines of that part.
pub proof fn lemma_message_pieces_push(m: Seq<char>, c: char)
    ensures
        split_on(m, '\n').len() >= 1,
        message_pieces(m) == parts_pieces(split_on(m, '\n').drop_last()) + pieces(
            split_on(m, '\n').last(),
        ),
        c == '\n' ==> message_pieces(m.push(c)) == message_pieces(m) && split_on(
            m.push(c),
            '\n',
        ).last().len() == 0,
        c != '\n' ==> message_pieces(m.push(c)) == parts_pieces(split_on(m, '\n').drop_last())
            + pieces(split_on(m, '\n').last().push(c)) && split_on(m.push(c), '\n').last()
            == split_on(m, '\n').last().push(c),
{
    lemma_split_on_len(m, '\n');
    let ps = split_on(m, '\n');
    assert(m.push(c).drop_last() =~= m);
    assert(m.push(c).last() == c);
    if c == '\n' {
        let qs = ps.push(Seq::<char>::empty());
        assert(qs.drop_last() =~= ps);
        assert(pieces(Seq::<char>::empty()) =~= Seq::<Seq<char>>::empty());
        assert(parts_pieces(ps) + Seq::<Seq<char>>::empty() =~= parts_pieces(ps));
    } else {
        let qs = ps.update(ps.len() - 1, ps.last().push(c));
        assert(qs.drop_last() =~= ps.drop_last());
    }
}

/// Concatenating the lines of a message gives the message without its
/// newlines, and every line is non-empty.
pub proof fn lemma_message_pieces_concat(m: Seq<char>)
    ensures
        concat_all(message_pieces(m)) == crate::display::without_newlines(m),
        forall|i: int| 0 <= i < message_pieces(m).len() ==> (#[trigger] message_pieces(m)[i]).len() > 0,
        split_on(m, '\n').last().len() > 0 ==> message_pieces(m).len() > 0 && message_pieces(
            m,
        ).last() == pieces(split_on(m, '\n').last()).last(),
    decreases m.len(),
{
    lemma_split_on_len(m, '\n');
    if m.len() == 0 {
        assert(split_on(m, '\n') =~= seq![Seq::<char>::empty()]);
        let e = Seq::<char>::empty();
        assert(seq![e].drop_last() =~= Seq::<Seq<char>>::empty());
        assert(pieces(e) == Seq::<Seq<char>>::empty());
        assert(parts_pieces(seq![e]) == parts_pieces(seq![e].drop_last()) + pieces(e));
        assert(parts_pieces(Seq::<Seq<char>>::empty()) == Seq::<Seq<char>>::empty());
        assert(message_pieces(m) =~= Seq::<Seq<char>>::empty());
    } else {
        let p = m.drop_last();
        let c = m.last();
        assert(p.push(c) =~= m);
        lemma_message_pieces_concat(p);
        lemma_message_pieces_push(p, c);
        let w = message_pieces(p);
        let o = split_on(p, '\n').last();
        let before = parts_pieces(split_on(p, '\n').drop_last());
        if c == '\n' {
        } else if o.len() == 0 {
            assert(o.push(c) =~= seq![c]);
            lemma_single_piece(c);
            assert(pieces(o) =~= Seq::<Seq<char>>::empty());
            assert(w =~= before);
            assert(message_pieces(m) =~= w.push(seq![c]));
            assert(message_pieces(m).drop_last() =~= w);
            assert(concat_all(w) + seq![c] =~= concat_all(w).push(c));
        } else {
            lemma_pieces_push(o, c);
            let po = pieces(o);
            let q = po.last();
            assert(w == before + po);
            if q.len() < MAX_CHARS_PER_LINE && fits_bytes(q.push(c)) {
                assert(message_pieces(m) =~= w.update(w.len() - 1, q.push(c)));
                assert(w.last() == q);
                assert(w.update(w.len() - 1, q.push(c)).drop_last() =~= w.drop_last());
                assert(concat_all(w) == concat_all(w.drop_last()) + q);
                assert(concat_all(w.drop_last()) + q.push(c) =~= (concat_all(w.drop_last())
                    + q).push(c));
            } else {
                assert(message_pieces(m) =~= w.push(seq![c]));
                assert(w.push(seq![c]).drop_last() =~= w);
                assert(concat_all(w) + seq![c] =~= concat_all(w).push(c));
            }
        }
    }
}

} // verus!
