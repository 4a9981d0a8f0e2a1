use vstd::prelude::*;

use crate::bindings::{lowercase, push_char, to_lowercase};
use crate::text::{
    append_str, chars_of, contains_chars, contains_text, decimal, occurs_at, push_decimal,
};
use vstd::string::StringSliceAdditionalSpecFns;
use vstd::utf8::{
    decode_utf8, encode_utf8, encode_utf8_decode_utf8, encode_utf8_valid_utf8, is_char_boundary,
    is_char_boundary_iff_not_is_continuation_byte, is_char_boundary_start_end_of_seq, valid_utf8,
    valid_utf8_split, decode_utf8_split, encode_scalar, encode_utf8_first_scalar, pop_first_scalar,
};

verus! {

/// A run of a displayed line, marked where it matches the search query.
#[derive(Debug, Clone)]
pub struct Segment {
    pub text: String,
    pub highlighted: bool,
}

impl DeepView for Segment {
    type V = (Seq<char>, bool);

    open spec fn deep_view(&self) -> (Seq<char>, bool) {
        (self.text@, self.highlighted)
    }
}

/// `s` padded on the left with spaces to at least `width` characters.
pub open spec fn pad_left(s: Seq<char>, width: nat) -> Seq<char> {
    if s.len() < width {
        Seq::new((width - s.len()) as nat, |i: int| ' ') + s
    } else {
        s
    }
}

/// What stands before a displayed line: its number, right-aligned in four
/// columns, and a bar, where line numbers are on; else nothing.
pub open spec fn line_prefix(numbered: bool, number: nat) -> Seq<char> {
    if numbered {
        pad_left(decimal(number), 4) + " │ "@
    } else {
        seq![]
    }
}

/// The runs of the displayed line whose UTF-8 bytes are `f`, walked byte by
/// byte from `i` on, where `h` is the UTF-8 of the lowercased line, `n` that
/// of the lowercased query and `qb` the byte length of the query as typed,
/// `last` the end of the runs so far. Each run is a byte range of `f` and
/// whether it is marked. At each position where `h` holds `n`, `qb` bytes of
/// the line are marked and the walk goes on after them; the text between forms
/// plain runs. `None` where the walk would cut a string inside a character
/// (as slicing a `str` there panics), or where `qb` is 0.
pub open spec fn byte_runs(f: Seq<u8>, h: Seq<u8>, n: Seq<u8>, qb: int, i: int, last: int) -> Option<
    Seq<(int, int, bool)>,
>
    decreases f.len() + 1 - i,
{
    if qb <= 0 || i < 0 || last < 0 || i > f.len() {
        None
    } else if i + n.len() > f.len() {
        if last < f.len() {
            if is_char_boundary(f, last) {
                Some(seq![(last, f.len() as int, false)])
            } else {
                None
            }
        } else {
            Some(seq![])
        }
    } else if !is_char_boundary(h, i) {
        None
    } else if i + n.len() <= h.len() && h.subrange(i, i + n.len()) == n {
        let j = i + qb;
        if (i > last && !(is_char_boundary(f, last) && is_char_boundary(f, i))) || j > f.len()
            || !is_char_boundary(f, i) || !is_char_boundary(f, j) {
            None
        } else {
            match byte_runs(f, h, n, qb, j, j) {
                Some(rest) => Some(
                    (if i > last {
                        seq![(last, i, false)]
                    } else {
                        seq![]
                    }) + seq![(i, j, true)] + rest,
                ),
                None => None,
            }
        }
    } else {
        byte_runs(f, h, n, qb, i + 1, last)
    }
}

/// The texts of the byte ranges `rs` of `f`, with their marks.
pub open spec fn run_texts(f: Seq<u8>, rs: Seq<(int, int, bool)>) -> Seq<(Seq<char>, bool)> {
    rs.map_values(|r: (int, int, bool)| (decode_utf8(f.subrange(r.0, r.1)), r.2))
}

/// The runs of the displayed line `t` whose lowercase form is `lt`, for the
/// lowercased query `lq` typed as `qb` bytes: the byte walk's runs, or the
/// whole line as one plain run where the walk would cut inside a character.
pub open spec fn marked_runs(t: Seq<char>, lt: Seq<char>, lq: Seq<char>, qb: int) -> Seq<
    (Seq<char>, bool),
> {
    match byte_runs(encode_utf8(t), encode_utf8(lt), encode_utf8(lq), qb, 0, 0) {
        Some(rs) => run_texts(encode_utf8(t), rs),
        None => seq![(t, false)],
    }
}

/// The runs of the displayed line `t` for the search query `q`: where the
/// lowercase line contains the lowercase query, the matches are marked as the
/// byte walk finds them; otherwise the line is one plain run.
pub open spec fn highlight_runs(t: Seq<char>, q: Seq<char>) -> Seq<(Seq<char>, bool)> {
    if q.len() > 0 && contains_text(lowercase(t), lowercase(q)) {
        marked_runs(t, lowercase(t), lowercase(q), encode_utf8(q).len() as int)
    } else {
        seq![(t, false)]
    }
}

/// The walk of the row `t` would cut no string inside a character.
pub open spec fn walk_is_whole(t: Seq<char>, q: Seq<char>) -> bool {
    byte_runs(
        encode_utf8(t),
        encode_utf8(lowercase(t)),
        encode_utf8(lowercase(q)),
        encode_utf8(q).len() as int,
        0,
        0,
    ) is Some
}

/// The texts of `runs` put back together.
pub open spec fn joined_runs(runs: Seq<(Seq<char>, bool)>) -> Seq<char>
    decreases runs.len(),
{
    if runs.len() == 0 {
        seq![]
    } else {
        joined_runs(runs.drop_last()) + runs.last().0
    }
}

proof fn lemma_boundary_shift(f: Seq<u8>, a: int, j: int)
    requires
        valid_utf8(f),
        is_char_boundary(f, a),
        0 <= j,
    ensures
        0 <= a <= f.len(),
        valid_utf8(f.subrange(a, f.len() as int)),
        is_char_boundary(f.subrange(a, f.len() as int), j) == is_char_boundary(f, a + j),
{
    let g = f.subrange(a, f.len() as int);
    valid_utf8_split(f, a);
    is_char_boundary_start_end_of_seq(f);
    is_char_boundary_start_end_of_seq(g);
    if 0 < j < g.len() {
        is_char_boundary_iff_not_is_continuation_byte(f, a + j);
        is_char_boundary_iff_not_is_continuation_byte(g, j);
        assert(g[j] == f[a + j]);
    }
}

/// The byte ranges `rs` follow each other from `a` to the end of `f`, each
/// ending between two characters.
pub open spec fn covers(f: Seq<u8>, rs: Seq<(int, int, bool)>, a: int) -> bool
    decreases rs.len(),
{
    if rs.len() == 0 {
        a == f.len()
    } else {
        &&& rs[0].0 == a
        &&& a <= rs[0].1
        &&& is_char_boundary(f, rs[0].1)
        &&& covers(f, rs.drop_first(), rs[0].1)
    }
}

proof fn lemma_byte_runs_cover(f: Seq<u8>, h: Seq<u8>, n: Seq<u8>, qb: int, i: int, last: int)
    requires
        valid_utf8(f),
        0 <= last <= i,
        byte_runs(f, h, n, qb, i, last) is Some,
    ensures
        covers(f, byte_runs(f, h, n, qb, i, last)->0, last),
        is_char_boundary(f, last),
    decreases f.len() + 1 - i,
{
    is_char_boundary_start_end_of_seq(f);
    let rs = byte_runs(f, h, n, qb, i, last)->0;
    if i + n.len() > f.len() {
        if last < f.len() {
            assert(rs.drop_first() =~= Seq::<(int, int, bool)>::empty());
            assert(covers(f, rs.drop_first(), f.len() as int));
        }
    } else if i + n.len() <= h.len() && h.subrange(i, i + n.len()) == n {
        let j = i + qb;
        lemma_byte_runs_cover(f, h, n, qb, j, j);
        let rest = byte_runs(f, h, n, qb, j, j)->0;
        let mid = seq![(i, j, true)] + rest;
        assert(mid.drop_first() =~= rest);
        assert(mid[0] == (i, j, true));
        assert(covers(f, mid, i));
        if i > last {
            assert(rs.drop_first() =~= mid);
            assert(rs[0] == (last, i, false));
        } else {
            assert(rs =~= mid);
        }
    } else {
        lemma_byte_runs_cover(f, h, n, qb, i + 1, last);
    }
}

proof fn lemma_joined_runs_front(x: (Seq<char>, bool), rest: Seq<(Seq<char>, bool)>)
    ensures
        joined_runs(seq![x] + rest) == x.0 + joined_runs(rest),
    decreases rest.len(),
{
    if rest.len() == 0 {
        assert(seq![x] + rest =~= seq![x]);
        assert(seq![x].drop_last() =~= Seq::<(Seq<char>, bool)>::empty());
        assert(joined_runs(Seq::<(Seq<char>, bool)>::empty()) =~= Seq::<char>::empty());
        assert(joined_runs(seq![x]) =~= x.0);
        assert(x.0 + joined_runs(rest) =~= x.0);
    } else {
        lemma_joined_runs_front(x, rest.drop_last());
        assert((seq![x] + rest).drop_last() =~= seq![x] + rest.drop_last());
        assert(joined_runs(seq![x] + rest) =~= x.0 + joined_runs(rest));
    }
}

proof fn lemma_covered_text(f: Seq<u8>, rs: Seq<(int, int, bool)>, a: int)
    requires
        valid_utf8(f),
        is_char_boundary(f, a),
        covers(f, rs, a),
    ensures
        joined_runs(run_texts(f, rs)) == decode_utf8(f.subrange(a, f.len() as int)),
    decreases rs.len(),
{
    lemma_boundary_shift(f, a, 0);
    if rs.len() == 0 {
        assert(run_texts(f, rs) =~= Seq::<(Seq<char>, bool)>::empty());
        assert(f.subrange(a, f.len() as int) =~= Seq::<u8>::empty());
    } else {
        let b = rs[0].1;
        lemma_covered_text(f, rs.drop_first(), b);
        assert(run_texts(f, rs) =~= seq![(decode_utf8(f.subrange(a, b)), rs[0].2)] + run_texts(
            f,
            rs.drop_first(),
        ));
        lemma_joined_runs_front((decode_utf8(f.subrange(a, b)), rs[0].2), run_texts(f, rs.drop_first()));
        let g = f.subrange(a, f.len() as int);
        lemma_boundary_shift(f, a, b - a);
        decode_utf8_split(g, b - a);
        assert(g.subrange(0, b - a) =~= f.subrange(a, b));
        assert(g.subrange(b - a, g.len() as int) =~= f.subrange(b, f.len() as int));
    }
}

/// Marking the matches of a query never changes the text of a line: the runs
/// put back together are the line.
pub proof fn law_runs_keep_text(t: Seq<char>, q: Seq<char>)
    ensures
        joined_runs(highlight_runs(t, q)) == t,
{
    let f = encode_utf8(t);
    encode_utf8_valid_utf8(t);
    encode_utf8_decode_utf8(t);
    let single = seq![(t, false)];
    lemma_joined_runs_front((t, false), Seq::<(Seq<char>, bool)>::empty());
    assert(single =~= seq![(t, false)] + Seq::<(Seq<char>, bool)>::empty());
    assert(joined_runs(Seq::<(Seq<char>, bool)>::empty()) =~= Seq::<char>::empty());
    assert(joined_runs(single) =~= t);
    if q.len() > 0 && contains_text(lowercase(t), lowercase(q)) {
        let h = encode_utf8(lowercase(t));
        let n = encode_utf8(lowercase(q));
        let qb = encode_utf8(q).len() as int;
        if byte_runs(f, h, n, qb, 0, 0) is Some {
            lemma_byte_runs_cover(f, h, n, qb, 0, 0);
            lemma_covered_text(f, byte_runs(f, h, n, qb, 0, 0)->0, 0);
            assert(f.subrange(0, f.len() as int) =~= f);
        }
    }
}

/// The text of the bytes `a..b` of `s`, if both ends fall between characters.
pub fn byte_slice(s: &str, a: usize, b: usize) -> (r: Option<String>)
    ensures
        r is Some <==> (a <= b && is_char_boundary(s.spec_bytes(), a as int) && is_char_boundary(
            s.spec_bytes(),
            b as int,
        )),
        r matches Some(x) ==> x@ == decode_utf8(s.spec_bytes().subrange(a as int, b as int)),
{
    proof {
        encode_utf8_valid_utf8(s@);
    }
    if a <= b && s.is_char_boundary(a) && s.is_char_boundary(b) {
        let f = Ghost(s.spec_bytes());
        proof {
            lemma_boundary_shift(f@, a as int, (b - a) as int);
            assert(a + (b - a) == b);
        }
        let (_, rest) = s.split_at(a);
        proof {
            assert(rest.spec_bytes() =~= f@.subrange(a as int, f@.len() as int));
        }
        let (piece, _) = rest.split_at(b - a);
        proof {
            assert(piece.spec_bytes() =~= f@.subrange(a as int, b as int));
            encode_utf8_decode_utf8(piece@);
        }
        Some(String::from_str(piece))
    } else {
        None
    }
}

/// Whether the bytes `n` stand in `h` from position `i` on.
fn bytes_at(h: &[u8], n: &[u8], i: usize) -> (b: bool)
    ensures
        b == (i + n@.len() <= h@.len() && h@.subrange(i as int, i + n@.len()) == n@),
{
    if i > h.len() || n.len() > h.len() - i {
        return false;
    }
    let hl = h.len();
    let mut k: usize = 0;
    while k < n.len()
        invariant
            k <= n.len(),
            hl == h@.len(),
            i + n@.len() <= hl,
            forall|m: int| 0 <= m < k ==> h@[i + m] == n@[m],
        decreases n.len() - k,
    {
        if h[i + k] != n[k] {
            assert(h@.subrange(i as int, i + n@.len())[k as int] != n@[k as int]);
            return false;
        }
        k = k + 1;
    }
    assert(h@.subrange(i as int, i + n@.len()) =~= n@);
    true
}

/// The runs of the displayed line `text` for a query typed as `query_bytes`
/// bytes, given the lowercase forms of both: the runs of the byte walk, or the
/// line as one plain run where the walk would cut inside a character.
pub fn mark_runs(text: &str, lower_text: &str, lower_query: &str, query_bytes: usize) -> (runs: Vec<
    Segment,
>)
    ensures
        runs.deep_view() == marked_runs(text@, lower_text@, lower_query@, query_bytes as int),
{
    let ghost fs = encode_utf8(text@);
    let ghost hs = encode_utf8(lower_text@);
    let ghost ns = encode_utf8(lower_query@);
    let ghost qb = query_bytes as int;
    let f = text.as_bytes();
    let h = lower_text.as_bytes();
    let n = lower_query.as_bytes();
    let mut plain: Vec<Segment> = Vec::new();
    plain.push(Segment { text: String::from_str(text), highlighted: false });
    assert(plain.deep_view() =~= seq![(text@, false)]);
    if query_bytes == 0 {
        return plain;
    }
    let flen = f.len();
    let nlen = n.len();
    let mut runs: Vec<Segment> = Vec::new();
    let mut i: usize = 0;
    let mut last: usize = 0;
    let ghost mut done: Seq<(int, int, bool)> = seq![];
    proof {
        encode_utf8_valid_utf8(text@);
        encode_utf8_valid_utf8(lower_text@);
    }
    assert(done + byte_runs(fs, hs, ns, qb, 0, 0)->0 =~= byte_runs(fs, hs, ns, qb, 0, 0)->0);
    while nlen <= flen && i <= flen - nlen
        invariant
            f@ == fs,
            h@ == hs,
            n@ == ns,
            fs == encode_utf8(text@),
            hs == encode_utf8(lower_text@),
            ns == encode_utf8(lower_query@),
            valid_utf8(fs),
            valid_utf8(hs),
            flen == fs.len(),
            nlen == ns.len(),
            qb == query_bytes as int,
            query_bytes > 0,
            plain.deep_view() == seq![(text@, false)],
            last <= i <= flen,
            runs.deep_view() == run_texts(fs, done),
            byte_runs(fs, hs, ns, qb, 0, 0) == (match byte_runs(fs, hs, ns, qb, i as int, last as int) {
                Some(rest) => Some(done + rest),
                None => None::<Seq<(int, int, bool)>>,
            }),
        decreases flen - i,
    {
        if !lower_text.is_char_boundary(i) {
            return plain;
        }
        if bytes_at(h, n, i) {
            if query_bytes > flen - i {
                return plain;
            }
            let j = i + query_bytes;
            let ghost front: Seq<(int, int, bool)> = if i > last {
                seq![(last as int, i as int, false)]
            } else {
                seq![]
            };
            if i > last {
                match byte_slice(text, last, i) {
                    Some(piece) => {
                        let ghost before = runs.deep_view();
                        let ghost pv = piece@;
                        runs.push(Segment { text: piece, highlighted: false });
                        assert(runs.deep_view() =~= before.push((pv, false)));
                    },
                    None => {
                        return plain;
                    },
                }
            }
            match byte_slice(text, i, j) {
                Some(piece) => {
                    let ghost before = runs.deep_view();
                    let ghost pv = piece@;
                    runs.push(Segment { text: piece, highlighted: true });
                    assert(runs.deep_view() =~= before.push((pv, true)));
                },
                None => {
                    return plain;
                },
            }
            proof {
                let added = front + seq![(i as int, j as int, true)];
                let old_done = done;
                assert(runs.deep_view() =~= run_texts(fs, old_done + added));
                done = old_done + added;
                match byte_runs(fs, hs, ns, qb, j as int, j as int) {
                    Some(rest) => {
                        assert(old_done + (added + rest) =~= done + rest);
                    },
                    None => {},
                }
            }
            last = j;
            i = j;
        } else {
            proof {
                if nlen == 0 {
                    assert(is_char_boundary(hs, i as int));
                    assert(i <= hs.len());
                    assert(h@.subrange(i as int, i as int) =~= n@);
                }
            }
            i = i + 1;
        }
    }
    if last < flen {
        match byte_slice(text, last, flen) {
            Some(piece) => {
                let ghost before = runs.deep_view();
                let ghost pv = piece@;
                runs.push(Segment { text: piece, highlighted: false });
                proof {
                    assert(runs.deep_view() =~= before.push((pv, false)));
                    encode_utf8_valid_utf8(text@);
                    is_char_boundary_start_end_of_seq(fs);
                    let added = seq![(last as int, flen as int, false)];
                    assert(runs.deep_view() =~= run_texts(fs, done + added));
                    done = done + added;
                }
            },
            None => {
                proof {
                    encode_utf8_valid_utf8(text@);
                    is_char_boundary_start_end_of_seq(fs);
                }
                return plain;
            },
        }
    }
    proof {
        assert(done + seq![] =~= done);
    }
    runs
}

/// The runs of the displayed line `text` for the search query `query`.
pub fn highlight_segments(text: &str, query: &str) -> (runs: Vec<Segment>)
    ensures
        runs.deep_view() == highlight_runs(text@, query@),
{
    let lower_text = to_lowercase(text);
    let lower_query = to_lowercase(query);
    let h = chars_of(lower_text.as_str());
    let n = chars_of(lower_query.as_str());
    if query.is_empty() || !contains_chars(&h, &n) {
        let mut runs: Vec<Segment> = Vec::new();
        runs.push(Segment { text: String::from_str(text), highlighted: false });
        assert(runs.deep_view() =~= seq![(text@, false)]);
        return runs;
    }
    mark_runs(text, lower_text.as_str(), lower_query.as_str(), query.as_bytes().len())
}

/// The text that stands before a displayed line.
pub fn line_prefix_text(numbered: bool, number: usize) -> (p: String)
    ensures
        p@ == line_prefix(numbered, number as nat),
{
    let mut p = String::new();
    if !numbered {
        return p;
    }
    let mut digits = String::new();
    push_decimal(&mut digits, number);
    let count = digits.as_str().unicode_len();
    let mut k: usize = count;
    while k < 4
        invariant
            count <= k <= 4 || (count > 4 && k == count),
            count == decimal(number as nat).len(),
            p@ == Seq::new((k - count) as nat, |i: int| ' '),
        decreases 4 - k,
    {
        push_char(&mut p, ' ');
        proof {
            assert(p@ =~= Seq::new((k + 1 - count) as nat, |i: int| ' '));
        }
        k = k + 1;
    }
    append_str(&mut p, digits.as_str());
    append_str(&mut p, " │ ");
    proof {
        if count >= 4 {
            assert(p@ =~= decimal(number as nat) + " │ "@);
        } else {
            assert(p@ =~= pad_left(decimal(number as nat), 4) + " │ "@);
        }
    }
    p
}

/// The first shown line of a body `height` rows high over `len` lines, for
/// the scroll offset `offset`: the offset, kept within the last page.
pub open spec fn clamped_top(len: nat, height: nat, offset: nat) -> nat {
    let max_scroll: nat = if len > height {
        (len - height) as nat
    } else {
        0
    };
    if offset > max_scroll {
        max_scroll
    } else {
        offset
    }
}

/// The rows a body `height` rows high shows of `lines` from line `top` on:
/// each line after its number (counted from 1) where line numbers are on, cut
/// into runs with the matches of `query` marked.
pub open spec fn body_rows_of(
    lines: Seq<Seq<char>>,
    top: nat,
    height: nat,
    numbered: bool,
    query: Seq<char>,
) -> Seq<Seq<(Seq<char>, bool)>> {
    let count: nat = if lines.len() >= top + height {
        height
    } else if lines.len() > top {
        (lines.len() - top) as nat
    } else {
        0
    };
    Seq::new(
        count,
        |r: int| highlight_runs(line_prefix(numbered, (top + r + 1) as nat) + lines[top + r], query),
    )
}

/// The first shown line and the rows of a body `height` rows high over the
/// wrapped `lines`, for the scroll offset `scroll_offset`.
pub fn body_rows(
    lines: &Vec<String>,
    scroll_offset: usize,
    height: u16,
    numbered: bool,
    query: &str,
) -> (r: (usize, Vec<Vec<Segment>>))
    ensures
        r.0 == clamped_top(lines.len() as nat, height as nat, scroll_offset as nat),
        r.1.deep_view() == body_rows_of(lines.deep_view(), r.0 as nat, height as nat, numbered, query@),
{
    let ghost shown = lines.deep_view();
    let h = height as usize;
    let max_scroll = lines.len().saturating_sub(h);
    let top = if scroll_offset > max_scroll {
        max_scroll
    } else {
        scroll_offset
    };
    let end = if lines.len() - top < h {
        lines.len()
    } else {
        top + h
    };
    let mut rows: Vec<Vec<Segment>> = Vec::new();
    let mut idx = top;
    while idx < end
        invariant
            top <= idx <= end <= lines.len(),
            end - top <= h,
            shown == lines.deep_view(),
            rows.len() == idx - top,
            forall|r: int|
                0 <= r < rows.len() ==> #[trigger] rows.deep_view()[r] == highlight_runs(
                    line_prefix(numbered, (top + r + 1) as nat) + shown[top + r],
                    query@,
                ),
        decreases end - idx,
    {
        let mut text = line_prefix_text(numbered, idx + 1);
        append_str(&mut text, lines[idx].as_str());
        let runs = highlight_segments(text.as_str(), query);
        let ghost before = rows.deep_view();
        rows.push(runs);
        proof {
            assert(rows.deep_view() =~= before.push(runs.deep_view()));
        }
        idx = idx + 1;
    }
    assert(rows.deep_view() =~= body_rows_of(shown, top as nat, height as nat, numbered, query@));
    (top, rows)
}

/// Keeping the scroll offset within the last page moves only an offset past
/// it: an offset whose page fits in the lines stays as it is; one past the
/// last page goes back to the last page (the top, with fewer lines than rows);
/// the offset never grows.
pub proof fn law_clamp_moves_only_offsets_past_the_end(len: nat, height: nat, offset: nat)
    ensures
        clamped_top(len, height, offset) <= offset,
        offset + height <= len ==> clamped_top(len, height, offset) == offset,
        offset + height > len ==> (len >= height ==> clamped_top(len, height, offset) + height
            == len) && (len < height ==> clamped_top(len, height, offset) == 0),
{
}

/// The rows a body shows are the lines from the first shown one on, as many
/// as fit, each after its number where line numbers are on: the runs of a row
/// put back together are its prefix and its line.
pub proof fn law_body_rows_show_the_lines(
    lines: Seq<Seq<char>>,
    top: nat,
    height: nat,
    numbered: bool,
    query: Seq<char>,
)
    ensures
        ({
            let rows = body_rows_of(lines, top, height, numbered, query);
            &&& top <= lines.len() ==> rows.len() == (if lines.len() - top < height {
                (lines.len() - top) as nat
            } else {
                height
            })
            &&& forall|r: int|
                0 <= r < rows.len() ==> joined_runs(#[trigger] rows[r]) == line_prefix(
                    numbered,
                    (top + r + 1) as nat,
                ) + lines[top + r]
        }),
{
    let rows = body_rows_of(lines, top, height, numbered, query);
    assert forall|r: int| 0 <= r < rows.len() implies joined_runs(#[trigger] rows[r]) == line_prefix(
        numbered,
        (top + r + 1) as nat,
    ) + lines[top + r] by {
        law_runs_keep_text(line_prefix(numbered, (top + r + 1) as nat) + lines[top + r], query);
    }
}

proof fn lemma_encode_add(a: Seq<char>, b: Seq<char>)
    ensures
        encode_utf8(a + b) == encode_utf8(a) + encode_utf8(b),
    decreases a.len(),
{
    if a.len() == 0 {
        assert(a + b =~= b);
        assert(encode_utf8(a) + encode_utf8(b) =~= encode_utf8(b));
    } else {
        lemma_encode_add(a.drop_first(), b);
        assert((a + b).drop_first() =~= a.drop_first() + b);
        assert((a + b)[0] == a[0]);
        assert(encode_utf8(a + b) =~= encode_utf8(a) + encode_utf8(b));
    }
}

proof fn lemma_boundary_after_prefix(a: Seq<char>, b: Seq<char>)
    ensures
        is_char_boundary(encode_utf8(a + b), encode_utf8(a).len() as int),
    decreases a.len(),
{
    let s = a + b;
    encode_utf8_valid_utf8(s);
    if a.len() > 0 {
        lemma_encode_add(a, b);
        lemma_encode_add(a.drop_first(), b);
        encode_utf8_first_scalar(s);
        assert(s[0] == a[0]);
        assert(s.drop_first() =~= a.drop_first() + b);
        let bytes = encode_utf8(s);
        let first = encode_scalar(s[0] as u32);
        assert(bytes == first + encode_utf8(s.drop_first()));
        assert(first.len() > 0);
        assert(pop_first_scalar(bytes) =~= encode_utf8(s.drop_first()));
        lemma_boundary_after_prefix(a.drop_first(), b);
        assert(encode_utf8(a).len() == first.len() + encode_utf8(a.drop_first()).len());
    }
}

proof fn lemma_walk_marks(f: Seq<u8>, h: Seq<u8>, n: Seq<u8>, qb: int, i: int, last: int, p: int)
    requires
        byte_runs(f, h, n, qb, i, last) is Some,
        0 <= last <= i <= p,
        p + n.len() <= h.len(),
        p + n.len() <= f.len(),
        h.subrange(p, p + n.len()) == n,
    ensures
        exists|k: int|
            0 <= k < byte_runs(f, h, n, qb, i, last)->0.len() && (#[trigger] byte_runs(
                f,
                h,
                n,
                qb,
                i,
                last,
            )->0[k]).2,
    decreases p - i,
{
    let rs = byte_runs(f, h, n, qb, i, last)->0;
    if i + n.len() <= h.len() && h.subrange(i, i + n.len()) == n {
        let j = i + qb;
        let front = if i > last {
            seq![(last, i, false)]
        } else {
            seq![]
        };
        let rest = byte_runs(f, h, n, qb, j, j)->0;
        assert(rs == front + seq![(i, j, true)] + rest);
        assert(rs[front.len() as int] == (i, j, true));
    } else {
        assert(i != p);
        lemma_walk_marks(f, h, n, qb, i + 1, last, p);
    }
}

/// Where the query is not empty and the lowercase line contains the lowercase
/// query, some run is marked, whatever the case of the line, wherever the walk
/// cuts no character and lowercasing keeps the line's byte length.
pub proof fn law_matches_are_marked(t: Seq<char>, q: Seq<char>)
    requires
        q.len() > 0,
        contains_text(lowercase(t), lowercase(q)),
        walk_is_whole(t, q),
        encode_utf8(lowercase(t)).len() == encode_utf8(t).len(),
    ensures
        exists|k: int| 0 <= k < highlight_runs(t, q).len() && (#[trigger] highlight_runs(t, q)[k]).1,
{
    let lt = lowercase(t);
    let lq = lowercase(q);
    let f = encode_utf8(t);
    let h = encode_utf8(lt);
    let n = encode_utf8(lq);
    let qb = encode_utf8(q).len() as int;
    let c = choose|c: int| occurs_at(lt, lq, c);
    let pre = lt.subrange(0, c);
    let post = lt.subrange(c + lq.len(), lt.len() as int);
    assert(lt =~= pre + (lq + post));
    assert(lt =~= (pre + lq) + post);
    lemma_encode_add(pre, lq + post);
    lemma_encode_add(lq, post);
    lemma_encode_add(pre, lq);
    lemma_encode_add(pre + lq, post);
    let p = encode_utf8(pre).len() as int;
    assert(h == encode_utf8(pre) + (n + encode_utf8(post)));
    assert(h.subrange(p, p + n.len()) =~= n);
    lemma_walk_marks(f, h, n, qb, 0, 0, p);
    let rs = byte_runs(f, h, n, qb, 0, 0)->0;
    let k = choose|k: int| 0 <= k < rs.len() && (#[trigger] rs[k]).2;
    assert(highlight_runs(t, q) == run_texts(f, rs));
    assert(highlight_runs(t, q)[k].1);
}

} // verus!
