//! Line model of a text file and the in-place replacement of one span.
use vstd::prelude::*;
use crate::text::{split_on, split_bytes, lemma_split_on_nonempty};

verus! {

pub const LF: u8 = 10;

pub const CR: u8 = 13;

/// A line without the carriage return that ended it.
pub open spec fn strip_cr(l: Seq<u8>) -> Seq<u8> {
    if l.len() > 0 && l.last() == CR {
        l.drop_last()
    } else {
        l
    }
}

/// The lines of a text: split at each `\n`, a `\r` right before a `\n` dropped,
/// and no empty line after a final `\n`. A `\r` with no `\n` after it is kept.
pub open spec fn lines_of(s: Seq<u8>) -> Seq<Seq<u8>> {
    let p = split_on(s, LF);
    let n = if p.last().len() == 0 {
        p.len() - 1
    } else {
        p.len() as int
    };
    Seq::new(n as nat, |k: int| piece_line(p, k))
}

/// Piece `k` of a text split at `\n`, as a line: pieces that a `\n` ends lose a final `\r`.
pub open spec fn piece_line(p: Seq<Seq<u8>>, k: int) -> Seq<u8> {
    if k < p.len() - 1 {
        strip_cr(p[k])
    } else {
        p[k]
    }
}

/// Lines joined with `\r\n` between them.
pub open spec fn join_crlf(ls: Seq<Seq<u8>>) -> Seq<u8>
    decreases ls.len(),
{
    if ls.len() == 0 {
        Seq::empty()
    } else if ls.len() == 1 {
        ls[0]
    } else {
        join_crlf(ls.drop_last()) + seq![CR, LF] + ls.last()
    }
}

/// Where a version token sits: line index, byte column, byte length.
#[derive(Clone, Copy, Debug, PartialEq, Eq, Structural)]
pub struct Span {
    pub line: usize,
    pub col: usize,
    pub len: usize,
}

pub open spec fn span_fits(ls: Seq<Seq<u8>>, sp: Span) -> bool {
    sp.line < ls.len() && sp.col + sp.len <= ls[sp.line as int].len()
}

/// `l` with the bytes `[col, col + len)` replaced by `new`.
pub open spec fn replace_range(l: Seq<u8>, col: int, len: int, new: Seq<u8>) -> Seq<u8> {
    l.take(col) + new + l.skip(col + len)
}

/// The lines of `content` with the span replaced by `new`.
pub open spec fn patched_lines(content: Seq<u8>, sp: Span, new: Seq<u8>) -> Seq<Seq<u8>> {
    let ls = lines_of(content);
    ls.update(sp.line as int, replace_range(ls[sp.line as int], sp.col as int, sp.len as int, new))
}

/// The rewritten file: the span replaced, lines joined with `\r\n`; nothing
/// when the span does not lie within one line of `content`.
pub open spec fn patch_spec(content: Seq<u8>, sp: Span, new: Seq<u8>) -> Option<Seq<u8>> {
    if span_fits(lines_of(content), sp) {
        Some(join_crlf(patched_lines(content, sp, new)))
    } else {
        None
    }
}

pub open spec fn opt_bytes(r: Option<Vec<u8>>) -> Option<Seq<u8>> {
    match r {
        Some(v) => Some(v@),
        None => None,
    }
}

/// Splits a text into its lines.
pub fn split_lines(s: &[u8]) -> (r: Vec<Vec<u8>>)
    ensures
        r.deep_view() == lines_of(s@),
{
    let parts = split_bytes(s, LF);
    proof {
        lemma_split_on_nonempty(s@, LF);
    }
    let ghost p = split_on(s@, LF);
    assert(parts.deep_view().len() == parts@.len());
    let np = parts.len();
    assert(parts[np - 1]@ =~= p.last());
    let n: usize = if parts[np - 1].len() == 0 {
        np - 1
    } else {
        np
    };
    let mut out: Vec<Vec<u8>> = Vec::new();
    let mut k: usize = 0;
    while k < n
        invariant
            n <= np == parts@.len() == p.len(),
            parts.deep_view() == p,
            k <= n,
            out.deep_view() =~= lines_of(s@).take(k as int),
            lines_of(s@).len() == n,
            p == split_on(s@, LF),
            p.len() >= 1,
            n == (if p.last().len() == 0 { p.len() - 1 } else { p.len() as int }),
        decreases n - k,
    {
        assert(parts[k as int]@ =~= p[k as int]);
        let mut l: Vec<u8> = parts[k].clone();
        assert(l@ =~= p[k as int]);
        if k + 1 < np && l.len() > 0 && l[l.len() - 1] == CR {
            l.pop();
            assert(l@ =~= p[k as int].drop_last());
        }
        assert(lines_of(s@)[k as int] == piece_line(p, k as int));
        assert(l@ =~= lines_of(s@)[k as int]);
        assert(l.deep_view() =~= l@);
        let ghost old_out = out.deep_view();
        out.push(l);
        assert(out.deep_view() =~= old_out.push(l@));
        assert(lines_of(s@).take(k + 1) =~= lines_of(s@).take(k as int).push(l@));
        k = k + 1;
    }
    assert(lines_of(s@).take(n as int) =~= lines_of(s@));
    out
}

/// Joins lines with `\r\n`.
pub fn join_lines(ls: &Vec<Vec<u8>>) -> (r: Vec<u8>)
    ensures
        r@ == join_crlf(ls.deep_view()),
{
    let mut out: Vec<u8> = Vec::new();
    let mut k: usize = 0;
    while k < ls.len()
        invariant
            k <= ls@.len(),
            out@ == join_crlf(ls.deep_view().take(k as int)),
        decreases ls@.len() - k,
    {
        let ghost before = out@;
        if k > 0 {
            out.push(CR);
            out.push(LF);
        }
        let mut j: usize = 0;
        let ghost mid = out@;
        while j < ls[k].len()
            invariant
                0 <= k < ls@.len(),
                j <= ls[k as int]@.len(),
                out@ == mid + ls[k as int]@.take(j as int),
            decreases ls[k as int]@.len() - j,
        {
            out.push(ls[k][j]);
            assert(ls[k as int]@.take(j + 1) =~= ls[k as int]@.take(j as int).push(ls[k as int]@[j as int]));
            j = j + 1;
        }
        proof {
            let d = ls.deep_view();
            assert(ls[k as int]@.take(j as int) =~= ls[k as int]@);
            assert(d[k as int] =~= ls[k as int]@);
            assert(d.take(k + 1).drop_last() =~= d.take(k as int));
            if k == 0 {
                assert(out@ =~= join_crlf(d.take(1)));
            } else {
                assert(out@ =~= join_crlf(d.take(k + 1)));
            }
        }
        k = k + 1;
    }
    assert(ls.deep_view().take(ls@.len() as int) =~= ls.deep_view());
    out
}

/// Replaces the span in `content` by `new` and joins the lines with `\r\n`.
pub fn apply_patch(content: &[u8], sp: Span, new: &[u8]) -> (r: Option<Vec<u8>>)
    ensures
        opt_bytes(r) == patch_spec(content@, sp, new@),
{
    let mut ls = split_lines(content);
    assert(ls.deep_view().len() == ls@.len());
    if sp.line >= ls.len() {
        return None;
    }
    assert(ls[sp.line as int]@ =~= ls.deep_view()[sp.line as int]);
    if sp.len > ls[sp.line].len() || sp.col > ls[sp.line].len() - sp.len {
        return None;
    }
    let line = &ls[sp.line];
    let mut l: Vec<u8> = Vec::new();
    let mut j: usize = 0;
    while j < sp.col
        invariant
            j <= sp.col <= line@.len(),
            l@ == line@.take(j as int),
        decreases sp.col - j,
    {
        l.push(line[j]);
        assert(line@.take(j + 1) =~= line@.take(j as int).push(line@[j as int]));
        j = j + 1;
    }
    let mut j: usize = 0;
    let ghost a = l@;
    while j < new.len()
        invariant
            j <= new@.len(),
            l@ == a + new@.take(j as int),
        decreases new@.len() - j,
    {
        l.push(new[j]);
        assert(new@.take(j + 1) =~= new@.take(j as int).push(new@[j as int]));
        j = j + 1;
    }
    let mut j: usize = sp.col + sp.len;
    let ghost b = l@;
    while j < line.len()
        invariant
            sp.col + sp.len <= j <= line@.len(),
            l@ == b + line@.subrange(sp.col + sp.len, j as int),
        decreases line@.len() - j,
    {
        l.push(line[j]);
        assert(line@.subrange(sp.col + sp.len, j + 1) =~= line@.subrange(sp.col + sp.len, j as int).push(line@[j as int]));
        j = j + 1;
    }
    proof {
        assert(new@.take(new@.len() as int) =~= new@);
        assert(l@ =~= replace_range(line@, sp.col as int, sp.len as int, new@));
    }
    let ghost before = ls.deep_view();
    assert(l.deep_view() =~= l@);
    ls.set(sp.line, l);
    assert(ls.deep_view() =~= before.update(sp.line as int, l@));
    let out = join_lines(&ls);
    Some(out)
}

/// Patching touches one line only: every other line is kept; in the patched
/// line the bytes before the span are kept, `new` fills the span, and the
/// bytes after the span follow it, shifted by the change in length. With a
/// `new` as long as the span, every byte of the line outside the span is kept
/// in place.
pub proof fn lemma_patch_local(content: Seq<u8>, sp: Span, new: Seq<u8>)
    requires
        span_fits(lines_of(content), sp),
    ensures
        patch_spec(content, sp, new) == Some(join_crlf(patched_lines(content, sp, new))),
        patched_lines(content, sp, new).len() == lines_of(content).len(),
        forall|i: int|
            0 <= i < lines_of(content).len() && i != sp.line ==> #[trigger] patched_lines(content, sp, new)[i]
                == lines_of(content)[i],
        ({
            let l = lines_of(content)[sp.line as int];
            let m = patched_lines(content, sp, new)[sp.line as int];
            &&& m.len() == l.len() - sp.len + new.len()
            &&& forall|j: int| 0 <= j < sp.col ==> #[trigger] m[j] == l[j]
            &&& forall|j: int| 0 <= j < new.len() ==> #[trigger] m[sp.col + j] == new[j]
            &&& forall|j: int|
                sp.col + sp.len <= j < l.len() ==> #[trigger] m[j - sp.len + new.len()] == l[j]
            &&& new.len() == sp.len ==> forall|j: int|
                0 <= j < l.len() && !(sp.col <= j < sp.col + sp.len) ==> #[trigger] m[j] == l[j]
        }),
{
    let l = lines_of(content)[sp.line as int];
    let m = patched_lines(content, sp, new)[sp.line as int];
    assert(m == replace_range(l, sp.col as int, sp.len as int, new));
    assert forall|j: int| sp.col + sp.len <= j < l.len() implies #[trigger] m[j - sp.len + new.len()] == l[j] by {
        assert(m[j - sp.len + new.len()] == l.skip(sp.col + sp.len)[j - sp.col - sp.len]);
    }
    if new.len() == sp.len {
        assert forall|j: int| 0 <= j < l.len() && !(sp.col <= j < sp.col + sp.len) implies #[trigger] m[j] == l[j] by {
            if j >= sp.col + sp.len {
                assert(m[j - sp.len + new.len()] == l[j]);
            }
        }
    }
}

/// Where line `i` starts in the lines joined with `\r\n`.
pub open spec fn line_offset(ls: Seq<Seq<u8>>, i: int) -> int {
    if i <= 0 {
        0
    } else {
        join_crlf(ls.take(i)).len() + 2int
    }
}

proof fn lemma_join_update_same_len(ls: Seq<Seq<u8>>, i: int, m: Seq<u8>)
    requires
        0 <= i < ls.len(),
        m.len() == ls[i].len(),
    ensures
        join_crlf(ls.update(i, m)).len() == join_crlf(ls).len(),
        line_offset(ls, i) + m.len() <= join_crlf(ls).len(),
        forall|j: int|
            0 <= j < join_crlf(ls).len() ==> #[trigger] join_crlf(ls.update(i, m))[j] == if line_offset(ls, i) <= j
                < line_offset(ls, i) + m.len() {
                m[j - line_offset(ls, i)]
            } else {
                join_crlf(ls)[j]
            },
    decreases ls.len(),
{
    let n = ls.len();
    let u = ls.update(i, m);
    if n == 1 {
        assert(u[0] == m);
    } else {
        let d = ls.drop_last();
        assert(ls.take(n - 1) =~= d);
        if i == n - 1 {
            assert(u.drop_last() =~= d);
            assert(u.last() == m);
        } else {
            lemma_join_update_same_len(d, i, m);
            assert(u.drop_last() =~= d.update(i, m));
            assert(u.last() == ls.last());
            if i > 0 {
                assert(ls.take(i) =~= d.take(i));
            }
        }
    }
}

/// A patch whose new text is as long as the span leaves the file, as joined
/// with `\r\n`, byte for byte as it was outside the span, and puts the new
/// text in the span.
pub proof fn lemma_patch_same_length(content: Seq<u8>, sp: Span, new: Seq<u8>)
    requires
        span_fits(lines_of(content), sp),
        new.len() == sp.len,
    ensures
        ({
            let base = join_crlf(lines_of(content));
            let start = line_offset(lines_of(content), sp.line as int) + sp.col;
            &&& patch_spec(content, sp, new) matches Some(out) && out.len() == base.len()
                && (forall|j: int|
                0 <= j < base.len() && !(start <= j < start + sp.len) ==> #[trigger] out[j] == base[j])
                && (forall|k: int| 0 <= k < new.len() ==> #[trigger] out[start + k] == new[k])
        }),
{
    let ls = lines_of(content);
    let i = sp.line as int;
    let l = ls[i];
    let m = replace_range(l, sp.col as int, sp.len as int, new);
    assert(m.len() == l.len());
    assert(patched_lines(content, sp, new) == ls.update(i, m));
    lemma_join_update_same_len(ls, i, m);
    let base = join_crlf(ls);
    let out = join_crlf(ls.update(i, m));
    let off = line_offset(ls, i);
    let start = off + sp.col;
    assert forall|j: int| 0 <= j < base.len() && !(start <= j < start + sp.len) implies #[trigger] out[j] == base[j] by {
        if off <= j < off + m.len() {
            assert(out[j] == m[j - off]);
            let k = j - off;
            if k < sp.col {
                assert(m[k] == l[k]);
            } else {
                assert(m[k] == l.skip(sp.col + sp.len)[k - sp.col - new.len()]);
            }
            assert(base == join_crlf(ls.update(i, l))) by {
                assert(ls.update(i, l) =~= ls);
            }
            lemma_join_update_same_len(ls, i, l);
            assert(join_crlf(ls.update(i, l))[j] == l[j - off]);
        }
    }
    assert forall|k: int| 0 <= k < new.len() implies #[trigger] out[start + k] == new[k] by {
        assert(out[start + k] == m[sp.col + k]);
    }
}

} // verus!
