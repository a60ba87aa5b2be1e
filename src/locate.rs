//! Finding the version token in the text of each kind of project file,
//! line by line and without a document parser.
use vstd::prelude::*;
use crate::text::split_on;
use crate::patch::{lines_of, split_lines, piece_line, strip_cr, LF};
use crate::version::{is_digit, DOT};

verus! {

pub const QUOTE: u8 = 34;

/// ASCII lower case of a byte.
pub open spec fn lower(b: u8) -> u8 {
    if 65 <= b <= 90 {
        (b + 32) as u8
    } else {
        b
    }
}

/// `pat` (lower case) occurs in `l` at `i`, ignoring ASCII case.
pub open spec fn matches_at(l: Seq<u8>, i: int, pat: Seq<u8>) -> bool {
    0 <= i && i + pat.len() <= l.len() && forall|k: int|
        0 <= k < pat.len() ==> lower(#[trigger] l[i + k]) == pat[k]
}

/// The first position at or after `i` where `pat` occurs in `l`, ignoring ASCII case.
pub open spec fn find_from(l: Seq<u8>, pat: Seq<u8>, i: int) -> Option<int>
    decreases l.len() - i,
{
    if i < 0 || i + pat.len() > l.len() {
        None
    } else if matches_at(l, i, pat) {
        Some(i)
    } else {
        find_from(l, pat, i + 1)
    }
}

pub open spec fn find_ci(l: Seq<u8>, pat: Seq<u8>) -> Option<int> {
    find_from(l, pat, 0)
}

pub open spec fn is_digit_or_dot(b: u8) -> bool {
    is_digit(b) || b == DOT
}

/// Digits and dots of `l` from `i` on, appended to `acc`, up to the first `"`
/// that comes once at least one has been taken; other bytes are passed over.
pub open spec fn run_from(l: Seq<u8>, i: int, acc: Seq<u8>) -> Seq<u8>
    decreases l.len() - i,
{
    if i < 0 || i >= l.len() {
        acc
    } else if l[i] == QUOTE && acc.len() > 0 {
        acc
    } else if is_digit_or_dot(l[i]) {
        run_from(l, i + 1, acc.push(l[i]))
    } else {
        run_from(l, i + 1, acc)
    }
}

/// How many bytes from `i` on come before the first digit or dot (or the end).
pub open spec fn leading_skip(l: Seq<u8>, i: int) -> nat
    decreases l.len() - i,
{
    if i < 0 || i >= l.len() || is_digit_or_dot(l[i]) {
        0
    } else {
        1 + leading_skip(l, i + 1)
    }
}

/// `<control`
pub open spec fn control_tag() -> Seq<u8> {
    seq![60u8, 99, 111, 110, 116, 114, 111, 108]
}

/// `version=`
pub open spec fn version_attr() -> Seq<u8> {
    seq![118u8, 101, 114, 115, 105, 111, 110, 61]
}

/// `>`
pub open spec fn tag_end() -> Seq<u8> {
    seq![62u8]
}

/// `"version"`
pub open spec fn version_key() -> Seq<u8> {
    seq![34u8, 118, 101, 114, 115, 105, 111, 110, 34]
}

/// `<version>`
pub open spec fn version_open() -> Seq<u8> {
    seq![60u8, 118, 101, 114, 115, 105, 111, 110, 62]
}

/// `</version>`
pub open spec fn version_close() -> Seq<u8> {
    seq![60u8, 47, 118, 101, 114, 115, 105, 111, 110, 62]
}

/// A located token: its raw text, line index and column.
pub type FoundSpec = (Seq<u8>, int, int);

/// Manifest dialect, from line `i` on: once a line holds `<control`, the
/// first line that holds `version=` gives the token, read from just after the
/// `=` with its column just after the opening quote; a line that holds `>`
/// and no `version=` ends the opening tag and the search.
pub open spec fn manifest_scan(ls: Seq<Seq<u8>>, i: int, open: bool) -> Option<FoundSpec>
    decreases ls.len() - i,
{
    if i < 0 || i >= ls.len() {
        None
    } else {
        let l = ls[i];
        let now_open = open || find_ci(l, control_tag()) is Some;
        if now_open && find_ci(l, version_attr()) is Some {
            let x = find_ci(l, version_attr())->0;
            Some((run_from(l, x + 8, Seq::empty()), i, x + 9))
        } else if now_open && find_ci(l, tag_end()) is Some {
            None
        } else {
            manifest_scan(ls, i + 1, now_open)
        }
    }
}

/// Package dialect, from line `i` on: the first line that holds `"version"`
/// gives the digits and dots after it, with the column of the first of them.
pub open spec fn package_scan(ls: Seq<Seq<u8>>, i: int) -> Option<FoundSpec>
    decreases ls.len() - i,
{
    if i < 0 || i >= ls.len() {
        None
    } else {
        let l = ls[i];
        if find_ci(l, version_key()) is Some {
            let x = find_ci(l, version_key())->0;
            Some((run_from(l, x + 9, Seq::empty()), i, x + 9 + leading_skip(l, x + 9)))
        } else {
            package_scan(ls, i + 1)
        }
    }
}

/// Solution dialect, from line `i` on: the first line with `<version>`
/// followed by `</version>` gives the text between the two tags verbatim.
pub open spec fn solution_scan(ls: Seq<Seq<u8>>, i: int) -> Option<FoundSpec>
    decreases ls.len() - i,
{
    if i < 0 || i >= ls.len() {
        None
    } else {
        let l = ls[i];
        let a = find_ci(l, version_open());
        let b = find_ci(l, version_close());
        if a is Some && b is Some && a->0 + 9 <= b->0 {
            Some((l.subrange(a->0 + 9, b->0), i, a->0 + 9))
        } else {
            solution_scan(ls, i + 1)
        }
    }
}

pub open spec fn manifest_locate(content: Seq<u8>) -> Option<FoundSpec> {
    manifest_scan(lines_of(content), 0, false)
}

pub open spec fn package_locate(content: Seq<u8>) -> Option<FoundSpec> {
    package_scan(lines_of(content), 0)
}

pub open spec fn solution_locate(content: Seq<u8>) -> Option<FoundSpec> {
    solution_scan(lines_of(content), 0)
}

pub open spec fn found_view(r: Option<(Vec<u8>, usize, usize)>) -> Option<FoundSpec> {
    match r {
        Some(t) => Some((t.0@, t.1 as int, t.2 as int)),
        None => None,
    }
}

/// Texts short enough that every column and span end fits in a `usize`.
pub open spec fn addressable(content: Seq<u8>) -> bool {
    content.len() + 16 <= usize::MAX
}

proof fn lemma_split_piece_len(s: Seq<u8>, sep: u8)
    ensures
        forall|k: int| 0 <= k < split_on(s, sep).len() ==> #[trigger] split_on(s, sep)[k].len() <= s.len(),
    decreases s.len(),
{
    if s.len() > 0 {
        lemma_split_piece_len(s.drop_last(), sep);
        crate::text::lemma_split_on_nonempty(s.drop_last(), sep);
    }
}

pub proof fn lemma_line_len(s: Seq<u8>)
    ensures
        forall|k: int| 0 <= k < lines_of(s).len() ==> #[trigger] lines_of(s)[k].len() <= s.len(),
{
    lemma_split_piece_len(s, LF);
    crate::text::lemma_split_on_nonempty(s, LF);
    let p = split_on(s, LF);
    assert forall|k: int| 0 <= k < lines_of(s).len() implies #[trigger] lines_of(s)[k].len() <= s.len() by {
        assert(lines_of(s)[k] == piece_line(p, k));
        assert(p[k].len() <= s.len());
        assert(strip_cr(p[k]).len() <= p[k].len());
    }
}

fn lower_byte(b: u8) -> (r: u8)
    ensures
        r == lower(b),
{
    if 65 <= b && b <= 90 {
        b + 32
    } else {
        b
    }
}

/// First position of `pat` (lower case) in `l`, ignoring ASCII case.
fn find_bytes(l: &[u8], pat: &[u8]) -> (r: Option<usize>)
    requires
        pat@.len() >= 1,
    ensures
        match r {
            Some(i) => find_ci(l@, pat@) == Some(i as int),
            None => find_ci(l@, pat@) is None,
        },
{
    if pat.len() > l.len() {
        return None;
    }
    let last = l.len() - pat.len();
    let mut i: usize = 0;
    while i <= last
        invariant
            pat@.len() >= 1,
            pat@.len() <= l@.len() <= usize::MAX,
            last == l@.len() - pat@.len(),
            i <= last + 1,
            find_from(l@, pat@, 0) == find_from(l@, pat@, i as int),
        decreases last + 1 - i,
    {
        let mut j: usize = 0;
        let mut ok = true;
        while j < pat.len()
            invariant
                i <= last,
                pat@.len() <= l@.len() <= usize::MAX,
                last == l@.len() - pat@.len(),
                j <= pat@.len(),
                ok ==> forall|k: int| 0 <= k < j ==> lower(#[trigger] l@[i + k]) == pat@[k],
                !ok ==> !matches_at(l@, i as int, pat@),
            decreases pat@.len() - j,
        {
            if lower_byte(l[i + j]) != pat[j] {
                ok = false;
                assert(lower(l@[i + j]) != pat@[j as int]);
            }
            j = j + 1;
        }
        if ok {
            return Some(i);
        }
        i = i + 1;
    }
    None
}

fn is_digit_or_dot_byte(b: u8) -> (r: bool)
    ensures
        r == is_digit_or_dot(b),
{
    (48 <= b && b <= 57) || b == DOT
}

/// The token run that starts at `start` (see `run_from`), and how many bytes
/// came before its first byte.
fn collect_run(l: &[u8], start: usize) -> (r: (Vec<u8>, usize))
    ensures
        r.0@ == run_from(l@, start as int, Seq::empty()),
        r.1 == leading_skip(l@, start as int),
{
    let mut acc: Vec<u8> = Vec::new();
    let mut skip: usize = 0;
    let mut i: usize = start;
    let mut done = false;
    proof {
        lemma_skip_bound(l@, start as int);
    }
    while !done && i < l.len()
        invariant
            start <= i,
            i <= l@.len() || i == start,
            done ==> acc@.len() > 0 && run_from(l@, start as int, Seq::empty()) == acc@,
            !done ==> run_from(l@, start as int, Seq::empty()) == run_from(l@, i as int, acc@),
            acc@.len() == 0 ==> leading_skip(l@, start as int) == skip + leading_skip(l@, i as int),
            acc@.len() > 0 ==> leading_skip(l@, start as int) == skip,
            skip <= i - start,
        decreases l@.len() - i + (if done { 0int } else { 1int }),
    {
        let b = l[i];
        if b == QUOTE && acc.len() > 0 {
            done = true;
        } else if is_digit_or_dot_byte(b) {
            acc.push(b);
        } else if acc.len() == 0 {
            skip = skip + 1;
        }
        if !done {
            i = i + 1;
        }
    }
    (acc, skip)
}

proof fn lemma_skip_bound(l: Seq<u8>, i: int)
    ensures
        leading_skip(l, i) <= if 0 <= i <= l.len() { l.len() - i } else { 0 },
    decreases l.len() - i,
{
    if 0 <= i < l.len() && !is_digit_or_dot(l[i]) {
        lemma_skip_bound(l, i + 1);
    }
}

fn control_tag_bytes() -> (r: Vec<u8>)
    ensures
        r@ == control_tag(),
{
    let r = vec![60u8, 99, 111, 110, 116, 114, 111, 108];
    assert(r@ =~= control_tag());
    r
}

fn version_attr_bytes() -> (r: Vec<u8>)
    ensures
        r@ == version_attr(),
{
    let r = vec![118u8, 101, 114, 115, 105, 111, 110, 61];
    assert(r@ =~= version_attr());
    r
}

fn tag_end_bytes() -> (r: Vec<u8>)
    ensures
        r@ == tag_end(),
{
    let r = vec![62u8];
    assert(r@ =~= tag_end());
    r
}

fn version_key_bytes() -> (r: Vec<u8>)
    ensures
        r@ == version_key(),
{
    let r = vec![34u8, 118, 101, 114, 115, 105, 111, 110, 34];
    assert(r@ =~= version_key());
    r
}

fn version_open_bytes() -> (r: Vec<u8>)
    ensures
        r@ == version_open(),
{
    let r = vec![60u8, 118, 101, 114, 115, 105, 111, 110, 62];
    assert(r@ =~= version_open());
    r
}

fn version_close_bytes() -> (r: Vec<u8>)
    ensures
        r@ == version_close(),
{
    let r = vec![60u8, 47, 118, 101, 114, 115, 105, 111, 110, 62];
    assert(r@ =~= version_close());
    r
}

/// A copy of `l[from..to]`.
fn copy_range(l: &[u8], from: usize, to: usize) -> (r: Vec<u8>)
    requires
        from <= to <= l@.len(),
    ensures
        r@ == l@.subrange(from as int, to as int),
{
    let mut out: Vec<u8> = Vec::new();
    let mut j: usize = from;
    while j < to
        invariant
            from <= j <= to <= l@.len(),
            out@ == l@.subrange(from as int, j as int),
        decreases to - j,
    {
        out.push(l[j]);
        assert(l@.subrange(from as int, j + 1) =~= l@.subrange(from as int, j as int).push(l@[j as int]));
        j = j + 1;
    }
    out
}

/// Finds the version attribute in the opening `<control` tag of a manifest.
pub fn locate_manifest(content: &[u8]) -> (r: Option<(Vec<u8>, usize, usize)>)
    requires
        addressable(content@),
    ensures
        found_view(r) == manifest_locate(content@),
{
    let ls = split_lines(content);
    let ghost lv = lines_of(content@);
    proof {
        lemma_line_len(content@);
    }
    let ctl = control_tag_bytes();
    let va = version_attr_bytes();
    let gt = tag_end_bytes();
    let mut open = false;
    let mut i: usize = 0;
    while i < ls.len()
        invariant
            ls.deep_view() == lv,
            lv == lines_of(content@),
            ls@.len() == lv.len(),
            i <= lv.len(),
            manifest_scan(lv, 0, false) == manifest_scan(lv, i as int, open),
            forall|k: int| 0 <= k < lv.len() ==> #[trigger] lv[k].len() <= content@.len(),
            addressable(content@),
            ctl@ == control_tag(),
            va@ == version_attr(),
            gt@ == tag_end(),
        decreases lv.len() - i,
    {
        let l = ls[i].as_slice();
        assert(l@ =~= lv[i as int]);
        assert(l@.len() <= content@.len());
        if !open {
            if find_bytes(l, ctl.as_slice()).is_some() {
                open = true;
            }
        }
        if open {
            match find_bytes(l, va.as_slice()) {
                Some(x) => {
                    proof {
                        lemma_find_in_range(l@, version_attr(), 0);
                    }
                    let (run, _) = collect_run(l, x + 8);
                    return Some((run, i, x + 9));
                },
                None => {},
            }
            if find_bytes(l, gt.as_slice()).is_some() {
                return None;
            }
        }
        i = i + 1;
    }
    None
}

/// Finds the value of the `"version"` key of a package descriptor.
pub fn locate_package(content: &[u8]) -> (r: Option<(Vec<u8>, usize, usize)>)
    requires
        addressable(content@),
    ensures
        found_view(r) == package_locate(content@),
{
    let ls = split_lines(content);
    let ghost lv = lines_of(content@);
    proof {
        lemma_line_len(content@);
    }
    let key = version_key_bytes();
    let mut i: usize = 0;
    while i < ls.len()
        invariant
            ls.deep_view() == lv,
            lv == lines_of(content@),
            ls@.len() == lv.len(),
            i <= lv.len(),
            package_scan(lv, 0) == package_scan(lv, i as int),
            forall|k: int| 0 <= k < lv.len() ==> #[trigger] lv[k].len() <= content@.len(),
            addressable(content@),
            key@ == version_key(),
        decreases lv.len() - i,
    {
        let l = ls[i].as_slice();
        assert(l@ =~= lv[i as int]);
        assert(l@.len() <= content@.len());
        match find_bytes(l, key.as_slice()) {
            Some(x) => {
                proof {
                    lemma_find_in_range(l@, version_key(), 0);
                }
                let (run, skip) = collect_run(l, x + 9);
                proof {
                    lemma_skip_bound(l@, x + 9);
                }
                return Some((run, i, x + 9 + skip));
            },
            None => {},
        }
        i = i + 1;
    }
    None
}

/// Finds the text of the `<version>` element of a solution descriptor.
pub fn locate_solution(content: &[u8]) -> (r: Option<(Vec<u8>, usize, usize)>)
    requires
        addressable(content@),
    ensures
        found_view(r) == solution_locate(content@),
{
    let ls = split_lines(content);
    let ghost lv = lines_of(content@);
    proof {
        lemma_line_len(content@);
    }
    let open_tag = version_open_bytes();
    let close_tag = version_close_bytes();
    let mut i: usize = 0;
    while i < ls.len()
        invariant
            ls.deep_view() == lv,
            lv == lines_of(content@),
            ls@.len() == lv.len(),
            i <= lv.len(),
            solution_scan(lv, 0) == solution_scan(lv, i as int),
            forall|k: int| 0 <= k < lv.len() ==> #[trigger] lv[k].len() <= content@.len(),
            addressable(content@),
            open_tag@ == version_open(),
            close_tag@ == version_close(),
        decreases lv.len() - i,
    {
        let l = ls[i].as_slice();
        assert(l@ =~= lv[i as int]);
        assert(l@.len() <= content@.len());
        match (find_bytes(l, open_tag.as_slice()), find_bytes(l, close_tag.as_slice())) {
            (Some(a), Some(b)) => {
                proof {
                    lemma_find_in_range(l@, version_open(), 0);
                    lemma_find_in_range(l@, version_close(), 0);
                }
                if a + 9 <= b {
                    let text = copy_range(l, a + 9, b);
                    return Some((text, i, a + 9));
                }
            },
            _ => {},
        }
        i = i + 1;
    }
    None
}

proof fn lemma_find_in_range(l: Seq<u8>, pat: Seq<u8>, i: int)
    ensures
        find_from(l, pat, i) matches Some(j) ==> i <= j && j + pat.len() <= l.len(),
    decreases l.len() - i,
{
    if !(i < 0 || i + pat.len() > l.len()) && !matches_at(l, i, pat) {
        lemma_find_in_range(l, pat, i + 1);
    }
}

proof fn lemma_find_first(l: Seq<u8>, pat: Seq<u8>, i: int)
    requires
        find_from(l, pat, i) is Some,
    ensures
        ({
            let b = find_from(l, pat, i)->0;
            &&& i <= b
            &&& matches_at(l, b, pat)
            &&& forall|j: int| i <= j < b ==> !matches_at(l, j, pat)
        }),
    decreases l.len() - i,
{
    if !(i < 0 || i + pat.len() > l.len()) && !matches_at(l, i, pat) {
        lemma_find_first(l, pat, i + 1);
    }
}

proof fn lemma_find_is(m: Seq<u8>, pat: Seq<u8>, i: int, b: int)
    requires
        0 <= i <= b,
        matches_at(m, b, pat),
        forall|j: int| i <= j < b ==> !matches_at(m, j, pat),
    ensures
        find_from(m, pat, i) == Some(b),
    decreases b - i,
{
    if i < b {
        lemma_find_is(m, pat, i + 1, b);
    }
}

proof fn lemma_solution_scan_prefix(ls: Seq<Seq<u8>>, ls2: Seq<Seq<u8>>, s0: int, i: int)
    requires
        0 <= s0 <= i < ls.len() == ls2.len(),
        forall|j: int| s0 <= j < i ==> ls2[j] == ls[j],
        solution_scan(ls, s0) matches Some(t) && t.1 == i,
    ensures
        solution_scan(ls, s0) == solution_scan(ls, i),
        solution_scan(ls2, s0) == solution_scan(ls2, i),
    decreases i - s0,
{
    if s0 < i {
        assert(ls2[s0] == ls[s0]);
        lemma_solution_scan_prefix(ls, ls2, s0 + 1, i);
    }
}

/// Writing a non-empty run of digits and dots over the version text of a
/// solution descriptor's lines leaves it to be found again, in full and at the
/// same line and column.
pub proof fn lemma_solution_relocate(ls: Seq<Seq<u8>>, new: Seq<u8>)
    requires
        solution_scan(ls, 0) is Some,
        new.len() >= 1,
        forall|k: int| 0 <= k < new.len() ==> is_digit_or_dot(#[trigger] new[k]),
    ensures
        ({
            let t = solution_scan(ls, 0)->0;
            let ls2 = ls.update(t.1, ls[t.1].take(t.2) + new + ls[t.1].skip(t.2 + t.0.len()));
            solution_scan(ls2, 0) == Some((new, t.1, t.2))
        }),
{
    let t = solution_scan(ls, 0)->0;
    let i = t.1;
    lemma_solution_scan_found(ls, 0);
    let l = ls[i];
    let a = find_ci(l, version_open())->0;
    let b = find_ci(l, version_close())->0;
    let col = a + 9;
    assert(t.2 == col && t.0 == l.subrange(col, b));
    lemma_find_in_range(l, version_open(), 0);
    lemma_find_in_range(l, version_close(), 0);
    assert(b + 10 <= l.len());
    assert(t.0.len() == b - col);
    let m = l.take(col) + new + l.skip(b);
    let ls2 = ls.update(i, m);
    assert(l.take(col) + new + l.skip(col + t.0.len()) == m);
    lemma_solution_scan_prefix(ls, ls2, 0, i);
    lemma_find_first(l, version_open(), 0);
    lemma_find_first(l, version_close(), 0);
    let op = version_open();
    let cl = version_close();
    let nl = new.len() as int;
    assert forall|j: int| 0 <= j <= a implies matches_at(m, j, op) == matches_at(l, j, op) by {
        assert(j + op.len() <= col);
        assert forall|k: int| 0 <= k < op.len() implies #[trigger] m[j + k] == l[j + k] by {
            assert(m[j + k] == l.take(col)[j + k]);
        }
        if matches_at(l, j, op) {
            assert forall|k: int| 0 <= k < op.len() implies lower(#[trigger] m[j + k]) == op[k] by {
                assert(lower(l[j + k]) == op[k]);
            }
        }
        if matches_at(m, j, op) {
            assert forall|k: int| 0 <= k < op.len() implies lower(#[trigger] l[j + k]) == op[k] by {
                assert(lower(m[j + k]) == op[k]);
            }
        }
    }
    lemma_find_is(m, op, 0, a);
    assert forall|k: int| 0 <= k < cl.len() implies #[trigger] m[col + nl + k] == l[b + k] by {}
    assert(matches_at(m, col + nl, cl));
    assert forall|j: int| 0 <= j < col + nl implies !matches_at(m, j, cl) by {
        if j + cl.len() <= m.len() {
            if j + 10 <= col {
                assert(!matches_at(l, j, cl));
                let k = choose|k: int| 0 <= k < cl.len() && lower(l[j + k]) != cl[k];
                assert(m[j + k] == l[j + k]);
            } else if j >= col {
                assert(m[j] == new[j - col]);
                assert(lower(m[j + 0]) != cl[0]);
            } else {
                let k = col - j;
                assert(m[j + k] == new[0]);
                assert(lower(m[j + k]) != cl[k]);
            }
        }
    }
    lemma_find_is(m, cl, 0, col + nl);
    assert(m.subrange(col, col + nl) =~= new);
}

proof fn lemma_solution_scan_found(ls: Seq<Seq<u8>>, s0: int)
    requires
        0 <= s0,
        solution_scan(ls, s0) is Some,
    ensures
        ({
            let t = solution_scan(ls, s0)->0;
            let l = ls[t.1];
            &&& s0 <= t.1 < ls.len()
            &&& find_ci(l, version_open()) is Some
            &&& find_ci(l, version_close()) is Some
            &&& find_ci(l, version_open())->0 + 9 <= find_ci(l, version_close())->0
            &&& t.2 == find_ci(l, version_open())->0 + 9
            &&& t.0 == l.subrange(t.2, find_ci(l, version_close())->0)
        }),
    decreases ls.len() - s0,
{
    let l = ls[s0];
    let a = find_ci(l, version_open());
    let b = find_ci(l, version_close());
    if !(a is Some && b is Some && a->0 + 9 <= b->0) {
        lemma_solution_scan_found(ls, s0 + 1);
    }
}

} // verus!
