//! Byte-level helpers shared by the version value, the locators and the patcher.
use vstd::prelude::*;

verus! {

/// The pieces of `s` between occurrences of `sep`; always at least one piece.
pub open spec fn split_on(s: Seq<u8>, sep: u8) -> Seq<Seq<u8>>
    decreases s.len(),
{
    if s.len() == 0 {
        seq![Seq::empty()]
    } else {
        let p = split_on(s.drop_last(), sep);
        if s.last() == sep {
            p.push(Seq::empty())
        } else {
            p.update(p.len() - 1, p.last().push(s.last()))
        }
    }
}

pub proof fn lemma_split_on_nonempty(s: Seq<u8>, sep: u8)
    ensures
        split_on(s, sep).len() >= 1,
    decreases s.len(),
{
    if s.len() > 0 {
        lemma_split_on_nonempty(s.drop_last(), sep);
    }
}

/// Splits `s` at every `sep`, dropping the separators.
pub fn split_bytes(s: &[u8], sep: u8) -> (r: Vec<Vec<u8>>)
    ensures
        r.deep_view() == split_on(s@, sep),
{
    let mut parts: Vec<Vec<u8>> = Vec::new();
    let mut cur: Vec<u8> = Vec::new();
    let mut i: usize = 0;
    assert(s@.take(0) =~= Seq::<u8>::empty());
    assert(parts.deep_view().push(cur@) =~= split_on(s@.take(0), sep));
    while i < s.len()
        invariant
            i <= s@.len(),
            parts.deep_view().push(cur@) == split_on(s@.take(i as int), sep),
        decreases s@.len() - i,
    {
        let b = s[i];
        let ghost prev = split_on(s@.take(i as int), sep);
        assert(s@.take(i + 1).drop_last() =~= s@.take(i as int));
        assert(s@.take(i + 1).last() == b);
        if b == sep {
            let ghost old_parts = parts.deep_view();
            assert(cur.deep_view() =~= cur@);
            assert(prev.last() == cur@);
            parts.push(cur);
            cur = Vec::new();
            assert(parts.deep_view() =~= old_parts.push(prev.last()));
            assert(parts.deep_view().push(cur@) =~= prev.push(Seq::empty()));
        } else {
            let ghost old_cur = cur@;
            cur.push(b);
            assert(parts.deep_view().push(cur@) =~= prev.update(prev.len() - 1, old_cur.push(b)));
        }
        i = i + 1;
    }
    assert(s@.take(s@.len() as int) =~= s@);
    let ghost old_parts = parts.deep_view();
    let ghost whole = split_on(s@, sep);
    assert(cur.deep_view() =~= cur@);
    assert(whole.last() == cur@);
    parts.push(cur);
    assert(parts.deep_view() =~= old_parts.push(whole.last()));
    assert(parts.deep_view() =~= whole);
    parts
}

/// Splitting text made of two parts with a separator between them gives the
/// pieces of the first part, then those of the second.
pub proof fn lemma_split_on_concat(a: Seq<u8>, b: Seq<u8>, sep: u8)
    ensures
        split_on(a + seq![sep] + b, sep) == split_on(a, sep) + split_on(b, sep),
    decreases b.len(),
{
    let x = a + seq![sep] + b;
    if b.len() == 0 {
        assert(x.drop_last() =~= a);
        assert(split_on(x, sep) =~= split_on(a, sep) + split_on(b, sep));
    } else {
        let b0 = b.drop_last();
        lemma_split_on_concat(a, b0, sep);
        lemma_split_on_nonempty(b0, sep);
        assert(x.drop_last() =~= a + seq![sep] + b0);
        assert(x.last() == b.last());
        assert(split_on(x, sep) =~= split_on(a, sep) + split_on(b, sep));
    }
}

/// Text without the separator is one piece.
pub proof fn lemma_split_on_single(d: Seq<u8>, sep: u8)
    requires
        forall|i: int| 0 <= i < d.len() ==> d[i] != sep,
    ensures
        split_on(d, sep) == seq![d],
    decreases d.len(),
{
    if d.len() > 0 {
        assert(d[d.len() - 1] != sep);
        lemma_split_on_single(d.drop_last(), sep);
        assert(d.drop_last().push(d.last()) =~= d);
        assert(split_on(d, sep) =~= seq![d]);
    } else {
        assert(d =~= Seq::<u8>::empty());
        assert(split_on(d, sep) =~= seq![d]);
    }
}

/// The pieces of `s` joined again with `sep`.
pub open spec fn join_on(p: Seq<Seq<u8>>, sep: u8) -> Seq<u8>
    decreases p.len(),
{
    if p.len() <= 1 {
        if p.len() == 1 { p[0] } else { Seq::empty() }
    } else {
        join_on(p.drop_last(), sep) + seq![sep] + p.last()
    }
}

/// Splitting and joining again at the same separator gives the text back.
pub proof fn lemma_split_join(s: Seq<u8>, sep: u8)
    ensures
        join_on(split_on(s, sep), sep) == s,
    decreases s.len(),
{
    if s.len() > 0 {
        let t = s.drop_last();
        lemma_split_join(t, sep);
        lemma_split_on_nonempty(t, sep);
        let p = split_on(t, sep);
        if s.last() == sep {
            assert(split_on(s, sep).drop_last() =~= p);
            assert(join_on(split_on(s, sep), sep) =~= s);
        } else {
            let q = split_on(s, sep);
            if p.len() == 1 {
                assert(join_on(p, sep) == p[0]);
                assert(q[0] == p[0].push(s.last()));
                assert(s =~= t.push(s.last()));
                assert(q.len() == 1);
                assert(join_on(q, sep) == q[0]);
            } else {
                assert(q.drop_last() =~= p.drop_last());
                assert(join_on(q, sep) =~= join_on(p.drop_last(), sep) + seq![sep] + p.last().push(s.last()));
                assert(join_on(p, sep) == join_on(p.drop_last(), sep) + seq![sep] + p.last());
                assert(s =~= t.push(s.last()));
                assert(join_on(q, sep) =~= s);
            }
        }
    }
}

/// The characters that a run of ASCII bytes stands for.
pub open spec fn ascii_chars(b: Seq<u8>) -> Seq<char> {
    Seq::new(b.len(), |i: int| b[i] as char)
}

pub open spec fn is_ascii_bytes(b: Seq<u8>) -> bool {
    forall|i: int| 0 <= i < b.len() ==> b[i] < 128
}

/// Relies on `String::from_utf8`: bytes below 128 are valid UTF-8 and each
/// decodes to the character of the same code.
#[verifier::external_body]
pub(crate) fn ascii_string(b: Vec<u8>) -> (r: String)
    requires
        is_ascii_bytes(b@),
    ensures
        r@ == ascii_chars(b@),
{
    String::from_utf8(b).unwrap()
}

} // verus!
