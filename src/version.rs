//! A three-part version number: parsing, formatting and the field updates.
use vstd::prelude::*;
use vstd::string::StringSliceAdditionalSpecFns;
use crate::text::{
    split_on, split_bytes, lemma_split_on_nonempty, lemma_split_join, join_on, lemma_split_on_concat,
    lemma_split_on_single, ascii_chars, ascii_string, is_ascii_bytes,
};

verus! {

pub const DOT: u8 = 46;

pub open spec fn is_digit(b: u8) -> bool {
    48 <= b <= 57
}

pub open spec fn all_digits(s: Seq<u8>) -> bool {
    forall|i: int| 0 <= i < s.len() ==> is_digit(s[i])
}

pub open spec fn digit_of(b: u8) -> nat {
    if b >= 48 {
        (b - 48) as nat
    } else {
        0
    }
}

/// The number that a string of decimal digits denotes.
pub open spec fn digits_value(s: Seq<u8>) -> nat
    decreases s.len(),
{
    if s.len() == 0 {
        0
    } else {
        digits_value(s.drop_last()) * 10 + digit_of(s.last())
    }
}

/// A single numeric component: one or more decimal digits whose value fits in 16 bits.
pub open spec fn component_spec(s: Seq<u8>) -> Option<u16> {
    if s.len() > 0 && all_digits(s) && digits_value(s) <= 0xffff {
        Some(digits_value(s) as u16)
    } else {
        None
    }
}

#[derive(Clone, Copy, Debug, PartialEq, Eq, Structural)]
pub struct Version {
    pub major: u16,
    pub minor: u16,
    pub patch: u16,
}

/// The version that a dotted string denotes: one, two or three numeric
/// components, missing ones zero; nothing for more than three components.
pub open spec fn parse_spec(s: Seq<u8>) -> Option<Version> {
    let p = split_on(s, DOT);
    if p.len() > 3 {
        None
    } else if p.len() == 3 {
        match (component_spec(p[0]), component_spec(p[1]), component_spec(p[2])) {
            (Some(a), Some(b), Some(c)) => Some(Version { major: a, minor: b, patch: c }),
            _ => None,
        }
    } else if p.len() == 2 {
        match (component_spec(p[0]), component_spec(p[1])) {
            (Some(a), Some(b)) => Some(Version { major: a, minor: b, patch: 0 }),
            _ => None,
        }
    } else {
        match component_spec(p[0]) {
            Some(a) => Some(Version { major: a, minor: 0, patch: 0 }),
            None => None,
        }
    }
}

/// Decimal digits of `n`, without leading zeros.
pub open spec fn dec(n: nat) -> Seq<u8>
    decreases n,
{
    if n < 10 {
        seq![(48 + n) as u8]
    } else {
        dec(n / 10).push((48 + n % 10) as u8)
    }
}

/// `major.minor.patch` in decimal.
pub open spec fn version_text(v: Version) -> Seq<u8> {
    dec(v.major as nat) + seq![DOT] + dec(v.minor as nat) + seq![DOT] + dec(v.patch as nat)
}

/// `major.minor` in decimal.
pub open spec fn short_version_text(v: Version) -> Seq<u8> {
    dec(v.major as nat) + seq![DOT] + dec(v.minor as nat)
}

pub proof fn lemma_dec_digits(n: nat)
    ensures
        all_digits(dec(n)),
        dec(n).len() >= 1,
    decreases n,
{
    if n >= 10 {
        lemma_dec_digits(n / 10);
    }
}

proof fn lemma_value_prefix_mono(s: Seq<u8>, i: int, j: int)
    requires
        0 <= i <= j <= s.len(),
    ensures
        digits_value(s.take(i)) <= digits_value(s.take(j)),
    decreases j - i,
{
    if i < j {
        lemma_value_prefix_mono(s, i, j - 1);
        assert(s.take(j).drop_last() =~= s.take(j - 1));
    }
}

/// Reads one numeric component.
fn parse_component(s: &[u8]) -> (r: Option<u16>)
    ensures
        r == component_spec(s@),
{
    if s.len() == 0 {
        return None;
    }
    let mut val: u32 = 0;
    let mut i: usize = 0;
    assert(s@.take(0) =~= Seq::<u8>::empty());
    while i < s.len()
        invariant
            i <= s@.len(),
            val as nat == digits_value(s@.take(i as int)),
            val <= 0xffff,
            all_digits(s@.take(i as int)),
        decreases s@.len() - i,
    {
        let b = s[i];
        if b < 48 || b > 57 {
            assert(!is_digit(s@[i as int]));
            return None;
        }
        assert(s@.take(i + 1).drop_last() =~= s@.take(i as int));
        val = val * 10 + (b - 48) as u32;
        assert(all_digits(s@.take(i + 1)));
        if val > 0xffff {
            proof {
                lemma_value_prefix_mono(s@, i + 1, s@.len() as int);
                assert(s@.take(s@.len() as int) =~= s@);
            }
            return None;
        }
        i = i + 1;
    }
    assert(s@.take(s@.len() as int) =~= s@);
    Some(val as u16)
}

/// Appends the decimal digits of `n`.
fn push_dec(out: &mut Vec<u8>, n: u16)
    ensures
        final(out)@ == old(out)@ + dec(n as nat),
    decreases n,
{
    if n >= 10 {
        push_dec(out, n / 10);
    }
    out.push(48 + (n % 10) as u8);
    assert(final(out)@ =~= old(out)@ + dec(n as nat));
}

impl Version {
    /// Parses a dotted numeric string; `None` when a used component is not numeric.
    pub fn parse(s: &str) -> (r: Option<Version>)
        ensures
            r == parse_spec(s.spec_bytes()),
    {
        Version::parse_bytes(s.as_bytes())
    }

    /// `parse` on raw bytes.
    pub fn parse_bytes(s: &[u8]) -> (r: Option<Version>)
        ensures
            r == parse_spec(s@),
    {
        let parts = split_bytes(s, DOT);
        proof {
            lemma_split_on_nonempty(s@, DOT);
            assert(parts.deep_view().len() == parts@.len());
        }
        let n = parts.len();
        if n > 3 {
            return None;
        }
        assert(parts[0]@ =~= parts.deep_view()[0]);
        let a = parse_component(parts[0].as_slice());
        if n == 3 {
            assert(parts[1]@ =~= parts.deep_view()[1]);
            assert(parts[2]@ =~= parts.deep_view()[2]);
            let b = parse_component(parts[1].as_slice());
            let c = parse_component(parts[2].as_slice());
            match (a, b, c) {
                (Some(a), Some(b), Some(c)) => Some(Version { major: a, minor: b, patch: c }),
                _ => None,
            }
        } else if n == 2 {
            assert(parts[1]@ =~= parts.deep_view()[1]);
            let b = parse_component(parts[1].as_slice());
            match (a, b) {
                (Some(a), Some(b)) => Some(Version { major: a, minor: b, patch: 0 }),
                _ => None,
            }
        } else {
            match a {
                Some(a) => Some(Version { major: a, minor: 0, patch: 0 }),
                None => None,
            }
        }
    }

    /// `major.minor.patch` as bytes.
    pub fn text(&self) -> (r: Vec<u8>)
        ensures
            r@ == version_text(*self),
    {
        let mut out: Vec<u8> = Vec::new();
        push_dec(&mut out, self.major);
        out.push(DOT);
        push_dec(&mut out, self.minor);
        out.push(DOT);
        push_dec(&mut out, self.patch);
        assert(out@ =~= version_text(*self));
        out
    }

    /// `major.minor` as bytes.
    pub fn short_text(&self) -> (r: Vec<u8>)
        ensures
            r@ == short_version_text(*self),
    {
        let mut out: Vec<u8> = Vec::new();
        push_dec(&mut out, self.major);
        out.push(DOT);
        push_dec(&mut out, self.minor);
        assert(out@ =~= short_version_text(*self));
        out
    }

    /// `major.minor.patch`.
    pub fn to_string(&self) -> (r: String)
        ensures
            r@ == ascii_chars(version_text(*self)),
    {
        let t = self.text();
        proof {
            lemma_dec_digits(self.major as nat);
            lemma_dec_digits(self.minor as nat);
            lemma_dec_digits(self.patch as nat);
            assert(is_ascii_bytes(t@)) by {
                let m = dec(self.major as nat).len() as int;
                let n = dec(self.minor as nat).len() as int;
                assert forall|i: int| 0 <= i < t@.len() implies t@[i] < 128 by {
                    if i < m {
                        assert(t@[i] == dec(self.major as nat)[i]);
                    } else if i == m {
                    } else if i < m + 1 + n {
                        assert(t@[i] == dec(self.minor as nat)[i - m - 1]);
                    } else if i == m + 1 + n {
                    } else {
                        assert(t@[i] == dec(self.patch as nat)[i - m - n - 2]);
                    }
                }
            }
        }
        ascii_string(t)
    }

    /// Sets the major number and resets minor and patch.
    pub fn set_major(&mut self, val: u16)
        ensures
            *final(self) == (Version { major: val, minor: 0, patch: 0 }),
    {
        self.major = val;
        self.minor = 0;
        self.patch = 0;
    }

    /// Sets the minor number and resets patch.
    pub fn set_minor(&mut self, val: u16)
        ensures
            *final(self) == (Version { major: old(self).major, minor: val, patch: 0 }),
    {
        self.minor = val;
        self.patch = 0;
    }

    /// Sets the patch number alone.
    pub fn set_patch(&mut self, val: u16)
        ensures
            *final(self) == (Version { major: old(self).major, minor: old(self).minor, patch: val }),
    {
        self.patch = val;
    }

    /// The next major version, with minor and patch reset; nothing when the
    /// major number is already the largest.
    pub fn bump_major(&self) -> (r: Option<Version>)
        ensures
            self.major < 0xffff ==> r == Some(Version { major: (self.major + 1) as u16, minor: 0, patch: 0 }),
            self.major == 0xffff ==> r is None,
    {
        if self.major == 0xffff {
            return None;
        }
        let mut v = *self;
        v.set_major(self.major + 1);
        Some(v)
    }

    /// The next minor version, with patch reset; nothing when the minor
    /// number is already the largest.
    pub fn bump_minor(&self) -> (r: Option<Version>)
        ensures
            self.minor < 0xffff ==> r == Some(Version { major: self.major, minor: (self.minor + 1) as u16, patch: 0 }),
            self.minor == 0xffff ==> r is None,
    {
        if self.minor == 0xffff {
            return None;
        }
        let mut v = *self;
        v.set_minor(self.minor + 1);
        Some(v)
    }

    /// The next patch version; nothing when the patch number is already the largest.
    pub fn bump_patch(&self) -> (r: Option<Version>)
        ensures
            self.patch < 0xffff ==> r == Some(Version { major: self.major, minor: self.minor, patch: (self.patch + 1) as u16 }),
            self.patch == 0xffff ==> r is None,
    {
        if self.patch == 0xffff {
            return None;
        }
        let mut v = *self;
        v.set_patch(self.patch + 1);
        Some(v)
    }

    /// This version with each given field replaced; the others, lower ones
    /// included, stay as they are.
    pub fn with_fields(&self, major: Option<u16>, minor: Option<u16>, patch: Option<u16>) -> (r: Version)
        ensures
            r.major == (match major { Some(m) => m, None => self.major }),
            r.minor == (match minor { Some(m) => m, None => self.minor }),
            r.patch == (match patch { Some(m) => m, None => self.patch }),
    {
        let mut v = *self;
        if let Some(m) = major {
            v.major = m;
        }
        if let Some(m) = minor {
            v.minor = m;
        }
        if let Some(m) = patch {
            v.patch = m;
        }
        v
    }
}

/// A dotted string that `parse` reads in full: one to three components, each
/// one or more decimal digits of a value that fits in 16 bits.
pub open spec fn valid_version_text(s: Seq<u8>) -> bool {
    let p = split_on(s, DOT);
    1 <= p.len() <= 3 && forall|k: int| 0 <= k < p.len() ==> #[trigger] component_spec(p[k]) is Some
}

/// Component `k` of `s` in canonical form: its value in decimal, `0` when missing.
pub open spec fn normal_component(s: Seq<u8>, k: int) -> Seq<u8> {
    let p = split_on(s, DOT);
    if k < p.len() {
        dec(digits_value(p[k]))
    } else {
        seq![48u8]
    }
}

/// `s` written with three components, each without leading zeros.
pub open spec fn normalize(s: Seq<u8>) -> Seq<u8> {
    normal_component(s, 0) + seq![DOT] + normal_component(s, 1) + seq![DOT] + normal_component(s, 2)
}

/// Parsing a valid dotted string and writing it back gives the string in
/// canonical form: three components, no leading zeros.
pub proof fn lemma_format_parse(s: Seq<u8>)
    requires
        valid_version_text(s),
    ensures
        parse_spec(s) is Some,
        version_text(parse_spec(s)->0) == normalize(s),
{
    let p = split_on(s, DOT);
    assert(component_spec(p[0]) is Some);
    if p.len() >= 2 {
        assert(component_spec(p[1]) is Some);
    }
    if p.len() >= 3 {
        assert(component_spec(p[2]) is Some);
    }
    assert(dec(0) == seq![48u8]);
}

proof fn lemma_value_of_dec(n: nat)
    ensures
        digits_value(dec(n)) == n,
    decreases n,
{
    if n >= 10 {
        lemma_value_of_dec(n / 10);
        assert(dec(n).drop_last() =~= dec(n / 10));
        assert(dec(n).last() == (48 + n % 10) as u8);
        assert(digit_of(dec(n).last()) == n % 10);
        assert(n == (n / 10) * 10 + n % 10);
        assert(digits_value(dec(n)) == digits_value(dec(n).drop_last()) * 10 + digit_of(dec(n).last()));
    } else {
        assert(dec(n).drop_last() =~= Seq::<u8>::empty());
        assert(dec(n).last() == (48 + n) as u8);
        assert(digit_of(dec(n).last()) == n);
        assert(digits_value(dec(n).drop_last()) == 0);
        assert(digits_value(dec(n)) == digits_value(dec(n).drop_last()) * 10 + digit_of(dec(n).last()));
    }
}

proof fn lemma_dec_component(n: u16)
    ensures
        component_spec(dec(n as nat)) == Some(n),
        split_on(dec(n as nat), DOT) == seq![dec(n as nat)],
{
    lemma_dec_digits(n as nat);
    lemma_value_of_dec(n as nat);
    lemma_split_on_single(dec(n as nat), DOT);
}

/// Writing a version and parsing the text gives the version back.
pub proof fn lemma_parse_text(v: Version)
    ensures
        parse_spec(version_text(v)) == Some(v),
{
    let a = dec(v.major as nat);
    let b = dec(v.minor as nat);
    let c = dec(v.patch as nat);
    lemma_dec_component(v.major);
    lemma_dec_component(v.minor);
    lemma_dec_component(v.patch);
    lemma_split_on_concat(a, b, DOT);
    lemma_split_on_concat(a + seq![DOT] + b, c, DOT);
    assert(split_on(version_text(v), DOT) =~= seq![a, b, c]);
}

/// Writing a version as `major.minor` and parsing the text gives the version
/// with its patch number zero.
pub proof fn lemma_parse_short_text(v: Version)
    ensures
        parse_spec(short_version_text(v)) == Some(Version { major: v.major, minor: v.minor, patch: 0 }),
{
    let a = dec(v.major as nat);
    let b = dec(v.minor as nat);
    lemma_dec_component(v.major);
    lemma_dec_component(v.minor);
    lemma_split_on_concat(a, b, DOT);
    assert(split_on(short_version_text(v), DOT) =~= seq![a, b]);
}

/// A component already in canonical form reads back as itself.
pub proof fn lemma_dec_digits_value(s: Seq<u8>)
    requires
        s.len() >= 1,
        all_digits(s),
        s.len() == 1 || s[0] != 48,
    ensures
        dec(digits_value(s)) == s,
    decreases s.len(),
{
    let v = digits_value(s);
    if s.len() == 1 {
        assert(digits_value(s.drop_last()) == 0);
        assert(dec(v) =~= s);
    } else {
        let t = s.drop_last();
        lemma_dec_digits_value(t);
        lemma_value_positive(t);
        assert(v / 10 == digits_value(t));
        assert(v % 10 == digit_of(s.last()));
        assert(dec(v) =~= s);
    }
}

proof fn lemma_value_positive(s: Seq<u8>)
    requires
        s.len() >= 1,
        all_digits(s),
        s[0] != 48,
    ensures
        digits_value(s) >= 1,
    decreases s.len(),
{
    if s.len() > 1 {
        lemma_value_positive(s.drop_last());
    }
}

/// Parsing a canonical `major.minor.patch` string and writing it back gives
/// the same bytes.
pub proof fn lemma_format_parse_canonical(s: Seq<u8>)
    requires
        split_on(s, DOT).len() == 3,
        forall|k: int| 0 <= k < 3 ==> #[trigger] component_spec(split_on(s, DOT)[k]) is Some,
        forall|k: int| 0 <= k < 3 ==> no_leading_zero(#[trigger] split_on(s, DOT)[k]),
    ensures
        parse_spec(s) matches Some(v) && version_text(v) == s,
{
    let p = split_on(s, DOT);
    assert(component_spec(p[0]) is Some);
    assert(component_spec(p[1]) is Some);
    assert(component_spec(p[2]) is Some);
    assert(no_leading_zero(p[0]));
    assert(no_leading_zero(p[1]));
    assert(no_leading_zero(p[2]));
    lemma_dec_digits_value(p[0]);
    lemma_dec_digits_value(p[1]);
    lemma_dec_digits_value(p[2]);
    lemma_split_join(s, DOT);
    assert(p.drop_last().drop_last() =~= seq![p[0]]);
    assert(p.drop_last().last() == p[1]);
    assert(join_on(p.drop_last().drop_last(), DOT) == p[0]);
    assert(join_on(p.drop_last(), DOT) == p[0] + seq![DOT] + p[1]);
    assert(join_on(p, DOT) == p[0] + seq![DOT] + p[1] + seq![DOT] + p[2]);
}

/// One digit, or several without a leading zero.
pub open spec fn no_leading_zero(c: Seq<u8>) -> bool {
    c.len() == 1 || (c.len() > 1 && c[0] != 48)
}

} // verus!
