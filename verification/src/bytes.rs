//! Byte strings: equality, the lexicographic order, and the bytes of a
//! string literal.

use vstd::prelude::*;
use vstd::string::StringSliceAdditionalSpecFns;

verus! {

/// The bytes of a string slice, in UTF-8.
pub closed spec fn text(s: &str) -> Seq<u8> {
    s.spec_bytes()
}

/// The bytes of a string slice of ASCII characters are its characters, one
/// byte each.
pub proof fn lemma_text_ascii(s: &str)
    requires
        s.is_ascii(),
    ensures
        text(s) == Seq::new(s@.len(), |i: int| s@[i] as u8),
{
    vstd::string::is_ascii_spec_bytes(s);
}

/// `a` comes strictly before `b` in the lexicographic order, given that the
/// two agree below index `i`.
pub open spec fn before_from(a: Seq<u8>, b: Seq<u8>, i: int) -> bool
    decreases a.len() - i,
{
    if i >= b.len() {
        false
    } else if i >= a.len() {
        true
    } else if a[i] != b[i] {
        a[i] < b[i]
    } else {
        before_from(a, b, i + 1)
    }
}

/// `a` comes strictly before `b` in the lexicographic order of byte strings.
pub open spec fn before(a: Seq<u8>, b: Seq<u8>) -> bool {
    before_from(a, b, 0)
}

proof fn lemma_total_from(a: Seq<u8>, b: Seq<u8>, i: int)
    requires
        0 <= i <= a.len(),
        i <= b.len(),
        forall|k: int| 0 <= k < i ==> a[k] == b[k],
    ensures
        before_from(a, b, i) || before_from(b, a, i) || a == b,
        !(before_from(a, b, i) && before_from(b, a, i)),
        a == b ==> !before_from(a, b, i),
    decreases a.len() - i,
{
    if i >= a.len() || i >= b.len() {
        if i >= a.len() && i >= b.len() {
            assert(a =~= b);
        }
    } else if a[i] == b[i] {
        lemma_total_from(a, b, i + 1);
    }
}

proof fn lemma_transitive_from(a: Seq<u8>, b: Seq<u8>, c: Seq<u8>, i: int)
    requires
        0 <= i,
        before_from(a, b, i),
        before_from(b, c, i),
    ensures
        before_from(a, c, i),
    decreases c.len() - i,
{
    if i < a.len() && i < b.len() && i < c.len() && a[i] == b[i] && b[i] == c[i] {
        lemma_transitive_from(a, b, c, i + 1);
    }
}

/// Of two byte strings one comes before the other, or they are equal, and
/// no two of these hold together.
pub proof fn lemma_before_total(a: Seq<u8>, b: Seq<u8>)
    ensures
        before(a, b) || before(b, a) || a == b,
        !(before(a, b) && before(b, a)),
        a == b ==> !before(a, b),
{
    lemma_total_from(a, b, 0);
}

/// The lexicographic order is transitive.
pub proof fn lemma_before_transitive(a: Seq<u8>, b: Seq<u8>, c: Seq<u8>)
    requires
        before(a, b),
        before(b, c),
    ensures
        before(a, c),
{
    lemma_transitive_from(a, b, c, 0);
}

/// Whether two byte strings are equal.
pub fn same_bytes(a: &[u8], b: &[u8]) -> (r: bool)
    ensures
        r == (a@ == b@),
{
    if a.len() != b.len() {
        return false;
    }
    let mut i: usize = 0;
    while i < a.len()
        invariant
            a@.len() == b@.len(),
            i <= a@.len(),
            forall|k: int| 0 <= k < i ==> a@[k] == b@[k],
        decreases a@.len() - i,
    {
        if a[i] != b[i] {
            return false;
        }
        i += 1;
    }
    assert(a@ =~= b@);
    true
}

/// Whether `a` comes strictly before `b` in the lexicographic order.
pub fn comes_before(a: &[u8], b: &[u8]) -> (r: bool)
    ensures
        r == before(a@, b@),
{
    let mut i: usize = 0;
    while i < a.len() && i < b.len()
        invariant
            i <= a@.len(),
            i <= b@.len(),
            before(a@, b@) == before_from(a@, b@, i as int),
        decreases a@.len() - i,
    {
        if a[i] != b[i] {
            return a[i] < b[i];
        }
        i += 1;
    }
    i < b.len()
}

/// Whether `a` holds exactly the bytes of the word `w`.
pub fn is_word(a: &[u8], w: &str) -> (r: bool)
    ensures
        r == (a@ == text(w)),
{
    same_bytes(a, w.as_bytes())
}

/// Appends the bytes of the word `w`.
pub fn put(out: &mut Vec<u8>, w: &str)
    ensures
        final(out)@ == old(out)@ + text(w),
{
    put_bytes(out, w.as_bytes());
}

/// Appends the bytes of `b`.
pub fn put_bytes(out: &mut Vec<u8>, b: &[u8])
    ensures
        final(out)@ == old(out)@ + b@,
{
    let mut i: usize = 0;
    while i < b.len()
        invariant
            i <= b@.len(),
            out@ == old(out)@ + b@.subrange(0, i as int),
        decreases b@.len() - i,
    {
        out.push(b[i]);
        assert(out@ =~= old(out)@ + b@.subrange(0, i + 1));
        i += 1;
    }
    assert(b@.subrange(0, i as int) =~= b@);
}

/// A fresh vector with the bytes of the word `w`.
pub fn word(w: &str) -> (r: Vec<u8>)
    ensures
        r@ == text(w),
{
    let mut out: Vec<u8> = Vec::new();
    put(&mut out, w);
    assert(out@ =~= text(w));
    out
}

/// A fresh vector with the bytes of `b` from `start` up to `end`.
pub fn slice_of(b: &[u8], start: usize, end: usize) -> (r: Vec<u8>)
    requires
        start <= end <= b@.len(),
    ensures
        r@ == b@.subrange(start as int, end as int),
{
    let mut out: Vec<u8> = Vec::new();
    let mut i: usize = start;
    while i < end
        invariant
            start <= i <= end <= b@.len(),
            out@ == b@.subrange(start as int, i as int),
        decreases end - i,
    {
        out.push(b[i]);
        assert(out@ =~= b@.subrange(start as int, i + 1));
        i += 1;
    }
    out
}

} // verus!
