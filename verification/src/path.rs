//! Paths as sequences of components.

use vstd::prelude::*;
use vstd::string::StringSliceAdditionalSpecFns;

verus! {

/// The byte that parts the components of a path.
pub const SEPARATOR: u8 = 47;

/// The length of the longest prefix of `s` that holds no separator.
pub open spec fn segment_len(s: Seq<u8>) -> nat
    decreases s.len(),
{
    if s.len() == 0 || s[0] == SEPARATOR {
        0
    } else {
        1 + segment_len(s.drop_first())
    }
}

/// The components of the path `s`: the runs of bytes between separators,
/// in order, the empty ones left out.
pub open spec fn components(s: Seq<u8>) -> Seq<Seq<u8>>
    decreases s.len(),
{
    if s.len() == 0 {
        Seq::empty()
    } else if s[0] == SEPARATOR {
        components(s.drop_first())
    } else {
        let n = segment_len(s);
        if 0 < n <= s.len() {
            seq![s.take(n as int)] + components(s.skip(n as int))
        } else {
            Seq::empty()
        }
    }
}

/// The byte strings that the vectors of `v` hold.
pub open spec fn names_of(v: Seq<Vec<u8>>) -> Seq<Seq<u8>> {
    Seq::new(v.len(), |i: int| v[i]@)
}

/// `p` is a prefix of `s`.
pub open spec fn starts_with(s: Seq<Seq<u8>>, p: Seq<Seq<u8>>) -> bool {
    p.len() <= s.len() && s.take(p.len() as int) == p
}

/// A run of `n` bytes without separator that ends at a separator or at the
/// end of `s` is the first segment of `s`.
pub proof fn lemma_segment(s: Seq<u8>, n: int)
    requires
        0 <= n <= s.len(),
        forall|j: int| 0 <= j < n ==> s[j] != SEPARATOR,
        n == s.len() || s[n] == SEPARATOR,
    ensures
        segment_len(s) == n,
    decreases n,
{
    if n > 0 {
        lemma_segment(s.drop_first(), n - 1);
    }
}

/// Whether two byte strings are the same.
pub fn same_bytes(a: &[u8], b: &[u8]) -> (eq: bool)
    ensures
        eq == (a@ == b@),
{
    if a.len() != b.len() {
        return false;
    }
    let mut i: usize = 0;
    while i < a.len()
        invariant
            a@.len() == b@.len(),
            i <= a@.len(),
            forall|j: int| 0 <= j < i ==> a@[j] == b@[j],
        decreases a@.len() - i,
    {
        if a[i] != b[i] {
            return false;
        }
        i += 1;
    }
    assert(a@ =~= b@);
    true
}

/// Splits a path into its components.
pub fn split_path(path: &str) -> (parts: Vec<Vec<u8>>)
    ensures
        names_of(parts@) == components(path.spec_bytes()),
{
    let bytes = path.as_bytes();
    let ghost b = bytes@;
    let mut parts: Vec<Vec<u8>> = Vec::new();
    let mut i: usize = 0;
    assert(b.skip(0) =~= b);
    assert(names_of(parts@) + components(b.skip(0)) =~= components(b));
    while i < bytes.len()
        invariant
            b == bytes@,
            i <= b.len(),
            names_of(parts@) + components(b.skip(i as int)) == components(b),
        decreases b.len() - i,
    {
        let ghost rest = b.skip(i as int);
        if bytes[i] == SEPARATOR {
            assert(rest.drop_first() =~= b.skip(i + 1));
            i += 1;
        } else {
            let start = i;
            let mut cur: Vec<u8> = Vec::new();
            while i < bytes.len() && bytes[i] != SEPARATOR
                invariant
                    b == bytes@,
                    start <= i <= b.len(),
                    cur@ == b.subrange(start as int, i as int),
                    forall|j: int| start <= j < i ==> b[j] != SEPARATOR,
                decreases b.len() - i,
            {
                cur.push(bytes[i]);
                assert(cur@ =~= b.subrange(start as int, i + 1));
                i += 1;
            }
            proof {
                let n = i - start;
                lemma_segment(rest, n);
                assert(rest.take(n) =~= cur@);
                assert(rest.skip(n) =~= b.skip(i as int));
                let ghost before = names_of(parts@);
                assert(names_of(parts@.push(cur)) =~= before + seq![cur@]);
                assert((before + seq![cur@]) + components(b.skip(i as int)) =~= before + (
                seq![cur@] + components(b.skip(i as int))));
            }
            parts.push(cur);
        }
    }
    assert(components(b.skip(i as int)) =~= Seq::<Seq<u8>>::empty());
    assert(names_of(parts@) + Seq::<Seq<u8>>::empty() =~= names_of(parts@));
    parts
}

} // verus!
