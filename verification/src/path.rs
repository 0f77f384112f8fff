//! Paths as byte strings: prefix tests and the lexicographic order.
//!
//! A path is held as a `String`; what is compared is its UTF-8 encoding, byte
//! by byte, so that the results agree with the file system's own view of a
//! name.

use vstd::prelude::*;
use vstd::slice::slice_subrange;
use vstd::utf8::encode_utf8;

verus! {

/// The bytes of a path.
pub open spec fn path_bytes(path: Seq<char>) -> Seq<u8> {
    encode_utf8(path)
}

/// `a` comes strictly before `b` in the lexicographic order on bytes: at the
/// first position where the two differ `a` has the smaller byte, or `a` ends
/// there and `b` goes on.
pub open spec fn precedes(a: Seq<u8>, b: Seq<u8>) -> bool {
    exists|k: int| #[trigger] differs_first_at(a, b, k) && (k == a.len() || a[k] < b[k])
}

/// `a` and `b` agree on their first `k` bytes, `b` has a byte at `k`, and `a`
/// either ends at `k` or has a different byte there.
pub open spec fn differs_first_at(a: Seq<u8>, b: Seq<u8>, k: int) -> bool {
    &&& 0 <= k <= a.len()
    &&& k < b.len()
    &&& forall|i: int| 0 <= i < k ==> a[i] == b[i]
    &&& k < a.len() ==> a[k] != b[k]
}

/// The length of the longest common prefix of `a` and `b`.
fn common_prefix_len(a: &[u8], b: &[u8]) -> (n: usize)
    ensures
        n <= a@.len(),
        n <= b@.len(),
        forall|i: int| 0 <= i < n ==> a@[i] == b@[i],
        n < a@.len() && n < b@.len() ==> a@[n as int] != b@[n as int],
{
    let mut n: usize = 0;
    while n < a.len() && n < b.len() && a[n] == b[n]
        invariant
            n <= a@.len(),
            n <= b@.len(),
            forall|i: int| 0 <= i < n ==> a@[i] == b@[i],
        decreases a@.len() - n,
    {
        n = n + 1;
    }
    n
}

/// Whether `text` begins with `prefix`.
pub fn starts_with(text: &[u8], prefix: &[u8]) -> (r: bool)
    ensures
        r == prefix@.is_prefix_of(text@),
{
    if prefix.len() > text.len() {
        return false;
    }
    let n = common_prefix_len(text, prefix);
    proof {
        if n == prefix@.len() {
            assert(prefix@ =~= text@.subrange(0, prefix@.len() as int));
        } else {
            assert(text@.subrange(0, prefix@.len() as int)[n as int] == text@[n as int]);
        }
    }
    n == prefix.len()
}

/// Whether `text` ends with `suffix`.
pub fn ends_with(text: &[u8], suffix: &[u8]) -> (r: bool)
    ensures
        r == suffix@.is_suffix_of(text@),
{
    if suffix.len() > text.len() {
        return false;
    }
    let tail = slice_subrange(text, text.len() - suffix.len(), text.len());
    same_bytes(tail, suffix)
}

/// Whether `a` and `b` hold the same bytes.
pub fn same_bytes(a: &[u8], b: &[u8]) -> (r: bool)
    ensures
        r == (a@ == b@),
{
    if a.len() != b.len() {
        return false;
    }
    let n = common_prefix_len(a, b);
    proof {
        if n == a@.len() {
            assert(a@ =~= b@);
        }
    }
    n == a.len()
}

/// Whether `a` comes strictly before `b` in the lexicographic order on bytes.
pub fn bytes_precede(a: &[u8], b: &[u8]) -> (r: bool)
    ensures
        r == precedes(a@, b@),
{
    let n = common_prefix_len(a, b);
    let r = n < b.len() && (n == a.len() || a[n] < b[n]);
    proof {
        if r {
            assert(differs_first_at(a@, b@, n as int));
        } else {
            assert forall|k: int| #[trigger] differs_first_at(a@, b@, k) implies !(k == a@.len()
                || a@[k] < b@[k]) by {
                if k < n {
                    assert(a@[k] == b@[k]);
                } else if k > n {
                    assert(a@[n as int] == b@[n as int]);
                }
            }
        }
    }
    r
}

/// How two byte strings stand to each other in the lexicographic order: 0
/// where they are equal, 1 where `a` comes first, 2 where `b` comes first.
pub fn bytes_rank(a: &[u8], b: &[u8]) -> (r: u8)
    ensures
        r <= 2,
        r == 0 <==> a@ == b@,
        r == 1 <==> precedes(a@, b@),
        r == 2 <==> precedes(b@, a@),
{
    let n = common_prefix_len(a, b);
    proof {
        lemma_precedes_total(a@, b@);
    }
    if n == a.len() && n == b.len() {
        assert(a@ =~= b@);
        0
    } else if n == a.len() {
        assert(differs_first_at(a@, b@, n as int));
        1
    } else if n == b.len() {
        assert(differs_first_at(b@, a@, n as int));
        2
    } else if a[n] < b[n] {
        assert(differs_first_at(a@, b@, n as int));
        1
    } else {
        assert(differs_first_at(b@, a@, n as int));
        2
    }
}

/// The order is irreflexive: nothing comes before itself.
pub proof fn lemma_precedes_irreflexive(a: Seq<u8>)
    ensures
        !precedes(a, a),
{
}

/// The order is total: two byte strings are equal, or one comes before the
/// other.
pub proof fn lemma_precedes_total(a: Seq<u8>, b: Seq<u8>)
    ensures
        a == b || precedes(a, b) || precedes(b, a),
        !(precedes(a, b) && precedes(b, a)),
{
    lemma_first_difference(a, b, 0);
    if precedes(a, b) && precedes(b, a) {
        let k = choose|k: int| #[trigger] differs_first_at(a, b, k) && (k == a.len() || a[k] < b[k]);
        let m = choose|m: int| #[trigger] differs_first_at(b, a, m) && (m == b.len() || b[m] < a[m]);
        if k < m {
            assert(b[k] == a[k]);
        } else if m < k {
            assert(a[m] == b[m]);
        }
    }
}

/// From position `from` on, up to which `a` and `b` agree, either the two are
/// equal or there is a first position at which they differ.
proof fn lemma_first_difference(a: Seq<u8>, b: Seq<u8>, from: int)
    requires
        0 <= from <= a.len(),
        from <= b.len(),
        forall|i: int| 0 <= i < from ==> a[i] == b[i],
    ensures
        a == b || precedes(a, b) || precedes(b, a),
    decreases a.len() - from,
{
    if from == a.len() {
        if from == b.len() {
            assert(a =~= b);
        } else {
            assert(differs_first_at(a, b, from));
        }
    } else if from == b.len() {
        assert(differs_first_at(b, a, from));
    } else if a[from] == b[from] {
        lemma_first_difference(a, b, from + 1);
    } else if a[from] < b[from] {
        assert(differs_first_at(a, b, from));
    } else {
        assert(differs_first_at(b, a, from));
    }
}

/// The order is transitive.
pub proof fn lemma_precedes_transitive(a: Seq<u8>, b: Seq<u8>, c: Seq<u8>)
    requires
        precedes(a, b),
        precedes(b, c),
    ensures
        precedes(a, c),
{
    let k = choose|k: int| #[trigger] differs_first_at(a, b, k) && (k == a.len() || a[k] < b[k]);
    let m = choose|m: int| #[trigger] differs_first_at(b, c, m) && (m == b.len() || b[m] < c[m]);
    let n = if k <= m { k } else { m };
    assert forall|i: int| 0 <= i < n implies a[i] == c[i] by {
        assert(a[i] == b[i]);
        assert(b[i] == c[i]);
    }
    if k < m {
        assert(b[k] == c[k]);
    }
    assert(differs_first_at(a, c, n));
}

/// Two paths with the same bytes are the same path.
pub proof fn lemma_path_bytes_injective(p: Seq<char>, q: Seq<char>)
    requires
        path_bytes(p) == path_bytes(q),
    ensures
        p == q,
{
    vstd::utf8::encode_utf8_decode_utf8(p);
    vstd::utf8::encode_utf8_decode_utf8(q);
}

} // verus!
