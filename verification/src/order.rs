//! Byte strings in dictionary order, the one order every stage compares by.

use vstd::prelude::*;

verus! {

/// How many leading bytes `a` and `b` share.
pub open spec fn shared(a: Seq<u8>, b: Seq<u8>) -> int
    decreases a.len(),
{
    if a.len() == 0 || b.len() == 0 || a[0] != b[0] {
        0
    } else {
        1 + shared(a.drop_first(), b.drop_first())
    }
}

/// `a` stands before `b` in the dictionary: it is a proper prefix of `b`, or
/// has the smaller byte where they first differ.
pub open spec fn bytes_lt(a: Seq<u8>, b: Seq<u8>) -> bool {
    let i = shared(a, b);
    i < b.len() && (i == a.len() || a[i] < b[i])
}

/// `a` stands before `b` or is equal to it.
pub open spec fn bytes_le(a: Seq<u8>, b: Seq<u8>) -> bool {
    a == b || bytes_lt(a, b)
}

/// Every byte replaced by its complement.
pub open spec fn inverted(a: Seq<u8>) -> Seq<u8> {
    Seq::new(a.len(), |i: int| !a[i])
}

/// The shared bytes are equal, and the next ones, if both are there, differ.
pub proof fn lemma_shared(a: Seq<u8>, b: Seq<u8>)
    ensures
        0 <= shared(a, b) <= a.len(),
        shared(a, b) <= b.len(),
        forall|j: int| 0 <= j < shared(a, b) ==> #[trigger] a[j] == b[j],
        shared(a, b) < a.len() && shared(a, b) < b.len() ==> a[shared(a, b)] != b[shared(a, b)],
    decreases a.len(),
{
    if !(a.len() == 0 || b.len() == 0 || a[0] != b[0]) {
        let x = a.drop_first();
        let y = b.drop_first();
        lemma_shared(x, y);
        let n = shared(x, y);
        assert forall|j: int| 0 <= j < n + 1 implies #[trigger] a[j] == b[j] by {
            if j > 0 {
                assert(x[j - 1] == y[j - 1]);
            }
        }
        assert(n < x.len() && n < y.len() ==> x[n] == a[n + 1] && y[n] == b[n + 1]);
    }
}

/// Where `a` and `b` agree up to `i` and differ or end there, that is what
/// they share.
pub proof fn lemma_shared_is(a: Seq<u8>, b: Seq<u8>, i: int)
    requires
        0 <= i <= a.len(),
        i <= b.len(),
        forall|j: int| 0 <= j < i ==> #[trigger] a[j] == b[j],
        i == a.len() || i == b.len() || a[i] != b[i],
    ensures
        shared(a, b) == i,
{
    lemma_shared(a, b);
    let n = shared(a, b);
    if n < i {
        assert(a[n] == b[n]);
    } else if i < n {
        assert(a[i] == b[i]);
    }
}

/// Nothing stands before itself.
pub proof fn lemma_irreflexive(a: Seq<u8>)
    ensures
        !bytes_lt(a, a),
{
    lemma_shared_is(a, a, a.len() as int);
}

/// Of two different byte strings exactly one stands before the other.
pub proof fn lemma_trichotomy(a: Seq<u8>, b: Seq<u8>)
    ensures
        a == b <==> !bytes_lt(a, b) && !bytes_lt(b, a),
        !(bytes_lt(a, b) && bytes_lt(b, a)),
{
    lemma_shared(a, b);
    lemma_shared_is(b, a, shared(a, b));
    lemma_irreflexive(a);
    let i = shared(a, b);
    if !bytes_lt(a, b) && !bytes_lt(b, a) {
        assert(a =~= b);
    }
}

/// The order is transitive.
pub proof fn lemma_transitive(a: Seq<u8>, b: Seq<u8>, c: Seq<u8>)
    requires
        bytes_lt(a, b),
        bytes_lt(b, c),
    ensures
        bytes_lt(a, c),
{
    lemma_shared(a, b);
    lemma_shared(b, c);
    let i = shared(a, b);
    let j = shared(b, c);
    let k = if i <= j {
        i
    } else {
        j
    };
    assert forall|n: int| 0 <= n < k implies #[trigger] a[n] == c[n] by {
        assert(a[n] == b[n]);
        assert(b[n] == c[n]);
    }
    if i < j {
        assert(b[i] == c[i]);
    }
    if j < i {
        assert(a[j] == b[j]);
    }
    lemma_shared_is(a, c, k);
}

/// Two byte strings neither of which is a prefix of the other.
pub open spec fn apart(a: Seq<u8>, b: Seq<u8>) -> bool {
    shared(a, b) < a.len() && shared(a, b) < b.len()
}

/// Where `a` and `b` differ within both, what follows them does not matter.
pub proof fn lemma_apart_extends(a: Seq<u8>, b: Seq<u8>, x: Seq<u8>, y: Seq<u8>)
    requires
        apart(a, b),
    ensures
        apart(a + x, b + y),
        bytes_lt(a + x, b + y) == bytes_lt(a, b),
{
    lemma_shared(a, b);
    lemma_shared_is(a + x, b + y, shared(a, b));
}

/// A common beginning does not matter.
pub proof fn lemma_common_prefix(p: Seq<u8>, a: Seq<u8>, b: Seq<u8>)
    ensures
        shared(p + a, p + b) == p.len() + shared(a, b),
        bytes_lt(p + a, p + b) == bytes_lt(a, b),
        apart(p + a, p + b) == apart(a, b),
{
    lemma_shared(a, b);
    let n = shared(a, b);
    let x = p + a;
    let y = p + b;
    assert forall|j: int| 0 <= j < p.len() + n implies #[trigger] x[j] == y[j] by {
        if j >= p.len() {
            assert(a[j - p.len()] == b[j - p.len()]);
        }
    }
    assert(n < a.len() ==> x[p.len() + n] == a[n]);
    assert(n < b.len() ==> y[p.len() + n] == b[n]);
    lemma_shared_is(x, y, p.len() + n);
}

/// Complementing the bytes of two strings that are apart turns their order
/// around.
pub proof fn lemma_inverted(a: Seq<u8>, b: Seq<u8>)
    requires
        apart(a, b),
    ensures
        apart(inverted(a), inverted(b)),
        bytes_lt(inverted(a), inverted(b)) == bytes_lt(b, a),
{
    lemma_shared(a, b);
    let i = shared(a, b);
    let x = a[i];
    let y = b[i];
    assert(x < y <==> !y < !x) by (bit_vector);
    assert(x != y <==> !x != !y) by (bit_vector);
    lemma_shared_is(inverted(a), inverted(b), i);
    lemma_shared_is(b, a, i);
}

/// Whether `a` stands before `b`.
pub fn before(a: &[u8], b: &[u8]) -> (r: bool)
    ensures
        r == bytes_lt(a@, b@),
{
    let mut i: usize = 0;
    while i < a.len() && i < b.len() && a[i] == b[i]
        invariant
            i <= a@.len(),
            i <= b@.len(),
            forall|j: int| 0 <= j < i ==> #[trigger] a@[j] == b@[j],
        decreases a@.len() - i,
    {
        i += 1;
    }
    proof {
        lemma_shared_is(a@, b@, i as int);
    }
    i < b.len() && (i == a.len() || a[i] < b[i])
}

/// Whether `a` and `b` hold the same bytes.
pub fn same(a: &[u8], b: &[u8]) -> (r: bool)
    ensures
        r == (a@ == b@),
{
    if a.len() != b.len() {
        return false;
    }
    let mut i: usize = 0;
    while i < a.len()
        invariant
            i <= a@.len(),
            a@.len() == b@.len(),
            forall|j: int| 0 <= j < i ==> #[trigger] a@[j] == b@[j],
        decreases a@.len() - i,
    {
        if a[i] != b[i] {
            return false;
        }
        i += 1;
    }
    assert(a@ =~= b@);
    true
}

/// Complement every byte from `start` on.
pub fn invert_from(bytes: &mut Vec<u8>, start: usize)
    requires
        start <= old(bytes)@.len(),
    ensures
        final(bytes)@ == old(bytes)@.take(start as int) + inverted(
            old(bytes)@.skip(start as int),
        ),
{
    let mut i: usize = start;
    let n: usize = bytes.len();
    while i < n
        invariant
            start <= i <= n,
            n == bytes@.len(),
            n == old(bytes)@.len(),
            forall|j: int| 0 <= j < start ==> #[trigger] bytes@[j] == old(bytes)@[j],
            forall|j: int| start <= j < i ==> #[trigger] bytes@[j] == !old(bytes)@[j],
            forall|j: int| i <= j < n ==> #[trigger] bytes@[j] == old(bytes)@[j],
        decreases n - i,
    {
        let b = bytes[i];
        bytes.set(i, !b);
        i += 1;
    }
    assert(bytes@ =~= old(bytes)@.take(start as int) + inverted(old(bytes)@.skip(start as int)));
}

} // verus!
