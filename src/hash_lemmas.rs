use vstd::prelude::*;
use crate::zobrist::xor_hash;

verus! {

/// The points of `b` that do not occur in `a`, in the order of `b`.
pub open spec fn fresh_points(a: Seq<usize>, b: Seq<usize>) -> Seq<usize>
    decreases b.len(),
{
    if b.len() == 0 {
        Seq::empty()
    } else {
        let r = fresh_points(a, b.drop_last());
        if a.contains(b.last()) {
            r
        } else {
            r.push(b.last())
        }
    }
}

/// The points of `b` that also occur in `a`, in the order of `b`.
pub open spec fn shared_points(a: Seq<usize>, b: Seq<usize>) -> Seq<usize>
    decreases b.len(),
{
    if b.len() == 0 {
        Seq::empty()
    } else {
        let r = shared_points(a, b.drop_last());
        if a.contains(b.last()) {
            r.push(b.last())
        } else {
            r
        }
    }
}

/// The points of `a` followed by those of `b` that `a` lacks: each point of
/// either sequence once, when both are free of duplicates.
pub open spec fn union_points(a: Seq<usize>, b: Seq<usize>) -> Seq<usize> {
    a + fresh_points(a, b)
}

/// XOR is associative and commutative, with zero as unit and each value
/// its own inverse.
pub proof fn lemma_xor_assoc(a: u64, b: u64, c: u64)
    ensures
        (a ^ b) ^ c == a ^ (b ^ c),
        a ^ b == b ^ a,
        a ^ 0 == a,
        a ^ a == 0,
        0 ^ a == a,
{
    assert((a ^ b) ^ c == a ^ (b ^ c)) by (bit_vector);
    assert(a ^ b == b ^ a) by (bit_vector);
    assert(a ^ 0 == a) by (bit_vector);
    assert(a ^ a == 0) by (bit_vector);
    assert(0 ^ a == a) by (bit_vector);
}

/// The hash of a concatenation is the XOR of the hashes of its parts.
pub proof fn lemma_xor_hash_concat(table: Seq<u64>, a: Seq<usize>, b: Seq<usize>)
    ensures
        xor_hash(table, a + b) == xor_hash(table, a) ^ xor_hash(table, b),
    decreases b.len(),
{
    if b.len() == 0 {
        assert(a + b =~= a);
        lemma_xor_assoc(xor_hash(table, a), 0, 0);
    } else {
        lemma_xor_hash_concat(table, a, b.drop_last());
        assert((a + b).drop_last() =~= a + b.drop_last());
        assert((a + b).last() == b.last());
        lemma_xor_assoc(xor_hash(table, a), xor_hash(table, b.drop_last()), table[b.last() as int]);
    }
}

/// Splitting a sequence by membership in `a` splits its hash.
pub proof fn lemma_xor_hash_split(table: Seq<u64>, a: Seq<usize>, b: Seq<usize>)
    ensures
        xor_hash(table, b) == xor_hash(table, shared_points(a, b)) ^ xor_hash(table, fresh_points(a, b)),
    decreases b.len(),
{
    if b.len() == 0 {
        lemma_xor_assoc(0, 0, 0);
    } else {
        let s = shared_points(a, b.drop_last());
        let f = fresh_points(a, b.drop_last());
        let x = table[b.last() as int];
        lemma_xor_hash_split(table, a, b.drop_last());
        assert(s.push(b.last()).drop_last() =~= s);
        assert(f.push(b.last()).drop_last() =~= f);
        let hs = xor_hash(table, s);
        let hf = xor_hash(table, f);
        assert((hs ^ hf) ^ x == (hs ^ x) ^ hf) by (bit_vector);
        lemma_xor_assoc(hs, hf, x);
    }
}

/// Removing the point at index `i` takes its key out of the hash.
pub proof fn lemma_xor_hash_remove(table: Seq<u64>, s: Seq<usize>, i: int)
    requires
        0 <= i < s.len(),
    ensures
        xor_hash(table, s) == xor_hash(table, s.remove(i)) ^ table[s[i] as int],
    decreases s.len(),
{
    if i == s.len() - 1 {
        assert(s.remove(i) =~= s.drop_last());
    } else {
        lemma_xor_hash_remove(table, s.drop_last(), i);
        assert(s.remove(i).drop_last() =~= s.drop_last().remove(i));
        assert(s.remove(i).last() == s.last());
        let r = xor_hash(table, s.drop_last().remove(i));
        let y = table[s[i] as int];
        let z = table[s.last() as int];
        assert((r ^ y) ^ z == (r ^ z) ^ y) by (bit_vector);
    }
}

/// The hash of a sequence of distinct points depends on its set of points
/// alone, not on the order in which they were found.
pub proof fn lemma_xor_hash_order_independent(table: Seq<u64>, a: Seq<usize>, b: Seq<usize>)
    requires
        a.no_duplicates(),
        b.no_duplicates(),
        a.to_set() == b.to_set(),
    ensures
        xor_hash(table, a) == xor_hash(table, b),
    decreases a.len(),
{
    a.unique_seq_to_set();
    b.unique_seq_to_set();
    if a.len() != 0 {
        let x = a.last();
        assert(a.to_set().contains(x));
        assert(b.contains(x));
        let i = b.index_of(x);
        let a2 = a.drop_last();
        let b2 = b.remove(i);
        assert(a2.to_set() =~= b2.to_set()) by {
            assert forall|p: usize| a2.to_set().contains(p) implies b2.to_set().contains(p) by {
                let k = choose|k: int| 0 <= k < a2.len() && a2[k] == p;
                assert(a.to_set().contains(p));
                assert(b.contains(p));
                let m = choose|m: int| 0 <= m < b.len() && b[m] == p;
                assert(m != i);
                if m < i {
                    assert(b2[m] == p);
                } else {
                    assert(b2[m - 1] == p);
                }
            }
            assert forall|p: usize| b2.to_set().contains(p) implies a2.to_set().contains(p) by {
                let m = choose|m: int| 0 <= m < b2.len() && b2[m] == p;
                let mb = if m < i { m } else { m + 1 };
                assert(b[mb] == p);
                assert(mb != i);
                assert(b.to_set().contains(p));
                assert(a.contains(p));
                let k = choose|k: int| 0 <= k < a.len() && a[k] == p;
                assert(k != a.len() - 1);
                assert(a2[k] == p);
            }
        }
        assert(b2.no_duplicates()) by {
            assert forall|u: int, v: int| 0 <= u < b2.len() && 0 <= v < b2.len() && u != v implies b2[u] != b2[v] by {
                let uu = if u < i { u } else { u + 1 };
                let vv = if v < i { v } else { v + 1 };
                assert(b2[u] == b[uu]);
                assert(b2[v] == b[vv]);
            }
        }
        lemma_xor_hash_order_independent(table, a2, b2);
        lemma_xor_hash_remove(table, b, i);
    } else {
        assert(b.len() == 0) by {
            if b.len() > 0 {
                assert(b.to_set().contains(b[0]));
            }
        }
    }
}

/// The points of `b` missing from `a` are distinct when those of `b` are,
/// and they are exactly the points of `b` that `a` lacks.
pub proof fn lemma_fresh_points(a: Seq<usize>, b: Seq<usize>)
    requires
        b.no_duplicates(),
    ensures
        fresh_points(a, b).no_duplicates(),
        forall|p: usize| fresh_points(a, b).contains(p) <==> (b.contains(p) && !a.contains(p)),
    decreases b.len(),
{
    if b.len() > 0 {
        let d = b.drop_last();
        assert(d.no_duplicates()) by {
            assert forall|i: int, j: int| 0 <= i < j < d.len() implies d[i] != d[j] by {
                assert(d[i] == b[i] && d[j] == b[j]);
            }
        }
        lemma_fresh_points(a, d);
        let r = fresh_points(a, d);
        assert(!d.contains(b.last())) by {
            if d.contains(b.last()) {
                let i = choose|i: int| 0 <= i < d.len() && d[i] == b.last();
                assert(b[i] == b[b.len() - 1]);
            }
        }
        assert forall|p: usize| fresh_points(a, b).contains(p) <==> (b.contains(p) && !a.contains(p)) by {
            if d.contains(p) {
                let i = choose|i: int| 0 <= i < d.len() && d[i] == p;
                assert(b[i] == p);
            }
            if b.contains(p) && p != b.last() {
                let i = choose|i: int| 0 <= i < b.len() && b[i] == p;
                assert(d[i] == p);
            }
            if !a.contains(b.last()) {
                let r2 = r.push(b.last());
                if r2.contains(p) && p != b.last() {
                    let i = choose|i: int| 0 <= i < r2.len() && r2[i] == p;
                    assert(r[i] == p);
                }
                if r.contains(p) {
                    let i = choose|i: int| 0 <= i < r.len() && r[i] == p;
                    assert(r2[i] == p);
                }
                assert(r2[r.len() as int] == b.last());
            }
        }
        if !a.contains(b.last()) {
            let r2 = r.push(b.last());
            assert forall|i: int, j: int| 0 <= i < j < r2.len() implies r2[i] != r2[j] by {
                if j == r.len() {
                    assert(r.contains(r[i]));
                }
            }
        }
    }
}

/// Of a sequence of distinct points that holds `x`, exactly `x` is shared
/// with the one-point sequence `[x]`.
pub proof fn lemma_shared_single(x: usize, b: Seq<usize>)
    requires
        b.no_duplicates(),
    ensures
        shared_points(seq![x], b) == (if b.contains(x) { seq![x] } else { Seq::<usize>::empty() }),
    decreases b.len(),
{
    if b.len() > 0 {
        let d = b.drop_last();
        assert(d.no_duplicates()) by {
            assert forall|i: int, j: int| 0 <= i < j < d.len() implies d[i] != d[j] by {
                assert(d[i] == b[i] && d[j] == b[j]);
            }
        }
        lemma_shared_single(x, d);
        assert(seq![x].contains(b.last()) == (b.last() == x)) by {
            if seq![x].contains(b.last()) {
                let i = choose|i: int| 0 <= i < 1 && seq![x][i] == b.last();
            }
            if b.last() == x {
                assert(seq![x][0] == x);
            }
        }
        if d.contains(x) {
            let i = choose|i: int| 0 <= i < d.len() && d[i] == x;
            assert(b[i] == x);
            assert(b.last() != x) by {
                assert(b[i] == b[b.len() - 1] ==> i == b.len() - 1);
            }
        }
        if b.contains(x) && b.last() != x {
            let i = choose|i: int| 0 <= i < b.len() && b[i] == x;
            assert(d[i] == x);
        }
        if b.last() == x {
            assert(b[b.len() - 1] == x);
        }
        assert(Seq::<usize>::empty().push(x) =~= seq![x]);
    }
}

/// When `a` and `b` share no point, their union is their concatenation.
pub proof fn lemma_union_disjoint(a: Seq<usize>, b: Seq<usize>)
    requires
        forall|i: int| 0 <= i < b.len() ==> !a.contains(#[trigger] b[i]),
    ensures
        union_points(a, b) == a + b,
{
    lemma_fresh_all(a, b);
}

proof fn lemma_fresh_all(a: Seq<usize>, b: Seq<usize>)
    requires
        forall|i: int| 0 <= i < b.len() ==> !a.contains(#[trigger] b[i]),
    ensures
        fresh_points(a, b) == b,
    decreases b.len(),
{
    if b.len() > 0 {
        let d = b.drop_last();
        assert forall|i: int| 0 <= i < d.len() implies !a.contains(#[trigger] d[i]) by {
            assert(d[i] == b[i]);
        }
        lemma_fresh_all(a, d);
        assert(!a.contains(b[b.len() - 1]));
        assert(d.push(b.last()) =~= b);
    }
}

/// The union of two sequences of distinct points holds each point of either
/// exactly once.
pub proof fn lemma_union_points(a: Seq<usize>, b: Seq<usize>)
    requires
        a.no_duplicates(),
        b.no_duplicates(),
    ensures
        union_points(a, b).no_duplicates(),
        union_points(a, b).to_set() == a.to_set().union(b.to_set()),
{
    let f = fresh_points(a, b);
    let u = a + f;
    lemma_fresh_points(a, b);
    assert forall|i: int, j: int| 0 <= i < j < u.len() implies u[i] != u[j] by {
        if i < a.len() && j >= a.len() {
            assert(u[j] == f[j - a.len()]);
            assert(f.contains(u[j]));
            assert(a.contains(u[i]));
        } else if i >= a.len() {
            assert(u[i] == f[i - a.len()] && u[j] == f[j - a.len()]);
        }
    }
    assert forall|p: usize| u.to_set().contains(p) <==> a.to_set().union(b.to_set()).contains(p) by {
        if u.contains(p) {
            let i = choose|i: int| 0 <= i < u.len() && u[i] == p;
            if i >= a.len() {
                assert(f[i - a.len()] == p);
                assert(f.contains(p));
            } else {
                assert(a[i] == p);
            }
        }
        if a.contains(p) {
            let i = choose|i: int| 0 <= i < a.len() && a[i] == p;
            assert(u[i] == p);
        } else if b.contains(p) {
            assert(f.contains(p));
            let i = choose|i: int| 0 <= i < f.len() && f[i] == p;
            assert(u[i + a.len()] == p);
        }
    }
    assert(u.to_set() =~= a.to_set().union(b.to_set()));
}

} // verus!
