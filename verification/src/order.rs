//! Byte-lexicographic ordering of names and the canonical ordering of
//! (name, fingerprint) pairs that the directory digest hashes.

use vstd::prelude::*;
use vstd::relations::{sorted_by, total_ordering};
use vstd::seq_lib::lemma_multiset_commutative;
use vstd::seq_lib::lemma_sorted_unique;

verus! {

/// A (name, fingerprint) pair at the specification level.
pub type PairS = (Seq<u8>, Seq<u8>);

/// A (name, fingerprint) pair as executable values.
pub type PairV = (Vec<u8>, Vec<u8>);

pub open spec fn pair_view(p: PairV) -> PairS {
    (p.0@, p.1@)
}

pub open spec fn pairs_view(s: Seq<PairV>) -> Seq<PairS> {
    s.map_values(|p: PairV| pair_view(p))
}

/// Byte-lexicographic "less than or equal" on byte sequences: a strict prefix
/// comes first, otherwise the first differing byte decides.
pub open spec fn lex_le(a: Seq<u8>, b: Seq<u8>) -> bool
    decreases a.len(),
{
    if a.len() == 0 {
        true
    } else if b.len() == 0 {
        false
    } else if a[0] < b[0] {
        true
    } else if a[0] > b[0] {
        false
    } else {
        lex_le(a.drop_first(), b.drop_first())
    }
}

/// The canonical order on pairs: by name, with the fingerprint breaking ties.
/// Ties can arise only from duplicate names, which the directory digest
/// rejects before hashing.
pub open spec fn pair_le(p: PairS, q: PairS) -> bool {
    if p.0 == q.0 {
        lex_le(p.1, q.1)
    } else {
        lex_le(p.0, q.0)
    }
}

pub open spec fn pair_leq() -> spec_fn(PairS, PairS) -> bool {
    |p: PairS, q: PairS| pair_le(p, q)
}

pub proof fn lemma_lex_le_refl(a: Seq<u8>)
    ensures
        lex_le(a, a),
    decreases a.len(),
{
    if a.len() > 0 {
        lemma_lex_le_refl(a.drop_first());
    }
}

pub proof fn lemma_lex_le_antisym(a: Seq<u8>, b: Seq<u8>)
    requires
        lex_le(a, b),
        lex_le(b, a),
    ensures
        a == b,
    decreases a.len(),
{
    if a.len() == 0 {
        assert(b.len() == 0);
        assert(a =~= b);
    } else {
        assert(b.len() > 0);
        assert(a[0] == b[0]);
        assert(lex_le(a.drop_first(), b.drop_first()));
        assert(lex_le(b.drop_first(), a.drop_first()));
        lemma_lex_le_antisym(a.drop_first(), b.drop_first());
        assert(a.len() == b.len());
        assert forall|i: int| 0 <= i < a.len() implies a[i] == b[i] by {
            if i > 0 {
                assert(a[i] == a.drop_first()[i - 1]);
                assert(b[i] == b.drop_first()[i - 1]);
            }
        }
        assert(a =~= b);
    }
}

pub proof fn lemma_lex_le_trans(a: Seq<u8>, b: Seq<u8>, c: Seq<u8>)
    requires
        lex_le(a, b),
        lex_le(b, c),
    ensures
        lex_le(a, c),
    decreases a.len(),
{
    if a.len() == 0 {
    } else {
        assert(b.len() > 0);
        assert(c.len() > 0);
        if a[0] == b[0] && b[0] == c[0] {
            lemma_lex_le_trans(a.drop_first(), b.drop_first(), c.drop_first());
        }
    }
}

pub proof fn lemma_lex_le_total(a: Seq<u8>, b: Seq<u8>)
    ensures
        lex_le(a, b) || lex_le(b, a),
    decreases a.len(),
{
    if a.len() > 0 && b.len() > 0 && a[0] == b[0] {
        lemma_lex_le_total(a.drop_first(), b.drop_first());
    }
}

pub proof fn lemma_pair_le_refl(x: PairS)
    ensures
        pair_le(x, x),
{
    lemma_lex_le_refl(x.1);
}

pub proof fn lemma_pair_le_antisym(x: PairS, y: PairS)
    requires
        pair_le(x, y),
        pair_le(y, x),
    ensures
        x == y,
{
    if x.0 == y.0 {
        lemma_lex_le_antisym(x.1, y.1);
    } else {
        lemma_lex_le_antisym(x.0, y.0);
    }
}

pub proof fn lemma_pair_le_trans(x: PairS, y: PairS, z: PairS)
    requires
        pair_le(x, y),
        pair_le(y, z),
    ensures
        pair_le(x, z),
{
    if x.0 == y.0 && y.0 == z.0 {
        lemma_lex_le_trans(x.1, y.1, z.1);
    } else if x.0 == y.0 {
        // the name comparison of x against z is that of y against z
    } else if y.0 == z.0 {
        // the name comparison of x against z is that of x against y
    } else {
        lemma_lex_le_trans(x.0, y.0, z.0);
        if x.0 == z.0 {
            lemma_lex_le_antisym(x.0, y.0);
        }
    }
}

pub proof fn lemma_pair_le_total(x: PairS, y: PairS)
    ensures
        pair_le(x, y) || pair_le(y, x),
{
    if x.0 == y.0 {
        lemma_lex_le_total(x.1, y.1);
    } else {
        lemma_lex_le_total(x.0, y.0);
    }
}

/// The canonical pair order is a total order.
pub proof fn lemma_pair_total_ordering()
    ensures
        total_ordering(pair_leq()),
{
    let r = pair_leq();
    assert forall|x: PairS| #[trigger] r(x, x) by {
        lemma_pair_le_refl(x);
    }
    assert forall|x: PairS, y: PairS| #[trigger] r(x, y) && #[trigger] r(y, x) implies x == y by {
        lemma_pair_le_antisym(x, y);
    }
    assert forall|x: PairS, y: PairS, z: PairS|
        #[trigger] r(x, y) && #[trigger] r(y, z) implies r(x, z) by {
        lemma_pair_le_trans(x, y, z);
    }
    assert forall|x: PairS, y: PairS| #[trigger] r(x, y) || #[trigger] r(y, x) by {
        lemma_pair_le_total(x, y);
    }
}

/// Inserts a pair into a sequence just before the first element it precedes.
pub open spec fn insert_pair(p: PairS, s: Seq<PairS>) -> Seq<PairS>
    decreases s.len(),
{
    if s.len() == 0 {
        seq![p]
    } else if pair_le(p, s[0]) {
        seq![p] + s
    } else {
        seq![s[0]] + insert_pair(p, s.drop_first())
    }
}

/// Insertion sort of (name, fingerprint) pairs under the canonical order.
pub open spec fn sort_pairs(s: Seq<PairS>) -> Seq<PairS>
    decreases s.len(),
{
    if s.len() == 0 {
        s
    } else {
        insert_pair(s[0], sort_pairs(s.drop_first()))
    }
}

pub proof fn lemma_insert_pair_ensures(p: PairS, s: Seq<PairS>)
    requires
        sorted_by(s, pair_leq()),
    ensures
        sorted_by(insert_pair(p, s), pair_leq()),
        insert_pair(p, s).to_multiset() == s.to_multiset().insert(p),
        insert_pair(p, s).len() == s.len() + 1,
    decreases s.len(),
{
    broadcast use vstd::seq_lib::group_to_multiset_ensures;

    let r = pair_leq();
    let out = insert_pair(p, s);
    if s.len() == 0 {
        assert(seq![p] =~= Seq::<PairS>::empty().push(p));
        assert(out.to_multiset() =~= s.to_multiset().insert(p));
    } else if pair_le(p, s[0]) {
        assert(out =~= seq![p] + s);
        lemma_multiset_commutative(seq![p], s);
        assert(seq![p] =~= Seq::<PairS>::empty().push(p));
        assert(out.to_multiset() =~= s.to_multiset().insert(p));
        assert forall|i: int, j: int| 0 <= i < j < out.len() implies #[trigger] r(
            out[i],
            out[j],
        ) by {
            if i == 0 {
                if j == 1 {
                } else {
                    assert(r(s[0], s[j - 1]));
                    lemma_pair_le_trans(p, s[0], s[j - 1]);
                }
            } else {
                assert(r(s[i - 1], s[j - 1]));
            }
        }
    } else {
        lemma_pair_le_total(p, s[0]);
        assert(pair_le(s[0], p));
        let d = s.drop_first();
        assert(sorted_by(d, r)) by {
            assert(forall|i: int, j: int|
                0 <= i < j < d.len() ==> d[i] == s[i + 1] && d[j] == s[j + 1]);
        }
        lemma_insert_pair_ensures(p, d);
        let ins = insert_pair(p, d);
        assert(out =~= seq![s[0]] + ins);
        // multiset bookkeeping
        lemma_multiset_commutative(seq![s[0]], ins);
        assert(seq![s[0]] =~= Seq::<PairS>::empty().push(s[0]));
        assert(s.remove(0) =~= d);
        assert(d.to_multiset() == s.to_multiset().remove(s[0]));
        assert(out.to_multiset() =~= s.to_multiset().insert(p)) by {
            assert(out.to_multiset() =~= ins.to_multiset().insert(s[0]));
            assert(ins.to_multiset() =~= d.to_multiset().insert(p));
            assert(s.to_multiset().contains(s[0]));
            assert(s.to_multiset().remove(s[0]).insert(p).insert(s[0]) =~= s.to_multiset().insert(
                p,
            ));
        }
        // sortedness: s[0] precedes every element of ins
        assert forall|k: int| 0 <= k < ins.len() implies r(s[0], ins[k]) by {
            assert(ins.contains(ins[k]));
            assert(ins.to_multiset().count(ins[k]) > 0);
            if ins[k] == p {
            } else {
                assert(d.to_multiset().count(ins[k]) > 0);
                assert(d.contains(ins[k]));
                let m = choose|m: int| 0 <= m < d.len() && d[m] == ins[k];
                assert(d[m] == s[m + 1]);
                assert(r(s[0], s[m + 1]));
            }
        }
        assert forall|i: int, j: int| 0 <= i < j < out.len() implies #[trigger] r(
            out[i],
            out[j],
        ) by {
            if i == 0 {
                assert(out[j] == ins[j - 1]);
            } else {
                assert(out[i] == ins[i - 1] && out[j] == ins[j - 1]);
                assert(r(ins[i - 1], ins[j - 1]));
            }
        }
    }
}

pub proof fn lemma_sort_pairs_ensures(s: Seq<PairS>)
    ensures
        sorted_by(sort_pairs(s), pair_leq()),
        sort_pairs(s).to_multiset() == s.to_multiset(),
        sort_pairs(s).len() == s.len(),
    decreases s.len(),
{
    broadcast use vstd::seq_lib::group_to_multiset_ensures;

    if s.len() == 0 {
    } else {
        let d = s.drop_first();
        lemma_sort_pairs_ensures(d);
        lemma_insert_pair_ensures(s[0], sort_pairs(d));
        assert(s.remove(0) =~= d);
        assert(d.to_multiset() == s.to_multiset().remove(s[0]));
        assert(s.to_multiset().contains(s[0]));
        assert(sort_pairs(s).to_multiset() =~= s.to_multiset()) by {
            assert(sort_pairs(s).to_multiset() =~= d.to_multiset().insert(s[0]));
            assert(s.to_multiset().remove(s[0]).insert(s[0]) =~= s.to_multiset());
        }
    }
}

/// Comparing two sequences that agree on their first `i` elements comes down
/// to comparing what follows.
pub proof fn lemma_lex_le_common_prefix(a: Seq<u8>, b: Seq<u8>, i: int)
    requires
        0 <= i <= a.len(),
        i <= b.len(),
        forall|j: int| 0 <= j < i ==> a[j] == b[j],
    ensures
        lex_le(a, b) == lex_le(a.skip(i), b.skip(i)),
    decreases i,
{
    if i == 0 {
        assert(a.skip(0) =~= a);
        assert(b.skip(0) =~= b);
    } else {
        let a1 = a.drop_first();
        let b1 = b.drop_first();
        assert(a[0] == b[0]);
        assert forall|j: int| 0 <= j < i - 1 implies a1[j] == b1[j] by {
            assert(a1[j] == a[j + 1]);
            assert(b1[j] == b[j + 1]);
        }
        lemma_lex_le_common_prefix(a1, b1, i - 1);
        assert(a1.skip(i - 1) =~= a.skip(i));
        assert(b1.skip(i - 1) =~= b.skip(i));
    }
}

/// Byte-for-byte equality of two vectors.
pub fn bytes_eq(a: &Vec<u8>, b: &Vec<u8>) -> (r: bool)
    ensures
        r == (a@ == b@),
{
    if a.len() != b.len() {
        return false;
    }
    let mut i: usize = 0;
    while i < a.len()
        invariant
            a@.len() == b@.len(),
            i <= a.len(),
            forall|j: int| 0 <= j < i ==> a@[j] == b@[j],
        decreases a.len() - i,
    {
        if a[i] != b[i] {
            return false;
        }
        i = i + 1;
    }
    proof {
        assert(a@ =~= b@);
    }
    true
}

/// Byte-lexicographic comparison, the executable form of `lex_le`.
pub fn le_bytes(a: &Vec<u8>, b: &Vec<u8>) -> (r: bool)
    ensures
        r == lex_le(a@, b@),
{
    let mut i: usize = 0;
    while i < a.len() && i < b.len()
        invariant
            i <= a.len(),
            i <= b.len(),
            forall|j: int| 0 <= j < i ==> a@[j] == b@[j],
        decreases a.len() - i,
    {
        if a[i] < b[i] {
            proof {
                lemma_lex_le_common_prefix(a@, b@, i as int);
                assert(a@.skip(i as int)[0] == a@[i as int]);
                assert(b@.skip(i as int)[0] == b@[i as int]);
            }
            return true;
        }
        if a[i] > b[i] {
            proof {
                lemma_lex_le_common_prefix(a@, b@, i as int);
                assert(a@.skip(i as int)[0] == a@[i as int]);
                assert(b@.skip(i as int)[0] == b@[i as int]);
            }
            return false;
        }
        i = i + 1;
    }
    proof {
        lemma_lex_le_common_prefix(a@, b@, i as int);
        assert(a@.skip(i as int).len() == a@.len() - i);
        assert(b@.skip(i as int).len() == b@.len() - i);
    }
    i == a.len()
}

/// The canonical pair comparison, the executable form of `pair_le`.
pub fn pair_le_exec(p: &PairV, q: &PairV) -> (r: bool)
    ensures
        r == pair_le(pair_view(*p), pair_view(*q)),
{
    if bytes_eq(&p.0, &q.0) {
        le_bytes(&p.1, &q.1)
    } else {
        le_bytes(&p.0, &q.0)
    }
}

/// Where `insert_pair` puts the new pair: just before the first element that
/// it precedes.
pub proof fn lemma_insert_pair_at(p: PairS, s: Seq<PairS>, i: int)
    requires
        0 <= i <= s.len(),
        forall|j: int| 0 <= j < i ==> !pair_le(p, s[j]),
        i < s.len() ==> pair_le(p, s[i]),
    ensures
        insert_pair(p, s) == s.take(i) + seq![p] + s.skip(i),
    decreases i,
{
    if i == 0 {
        if s.len() == 0 {
            assert(insert_pair(p, s) =~= s.take(0) + seq![p] + s.skip(0));
        } else {
            assert(insert_pair(p, s) == seq![p] + s);
            assert(seq![p] + s =~= s.take(0) + seq![p] + s.skip(0));
        }
    } else {
        let d = s.drop_first();
        assert(!pair_le(p, s[0]));
        assert forall|j: int| 0 <= j < i - 1 implies !pair_le(p, d[j]) by {
            assert(d[j] == s[j + 1]);
        }
        assert(i - 1 < d.len() ==> pair_le(p, d[i - 1]));
        lemma_insert_pair_at(p, d, i - 1);
        assert(insert_pair(p, s) == seq![s[0]] + insert_pair(p, d));
        assert(seq![s[0]] + (d.take(i - 1) + seq![p] + d.skip(i - 1)) =~= s.take(i) + seq![p]
            + s.skip(i));
    }
}

/// Inserts a pair into a canonically ordered vector, the executable form of
/// `insert_pair`.
pub fn insert_pair_exec(v: &mut Vec<PairV>, p: PairV)
    ensures
        pairs_view(final(v)@) == insert_pair(pair_view(p), pairs_view(old(v)@)),
{
    let ghost sp = pairs_view(v@);
    let mut i: usize = 0;
    loop
        invariant_except_break
            i <= v.len(),
            v@ == old(v)@,
            sp == pairs_view(v@),
            forall|j: int| 0 <= j < i ==> !pair_le(pair_view(p), sp[j]),
        ensures
            i <= v.len(),
            v@ == old(v)@,
            sp == pairs_view(v@),
            forall|j: int| 0 <= j < i ==> !pair_le(pair_view(p), sp[j]),
            i < v.len() ==> pair_le(pair_view(p), sp[i as int]),
        decreases v.len() - i,
    {
        if i == v.len() {
            break;
        }
        let le = pair_le_exec(&p, &v[i]);
        proof {
            assert(pair_view(v@[i as int]) == sp[i as int]);
        }
        if le {
            break;
        }
        i = i + 1;
    }
    proof {
        lemma_insert_pair_at(pair_view(p), sp, i as int);
    }
    v.insert(i, p);
    proof {
        assert(pairs_view(v@) =~= sp.take(i as int) + seq![pair_view(p)] + sp.skip(i as int));
    }
}

/// Sorts (name, fingerprint) pairs into the canonical order, the executable
/// form of `sort_pairs`.
pub fn sort_pairs_exec(v: Vec<PairV>) -> (r: Vec<PairV>)
    ensures
        pairs_view(r@) == sort_pairs(pairs_view(v@)),
    decreases v@.len(),
{
    let mut v = v;
    if v.len() == 0 {
        return v;
    }
    let ghost orig = v@;
    let first = v.remove(0);
    let mut out = sort_pairs_exec(v);
    proof {
        assert(pairs_view(orig.remove(0)) =~= pairs_view(orig).drop_first());
    }
    insert_pair_exec(&mut out, first);
    proof {
        assert(pair_view(orig[0]) == pairs_view(orig)[0]);
    }
    out
}

/// Two pair sequences with the same elements sort to the same sequence: the
/// canonical order of a directory's children depends only on what the pairs
/// are, never on the order they were listed in.
pub proof fn lemma_sort_pairs_permutation(s1: Seq<PairS>, s2: Seq<PairS>)
    requires
        s1.to_multiset() == s2.to_multiset(),
    ensures
        sort_pairs(s1) == sort_pairs(s2),
{
    lemma_sort_pairs_ensures(s1);
    lemma_sort_pairs_ensures(s2);
    lemma_pair_total_ordering();
    lemma_sorted_unique(sort_pairs(s1), sort_pairs(s2), pair_leq());
}

} // verus!
