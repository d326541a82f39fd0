//! The order of names: lexicographic by character code, which is the order
//! of strings by their UTF-8 bytes.  Positions of distinct names can be put
//! in this order, as a map keyed by name would hold them.

use vstd::prelude::*;

verus! {

/// Whether name `a` comes strictly before name `b`: at the first character
/// where they differ `a`'s is smaller, or `a` is a proper prefix of `b`.
pub open spec fn name_less(a: Seq<char>, b: Seq<char>) -> bool
    decreases a.len(),
{
    if a.len() == 0 {
        b.len() > 0
    } else if b.len() == 0 {
        false
    } else if a[0] != b[0] {
        (a[0] as int) < (b[0] as int)
    } else {
        name_less(a.drop_first(), b.drop_first())
    }
}

/// No name comes before itself, and of two names at most one comes first.
pub proof fn lemma_name_less_asymmetric(a: Seq<char>, b: Seq<char>)
    ensures
        !(name_less(a, b) && name_less(b, a)),
        !name_less(a, a),
    decreases a.len(),
{
    if a.len() > 0 && b.len() > 0 && a[0] == b[0] {
        lemma_name_less_asymmetric(a.drop_first(), b.drop_first());
    }
    if a.len() > 0 {
        lemma_name_less_asymmetric(a.drop_first(), a.drop_first());
    }
}

/// Of two different names one comes first.
pub proof fn lemma_name_less_total(a: Seq<char>, b: Seq<char>)
    requires
        a != b,
    ensures
        name_less(a, b) || name_less(b, a),
    decreases a.len(),
{
    if a.len() > 0 && b.len() > 0 {
        if a[0] == b[0] {
            if a.drop_first() == b.drop_first() {
                assert(a =~= seq![a[0]] + a.drop_first());
                assert(b =~= seq![b[0]] + b.drop_first());
            }
            lemma_name_less_total(a.drop_first(), b.drop_first());
        } else {
            assert((a[0] as int) != (b[0] as int));
        }
    } else if a.len() == 0 && b.len() == 0 {
        assert(a =~= b);
    }
}

/// The order of names is transitive.
pub proof fn lemma_name_less_transitive(a: Seq<char>, b: Seq<char>, c: Seq<char>)
    requires
        name_less(a, b),
        name_less(b, c),
    ensures
        name_less(a, c),
    decreases a.len(),
{
    if a.len() > 0 && b.len() > 0 && c.len() > 0 && a[0] == b[0] && b[0] == c[0] {
        lemma_name_less_transitive(a.drop_first(), b.drop_first(), c.drop_first());
    }
}

proof fn lemma_name_less_skip(a: Seq<char>, b: Seq<char>, i: int)
    requires
        0 <= i < a.len(),
        i < b.len(),
        a[i] == b[i],
    ensures
        name_less(a.skip(i), b.skip(i)) == name_less(a.skip(i + 1), b.skip(i + 1)),
{
    assert(a.skip(i).drop_first() =~= a.skip(i + 1));
    assert(b.skip(i).drop_first() =~= b.skip(i + 1));
}

/// `a` and `b` agree on their first `k` characters, and there `a` either
/// ends while `b` goes on, or has a character with a smaller code than `b`'s.
pub open spec fn below_at(a: Seq<char>, b: Seq<char>, k: int) -> bool {
    &&& 0 <= k <= a.len()
    &&& k <= b.len()
    &&& a.subrange(0, k) == b.subrange(0, k)
    &&& ((k == a.len() && k < b.len())
        || (k < a.len() && k < b.len() && (a[k] as int) < (b[k] as int)))
}

/// `a` comes before `b` by character code, at some position.
pub open spec fn below_by_code(a: Seq<char>, b: Seq<char>) -> bool {
    exists|k: int| #[trigger] below_at(a, b, k)
}

proof fn lemma_below_at_less(a: Seq<char>, b: Seq<char>, k: int)
    requires
        below_at(a, b, k),
    ensures
        name_less(a, b),
    decreases k,
{
    if k > 0 {
        assert(a[0] == a.subrange(0, k)[0]);
        assert(b[0] == b.subrange(0, k)[0]);
        let a1 = a.drop_first();
        let b1 = b.drop_first();
        assert(a1.subrange(0, k - 1) =~= a.subrange(0, k).subrange(1, k));
        assert(b1.subrange(0, k - 1) =~= b.subrange(0, k).subrange(1, k));
        lemma_below_at_less(a1, b1, k - 1);
    }
}

proof fn lemma_less_below_at(a: Seq<char>, b: Seq<char>) -> (k: int)
    requires
        name_less(a, b),
    ensures
        below_at(a, b, k),
    decreases a.len(),
{
    if a.len() == 0 {
        assert(a.subrange(0, 0) =~= b.subrange(0, 0));
        0
    } else if a[0] != b[0] {
        assert(a.subrange(0, 0) =~= b.subrange(0, 0));
        assert((a[0] as int) < (b[0] as int));
        0
    } else {
        let a1 = a.drop_first();
        let b1 = b.drop_first();
        let k1 = lemma_less_below_at(a1, b1);
        assert(a.subrange(0, k1 + 1) =~= seq![a[0]] + a1.subrange(0, k1));
        assert(b.subrange(0, k1 + 1) =~= seq![b[0]] + b1.subrange(0, k1));
        k1 + 1
    }
}

/// The order of names is the order by character code: `a` comes before `b`
/// exactly when, after a common beginning, `a` ends while `b` goes on, or
/// `a`'s next character has the smaller code.  In particular two names whose
/// first characters differ are ordered by the codes of those characters
/// (so `"Zeta"` comes before `"alpha"`).
pub proof fn law_name_order_by_code(a: Seq<char>, b: Seq<char>)
    ensures
        name_less(a, b) <==> below_by_code(a, b),
        a.len() > 0 && b.len() > 0 && a[0] != b[0] ==> (name_less(a, b) <==> (a[0] as int) < (b[0] as int)),
        a.len() < b.len() && a == b.subrange(0, a.len() as int) ==> name_less(a, b),
{
    if name_less(a, b) {
        let k = lemma_less_below_at(a, b);
    }
    if exists|k: int| #[trigger] below_at(a, b, k) {
        let k = choose|k: int| #[trigger] below_at(a, b, k);
        lemma_below_at_less(a, b, k);
    }
    if a.len() > 0 && b.len() > 0 && a[0] != b[0] && (a[0] as int) < (b[0] as int) {
        assert(a.subrange(0, 0) =~= b.subrange(0, 0));
        lemma_below_at_less(a, b, 0);
    }
    if a.len() > 0 && b.len() > 0 && a[0] != b[0] && name_less(a, b) {
        let k = lemma_less_below_at(a, b);
        if k > 0 {
            assert(a[0] == a.subrange(0, k)[0]);
            assert(b[0] == b.subrange(0, k)[0]);
        }
    }
    if a.len() < b.len() && a == b.subrange(0, a.len() as int) {
        assert(a.subrange(0, a.len() as int) =~= a);
        lemma_below_at_less(a, b, a.len() as int);
    }
}

/// Whether name `a` comes strictly before name `b`.
pub fn precedes(a: &str, b: &str) -> (r: bool)
    ensures
        r == name_less(a@, b@),
{
    let la = a.unicode_len();
    let lb = b.unicode_len();
    let mut i: usize = 0;
    assert(a@.skip(0) =~= a@);
    assert(b@.skip(0) =~= b@);
    while i < la && i < lb
        invariant
            la == a@.len(),
            lb == b@.len(),
            i <= la,
            i <= lb,
            name_less(a@, b@) == name_less(a@.skip(i as int), b@.skip(i as int)),
        decreases la - i,
    {
        let ca = a.get_char(i);
        let cb = b.get_char(i);
        if ca != cb {
            assert(a@.skip(i as int)[0] == ca && b@.skip(i as int)[0] == cb);
            return (ca as u32) < (cb as u32);
        }
        proof {
            lemma_name_less_skip(a@, b@, i as int);
        }
        i += 1;
    }
    i == la && i < lb
}

/// `order` lists every position of `names` once, in the order of the names.
pub open spec fn sorted_by_name(names: Seq<Seq<char>>, order: Seq<usize>) -> bool {
    &&& order.len() == names.len()
    &&& forall|k: int| 0 <= k < order.len() ==> order[k] < names.len()
    &&& forall|p: usize| p < names.len() ==> #[trigger] order.contains(p)
    &&& forall|k1: int, k2: int| 0 <= k1 < k2 < order.len()
        ==> name_less(names[order[k1] as int], names[order[k2] as int])
}

proof fn lemma_sorted_prefix(names: Seq<Seq<char>>, o1: Seq<usize>, o2: Seq<usize>, k: int)
    requires
        sorted_by_name(names, o1),
        sorted_by_name(names, o2),
        0 <= k < o1.len(),
    ensures
        forall|j: int| 0 <= j <= k ==> o1[j] == o2[j],
    decreases k,
{
    if k > 0 {
        lemma_sorted_prefix(names, o1, o2, k - 1);
    }
    let a = o1[k];
    let b = o2[k];
    if a != b {
        assert(o1.contains(b));
        assert(o2.contains(a));
        let t1 = choose|t: int| 0 <= t < o1.len() && o1[t] == b;
        let t2 = choose|t: int| 0 <= t < o2.len() && o2[t] == a;
        lemma_name_less_asymmetric(names[a as int], names[b as int]);
        lemma_name_less_asymmetric(names[b as int], names[a as int]);
        if t1 < k {
            assert(o2[t1] == b);
        }
        if t2 < k {
            assert(o1[t2] == a);
        }
        assert(t1 != k && t2 != k);
    }
}

/// Distinct names have only one such order.
pub proof fn lemma_sorted_by_name_unique(names: Seq<Seq<char>>, o1: Seq<usize>, o2: Seq<usize>)
    requires
        sorted_by_name(names, o1),
        sorted_by_name(names, o2),
    ensures
        o1 == o2,
{
    if o1.len() > 0 {
        lemma_sorted_prefix(names, o1, o2, o1.len() - 1);
    }
    assert(o1 =~= o2);
}

} // verus!
