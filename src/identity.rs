use vstd::prelude::*;

verus! {

broadcast use vstd::seq_lib::group_to_multiset_ensures;

/// An identity that peers announce: totally ordered (so that reports are
/// deterministic), comparable for equality and cheap to duplicate.
pub trait PeerId: Sized {
    /// `self` orders before or at `other`.
    spec fn le(self, other: Self) -> bool;

    /// `le` is a total order.
    proof fn lemma_total_order(a: Self, b: Self, c: Self)
        ensures
            a.le(a),
            a.le(b) && b.le(c) ==> a.le(c),
            a.le(b) && b.le(a) ==> a == b,
            a.le(b) || b.le(a),
    ;

    fn le_exec(&self, other: &Self) -> (r: bool)
        ensures
            r == self.le(*other),
    ;

    fn eq_exec(&self, other: &Self) -> (r: bool)
        ensures
            r == (*self == *other),
    ;

    fn duplicate(&self) -> (r: Self)
        ensures
            r == *self,
    ;
}

impl PeerId for u64 {
    open spec fn le(self, other: Self) -> bool {
        self <= other
    }

    proof fn lemma_total_order(a: Self, b: Self, c: Self) {
    }

    fn le_exec(&self, other: &Self) -> (r: bool) {
        *self <= *other
    }

    fn eq_exec(&self, other: &Self) -> (r: bool) {
        *self == *other
    }

    fn duplicate(&self) -> (r: Self) {
        *self
    }
}

/// Every element orders at or before every later one.
pub open spec fn sorted<T: PeerId>(s: Seq<T>) -> bool {
    forall|i: int, j: int| 0 <= i < j < s.len() ==> #[trigger] s[i].le(#[trigger] s[j])
}

/// Strictly ascending: sorted and without repeats.
pub open spec fn sorted_strict<T: PeerId>(s: Seq<T>) -> bool {
    forall|i: int, j: int|
        0 <= i < j < s.len() ==> #[trigger] s[i].le(#[trigger] s[j]) && s[i] != s[j]
}

/// The order facts of `PeerId`, for every value.
pub proof fn lemma_order<T: PeerId>()
    ensures
        forall|a: T| #[trigger] a.le(a),
        forall|a: T, b: T, c: T| #[trigger] a.le(b) && #[trigger] b.le(c) ==> a.le(c),
        forall|a: T, b: T| #[trigger] a.le(b) && b.le(a) ==> a == b,
        forall|a: T, b: T| #[trigger] a.le(b) || #[trigger] b.le(a),
{
    assert forall|a: T| #[trigger] a.le(a) by {
        T::lemma_total_order(a, a, a);
    }
    assert forall|a: T, b: T, c: T| #[trigger] a.le(b) && #[trigger] b.le(c) implies a.le(c) by {
        T::lemma_total_order(a, b, c);
    }
    assert forall|a: T, b: T| #[trigger] a.le(b) && b.le(a) implies a == b by {
        T::lemma_total_order(a, b, b);
    }
    assert forall|a: T, b: T| #[trigger] a.le(b) || #[trigger] b.le(a) by {
        T::lemma_total_order(a, b, b);
    }
}

/// Sorts `v` ascending; the result holds the same elements, as many times.
pub fn sort_ids<T: PeerId>(v: Vec<T>) -> (r: Vec<T>)
    ensures
        sorted(r@),
        r@.to_multiset() == v@.to_multiset(),
{
    let mut rest = v;
    let mut out: Vec<T> = Vec::new();
    while rest.len() > 0
        invariant
            sorted(out@),
            out@.to_multiset().add(rest@.to_multiset()) == v@.to_multiset(),
        decreases rest.len(),
    {
        let ghost prev_rest = rest@;
        let ghost prev_out = out@;
        let x = rest.pop().unwrap();
        proof {
            lemma_order::<T>();
            assert(prev_rest == rest@.push(x));
        }
        let mut pos: usize = 0;
        while pos < out.len() && !x.le_exec(&out[pos])
            invariant
                pos <= out.len(),
                out@ == prev_out,
                forall|j: int| 0 <= j < pos ==> (#[trigger] out@[j]).le(x),
            decreases out.len() - pos,
        {
            proof {
                lemma_order::<T>();
            }
            pos = pos + 1;
        }
        out.insert(pos, x);
        proof {
            lemma_order::<T>();
            assert(out@ == prev_out.insert(pos as int, x));
            assert forall|i: int, j: int| 0 <= i < j < out@.len() implies #[trigger] out@[i].le(
                #[trigger] out@[j],
            ) by {
                if j < pos {
                } else if i < pos && j == pos {
                } else if i < pos {
                    assert(out@[i] == prev_out[i]);
                    assert(out@[j] == prev_out[j - 1]);
                } else if i == pos {
                    assert(x.le(prev_out[pos as int]));
                    if j - 1 > pos {
                        assert(prev_out[pos as int].le(prev_out[j - 1]));
                    }
                } else {
                    assert(out@[i] == prev_out[i - 1]);
                    assert(out@[j] == prev_out[j - 1]);
                }
            }
        }
    }
    proof {
        assert(rest@ =~= Seq::<T>::empty());
    }
    out
}

/// A sorted sequence with the same elements as a sequence without repeats
/// is strictly ascending and holds the same set.
pub proof fn lemma_sorted_distinct<T: PeerId>(s: Seq<T>, t: Seq<T>)
    requires
        sorted(s),
        s.to_multiset() == t.to_multiset(),
        t.no_duplicates(),
    ensures
        sorted_strict(s),
        s.to_set() == t.to_set(),
{
    broadcast use vstd::multiset::group_multiset_axioms;

    t.lemma_multiset_has_no_duplicates();
    s.lemma_multiset_has_no_duplicates_conv();
    assert forall|x: T| s.to_set().contains(x) <==> t.to_set().contains(x) by {
        vstd::seq_lib::to_multiset_contains(s, x);
        vstd::seq_lib::to_multiset_contains(t, x);
    }
    assert(s.to_set() =~= t.to_set());
}

/// Two strictly ascending sequences with the same elements are equal: a
/// sorted report depends on which peers it holds, not on the order in which
/// they arrived.
pub proof fn lemma_sorted_unique<T: PeerId>(s: Seq<T>, t: Seq<T>)
    requires
        sorted_strict(s),
        sorted_strict(t),
        s.to_set() == t.to_set(),
    ensures
        s == t,
    decreases s.len(),
{
    lemma_order::<T>();
    if s.len() == 0 {
        if t.len() > 0 {
            assert(t.to_set().contains(t[0]));
        }
        assert(t =~= s);
    } else if t.len() == 0 {
        assert(s.to_set().contains(s[0]));
    } else {
        assert(s.to_set().contains(s[0]));
        assert(t.to_set().contains(t[0]));
        let k = choose|k: int| 0 <= k < t.len() && t[k] == s[0];
        let k2 = choose|k: int| 0 <= k < s.len() && s[k] == t[0];
        if k2 > 0 {
            assert(s[0].le(s[k2]));
        }
        if k > 0 {
            assert(t[0].le(t[k]));
        }
        assert(s[0] == t[0]);
        let s1 = s.drop_first();
        let t1 = t.drop_first();
        assert forall|x: T| s1.to_set().contains(x) <==> t1.to_set().contains(x) by {
            if s1.to_set().contains(x) {
                assert(s1.contains(x));
                let i = choose|i: int| 0 <= i < s1.len() && s1[i] == x;
                assert(s1.len() == s.len() - 1);
                assert(0 <= i + 1 < s.len());
                assert(s1[i] == s[i + 1]);
                assert(s[i + 1] == x);
                assert(sorted_strict(s));
                assert(s[0].le(s[i + 1]));
                assert(s[0] != s[i + 1]);
                assert(s.to_set().contains(x));
                assert(t.contains(x));
                let j = choose|j: int| 0 <= j < t.len() && t[j] == x;
                assert(j != 0);
                assert(t1[j - 1] == x);
            }
            if t1.to_set().contains(x) {
                assert(t1.contains(x));
                let i = choose|i: int| 0 <= i < t1.len() && t1[i] == x;
                assert(t1.len() == t.len() - 1);
                assert(0 <= i + 1 < t.len());
                assert(t1[i] == t[i + 1]);
                assert(t[i + 1] == x);
                assert(sorted_strict(t));
                assert(t[0].le(t[i + 1]));
                assert(t[0] != t[i + 1]);
                assert(t.to_set().contains(x));
                assert(s.contains(x));
                let j = choose|j: int| 0 <= j < s.len() && s[j] == x;
                assert(j != 0);
                assert(s1[j - 1] == x);
            }
        }
        assert(s1.to_set() =~= t1.to_set());
        assert(sorted_strict(s1)) by {
            assert forall|i: int, j: int| 0 <= i < j < s1.len() implies #[trigger] s1[i].le(
                #[trigger] s1[j],
            ) && s1[i] != s1[j] by {
                assert(s1[i] == s[i + 1] && s1[j] == s[j + 1]);
            }
        }
        assert(sorted_strict(t1)) by {
            assert forall|i: int, j: int| 0 <= i < j < t1.len() implies #[trigger] t1[i].le(
                #[trigger] t1[j],
            ) && t1[i] != t1[j] by {
                assert(t1[i] == t[i + 1] && t1[j] == t[j + 1]);
            }
        }
        lemma_sorted_unique(s1, t1);
        assert forall|i: int| 0 <= i < s.len() implies s[i] == t[i] by {
            if i > 0 {
                assert(s[i] == s1[i - 1]);
                assert(t[i] == t1[i - 1]);
            }
        }
        assert(s =~= t);
    }
}

} // verus!
