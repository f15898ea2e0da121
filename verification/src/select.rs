//! Picking items out of a sequence.

use vstd::prelude::*;

verus! {

/// Whether `ks` are, in order, exactly those of the places below `n` that `keep`
/// keeps.
pub open spec fn places(ks: Seq<int>, n: int, keep: spec_fn(int) -> bool) -> bool {
    &&& forall|i: int, j: int| 0 <= i < j < ks.len() ==> #[trigger] ks[i] < #[trigger] ks[j]
    &&& forall|j: int| 0 <= j < ks.len() ==> 0 <= #[trigger] ks[j] < n && keep(ks[j])
    &&& forall|k: int| 0 <= k < n && #[trigger] keep(k) ==> ks.contains(k)
}

/// The places below `n + 1` are those below `n` and, if it is kept, `n`.
pub proof fn lemma_places_grow(ks: Seq<int>, n: int, keep: spec_fn(int) -> bool) -> (r: Seq<int>)
    requires
        0 <= n,
        places(ks, n, keep),
    ensures
        places(r, n + 1, keep),
        r == if keep(n) {
            ks.push(n)
        } else {
            ks
        },
{
    let r = if keep(n) {
        ks.push(n)
    } else {
        ks
    };
    assert forall|k: int| 0 <= k < n + 1 && #[trigger] keep(k) implies r.contains(k) by {
        if k < n {
            assert(ks.contains(k));
            let j = choose|j: int| 0 <= j < ks.len() && ks[j] == k;
            assert(r[j] == k);
        } else {
            assert(r[r.len() - 1] == n);
        }
    }
    r
}

/// Two conditions that keep the same places below `n` keep the same places.
pub proof fn lemma_places_agree(
    ks: Seq<int>,
    n: int,
    a: spec_fn(int) -> bool,
    b: spec_fn(int) -> bool,
)
    requires
        places(ks, n, a),
        forall|k: int| 0 <= k < n ==> (#[trigger] a(k) <==> b(k)),
    ensures
        places(ks, n, b),
{
    assert forall|k: int| 0 <= k < n && #[trigger] b(k) implies ks.contains(k) by {
        assert(a(k));
    }
    assert forall|j: int| 0 <= j < ks.len() implies 0 <= #[trigger] ks[j] < n && b(ks[j]) by {
        assert(a(ks[j]));
    }
}

/// The places that are kept are determined.
pub proof fn lemma_places_unique(
    a: Seq<int>,
    b: Seq<int>,
    n: int,
    keep: spec_fn(int) -> bool,
)
    requires
        places(a, n, keep),
        places(b, n, keep),
    ensures
        a == b,
    decreases a.len(),
{
    if a.len() == 0 {
        if b.len() > 0 {
            assert(keep(b[0]));
            assert(a.contains(b[0]));
        }
        assert(a =~= b);
    } else {
        let last = a.last();
        assert(keep(a[a.len() - 1]));
        assert(b.contains(last));
        assert(b.len() > 0);
        assert(keep(b[b.len() - 1]));
        assert(a.contains(b.last()));
        let i = choose|i: int| 0 <= i < a.len() && a[i] == b.last();
        let j = choose|j: int| 0 <= j < b.len() && b[j] == last;
        assert(a[i] <= a[a.len() - 1]);
        assert(b[j] <= b[b.len() - 1]);
        let fa = a.drop_last();
        let fb = b.drop_last();
        assert forall|k: int| 0 <= k < last && #[trigger] keep(k) implies fa.contains(k) by {
            assert(a.contains(k));
            let x = choose|x: int| 0 <= x < a.len() && a[x] == k;
            assert(fa[x] == k);
        }
        assert forall|k: int| 0 <= k < last && #[trigger] keep(k) implies fb.contains(k) by {
            assert(b.contains(k));
            let x = choose|x: int| 0 <= x < b.len() && b[x] == k;
            assert(fb[x] == k);
        }
        assert forall|x: int| 0 <= x < fa.len() implies 0 <= #[trigger] fa[x] < last && keep(
            fa[x],
        ) by {
            assert(a[x] < a[a.len() - 1]);
        }
        assert forall|x: int| 0 <= x < fb.len() implies 0 <= #[trigger] fb[x] < last && keep(
            fb[x],
        ) by {
            assert(b[x] < b[b.len() - 1]);
        }
        lemma_places_unique(fa, fb, last, keep);
        assert(a =~= fa.push(last));
        assert(b =~= fb.push(last));
    }
}

} // verus!
