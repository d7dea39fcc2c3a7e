//! Ordered, duplicate-free identity lists.
//!
//! The category sets are represented as strictly sorted vectors of
//! identities.  A strictly sorted vector is uniquely determined by its
//! members, which makes every derived set reproducible.

use vstd::prelude::*;

use crate::identity::{id_cmp, id_lt, lemma_id_lt_irrefl, lemma_id_lt_trans, CrateId, IdView};
use crate::text::CharsOrd;

verus! {

/// The identity values of a vector of identities.
pub open spec fn views_of(s: Seq<CrateId>) -> Seq<IdView> {
    s.map_values(|c: CrateId| c@)
}

/// `x` is among the identities of `s`.
pub open spec fn id_mem(s: Seq<IdView>, x: IdView) -> bool {
    exists|i: int| 0 <= i < s.len() && s[i] == x
}

/// Strictly sorted: ordered and free of duplicates.
pub open spec fn strictly_sorted_ids(s: Seq<IdView>) -> bool {
    forall|i: int, j: int| 0 <= i < j < s.len() ==> id_lt(s[i], s[j])
}

/// A strictly sorted identity sequence is determined by its members alone.
pub proof fn lemma_strictly_sorted_unique(a: Seq<IdView>, b: Seq<IdView>)
    requires
        strictly_sorted_ids(a),
        strictly_sorted_ids(b),
        forall|x: IdView| id_mem(a, x) <==> id_mem(b, x),
    ensures
        a == b,
    decreases a.len(),
{
    if a.len() == 0 {
        if b.len() > 0 {
            assert(id_mem(b, b[0]));
            assert(false);
        }
        assert(a =~= b);
    } else {
        assert(id_mem(a, a[0]));
        if b.len() == 0 {
            assert(false);
        }
        // The heads are each other's minimum, hence equal.
        assert(id_mem(b, a[0]));
        assert(id_mem(b, b[0]));
        assert(id_mem(a, b[0]));
        let i = choose|i: int| 0 <= i < b.len() && b[i] == a[0];
        let j = choose|j: int| 0 <= j < a.len() && a[j] == b[0];
        if i > 0 {
            assert(id_lt(b[0], b[i]));
            if j > 0 {
                assert(id_lt(a[0], a[j]));
                lemma_id_lt_trans(a[0], a[j], b[i]);
                lemma_id_lt_irrefl(a[0]);
                assert(false);
            }
        }
        assert(a[0] == b[0]);
        let at = a.drop_first();
        let bt = b.drop_first();
        assert forall|x: IdView| id_mem(at, x) <==> id_mem(bt, x) by {
            if id_mem(at, x) {
                let k = choose|k: int| 0 <= k < at.len() && at[k] == x;
                assert(a[k + 1] == x);
                assert(id_lt(a[0], x));
                assert(id_mem(a, x));
                let m = choose|m: int| 0 <= m < b.len() && b[m] == x;
                lemma_id_lt_irrefl(x);
                assert(m > 0);
                assert(bt[m - 1] == x);
            }
            if id_mem(bt, x) {
                let k = choose|k: int| 0 <= k < bt.len() && bt[k] == x;
                assert(b[k + 1] == x);
                assert(id_lt(b[0], x));
                assert(id_mem(b, x));
                let m = choose|m: int| 0 <= m < a.len() && a[m] == x;
                lemma_id_lt_irrefl(x);
                assert(m > 0);
                assert(at[m - 1] == x);
            }
        }
        lemma_strictly_sorted_unique(at, bt);
        assert(at.len() == bt.len());
        assert(a.len() == b.len());
        assert forall|k: int| 0 <= k < a.len() implies a[k] == b[k] by {
            if k > 0 {
                assert(at[k - 1] == a[k]);
                assert(bt[k - 1] == b[k]);
            }
        }
        assert(a =~= b);
    }
}

/// Insert an identity into a strictly sorted vector, keeping it strictly
/// sorted; an identity already present is dropped.
fn insert_unique(out: &mut Vec<CrateId>, x: CrateId)
    requires
        strictly_sorted_ids(views_of(old(out)@)),
    ensures
        strictly_sorted_ids(views_of(final(out)@)),
        forall|y: IdView|
            id_mem(views_of(final(out)@), y) <==> id_mem(views_of(old(out)@), y) || y == x@,
{
    let mut i: usize = 0;
    loop
        invariant
            0 <= i <= out@.len(),
            out@ == old(out)@,
            strictly_sorted_ids(views_of(out@)),
            forall|j: int| 0 <= j < i ==> id_lt(views_of(out@)[j], x@),
        ensures
            0 <= i <= out@.len(),
            out@ == old(out)@,
            forall|j: int| 0 <= j < i ==> id_lt(views_of(out@)[j], x@),
            i < out@.len() ==> id_lt(x@, views_of(out@)[i as int]),
        decreases out@.len() - i,
    {
        if i == out.len() {
            break;
        }
        match id_cmp(&out[i], &x) {
            CharsOrd::Less => {
                i = i + 1;
            },
            CharsOrd::Equal => {
                proof {
                    assert(views_of(out@)[i as int] == x@);
                    assert(id_mem(views_of(out@), x@));
                }
                return;
            },
            CharsOrd::Greater => {
                break;
            },
        }
    }
    // Here every identity before `i` is below `x`, and the one at `i`, if
    // any, is above it.
    let ghost pre = views_of(out@);
    proof {
        assert(i < out@.len() ==> id_lt(x@, pre[i as int]));
    }
    out.insert(i, x);
    proof {
        let post = views_of(out@);
        assert(post.len() == pre.len() + 1);
        assert forall|k: int| 0 <= k < post.len() implies post[k] == (if k < i {
            pre[k]
        } else if k == i {
            x@
        } else {
            pre[k - 1]
        }) by {
            assert(out@[k] == (if k < i {
                old(out)@[k]
            } else if k == i {
                x
            } else {
                old(out)@[k - 1]
            }));
        }
        assert forall|p: int, q: int| 0 <= p < q < post.len() implies id_lt(post[p], post[q]) by {
            if q < i {
            } else if p < i && q == i {
            } else if p == i && q > i {
                if q - 1 > i {
                    lemma_id_lt_trans(x@, pre[i as int], pre[q - 1]);
                }
            } else if p < i && q > i {
                if q - 1 >= i + 1 {
                    lemma_id_lt_trans(pre[p], pre[i as int], pre[q - 1]);
                } else {
                    lemma_id_lt_trans(pre[p], x@, pre[q - 1]);
                }
            }
        }
        assert forall|y: IdView| id_mem(post, y) <==> id_mem(pre, y) || y == x@ by {
            if id_mem(post, y) {
                let k = choose|k: int| 0 <= k < post.len() && post[k] == y;
                if k < i {
                    assert(pre[k] == y);
                } else if k > i {
                    assert(pre[k - 1] == y);
                }
            }
            if id_mem(pre, y) {
                let k = choose|k: int| 0 <= k < pre.len() && pre[k] == y;
                if k < i {
                    assert(post[k] == y);
                } else {
                    assert(post[k + 1] == y);
                }
            }
            if y == x@ {
                assert(post[i as int] == y);
            }
        }
    }
}

/// The strictly sorted list of the distinct identities of `v`.
pub fn normalize_ids(v: &Vec<CrateId>) -> (r: Vec<CrateId>)
    ensures
        strictly_sorted_ids(views_of(r@)),
        forall|x: IdView| id_mem(views_of(r@), x) <==> id_mem(views_of(v@), x),
{
    let mut out: Vec<CrateId> = Vec::new();
    let n = v.len();
    let mut k: usize = 0;
    while k < n
        invariant
            0 <= k <= n,
            n == v@.len(),
            strictly_sorted_ids(views_of(out@)),
            forall|x: IdView| id_mem(views_of(out@), x) <==> id_mem(views_of(v@.take(k as int)), x),
        decreases n - k,
    {
        let ghost before = views_of(out@);
        insert_unique(&mut out, v[k].duplicate());
        proof {
            let tk = views_of(v@.take(k as int));
            let tk1 = views_of(v@.take(k + 1));
            assert(v@.take(k + 1) =~= v@.take(k as int).push(v@[k as int]));
            assert forall|x: IdView| id_mem(tk1, x) <==> id_mem(tk, x) || x == v@[k as int]@ by {
                assert(tk1.len() == tk.len() + 1);
                assert forall|t: int| 0 <= t < tk1.len() implies tk1[t] == (if t < tk.len() {
                    tk[t]
                } else {
                    v@[k as int]@
                }) by {}
                if id_mem(tk1, x) {
                    let t = choose|t: int| 0 <= t < tk1.len() && tk1[t] == x;
                    if t < tk.len() {
                        assert(tk[t] == x);
                    }
                }
                if id_mem(tk, x) {
                    let t = choose|t: int| 0 <= t < tk.len() && tk[t] == x;
                    assert(tk1[t] == x);
                }
                if x == v@[k as int]@ {
                    assert(tk1[tk.len() as int] == x);
                }
            }
        }
        k = k + 1;
    }
    proof {
        assert(v@.take(n as int) =~= v@);
    }
    out
}

/// Whether `x` is among the identities of `v`.
pub fn contains_id(v: &Vec<CrateId>, x: &CrateId) -> (r: bool)
    ensures
        r == id_mem(views_of(v@), x@),
{
    let n = v.len();
    let mut k: usize = 0;
    while k < n
        invariant
            0 <= k <= n,
            n == v@.len(),
            forall|j: int| 0 <= j < k ==> views_of(v@)[j] != x@,
        decreases n - k,
    {
        if crate::identity::id_eq(&v[k], x) {
            proof {
                assert(views_of(v@)[k as int] == x@);
            }
            return true;
        }
        k = k + 1;
    }
    proof {
        if id_mem(views_of(v@), x@) {
            let j = choose|j: int| 0 <= j < v@.len() && views_of(v@)[j] == x@;
            assert(false);
        }
    }
    false
}

/// A value-equal copy of a vector of identities.
pub fn copy_ids(v: &Vec<CrateId>) -> (r: Vec<CrateId>)
    ensures
        views_of(r@) == views_of(v@),
{
    let mut out: Vec<CrateId> = Vec::new();
    let n = v.len();
    let mut k: usize = 0;
    while k < n
        invariant
            0 <= k <= n,
            n == v@.len(),
            out@.len() == k,
            forall|j: int| 0 <= j < k ==> views_of(out@)[j] == views_of(v@)[j],
        decreases n - k,
    {
        out.push(v[k].duplicate());
        k = k + 1;
    }
    proof {
        assert(views_of(out@) =~= views_of(v@));
    }
    out
}

} // verus!
