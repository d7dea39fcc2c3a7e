//! The classification engine.
//!
//! Given the installed identity sets, the identities referenced by scanned
//! lockfiles, and the freshly resolved tips of the cached clones, `classify`
//! derives the old and orphan sets per origin.  The derivation is pure and
//! deterministic: installed sets are normalised to strictly sorted,
//! duplicate-free vectors, and every derived set is a filter of an installed
//! set.

use vstd::prelude::*;

use crate::identity::{head_marker, id_lt, CrateId, IdView};
use crate::order::{
    contains_id, copy_ids, id_mem, normalize_ids, strictly_sorted_ids, views_of,
    lemma_strictly_sorted_unique,
};
use crate::text::str_eq;

verus! {

/// Some installed identity shares `x`'s name but not its revision.
pub open spec fn has_dup_name(installed: Seq<IdView>, x: IdView) -> bool {
    exists|i: int|
        0 <= i < installed.len() && installed[i].name == x.name && installed[i].rev != x.rev
}

/// Some used identity has name `n`.
pub open spec fn name_used(used: Seq<IdView>, n: Seq<char>) -> bool {
    exists|i: int| 0 <= i < used.len() && used[i].name == n
}

/// `x` is an unresolved clone marker.
pub open spec fn is_head_id(x: IdView) -> bool {
    x.rev == head_marker()
}

/// An installed registry identity is old when another installed entry has
/// the same name and a different version.
pub open spec fn dup_pred(installed: Seq<IdView>) -> spec_fn(IdView) -> bool {
    |x: IdView| has_dup_name(installed, x)
}

pub open spec fn not_dup_pred(installed: Seq<IdView>) -> spec_fn(IdView) -> bool {
    |x: IdView| !has_dup_name(installed, x)
}

/// An installed identity is orphan when no used identity equals it.
pub open spec fn unused_pred(used: Seq<IdView>) -> spec_fn(IdView) -> bool {
    |x: IdView| !id_mem(used, x)
}

/// A pinned clone is old when the freshly resolved tips do not reproduce its
/// recorded revision; `HEAD` markers are never old.
pub open spec fn stale_pred(fresh: Seq<IdView>) -> spec_fn(IdView) -> bool {
    |x: IdView| !is_head_id(x) && !id_mem(fresh, x)
}

/// A `HEAD` marker is orphan unless some used clone shares its name; a
/// pinned clone is orphan unless its exact identity is used.
pub open spec fn orphan_git_pred(used: Seq<IdView>) -> spec_fn(IdView) -> bool {
    |x: IdView|
        if is_head_id(x) {
            !name_used(used, x.name)
        } else {
            !id_mem(used, x)
        }
}

pub open spec fn old_registry_of(installed: Seq<IdView>) -> Seq<IdView> {
    installed.filter(dup_pred(installed))
}

pub open spec fn not_old_registry_of(installed: Seq<IdView>) -> Seq<IdView> {
    installed.filter(not_dup_pred(installed))
}

pub open spec fn orphan_registry_of(installed: Seq<IdView>, used: Seq<IdView>) -> Seq<IdView> {
    installed.filter(unused_pred(used))
}

pub open spec fn old_git_of(installed: Seq<IdView>, fresh: Seq<IdView>) -> Seq<IdView> {
    installed.filter(stale_pred(fresh))
}

pub open spec fn orphan_git_of(installed: Seq<IdView>, used: Seq<IdView>) -> Seq<IdView> {
    installed.filter(orphan_git_pred(used))
}

/// Appending one element extends a filter by at most that element.
pub proof fn lemma_filter_push(s: Seq<IdView>, pred: spec_fn(IdView) -> bool, x: IdView)
    ensures
        s.push(x).filter(pred) == s.filter(pred) + (if pred(x) {
            seq![x]
        } else {
            Seq::<IdView>::empty()
        }),
{
    reveal(Seq::filter);
    assert(s.push(x).drop_last() =~= s);
    assert(s.push(x).last() == x);
    if pred(x) {
        assert(s.filter(pred).push(x) =~= s.filter(pred) + seq![x]);
    } else {
        assert(s.filter(pred) =~= s.filter(pred) + Seq::<IdView>::empty());
    }
}

/// A filtered sequence holds exactly the members that satisfy the
/// predicate.
pub proof fn lemma_filter_mem(s: Seq<IdView>, pred: spec_fn(IdView) -> bool, x: IdView)
    ensures
        id_mem(s.filter(pred), x) <==> (id_mem(s, x) && pred(x)),
    decreases s.len(),
{
    reveal(Seq::filter);
    if s.len() == 0 {
    } else {
        let d = s.drop_last();
        lemma_filter_mem(d, pred, x);
        lemma_filter_push(d, pred, s.last());
        assert(d.push(s.last()) =~= s);
        let f = s.filter(pred);
        let fd = d.filter(pred);
        if id_mem(f, x) {
            let k = choose|k: int| 0 <= k < f.len() && f[k] == x;
            if k < fd.len() {
                assert(fd[k] == x);
            } else {
                assert(x == s.last());
                assert(s[s.len() - 1] == x);
            }
        }
        if id_mem(s, x) && pred(x) {
            let k = choose|k: int| 0 <= k < s.len() && s[k] == x;
            if k < s.len() - 1 {
                assert(d[k] == x);
                let m = choose|m: int| 0 <= m < fd.len() && fd[m] == x;
                assert(f[m] == x);
            } else {
                assert(x == s.last());
                assert(f[fd.len() as int] == x);
            }
        }
        if id_mem(d, x) {
            let k = choose|k: int| 0 <= k < d.len() && d[k] == x;
            assert(s[k] == x);
        }
    }
}

/// Filtering preserves strict sortedness.
pub proof fn lemma_filter_sorted(s: Seq<IdView>, pred: spec_fn(IdView) -> bool)
    requires
        strictly_sorted_ids(s),
    ensures
        strictly_sorted_ids(s.filter(pred)),
    decreases s.len(),
{
    reveal(Seq::filter);
    if s.len() > 0 {
        let d = s.drop_last();
        assert(strictly_sorted_ids(d));
        lemma_filter_sorted(d, pred);
        lemma_filter_push(d, pred, s.last());
        assert(d.push(s.last()) =~= s);
        let f = s.filter(pred);
        let fd = d.filter(pred);
        assert forall|i: int, j: int| 0 <= i < j < f.len() implies id_lt(f[i], f[j]) by {
            if j < fd.len() {
                assert(f[i] == fd[i] && f[j] == fd[j]);
            } else {
                assert(f[j] == s.last());
                assert(f[i] == fd[i]);
                lemma_filter_mem(d, pred, fd[i]);
                assert(id_mem(fd, fd[i]));
                let k = choose|k: int| 0 <= k < d.len() && d[k] == fd[i];
                assert(id_lt(s[k], s[s.len() - 1]));
            }
        }
    }
}

/// A filter whose predicate holds of every element is the identity.
pub proof fn lemma_filter_all(s: Seq<IdView>, pred: spec_fn(IdView) -> bool)
    requires
        forall|i: int| 0 <= i < s.len() ==> pred(s[i]),
    ensures
        s.filter(pred) == s,
    decreases s.len(),
{
    reveal(Seq::filter);
    if s.len() > 0 {
        let d = s.drop_last();
        assert(forall|i: int| 0 <= i < d.len() ==> pred(d[i]));
        lemma_filter_all(d, pred);
        lemma_filter_push(d, pred, s.last());
        assert(d.push(s.last()) =~= s);
        assert(s.filter(pred) =~= s);
    }
}

/// Another installed entry shares `x`'s name with a different revision.
fn has_dup(v: &Vec<CrateId>, x: &CrateId) -> (r: bool)
    ensures
        r == has_dup_name(views_of(v@), x@),
{
    let n = v.len();
    let mut k: usize = 0;
    while k < n
        invariant
            0 <= k <= n,
            n == v@.len(),
            forall|j: int|
                0 <= j < k ==> !(views_of(v@)[j].name == x@.name && views_of(v@)[j].rev
                    != x@.rev),
        decreases n - k,
    {
        if str_eq(v[k].name.as_str(), x.name.as_str()) && !str_eq(
            v[k].rev.as_str(),
            x.rev.as_str(),
        ) {
            proof {
                assert(views_of(v@)[k as int].name == x@.name && views_of(v@)[k as int].rev
                    != x@.rev);
            }
            return true;
        }
        k = k + 1;
    }
    proof {
        if has_dup_name(views_of(v@), x@) {
            let j = choose|j: int|
                0 <= j < views_of(v@).len() && views_of(v@)[j].name == x@.name && views_of(
                    v@,
                )[j].rev != x@.rev;
            assert(false);
        }
    }
    false
}

/// Some used identity has the given name.
fn name_in_use(used: &Vec<CrateId>, name: &str) -> (r: bool)
    ensures
        r == name_used(views_of(used@), name@),
{
    let n = used.len();
    let mut k: usize = 0;
    while k < n
        invariant
            0 <= k <= n,
            n == used@.len(),
            forall|j: int| 0 <= j < k ==> views_of(used@)[j].name != name@,
        decreases n - k,
    {
        if str_eq(used[k].name.as_str(), name) {
            proof {
                assert(views_of(used@)[k as int].name == name@);
            }
            return true;
        }
        k = k + 1;
    }
    proof {
        if name_used(views_of(used@), name@) {
            let j = choose|j: int| 0 <= j < used@.len() && views_of(used@)[j].name == name@;
            assert(false);
        }
    }
    false
}

/// The installed registry entries with a same-named, differently-versioned
/// sibling.
fn filter_old_registry(installed: &Vec<CrateId>) -> (r: Vec<CrateId>)
    ensures
        views_of(r@) == old_registry_of(views_of(installed@)),
{
    let ghost iv = views_of(installed@);
    let mut out: Vec<CrateId> = Vec::new();
    let n = installed.len();
    let mut k: usize = 0;
    proof {
        assert(iv.take(0) =~= Seq::<IdView>::empty());
        reveal(Seq::filter);
        assert(views_of(out@) =~= iv.take(0).filter(dup_pred(iv)));
    }
    while k < n
        invariant
            0 <= k <= n,
            n == installed@.len(),
            iv == views_of(installed@),
            views_of(out@) == iv.take(k as int).filter(dup_pred(iv)),
        decreases n - k,
    {
        let hit = has_dup(installed, &installed[k]);
        proof {
            lemma_filter_push(iv.take(k as int), dup_pred(iv), iv[k as int]);
            assert(iv.take(k + 1) =~= iv.take(k as int).push(iv[k as int]));
        }
        if hit {
            out.push(installed[k].duplicate());
            proof {
                assert(views_of(out@) =~= views_of(out@.drop_last()) + seq![iv[k as int]]);
            }
        } else {
            proof {
                assert(views_of(out@) =~= views_of(out@) + Seq::<IdView>::empty());
            }
        }
        k = k + 1;
    }
    proof {
        assert(iv.take(n as int) =~= iv);
    }
    out
}

/// The installed entries whose exact identity is not used.
fn filter_unused(installed: &Vec<CrateId>, used: &Vec<CrateId>) -> (r: Vec<CrateId>)
    ensures
        views_of(r@) == orphan_registry_of(views_of(installed@), views_of(used@)),
{
    let ghost iv = views_of(installed@);
    let ghost uv = views_of(used@);
    let mut out: Vec<CrateId> = Vec::new();
    let n = installed.len();
    let mut k: usize = 0;
    proof {
        assert(iv.take(0) =~= Seq::<IdView>::empty());
        reveal(Seq::filter);
        assert(views_of(out@) =~= iv.take(0).filter(unused_pred(uv)));
    }
    while k < n
        invariant
            0 <= k <= n,
            n == installed@.len(),
            iv == views_of(installed@),
            uv == views_of(used@),
            views_of(out@) == iv.take(k as int).filter(unused_pred(uv)),
        decreases n - k,
    {
        let hit = !contains_id(used, &installed[k]);
        proof {
            lemma_filter_push(iv.take(k as int), unused_pred(uv), iv[k as int]);
            assert(iv.take(k + 1) =~= iv.take(k as int).push(iv[k as int]));
        }
        if hit {
            out.push(installed[k].duplicate());
            proof {
                assert(views_of(out@) =~= views_of(out@.drop_last()) + seq![iv[k as int]]);
            }
        } else {
            proof {
                assert(views_of(out@) =~= views_of(out@) + Seq::<IdView>::empty());
            }
        }
        k = k + 1;
    }
    proof {
        assert(iv.take(n as int) =~= iv);
    }
    out
}

/// The installed pinned clones whose revision no freshly resolved tip
/// reproduces.
fn filter_stale_git(installed: &Vec<CrateId>, fresh: &Vec<CrateId>) -> (r: Vec<CrateId>)
    ensures
        views_of(r@) == old_git_of(views_of(installed@), views_of(fresh@)),
{
    let ghost iv = views_of(installed@);
    let ghost fv = views_of(fresh@);
    let mut out: Vec<CrateId> = Vec::new();
    let n = installed.len();
    let mut k: usize = 0;
    proof {
        assert(iv.take(0) =~= Seq::<IdView>::empty());
        reveal(Seq::filter);
        assert(views_of(out@) =~= iv.take(0).filter(stale_pred(fv)));
    }
    while k < n
        invariant
            0 <= k <= n,
            n == installed@.len(),
            iv == views_of(installed@),
            fv == views_of(fresh@),
            views_of(out@) == iv.take(k as int).filter(stale_pred(fv)),
        decreases n - k,
    {
        let hit = !installed[k].is_head() && !contains_id(fresh, &installed[k]);
        proof {
            lemma_filter_push(iv.take(k as int), stale_pred(fv), iv[k as int]);
            assert(iv.take(k + 1) =~= iv.take(k as int).push(iv[k as int]));
        }
        if hit {
            out.push(installed[k].duplicate());
            proof {
                assert(views_of(out@) =~= views_of(out@.drop_last()) + seq![iv[k as int]]);
            }
        } else {
            proof {
                assert(views_of(out@) =~= views_of(out@) + Seq::<IdView>::empty());
            }
        }
        k = k + 1;
    }
    proof {
        assert(iv.take(n as int) =~= iv);
    }
    out
}

/// The installed clones referenced by no used identity: by name for `HEAD`
/// markers, exactly for pinned clones.
fn filter_orphan_git(installed: &Vec<CrateId>, used: &Vec<CrateId>) -> (r: Vec<CrateId>)
    ensures
        views_of(r@) == orphan_git_of(views_of(installed@), views_of(used@)),
{
    let ghost iv = views_of(installed@);
    let ghost uv = views_of(used@);
    let mut out: Vec<CrateId> = Vec::new();
    let n = installed.len();
    let mut k: usize = 0;
    proof {
        assert(iv.take(0) =~= Seq::<IdView>::empty());
        reveal(Seq::filter);
        assert(views_of(out@) =~= iv.take(0).filter(orphan_git_pred(uv)));
    }
    while k < n
        invariant
            0 <= k <= n,
            n == installed@.len(),
            iv == views_of(installed@),
            uv == views_of(used@),
            views_of(out@) == iv.take(k as int).filter(orphan_git_pred(uv)),
        decreases n - k,
    {
        let hit = if installed[k].is_head() {
            !name_in_use(used, installed[k].name.as_str())
        } else {
            !contains_id(used, &installed[k])
        };
        proof {
            lemma_filter_push(iv.take(k as int), orphan_git_pred(uv), iv[k as int]);
            assert(iv.take(k + 1) =~= iv.take(k as int).push(iv[k as int]));
        }
        if hit {
            out.push(installed[k].duplicate());
            proof {
                assert(views_of(out@) =~= views_of(out@.drop_last()) + seq![iv[k as int]]);
            }
        } else {
            proof {
                assert(views_of(out@) =~= views_of(out@) + Seq::<IdView>::empty());
            }
        }
        k = k + 1;
    }
    proof {
        assert(iv.take(n as int) =~= iv);
    }
    out
}

/// The eight category sets of one classification run.
pub struct CrateList {
    installed_crate_registry: Vec<CrateId>,
    installed_crate_git: Vec<CrateId>,
    old_crate_registry: Vec<CrateId>,
    old_crate_git: Vec<CrateId>,
    used_crate_registry: Vec<CrateId>,
    used_crate_git: Vec<CrateId>,
    orphan_crate_registry: Vec<CrateId>,
    orphan_crate_git: Vec<CrateId>,
}

/// The mathematical value of a `CrateList`.
#[verifier::ext_equal]
pub struct CrateListView {
    pub installed_registry: Seq<IdView>,
    pub installed_git: Seq<IdView>,
    pub old_registry: Seq<IdView>,
    pub old_git: Seq<IdView>,
    pub used_registry: Seq<IdView>,
    pub used_git: Seq<IdView>,
    pub orphan_registry: Seq<IdView>,
    pub orphan_git: Seq<IdView>,
}

impl View for CrateList {
    type V = CrateListView;

    closed spec fn view(&self) -> CrateListView {
        CrateListView {
            installed_registry: views_of(self.installed_crate_registry@),
            installed_git: views_of(self.installed_crate_git@),
            old_registry: views_of(self.old_crate_registry@),
            old_git: views_of(self.old_crate_git@),
            used_registry: views_of(self.used_crate_registry@),
            used_git: views_of(self.used_crate_git@),
            orphan_registry: views_of(self.orphan_crate_registry@),
            orphan_git: views_of(self.orphan_crate_git@),
        }
    }
}

/// The full contract of one classification run: the installed sets are the
/// normalised inputs, the used sets are kept as given, and the old and
/// orphan sets are the corresponding filters of the installed sets.
pub open spec fn classified(
    ir: Seq<IdView>,
    ig: Seq<IdView>,
    ur: Seq<IdView>,
    ug: Seq<IdView>,
    fg: Seq<IdView>,
    out: CrateListView,
) -> bool {
    &&& strictly_sorted_ids(out.installed_registry)
    &&& forall|x: IdView| id_mem(out.installed_registry, x) <==> id_mem(ir, x)
    &&& strictly_sorted_ids(out.installed_git)
    &&& forall|x: IdView| id_mem(out.installed_git, x) <==> id_mem(ig, x)
    &&& out.used_registry == ur
    &&& out.used_git == ug
    &&& out.old_registry == old_registry_of(out.installed_registry)
    &&& out.old_git == old_git_of(out.installed_git, fg)
    &&& out.orphan_registry == orphan_registry_of(out.installed_registry, ur)
    &&& out.orphan_git == orphan_git_of(out.installed_git, ug)
}

impl CrateList {
    /// Derive the old and orphan sets from the installed sets, the used
    /// sets, and the freshly resolved clone tips.
    pub fn classify(
        installed_registry: Vec<CrateId>,
        installed_git: Vec<CrateId>,
        used_registry: Vec<CrateId>,
        used_git: Vec<CrateId>,
        fresh_git: Vec<CrateId>,
    ) -> (r: CrateList)
        ensures
            classified(
                views_of(installed_registry@),
                views_of(installed_git@),
                views_of(used_registry@),
                views_of(used_git@),
                views_of(fresh_git@),
                r@,
            ),
    {
        let inst_reg = normalize_ids(&installed_registry);
        let inst_git = normalize_ids(&installed_git);
        let old_reg = filter_old_registry(&inst_reg);
        let old_git_list = filter_stale_git(&inst_git, &fresh_git);
        let orphan_reg = filter_unused(&inst_reg, &used_registry);
        let orphan_git_list = filter_orphan_git(&inst_git, &used_git);
        CrateList {
            installed_crate_registry: inst_reg,
            installed_crate_git: inst_git,
            old_crate_registry: old_reg,
            old_crate_git: old_git_list,
            used_crate_registry: used_registry,
            used_crate_git: used_git,
            orphan_crate_registry: orphan_reg,
            orphan_crate_git: orphan_git_list,
        }
    }

    pub fn installed_registry(&self) -> (r: Vec<CrateId>)
        ensures
            views_of(r@) == self@.installed_registry,
    {
        copy_ids(&self.installed_crate_registry)
    }

    pub fn old_registry(&self) -> (r: Vec<CrateId>)
        ensures
            views_of(r@) == self@.old_registry,
    {
        copy_ids(&self.old_crate_registry)
    }

    pub fn used_registry(&self) -> (r: Vec<CrateId>)
        ensures
            views_of(r@) == self@.used_registry,
    {
        copy_ids(&self.used_crate_registry)
    }

    pub fn orphan_registry(&self) -> (r: Vec<CrateId>)
        ensures
            views_of(r@) == self@.orphan_registry,
    {
        copy_ids(&self.orphan_crate_registry)
    }

    pub fn installed_git(&self) -> (r: Vec<CrateId>)
        ensures
            views_of(r@) == self@.installed_git,
    {
        copy_ids(&self.installed_crate_git)
    }

    pub fn old_git(&self) -> (r: Vec<CrateId>)
        ensures
            views_of(r@) == self@.old_git,
    {
        copy_ids(&self.old_crate_git)
    }

    pub fn used_git(&self) -> (r: Vec<CrateId>)
        ensures
            views_of(r@) == self@.used_git,
    {
        copy_ids(&self.used_crate_git)
    }

    pub fn orphan_git(&self) -> (r: Vec<CrateId>)
        ensures
            views_of(r@) == self@.orphan_git,
    {
        copy_ids(&self.orphan_crate_git)
    }
}

/// The old and not-old registry entries partition the installed registry
/// set: every installed identity is in exactly one of the two.
pub proof fn lemma_old_registry_partition(installed: Seq<IdView>, x: IdView)
    ensures
        id_mem(installed, x) <==> (id_mem(old_registry_of(installed), x) || id_mem(
            not_old_registry_of(installed),
            x,
        )),
        !(id_mem(old_registry_of(installed), x) && id_mem(not_old_registry_of(installed), x)),
{
    lemma_filter_mem(installed, dup_pred(installed), x);
    lemma_filter_mem(installed, not_dup_pred(installed), x);
}

/// The orphan registry set is exactly the installed registry set minus the
/// used registry set.
pub proof fn lemma_orphan_registry_difference(
    installed: Seq<IdView>,
    used: Seq<IdView>,
    x: IdView,
)
    ensures
        id_mem(orphan_registry_of(installed, used), x) <==> (id_mem(installed, x) && !id_mem(
            used,
            x,
        )),
{
    lemma_filter_mem(installed, unused_pred(used), x);
}

/// With an empty used set, every installed registry identity is orphan.
pub proof fn lemma_orphan_registry_empty_used(installed: Seq<IdView>, used: Seq<IdView>)
    requires
        used.len() == 0,
    ensures
        orphan_registry_of(installed, used) == installed,
{
    assert(forall|i: int| 0 <= i < installed.len() ==> unused_pred(used)(installed[i]));
    lemma_filter_all(installed, unused_pred(used));
}

/// Membership in the orphan git set: a `HEAD` marker is orphan exactly when
/// no used clone shares its name, a pinned clone exactly when its identity
/// is not used.
pub proof fn lemma_orphan_git_membership(installed: Seq<IdView>, used: Seq<IdView>, x: IdView)
    ensures
        id_mem(orphan_git_of(installed, used), x) <==> (id_mem(installed, x) && (if is_head_id(
            x,
        ) {
            !name_used(used, x.name)
        } else {
            !id_mem(used, x)
        })),
{
    lemma_filter_mem(installed, orphan_git_pred(used), x);
}

/// Membership in the old git set: exactly the installed pinned clones whose
/// identity no freshly resolved tip reproduces.
pub proof fn lemma_old_git_membership(installed: Seq<IdView>, fresh: Seq<IdView>, x: IdView)
    ensures
        id_mem(old_git_of(installed, fresh), x) <==> (id_mem(installed, x) && !is_head_id(x)
            && !id_mem(fresh, x)),
{
    lemma_filter_mem(installed, stale_pred(fresh), x);
}

/// Classification is deterministic: two runs on the same five input sets
/// agree on every derived set.  Running `classify` twice therefore yields
/// identical output.
pub proof fn lemma_classified_deterministic(
    ir: Seq<IdView>,
    ig: Seq<IdView>,
    ur: Seq<IdView>,
    ug: Seq<IdView>,
    fg: Seq<IdView>,
    o1: CrateListView,
    o2: CrateListView,
)
    requires
        classified(ir, ig, ur, ug, fg, o1),
        classified(ir, ig, ur, ug, fg, o2),
    ensures
        o1 == o2,
{
    assert forall|x: IdView|
        id_mem(o1.installed_registry, x) <==> id_mem(o2.installed_registry, x) by {
        assert(id_mem(o1.installed_registry, x) <==> id_mem(ir, x));
        assert(id_mem(o2.installed_registry, x) <==> id_mem(ir, x));
    }
    lemma_strictly_sorted_unique(o1.installed_registry, o2.installed_registry);
    assert forall|x: IdView| id_mem(o1.installed_git, x) <==> id_mem(o2.installed_git, x) by {
        assert(id_mem(o1.installed_git, x) <==> id_mem(ig, x));
        assert(id_mem(o2.installed_git, x) <==> id_mem(ig, x));
    }
    lemma_strictly_sorted_unique(o1.installed_git, o2.installed_git);
    assert(o1 =~= o2);
}

/// Empty installed sets yield all-empty outputs, whatever is used or
/// freshly resolved.
pub proof fn lemma_classified_empty(
    ur: Seq<IdView>,
    ug: Seq<IdView>,
    fg: Seq<IdView>,
    out: CrateListView,
)
    requires
        classified(Seq::empty(), Seq::empty(), ur, ug, fg, out),
    ensures
        out.installed_registry.len() == 0,
        out.installed_git.len() == 0,
        out.old_registry.len() == 0,
        out.old_git.len() == 0,
        out.orphan_registry.len() == 0,
        out.orphan_git.len() == 0,
{
    reveal(Seq::filter);
    if out.installed_registry.len() > 0 {
        assert(id_mem(out.installed_registry, out.installed_registry[0]));
        assert(id_mem(Seq::<IdView>::empty(), out.installed_registry[0]));
        assert(false);
    }
    if out.installed_git.len() > 0 {
        assert(id_mem(out.installed_git, out.installed_git[0]));
        assert(id_mem(Seq::<IdView>::empty(), out.installed_git[0]));
        assert(false);
    }
    assert(out.installed_registry =~= Seq::<IdView>::empty());
    assert(out.installed_git =~= Seq::<IdView>::empty());
}

/// Every derived set of a classification run is strictly sorted.
pub proof fn lemma_classified_sorted(
    ir: Seq<IdView>,
    ig: Seq<IdView>,
    ur: Seq<IdView>,
    ug: Seq<IdView>,
    fg: Seq<IdView>,
    out: CrateListView,
)
    requires
        classified(ir, ig, ur, ug, fg, out),
    ensures
        strictly_sorted_ids(out.installed_registry),
        strictly_sorted_ids(out.installed_git),
        strictly_sorted_ids(out.old_registry),
        strictly_sorted_ids(out.old_git),
        strictly_sorted_ids(out.orphan_registry),
        strictly_sorted_ids(out.orphan_git),
{
    lemma_filter_sorted(out.installed_registry, dup_pred(out.installed_registry));
    lemma_filter_sorted(out.installed_git, stale_pred(fg));
    lemma_filter_sorted(out.installed_registry, unused_pred(ur));
    lemma_filter_sorted(out.installed_git, orphan_git_pred(ug));
}

} // verus!
