//! Cache enumeration.
//!
//! The caller lists the cache directories and hands the raw entry names in;
//! this module turns them into canonical identities.  A registry source
//! checkout directory is itself a joined `name-version` identity; a registry
//! archive adds a file extension to that form.  A git checkout lives under
//! `<repo dir>/<revision>`, where the repository directory usually carries a
//! hash suffix after its final hyphen, which is removed; a directory name
//! without a hyphen is already the repository name and is kept whole.  A
//! bare repository contributes one unresolved `HEAD` identity.

use vstd::prelude::*;

use crate::identity::{head_marker, name_of, rev_of, split_id, CrateId, IdView};
use crate::order::{id_mem, normalize_ids, strictly_sorted_ids, views_of};
use crate::text::{last_index_of, last_index_of_spec, lemma_last_index_of};

verus! {

/// A repository directory name paired with one of its revisions.
pub struct RepoRev {
    pub repo: String,
    pub rev: String,
}

/// The mathematical value of a `RepoRev`.
#[verifier::ext_equal]
pub struct RepoRevView {
    pub repo: Seq<char>,
    pub rev: Seq<char>,
}

impl View for RepoRev {
    type V = RepoRevView;

    open spec fn view(&self) -> RepoRevView {
        RepoRevView { repo: self.repo@, rev: self.rev@ }
    }
}

/// The file name without its last-dot extension; unchanged when it has no
/// dot.
pub open spec fn stem_of(s: Seq<char>) -> Seq<char> {
    let i = last_index_of_spec(s, '.');
    if i < 0 {
        s
    } else {
        s.subrange(0, i)
    }
}

/// The identity a registry source-checkout directory name denotes.
pub open spec fn dir_id_of(s: Seq<char>) -> IdView {
    IdView { name: name_of(s), rev: rev_of(s) }
}

/// The identity a registry archive file name denotes.
pub open spec fn archive_id_of(s: Seq<char>) -> IdView {
    dir_id_of(stem_of(s))
}

/// The repository name a cache directory name denotes: the part before the
/// last hyphen (the hash suffix), or the whole name when there is no
/// hyphen.
pub open spec fn repo_stem_of(s: Seq<char>) -> Seq<char> {
    let i = last_index_of_spec(s, '-');
    if i < 0 {
        s
    } else {
        s.subrange(0, i)
    }
}

/// The identity one git checkout revision directory denotes: the repository
/// name at that revision.
pub open spec fn checkout_id_of(e: RepoRevView) -> IdView {
    IdView { name: repo_stem_of(e.repo), rev: e.rev }
}

/// The unresolved identity a bare repository directory denotes.
pub open spec fn db_id_of(s: Seq<char>) -> IdView {
    IdView { name: repo_stem_of(s), rev: head_marker() }
}

fn repo_stem(s: &str) -> (r: String)
    ensures
        r@ == repo_stem_of(s@),
{
    match last_index_of(s, '-') {
        Some(i) => {
            proof {
                lemma_last_index_of(s@, '-');
            }
            s.substring_char(0, i).to_owned()
        },
        None => s.to_owned(),
    }
}

fn strip_extension(s: &str) -> (r: String)
    ensures
        r@ == stem_of(s@),
{
    match last_index_of(s, '.') {
        Some(i) => {
            proof {
                lemma_last_index_of(s@, '.');
            }
            s.substring_char(0, i).to_owned()
        },
        None => s.to_owned(),
    }
}

/// The identity of one registry source-checkout directory.
pub fn registry_id_from_dir(s: &str) -> (r: CrateId)
    ensures
        r@ == dir_id_of(s@),
{
    let r = split_id(s);
    proof {
        assert(r@ =~= dir_id_of(s@));
    }
    r
}

/// The identity of one registry archive file.
pub fn registry_id_from_archive(s: &str) -> (r: CrateId)
    ensures
        r@ == archive_id_of(s@),
{
    let stem = strip_extension(s);
    let r = split_id(stem.as_str());
    proof {
        assert(r@ =~= archive_id_of(s@));
    }
    r
}

/// The installed registry set: the identities of the source-checkout
/// directory names and of the archive file names, deduplicated and sorted.
pub fn installed_registry_from(src_names: &Vec<String>, archive_names: &Vec<String>) -> (r: Vec<
    CrateId,
>)
    ensures
        strictly_sorted_ids(views_of(r@)),
        forall|x: IdView|
            id_mem(views_of(r@), x) <==> ((exists|i: int|
                0 <= i < src_names@.len() && x == dir_id_of(src_names@[i]@)) || (exists|i: int|
                0 <= i < archive_names@.len() && x == archive_id_of(archive_names@[i]@))),
{
    let mut raw: Vec<CrateId> = Vec::new();
    let n1 = src_names.len();
    let mut k: usize = 0;
    while k < n1
        invariant
            0 <= k <= n1,
            n1 == src_names@.len(),
            raw@.len() == k,
            forall|j: int| 0 <= j < k ==> views_of(raw@)[j] == dir_id_of(src_names@[j]@),
        decreases n1 - k,
    {
        let ghost r0 = raw@;
        let id = registry_id_from_dir(src_names[k].as_str());
        let ghost idv = id@;
        raw.push(id);
        proof {
            assert forall|j: int| 0 <= j <= k implies views_of(raw@)[j] == dir_id_of(
                src_names@[j]@,
            ) by {
                if j < k {
                    assert(views_of(r0)[j] == dir_id_of(src_names@[j]@));
                    assert(raw@[j] == r0[j]);
                } else {
                    assert(raw@[j]@ == idv);
                }
            }
        }
        k = k + 1;
    }
    let n2 = archive_names.len();
    let mut t: usize = 0;
    while t < n2
        invariant
            0 <= t <= n2,
            n1 == src_names@.len(),
            n2 == archive_names@.len(),
            raw@.len() == n1 + t,
            forall|j: int| 0 <= j < n1 ==> views_of(raw@)[j] == dir_id_of(src_names@[j]@),
            forall|j: int|
                n1 <= j < n1 + t ==> views_of(raw@)[j] == archive_id_of(
                    archive_names@[j - n1]@,
                ),
        decreases n2 - t,
    {
        let ghost r0 = raw@;
        let id = registry_id_from_archive(archive_names[t].as_str());
        let ghost idv = id@;
        raw.push(id);
        proof {
            assert forall|j: int| 0 <= j < n1 implies views_of(raw@)[j] == dir_id_of(
                src_names@[j]@,
            ) by {
                assert(views_of(r0)[j] == dir_id_of(src_names@[j]@));
                assert(raw@[j] == r0[j]);
            }
            assert forall|j: int| n1 <= j <= n1 + t implies views_of(raw@)[j] == archive_id_of(
                archive_names@[j - n1]@,
            ) by {
                if j < n1 + t {
                    assert(views_of(r0)[j] == archive_id_of(archive_names@[j - n1]@));
                    assert(raw@[j] == r0[j]);
                } else {
                    assert(raw@[j]@ == idv);
                }
            }
        }
        t = t + 1;
    }
    let r = normalize_ids(&raw);
    proof {
        assert forall|x: IdView|
            id_mem(views_of(raw@), x) <==> ((exists|i: int|
                0 <= i < src_names@.len() && x == dir_id_of(src_names@[i]@)) || (exists|i: int|
                0 <= i < archive_names@.len() && x == archive_id_of(archive_names@[i]@))) by {
            if id_mem(views_of(raw@), x) {
                let j = choose|j: int| 0 <= j < views_of(raw@).len() && views_of(raw@)[j] == x;
                if j < n1 {
                    assert(x == dir_id_of(src_names@[j]@));
                } else {
                    assert(x == archive_id_of(archive_names@[j - n1]@));
                }
            }
            if exists|i: int| 0 <= i < src_names@.len() && x == dir_id_of(src_names@[i]@) {
                let i = choose|i: int|
                    0 <= i < src_names@.len() && x == dir_id_of(src_names@[i]@);
                assert(views_of(raw@)[i] == x);
            }
            if exists|i: int|
                0 <= i < archive_names@.len() && x == archive_id_of(archive_names@[i]@) {
                let i = choose|i: int|
                    0 <= i < archive_names@.len() && x == archive_id_of(archive_names@[i]@);
                assert(views_of(raw@)[n1 + i] == x);
            }
        }
    }
    r
}

/// The installed git set: one identity per checkout revision directory and
/// one unresolved `HEAD` identity per bare repository, deduplicated and
/// sorted.
pub fn installed_git_from(checkouts: &Vec<RepoRev>, db_names: &Vec<String>) -> (r: Vec<CrateId>)
    ensures
        strictly_sorted_ids(views_of(r@)),
        forall|x: IdView|
            id_mem(views_of(r@), x) <==> ((exists|i: int|
                0 <= i < checkouts@.len() && x == checkout_id_of(checkouts@[i]@)) || (exists|
                i: int,
            |
                0 <= i < db_names@.len() && x == db_id_of(db_names@[i]@))),
{
    let mut raw: Vec<CrateId> = Vec::new();
    let n1 = checkouts.len();
    let mut k: usize = 0;
    while k < n1
        invariant
            0 <= k <= n1,
            n1 == checkouts@.len(),
            raw@.len() == k,
            forall|j: int| 0 <= j < k ==> views_of(raw@)[j] == checkout_id_of(checkouts@[j]@),
        decreases n1 - k,
    {
        let ghost r0 = raw@;
        let name = repo_stem(checkouts[k].repo.as_str());
        let id = CrateId { name, rev: checkouts[k].rev.clone() };
        let ghost idv = id@;
        proof {
            assert(id@ =~= checkout_id_of(checkouts@[k as int]@));
        }
        raw.push(id);
        proof {
            assert forall|j: int| 0 <= j <= k implies views_of(raw@)[j] == checkout_id_of(
                checkouts@[j]@,
            ) by {
                if j < k {
                    assert(views_of(r0)[j] == checkout_id_of(checkouts@[j]@));
                    assert(raw@[j] == r0[j]);
                } else {
                    assert(raw@[j]@ == idv);
                }
            }
        }
        k = k + 1;
    }
    let n2 = db_names.len();
    let mut t: usize = 0;
    while t < n2
        invariant
            0 <= t <= n2,
            n1 == checkouts@.len(),
            n2 == db_names@.len(),
            raw@.len() == n1 + t,
            forall|j: int| 0 <= j < n1 ==> views_of(raw@)[j] == checkout_id_of(checkouts@[j]@),
            forall|j: int|
                n1 <= j < n1 + t ==> views_of(raw@)[j] == db_id_of(db_names@[j - n1]@),
        decreases n2 - t,
    {
        let ghost r0 = raw@;
        let name = repo_stem(db_names[t].as_str());
        let mut rev = String::new();
        rev.append("HEAD");
        proof {
            reveal_strlit("HEAD");
            assert(rev@ =~= head_marker());
        }
        let id = CrateId { name, rev };
        let ghost idv = id@;
        proof {
            assert(id@ =~= db_id_of(db_names@[t as int]@));
        }
        raw.push(id);
        proof {
            assert forall|j: int| 0 <= j < n1 implies views_of(raw@)[j] == checkout_id_of(
                checkouts@[j]@,
            ) by {
                assert(views_of(r0)[j] == checkout_id_of(checkouts@[j]@));
                assert(raw@[j] == r0[j]);
            }
            assert forall|j: int| n1 <= j <= n1 + t implies views_of(raw@)[j] == db_id_of(
                db_names@[j - n1]@,
            ) by {
                if j < n1 + t {
                    assert(views_of(r0)[j] == db_id_of(db_names@[j - n1]@));
                    assert(raw@[j] == r0[j]);
                } else {
                    assert(raw@[j]@ == idv);
                }
            }
        }
        t = t + 1;
    }
    let r = normalize_ids(&raw);
    proof {
        assert forall|x: IdView|
            id_mem(views_of(raw@), x) <==> ((exists|i: int|
                0 <= i < checkouts@.len() && x == checkout_id_of(checkouts@[i]@)) || (exists|
                i: int,
            |
                0 <= i < db_names@.len() && x == db_id_of(db_names@[i]@))) by {
            if id_mem(views_of(raw@), x) {
                let j = choose|j: int| 0 <= j < views_of(raw@).len() && views_of(raw@)[j] == x;
                if j < n1 {
                    assert(x == checkout_id_of(checkouts@[j]@));
                } else {
                    assert(x == db_id_of(db_names@[j - n1]@));
                }
            }
            if exists|i: int| 0 <= i < checkouts@.len() && x == checkout_id_of(checkouts@[i]@) {
                let i = choose|i: int|
                    0 <= i < checkouts@.len() && x == checkout_id_of(checkouts@[i]@);
                assert(views_of(raw@)[i] == x);
            }
            if exists|i: int| 0 <= i < db_names@.len() && x == db_id_of(db_names@[i]@) {
                let i = choose|i: int| 0 <= i < db_names@.len() && x == db_id_of(db_names@[i]@);
                assert(views_of(raw@)[n1 + i] == x);
            }
        }
    }
    r
}

/// The freshly resolved tips of the cached clones, as identities: the
/// caller pairs each bare repository directory name with the short revision
/// its history currently reports.
pub fn fresh_git_from(db_heads: &Vec<RepoRev>) -> (r: Vec<CrateId>)
    ensures
        r@.len() == db_heads@.len(),
        forall|i: int|
            0 <= i < r@.len() ==> views_of(r@)[i] == checkout_id_of(db_heads@[i]@),
{
    let mut out: Vec<CrateId> = Vec::new();
    let n = db_heads.len();
    let mut k: usize = 0;
    while k < n
        invariant
            0 <= k <= n,
            n == db_heads@.len(),
            out@.len() == k,
            forall|j: int| 0 <= j < k ==> views_of(out@)[j] == checkout_id_of(db_heads@[j]@),
        decreases n - k,
    {
        let ghost r0 = out@;
        let name = repo_stem(db_heads[k].repo.as_str());
        let id = CrateId { name, rev: db_heads[k].rev.clone() };
        let ghost idv = id@;
        proof {
            assert(id@ =~= checkout_id_of(db_heads@[k as int]@));
        }
        out.push(id);
        proof {
            assert forall|j: int| 0 <= j <= k implies views_of(out@)[j] == checkout_id_of(
                db_heads@[j]@,
            ) by {
                if j < k {
                    assert(views_of(r0)[j] == checkout_id_of(db_heads@[j]@));
                    assert(out@[j] == r0[j]);
                } else {
                    assert(out@[j]@ == idv);
                }
            }
        }
        k = k + 1;
    }
    out
}

} // verus!
