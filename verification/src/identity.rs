//! Structured package identities.
//!
//! A cached artifact is named by a pair `(name, rev)`: for a registry
//! artifact `rev` is a version string, for a git clone it is a short commit
//! identifier or the sentinel `HEAD`.  On disk both parts are joined with a
//! hyphen; since names may themselves contain hyphens, the split is always
//! taken at the last hyphen of the joined form.

use vstd::prelude::*;

use crate::text::{
    chars_lt, last_index_of, last_index_of_spec, lemma_chars_lt_asym, lemma_chars_lt_irrefl,
    lemma_chars_lt_total, lemma_chars_lt_trans, lemma_last_index_of, str_cmp, CharsOrd,
};

verus! {

/// One cached artifact: a package name and a version or revision.
pub struct CrateId {
    pub name: String,
    pub rev: String,
}

/// The mathematical value of a `CrateId`.
#[verifier::ext_equal]
pub struct IdView {
    pub name: Seq<char>,
    pub rev: Seq<char>,
}

impl View for CrateId {
    type V = IdView;

    open spec fn view(&self) -> IdView {
        IdView { name: self.name@, rev: self.rev@ }
    }
}

/// The revision sentinel of an unresolved git clone.
pub open spec fn head_marker() -> Seq<char> {
    seq!['H', 'E', 'A', 'D']
}

/// The on-disk rendering of an identity: name and revision joined by a
/// hyphen.
pub open spec fn rendered(x: IdView) -> Seq<char> {
    x.name + seq!['-'] + x.rev
}

/// The part of a joined identity before its last hyphen; empty when there is
/// no hyphen.
pub open spec fn name_of(s: Seq<char>) -> Seq<char> {
    let i = last_index_of_spec(s, '-');
    if i < 0 {
        Seq::empty()
    } else {
        s.subrange(0, i)
    }
}

/// The part of a joined identity after its last hyphen; the whole string
/// when there is no hyphen.
pub open spec fn rev_of(s: Seq<char>) -> Seq<char> {
    let i = last_index_of_spec(s, '-');
    if i < 0 {
        s
    } else {
        s.subrange(i + 1, s.len() as int)
    }
}

/// Order on the structured pair: by name, then by revision.  Used alone this
/// would misorder identities against their display strings, so it only
/// breaks ties between distinct identities whose renderings coincide, such
/// as `(b, a-x)` and `(b-a, x)`.
pub open spec fn pair_lt(a: IdView, b: IdView) -> bool {
    chars_lt(a.name, b.name) || (a.name == b.name && chars_lt(a.rev, b.rev))
}

/// Strict order on identities: ascending by the joined `name-rev` identity
/// string, the order the category sets are displayed in, with the
/// structured pair as tiebreaker where two renderings coincide.
pub open spec fn id_lt(a: IdView, b: IdView) -> bool {
    chars_lt(rendered(a), rendered(b)) || (rendered(a) == rendered(b) && pair_lt(a, b))
}

pub proof fn lemma_id_lt_irrefl(a: IdView)
    ensures
        !id_lt(a, a),
{
    lemma_chars_lt_irrefl(rendered(a));
    lemma_chars_lt_irrefl(a.name);
    lemma_chars_lt_irrefl(a.rev);
}

pub proof fn lemma_id_lt_asym(a: IdView, b: IdView)
    ensures
        id_lt(a, b) ==> !id_lt(b, a),
{
    lemma_chars_lt_asym(rendered(a), rendered(b));
    lemma_chars_lt_irrefl(rendered(a));
    lemma_chars_lt_asym(a.name, b.name);
    lemma_chars_lt_asym(a.rev, b.rev);
}

pub proof fn lemma_id_lt_total(a: IdView, b: IdView)
    ensures
        id_lt(a, b) || id_lt(b, a) || a == b,
{
    lemma_chars_lt_total(rendered(a), rendered(b));
    lemma_chars_lt_total(a.name, b.name);
    lemma_chars_lt_total(a.rev, b.rev);
    if !id_lt(a, b) && !id_lt(b, a) {
        assert(a =~= b);
    }
}

pub proof fn lemma_id_lt_trans(a: IdView, b: IdView, c: IdView)
    ensures
        id_lt(a, b) && id_lt(b, c) ==> id_lt(a, c),
{
    lemma_chars_lt_trans(rendered(a), rendered(b), rendered(c));
    lemma_chars_lt_trans(a.name, b.name, c.name);
    lemma_chars_lt_trans(a.rev, b.rev, c.rev);
}

impl CrateId {
    /// A value-equal copy of this identity.
    pub fn duplicate(&self) -> (r: CrateId)
        ensures
            r@ == self@,
    {
        CrateId { name: self.name.clone(), rev: self.rev.clone() }
    }

    /// The joined `name-rev` rendering of this identity.
    pub fn full_name(&self) -> (r: String)
        ensures
            r@ == rendered(self@),
    {
        let mut r = self.name.clone();
        r.append("-");
        r.append(self.rev.as_str());
        proof {
            reveal_strlit("-");
            assert("-"@ =~= seq!['-']);
        }
        r
    }

    /// Whether this identity carries the `HEAD` sentinel revision.
    pub fn is_head(&self) -> (r: bool)
        ensures
            r == (self@.rev == head_marker()),
    {
        proof {
            reveal_strlit("HEAD");
            assert("HEAD"@ =~= head_marker());
        }
        crate::text::str_eq(self.rev.as_str(), "HEAD")
    }
}

/// Three-way comparison of two identities: by joined identity string, with
/// the structured pair breaking ties between coinciding renderings.
pub fn id_cmp(a: &CrateId, b: &CrateId) -> (r: CharsOrd)
    ensures
        (r == CharsOrd::Less) <==> id_lt(a@, b@),
        (r == CharsOrd::Greater) <==> id_lt(b@, a@),
        (r == CharsOrd::Equal) <==> (a@ == b@),
{
    proof {
        lemma_chars_lt_asym(rendered(a@), rendered(b@));
        lemma_chars_lt_irrefl(rendered(a@));
        lemma_chars_lt_irrefl(rendered(b@));
        lemma_chars_lt_asym(a@.name, b@.name);
        lemma_chars_lt_asym(a@.rev, b@.rev);
        lemma_chars_lt_irrefl(a@.name);
        lemma_chars_lt_irrefl(a@.rev);
    }
    let fa = a.full_name();
    let fb = b.full_name();
    match str_cmp(fa.as_str(), fb.as_str()) {
        CharsOrd::Less => CharsOrd::Less,
        CharsOrd::Greater => CharsOrd::Greater,
        CharsOrd::Equal => {
            match str_cmp(a.name.as_str(), b.name.as_str()) {
                CharsOrd::Less => CharsOrd::Less,
                CharsOrd::Greater => CharsOrd::Greater,
                CharsOrd::Equal => {
                    match str_cmp(a.rev.as_str(), b.rev.as_str()) {
                        CharsOrd::Less => CharsOrd::Less,
                        CharsOrd::Greater => CharsOrd::Greater,
                        CharsOrd::Equal => {
                            proof {
                                assert(a@ =~= b@);
                            }
                            CharsOrd::Equal
                        },
                    }
                },
            }
        },
    }
}

/// Equality of two identities.
pub fn id_eq(a: &CrateId, b: &CrateId) -> (r: bool)
    ensures
        r <==> (a@ == b@),
{
    match id_cmp(a, b) {
        CharsOrd::Equal => true,
        _ => false,
    }
}

/// Split a joined `name-rev` string at its last hyphen into a structured
/// identity; a string without a hyphen has an empty name and is all
/// revision.
pub fn split_id(s: &str) -> (r: CrateId)
    ensures
        r@.name == name_of(s@),
        r@.rev == rev_of(s@),
{
    let n = s.unicode_len();
    match last_index_of(s, '-') {
        Some(i) => {
            proof {
                lemma_last_index_of(s@, '-');
            }
            CrateId {
                name: s.substring_char(0, i).to_owned(),
                rev: s.substring_char(i + 1, n).to_owned(),
            }
        },
        None => CrateId { name: String::new(), rev: s.to_owned() },
    }
}

/// Strip the version tag from a joined `name-version` string, keeping the
/// part before the last hyphen; a string without a hyphen yields an empty
/// name.
pub fn clear_version_value(a: &str) -> (r: String)
    ensures
        r@ == name_of(a@),
{
    match last_index_of(a, '-') {
        Some(i) => {
            proof {
                lemma_last_index_of(a@, '-');
            }
            a.substring_char(0, i).to_owned()
        },
        None => String::new(),
    }
}

/// Strip the version tag from every joined identity string in a list.
pub fn remove_version(installed_crate_registry: &Vec<String>) -> (r: Vec<String>)
    ensures
        r@.len() == installed_crate_registry@.len(),
        forall|i: int|
            0 <= i < r@.len() ==> r@[i]@ == name_of(installed_crate_registry@[i]@),
{
    let mut removed_version: Vec<String> = Vec::new();
    let n = installed_crate_registry.len();
    let mut k: usize = 0;
    while k < n
        invariant
            0 <= k <= n,
            n == installed_crate_registry@.len(),
            removed_version@.len() == k,
            forall|i: int|
                0 <= i < k ==> removed_version@[i]@ == name_of(installed_crate_registry@[i]@),
        decreases n - k,
    {
        let data = clear_version_value(installed_crate_registry[k].as_str());
        removed_version.push(data);
        k = k + 1;
    }
    removed_version
}

} // verus!
