//! Lockfile reading.
//!
//! A lockfile is scanned line by line.  The metadata section begins at the
//! first line equal to `[metadata]`; every following line is a candidate
//! dependency record.  A record is whitespace-tokenised; after the leading
//! token come name, version and source.  A record with fewer than four
//! tokens is skipped, never an error.  A registry source yields a registry
//! identity; a git source yields either a pinned identity (explicit `?rev=`
//! parameter, shortened to seven characters) or an unresolved reference
//! that the caller resolves against the local clone.

use vstd::prelude::*;

use crate::identity::{CrateId, IdView};
use crate::order::views_of;
use crate::text::{
    find_sub, first_index_of, first_index_of_spec, first_match_of, has_sub, lemma_first_index_of,
    split_char, split_char_spec, str_eq, str_views, tokenize, tokens_of,
};

verus! {

/// One dependency record of a lockfile, as far as it can be read without
/// consulting the local clones.
pub enum ManifestEntry {
    /// A registry dependency, fully resolved by the lockfile.
    Registry(CrateId),
    /// A git dependency pinned to an explicit revision.
    PinnedGit(CrateId),
    /// A git dependency without a pinned revision; `reference` is the
    /// recorded branch or tag, if any.
    UnresolvedGit { name: String, reference: Option<String> },
}

/// The mathematical value of a `ManifestEntry`.
pub enum EntryView {
    Registry(IdView),
    PinnedGit(IdView),
    UnresolvedGit { name: Seq<char>, reference: Option<Seq<char>> },
}

impl View for ManifestEntry {
    type V = EntryView;

    open spec fn view(&self) -> EntryView {
        match self {
            ManifestEntry::Registry(id) => EntryView::Registry(id@),
            ManifestEntry::PinnedGit(id) => EntryView::PinnedGit(id@),
            ManifestEntry::UnresolvedGit { name, reference } => EntryView::UnresolvedGit {
                name: name@,
                reference: match reference {
                    Some(s) => Some(s@),
                    None => None,
                },
            },
        }
    }
}

/// The entry values of a vector of entries.
pub open spec fn entry_views(s: Seq<ManifestEntry>) -> Seq<EntryView> {
    s.map_values(|e: ManifestEntry| e@)
}

pub open spec fn metadata_marker() -> Seq<char> {
    seq!['[', 'm', 'e', 't', 'a', 'd', 'a', 't', 'a', ']']
}

pub open spec fn registry_marker() -> Seq<char> {
    seq!['(', 'r', 'e', 'g', 'i', 's', 't', 'r', 'y', '+']
}

pub open spec fn git_marker() -> Seq<char> {
    seq!['g', 'i', 't', '+']
}

pub open spec fn rev_marker() -> Seq<char> {
    seq!['?', 'r', 'e', 'v', '=']
}

pub open spec fn branch_marker() -> Seq<char> {
    seq!['?', 'b', 'r', 'a', 'n', 'c', 'h', '=']
}

pub open spec fn tag_marker() -> Seq<char> {
    seq!['?', 't', 'a', 'g', '=']
}

/// The text after the first occurrence of `key`, up to the next closing
/// parenthesis or the end.
pub open spec fn param_value(source: Seq<char>, key: Seq<char>) -> Seq<char> {
    let i = first_match_of(source, key);
    let rest = source.subrange(i + key.len(), source.len() as int);
    rest.subrange(0, first_index_of_spec(rest, ')'))
}

/// A revision shortened to its first seven characters.
pub open spec fn short_rev(v: Seq<char>) -> Seq<char> {
    if v.len() <= 7 {
        v
    } else {
        v.subrange(0, 7)
    }
}

/// What one candidate record yields: nothing for a malformed or
/// foreign-source record, otherwise one entry.
pub open spec fn parse_record(line: Seq<char>) -> Option<EntryView> {
    let toks = tokens_of(line);
    if toks.len() < 4 {
        None
    } else {
        let name = toks[1];
        let version = toks[2];
        let source = toks[3];
        if has_sub(source, registry_marker()) {
            Some(EntryView::Registry(IdView { name, rev: version }))
        } else if has_sub(source, git_marker()) {
            if has_sub(source, rev_marker()) {
                Some(
                    EntryView::PinnedGit(
                        IdView { name, rev: short_rev(param_value(source, rev_marker())) },
                    ),
                )
            } else if has_sub(source, branch_marker()) {
                Some(
                    EntryView::UnresolvedGit {
                        name,
                        reference: Some(param_value(source, branch_marker())),
                    },
                )
            } else if has_sub(source, tag_marker()) {
                Some(
                    EntryView::UnresolvedGit {
                        name,
                        reference: Some(param_value(source, tag_marker())),
                    },
                )
            } else {
                Some(EntryView::UnresolvedGit { name, reference: None })
            }
        } else {
            None
        }
    }
}

/// A record with fewer than four whitespace tokens yields nothing: it is
/// skipped, not an error, and appears in no output set.
pub proof fn lemma_malformed_record_skipped(line: Seq<char>)
    ensures
        tokens_of(line).len() < 4 ==> parse_record(line) == None::<EntryView>,
{
}

/// The entries of a sequence of candidate records, in order.
pub open spec fn parse_records(lines: Seq<Seq<char>>) -> Seq<EntryView>
    decreases lines.len(),
{
    if lines.len() == 0 {
        Seq::empty()
    } else {
        (match parse_record(lines[0]) {
            None => Seq::<EntryView>::empty(),
            Some(e) => seq![e],
        }) + parse_records(lines.drop_first())
    }
}

pub proof fn lemma_parse_records_push(lines: Seq<Seq<char>>, x: Seq<char>)
    ensures
        parse_records(lines.push(x)) == parse_records(lines) + (match parse_record(x) {
            None => Seq::<EntryView>::empty(),
            Some(e) => seq![e],
        }),
    decreases lines.len(),
{
    let opt_x: Seq<EntryView> = match parse_record(x) {
        None => Seq::empty(),
        Some(e) => seq![e],
    };
    if lines.len() == 0 {
        assert(lines.push(x)[0] == x);
        assert(lines.push(x).drop_first() =~= lines);
        assert(parse_records(lines.push(x)) =~= parse_records(lines) + opt_x);
    } else {
        lemma_parse_records_push(lines.drop_first(), x);
        assert(lines.push(x)[0] == lines[0]);
        assert(lines.push(x).drop_first() =~= lines.drop_first().push(x));
        let opt_0: Seq<EntryView> = match parse_record(lines[0]) {
            None => Seq::empty(),
            Some(e) => seq![e],
        };
        assert(parse_records(lines.push(x)) == opt_0 + (parse_records(lines.drop_first())
            + opt_x));
        assert(opt_0 + (parse_records(lines.drop_first()) + opt_x) =~= (opt_0 + parse_records(
            lines.drop_first(),
        )) + opt_x);
    }
}

/// Index of the first line equal to `[metadata]`, or the line count when no
/// line matches.
pub open spec fn first_marker_line(lines: Seq<Seq<char>>) -> int
    decreases lines.len(),
{
    if lines.len() == 0 {
        0
    } else if lines[0] == metadata_marker() {
        0
    } else {
        1 + first_marker_line(lines.drop_first())
    }
}

pub proof fn lemma_first_marker_line(lines: Seq<Seq<char>>)
    ensures
        0 <= first_marker_line(lines) <= lines.len(),
        first_marker_line(lines) < lines.len() ==> lines[first_marker_line(lines)]
            == metadata_marker(),
        forall|j: int| 0 <= j < first_marker_line(lines) ==> lines[j] != metadata_marker(),
    decreases lines.len(),
{
    if lines.len() == 0 || lines[0] == metadata_marker() {
    } else {
        lemma_first_marker_line(lines.drop_first());
        assert forall|j: int| 0 <= j < first_marker_line(lines) implies lines[j]
            != metadata_marker() by {
            if j > 0 {
                assert(lines.drop_first()[j - 1] == lines[j]);
            }
        }
    }
}

/// The candidate records of a lockfile: every line after the first
/// `[metadata]` line; none when there is no metadata section.
pub open spec fn records_of(text: Seq<char>) -> Seq<Seq<char>> {
    let lines = split_char_spec(text, '\n');
    let i = first_marker_line(lines);
    if 0 <= i < lines.len() {
        lines.subrange(i + 1, lines.len() as int)
    } else {
        Seq::empty()
    }
}

/// Everything one lockfile contributes, in record order.
pub open spec fn manifest_entries(text: Seq<char>) -> Seq<EntryView> {
    parse_records(records_of(text))
}

/// The value of `key` inside `source`, when `key` occurs.
fn param_value_exec(source: &str, key: &str) -> (r: Option<String>)
    ensures
        match r {
            Some(v) => has_sub(source@, key@) && v@ == param_value(source@, key@),
            None => !has_sub(source@, key@),
        },
{
    match find_sub(source, key) {
        Some(i) => {
            let n = source.unicode_len();
            let m = key.unicode_len();
            let rest = source.substring_char(i + m, n);
            let j = first_index_of(rest, ')');
            proof {
                lemma_first_index_of(rest@, ')');
            }
            Some(rest.substring_char(0, j).to_owned())
        },
        None => None,
    }
}

fn short_rev_exec(v: &str) -> (r: String)
    ensures
        r@ == short_rev(v@),
{
    let n = v.unicode_len();
    if n <= 7 {
        v.to_owned()
    } else {
        v.substring_char(0, 7).to_owned()
    }
}

/// Read one candidate record.
pub fn parse_record_line(line: &str) -> (r: Option<ManifestEntry>)
    ensures
        match r {
            Some(e) => parse_record(line@) == Some(e@),
            None => parse_record(line@) == None::<EntryView>,
        },
{
    proof {
        reveal_strlit("(registry+");
        reveal_strlit("git+");
        reveal_strlit("?rev=");
        reveal_strlit("?branch=");
        reveal_strlit("?tag=");
        assert("(registry+"@ =~= registry_marker());
        assert("git+"@ =~= git_marker());
        assert("?rev="@ =~= rev_marker());
        assert("?branch="@ =~= branch_marker());
        assert("?tag="@ =~= tag_marker());
    }
    let toks = tokenize(line);
    if toks.len() < 4 {
        return None;
    }
    let name = toks[1].as_str();
    let version = toks[2].as_str();
    let source = toks[3].as_str();
    proof {
        assert(name@ == tokens_of(line@)[1]);
        assert(version@ == tokens_of(line@)[2]);
        assert(source@ == tokens_of(line@)[3]);
    }
    if find_sub(source, "(registry+").is_some() {
        Some(
            ManifestEntry::Registry(
                CrateId { name: name.to_owned(), rev: version.to_owned() },
            ),
        )
    } else if find_sub(source, "git+").is_some() {
        match param_value_exec(source, "?rev=") {
            Some(v) => Some(
                ManifestEntry::PinnedGit(
                    CrateId { name: name.to_owned(), rev: short_rev_exec(v.as_str()) },
                ),
            ),
            None => {
                match param_value_exec(source, "?branch=") {
                    Some(v) => Some(
                        ManifestEntry::UnresolvedGit {
                            name: name.to_owned(),
                            reference: Some(v),
                        },
                    ),
                    None => {
                        match param_value_exec(source, "?tag=") {
                            Some(v) => Some(
                                ManifestEntry::UnresolvedGit {
                                    name: name.to_owned(),
                                    reference: Some(v),
                                },
                            ),
                            None => Some(
                                ManifestEntry::UnresolvedGit {
                                    name: name.to_owned(),
                                    reference: None,
                                },
                            ),
                        }
                    },
                }
            },
        }
    } else {
        None
    }
}

/// Read every entry of one lockfile.
pub fn parse_manifest(text: &str) -> (r: Vec<ManifestEntry>)
    ensures
        entry_views(r@) == manifest_entries(text@),
{
    proof {
        reveal_strlit("[metadata]");
        assert("[metadata]"@ =~= metadata_marker());
    }
    let lines = split_char(text, '\n');
    let ghost lv = str_views(lines@);
    let n = lines.len();
    let mut k: usize = 0;
    loop
        invariant
            0 <= k <= n,
            n == lines@.len(),
            lv == str_views(lines@),
            forall|j: int| 0 <= j < k ==> lv[j] != metadata_marker(),
        ensures
            0 <= k <= n,
            forall|j: int| 0 <= j < k ==> lv[j] != metadata_marker(),
            k < n ==> lv[k as int] == metadata_marker(),
        decreases n - k,
    {
        if k == n {
            break;
        }
        let hit = str_eq(lines[k].as_str(), "[metadata]");
        proof {
            reveal_strlit("[metadata]");
            assert("[metadata]"@ =~= metadata_marker());
            assert(lv[k as int] == lines@[k as int]@);
        }
        if hit {
            break;
        }
        k = k + 1;
    }
    proof {
        lemma_first_marker_line(lv);
        if k < n {
            assert(lv[k as int] == metadata_marker());
            assert(k == first_marker_line(lv));
        } else {
            if first_marker_line(lv) < lv.len() {
                assert(lv[first_marker_line(lv)] == metadata_marker());
                assert(false);
            }
        }
    }
    let mut out: Vec<ManifestEntry> = Vec::new();
    if k == n {
        proof {
            assert(records_of(text@) =~= Seq::<Seq<char>>::empty());
            assert(entry_views(out@) =~= manifest_entries(text@));
        }
        return out;
    }
    let ghost recs = records_of(text@);
    proof {
        assert(recs == lv.subrange(k + 1, lv.len() as int));
    }
    let mut i: usize = k + 1;
    proof {
        assert(recs.subrange(0, 0) =~= Seq::<Seq<char>>::empty());
        assert(entry_views(out@) =~= parse_records(recs.subrange(0, 0)));
    }
    while i < n
        invariant
            k + 1 <= i <= n,
            n == lines@.len(),
            lv == str_views(lines@),
            recs == lv.subrange(k + 1, lv.len() as int),
            entry_views(out@) == parse_records(recs.subrange(0, i - k - 1)),
        decreases n - i,
    {
        let ghost done = recs.subrange(0, i - k - 1);
        let e = parse_record_line(lines[i].as_str());
        proof {
            lemma_parse_records_push(done, lv[i as int]);
            assert(recs.subrange(0, i - k) =~= done.push(lv[i as int]));
            assert(recs[i - k - 1] == lv[i as int]);
        }
        match e {
            Some(entry) => {
                out.push(entry);
                proof {
                    assert(entry_views(out@) =~= entry_views(out@.drop_last()) + seq![
                        out@.last()@,
                    ]);
                }
            },
            None => {
                proof {
                    assert(entry_views(out@) =~= entry_views(out@)
                        + Seq::<EntryView>::empty());
                }
            },
        }
        i = i + 1;
    }
    proof {
        assert(recs.subrange(0, n - k - 1) =~= recs);
    }
    out
}

/// The registry identities among a lockfile's entries, in order.
pub open spec fn registry_entry_ids(es: Seq<EntryView>) -> Seq<IdView>
    decreases es.len(),
{
    if es.len() == 0 {
        Seq::empty()
    } else {
        (match es[0] {
            EntryView::Registry(id) => seq![id],
            _ => Seq::<IdView>::empty(),
        }) + registry_entry_ids(es.drop_first())
    }
}

pub proof fn lemma_registry_entry_ids_push(es: Seq<EntryView>, x: EntryView)
    ensures
        registry_entry_ids(es.push(x)) == registry_entry_ids(es) + (match x {
            EntryView::Registry(id) => seq![id],
            _ => Seq::<IdView>::empty(),
        }),
    decreases es.len(),
{
    let opt_x: Seq<IdView> = match x {
        EntryView::Registry(id) => seq![id],
        _ => Seq::empty(),
    };
    if es.len() == 0 {
        assert(es.push(x)[0] == x);
        assert(es.push(x).drop_first() =~= es);
        assert(registry_entry_ids(es.push(x)) =~= registry_entry_ids(es) + opt_x);
    } else {
        lemma_registry_entry_ids_push(es.drop_first(), x);
        assert(es.push(x)[0] == es[0]);
        assert(es.push(x).drop_first() =~= es.drop_first().push(x));
        let opt_0: Seq<IdView> = match es[0] {
            EntryView::Registry(id) => seq![id],
            _ => Seq::empty(),
        };
        assert(registry_entry_ids(es.push(x)) == opt_0 + (registry_entry_ids(es.drop_first())
            + opt_x));
        assert(opt_0 + (registry_entry_ids(es.drop_first()) + opt_x) =~= (opt_0
            + registry_entry_ids(es.drop_first())) + opt_x);
    }
}

/// The registry identities among the given entries.
pub fn used_registry_of(entries: &Vec<ManifestEntry>) -> (r: Vec<CrateId>)
    ensures
        views_of(r@) == registry_entry_ids(entry_views(entries@)),
{
    let ghost ev = entry_views(entries@);
    let mut out: Vec<CrateId> = Vec::new();
    let n = entries.len();
    let mut k: usize = 0;
    proof {
        assert(ev.subrange(0, 0) =~= Seq::<EntryView>::empty());
        assert(views_of(out@) =~= registry_entry_ids(ev.subrange(0, 0)));
    }
    while k < n
        invariant
            0 <= k <= n,
            n == entries@.len(),
            ev == entry_views(entries@),
            views_of(out@) == registry_entry_ids(ev.subrange(0, k as int)),
        decreases n - k,
    {
        let ghost done = ev.subrange(0, k as int);
        proof {
            lemma_registry_entry_ids_push(done, ev[k as int]);
            assert(ev.subrange(0, k + 1) =~= done.push(ev[k as int]));
        }
        match &entries[k] {
            ManifestEntry::Registry(id) => {
                out.push(id.duplicate());
                proof {
                    assert(views_of(out@) =~= views_of(out@.drop_last()) + seq![
                        out@.last()@,
                    ]);
                }
            },
            _ => {
                proof {
                    assert(views_of(out@) =~= views_of(out@) + Seq::<IdView>::empty());
                }
            },
        }
        k = k + 1;
    }
    proof {
        assert(ev.subrange(0, n as int) =~= ev);
    }
    out
}

/// The git identity one entry contributes, given the caller's resolution of
/// an unresolved reference: a pinned entry contributes its identity, an
/// unresolved entry the resolved revision, and a registry entry or a failed
/// resolution nothing.
pub fn git_id_of_entry(e: &ManifestEntry, resolved: Option<String>) -> (r: Option<CrateId>)
    ensures
        match e@ {
            EntryView::Registry(_) => r is None,
            EntryView::PinnedGit(id) => r matches Some(c) && c@ == id,
            EntryView::UnresolvedGit { name, reference: _ } => match resolved {
                Some(rv) => r matches Some(c) && c@ == (IdView { name, rev: rv@ }),
                None => r is None,
            },
        },
{
    match e {
        ManifestEntry::Registry(_) => None,
        ManifestEntry::PinnedGit(id) => Some(id.duplicate()),
        ManifestEntry::UnresolvedGit { name, reference: _ } => match resolved {
            Some(rv) => Some(CrateId { name: name.clone(), rev: rv }),
            None => None,
        },
    }
}

} // verus!
