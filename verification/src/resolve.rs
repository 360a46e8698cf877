//! Scanning candidates and resolving a version request to one winner.
//!
//! The caller lists each search-path directory (in path order, keeping
//! each directory's own enumeration order) and hands the entries over as
//! plain values; everything from filtering file names to ranking the
//! survivors is done and proved here.

use crate::text::str_starts_with;
use crate::version::{
    lemma_version_order, match_spec, parse_spec, version_lt, DiscoveredVersion, RequestedVersion,
    VersionMatch,
};
use vstd::prelude::*;

verus! {

/// One directory entry that looks like an installed interpreter: the
/// version read from its file name, its absolute path, and whether the
/// entry's target is a regular file.
#[derive(Debug)]
pub struct Candidate {
    pub version: DiscoveredVersion,
    pub path: String,
    pub is_file: bool,
}

/// The version named by an executable's base name: a `python` prefix
/// followed by a nonempty `<major>` or `<major>.<minor>` suffix.  A bare
/// `python`, a foreign name or a malformed suffix yields nothing.
pub open spec fn executable_version(name: Seq<char>) -> Option<DiscoveredVersion> {
    if "python"@.is_prefix_of(name) {
        match parse_spec(name.subrange("python"@.len() as int, name.len() as int)) {
            Some(RequestedVersion::MajorOnly(m)) => Some(DiscoveredVersion::MajorOnly(m)),
            Some(RequestedVersion::Exact(m, n)) => Some(DiscoveredVersion::Exact(m, n)),
            _ => None,
        }
    } else {
        None
    }
}

/// Reads a discovered version off an executable's base name.
pub fn parse_executable_name(name: &str) -> (r: Option<DiscoveredVersion>)
    ensures
        r == executable_version(name@),
{
    if !str_starts_with(name, "python") {
        return None;
    }
    let plen = "python".unicode_len();
    let n = name.unicode_len();
    let suffix = name.substring_char(plen, n);
    match RequestedVersion::parse(suffix) {
        Some(RequestedVersion::MajorOnly(m)) => Some(DiscoveredVersion::MajorOnly(m)),
        Some(RequestedVersion::Exact(m, n)) => Some(DiscoveredVersion::Exact(m, n)),
        _ => None,
    }
}

/// What the scanner keeps of a directory listing, one triple per entry:
/// base name, absolute path, and whether the target is a regular file.
pub open spec fn entry_view(e: (String, String, bool)) -> (Seq<char>, Seq<char>, bool) {
    (e.0@, e.1@, e.2)
}

pub open spec fn candidate_view(c: Candidate) -> (DiscoveredVersion, Seq<char>, bool) {
    (c.version, c.path@, c.is_file)
}

/// The candidates among a directory's entries, in enumeration order.
pub open spec fn filtered_candidates(entries: Seq<(Seq<char>, Seq<char>, bool)>) -> Seq<
    (DiscoveredVersion, Seq<char>, bool),
>
    decreases entries.len(),
{
    if entries.len() == 0 {
        Seq::empty()
    } else {
        let e = entries.last();
        filtered_candidates(entries.drop_last()) + match executable_version(e.0) {
            Some(v) => seq![(v, e.1, e.2)],
            None => Seq::empty(),
        }
    }
}

/// Filters one directory's entries down to interpreter candidates,
/// keeping their order.
pub fn filter_python_executables(entries: &Vec<(String, String, bool)>) -> (r: Vec<Candidate>)
    ensures
        r@.map_values(|c: Candidate| candidate_view(c)) == filtered_candidates(
            entries@.map_values(|e: (String, String, bool)| entry_view(e)),
        ),
{
    let ghost evs = entries@.map_values(|e: (String, String, bool)| entry_view(e));
    let mut out: Vec<Candidate> = Vec::new();
    let mut i: usize = 0;
    proof {
        assert(evs.subrange(0, 0) =~= Seq::<(Seq<char>, Seq<char>, bool)>::empty());
        assert(out@.map_values(|c: Candidate| candidate_view(c)) =~~= filtered_candidates(
            evs.subrange(0, 0),
        ));
    }
    while i < entries.len()
        invariant
            0 <= i <= entries.len(),
            evs == entries@.map_values(|e: (String, String, bool)| entry_view(e)),
            out@.map_values(|c: Candidate| candidate_view(c)) == filtered_candidates(
                evs.subrange(0, i as int),
            ),
        decreases entries.len() - i,
    {
        let name = &entries[i].0;
        match parse_executable_name(name.as_str()) {
            Some(v) => {
                let c = Candidate {
                    version: v,
                    path: entries[i].1.clone(),
                    is_file: entries[i].2,
                };
                out.push(c);
            },
            None => {},
        }
        proof {
            let pre = evs.subrange(0, i as int);
            assert(evs.subrange(0, i as int + 1).drop_last() =~= pre);
            assert(evs.subrange(0, i as int + 1).last() == entry_view(entries@[i as int]));
            assert(out@.map_values(|c: Candidate| candidate_view(c)) =~~= filtered_candidates(
                evs.subrange(0, i as int + 1),
            ));
        }
        i = i + 1;
    }
    proof {
        assert(evs.subrange(0, i as int) =~= evs);
    }
    out
}

/// A resolution-table entry as the specifications see it.
pub open spec fn entry_views(t: Seq<(DiscoveredVersion, String)>) -> Seq<
    (DiscoveredVersion, Seq<char>),
> {
    t.map_values(|e: (DiscoveredVersion, String)| (e.0, e.1@))
}

pub open spec fn table_has_key(t: Seq<(DiscoveredVersion, Seq<char>)>, v: DiscoveredVersion) -> bool {
    exists|i: int| 0 <= i < t.len() && t[i].0 == v
}

/// The resolution table after scanning one directory's candidates left
/// to right, starting from `acc`: an incompatible candidate is skipped;
/// a loose match whose target is a regular file is recorded once per
/// version; an exact match whose target is a regular file is recorded
/// unless its version is already keyed, and either way ends the scan of
/// this directory — nothing later in it can improve on an exact hit.  A
/// candidate that is not a regular file is never recorded and stops
/// nothing.
pub open spec fn scan_dir_spec(
    requested: RequestedVersion,
    cands: Seq<Candidate>,
    acc: Seq<(DiscoveredVersion, Seq<char>)>,
) -> Seq<(DiscoveredVersion, Seq<char>)>
    decreases cands.len(),
{
    if cands.len() == 0 {
        acc
    } else {
        let c = cands[0];
        let rest = cands.subrange(1, cands.len() as int);
        match match_spec(c.version, requested) {
            VersionMatch::NotAtAll => scan_dir_spec(requested, rest, acc),
            VersionMatch::Loosely => if c.is_file && !table_has_key(acc, c.version) {
                scan_dir_spec(requested, rest, acc.push((c.version, c.path@)))
            } else {
                scan_dir_spec(requested, rest, acc)
            },
            VersionMatch::Exactly => if c.is_file {
                if table_has_key(acc, c.version) {
                    acc
                } else {
                    acc.push((c.version, c.path@))
                }
            } else {
                scan_dir_spec(requested, rest, acc)
            },
        }
    }
}

/// The resolution table after scanning every directory in path order:
/// an exact hit ends one directory's scan, never the whole walk, and a
/// version recorded once — first occurrence in path order — is never
/// overwritten.
pub open spec fn scan_spec(
    requested: RequestedVersion,
    dirs: Seq<Seq<Candidate>>,
    acc: Seq<(DiscoveredVersion, Seq<char>)>,
) -> Seq<(DiscoveredVersion, Seq<char>)>
    decreases dirs.len(),
{
    if dirs.len() == 0 {
        acc
    } else {
        scan_spec(
            requested,
            dirs.subrange(1, dirs.len() as int),
            scan_dir_spec(requested, dirs[0], acc),
        )
    }
}

/// The table entry with the greatest version, if any.
pub open spec fn best_entry(t: Seq<(DiscoveredVersion, Seq<char>)>) -> Option<
    (DiscoveredVersion, Seq<char>),
>
    decreases t.len(),
{
    if t.len() == 0 {
        None
    } else {
        match best_entry(t.drop_last()) {
            None => Some(t.last()),
            Some(b) => if version_lt(b.0, t.last().0) {
                Some(t.last())
            } else {
                Some(b)
            },
        }
    }
}

/// The per-directory candidate lists as the specifications see them.
pub open spec fn dir_views(dirs: Seq<Vec<Candidate>>) -> Seq<Seq<Candidate>> {
    dirs.map_values(|d: Vec<Candidate>| d@)
}

/// The path the resolver hands back for `requested`, if any.
pub open spec fn resolve_spec(requested: RequestedVersion, dirs: Seq<Seq<Candidate>>) -> Option<
    Seq<char>,
> {
    match best_entry(scan_spec(requested, dirs, Seq::empty())) {
        None => None,
        Some(e) => Some(e.1),
    }
}

/// Whether a table entry is witnessed by a candidate of `cands`: a
/// regular file, compatible with the request, with that version and path.
pub open spec fn entry_from(
    cands: Seq<Candidate>,
    requested: RequestedVersion,
    e: (DiscoveredVersion, Seq<char>),
) -> bool {
    exists|j: int|
        0 <= j < cands.len() && (#[trigger] cands[j]).is_file && match_spec(
            cands[j].version,
            requested,
        ) != VersionMatch::NotAtAll && cands[j].version == e.0 && cands[j].path@ == e.1
}

/// Whether a table entry is witnessed by a candidate of some directory.
pub open spec fn entry_from_dirs(
    dirs: Seq<Seq<Candidate>>,
    requested: RequestedVersion,
    e: (DiscoveredVersion, Seq<char>),
) -> bool {
    exists|d: int, j: int|
        0 <= d < dirs.len() && 0 <= j < dirs[d].len() && (#[trigger] dirs[d][j]).is_file
            && match_spec(dirs[d][j].version, requested) != VersionMatch::NotAtAll
            && dirs[d][j].version == e.0 && dirs[d][j].path@ == e.1
}

/// An entry witnessed by the tail of a candidate list is witnessed by
/// the whole list.
proof fn lemma_entry_from_tail(
    cands: Seq<Candidate>,
    requested: RequestedVersion,
    e: (DiscoveredVersion, Seq<char>),
)
    requires
        cands.len() > 0,
        entry_from(cands.subrange(1, cands.len() as int), requested, e),
    ensures
        entry_from(cands, requested, e),
{
    let rest = cands.subrange(1, cands.len() as int);
    let j = choose|j: int|
        0 <= j < rest.len() && (#[trigger] rest[j]).is_file && match_spec(
            rest[j].version,
            requested,
        ) != VersionMatch::NotAtAll && rest[j].version == e.0 && rest[j].path@ == e.1;
    assert(cands[j + 1] == rest[j]);
}

proof fn lemma_entry_from_dirs_head(
    dirs: Seq<Seq<Candidate>>,
    requested: RequestedVersion,
    e: (DiscoveredVersion, Seq<char>),
)
    requires
        dirs.len() > 0,
        entry_from(dirs[0], requested, e),
    ensures
        entry_from_dirs(dirs, requested, e),
{
    let cands = dirs[0];
    let j = choose|j: int|
        0 <= j < cands.len() && (#[trigger] cands[j]).is_file && match_spec(
            cands[j].version,
            requested,
        ) != VersionMatch::NotAtAll && cands[j].version == e.0 && cands[j].path@ == e.1;
    assert(dirs[0][j].is_file && dirs[0][j].version == e.0 && dirs[0][j].path@ == e.1);
}

proof fn lemma_entry_from_dirs_tail(
    dirs: Seq<Seq<Candidate>>,
    requested: RequestedVersion,
    e: (DiscoveredVersion, Seq<char>),
)
    requires
        dirs.len() > 0,
        entry_from_dirs(dirs.subrange(1, dirs.len() as int), requested, e),
    ensures
        entry_from_dirs(dirs, requested, e),
{
    let rest = dirs.subrange(1, dirs.len() as int);
    let (d, j) = choose|d: int, j: int|
        0 <= d < rest.len() && 0 <= j < rest[d].len() && (#[trigger] rest[d][j]).is_file
            && match_spec(rest[d][j].version, requested) != VersionMatch::NotAtAll
            && rest[d][j].version == e.0 && rest[d][j].path@ == e.1;
    assert(dirs[d + 1] == rest[d]);
    assert(dirs[d + 1][j].is_file && dirs[d + 1][j].version == e.0 && dirs[d + 1][j].path@ == e.1);
}

/// Every entry one directory's scan adds beyond `acc` is witnessed by a
/// candidate of that directory.
proof fn lemma_scan_dir_entries(
    requested: RequestedVersion,
    cands: Seq<Candidate>,
    acc: Seq<(DiscoveredVersion, Seq<char>)>,
)
    ensures
        forall|k: int|
            0 <= k < scan_dir_spec(requested, cands, acc).len() ==> (0 <= k < acc.len()
                && #[trigger] scan_dir_spec(requested, cands, acc)[k] == acc[k]) || entry_from(
                cands,
                requested,
                scan_dir_spec(requested, cands, acc)[k],
            ),
    decreases cands.len(),
{
    if cands.len() > 0 {
        let c = cands[0];
        let rest = cands.subrange(1, cands.len() as int);
        let t = scan_dir_spec(requested, cands, acc);
        assert forall|k: int|
            0 <= k < t.len() && !(0 <= k < acc.len() && t[k] == acc[k]) implies entry_from(
            cands,
            requested,
            t[k],
        ) by {
            let hd = (c.version, c.path@);
            match match_spec(c.version, requested) {
                VersionMatch::NotAtAll => {
                    lemma_scan_dir_entries(requested, rest, acc);
                    assert(scan_dir_spec(requested, rest, acc)[k] == t[k]);
                    lemma_entry_from_tail(cands, requested, t[k]);
                },
                VersionMatch::Loosely => {
                    if c.is_file && !table_has_key(acc, c.version) {
                        let acc2 = acc.push(hd);
                        lemma_scan_dir_entries(requested, rest, acc2);
                        assert(scan_dir_spec(requested, rest, acc2)[k] == t[k]);
                        if 0 <= k < acc2.len() && t[k] == acc2[k] {
                            assert(k == acc.len());
                            assert(t[k] == hd);
                            assert(cands[0].is_file);
                        } else {
                            lemma_entry_from_tail(cands, requested, t[k]);
                        }
                    } else {
                        lemma_scan_dir_entries(requested, rest, acc);
                        assert(scan_dir_spec(requested, rest, acc)[k] == t[k]);
                        lemma_entry_from_tail(cands, requested, t[k]);
                    }
                },
                VersionMatch::Exactly => {
                    if c.is_file {
                        if !table_has_key(acc, c.version) {
                            assert(k == acc.len());
                            assert(t[k] == hd);
                            assert(cands[0].is_file);
                        }
                    } else {
                        lemma_scan_dir_entries(requested, rest, acc);
                        assert(scan_dir_spec(requested, rest, acc)[k] == t[k]);
                        lemma_entry_from_tail(cands, requested, t[k]);
                    }
                },
            }
        }
    }
}

/// Every entry the whole scan adds beyond `acc` is witnessed by a
/// candidate of some directory.
pub proof fn lemma_scan_entries(
    requested: RequestedVersion,
    dirs: Seq<Seq<Candidate>>,
    acc: Seq<(DiscoveredVersion, Seq<char>)>,
)
    ensures
        forall|k: int|
            0 <= k < scan_spec(requested, dirs, acc).len() ==> (0 <= k < acc.len()
                && #[trigger] scan_spec(requested, dirs, acc)[k] == acc[k]) || entry_from_dirs(
                dirs,
                requested,
                scan_spec(requested, dirs, acc)[k],
            ),
    decreases dirs.len(),
{
    if dirs.len() > 0 {
        let d0 = dirs[0];
        let rest = dirs.subrange(1, dirs.len() as int);
        let acc2 = scan_dir_spec(requested, d0, acc);
        let t = scan_spec(requested, dirs, acc);
        lemma_scan_dir_entries(requested, d0, acc);
        lemma_scan_entries(requested, rest, acc2);
        assert forall|k: int|
            0 <= k < t.len() && !(0 <= k < acc.len() && t[k] == acc[k]) implies entry_from_dirs(
            dirs,
            requested,
            t[k],
        ) by {
            assert(scan_spec(requested, rest, acc2)[k] == t[k]);
            if 0 <= k < acc2.len() && t[k] == acc2[k] {
                assert(scan_dir_spec(requested, d0, acc)[k] == acc2[k]);
                lemma_entry_from_dirs_head(dirs, requested, t[k]);
            } else {
                lemma_entry_from_dirs_tail(dirs, requested, t[k]);
            }
        }
    }
}

/// The best entry exists exactly when the table is nonempty, sits in the
/// table, and no table entry outranks it.
pub proof fn lemma_best_entry_props(t: Seq<(DiscoveredVersion, Seq<char>)>)
    ensures
        best_entry(t) is Some <==> t.len() > 0,
        best_entry(t) matches Some(e) ==> exists|i: int| 0 <= i < t.len() && t[i] == e,
        best_entry(t) matches Some(e) ==> forall|i: int|
            0 <= i < t.len() ==> !version_lt(e.0, (#[trigger] t[i]).0),
    decreases t.len(),
{
    if t.len() > 0 {
        let p = t.drop_last();
        lemma_best_entry_props(p);
        let e = best_entry(t)->Some_0;
        if p.len() == 0 {
            assert(t[0] == t.last());
            lemma_version_order(e.0, e.0, e.0);
        } else {
            let b = best_entry(p)->Some_0;
            let bi = choose|i: int| 0 <= i < p.len() && p[i] == b;
            assert(t[bi] == b);
            assert forall|i: int| 0 <= i < t.len() implies !version_lt(e.0, (#[trigger] t[i]).0) by {
                if i < t.len() - 1 {
                    assert(t[i] == p[i]);
                    lemma_version_order(b.0, e.0, t[i].0);
                    lemma_version_order(e.0, t[i].0, b.0);
                } else {
                    assert(t[i] == t.last());
                    lemma_version_order(b.0, e.0, t.last().0);
                    lemma_version_order(e.0, t.last().0, b.0);
                }
            }
        }
    }
}

/// A winner is always witnessed by a scanned candidate that is a
/// regular file and compatible with the request; in particular a
/// directory entry whose target is not a regular file is never chosen.
pub proof fn lemma_winner_is_real(requested: RequestedVersion, dirs: Seq<Seq<Candidate>>)
    ensures
        resolve_spec(requested, dirs) matches Some(p) ==> exists|d: int, j: int|
            0 <= d < dirs.len() && 0 <= j < dirs[d].len() && (#[trigger] dirs[d][j]).is_file
                && match_spec(dirs[d][j].version, requested) != VersionMatch::NotAtAll
                && dirs[d][j].path@ == p,
{
    let t = scan_spec(requested, dirs, Seq::empty());
    lemma_best_entry_props(t);
    lemma_scan_entries(requested, dirs, Seq::empty());
    if resolve_spec(requested, dirs) is Some {
        let e = best_entry(t)->Some_0;
        let i = choose|i: int| 0 <= i < t.len() && t[i] == e;
        assert(entry_from_dirs(dirs, requested, t[i]));
        let (d, j) = choose|d: int, j: int|
            0 <= d < dirs.len() && 0 <= j < dirs[d].len() && (#[trigger] dirs[d][j]).is_file
                && match_spec(dirs[d][j].version, requested) != VersionMatch::NotAtAll
                && dirs[d][j].version == e.0 && dirs[d][j].path@ == e.1;
        assert(dirs[d][j].is_file && dirs[d][j].path@ == e.1);
    }
}

/// The resolver picks the highest recorded version: there is a winner
/// exactly when the scan recorded anything, the winner is a recorded
/// entry, and no recorded entry has a greater version.
pub proof fn lemma_resolver_picks_highest(requested: RequestedVersion, dirs: Seq<Seq<Candidate>>)
    ensures
        resolve_spec(requested, dirs) is Some <==> scan_spec(requested, dirs, Seq::empty()).len()
            > 0,
        resolve_spec(requested, dirs) is Some ==> ({
            let t = scan_spec(requested, dirs, Seq::empty());
            let e = best_entry(t)->Some_0;
            &&& resolve_spec(requested, dirs) == Some(e.1)
            &&& exists|i: int| 0 <= i < t.len() && t[i] == e
            &&& forall|i: int| 0 <= i < t.len() ==> !version_lt(e.0, (#[trigger] t[i]).0)
        }),
{
    lemma_best_entry_props(scan_spec(requested, dirs, Seq::empty()));
}

/// One directory's scan only ever adds entries: what `acc` holds stays,
/// in place.
proof fn lemma_scan_dir_extends(
    requested: RequestedVersion,
    cands: Seq<Candidate>,
    acc: Seq<(DiscoveredVersion, Seq<char>)>,
)
    ensures
        scan_dir_spec(requested, cands, acc).len() >= acc.len(),
        forall|i: int|
            0 <= i < acc.len() ==> #[trigger] scan_dir_spec(requested, cands, acc)[i] == acc[i],
    decreases cands.len(),
{
    if cands.len() > 0 {
        let c = cands[0];
        let rest = cands.subrange(1, cands.len() as int);
        match match_spec(c.version, requested) {
            VersionMatch::NotAtAll => {
                lemma_scan_dir_extends(requested, rest, acc);
            },
            VersionMatch::Loosely => {
                if c.is_file && !table_has_key(acc, c.version) {
                    lemma_scan_dir_extends(requested, rest, acc.push((c.version, c.path@)));
                } else {
                    lemma_scan_dir_extends(requested, rest, acc);
                }
            },
            VersionMatch::Exactly => {
                if !c.is_file {
                    lemma_scan_dir_extends(requested, rest, acc);
                }
            },
        }
    }
}

/// The whole scan only ever adds entries: what `acc` holds stays, in
/// place.
pub proof fn lemma_scan_extends(
    requested: RequestedVersion,
    dirs: Seq<Seq<Candidate>>,
    acc: Seq<(DiscoveredVersion, Seq<char>)>,
)
    ensures
        scan_spec(requested, dirs, acc).len() >= acc.len(),
        forall|i: int|
            0 <= i < acc.len() ==> #[trigger] scan_spec(requested, dirs, acc)[i] == acc[i],
    decreases dirs.len(),
{
    if dirs.len() > 0 {
        let acc2 = scan_dir_spec(requested, dirs[0], acc);
        lemma_scan_dir_extends(requested, dirs[0], acc);
        lemma_scan_extends(requested, dirs.subrange(1, dirs.len() as int), acc2);
    }
}

/// As long as a directory's candidates hold no exact file hit, none of
/// its compatible file-backed candidates is passed over.
proof fn lemma_loose_dir_complete(
    requested: RequestedVersion,
    cands: Seq<Candidate>,
    acc: Seq<(DiscoveredVersion, Seq<char>)>,
)
    requires
        forall|j: int|
            0 <= j < cands.len() ==> !(match_spec((#[trigger] cands[j]).version, requested)
                == VersionMatch::Exactly && cands[j].is_file),
    ensures
        forall|j: int|
            0 <= j < cands.len() && (#[trigger] cands[j]).is_file && match_spec(
                cands[j].version,
                requested,
            ) != VersionMatch::NotAtAll ==> table_has_key(
                scan_dir_spec(requested, cands, acc),
                cands[j].version,
            ),
    decreases cands.len(),
{
    if cands.len() > 0 {
        let c = cands[0];
        let rest = cands.subrange(1, cands.len() as int);
        assert forall|j: int|
            0 <= j < rest.len() implies !(match_spec(
            (#[trigger] rest[j]).version,
            requested,
        ) == VersionMatch::Exactly && rest[j].is_file) by {
            assert(rest[j] == cands[j + 1]);
        }
        let acc2 = if match_spec(c.version, requested) == VersionMatch::Loosely && c.is_file
            && !table_has_key(acc, c.version) {
            acc.push((c.version, c.path@))
        } else {
            acc
        };
        lemma_loose_dir_complete(requested, rest, acc2);
        lemma_scan_dir_extends(requested, rest, acc2);
        let t = scan_dir_spec(requested, cands, acc);
        assert(t == scan_dir_spec(requested, rest, acc2));
        assert forall|j: int|
            0 <= j < cands.len() && (#[trigger] cands[j]).is_file && match_spec(
            cands[j].version,
            requested,
        ) != VersionMatch::NotAtAll implies table_has_key(t, cands[j].version) by {
            if j == 0 {
                if table_has_key(acc, c.version) {
                    let i = choose|i: int| 0 <= i < acc.len() && acc[i].0 == c.version;
                    assert(acc2[i] == acc[i]);
                    assert(t[i].0 == c.version);
                } else {
                    assert(acc2[acc.len() as int].0 == c.version);
                    assert(t[acc.len() as int].0 == c.version);
                }
            } else {
                assert(rest[j - 1] == cands[j]);
            }
        }
    }
}

/// As long as no directory holds an exact file hit, no compatible
/// candidate backed by a regular file is passed over anywhere: its
/// version ends up keyed in the table.
pub proof fn lemma_loose_scan_complete(
    requested: RequestedVersion,
    dirs: Seq<Seq<Candidate>>,
    acc: Seq<(DiscoveredVersion, Seq<char>)>,
)
    requires
        forall|d: int, j: int|
            0 <= d < dirs.len() && 0 <= j < dirs[d].len() ==> !(match_spec(
                (#[trigger] dirs[d][j]).version,
                requested,
            ) == VersionMatch::Exactly && dirs[d][j].is_file),
    ensures
        forall|d: int, j: int|
            0 <= d < dirs.len() && 0 <= j < dirs[d].len() && (#[trigger] dirs[d][j]).is_file
                && match_spec(dirs[d][j].version, requested) != VersionMatch::NotAtAll
                ==> table_has_key(scan_spec(requested, dirs, acc), dirs[d][j].version),
    decreases dirs.len(),
{
    if dirs.len() > 0 {
        let d0 = dirs[0];
        let rest = dirs.subrange(1, dirs.len() as int);
        let acc2 = scan_dir_spec(requested, d0, acc);
        let t = scan_spec(requested, dirs, acc);
        assert forall|d: int, j: int|
            0 <= d < rest.len() && 0 <= j < rest[d].len() implies !(match_spec(
            (#[trigger] rest[d][j]).version,
            requested,
        ) == VersionMatch::Exactly && rest[d][j].is_file) by {
            assert(dirs[d + 1] == rest[d]);
        }
        assert forall|j: int|
            0 <= j < d0.len() implies !(match_spec((#[trigger] d0[j]).version, requested)
            == VersionMatch::Exactly && d0[j].is_file) by {
            assert(dirs[0][j] == d0[j]);
        }
        lemma_loose_dir_complete(requested, d0, acc);
        lemma_loose_scan_complete(requested, rest, acc2);
        lemma_scan_extends(requested, rest, acc2);
        assert forall|d: int, j: int|
            0 <= d < dirs.len() && 0 <= j < dirs[d].len() && (#[trigger] dirs[d][j]).is_file
                && match_spec(dirs[d][j].version, requested) != VersionMatch::NotAtAll
            implies table_has_key(t, dirs[d][j].version) by {
            if d == 0 {
                assert(d0[j] == dirs[0][j]);
                assert(table_has_key(acc2, dirs[0][j].version));
                let i = choose|i: int| 0 <= i < acc2.len() && acc2[i].0 == dirs[0][j].version;
                assert(t[i] == acc2[i]);
            } else {
                assert(rest[d - 1] == dirs[d]);
                assert(rest[d - 1][j] == dirs[d][j]);
            }
        }
    }
}

/// With no exact hit in sight the resolver dominates the whole field:
/// if any compatible candidate is backed by a regular file there is a
/// winner, and its version is not below that of any such candidate.
pub proof fn lemma_winner_dominates_candidates(
    requested: RequestedVersion,
    dirs: Seq<Seq<Candidate>>,
)
    requires
        forall|d: int, j: int|
            0 <= d < dirs.len() && 0 <= j < dirs[d].len() ==> !(match_spec(
                (#[trigger] dirs[d][j]).version,
                requested,
            ) == VersionMatch::Exactly && dirs[d][j].is_file),
    ensures
        (exists|d: int, j: int|
            0 <= d < dirs.len() && 0 <= j < dirs[d].len() && (#[trigger] dirs[d][j]).is_file
                && match_spec(dirs[d][j].version, requested) != VersionMatch::NotAtAll)
            ==> resolve_spec(requested, dirs) is Some,
        forall|d: int, j: int|
            0 <= d < dirs.len() && 0 <= j < dirs[d].len() && (#[trigger] dirs[d][j]).is_file
                && match_spec(dirs[d][j].version, requested) != VersionMatch::NotAtAll
                ==> !version_lt(
                best_entry(scan_spec(requested, dirs, Seq::empty()))->Some_0.0,
                dirs[d][j].version,
            ),
{
    let t = scan_spec(requested, dirs, Seq::empty());
    lemma_loose_scan_complete(requested, dirs, Seq::empty());
    lemma_best_entry_props(t);
    assert forall|d: int, j: int|
        0 <= d < dirs.len() && 0 <= j < dirs[d].len() && (#[trigger] dirs[d][j]).is_file
            && match_spec(dirs[d][j].version, requested) != VersionMatch::NotAtAll
        implies !version_lt(best_entry(t)->Some_0.0, dirs[d][j].version) by {
        let i = choose|i: int| 0 <= i < t.len() && t[i].0 == dirs[d][j].version;
        assert(!version_lt(best_entry(t)->Some_0.0, t[i].0));
    }
}

/// Index of the first candidate with version `v` whose target is a
/// regular file, or `cands.len()` if there is none.
pub open spec fn first_exact_file(cands: Seq<Candidate>, v: DiscoveredVersion) -> int
    decreases cands.len(),
{
    if cands.len() == 0 {
        0
    } else if cands[0].version == v && cands[0].is_file {
        0
    } else {
        1 + first_exact_file(cands.subrange(1, cands.len() as int), v)
    }
}

proof fn lemma_first_exact_file_bounds(cands: Seq<Candidate>, v: DiscoveredVersion)
    ensures
        0 <= first_exact_file(cands, v) <= cands.len(),
    decreases cands.len(),
{
    if cands.len() > 0 && !(cands[0].version == v && cands[0].is_file) {
        lemma_first_exact_file_bounds(cands.subrange(1, cands.len() as int), v);
    }
}

/// How the first file-backed hit distributes over concatenation.
proof fn lemma_first_exact_file_concat(a: Seq<Candidate>, b: Seq<Candidate>, v: DiscoveredVersion)
    ensures
        first_exact_file(a, v) < a.len() ==> first_exact_file(a + b, v) == first_exact_file(a, v),
        first_exact_file(a, v) >= a.len() ==> first_exact_file(a + b, v) == a.len()
            + first_exact_file(b, v),
    decreases a.len(),
{
    lemma_first_exact_file_bounds(a, v);
    if a.len() == 0 {
        assert(a + b =~= b);
    } else {
        let t = a + b;
        assert(t[0] == a[0]);
        assert(t.subrange(1, t.len() as int) =~= a.subrange(1, a.len() as int) + b);
        if !(a[0].version == v && a[0].is_file) {
            lemma_first_exact_file_concat(a.subrange(1, a.len() as int), b, v);
        }
    }
}

/// Under an exact request a directory's scan, starting from nothing,
/// records precisely its first file-backed hit of that version.
proof fn lemma_exact_dir_empty(m: u64, n: u64, cands: Seq<Candidate>)
    ensures
        ({
            let v = DiscoveredVersion::Exact(m, n);
            let req = RequestedVersion::Exact(m, n);
            let k = first_exact_file(cands, v);
            &&& k < cands.len() ==> scan_dir_spec(req, cands, Seq::empty()) == seq![
                (v, cands[k].path@),
            ]
            &&& k >= cands.len() ==> scan_dir_spec(req, cands, Seq::empty()) == Seq::<
                (DiscoveredVersion, Seq<char>),
            >::empty()
        }),
    decreases cands.len(),
{
    let v = DiscoveredVersion::Exact(m, n);
    let req = RequestedVersion::Exact(m, n);
    lemma_first_exact_file_bounds(cands, v);
    if cands.len() > 0 {
        let c = cands[0];
        let rest = cands.subrange(1, cands.len() as int);
        if c.version == v && c.is_file {
            assert(match_spec(c.version, req) == VersionMatch::Exactly);
            assert(!table_has_key(Seq::empty(), c.version));
            assert(scan_dir_spec(req, cands, Seq::empty()) =~= seq![(v, c.path@)]);
        } else {
            lemma_exact_dir_empty(m, n, rest);
            lemma_first_exact_file_bounds(rest, v);
            assert(match_spec(c.version, req) != VersionMatch::Loosely);
            assert(scan_dir_spec(req, cands, Seq::empty()) == scan_dir_spec(
                req,
                rest,
                Seq::empty(),
            ));
            let k = first_exact_file(cands, v);
            assert(k == 1 + first_exact_file(rest, v));
            if k < cands.len() {
                assert(cands[k] == rest[k - 1]);
            }
        }
    }
}

/// Under an exact request, once the key is recorded a directory's scan
/// changes nothing.
proof fn lemma_exact_dir_held(
    m: u64,
    n: u64,
    cands: Seq<Candidate>,
    e: (DiscoveredVersion, Seq<char>),
)
    requires
        e.0 == DiscoveredVersion::Exact(m, n),
    ensures
        scan_dir_spec(RequestedVersion::Exact(m, n), cands, seq![e]) == seq![e],
    decreases cands.len(),
{
    let req = RequestedVersion::Exact(m, n);
    if cands.len() > 0 {
        let c = cands[0];
        let rest = cands.subrange(1, cands.len() as int);
        lemma_exact_dir_held(m, n, rest, e);
        assert(match_spec(c.version, req) != VersionMatch::Loosely);
        if match_spec(c.version, req) == VersionMatch::Exactly && c.is_file {
            assert(seq![e][0].0 == c.version);
            assert(table_has_key(seq![e], c.version));
        }
    }
}

/// Under an exact request, once the key is recorded the remaining
/// directories change nothing.
proof fn lemma_exact_dirs_held(
    m: u64,
    n: u64,
    dirs: Seq<Seq<Candidate>>,
    e: (DiscoveredVersion, Seq<char>),
)
    requires
        e.0 == DiscoveredVersion::Exact(m, n),
    ensures
        scan_spec(RequestedVersion::Exact(m, n), dirs, seq![e]) == seq![e],
    decreases dirs.len(),
{
    if dirs.len() > 0 {
        lemma_exact_dir_held(m, n, dirs[0], e);
        lemma_exact_dirs_held(m, n, dirs.subrange(1, dirs.len() as int), e);
    }
}

/// An exact request short-circuits: the winner is the first candidate
/// in path-and-scan order carrying exactly that version and backed by a
/// regular file — a later directory never overrides it — and resolution
/// fails when no such candidate exists.
pub proof fn lemma_exact_request_short_circuits(m: u64, n: u64, dirs: Seq<Seq<Candidate>>)
    ensures
        ({
            let v = DiscoveredVersion::Exact(m, n);
            let req = RequestedVersion::Exact(m, n);
            let flat = dirs.flatten();
            let k = first_exact_file(flat, v);
            &&& 0 <= k <= flat.len()
            &&& k < flat.len() ==> resolve_spec(req, dirs) == Some(flat[k].path@)
            &&& k == flat.len() ==> resolve_spec(req, dirs) is None
        }),
    decreases dirs.len(),
{
    let v = DiscoveredVersion::Exact(m, n);
    let req = RequestedVersion::Exact(m, n);
    let flat = dirs.flatten();
    lemma_first_exact_file_bounds(flat, v);
    if dirs.len() == 0 {
        assert(flat =~= Seq::<Candidate>::empty());
        assert(scan_spec(req, dirs, Seq::empty()) == Seq::<(DiscoveredVersion, Seq<char>)>::empty());
        assert(best_entry(Seq::<(DiscoveredVersion, Seq<char>)>::empty()) is None);
    } else {
        let d0 = dirs[0];
        let rest = dirs.subrange(1, dirs.len() as int);
        assert(dirs.first() == d0);
        assert(dirs.drop_first() =~= rest);
        assert(flat == d0 + rest.flatten());
        lemma_first_exact_file_concat(d0, rest.flatten(), v);
        lemma_first_exact_file_bounds(d0, v);
        lemma_exact_dir_empty(m, n, d0);
        let k0 = first_exact_file(d0, v);
        if k0 < d0.len() {
            let e0 = (v, d0[k0].path@);
            lemma_exact_dirs_held(m, n, rest, e0);
            assert(scan_spec(req, dirs, Seq::empty()) == seq![e0]);
            assert(seq![e0].drop_last() =~= Seq::<(DiscoveredVersion, Seq<char>)>::empty());
            assert(best_entry(Seq::<(DiscoveredVersion, Seq<char>)>::empty()) is None);
            assert(seq![e0].last() == e0);
            assert(best_entry(seq![e0]) == Some(e0));
            assert(flat[k0] == d0[k0]);
        } else {
            lemma_exact_request_short_circuits(m, n, rest);
            assert(scan_spec(req, dirs, Seq::empty()) == scan_spec(req, rest, Seq::empty()));
            let kr = first_exact_file(rest.flatten(), v);
            lemma_first_exact_file_bounds(rest.flatten(), v);
            if kr < rest.flatten().len() {
                assert(flat[d0.len() + kr] == rest.flatten()[kr]);
            }
        }
    }
}

fn table_contains_key(t: &Vec<(DiscoveredVersion, String)>, v: DiscoveredVersion) -> (r: bool)
    ensures
        r == table_has_key(entry_views(t@), v),
{
    let mut i: usize = 0;
    while i < t.len()
        invariant
            0 <= i <= t.len(),
            forall|j: int| 0 <= j < i ==> #[trigger] t@[j].0 != v,
        decreases t.len() - i,
    {
        if t[i].0 == v {
            proof {
                assert(entry_views(t@)[i as int].0 == v);
            }
            return true;
        }
        i = i + 1;
    }
    proof {
        assert forall|j: int| 0 <= j < entry_views(t@).len() implies #[trigger] entry_views(
            t@,
        )[j].0 != v by {
            assert(t@[j].0 != v);
        }
    }
    false
}

/// Builds the resolution table for `requested` over the candidates of
/// each directory, in order; an exact hit skips the rest of its own
/// directory only.
fn collect_table(requested: RequestedVersion, dirs: &Vec<Vec<Candidate>>) -> (r: Vec<
    (DiscoveredVersion, String),
>)
    ensures
        entry_views(r@) == scan_spec(requested, dir_views(dirs@), Seq::empty()),
{
    let ghost views = dir_views(dirs@);
    let ghost goal = scan_spec(requested, views, Seq::empty());
    let mut table: Vec<(DiscoveredVersion, String)> = Vec::new();
    let mut di: usize = 0;
    proof {
        assert(views.subrange(0, views.len() as int) =~= views);
        assert(entry_views(table@) =~= Seq::<(DiscoveredVersion, Seq<char>)>::empty());
    }
    while di < dirs.len()
        invariant
            0 <= di <= dirs.len(),
            views == dir_views(dirs@),
            goal == scan_spec(requested, views, Seq::empty()),
            scan_spec(
                requested,
                views.subrange(di as int, views.len() as int),
                entry_views(table@),
            ) == goal,
        decreases dirs.len() - di,
    {
        let dir = &dirs[di];
        let n = dir.len();
        proof {
            let suffix = views.subrange(di as int, views.len() as int);
            assert(suffix[0] == dir@);
            assert(suffix.subrange(1, suffix.len() as int) =~= views.subrange(
                di as int + 1,
                views.len() as int,
            ));
            assert(dir@.subrange(0, n as int) =~= dir@);
        }
        let mut ci: usize = 0;
        let mut stop = false;
        while ci < n && !stop
            invariant
                0 <= ci <= n == dir@.len(),
                dir@ == views[di as int],
                0 <= di < views.len(),
                !stop ==> scan_spec(
                    requested,
                    views.subrange(di as int + 1, views.len() as int),
                    scan_dir_spec(
                        requested,
                        dir@.subrange(ci as int, n as int),
                        entry_views(table@),
                    ),
                ) == goal,
                stop ==> scan_spec(
                    requested,
                    views.subrange(di as int + 1, views.len() as int),
                    entry_views(table@),
                ) == goal,
            decreases n - ci,
        {
            let c = &dir[ci];
            let ghost rem = dir@.subrange(ci as int, n as int);
            proof {
                assert(rem[0] == dir@[ci as int]);
                assert(rem.subrange(1, rem.len() as int) =~= dir@.subrange(
                    ci as int + 1,
                    n as int,
                ));
            }
            match c.version.matches(&requested) {
                VersionMatch::NotAtAll => {},
                VersionMatch::Loosely => {
                    if c.is_file && !table_contains_key(&table, c.version) {
                        let ghost prev = entry_views(table@);
                        table.push((c.version, c.path.clone()));
                        proof {
                            assert(entry_views(table@) =~= prev.push((c.version, c.path@)));
                        }
                    }
                },
                VersionMatch::Exactly => {
                    if c.is_file {
                        if !table_contains_key(&table, c.version) {
                            let ghost prev = entry_views(table@);
                            table.push((c.version, c.path.clone()));
                            proof {
                                assert(entry_views(table@) =~= prev.push((c.version, c.path@)));
                            }
                        }
                        stop = true;
                    }
                },
            }
            ci = ci + 1;
        }
        proof {
            if !stop {
                assert(dir@.subrange(ci as int, n as int) =~= Seq::<Candidate>::empty());
            }
        }
        di = di + 1;
    }
    proof {
        assert(views.subrange(di as int, views.len() as int) =~= Seq::<Seq<Candidate>>::empty());
    }
    table
}

/// The resolution table over all directories for `requested`: every
/// compatible interpreter that was recorded, keyed by version.
pub fn all_executables(dirs: &Vec<Vec<Candidate>>) -> (r: Vec<(DiscoveredVersion, String)>)
    ensures
        entry_views(r@) == scan_spec(RequestedVersion::Any, dir_views(dirs@), Seq::empty()),
{
    collect_table(RequestedVersion::Any, dirs)
}

/// Resolves `requested` against the candidates found along the search
/// path: at most one winning path, the recorded entry with the greatest
/// version.
pub fn find_executable(requested: RequestedVersion, dirs: &Vec<Vec<Candidate>>) -> (r: Option<
    String,
>)
    ensures
        match r {
            Some(p) => resolve_spec(requested, dir_views(dirs@)) == Some(p@),
            None => resolve_spec(requested, dir_views(dirs@)) is None,
        },
{
    let table = collect_table(requested, dirs);
    if table.len() == 0 {
        return None;
    }
    let ghost tv = entry_views(table@);
    let mut bi: usize = 0;
    let mut i: usize = 1;
    proof {
        assert(best_entry(Seq::<(DiscoveredVersion, Seq<char>)>::empty()) is None);
        assert(tv.subrange(0, 1).drop_last() =~= Seq::<(DiscoveredVersion, Seq<char>)>::empty());
        assert(tv.subrange(0, 1).last() == tv[0]);
        assert(best_entry(tv.subrange(0, 1)) == Some(tv[0]));
    }
    while i < table.len()
        invariant
            0 <= bi < i <= table.len(),
            tv == entry_views(table@),
            table@.len() == tv.len(),
            best_entry(tv.subrange(0, i as int)) == Some(tv[bi as int]),
        decreases table.len() - i,
    {
        proof {
            assert(tv.subrange(0, i as int + 1).drop_last() =~= tv.subrange(0, i as int));
            assert(tv.subrange(0, i as int + 1).last() == tv[i as int]);
        }
        if table[bi].0.less_than(&table[i].0) {
            bi = i;
        }
        i = i + 1;
    }
    proof {
        assert(tv.subrange(0, i as int) =~= tv);
    }
    Some(table[bi].1.clone())
}

} // verus!
