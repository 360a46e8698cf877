//! The version model: requested and discovered interpreter versions,
//! the textual fragment grammar, compatibility classification and the
//! total order used to rank discovered versions.

use crate::text::{
    all_digits, digits_of, first_index_of, format_u64, is_canonical_number, is_digit_char,
    lemma_digits_of_seq_val, lemma_first_index_of, lemma_first_index_of_at, parse_u64_in, seq_val,
};
use vstd::prelude::*;

verus! {

/// A version constraint stated by the caller: no constraint, a major
/// version alone, or an exact major.minor pair.
#[derive(Clone, Copy, Debug, PartialEq, Eq, Hash, Structural)]
pub enum RequestedVersion {
    Any,
    MajorOnly(u64),
    Exact(u64, u64),
}

/// A version read off an installed executable's file name: `pythonX`
/// gives `MajorOnly`, `pythonX.Y` gives `Exact`.
#[derive(Clone, Copy, Debug, PartialEq, Eq, Hash, Structural)]
pub enum DiscoveredVersion {
    MajorOnly(u64),
    Exact(u64, u64),
}

/// How well a discovered version satisfies a requested one.
#[derive(Clone, Copy, Debug, PartialEq, Eq, Structural)]
pub enum VersionMatch {
    NotAtAll,
    Loosely,
    Exactly,
}

/// The version denoted by a textual fragment: empty means `Any`,
/// `<major>` and `<major>.<minor>` mean the two constrained forms, and
/// every other shape (a third component, a non-digit, an empty
/// component, a number beyond `u64`) fails.
pub open spec fn parse_spec(s: Seq<char>) -> Option<RequestedVersion> {
    if s.len() == 0 {
        Some(RequestedVersion::Any)
    } else {
        let d = first_index_of(s, '.');
        if d == s.len() {
            if all_digits(s) && seq_val(s) <= u64::MAX {
                Some(RequestedVersion::MajorOnly(seq_val(s) as u64))
            } else {
                None
            }
        } else {
            let major = s.subrange(0, d);
            let minor = s.subrange(d + 1, s.len() as int);
            if major.len() > 0 && minor.len() > 0 && all_digits(major) && all_digits(minor)
                && seq_val(major) <= u64::MAX && seq_val(minor) <= u64::MAX {
                Some(
                    RequestedVersion::Exact(seq_val(major) as u64, seq_val(minor) as u64),
                )
            } else {
                None
            }
        }
    }
}

/// Canonical rendering of a requested version; `Any` renders as the
/// empty fragment.
pub open spec fn format_requested(v: RequestedVersion) -> Seq<char> {
    match v {
        RequestedVersion::Any => Seq::empty(),
        RequestedVersion::MajorOnly(m) => digits_of(m as nat),
        RequestedVersion::Exact(m, n) => digits_of(m as nat) + seq!['.'] + digits_of(n as nat),
    }
}

/// Rendering of a discovered version; an absent minor displays as zero.
pub open spec fn format_discovered(v: DiscoveredVersion) -> Seq<char> {
    match v {
        DiscoveredVersion::MajorOnly(m) => digits_of(m as nat) + seq!['.'] + seq!['0'],
        DiscoveredVersion::Exact(m, n) => digits_of(m as nat) + seq!['.'] + digits_of(n as nat),
    }
}

/// Classification of a (discovered, requested) pair.  `Any` is loosely
/// satisfied by everything; a major-only request is exactly satisfied
/// by the same bare major and loosely by any exact version under that
/// major; an exact request admits only the identical exact version.
pub open spec fn match_spec(discovered: DiscoveredVersion, requested: RequestedVersion) -> VersionMatch {
    match requested {
        RequestedVersion::Any => VersionMatch::Loosely,
        RequestedVersion::MajorOnly(m) => match discovered {
            DiscoveredVersion::MajorOnly(dm) => if dm == m {
                VersionMatch::Exactly
            } else {
                VersionMatch::NotAtAll
            },
            DiscoveredVersion::Exact(dm, _) => if dm == m {
                VersionMatch::Loosely
            } else {
                VersionMatch::NotAtAll
            },
        },
        RequestedVersion::Exact(m, n) => match discovered {
            DiscoveredVersion::MajorOnly(_) => VersionMatch::NotAtAll,
            DiscoveredVersion::Exact(dm, dn) => if dm == m && dn == n {
                VersionMatch::Exactly
            } else {
                VersionMatch::NotAtAll
            },
        },
    }
}

pub open spec fn major_of(v: DiscoveredVersion) -> u64 {
    match v {
        DiscoveredVersion::MajorOnly(m) => m,
        DiscoveredVersion::Exact(m, _) => m,
    }
}

pub open spec fn rank_of(v: DiscoveredVersion) -> nat {
    match v {
        DiscoveredVersion::MajorOnly(_) => 0,
        DiscoveredVersion::Exact(_, _) => 1,
    }
}

pub open spec fn minor_of(v: DiscoveredVersion) -> u64 {
    match v {
        DiscoveredVersion::MajorOnly(_) => 0,
        DiscoveredVersion::Exact(_, n) => n,
    }
}

/// Strict total order on discovered versions: by major first; for one
/// major a bare `MajorOnly` sorts below every `Exact`, and two `Exact`
/// versions compare by minor.
pub open spec fn version_lt(a: DiscoveredVersion, b: DiscoveredVersion) -> bool {
    ||| major_of(a) < major_of(b)
    ||| (major_of(a) == major_of(b) && rank_of(a) < rank_of(b))
    ||| (major_of(a) == major_of(b) && rank_of(a) == rank_of(b) && minor_of(a) < minor_of(b))
}

/// `version_lt` is a strict total order.
pub proof fn lemma_version_order(a: DiscoveredVersion, b: DiscoveredVersion, c: DiscoveredVersion)
    ensures
        version_lt(a, b) || version_lt(b, a) || a == b,
        !(version_lt(a, b) && version_lt(b, a)),
        !version_lt(a, a),
        version_lt(a, b) && version_lt(b, c) ==> version_lt(a, c),
{
}

impl RequestedVersion {
    /// Parses a version fragment; `None` exactly on the shapes the
    /// grammar rejects.
    pub fn parse(s: &str) -> (r: Option<RequestedVersion>)
        ensures
            r == parse_spec(s@),
    {
        let n = s.unicode_len();
        if n == 0 {
            return Some(RequestedVersion::Any);
        }
        let mut d: usize = 0;
        while d < n && s.get_char(d) != '.'
            invariant
                0 <= d <= n == s@.len(),
                forall|j: int| 0 <= j < d ==> #[trigger] s@[j] != '.',
            decreases n - d,
        {
            d = d + 1;
        }
        proof {
            lemma_first_index_of_at(s@, '.', d as int);
        }
        if d == n {
            if !crate::text::all_digits_in(s, 0, n) {
                proof {
                    assert(s@.subrange(0, n as int) =~= s@);
                }
                return None;
            }
            proof {
                assert(s@.subrange(0, n as int) =~= s@);
            }
            match parse_u64_in(s, 0, n) {
                Some(v) => Some(RequestedVersion::MajorOnly(v)),
                None => None,
            }
        } else {
            if d == 0 || d + 1 == n {
                return None;
            }
            if !crate::text::all_digits_in(s, 0, d) || !crate::text::all_digits_in(s, d + 1, n) {
                return None;
            }
            let major = match parse_u64_in(s, 0, d) {
                Some(v) => v,
                None => {
                    return None;
                },
            };
            let minor = match parse_u64_in(s, d + 1, n) {
                Some(v) => v,
                None => {
                    return None;
                },
            };
            Some(RequestedVersion::Exact(major, minor))
        }
    }

    /// Renders the fragment this version parses from.
    pub fn format(&self) -> (r: String)
        ensures
            r@ == format_requested(*self),
    {
        match self {
            RequestedVersion::Any => {
                let r = String::new();
                proof {
                    assert(r@ =~= format_requested(*self));
                }
                r
            },
            RequestedVersion::MajorOnly(m) => format_u64(*m),
            RequestedVersion::Exact(m, n) => {
                let mut r = format_u64(*m);
                r.append(".");
                let minor = format_u64(*n);
                r.append(minor.as_str());
                proof {
                    reveal_strlit(".");
                    assert("."@ =~= seq!['.']);
                    assert(r@ =~= format_requested(*self));
                }
                r
            },
        }
    }
}

impl DiscoveredVersion {
    /// Classifies how well this discovered version satisfies `requested`.
    pub fn matches(&self, requested: &RequestedVersion) -> (r: VersionMatch)
        ensures
            r == match_spec(*self, *requested),
    {
        match requested {
            RequestedVersion::Any => VersionMatch::Loosely,
            RequestedVersion::MajorOnly(m) => match self {
                DiscoveredVersion::MajorOnly(dm) => if dm == m {
                    VersionMatch::Exactly
                } else {
                    VersionMatch::NotAtAll
                },
                DiscoveredVersion::Exact(dm, _) => if dm == m {
                    VersionMatch::Loosely
                } else {
                    VersionMatch::NotAtAll
                },
            },
            RequestedVersion::Exact(m, n) => match self {
                DiscoveredVersion::MajorOnly(_) => VersionMatch::NotAtAll,
                DiscoveredVersion::Exact(dm, dn) => if dm == m && dn == n {
                    VersionMatch::Exactly
                } else {
                    VersionMatch::NotAtAll
                },
            },
        }
    }

    /// Strict comparison under the ranking order.
    pub fn less_than(&self, other: &DiscoveredVersion) -> (r: bool)
        ensures
            r == version_lt(*self, *other),
    {
        let (am, ar, an): (u64, u64, u64) = match self {
            DiscoveredVersion::MajorOnly(m) => (*m, 0, 0),
            DiscoveredVersion::Exact(m, n) => (*m, 1, *n),
        };
        let (bm, br, bn): (u64, u64, u64) = match other {
            DiscoveredVersion::MajorOnly(m) => (*m, 0, 0),
            DiscoveredVersion::Exact(m, n) => (*m, 1, *n),
        };
        am < bm || (am == bm && ar < br) || (am == bm && ar == br && an < bn)
    }

    /// Renders this version for the listing; an absent minor shows as `.0`.
    pub fn format(&self) -> (r: String)
        ensures
            r@ == format_discovered(*self),
    {
        let (m, n): (u64, u64) = match self {
            DiscoveredVersion::MajorOnly(m) => (*m, 0),
            DiscoveredVersion::Exact(m, n) => (*m, *n),
        };
        let mut r = format_u64(m);
        r.append(".");
        let minor = format_u64(n);
        r.append(minor.as_str());
        proof {
            reveal_strlit(".");
            assert("."@ =~= seq!['.']);
            crate::text::lemma_digits_of_canonical(0);
            assert(r@ =~= format_discovered(*self));
        }
        r
    }
}

/// A fragment in canonical form: empty, a single number without a
/// leading zero that fits in `u64`, or two such numbers joined by a dot.
pub open spec fn is_canonical_fragment(s: Seq<char>) -> bool {
    ||| s.len() == 0
    ||| is_canonical_number(s)
    ||| {
        let d = first_index_of(s, '.');
        &&& d < s.len()
        &&& is_canonical_number(s.subrange(0, d))
        &&& is_canonical_number(s.subrange(d + 1, s.len() as int))
    }
}

/// Round trip: every canonical fragment parses, and rendering the
/// parsed version gives the fragment back unchanged.  (A fragment with
/// a leading zero, such as `042`, parses but renders without the zero,
/// so only canonical fragments round-trip.)
pub proof fn lemma_format_parse_round_trip(s: Seq<char>)
    requires
        is_canonical_fragment(s),
    ensures
        parse_spec(s) is Some,
        format_requested(parse_spec(s)->Some_0) == s,
{
    lemma_first_index_of(s, '.');
    let d = first_index_of(s, '.');
    if s.len() == 0 {
        assert(format_requested(RequestedVersion::Any) =~= s);
    } else if is_canonical_number(s) {
        assert(d == s.len()) by {
            if d < s.len() {
                assert(is_digit_char(s[d]));
            }
        }
        lemma_digits_of_seq_val(s);
    } else {
        let major = s.subrange(0, d);
        let minor = s.subrange(d + 1, s.len() as int);
        lemma_digits_of_seq_val(major);
        lemma_digits_of_seq_val(minor);
        assert(s[d] == '.');
        assert(format_requested(parse_spec(s)->Some_0) =~= major + seq!['.'] + minor);
        assert(major + seq!['.'] + minor =~= s);
    }
}

/// Every discovered version loosely satisfies an unconstrained request.
pub proof fn lemma_any_is_loose(discovered: DiscoveredVersion)
    ensures
        match_spec(discovered, RequestedVersion::Any) == VersionMatch::Loosely,
{
}

} // verus!
