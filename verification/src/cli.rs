//! The command-line front: deciding, from the argument vector and the
//! scanned search path, which action the launcher takes — print help,
//! print the listing of discovered interpreters, or execute one.

use crate::resolve::{
    all_executables, dir_views, entry_views, find_executable, resolve_spec, scan_spec, Candidate,
};
use crate::text::str_eq;
use crate::version::{format_discovered, parse_spec, version_lt, DiscoveredVersion, RequestedVersion};
use vstd::prelude::*;

verus! {

/// What the launcher should do.
#[derive(Debug, PartialEq)]
pub enum Action {
    /// Print a help message; the path is the interpreter an
    /// unconstrained run would pick.
    Help(String, String),
    /// Print the listing of every discovered interpreter.
    List(String),
    /// Replace the process with `executable`, passing `args`.
    Execute { launcher_path: String, executable: String, args: Vec<String> },
}

/// The version named by a command-line flag: a leading dash followed by
/// a version fragment.
pub open spec fn version_from_flag_spec(arg: Seq<char>) -> Option<RequestedVersion> {
    if arg.len() == 0 || arg[0] != '-' {
        None
    } else {
        parse_spec(arg.subrange(1, arg.len() as int))
    }
}

/// Attempts to read a version specifier such as `-3` or `-3.6` from a
/// command-line argument passed as-is.
pub fn version_from_flag(arg: &str) -> (r: Option<RequestedVersion>)
    ensures
        r == version_from_flag_spec(arg@),
{
    let n = arg.unicode_len();
    if n == 0 {
        return None;
    }
    if arg.get_char(0) != '-' {
        return None;
    }
    let rest = arg.substring_char(1, n);
    RequestedVersion::parse(rest)
}

/// The environment root joined with `bin/python`, adding the separator
/// only when the root does not already end in one; an empty root gives
/// the relative path.
pub open spec fn venv_python_path(root: Seq<char>) -> Seq<char> {
    if root.len() == 0 {
        "bin/python"@
    } else if root.last() == '/' {
        root + "bin/python"@
    } else {
        root + "/bin/python"@
    }
}

/// The interpreter inside an activated virtual environment: its root
/// with `bin/python` joined on; nothing without an active environment.
pub fn activated_venv_executable(venv_root: &Option<String>) -> (r: Option<String>)
    ensures
        match r {
            Some(p) => venv_root matches Some(root) && p@ == venv_python_path(root@),
            None => venv_root is None,
        },
{
    match venv_root {
        None => None,
        Some(root) => {
            let n = root.as_str().unicode_len();
            if n == 0 {
                Some("bin/python".to_owned())
            } else if root.as_str().get_char(n - 1) == '/' {
                let mut p = root.clone();
                p.append("bin/python");
                Some(p)
            } else {
                let mut p = root.clone();
                p.append("/bin/python");
                Some(p)
            }
        },
    }
}

/// Insertion of a table entry in front of the first strictly greater
/// one, keeping earlier equal versions ahead.
pub open spec fn insert_entry(
    e: (DiscoveredVersion, Seq<char>),
    t: Seq<(DiscoveredVersion, Seq<char>)>,
) -> Seq<(DiscoveredVersion, Seq<char>)>
    decreases t.len(),
{
    if t.len() == 0 {
        seq![e]
    } else if version_lt(e.0, t[0].0) {
        seq![e] + t
    } else {
        seq![t[0]] + insert_entry(e, t.subrange(1, t.len() as int))
    }
}

/// The table sorted by version, one entry after the other.
pub open spec fn sort_entries(t: Seq<(DiscoveredVersion, Seq<char>)>) -> Seq<
    (DiscoveredVersion, Seq<char>),
>
    decreases t.len(),
{
    if t.len() == 0 {
        Seq::empty()
    } else {
        insert_entry(t.last(), sort_entries(t.drop_last()))
    }
}

proof fn lemma_insert_entry_at(
    e: (DiscoveredVersion, Seq<char>),
    t: Seq<(DiscoveredVersion, Seq<char>)>,
    pos: int,
)
    requires
        0 <= pos <= t.len(),
        forall|i: int| 0 <= i < pos ==> !version_lt(e.0, (#[trigger] t[i]).0),
        pos < t.len() ==> version_lt(e.0, t[pos].0),
    ensures
        insert_entry(e, t) =~= t.subrange(0, pos) + seq![e] + t.subrange(pos, t.len() as int),
    decreases pos,
{
    if pos == 0 {
        if t.len() > 0 {
            assert(version_lt(e.0, t[0].0));
        }
        assert(t.subrange(0, 0) =~= Seq::<(DiscoveredVersion, Seq<char>)>::empty());
        assert(t.subrange(0, t.len() as int) =~= t);
    } else {
        assert(!version_lt(e.0, t[0].0));
        let rest = t.subrange(1, t.len() as int);
        assert forall|i: int| 0 <= i < pos - 1 implies !version_lt(e.0, (#[trigger] rest[i]).0) by {
            assert(rest[i] == t[i + 1]);
        }
        lemma_insert_entry_at(e, rest, pos - 1);
    }
}

/// Sorts the discovered executables by version, keeping scan order
/// among equal versions.
fn sort_executables(list: &Vec<(DiscoveredVersion, String)>) -> (r: Vec<(DiscoveredVersion, String)>)
    ensures
        entry_views(r@) == sort_entries(entry_views(list@)),
{
    let ghost lv = entry_views(list@);
    let mut out: Vec<(DiscoveredVersion, String)> = Vec::new();
    let mut i: usize = 0;
    proof {
        assert(entry_views(out@) =~= sort_entries(lv.subrange(0, 0)));
    }
    while i < list.len()
        invariant
            0 <= i <= list.len(),
            lv == entry_views(list@),
            entry_views(out@) == sort_entries(lv.subrange(0, i as int)),
        decreases list.len() - i,
    {
        let v = list[i].0;
        let ghost e = (v, list@[i as int].1@);
        let mut pos: usize = 0;
        while pos < out.len() && !v.less_than(&out[pos].0)
            invariant
                0 <= pos <= out.len(),
                forall|k: int| 0 <= k < pos ==> !version_lt(v, (#[trigger] out@[k]).0),
            decreases out.len() - pos,
        {
            pos = pos + 1;
        }
        proof {
            let ov = entry_views(out@);
            assert forall|k: int| 0 <= k < pos implies !version_lt(e.0, (#[trigger] ov[k]).0) by {
                assert(ov[k].0 == out@[k].0);
            }
            if pos < out.len() {
                assert(ov[pos as int].0 == out@[pos as int].0);
            }
            lemma_insert_entry_at(e, ov, pos as int);
        }
        let ghost prev = entry_views(out@);
        out.insert(pos, (v, list[i].1.clone()));
        proof {
            assert(entry_views(out@) =~= prev.subrange(0, pos as int) + seq![e] + prev.subrange(
                pos as int,
                prev.len() as int,
            ));
            assert(lv.subrange(0, i as int + 1).drop_last() =~= lv.subrange(0, i as int));
            assert(lv.subrange(0, i as int + 1).last() == e);
        }
        i = i + 1;
    }
    proof {
        assert(lv.subrange(0, i as int) =~= lv);
    }
    out
}

/// `s` padded on the right with spaces to width `w` (unchanged when
/// already that wide).
pub open spec fn pad_to(s: Seq<char>, w: int) -> Seq<char> {
    if s.len() >= w {
        s
    } else {
        s + Seq::new((w - s.len()) as nat, |i: int| ' ')
    }
}

fn pad(s: String, w: usize) -> (r: String)
    ensures
        r@ == pad_to(s@, w as int),
{
    let ghost orig = s@;
    let mut s = s;
    let mut k = s.as_str().unicode_len();
    if k >= w {
        return s;
    }
    while k < w
        invariant
            orig.len() <= k <= w,
            s@ == orig + Seq::new((k - orig.len()) as nat, |i: int| ' '),
        decreases w - k,
    {
        s.append(" ");
        proof {
            reveal_strlit(" ");
            assert(Seq::new((k + 1 - orig.len()) as nat, |i: int| ' ') =~= Seq::new(
                (k - orig.len()) as nat,
                |i: int| ' ',
            ) + " "@);
        }
        k = k + 1;
    }
    s
}

/// Width of the listing's version column: the widest rendered version,
/// and never narrower than its header.
pub open spec fn listing_width(t: Seq<(DiscoveredVersion, Seq<char>)>) -> int
    decreases t.len(),
{
    if t.len() == 0 {
        "Version"@.len() as int
    } else {
        let rest = listing_width(t.drop_last());
        let l = format_discovered(t.last().0).len() as int;
        if l > rest {
            l
        } else {
            rest
        }
    }
}

/// One listing row: the rendered version padded to the column width,
/// two spaces, the path, a newline.
pub open spec fn row_spec(e: (DiscoveredVersion, Seq<char>), w: int) -> Seq<char> {
    pad_to(format_discovered(e.0), w) + "  "@ + e.1 + "\n"@
}

pub open spec fn rows_spec(t: Seq<(DiscoveredVersion, Seq<char>)>, w: int) -> Seq<char>
    decreases t.len(),
{
    if t.len() == 0 {
        Seq::empty()
    } else {
        rows_spec(t.drop_last(), w) + row_spec(t.last(), w)
    }
}

/// The whole listing: header, underline, one row per entry.
pub open spec fn listing_spec(t: Seq<(DiscoveredVersion, Seq<char>)>) -> Seq<char> {
    let w = listing_width(t);
    pad_to("Version"@, w) + "  Path\n"@ + pad_to("======="@, w) + "  ====\n"@ + rows_spec(t, w)
}

/// Renders the table of discovered executables, sorted by version;
/// an empty table is an error, not an empty listing.
pub fn list_executables(executables: &Vec<(DiscoveredVersion, String)>) -> (r: Result<
    String,
    String,
>)
    ensures
        match r {
            Ok(s) => executables@.len() > 0 && s@ == listing_spec(
                sort_entries(entry_views(executables@)),
            ),
            Err(m) => executables@.len() == 0 && m@ == "No Python executable found"@,
        },
{
    if executables.len() == 0 {
        return Err("No Python executable found".to_owned());
    }
    let sorted = sort_executables(executables);
    let ghost t = entry_views(sorted@);
    let mut w: usize = "Version".unicode_len();
    let mut i: usize = 0;
    proof {
        assert(t.subrange(0, 0) =~= Seq::<(DiscoveredVersion, Seq<char>)>::empty());
    }
    while i < sorted.len()
        invariant
            0 <= i <= sorted.len(),
            t == entry_views(sorted@),
            w == listing_width(t.subrange(0, i as int)),
        decreases sorted.len() - i,
    {
        let f = sorted[i].0.format();
        let l = f.as_str().unicode_len();
        proof {
            assert(t.subrange(0, i as int + 1).drop_last() =~= t.subrange(0, i as int));
            assert(t.subrange(0, i as int + 1).last() == t[i as int]);
            assert(t[i as int].0 == sorted@[i as int].0);
        }
        if l > w {
            w = l;
        }
        i = i + 1;
    }
    proof {
        assert(t.subrange(0, i as int) =~= t);
    }
    let mut s = pad("Version".to_owned(), w);
    s.append("  Path\n");
    let underline = pad("=======".to_owned(), w);
    s.append(underline.as_str());
    s.append("  ====\n");
    let ghost header = pad_to("Version"@, w as int) + "  Path\n"@ + pad_to("======="@, w as int)
        + "  ====\n"@;
    proof {
        assert(s@ =~= header);
        assert(rows_spec(t.subrange(0, 0), w as int) =~= Seq::<char>::empty());
        assert(s@ =~= header + rows_spec(t.subrange(0, 0), w as int));
    }
    let mut i: usize = 0;
    while i < sorted.len()
        invariant
            0 <= i <= sorted.len(),
            t == entry_views(sorted@),
            w == listing_width(t),
            s@ == header + rows_spec(t.subrange(0, i as int), w as int),
            header == pad_to("Version"@, w as int) + "  Path\n"@ + pad_to("======="@, w as int)
                + "  ====\n"@,
        decreases sorted.len() - i,
    {
        proof {
            assert(t[i as int].0 == sorted@[i as int].0);
            assert(t[i as int].1 == sorted@[i as int].1@);
        }
        let f = sorted[i].0.format();
        let cell = pad(f, w);
        s.append(cell.as_str());
        s.append("  ");
        s.append(sorted[i].1.as_str());
        s.append("\n");
        proof {
            assert(t.subrange(0, i as int + 1).drop_last() =~= t.subrange(0, i as int));
            assert(t.subrange(0, i as int + 1).last() == t[i as int]);
            assert(s@ =~= header + rows_spec(t.subrange(0, i as int + 1), w as int));
        }
        i = i + 1;
    }
    proof {
        assert(t.subrange(0, i as int) =~= t);
    }
    Ok(s)
}

/// The help text: usage built around the launcher's own path and the
/// interpreter an unconstrained run would pick.
pub open spec fn help_message(launcher: Seq<char>, exe: Seq<char>) -> Seq<char> {
    "Python Launcher\n\nUsage: "@ + launcher
        + " [-h|--help] [--list] [-<version>] [args]\n\nDefault executable: "@ + exe + "\n"@
}

fn help(launcher_path: &str, dirs: &Vec<Vec<Candidate>>) -> (r: Result<(String, String), String>)
    ensures
        match r {
            Ok(p) => resolve_spec(RequestedVersion::Any, dir_views(dirs@)) == Some(p.1@)
                && p.0@ == help_message(launcher_path@, p.1@),
            Err(m) => resolve_spec(RequestedVersion::Any, dir_views(dirs@)) is None && m@
                == "no Python executable found"@,
        },
{
    match find_executable(RequestedVersion::Any, dirs) {
        Some(found_path) => {
            let mut message = "Python Launcher\n\nUsage: ".to_owned();
            message.append(launcher_path);
            message.append(" [-h|--help] [--list] [-<version>] [args]\n\nDefault executable: ");
            message.append(found_path.as_str());
            message.append("\n");
            proof {
                assert(message@ =~= help_message(launcher_path@, found_path@));
            }
            Ok((message, found_path))
        },
        None => Err("no Python executable found".to_owned()),
    }
}

pub open spec fn arg_views(args: Seq<String>) -> Seq<Seq<char>> {
    args.map_values(|a: String| a@)
}

fn args_from(argv: &[String], start: usize) -> (r: Vec<String>)
    requires
        start <= argv@.len(),
    ensures
        arg_views(r@) == arg_views(argv@.skip(start as int)),
{
    let mut out: Vec<String> = Vec::new();
    let mut i: usize = start;
    proof {
        assert(arg_views(out@) =~~= arg_views(argv@.skip(start as int)).subrange(0, 0));
    }
    while i < argv.len()
        invariant
            start <= i <= argv@.len(),
            arg_views(out@) == arg_views(argv@.skip(start as int)).subrange(
                0,
                i - start,
            ),
        decreases argv@.len() - i,
    {
        let a = argv[i].clone();
        proof {
            let tail = arg_views(argv@.skip(start as int));
            assert(tail[i - start] == argv@[i as int]@);
            assert(arg_views(out@.push(argv@[i as int])) =~~= arg_views(out@).push(
                argv@[i as int]@,
            ));
            assert(tail.subrange(0, i - start + 1) =~~= tail.subrange(0, i - start).push(
                tail[i - start],
            ));
        }
        out.push(a);
        i = i + 1;
    }
    proof {
        let tail = arg_views(argv@.skip(start as int));
        assert(tail.subrange(0, tail.len() as int) =~~= tail);
    }
    out
}

pub open spec fn is_help_flag(a: Seq<char>) -> bool {
    a == "-h"@ || a == "--help"@
}

pub open spec fn is_list_flag(a: Seq<char>) -> bool {
    a == "--list"@
}

impl Action {
    /// Decides the launcher's action from its argument vector (the
    /// launcher's own path first) and the scanned search path: help or
    /// listing when the first argument asks for them; otherwise resolve
    /// the version named by a leading version flag — or any version —
    /// and execute the winner with the remaining arguments.
    pub fn from_main(argv: &[String], dirs: &Vec<Vec<Candidate>>) -> (r: Result<Action, String>)
        requires
            argv@.len() >= 1,
        ensures
            ({
                let rest = argv@.skip(1);
                let flat = dir_views(dirs@);
                if rest.len() > 0 && is_help_flag(rest[0]@) {
                    match r {
                        Ok(a) => match a {
                            Action::Help(msg, exe) => resolve_spec(RequestedVersion::Any, flat)
                                == Some(exe@) && msg@ == help_message(argv@[0]@, exe@),
                            _ => false,
                        },
                        Err(m) => resolve_spec(RequestedVersion::Any, flat) is None && m@
                            == "no Python executable found"@,
                    }
                } else if rest.len() > 0 && is_list_flag(rest[0]@) {
                    let table = scan_spec(RequestedVersion::Any, flat, Seq::empty());
                    match r {
                        Ok(a) => match a {
                            Action::List(s) => table.len() > 0 && s@ == listing_spec(
                                sort_entries(table),
                            ),
                            _ => false,
                        },
                        Err(m) => table.len() == 0 && m@ == "No Python executable found"@,
                    }
                } else {
                    let flagged = rest.len() > 0 && version_from_flag_spec(rest[0]@) is Some;
                    let req = if flagged {
                        version_from_flag_spec(rest[0]@)->Some_0
                    } else {
                        RequestedVersion::Any
                    };
                    let args = if flagged {
                        rest.skip(1)
                    } else {
                        rest
                    };
                    match r {
                        Ok(a) => match a {
                            Action::Execute { launcher_path, executable, args: out_args } => {
                                &&& launcher_path@ == argv@[0]@
                                &&& resolve_spec(req, flat) == Some(executable@)
                                &&& arg_views(out_args@) == arg_views(args)
                            },
                            _ => false,
                        },
                        Err(m) => resolve_spec(req, flat) is None && m@
                            == "no Python executable found"@,
                    }
                }
            }),
    {
        let launcher_path = argv[0].clone();
        let mut requested_version = RequestedVersion::Any;
        let mut args_start: usize = 1;
        if argv.len() >= 2 {
            let flag = &argv[1];
            proof {
                assert(argv@.skip(1)[0] == argv@[1]);
            }
            if str_eq(flag.as_str(), "-h") || str_eq(flag.as_str(), "--help") {
                return match help(launcher_path.as_str(), dirs) {
                    Ok((message, executable_path)) => Ok(Action::Help(message, executable_path)),
                    Err(message) => Err(message),
                };
            } else if str_eq(flag.as_str(), "--list") {
                let executables = all_executables(dirs);
                return match list_executables(&executables) {
                    Ok(list) => Ok(Action::List(list)),
                    Err(message) => Err(message),
                };
            } else if let Some(version) = version_from_flag(flag.as_str()) {
                requested_version = version;
                args_start = 2;
            }
        }
        let args = args_from(argv, args_start);
        proof {
            if args_start == 2 {
                assert(argv@.skip(2) =~= argv@.skip(1).skip(1));
            }
        }
        match find_executable(requested_version, dirs) {
            Some(executable) => Ok(
                Action::Execute { launcher_path, executable, args },
            ),
            None => Err("no Python executable found".to_owned()),
        }
    }
}

} // verus!
