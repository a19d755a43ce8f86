//! Search roots for cursor themes and joining of path text.

use vstd::prelude::*;
use crate::text::{chars_of, push_chars, split_chars, split_on, char_views};

verus! {

/// `base` joined with `rel` as a path: an absolute `rel` replaces `base`,
/// otherwise one `/` separates them unless `base` is empty or already ends in one.
pub open spec fn join(base: Seq<char>, rel: Seq<char>) -> Seq<char> {
    if rel.len() > 0 && rel[0] == '/' {
        rel
    } else if base.len() == 0 || base.last() == '/' {
        base + rel
    } else {
        base + seq!['/'] + rel
    }
}

/// Joins `rel` onto `base`.
pub fn join_path(base: &str, rel: &str) -> (r: String)
    ensures
        r@ == join(base@, rel@),
{
    let b = chars_of(base);
    let rl = chars_of(rel);
    if rl.len() > 0 && rl[0] == '/' {
        return rel.to_owned();
    }
    let mut out = base.to_owned();
    if b.len() > 0 && b[b.len() - 1] != '/' {
        out.push('/');
    }
    push_chars(&mut out, &rl);
    out
}

/// The view of an optional string.
pub open spec fn opt_view(o: Option<&str>) -> Option<Seq<char>> {
    match o {
        Some(s) => Some(s@),
        None => None,
    }
}

/// The views of a sequence of strings.
pub open spec fn string_views(v: Seq<String>) -> Seq<Seq<char>> {
    v.map_values(|p: String| p@)
}

/// The per-user roots: the data home (or `home/.local/share`) joined with
/// `icons`, then `home/.icons`.
pub open spec fn user_roots(home: Seq<char>, data_home: Option<Seq<char>>) -> Seq<Seq<char>> {
    let base = match data_home {
        Some(d) => d,
        None => join(home, ".local/share"@),
    };
    seq![join(base, "icons"@), join(home, ".icons"@)]
}

/// The system roots: each piece of the colon-separated data directories joined
/// with `icons`, or `/usr/share/icons` where that list is not given.
pub open spec fn system_roots(data_dirs: Option<Seq<char>>) -> Seq<Seq<char>> {
    match data_dirs {
        Some(d) => split_on(d, ':').map_values(|p: Seq<char>| join(p, "icons"@)),
        None => seq!["/usr/share/icons"@],
    }
}

/// All roots in search order: user roots before system roots.
pub open spec fn search_roots_of(
    home: Seq<char>,
    data_home: Option<Seq<char>>,
    data_dirs: Option<Seq<char>>,
) -> Seq<Seq<char>> {
    user_roots(home, data_home) + system_roots(data_dirs)
}

/// Computes the ordered directories under which theme folders are looked up,
/// from the home directory, the optional data home and the optional
/// colon-separated list of data directories.
pub fn search_roots(home: &str, data_home: Option<&str>, data_dirs: Option<&str>) -> (r: Vec<String>)
    ensures
        string_views(r@) == search_roots_of(home@, opt_view(data_home), opt_view(data_dirs)),
{
    let base = match data_home {
        Some(d) => d.to_owned(),
        None => join_path(home, ".local/share"),
    };
    let mut roots: Vec<String> = Vec::new();
    roots.push(join_path(base.as_str(), "icons"));
    roots.push(join_path(home, ".icons"));
    assert(string_views(roots@) =~= user_roots(home@, opt_view(data_home)));
    match data_dirs {
        None => {
            roots.push("/usr/share/icons".to_owned());
            assert(string_views(roots@) =~= user_roots(home@, opt_view(data_home)) + system_roots(
                opt_view(data_dirs),
            ));
        },
        Some(d) => {
            let dc = chars_of(d);
            let pieces = split_chars(&dc, ':');
            let ghost user = string_views(roots@);
            let ghost sys = split_on(d@, ':').map_values(|p: Seq<char>| join(p, "icons"@));
            let mut i: usize = 0;
            while i < pieces.len()
                invariant
                    i <= pieces@.len(),
                    char_views(pieces@) == split_on(d@, ':'),
                    sys == split_on(d@, ':').map_values(|p: Seq<char>| join(p, "icons"@)),
                    string_views(roots@) == user + sys.subrange(0, i as int),
                decreases pieces@.len() - i,
            {
                let piece = crate::text::string_of(&pieces[i]);
                assert(piece@ == split_on(d@, ':')[i as int]) by {
                    assert(char_views(pieces@)[i as int] == pieces@[i as int]@);
                }
                assert(char_views(pieces@).len() == pieces@.len());
                assert(sys[i as int] == join(piece@, "icons"@));
                let ghost before = string_views(roots@);
                roots.push(join_path(piece.as_str(), "icons"));
                assert(string_views(roots@) =~= before.push(sys[i as int]));
                assert(sys.subrange(0, i + 1) =~= sys.subrange(0, i as int).push(sys[i as int]));
                i += 1;
                assert(string_views(roots@) =~= user + sys.subrange(0, i as int));
            }
            assert(sys.subrange(0, sys.len() as int) =~= sys);
        },
    }
    roots
}

} // verus!
