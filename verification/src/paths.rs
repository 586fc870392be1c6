//! Places of files, as strings.

use crate::text;
use vstd::prelude::*;

verus! {

/// A path below another: an absolute path stands for itself, and no separator
/// is doubled.
pub open spec fn joined(base: Seq<char>, path: Seq<char>) -> Seq<char> {
    if "/"@.is_prefix_of(path) {
        path
    } else if base.len() == 0 || "/"@.is_suffix_of(base) {
        base + path
    } else {
        base + "/"@ + path
    }
}

/// A path below another.
pub fn join(base: &str, path: &str) -> (r: String)
    ensures
        r@ == joined(base@, path@),
{
    if text::starts_with(path, "/") {
        String::from_str(path)
    } else if base.is_empty() || text::ends_with(base, "/") {
        text::concat(base, path)
    } else {
        text::concat3(base, "/", path)
    }
}

/// The directory for data of the user, from `XDG_DATA_HOME` and `HOME`: the
/// first if it is set and not empty, else `.local/share` below the second.
pub open spec fn data_home(xdg: Option<Seq<char>>, home: Option<Seq<char>>) -> Option<Seq<char>> {
    match xdg {
        Some(dir) if dir.len() > 0 => Some(dir),
        _ => match home {
            Some(dir) => Some(joined(dir, ".local/share"@)),
            None => None,
        },
    }
}

/// A file or directory of this program below the directory for data.
pub open spec fn data_place(
    xdg: Option<Seq<char>>,
    home: Option<Seq<char>>,
    leaf: Seq<char>,
) -> Option<Seq<char>> {
    match data_home(xdg, home) {
        Some(dir) => Some(joined(joined(dir, "vouch"@), leaf)),
        None => None,
    }
}

/// The place of a file or directory of this program below the directory for
/// data of the user. `None` if neither variable is set.
pub fn data_file(xdg: Option<&str>, home: Option<&str>, leaf: &str) -> (r: Option<String>)
    ensures
        text::opt_text(r) == data_place(text::opt_slice(xdg), text::opt_slice(home), leaf@),
{
    let from_home = match home {
        Some(dir) => Some(join(dir, ".local/share")),
        None => None,
    };
    let dir = match xdg {
        Some(dir) => if dir.is_empty() {
            from_home
        } else {
            Some(String::from_str(dir))
        },
        None => from_home,
    };
    match dir {
        Some(dir) => {
            let own = join(dir.as_str(), "vouch");
            Some(join(own.as_str(), leaf))
        },
        None => None,
    }
}

/// A relative path goes below the base with one separator between; an absolute
/// path stands for itself.
pub proof fn law_paths_are_joined(base: Seq<char>, path: Seq<char>)
    requires
        path.len() > 0,
    ensures
        path[0] == '/' ==> joined(base, path) == path,
        path[0] != '/' && base.len() > 0 && base.last() != '/' ==> joined(base, path) == base
            + seq!['/'] + path,
        path[0] != '/' && base.len() > 0 && base.last() == '/' ==> joined(base, path) == base + path,
        path[0] != '/' && base.len() == 0 ==> joined(base, path) == path,
{
    lemma_slash(base, path);
    reveal_strlit("/");
    assert("/"@ =~= seq!['/']);
    if base.len() == 0 {
        assert(base + path =~= path);
    }
}

proof fn lemma_slash(base: Seq<char>, path: Seq<char>)
    ensures
        "/"@.is_prefix_of(path) <==> path.len() > 0 && path[0] == '/',
        "/"@.is_suffix_of(base) <==> base.len() > 0 && base.last() == '/',
{
    reveal_strlit("/");
    if path.len() > 0 && path[0] == '/' {
        assert("/"@ =~= path.subrange(0, 1));
    }
    if "/"@.is_prefix_of(path) {
        assert(path.subrange(0, 1)[0] == path[0]);
    }
    let n = base.len() as int;
    if base.len() > 0 && base.last() == '/' {
        assert("/"@ =~= base.subrange(n - 1, n));
    }
    if "/"@.is_suffix_of(base) {
        assert(base.subrange(n - 1, n)[0] == base.last());
    }
}

/// The files of this program are below `XDG_DATA_HOME` if that is set and not
/// empty, else below `.local/share` of `HOME`; without both there is no place.
pub proof fn law_data_places(dir: Seq<char>, home: Option<Seq<char>>, leaf: Seq<char>)
    requires
        dir.len() > 0 && dir.last() != '/',
        leaf.len() > 0 && leaf[0] != '/',
    ensures
        data_place(Some(dir), home, leaf) == Some(dir + "/vouch/"@ + leaf),
        data_place(None, Some(dir), leaf) == Some(dir + "/.local/share/vouch/"@ + leaf),
        data_place(Some(Seq::empty()), Some(dir), leaf) == Some(
            dir + "/.local/share/vouch/"@ + leaf,
        ),
        data_place(None, None, leaf) is None,
        data_place(Some(Seq::empty()), None, leaf) is None,
{
    reveal_strlit("/vouch/");
    reveal_strlit("/.local/share/vouch/");
    reveal_strlit("vouch");
    reveal_strlit(".local/share");
    let sep = seq!['/'];
    law_paths_are_joined(dir, "vouch"@);
    let own = dir + sep + "vouch"@;
    assert(own.last() == 'h');
    law_paths_are_joined(own, leaf);
    assert(own + sep + leaf =~= dir + "/vouch/"@ + leaf);
    law_paths_are_joined(dir, ".local/share"@);
    let share = dir + sep + ".local/share"@;
    assert(share.last() == 'e');
    law_paths_are_joined(share, "vouch"@);
    let below = share + sep + "vouch"@;
    assert(below.last() == 'h');
    law_paths_are_joined(below, leaf);
    assert(below + sep + leaf =~= dir + "/.local/share/vouch/"@ + leaf);
}

} // verus!
