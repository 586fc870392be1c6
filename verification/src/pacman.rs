//! What the local package databases say.

use crate::names::NameSet;
use crate::text;
use vstd::prelude::*;

verus! {

/// An installed package.
#[derive(Debug)]
pub struct Installed {
    pub name: String,
    pub version: String,
}

/// The contents of the local package databases.
#[derive(Debug)]
pub struct Db {
    /// The installed packages.
    pub installed: Vec<Installed>,
    /// The names of the packages of each configured repository, in the order
    /// of the configuration.
    pub repos: Vec<NameSet>,
}

/// The version of the first package of a list that has this name.
pub open spec fn version_of(list: Seq<Installed>, name: Seq<char>) -> Option<Seq<char>>
    decreases list.len(),
{
    if list.len() == 0 {
        None
    } else if list[0].name@ == name {
        Some(list[0].version@)
    } else {
        version_of(list.drop_first(), name)
    }
}

/// A configured repository has a package of this name.
pub open spec fn in_some_repo(repos: Seq<NameSet>, name: Seq<char>) -> bool {
    exists|i: int| 0 <= i < repos.len() && (#[trigger] repos[i])@.contains(name)
}

/// Names and versions.
pub open spec fn pairs_of(v: Seq<(String, String)>) -> Seq<(Seq<char>, Seq<char>)> {
    Seq::new(v.len(), |i: int| (v[i].0@, v[i].1@))
}

/// The installed packages that no repository has, in order.
pub open spec fn foreign(list: Seq<Installed>, repos: Seq<NameSet>) -> Seq<(Seq<char>, Seq<char>)>
    decreases list.len(),
{
    if list.len() == 0 {
        Seq::empty()
    } else {
        let before = foreign(list.drop_last(), repos);
        let p = list.last();
        if in_some_repo(repos, p.name@) {
            before
        } else {
            before.push((p.name@, p.version@))
        }
    }
}

/// The first name that was found.
pub open spec fn first_found(found: Seq<Option<String>>) -> Option<Seq<char>>
    decreases found.len(),
{
    if found.len() == 0 {
        None
    } else if let Some(name) = found[0] {
        Some(name@)
    } else {
        first_found(found.drop_first())
    }
}

impl Db {
    /// The installed version of `name`, or `None` if it is not installed.
    pub fn installed_version(&self, name: &str) -> (r: Option<String>)
        ensures
            text::opt_text(r) == version_of(self.installed@, name@),
    {
        let ghost all = self.installed@;
        let mut i: usize = 0;
        proof {
            assert(all.skip(0) =~= all);
        }
        while i < self.installed.len()
            invariant
                i <= self.installed@.len(),
                all == self.installed@,
                version_of(all, name@) == version_of(all.skip(i as int), name@),
            decreases self.installed@.len() - i,
        {
            proof {
                assert(all.skip(i as int)[0] == all[i as int]);
                assert(all.skip(i as int).drop_first() =~= all.skip(i + 1));
            }
            if text::same(self.installed[i].name.as_str(), name) {
                return Some(self.installed[i].version.clone());
            }
            i += 1;
        }
        None
    }

    /// Whether a configured repository has a package of this name.
    fn in_repo(&self, name: &str) -> (r: bool)
        ensures
            r == in_some_repo(self.repos@, name@),
    {
        let mut i: usize = 0;
        while i < self.repos.len()
            invariant
                i <= self.repos@.len(),
                forall|j: int| 0 <= j < i ==> !(#[trigger] self.repos@[j])@.contains(name@),
            decreases self.repos@.len() - i,
        {
            if self.repos[i].contains(name) {
                return true;
            }
            i += 1;
        }
        false
    }

    /// Installed packages that no configured repository has, with their
    /// versions. On a normal system these are the packages that came from the
    /// AUR.
    pub fn foreign_packages(&self) -> (r: Vec<(String, String)>)
        ensures
            pairs_of(r@) == foreign(self.installed@, self.repos@),
    {
        let ghost all = self.installed@;
        let mut out: Vec<(String, String)> = Vec::new();
        let mut i: usize = 0;
        proof {
            assert(pairs_of(out@) =~= Seq::<(Seq<char>, Seq<char>)>::empty());
        }
        while i < self.installed.len()
            invariant
                i <= self.installed@.len(),
                all == self.installed@,
                pairs_of(out@) == foreign(all.take(i as int), self.repos@),
            decreases self.installed@.len() - i,
        {
            let p = &self.installed[i];
            let ghost before = pairs_of(out@);
            proof {
                assert(all.take(i + 1).drop_last() =~= all.take(i as int));
                assert(all.take(i + 1).last() == *p);
            }
            if !self.in_repo(p.name.as_str()) {
                out.push((p.name.clone(), p.version.clone()));
                proof {
                    assert(pairs_of(out@) =~= before.push((p.name@, p.version@)));
                }
            }
            i += 1;
        }
        proof {
            assert(all.take(all.len() as int) =~= all);
        }
        out
    }

    /// The package that provides a dependency, given for each repository in
    /// turn the package of it that satisfies the dependency, if there is one.
    pub fn provider(&self, found: &Vec<Option<String>>) -> (r: Option<String>)
        ensures
            text::opt_text(r) == first_found(found@),
    {
        let ghost all = found@;
        let mut i: usize = 0;
        proof {
            assert(all.skip(0) =~= all);
        }
        while i < found.len()
            invariant
                i <= found@.len(),
                all == found@,
                first_found(all) == first_found(all.skip(i as int)),
            decreases found@.len() - i,
        {
            proof {
                assert(all.skip(i as int)[0] == all[i as int]);
                assert(all.skip(i as int).drop_first() =~= all.skip(i + 1));
            }
            if let Some(name) = &found[i] {
                return Some(name.clone());
            }
            i += 1;
        }
        None
    }

    /// Whether a repository satisfies a dependency, given for each repository
    /// in turn the package of it that does, if there is one.
    pub fn repo_satisfies(&self, found: &Vec<Option<String>>) -> (r: bool)
        ensures
            r == exists|i: int| 0 <= i < found@.len() && (#[trigger] found@[i]) is Some,
    {
        let mut i: usize = 0;
        while i < found.len()
            invariant
                i <= found@.len(),
                forall|j: int| 0 <= j < i ==> (#[trigger] found@[j]) is None,
            decreases found@.len() - i,
        {
            if found[i].is_some() {
                return true;
            }
            i += 1;
        }
        false
    }
}

/// A repository satisfies a dependency if and only if some package provides it.
pub proof fn law_satisfied_iff_provided(found: Seq<Option<String>>)
    ensures
        first_found(found) is Some <==> exists|i: int|
            0 <= i < found.len() && (#[trigger] found[i]) is Some,
    decreases found.len(),
{
    if found.len() > 0 {
        let rest = found.drop_first();
        law_satisfied_iff_provided(rest);
        if found[0] is None {
            if first_found(found) is Some {
                let i = choose|i: int| 0 <= i < rest.len() && (#[trigger] rest[i]) is Some;
                assert(found[i + 1] is Some);
            }
            if exists|i: int| 0 <= i < found.len() && (#[trigger] found[i]) is Some {
                let i = choose|i: int| 0 <= i < found.len() && (#[trigger] found[i]) is Some;
                assert(rest[i - 1] is Some);
            }
        }
    }
}

/// A setting in what was printed for it: what is left without the white space
/// around it, if anything is.
pub open spec fn setting_in(output: Option<Seq<char>>) -> Option<Seq<char>> {
    match output {
        Some(s) if text::trimmed(s).len() > 0 => Some(text::trimmed(s)),
        _ => None,
    }
}

/// A setting, or else its usual value.
pub open spec fn setting_or(output: Option<Seq<char>>, usual: Seq<char>) -> Seq<char> {
    match setting_in(output) {
        Some(s) => s,
        None => usual,
    }
}

/// A setting as `pacman-conf` printed it. `None` stands for a failed run; a
/// blank setting is none.
pub fn setting(output: Option<&str>) -> (r: Option<String>)
    ensures
        text::opt_text(r) == setting_in(text::opt_slice(output)),
        text::opt_text(r) == (match output {
            Some(s) if text::trimmed(s@).len() > 0 => Some(text::trimmed(s@)),
            _ => None,
        }),
{
    match output {
        Some(s) => {
            let value = text::trim(s);
            if value.as_str().is_empty() {
                None
            } else {
                Some(value)
            }
        },
        None => None,
    }
}

/// The root directory and the database directory, each from what `pacman-conf`
/// printed for it or else at its usual place.
pub fn paths(root: Option<&str>, db: Option<&str>) -> (r: (String, String))
    ensures
        r.0@ == setting_or(text::opt_slice(root), "/"@),
        r.1@ == setting_or(text::opt_slice(db), "/var/lib/pacman"@),
        r.0@ == (match root {
            Some(s) if text::trimmed(s@).len() > 0 => text::trimmed(s@),
            _ => "/"@,
        }),
        r.1@ == (match db {
            Some(s) if text::trimmed(s@).len() > 0 => text::trimmed(s@),
            _ => "/var/lib/pacman"@,
        }),
{
    let root = match setting(root) {
        Some(s) => s,
        None => String::from_str("/"),
    };
    let db = match setting(db) {
        Some(s) => s,
        None => String::from_str("/var/lib/pacman"),
    };
    (root, db)
}

/// The lines of a text without the white space around them, leaving out those
/// that are blank.
pub open spec fn entries(lines: Seq<Seq<char>>) -> Seq<Seq<char>>
    decreases lines.len(),
{
    if lines.len() == 0 {
        Seq::empty()
    } else {
        let before = entries(lines.drop_last());
        let line = text::trimmed(lines.last());
        if line.len() == 0 {
            before
        } else {
            before.push(line)
        }
    }
}

/// The configured repositories, in order, as `pacman-conf` printed them. `None`
/// stands for a program that could not be run: it lists none.
pub fn repo_list(output: Option<&str>) -> (r: Vec<String>)
    ensures
        text::texts(r@) == (match output {
            Some(s) => entries(text::lines_of(s@)),
            None => Seq::<Seq<char>>::empty(),
        }),
{
    let mut out: Vec<String> = Vec::new();
    proof {
        assert(text::texts(out@) =~= Seq::<Seq<char>>::empty());
    }
    let output = match output {
        Some(s) => s,
        None => {
            return out;
        },
    };
    let lines = text::lines(output);
    let ghost all = text::texts(lines@);
    let mut i: usize = 0;
    while i < lines.len()
        invariant
            i <= lines@.len(),
            all == text::texts(lines@),
            text::texts(out@) == entries(all.take(i as int)),
        decreases lines@.len() - i,
    {
        let ghost before = text::texts(out@);
        let line = text::trim(lines[i].as_str());
        proof {
            assert(all.take(i + 1).drop_last() =~= all.take(i as int));
            assert(all.take(i + 1).last() == lines@[i as int]@);
        }
        if !line.as_str().is_empty() {
            out.push(line);
            proof {
                assert(text::texts(out@) =~= before.push(line@));
            }
        }
        i += 1;
    }
    proof {
        assert(all.take(all.len() as int) =~= all);
    }
    out
}

/// A package is foreign exactly if it is installed, in that version, and no
/// configured repository has a package of its name.
pub proof fn law_foreign_packages(
    list: Seq<Installed>,
    repos: Seq<NameSet>,
    name: Seq<char>,
    version: Seq<char>,
)
    ensures
        foreign(list, repos).contains((name, version)) <==> (exists|i: int|
            0 <= i < list.len() && (#[trigger] list[i]).name@ == name && list[i].version@
                == version) && (forall|i: int|
            0 <= i < repos.len() ==> !(#[trigger] repos[i])@.contains(name)),
        foreign(list, repos).len() <= list.len(),
    decreases list.len(),
{
    let p = (name, version);
    if list.len() > 0 {
        let rest = list.drop_last();
        law_foreign_packages(rest, repos, name, version);
        let before = foreign(rest, repos);
        let now = foreign(list, repos);
        let last = list.len() - 1;
        if now.contains(p) {
            let j = choose|j: int| 0 <= j < now.len() && now[j] == p;
            if j < before.len() {
                assert(before[j] == p);
                let i = choose|i: int|
                    0 <= i < rest.len() && (#[trigger] rest[i]).name@ == name && rest[i].version@
                        == version;
                assert(list[i] == rest[i]);
            } else {
                assert(list[last].name@ == name && list[last].version@ == version);
            }
        }
        if (exists|i: int|
            0 <= i < list.len() && (#[trigger] list[i]).name@ == name && list[i].version@
                == version) && (forall|i: int|
            0 <= i < repos.len() ==> !(#[trigger] repos[i])@.contains(name)) {
            let i = choose|i: int|
                0 <= i < list.len() && (#[trigger] list[i]).name@ == name && list[i].version@
                    == version;
            if i < last {
                assert(rest[i] == list[i]);
                let j = choose|j: int| 0 <= j < before.len() && before[j] == p;
                assert(now[j] == p);
            } else {
                assert(now[before.len() as int] == p);
            }
        }
    }
}

/// The installed version is that of the first package of the name; a name that
/// no package has is not installed.
pub proof fn law_installed_version(list: Seq<Installed>, name: Seq<char>, i: int)
    ensures
        0 <= i < list.len() && list[i].name@ == name && (forall|j: int|
            0 <= j < i ==> (#[trigger] list[j]).name@ != name) ==> version_of(list, name) == Some(
            list[i].version@,
        ),
        (forall|j: int| 0 <= j < list.len() ==> (#[trigger] list[j]).name@ != name) ==> version_of(
            list,
            name,
        ) is None,
    decreases list.len(),
{
    if list.len() > 0 {
        let rest = list.drop_first();
        law_installed_version(rest, name, i - 1);
        if list[0].name@ != name {
            if 0 <= i < list.len() && list[i].name@ == name {
                assert(rest[i - 1] == list[i]);
                if forall|j: int| 0 <= j < i ==> (#[trigger] list[j]).name@ != name {
                    assert forall|j: int| 0 <= j < i - 1 implies (#[trigger] rest[j]).name@ != name by {
                        assert(rest[j] == list[j + 1]);
                    }
                }
            }
            if forall|j: int| 0 <= j < list.len() ==> (#[trigger] list[j]).name@ != name {
                assert forall|j: int| 0 <= j < rest.len() implies (#[trigger] rest[j]).name@ != name by {
                    assert(rest[j] == list[j + 1]);
                }
            }
        }
    }
}

/// A dependency is provided by the first repository, in the order of the
/// configuration, that has something for it.
pub proof fn law_first_repository_provides(found: Seq<Option<String>>, i: int)
    requires
        0 <= i < found.len(),
        found[i] is Some,
        forall|j: int| 0 <= j < i ==> (#[trigger] found[j]) is None,
    ensures
        first_found(found) == Some(found[i]->0@),
    decreases found.len(),
{
    if i > 0 {
        let rest = found.drop_first();
        assert(found[0] is None);
        assert(rest[i - 1] == found[i]);
        assert forall|j: int| 0 <= j < i - 1 implies (#[trigger] rest[j]) is None by {
            assert(rest[j] == found[j + 1]);
        }
        law_first_repository_provides(rest, i - 1);
    }
}

/// The repositories that are listed are the lines that are not blank, without
/// the white space around them, in order.
pub proof fn law_listed_repositories(
    lines: Seq<Seq<char>>,
    w: Seq<char>,
    name: Seq<char>,
    v: Seq<char>,
)
    requires
        text::is_blank(w) && text::is_blank(v),
        text::is_tight(name),
    ensures
        name.len() > 0 ==> entries(lines.push(w + name + v)) == entries(lines).push(name),
        name.len() == 0 ==> entries(lines.push(w + name + v)) == entries(lines),
        entries(Seq::empty()) == Seq::<Seq<char>>::empty(),
{
    text::law_trimming_takes_white_space_off(w, name, v);
    assert(lines.push(w + name + v).drop_last() =~= lines);
}

/// A setting is what was printed for it, without the white space around it; what
/// was not printed, or is blank, has its usual value.
pub proof fn law_settings(w: Seq<char>, value: Seq<char>, v: Seq<char>, usual: Seq<char>)
    requires
        text::is_blank(w) && text::is_blank(v),
        text::is_tight(value),
    ensures
        value.len() > 0 ==> setting_in(Some(w + value + v)) == Some(value),
        value.len() > 0 ==> setting_or(Some(w + value + v), usual) == value,
        setting_in(None) is None && setting_or(None, usual) == usual,
        setting_in(Some(w)) is None && setting_or(Some(w), usual) == usual,
{
    text::law_trimming_takes_white_space_off(w, value, v);
    let e = Seq::<char>::empty();
    text::law_trimming_takes_white_space_off(w, e, e);
    assert(w + e + e =~= w);
}

/// Foreign packages are listed in the order in which they are installed, each as
/// often as it is.
pub proof fn law_foreign_packages_are_in_order(
    list: Seq<Installed>,
    p: Installed,
    repos: Seq<NameSet>,
)
    ensures
        (forall|i: int| 0 <= i < repos.len() ==> !(#[trigger] repos[i])@.contains(p.name@))
            ==> foreign(list.push(p), repos) == foreign(list, repos).push((p.name@, p.version@)),
        (exists|i: int| 0 <= i < repos.len() && (#[trigger] repos[i])@.contains(p.name@))
            ==> foreign(list.push(p), repos) == foreign(list, repos),
        foreign(Seq::empty(), repos) == Seq::<(Seq<char>, Seq<char>)>::empty(),
{
    assert(list.push(p).drop_last() =~= list);
}

} // verus!
