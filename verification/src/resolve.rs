//! Resolution of dependencies into a build plan.
//!
//! The dependencies of the requested packages fall in two parts: those that a
//! configured repository can provide, and those that exist only in the AUR and
//! have to be built. The latter form a graph, which is put into an order in
//! which each package comes after the packages it depends on.
//!
//! Looking packages up is the caller's work. A [`Resolver`] says what to look
//! up next and takes the answer.

use crate::graph;
use crate::names::{NameMap, NameSet};
use crate::order;
use crate::package::PackageMeta;
use crate::text;
use std::collections::VecDeque;
use vstd::prelude::*;

verus! {

/// Picks the characters that start a version constraint.
pub open spec fn starts_constraint() -> spec_fn(char) -> bool {
    |c: char| c == '<' || c == '>' || c == '='
}

/// The name that a dependency atom speaks of.
pub open spec fn bare(dep: Seq<char>) -> Seq<char> {
    text::trimmed(dep.take(text::until(dep, starts_constraint())))
}

/// Strips a version constraint from a dependency atom: `pacman>6.1` gives
/// `pacman`, `go>=1.24` gives `go`, `libalpm.so>=14` gives `libalpm.so`.
pub fn strip_version(dep: &str) -> (r: String)
    ensures
        r@ == bare(dep@),
{
    let cs = text::chars_of(dep);
    let n: usize = cs.len();
    let mut i: usize = 0;
    while i < n && cs[i] != '<' && cs[i] != '>' && cs[i] != '='
        invariant
            n == cs@.len(),
            i <= n,
            forall|j: int| 0 <= j < i ==> !starts_constraint()(#[trigger] cs@[j]),
        decreases n - i,
    {
        i += 1;
    }
    proof {
        text::lemma_until_at(dep@, starts_constraint(), i as int);
        assert(cs@.subrange(0, i as int) =~= dep@.take(i as int));
    }
    let head = text::string_between(&cs, 0, i);
    text::trim(head.as_str())
}

/// One dependency of a package that has to be classified.
#[derive(Debug)]
pub struct Atom {
    /// The atom as it was declared, with its version constraint.
    pub raw: String,
    /// The name without the constraint.
    pub name: String,
    /// Needed at run time, and not only to build or to test.
    pub runtime: bool,
}

/// The contents of an atom.
pub struct AtomView {
    pub raw: Seq<char>,
    pub name: Seq<char>,
    pub runtime: bool,
}

impl View for Atom {
    type V = AtomView;

    open spec fn view(&self) -> AtomView {
        AtomView { raw: self.raw@, name: self.name@, runtime: self.runtime }
    }
}

/// The contents of a list of atoms.
pub open spec fn atoms_of(v: Seq<Atom>) -> Seq<AtomView> {
    Seq::new(v.len(), |i: int| v[i]@)
}

/// Whether one of the atoms has this name.
pub open spec fn names_atom(q: Seq<AtomView>, name: Seq<char>) -> bool {
    exists|i: int| 0 <= i < q.len() && (#[trigger] q[i]).name == name
}

/// `q` with the atoms of `list` added, in order, that name something and name
/// something new.
pub open spec fn with_atoms(q: Seq<AtomView>, list: Seq<Seq<char>>, runtime: bool) -> Seq<AtomView>
    decreases list.len(),
{
    if list.len() == 0 {
        q
    } else {
        let before = with_atoms(q, list.drop_last(), runtime);
        let name = bare(list.last());
        if name.len() == 0 || names_atom(before, name) {
            before
        } else {
            before.push(AtomView { raw: list.last(), name, runtime })
        }
    }
}

/// The dependencies of a package to classify: each name once, a name that is
/// needed at run time and to build as one that is needed at run time.
pub open spec fn atoms_to_classify(meta: PackageMeta) -> Seq<AtomView> {
    with_atoms(
        with_atoms(
            with_atoms(Seq::empty(), text::texts(meta.depends@), true),
            text::texts(meta.make_depends@),
            false,
        ),
        text::texts(meta.check_depends@),
        false,
    )
}

/// The names of the atoms.
pub open spec fn atom_names(q: Seq<AtomView>) -> Set<Seq<char>> {
    Set::new(|n: Seq<char>| names_atom(q, n))
}

/// Adds the new atoms of `list` to `out`. `seen` holds the names of `out`.
fn add_atoms(out: &mut Vec<Atom>, seen: &mut NameSet, list: &Vec<String>, runtime: bool)
    requires
        old(seen)@ == atom_names(atoms_of(old(out)@)),
    ensures
        atoms_of(final(out)@) == with_atoms(atoms_of(old(out)@), text::texts(list@), runtime),
        final(seen)@ == atom_names(atoms_of(final(out)@)),
{
    let ghost start = atoms_of(out@);
    let ghost all = text::texts(list@);
    let mut i: usize = 0;
    while i < list.len()
        invariant
            i <= list@.len(),
            all == text::texts(list@),
            atoms_of(out@) == with_atoms(start, all.take(i as int), runtime),
            seen@ == atom_names(atoms_of(out@)),
        decreases list@.len() - i,
    {
        let ghost before = atoms_of(out@);
        let name = strip_version(list[i].as_str());
        proof {
            assert(all.take(i + 1).drop_last() =~= all.take(i as int));
            assert(all.take(i + 1).last() == list@[i as int]@);
        }
        if !name.as_str().is_empty() && seen.insert(name.clone()) {
            out.push(Atom { raw: list[i].clone(), name, runtime });
            proof {
                let new = AtomView { raw: list@[i as int]@, name: name@, runtime };
                let now = atoms_of(out@);
                assert(now =~= before.push(new));
                assert(seen@ =~= atom_names(now)) by {
                    assert forall|n: Seq<char>| seen@.contains(n) <==> names_atom(now, n) by {
                        if names_atom(before, n) {
                            let j = choose|j: int|
                                0 <= j < before.len() && (#[trigger] before[j]).name == n;
                            assert(now[j].name == n);
                        }
                        assert(now[before.len() as int].name == name@);
                        if names_atom(now, n) && n != name@ {
                            let j = choose|j: int|
                                0 <= j < now.len() && (#[trigger] now[j]).name == n;
                            assert(before[j].name == n);
                        }
                    }
                }
            }
        } else {
            proof {
                if name@.len() != 0 {
                    assert(seen@ =~= atom_names(before));
                }
            }
        }
        i += 1;
    }
    proof {
        assert(all.take(all.len() as int) =~= all);
    }
}

/// How far a resolution has come.
#[verifier::ext_equal]
pub struct Progress {
    /// Requested packages that were not looked up yet.
    pub pending: Seq<Seq<char>>,
    /// Requested packages under their own names.
    pub explicit: Seq<Seq<char>>,
    /// Packages to build.
    pub nodes: Set<Seq<char>>,
    /// What each package to build needs of the other packages to build.
    pub edges: Map<Seq<char>, Set<Seq<char>>>,
    /// Repository packages that are needed at run time.
    pub runtime: Set<Seq<char>>,
    /// Repository packages that are needed to build or to test.
    pub build: Set<Seq<char>>,
    /// What is known of the packages that were looked up.
    pub metas: Map<Seq<char>, PackageMeta>,
    /// Packages to build whose dependencies were not classified yet.
    pub queue: Seq<Seq<char>>,
    /// Packages to build whose dependencies were classified.
    pub expanded: Set<Seq<char>>,
    /// What was answered about the dependencies of each of those.
    pub answers: Map<Seq<char>, Answer>,
}

/// What was answered about the dependencies of a package.
pub struct Answer {
    /// The names that the AUR has.
    pub in_aur: Set<Seq<char>>,
    /// For each atom in turn, the repository package that provides it.
    pub providers: Seq<Option<Seq<char>>>,
}

/// An atom has to be built: the AUR has it, and no repository provides it.
pub open spec fn is_to_build(
    in_aur: Set<Seq<char>>,
    atom: AtomView,
    provider: Option<Seq<char>>,
) -> bool {
    in_aur.contains(atom.name) && provider is None
}

/// The repository package that an atom is taken from: its provider, or else the
/// package of its name.
pub open spec fn taken_from(atom: AtomView, provider: Option<Seq<char>>) -> Seq<char> {
    match provider {
        Some(name) => name,
        None => atom.name,
    }
}

/// The names of the atoms that have to be built.
pub open spec fn to_build(atoms: Seq<AtomView>, a: Answer) -> Set<Seq<char>> {
    Set::new(
        |n: Seq<char>|
            exists|i: int|
                0 <= i < atoms.len() && (#[trigger] atoms[i]).name == n && is_to_build(
                    a.in_aur,
                    atoms[i],
                    a.providers[i],
                ),
    )
}

/// The repository packages that the other atoms are taken from, of those that
/// are needed at run time or of those that are not.
pub open spec fn to_take(atoms: Seq<AtomView>, a: Answer, runtime: bool) -> Set<Seq<char>> {
    Set::new(
        |n: Seq<char>|
            exists|i: int|
                0 <= i < atoms.len() && (#[trigger] atoms[i]).runtime == runtime && !is_to_build(
                    a.in_aur,
                    atoms[i],
                    a.providers[i],
                ) && taken_from(atoms[i], a.providers[i]) == n,
    )
}

impl Progress {
    /// What a package to build depends on, of the packages to build, according
    /// to what was answered about it.
    pub open spec fn needs(self, n: Seq<char>) -> Set<Seq<char>> {
        to_build(atoms_to_classify(self.metas[n]), self.answers[n])
    }

    /// The repository packages that the expanded packages need according to what
    /// was answered about them.
    pub open spec fn takes(self, runtime: bool) -> Set<Seq<char>> {
        Set::new(
            |d: Seq<char>|
                exists|n: Seq<char>| #[trigger]
                    self.expanded.contains(n) && to_take(
                        atoms_to_classify(self.metas[n]),
                        self.answers[n],
                        runtime,
                    ).contains(d),
        )
    }

    /// The state is well-formed: it is sound, and it follows from the answers.
    pub open spec fn wf(self) -> bool {
        self.sound() && self.faithful()
    }

    /// What is recorded is exactly what the answers give, each package is
    /// expanded once, and every package to build is needed for a requested one.
    pub open spec fn faithful(self) -> bool {
        &&& self.queue.no_duplicates()
        &&& forall|n: Seq<char>| #[trigger] self.queue.contains(n) ==> !self.expanded.contains(n)
        &&& self.answers.dom() == self.expanded
        &&& forall|n: Seq<char>| #[trigger]
            self.edges.dom().contains(n) ==> self.expanded.contains(n)
        &&& forall|n: Seq<char>| #[trigger]
            self.expanded.contains(n) ==> {
                &&& self.answers[n].providers.len() == atoms_to_classify(self.metas[n]).len()
                &&& graph::deps(self.edges, n) == self.needs(n)
            }
        &&& self.runtime == self.takes(true)
        &&& self.build == self.takes(false)
        &&& forall|n: Seq<char>| #[trigger]
            self.nodes.contains(n) ==> graph::reachable(self.explicit.to_set(), self.edges, n)
    }

    /// Packages wait in the queue or were expanded, each is known, and the
    /// graph stays within the packages to build.
    pub open spec fn sound(self) -> bool {
        &&& self.nodes.finite()
        &&& forall|n: Seq<char>|
            #[trigger] self.nodes.contains(n) <==> self.queue.contains(n) || self.expanded.contains(
                n,
            )
        &&& forall|n: Seq<char>| #[trigger] self.nodes.contains(n) ==> self.metas.dom().contains(n)
        &&& forall|n: Seq<char>|
            self.nodes.contains(n) ==> #[trigger] graph::deps(self.edges, n).subset_of(self.nodes)
        &&& forall|n: Seq<char>| #[trigger] self.edges.dom().contains(n) ==> self.nodes.contains(n)
        &&& forall|n: Seq<char>| #[trigger] self.explicit.contains(n) ==> self.nodes.contains(n)
        &&& self.explicit.no_duplicates()
    }
}

/// The state before anything was looked up.
pub open spec fn start_of(targets: Seq<Seq<char>>) -> Progress {
    Progress {
        pending: targets,
        explicit: Seq::empty(),
        nodes: Set::empty(),
        edges: Map::empty(),
        runtime: Set::empty(),
        build: Set::empty(),
        metas: Map::empty(),
        queue: Seq::empty(),
        expanded: Set::empty(),
        answers: Map::empty(),
    }
}

/// `metas` with a package added that is not known yet.
pub open spec fn with_meta(metas: Map<Seq<char>, PackageMeta>, m: PackageMeta) -> Map<
    Seq<char>,
    PackageMeta,
> {
    if metas.dom().contains(m.name@) {
        metas
    } else {
        metas.insert(m.name@, m)
    }
}

/// `metas` with the packages of a list added that are not known yet.
pub open spec fn with_metas(metas: Map<Seq<char>, PackageMeta>, list: Seq<PackageMeta>) -> Map<
    Seq<char>,
    PackageMeta,
>
    decreases list.len(),
{
    if list.len() == 0 {
        metas
    } else {
        with_meta(with_metas(metas, list.drop_last()), list.last())
    }
}

/// The names of the packages in a list.
pub open spec fn meta_names(list: Seq<PackageMeta>) -> Set<Seq<char>> {
    Set::new(|n: Seq<char>| exists|i: int| 0 <= i < list.len() && (#[trigger] list[i]).name@ == n)
}

/// The state once the next requested package was found as `m`.
pub open spec fn found_target(p: Progress, m: PackageMeta) -> Progress {
    Progress {
        pending: p.pending.drop_first(),
        metas: with_meta(p.metas, m),
        nodes: p.nodes.insert(m.name@),
        queue: if p.nodes.contains(m.name@) {
            p.queue
        } else {
            p.queue.push(m.name@)
        },
        explicit: if p.explicit.contains(m.name@) {
            p.explicit
        } else {
            p.explicit.push(m.name@)
        },
        ..p
    }
}

/// The state once one dependency of `pkg` was classified: it has to be built
/// if and only if the AUR has it and no repository provides it.
pub open spec fn classified(
    p: Progress,
    pkg: Seq<char>,
    in_aur: Set<Seq<char>>,
    atom: AtomView,
    provider: Option<Seq<char>>,
) -> Progress {
    if is_to_build(in_aur, atom, provider) {
        Progress {
            edges: p.edges.insert(pkg, graph::deps(p.edges, pkg).insert(atom.name)),
            nodes: p.nodes.insert(atom.name),
            queue: if p.nodes.contains(atom.name) {
                p.queue
            } else {
                p.queue.push(atom.name)
            },
            ..p
        }
    } else {
        let from = taken_from(atom, provider);
        if atom.runtime {
            Progress { runtime: p.runtime.insert(from), ..p }
        } else {
            Progress { build: p.build.insert(from), ..p }
        }
    }
}

/// The state once all of `atoms` were classified in turn.
pub open spec fn classified_all(
    p: Progress,
    pkg: Seq<char>,
    in_aur: Set<Seq<char>>,
    atoms: Seq<AtomView>,
    providers: Seq<Option<Seq<char>>>,
) -> Progress
    decreases atoms.len(),
{
    if atoms.len() == 0 {
        p
    } else {
        classified(
            classified_all(p, pkg, in_aur, atoms.drop_last(), providers),
            pkg,
            in_aur,
            atoms.last(),
            providers[atoms.len() - 1],
        )
    }
}

/// The state once the dependencies of the next queued package were looked up
/// and classified.
pub open spec fn expanded(
    p: Progress,
    in_aur: Seq<PackageMeta>,
    providers: Seq<Option<Seq<char>>>,
) -> Progress {
    let pkg = p.queue[0];
    classified_all(
        Progress {
            queue: p.queue.drop_first(),
            expanded: p.expanded.insert(pkg),
            answers: p.answers.insert(pkg, Answer { in_aur: meta_names(in_aur), providers }),
            metas: with_metas(p.metas, in_aur),
            ..p
        },
        pkg,
        meta_names(in_aur),
        atoms_to_classify(p.metas[pkg]),
        providers,
    )
}

/// Adding packages keeps what is known and makes each of them known.
proof fn lemma_with_metas(metas: Map<Seq<char>, PackageMeta>, list: Seq<PackageMeta>)
    ensures
        metas.dom().subset_of(with_metas(metas, list).dom()),
        meta_names(list).subset_of(with_metas(metas, list).dom()),
        forall|n: Seq<char>|
            metas.dom().contains(n) ==> #[trigger] with_metas(metas, list)[n] == metas[n],
    decreases list.len(),
{
    if list.len() > 0 {
        lemma_with_metas(metas, list.drop_last());
        let now = with_metas(metas, list);
        assert forall|n: Seq<char>| meta_names(list).contains(n) implies now.dom().contains(n) by {
            let i = choose|i: int| 0 <= i < list.len() && (#[trigger] list[i]).name@ == n;
            if i < list.len() - 1 {
                assert(list.drop_last()[i].name@ == n);
                assert(meta_names(list.drop_last()).contains(n));
            }
        }
    }
}

/// A queue holds what it held, and what is pushed.
proof fn lemma_pushed(q: Seq<Seq<char>>, x: Seq<char>)
    ensures
        forall|n: Seq<char>| #[trigger] q.push(x).contains(n) <==> q.contains(n) || n == x,
{
    assert forall|n: Seq<char>| #[trigger] q.push(x).contains(n) <==> q.contains(n) || n == x by {
        let t = q.push(x);
        if q.contains(n) {
            let i = choose|i: int| 0 <= i < q.len() && q[i] == n;
            assert(t[i] == n);
        }
        assert(t[q.len() as int] == x);
        if t.contains(n) && n != x {
            let i = choose|i: int| 0 <= i < t.len() && t[i] == n;
            assert(q[i] == n);
        }
    }
}

/// Finding a requested package keeps the state well-formed.
proof fn lemma_found_target(p: Progress, m: PackageMeta)
    requires
        p.sound(),
    ensures
        found_target(p, m).sound(),
{
    let q = found_target(p, m);
    lemma_pushed(p.queue, m.name@);
    lemma_pushed(p.explicit, m.name@);
    if !p.explicit.contains(m.name@) {
        assert forall|i: int, j: int|
            0 <= i < q.explicit.len() && 0 <= j < q.explicit.len() && i != j implies q.explicit[i]
            != q.explicit[j] by {
            if i == p.explicit.len() {
                assert(p.explicit.contains(p.explicit[j]));
            } else if j == p.explicit.len() {
                assert(p.explicit.contains(p.explicit[i]));
            }
        }
    }
    assert forall|n: Seq<char>| q.nodes.contains(n) implies #[trigger] graph::deps(
        q.edges,
        n,
    ).subset_of(q.nodes) by {
        if p.nodes.contains(n) {
            assert(graph::deps(p.edges, n).subset_of(p.nodes));
        } else {
            assert(!p.edges.dom().contains(n));
        }
    }
    assert forall|n: Seq<char>| #[trigger] q.edges.dom().contains(n) implies q.nodes.contains(
        n,
    ) by {
        assert(p.edges.dom().contains(n));
    }
}

/// Classifying a dependency of a package to build keeps the state well-formed.
proof fn lemma_classified(
    p: Progress,
    pkg: Seq<char>,
    in_aur: Set<Seq<char>>,
    atom: AtomView,
    provider: Option<Seq<char>>,
)
    requires
        p.sound(),
        p.nodes.contains(pkg),
        in_aur.subset_of(p.metas.dom()),
    ensures
        classified(p, pkg, in_aur, atom, provider).sound(),
        classified(p, pkg, in_aur, atom, provider).nodes.contains(pkg),
        classified(p, pkg, in_aur, atom, provider).metas == p.metas,
        classified(p, pkg, in_aur, atom, provider).pending == p.pending,
{
    let q = classified(p, pkg, in_aur, atom, provider);
    lemma_pushed(p.queue, atom.name);
    assert forall|n: Seq<char>| q.nodes.contains(n) implies #[trigger] graph::deps(
        q.edges,
        n,
    ).subset_of(q.nodes) by {
        assert(graph::deps(p.edges, pkg).subset_of(p.nodes));
        if p.nodes.contains(n) {
            assert(graph::deps(p.edges, n).subset_of(p.nodes));
        } else {
            assert(!p.edges.dom().contains(n));
        }
    }
    assert forall|n: Seq<char>| #[trigger] q.edges.dom().contains(n) implies q.nodes.contains(
        n,
    ) by {
        assert(n != pkg ==> p.edges.dom().contains(n));
    }
}

/// Taking a package off the queue to expand it keeps the state well-formed.
proof fn lemma_taken(
    p: Progress,
    metas: Map<Seq<char>, PackageMeta>,
    answers: Map<Seq<char>, Answer>,
)
    requires
        p.sound(),
        p.queue.len() > 0,
        p.metas.dom().subset_of(metas.dom()),
    ensures
        (Progress {
            queue: p.queue.drop_first(),
            expanded: p.expanded.insert(p.queue[0]),
            metas,
            answers,
            ..p
        }).sound(),
        p.nodes.contains(p.queue[0]),
        p.metas.dom().contains(p.queue[0]),
{
    let pkg = p.queue[0];
    let q = Progress {
        queue: p.queue.drop_first(),
        expanded: p.expanded.insert(pkg),
        metas,
        answers,
        ..p
    };
    assert(p.queue.contains(pkg));
    assert(p.nodes.contains(pkg));
    assert forall|n: Seq<char>| #[trigger] q.nodes.contains(n) <==> q.queue.contains(n)
        || q.expanded.contains(n) by {
        assert(p.nodes.contains(n) <==> p.queue.contains(n) || p.expanded.contains(n));
        if p.queue.contains(n) && n != pkg {
            let i = choose|i: int| 0 <= i < p.queue.len() && p.queue[i] == n;
            assert(q.queue[i - 1] == n);
        }
        if q.queue.contains(n) {
            let i = choose|i: int| 0 <= i < q.queue.len() && q.queue[i] == n;
            assert(p.queue[i + 1] == n);
        }
    }
    assert forall|n: Seq<char>| #[trigger] q.nodes.contains(n) implies q.metas.dom().contains(
        n,
    ) by {
        assert(p.nodes.contains(n));
    }
    assert forall|n: Seq<char>| q.nodes.contains(n) implies #[trigger] graph::deps(
        q.edges,
        n,
    ).subset_of(q.nodes) by {
        assert(p.nodes.contains(n));
    }
    assert forall|n: Seq<char>| #[trigger] q.edges.dom().contains(n) implies q.nodes.contains(
        n,
    ) by {
        assert(p.edges.dom().contains(n));
    }
    assert forall|n: Seq<char>| #[trigger] q.explicit.contains(n) implies q.nodes.contains(n) by {
        assert(p.explicit.contains(n));
    }
}

/// The state before anything was looked up is well-formed.
proof fn lemma_start(targets: Seq<Seq<char>>)
    ensures
        start_of(targets).wf(),
{
    let p = start_of(targets);
    assert(p.answers.dom() =~= p.expanded);
    assert(p.runtime =~= p.takes(true));
    assert(p.build =~= p.takes(false));
}

/// Finding a requested package keeps the state faithful to the answers.
proof fn lemma_found_target_faithful(p: Progress, m: PackageMeta)
    requires
        p.wf(),
    ensures
        found_target(p, m).faithful(),
{
    let q = found_target(p, m);
    let name = m.name@;
    lemma_pushed(p.queue, name);
    lemma_pushed(p.explicit, name);
    if !p.nodes.contains(name) {
        assert(!p.queue.contains(name) && !p.expanded.contains(name));
        lemma_push_distinct(p.queue, name);
    }
    assert forall|n: Seq<char>| #[trigger] q.queue.contains(n) implies !q.expanded.contains(n) by {
        if p.queue.contains(n) {
            assert(!p.expanded.contains(n));
        }
    }
    assert forall|n: Seq<char>| #[trigger] q.expanded.contains(n) implies q.metas[n] == p.metas[n] by {
        assert(p.nodes.contains(n));
        assert(p.metas.dom().contains(n));
    }
    assert forall|n: Seq<char>| #[trigger] q.expanded.contains(n) implies ({
        &&& q.answers[n].providers.len() == atoms_to_classify(q.metas[n]).len()
        &&& graph::deps(q.edges, n) == q.needs(n)
    }) by {
        assert(p.expanded.contains(n));
        assert(q.metas[n] == p.metas[n]);
    }
    assert forall|runtime: bool| q.takes(runtime) == p.takes(runtime) by {
        assert(q.takes(runtime) =~= p.takes(runtime)) by {
            assert forall|d: Seq<char>|
                q.takes(runtime).contains(d) <==> p.takes(runtime).contains(d) by {
                if q.takes(runtime).contains(d) {
                    let n = choose|n: Seq<char>| #[trigger]
                        q.expanded.contains(n) && to_take(
                            atoms_to_classify(q.metas[n]),
                            q.answers[n],
                            runtime,
                        ).contains(d);
                    assert(p.expanded.contains(n));
                }
                if p.takes(runtime).contains(d) {
                    let n = choose|n: Seq<char>| #[trigger]
                        p.expanded.contains(n) && to_take(
                            atoms_to_classify(p.metas[n]),
                            p.answers[n],
                            runtime,
                        ).contains(d);
                    assert(q.expanded.contains(n));
                }
            }
        }
    }
    assert forall|n: Seq<char>| #[trigger] q.nodes.contains(n) implies graph::reachable(
        q.explicit.to_set(),
        q.edges,
        n,
    ) by {
        if n == name {
            assert(q.explicit.contains(name));
            graph::lemma_reach_step(q.explicit.to_set(), q.edges, name);
        } else {
            assert(p.nodes.contains(n));
            assert(p.explicit.to_set().subset_of(q.explicit.to_set()));
            graph::lemma_reach_grows(
                p.explicit.to_set(),
                p.edges,
                q.explicit.to_set(),
                q.edges,
                n,
            );
        }
    }
    assert forall|n: Seq<char>| #[trigger] q.edges.dom().contains(n) implies q.expanded.contains(
        n,
    ) by {
        assert(p.edges.dom().contains(n));
    }
}

/// A list without repetitions that grows by a new name has none.
proof fn lemma_push_distinct(q: Seq<Seq<char>>, x: Seq<char>)
    requires
        q.no_duplicates(),
        !q.contains(x),
    ensures
        q.push(x).no_duplicates(),
{
    let t = q.push(x);
    assert forall|i: int, j: int| 0 <= i < t.len() && 0 <= j < t.len() && i != j implies t[i]
        != t[j] by {
        if i == q.len() {
            assert(q.contains(q[j]));
        } else if j == q.len() {
            assert(q.contains(q[i]));
        }
    }
}

/// What one more atom adds to what has to be built and taken.
proof fn lemma_last_atom(atoms: Seq<AtomView>, a: Answer)
    requires
        atoms.len() > 0,
    ensures
        ({
            let last = atoms.last();
            let provider = a.providers[atoms.len() - 1];
            let rest = atoms.drop_last();
            if is_to_build(a.in_aur, last, provider) {
                &&& to_build(atoms, a) == to_build(rest, a).insert(last.name)
                &&& to_take(atoms, a, true) == to_take(rest, a, true)
                &&& to_take(atoms, a, false) == to_take(rest, a, false)
            } else {
                &&& to_build(atoms, a) == to_build(rest, a)
                &&& to_take(atoms, a, last.runtime) == to_take(rest, a, last.runtime).insert(
                    taken_from(last, provider),
                )
                &&& to_take(atoms, a, !last.runtime) == to_take(rest, a, !last.runtime)
            }
        }),
{
    let last = atoms.last();
    let k = atoms.len() - 1;
    let provider = a.providers[k];
    let rest = atoms.drop_last();
    let adds = is_to_build(a.in_aur, last, provider);
    assert(atoms[k] == last);
    assert forall|n: Seq<char>| #[trigger] to_build(atoms, a).contains(n) <==> to_build(
        rest,
        a,
    ).contains(n) || (adds && n == last.name) by {
        if to_build(atoms, a).contains(n) {
            let i = choose|i: int|
                0 <= i < atoms.len() && (#[trigger] atoms[i]).name == n && is_to_build(
                    a.in_aur,
                    atoms[i],
                    a.providers[i],
                );
            if i < k {
                assert(rest[i] == atoms[i]);
            }
        }
        if to_build(rest, a).contains(n) {
            let i = choose|i: int|
                0 <= i < rest.len() && (#[trigger] rest[i]).name == n && is_to_build(
                    a.in_aur,
                    rest[i],
                    a.providers[i],
                );
            assert(atoms[i] == rest[i]);
        }
    }
    assert forall|n: Seq<char>, runtime: bool| #[trigger]
        to_take(atoms, a, runtime).contains(n) <==> to_take(rest, a, runtime).contains(n) || (!adds
            && runtime == last.runtime && n == taken_from(last, provider)) by {
        if to_take(atoms, a, runtime).contains(n) {
            let i = choose|i: int|
                0 <= i < atoms.len() && (#[trigger] atoms[i]).runtime == runtime && !is_to_build(
                    a.in_aur,
                    atoms[i],
                    a.providers[i],
                ) && taken_from(atoms[i], a.providers[i]) == n;
            if i < k {
                assert(rest[i] == atoms[i]);
            }
        }
        if to_take(rest, a, runtime).contains(n) {
            let i = choose|i: int|
                0 <= i < rest.len() && (#[trigger] rest[i]).runtime == runtime && !is_to_build(
                    a.in_aur,
                    rest[i],
                    a.providers[i],
                ) && taken_from(rest[i], a.providers[i]) == n;
            assert(atoms[i] == rest[i]);
        }
    }
    if adds {
        assert(to_build(atoms, a) =~= to_build(rest, a).insert(last.name));
        assert(to_take(atoms, a, true) =~= to_take(rest, a, true));
        assert(to_take(atoms, a, false) =~= to_take(rest, a, false));
    } else {
        assert(to_build(atoms, a) =~= to_build(rest, a));
        assert(to_take(atoms, a, last.runtime) =~= to_take(rest, a, last.runtime).insert(
            taken_from(last, provider),
        ));
        assert(to_take(atoms, a, !last.runtime) =~= to_take(rest, a, !last.runtime));
    }
}

/// What classifying the atoms of a package adds to the state.
proof fn lemma_classified_all(p: Progress, pkg: Seq<char>, a: Answer, atoms: Seq<AtomView>)
    requires
        p.queue.no_duplicates(),
        forall|n: Seq<char>| #[trigger] p.queue.contains(n) ==> p.nodes.contains(n),
    ensures
        ({
            let q = classified_all(p, pkg, a.in_aur, atoms, a.providers);
            &&& q.pending == p.pending
            &&& q.explicit == p.explicit
            &&& q.metas == p.metas
            &&& q.expanded == p.expanded
            &&& q.answers == p.answers
            &&& q.nodes == p.nodes.union(to_build(atoms, a))
            &&& q.runtime == p.runtime.union(to_take(atoms, a, true))
            &&& q.build == p.build.union(to_take(atoms, a, false))
            &&& graph::deps(q.edges, pkg) == graph::deps(p.edges, pkg).union(to_build(atoms, a))
            &&& forall|n: Seq<char>|
                n != pkg ==> #[trigger] graph::deps(q.edges, n) == graph::deps(p.edges, n)
            &&& forall|n: Seq<char>| #[trigger]
                q.edges.dom().contains(n) ==> n == pkg || p.edges.dom().contains(n)
            &&& q.queue.no_duplicates()
            &&& forall|n: Seq<char>| #[trigger]
                q.queue.contains(n) <==> p.queue.contains(n) || (to_build(atoms, a).contains(n)
                    && !p.nodes.contains(n))
        }),
    decreases atoms.len(),
{
    let q = classified_all(p, pkg, a.in_aur, atoms, a.providers);
    if atoms.len() == 0 {
        assert(to_build(atoms, a) =~= Set::<Seq<char>>::empty());
        assert(to_take(atoms, a, true) =~= Set::<Seq<char>>::empty());
        assert(to_take(atoms, a, false) =~= Set::<Seq<char>>::empty());
        assert(q.nodes =~= p.nodes.union(to_build(atoms, a)));
        assert(q.runtime =~= p.runtime.union(to_take(atoms, a, true)));
        assert(q.build =~= p.build.union(to_take(atoms, a, false)));
        assert(graph::deps(q.edges, pkg) =~= graph::deps(p.edges, pkg).union(to_build(atoms, a)));
    } else {
        let rest = atoms.drop_last();
        let last = atoms.last();
        let provider = a.providers[atoms.len() - 1];
        let m = classified_all(p, pkg, a.in_aur, rest, a.providers);
        lemma_classified_all(p, pkg, a, rest);
        lemma_last_atom(atoms, a);
        assert(q == classified(m, pkg, a.in_aur, last, provider));
        lemma_pushed(m.queue, last.name);
        if is_to_build(a.in_aur, last, provider) && !m.nodes.contains(last.name) {
            assert(!m.queue.contains(last.name)) by {
                if m.queue.contains(last.name) && p.queue.contains(last.name) {
                    assert(p.nodes.contains(last.name));
                }
            }
            lemma_push_distinct(m.queue, last.name);
        }
        assert(q.nodes =~= p.nodes.union(to_build(atoms, a)));
        assert(q.runtime =~= p.runtime.union(to_take(atoms, a, true)));
        assert(q.build =~= p.build.union(to_take(atoms, a, false)));
        assert(graph::deps(q.edges, pkg) =~= graph::deps(p.edges, pkg).union(to_build(atoms, a)));
        assert forall|n: Seq<char>| n != pkg implies #[trigger] graph::deps(q.edges, n)
            == graph::deps(p.edges, n) by {
            assert(graph::deps(m.edges, n) == graph::deps(p.edges, n));
        }
        assert forall|n: Seq<char>| #[trigger] q.edges.dom().contains(n) implies n == pkg
            || p.edges.dom().contains(n) by {
            if n != pkg {
                assert(m.edges.dom().contains(n));
            }
        }
        assert forall|n: Seq<char>| #[trigger] q.queue.contains(n) <==> p.queue.contains(n) || (
        to_build(atoms, a).contains(n) && !p.nodes.contains(n)) by {
            assert(m.queue.contains(n) <==> p.queue.contains(n) || (to_build(rest, a).contains(n)
                && !p.nodes.contains(n)));
        }
    }
}

/// Expanding a package keeps the state faithful to the answers.
proof fn lemma_expanded_faithful(
    p: Progress,
    in_aur: Seq<PackageMeta>,
    providers: Seq<Option<Seq<char>>>,
)
    requires
        p.wf(),
        p.queue.len() > 0,
        providers.len() == atoms_to_classify(p.metas[p.queue[0]]).len(),
    ensures
        expanded(p, in_aur, providers).faithful(),
{
    let pkg = p.queue[0];
    let a = Answer { in_aur: meta_names(in_aur), providers };
    let atoms = atoms_to_classify(p.metas[pkg]);
    let base = Progress {
        queue: p.queue.drop_first(),
        expanded: p.expanded.insert(pkg),
        answers: p.answers.insert(pkg, a),
        metas: with_metas(p.metas, in_aur),
        ..p
    };
    let q = expanded(p, in_aur, providers);
    assert(p.queue.contains(pkg));
    assert(!p.expanded.contains(pkg));
    assert(p.nodes.contains(pkg));
    lemma_with_metas(p.metas, in_aur);
    lemma_taken(p, base.metas, base.answers);
    assert forall|n: Seq<char>| #[trigger] base.queue.contains(n) implies p.queue.contains(n) && n
        != pkg by {
        let i = choose|i: int| 0 <= i < base.queue.len() && base.queue[i] == n;
        assert(p.queue[i + 1] == n);
        assert(p.queue[0] != p.queue[i + 1]);
    }
    assert forall|n: Seq<char>| #[trigger] base.queue.contains(n) implies base.nodes.contains(
        n,
    ) by {
        assert(p.queue.contains(n));
        assert(p.nodes.contains(n));
    }
    lemma_classified_all(base, pkg, a, atoms);
    assert(q == classified_all(base, pkg, a.in_aur, atoms, a.providers));
    assert(graph::deps(p.edges, pkg) =~= Set::<Seq<char>>::empty());
    assert(graph::deps(q.edges, pkg) =~= to_build(atoms, a));
    assert forall|n: Seq<char>| p.expanded.contains(n) || n == pkg implies #[trigger] q.metas[n]
        == p.metas[n] by {
        assert(p.nodes.contains(n));
        assert(p.metas.dom().contains(n));
    }
    assert(q.answers.dom() =~= q.expanded);
    assert forall|n: Seq<char>| #[trigger] q.queue.contains(n) implies !q.expanded.contains(n) by {
        if base.queue.contains(n) {
            assert(p.queue.contains(n) && n != pkg);
        } else {
            assert(!p.nodes.contains(n));
        }
    }
    assert forall|n: Seq<char>| #[trigger] q.edges.dom().contains(n) implies q.expanded.contains(
        n,
    ) by {
        assert(n == pkg || p.edges.dom().contains(n));
    }
    assert forall|n: Seq<char>| #[trigger] q.expanded.contains(n) implies ({
        &&& q.answers[n].providers.len() == atoms_to_classify(q.metas[n]).len()
        &&& graph::deps(q.edges, n) == q.needs(n)
    }) by {
        assert(q.metas[n] == p.metas[n]);
        if n != pkg {
            assert(p.expanded.contains(n));
            assert(graph::deps(q.edges, n) == graph::deps(base.edges, n));
            assert(p.needs(n) == q.needs(n));
        }
    }
    lemma_takes(p, q, pkg, true);
    lemma_takes(p, q, pkg, false);
    assert(q.runtime =~= q.takes(true));
    assert(q.build =~= q.takes(false));
    assert forall|n: Seq<char>| #[trigger] graph::deps(p.edges, n).subset_of(
        graph::deps(q.edges, n),
    ) by {
        if n != pkg {
            assert(graph::deps(q.edges, n) == graph::deps(base.edges, n));
        }
    }
    let roots = p.explicit.to_set();
    assert forall|n: Seq<char>| #[trigger] q.nodes.contains(n) implies graph::reachable(
        q.explicit.to_set(),
        q.edges,
        n,
    ) by {
        if p.nodes.contains(n) {
            graph::lemma_reach_grows(roots, p.edges, roots, q.edges, n);
        } else {
            graph::lemma_reach_grows(roots, p.edges, roots, q.edges, pkg);
            graph::lemma_reach_step(roots, q.edges, pkg);
            assert(graph::deps(q.edges, pkg).contains(n));
        }
    }
}

/// What is taken from repositories grows by what the new package takes.
proof fn lemma_takes(p: Progress, q: Progress, pkg: Seq<char>, runtime: bool)
    requires
        q.expanded == p.expanded.insert(pkg),
        !p.expanded.contains(pkg),
        forall|n: Seq<char>|
            p.expanded.contains(n) || n == pkg ==> #[trigger] q.metas[n] == p.metas[n],
        forall|n: Seq<char>|
            p.expanded.contains(n) ==> #[trigger] q.answers[n] == p.answers[n],
    ensures
        q.takes(runtime) == p.takes(runtime).union(
            to_take(atoms_to_classify(p.metas[pkg]), q.answers[pkg], runtime),
        ),
{
    let new = to_take(atoms_to_classify(p.metas[pkg]), q.answers[pkg], runtime);
    assert forall|d: Seq<char>|
        q.takes(runtime).contains(d) <==> p.takes(runtime).contains(d) || new.contains(d) by {
        if q.takes(runtime).contains(d) {
            let n = choose|n: Seq<char>| #[trigger]
                q.expanded.contains(n) && to_take(
                    atoms_to_classify(q.metas[n]),
                    q.answers[n],
                    runtime,
                ).contains(d);
            assert(q.metas[n] == p.metas[n]);
            if n != pkg {
                assert(p.expanded.contains(n));
                assert(q.answers[n] == p.answers[n]);
            }
        }
        if p.takes(runtime).contains(d) {
            let n = choose|n: Seq<char>| #[trigger]
                p.expanded.contains(n) && to_take(
                    atoms_to_classify(p.metas[n]),
                    p.answers[n],
                    runtime,
                ).contains(d);
            assert(q.expanded.contains(n));
            assert(q.metas[n] == p.metas[n]);
            assert(q.answers[n] == p.answers[n]);
        }
        if new.contains(d) {
            assert(q.expanded.contains(pkg));
            assert(q.metas[pkg] == p.metas[pkg]);
        }
    }
    assert(q.takes(runtime) =~= p.takes(runtime).union(new));
}

/// What has to be looked up to classify the dependencies of a package.
#[derive(Debug)]
pub struct Query {
    /// The package whose dependencies are classified.
    pub package: String,
    /// The names to look up in the AUR, all at once.
    pub names: Vec<String>,
    /// The atoms to find a repository provider for, one by one.
    pub atoms: Vec<Atom>,
}

/// A request is what a resolution needs next: the first target that was not looked
/// up yet, and once there is none the dependencies of the first package that waits
/// for it.
pub open spec fn is_next(r: Request, p: Progress) -> bool {
    match r {
        Request::Target(t) => p.pending.len() > 0 && t@ == p.pending[0],
        Request::Dependencies(q) => {
            &&& p.pending.len() == 0 && p.queue.len() > 0
            &&& q.package@ == p.queue[0]
            &&& atoms_of(q.atoms@) == atoms_to_classify(p.metas[p.queue[0]])
            &&& text::texts(q.names@).to_set() == atom_names(atoms_of(q.atoms@))
        },
        Request::Nothing => p.pending.len() == 0 && p.queue.len() == 0,
    }
}

/// What a resolution needs next.
#[derive(Debug)]
pub enum Request {
    /// Look up a requested package in the AUR.
    Target(String),
    /// Look up the dependencies of a package.
    Dependencies(Query),
    /// Nothing: the plan can be made.
    Nothing,
}

/// Why a resolution failed.
#[derive(Debug)]
pub enum ResolveError {
    /// A requested package is not in the AUR.
    NotInAur(String),
    /// A package depends on itself, directly or through others.
    Cycle(String),
}

impl ResolveError {
    /// The message that is shown to the user.
    pub fn message(&self) -> (r: String)
        ensures
            r@ == (match self {
                ResolveError::NotInAur(t) => "'"@ + t@ + "' is not in the AUR"@,
                ResolveError::Cycle(n) => "dependency cycle detected at '"@ + n@ + "'"@,
            }),
    {
        match self {
            ResolveError::NotInAur(t) => text::concat3("'", t.as_str(), "' is not in the AUR"),
            ResolveError::Cycle(n) => text::concat3(
                "dependency cycle detected at '",
                n.as_str(),
                "'",
            ),
        }
    }
}

/// The outcome of resolving one or more targets.
#[derive(Debug)]
pub struct ResolvedPlan {
    /// The requested packages under their own names.
    pub explicit_targets: Vec<String>,
    /// Packages to build, each after the packages it depends on: `layers`
    /// flattened.
    pub aur_build_order: Vec<String>,
    /// The build order in layers: a package of a layer depends only on earlier
    /// layers, so a whole layer can be built in parallel.
    pub layers: Vec<Vec<String>>,
    /// Repository dependencies, by the names of the packages that provide them.
    pub repo_deps: Vec<String>,
    /// Repository dependencies that are needed only to build or to test. They
    /// can be removed after the installation.
    pub make_only_deps: Vec<String>,
}

/// The contents of a list of optional strings.
pub open spec fn opt_texts(v: Seq<Option<String>>) -> Seq<Option<Seq<char>>> {
    Seq::new(v.len(), |i: int| text::opt_text(v[i]))
}

/// A resolution in progress.
pub struct Resolver {
    pending: VecDeque<String>,
    explicit: Vec<String>,
    nodes: NameSet,
    edges: NameMap<NameSet>,
    runtime: NameSet,
    build: NameSet,
    metas: NameMap<PackageMeta>,
    queue: VecDeque<String>,
    expanded: Ghost<Set<Seq<char>>>,
    answers: Ghost<Map<Seq<char>, Answer>>,
}

impl View for Resolver {
    type V = Progress;

    closed spec fn view(&self) -> Progress {
        Progress {
            pending: text::texts(self.pending@),
            explicit: text::texts(self.explicit@),
            nodes: self.nodes@,
            edges: graph::edge_sets(self.edges@),
            runtime: self.runtime@,
            build: self.build@,
            metas: self.metas@,
            queue: text::texts(self.queue@),
            expanded: self.expanded@,
            answers: self.answers@,
        }
    }
}

/// Starts to resolve a single target.
pub fn resolve(target: &str) -> (r: Resolver)
    ensures
        r@ == start_of(seq![target@]),
        r@.wf(),
{
    let targets = [target];
    let r = resolve_many(&targets);
    proof {
        assert(text::slices(targets@) =~= seq![target@]);
    }
    r
}

/// Starts to resolve several targets into one combined plan, in which shared
/// dependencies are built once.
pub fn resolve_many(targets: &[&str]) -> (r: Resolver)
    ensures
        r@ == start_of(text::slices(targets@)),
        r@.wf(),
{
    let mut pending: VecDeque<String> = VecDeque::new();
    let mut i: usize = 0;
    while i < targets.len()
        invariant
            i <= targets@.len(),
            text::texts(pending@) == text::slices(targets@).take(i as int),
        decreases targets@.len() - i,
    {
        let ghost before = text::texts(pending@);
        pending.push_back(String::from_str(targets[i]));
        proof {
            assert(text::texts(pending@) =~= before.push(targets@[i as int]@));
            assert(text::texts(pending@) =~= text::slices(targets@).take(i + 1));
        }
        i += 1;
    }
    let r = Resolver {
        pending,
        explicit: Vec::new(),
        nodes: NameSet::new(),
        edges: NameMap::new(),
        runtime: NameSet::new(),
        build: NameSet::new(),
        metas: NameMap::new(),
        queue: VecDeque::new(),
        expanded: Ghost(Set::empty()),
        answers: Ghost(Map::empty()),
    };
    proof {
        assert(text::slices(targets@).take(targets@.len() as int) =~= text::slices(targets@));
        assert(r@ =~= start_of(text::slices(targets@)));
        lemma_start(text::slices(targets@));
    }
    r
}

impl Resolver {
    /// What has to be looked up next.
    pub fn next(&self) -> (r: Request)
        requires
            self@.wf(),
        ensures
            is_next(r, self@),
            match r {
                Request::Target(t) => self@.pending.len() > 0 && t@ == self@.pending[0],
                Request::Dependencies(q) => {
                    &&& self@.pending.len() == 0
                    &&& self@.queue.len() > 0
                    &&& q.package@ == self@.queue[0]
                    &&& atoms_of(q.atoms@) == atoms_to_classify(self@.metas[self@.queue[0]])
                    &&& text::texts(q.names@) == order::sorted_list(
                        atom_names(atoms_of(q.atoms@)),
                    )
                },
                Request::Nothing => self@.pending.len() == 0 && self@.queue.len() == 0,
            },
    {
        if self.pending.len() > 0 {
            return Request::Target(self.pending[0].clone());
        }
        if self.queue.len() == 0 {
            return Request::Nothing;
        }
        let package = self.queue[0].clone();
        proof {
            assert(self@.queue[0] == package@);
            assert(self@.queue.contains(package@));
            assert(self@.nodes.contains(package@));
        }
        let (atoms, names) = self.atoms_of_package(package.as_str());
        Request::Dependencies(Query { package, names, atoms })
    }

    /// The atoms of a known package, and their names in ascending order.
    fn atoms_of_package(&self, package: &str) -> (r: (Vec<Atom>, Vec<String>))
        requires
            self@.metas.dom().contains(package@),
        ensures
            atoms_of(r.0@) == atoms_to_classify(self@.metas[package@]),
            text::texts(r.1@) == order::sorted_list(atom_names(atoms_of(r.0@))),
            text::texts(r.1@).to_set() == atom_names(atoms_of(r.0@)),
    {
        let mut atoms: Vec<Atom> = Vec::new();
        let mut seen = NameSet::new();
        proof {
            assert(atoms_of(atoms@) =~= Seq::<AtomView>::empty());
            assert(seen@ =~= atom_names(atoms_of(atoms@)));
        }
        if let Some(meta) = self.metas.get(package) {
            add_atoms(&mut atoms, &mut seen, &meta.depends, true);
            add_atoms(&mut atoms, &mut seen, &meta.make_depends, false);
            add_atoms(&mut atoms, &mut seen, &meta.check_depends, false);
        }
        let names = seen.to_list();
        (atoms, names)
    }

    /// Takes the answer for a requested package: what the AUR says of it, or
    /// `None` where the AUR does not have it.
    pub fn target_found(&mut self, answer: Option<PackageMeta>) -> (r: Result<(), ResolveError>)
        requires
            old(self)@.wf(),
            old(self)@.pending.len() > 0,
        ensures
            final(self)@.wf(),
            match answer {
                Some(m) => r is Ok && final(self)@ == found_target(old(self)@, m),
                None => {
                    &&& final(self)@ == old(self)@
                    &&& r matches Err(ResolveError::NotInAur(t)) && t@ == old(self)@.pending[0]
                },
            },
    {
        let ghost before = self@;
        match answer {
            Some(meta) => {
                proof {
                    lemma_found_target(before, meta);
                    lemma_found_target_faithful(before, meta);
                }
                self.pending.pop_front();
                let name = meta.name.clone();
                if !self.metas.contains_key(name.as_str()) {
                    self.metas.insert(name.clone(), meta);
                }
                if self.nodes.insert(name.clone()) {
                    self.queue.push_back(name.clone());
                }
                if !text::list_contains(&self.explicit, name.as_str()) {
                    self.explicit.push(name);
                }
                proof {
                    let after = found_target(before, meta);
                    assert(self@.pending =~= after.pending);
                    assert(self@.explicit =~= after.explicit);
                    assert(self@.queue =~= after.queue);
                    assert(self@.metas =~= after.metas);
                    assert(self@ =~= after);
                }
                Ok(())
            },
            None => {
                proof {
                    assert(before.pending[0] == self.pending@[0]@);
                }
                Err(ResolveError::NotInAur(self.pending[0].clone()))
            },
        }
    }

    /// Classifies one dependency of `pkg`: a package to build if the AUR has it
    /// and no repository provides it, a repository dependency otherwise.
    fn classify_dep(
        &mut self,
        pkg: &str,
        in_aur: &NameSet,
        atom: &Atom,
        provider: Option<String>,
    )
        requires
            old(self)@.sound(),
            old(self)@.nodes.contains(pkg@),
            in_aur@.subset_of(old(self)@.metas.dom()),
        ensures
            final(self)@ == classified(
                old(self)@,
                pkg@,
                in_aur@,
                atom@,
                text::opt_text(provider),
            ),
            final(self)@.sound(),
            final(self)@.nodes.contains(pkg@),
            final(self)@.metas == old(self)@.metas,
            final(self)@.pending == old(self)@.pending,
    {
        let ghost before = self@;
        let ghost after = classified(before, pkg@, in_aur@, atom@, text::opt_text(provider));
        proof {
            lemma_classified(before, pkg@, in_aur@, atom@, text::opt_text(provider));
        }
        let has_provider = provider.is_some();
        if in_aur.contains(atom.name.as_str()) && !has_provider {
            let mut needed = match self.edges.remove(pkg) {
                Some(set) => set,
                None => NameSet::new(),
            };
            proof {
                assert(needed@ =~= graph::deps(before.edges, pkg@));
            }
            needed.insert(atom.name.clone());
            self.edges.insert(String::from_str(pkg), needed);
            if self.nodes.insert(atom.name.clone()) {
                self.queue.push_back(atom.name.clone());
            }
            proof {
                assert(self@.edges =~= after.edges);
                assert(self@.queue =~= after.queue);
                assert(self@ =~= after);
            }
        } else {
            let from = match provider {
                Some(name) => name,
                None => atom.name.clone(),
            };
            if atom.runtime {
                self.runtime.insert(from);
            } else {
                self.build.insert(from);
            }
            proof {
                assert(self@ =~= after);
            }
        }
    }

    /// Takes the answer for the dependencies of the next queued package:
    /// `in_aur` holds what the AUR says of the names that were asked for, and
    /// `providers` holds, for each atom in turn, the repository package that
    /// provides it. Where no repository can be asked, all of them are `None`.
    pub fn dependencies_found(&mut self, in_aur: Vec<PackageMeta>, providers: Vec<Option<String>>)
        requires
            old(self)@.wf(),
            old(self)@.queue.len() > 0,
            providers@.len() == atoms_to_classify(old(self)@.metas[old(self)@.queue[0]]).len(),
        ensures
            final(self)@ == expanded(old(self)@, in_aur@, opt_texts(providers@)),
            final(self)@.wf(),
            final(self)@.pending == old(self)@.pending,
    {
        let ghost before = self@;
        let ghost list = in_aur@;
        let ghost provs = opt_texts(providers@);
        let ghost new_answers = before.answers.insert(
            before.queue[0],
            Answer { in_aur: meta_names(list), providers: provs },
        );
        proof {
            lemma_with_metas(before.metas, list);
            lemma_taken(before, with_metas(before.metas, list), new_answers);
            lemma_expanded_faithful(before, list, provs);
        }
        let package = match self.queue.pop_front() {
            Some(p) => p,
            None => {
                return;
            },
        };
        let ghost pkg = before.queue[0];
        proof {
            assert(package@ == pkg);
            self.expanded@ = self.expanded@.insert(pkg);
            self.answers@ = new_answers;
        }
        let (atoms, _names) = self.atoms_of_package(package.as_str());
        let mut aur_names = NameSet::new();
        let ghost queue = text::texts(self.queue@);
        proof {
            assert(queue =~= before.queue.drop_first());
            assert(aur_names@ =~= meta_names(list.take(0)));
        }
        let ghost taken = Progress {
            queue: before.queue.drop_first(),
            expanded: before.expanded.insert(pkg),
            answers: new_answers,
            ..before
        };
        for meta in it: in_aur.into_iter()
            invariant
                it.seq() == list,
                self@ == (Progress {
                    metas: with_metas(before.metas, list.take(it.index() as int)),
                    ..taken
                }),
                aur_names@ == meta_names(list.take(it.index() as int)),
        {
            let ghost i = it.index() as int;
            let ghost was = self@;
            let name = meta.name.clone();
            proof {
                assert(list.take(i + 1).drop_last() =~= list.take(i));
                assert(list.take(i + 1).last() == meta);
            }
            let ghost names_before = aur_names@;
            aur_names.insert(name.clone());
            if !self.metas.contains_key(name.as_str()) {
                self.metas.insert(name, meta);
            }
            proof {
                let now = list.take(i + 1);
                assert(self@ =~= (Progress { metas: with_metas(before.metas, now), ..taken }));
                assert(aur_names@ =~= meta_names(now)) by {
                    assert forall|n: Seq<char>| aur_names@.contains(n) <==> meta_names(now).contains(
                        n,
                    ) by {
                        if names_before.contains(n) {
                            let j = choose|j: int|
                                0 <= j < i && (#[trigger] list.take(i)[j]).name@ == n;
                            assert(now[j].name@ == n);
                        }
                        assert(now[i].name@ == meta.name@);
                        if meta_names(now).contains(n) && n != meta.name@ {
                            let j = choose|j: int|
                                0 <= j < now.len() && (#[trigger] now[j]).name@ == n;
                            assert(list.take(i)[j].name@ == n);
                        }
                    }
                }
            }
        }
        let ghost base = Progress { metas: with_metas(before.metas, list), ..taken };
        let ghost todo = atoms_of(atoms@);
        proof {
            assert(list.take(list.len() as int) =~= list);
            assert(self@ == base);
        }
        let mut i: usize = 0;
        while i < atoms.len()
            invariant
                i <= atoms@.len(),
                todo == atoms_of(atoms@),
                provs == opt_texts(providers@),
                providers@.len() == atoms@.len(),
                self@ == classified_all(base, pkg, aur_names@, todo.take(i as int), provs),
                self@.sound(),
                self@.nodes.contains(pkg),
                self@.metas == base.metas,
                self@.pending == base.pending,
                aur_names@.subset_of(base.metas.dom()),
                package@ == pkg,
            decreases atoms@.len() - i,
        {
            let provider = match &providers[i] {
                Some(p) => Some(p.clone()),
                None => None,
            };
            self.classify_dep(package.as_str(), &aur_names, &atoms[i], provider);
            proof {
                assert(todo.take(i + 1).drop_last() =~= todo.take(i as int));
                assert(todo.take(i + 1).last() == atoms@[i as int]@);
            }
            i += 1;
        }
        proof {
            assert(todo.take(todo.len() as int) =~= todo);
        }
    }

    /// The plan, once nothing is left to look up. Fails exactly when packages
    /// to build depend on each other in a circle.
    pub fn plan(&self) -> (r: Result<ResolvedPlan, ResolveError>)
        requires
            self@.wf(),
            self@.pending.len() == 0,
            self@.queue.len() == 0,
        ensures
            r matches Ok(plan) ==> is_plan_for(plan, self@),
            match r {
                Ok(plan) => {
                    &&& text::texts(plan.explicit_targets@) == self@.explicit
                    &&& graph::are_layers(
                        self@.nodes,
                        self@.edges,
                        graph::layer_texts(plan.layers@),
                    )
                    &&& text::texts(plan.aur_build_order@) == graph::layer_texts(
                        plan.layers@,
                    ).flatten()
                    &&& graph::is_build_order(self@.edges, text::texts(plan.aur_build_order@))
                    &&& text::texts(plan.aur_build_order@).to_set() == self@.nodes
                    &&& text::texts(plan.repo_deps@) == order::sorted_list(
                        self@.runtime.union(self@.build),
                    )
                    &&& text::texts(plan.make_only_deps@) == order::sorted_list(
                        self@.build.difference(self@.runtime),
                    )
                },
                Err(e) => {
                    &&& e matches ResolveError::Cycle(at)
                    &&& graph::visit_of(self@.nodes, self@.edges) == graph::Visit::Met(at@)
                    &&& graph::on_cycle(self@.edges, at@)
                    &&& graph::reachable(self@.nodes, self@.edges, at@)
                },
            },
            r is Err <==> exists|x: Seq<char>| #[trigger]
                graph::reachable(self@.nodes, self@.edges, x) && graph::on_cycle(self@.edges, x),
    {
        let found = match graph::topo_order(&self.nodes, &self.edges) {
            Ok(found) => found,
            Err(c) => {
                return Err(ResolveError::Cycle(c.at));
            },
        };
        let layers = graph::build_layers(&self.nodes, &self.edges);
        let aur_build_order = graph::flatten(&layers);
        proof {
            let all = graph::layer_texts(layers@);
            let found = text::texts(found@);
            assert forall|n: Seq<char>| self@.nodes.contains(n) implies found.contains(n) by {
                let p = seq![n];
                assert(graph::is_path(self@.edges, p));
                assert(p.last() == n);
                assert(graph::reachable(self@.nodes, self@.edges, n));
            }
            graph::law_layers_cover(self@.nodes, self@.edges, all, found);
            graph::law_layers_are_build_order(self@.nodes, self@.edges, all);
        }
        let make_only = self.build.difference(&self.runtime);
        let repo = self.runtime.union(&self.build);
        let mut explicit_targets: Vec<String> = Vec::new();
        let mut i: usize = 0;
        while i < self.explicit.len()
            invariant
                i <= self.explicit@.len(),
                text::texts(explicit_targets@) == self@.explicit.take(i as int),
            decreases self.explicit@.len() - i,
        {
            let ghost before = text::texts(explicit_targets@);
            explicit_targets.push(self.explicit[i].clone());
            proof {
                assert(text::texts(explicit_targets@) =~= before.push(self.explicit@[i as int]@));
                assert(text::texts(explicit_targets@) =~= self@.explicit.take(i + 1));
            }
            i += 1;
        }
        proof {
            assert(self@.explicit.take(self@.explicit.len() as int) =~= self@.explicit);
        }
        Ok(
            ResolvedPlan {
                explicit_targets,
                aur_build_order,
                layers,
                repo_deps: repo.to_list(),
                make_only_deps: make_only.to_list(),
            },
        )
    }
}

/// A dependency becomes a package to build if and only if the AUR has it and no
/// repository provides it; otherwise its provider is recorded, and no package
/// to build is added.
pub proof fn law_aur_target_iff(
    p: Progress,
    pkg: Seq<char>,
    in_aur: Set<Seq<char>>,
    atom: AtomView,
    provider: Option<Seq<char>>,
)
    ensures
        ({
            let q = classified(p, pkg, in_aur, atom, provider);
            if in_aur.contains(atom.name) && provider is None {
                &&& graph::deps(q.edges, pkg) == graph::deps(p.edges, pkg).insert(atom.name)
                &&& q.nodes.contains(atom.name)
                &&& q.runtime == p.runtime
                &&& q.build == p.build
            } else {
                &&& q.edges == p.edges
                &&& q.nodes == p.nodes
                &&& q.queue == p.queue
                &&& provider matches Some(name) ==> q.runtime.union(q.build).contains(name)
                &&& provider is None ==> q.runtime.union(q.build).contains(atom.name)
            }
        }),
{
}

/// A resolution with an empty queue follows from the answers alone: the packages
/// to build are those that a requested package leads to; each of them depends on
/// exactly its dependencies that the AUR has and no repository provides; and the
/// repository dependencies are exactly what the other dependencies of those
/// packages are taken from.
pub proof fn law_plan_is_complete(p: Progress)
    requires
        p.wf(),
        p.queue.len() == 0,
    ensures
        forall|n: Seq<char>|
            p.nodes.contains(n) <==> #[trigger] graph::reachable(p.explicit.to_set(), p.edges, n),
        forall|n: Seq<char>| #[trigger]
            p.nodes.contains(n) ==> p.answers.dom().contains(n) && graph::deps(p.edges, n)
                == to_build(atoms_to_classify(p.metas[n]), p.answers[n]),
        p.runtime == p.takes(true),
        p.build == p.takes(false),
        p.expanded == p.nodes,
{
    assert forall|n: Seq<char>| p.nodes.contains(n) <==> p.expanded.contains(n) by {
        assert(!p.queue.contains(n));
    }
    assert(p.nodes =~= p.expanded);
    assert forall|n: Seq<char>|
        p.nodes.contains(n) <==> #[trigger] graph::reachable(p.explicit.to_set(), p.edges, n) by {
        if graph::reachable(p.explicit.to_set(), p.edges, n) {
            assert(p.explicit.to_set().subset_of(p.nodes)) by {
                assert forall|t: Seq<char>| p.explicit.to_set().contains(t) implies p.nodes.contains(
                    t,
                ) by {
                    assert(p.explicit.contains(t));
                }
            }
            graph::lemma_reach_within(p.explicit.to_set(), p.edges, p.nodes, n);
        }
    }
    assert forall|n: Seq<char>| #[trigger] p.nodes.contains(n) implies p.answers.dom().contains(n)
        && graph::deps(p.edges, n) == to_build(atoms_to_classify(p.metas[n]), p.answers[n]) by {
        assert(p.expanded.contains(n));
        assert(graph::deps(p.edges, n) == p.needs(n));
    }
}

/// Whatever `--rmdeps` may remove is a repository dependency, and none that is
/// needed at run time.
pub proof fn law_make_only_is_removable(p: Progress, dep: Seq<char>)
    ensures
        p.build.difference(p.runtime).contains(dep) ==> p.runtime.union(p.build).contains(dep)
            && !p.runtime.contains(dep),
{
}

/// An atom that is declared for run time is classified as one, whatever else
/// declares the same name.
pub proof fn law_runtime_wins(meta: PackageMeta, i: int)
    requires
        0 <= i < meta.depends@.len(),
        bare(meta.depends@[i]@).len() > 0,
    ensures
        exists|j: int|
            0 <= j < atoms_to_classify(meta).len() && (#[trigger] atoms_to_classify(meta)[j]).name
                == bare(meta.depends@[i]@) && atoms_to_classify(meta)[j].runtime,
        forall|j: int|
            0 <= j < atoms_to_classify(meta).len() && (#[trigger] atoms_to_classify(meta)[j]).name
                == bare(meta.depends@[i]@) ==> atoms_to_classify(meta)[j].runtime,
{
    let name = bare(meta.depends@[i]@);
    let deps = text::texts(meta.depends@);
    let a = with_atoms(Seq::empty(), deps, true);
    let b = with_atoms(a, text::texts(meta.make_depends@), false);
    let c = with_atoms(b, text::texts(meta.check_depends@), false);
    lemma_with_atoms(Seq::empty(), deps, true);
    lemma_with_atoms(a, text::texts(meta.make_depends@), false);
    lemma_with_atoms(b, text::texts(meta.check_depends@), false);
    assert(deps[i] == meta.depends@[i]@);
    assert(names_atom(a, name));
    let k = choose|k: int| 0 <= k < a.len() && (#[trigger] a[k]).name == name;
    assert(a[k].runtime);
    assert(b[k] == a[k]);
    assert(c[k] == b[k]);
    assert forall|j: int| 0 <= j < c.len() && (#[trigger] c[j]).name == name implies c[j].runtime by {
        if j != k {
            assert(c[j].name != c[k].name);
        }
    }
    assert(c == atoms_to_classify(meta));
    assert(atoms_to_classify(meta)[k].name == name);
}

/// Adding atoms keeps those that are there, adds each name once, and adds every
/// name of the list.
proof fn lemma_with_atoms(q: Seq<AtomView>, list: Seq<Seq<char>>, runtime: bool)
    requires
        forall|i: int, j: int| 0 <= i < q.len() && 0 <= j < q.len() && i != j ==> (#[trigger] q[i]).name != (#[trigger] q[j]).name,
    ensures
        q.is_prefix_of(with_atoms(q, list, runtime)),
        forall|i: int, j: int|
            0 <= i < with_atoms(q, list, runtime).len() && 0 <= j < with_atoms(
                q,
                list,
                runtime,
            ).len() && i != j ==> (#[trigger] with_atoms(q, list, runtime)[i]).name != (
            #[trigger] with_atoms(q, list, runtime)[j]).name,
        forall|i: int|
            q.len() <= i < with_atoms(q, list, runtime).len() ==> (#[trigger] with_atoms(
                q,
                list,
                runtime,
            )[i]).runtime == runtime,
        forall|i: int|
            0 <= i < list.len() && bare(#[trigger] list[i]).len() > 0 ==> names_atom(
                with_atoms(q, list, runtime),
                bare(list[i]),
            ),
    decreases list.len(),
{
    if list.len() > 0 {
        lemma_with_atoms(q, list.drop_last(), runtime);
        let before = with_atoms(q, list.drop_last(), runtime);
        let now = with_atoms(q, list, runtime);
        let name = bare(list.last());
        assert forall|i: int| 0 <= i < list.len() && bare(#[trigger] list[i]).len() > 0 implies names_atom(
            now,
            bare(list[i]),
        ) by {
            if i < list.len() - 1 {
                assert(list.drop_last()[i] == list[i]);
                assert(names_atom(before, bare(list[i])));
                let j = choose|j: int|
                    0 <= j < before.len() && (#[trigger] before[j]).name == bare(list[i]);
                assert(now[j] == before[j]);
            } else if !names_atom(before, name) {
                assert(now[before.len() as int].name == name);
            }
        }
        assert forall|i: int, j: int|
            0 <= i < now.len() && 0 <= j < now.len() && i != j implies (#[trigger] now[i]).name != (
        #[trigger] now[j]).name by {
            if now.len() > before.len() {
                if i == before.len() {
                    assert(before[j].name != name);
                } else if j == before.len() {
                    assert(before[i].name != name);
                } else {
                    assert(before[i].name != before[j].name);
                }
            }
        }
    }
}

/// The name of an atom carries no version constraint.
pub proof fn law_bare_names_are_bare(dep: Seq<char>)
    ensures
        !bare(dep).contains('<'),
        !bare(dep).contains('>'),
        !bare(dep).contains('='),
{
    let n = text::until(dep, starts_constraint());
    let head = dep.take(n);
    text::lemma_until(dep, starts_constraint());
    assert forall|i: int| 0 <= i < head.len() implies !starts_constraint()(#[trigger] head[i]) by {
        assert(head[i] == dep[i]);
    }
    text::lemma_trimmed(head, '<');
    text::lemma_trimmed(head, '>');
    text::lemma_trimmed(head, '=');
}

/// The name of an atom is everything before its version constraint: for a name
/// that holds no `<`, `>` or `=` and has no white space at its ends, whatever
/// constraint follows it.
pub proof fn law_name_is_all_before_the_constraint(n: Seq<char>, r: Seq<char>)
    requires
        !n.contains('<') && !n.contains('>') && !n.contains('='),
        n.len() > 0 ==> !text::is_white_space(n[0]) && !text::is_white_space(n.last()),
        r.len() > 0 ==> r[0] == '<' || r[0] == '>' || r[0] == '=',
    ensures
        bare(n + r) == n,
{
    let e = Seq::<char>::empty();
    law_white_space_around_a_name(e, n, e, r);
    assert(e + n + e + r =~= n + r);
}

/// White space around the name of an atom is no part of it.
pub proof fn law_white_space_around_a_name(
    w: Seq<char>,
    n: Seq<char>,
    v: Seq<char>,
    r: Seq<char>,
)
    requires
        text::is_blank(w) && text::is_blank(v),
        !n.contains('<') && !n.contains('>') && !n.contains('='),
        n.len() > 0 ==> !text::is_white_space(n[0]) && !text::is_white_space(n.last()),
        r.len() > 0 ==> r[0] == '<' || r[0] == '>' || r[0] == '=',
    ensures
        bare(w + n + v + r) == n,
{
    let head = w + n + v;
    let dep = head + r;
    assert forall|i: int| 0 <= i < head.len() implies !starts_constraint()(#[trigger] dep[i]) by {
        assert(dep[i] == head[i]);
        if i < w.len() {
            assert(text::is_white_space(w[i]));
        } else if i < w.len() + n.len() {
            assert(n.contains(n[i - w.len()]));
        } else {
            assert(text::is_white_space(v[i - w.len() - n.len()]));
        }
    }
    if r.len() > 0 {
        assert(dep[head.len() as int] == r[0]);
    }
    text::lemma_until_at(dep, starts_constraint(), head.len() as int);
    assert(dep.take(head.len() as int) =~= head);
    text::law_trimming_takes_white_space_off(w, n, v);
}

/// A dependency is declared by one of the lists of a package.
pub open spec fn is_declared(list: Seq<String>, name: Seq<char>) -> bool {
    exists|i: int| 0 <= i < list.len() && bare((#[trigger] list[i])@) == name
}

/// Every dependency that a package declares, to run, to build or to test it, is
/// classified, each name once, and nothing else is; it is needed at run time
/// exactly if the package declares it so.
pub proof fn law_every_dependency_is_classified(meta: PackageMeta, name: Seq<char>)
    requires
        name.len() > 0,
    ensures
        names_atom(atoms_to_classify(meta), name) <==> is_declared(meta.depends@, name)
            || is_declared(meta.make_depends@, name) || is_declared(meta.check_depends@, name),
        forall|j: int|
            0 <= j < atoms_to_classify(meta).len() && (#[trigger] atoms_to_classify(meta)[j]).name
                == name ==> (atoms_to_classify(meta)[j].runtime <==> is_declared(
                meta.depends@,
                name,
            )),
        forall|i: int, j: int|
            0 <= i < j < atoms_to_classify(meta).len() ==> (#[trigger] atoms_to_classify(
                meta,
            )[i]).name != (#[trigger] atoms_to_classify(meta)[j]).name,
        forall|j: int|
            0 <= j < atoms_to_classify(meta).len() ==> (#[trigger] atoms_to_classify(meta)[j]).name
                == bare(atoms_to_classify(meta)[j].raw) && atoms_to_classify(meta)[j].name.len()
                > 0,
{
    let deps = text::texts(meta.depends@);
    let make = text::texts(meta.make_depends@);
    let check = text::texts(meta.check_depends@);
    let a = with_atoms(Seq::empty(), deps, true);
    let b = with_atoms(a, make, false);
    let c = with_atoms(b, check, false);
    lemma_with_atoms(Seq::empty(), deps, true);
    lemma_with_atoms(a, make, false);
    lemma_with_atoms(b, check, false);
    lemma_atoms_from(Seq::empty(), deps, true);
    lemma_atoms_from(a, make, false);
    lemma_atoms_from(b, check, false);
    lemma_declared(meta.depends@, name);
    lemma_declared(meta.make_depends@, name);
    lemma_declared(meta.check_depends@, name);
    assert(c == atoms_to_classify(meta));
    if names_atom(c, name) {
        let j = choose|j: int| 0 <= j < c.len() && (#[trigger] c[j]).name == name;
        if j < a.len() {
            assert(a[j] == b[j] && b[j] == c[j]);
        } else if j < b.len() {
            assert(b[j] == c[j]);
        }
    }
    if is_declared(meta.depends@, name) {
        let i = choose|i: int| 0 <= i < deps.len() && bare(#[trigger] deps[i]) == name;
        assert(names_atom(a, name));
        let j = choose|j: int| 0 <= j < a.len() && (#[trigger] a[j]).name == name;
        assert(a[j] == b[j] && b[j] == c[j]);
        assert(names_atom(c, name));
        assert forall|k: int| 0 <= k < c.len() && (#[trigger] c[k]).name == name implies c[k].runtime by {
            if k != j {
                assert(c[k].name != c[j].name);
            }
        }
    } else {
        assert forall|k: int| 0 <= k < c.len() && (#[trigger] c[k]).name == name implies !c[k].runtime by {
            if k < a.len() {
                assert(a[k] == b[k] && b[k] == c[k]);
                assert(names_from(deps, a[k].name));
            } else if k < b.len() {
                assert(b[k] == c[k]);
            }
        }
    }
    if is_declared(meta.make_depends@, name) {
        let i = choose|i: int| 0 <= i < make.len() && bare(#[trigger] make[i]) == name;
        assert(names_atom(b, name));
        let j = choose|j: int| 0 <= j < b.len() && (#[trigger] b[j]).name == name;
        assert(b[j] == c[j]);
        assert(names_atom(c, name));
    }
    if is_declared(meta.check_depends@, name) {
        let i = choose|i: int| 0 <= i < check.len() && bare(#[trigger] check[i]) == name;
        assert(names_atom(c, name));
    }
    assert forall|j: int| 0 <= j < c.len() implies (#[trigger] c[j]).name == bare(c[j].raw)
        && c[j].name.len() > 0 by {
        if j < a.len() {
            assert(a[j] == b[j] && b[j] == c[j]);
        } else if j < b.len() {
            assert(b[j] == c[j]);
        }
    }
}

/// One of the texts is an atom of this name.
spec fn names_from(list: Seq<Seq<char>>, name: Seq<char>) -> bool {
    exists|i: int| 0 <= i < list.len() && bare(#[trigger] list[i]) == name
}

proof fn lemma_declared(list: Seq<String>, name: Seq<char>)
    ensures
        is_declared(list, name) <==> names_from(text::texts(list), name),
{
    let t = text::texts(list);
    if is_declared(list, name) {
        let i = choose|i: int| 0 <= i < list.len() && bare((#[trigger] list[i])@) == name;
        assert(bare(t[i]) == name);
    }
    if names_from(t, name) {
        let i = choose|i: int| 0 <= i < t.len() && bare(#[trigger] t[i]) == name;
        assert(bare(list[i]@) == name);
    }
}

/// What is added comes from the list.
proof fn lemma_atoms_from(q: Seq<AtomView>, list: Seq<Seq<char>>, runtime: bool)
    ensures
        q.is_prefix_of(with_atoms(q, list, runtime)),
        forall|i: int|
            q.len() <= i < with_atoms(q, list, runtime).len() ==> {
                let atom = #[trigger] with_atoms(q, list, runtime)[i];
                atom.name == bare(atom.raw) && atom.name.len() > 0 && names_from(list, atom.name)
            },
    decreases list.len(),
{
    if list.len() > 0 {
        let rest = list.drop_last();
        lemma_atoms_from(q, rest, runtime);
        let before = with_atoms(q, rest, runtime);
        let now = with_atoms(q, list, runtime);
        assert forall|i: int| q.len() <= i < now.len() implies ({
            let atom = #[trigger] now[i];
            atom.name == bare(atom.raw) && atom.name.len() > 0 && names_from(list, atom.name)
        }) by {
            if i < before.len() {
                assert(now[i] == before[i]);
                let k = choose|k: int| 0 <= k < rest.len() && bare(#[trigger] rest[k]) == now[i].name;
                assert(bare(list[k]) == now[i].name);
            } else {
                assert(bare(list[list.len() - 1]) == now[i].name);
            }
        }
    }
}

/// A plan holds what a finished resolution found: the requested packages, all
/// packages to build, each after those it depends on, and what the repositories
/// have to provide.
pub open spec fn is_plan_for(plan: ResolvedPlan, p: Progress) -> bool {
    &&& text::texts(plan.explicit_targets@) == p.explicit
    &&& text::texts(plan.aur_build_order@).to_set() == p.nodes
    &&& graph::is_build_order(p.edges, text::texts(plan.aur_build_order@))
    &&& text::texts(plan.aur_build_order@) == graph::layer_texts(plan.layers@).flatten()
    &&& text::texts(plan.repo_deps@).to_set() == p.runtime.union(p.build)
    &&& text::texts(plan.make_only_deps@).to_set() == p.build.difference(p.runtime)
}

/// What a plan says of a package: it is built exactly if it is to be built, and
/// then after everything that it needs of the other packages to build; a
/// repository package is installed exactly if it is needed to run or to build, and
/// may be removed afterwards exactly if it is needed to build alone.
pub proof fn law_plans(plan: ResolvedPlan, p: Progress, n: Seq<char>, d: Seq<char>)
    requires
        is_plan_for(plan, p),
    ensures
        text::texts(plan.aur_build_order@).contains(n) <==> p.nodes.contains(n),
        p.nodes.contains(n) && p.edges.dom().contains(n) && p.edges[n].contains(d) ==> comes_before(
            text::texts(plan.aur_build_order@),
            d,
            n,
        ),
        text::texts(plan.aur_build_order@).no_duplicates(),
        text::texts(plan.repo_deps@).contains(d) <==> p.runtime.contains(d) || p.build.contains(d),
        text::texts(plan.make_only_deps@).contains(d) <==> p.build.contains(d)
            && !p.runtime.contains(d),
        text::texts(plan.explicit_targets@) == p.explicit,
{
    let order = text::texts(plan.aur_build_order@);
    assert(order.to_set().contains(n) <==> order.contains(n));
    let repo = text::texts(plan.repo_deps@);
    assert(repo.to_set().contains(d) <==> repo.contains(d));
    let make = text::texts(plan.make_only_deps@);
    assert(make.to_set().contains(d) <==> make.contains(d));
    if p.nodes.contains(n) && p.edges.dom().contains(n) && p.edges[n].contains(d) {
        assert(order.to_set().contains(n));
        let i = choose|i: int| 0 <= i < order.len() && order[i] == n;
        graph::law_dependencies_come_first(p.edges, order, i, d);
        let j = choose|j: int| 0 <= j < i && #[trigger] order[j] == d;
        assert(order[j] == d && order[i] == n);
    }
}

/// Of two names the first has an earlier place in a list than the second.
pub open spec fn comes_before(list: Seq<Seq<char>>, a: Seq<char>, b: Seq<char>) -> bool {
    exists|i: int, j: int|
        0 <= i < j < list.len() && #[trigger] list[i] == a && #[trigger] list[j] == b
}

/// A requested package that was found is to be built, under the name that the AUR
/// has for it, is listed once among the requested ones, behind those before it,
/// and nothing is asked about it again.
pub proof fn law_requested_packages(p: Progress, m: PackageMeta)
    requires
        p.wf(),
        p.pending.len() > 0,
    ensures
        found_target(p, m).nodes == p.nodes.insert(m.name@),
        found_target(p, m).pending == p.pending.skip(1),
        p.explicit.contains(m.name@) ==> found_target(p, m).explicit == p.explicit,
        !p.explicit.contains(m.name@) ==> found_target(p, m).explicit == p.explicit + seq![m.name@],
        !p.nodes.contains(m.name@) ==> found_target(p, m).queue == p.queue + seq![m.name@]
            && found_target(p, m).metas.dom().contains(m.name@),
        p.nodes.contains(m.name@) ==> found_target(p, m).queue == p.queue,
        found_target(p, m).runtime == p.runtime && found_target(p, m).build == p.build
            && found_target(p, m).edges == p.edges,
{
    assert(p.pending.drop_first() =~= p.pending.skip(1));
    assert(p.explicit.push(m.name@) =~= p.explicit + seq![m.name@]);
    assert(p.queue.push(m.name@) =~= p.queue + seq![m.name@]);
}

/// Where a dependency goes: it is built, as something that the package needs, if
/// the AUR has it and no repository provides it. Else it is taken from its
/// provider, or under its own name without one, among what is needed at run time
/// if it is declared so, and among what is needed to build otherwise.
pub proof fn law_where_a_dependency_goes(
    p: Progress,
    pkg: Seq<char>,
    in_aur: Set<Seq<char>>,
    atom: AtomView,
    provider: Option<Seq<char>>,
)
    ensures
        ({
            let q = classified(p, pkg, in_aur, atom, provider);
            let from = match provider {
                Some(name) => name,
                None => atom.name,
            };
            if provider is None && in_aur.contains(atom.name) {
                &&& q.nodes == p.nodes.insert(atom.name)
                &&& q.edges.dom().contains(pkg) && q.edges[pkg].contains(atom.name)
                &&& p.edges.dom().contains(pkg) ==> p.edges[pkg].subset_of(q.edges[pkg])
                &&& !p.nodes.contains(atom.name) ==> q.queue == p.queue + seq![atom.name]
                &&& q.runtime == p.runtime && q.build == p.build
            } else {
                &&& q.nodes == p.nodes && q.edges == p.edges && q.queue == p.queue
                &&& atom.runtime ==> q.runtime == p.runtime.insert(from) && q.build == p.build
                &&& !atom.runtime ==> q.build == p.build.insert(from) && q.runtime == p.runtime
            }
        }),
{
    assert(p.queue.push(atom.name) =~= p.queue + seq![atom.name]);
}

/// What a package needs of the packages to build, and what is taken from the
/// repositories for it, by the answers about its dependencies.
pub proof fn law_needed_and_taken(atoms: Seq<AtomView>, a: Answer, i: int)
    requires
        0 <= i < atoms.len(),
    ensures
        a.in_aur.contains(atoms[i].name) && a.providers[i] is None ==> to_build(atoms, a).contains(
            atoms[i].name,
        ),
        a.providers[i] matches Some(name) ==> to_take(atoms, a, atoms[i].runtime).contains(name),
        a.providers[i] is None && !a.in_aur.contains(atoms[i].name) ==> to_take(
            atoms,
            a,
            atoms[i].runtime,
        ).contains(atoms[i].name),
        forall|n: Seq<char>| #[trigger]
            to_build(atoms, a).contains(n) ==> a.in_aur.contains(n) && exists|j: int|
                0 <= j < atoms.len() && (#[trigger] atoms[j]).name == n && a.providers[j] is None,
        (forall|j: int| 0 <= j < atoms.len() ==> (#[trigger] atoms[j]).runtime) ==> to_take(
            atoms,
            a,
            false,
        ) == Set::<Seq<char>>::empty(),
        (forall|j: int| 0 <= j < atoms.len() ==> !(#[trigger] atoms[j]).runtime) ==> to_take(
            atoms,
            a,
            true,
        ) == Set::<Seq<char>>::empty(),
{
    assert(atoms[i].name == atoms[i].name);
    if forall|j: int| 0 <= j < atoms.len() ==> (#[trigger] atoms[j]).runtime {
        assert(to_take(atoms, a, false) =~= Set::<Seq<char>>::empty());
    }
    if forall|j: int| 0 <= j < atoms.len() ==> !(#[trigger] atoms[j]).runtime {
        assert(to_take(atoms, a, true) =~= Set::<Seq<char>>::empty());
    }
}

/// Nothing is decided before anything was looked up, and every target is asked
/// for in turn.
pub proof fn law_resolution_starts_empty(targets: Seq<Seq<char>>)
    ensures
        start_of(targets).pending == targets,
        start_of(targets).explicit.len() == 0 && start_of(targets).queue.len() == 0,
        start_of(targets).nodes == Set::<Seq<char>>::empty(),
        start_of(targets).runtime == Set::<Seq<char>>::empty(),
        start_of(targets).build == Set::<Seq<char>>::empty(),
{
}

/// What was known of a package first is kept, and every package that was answered
/// is known afterwards.
pub proof fn law_first_answer_counts(
    metas: Map<Seq<char>, PackageMeta>,
    list: Seq<PackageMeta>,
    i: int,
)
    requires
        0 <= i < list.len(),
    ensures
        with_metas(metas, list).dom().contains(list[i].name@),
        metas.dom().contains(list[i].name@) ==> with_metas(metas, list)[list[i].name@]
            == metas[list[i].name@],
        meta_names(list).contains(list[i].name@),
{
    lemma_with_metas(metas, list);
    assert(meta_names(list).contains(list[i].name@));
}

/// Every target is looked up before any dependency, in order; then every package
/// to build is asked about, by the names of all dependencies that it declares; and
/// nothing is left to ask only when all of them were.
pub proof fn law_everything_is_looked_up(r: Request, p: Progress, name: Seq<char>)
    requires
        is_next(r, p),
        name.len() > 0,
    ensures
        p.pending.len() > 0 ==> (r matches Request::Target(t) && t@ == p.pending[0]),
        p.pending.len() == 0 && p.queue.len() > 0 ==> (r matches Request::Dependencies(q)
            && q.package@ == p.queue[0]),
        p.pending.len() == 0 && p.queue.len() == 0 <==> r is Nothing,
        r matches Request::Dependencies(q) ==> {
            let meta = p.metas[p.queue[0]];
            text::texts(q.names@).contains(name) <==> is_declared(meta.depends@, name)
                || is_declared(meta.make_depends@, name) || is_declared(meta.check_depends@, name)
        },
{
    if let Request::Dependencies(q) = r {
        let meta = p.metas[p.queue[0]];
        law_every_dependency_is_classified(meta, name);
        let names = text::texts(q.names@);
        assert(names.to_set().contains(name) <==> names.contains(name));
    }
}

} // verus!
