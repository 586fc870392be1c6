//! Command lines in the style of pacman.
//!
//! An invocation such as `-Syu`, `-S pkg` or `-Ss query` is parsed into an
//! [`Action`]. Carrying it out is the caller's work.

use crate::text;
use vstd::prelude::*;

verus! {

/// What an invocation asks for.
#[derive(Debug, PartialEq, Eq)]
pub enum Action {
    /// `-Syu`: upgrade the repositories' packages, then those of the AUR. Extra
    /// targets are installed afterwards.
    FullUpgrade { targets: Vec<String>, noconfirm: bool },
    /// `-S <targets>`: install.
    Install { targets: Vec<String>, noconfirm: bool },
    /// `-Ss <query>`: search.
    Search { query: Vec<String> },
    /// `-Sy`: refresh the databases only.
    Refresh { noconfirm: bool },
    /// `-R`, `-Q`, `-D`, `-F`, `-T`, `-U`: handed straight to pacman. `sudo` is
    /// true for operations that modify the system.
    Passthrough { sudo: bool },
    /// No sense could be made of it; the message says why.
    Unsupported(String),
}

/// The message for `-S` alone.
pub const NEEDS_TARGET: &'static str = "`-S` needs a target, `-u`, `-s` or `-y`";

/// The message for anything that is no operation.
pub const NO_OPERATION: &'static str = "unrecognized pacman-style operation";

/// An argument that is an option, and not a target.
pub open spec fn is_option(arg: Seq<char>) -> bool {
    "-"@.is_prefix_of(arg)
}

/// An argument that is a long option.
pub open spec fn is_long(arg: Seq<char>) -> bool {
    "--"@.is_prefix_of(arg)
}

/// The arguments that are no options, in order.
pub open spec fn targets_of(args: Seq<Seq<char>>) -> Seq<Seq<char>> {
    args.filter(|a: Seq<char>| !is_option(a))
}

/// The letters of all short options, in order.
pub open spec fn letters_of(args: Seq<Seq<char>>) -> Seq<char>
    decreases args.len(),
{
    if args.len() == 0 {
        Seq::empty()
    } else {
        let before = letters_of(args.drop_last());
        if is_option(args.last()) && !is_long(args.last()) {
            before + args.last().skip(1)
        } else {
            before
        }
    }
}

/// Picks the letters of operations.
pub open spec fn is_operation() -> spec_fn(char) -> bool {
    |c: char| c == 'S' || c == 'R' || c == 'Q' || c == 'D' || c == 'F' || c == 'T' || c == 'U'
}

/// Where the first letter of an operation stands, or behind the last letter.
pub open spec fn operation_at(letters: Seq<char>) -> int {
    text::until(letters, is_operation())
}

/// A letter stands beside the operation.
pub open spec fn has_modifier(letters: Seq<char>, c: char) -> bool {
    exists|i: int|
        0 <= i < letters.len() && i != operation_at(letters) && #[trigger] letters[i] == c
}

/// `action` is what the arguments ask for.
pub open spec fn is_action_for(args: Seq<Seq<char>>, action: Action) -> bool {
    let letters = letters_of(args);
    let at = operation_at(letters);
    let targets = targets_of(args);
    let noconfirm = args.contains("--noconfirm"@);
    if at >= letters.len() {
        action matches Action::Unsupported(m) && m@ == NO_OPERATION@
    } else if letters[at] != 'S' {
        action == (Action::Passthrough {
            sudo: letters[at] == 'R' || letters[at] == 'D' || letters[at] == 'U',
        })
    } else if has_modifier(letters, 's') {
        action matches Action::Search { query } && text::texts(query@) == targets
    } else if has_modifier(letters, 'u') {
        action matches Action::FullUpgrade { targets: t, noconfirm: n } && text::texts(t@)
            == targets && n == noconfirm
    } else if targets.len() > 0 {
        action matches Action::Install { targets: t, noconfirm: n } && text::texts(t@) == targets
            && n == noconfirm
    } else if has_modifier(letters, 'y') {
        action == (Action::Refresh { noconfirm })
    } else {
        action matches Action::Unsupported(m) && m@ == NEEDS_TARGET@
    }
}

/// Whether a letter stands beside the operation at `at`.
fn modifier(letters: &Vec<char>, at: usize, c: char) -> (r: bool)
    requires
        at == operation_at(letters@),
    ensures
        r == has_modifier(letters@, c),
{
    let mut i: usize = 0;
    while i < letters.len()
        invariant
            i <= letters@.len(),
            at == operation_at(letters@),
            forall|j: int| 0 <= j < i && j != at ==> #[trigger] letters@[j] != c,
        decreases letters@.len() - i,
    {
        if i != at && letters[i] == c {
            return true;
        }
        i += 1;
    }
    false
}

/// Parses the arguments of an invocation (everything after the program name).
pub fn parse(args: &[String]) -> (r: Action)
    ensures
        is_action_for(text::texts(args@), r),
{
    let ghost all = text::texts(args@);
    let ghost keep = |a: Seq<char>| !is_option(a);
    let mut letters: Vec<char> = Vec::new();
    let mut targets: Vec<String> = Vec::new();
    let mut noconfirm = false;
    let mut i: usize = 0;
    proof {
        reveal(Seq::filter);
        reveal_strlit("-");
        reveal_strlit("--");
        assert(all.take(0) =~= Seq::<Seq<char>>::empty());
        assert(text::texts(targets@) =~= all.take(0).filter(keep));
    }
    while i < args.len()
        invariant
            i <= args@.len(),
            all == text::texts(args@),
            keep == (|a: Seq<char>| !is_option(a)),
            letters@ == letters_of(all.take(i as int)),
            text::texts(targets@) == all.take(i as int).filter(keep),
            noconfirm == all.take(i as int).contains("--noconfirm"@),
        decreases args@.len() - i,
    {
        let arg = args[i].as_str();
        let ghost before = text::texts(targets@);
        let ghost now = all.take(i + 1);
        proof {
            reveal(Seq::filter);
            reveal_strlit("-");
            reveal_strlit("--");
            reveal_strlit("--noconfirm");
            assert(now.drop_last() =~= all.take(i as int));
            assert(now.last() == arg@);
            assert(now =~= all.take(i as int).push(arg@));
            lemma_long_is_option(arg@);
            assert(now.contains("--noconfirm"@) <==> all.take(i as int).contains("--noconfirm"@)
                || arg@ == "--noconfirm"@) by {
                if all.take(i as int).contains("--noconfirm"@) {
                    let j = choose|j: int|
                        0 <= j < i && all.take(i as int)[j] == "--noconfirm"@;
                    assert(now[j] == "--noconfirm"@);
                }
                assert(now[i as int] == arg@);
                if now.contains("--noconfirm"@) && arg@ != "--noconfirm"@ {
                    let j = choose|j: int| 0 <= j < now.len() && now[j] == "--noconfirm"@;
                    assert(all.take(i as int)[j] == "--noconfirm"@);
                }
            }
            assert("--"@.is_prefix_of("--noconfirm"@)) by {
                assert("--noconfirm"@.subrange(0, 2) =~= "--"@);
            }
        }
        if text::same(arg, "--noconfirm") {
            noconfirm = true;
        }
        if text::starts_with(arg, "--") {
            // Other long options are not interpreted.
        } else if text::starts_with(arg, "-") {
            let cs = text::chars_of(arg);
            let ghost start = letters@;
            let mut k: usize = 1;
            proof {
                assert("-"@.len() == 1);
                assert(start + cs@.subrange(1, 1) =~= start);
            }
            while k < cs.len()
                invariant
                    1 <= k <= cs@.len(),
                    letters@ == start + cs@.subrange(1, k as int),
                decreases cs@.len() - k,
            {
                letters.push(cs[k]);
                proof {
                    assert(cs@.subrange(1, k + 1) =~= cs@.subrange(1, k as int).push(
                        cs@[k as int],
                    ));
                    assert(letters@ =~= start + cs@.subrange(1, k + 1));
                }
                k += 1;
            }
            proof {
                assert(cs@.subrange(1, cs@.len() as int) =~= arg@.skip(1));
            }
        } else {
            targets.push(args[i].clone());
            proof {
                assert(text::texts(targets@) =~= before.push(arg@));
            }
        }
        i += 1;
    }
    proof {
        assert(all.take(all.len() as int) =~= all);
        assert(text::texts(targets@) == targets_of(all));
    }
    let mut at: usize = 0;
    while at < letters.len() && letters[at] != 'S' && letters[at] != 'R' && letters[at] != 'Q'
        && letters[at] != 'D' && letters[at] != 'F' && letters[at] != 'T' && letters[at] != 'U'
        invariant
            at <= letters@.len(),
            forall|j: int| 0 <= j < at ==> !is_operation()(#[trigger] letters@[j]),
        decreases letters@.len() - at,
    {
        at += 1;
    }
    proof {
        text::lemma_until_at(letters@, is_operation(), at as int);
        assert(text::texts(targets@).len() == targets@.len());
    }
    if at == letters.len() {
        return Action::Unsupported(String::from_str(NO_OPERATION));
    }
    let op = letters[at];
    if op != 'S' {
        return Action::Passthrough { sudo: op == 'R' || op == 'D' || op == 'U' };
    }
    if modifier(&letters, at, 's') {
        Action::Search { query: targets }
    } else if modifier(&letters, at, 'u') {
        Action::FullUpgrade { targets, noconfirm }
    } else if targets.len() > 0 {
        Action::Install { targets, noconfirm }
    } else if modifier(&letters, at, 'y') {
        Action::Refresh { noconfirm }
    } else {
        Action::Unsupported(String::from_str(NEEDS_TARGET))
    }
}

proof fn lemma_long_is_option(arg: Seq<char>)
    ensures
        is_long(arg) ==> is_option(arg),
{
    reveal_strlit("-");
    reveal_strlit("--");
    if is_long(arg) {
        assert(arg.subrange(0, 2)[0] == arg[0]);
        assert("--"@[0] == '-');
        assert(arg.subrange(0, 1) =~= "-"@);
    }
}

/// Only an operation that modifies the system asks for privileges.
pub proof fn law_passthrough_privileges(args: Seq<Seq<char>>, action: Action)
    requires
        is_action_for(args, action),
    ensures
        action matches Action::Passthrough { sudo } ==> {
            let op = letters_of(args)[operation_at(letters_of(args))];
            sudo <==> (op == 'R' || op == 'D' || op == 'U')
        },
{
}

/// The arguments that name something: all that do not start with `-`, in order.
pub open spec fn named(args: Seq<Seq<char>>) -> Seq<Seq<char>> {
    args.filter(|a: Seq<char>| a.len() == 0 || a[0] != '-')
}

/// One of the letters that ask for an operation.
pub open spec fn asks(c: char) -> bool {
    c == 'S' || c == 'R' || c == 'Q' || c == 'D' || c == 'F' || c == 'T' || c == 'U'
}

/// The first letter that asks for an operation stands at `k`.
pub open spec fn asks_first(letters: Seq<char>, k: int) -> bool {
    0 <= k < letters.len() && asks(letters[k]) && forall|j: int|
        0 <= j < k ==> !asks(#[trigger] letters[j])
}

/// A letter stands somewhere but at `k`.
pub open spec fn beside(letters: Seq<char>, k: int, c: char) -> bool {
    exists|i: int| 0 <= i < letters.len() && i != k && #[trigger] letters[i] == c
}

proof fn lemma_option(arg: Seq<char>)
    ensures
        is_option(arg) <==> arg.len() > 0 && arg[0] == '-',
        is_long(arg) <==> arg.len() > 1 && arg[0] == '-' && arg[1] == '-',
{
    reveal_strlit("-");
    reveal_strlit("--");
    if arg.len() > 0 && arg[0] == '-' {
        assert(arg.subrange(0, 1) =~= "-"@);
        if arg.len() > 1 && arg[1] == '-' {
            assert(arg.subrange(0, 2) =~= "--"@);
        }
    }
    if is_option(arg) {
        assert("-"@[0] == arg.subrange(0, 1)[0]);
    }
    if is_long(arg) {
        assert("--"@[0] == arg.subrange(0, 2)[0]);
        assert("--"@[1] == arg.subrange(0, 2)[1]);
    }
}

proof fn lemma_named(args: Seq<Seq<char>>)
    ensures
        targets_of(args) == named(args),
        named(args).len() > 0 <==> exists|i: int|
            0 <= i < args.len() && ((#[trigger] args[i]).len() == 0 || args[i][0] != '-'),
    decreases args.len(),
{
    let f = |a: Seq<char>| !is_option(a);
    let g = |a: Seq<char>| a.len() == 0 || a[0] != '-';
    assert forall|a: Seq<char>| #[trigger] f(a) == g(a) by {
        lemma_option(a);
    }
    assert(f =~= g);
    reveal(Seq::filter);
    if args.len() > 0 {
        let rest = args.drop_last();
        lemma_named(rest);
        if exists|i: int|
            0 <= i < args.len() && ((#[trigger] args[i]).len() == 0 || args[i][0] != '-') {
            let i = choose|i: int|
                0 <= i < args.len() && ((#[trigger] args[i]).len() == 0 || args[i][0] != '-');
            if i < rest.len() {
                assert(rest[i] == args[i]);
            }
        }
        if named(args).len() > 0 {
            if g(args.last()) {
                assert(args[args.len() - 1] == args.last());
            } else {
                let i = choose|i: int|
                    0 <= i < rest.len() && ((#[trigger] rest[i]).len() == 0 || rest[i][0] != '-');
                assert(args[i] == rest[i]);
            }
        }
    }
}

proof fn lemma_asks_first(letters: Seq<char>, k: int)
    requires
        asks_first(letters, k),
    ensures
        operation_at(letters) == k,
{
    assert forall|j: int| 0 <= j < k implies !is_operation()(#[trigger] letters[j]) by {
        assert(!asks(letters[j]));
    }
    text::lemma_until_at(letters, is_operation(), k);
}

/// No target is lost: whatever names a package or a query after `-S` is carried
/// by the action, in order; so nothing that is named is merely refreshed away.
pub proof fn law_no_target_is_lost(args: Seq<Seq<char>>, action: Action, k: int)
    requires
        is_action_for(args, action),
        asks_first(letters_of(args), k),
        letters_of(args)[k] == 'S',
        exists|i: int|
            0 <= i < args.len() && ((#[trigger] args[i]).len() == 0 || args[i][0] != '-'),
    ensures
        match action {
            Action::Search { query } => text::texts(query@) == named(args),
            Action::FullUpgrade { targets, .. } => text::texts(targets@) == named(args),
            Action::Install { targets, .. } => text::texts(targets@) == named(args),
            _ => false,
        },
{
    lemma_named(args);
    lemma_asks_first(letters_of(args), k);
}

/// The databases are refreshed alone, or `-S` is refused, only where nothing is
/// named; `-Sy` with a target installs it.
pub proof fn law_refresh_names_nothing(args: Seq<Seq<char>>, action: Action)
    requires
        is_action_for(args, action),
        action is Refresh,
    ensures
        forall|i: int| 0 <= i < args.len() ==> (#[trigger] args[i]).len() > 0 && args[i][0] == '-',
        letters_of(args).contains('y'),
{
    lemma_named(args);
    let letters = letters_of(args);
    let i = choose|i: int|
        0 <= i < letters.len() && i != operation_at(letters) && #[trigger] letters[i] == 'y';
    assert(letters.contains('y'));
}

/// What `-S` asks for: with `s` a search, whatever else stands there; without it,
/// with `u` a full upgrade; without both an installation of what is named; a
/// refresh with `y`; and nothing is asked for otherwise.
pub proof fn law_what_sync_asks_for(args: Seq<Seq<char>>, action: Action, k: int)
    requires
        is_action_for(args, action),
        asks_first(letters_of(args), k),
        letters_of(args)[k] == 'S',
    ensures
        action is Search <==> beside(letters_of(args), k, 's'),
        action is FullUpgrade <==> !beside(letters_of(args), k, 's') && beside(
            letters_of(args),
            k,
            'u',
        ),
        action is Install <==> !beside(letters_of(args), k, 's') && !beside(
            letters_of(args),
            k,
            'u',
        ) && named(args).len() > 0,
        action is Refresh <==> !beside(letters_of(args), k, 's') && !beside(
            letters_of(args),
            k,
            'u',
        ) && named(args).len() == 0 && beside(letters_of(args), k, 'y'),
        !(action is Passthrough),
{
    lemma_named(args);
    lemma_asks_first(letters_of(args), k);
}

/// The questions of pacman are answered by themselves exactly if `--noconfirm` is
/// among the arguments.
pub proof fn law_noconfirm_is_passed_on(args: Seq<Seq<char>>, action: Action)
    requires
        is_action_for(args, action),
    ensures
        match action {
            Action::FullUpgrade { noconfirm, .. } => noconfirm <==> exists|i: int|
                0 <= i < args.len() && #[trigger] args[i] == "--noconfirm"@,
            Action::Install { noconfirm, .. } => noconfirm <==> exists|i: int|
                0 <= i < args.len() && #[trigger] args[i] == "--noconfirm"@,
            Action::Refresh { noconfirm } => noconfirm <==> exists|i: int|
                0 <= i < args.len() && #[trigger] args[i] == "--noconfirm"@,
            _ => true,
        },
{
}

/// Every other operation goes to pacman as it is, and asks for privileges exactly
/// if it removes packages, changes the database or installs files; arguments
/// without an operation are refused.
pub proof fn law_other_operations_pass_through(args: Seq<Seq<char>>, action: Action, k: int)
    requires
        is_action_for(args, action),
    ensures
        asks_first(letters_of(args), k) && letters_of(args)[k] != 'S' ==> (action matches
            Action::Passthrough { sudo } && (sudo <==> letters_of(args)[k] == 'R' || letters_of(
            args,
        )[k] == 'D' || letters_of(args)[k] == 'U')),
        (forall|j: int| 0 <= j < letters_of(args).len() ==> !asks(#[trigger] letters_of(args)[j]))
            ==> action is Unsupported,
{
    let letters = letters_of(args);
    if asks_first(letters, k) {
        lemma_asks_first(letters, k);
    }
    if forall|j: int| 0 <= j < letters.len() ==> !asks(#[trigger] letters[j]) {
        assert forall|j: int| 0 <= j < letters.len() implies !is_operation()(#[trigger] letters[j]) by {
            assert(!asks(letters[j]));
        }
        text::lemma_until_at(letters, is_operation(), letters.len() as int);
    }
}

/// The letters are those behind a single `-`, of all arguments in order; what
/// starts with `--`, and what starts with something else, adds none.
pub proof fn law_letters_of_short_options(args: Seq<Seq<char>>, arg: Seq<char>, x: Seq<char>)
    ensures
        arg == seq!['-'] + x && (x.len() == 0 || x[0] != '-') ==> letters_of(args.push(arg))
            == letters_of(args) + x,
        arg.len() == 0 || arg[0] != '-' || (arg.len() > 1 && arg[1] == '-') ==> letters_of(
            args.push(arg),
        ) == letters_of(args),
        letters_of(Seq::empty()) == Seq::<char>::empty(),
{
    lemma_option(arg);
    assert(args.push(arg).drop_last() =~= args);
    if arg == seq!['-'] + x {
        assert(arg.skip(1) =~= x);
        assert(arg[0] == '-');
        if x.len() > 0 {
            assert(arg[1] == x[0]);
        }
    }
}

} // verus!
