use vouch::compat::{parse, Action};

fn args(s: &[&str]) -> Vec<String> {
    s.iter().map(|x| x.to_string()).collect()
}

#[test]
fn full_upgrade() {
    assert_eq!(
        parse(&args(&["-Syu"])),
        Action::FullUpgrade {
            targets: vec![],
            noconfirm: false
        }
    );
    // -Syyu and a trailing --noconfirm.
    assert_eq!(
        parse(&args(&["-Syyu", "--noconfirm"])),
        Action::FullUpgrade {
            targets: vec![],
            noconfirm: true
        }
    );
}

#[test]
fn install_and_search() {
    assert_eq!(
        parse(&args(&["-S", "paru", "firefox"])),
        Action::Install {
            targets: args(&["paru", "firefox"]),
            noconfirm: false
        }
    );
    assert_eq!(
        parse(&args(&["-Ss", "wazuh"])),
        Action::Search {
            query: args(&["wazuh"])
        }
    );
}

#[test]
fn refresh_only() {
    assert_eq!(parse(&args(&["-Sy"])), Action::Refresh { noconfirm: false });
}

#[test]
fn passthrough_ops() {
    assert_eq!(
        parse(&args(&["-Rns", "foo"])),
        Action::Passthrough { sudo: true }
    );
    assert_eq!(parse(&args(&["-Q"])), Action::Passthrough { sudo: false });
    assert_eq!(
        parse(&args(&["-Qi", "bash"])),
        Action::Passthrough { sudo: false }
    );
    assert_eq!(
        parse(&args(&["-U", "./x.pkg.tar.zst"])),
        Action::Passthrough { sudo: true }
    );
}

#[test]
fn unsupported() {
    assert!(matches!(parse(&args(&["-S"])), Action::Unsupported(_)));
    assert!(matches!(parse(&args(&["-Z"])), Action::Unsupported(_)));
}

#[test]
fn unsupported_says_why() {
    assert_eq!(
        parse(&args(&["-S"])),
        Action::Unsupported("`-S` needs a target, `-u`, `-s` or `-y`".to_string())
    );
    assert_eq!(
        parse(&args(&["firefox"])),
        Action::Unsupported("unrecognized pacman-style operation".to_string())
    );
    assert_eq!(
        parse(&[]),
        Action::Unsupported("unrecognized pacman-style operation".to_string())
    );
}

#[test]
fn first_operation_letter_wins() {
    // The second operation letter is only a modifier.
    assert_eq!(parse(&args(&["-QS", "x"])), Action::Passthrough { sudo: false });
    assert_eq!(parse(&args(&["-T"])), Action::Passthrough { sudo: false });
    assert_eq!(parse(&args(&["-F"])), Action::Passthrough { sudo: false });
    assert_eq!(parse(&args(&["-D"])), Action::Passthrough { sudo: true });
}

#[test]
fn letters_gather_over_arguments() {
    assert_eq!(
        parse(&args(&["-S", "a", "-y", "-u", "b", "--needed"])),
        Action::FullUpgrade {
            targets: args(&["a", "b"]),
            noconfirm: false
        }
    );
    // A search wins over an upgrade.
    assert_eq!(
        parse(&args(&["-Sus", "a"])),
        Action::Search { query: args(&["a"]) }
    );
    // A lone dash adds nothing.
    assert_eq!(
        parse(&args(&["-", "-Sy", "--noconfirm"])),
        Action::Refresh { noconfirm: true }
    );
}
