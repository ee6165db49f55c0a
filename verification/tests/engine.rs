use sidoma::linkmanager::{
    classify, pad, run, Command, LinkStatus, Linkmanager, Report, ResolveError, StoreEntry,
};
use sidoma::symlink::{LinkProbe, ParseError, Symlink};
use sidoma::utils::absolute_path;

const HOME: &str = "/home/user";
const CWD: &str = "/home/user";
const CONFIG: &str = "/home/user/.config";
const STORE: &str = "/home/user/dotfiles";

fn store_entries() -> Vec<StoreEntry> {
    vec![
        StoreEntry {
            name: String::from("bin"),
            link_file: Some(String::from(". ~/.bin")),
        },
        StoreEntry {
            name: String::from("bash"),
            link_file: Some(String::from("bashrc ~/.bashrc")),
        },
        StoreEntry {
            name: String::from("nvim"),
            link_file: None,
        },
    ]
}

fn unlinked_probe() -> LinkProbe {
    LinkProbe {
        source_exists: true,
        target_exists: false,
        target_is_symlink: false,
        target_canonical: None,
    }
}

fn linked_probe(link: &Symlink) -> LinkProbe {
    LinkProbe {
        source_exists: true,
        target_exists: true,
        target_is_symlink: true,
        target_canonical: Some(absolute_path(&link.source, CWD)),
    }
}

#[test]
fn resolution_yields_three_relationships() {
    let mgr = Linkmanager::new(CONFIG, STORE, HOME, &store_entries()).unwrap();
    assert_eq!(mgr.default_target_path, CONFIG);
    assert_eq!(mgr.dotfile_dir, STORE);
    assert_eq!(mgr.links.len(), 3);
    assert_eq!(mgr.links[0].source, "/home/user/dotfiles/bin/.");
    assert_eq!(mgr.links[0].target, "/home/user/.bin");
    assert_eq!(mgr.links[1].source, "/home/user/dotfiles/bash/bashrc");
    assert_eq!(mgr.links[1].target, "/home/user/.bashrc");
    assert_eq!(mgr.links[2].source, "/home/user/dotfiles/nvim");
    assert_eq!(mgr.links[2].target, "/home/user/.config/nvim");
}

#[test]
fn resolution_skips_hidden_entries() {
    let entries = vec![
        StoreEntry {
            name: String::from(".git"),
            link_file: None,
        },
        StoreEntry {
            name: String::from("nvim"),
            link_file: None,
        },
    ];
    let mgr = Linkmanager::new(CONFIG, STORE, HOME, &entries).unwrap();
    assert_eq!(mgr.links.len(), 1);
    assert_eq!(mgr.links[0].source, "/home/user/dotfiles/nvim");
}

#[test]
fn resolution_expands_home_in_roots() {
    let mgr = Linkmanager::new("~/.config", "~/dotfiles", HOME, &store_entries()).unwrap();
    assert_eq!(mgr.default_target_path, CONFIG);
    assert_eq!(mgr.dotfile_dir, STORE);
}

#[test]
fn resolution_rejects_relative_store() {
    assert!(matches!(
        Linkmanager::new(CONFIG, "dotfiles", HOME, &Vec::new()),
        Err(ResolveError::StoreNotAbsolute)
    ));
}

#[test]
fn resolution_reports_bad_link_file() {
    let entries = vec![
        StoreEntry {
            name: String::from("bash"),
            link_file: Some(String::from("# fine\nbashrc bashrc")),
        },
    ];
    match Linkmanager::new(CONFIG, STORE, HOME, &entries) {
        Err(ResolveError::BadLinkFile { entry, line, kind }) => {
            assert_eq!(entry, "bash");
            assert_eq!(line, 2);
            assert!(matches!(kind, ParseError::TargetNotAbsolute));
        }
        _ => panic!("expected a bad link file"),
    }
}

#[test]
fn scenario_pending_then_linked() {
    let mgr = Linkmanager::new(CONFIG, STORE, HOME, &store_entries()).unwrap();
    let fresh: Vec<LinkProbe> = mgr.links.iter().map(|_| unlinked_probe()).collect();
    let rows = mgr.status(&fresh, CWD, HOME);
    assert_eq!(rows.len(), 3);
    assert!(rows.iter().all(|r| r.status == LinkStatus::Pending));

    let actions = mgr.create_actions(&fresh, CWD);
    assert!(actions.iter().all(|a| *a == LinkStatus::Pending));

    let after: Vec<LinkProbe> = mgr.links.iter().map(linked_probe).collect();
    let rows = mgr.status(&after, CWD, HOME);
    assert!(rows.iter().all(|r| r.status == LinkStatus::Linked));
}

#[test]
fn scenario_occupied_target_skips_only_that_entry() {
    let mgr = Linkmanager::new(CONFIG, STORE, HOME, &store_entries()).unwrap();
    let probes: Vec<LinkProbe> = mgr
        .links
        .iter()
        .enumerate()
        .map(|(i, _)| {
            if i == 1 {
                LinkProbe {
                    source_exists: true,
                    target_exists: true,
                    target_is_symlink: false,
                    target_canonical: None,
                }
            } else {
                unlinked_probe()
            }
        })
        .collect();
    let actions = mgr.create_actions(&probes, CWD);
    assert_eq!(
        actions,
        vec![
            LinkStatus::Pending,
            LinkStatus::TargetOccupied,
            LinkStatus::Pending
        ]
    );
}

#[test]
fn second_sweep_skips_everything() {
    let mgr = Linkmanager::new(CONFIG, STORE, HOME, &store_entries()).unwrap();
    let after: Vec<LinkProbe> = mgr.links.iter().map(linked_probe).collect();
    let actions = mgr.create_actions(&after, CWD);
    assert!(actions.iter().all(|a| *a == LinkStatus::Linked));
}

#[test]
fn second_sweep_after_a_skipped_conflict_creates_nothing() {
    let mgr = Linkmanager::new(CONFIG, STORE, HOME, &store_entries()).unwrap();
    let after: Vec<LinkProbe> = mgr
        .links
        .iter()
        .enumerate()
        .map(|(i, l)| {
            if i == 1 {
                LinkProbe {
                    source_exists: true,
                    target_exists: true,
                    target_is_symlink: false,
                    target_canonical: None,
                }
            } else {
                linked_probe(l)
            }
        })
        .collect();
    let actions = mgr.create_actions(&after, CWD);
    assert_eq!(
        actions,
        vec![
            LinkStatus::Linked,
            LinkStatus::TargetOccupied,
            LinkStatus::Linked
        ]
    );
    assert!(actions.iter().all(|a| *a != LinkStatus::Pending));
}

#[test]
fn classification_precedence() {
    let l = Symlink::new(String::from("/a/b"), String::from("/c/d"));
    let linked = LinkProbe {
        source_exists: true,
        target_exists: true,
        target_is_symlink: true,
        target_canonical: Some(String::from("/a/b")),
    };
    assert_eq!(classify(&l, &linked, "/"), LinkStatus::Linked);
    let occupied = LinkProbe {
        source_exists: false,
        target_exists: true,
        target_is_symlink: false,
        target_canonical: None,
    };
    assert_eq!(classify(&l, &occupied, "/"), LinkStatus::TargetOccupied);
    let dangling = LinkProbe {
        source_exists: false,
        target_exists: false,
        target_is_symlink: false,
        target_canonical: None,
    };
    assert_eq!(classify(&l, &dangling, "/"), LinkStatus::SourceMissing);
    assert_eq!(classify(&l, &unlinked_probe(), "/"), LinkStatus::Pending);
}

#[test]
fn status_pads_columns() {
    let mgr = Linkmanager::new(CONFIG, STORE, HOME, &store_entries()).unwrap();
    let fresh: Vec<LinkProbe> = mgr.links.iter().map(|_| unlinked_probe()).collect();
    let rows = mgr.status(&fresh, CWD, HOME);
    let w_src = rows[0].source.chars().count();
    let w_tgt = rows[0].target.chars().count();
    for r in &rows {
        assert_eq!(r.source.chars().count(), w_src);
        assert_eq!(r.target.chars().count(), w_tgt);
    }
    assert_eq!(rows[0].source, "      bin/.");
    assert_eq!(rows[1].source, "bash/bashrc");
    assert_eq!(rows[0].target, "        ~/.bin");
    assert_eq!(rows[1].target, "     ~/.bashrc");
    assert_eq!(rows[2].target, "~/.config/nvim");
}

#[test]
fn status_of_empty_store_is_empty() {
    let mgr = Linkmanager::new(CONFIG, STORE, HOME, &Vec::new()).unwrap();
    let rows = mgr.status(&Vec::new(), CWD, HOME);
    assert!(rows.is_empty());
}

#[test]
fn pad_right_aligns() {
    assert_eq!("   ab", pad("ab", 5));
    assert_eq!("abcdef", pad("abcdef", 3));
    assert_eq!("", pad("", 0));
}

#[test]
fn run_dispatches_both_commands() {
    let mgr = Linkmanager::new(CONFIG, STORE, HOME, &store_entries()).unwrap();
    let fresh: Vec<LinkProbe> = mgr.links.iter().map(|_| unlinked_probe()).collect();
    match run(&Command::Status, &mgr, &fresh, CWD, HOME) {
        Report::Status(rows) => assert_eq!(rows.len(), 3),
        Report::Create(_) => panic!("expected a status report"),
    }
    match run(&Command::Create, &mgr, &fresh, CWD, HOME) {
        Report::Create(actions) => assert_eq!(actions.len(), 3),
        Report::Status(_) => panic!("expected sweep actions"),
    }
}
