use sidoma::symlink::{display_path, strip_prefix_dir, LinkProbe, Symlink};
use sidoma::utils::{absolute_path, expand_home_dir, is_dotfile, join_path};

const HOME: &str = "/home/user";

#[test]
fn test_expand_home_dir() {
    assert_eq!(format!("{HOME}/test"), expand_home_dir("~/test", HOME));
    assert_eq!("test/~/test", expand_home_dir("test/~/test", HOME));
}

#[test]
fn expand_home_edges() {
    assert_eq!(HOME, expand_home_dir("~", HOME));
    assert_eq!("~stray", expand_home_dir("~stray", HOME));
    assert_eq!("/abs/~/x", expand_home_dir("/abs/~/x", HOME));
    assert_eq!("", expand_home_dir("", HOME));
}

#[test]
fn absolute_path_joins_and_cleans() {
    assert_eq!("/cwd/hello", absolute_path("hello/world/..", "/cwd"));
    assert_eq!("/path", absolute_path("/test/../path/", "/x"));
    assert_eq!("/a/b", absolute_path(".", "/a/b"));
    assert_eq!("/a/b/c", absolute_path("b//c", "/a"));
    assert_eq!("/", absolute_path("/..", "/x"));
    assert_eq!("/a", absolute_path("", "/a"));
}

#[test]
fn dotfile_names() {
    assert!(is_dotfile(".git"));
    assert!(is_dotfile("."));
    assert!(!is_dotfile("bash"));
    assert!(!is_dotfile(""));
}

#[test]
fn join_path_cases() {
    assert_eq!("/a/b", join_path("/a", "b"));
    assert_eq!("/a/b", join_path("/a/", "b"));
    assert_eq!("/b", join_path("/a", "/b"));
    assert_eq!("b", join_path("", "b"));
}

#[test]
fn display_collapses_home() {
    assert_eq!("~/x", display_path("/home/user/x", HOME));
    assert_eq!("~", display_path("/home/user", HOME));
    assert_eq!("/home/userx", display_path("/home/userx", HOME));
    assert_eq!("/etc/conf", display_path("/etc/conf", HOME));
}

#[test]
fn strip_prefix_cases() {
    assert_eq!("bin", strip_prefix_dir("/d/bin", "/d"));
    assert_eq!("", strip_prefix_dir("/d", "/d"));
    assert_eq!("/e/bin", strip_prefix_dir("/e/bin", "/d"));
}

#[test]
fn render_shows_both_sides_home_relative() {
    let l = Symlink::new(
        String::from("/home/user/dotfiles/bin"),
        String::from("/home/user/.bin"),
    );
    assert_eq!("~/dotfiles/bin \u{1F806} ~/.bin", l.render(HOME));
}

#[test]
fn link_plan_computes_relative_contents() {
    let l = Symlink::new(
        String::from("/home/user/dotfiles/bin"),
        String::from("/home/user/.bin"),
    );
    let plan = l.link_plan("/").unwrap();
    assert_eq!(plan.target, "/home/user/.bin");
    assert_eq!(plan.parent, "/home/user");
    assert_eq!(plan.contents, "dotfiles/bin");
}

#[test]
fn link_plan_climbs_out_of_the_base() {
    let l = Symlink::new(String::from("/a/b"), String::from("/c/d/e"));
    let plan = l.link_plan("/").unwrap();
    assert_eq!(plan.parent, "/c/d");
    assert_eq!(plan.contents, "../../a/b");
}

#[test]
fn link_plan_rejects_root_target() {
    let l = Symlink::new(String::from("/a"), String::from("/"));
    assert!(l.link_plan("/").is_none());
}

#[test]
fn planned_link_resolves_back_to_source() {
    let l = Symlink::new(
        String::from("/home/user/dotfiles/bash/bashrc"),
        String::from("/home/user/.bashrc"),
    );
    let plan = l.link_plan("/").unwrap();
    let resolved = absolute_path(&join_path(&plan.parent, &plan.contents), "/");
    assert_eq!(resolved, "/home/user/dotfiles/bash/bashrc");
    let probe = LinkProbe {
        source_exists: true,
        target_exists: true,
        target_is_symlink: true,
        target_canonical: Some(resolved),
    };
    assert!(l.is_linked(&probe, "/"));
}

#[test]
fn missing_source_is_never_linked() {
    let l = Symlink::new(String::from("/a/b"), String::from("/c/d"));
    let probe = LinkProbe {
        source_exists: false,
        target_exists: true,
        target_is_symlink: true,
        target_canonical: Some(String::from("/a/b")),
    };
    assert!(!l.is_linked(&probe, "/"));
}

#[test]
fn failed_canonicalization_is_not_linked() {
    let l = Symlink::new(String::from("/a/b"), String::from("/c/d"));
    let probe = LinkProbe {
        source_exists: true,
        target_exists: false,
        target_is_symlink: true,
        target_canonical: None,
    };
    assert!(!l.is_linked(&probe, "/"));
}
