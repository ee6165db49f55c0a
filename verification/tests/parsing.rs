use sidoma::symlink::{parse_link_file, ParseError, Symlink};

const HOME: &str = "/home/user";

#[test]
fn test_symlink() {
    assert!(Symlink::parse(". ~/.bin", HOME).is_ok());
    assert!(Symlink::parse("test test", HOME).is_err());
    assert!(Symlink::parse("/test ~/test", HOME).is_err());
}

#[test]
fn parse_keeps_source_and_expands_target() {
    let l = Symlink::parse(". ~/.bin", HOME).unwrap();
    assert_eq!(l.source, ".");
    assert_eq!(l.target, "/home/user/.bin");

    let l = Symlink::parse("bashrc ~/.bashrc", HOME).unwrap();
    assert_eq!(l.source, "bashrc");
    assert_eq!(l.target, "/home/user/.bashrc");

    let l = Symlink::parse("conf /etc/conf", HOME).unwrap();
    assert_eq!(l.source, "conf");
    assert_eq!(l.target, "/etc/conf");
}

#[test]
fn parse_rejects_relative_target() {
    assert!(matches!(
        Symlink::parse("test test", HOME),
        Err(ParseError::TargetNotAbsolute)
    ));
}

#[test]
fn parse_rejects_absolute_source() {
    assert!(matches!(
        Symlink::parse("/test ~/test", HOME),
        Err(ParseError::SourceNotRelative)
    ));
}

#[test]
fn parse_rejects_escaping_source() {
    assert!(matches!(
        Symlink::parse("../x ~/y", HOME),
        Err(ParseError::SourceEscapes)
    ));
    assert!(matches!(
        Symlink::parse("a/../../x ~/y", HOME),
        Err(ParseError::SourceEscapes)
    ));
    assert!(Symlink::parse("a/../b ~/y", HOME).is_ok());
}

#[test]
fn parse_rejects_wrong_token_counts() {
    assert!(matches!(
        Symlink::parse("alone", HOME),
        Err(ParseError::NotTwoTokens)
    ));
    assert!(matches!(
        Symlink::parse("a b c", HOME),
        Err(ParseError::NotTwoTokens)
    ));
    assert!(matches!(
        Symlink::parse("a \t ", HOME),
        Err(ParseError::NotTwoTokens)
    ));
    assert!(matches!(
        Symlink::parse("", HOME),
        Err(ParseError::NotTwoTokens)
    ));
    assert!(matches!(
        Symlink::parse("   ", HOME),
        Err(ParseError::NotTwoTokens)
    ));
}

#[test]
fn parse_splits_on_any_whitespace() {
    let l = Symlink::parse("a\t/x", HOME).unwrap();
    assert_eq!(l.source, "a");
    assert_eq!(l.target, "/x");

    let l = Symlink::parse("a  /x", HOME).unwrap();
    assert_eq!(l.source, "a");
    assert_eq!(l.target, "/x");

    let l = Symlink::parse("  a \u{a0} ~/x ", HOME).unwrap();
    assert_eq!(l.source, "a");
    assert_eq!(l.target, "/home/user/x");

    assert!(matches!(
        Symlink::parse("a  b", HOME),
        Err(ParseError::TargetNotAbsolute)
    ));
}

#[test]
fn link_file_skips_blanks_and_comments() {
    let links = parse_link_file("# header\nbashrc ~/.bashrc\n\n. ~/.bin\n", HOME).unwrap();
    assert_eq!(links.len(), 2);
    assert_eq!(links[0].source, "bashrc");
    assert_eq!(links[0].target, "/home/user/.bashrc");
    assert_eq!(links[1].source, ".");
    assert_eq!(links[1].target, "/home/user/.bin");
}

#[test]
fn link_file_trims_lines() {
    let links = parse_link_file("  bashrc ~/.bashrc  \n", HOME).unwrap();
    assert_eq!(links.len(), 1);
    assert_eq!(links[0].source, "bashrc");
}

#[test]
fn link_file_handles_unicode_whitespace() {
    let links = parse_link_file("\u{2003}bashrc ~/.bashrc\u{a0}\n\u{2000}\n", HOME).unwrap();
    assert_eq!(links.len(), 1);
    assert_eq!(links[0].source, "bashrc");
    assert_eq!(links[0].target, "/home/user/.bashrc");
}

#[test]
fn link_file_reports_line_numbers() {
    let e = parse_link_file("# c\n\nbad\n", HOME).unwrap_err();
    assert_eq!(e.line, 3);
    assert!(matches!(e.kind, ParseError::NotTwoTokens));

    let e = parse_link_file("a ~/a\n/b ~/b", HOME).unwrap_err();
    assert_eq!(e.line, 2);
    assert!(matches!(e.kind, ParseError::SourceNotRelative));
}

#[test]
fn link_file_empty_text_yields_nothing() {
    assert!(parse_link_file("", HOME).unwrap().is_empty());
    assert!(parse_link_file("\n\n# only comments\n", HOME).unwrap().is_empty());
}
