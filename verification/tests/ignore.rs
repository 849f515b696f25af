use rembackup::config::{
    ConfigParseError, FsEntry, Ignore, Match, ParseErrorKind, Specifier,
};

fn path(parts: &[&str]) -> Vec<Vec<u8>> {
    parts.iter().map(|p| p.as_bytes().to_vec()).collect()
}

fn file_at(parts: &[&str]) -> FsEntry {
    FsEntry { path: path(parts), is_directory: Some(false) }
}

fn dir_at(parts: &[&str]) -> FsEntry {
    FsEntry { path: path(parts), is_directory: Some(true) }
}

fn unknown_at(parts: &[&str]) -> FsEntry {
    FsEntry { path: path(parts), is_directory: None }
}

#[test]
fn last_match_wins() {
    // ignore everything, except the path "x"
    let rules = Ignore(vec![
        Specifier::Entries(Match::Any),
        Specifier::Except(Ignore(vec![Specifier::Entries(Match::Eq(path(&["x"])))])),
    ]);
    assert_eq!(rules.matches_or_default(&file_at(&["x"])), false);
    assert_eq!(rules.matches_or_default(&file_at(&["y"])), true);
    assert_eq!(rules.matches(&file_at(&["x"])), Some(false));
    assert_eq!(rules.matches(&file_at(&["y"])), Some(true));
}

#[test]
fn empty_rules_ignore_nothing() {
    let rules = Ignore(vec![]);
    assert_eq!(rules.matches(&file_at(&["x"])), None);
    assert_eq!(rules.matches_or_default(&file_at(&["x"])), false);
}

#[test]
fn files_rule_needs_a_known_non_directory() {
    let rules = Ignore(vec![Specifier::Files(Match::Any)]);
    assert_eq!(rules.matches_or_default(&file_at(&["a"])), true);
    assert_eq!(rules.matches_or_default(&dir_at(&["a"])), false);
    // an entry of unknown kind can only be caught by an entries rule
    assert_eq!(rules.matches_or_default(&unknown_at(&["a"])), false);
    let any = Ignore(vec![Specifier::Entries(Match::Any)]);
    assert_eq!(any.matches_or_default(&unknown_at(&["a"])), true);
}

#[test]
fn glob_matches_within_one_component() {
    let rules = Ignore(vec![Specifier::Entries(Match::Glob(b"*.log".to_vec()))]);
    assert_eq!(rules.matches_or_default(&file_at(&["a.log"])), true);
    assert_eq!(rules.matches_or_default(&file_at(&["a.txt"])), false);
    // a single star does not cross a slash
    assert_eq!(rules.matches_or_default(&file_at(&["b", "a.log"])), false);
    let deep = Ignore(vec![Specifier::Entries(Match::Glob(b"**/*.log".to_vec()))]);
    assert_eq!(deep.matches_or_default(&file_at(&["b", "a.log"])), true);
}

#[test]
fn in_dir_with_no_inner_rules_matches_the_directory_itself() {
    let rules = Ignore(vec![Specifier::InDir {
        dir: Match::Eq(path(&["sub"])),
        inner: Ignore(vec![]),
    }]);
    assert_eq!(rules.matches_or_default(&dir_at(&["sub"])), true);
    assert_eq!(rules.matches_or_default(&file_at(&["sub"])), false);
    assert_eq!(rules.matches_or_default(&file_at(&["sub", "x"])), false);
}

#[test]
fn in_dir_scopes_inner_rules_to_relative_paths() {
    let rules = Ignore(vec![Specifier::InDir {
        dir: Match::Eq(path(&["sub"])),
        inner: Ignore(vec![Specifier::Entries(Match::Glob(b"*.tmp".to_vec()))]),
    }]);
    assert_eq!(rules.matches_or_default(&file_at(&["sub", "a.tmp"])), true);
    assert_eq!(rules.matches_or_default(&file_at(&["a.tmp"])), false);
    assert_eq!(rules.matches_or_default(&file_at(&["other", "a.tmp"])), false);
}

#[test]
fn parse_builds_the_declared_order() {
    let doc = b"*a\nexcept\n *= x\n".to_vec();
    let rules = Ignore::parse(&doc).unwrap();
    assert_eq!(
        rules,
        Ignore(vec![
            Specifier::Entries(Match::Any),
            Specifier::Except(Ignore(vec![Specifier::Entries(Match::Eq(path(&["x"])))])),
        ])
    );
    assert_eq!(rules.matches_or_default(&file_at(&["x"])), false);
    assert_eq!(rules.matches_or_default(&file_at(&["y"])), true);
}

#[test]
fn parse_directive_kinds() {
    let doc = b"*a\n+* *.o\n/= sub\n ** inner*\n".to_vec();
    let rules = Ignore::parse(&doc).unwrap();
    assert_eq!(
        rules,
        Ignore(vec![
            Specifier::Entries(Match::Any),
            Specifier::Files(Match::Glob(b"*.o".to_vec())),
            Specifier::InDir {
                dir: Match::Eq(path(&["sub"])),
                inner: Ignore(vec![Specifier::Entries(Match::Glob(b"inner*".to_vec()))]),
            },
        ])
    );
}

#[test]
fn parse_nests_blocks_by_indentation() {
    let doc = b"/= a\n /= b\n  *a\n *= x\n".to_vec();
    let rules = Ignore::parse(&doc).unwrap();
    assert_eq!(
        rules,
        Ignore(vec![Specifier::InDir {
            dir: Match::Eq(path(&["a"])),
            inner: Ignore(vec![
                Specifier::InDir {
                    dir: Match::Eq(path(&["b"])),
                    inner: Ignore(vec![Specifier::Entries(Match::Any)]),
                },
                Specifier::Entries(Match::Eq(path(&["x"]))),
            ]),
        }])
    );
}

#[test]
fn parse_is_case_insensitive_on_directives() {
    let doc = b"EXCEPT\n *A\n".to_vec();
    let rules = Ignore::parse(&doc).unwrap();
    assert_eq!(
        rules,
        Ignore(vec![Specifier::Except(Ignore(vec![Specifier::Entries(
            Match::Any
        )]))])
    );
}

#[test]
fn parse_skips_comments() {
    let doc = b"# heading\n*a\n".to_vec();
    let rules = Ignore::parse(&doc).unwrap();
    assert_eq!(rules, Ignore(vec![Specifier::Entries(Match::Any)]));
}

#[test]
fn parse_rejects_tab_indentation() {
    let doc = b"\t*a\n".to_vec();
    assert_eq!(
        Ignore::parse(&doc),
        Err(ConfigParseError { line: 1, kind: ParseErrorKind::IndentChar })
    );
}

#[test]
fn parse_rejects_uneven_sibling_indentation() {
    let doc = b"*a\n *a\n".to_vec();
    assert_eq!(
        Ignore::parse(&doc),
        Err(ConfigParseError { line: 2, kind: ParseErrorKind::IndentMismatch })
    );
}

#[test]
fn parse_rejects_unknown_directives() {
    let doc = b"*a\nnope x\n".to_vec();
    assert_eq!(
        Ignore::parse(&doc),
        Err(ConfigParseError { line: 2, kind: ParseErrorKind::UnknownDirective })
    );
}

#[test]
fn parse_rejects_unknown_match_kinds() {
    let doc = b"*q x\n".to_vec();
    assert_eq!(
        Ignore::parse(&doc),
        Err(ConfigParseError { line: 1, kind: ParseErrorKind::UnknownMatchKind })
    );
}

#[test]
fn parse_empty_document() {
    assert_eq!(Ignore::parse(&Vec::new()), Ok(Ignore(vec![])));
}

#[test]
fn nearest_ancestor_candidate_decides_first() {
    // the same relative name under nested matching directories: the rules
    // try the nearest ancestor's candidate first
    let rules = Ignore(vec![Specifier::InDir {
        dir: Match::Glob(b"**".to_vec()),
        inner: Ignore(vec![
            Specifier::Entries(Match::Eq(path(&["x"]))),
            Specifier::Except(Ignore(vec![Specifier::Entries(Match::Eq(path(&[
                "mid", "x",
            ])))])),
        ]),
    }]);
    // under "top/mid/x": the except rule sees candidate "mid/x" (relative
    // to "top") and answers first
    assert_eq!(rules.matches_or_default(&file_at(&["top", "mid", "x"])), false);
    // under "top/other/x" only the plain rule answers, via candidate "x"
    assert_eq!(rules.matches_or_default(&file_at(&["top", "other", "x"])), true);
}
