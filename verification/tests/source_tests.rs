use keyps::source::SourceIdentifier;

#[test]
fn parse_github() {
    let s = SourceIdentifier::parse("github:alice");
    assert_eq!(s, SourceIdentifier::GitHub { username: "alice".to_string() });
}

#[test]
fn parse_gitlab() {
    let s = SourceIdentifier::parse("gitlab:bob");
    assert_eq!(s, SourceIdentifier::GitLab { username: "bob".to_string() });
}

#[test]
fn parse_sourcehut() {
    let s = SourceIdentifier::parse("sourcehut:carol");
    assert_eq!(s, SourceIdentifier::SourceHut { username: "carol".to_string() });
}

#[test]
fn parse_http_url() {
    let s = SourceIdentifier::parse("https://example.com/keys.txt");
    assert_eq!(s, SourceIdentifier::Http { address: "https://example.com/keys.txt".to_string() });
}

#[test]
fn parse_bad_url_is_invalid() {
    // recognized scheme prefix, but no URL behind it
    let s = SourceIdentifier::parse("https://");
    assert_eq!(s, SourceIdentifier::Invalid("https://".to_string()));
}

#[test]
fn parse_bare_scheme_is_invalid() {
    let s = SourceIdentifier::parse("http");
    assert_eq!(s, SourceIdentifier::Invalid("http".to_string()));
}

#[test]
fn parse_missing_username_is_invalid() {
    assert_eq!(
        SourceIdentifier::parse("github"),
        SourceIdentifier::Invalid("github".to_string())
    );
    assert_eq!(
        SourceIdentifier::parse("github:"),
        SourceIdentifier::Invalid("github:".to_string())
    );
}

#[test]
fn parse_empty_username_is_invalid() {
    assert_eq!(
        SourceIdentifier::parse("gitlab::x"),
        SourceIdentifier::Invalid("gitlab::x".to_string())
    );
}

#[test]
fn parse_unknown_prefix_is_invalid() {
    assert_eq!(
        SourceIdentifier::parse("bitbucket:dave"),
        SourceIdentifier::Invalid("bitbucket:dave".to_string())
    );
}

#[test]
fn parse_empty_string_is_invalid() {
    assert_eq!(SourceIdentifier::parse(""), SourceIdentifier::Invalid("".to_string()));
}

#[test]
fn parse_takes_first_segment_as_username() {
    let s = SourceIdentifier::parse("github:alice:extra");
    assert_eq!(s, SourceIdentifier::GitHub { username: "alice".to_string() });
}

#[test]
fn to_text_round_trip() {
    for raw in ["github:alice", "gitlab:bob", "sourcehut:carol", "https://example.com/keys.txt"] {
        let parsed = SourceIdentifier::parse(raw);
        assert_eq!(parsed.to_text(), raw);
        let reparsed = SourceIdentifier::parse(&parsed.to_text());
        assert_eq!(reparsed, parsed);
    }
}

#[test]
fn resolve_github() {
    let s = SourceIdentifier::parse("github:alice");
    assert_eq!(s.resolve(), "https://github.com/alice.keys");
}

#[test]
fn resolve_gitlab() {
    let s = SourceIdentifier::parse("gitlab:bob");
    assert_eq!(s.resolve(), "https://gitlab.com/bob.keys");
}

#[test]
fn resolve_sourcehut() {
    let s = SourceIdentifier::parse("sourcehut:carol");
    assert_eq!(s.resolve(), "https://meta.sr.ht/~carol.keys");
}

#[test]
fn resolve_http_is_verbatim() {
    let s = SourceIdentifier::parse("https://example.com/keys.txt");
    assert_eq!(s.resolve(), "https://example.com/keys.txt");
}
