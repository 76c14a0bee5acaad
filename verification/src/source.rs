//! Source identifiers: the textual specification of a remote key source,
//! parsed into a typed variant and resolved to a fetchable HTTPS address.
//!
//! Parsing is total: any string yields a variant, and text that fits no
//! recognized shape (or names an address that is no URL) yields `Invalid`,
//! never an error. Every non-`Invalid` variant resolves to exactly one
//! absolute HTTPS address.

use vstd::prelude::*;
use vstd::string::StrSliceExecFns;
use vstd::string::StringExecFns;

use crate::text::find_char;
use crate::text::lemma_find_char;
use crate::text::str_eq;

verus! {

/// A typed reference to a remote key source.
#[derive(Clone, Debug)]
pub enum SourceIdentifier {
    /// Text that fits no recognized source shape; never dispatched.
    Invalid(String),
    GitHub { username: String },
    GitLab { username: String },
    SourceHut { username: String },
    /// An already-concrete URL, used verbatim.
    Http { address: String },
}

/// The mathematical shape of a source identifier.
pub ghost enum SourceIdView {
    Invalid(Seq<char>),
    GitHub(Seq<char>),
    GitLab(Seq<char>),
    SourceHut(Seq<char>),
    Http(Seq<char>),
}

impl View for SourceIdentifier {
    type V = SourceIdView;

    open spec fn view(&self) -> SourceIdView {
        match self {
            SourceIdentifier::Invalid(s) => SourceIdView::Invalid(s@),
            SourceIdentifier::GitHub { username } => SourceIdView::GitHub(username@),
            SourceIdentifier::GitLab { username } => SourceIdView::GitLab(username@),
            SourceIdentifier::SourceHut { username } => SourceIdView::SourceHut(username@),
            SourceIdentifier::Http { address } => SourceIdView::Http(address@),
        }
    }
}

impl DeepView for SourceIdentifier {
    type V = SourceIdView;

    open spec fn deep_view(&self) -> SourceIdView {
        self.view()
    }
}

impl PartialEq for SourceIdentifier {
    fn eq(&self, other: &Self) -> (r: bool) {
        match (self, other) {
            (SourceIdentifier::Invalid(a), SourceIdentifier::Invalid(b)) => str_eq(
                a.as_str(),
                b.as_str(),
            ),
            (
                SourceIdentifier::GitHub { username: a },
                SourceIdentifier::GitHub { username: b },
            ) => str_eq(a.as_str(), b.as_str()),
            (
                SourceIdentifier::GitLab { username: a },
                SourceIdentifier::GitLab { username: b },
            ) => str_eq(a.as_str(), b.as_str()),
            (
                SourceIdentifier::SourceHut { username: a },
                SourceIdentifier::SourceHut { username: b },
            ) => str_eq(a.as_str(), b.as_str()),
            (
                SourceIdentifier::Http { address: a },
                SourceIdentifier::Http { address: b },
            ) => str_eq(a.as_str(), b.as_str()),
            _ => false,
        }
    }
}

impl vstd::std_specs::cmp::PartialEqSpecImpl for SourceIdentifier {
    open spec fn obeys_eq_spec() -> bool {
        true
    }

    open spec fn eq_spec(&self, other: &Self) -> bool {
        self@ == other@
    }
}

/// Whether a string parses as an absolute URL. The one outside judgement
/// the parser leans on; it depends on the characters alone.
pub uninterp spec fn url_ok(s: Seq<char>) -> bool;

/// Relies on url::Url::parse: success or failure is a function of the
/// input string alone, and the call never panics.
#[verifier::external_body]
fn url_is_valid(s: &str) -> (r: bool)
    ensures
        r == url_ok(s@),
{
    url::Url::parse(s).is_ok()
}

/// The username that follows the recognized prefix: the characters after
/// the first `':'` up to the next `':'` or the end.
pub open spec fn username_at(s: Seq<char>, c: int) -> Seq<char> {
    s.subrange(c + 1, c + 1 + find_char(s.skip(c + 1), ':'))
}

/// What parsing a source specification yields. The text before the first
/// `':'` selects the provider; `http`/`https` re-read the whole text as a
/// URL; anything else, a missing or empty username, or a failing URL is
/// `Invalid`.
pub open spec fn parse_spec(s: Seq<char>) -> SourceIdView {
    let c = find_char(s, ':');
    let head = s.take(c);
    if head == "github"@ || head == "gitlab"@ || head == "sourcehut"@ {
        if c >= s.len() {
            SourceIdView::Invalid(s)
        } else {
            let u = username_at(s, c);
            if u.len() == 0 {
                SourceIdView::Invalid(s)
            } else if head == "github"@ {
                SourceIdView::GitHub(u)
            } else if head == "gitlab"@ {
                SourceIdView::GitLab(u)
            } else {
                SourceIdView::SourceHut(u)
            }
        }
    } else if head == "http"@ || head == "https"@ {
        if url_ok(s) {
            SourceIdView::Http(s)
        } else {
            SourceIdView::Invalid(s)
        }
    } else {
        SourceIdView::Invalid(s)
    }
}

/// The textual form of an identifier: `<prefix>:<username>` for the named
/// providers, the bare address for `Http`, the original text for `Invalid`.
pub open spec fn text_of(v: SourceIdView) -> Seq<char> {
    match v {
        SourceIdView::Invalid(s) => s,
        SourceIdView::GitHub(u) => "github:"@ + u,
        SourceIdView::GitLab(u) => "gitlab:"@ + u,
        SourceIdView::SourceHut(u) => "sourcehut:"@ + u,
        SourceIdView::Http(a) => a,
    }
}

/// The one absolute HTTPS address a non-`Invalid` identifier fetches from.
pub open spec fn resolved_url(v: SourceIdView) -> Seq<char> {
    match v {
        SourceIdView::Invalid(s) => Seq::empty(),
        SourceIdView::GitHub(u) => "https://github.com/"@ + u + ".keys"@,
        SourceIdView::GitLab(u) => "https://gitlab.com/"@ + u + ".keys"@,
        SourceIdView::SourceHut(u) => "https://meta.sr.ht/~"@ + u + ".keys"@,
        SourceIdView::Http(a) => a,
    }
}

impl SourceIdentifier {
    /// Parses a source specification. Total: never fails, never panics;
    /// unrecognized text comes back as `Invalid`.
    pub fn parse(raw: &str) -> (r: SourceIdentifier)
        ensures
            r@ == parse_spec(raw@),
    {
        let n = raw.unicode_len();
        let mut c: usize = 0;
        while c < n && raw.get_char(c) != ':'
            invariant
                c <= n,
                forall|j: int| 0 <= j < c ==> raw@[j] != ':',
            decreases n - c,
        {
            c += 1;
        }
        proof {
            lemma_find_char(raw@, ':');
            assert(find_char(raw@, ':') == c as int);
        }
        let head = raw.substring_char(0, c);
        proof {
            assert(head@ == raw@.take(c as int));
        }
        if str_eq(head, "github") || str_eq(head, "gitlab") || str_eq(head, "sourcehut") {
            if c == n {
                return SourceIdentifier::Invalid(String::from_str(raw));
            }
            let mut e: usize = c + 1;
            while e < n && raw.get_char(e) != ':'
                invariant
                    c + 1 <= e <= n,
                    forall|j: int| c + 1 <= j < e ==> raw@[j] != ':',
                decreases n - e,
            {
                e += 1;
            }
            proof {
                let suf = raw@.skip(c + 1);
                lemma_find_char(suf, ':');
                assert forall|k: int| 0 <= k < e - c - 1 implies suf[k] != ':' by {
                    assert(suf[k] == raw@[c + 1 + k]);
                }
                if (e as int) < n {
                    assert(suf[e - c - 1] == raw@[e as int]);
                }
                assert(find_char(suf, ':') == e - c - 1);
                assert(username_at(raw@, c as int) =~= raw@.subrange(c + 1, e as int));
            }
            if e == c + 1 {
                return SourceIdentifier::Invalid(String::from_str(raw));
            }
            let username = String::from_str(raw.substring_char(c + 1, e));
            if str_eq(head, "github") {
                return SourceIdentifier::GitHub { username };
            }
            if str_eq(head, "gitlab") {
                return SourceIdentifier::GitLab { username };
            }
            return SourceIdentifier::SourceHut { username };
        }
        if str_eq(head, "http") || str_eq(head, "https") {
            if url_is_valid(raw) {
                return SourceIdentifier::Http { address: String::from_str(raw) };
            }
            return SourceIdentifier::Invalid(String::from_str(raw));
        }
        SourceIdentifier::Invalid(String::from_str(raw))
    }

    /// An equal copy of the identifier, with the copy's shape pinned down.
    pub fn duplicate(&self) -> (r: Self)
        ensures
            r@ == self@,
    {
        match self {
            SourceIdentifier::Invalid(s) => SourceIdentifier::Invalid(s.clone()),
            SourceIdentifier::GitHub { username } => SourceIdentifier::GitHub {
                username: username.clone(),
            },
            SourceIdentifier::GitLab { username } => SourceIdentifier::GitLab {
                username: username.clone(),
            },
            SourceIdentifier::SourceHut { username } => SourceIdentifier::SourceHut {
                username: username.clone(),
            },
            SourceIdentifier::Http { address } => SourceIdentifier::Http {
                address: address.clone(),
            },
        }
    }

    /// The identifier's textual form, for diagnostics and round trips.
    pub fn to_text(&self) -> (r: String)
        ensures
            r@ == text_of(self@),
    {
        match self {
            SourceIdentifier::Invalid(s) => s.clone(),
            SourceIdentifier::GitHub { username } => {
                let mut t = String::from_str("github:");
                t.append(username.as_str());
                t
            },
            SourceIdentifier::GitLab { username } => {
                let mut t = String::from_str("gitlab:");
                t.append(username.as_str());
                t
            },
            SourceIdentifier::SourceHut { username } => {
                let mut t = String::from_str("sourcehut:");
                t.append(username.as_str());
                t
            },
            SourceIdentifier::Http { address } => address.clone(),
        }
    }

    /// Maps a non-`Invalid` identifier to its fetch address.
    pub fn resolve(&self) -> (r: String)
        requires
            !(self@ is Invalid),
        ensures
            r@ == resolved_url(self@),
    {
        match self {
            SourceIdentifier::GitHub { username } => {
                let mut t = String::from_str("https://github.com/");
                t.append(username.as_str());
                t.append(".keys");
                t
            },
            SourceIdentifier::GitLab { username } => {
                let mut t = String::from_str("https://gitlab.com/");
                t.append(username.as_str());
                t.append(".keys");
                t
            },
            SourceIdentifier::SourceHut { username } => {
                let mut t = String::from_str("https://meta.sr.ht/~");
                t.append(username.as_str());
                t.append(".keys");
                t
            },
            SourceIdentifier::Http { address } => address.clone(),
            SourceIdentifier::Invalid(_) => {
                proof {
                    assert(false);
                }
                String::new()
            },
        }
    }
}

proof fn lemma_provider_text(prefix: Seq<char>, u: Seq<char>)
    requires
        prefix.len() > 0,
        forall|j: int| 0 <= j < prefix.len() ==> prefix[j] != ':',
        u.len() > 0,
        forall|j: int| 0 <= j < u.len() ==> u[j] != ':',
    ensures
        ({
            let t = prefix + seq![':'] + u;
            &&& find_char(t, ':') == prefix.len()
            &&& (prefix.len() as int) < t.len()
            &&& t.take(prefix.len() as int) == prefix
            &&& username_at(t, prefix.len() as int) == u
        }),
{
    let t = prefix + seq![':'] + u;
    lemma_find_char(t, ':');
    assert(t[prefix.len() as int] == ':');
    assert forall|j: int| 0 <= j < prefix.len() implies t[j] != ':' by {
        assert(t[j] == prefix[j]);
    }
    let f = find_char(t, ':');
    assert(f == prefix.len());
    assert(t.take(prefix.len() as int) =~= prefix);
    let suf = t.skip(prefix.len() as int + 1);
    assert(suf =~= u);
    lemma_find_char(u, ':');
    assert(find_char(u, ':') == u.len());
    assert(username_at(t, prefix.len() as int) =~= u);
}

/// Parsing the textual form of any parsed, non-`Invalid` identifier gives
/// the identifier back: the round trip is exact.
pub proof fn lemma_parse_round_trip(s: Seq<char>)
    ensures
        !(parse_spec(s) is Invalid) ==> parse_spec(text_of(parse_spec(s))) == parse_spec(s),
{
    let c = find_char(s, ':');
    let head = s.take(c);
    lemma_find_char(s, ':');
    if head == "github"@ || head == "gitlab"@ || head == "sourcehut"@ {
        if c < s.len() {
            let u = username_at(s, c);
            if u.len() > 0 {
                let suf = s.skip(c + 1);
                lemma_find_char(suf, ':');
                assert forall|j: int| 0 <= j < u.len() implies u[j] != ':' by {
                    assert(u[j] == suf[j]);
                }
                if head == "github"@ {
                    reveal_strlit("github");
                    reveal_strlit("github:");
                    assert("github:"@ =~= "github"@ + seq![':'] + u.take(0));
                    assert("github:"@ + u =~= "github"@ + seq![':'] + u);
                    lemma_provider_text("github"@, u);
                } else if head == "gitlab"@ {
                    reveal_strlit("gitlab");
                    reveal_strlit("gitlab:");
                    assert("gitlab:"@ =~= "gitlab"@ + seq![':'] + u.take(0));
                    assert("gitlab:"@ + u =~= "gitlab"@ + seq![':'] + u);
                    lemma_provider_text("gitlab"@, u);
                } else {
                    reveal_strlit("sourcehut");
                    reveal_strlit("sourcehut:");
                    assert("sourcehut:"@ =~= "sourcehut"@ + seq![':'] + u.take(0));
                    assert("sourcehut:"@ + u =~= "sourcehut"@ + seq![':'] + u);
                    lemma_provider_text("sourcehut"@, u);
                }
            }
        }
    }
}

} // verus!
