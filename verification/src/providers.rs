//! Provider capability abstraction.
//!
//! Each git-hosting variant is a unit struct implementing [`GitProvider`];
//! the closed set of variants is [`ProviderKind`], which the aggregator's
//! registry holds and resolves by case-insensitive name match. The actual
//! network calls happen outside the library; each variant's module holds the
//! verified logic that turns fetched plain values into daily counts.

pub mod forgejo;
pub mod github;
pub mod gitlab;

use vstd::prelude::*;
use vstd::string::StrSliceExecFns;

verus! {

/// Failures a fetch can produce. Provider errors are isolated by the
/// aggregator and never abort a batch; cache errors fall back to direct
/// computation.
#[derive(Clone, Copy, PartialEq, Eq, Structural, Debug)]
pub enum ProviderError {
    /// A self-hosted variant was invoked without its base URL.
    MissingBaseUrl,
    /// Transport failure (also covers undetected credential failures).
    NetworkFailure,
    /// Credential failure, where the transport layer surfaces it.
    AuthFailure,
    /// A response decoded to values the contract rules out.
    ParseFailure,
    /// A requested provider name is absent from the registry.
    UnknownProvider,
    /// The cache could not be read or written.
    CacheUnavailable,
}

/// Two characters match up to ASCII case.
pub open spec fn chars_eq_ic(a: char, b: char) -> bool {
    ||| a == b
    ||| ('A' <= a && a <= 'Z' && b as int == a as int + 32)
    ||| ('A' <= b && b <= 'Z' && a as int == b as int + 32)
}

/// Two names match up to ASCII case, character by character.
pub open spec fn eq_ignore_case(a: Seq<char>, b: Seq<char>) -> bool {
    a.len() == b.len() && forall|i: int| 0 <= i < a.len() ==> chars_eq_ic(a[i], b[i])
}

fn char_ic(x: char, y: char) -> (r: bool)
    ensures
        r == chars_eq_ic(x, y),
{
    x == y || (x >= 'A' && x <= 'Z' && y as u32 == x as u32 + 32) || (y >= 'A' && y <= 'Z'
        && x as u32 == y as u32 + 32)
}

/// Case-insensitive (ASCII) name comparison.
pub fn names_match(a: &str, b: &str) -> (r: bool)
    ensures
        r == eq_ignore_case(a@, b@),
{
    let la = a.unicode_len();
    let lb = b.unicode_len();
    if la != lb {
        return false;
    }
    let mut i: usize = 0;
    while i < la
        invariant
            la == a@.len(),
            la == b@.len(),
            i <= la,
            forall|k: int| 0 <= k < i ==> chars_eq_ic(a@[k], b@[k]),
        decreases la - i,
    {
        if !char_ic(a.get_char(i), b.get_char(i)) {
            return false;
        }
        i = i + 1;
    }
    true
}

/// A git-hosting provider: it has a display name, matched case-insensitively
/// when resolving requests.
pub trait GitProvider {
    spec fn name_spec(&self) -> Seq<char>;

    fn get_name(&self) -> (r: String)
        ensures
            r@ == self.name_spec(),
    ;
}

/// The closed set of provider variants the registry can hold.
#[derive(Clone, Copy, PartialEq, Eq, Structural, Debug)]
pub enum ProviderKind {
    GitHub,
    GitLab,
    ForgeJo,
}

impl ProviderKind {
    pub open spec fn name_spec(self) -> Seq<char> {
        match self {
            ProviderKind::GitHub => "GitHub"@,
            ProviderKind::GitLab => "GitLab"@,
            ProviderKind::ForgeJo => "ForgeJo"@,
        }
    }

    pub fn get_name(&self) -> (r: String)
        ensures
            r@ == self.name_spec(),
    {
        match self {
            ProviderKind::GitHub => "GitHub".to_owned(),
            ProviderKind::GitLab => "GitLab".to_owned(),
            ProviderKind::ForgeJo => "ForgeJo".to_owned(),
        }
    }

    /// Whether this variant needs a base URL (the self-hostable ones do).
    pub open spec fn needs_url_spec(self) -> bool {
        match self {
            ProviderKind::GitHub => false,
            ProviderKind::GitLab => true,
            ProviderKind::ForgeJo => true,
        }
    }

    pub fn needs_url(&self) -> (r: bool)
        ensures
            r == self.needs_url_spec(),
    {
        match self {
            ProviderKind::GitHub => false,
            ProviderKind::GitLab => true,
            ProviderKind::ForgeJo => true,
        }
    }
}

/// A self-hosted variant invoked without its base URL is refused before any
/// call is made; the hosted variant ignores the URL.
pub fn check_base_url(kind: &ProviderKind, url: &Option<String>) -> (r: Result<
    (),
    ProviderError,
>)
    ensures
        r == if kind.needs_url_spec() && url is None {
            Result::<(), ProviderError>::Err(ProviderError::MissingBaseUrl)
        } else {
            Result::<(), ProviderError>::Ok(())
        },
{
    if kind.needs_url() && url.is_none() {
        Err(ProviderError::MissingBaseUrl)
    } else {
        Ok(())
    }
}

/// The first registry entry whose name matches `name` case-insensitively.
pub open spec fn first_match(ps: Seq<ProviderKind>, name: Seq<char>) -> Option<ProviderKind>
    decreases ps.len(),
{
    if ps.len() == 0 {
        None
    } else if eq_ignore_case(name, ps.first().name_spec()) {
        Some(ps.first())
    } else {
        first_match(ps.drop_first(), name)
    }
}

proof fn lemma_first_match_skip(ps: Seq<ProviderKind>, name: Seq<char>, i: int)
    requires
        0 <= i <= ps.len(),
        forall|k: int| 0 <= k < i ==> !eq_ignore_case(name, (#[trigger] ps[k]).name_spec()),
    ensures
        first_match(ps, name) == first_match(ps.skip(i), name),
    decreases i,
{
    if i > 0 {
        lemma_first_match_skip(ps, name, i - 1);
        let q = ps.skip(i - 1);
        assert(q.first() == ps[i - 1]);
        assert(q.drop_first() =~= ps.skip(i));
    } else {
        assert(ps.skip(0) =~= ps);
    }
}

/// Resolve a requested name against the registry, first match wins; `None`
/// exactly when no registered provider matches.
pub fn find_provider(providers: &Vec<ProviderKind>, name: &str) -> (r: Option<ProviderKind>)
    ensures
        r == first_match(providers@, name@),
{
    let mut i: usize = 0;
    while i < providers.len()
        invariant
            i <= providers@.len(),
            forall|k: int|
                0 <= k < i ==> !eq_ignore_case(name@, (#[trigger] providers@[k]).name_spec()),
        decreases providers@.len() - i,
    {
        let p = providers[i];
        let pname = p.get_name();
        if names_match(name, pname.as_str()) {
            proof {
                lemma_first_match_skip(providers@, name@, i as int);
                assert(providers@.skip(i as int).first() == providers@[i as int]);
            }
            return Some(p);
        }
        i = i + 1;
    }
    proof {
        lemma_first_match_skip(providers@, name@, providers@.len() as int);
        assert(providers@.skip(providers@.len() as int) =~= Seq::<ProviderKind>::empty());
    }
    None
}

} // verus!
