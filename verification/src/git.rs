//! Parsing of GitHub repository specifications and GitHub file URLs.

use vstd::prelude::*;
use crate::text;

verus! {

/// A GitHub repository checked out into the local cache.
#[derive(Debug, Clone, PartialEq, Eq)]
pub struct CachedGithubRepo {
    pub owner: String,
    pub name: String,
    pub reference: String,
    pub commit: String,
    /// The directory of the checkout.
    pub root: String,
}

/// A repository named as `owner/repo[@ref]`.
#[derive(Debug, Clone, PartialEq, Eq)]
pub struct GithubRepoSpec {
    pub owner: String,
    pub name: String,
    pub reference: Option<String>,
}

/// Why a repository specification was refused.
#[derive(Debug, Clone, PartialEq, Eq)]
pub enum GithubSpecError {
    /// Nothing follows the owner.
    MissingName,
    /// The owner or the name is empty, or more path segments follow.
    InvalidForm,
}

impl GithubSpecError {
    /// The message that explains the error.
    pub fn message(&self) -> (r: String)
        ensures
            r@ == self.message_view(),
    {
        match self {
            GithubSpecError::MissingName => String::from_str("Missing GitHub repo name"),
            GithubSpecError::InvalidForm => String::from_str(
                "Expected GitHub repo in the form owner/repo[@ref]",
            ),
        }
    }

    pub open spec fn message_view(&self) -> Seq<char> {
        match self {
            GithubSpecError::MissingName => "Missing GitHub repo name"@,
            GithubSpecError::InvalidForm => "Expected GitHub repo in the form owner/repo[@ref]"@,
        }
    }
}

pub open spec fn raw_prefix() -> Seq<char> {
    "https://raw.githubusercontent.com/"@
}

pub open spec fn https_prefix() -> Seq<char> {
    "https://github.com/"@
}

pub open spec fn http_prefix() -> Seq<char> {
    "http://github.com/"@
}

/// `owner/repo@reference`.
pub open spec fn repo_ref(owner: Seq<char>, repo: Seq<char>, reference: Seq<char>) -> Seq<char> {
    owner + seq!['/'] + repo + seq!['@'] + reference
}

/// The repository specification and the path in the repository that a
/// GitHub file URL names, for raw-content URLs
/// (`https://raw.githubusercontent.com/owner/repo/ref/path`) and blob URLs
/// (`https://github.com/owner/repo/blob/ref/path`); `None` for anything else.
pub open spec fn spec_github_file_url(url: Seq<char>) -> Option<(Seq<char>, Seq<char>)> {
    if text::starts_with(url, raw_prefix()) {
        let parts = text::split_on(url.skip(raw_prefix().len() as int), '/');
        if parts.len() >= 4 {
            Some((repo_ref(parts[0], parts[1], parts[2]), text::join_with(parts.skip(3), seq!['/'])))
        } else {
            None
        }
    } else if text::starts_with(url, https_prefix()) {
        let parts = text::split_on(url.skip(https_prefix().len() as int), '/');
        if parts.len() >= 5 && parts[2] == "blob"@ {
            Some((repo_ref(parts[0], parts[1], parts[3]), text::join_with(parts.skip(4), seq!['/'])))
        } else {
            None
        }
    } else {
        None
    }
}

/// Builds `owner/repo@reference` from three pieces.
fn build_repo_ref(owner: &[char], repo: &[char], reference: &[char]) -> (r: Vec<char>)
    ensures
        r@ == repo_ref(owner@, repo@, reference@),
{
    let mut r = text::sub_chars(owner, 0, owner.len());
    r.push('/');
    r.extend_from_slice(repo);
    r.push('@');
    r.extend_from_slice(reference);
    assert(r@ =~= repo_ref(owner@, repo@, reference@));
    r
}

/// Splits a GitHub file URL into the repository specification
/// (`owner/repo@ref`) and the path of the file in the repository.
pub fn parse_github_file_url(url: &str) -> (r: Option<(String, String)>)
    ensures
        match r {
            Some((spec, path)) => spec_github_file_url(url@) == Some((spec@, path@)),
            None => spec_github_file_url(url@) is None,
        },
{
    let cs = text::chars_of(url);
    let raw = text::chars_of("https://raw.githubusercontent.com/");
    let https = text::chars_of("https://github.com/");
    let slash = ['/'];
    if text::has_prefix(&cs, &raw) {
        let rest = text::sub_chars(&cs, raw.len(), cs.len());
        assert(rest@ =~= url@.skip(raw_prefix().len() as int));
        let parts = text::split_chars(&rest, '/');
        if parts.len() < 4 {
            return None;
        }
        let spec = build_repo_ref(&parts[0], &parts[1], &parts[2]);
        let path = text::join_chars(&parts, 3, &slash);
        assert(slash@ =~= seq!['/']);
        return Some((text::string_of(&spec), text::string_of(&path)));
    }
    if text::has_prefix(&cs, &https) {
        let rest = text::sub_chars(&cs, https.len(), cs.len());
        assert(rest@ =~= url@.skip(https_prefix().len() as int));
        let parts = text::split_chars(&rest, '/');
        let blob = text::chars_of("blob");
        if parts.len() >= 5 && text::chars_eq(&parts[2], &blob) {
            let spec = build_repo_ref(&parts[0], &parts[1], &parts[3]);
            let path = text::join_chars(&parts, 4, &slash);
            assert(slash@ =~= seq!['/']);
            return Some((text::string_of(&spec), text::string_of(&path)));
        }
    }
    None
}

/// The part of a trimmed specification that names the repository: the
/// input without `git+` in front, and, for a GitHub URL, without the host
/// and without trailing slashes.
pub open spec fn spec_repo_raw(input: Seq<char>) -> Seq<char> {
    repo_raw_of(text::trim_ws(input))
}

/// The part of a specification, already trimmed, that names the
/// repository (see [`spec_repo_raw`]).
pub open spec fn repo_raw_of(t: Seq<char>) -> Seq<char> {
    let trimmed = if text::starts_with(t, "git+"@) { t.skip(4) } else { t };
    if text::starts_with(trimmed, https_prefix()) {
        text::trim_end_char(trimmed.skip(https_prefix().len() as int), '/')
    } else if text::starts_with(trimmed, http_prefix()) {
        text::trim_end_char(trimmed.skip(http_prefix().len() as int), '/')
    } else {
        trimmed
    }
}

/// The repository part (without `.git` at the end) and the reference after
/// the last `@`, if there is one.
pub open spec fn spec_repo_parts(raw: Seq<char>) -> (Seq<char>, Option<Seq<char>>) {
    match text::last_index_of(raw, '@') {
        Some(k) => (text::trim_end_seq(raw.take(k), ".git"@), Some(raw.skip(k + 1))),
        None => (text::trim_end_seq(raw, ".git"@), None),
    }
}

/// What a repository specification `owner/repo[@ref]` (possibly written as
/// a GitHub URL, with `git+` in front and `.git` at the end) denotes.
pub open spec fn spec_github_repo_spec(input: Seq<char>) -> Result<
    (Seq<char>, Seq<char>, Option<Seq<char>>),
    GithubSpecError,
> {
    repo_spec_of_raw(spec_repo_raw(input))
}

/// What the repository-naming part of a specification denotes (see
/// [`spec_github_repo_spec`]).
pub open spec fn repo_spec_of_raw(raw: Seq<char>) -> Result<
    (Seq<char>, Seq<char>, Option<Seq<char>>),
    GithubSpecError,
> {
    let (repo_part, reference) = spec_repo_parts(raw);
    let parts = text::split_on(repo_part, '/');
    if parts.len() < 2 {
        Err(GithubSpecError::MissingName)
    } else if parts[0].len() == 0 || parts[1].len() == 0 || parts.len() > 2 {
        Err(GithubSpecError::InvalidForm)
    } else {
        Ok((parts[0], parts[1], reference))
    }
}

/// The optional string's view.
pub open spec fn opt_view(o: Option<String>) -> Option<Seq<char>> {
    match o {
        Some(s) => Some(s@),
        None => None,
    }
}

/// Parses a repository specification of the form `owner/repo[@ref]`, also
/// written as `https://github.com/owner/repo(.git)[@ref]` with an optional
/// `git+` in front.
pub fn parse_github_repo_spec(input: &str) -> (r: Result<GithubRepoSpec, GithubSpecError>)
    ensures
        match r {
            Ok(spec) => spec_github_repo_spec(input@) == Ok::<
                (Seq<char>, Seq<char>, Option<Seq<char>>),
                GithubSpecError,
            >((spec.owner@, spec.name@, opt_view(spec.reference))),
            Err(e) => spec_github_repo_spec(input@) == Err::<
                (Seq<char>, Seq<char>, Option<Seq<char>>),
                GithubSpecError,
            >(e),
        },
        text::all_ascii(input@) ==> spec_github_repo_spec(input@) == repo_spec_of_raw(
            repo_raw_of(text::trim_ascii(input@)),
        ),
{
    let all = text::chars_of(input);
    let t = text::trim_chars(&all);
    let git_plus = text::chars_of("git+");
    proof {
        reveal_strlit("git+");
    }
    let trimmed = if text::has_prefix(&t, &git_plus) {
        text::sub_chars(&t, 4, t.len())
    } else {
        text::sub_chars(&t, 0, t.len())
    };
    assert(text::starts_with(t@, "git+"@) ==> trimmed@ =~= t@.skip(4));
    assert(!text::starts_with(t@, "git+"@) ==> trimmed@ =~= t@);
    let https = text::chars_of("https://github.com/");
    let http = text::chars_of("http://github.com/");
    let raw = if text::has_prefix(&trimmed, &https) {
        let rest = text::sub_chars(&trimmed, https.len(), trimmed.len());
        assert(rest@ =~= trimmed@.skip(https_prefix().len() as int));
        text::trim_end_matches_char(&rest, '/')
    } else if text::has_prefix(&trimmed, &http) {
        let rest = text::sub_chars(&trimmed, http.len(), trimmed.len());
        assert(rest@ =~= trimmed@.skip(http_prefix().len() as int));
        text::trim_end_matches_char(&rest, '/')
    } else {
        trimmed
    };
    assert(raw@ == spec_repo_raw(input@));
    let dot_git = text::chars_of(".git");
    proof {
        reveal_strlit(".git");
    }
    let (repo_part, reference) = match text::rfind_char(&raw, '@') {
        Some(k) => {
            assert(k < raw.len());
            let before = text::sub_chars(&raw, 0, k);
            let after = text::sub_chars(&raw, k + 1, raw.len());
            assert(before@ =~= raw@.take(k as int));
            assert(after@ =~= raw@.skip(k + 1));
            (text::trim_end_matches_seq(&before, &dot_git), Some(text::string_of(&after)))
        },
        None => (text::trim_end_matches_seq(&raw, &dot_git), None),
    };
    assert((repo_part@, opt_view(reference)) == spec_repo_parts(spec_repo_raw(input@)));
    let parts = text::split_chars(&repo_part, '/');
    if parts.len() < 2 {
        return Err(GithubSpecError::MissingName);
    }
    if parts[0].len() == 0 || parts[1].len() == 0 || parts.len() > 2 {
        return Err(GithubSpecError::InvalidForm);
    }
    Ok(GithubRepoSpec {
        owner: text::string_of(&parts[0]),
        name: text::string_of(&parts[1]),
        reference,
    })
}

} // verus!
