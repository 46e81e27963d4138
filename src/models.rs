use vstd::prelude::*;

verus! {

/// A user profile as the remote service describes it.
#[derive(Debug, Clone, PartialEq, Default)]
pub struct User {
    pub login: String,
    pub name: Option<String>,
    pub bio: Option<String>,
    pub location: Option<String>,
    pub public_repos: u64,
    pub followers: u64,
    pub following: u64,
}

/// One repository record: its star count is never negative.
#[derive(Debug, Clone, PartialEq, Default)]
pub struct Repository {
    pub name: String,
    pub html_url: String,
    pub description: Option<String>,
    pub stargazers_count: u64,
    pub language: Option<String>,
}

/// A display-ready projection of a repository, without any styling.
#[derive(Debug, Clone, PartialEq)]
pub struct RepoRow {
    pub name: String,
    pub stars: u64,
    pub language: String,
    pub description: String,
}

} // verus!
