use vstd::prelude::*;
use crate::models::{Repository, RepoRow};
use crate::ranking::min_len;

verus! {

/// The number of characters a description keeps on a display row.
pub const DESCRIPTION_LIMIT: usize = 50;

/// `d` cut to its first `limit` characters followed by three dots, when it
/// has more than `limit` characters; `d` itself otherwise.
pub open spec fn truncated(d: Seq<char>, limit: nat) -> Seq<char> {
    if d.len() <= limit {
        d
    } else {
        d.take(limit as int) + seq!['.', '.', '.']
    }
}

/// The truncation of an optional description; an absent one stays absent.
pub open spec fn truncated_opt(d: Option<String>, limit: nat) -> Option<Seq<char>> {
    match d {
        Some(s) => Some(truncated(s@, limit)),
        None => None,
    }
}

/// The view of an optional string.
pub open spec fn opt_view(d: Option<String>) -> Option<Seq<char>> {
    match d {
        Some(s) => Some(s@),
        None => None,
    }
}

/// Cuts a description to `limit` characters (not bytes), marking the cut with
/// a trailing "...".
pub fn truncate_description(description: Option<String>, limit: usize) -> (r: Option<String>)
    ensures
        opt_view(r) == truncated_opt(description, limit as nat),
        description.is_none() ==> r.is_none(),
        description.is_some() && description.unwrap()@.len() <= limit ==> r == description,
        description.is_some() && description.unwrap()@.len() > limit ==> ({
            let d = description.unwrap()@;
            let t = r.unwrap()@;
            &&& r.is_some()
            &&& t.len() == limit + 3
            &&& t.take(limit as int) == d.take(limit as int)
            &&& t.subrange(limit as int, limit + 3) == seq!['.', '.', '.']
        }),
{
    match description {
        None => None,
        Some(d) => {
            if d.as_str().unicode_len() <= limit {
                Some(d)
            } else {
                let mut s = String::from_str(d.as_str().substring_char(0, limit));
                let dots = "...";
                proof {
                    reveal_strlit("...");
                }
                s.append(dots);
                assert(s@.take(limit as int) =~= d@.take(limit as int));
                assert(s@.subrange(limit as int, limit + 3) =~= seq!['.', '.', '.']);
                assert(s@ =~= truncated(d@, limit as nat));
                Some(s)
            }
        },
    }
}

/// Truncates a description to the display limit of fifty characters.
pub fn shorten_description(description: Option<String>) -> (r: Option<String>)
    ensures
        opt_view(r) == truncated_opt(description, DESCRIPTION_LIMIT as nat),
{
    truncate_description(description, DESCRIPTION_LIMIT)
}


/// The language column of a row: the repository's language, or "-".
pub open spec fn language_cell(r: Repository) -> Seq<char> {
    match r.language {
        Some(l) => l@,
        None => seq!['-'],
    }
}

/// The description column of a row: the truncated description, or nothing.
pub open spec fn description_cell(r: Repository) -> Seq<char> {
    match truncated_opt(r.description, DESCRIPTION_LIMIT as nat) {
        Some(d) => d,
        None => Seq::empty(),
    }
}

/// `row` is the display projection of `r`.
pub open spec fn is_row_of(row: RepoRow, r: Repository) -> bool {
    &&& row.name@ == r.name@
    &&& row.stars == r.stargazers_count
    &&& row.language@ == language_cell(r)
    &&& row.description@ == description_cell(r)
}

/// The display row of one repository.
pub fn repo_row(r: &Repository) -> (row: RepoRow)
    ensures
        is_row_of(row, *r),
{
    let language = match &r.language {
        Some(l) => l.clone(),
        None => {
            let dash = "-";
            proof {
                reveal_strlit("-");
            }
            let d = String::from_str(dash);
            assert(d@ =~= seq!['-']);
            d
        },
    };
    let description = match &r.description {
        Some(d) => match shorten_description(Some(d.clone())) {
            Some(t) => t,
            None => String::new(),
        },
        None => String::new(),
    };
    RepoRow { name: r.name.clone(), stars: r.stargazers_count, language, description }
}

/// The display rows of the first `n` ranked repositories, in order.
pub fn display_rows(ranked: &Vec<Repository>, n: usize) -> (rows: Vec<RepoRow>)
    ensures
        rows@.len() == min_len(n, ranked@.len()),
        forall|k: int| 0 <= k < rows@.len() ==> is_row_of(#[trigger] rows@[k], ranked@[k]),
{
    let mut rows: Vec<RepoRow> = Vec::new();
    let mut i: usize = 0;
    while i < ranked.len() && i < n
        invariant
            i <= ranked@.len(),
            i <= n,
            rows@.len() == i,
            forall|k: int| 0 <= k < i ==> is_row_of(#[trigger] rows@[k], ranked@[k]),
        decreases ranked.len() - i,
    {
        rows.push(repo_row(&ranked[i]));
        i = i + 1;
    }
    rows
}

/// The link to open for a choice among the shown repositories: the chosen
/// repository's URL, or nothing when the choice was cancelled or is out of
/// range.
pub fn chosen_url(shown: &Vec<Repository>, choice: Option<usize>) -> (r: Option<String>)
    ensures
        match choice {
            Some(i) => if i < shown@.len() {
                r is Some && r->0@ == shown@[i as int].html_url@
            } else {
                r is None
            },
            None => r is None,
        },
{
    match choice {
        Some(i) => if i < shown.len() {
            Some(shown[i].html_url.clone())
        } else {
            None
        },
        None => None,
    }
}

} // verus!
