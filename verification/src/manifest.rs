use vstd::prelude::*;

use vstd::string::StringExecFns;

verus! {

/// What matching the pattern `([^/]+)\.github\.io/([^/]+)` captures from a
/// text: a function of the text alone.
pub uninterp spec fn github_pages_parts(s: Seq<char>) -> Option<(Seq<char>, Seq<char>)>;

/// Relies on regex::Regex::new building that fixed pattern, and on
/// regex::Regex::captures matching it: the user and repository parts of a
/// GitHub Pages package name, when the name contains them.
#[verifier::external_body]
fn github_pages_captures(s: &str) -> (r: Option<(String, String)>)
    ensures
        match r {
            Some(p) => github_pages_parts(s@) matches Some(v) && p.0@ == v.0 && p.1@ == v.1,
            None => github_pages_parts(s@) is None,
        },
{
    let re = regex::Regex::new(r"([^/]+)\.github\.io/([^/]+)").unwrap();
    match re.captures(s) {
        Some(c) => Some(
            (c.get(1).unwrap().as_str().to_string(), c.get(2).unwrap().as_str().to_string()),
        ),
        None => None,
    }
}

/// The GitHub user and repository of a package hosted on GitHub Pages.
pub fn extract_github_details(package_name: String) -> (r: Option<(String, String)>)
    ensures
        match r {
            Some(p) => github_pages_parts(package_name@) matches Some(v) && p.0@ == v.0 && p.1@
                == v.1,
            None => github_pages_parts(package_name@) is None,
        },
{
    match github_pages_captures(package_name.as_str()) {
        Some((username, repository)) => Some((username, repository)),
        None => None,
    }
}

/// A package name stripped of the `.fifthtry.site` suffix, when it ends in
/// it.
pub open spec fn spec_site_slug(s: Seq<char>) -> Option<Seq<char>> {
    let suffix = ".fifthtry.site"@;
    if s.len() >= suffix.len() && s.subrange(s.len() - suffix.len(), s.len() as int) == suffix {
        Some(s.subrange(0, s.len() - suffix.len()))
    } else {
        None
    }
}

fn strip_site_suffix(s: &str) -> (r: Option<String>)
    ensures
        match spec_site_slug(s@) {
            Some(v) => r matches Some(x) && x@ == v,
            None => r is None,
        },
{
    let chars = crate::text::chars_of(s);
    let suffix = crate::text::chars_of(".fifthtry.site");
    proof {
        reveal_strlit(".fifthtry.site");
    }
    let n = chars.len();
    let m = suffix.len();
    if n < m {
        return None;
    }
    let mut i: usize = 0;
    while i < m
        invariant
            chars@ == s@,
            suffix@ == ".fifthtry.site"@,
            n == chars@.len(),
            m == suffix@.len(),
            m <= n,
            i <= m,
            forall|q: int| 0 <= q < i ==> chars@[n - m + q] == suffix@[q],
        decreases m - i,
    {
        if chars[n - m + i] != suffix[i] {
            proof {
                assert(chars@.subrange(n - m, n as int)[i as int] != suffix@[i as int]);
            }
            return None;
        }
        i += 1;
    }
    proof {
        assert(chars@.subrange(n - m, n as int) =~= suffix@);
    }
    let mut slug: Vec<char> = Vec::new();
    let mut j: usize = 0;
    while j < n - m
        invariant
            chars@ == s@,
            suffix@ == ".fifthtry.site"@,
            n == chars@.len(),
            m == suffix@.len(),
            m <= n,
            j <= n - m,
            slug@ == chars@.subrange(0, j as int),
        decreases n - m - j,
    {
        slug.push(chars[j]);
        proof {
            assert(slug@ =~= chars@.subrange(0, j + 1));
        }
        j += 1;
    }
    Some(crate::text::string_of(&slug))
}

/// Where a package's source archive can be downloaded: GitHub Pages packages
/// from codeload, fifthtry.site packages from the fifthtry download API, and
/// nowhere else.
pub fn get_zipball_url(package_name: String) -> (r: Option<String>)
    ensures
        match github_pages_parts(package_name@) {
            Some(p) => r matches Some(u) && u@ == "https://codeload.github.com/"@ + p.0 + "/"@
                + p.1 + "/zip/refs/heads/main"@,
            None => match spec_site_slug(package_name@) {
                Some(slug) => r matches Some(u) && u@
                    == "https://fifthtry.com/ft2/api/site/download?site-slug="@ + slug,
                None => r is None,
            },
        },
{
    let ghost pn = package_name@;
    match extract_github_details(package_name.clone()) {
        Some((username, repository)) => {
            let url = String::from_str("https://codeload.github.com/").concat(
                username.as_str(),
            ).concat("/").concat(repository.as_str()).concat("/zip/refs/heads/main");
            return Some(url);
        },
        None => {},
    }
    match strip_site_suffix(package_name.as_str()) {
        Some(site_slug) => {
            let url = String::from_str(
                "https://fifthtry.com/ft2/api/site/download?site-slug=",
            ).concat(site_slug.as_str());
            Some(url)
        },
        None => None,
    }
}

} // verus!
