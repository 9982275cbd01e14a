//! Remote-source adapters.  A provider yields a batch of items; transport is
//! outside the library, so the concrete sources here only carry their
//! configuration and build the request addresses, and the host performs the
//! fetch through the [`Provider`] interface.

use vstd::prelude::*;
use vstd::string::{StrSliceExecFns, StringExecFns};
use crate::item::{strip_slashes, Item};
use crate::strutil::{chars_to_string, str_chars};

verus! {

/// Why a load failed, as the library reports it.
#[derive(Debug)]
pub struct LoadError {
    /// A human-readable description of the failure.
    pub message: String,
}

impl LoadError {
    pub fn new(message: String) -> (r: LoadError)
        ensures
            r.message == message,
    {
        LoadError { message }
    }

    /// The human-readable description.
    pub fn describe(&self) -> (r: &String)
        ensures
            r == &self.message,
    {
        &self.message
    }
}

/// A remote source of items.  `load` fetches one batch or fails; nothing is
/// promised of its outcome, the aggregator states what holds either way.
pub trait Provider {
    /// A short human-readable name of the source.
    fn title(&self) -> String {
        String::from_str("Unknown")
    }

    /// Loads all items this provider can provide.
    fn load(&self) -> Result<Vec<Item>, LoadError>;
}

/// The repository listing address for an organization: the endpoint with
/// trailing `/` stripped, then the organization's repository listing path,
/// newest first, one page of a hundred.
pub open spec fn repos_url_of(endpoint: Seq<char>, orga: Seq<char>) -> Seq<char> {
    strip_slashes(endpoint) + "/orgs/"@ + orga + "/repos?sort=updated&per_page=100"@
}

/// A repository-hosting source: an API endpoint and an organization name.
pub struct Github {
    /// The API base address.
    pub endpoint: String,
    /// The organization whose repositories are listed.
    pub orga: String,
}

impl Github {
    /// A source for the public API's address.
    pub fn new(orga: String) -> (r: Github)
        ensures
            r.orga == orga,
            r.endpoint@ == "https://api.github.com"@,
    {
        Github { endpoint: String::from_str("https://api.github.com"), orga }
    }

    /// A source for a self-hosted endpoint.
    pub fn new_with_endpoint(orga: String, endpoint: String) -> (r: Github)
        ensures
            r.orga == orga,
            r.endpoint == endpoint,
    {
        Github { endpoint, orga }
    }

    /// The address the host fetches this source's repository list from.
    #[verifier::loop_isolation(false)]
    pub fn repos_url(&self) -> (r: String)
        ensures
            r@ == repos_url_of(self.endpoint@, self.orga@),
    {
        let cs = str_chars(self.endpoint.as_str());
        let mut b: usize = cs.len();
        proof {
            assert(cs@.subrange(0, cs@.len() as int) =~= cs@);
        }
        while b > 0 && cs[b - 1] == '/'
            invariant
                b <= cs.len(),
                strip_slashes(cs@) == strip_slashes(cs@.subrange(0, b as int)),
            decreases b,
        {
            proof {
                let suf = cs@.subrange(0, b as int);
                assert(suf[suf.len() - 1] == cs@[b - 1]);
                assert(suf.drop_last() =~= cs@.subrange(0, b - 1));
            }
            b = b - 1;
        }
        proof {
            let suf = cs@.subrange(0, b as int);
            if b > 0 {
                assert(suf[suf.len() - 1] == cs@[b - 1]);
            }
            assert(strip_slashes(cs@) == suf);
        }
        let mut stripped: Vec<char> = Vec::new();
        let mut i: usize = 0;
        while i < b
            invariant
                i <= b,
                b <= cs.len(),
                stripped@ == cs@.subrange(0, i as int),
            decreases b - i,
        {
            stripped.push(cs[i]);
            proof {
                assert(stripped@ =~= cs@.subrange(0, i + 1 as int));
            }
            i = i + 1;
        }
        let mut url = chars_to_string(&stripped);
        url.append("/orgs/");
        url.append(self.orga.as_str());
        url.append("/repos?sort=updated&per_page=100");
        url
    }
}

/// A job-listing source: the server's base address.
pub struct Jenkins {
    /// The server base address.
    pub endpoint: String,
}

impl Jenkins {
    pub fn new(endpoint: String) -> (r: Jenkins)
        ensures
            r.endpoint == endpoint,
    {
        Jenkins { endpoint }
    }

    /// The address the host fetches this source's job list from.
    pub fn api_url(&self) -> (r: String)
        ensures
            r@ == self.endpoint@ + "/api/json"@,
    {
        let mut url = self.endpoint.clone();
        url.append("/api/json");
        url
    }
}

} // verus!
