//! A node of the cracking cluster.

use vstd::prelude::*;
use hyper::Url;

verus! {

/// An address on the network (hyper's re-export of `url::Url`); it is only
/// carried, never looked into.
#[verifier::external_type_specification]
#[verifier::external_body]
pub struct ExUrl(hyper::Url);

/// `Clone` for `url::Url` (derived in the url crate): the copy holds the
/// same serialization and the same offsets into it, so it is equal to the
/// original.
pub assume_specification[ <hyper::Url as Clone>::clone ](u: &Url) -> (r: Url)
    ensures
        r == *u,
;

/// The text of a URL: its serialization, which `Display` for `url::Url`
/// writes out unchanged.
pub uninterp spec fn url_text(u: Url) -> Seq<char>;

/// `Display` for `url::Url` (through `ToString`): the URL's serialization,
/// a function of the URL alone.
#[verifier::external_body]
fn url_to_string(u: &Url) -> (s: String)
    ensures
        s@ == url_text(*u),
{
    u.to_string()
}

/// A machine taking part in the search: how many threads it offers, where
/// it listens, and whom it works for or hands work to.
#[derive(Clone, Debug)]
pub struct Worker {
    available_threads: i64,
    ip_address: Url,
    master: Option<Url>,
    slaves: Option<Vec<Url>>,
}

impl Worker {
    /// The number of threads the worker offers.
    pub closed spec fn threads(self) -> i64 {
        self.available_threads
    }

    /// The address the worker listens on.
    pub closed spec fn address(self) -> Url {
        self.ip_address
    }

    /// The worker's master, once it has one.
    pub closed spec fn master_address(self) -> Option<Url> {
        self.master
    }

    /// Whether the worker has a list of slaves yet.
    pub closed spec fn has_slaves(self) -> bool {
        self.slaves is Some
    }

    /// A worker with `av` threads listening on `ip`, with neither master nor
    /// slaves yet.
    pub fn builder(av: i64, ip: Url) -> (w: Worker)
        ensures
            w.threads() == av,
            w.address() == ip,
            w.master_address() is None,
            !w.has_slaves(),
    {
        Worker { available_threads: av, ip_address: ip, master: None, slaves: None }
    }

    /// The worker written as text: the address it listens on.
    pub fn to_string(&self) -> (s: String)
        ensures
            s@ == url_text(self.address()),
    {
        url_to_string(&self.ip_address)
    }

    /// The address the worker listens on.
    pub fn ip_address(&self) -> (r: &Url)
        ensures
            *r == self.address(),
    {
        &self.ip_address
    }
}

} // verus!
