//! The account that a tree belongs to, and the addresses of its endpoints.
use vstd::prelude::*;

use crate::tree::Id;

verus! {

/// The host of an account and the authorization header sent with each request.
pub struct CoreApi {
    pub domain: String,
    pub authorization: String,
}

/// The scheme put before an access token in the authorization header.
pub open spec fn bearer_prefix() -> Seq<char> {
    seq!['B', 'e', 'a', 'r', 'e', 'r', ' ']
}

/// The decimal digits of `n`, most significant first, without leading zeros.
pub open spec fn decimal(n: nat) -> Seq<char>
    decreases n,
{
    if n < 10 {
        seq![digit_char(n)]
    } else {
        decimal(n / 10) + seq![digit_char(n % 10)]
    }
}

pub open spec fn digit_char(d: nat) -> char {
    (('0' as u8) + d) as char
}

/// Appends the decimal digits of `n` to `s`.
pub fn append_decimal(s: &mut String, n: u64)
    ensures
        final(s)@ == old(s)@ + decimal(n as nat),
    decreases n,
{
    if n >= 10 {
        append_decimal(s, n / 10);
    }
    let d = (n % 10) as usize;
    let digits = "0123456789";
    proof {
        reveal_strlit("0123456789");
    }
    let ghost before = s@;
    s.append(digits.substring_char(d, d + 1));
    proof {
        let one = "0123456789"@.subrange(d as int, d + 1);
        assert(one =~= seq![digit_char(d as nat)]);
        if n >= 10 {
            assert(s@ =~= old(s)@ + decimal(n as nat));
        } else {
            assert(s@ =~= old(s)@ + decimal(n as nat));
        }
    }
}

/// An empty query.
pub struct Empty {}

/// A query asking for a page of the given size.
pub struct PerPage {
    pub per_page: u32,
}

/// The query that asks for nothing.
pub fn no_query() -> (r: &'static Empty) {
    &Empty {}
}

impl CoreApi {
    /// An account at `root_url` reached with `access_token`.
    pub fn new(root_url: String, access_token: String) -> (r: CoreApi)
        ensures
            r.domain == root_url,
            r.authorization@ == bearer_prefix() + access_token@,
    {
        let mut auth = String::from_str("Bearer ");
        proof {
            reveal_strlit("Bearer ");
        }
        auth.append(access_token.as_str());
        proof {
            assert("Bearer "@ =~= bearer_prefix());
        }
        CoreApi { domain: root_url, authorization: auth }
    }

    /// The access token: the authorization header without its scheme.
    pub fn access_token(&self) -> (r: &str)
        requires
            self.authorization@.len() >= bearer_prefix().len(),
        ensures
            r@ == self.authorization@.subrange(
                bearer_prefix().len() as int,
                self.authorization@.len() as int,
            ),
    {
        let a = self.authorization.as_str();
        let n = a.unicode_len();
        a.substring_char(7, n)
    }

    /// `https://<domain>/api/<version>/<endpoint>`.
    pub fn api_url(&self, version: &str, endpoint: &str) -> (r: String)
        ensures
            r@ == "https://"@ + self.domain@ + "/api/"@ + version@ + "/"@ + endpoint@,
    {
        let mut url = String::from_str("https://");
        url.append(self.domain.as_str());
        url.append("/api/");
        url.append(version);
        url.append("/");
        url.append(endpoint);
        url
    }

    /// The address of a REST endpoint.
    pub fn rest_url(&self, endpoint: &str) -> (r: String)
        ensures
            r@ == "https://"@ + self.domain@ + "/api/"@ + "v1"@ + "/"@ + endpoint@,
    {
        self.api_url("v1", endpoint)
    }

    /// The address that serves the content of the file `id`.
    pub fn download_url(&self, id: &Id) -> (r: String)
        ensures
            r@ == "https://"@ + self.domain@ + "/files/"@ + decimal(*id as nat)
                + "/download?download_frd=1"@,
    {
        let mut url = String::from_str("https://");
        url.append(self.domain.as_str());
        url.append("/files/");
        append_decimal(&mut url, *id);
        url.append("/download?download_frd=1");
        url
    }
}

} // verus!
