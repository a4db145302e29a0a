//! How an HTTP GET request is to be set up.
use vstd::prelude::*;
use crate::text::chars_of;

verus! {

/// Settings of the client for one request.
#[derive(Clone, Copy, Debug, PartialEq, Eq, Structural)]
pub struct ClientOptions {
    /// The time limit in milliseconds, if any.
    pub timeout_ms: Option<u64>,
    /// Whether invalid certificates are accepted.
    pub accept_invalid_certs: bool,
    /// Whether the rustls TLS stack is used.
    pub use_rustls: bool,
}

/// Whether the URL text starts with `https:`.
pub open spec fn is_https(url: Seq<char>) -> bool {
    url.len() >= 6 && url.take(6) == seq!['h', 't', 't', 'p', 's', ':']
}

/// The client settings for a GET of `url`: a time limit unless `timeout` is
/// 0; for `https:` URLs, rustls, and certificates unchecked unless `bcheck`.
pub fn request_client_options(url: &str, bcheck: bool, timeout: u32) -> (r: ClientOptions)
    ensures
        r.timeout_ms == (if timeout != 0 {
            Some(timeout as u64)
        } else {
            None::<u64>
        }),
        r.use_rustls == is_https(url@),
        r.accept_invalid_certs == (is_https(url@) && !bcheck),
{
    let v = chars_of(url);
    let https = v.len() >= 6 && v[0] == 'h' && v[1] == 't' && v[2] == 't' && v[3] == 'p' && v[4]
        == 's' && v[5] == ':';
    proof {
        if v@.len() >= 6 {
            if https {
                assert(v@.take(6) =~= seq!['h', 't', 't', 'p', 's', ':']);
            } else if v@.take(6) == seq!['h', 't', 't', 'p', 's', ':'] {
                assert(v@.take(6)[0] == v@[0]);
                assert(v@.take(6)[1] == v@[1]);
                assert(v@.take(6)[2] == v@[2]);
                assert(v@.take(6)[3] == v@[3]);
                assert(v@.take(6)[4] == v@[4]);
                assert(v@.take(6)[5] == v@[5]);
            }
        }
    }
    ClientOptions {
        timeout_ms: if timeout != 0 {
            Some(timeout as u64)
        } else {
            None
        },
        accept_invalid_certs: https && !bcheck,
        use_rustls: https,
    }
}

} // verus!
