//! Addresses and headers for publishing to an ntfy server.
use vstd::prelude::*;

use crate::text::{chars_of, push_str, string_from_chars};

verus! {

/// `s` without trailing `/` characters.
pub open spec fn trim_end_slashes(s: Seq<char>) -> Seq<char>
    decreases s.len(),
{
    if s.len() > 0 && s.last() == '/' {
        trim_end_slashes(s.drop_last())
    } else {
        s
    }
}

/// The publish address: the server without trailing slashes, `/`, and the
/// topic.
pub open spec fn ntfy_url_spec(server: Seq<char>, topic: Seq<char>) -> Seq<char> {
    trim_end_slashes(server) + seq!['/'] + topic
}

/// The address to publish `topic` on `server`.
pub fn ntfy_url(server: &str, topic: &str) -> (u: String)
    ensures
        u@ == ntfy_url_spec(server@, topic@),
{
    let mut v = chars_of(server);
    while v.len() > 0 && v[v.len() - 1] == '/'
        invariant
            trim_end_slashes(v@) == trim_end_slashes(server@),
        decreases v.len(),
    {
        let ghost before = v@;
        v.pop();
        assert(v@ =~= before.drop_last());
    }
    v.push('/');
    push_str(&mut v, topic);
    string_from_chars(v.as_slice())
}

/// The `Authorization` header value for an access token.
pub fn bearer_auth(token: &str) -> (h: String)
    ensures
        h@ == "Bearer "@ + token@,
{
    crate::text::concat2("Bearer ", token)
}

} // verus!
