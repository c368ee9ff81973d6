//! Maps request paths to the endpoint labels used for metrics.

use vstd::prelude::*;
use vstd::string::StrSliceExecFns;

verus! {

/// The prefix of the URL-creation route.
pub open spec fn api_urls_prefix() -> Seq<char> {
    seq!['/', 'a', 'p', 'i', '/', 'u', 'r', 'l', 's']
}

/// The endpoint label of a request path: the creation route by prefix, the
/// metrics route exactly, and everything else is a redirect.
pub open spec fn spec_endpoint_name(p: Seq<char>) -> Seq<char> {
    if p.len() >= 9 && p.take(9) == api_urls_prefix() {
        "create_url"@
    } else if p == "/metrics"@ {
        "metrics"@
    } else {
        "redirect"@
    }
}

/// Returns the endpoint label for a request path.
pub fn get_endpoint_name(path: &str) -> (r: &str)
    ensures
        r@ == spec_endpoint_name(path@),
{
    let n = path.unicode_len();
    if n >= 9 && path.get_char(0) == '/' && path.get_char(1) == 'a' && path.get_char(2) == 'p'
        && path.get_char(3) == 'i' && path.get_char(4) == '/' && path.get_char(5) == 'u'
        && path.get_char(6) == 'r' && path.get_char(7) == 'l' && path.get_char(8) == 's' {
        proof {
            assert(path@.take(9) =~= api_urls_prefix());
        }
        "create_url"
    } else if n == 8 && path.get_char(0) == '/' && path.get_char(1) == 'm' && path.get_char(2)
        == 'e' && path.get_char(3) == 't' && path.get_char(4) == 'r' && path.get_char(5) == 'i'
        && path.get_char(6) == 'c' && path.get_char(7) == 's' {
        proof {
            reveal_strlit("/metrics");
            assert(path@ =~= "/metrics"@);
        }
        "metrics"
    } else {
        proof {
            reveal_strlit("/metrics");
            if path@.len() >= 9 && path@.take(9) == api_urls_prefix() {
                assert(path@[0] == '/' && path@[1] == 'a' && path@[2] == 'p' && path@[3] == 'i'
                    && path@[4] == '/' && path@[5] == 'u' && path@[6] == 'r' && path@[7] == 'l'
                    && path@[8] == 's');
            }
            if path@ == "/metrics"@ {
                assert(path@.len() == 8);
                assert(path@[0] == '/' && path@[1] == 'm' && path@[2] == 'e' && path@[3] == 't'
                    && path@[4] == 'r' && path@[5] == 'i' && path@[6] == 'c' && path@[7] == 's');
            }
        }
        "redirect"
    }
}

} // verus!
