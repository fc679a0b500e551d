//! Transport selection from a string-encoded address.

use vstd::prelude::*;
use vstd::utf8::encode_utf8;

verus! {

/// The address bytes name a local filesystem socket: they start with `/`
/// and end with `.sock`.
pub open spec fn local_socket_address(b: Seq<u8>) -> bool {
    &&& b.len() >= 5
    &&& b[0] == 0x2f  // '/'
    // ".sock"
    &&& b.subrange(b.len() - 5, b.len() as int) == seq![0x2eu8, 0x73, 0x6f, 0x63, 0x6b]
}

/// Whether `address` selects the local filesystem byte stream; any other
/// address goes to the network resolver.
pub fn is_local_socket(address: &str) -> (r: bool)
    ensures
        r == local_socket_address(encode_utf8(address@)),
{
    let b = address.as_bytes();
    let n = b.len();
    if n < 5 {
        return false;
    }
    let r = b[0] == 0x2f && b[n - 5] == 0x2e && b[n - 4] == 0x73 && b[n - 3] == 0x6f && b[n - 2]
        == 0x63 && b[n - 1] == 0x6b;
    assert(r == local_socket_address(b@)) by {
        if r {
            assert(b@.subrange(n - 5, n as int) =~= seq![0x2eu8, 0x73, 0x6f, 0x63, 0x6b]);
        } else if b[0] == 0x2f {
            let s = b@.subrange(n - 5, n as int);
            assert(s[0] == b@[n - 5] && s[1] == b@[n - 4] && s[2] == b@[n - 3] && s[3] == b@[n
                - 2] && s[4] == b@[n - 1]);
        }
    }
    r
}

} // verus!
