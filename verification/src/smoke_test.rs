//! The echo protocol, the family's smoke test: read the peer's whole
//! stream until it half-closes, then write every byte back verbatim.

use vstd::prelude::*;

verus! {

/// The bytes owed back to the peer: exactly the bytes it sent, in order.
pub fn echo_reply(received: &Vec<u8>) -> (reply: Vec<u8>)
    ensures
        reply@ == received@,
{
    let mut reply: Vec<u8> = Vec::new();
    let mut i: usize = 0;
    while i < received.len()
        invariant
            i <= received@.len(),
            reply@ == received@.take(i as int),
        decreases received@.len() - i,
    {
        reply.push(received[i]);
        proof {
            assert(received@.take(i as int + 1) =~= received@.take(i as int).push(
                received@[i as int],
            ));
        }
        i += 1;
    }
    proof {
        assert(received@.take(received@.len() as int) =~= received@);
    }
    reply
}

} // verus!
