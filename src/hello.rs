//! The greeting exchanged by the plain RPC endpoint.

use vstd::prelude::*;

verus! {

pub struct HelloRequest {
    pub message: String,
}

pub struct HelloResponse {
    pub message: String,
}

/// The answer to a greeting: `Hello, <message>!`.
pub fn hello(request: &HelloRequest) -> (r: HelloResponse)
    ensures
        r.message@ == seq!['H', 'e', 'l', 'l', 'o', ',', ' '] + request.message@ + seq!['!'],
{
    let mut message = String::new();
    proof {
        reveal_strlit("Hello, ");
        reveal_strlit("!");
    }
    message.append("Hello, ");
    message.append(request.message.as_str());
    message.append("!");
    proof {
        assert(message@ =~= seq!['H', 'e', 'l', 'l', 'o', ',', ' '] + request.message@ + seq!['!']);
    }
    HelloResponse { message }
}

} // verus!
