//! Telling text from other bytes.

use vstd::prelude::*;
use vstd::string::*;
use vstd::utf8;

verus! {

/// The length of the longest text that `bytes` starts with, among those of at
/// most `n` bytes.
pub open spec fn valid_up_to(bytes: Seq<u8>, n: nat) -> nat
    decreases n,
{
    if n == 0 || utf8::valid_utf8(bytes.take(n as int)) {
        n
    } else {
        valid_up_to(bytes, (n - 1) as nat)
    }
}

/// `std::str::from_utf8`, with the error given by its `valid_up_to`.
///
/// Taken on trust: the text is made of the very bytes; if they are no text, the
/// index is the largest one up to which they are.
#[verifier::external_body]
pub(crate) fn from_utf8(bytes: &[u8]) -> (r: Result<&str, usize>)
    ensures
        match r {
            Ok(text) => text.spec_bytes() == bytes@,
            Err(index) => {
                &&& !utf8::valid_utf8(bytes@)
                &&& index < bytes@.len()
                &&& utf8::valid_utf8(bytes@.take(index as int))
                &&& forall|n: int|
                    index < n <= bytes@.len() ==> !utf8::valid_utf8(#[trigger] bytes@.take(n))
            },
        },
{
    std::str::from_utf8(bytes).map_err(|e| e.valid_up_to())
}

/// The largest index up to which there is text.
pub(crate) proof fn lemma_valid_up_to(bytes: Seq<u8>, index: nat, n: nat)
    requires
        index <= n <= bytes.len(),
        utf8::valid_utf8(bytes.take(index as int)),
        forall|m: int| index < m <= n ==> !utf8::valid_utf8(#[trigger] bytes.take(m)),
    ensures
        valid_up_to(bytes, n) == index,
    decreases n,
{
    if index < n {
        lemma_valid_up_to(bytes, index, (n - 1) as nat);
    }
}

} // verus!
