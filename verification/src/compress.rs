use vstd::prelude::*;

verus! {

/// What LZF decompression yields for a given compressed payload and output
/// capacity: the decompressed bytes, or nothing where the payload is
/// rejected. The result is a function of the two arguments alone.
pub uninterp spec fn lzf_unpacked(data: Seq<u8>, cap: nat) -> Option<Seq<u8>>;

/// Relies on lzf::decompress: decompresses `data` into a buffer of capacity
/// `cap`; the outcome is deterministic in the payload bytes and the
/// capacity, and the call returns an error (never more than `cap` bytes)
/// where the payload is corrupt or does not fit.
#[verifier::external_body]
pub(crate) fn lzf_decompress(data: &Vec<u8>, cap: usize) -> (r: Option<Vec<u8>>)
    ensures
        match r {
            Some(v) => lzf_unpacked(data@, cap as nat) == Some(v@),
            None => lzf_unpacked(data@, cap as nat) is None,
        },
{
    match lzf::decompress(data.as_slice(), cap) {
        Ok(v) => Some(v),
        Err(_) => None,
    }
}

} // verus!
