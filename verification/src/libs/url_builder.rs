use vstd::prelude::*;
use crate::structs::equippable_attributes::copy_bytes;

verus! {

/// Why no thumbnail address can be given.
#[derive(PartialEq, Eq, Structural, Clone, Copy, Debug)]
pub enum UrlError {
    /// No CID is stored for the attributes.
    NoCidUrl,
}

/// The address of a thumbnail: the IPFS gateway followed by the CID stored
/// for the attributes, which must not be empty.
pub fn build_thumbnail_url(ipfs_gateway: &Vec<u8>, cid: &Vec<u8>) -> (r: Result<Vec<u8>, UrlError>)
    ensures
        cid@.len() == 0 ==> r == Err::<Vec<u8>, UrlError>(UrlError::NoCidUrl),
        cid@.len() != 0 ==> r is Ok && r->Ok_0@ == ipfs_gateway@ + cid@,
{
    if cid.len() == 0 {
        return Err(UrlError::NoCidUrl);
    }
    Ok(crate::utils::concat(copy_bytes(ipfs_gateway), cid))
}

} // verus!
