//! Small helpers over asset identifiers and containers.

use crate::asset::AssetContainer;
use vstd::prelude::*;

verus! {

/// Orders two asset ids with the greater first.
pub fn sort(token_a: u64, token_b: u64) -> (r: (u64, u64))
    ensures
        r == if token_a > token_b {
            (token_a, token_b)
        } else {
            (token_b, token_a)
        },
{
    if token_a > token_b {
        (token_a, token_b)
    } else {
        (token_b, token_a)
    }
}

/// Orders two containers with the greater asset id first.
pub fn sort_buckets(bucket_a: AssetContainer, bucket_b: AssetContainer) -> (r: (
    AssetContainer,
    AssetContainer,
))
    ensures
        r == if bucket_a.asset_of() > bucket_b.asset_of() {
            (bucket_a, bucket_b)
        } else {
            (bucket_b, bucket_a)
        },
{
    if bucket_a.asset_id() > bucket_b.asset_id() {
        (bucket_a, bucket_b)
    } else {
        (bucket_b, bucket_a)
    }
}

} // verus!
