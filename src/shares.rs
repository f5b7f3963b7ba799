//! Shares as they arrive: identifier, base and encoded value. A run decodes
//! all of them, failing closed, before any reconstruction.
use crate::bigint::big_from_u64;
use crate::error::ShareError;
use crate::lagrange::{distinct_xs, views, Point};
use crate::numeral::{decode_in_base, numeral_value, share_numeral_ok};
use crate::recover::{reconstruct, recovery_result, strictly_sorted, Recovery};
use vstd::prelude::*;

verus! {

/// One share: its identifier (the x-coordinate), the base of its value and
/// the value as written.
pub struct Share {
    pub id: u64,
    pub base: u32,
    pub value: String,
}

/// No two shares carry the same identifier.
pub open spec fn ids_distinct(s: Seq<Share>) -> bool {
    forall|i: int, j: int|
        0 <= i < s.len() && 0 <= j < s.len() && i != j ==> #[trigger] s[i].id != #[trigger] s[j].id
}

/// The share's value is a numeral of its base, and the base lies in 2 to 36.
pub open spec fn share_ok(sh: Share) -> bool {
    2 <= sh.base <= 36 && share_numeral_ok(sh.value@, sh.base as int)
}

/// Every share decodes.
pub open spec fn all_decodable(s: Seq<Share>) -> bool {
    forall|i: int| 0 <= i < s.len() ==> share_ok(#[trigger] s[i])
}

/// The point that a share stands for.
pub open spec fn share_point(sh: Share) -> (int, int) {
    (sh.id as int, numeral_value(sh.value@, sh.base as int))
}

/// The points that the shares stand for, in their order.
pub open spec fn share_points(s: Seq<Share>) -> Seq<(int, int)> {
    s.map_values(|sh: Share| share_point(sh))
}

/// What decoding a set of shares returns.
pub open spec fn decode_result(s: Seq<Share>, r: Result<Vec<Point>, ShareError>) -> bool {
    &&& !ids_distinct(s) ==> r is Err && r->Err_0 == ShareError::DuplicateShare
    &&& ids_distinct(s) ==> (r is Ok <==> all_decodable(s))
    &&& ids_distinct(s) && r is Err ==> r->Err_0 == ShareError::Decode
    &&& r is Ok ==> views(r->Ok_0@) == share_points(s)
}

/// Decodes every share into a point; a repeated identifier or a value that is
/// no numeral of its base fails the whole set.
pub fn decode_shares(shares: &[Share]) -> (r: Result<Vec<Point>, ShareError>)
    ensures
        decode_result(shares@, r),
{
    let n = shares.len();
    let mut i: usize = 0;
    while i < n
        invariant
            n == shares@.len(),
            0 <= i <= n,
            forall|a: int, b: int|
                0 <= a < i && a < b < n ==> #[trigger] shares@[a].id != #[trigger] shares@[b].id,
        decreases n - i,
    {
        let mut j: usize = i + 1;
        while j < n
            invariant
                n == shares@.len(),
                0 <= i < n,
                i + 1 <= j <= n,
                forall|a: int, b: int|
                    0 <= a < i && a < b < n ==> #[trigger] shares@[a].id != #[trigger] shares@[b].id,
                forall|b: int| i < b < j ==> shares@[i as int].id != #[trigger] shares@[b].id,
            decreases n - j,
        {
            if shares[i].id == shares[j].id {
                assert(!ids_distinct(shares@));
                return Err(ShareError::DuplicateShare);
            }
            j += 1;
        }
        i += 1;
    }
    assert(ids_distinct(shares@)) by {
        assert forall|a: int, b: int|
            0 <= a < n && 0 <= b < n && a != b implies #[trigger] shares@[a].id
            != #[trigger] shares@[b].id by {
            if a > b {
                assert(shares@[b].id != shares@[a].id);
            }
        }
    }
    let mut points: Vec<Point> = Vec::new();
    let mut i: usize = 0;
    while i < n
        invariant
            n == shares@.len(),
            0 <= i <= n,
            ids_distinct(shares@),
            forall|a: int| 0 <= a < i ==> share_ok(#[trigger] shares@[a]),
            views(points@) == share_points(shares@).take(i as int),
        decreases n - i,
    {
        let sh = &shares[i];
        match decode_in_base(sh.value.as_str(), sh.base) {
            Ok(y) => {
                let p = Point::new(big_from_u64(sh.id), y);
                proof {
                    assert(views(points@.push(p)) =~= views(points@).push(p@));
                    assert(share_points(shares@).take(i + 1) =~= share_points(
                        shares@,
                    ).take(i as int).push(p@));
                }
                points.push(p);
            },
            Err(e) => {
                assert(!share_ok(shares@[i as int]));
                return Err(e);
            },
        }
        i += 1;
    }
    proof {
        assert(share_points(shares@).take(n as int) =~= share_points(shares@));
    }
    Ok(points)
}

/// Decodes the shares, then reconstructs the secret from them with
/// threshold `k` and runs the consistency sweep.
pub fn recover_shares(shares: &[Share], k: usize) -> (r: Result<Recovery, ShareError>)
    ensures
        !ids_distinct(shares@) ==> r is Err && r->Err_0 == ShareError::DuplicateShare,
        ids_distinct(shares@) && !all_decodable(shares@) ==> r is Err && r->Err_0
            == ShareError::Decode,
        ids_distinct(shares@) && all_decodable(shares@) ==> exists|t: Seq<(int, int)>|
            #![trigger recovery_result(t, k as int, r)]
            t.to_multiset() == share_points(shares@).to_multiset() && strictly_sorted(t)
                && recovery_result(t, k as int, r),
{
    let points = match decode_shares(shares) {
        Ok(p) => p,
        Err(e) => return Err(e),
    };
    proof {
        let s = views(points@);
        assert forall|i: int, j: int|
            0 <= i < s.len() && 0 <= j < s.len() && i != j implies #[trigger] s[i].0
            != #[trigger] s[j].0 by {
            assert(s[i] == share_point(shares@[i]) && s[j] == share_point(shares@[j]));
            assert(shares@[i].id != shares@[j].id);
        }
        assert(distinct_xs(s));
    }
    reconstruct(points, k)
}

} // verus!
