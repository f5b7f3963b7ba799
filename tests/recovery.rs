use num_bigint::BigInt;
use threshold_secret::error::ShareError;
use threshold_secret::lagrange::{interpolate_at_zero, lagrange_at_zero, Point};
use threshold_secret::numeral::decode_in_base;
use threshold_secret::recover::{reconstruct, recover_in_order, sort_points, without_point};
use threshold_secret::shares::{decode_shares, recover_shares, Share};

fn big(s: &str) -> BigInt {
    BigInt::parse_bytes(s.as_bytes(), 10).unwrap()
}

fn pt(x: i64, y: &str) -> Point {
    Point::new(BigInt::from(x), big(y))
}

fn xs(points: &[Point]) -> Vec<BigInt> {
    points.iter().map(|p| p.x.clone()).collect()
}

/// f(x) = 5 + 3x + 2x^2 at x = 1..5.
fn quadratic() -> Vec<Point> {
    vec![pt(1, "10"), pt(2, "19"), pt(3, "32"), pt(4, "49"), pt(5, "70")]
}

const SECRET: &str = "123456789012345678901234567890";

/// A degree-6 polynomial with constant term `SECRET`, at x = 1..10.
fn sextic() -> Vec<Point> {
    vec![
        pt(1, "123456789012345678901234567904"),
        pt(2, "123456789012345678901234568154"),
        pt(3, "123456789012345678901234570056"),
        pt(4, "123456789012345678901234578506"),
        pt(5, "123456789012345678901234605600"),
        pt(6, "123456789012345678901234675794"),
        pt(7, "123456789012345678901234832504"),
        pt(8, "123456789012345678901235146146"),
        pt(9, "123456789012345678901235723616"),
        pt(10, "123456789012345678901236719210"),
    ]
}

fn with_y(mut points: Vec<Point>, x: i64, y: &str) -> Vec<Point> {
    for p in points.iter_mut() {
        if p.x == BigInt::from(x) {
            p.y = big(y);
        }
    }
    points
}

#[test]
fn decode_hex_share_value() {
    assert_eq!(decode_in_base("e1b5e05623d881f", 16).unwrap(), big("1016509518118225951"));
}

#[test]
fn decode_rejects_invalid_digit() {
    assert_eq!(decode_in_base("g", 16).err(), Some(ShareError::Decode));
    assert_eq!(decode_in_base("129", 9).err(), Some(ShareError::Decode));
    assert_eq!(decode_in_base("", 10).err(), Some(ShareError::Decode));
    assert_eq!(decode_in_base("-", 10).err(), Some(ShareError::Decode));
    assert_eq!(decode_in_base("_1", 10).err(), Some(ShareError::Decode));
    assert_eq!(decode_in_base("1_000", 10).err(), Some(ShareError::Decode));
    assert_eq!(decode_in_base("1_0", 10).err(), Some(ShareError::Decode));
    assert_eq!(decode_in_base("ff_", 16).err(), Some(ShareError::Decode));
    assert_eq!(decode_in_base("1 0", 10).err(), Some(ShareError::Decode));
}

#[test]
fn decode_rejects_base_out_of_range() {
    assert_eq!(decode_in_base("1", 1).err(), Some(ShareError::Decode));
    assert_eq!(decode_in_base("1", 37).err(), Some(ShareError::Decode));
    assert_eq!(decode_in_base("1", 0).err(), Some(ShareError::Decode));
}

#[test]
fn decode_signs_case_and_separators() {
    assert_eq!(decode_in_base("-ff", 16).unwrap(), BigInt::from(-255));
    assert_eq!(decode_in_base("+12", 10).unwrap(), BigInt::from(12));
    assert_eq!(decode_in_base("Zz", 36).unwrap(), BigInt::from(1295));
    assert_eq!(decode_in_base("101", 2).unwrap(), BigInt::from(5));
}

#[test]
fn decode_original_sample_values() {
    assert_eq!(decode_in_base("13444211440455345511", 6).unwrap(), big("995085094601491"));
    assert_eq!(
        decode_in_base("2122212201122002221120200210011020220200", 3).unwrap(),
        big("10788619898233492461")
    );
    assert_eq!(decode_in_base("45153788322a1255483", 12).unwrap(), big("117852986202006511971"));
}

#[test]
fn lagrange_recovers_constant_term() {
    let q = quadratic();
    assert_eq!(lagrange_at_zero(&q[0..3]).unwrap(), BigInt::from(5));
    assert_eq!(lagrange_at_zero(&q[2..5]).unwrap(), BigInt::from(5));
    let spread = vec![q[0].duplicate(), q[2].duplicate(), q[4].duplicate()];
    assert_eq!(lagrange_at_zero(&spread).unwrap(), BigInt::from(5));
    assert_eq!(lagrange_at_zero(&sextic()[3..10]).unwrap(), big(SECRET));
}

#[test]
fn lagrange_order_independent() {
    let q = quadratic();
    let reordered = vec![q[4].duplicate(), q[1].duplicate(), q[3].duplicate()];
    let ordered = vec![q[1].duplicate(), q[3].duplicate(), q[4].duplicate()];
    assert_eq!(lagrange_at_zero(&reordered).unwrap(), lagrange_at_zero(&ordered).unwrap());
    assert_eq!(lagrange_at_zero(&reordered).unwrap(), BigInt::from(5));
}

#[test]
fn lagrange_non_integer_result() {
    let pts = vec![pt(1, "1"), pt(3, "2")];
    assert_eq!(lagrange_at_zero(&pts).err(), Some(ShareError::NonIntegerResult));
}

#[test]
fn lagrange_single_and_empty() {
    assert_eq!(lagrange_at_zero(&[pt(7, "-42")]).unwrap(), BigInt::from(-42));
    assert_eq!(lagrange_at_zero(&[]).unwrap(), BigInt::from(0));
}

#[test]
fn interpolate_insufficient_points() {
    let q = quadratic();
    assert_eq!(interpolate_at_zero(&q[0..2], 3).err(), Some(ShareError::InsufficientShares));
    assert_eq!(interpolate_at_zero(&[], 1).err(), Some(ShareError::InsufficientShares));
}

#[test]
fn interpolate_uses_first_k() {
    let q = with_y(quadratic(), 5, "1000");
    assert_eq!(interpolate_at_zero(&q, 3).unwrap(), BigInt::from(5));
    assert_eq!(interpolate_at_zero(&q, 2).unwrap(), BigInt::from(1));
}

#[test]
fn sort_points_ascending() {
    let pts = vec![pt(3, "30"), pt(1, "10"), pt(10, "100"), pt(2, "20")];
    let sorted = sort_points(pts);
    assert_eq!(xs(&sorted), vec![BigInt::from(1), BigInt::from(2), BigInt::from(3), BigInt::from(10)]);
    assert_eq!(sorted[3].y, BigInt::from(100));
}

#[test]
fn without_point_drops_one() {
    let q = quadratic();
    let rest = without_point(&q, 1);
    assert_eq!(xs(&rest), vec![BigInt::from(1), BigInt::from(3), BigInt::from(4), BigInt::from(5)]);
}

#[test]
fn reconstruct_consistent_shares() {
    let first = reconstruct(sextic(), 7).unwrap();
    let again = reconstruct(sextic(), 7).unwrap();
    assert_eq!(first.secret, big(SECRET));
    assert!(first.inconsistent.is_empty());
    assert_eq!(again.secret, first.secret);
    assert_eq!(again.inconsistent, first.inconsistent);
}

#[test]
fn reconstruct_ignores_input_order() {
    let mut pts = sextic();
    pts.reverse();
    let r = reconstruct(pts, 7).unwrap();
    assert_eq!(r.secret, big(SECRET));
    assert!(r.inconsistent.is_empty());
}

#[test]
fn reconstruct_tampered_reference_share() {
    // share 4 lies in the reference subset: the reference secret moves, and
    // every trial that still holds share 4 disagrees with it
    let pts = with_y(sextic(), 4, "123456789012345678901234583546");
    let r = reconstruct(pts, 7).unwrap();
    assert_eq!(r.secret, big("123456789012345678901234391490"));
    let expected: Vec<BigInt> = (1..=7).map(BigInt::from).collect();
    assert_eq!(r.inconsistent, expected);
}

#[test]
fn reconstruct_share_four_alone_restores_secret() {
    let pts = with_y(sextic(), 4, "123456789012345678901234583546");
    let without_four = without_point(&pts, 3);
    assert_eq!(interpolate_at_zero(&without_four, 7).unwrap(), big(SECRET));
}

#[test]
fn reconstruct_tampered_non_reference_share() {
    let pts = with_y(sextic(), 9, "123456789012345678901235724616");
    let r = reconstruct(pts, 7).unwrap();
    assert_eq!(r.secret, big(SECRET));
    assert!(r.inconsistent.is_empty());
}

#[test]
fn reconstruct_non_integer_trial() {
    let pts = with_y(sextic(), 4, "123456789012345678901234578507");
    assert_eq!(reconstruct(pts, 7).err(), Some(ShareError::NonIntegerResult));
}

#[test]
fn reconstruct_insufficient_shares() {
    let pts: Vec<Point> = sextic().into_iter().take(6).collect();
    assert_eq!(reconstruct(pts, 7).err(), Some(ShareError::InsufficientShares));
}

#[test]
fn reconstruct_exactly_k_makes_no_trial() {
    let q = with_y(quadratic(), 3, "33");
    let r = recover_in_order(&q[0..3], 3).unwrap();
    assert_eq!(r.secret, BigInt::from(6));
    assert!(r.inconsistent.is_empty());
    let r = recover_in_order(&quadratic()[0..3], 3).unwrap();
    assert_eq!(r.secret, BigInt::from(5));
    assert!(r.inconsistent.is_empty());
}

#[test]
fn reconstruct_original_sample() {
    let shares = [
        (1, 6, "13444211440455345511"),
        (2, 15, "aed7015a346d635"),
        (3, 15, "6aeeb69631c227c"),
        (4, 16, "e1b5e05623d881f"),
        (5, 8, "316034514573652620673"),
        (6, 3, "2122212201122002221120200210011020220200"),
        (7, 3, "20120221122211000100210021102001201112121"),
        (8, 6, "20220554335330240002224253"),
        (9, 12, "45153788322a1255483"),
        (10, 7, "1101613130313526312514143"),
    ];
    let pts: Vec<Point> = shares
        .iter()
        .map(|(x, b, v)| Point::new(BigInt::from(*x), decode_in_base(v, *b).unwrap()))
        .collect();
    let reference = interpolate_at_zero(&sort_points(pts.iter().map(|p| p.duplicate()).collect()), 7);
    assert_eq!(reference.unwrap(), big("-6290016743746469796"));
    // leaving out share 3 gives a non-integer value at zero
    assert_eq!(reconstruct(pts, 7).err(), Some(ShareError::NonIntegerResult));
}

#[test]
fn zero_threshold_is_insufficient() {
    let q = quadratic();
    assert_eq!(interpolate_at_zero(&q, 0).err(), Some(ShareError::InsufficientShares));
    assert_eq!(reconstruct(quadratic(), 0).err(), Some(ShareError::InsufficientShares));
    assert_eq!(recover_in_order(&q, 0).err(), Some(ShareError::InsufficientShares));
}

fn share(id: u64, base: u32, value: &str) -> Share {
    Share { id, base, value: value.to_string() }
}

#[test]
fn decode_shares_in_order() {
    let shares = vec![share(3, 16, "ff"), share(1, 2, "101"), share(2, 10, "-7")];
    let pts = decode_shares(&shares).unwrap();
    assert_eq!(xs(&pts), vec![BigInt::from(3), BigInt::from(1), BigInt::from(2)]);
    assert_eq!(pts[0].y, BigInt::from(255));
    assert_eq!(pts[1].y, BigInt::from(5));
    assert_eq!(pts[2].y, BigInt::from(-7));
}

#[test]
fn decode_shares_rejects_duplicate_ids() {
    let shares = vec![share(1, 10, "5"), share(2, 10, "6"), share(1, 10, "7")];
    assert_eq!(decode_shares(&shares).err(), Some(ShareError::DuplicateShare));
    assert_eq!(recover_shares(&shares, 2).err(), Some(ShareError::DuplicateShare));
}

#[test]
fn decode_shares_fails_closed() {
    let shares = vec![share(1, 10, "10"), share(2, 16, "g"), share(3, 10, "32")];
    assert_eq!(decode_shares(&shares).err(), Some(ShareError::Decode));
    assert_eq!(recover_shares(&shares, 2).err(), Some(ShareError::Decode));
    let shares = vec![share(1, 10, "10"), share(2, 37, "19")];
    assert_eq!(recover_shares(&shares, 1).err(), Some(ShareError::Decode));
}

#[test]
fn recover_shares_end_to_end() {
    // f(x) = 5 + 3x + 2x^2, values in several bases, given out of order
    let shares = vec![
        share(4, 16, "31"),
        share(2, 3, "201"),
        share(1, 2, "1010"),
        share(5, 8, "106"),
        share(3, 10, "32"),
    ];
    let r = recover_shares(&shares, 3).unwrap();
    assert_eq!(r.secret, BigInt::from(5));
    assert!(r.inconsistent.is_empty());
    let shares = vec![share(1, 10, "10"), share(2, 10, "19")];
    assert_eq!(recover_shares(&shares, 3).err(), Some(ShareError::InsufficientShares));
}

#[test]
fn reference_change_moves_secret_by_weight() {
    // the weight of x = 1 among x = 1, 2, 3 is 3: adding 1 there adds 3
    let pts = vec![pt(1, "11"), pt(2, "19"), pt(3, "32")];
    assert_eq!(lagrange_at_zero(&pts).unwrap(), BigInt::from(8));
    let changed = with_y(quadratic(), 1, "11");
    assert_eq!(interpolate_at_zero(&changed, 3).unwrap(), BigInt::from(8));
    // a change past the reference subset leaves it at 5
    let far = with_y(quadratic(), 5, "71");
    assert_eq!(interpolate_at_zero(&far, 3).unwrap(), BigInt::from(5));
}
