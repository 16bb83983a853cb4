//! Vector parsing, arithmetic and distance tests. Coordinates are in
//! fixed-point units of 1e-5, so 100_000 stands for 1.0.

use mdio::rvec::{Direction, ParseRVecError, RVec};

const U: i64 = 100_000;

#[test]
fn parse_rvec_from_fixed_string() {
    assert_eq!(RVec::from_fixed("123", 1), Ok(RVec { x: U, y: 2 * U, z: 3 * U }));
    assert_eq!(RVec::from_fixed(" 11230", 2), Ok(RVec { x: U, y: 12 * U, z: 30 * U }));
    assert_eq!(RVec::from_fixed(" 12 3", 2), Ok(RVec { x: U, y: 2 * U, z: 3 * U }));
    assert_eq!(RVec::from_fixed("1.02.03.0", 3), Ok(RVec { x: U, y: 2 * U, z: 3 * U }));
    assert_eq!(RVec::from_fixed(" 1.0 2.0 3.0", 4), Ok(RVec { x: U, y: 2 * U, z: 3 * U }));
    assert_eq!(RVec::from_fixed("123   ", 1), Ok(RVec { x: U, y: 2 * U, z: 3 * U }));

    assert_eq!(RVec::from_fixed("", 1), Err(ParseRVecError::MissingValues));
    assert_eq!(RVec::from_fixed("  ", 1), Err(ParseRVecError::MissingValues));
    assert_eq!(RVec::from_fixed("12 ", 1), Err(ParseRVecError::ParseFloatError));
    assert_eq!(RVec::from_fixed(" 12", 1), Err(ParseRVecError::ParseFloatError));
    assert_eq!(RVec::from_fixed(" 123", 1), Err(ParseRVecError::ParseFloatError));
    assert_eq!(RVec::from_fixed("1s3", 1), Err(ParseRVecError::ParseFloatError));
    assert_eq!(RVec::from_fixed("1s23", 1), Err(ParseRVecError::ParseFloatError));
}

#[test]
fn parse_rvec_from_whitespace_separated_string() {
    assert_eq!(RVec::from_whitespace("1 2 3"), Ok(RVec { x: U, y: 2 * U, z: 3 * U }));
    assert_eq!(
        RVec::from_whitespace("    1  2         3"),
        Ok(RVec { x: U, y: 2 * U, z: 3 * U })
    );
    assert_eq!(RVec::from_whitespace("\t1\t2\t3\t"), Ok(RVec { x: U, y: 2 * U, z: 3 * U }));
    assert_eq!(RVec::from_whitespace("1\t2 3"), Ok(RVec { x: U, y: 2 * U, z: 3 * U }));
    assert_eq!(RVec::from_whitespace("1 2 3 4 5"), Ok(RVec { x: U, y: 2 * U, z: 3 * U }));

    assert_eq!(RVec::from_whitespace(""), Err(ParseRVecError::MissingValues));
    assert_eq!(RVec::from_whitespace("   "), Err(ParseRVecError::MissingValues));
    assert_eq!(RVec::from_whitespace("   2 3"), Err(ParseRVecError::ParseFloatError));
    assert_eq!(RVec::from_whitespace("1 s 2 3"), Err(ParseRVecError::ParseFloatError));
    assert_eq!(RVec::from_whitespace("1,2,3"), Err(ParseRVecError::ParseFloatError));
}

#[test]
fn rvec_to_tuple() {
    let (x, y, z) = (U, 2 * U, 3 * U);
    let r = RVec { x, y, z };
    assert_eq!((x, y, z), r.to_tuple());
}

#[test]
fn add_rvec_operator() {
    let r1 = RVec { x: 0, y: U, z: 2 * U };
    let r2 = RVec { x: 3 * U, y: 4 * U, z: 5 * U };
    assert_eq!(r1.add(r2), RVec { x: 3 * U, y: 5 * U, z: 7 * U });

    let mut r3 = RVec { x: 0, y: 0, z: 0 };
    r3.add_assign(r1);
    assert_eq!(r3, r1);
}

#[test]
fn sub_rvec_operator() {
    let r1 = RVec { x: 0, y: U, z: 2 * U };
    let r2 = RVec { x: 3 * U, y: 4 * U, z: 5 * U };
    assert_eq!(r2.sub(r1), RVec { x: 3 * U, y: 3 * U, z: 3 * U });

    let mut r3 = r2.clone();
    r3.sub_assign(r2);
    assert_eq!(r3, RVec { x: 0, y: 0, z: 0 });
}

#[test]
fn mul_rvec_with_usize() {
    let r = RVec { x: U, y: 2 * U, z: 3 * U };
    assert_eq!(r.pbc_multiply(2, 3, 4), RVec { x: 2 * U, y: 6 * U, z: 12 * U });
}

#[test]
fn neg_rvec_operator() {
    let (x, y, z) = (U, 2 * U, 3 * U);
    let r = RVec { x, y, z };
    assert_eq!(r.neg(), RVec { x: -x, y: -y, z: -z });
}

#[test]
fn distance_between_rvecs() {
    let r1 = RVec { x: U, y: 2 * U, z: 3 * U };
    let r2 = RVec { x: 7 * U, y: 11 * U, z: 13 * U };
    let dx = (r1.x - r2.x) as i128;
    let dy = (r1.y - r2.y) as i128;
    let dz = (r1.z - r2.z) as i128;
    let dr2 = dx * dx + dy * dy + dz * dz;

    assert_eq!(r1.distance_squared(&r2), dr2);
}

#[test]
fn cylindrical_distances_between_rvecs() {
    let r1 = RVec { x: U, y: 2 * U, z: 3 * U };
    let r2 = RVec { x: 7 * U, y: 11 * U, z: 13 * U };
    let dx = (r1.x - r2.x) as i128;
    let dy = (r1.y - r2.y) as i128;
    let dz = (r1.z - r2.z) as i128;

    let dr_z = dx * dx + dy * dy;
    let dh_z = r1.z - r2.z;
    assert_eq!(r1.distance_cylindrical_squared(&r2, Direction::Z), (dr_z, dh_z));

    let dr_y = dx * dx + dz * dz;
    let dh_y = r1.y - r2.y;
    assert_eq!(r1.distance_cylindrical_squared(&r2, Direction::Y), (dr_y, dh_y));

    let dr_x = dz * dz + dy * dy;
    let dh_x = r1.x - r2.x;
    assert_eq!(r1.distance_cylindrical_squared(&r2, Direction::X), (dr_x, dh_x));
}

#[test]
fn rvec_default_is_origo() {
    let origo = RVec { x: 0, y: 0, z: 0 };

    assert_eq!(origo, RVec::default());
}
