use velos::od_matrix::{OdMatrix, Zone};

#[test]
fn new_matrix_is_empty() {
    let od = OdMatrix::new();
    assert_eq!(od.total_trips(), 0);
}

#[test]
fn set_zero_removes_pair() {
    let mut od = OdMatrix::new();
    od.set_trips(Zone::BenThanh, Zone::Bitexco, 50);
    od.set_trips(Zone::BenThanh, Zone::Bitexco, 0);
    assert_eq!(od.total_trips(), 0);
    assert_eq!(od.zone_pairs().len(), 0);
}

#[test]
fn district1_poc_total_in_range() {
    let od = OdMatrix::district1_poc();
    let total = od.total_trips();
    assert_eq!(total, 560);
}

#[test]
fn hcmc_5district_has_25_pairs() {
    let od = OdMatrix::hcmc_5district();
    let pair_count = od.zone_pairs().len();
    assert!(pair_count >= 20);
}

#[test]
fn hcmc_5district_exact_pairs_and_total() {
    let od = OdMatrix::hcmc_5district();
    assert_eq!(od.zone_pairs().len(), 25);
    assert_eq!(od.total_trips(), 140_000);
    assert_eq!(od.get_trips(Zone::District3, Zone::District1), 12_000);
    assert_eq!(od.get_trips(Zone::BenThanh, Zone::District1), 0);
}

#[test]
fn get_returns_what_set_stored() {
    let mut od = OdMatrix::new();
    od.set_trips(Zone::BuiVien, Zone::Waterfront, 60);
    assert_eq!(od.get_trips(Zone::BuiVien, Zone::Waterfront), 60);
    assert_eq!(od.get_trips(Zone::Waterfront, Zone::BuiVien), 0);
    od.set_trips(Zone::BuiVien, Zone::Waterfront, 7);
    assert_eq!(od.get_trips(Zone::BuiVien, Zone::Waterfront), 7);
    assert_eq!(od.zone_pairs().len(), 1);
}

#[test]
fn total_changes_by_difference_of_counts() {
    let mut od = OdMatrix::district1_poc();
    let before = od.total_trips();
    let old = od.get_trips(Zone::BenThanh, Zone::NguyenHue);
    od.set_trips(Zone::BenThanh, Zone::NguyenHue, 100);
    assert_eq!(od.total_trips(), before - old + 100);
}

#[test]
fn zone_pairs_in_origin_major_order() {
    let mut od = OdMatrix::new();
    od.set_trips(Zone::BinhThanh, Zone::BenThanh, 3);
    od.set_trips(Zone::BenThanh, Zone::NguyenHue, 1);
    od.set_trips(Zone::BenThanh, Zone::BenThanh, 2);
    assert_eq!(
        od.zone_pairs(),
        vec![
            (Zone::BenThanh, Zone::BenThanh, 2),
            (Zone::BenThanh, Zone::NguyenHue, 1),
            (Zone::BinhThanh, Zone::BenThanh, 3),
        ]
    );
}

#[test]
fn default_is_empty_and_clone_keeps_counts() {
    let od = OdMatrix::default();
    assert_eq!(od.zone_pairs().len(), 0);
    let poc = OdMatrix::district1_poc();
    let copy = poc.clone();
    assert_eq!(copy.zone_pairs(), poc.zone_pairs());
}
