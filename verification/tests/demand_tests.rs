use velos::od_matrix::{OdMatrix, Zone};
use velos::spawn::{vehicle_type_from_index, SpawnVehicleType, VEHICLE_WEIGHTS};

#[test]
fn od_matrix_get_set_trips() {
    let mut od = OdMatrix::new();
    od.set_trips(Zone::BenThanh, Zone::NguyenHue, 100);
    assert_eq!(od.get_trips(Zone::BenThanh, Zone::NguyenHue), 100);
}

#[test]
fn od_matrix_unconfigured_pair_returns_zero() {
    let od = OdMatrix::new();
    assert_eq!(od.get_trips(Zone::BenThanh, Zone::Bitexco), 0);
}

#[test]
fn od_matrix_total_trips() {
    let mut od = OdMatrix::new();
    od.set_trips(Zone::BenThanh, Zone::NguyenHue, 50);
    od.set_trips(Zone::Bitexco, Zone::BuiVien, 30);
    assert_eq!(od.total_trips(), 80);
}

#[test]
fn od_matrix_zone_pairs_iterates_nonzero() {
    let mut od = OdMatrix::new();
    od.set_trips(Zone::BenThanh, Zone::NguyenHue, 50);
    od.set_trips(Zone::Bitexco, Zone::BuiVien, 30);
    let pairs: Vec<_> = od.zone_pairs();
    assert_eq!(pairs.len(), 2);
}

#[test]
fn od_matrix_district1_poc_has_nonzero_trips() {
    let od = OdMatrix::district1_poc();
    let total = od.total_trips();
    assert!(total >= 400, "POC should have >= 400 trips/hr, got {total}");
    assert!(total <= 600, "POC should have <= 600 trips/hr, got {total}");
}

#[test]
fn od_matrix_district1_poc_pairs_count() {
    let od = OdMatrix::district1_poc();
    let pairs: Vec<_> = od.zone_pairs();
    assert!(pairs.len() >= 6, "POC should have at least 6 zone pairs");
}

#[test]
fn od_matrix_5district_has_25_pairs() {
    let od = OdMatrix::hcmc_5district();
    // 5 zones => up to 25 OD pairs (including intra-zone).
    // We expect at least 20 non-zero pairs (all cross-district flows).
    let pair_count = od.zone_pairs().len();
    assert!(
        pair_count >= 20,
        "Expected >= 20 OD pairs, got {pair_count}"
    );
}

#[test]
fn vehicle_weights_cover_all_types() {
    assert_eq!(
        VEHICLE_WEIGHTS.len(),
        7,
        "VEHICLE_WEIGHTS must have one entry per SpawnVehicleType variant"
    );
    for (i, &w) in VEHICLE_WEIGHTS.iter().enumerate() {
        assert!(w > 0, "weight index {i} must be positive");
    }
}

#[test]
fn vehicle_weights_are_parts_per_thousand() {
    let sum: u32 = VEHICLE_WEIGHTS.iter().sum();
    assert_eq!(sum, 1000);
}

#[test]
fn vehicle_type_index_mapping() {
    assert_eq!(vehicle_type_from_index(0), SpawnVehicleType::Motorbike);
    assert_eq!(vehicle_type_from_index(1), SpawnVehicleType::Car);
    assert_eq!(vehicle_type_from_index(2), SpawnVehicleType::Bus);
    assert_eq!(vehicle_type_from_index(3), SpawnVehicleType::Bicycle);
    assert_eq!(vehicle_type_from_index(4), SpawnVehicleType::Truck);
    assert_eq!(vehicle_type_from_index(5), SpawnVehicleType::Emergency);
    assert_eq!(vehicle_type_from_index(6), SpawnVehicleType::Pedestrian);
    assert_eq!(vehicle_type_from_index(99), SpawnVehicleType::Pedestrian);
}

#[test]
fn od_matrix_district1_poc_exact_total_and_pairs() {
    let od = OdMatrix::district1_poc();
    assert_eq!(od.total_trips(), 560);
    assert_eq!(od.zone_pairs().len(), 12);
    assert_eq!(od.get_trips(Zone::BenThanh, Zone::NguyenHue), 80);
    assert_eq!(od.get_trips(Zone::NguyenHue, Zone::BenThanh), 70);
    assert_eq!(od.get_trips(Zone::District1, Zone::District3), 0);
    for (from, to, count) in od.zone_pairs() {
        assert_ne!(from, to, "POC has no intra-zone trips");
        assert_eq!(od.get_trips(from, to), count);
    }
}

#[test]
fn od_matrix_5district_exact_cells() {
    let od = OdMatrix::hcmc_5district();
    assert_eq!(od.zone_pairs().len(), 25);
    assert_eq!(od.total_trips(), 175_000);
    assert_eq!(od.get_trips(Zone::District1, Zone::District1), 16_000);
    assert_eq!(od.get_trips(Zone::District1, Zone::BinhThanh), 6_000);
    assert_eq!(od.get_trips(Zone::District5, Zone::District10), 4_500);
    assert_eq!(od.get_trips(Zone::BenThanh, Zone::NguyenHue), 0);
}

#[test]
fn od_matrix_set_replaces_and_zero_removes_pair() {
    let mut od = OdMatrix::new();
    od.set_trips(Zone::BuiVien, Zone::Waterfront, 10);
    od.set_trips(Zone::BuiVien, Zone::Waterfront, 25);
    assert_eq!(od.get_trips(Zone::BuiVien, Zone::Waterfront), 25);
    assert_eq!(od.total_trips(), 25);
    od.set_trips(Zone::BuiVien, Zone::Waterfront, 0);
    assert!(od.zone_pairs().is_empty());
    assert_eq!(od.total_trips(), 0);
}

#[test]
fn od_matrix_zone_pairs_in_row_major_order() {
    let mut od = OdMatrix::default();
    od.set_trips(Zone::BinhThanh, Zone::BenThanh, 3);
    od.set_trips(Zone::BenThanh, Zone::BinhThanh, 1);
    od.set_trips(Zone::BenThanh, Zone::NguyenHue, 2);
    assert_eq!(
        od.zone_pairs(),
        vec![
            (Zone::BenThanh, Zone::NguyenHue, 2),
            (Zone::BenThanh, Zone::BinhThanh, 1),
            (Zone::BinhThanh, Zone::BenThanh, 3),
        ]
    );
}

#[test]
fn od_matrix_zone_pairs_are_distinct_and_sum_to_total() {
    for od in [OdMatrix::district1_poc(), OdMatrix::hcmc_5district()] {
        let pairs = od.zone_pairs();
        for (i, a) in pairs.iter().enumerate() {
            for b in &pairs[i + 1..] {
                assert!(a.0 != b.0 || a.1 != b.1, "pair listed twice");
            }
        }
        let sum: u32 = pairs.iter().map(|p| p.2).sum();
        assert_eq!(sum, od.total_trips());
    }
}
