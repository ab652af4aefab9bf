use ncp::{ClaimStatus, StoreStats};

#[test]
fn store_stats_count_statuses_and_references() {
    let claims = vec![
        (ClaimStatus::Active, 2),
        (ClaimStatus::Revoked, 1),
        (ClaimStatus::Decayed, 0),
        (ClaimStatus::Challenged, 4),
        (ClaimStatus::Active, 3),
    ];
    let st = StoreStats::tally(&claims).unwrap();
    assert_eq!(
        st,
        StoreStats { total: 5, active: 2, decayed: 1, revoked: 1, total_references: 10 }
    );
}

#[test]
fn store_stats_of_an_empty_store() {
    let st = StoreStats::tally(&[]).unwrap();
    assert_eq!(st, StoreStats { total: 0, active: 0, decayed: 0, revoked: 0, total_references: 0 });
}

#[test]
fn store_stats_reference_overflow_is_reported() {
    let claims = vec![(ClaimStatus::Active, u32::MAX), (ClaimStatus::Active, 1)];
    assert!(StoreStats::tally(&claims).is_none());
    let fits = vec![(ClaimStatus::Active, u32::MAX - 1), (ClaimStatus::Active, 1)];
    assert_eq!(StoreStats::tally(&fits).unwrap().total_references, u32::MAX);
}
