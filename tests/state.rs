use sbmp::motion_validator::MotionCheckStats;
use sbmp::state::{
    AllValidStateValidityChecker, ClearanceComputationType, CompoundState, ProlateHyperspheroidError,
    StateId,
};

#[test]
fn motion_counts() {
    let mut stats = MotionCheckStats { valid: 3, invalid: 4 };
    assert_eq!(stats.valid_motion_count(), 3);
    assert_eq!(stats.invalid_motion_count(), 4);
    assert_eq!(stats.checked_motion_count(), 7);
    stats.reset();
    assert_eq!(stats.checked_motion_count(), 0);
    let fresh = MotionCheckStats::default();
    assert_eq!(fresh.valid_motion_count(), 0);
    assert_eq!(fresh.invalid_motion_count(), 0);
}

#[test]
fn clearance_default_is_no_computation() {
    assert_eq!(ClearanceComputationType::default(), ClearanceComputationType::NoComputation);
    let checker = AllValidStateValidityChecker;
    assert!(checker.is_valid(&StateId::new(7)));
    assert_eq!(checker.specs(), ClearanceComputationType::NoComputation);
}

#[test]
fn compound_state_starts_empty() {
    assert!(CompoundState::new().components.is_empty());
    assert!(CompoundState::default().components.is_empty());
}

#[test]
fn state_ids_compare_by_slot() {
    assert_eq!(StateId::new(3), StateId::new(3));
    assert_ne!(StateId::new(3), StateId::new(4));
}

#[test]
fn error_messages() {
    assert_eq!(
        ProlateHyperspheroidError::InvalidTransverseDiameter.message(),
        "The transverse diameter must be greater than zero."
    );
    assert_eq!(
        ProlateHyperspheroidError::TransformationNotUpToDate.message(),
        "The transformation is not up to date. Has the transverse diameter been set?"
    );
}
