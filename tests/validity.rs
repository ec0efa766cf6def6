use backup_sync::validity::{Args, PathState, ValidityError};

fn args(actual: PathState, old_backup: PathState, new_backup: PathState) -> Args {
    Args { actual, old_backup, new_backup }
}

#[test]
fn valid_with_missing_destination() {
    let a = args(PathState::NonEmptyDir, PathState::EmptyDir, PathState::Missing);
    assert_eq!(a.check_validity(), Ok(()));
    assert!(a.violations().is_empty());
}

#[test]
fn valid_with_empty_destination() {
    let a = args(PathState::EmptyDir, PathState::NonEmptyDir, PathState::EmptyDir);
    assert_eq!(a.check_validity(), Ok(()));
}

#[test]
fn actual_missing() {
    let a = args(PathState::Missing, PathState::EmptyDir, PathState::Missing);
    assert_eq!(a.check_validity(), Err(ValidityError::ActualMissing));
}

#[test]
fn actual_not_a_directory() {
    let a = args(PathState::NotDir, PathState::EmptyDir, PathState::Missing);
    assert_eq!(a.check_validity(), Err(ValidityError::ActualNotDir));
}

#[test]
fn destination_not_a_directory() {
    let a = args(PathState::EmptyDir, PathState::EmptyDir, PathState::NotDir);
    assert_eq!(a.check_validity(), Err(ValidityError::NewNotDir));
}

#[test]
fn destination_not_empty() {
    let a = args(PathState::EmptyDir, PathState::EmptyDir, PathState::NonEmptyDir);
    assert_eq!(a.check_validity(), Err(ValidityError::NewNotEmpty));
}

#[test]
fn old_missing() {
    let a = args(PathState::EmptyDir, PathState::Missing, PathState::Missing);
    assert_eq!(a.check_validity(), Err(ValidityError::OldMissing));
}

#[test]
fn old_not_a_directory() {
    let a = args(PathState::EmptyDir, PathState::NotDir, PathState::EmptyDir);
    assert_eq!(a.check_validity(), Err(ValidityError::OldNotDir));
}

#[test]
fn first_violation_is_reported_and_all_are_listed() {
    let a = args(PathState::NotDir, PathState::Missing, PathState::NonEmptyDir);
    assert_eq!(a.check_validity(), Err(ValidityError::ActualNotDir));
    assert_eq!(
        a.violations(),
        vec![
            ValidityError::ActualNotDir,
            ValidityError::NewNotEmpty,
            ValidityError::OldMissing,
        ]
    );
}
