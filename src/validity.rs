use vstd::prelude::*;

verus! {

/// What was found on disk at one of the three paths of a run.
#[derive(Clone, Copy, Debug, PartialEq, Eq, Structural)]
pub enum PathState {
    /// Nothing exists at the path.
    Missing,
    /// Something exists at the path, but it is not a directory.
    NotDir,
    /// A directory with no entries.
    EmptyDir,
    /// A directory with entries, or one whose entries could not be listed.
    NonEmptyDir,
}

impl PathState {
    pub open spec fn is_present(self) -> bool {
        self != PathState::Missing
    }

    pub open spec fn is_dir(self) -> bool {
        self == PathState::EmptyDir || self == PathState::NonEmptyDir
    }
}

/// A violated precondition of a run.
#[derive(Clone, Copy, Debug, PartialEq, Eq, Structural)]
pub enum ValidityError {
    /// The current tree does not exist.
    ActualMissing,
    /// The current tree exists but is not a directory.
    ActualNotDir,
    /// The destination exists but is not a directory.
    NewNotDir,
    /// The destination is a directory that is not empty.
    NewNotEmpty,
    /// The previous backup does not exist.
    OldMissing,
    /// The previous backup exists but is not a directory.
    OldNotDir,
}

/// The three paths of a run, each as found on disk.
#[derive(Clone, Copy, Debug, PartialEq, Eq, Structural)]
pub struct Args {
    /// The tree to back up.
    pub actual: PathState,
    /// The previous backup, used as the comparison baseline.
    pub old_backup: PathState,
    /// The new backup to fill.
    pub new_backup: PathState,
}

/// Every precondition that `args` violates, in the order in which they are checked.
pub open spec fn spec_violations(args: Args) -> Seq<ValidityError> {
    let s0 = Seq::<ValidityError>::empty();
    let s1 = if !args.actual.is_present() {
        s0.push(ValidityError::ActualMissing)
    } else if !args.actual.is_dir() {
        s0.push(ValidityError::ActualNotDir)
    } else {
        s0
    };
    let s2 = if args.new_backup == PathState::NotDir {
        s1.push(ValidityError::NewNotDir)
    } else if args.new_backup == PathState::NonEmptyDir {
        s1.push(ValidityError::NewNotEmpty)
    } else {
        s1
    };
    if !args.old_backup.is_present() {
        s2.push(ValidityError::OldMissing)
    } else if !args.old_backup.is_dir() {
        s2.push(ValidityError::OldNotDir)
    } else {
        s2
    }
}

/// A run may proceed: both trees are directories, and the destination is
/// absent or an empty directory.
pub open spec fn spec_valid(args: Args) -> bool {
    &&& args.actual.is_dir()
    &&& args.old_backup.is_dir()
    &&& (args.new_backup == PathState::Missing || args.new_backup == PathState::EmptyDir)
}

fn is_dir(state: PathState) -> (r: bool)
    ensures
        r == state.is_dir(),
{
    match state {
        PathState::EmptyDir | PathState::NonEmptyDir => true,
        _ => false,
    }
}

impl Args {
    /// Lists every violated precondition, in the order in which
    /// `check_validity` tests them.
    pub fn violations(&self) -> (r: Vec<ValidityError>)
        ensures
            r@ == spec_violations(*self),
            r@.len() == 0 <==> spec_valid(*self),
    {
        let mut r: Vec<ValidityError> = Vec::new();
        if self.actual == PathState::Missing {
            r.push(ValidityError::ActualMissing);
        } else if !is_dir(self.actual) {
            r.push(ValidityError::ActualNotDir);
        }
        if self.new_backup == PathState::NotDir {
            r.push(ValidityError::NewNotDir);
        } else if self.new_backup == PathState::NonEmptyDir {
            r.push(ValidityError::NewNotEmpty);
        }
        if self.old_backup == PathState::Missing {
            r.push(ValidityError::OldMissing);
        } else if !is_dir(self.old_backup) {
            r.push(ValidityError::OldNotDir);
        }
        r
    }

    /// Checks the preconditions of a run and reports the first one violated.
    pub fn check_validity(&self) -> (r: Result<(), ValidityError>)
        ensures
            r is Ok <==> spec_valid(*self),
            r matches Err(e) ==> e == spec_violations(*self)[0],
    {
        if self.actual == PathState::Missing {
            return Err(ValidityError::ActualMissing);
        }
        if !is_dir(self.actual) {
            return Err(ValidityError::ActualNotDir);
        }
        if self.new_backup == PathState::NotDir {
            return Err(ValidityError::NewNotDir);
        }
        if self.new_backup == PathState::NonEmptyDir {
            return Err(ValidityError::NewNotEmpty);
        }
        if self.old_backup == PathState::Missing {
            return Err(ValidityError::OldMissing);
        }
        if !is_dir(self.old_backup) {
            return Err(ValidityError::OldNotDir);
        }
        Ok(())
    }
}

} // verus!
