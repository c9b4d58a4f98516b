//! The durable rotation record and the decisions around loading it.

use vstd::prelude::*;
use vstd::string::StringExecFns;
use crate::codec::{parse_state, parse_state_spec};

verus! {

/// The record persisted across restarts: which client tool last switched,
/// and the index of the profile that was last successfully activated.
#[derive(Debug)]
pub struct PersistedState {
    pub last_client: String,
    pub last_profile_index: usize,
}

/// Failures of loading or persisting the durable record.
#[derive(Debug)]
pub enum StateError {
    /// The caller passed a profile count of zero.
    InvalidInput,
    /// Reading or writing the state file failed for a reason other than
    /// the file being absent.
    IoError { error: String },
    /// The state file exists but does not hold a well-formed record.
    CorruptState { error: String },
}

/// What reading the state file produced: its text, its absence, or an
/// I/O failure. The file system access itself happens outside this crate;
/// every decision about its outcome is made here.
#[derive(Debug)]
pub enum FileReadOutcome {
    Found { content: String },
    NotFound,
    Failed { error: String },
}

/// The default record written on first use: client `"outline"` and
/// index `profiles_len - 1`, so that the rotation step right after it
/// lands on profile index 0.
pub fn initial_state(profiles_len: usize) -> (st: PersistedState)
    requires
        profiles_len >= 1,
    ensures
        st.last_client@ == "outline"@,
        st.last_profile_index == profiles_len - 1,
{
    PersistedState {
        last_client: String::from_str("outline"),
        last_profile_index: profiles_len - 1,
    }
}

/// Decide what record a state-file read denotes, against the number of
/// freshly discovered profiles. A missing file yields the default
/// record, which the caller must then persist (the returned flag); a
/// file that is present but malformed is corrupt and never repaired.
pub fn load_or_init_state(read: &FileReadOutcome, profiles_len: usize) -> (r: Result<
    (PersistedState, bool),
    StateError,
>)
    ensures
        profiles_len == 0 ==> r == Err::<(PersistedState, bool), StateError>(
            StateError::InvalidInput,
        ),
        profiles_len >= 1 ==> match *read {
            FileReadOutcome::Found { content } => match parse_state_spec(content@) {
                Some(cv) => {
                    if cv.1 <= usize::MAX as nat {
                        r matches Ok(p) && p.0.last_client@ == cv.0 && p.0.last_profile_index
                            as nat == cv.1 && !p.1
                    } else {
                        r matches Err(e) && e is CorruptState
                    }
                },
                None => r matches Err(e) && e is CorruptState,
            },
            FileReadOutcome::NotFound => r matches Ok(p) && p.0.last_client@ == "outline"@
                && p.0.last_profile_index == profiles_len - 1 && p.1,
            FileReadOutcome::Failed { error } => r == Err::<(PersistedState, bool), StateError>(
                (StateError::IoError { error }),
            ),
        },
{
    if profiles_len == 0 {
        return Err(StateError::InvalidInput);
    }
    match read {
        FileReadOutcome::Found { content } => match parse_state(content.as_str()) {
            Ok(st) => Ok((st, false)),
            Err(e) => Err(e),
        },
        FileReadOutcome::NotFound => Ok((initial_state(profiles_len), true)),
        FileReadOutcome::Failed { error } => Err(StateError::IoError { error: error.clone() }),
    }
}

} // verus!
