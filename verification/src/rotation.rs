//! The rotation step: pick the next profile from the discovered list,
//! build the switch command, and commit new state only on success.

use vstd::prelude::*;
use vstd::string::StringExecFns;
use crate::discovery::ExecOutcome;
use crate::state::PersistedState;

verus! {

/// The full description of one invocation of the external switch
/// command, as reported to callers.
#[derive(Debug)]
pub struct SwitchCommandOutput {
    pub status_success: bool,
    pub status_text: String,
    pub command: Vec<String>,
    pub stdout: String,
    pub stderr: String,
}

/// Failures of the rotation step itself.
#[derive(Debug)]
pub enum RotationError {
    /// The switch command could not be launched; state is untouched.
    ExecFailed { error: String },
    /// The switch succeeded but the new record could not be persisted:
    /// the durable record and the actually active profile now disagree,
    /// which callers must surface, never hide.
    PersistFailed { profile_index: usize, error: String },
}

/// The index a rotation step activates, given the persisted index `i` and
/// the number of discovered profiles `n`.
///
/// The inner `i % n` reconciles a stale persisted index against a profile
/// list whose length may have changed since the index was written; the
/// outer step advances the pointer by one, wrapping around. A stale or
/// out-of-range index therefore never faults: it degrades to some valid
/// profile.
pub open spec fn next_index_spec(i: nat, n: nat) -> nat
    recommends
        n >= 1,
{
    ((i % n) + 1) % n
}

/// The rotation pointer always lands inside the current profile list,
/// however large or stale the persisted index is.
pub proof fn lemma_next_index_in_range(i: nat, n: nat)
    requires
        n >= 1,
    ensures
        next_index_spec(i, n) < n,
{
}

/// Starting from the default persisted index `n - 1`, the first rotation
/// step lands on profile index 0.
pub proof fn lemma_first_rotation_hits_zero(n: nat)
    requires
        n >= 1,
    ensures
        next_index_spec((n - 1) as nat, n) == 0,
{
    vstd::arithmetic::div_mod::lemma_small_mod((n - 1) as nat, n);
    vstd::arithmetic::div_mod::lemma_mod_self_0(n as int);
}

/// Compute the index of the next profile to activate.
pub fn next_index(last_profile_index: usize, profiles_len: usize) -> (r: usize)
    requires
        profiles_len >= 1,
    ensures
        r == next_index_spec(last_profile_index as nat, profiles_len as nat),
        r < profiles_len,
{
    let current: usize = last_profile_index % profiles_len;
    (current + 1) % profiles_len
}

/// Decide the next rotation step: the index to activate and the name of
/// the profile standing there in the freshly discovered list.
pub fn plan_rotation(profiles: &Vec<String>, state: &PersistedState) -> (r: (usize, String))
    requires
        profiles.len() >= 1,
    ensures
        r.0 == next_index_spec(state.last_profile_index as nat, profiles.len() as nat),
        r.0 < profiles.len(),
        r.1 == profiles[r.0 as int],
{
    let ni = next_index(state.last_profile_index, profiles.len());
    (ni, profiles[ni].clone())
}

/// The argv of the switch invocation: the binary, the configured
/// argument prefix, then the profile to activate.
pub fn build_switch_command(
    command_bin: &String,
    command_args_prefix: &Vec<String>,
    profile: &String,
) -> (cmd: Vec<String>)
    ensures
        cmd.deep_view() == seq![command_bin@] + command_args_prefix.deep_view() + seq![profile@],
{
    let mut cmd: Vec<String> = Vec::new();
    cmd.push(command_bin.clone());
    proof {
        assert(cmd.deep_view() =~= seq![command_bin@] + command_args_prefix.deep_view().take(0));
    }
    let mut k: usize = 0;
    while k < command_args_prefix.len()
        invariant
            k <= command_args_prefix.len(),
            cmd.deep_view() == seq![command_bin@] + command_args_prefix.deep_view().take(k as int),
        decreases command_args_prefix.len() - k,
    {
        let ghost dv0 = cmd.deep_view();
        let elem = command_args_prefix[k].clone();
        proof {
            assert(elem@ == command_args_prefix.deep_view()[k as int]);
        }
        cmd.push(elem);
        proof {
            assert(cmd.deep_view() =~= dv0.push(command_args_prefix.deep_view()[k as int]));
            assert(cmd.deep_view() =~= seq![command_bin@] + command_args_prefix.deep_view().take(
                k + 1,
            ));
        }
        k = k + 1;
    }
    cmd.push(profile.clone());
    proof {
        assert(command_args_prefix.deep_view().take(command_args_prefix.len() as int)
            =~= command_args_prefix.deep_view());
        assert(cmd.deep_view() =~= seq![command_bin@] + command_args_prefix.deep_view() + seq![
            profile@,
        ]);
    }
    cmd
}

/// Package the outcome of the external switch invocation: a launch
/// failure is a rotation error with state untouched; a launched command
/// is described exactly as it ran, successful or not.
pub fn switch_result(exec: ExecOutcome, command: Vec<String>) -> (r: Result<
    SwitchCommandOutput,
    RotationError,
>)
    ensures
        (exec matches ExecOutcome::SpawnFailed { error } ==> r == Err::<
            SwitchCommandOutput,
            RotationError,
        >((RotationError::ExecFailed { error }))),
        (exec matches ExecOutcome::Spawned { status_success, status_text, stdout, stderr } ==> r
            == Ok::<SwitchCommandOutput, RotationError>(
            (SwitchCommandOutput { status_success, status_text, command, stdout, stderr }),
        )),
{
    match exec {
        ExecOutcome::SpawnFailed { error } => Err(RotationError::ExecFailed { error }),
        ExecOutcome::Spawned { status_success, status_text, stdout, stderr } => Ok(
            SwitchCommandOutput { status_success, status_text, command, stdout, stderr },
        ),
    }
}

/// Commit the outcome of the external switch command. Only a successful
/// switch mutates the record; a failed one leaves it untouched, so the
/// durable state keeps describing what is actually active. The returned
/// flag says whether the caller must write the record back to disk.
pub fn commit_switch(state: &mut PersistedState, next_index: usize, status_success: bool) -> (save_needed: bool)
    ensures
        status_success ==> final(state).last_client@ == "outline"@
            && final(state).last_profile_index == next_index
            && save_needed,
        !status_success ==> *final(state) == *old(state) && !save_needed,
{
    if status_success {
        state.last_client = String::from_str("outline");
        state.last_profile_index = next_index;
        true
    } else {
        false
    }
}

} // verus!
