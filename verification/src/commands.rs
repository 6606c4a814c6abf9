//! The decisions of the `sync` command, between the steps that do the work.
//!
//! A sync chooses its target, checks whether the remote holds a store, reads
//! both stores, compares them, and then either shows the actions (dry run),
//! pushes them, or pulls them. Each decision here takes what the previous
//! step found and says what to do next.

use vstd::prelude::*;
use crate::config::{default_target, Config};
use crate::store::Store;
use crate::sync::{actions_spec, action_views, get_actions, removes_spec, Actions};

verus! {

/// Options of the sync command.
#[derive(Debug)]
pub struct SyncOpts {
    /// The target's location.
    pub target: String,
    /// Send local changes to the target instead of fetching the target's.
    pub push: bool,
    /// Show the actions without performing them.
    pub dry_run: bool,
    /// Also remove files that the source no longer has.
    pub delete: bool,
}

/// Why a sync stops.
#[derive(Debug, Clone, Copy, PartialEq, Eq)]
pub enum SyncError {
    /// No target on the command line and none named `default` in the configuration.
    NoTarget,
    /// A pull from a target that holds no store.
    RemoteStoreMissing,
    /// Some file could not be fetched or changed locally.
    DownloadFailed,
    /// Some file could not be sent or changed remotely.
    UploadFailed,
}

/// The target given on the command line, or else the configuration's `default` target.
pub fn select_target(cli_target: Option<String>, config: &Config) -> (r: Result<String, SyncError>)
    ensures
        match cli_target {
            Some(t) => r == Ok::<String, SyncError>(t),
            None => match default_target(*config) {
                Some(t) => r matches Ok(s) && s@ == t,
                None => r == Err::<String, SyncError>(SyncError::NoTarget),
            },
        },
{
    match cli_target {
        Some(t) => Ok(t),
        None => match config.default_target() {
            Some(t) => Ok(t),
            None => Err(SyncError::NoTarget),
        },
    }
}

/// Whether to fetch the remote store, given whether the remote holds one: it
/// is fetched when it exists; a push can go on without it, a pull cannot.
pub fn fetch_remote_store(push: bool, remote_has_store: bool) -> (r: Result<bool, SyncError>)
    ensures
        r == (if remote_has_store {
            Ok::<bool, SyncError>(true)
        } else if push {
            Ok::<bool, SyncError>(false)
        } else {
            Err::<bool, SyncError>(SyncError::RemoteStoreMissing)
        }),
{
    if remote_has_store {
        Ok(true)
    } else if !push {
        Err(SyncError::RemoteStoreMissing)
    } else {
        Ok(false)
    }
}

/// The actions of a sync: a push makes the remote like the local store, a pull
/// the local like the remote one; removals are included with `delete`.
pub fn plan_actions(push: bool, delete: bool, local: Store, remote: Store) -> (r: Actions)
    requires
        local.wf(),
        remote.wf(),
    ensures
        action_views(r@) == if push {
            actions_spec(local.entry_seq(), remote@) + if delete {
                removes_spec(remote.entry_seq(), local@)
            } else {
                Seq::empty()
            }
        } else {
            actions_spec(remote.entry_seq(), local@) + if delete {
                removes_spec(local.entry_seq(), remote@)
            } else {
                Seq::empty()
            }
        },
{
    let (mut actions, removes) = if push {
        get_actions(remote, local)
    } else {
        get_actions(local, remote)
    };
    let ghost first = action_views(actions@);
    let ghost rest = action_views(removes@);
    if delete {
        let mut removes = removes;
        let mut tail: Vec<(Vec<u8>, i64, crate::sync::Action)> = Vec::new();
        while removes.len() > 0
            invariant
                removes@.len() + tail@.len() == rest.len(),
                forall|i: int| 0 <= i < removes@.len() ==> (#[trigger] action_views(removes@)[i]) == rest[i],
                forall|i: int| 0 <= i < tail@.len() ==> (#[trigger] action_views(tail@)[i]) == rest[rest.len() - 1 - i],
            decreases removes@.len(),
        {
            let ghost r0 = removes@;
            let ghost t0 = tail@;
            let x = removes.pop().unwrap();
            proof {
                assert(r0 == removes@.push(x));
                assert(action_views(r0)[r0.len() - 1] == rest[r0.len() - 1]);
                assert forall|i: int| 0 <= i < removes@.len() implies (#[trigger] action_views(removes@)[i]) == rest[i] by {
                    assert(action_views(r0)[i] == action_views(removes@)[i]);
                }
            }
            tail.push(x);
            proof {
                assert forall|i: int| 0 <= i < tail@.len() implies (#[trigger] action_views(tail@)[i]) == rest[rest.len() - 1 - i] by {
                    if i < t0.len() {
                        assert(action_views(t0)[i] == action_views(tail@)[i]);
                    }
                }
            }
        }
        while tail.len() > 0
            invariant
                action_views(actions@) == first + rest.take(rest.len() - tail@.len()),
                tail@.len() <= rest.len(),
                forall|i: int| 0 <= i < tail@.len() ==> (#[trigger] action_views(tail@)[i]) == rest[rest.len() - 1 - i],
            decreases tail@.len(),
        {
            let ghost t0 = tail@;
            let ghost a0 = action_views(actions@);
            let x = tail.pop().unwrap();
            proof {
                assert(t0 == tail@.push(x));
                assert(action_views(t0)[t0.len() - 1] == rest[rest.len() - t0.len()]);
                assert forall|i: int| 0 <= i < tail@.len() implies (#[trigger] action_views(tail@)[i]) == rest[rest.len() - 1 - i] by {
                    assert(action_views(t0)[i] == action_views(tail@)[i]);
                }
            }
            actions.push(x);
            proof {
                let k = rest.len() - t0.len();
                assert(rest.take(k + 1) == rest.take(k).push(rest[k]));
                assert(action_views(actions@) =~= a0.push(rest[k]));
            }
        }
        proof {
            assert(rest.take(rest.len() as int) == rest);
        }
    } else {
        proof {
            assert(first + Seq::<(Seq<u8>, i64, crate::sync::Action)>::empty() == first);
        }
    }
    actions
}

/// What a sync does once the actions are known.
#[derive(Debug, Clone, Copy, PartialEq, Eq)]
pub enum SyncStep {
    /// Print the actions.
    ShowActions,
    /// Delete the local copy of the remote store.
    RemoveRemoteCopy,
    /// Perform the actions on the remote.
    PushActions,
    /// Send the local store to the remote.
    UploadStore,
    /// Perform the actions locally.
    PullActions,
    /// Make the copy of the remote store the local store.
    ReplaceLocalStore,
}

/// The steps after comparing the stores: a dry run shows the actions and
/// deletes the copy of the remote store; a push performs the actions, uploads
/// the local store and deletes the copy where one was fetched; a pull performs
/// the actions and makes the copy the local store.
pub fn finish_steps(push: bool, dry_run: bool, fetched: bool) -> (r: Vec<SyncStep>)
    ensures
        r@ == if dry_run {
            seq![SyncStep::ShowActions, SyncStep::RemoveRemoteCopy]
        } else if push {
            if fetched {
                seq![SyncStep::PushActions, SyncStep::UploadStore, SyncStep::RemoveRemoteCopy]
            } else {
                seq![SyncStep::PushActions, SyncStep::UploadStore]
            }
        } else {
            seq![SyncStep::PullActions, SyncStep::ReplaceLocalStore]
        },
{
    let mut steps: Vec<SyncStep> = Vec::new();
    if dry_run {
        steps.push(SyncStep::ShowActions);
        steps.push(SyncStep::RemoveRemoteCopy);
    } else if push {
        steps.push(SyncStep::PushActions);
        steps.push(SyncStep::UploadStore);
        if fetched {
            steps.push(SyncStep::RemoveRemoteCopy);
        }
    } else {
        steps.push(SyncStep::PullActions);
        steps.push(SyncStep::ReplaceLocalStore);
    }
    proof {
        if dry_run {
            assert(steps@ =~= seq![SyncStep::ShowActions, SyncStep::RemoveRemoteCopy]);
        } else if push {
            if fetched {
                assert(steps@ =~= seq![SyncStep::PushActions, SyncStep::UploadStore, SyncStep::RemoveRemoteCopy]);
            } else {
                assert(steps@ =~= seq![SyncStep::PushActions, SyncStep::UploadStore]);
            }
        } else {
            assert(steps@ =~= seq![SyncStep::PullActions, SyncStep::ReplaceLocalStore]);
        }
    }
    steps
}

/// The outcome of performing the actions, from whether each succeeded: the
/// transfer fails when any one did.
pub fn transfer_outcome(push: bool, succeeded: &Vec<bool>) -> (r: Result<(), SyncError>)
    ensures
        r == if forall|i: int| 0 <= i < succeeded@.len() ==> #[trigger] succeeded@[i] {
            Ok::<(), SyncError>(())
        } else if push {
            Err::<(), SyncError>(SyncError::UploadFailed)
        } else {
            Err::<(), SyncError>(SyncError::DownloadFailed)
        },
{
    let mut i: usize = 0;
    while i < succeeded.len()
        invariant
            i <= succeeded@.len(),
            forall|k: int| 0 <= k < i ==> #[trigger] succeeded@[k],
        decreases succeeded@.len() - i,
    {
        if !succeeded[i] {
            if push {
                return Err(SyncError::UploadFailed);
            } else {
                return Err(SyncError::DownloadFailed);
            }
        }
        i = i + 1;
    }
    Ok(())
}

} // verus!
