//! Reconciliation: a suggestion of which replica, if any, holds the version
//! of a differing path that is to be propagated to the others.
use vstd::prelude::*;
use crate::detect::Difference;
use crate::state::{ArchiveEntryPerReplica, exists_on_replica};

verus! {

/// The suggestion for one difference.
#[derive(Debug, Clone, Copy, PartialEq, Eq, Structural)]
pub enum Operation {
    /// The replica with this index is the one to propagate from.
    PropagateFromMaster(usize),
    /// The item was changed on several replicas, or on none, so no replica
    /// can be preferred.
    ItemChangedOnMultipleReplicas,
    /// The item differs and the archive has no previous state to tell which
    /// replica changed.
    ItemDiffersBetweenReplicasAndNoArchive,
}

/// `i` is the one replica whose state differs from its previous state.
pub open spec fn only_changed(
    cur: Seq<ArchiveEntryPerReplica>,
    prev: Seq<ArchiveEntryPerReplica>,
    i: int,
) -> bool {
    &&& 0 <= i < cur.len()
    &&& cur[i] != prev[i]
    &&& forall|k: int| 0 <= k < cur.len() && k != i ==> #[trigger] cur[k] == prev[k]
}

/// `i` is the one replica on which the path exists.
pub open spec fn only_present(cur: Seq<ArchiveEntryPerReplica>, i: int) -> bool {
    &&& 0 <= i < cur.len()
    &&& exists_on_replica(cur[i])
    &&& forall|k: int| 0 <= k < cur.len() && k != i ==> !exists_on_replica(#[trigger] cur[k])
}

/// The suggestion for `difference`. With a previous state: the one replica
/// whose state changed since then, or `ItemChangedOnMultipleReplicas` when
/// none or several did. Without one: the one replica on which the path
/// exists, or `ItemDiffersBetweenReplicasAndNoArchive`.
pub fn guess_operation(difference: &Difference) -> (r: Operation)
    requires
        difference.previous_state is Some ==> difference.previous_state->Some_0@.len()
            == difference.current_state@.len(),
    ensures
        ({
            let cur = difference.current_state@;
            let n = cur.len() as int;
            match difference.previous_state {
                Some(prev) => {
                    &&& r is PropagateFromMaster <==> exists|i: int| only_changed(cur, prev@, i)
                    &&& r is PropagateFromMaster ==> only_changed(cur, prev@, r->PropagateFromMaster_0 as int)
                    &&& !(r is PropagateFromMaster) ==> r is ItemChangedOnMultipleReplicas
                },
                None => {
                    &&& r is PropagateFromMaster <==> exists|i: int| only_present(cur, i)
                    &&& r is PropagateFromMaster ==> only_present(cur, r->PropagateFromMaster_0 as int)
                    &&& !(r is PropagateFromMaster) ==> r is ItemDiffersBetweenReplicasAndNoArchive
                },
            }
        }),
{
    let cur = &difference.current_state;
    let n = cur.len();
    match &difference.previous_state {
        Some(prev) => {
            let mut found: Option<usize> = None;
            let mut i: usize = 0;
            while i < n
                invariant
                    n == cur@.len(),
                    cur@ == difference.current_state@,
                    difference.previous_state == Some(*prev),
                    prev@.len() == n,
                    i <= n,
                    found is None ==> forall|k: int| 0 <= k < i ==> #[trigger] cur@[k] == prev@[k],
                    found is Some ==> {
                        let f = found->Some_0 as int;
                        &&& 0 <= f < i
                        &&& cur@[f] != prev@[f]
                        &&& forall|k: int| 0 <= k < i && k != f ==> #[trigger] cur@[k] == prev@[k]
                    },
                decreases n - i,
            {
                if cur[i] != prev[i] {
                    if found.is_some() {
                        proof {
                            let f = found->Some_0 as int;
                            assert forall|j: int| !only_changed(cur@, prev@, j) by {
                                if only_changed(cur@, prev@, j) {
                                    if j != f {
                                        assert(cur@[f] == prev@[f]);
                                    } else {
                                        assert(cur@[i as int] == prev@[i as int]);
                                    }
                                }
                            }
                        }
                        return Operation::ItemChangedOnMultipleReplicas;
                    }
                    found = Some(i);
                }
                i = i + 1;
            }
            match found {
                Some(m) => {
                    assert(only_changed(cur@, prev@, m as int));
                    Operation::PropagateFromMaster(m)
                },
                None => {
                    assert forall|j: int| !only_changed(cur@, prev@, j) by {
                        if 0 <= j < n {
                            assert(cur@[j] == prev@[j]);
                        }
                    }
                    Operation::ItemChangedOnMultipleReplicas
                },
            }
        },
        None => {
            let mut found: Option<usize> = None;
            let mut i: usize = 0;
            while i < n
                invariant
                    n == cur@.len(),
                    cur@ == difference.current_state@,
                    difference.previous_state is None,
                    i <= n,
                    found is None ==> forall|k: int| 0 <= k < i ==> !exists_on_replica(#[trigger] cur@[k]),
                    found is Some ==> {
                        let f = found->Some_0 as int;
                        &&& 0 <= f < i
                        &&& exists_on_replica(cur@[f])
                        &&& forall|k: int| 0 <= k < i && k != f ==> !exists_on_replica(#[trigger] cur@[k])
                    },
                decreases n - i,
            {
                if cur[i].entry_exists() {
                    if found.is_some() {
                        proof {
                            let f = found->Some_0 as int;
                            assert forall|j: int| !only_present(cur@, j) by {
                                if only_present(cur@, j) {
                                    if j != f {
                                        assert(!exists_on_replica(cur@[f]));
                                    } else {
                                        assert(!exists_on_replica(cur@[i as int]));
                                    }
                                }
                            }
                        }
                        return Operation::ItemDiffersBetweenReplicasAndNoArchive;
                    }
                    found = Some(i);
                }
                i = i + 1;
            }
            match found {
                Some(m) => {
                    assert(only_present(cur@, m as int));
                    Operation::PropagateFromMaster(m)
                },
                None => {
                    assert forall|j: int| !only_present(cur@, j) by {
                        if 0 <= j < n {
                            assert(!exists_on_replica(cur@[j]));
                        }
                    }
                    Operation::ItemDiffersBetweenReplicasAndNoArchive
                },
            }
        },
    }
}

} // verus!
