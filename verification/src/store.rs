//! What carrying out transfers does to the files on disk, as a model.

use vstd::prelude::*;
use crate::entry::TransferView;

verus! {

/// The regular files of a file system: the bytes of each, by its path.
pub type Store = Map<Seq<char>, Seq<u8>>;

/// The store after one transfer: the destination holds the bytes of the
/// source, and the source is gone if the transfer deletes it.
pub open spec fn perform(store: Store, operation: TransferView) -> Store {
    let copied = store.insert(operation.destination, store[operation.source]);
    if operation.delete_after {
        copied.remove(operation.source)
    } else {
        copied
    }
}

/// The store after `operations` have been carried out in order, or `None` if
/// one of them finds no file to read: the first failure ends the run.
pub open spec fn run(store: Store, operations: Seq<TransferView>) -> Option<Store>
    decreases operations.len(),
{
    if operations.len() == 0 {
        Some(store)
    } else {
        match run(store, operations.drop_last()) {
            Some(reached) => if reached.dom().contains(operations.last().source) {
                Some(perform(reached, operations.last()))
            } else {
                None
            },
            None => None,
        }
    }
}

/// Whether `path` is the same in both stores: absent from both, or present
/// in both with the same bytes.
pub open spec fn untouched(before: Store, after: Store, path: Seq<char>) -> bool {
    &&& after.dom().contains(path) == before.dom().contains(path)
    &&& before.dom().contains(path) ==> after[path] == before[path]
}

/// Whether `after` shows what `operation` was to do to `before`: the source
/// is gone if it was to be deleted and is unchanged if not, and the
/// destination holds the bytes the source had. Only a file that is copied
/// onto itself and then deleted does not arrive.
pub open spec fn carried_out(before: Store, after: Store, operation: TransferView) -> bool {
    &&& operation.delete_after ==> !after.dom().contains(operation.source)
    &&& !operation.delete_after ==> untouched(before, after, operation.source)
    &&& !(operation.delete_after && operation.source == operation.destination) ==> {
        &&& after.dom().contains(operation.destination)
        &&& after[operation.destination] == before[operation.source]
    }
}

/// Whether no two of `operations` meet: no two read the same path, no two
/// write the same path, and none writes what another reads.
pub open spec fn independent(operations: Seq<TransferView>) -> bool {
    forall|i: int, j: int|
        #![trigger operations[i], operations[j]]
        0 <= i < operations.len() && 0 <= j < operations.len() && i != j ==> {
            &&& operations[i].source != operations[j].source
            &&& operations[i].destination != operations[j].destination
            &&& operations[i].destination != operations[j].source
        }
}

/// Whether no operation reads or writes `path`.
pub open spec fn unnamed(operations: Seq<TransferView>, path: Seq<char>) -> bool {
    forall|k: int|
        0 <= k < operations.len() ==> {
            &&& (#[trigger] operations[k]).source != path
            &&& operations[k].destination != path
        }
}

/// A run changes nothing at a path that none of its operations names.
pub proof fn lemma_run_frame(store: Store, operations: Seq<TransferView>, path: Seq<char>)
    requires
        run(store, operations) is Some,
        unnamed(operations, path),
    ensures
        untouched(store, run(store, operations)->0, path),
    decreases operations.len(),
{
    if operations.len() > 0 {
        let earlier = operations.drop_last();
        assert(unnamed(earlier, path)) by {
            assert forall|k: int| 0 <= k < earlier.len() implies earlier[k] == operations[k] by {}
        }
        lemma_run_frame(store, earlier, path);
    }
}

/// Independent operations whose sources are all there run to the end, and
/// each of them is carried out.
pub proof fn lemma_run_independent(store: Store, operations: Seq<TransferView>)
    requires
        independent(operations),
        forall|k: int|
            0 <= k < operations.len() ==> store.dom().contains((#[trigger] operations[k]).source),
    ensures
        run(store, operations) is Some,
        forall|k: int|
            0 <= k < operations.len() ==> carried_out(
                store,
                run(store, operations)->0,
                #[trigger] operations[k],
            ),
    decreases operations.len(),
{
    if operations.len() > 0 {
        let earlier = operations.drop_last();
        let last = operations.last();
        assert forall|k: int| 0 <= k < earlier.len() implies earlier[k] == operations[k] by {}
        // The earlier operations run to their end, and leave alone what the
        // last one reads and writes.
        lemma_run_independent(store, earlier);
        assert(unnamed(earlier, last.source) && unnamed(earlier, last.destination));
        lemma_run_frame(store, earlier, last.source);
        lemma_run_frame(store, earlier, last.destination);
        // The last one, in turn, leaves alone what the earlier ones did.
        let reached = run(store, earlier)->0;
        assert forall|k: int| 0 <= k < operations.len() implies carried_out(
            store,
            perform(reached, last),
            #[trigger] operations[k],
        ) by {
            if k < earlier.len() {
                assert(carried_out(store, reached, earlier[k]));
            }
        }
    }
}

} // verus!
