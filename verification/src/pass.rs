//! One pass over the source directory: which of its entries are transferred,
//! and where to.

use vstd::prelude::*;
use crate::entry::{FileEntry, FileEntryView, TransferOperation, TransferView};
use crate::path::{join, join_spec, pathize, pathize_spec, views};

verus! {

/// The count that puts no bound on a pass.
pub const UNBOUNDED: i16 = -1;

/// The entries of a listing that a pass may transfer: all but the
/// directories, in the order of the listing.
pub open spec fn files_of(entries: Seq<FileEntryView>) -> Seq<FileEntryView> {
    entries.filter(|entry: FileEntryView| !entry.is_dir)
}

/// How many files a pass transfers when `available` of them are listed:
/// all of them when `count` is [`UNBOUNDED`], at most `count` when it is
/// zero or more, and none for any other negative `count`.
pub open spec fn quota(count: int, available: nat) -> nat {
    if count == UNBOUNDED {
        available
    } else if count < 0 {
        0
    } else if count < available {
        count as nat
    } else {
        available
    }
}

/// The transfer of the file called `name`: read from under `folder_in`,
/// written under the same name below `folder_out`, itself taken from the
/// current directory.
pub open spec fn operation_for(
    folder_in: Seq<char>,
    folder_out: Seq<char>,
    name: Seq<char>,
    is_delete: bool,
) -> TransferView {
    TransferView {
        source: join_spec(folder_in, name),
        destination: pathize_spec(seq![folder_out, name]),
        delete_after: is_delete,
    }
}

/// The transfers of `files`, one each, in order.
pub open spec fn operations_for(
    folder_in: Seq<char>,
    folder_out: Seq<char>,
    files: Seq<FileEntryView>,
    is_delete: bool,
) -> Seq<TransferView> {
    files.map_values(
        |file: FileEntryView| operation_for(folder_in, folder_out, file.name, is_delete),
    )
}

/// The files that a pass takes from a listing: the first [`quota`] of them.
pub open spec fn taken(entries: Seq<FileEntryView>, count: int) -> Seq<FileEntryView> {
    let files = files_of(entries);
    files.take(quota(count, files.len()) as int)
}

/// What one pass does with a listing: the files it takes are transferred,
/// in the order of the listing.
pub open spec fn plan(
    folder_in: Seq<char>,
    folder_out: Seq<char>,
    entries: Seq<FileEntryView>,
    is_delete: bool,
    count: int,
) -> Seq<TransferView> {
    operations_for(folder_in, folder_out, taken(entries, count), is_delete)
}

/// Extending a listing by one entry extends its plan by that entry's
/// transfer exactly when the entry is a file and the quota is not yet used up.
proof fn lemma_plan_push(
    folder_in: Seq<char>,
    folder_out: Seq<char>,
    entries: Seq<FileEntryView>,
    entry: FileEntryView,
    is_delete: bool,
    count: int,
)
    ensures
        plan(folder_in, folder_out, entries.push(entry), is_delete, count) == if !entry.is_dir
            && (count == UNBOUNDED || files_of(entries).len() < count) {
            plan(folder_in, folder_out, entries, is_delete, count).push(
                operation_for(folder_in, folder_out, entry.name, is_delete),
            )
        } else {
            plan(folder_in, folder_out, entries, is_delete, count)
        },
{
    entries.lemma_filter_push(entry, |entry: FileEntryView| !entry.is_dir);
    let kept_before = taken(entries, count);
    let kept_after = taken(entries.push(entry), count);
    if !entry.is_dir && (count == UNBOUNDED || files_of(entries).len() < count) {
        assert(kept_after =~= kept_before.push(entry));
        assert(operations_for(folder_in, folder_out, kept_after, is_delete)
            =~= operations_for(folder_in, folder_out, kept_before, is_delete).push(
            operation_for(folder_in, folder_out, entry.name, is_delete),
        ));
    } else {
        assert(kept_after =~= kept_before);
    }
}

/// An empty listing has an empty plan.
proof fn lemma_plan_of_nothing(
    folder_in: Seq<char>,
    folder_out: Seq<char>,
    is_delete: bool,
    count: int,
)
    ensures
        plan(folder_in, folder_out, Seq::empty(), is_delete, count) == Seq::<TransferView>::empty(),
{
    reveal(Seq::filter);
    assert(plan(folder_in, folder_out, Seq::empty(), is_delete, count) =~= Seq::<
        TransferView,
    >::empty());
}

/// Plans one pass over the source directory `folder_in`, whose listing is
/// `entries`, towards the destination directory `folder_out`.
///
/// Directories are passed over. Each file is transferred under its own name,
/// and marked for removal from the source if `is_delete` is set, until
/// `count` files have been taken; [`UNBOUNDED`] takes them all.
pub fn start(
    folder_in: &str,
    folder_out: &str,
    entries: &Vec<FileEntry>,
    is_delete: bool,
    count: i16,
) -> (operations: Vec<TransferOperation>)
    ensures
        operations.deep_view() == plan(
            folder_in@,
            folder_out@,
            entries.deep_view(),
            is_delete,
            count as int,
        ),
        operations.len() == quota(count as int, files_of(entries.deep_view()).len()),
{
    let mut operations: Vec<TransferOperation> = Vec::new();
    let mut left: i16 = count;
    let mut seen: usize = 0;
    proof {
        assert(entries.deep_view().take(0) =~= Seq::<FileEntryView>::empty());
        lemma_plan_of_nothing(folder_in@, folder_out@, is_delete, count as int);
    }
    while seen < entries.len()
        invariant
            seen <= entries.len(),
            operations.deep_view() == plan(
                folder_in@,
                folder_out@,
                entries.deep_view().take(seen as int),
                is_delete,
                count as int,
            ),
            count < 0 ==> left == count,
            count >= 0 ==> left == count - quota(
                count as int,
                files_of(entries.deep_view().take(seen as int)).len(),
            ),
        decreases entries.len() - seen,
    {
        let entry = &entries[seen];
        proof {
            let listed = entries.deep_view();
            assert(listed.take(seen + 1) =~= listed.take(seen as int).push(entry@));
            lemma_plan_push(
                folder_in@,
                folder_out@,
                listed.take(seen as int),
                entry@,
                is_delete,
                count as int,
            );
            listed.take(seen as int).lemma_filter_push(
                entry@,
                |entry: FileEntryView| !entry.is_dir,
            );
        }
        if !entry.is_dir && (left > 0 || left == UNBOUNDED) {
            let name = entry.name.as_str();
            let parts: [&str; 2] = [folder_out, name];
            proof {
                assert(views(parts@) =~= seq![folder_out@, name@]);
            }
            let operation = TransferOperation {
                source: join(folder_in, name),
                destination: pathize(parts.as_slice()),
                delete_after: is_delete,
            };
            let ghost planned = operations.deep_view();
            operations.push(operation);
            proof {
                assert(operations.deep_view() =~= planned.push(operation@));
            }
            if left > 0 {
                left = left - 1;
            }
        }
        seen += 1;
    }
    proof {
        assert(entries.deep_view().take(seen as int) =~= entries.deep_view());
    }
    operations
}

} // verus!
