//! What a pass guarantees, stated over the model of the files on disk.

use vstd::prelude::*;
use crate::entry::FileEntryView;
use crate::pass::{files_of, plan, quota, taken};
use crate::path::{
    below, file_name_of, is_file_name, join_spec, lemma_file_name_of_join, lemma_join_injective,
    pathize_spec,
};
use crate::store::{
    carried_out, independent, lemma_run_frame, lemma_run_independent, run, unnamed, untouched,
    Store,
};

verus! {

/// Whether `entries` can be the listing of a directory: every name is a file
/// name, and no name occurs twice.
pub open spec fn is_listing(entries: Seq<FileEntryView>) -> bool {
    &&& forall|i: int| 0 <= i < entries.len() ==> is_file_name((#[trigger] entries[i]).name)
    &&& forall|i: int, j: int|
        #![trigger entries[i], entries[j]]
        0 <= i < j < entries.len() ==> entries[i].name != entries[j].name
}

/// Whether `store` holds, below `folder_in`, every file that `entries` lists.
pub open spec fn holds_files(
    store: Store,
    folder_in: Seq<char>,
    entries: Seq<FileEntryView>,
) -> bool {
    forall|i: int|
        0 <= i < entries.len() && !(#[trigger] entries[i]).is_dir ==> store.dom().contains(
            join_spec(folder_in, entries[i].name),
        )
}

/// Whether a pass from `folder_in` to `folder_out` writes each file onto
/// itself.
pub open spec fn same_folder(folder_in: Seq<char>, folder_out: Seq<char>) -> bool {
    below(folder_in) == below(pathize_spec(seq![folder_out]))
}

/// The path below `folder_out` to which the file called `name` is written.
pub open spec fn destination_of(folder_out: Seq<char>, name: Seq<char>) -> Seq<char> {
    pathize_spec(seq![folder_out, name])
}

/// Whether `after` holds, below `folder_out` and under the name `name`, the
/// bytes that `before` held under that name below `folder_in`.
pub open spec fn arrived(
    before: Store,
    after: Store,
    folder_in: Seq<char>,
    folder_out: Seq<char>,
    name: Seq<char>,
) -> bool {
    &&& file_name_of(destination_of(folder_out, name)) == name
    &&& after.dom().contains(destination_of(folder_out, name))
    &&& after[destination_of(folder_out, name)] == before[join_spec(folder_in, name)]
}

/// The destination of a file lies directly below the destination folder.
proof fn lemma_destination(folder_out: Seq<char>, name: Seq<char>)
    ensures
        destination_of(folder_out, name) == join_spec(pathize_spec(seq![folder_out]), name),
{
    assert(seq![folder_out, name].drop_last() =~= seq![folder_out]);
}

/// The files of a listing are a listing themselves, and each of them is an
/// entry of the listing that is no directory.
proof fn lemma_files_of(entries: Seq<FileEntryView>)
    requires
        is_listing(entries),
    ensures
        is_listing(files_of(entries)),
        forall|k: int|
            0 <= k < files_of(entries).len() ==> {
                &&& !(#[trigger] files_of(entries)[k]).is_dir
                &&& entries.contains(files_of(entries)[k])
            },
    decreases entries.len(),
{
    let is_file = |entry: FileEntryView| !entry.is_dir;
    if entries.len() == 0 {
        entries.lemma_filter_len(is_file);
    } else {
        let earlier = entries.drop_last();
        let last = entries.last();
        assert(entries =~= earlier.push(last));
        lemma_files_of(earlier);
        earlier.lemma_filter_push(last, is_file);
        // No earlier file bears the name of the last entry.
        let files = files_of(earlier);
        assert forall|k: int| 0 <= k < files.len() implies entries.contains(#[trigger] files[k])
            && files[k].name != last.name by {
            let i = choose|i: int| 0 <= i < earlier.len() && earlier[i] == files[k];
            assert(entries[i] == files[k]);
        }
    }
}

/// What holds of every pass over a listing whose files are there: each
/// operation transfers one of the files taken, no two operations meet, the
/// run reaches its end, and every operation is carried out.
proof fn lemma_pass(
    folder_in: Seq<char>,
    folder_out: Seq<char>,
    entries: Seq<FileEntryView>,
    is_delete: bool,
    count: int,
    before: Store,
)
    requires
        is_listing(entries),
        holds_files(before, folder_in, entries),
    ensures
        forall|k: int|
            0 <= k < taken(entries, count).len() ==> {
                &&& (#[trigger] taken(entries, count)[k]) == files_of(entries)[k]
                &&& before.dom().contains(join_spec(folder_in, files_of(entries)[k].name))
            },
        independent(plan(folder_in, folder_out, entries, is_delete, count)),
        run(before, plan(folder_in, folder_out, entries, is_delete, count)) is Some,
        forall|k: int|
            0 <= k < plan(folder_in, folder_out, entries, is_delete, count).len()
                ==> carried_out(
                before,
                run(before, plan(folder_in, folder_out, entries, is_delete, count))->0,
                #[trigger] plan(folder_in, folder_out, entries, is_delete, count)[k],
            ),
{
    let files = files_of(entries);
    let operations = plan(folder_in, folder_out, entries, is_delete, count);
    let folder = pathize_spec(seq![folder_out]);
    lemma_files_of(entries);
    assert forall|k: int| 0 <= k < taken(entries, count).len() implies before.dom().contains(
        join_spec(folder_in, (#[trigger] taken(entries, count)[k]).name),
    ) by {
        let i = choose|i: int| 0 <= i < entries.len() && entries[i] == files[k];
        assert(!entries[i].is_dir);
    }
    // Two paths meet only where two names do, and no two files share one.
    assert forall|i: int, j: int|
        #![trigger operations[i], operations[j]]
        0 <= i < operations.len() && 0 <= j < operations.len() && i != j implies {
        &&& operations[i].source != operations[j].source
        &&& operations[i].destination != operations[j].destination
        &&& operations[i].destination != operations[j].source
    } by {
        let here = files[i].name;
        let there = files[j].name;
        assert(here != there) by {
            if i < j {
                assert(files[i].name != files[j].name);
            } else {
                assert(files[j].name != files[i].name);
            }
        }
        lemma_destination(folder_out, here);
        lemma_destination(folder_out, there);
        if operations[i].source == operations[j].source {
            lemma_join_injective(folder_in, here, folder_in, there);
        }
        if operations[i].destination == operations[j].destination {
            lemma_join_injective(folder, here, folder, there);
        }
        if operations[i].destination == operations[j].source {
            lemma_join_injective(folder, here, folder_in, there);
        }
    }
    lemma_run_independent(before, operations);
}

/// Neither the path below `folder_in` nor the path below `folder_out` of a
/// name that no transferred file bears is read or written by the pass.
proof fn lemma_passed_over(
    folder_in: Seq<char>,
    folder_out: Seq<char>,
    entries: Seq<FileEntryView>,
    is_delete: bool,
    count: int,
    name: Seq<char>,
)
    requires
        is_listing(entries),
        is_file_name(name),
        forall|k: int|
            0 <= k < taken(entries, count).len() ==> (#[trigger] taken(entries, count)[k]).name
                != name,
    ensures
        unnamed(
            plan(folder_in, folder_out, entries, is_delete, count),
            join_spec(folder_in, name),
        ),
        unnamed(
            plan(folder_in, folder_out, entries, is_delete, count),
            destination_of(folder_out, name),
        ),
{
    let operations = plan(folder_in, folder_out, entries, is_delete, count);
    let folder = pathize_spec(seq![folder_out]);
    lemma_files_of(entries);
    lemma_destination(folder_out, name);
    assert forall|k: int| 0 <= k < operations.len() implies {
        &&& (#[trigger] operations[k]).source != join_spec(folder_in, name)
        &&& operations[k].destination != join_spec(folder_in, name)
        &&& operations[k].source != destination_of(folder_out, name)
        &&& operations[k].destination != destination_of(folder_out, name)
    } by {
        let file = taken(entries, count)[k];
        assert(file == files_of(entries)[k] && file.name != name);
        lemma_destination(folder_out, file.name);
        if operations[k].source == join_spec(folder_in, name) {
            lemma_join_injective(folder_in, file.name, folder_in, name);
        }
        if operations[k].destination == join_spec(folder_in, name) {
            lemma_join_injective(folder, file.name, folder_in, name);
        }
        if operations[k].source == destination_of(folder_out, name) {
            lemma_join_injective(folder_in, file.name, folder, name);
        }
        if operations[k].destination == destination_of(folder_out, name) {
            lemma_join_injective(folder, file.name, folder, name);
        }
    }
}

/// A pass that takes every file delivers every file: when it has run, the
/// destination folder holds, under each file's own name, the bytes that the
/// source folder held under that name when the pass began.
///
/// This is not so where the pass deletes what it has copied and the two
/// folders are one: there each file is written onto itself and then removed.
pub proof fn lemma_every_file_arrives(
    folder_in: Seq<char>,
    folder_out: Seq<char>,
    entries: Seq<FileEntryView>,
    is_delete: bool,
    count: int,
    before: Store,
)
    requires
        is_listing(entries),
        holds_files(before, folder_in, entries),
        quota(count, files_of(entries).len()) == files_of(entries).len(),
        is_delete && same_folder(folder_in, folder_out) ==> files_of(entries).len() == 0,
    ensures
        run(before, plan(folder_in, folder_out, entries, is_delete, count)) is Some,
        forall|k: int|
            0 <= k < files_of(entries).len() ==> arrived(
                before,
                run(before, plan(folder_in, folder_out, entries, is_delete, count))->0,
                folder_in,
                folder_out,
                (#[trigger] files_of(entries)[k]).name,
            ),
{
    let files = files_of(entries);
    let operations = plan(folder_in, folder_out, entries, is_delete, count);
    let folder = pathize_spec(seq![folder_out]);
    lemma_pass(folder_in, folder_out, entries, is_delete, count, before);
    lemma_files_of(entries);
    let after = run(before, operations)->0;
    assert forall|k: int| 0 <= k < files.len() implies arrived(
        before,
        after,
        folder_in,
        folder_out,
        (#[trigger] files[k]).name,
    ) by {
        let name = files[k].name;
        assert(taken(entries, count)[k] == files[k]);
        assert(carried_out(before, after, operations[k]));
        lemma_destination(folder_out, name);
        lemma_file_name_of_join(folder, name);
        if operations[k].source == operations[k].destination {
            lemma_join_injective(folder_in, name, folder, name);
        }
    }
}

/// Whether a transferred file is still in the source folder after the pass
/// is decided by `is_delete` alone: if it is set the file is gone, and if not
/// the file is there as it was.
pub proof fn lemma_delete_decides_source(
    folder_in: Seq<char>,
    folder_out: Seq<char>,
    entries: Seq<FileEntryView>,
    is_delete: bool,
    count: int,
    before: Store,
)
    requires
        is_listing(entries),
        holds_files(before, folder_in, entries),
    ensures
        run(before, plan(folder_in, folder_out, entries, is_delete, count)) is Some,
        forall|k: int|
            0 <= k < taken(entries, count).len() ==> {
                let after = run(
                    before,
                    plan(folder_in, folder_out, entries, is_delete, count),
                )->0;
                let source = join_spec(folder_in, (#[trigger] taken(entries, count)[k]).name);
                &&& is_delete ==> !after.dom().contains(source)
                &&& !is_delete ==> after.dom().contains(source) && after[source] == before[source]
            },
{
    let operations = plan(folder_in, folder_out, entries, is_delete, count);
    lemma_pass(folder_in, folder_out, entries, is_delete, count, before);
    let after = run(before, operations)->0;
    assert forall|k: int| 0 <= k < taken(entries, count).len() implies {
        let source = join_spec(folder_in, (#[trigger] taken(entries, count)[k]).name);
        &&& is_delete ==> !after.dom().contains(source)
        &&& !is_delete ==> after.dom().contains(source) && after[source] == before[source]
    } by {
        assert(carried_out(before, after, operations[k]));
    }
}

/// A pass bounded by a count that is smaller than the number of files
/// transfers exactly that many, the first of the listing, and leaves the
/// others alone: nothing changes at their paths, in the source folder or in
/// the destination folder.
pub proof fn lemma_bounded_pass(
    folder_in: Seq<char>,
    folder_out: Seq<char>,
    entries: Seq<FileEntryView>,
    is_delete: bool,
    count: int,
    before: Store,
)
    requires
        is_listing(entries),
        holds_files(before, folder_in, entries),
        0 <= count < files_of(entries).len(),
    ensures
        plan(folder_in, folder_out, entries, is_delete, count).len() == count,
        taken(entries, count) == files_of(entries).take(count),
        run(before, plan(folder_in, folder_out, entries, is_delete, count)) is Some,
        forall|k: int|
            count <= k < files_of(entries).len() ==> {
                let after = run(
                    before,
                    plan(folder_in, folder_out, entries, is_delete, count),
                )->0;
                let name = (#[trigger] files_of(entries)[k]).name;
                &&& untouched(before, after, join_spec(folder_in, name))
                &&& untouched(before, after, destination_of(folder_out, name))
            },
{
    let files = files_of(entries);
    let operations = plan(folder_in, folder_out, entries, is_delete, count);
    lemma_pass(folder_in, folder_out, entries, is_delete, count, before);
    lemma_files_of(entries);
    let after = run(before, operations)->0;
    assert forall|k: int| count <= k < files.len() implies {
        let name = (#[trigger] files[k]).name;
        &&& untouched(before, after, join_spec(folder_in, name))
        &&& untouched(before, after, destination_of(folder_out, name))
    } by {
        let name = files[k].name;
        assert forall|j: int| 0 <= j < count implies (#[trigger] taken(entries, count)[j]).name
            != name by {
            assert(files[j].name != files[k].name);
        }
        lemma_passed_over(folder_in, folder_out, entries, is_delete, count, name);
        lemma_run_frame(before, operations, join_spec(folder_in, name));
        lemma_run_frame(before, operations, destination_of(folder_out, name));
    }
}

/// A pass leaves directories alone: no operation reads, removes or writes the
/// path of a listed directory, none writes under a directory's name in the
/// destination folder, and whatever run the operations take changes nothing
/// at either path.
pub proof fn lemma_directories_left_alone(
    folder_in: Seq<char>,
    folder_out: Seq<char>,
    entries: Seq<FileEntryView>,
    is_delete: bool,
    count: int,
    before: Store,
)
    requires
        is_listing(entries),
    ensures
        forall|i: int|
            0 <= i < entries.len() && (#[trigger] entries[i]).is_dir ==> {
                let operations = plan(folder_in, folder_out, entries, is_delete, count);
                let path = join_spec(folder_in, entries[i].name);
                let twin = destination_of(folder_out, entries[i].name);
                &&& unnamed(operations, path)
                &&& unnamed(operations, twin)
                &&& run(before, operations) is Some ==> {
                    &&& untouched(before, run(before, operations)->0, path)
                    &&& untouched(before, run(before, operations)->0, twin)
                }
            },
{
    let files = files_of(entries);
    let operations = plan(folder_in, folder_out, entries, is_delete, count);
    lemma_files_of(entries);
    assert forall|i: int| 0 <= i < entries.len() && (#[trigger] entries[i]).is_dir implies {
        let path = join_spec(folder_in, entries[i].name);
        let twin = destination_of(folder_out, entries[i].name);
        &&& unnamed(operations, path)
        &&& unnamed(operations, twin)
        &&& run(before, operations) is Some ==> {
            &&& untouched(before, run(before, operations)->0, path)
            &&& untouched(before, run(before, operations)->0, twin)
        }
    } by {
        let name = entries[i].name;
        // A file taken is an entry other than this one, so it has another name.
        assert forall|k: int| 0 <= k < taken(entries, count).len() implies (
        #[trigger] taken(entries, count)[k]).name != name by {
            let j = choose|j: int| 0 <= j < entries.len() && entries[j] == files[k];
            assert(!entries[j].is_dir);
        }
        lemma_passed_over(folder_in, folder_out, entries, is_delete, count, name);
        if run(before, operations) is Some {
            lemma_run_frame(before, operations, join_spec(folder_in, name));
            lemma_run_frame(before, operations, destination_of(folder_out, name));
        }
    }
}

} // verus!
