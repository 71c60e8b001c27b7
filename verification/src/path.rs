//! Paths as strings, with `/` between their components.

use vstd::prelude::*;

verus! {

/// The character that separates the components of a path.
pub const SEPARATOR: char = '/';

/// Whether `path` starts at the root of the file system.
pub open spec fn is_absolute(path: Seq<char>) -> bool {
    path.len() > 0 && path[0] == SEPARATOR
}

/// `part` adjoined to `base`: an absolute `part` replaces `base`; otherwise
/// `part` follows `base`, with one separator between them unless `base` is
/// empty or already ends in one.
pub open spec fn join_spec(base: Seq<char>, part: Seq<char>) -> Seq<char> {
    if is_absolute(part) {
        part
    } else if base.len() > 0 && base.last() != SEPARATOR {
        base + seq![SEPARATOR] + part
    } else {
        base + part
    }
}

/// The path that starts at the current directory, `.`, and to which each of
/// `parts` is adjoined in turn.
pub open spec fn pathize_spec(parts: Seq<Seq<char>>) -> Seq<char>
    decreases parts.len(),
{
    if parts.len() == 0 {
        seq!['.']
    } else {
        join_spec(pathize_spec(parts.drop_last()), parts.last())
    }
}

/// The strings that a list of string slices holds.
pub open spec fn views(parts: Seq<&str>) -> Seq<Seq<char>> {
    parts.map_values(|part: &str| part@)
}

/// Whether `name` can be the name of a directory's child: it is not empty
/// and holds no separator.
pub open spec fn is_file_name(name: Seq<char>) -> bool {
    name.len() > 0 && !name.contains(SEPARATOR)
}

/// What the path of every child of `folder` begins with.
pub open spec fn below(folder: Seq<char>) -> Seq<char> {
    join_spec(folder, Seq::empty())
}

/// What follows the last separator of `path`; all of it where it holds none.
pub open spec fn file_name_of(path: Seq<char>) -> Seq<char>
    decreases path.len(),
{
    if path.len() == 0 || path.last() == SEPARATOR {
        Seq::empty()
    } else {
        file_name_of(path.drop_last()).push(path.last())
    }
}

/// The path of a child is the folder's prefix followed by the child's name.
pub proof fn lemma_join_below(folder: Seq<char>, name: Seq<char>)
    requires
        is_file_name(name),
    ensures
        join_spec(folder, name) == below(folder) + name,
        below(folder).len() == 0 || below(folder).last() == SEPARATOR,
{
    assert(!is_absolute(name));
}

/// Adjoining a name to a folder gives a path that ends in that name.
pub proof fn lemma_file_name_of_join(folder: Seq<char>, name: Seq<char>)
    requires
        is_file_name(name),
    ensures
        file_name_of(join_spec(folder, name)) == name,
{
    lemma_join_below(folder, name);
    lemma_file_name_after(below(folder), name);
}

/// The name is found again behind a prefix that is empty or ends in a
/// separator.
proof fn lemma_file_name_after(prefix: Seq<char>, name: Seq<char>)
    requires
        prefix.len() == 0 || prefix.last() == SEPARATOR,
        !name.contains(SEPARATOR),
    ensures
        file_name_of(prefix + name) == name,
    decreases name.len(),
{
    if name.len() > 0 {
        let shorter = name.drop_last();
        assert forall|c: char| shorter.contains(c) implies name.contains(c) by {
            let i = choose|i: int| 0 <= i < shorter.len() && shorter[i] == c;
            assert(name[i] == c);
        }
        lemma_file_name_after(prefix, shorter);
        assert((prefix + name).drop_last() =~= prefix + shorter);
    }
}

/// Two children have the same path only if they have the same name and their
/// folders the same prefix.
pub proof fn lemma_join_injective(
    folder: Seq<char>,
    name: Seq<char>,
    other_folder: Seq<char>,
    other_name: Seq<char>,
)
    requires
        is_file_name(name),
        is_file_name(other_name),
        join_spec(folder, name) == join_spec(other_folder, other_name),
    ensures
        name == other_name,
        below(folder) == below(other_folder),
{
    lemma_file_name_of_join(folder, name);
    lemma_file_name_of_join(other_folder, other_name);
    lemma_join_below(folder, name);
    lemma_join_below(other_folder, other_name);
    // Both prefixes are what is left of the one path before the one name.
    let path = join_spec(folder, name);
    assert(below(folder) =~= path.subrange(0, path.len() - name.len()));
    assert(below(other_folder) =~= path.subrange(0, path.len() - name.len()));
}

/// Adjoins `part` to `base`.
pub fn join(base: &str, part: &str) -> (joined: String)
    ensures
        joined@ == join_spec(base@, part@),
{
    let part_len: usize = part.unicode_len();
    if part_len > 0 && part.get_char(0) == SEPARATOR {
        return String::from_str(part);
    }
    let mut joined = String::from_str(base);
    let base_len: usize = base.unicode_len();
    if base_len > 0 && base.get_char(base_len - 1) != SEPARATOR {
        proof {
            reveal_strlit("/");
        }
        joined.append("/");
    }
    joined.append(part);
    joined
}

/// Builds a path from the current directory through each of `parts`.
pub fn pathize(parts: &[&str]) -> (path: String)
    ensures
        path@ == pathize_spec(views(parts@)),
{
    proof {
        reveal_strlit(".");
    }
    let mut path = String::from_str(".");
    let mut done: usize = 0;
    while done < parts.len()
        invariant
            done <= parts.len(),
            path@ == pathize_spec(views(parts@).take(done as int)),
        decreases parts.len() - done,
    {
        proof {
            let ahead = views(parts@).take(done + 1);
            assert(ahead.drop_last() =~= views(parts@).take(done as int));
            assert(ahead.last() == parts@[done as int]@);
        }
        path = join(path.as_str(), parts[done]);
        done += 1;
    }
    proof {
        assert(views(parts@).take(done as int) =~= views(parts@));
    }
    path
}

} // verus!
