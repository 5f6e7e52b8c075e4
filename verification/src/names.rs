use vstd::prelude::*;

verus! {

/// The character sequences of a list of strings.
pub open spec fn names_of(strings: Seq<String>) -> Seq<Seq<char>> {
    strings.map_values(|s: String| s@)
}

/// A table of names after `name` was looked up in it: a new name goes to the end.
pub open spec fn intern_step(table: Seq<Seq<char>>, name: Seq<char>) -> Seq<Seq<char>> {
    if table.contains(name) {
        table
    } else {
        table.push(name)
    }
}

/// A table of names after each of `names` was looked up in it, in order.
pub open spec fn intern_into(table: Seq<Seq<char>>, names: Seq<Seq<char>>) -> Seq<Seq<char>>
    decreases names.len(),
{
    if names.len() == 0 {
        table
    } else {
        intern_step(intern_into(table, names.drop_last()), names.last())
    }
}

/// The distinct names of a list, in the order of their first occurrence.
pub open spec fn interned(names: Seq<Seq<char>>) -> Seq<Seq<char>> {
    intern_into(Seq::empty(), names)
}

/// The handle of a name: its place in the table.
pub open spec fn handle_of(table: Seq<Seq<char>>, name: Seq<char>) -> usize {
    table.index_of(name) as usize
}

/// In a table without repeats a name stands at one place only.
pub proof fn lemma_handle_of(table: Seq<Seq<char>>, name: Seq<char>, i: int)
    requires
        table.no_duplicates(),
        0 <= i < table.len(),
        table[i] == name,
        table.len() <= usize::MAX,
    ensures
        handle_of(table, name) == i,
        table.contains(name),
{
}

/// Looking a name up keeps a table free of repeats and keeps every handle.
pub proof fn lemma_intern_step(table: Seq<Seq<char>>, name: Seq<char>)
    requires
        table.no_duplicates(),
    ensures
        intern_step(table, name).no_duplicates(),
        intern_step(table, name).contains(name),
        table.len() <= intern_step(table, name).len() <= table.len() + 1,
        forall|i: int| 0 <= i < table.len() ==> intern_step(table, name)[i] == table[i],
        forall|other: Seq<char>| table.contains(other) ==> intern_step(table, name).contains(other),
{
    let next = intern_step(table, name);
    if !table.contains(name) {
        assert(next[table.len() as int] == name);
        assert forall|other: Seq<char>| table.contains(other) implies next.contains(other) by {
            let i = table.index_of(other);
            assert(next[i] == other);
        }
    }
}

/// The place of `name` in the table, if it is there.
pub(crate) fn find_name(table: &Vec<String>, name: &String) -> (found: Option<usize>)
    ensures
        match found {
            Some(i) => i < table.len() && table[i as int]@ == name@,
            None => !names_of(table@).contains(name@),
        },
{
    let mut i: usize = 0;
    while i < table.len()
        invariant
            i <= table.len(),
            forall|j: int| 0 <= j < i ==> table[j]@ != name@,
        decreases table.len() - i,
    {
        if table[i] == *name {
            return Some(i);
        }
        i += 1;
    }
    None
}

/// Looks `name` up in the table, adding it at the end if it is new.
pub(crate) fn intern(table: &mut Vec<String>, name: &String) -> (handle: usize)
    ensures
        names_of(final(table)@) == intern_step(names_of(old(table)@), name@),
        handle < final(table).len(),
        final(table)[handle as int]@ == name@,
        old(table).len() <= final(table).len(),
        forall|i: int| 0 <= i < old(table).len() ==> final(table)[i] == old(table)[i],
{
    match find_name(table, name) {
        Some(found) => {
            assert(names_of(table@)[found as int] == name@);
            found
        },
        None => {
            let next_index = table.len();
            table.push(name.clone());
            assert(names_of(table@) =~= names_of(old(table)@).push(name@));
            next_index
        },
    }
}

/// Looking up one list of names after another is looking up their concatenation.
pub proof fn lemma_intern_into_concat(
    table: Seq<Seq<char>>,
    first: Seq<Seq<char>>,
    second: Seq<Seq<char>>,
)
    ensures
        intern_into(table, first + second) == intern_into(intern_into(table, first), second),
    decreases second.len(),
{
    if second.len() == 0 {
        assert(first + second =~= first);
    } else {
        lemma_intern_into_concat(table, first, second.drop_last());
        assert((first + second).drop_last() =~= first + second.drop_last());
        assert((first + second).last() == second.last());
    }
}

/// A name that is in a table keeps its handle when the table grows.
pub proof fn lemma_handle_stable(earlier: Seq<Seq<char>>, later: Seq<Seq<char>>, name: Seq<char>)
    requires
        earlier.contains(name),
        later.no_duplicates(),
        earlier.len() <= later.len() <= usize::MAX,
        forall|i: int| 0 <= i < earlier.len() ==> later[i] == earlier[i],
    ensures
        handle_of(later, name) == handle_of(earlier, name),
        handle_of(earlier, name) < earlier.len(),
{
    let i = earlier.index_of(name);
    lemma_handle_of(later, name, i);
}

} // verus!
