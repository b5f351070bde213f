//! Lists of names: a path inside an image is the list of the names that
//! lead to it, outermost first.
use vstd::prelude::*;
use vstd::string::*;

verus! {

/// The text of each name in a list.
pub open spec fn texts(names: Seq<String>) -> Seq<Seq<char>> {
    names.map_values(|name: String| name@)
}

/// `names`, joined by `separator`.
pub open spec fn joined(names: Seq<Seq<char>>, separator: Seq<char>) -> Seq<char>
    decreases names.len(),
{
    if names.len() == 0 {
        Seq::empty()
    } else if names.len() == 1 {
        names[0]
    } else {
        joined(names.drop_last(), separator) + separator + names.last()
    }
}

/// A copy of a list of names.
pub fn clone_names(names: &Vec<String>) -> (copy: Vec<String>)
    ensures
        texts(copy@) == texts(names@),
{
    let mut copy: Vec<String> = Vec::new();
    let mut i: usize = 0;
    while i < names.len()
        invariant
            i <= names.len(),
            texts(copy@) == texts(names@.take(i as int)),
        decreases names.len() - i,
    {
        let ghost before = copy@;
        copy.push(names[i].clone());
        assert(texts(copy@) == texts(before).push(names@[i as int]@));
        assert(texts(names@.take(i + 1)) == texts(names@.take(i as int)).push(names@[i as int]@));
        i = i + 1;
    }
    assert(names@.take(i as int) == names@);
    copy
}

/// The names of `parent`, followed by `name`.
pub fn child_names(parent: &Vec<String>, name: &String) -> (child: Vec<String>)
    ensures
        texts(child@) == texts(parent@).push(name@),
{
    let mut child = clone_names(parent);
    let ghost before = child@;
    child.push(name.clone());
    assert(texts(child@) == texts(before).push(name@));
    child
}

/// The names joined by `separator`: `["a", "b", "c.txt"]` and `"/"` give
/// `"a/b/c.txt"`.
pub fn join(names: &Vec<String>, separator: &str) -> (path: String)
    ensures
        path@ == joined(texts(names@), separator@),
{
    let mut path = String::new();
    let mut i: usize = 0;
    while i < names.len()
        invariant
            i <= names.len(),
            path@ == joined(texts(names@.take(i as int)), separator@),
        decreases names.len() - i,
    {
        let ghost before = texts(names@.take(i as int));
        let ghost after = texts(names@.take(i + 1));
        assert(after.drop_last() == before);
        assert(after.last() == names@[i as int]@);
        if i > 0 {
            path.append(separator);
        }
        path.append(names[i].as_str());
        i = i + 1;
    }
    assert(names@.take(i as int) == names@);
    path
}

/// The place of the last `c` in `s`, or -1 where there is none.
pub open spec fn last_index_of(s: Seq<char>, c: char) -> int
    decreases s.len(),
{
    if s.len() == 0 {
        -1
    } else if s.last() == c {
        s.len() - 1
    } else {
        last_index_of(s.drop_last(), c)
    }
}

/// The names that `path` holds between its separators.
pub open spec fn split(path: Seq<char>, separator: char) -> Seq<Seq<char>>
    decreases path.len(),
{
    let at = last_index_of(path, separator);
    if 0 <= at < path.len() {
        split(path.take(at), separator).push(path.skip(at + 1))
    } else {
        seq![path]
    }
}

/// No name holds the separator.
pub open spec fn free_of(names: Seq<Seq<char>>, separator: char) -> bool {
    forall|i: int| 0 <= i < names.len() ==> !(#[trigger] names[i]).contains(separator)
}

proof fn lemma_last_index_of(before: Seq<char>, c: char, after: Seq<char>)
    requires
        !after.contains(c),
    ensures
        last_index_of(after, c) == -1,
        last_index_of(before + seq![c] + after, c) == before.len(),
    decreases after.len(),
{
    let s = before + seq![c] + after;
    if after.len() == 0 {
        assert(s.last() == c);
    } else {
        assert(after.last() == after[after.len() - 1]);
        assert(s.last() == after.last());
        assert forall|i: int| 0 <= i < after.drop_last().len() implies after.drop_last()[i]
            != c by {
            assert(after.drop_last()[i] == after[i]);
        }
        assert(s.drop_last() == before + seq![c] + after.drop_last());
        lemma_last_index_of(before, c, after.drop_last());
    }
}

/// A path that names were joined to holds those names, and no others:
/// split at the separator, it gives them back.
pub proof fn lemma_split_joined(names: Seq<Seq<char>>, separator: char)
    requires
        names.len() >= 1,
        free_of(names, separator),
    ensures
        split(joined(names, seq![separator]), separator) == names,
    decreases names.len(),
{
    let path = joined(names, seq![separator]);
    let last = names.last();
    assert(!last.contains(separator));
    if names.len() == 1 {
        lemma_last_index_of(Seq::empty(), separator, last);
        assert(names == seq![last]);
    } else {
        let front = names.drop_last();
        let before = joined(front, seq![separator]);
        assert(free_of(front, separator)) by {
            assert forall|i: int| 0 <= i < front.len() implies !(#[trigger] front[i]).contains(
                separator,
            ) by {
                assert(front[i] == names[i]);
            }
        }
        lemma_split_joined(front, separator);
        lemma_last_index_of(before, separator, last);
        assert(path == before + seq![separator] + last);
        assert(path.take(before.len() as int) == before);
        assert(path.skip(before.len() as int + 1) == last);
        assert(front.push(last) == names);
    }
}

/// Different names are joined to different paths.
pub proof fn lemma_joined_is_one_to_one(a: Seq<Seq<char>>, b: Seq<Seq<char>>, separator: char)
    requires
        a.len() >= 1,
        b.len() >= 1,
        free_of(a, separator),
        free_of(b, separator),
        joined(a, seq![separator]) == joined(b, seq![separator]),
    ensures
        a == b,
{
    lemma_split_joined(a, separator);
    lemma_split_joined(b, separator);
}

} // verus!
