//! References between definitions: paths, cycles, and what makes a
//! dictionary free of them.

use crate::aliases::Definition;
use crate::global::signature_key;
use vstd::prelude::*;

verus! {

/// The definition stored under `from` has a template whose key is `to`.
pub open spec fn refers(dict: Map<Seq<char>, Definition>, from: Seq<char>, to: Seq<char>) -> bool {
    dict.contains_key(from) && exists|i: int|
        0 <= i < dict[from].list.len() && signature_key(#[trigger] dict[from].list[i]) == to
}

/// The key at index `i` of `path` refers to the one after it.
pub open spec fn steps(dict: Map<Seq<char>, Definition>, path: Seq<Seq<char>>, i: int) -> bool {
    refers(dict, path[i], path[i + 1])
}

/// A sequence of keys, at least one, each of which refers to the next.
pub open spec fn is_path(dict: Map<Seq<char>, Definition>, path: Seq<Seq<char>>) -> bool {
    path.len() > 0 && forall|i: int| 0 <= i < path.len() - 1 ==> #[trigger] steps(dict, path, i)
}

/// Some path of at least one reference leads from `from` to `to`.
pub open spec fn reaches(dict: Map<Seq<char>, Definition>, from: Seq<char>, to: Seq<char>) -> bool {
    exists|path: Seq<Seq<char>>|
        #[trigger] is_path(dict, path) && path.len() >= 2 && path.first() == from && path.last()
            == to
}

/// Following references from `key` can lead back to `key`.
pub open spec fn on_cycle(dict: Map<Seq<char>, Definition>, key: Seq<char>) -> bool {
    reaches(dict, key, key)
}

/// No key lies on a cycle of references.
pub open spec fn acyclic(dict: Map<Seq<char>, Definition>) -> bool {
    forall|key: Seq<char>| !on_cycle(dict, key)
}

/// No path that starts at `key` comes to the same key twice.
pub open spec fn settled(dict: Map<Seq<char>, Definition>, key: Seq<char>) -> bool {
    forall|path: Seq<Seq<char>>|
        #[trigger] is_path(dict, path) && path.first() == key ==> path.no_duplicates()
}

/// One reference is a path.
pub proof fn lemma_reaches_step(dict: Map<Seq<char>, Definition>, from: Seq<char>, to: Seq<char>)
    requires
        refers(dict, from, to),
    ensures
        reaches(dict, from, to),
{
    let path = seq![from, to];
    assert(steps(dict, path, 0));
    assert(is_path(dict, path));
}

/// A path followed by one more reference is a path.
pub proof fn lemma_reaches_extend(
    dict: Map<Seq<char>, Definition>,
    from: Seq<char>,
    via: Seq<char>,
    to: Seq<char>,
)
    requires
        reaches(dict, from, via),
        refers(dict, via, to),
    ensures
        reaches(dict, from, to),
{
    let path = choose|path: Seq<Seq<char>>|
        #[trigger] is_path(dict, path) && path.len() >= 2 && path.first() == from && path.last()
            == via;
    let longer = path.push(to);
    assert forall|i: int| 0 <= i < longer.len() - 1 implies #[trigger] steps(dict, longer, i) by {
        if i < path.len() - 1 {
            assert(steps(dict, path, i));
        }
    }
    assert(is_path(dict, longer));
}

/// A key without a definition refers to nothing, so no path from it is
/// longer than the key itself.
pub proof fn lemma_leaf_settled(dict: Map<Seq<char>, Definition>, key: Seq<char>)
    requires
        !dict.contains_key(key),
    ensures
        settled(dict, key),
{
    assert forall|path: Seq<Seq<char>>| #[trigger]
        is_path(dict, path) && path.first() == key implies path.no_duplicates() by {
        if path.len() >= 2 {
            assert(steps(dict, path, 0));
        }
    }
}

/// A key is settled once every key that its definition refers to is.
pub proof fn lemma_settled_from_references(dict: Map<Seq<char>, Definition>, key: Seq<char>)
    requires
        dict.contains_key(key),
        forall|i: int|
            0 <= i < dict[key].list.len() ==> settled(
                dict,
                signature_key(#[trigger] dict[key].list[i]),
            ),
    ensures
        settled(dict, key),
{
    assert forall|path: Seq<Seq<char>>| #[trigger]
        is_path(dict, path) && path.first() == key implies path.no_duplicates() by {
        assert forall|i: int, j: int| 0 <= i < path.len() && 0 <= j < path.len() && i != j implies path[i] != path[j] by {
            if path[i] == path[j] {
                let (a, b) = if i < j {
                    (i, j)
                } else {
                    (j, i)
                };
                assert(steps(dict, path, 0));
                let next = path[1];
                assert(settled(dict, next));
                let rest = path.skip(1);
                assert forall|m: int| 0 <= m < rest.len() - 1 implies #[trigger] steps(
                    dict,
                    rest,
                    m,
                ) by {
                    assert(steps(dict, path, m + 1));
                }
                assert(is_path(dict, rest));
                assert(rest.no_duplicates());
                if a >= 1 {
                    assert(rest[a - 1] == rest[b - 1]);
                } else {
                    let round = path.subrange(1, b + 1).push(next);
                    assert forall|m: int| 0 <= m < round.len() - 1 implies #[trigger] steps(
                        dict,
                        round,
                        m,
                    ) by {
                        if m < b - 1 {
                            assert(steps(dict, path, m + 1));
                        }
                    }
                    assert(is_path(dict, round));
                    assert(round.no_duplicates());
                    assert(round[0] == round[b]);
                }
            }
        }
    }
}

/// A dictionary whose keys are all settled has no cycle.
pub proof fn lemma_settled_acyclic(dict: Map<Seq<char>, Definition>)
    requires
        forall|key: Seq<char>| dict.contains_key(key) ==> settled(dict, key),
    ensures
        acyclic(dict),
{
    assert forall|key: Seq<char>| !on_cycle(dict, key) by {
        if on_cycle(dict, key) {
            let path = choose|path: Seq<Seq<char>>|
                #[trigger] is_path(dict, path) && path.len() >= 2 && path.first() == key
                    && path.last() == key;
            assert(steps(dict, path, 0));
            assert(settled(dict, key));
            assert(path.no_duplicates());
            assert(path[0] == path[path.len() - 1]);
        }
    }
}

} // verus!
