//! How deep an expansion goes: in a dictionary without cycles whose
//! definitions take no parameters, no deeper than the dictionary has keys.

use crate::aliases::Definition;
use crate::args::{expansion, expansions, filled, Failure};
use crate::cycles::{acyclic, is_path, on_cycle, reaches, refers, steps};
use crate::global::{signature_items, signature_key};
use vstd::prelude::*;

verus! {

/// No definition of the dictionary takes parameters.
pub open spec fn plain(dict: Map<Seq<char>, Definition>) -> bool {
    forall|key: Seq<char>| dict.contains_key(key) ==> (#[trigger] dict[key]).args.len() == 0
}

/// Every key of the path has a definition.
pub open spec fn defined(dict: Map<Seq<char>, Definition>, path: Seq<Seq<char>>) -> bool {
    forall|i: int| 0 <= i < path.len() ==> dict.contains_key(#[trigger] path[i])
}

/// Tokens that are cut off by the limit hold one that is.
proof fn lemma_one_too_deep(dict: Map<Seq<char>, Definition>, tokens: Seq<Seq<char>>, depth: nat)
    -> (i: int)
    requires
        expansions(dict, tokens, depth) == Err::<Seq<Seq<char>>, Failure>(Failure::TooDeep),
    ensures
        0 <= i < tokens.len(),
        expansion(dict, tokens[i], depth) == Err::<Seq<Seq<char>>, Failure>(Failure::TooDeep),
    decreases tokens.len(),
{
    if expansions(dict, tokens.drop_last(), depth) is Err {
        lemma_one_too_deep(dict, tokens.drop_last(), depth)
    } else {
        tokens.len() - 1
    }
}

/// Where definitions take no parameters, an expansion that is cut off at
/// some depth has followed a path of that many references.
proof fn lemma_too_deep_path(dict: Map<Seq<char>, Definition>, token: Seq<char>, depth: nat) -> (path:
    Seq<Seq<char>>)
    requires
        plain(dict),
        expansion(dict, token, depth) == Err::<Seq<Seq<char>>, Failure>(Failure::TooDeep),
    ensures
        is_path(dict, path),
        defined(dict, path),
        path.len() == depth + 1,
        path[0] == signature_key(token),
    decreases depth,
{
    let key = signature_key(token);
    let args = signature_items(token);
    if depth == 0 {
        seq![key]
    } else {
        let tokens = dict[key].list.map_values(|t: Seq<char>| filled(t, dict[key].args, args));
        let i = lemma_one_too_deep(dict, tokens, (depth - 1) as nat);
        assert(tokens[i] == dict[key].list[i]);
        let rest = lemma_too_deep_path(dict, tokens[i], (depth - 1) as nat);
        let path = seq![key] + rest;
        assert(refers(dict, key, rest[0]));
        assert forall|m: int| 0 <= m < path.len() - 1 implies #[trigger] steps(dict, path, m) by {
            if m > 0 {
                assert(steps(dict, rest, m - 1));
            }
        }
        path
    }
}

/// In a dictionary without cycles no path comes to the same key twice.
pub proof fn lemma_acyclic_paths(dict: Map<Seq<char>, Definition>, path: Seq<Seq<char>>)
    requires
        acyclic(dict),
        is_path(dict, path),
    ensures
        path.no_duplicates(),
{
    assert forall|i: int, j: int| 0 <= i < j < path.len() implies path[i] != path[j] by {
        if path[i] == path[j] {
            let round = path.subrange(i, j + 1);
            assert forall|m: int| 0 <= m < round.len() - 1 implies #[trigger] steps(
                dict,
                round,
                m,
            ) by {
                assert(steps(dict, path, i + m));
            }
            assert(is_path(dict, round));
            assert(reaches(dict, path[i], path[i]));
            assert(on_cycle(dict, path[i]));
        }
    }
}

/// In a dictionary without cycles whose definitions take no parameters, an
/// expansion is never cut off by a limit that is at least the number of
/// definitions.
pub proof fn law_plain_acyclic_is_not_cut_off(
    dict: Map<Seq<char>, Definition>,
    token: Seq<char>,
    depth: nat,
)
    requires
        dict.dom().finite(),
        plain(dict),
        acyclic(dict),
        depth >= dict.dom().len(),
    ensures
        expansion(dict, token, depth) != Err::<Seq<Seq<char>>, Failure>(Failure::TooDeep),
{
    if expansion(dict, token, depth) == Err::<Seq<Seq<char>>, Failure>(Failure::TooDeep) {
        let path = lemma_too_deep_path(dict, token, depth);
        lemma_acyclic_paths(dict, path);
        path.unique_seq_to_set();
        assert(path.to_set().subset_of(dict.dom())) by {
            assert forall|key: Seq<char>| path.to_set().contains(key) implies dict.dom().contains(
                key,
            ) by {
                let i = choose|i: int| 0 <= i < path.len() && path[i] == key;
                assert(dict.contains_key(path[i]));
            }
        }
        vstd::set_lib::lemma_len_subset(path.to_set(), dict.dom());
    }
}

} // verus!
