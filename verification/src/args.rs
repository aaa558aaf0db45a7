//! Expansion: a call token, looked up in a dictionary of aliases, becomes
//! the literal texts that it stands for.

use crate::aliases::{AliasDictionary, Definition};
use crate::bounds::{law_plain_acyclic_is_not_cut_off, plain};
use crate::cycles::acyclic;
use crate::global::{parse_function_args, remove_whitespace, signature_items, signature_key};
use crate::text::{append, chars_of, replace, replaced, string_of, stripped};
use vstd::prelude::*;

verus! {

/// How many definitions an expansion may go through, one inside the other.
pub const MAX_DEPTH: usize = 256;

/// Why a token has no expansion, as plain values.
pub enum Failure {
    ArgsCount { sign: Seq<char>, expected: nat, actual: nat },
    TooDeep,
}

/// Why a token has no expansion.
#[derive(Debug)]
pub enum ExpandError {
    /// The alias `sign` takes `expected` arguments and was called with
    /// `actual`.
    ArgsCount { sign: String, expected: usize, actual: usize },
    /// The expansion goes through more than `MAX_DEPTH` definitions, one
    /// inside the other.
    TooDeep,
}

impl View for ExpandError {
    type V = Failure;

    open spec fn view(&self) -> Failure {
        match self {
            ExpandError::ArgsCount { sign, expected, actual } => Failure::ArgsCount {
                sign: sign@,
                expected: *expected as nat,
                actual: *actual as nat,
            },
            ExpandError::TooDeep => Failure::TooDeep,
        }
    }
}

/// What an expansion returned, as plain values.
pub open spec fn outcome(r: Result<Vec<String>, ExpandError>) -> Result<Seq<Seq<char>>, Failure> {
    match r {
        Ok(items) => Ok(items.deep_view()),
        Err(error) => Err(error@),
    }
}

/// The text that marks where the value of the parameter `name` goes.
pub open spec fn placeholder(name: Seq<char>) -> Seq<char> {
    seq!['<'] + name + seq!['>']
}

/// `template` with the placeholders of the parameters replaced by their
/// values: one parameter after the other in the order of `names`, each
/// throughout the text as it stands by then.
pub open spec fn filled(template: Seq<char>, names: Seq<Seq<char>>, values: Seq<Seq<char>>) -> Seq<
    char,
>
    decreases names.len(),
{
    if names.len() == 0 {
        template
    } else {
        replaced(
            filled(template, names.drop_last(), values),
            placeholder(names.last()),
            values[names.len() - 1],
        )
    }
}

/// What `token` expands to when at most `depth` definitions may be gone
/// through, one inside the other.
///
/// A token whose key has no definition stands for itself, without its
/// whitespace. A token whose key has one must bring as many arguments as the
/// definition has parameters; it then expands to what the templates of the
/// definition expand to, in order, once the arguments are filled in.
pub open spec fn expansion(dict: Map<Seq<char>, Definition>, token: Seq<char>, depth: nat) -> Result<
    Seq<Seq<char>>,
    Failure,
>
    decreases depth, 0nat,
{
    let key = signature_key(token);
    let args = signature_items(token);
    if !dict.contains_key(key) {
        Ok(seq![stripped(token)])
    } else if args.len() != dict[key].args.len() {
        Err(Failure::ArgsCount { sign: key, expected: dict[key].args.len(), actual: args.len() })
    } else if depth == 0 {
        Err(Failure::TooDeep)
    } else {
        expansions(
            dict,
            dict[key].list.map_values(|t: Seq<char>| filled(t, dict[key].args, args)),
            (depth - 1) as nat,
        )
    }
}

/// What the tokens expand to, one after the other: the expansions in the
/// order of the tokens, or the failure of the first token that has one.
pub open spec fn expansions(
    dict: Map<Seq<char>, Definition>,
    tokens: Seq<Seq<char>>,
    depth: nat,
) -> Result<Seq<Seq<char>>, Failure>
    decreases depth, tokens.len() + 1,
{
    if tokens.len() == 0 {
        Ok(Seq::empty())
    } else {
        match expansions(dict, tokens.drop_last(), depth) {
            Err(failure) => Err(failure),
            Ok(before) => match expansion(dict, tokens.last(), depth) {
                Err(failure) => Err(failure),
                Ok(items) => Ok(before + items),
            },
        }
    }
}

/// Tokens of which some first ones fail fail in the same way themselves.
pub proof fn lemma_expansions_fail_early(
    dict: Map<Seq<char>, Definition>,
    tokens: Seq<Seq<char>>,
    depth: nat,
    n: int,
)
    requires
        0 <= n <= tokens.len(),
        expansions(dict, tokens.take(n), depth) is Err,
    ensures
        expansions(dict, tokens, depth) == expansions(dict, tokens.take(n), depth),
    decreases tokens.len(),
{
    if n < tokens.len() {
        assert(tokens.drop_last().take(n) =~= tokens.take(n));
        lemma_expansions_fail_early(dict, tokens.drop_last(), depth, n);
    } else {
        assert(tokens.take(n) =~= tokens);
    }
}

/// The limit only cuts an expansion off: where a token expands, or fails by
/// its arguments, within some depth, it does the same within any greater
/// depth.
pub proof fn law_depth_only_cuts_off(
    dict: Map<Seq<char>, Definition>,
    token: Seq<char>,
    depth: nat,
    deeper: nat,
)
    requires
        depth <= deeper,
        expansion(dict, token, depth) != Err::<Seq<Seq<char>>, Failure>(Failure::TooDeep),
    ensures
        expansion(dict, token, deeper) == expansion(dict, token, depth),
    decreases depth, 0nat,
{
    let key = signature_key(token);
    let args = signature_items(token);
    if dict.contains_key(key) && args.len() == dict[key].args.len() {
        let tokens = dict[key].list.map_values(|t: Seq<char>| filled(t, dict[key].args, args));
        lemma_depth_only_cuts_off_each(dict, tokens, (depth - 1) as nat, (deeper - 1) as nat);
    }
}

/// What `law_depth_only_cuts_off` says of one token holds of tokens expanded
/// one after the other.
pub proof fn lemma_depth_only_cuts_off_each(
    dict: Map<Seq<char>, Definition>,
    tokens: Seq<Seq<char>>,
    depth: nat,
    deeper: nat,
)
    requires
        depth <= deeper,
        expansions(dict, tokens, depth) != Err::<Seq<Seq<char>>, Failure>(Failure::TooDeep),
    ensures
        expansions(dict, tokens, deeper) == expansions(dict, tokens, depth),
    decreases depth, tokens.len() + 1,
{
    if tokens.len() > 0 {
        lemma_depth_only_cuts_off_each(dict, tokens.drop_last(), depth, deeper);
        if expansions(dict, tokens.drop_last(), depth) is Ok {
            law_depth_only_cuts_off(dict, tokens.last(), depth, deeper);
        }
    }
}

/// Compares the number of arguments of a call with the number of parameters
/// of the alias `sign`, and refuses the call where they differ.
pub fn assert_args_count(sign: String, expected: usize, actual: usize) -> (r: Result<
    (),
    ExpandError,
>)
    ensures
        match r {
            Ok(_) => actual == expected,
            Err(error) => actual != expected && error@ == (Failure::ArgsCount {
                sign: sign@,
                expected: expected as nat,
                actual: actual as nat,
            }),
        },
{
    if actual == expected {
        Ok(())
    } else {
        Err(ExpandError::ArgsCount { sign, expected, actual })
    }
}

/// Fills the arguments of a call into a template.
fn fill(template: &String, names: &Vec<String>, values: &Vec<String>) -> (r: String)
    requires
        names.len() == values.len(),
    ensures
        r@ == filled(template@, names.deep_view(), values.deep_view()),
{
    let mut processed = chars_of(template.as_str());
    let mut i: usize = 0;
    assert(names.deep_view().take(0) =~= Seq::<Seq<char>>::empty());
    while i < names.len()
        invariant
            i <= names.len(),
            names.len() == values.len(),
            processed@ == filled(
                template@,
                names.deep_view().take(i as int),
                values.deep_view(),
            ),
        decreases names.len() - i,
    {
        let mut mark: Vec<char> = Vec::new();
        mark.push('<');
        append(&mut mark, &chars_of(names[i].as_str()));
        mark.push('>');
        let value = chars_of(values[i].as_str());
        proof {
            assert(mark@ =~= placeholder(names[i as int]@));
            assert(names.deep_view().take(i + 1).drop_last() =~= names.deep_view().take(i as int));
            assert(names.deep_view().take(i + 1).last() == names[i as int]@);
            assert(values.deep_view()[i as int] == value@);
        }
        processed = replace(&processed, &mark, &value);
        i += 1;
    }
    assert(names.deep_view().take(names.len() as int) =~= names.deep_view());
    string_of(&processed)
}

/// Expands `token`, going through at most `depth` definitions, one inside
/// the other.
fn expand_within(aliases: &AliasDictionary, token: &str, depth: usize) -> (r: Result<
    Vec<String>,
    ExpandError,
>)
    ensures
        outcome(r) == expansion(aliases@, token@, depth as nat),
    decreases depth,
{
    let (sign, args) = parse_function_args(token);
    let func = match aliases.get(sign.as_str()) {
        Some(func) => func,
        None => {
            let mut ret: Vec<String> = Vec::new();
            ret.push(remove_whitespace(token));
            assert(ret.deep_view() =~= seq![stripped(token@)]);
            return Ok(ret);
        },
    };
    assert(func@.args.len() == func.args.len());
    assert(args.deep_view().len() == args.len());
    match assert_args_count(sign, func.args.len(), args.len()) {
        Ok(_) => {},
        Err(error) => {
            return Err(error);
        },
    }
    if depth == 0 {
        return Err(ExpandError::TooDeep);
    }
    let ghost tokens = func@.list.map_values(
        |t: Seq<char>| filled(t, func@.args, args.deep_view()),
    );
    let mut ret: Vec<String> = Vec::new();
    let mut i: usize = 0;
    assert(tokens.take(0) =~= Seq::<Seq<char>>::empty());
    assert(ret.deep_view() =~= Seq::<Seq<char>>::empty());
    assert(expansion(aliases@, token@, depth as nat) == expansions(
        aliases@,
        tokens,
        (depth - 1) as nat,
    ));
    while i < func.list.len()
        invariant
            i <= func.list.len(),
            depth > 0,
            expansion(aliases@, token@, depth as nat) == expansions(
                aliases@,
                tokens,
                (depth - 1) as nat,
            ),
            func.args.len() == args.len(),
            tokens == func@.list.map_values(
                |t: Seq<char>| filled(t, func@.args, args.deep_view()),
            ),
            expansions(aliases@, tokens.take(i as int), (depth - 1) as nat) == Ok::<
                Seq<Seq<char>>,
                Failure,
            >(ret.deep_view()),
        decreases func.list.len() - i,
    {
        let processed = fill(&func.list[i], &func.args, &args);
        proof {
            assert(tokens.take(i + 1).drop_last() =~= tokens.take(i as int));
            assert(tokens.take(i + 1).last() == processed@);
        }
        match expand_within(aliases, processed.as_str(), depth - 1) {
            Ok(mut items) => {
                let ghost before = ret.deep_view();
                let ghost added = items.deep_view();
                ret.append(&mut items);
                assert(ret.deep_view() =~= before + added);
            },
            Err(error) => {
                proof {
                    lemma_expansions_fail_early(
                        aliases@,
                        tokens,
                        (depth - 1) as nat,
                        i + 1,
                    );
                }
                return Err(error);
            },
        }
        i += 1;
    }
    assert(tokens.take(tokens.len() as int) =~= tokens);
    Ok(ret)
}

/// Expands a call token into the literal texts that it stands for.
///
/// The result is a function of the dictionary and the token alone. A token
/// whose key has no definition is returned as it is, without its
/// whitespace. A token that brings another number of arguments than its
/// definition has parameters is refused, whatever the definition holds. In a
/// dictionary without cycles whose definitions take no parameters, and
/// which has no more than `MAX_DEPTH` of them, the limit cuts nothing off.
pub fn expand_arg(aliases: &AliasDictionary, token: &str) -> (r: Result<Vec<String>, ExpandError>)
    ensures
        outcome(r) == expansion(aliases@, token@, MAX_DEPTH as nat),
        !aliases@.contains_key(signature_key(token@)) ==> outcome(r) == Ok::<
            Seq<Seq<char>>,
            Failure,
        >(seq![stripped(token@)]),
        aliases@.contains_key(signature_key(token@)) && signature_items(token@).len()
            != aliases@[signature_key(token@)].args.len() ==> outcome(r) == Err::<
            Seq<Seq<char>>,
            Failure,
        >(
            Failure::ArgsCount {
                sign: signature_key(token@),
                expected: aliases@[signature_key(token@)].args.len(),
                actual: signature_items(token@).len(),
            },
        ),
        plain(aliases@) && acyclic(aliases@) && aliases@.dom().len() <= MAX_DEPTH ==> outcome(r)
            != Err::<Seq<Seq<char>>, Failure>(Failure::TooDeep),
{
    proof {
        aliases.lemma_finite();
        if plain(aliases@) && acyclic(aliases@) && aliases@.dom().len() <= MAX_DEPTH {
            law_plain_acyclic_is_not_cut_off(aliases@, token@, MAX_DEPTH as nat);
        }
    }
    expand_within(aliases, token, MAX_DEPTH)
}

/// Expands each of the tokens and returns the expansions in the order of
/// the tokens, or the failure of the first token that has one.
pub fn process_args(aliases: &AliasDictionary, args: &Vec<String>) -> (r: Result<
    Vec<String>,
    ExpandError,
>)
    ensures
        outcome(r) == expansions(aliases@, args.deep_view(), MAX_DEPTH as nat),
{
    let mut ret: Vec<String> = Vec::new();
    let mut i: usize = 0;
    assert(args.deep_view().take(0) =~= Seq::<Seq<char>>::empty());
    assert(ret.deep_view() =~= Seq::<Seq<char>>::empty());
    while i < args.len()
        invariant
            i <= args.len(),
            expansions(aliases@, args.deep_view().take(i as int), MAX_DEPTH as nat) == Ok::<
                Seq<Seq<char>>,
                Failure,
            >(ret.deep_view()),
        decreases args.len() - i,
    {
        proof {
            assert(args.deep_view().take(i + 1).drop_last() =~= args.deep_view().take(i as int));
            assert(args.deep_view().take(i + 1).last() == args[i as int]@);
        }
        match expand_arg(aliases, args[i].as_str()) {
            Ok(mut items) => {
                let ghost before = ret.deep_view();
                let ghost added = items.deep_view();
                ret.append(&mut items);
                assert(ret.deep_view() =~= before + added);
            },
            Err(error) => {
                proof {
                    lemma_expansions_fail_early(
                        aliases@,
                        args.deep_view(),
                        MAX_DEPTH as nat,
                        i + 1,
                    );
                }
                return Err(error);
            },
        }
        i += 1;
    }
    assert(args.deep_view().take(args.len() as int) =~= args.deep_view());
    Ok(ret)
}

} // verus!
