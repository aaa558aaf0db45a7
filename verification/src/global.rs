//! Signatures: a name, or a name followed by a parenthesized list of
//! comma-separated items, reduced to a canonical key and the items.

use crate::text::{
    append, chars_of, decimal, decimal_digits, find, first_occurrence, lemma_first_from,
    nonempty, occurs_at, pieces, slice, split, string_of, strings_of, strip, stripped, visible,
    without_empty,
};
use vstd::prelude::*;

verus! {

/// What lies in `s` between the parenthesis at index `i` and the final
/// character of `s`; nothing where the parenthesis is itself the final
/// character or the one before it.
pub open spec fn argument_text(s: Seq<char>, i: int) -> Seq<char> {
    if i + 1 < s.len() - 1 {
        s.subrange(i + 1, s.len() - 1)
    } else {
        Seq::empty()
    }
}

/// The items of a signature: with the whitespace of `text` removed, the
/// comma-separated entries between the first `(` and the final character,
/// the empty ones left out. A text without `(` has no items.
pub open spec fn signature_items(text: Seq<char>) -> Seq<Seq<char>> {
    let s = stripped(text);
    match first_occurrence(s, seq!['(']) {
        Some(i) => pieces(argument_text(s, i), seq![',']).filter(nonempty()),
        None => Seq::empty(),
    }
}

/// The canonical key of a signature: with the whitespace of `text` removed,
/// what stands before the first `(`, followed by the number of items in
/// parentheses where there is at least one item. A text without `(` is its
/// own key once the whitespace is removed.
pub open spec fn signature_key(text: Seq<char>) -> Seq<char> {
    let s = stripped(text);
    let n = signature_items(text).len();
    match first_occurrence(s, seq!['(']) {
        Some(i) => if n > 0 {
            s.take(i) + seq!['('] + decimal_digits(n) + seq![')']
        } else {
            s.take(i)
        },
        None => s,
    }
}

/// A text that holds no whitespace is left as it is when whitespace is
/// removed.
pub proof fn lemma_stripped_fixed(s: Seq<char>)
    requires
        forall|i: int| 0 <= i < s.len() ==> visible()(#[trigger] s[i]),
    ensures
        stripped(s) == s,
    decreases s.len(),
{
    reveal(Seq::filter);
    if s.len() > 0 {
        lemma_stripped_fixed(s.drop_last());
        assert(s.drop_last().push(s.last()) =~= s);
    }
}

/// Removing whitespace twice removes no more than removing it once, and
/// neither does removing it from the start of a text without whitespace.
pub proof fn lemma_stripped_twice(text: Seq<char>, n: int)
    requires
        0 <= n <= stripped(text).len(),
    ensures
        stripped(stripped(text).take(n)) == stripped(text).take(n),
{
    let s = stripped(text);
    assert forall|i: int| 0 <= i < s.take(n).len() implies visible()(#[trigger] s.take(n)[i]) by {
        text.lemma_filter_pred(visible(), i);
    }
    lemma_stripped_fixed(s.take(n));
}

/// Parsing is idempotent on keys without parentheses: such a key, parsed
/// again, gives the same key and no items.
pub proof fn law_key_parses_to_itself(text: Seq<char>)
    requires
        !signature_key(text).contains('('),
    ensures
        signature_key(signature_key(text)) == signature_key(text),
        signature_items(signature_key(text)) == Seq::<Seq<char>>::empty(),
{
    let s = stripped(text);
    let k = signature_key(text);
    let paren = seq!['('];
    lemma_first_from(s, paren, 0);
    match first_occurrence(s, paren) {
        Some(i) => {
            if signature_items(text).len() > 0 {
                assert(k[i] == '(');
            }
            lemma_stripped_twice(text, i);
        },
        None => {
            lemma_stripped_twice(text, s.len() as int);
            assert(s.take(s.len() as int) =~= s);
        },
    }
    assert(stripped(k) == k);
    lemma_first_from(k, paren, 0);
    if let Some(j) = first_occurrence(k, paren) {
        assert(k.subrange(j, j + 1)[0] == '(');
        assert(k[j] == '(');
    }
}

/// Removes every whitespace character from `text`.
pub fn remove_whitespace(text: &str) -> (r: String)
    ensures
        r@ == stripped(text@),
{
    string_of(&strip(&chars_of(text)))
}

/// Parses a signature into its canonical key and its items.
pub fn parse_function_args(sign: &str) -> (r: (String, Vec<String>))
    ensures
        r.0@ == signature_key(sign@),
        r.1.deep_view() == signature_items(sign@),
{
    let s = strip(&chars_of(sign));
    let mut paren: Vec<char> = Vec::new();
    paren.push('(');
    assert(paren@ =~= seq!['(']);
    match find(&s, &paren) {
        Some(idx) => {
            proof {
                lemma_first_from(s@, paren@, 0);
                assert(occurs_at(s@, paren@, idx as int));
                assert(paren@.len() == 1);
            }
            let end: usize = s.len() - 1;
            let inner = if idx + 1 < end {
                slice(&s, idx + 1, end)
            } else {
                Vec::new()
            };
            assert(inner@ =~= argument_text(s@, idx as int));
            let mut comma: Vec<char> = Vec::new();
            comma.push(',');
            assert(comma@ =~= seq![',']);
            let args = without_empty(&split(&inner, &comma));
            let mut key = slice(&s, 0, idx);
            if args.len() > 0 {
                key.push('(');
                append(&mut key, &decimal(args.len()));
                key.push(')');
                assert(key@ =~= s@.take(idx as int) + seq!['('] + decimal_digits(args.len() as nat)
                    + seq![')']);
            }
            (string_of(&key), strings_of(&args))
        },
        None => {
            let items: Vec<String> = Vec::new();
            assert(items.deep_view() =~= Seq::<Seq<char>>::empty());
            (string_of(&s), items)
        },
    }
}

} // verus!
