//! Text as sequences of characters: the operations the rest of the crate
//! builds on, each stated over `Seq<char>`.

use vstd::prelude::*;

verus! {

/// `String::push` appends one character to the end of the string.
pub assume_specification[ String::push ](s: &mut String, ch: char)
    ensures
        final(s)@ == old(s)@.push(ch),
;

/// The characters that carry the Unicode `White_Space` property.
pub open spec fn whitespace(c: char) -> bool {
    let n = c as u32;
    ||| 0x09 <= n <= 0x0D
    ||| n == 0x20
    ||| n == 0x85
    ||| n == 0xA0
    ||| n == 0x1680
    ||| 0x2000 <= n <= 0x200A
    ||| n == 0x2028
    ||| n == 0x2029
    ||| n == 0x202F
    ||| n == 0x205F
    ||| n == 0x3000
}

/// The predicate that keeps every character but whitespace.
pub open spec fn visible() -> spec_fn(char) -> bool {
    |c: char| !whitespace(c)
}

/// `s` without its whitespace characters.
pub open spec fn stripped(s: Seq<char>) -> Seq<char> {
    s.filter(visible())
}

/// The predicate that keeps every text but the empty one.
pub open spec fn nonempty() -> spec_fn(Seq<char>) -> bool {
    |a: Seq<char>| a.len() > 0
}

/// `pat` stands in `s` at index `i`.
pub open spec fn occurs_at(s: Seq<char>, pat: Seq<char>, i: int) -> bool {
    0 <= i && i + pat.len() <= s.len() && s.subrange(i, i + pat.len()) == pat
}

/// The least index from `from` on at which `pat` stands in `s`.
pub open spec fn first_from(s: Seq<char>, pat: Seq<char>, from: int) -> Option<int>
    decreases s.len() + 1 - from,
{
    if from < 0 || from + pat.len() > s.len() {
        None
    } else if occurs_at(s, pat, from) {
        Some(from)
    } else {
        first_from(s, pat, from + 1)
    }
}

/// The least index at which `pat` stands in `s`.
pub open spec fn first_occurrence(s: Seq<char>, pat: Seq<char>) -> Option<int> {
    first_from(s, pat, 0)
}

/// What `first_from` finds is an occurrence with none before it, and it
/// finds one whenever there is one.
pub proof fn lemma_first_from(s: Seq<char>, pat: Seq<char>, from: int)
    requires
        0 <= from,
    ensures
        match first_from(s, pat, from) {
            Some(i) => from <= i && occurs_at(s, pat, i) && forall|j: int|
                from <= j < i ==> !occurs_at(s, pat, j),
            None => forall|j: int| from <= j ==> !occurs_at(s, pat, j),
        },
    decreases s.len() + 1 - from,
{
    if from + pat.len() <= s.len() && !occurs_at(s, pat, from) {
        lemma_first_from(s, pat, from + 1);
    }
}

/// The pieces of `s` from index `from` on, cut at each occurrence of `pat`
/// taken from left to right without overlap.
pub open spec fn pieces_from(s: Seq<char>, pat: Seq<char>, from: int) -> Seq<Seq<char>>
    decreases s.len() - from,
    when 0 <= from && pat.len() > 0
    via pieces_from_decreases
{
    match first_from(s, pat, from) {
        Some(i) => seq![s.subrange(from, i)] + pieces_from(s, pat, i + pat.len()),
        None => seq![s.subrange(from, s.len() as int)],
    }
}

#[via_fn]
proof fn pieces_from_decreases(s: Seq<char>, pat: Seq<char>, from: int) {
    lemma_first_from(s, pat, from);
}

/// The pieces of `s` between the occurrences of a separator `pat` that is
/// not empty.
pub open spec fn pieces(s: Seq<char>, pat: Seq<char>) -> Seq<Seq<char>> {
    pieces_from(s, pat, 0)
}

/// The parts, with `sep` between each two neighbours.
pub open spec fn joined(parts: Seq<Seq<char>>, sep: Seq<char>) -> Seq<char>
    decreases parts.len(),
{
    if parts.len() == 0 {
        Seq::empty()
    } else if parts.len() == 1 {
        parts[0]
    } else {
        joined(parts.drop_last(), sep) + sep + parts.last()
    }
}

/// `s` with every occurrence of `from`, which is not empty, replaced by
/// `to`; occurrences are taken from left to right without overlap.
pub open spec fn replaced(s: Seq<char>, from: Seq<char>, to: Seq<char>) -> Seq<char> {
    joined(pieces(s, from), to)
}

/// `s` without the whitespace that it starts with.
pub open spec fn trimmed_start(s: Seq<char>) -> Seq<char>
    decreases s.len(),
{
    if s.len() > 0 && whitespace(s.first()) {
        trimmed_start(s.drop_first())
    } else {
        s
    }
}

/// `s` without the whitespace that it ends with.
pub open spec fn trimmed_end(s: Seq<char>) -> Seq<char>
    decreases s.len(),
{
    if s.len() > 0 && whitespace(s.last()) {
        trimmed_end(s.drop_last())
    } else {
        s
    }
}

/// `s` without the whitespace at either end.
pub open spec fn trimmed(s: Seq<char>) -> Seq<char> {
    trimmed_end(trimmed_start(s))
}

/// The character that writes the digit `d`.
pub open spec fn digit_char(d: int) -> char {
    if d == 0 {
        '0'
    } else if d == 1 {
        '1'
    } else if d == 2 {
        '2'
    } else if d == 3 {
        '3'
    } else if d == 4 {
        '4'
    } else if d == 5 {
        '5'
    } else if d == 6 {
        '6'
    } else if d == 7 {
        '7'
    } else if d == 8 {
        '8'
    } else {
        '9'
    }
}

/// `n` written in decimal, without leading zeros.
pub open spec fn decimal_digits(n: nat) -> Seq<char>
    decreases n,
{
    if n < 10 {
        seq![digit_char(n as int)]
    } else {
        decimal_digits(n / 10).push(digit_char((n % 10) as int))
    }
}

/// Tells whether `c` is a whitespace character.
pub fn is_whitespace(c: char) -> (b: bool)
    ensures
        b == whitespace(c),
{
    let n: u32 = c as u32;
    (0x09 <= n && n <= 0x0D) || n == 0x20 || n == 0x85 || n == 0xA0 || n == 0x1680 || (0x2000 <= n
        && n <= 0x200A) || n == 0x2028 || n == 0x2029 || n == 0x202F || n == 0x205F || n == 0x3000
}

/// The characters of `s`, in order.
pub fn chars_of(s: &str) -> (v: Vec<char>)
    ensures
        v@ == s@,
{
    let mut v: Vec<char> = Vec::new();
    for c in it: s.chars()
        invariant
            it.seq() == s@,
            v@ =~= s@.take(it.index() as int),
    {
        v.push(c);
    }
    assert(s@.take(s@.len() as int) =~= s@);
    v
}

/// The string that holds the characters of `v`, in order.
pub fn string_of(v: &Vec<char>) -> (s: String)
    ensures
        s@ == v@,
{
    let mut s = String::new();
    let mut i: usize = 0;
    while i < v.len()
        invariant
            i <= v.len(),
            s@ == v@.take(i as int),
        decreases v.len() - i,
    {
        s.push(v[i]);
        i += 1;
        assert(v@.take(i as int) =~= v@.take(i - 1).push(v@[i - 1]));
    }
    assert(v@.take(v@.len() as int) =~= v@);
    s
}

/// The character sequences that the elements of `v` hold, in order.
pub open spec fn rows(v: Seq<Vec<char>>) -> Seq<Seq<char>> {
    Seq::new(v.len(), |i: int| v[i]@)
}

/// The strings that hold the character sequences of `v`, in order.
pub fn strings_of(v: &Vec<Vec<char>>) -> (r: Vec<String>)
    ensures
        r.deep_view() == rows(v@),
{
    let mut r: Vec<String> = Vec::new();
    let mut i: usize = 0;
    while i < v.len()
        invariant
            i <= v.len(),
            r.len() == i,
            forall|j: int| 0 <= j < i ==> r[j]@ == v[j]@,
        decreases v.len() - i,
    {
        r.push(string_of(&v[i]));
        i += 1;
    }
    assert(r.deep_view() =~= rows(v@));
    r
}

/// A copy of the characters of `s` from index `from` up to `to`.
pub fn slice(s: &Vec<char>, from: usize, to: usize) -> (r: Vec<char>)
    requires
        from <= to <= s.len(),
    ensures
        r@ == s@.subrange(from as int, to as int),
{
    let mut r: Vec<char> = Vec::new();
    let mut i: usize = from;
    while i < to
        invariant
            from <= i <= to <= s.len(),
            r@ == s@.subrange(from as int, i as int),
        decreases to - i,
    {
        r.push(s[i]);
        i += 1;
        assert(s@.subrange(from as int, i as int) =~= s@.subrange(from as int, i - 1).push(
            s@[i - 1],
        ));
    }
    r
}

/// Removes every whitespace character from `s`.
pub fn strip(s: &Vec<char>) -> (r: Vec<char>)
    ensures
        r@ == stripped(s@),
{
    let mut r: Vec<char> = Vec::new();
    let mut i: usize = 0;
    assert(s@.take(0) =~= Seq::<char>::empty());
    assert(Seq::<char>::empty().filter(visible()) =~= Seq::<char>::empty()) by {
        reveal(Seq::filter);
    }
    while i < s.len()
        invariant
            i <= s.len(),
            r@ == stripped(s@.take(i as int)),
        decreases s.len() - i,
    {
        let c = s[i];
        proof {
            s@.take(i as int).lemma_filter_push(c, visible());
            assert(s@.take(i + 1) =~= s@.take(i as int).push(c));
        }
        if !is_whitespace(c) {
            r.push(c);
        }
        i += 1;
    }
    assert(s@.take(s@.len() as int) =~= s@);
    r
}

/// Tells whether `pat` stands in `s` at index `i`.
pub fn matches_at(s: &Vec<char>, pat: &Vec<char>, i: usize) -> (b: bool)
    ensures
        b == occurs_at(s@, pat@, i as int),
{
    if pat.len() > s.len() || i > s.len() - pat.len() {
        return false;
    }
    let mut k: usize = 0;
    while k < pat.len()
        invariant
            k <= pat.len(),
            i + pat.len() <= s.len(),
            forall|j: int| 0 <= j < k ==> s@[i + j] == pat@[j],
        decreases pat.len() - k,
    {
        if s[i + k] != pat[k] {
            assert(s@.subrange(i as int, i + pat.len())[k as int] != pat@[k as int]);
            return false;
        }
        k += 1;
    }
    assert(s@.subrange(i as int, i + pat.len()) =~= pat@);
    true
}

/// The least index from `from` on at which `pat` stands in `s`.
pub fn find_from(s: &Vec<char>, pat: &Vec<char>, from: usize) -> (r: Option<usize>)
    ensures
        match r {
            Some(i) => first_from(s@, pat@, from as int) == Some(i as int),
            None => first_from(s@, pat@, from as int) is None,
        },
{
    if pat.len() > s.len() {
        return None;
    }
    let last: usize = s.len() - pat.len();
    let mut i: usize = from;
    while i <= last
        invariant
            from <= i,
            last == s.len() - pat.len(),
            first_from(s@, pat@, from as int) == first_from(s@, pat@, i as int),
        decreases last - i,
    {
        if matches_at(s, pat, i) {
            return Some(i);
        }
        if i == last {
            assert(first_from(s@, pat@, i + 1) is None);
            return None;
        }
        i += 1;
    }
    None
}

/// The least index at which `pat` stands in `s`.
pub fn find(s: &Vec<char>, pat: &Vec<char>) -> (r: Option<usize>)
    ensures
        match r {
            Some(i) => first_occurrence(s@, pat@) == Some(i as int),
            None => first_occurrence(s@, pat@) is None,
        },
{
    find_from(s, pat, 0)
}

/// Appends the characters of `s` to `r`.
pub fn append(r: &mut Vec<char>, s: &Vec<char>)
    ensures
        final(r)@ == old(r)@ + s@,
{
    let mut i: usize = 0;
    while i < s.len()
        invariant
            i <= s.len(),
            r@ == old(r)@ + s@.take(i as int),
        decreases s.len() - i,
    {
        r.push(s[i]);
        i += 1;
        assert(old(r)@ + s@.take(i as int) =~= (old(r)@ + s@.take(i - 1)).push(s@[i - 1]));
    }
    assert(s@.take(s@.len() as int) =~= s@);
}

/// Cuts `s` at each occurrence of the separator `pat`, taken from left to
/// right without overlap, and returns the pieces in order.
pub fn split(s: &Vec<char>, pat: &Vec<char>) -> (r: Vec<Vec<char>>)
    requires
        pat.len() > 0,
    ensures
        rows(r@) == pieces(s@, pat@),
{
    let mut r: Vec<Vec<char>> = Vec::new();
    let mut pos: usize = 0;
    assert(rows(r@) + pieces_from(s@, pat@, 0) =~= pieces(s@, pat@));
    loop
        invariant
            pat.len() > 0,
            pos <= s.len(),
            rows(r@) + pieces_from(s@, pat@, pos as int) == pieces(s@, pat@),
        decreases s.len() - pos,
    {
        let ghost before = rows(r@);
        proof {
            lemma_first_from(s@, pat@, pos as int);
        }
        match find_from(s, pat, pos) {
            Some(i) => {
                let piece = slice(s, pos, i);
                r.push(piece);
                assert(rows(r@) =~= before.push(piece@));
                assert(before.push(piece@) + pieces_from(s@, pat@, i + pat.len()) =~= before + (
                seq![piece@] + pieces_from(s@, pat@, i + pat.len())));
                pos = i + pat.len();
            },
            None => {
                let piece = slice(s, pos, s.len());
                r.push(piece);
                assert(rows(r@) =~= before + seq![piece@]);
                return r;
            },
        }
    }
}

/// Puts `sep` between each two neighbours of `parts` and returns the whole.
pub fn join(parts: &Vec<Vec<char>>, sep: &Vec<char>) -> (r: Vec<char>)
    ensures
        r@ == joined(rows(parts@), sep@),
{
    let mut r: Vec<char> = Vec::new();
    let mut i: usize = 0;
    while i < parts.len()
        invariant
            i <= parts.len(),
            r@ == joined(rows(parts@).take(i as int), sep@),
        decreases parts.len() - i,
    {
        if i > 0 {
            append(&mut r, sep);
        }
        append(&mut r, &parts[i]);
        i += 1;
        assert(rows(parts@).take(i as int).drop_last() =~= rows(parts@).take(i - 1));
    }
    assert(rows(parts@).take(parts@.len() as int) =~= rows(parts@));
    r
}

/// Replaces every occurrence of `from` in `s` by `to`; occurrences are taken
/// from left to right without overlap.
pub fn replace(s: &Vec<char>, from: &Vec<char>, to: &Vec<char>) -> (r: Vec<char>)
    requires
        from.len() > 0,
    ensures
        r@ == replaced(s@, from@, to@),
{
    let parts = split(s, from);
    join(&parts, to)
}

/// Removes the whitespace at either end of `s`.
pub fn trim(s: &Vec<char>) -> (r: Vec<char>)
    ensures
        r@ == trimmed(s@),
{
    let mut a: usize = 0;
    assert(s@.skip(0) =~= s@);
    while a < s.len() && is_whitespace(s[a])
        invariant
            a <= s.len(),
            trimmed_start(s@) == trimmed_start(s@.skip(a as int)),
        decreases s.len() - a,
    {
        assert(s@.skip(a as int).drop_first() =~= s@.skip(a + 1));
        a += 1;
    }
    let mut b: usize = s.len();
    assert(s@.skip(a as int) =~= s@.subrange(a as int, b as int));
    while b > a && is_whitespace(s[b - 1])
        invariant
            a <= b <= s.len(),
            trimmed(s@) == trimmed_end(s@.subrange(a as int, b as int)),
        decreases b - a,
    {
        assert(s@.subrange(a as int, b as int).drop_last() =~= s@.subrange(a as int, b - 1));
        b -= 1;
    }
    slice(s, a, b)
}

/// The character that writes the digit `d`.
pub fn digit(d: usize) -> (c: char)
    requires
        d < 10,
    ensures
        c == digit_char(d as int),
{
    if d == 0 {
        '0'
    } else if d == 1 {
        '1'
    } else if d == 2 {
        '2'
    } else if d == 3 {
        '3'
    } else if d == 4 {
        '4'
    } else if d == 5 {
        '5'
    } else if d == 6 {
        '6'
    } else if d == 7 {
        '7'
    } else if d == 8 {
        '8'
    } else {
        '9'
    }
}

/// Writes `n` in decimal, without leading zeros.
pub fn decimal(n: usize) -> (r: Vec<char>)
    ensures
        r@ == decimal_digits(n as nat),
    decreases n,
{
    if n < 10 {
        let mut r: Vec<char> = Vec::new();
        r.push(digit(n));
        r
    } else {
        let mut r = decimal(n / 10);
        r.push(digit(n % 10));
        r
    }
}

/// Copies the texts of `parts` that are not empty, in order.
pub fn without_empty(parts: &Vec<Vec<char>>) -> (r: Vec<Vec<char>>)
    ensures
        rows(r@) == rows(parts@).filter(nonempty()),
{
    let mut r: Vec<Vec<char>> = Vec::new();
    let mut i: usize = 0;
    assert(rows(parts@).take(0) =~= Seq::<Seq<char>>::empty());
    assert(Seq::<Seq<char>>::empty().filter(nonempty()) =~= rows(r@)) by {
        reveal(Seq::filter);
    }
    while i < parts.len()
        invariant
            i <= parts.len(),
            rows(r@) == rows(parts@).take(i as int).filter(nonempty()),
        decreases parts.len() - i,
    {
        let ghost before = rows(r@);
        proof {
            rows(parts@).take(i as int).lemma_filter_push(parts[i as int]@, nonempty());
            assert(rows(parts@).take(i + 1) =~= rows(parts@).take(i as int).push(
                parts[i as int]@,
            ));
        }
        if parts[i].len() > 0 {
            let part = slice(&parts[i], 0, parts[i].len());
            assert(part@ =~= parts[i as int]@);
            r.push(part);
            assert(rows(r@) =~= before.push(part@));
        }
        i += 1;
    }
    assert(rows(parts@).take(parts@.len() as int) =~= rows(parts@));
    r
}

} // verus!
