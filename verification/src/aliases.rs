//! Alias dictionaries: definitions keyed by canonical signature, built from
//! a configuration document and checked for circular references.

use crate::cycles::{
    acyclic, lemma_leaf_settled, lemma_reaches_extend, lemma_reaches_step,
    lemma_settled_acyclic, lemma_settled_from_references, on_cycle, reaches, refers, settled,
};
use crate::document::{describe, load_from_str, yaml_documents, Node};
use crate::global::{parse_function_args, signature_items, signature_key};
use vstd::prelude::*;

verus! {

/// What a definition says, as plain sequences: the names of its parameters
/// and its templates, both in order.
pub struct Definition {
    pub args: Seq<Seq<char>>,
    pub list: Seq<Seq<char>>,
}

/// An alias: parameter names and the templates that it stands for.
#[derive(Debug)]
pub struct Function {
    pub args: Vec<String>,
    pub list: Vec<String>,
}

impl View for Function {
    type V = Definition;

    open spec fn view(&self) -> Definition {
        Definition { args: self.args.deep_view(), list: self.list.deep_view() }
    }
}

/// Tells whether two lists hold the same texts in the same order.
pub fn same_texts(a: &Vec<String>, b: &Vec<String>) -> (r: bool)
    ensures
        r == (a.deep_view() == b.deep_view()),
{
    if a.len() != b.len() {
        assert(a.deep_view().len() != b.deep_view().len());
        return false;
    }
    let mut i: usize = 0;
    while i < a.len()
        invariant
            i <= a.len(),
            a.len() == b.len(),
            forall|j: int| 0 <= j < i ==> a[j]@ == b[j]@,
        decreases a.len() - i,
    {
        if a[i] != b[i] {
            assert(a.deep_view()[i as int] != b.deep_view()[i as int]);
            return false;
        }
        i += 1;
    }
    assert(a.deep_view() =~= b.deep_view());
    true
}

impl PartialEq for Function {
    fn eq(&self, other: &Self) -> (r: bool) {
        same_texts(&self.args, &other.args) && same_texts(&self.list, &other.list)
    }
}

impl vstd::std_specs::cmp::PartialEqSpecImpl for Function {
    open spec fn obeys_eq_spec() -> bool {
        true
    }

    open spec fn eq_spec(&self, other: &Self) -> bool {
        self@ == other@
    }
}

impl Eq for Function {

}

/// A dictionary of aliases: at most one definition for each key.
#[derive(Debug)]
pub struct AliasDictionary {
    entries: Vec<(String, Function)>,
}

impl View for AliasDictionary {
    type V = Map<Seq<char>, Definition>;

    closed spec fn view(&self) -> Map<Seq<char>, Definition> {
        Map::new(|key: Seq<char>| self.holds(key), |key: Seq<char>| self.entries[self.place(key)].1@)
    }
}

impl AliasDictionary {
    #[verifier::type_invariant]
    spec fn distinct_keys(self) -> bool {
        forall|i: int, j: int|
            0 <= i < j < self.entries.len() ==> self.entries[i].0@ != self.entries[j].0@
    }

    /// Some entry has this key.
    spec fn holds(&self, key: Seq<char>) -> bool {
        exists|i: int| 0 <= i < self.entries.len() && self.entries[i].0@ == key
    }

    /// The index of an entry that has this key.
    spec fn place(&self, key: Seq<char>) -> int {
        choose|i: int| 0 <= i < self.entries.len() && self.entries[i].0@ == key
    }

    /// An empty dictionary.
    pub fn new() -> (dict: Self)
        ensures
            dict@ == Map::<Seq<char>, Definition>::empty(),
    {
        let dict = AliasDictionary { entries: Vec::new() };
        assert(dict@ =~= Map::<Seq<char>, Definition>::empty());
        dict
    }

    /// The index of the entry that has this key, if there is one.
    fn position(&self, key: &String) -> (r: Option<usize>)
        ensures
            match r {
                Some(i) => i < self.entries.len() && self.entries[i as int].0@ == key@,
                None => !self.holds(key@),
            },
    {
        let mut i: usize = 0;
        while i < self.entries.len()
            invariant
                i <= self.entries.len(),
                forall|j: int| 0 <= j < i ==> self.entries[j].0@ != key@,
            decreases self.entries.len() - i,
        {
            if self.entries[i].0 == *key {
                return Some(i);
            }
            i += 1;
        }
        None
    }

    /// The definition stored under `key`, if there is one.
    pub fn get(&self, key: &str) -> (r: Option<&Function>)
        ensures
            match r {
                Some(function) => self@.contains_key(key@) && self@[key@] == function@,
                None => !self@.contains_key(key@),
            },
    {
        let key = key.to_owned();
        proof {
            use_type_invariant(self);
        }
        match self.position(&key) {
            Some(i) => {
                assert(self.holds(key@));
                Some(&self.entries[i].1)
            },
            None => None,
        }
    }

    /// Stores `function` under `key`; a definition that was stored under the
    /// same key before is replaced.
    pub fn insert(&mut self, key: String, function: Function)
        ensures
            final(self)@ == old(self)@.insert(key@, function@),
    {
        proof {
            use_type_invariant(&*self);
        }
        let ghost before = *self;
        let found = self.position(&key);
        let mut entries: Vec<(String, Function)> = Vec::new();
        core::mem::swap(&mut self.entries, &mut entries);
        match found {
            Some(i) => {
                entries.set(i, (key, function));
            },
            None => {
                entries.push((key, function));
            },
        }
        core::mem::swap(&mut self.entries, &mut entries);
        match found {
            Some(i) => {
                assert forall|k: Seq<char>| before.holds(k) <==> self.holds(k) by {
                    if before.holds(k) {
                        let j = before.place(k);
                        assert(self.entries[j].0@ == k);
                    }
                    if self.holds(k) {
                        let j = self.place(k);
                        assert(before.entries[j].0@ == k);
                    }
                }
            },
            None => {
                assert forall|k: Seq<char>| (before.holds(k) || k == key@) <==> self.holds(k) by {
                    if before.holds(k) {
                        let j = before.place(k);
                        assert(self.entries[j].0@ == k);
                    }
                    if k == key@ {
                        assert(self.entries[self.entries.len() - 1].0@ == k);
                    }
                }
            },
        }
        assert(self.distinct_keys());
        assert forall|k: Seq<char>| self.holds(k) implies #[trigger] self@[k] == before@.insert(
            key@,
            function@,
        )[k] by {
            let j = self.place(k);
            if k != key@ {
                assert(before.entries[j].0@ == k);
                assert(before.place(k) == j);
            }
        }
        let ghost after = before@.insert(key@, function@);
        assert forall|k: Seq<char>| self@.dom().contains(k) <==> after.dom().contains(k) by {
            assert(self@.dom().contains(k) <==> self.holds(k));
            assert(before@.dom().contains(k) <==> before.holds(k));
        }
        assert(self@ =~= after);
    }
}

impl AliasDictionary {
    /// A dictionary holds finitely many definitions.
    pub proof fn lemma_finite(&self)
        ensures
            self@.dom().finite(),
    {
        let keys = Seq::new(self.entries@.len(), |i: int| self.entries[i].0@);
        assert forall|key: Seq<char>| self@.dom().contains(key) <==> keys.to_set().contains(
            key,
        ) by {
            if self@.dom().contains(key) {
                assert(self.holds(key));
                let i = self.place(key);
                assert(keys[i] == key);
            }
            if keys.to_set().contains(key) {
                let i = choose|i: int| 0 <= i < keys.len() && keys[i] == key;
                assert(self.entries[i].0@ == key);
                assert(self.holds(key));
            }
        }
        assert(self@.dom() =~= keys.to_set());
        vstd::seq_lib::seq_to_set_is_finite(keys);
    }

    /// Each entry is found in the view under its key.
    proof fn lemma_entry(&self, i: int)
        requires
            self.distinct_keys(),
            0 <= i < self.entries.len(),
        ensures
            self@.contains_key(self.entries[i].0@),
            self@[self.entries[i].0@] == self.entries[i].1@,
    {
        let key = self.entries[i].0@;
        assert(self.holds(key));
        assert(self.place(key) == i);
    }

    /// Tells whether every definition of `self` is stored in `other` under
    /// the same key.
    fn within(&self, other: &Self) -> (r: bool)
        ensures
            r == self@.submap_of(other@),
    {
        proof {
            use_type_invariant(self);
        }
        let mut i: usize = 0;
        while i < self.entries.len()
            invariant
                i <= self.entries.len(),
                self.distinct_keys(),
                forall|j: int|
                    0 <= j < i ==> other@.contains_key(#[trigger] self.entries[j].0@)
                        && other@[self.entries[j].0@] == self.entries[j].1@,
            decreases self.entries.len() - i,
        {
            proof {
                self.lemma_entry(i as int);
            }
            match other.get(self.entries[i].0.as_str()) {
                Some(function) => {
                    if !(*function == self.entries[i].1) {
                        return false;
                    }
                },
                None => {
                    return false;
                },
            }
            i += 1;
        }
        assert forall|key: Seq<char>| #[trigger]
            self@.dom().contains(key) implies other@.dom().contains(key) && self@[key] == other@[key] by {
            let j = self.place(key);
            self.lemma_entry(j);
        }
        true
    }
}

impl PartialEq for AliasDictionary {
    fn eq(&self, other: &Self) -> (r: bool) {
        let r = self.within(other) && other.within(self);
        proof {
            if r {
                assert(self@ =~= other@);
            }
        }
        r
    }
}

impl vstd::std_specs::cmp::PartialEqSpecImpl for AliasDictionary {
    open spec fn obeys_eq_spec() -> bool {
        true
    }

    open spec fn eq_spec(&self, other: &Self) -> bool {
        self@ == other@
    }
}

/// Why a configuration gives no dictionary.
#[derive(Debug)]
pub enum ConfigError {
    /// The text is not well-formed YAML; holds the parser's message.
    Syntax(String),
    /// The text holds more than one document.
    SeveralDocuments,
    /// An entry is not a text key with a text or a list of texts as its
    /// value.
    Malformed,
    /// Following references leads from the alias with this key back to it.
    CircularDependency(String),
}

/// Where the search for cycles stands with a definition.
#[derive(Clone, Copy)]
enum Mark {
    Unvisited,
    Current,
    Visited,
}

/// The number of marks that say `Unvisited`.
spec fn unvisited(marks: Seq<Mark>) -> nat
    decreases marks.len(),
{
    if marks.len() == 0 {
        0
    } else {
        unvisited(marks.drop_last()) + if marks.last() is Unvisited {
            1nat
        } else {
            0nat
        }
    }
}

/// Marks that are unvisited only where they were before count no more
/// unvisited ones.
proof fn lemma_unvisited_shrinks(before: Seq<Mark>, after: Seq<Mark>)
    requires
        before.len() == after.len(),
        forall|i: int| 0 <= i < after.len() && after[i] is Unvisited ==> before[i] is Unvisited,
    ensures
        unvisited(after) <= unvisited(before),
    decreases before.len(),
{
    if before.len() > 0 {
        lemma_unvisited_shrinks(before.drop_last(), after.drop_last());
    }
}

/// Visiting one unvisited definition leaves fewer unvisited ones.
proof fn lemma_unvisited_visit(marks: Seq<Mark>, i: int, mark: Mark)
    requires
        0 <= i < marks.len(),
        marks[i] is Unvisited,
        !(mark is Unvisited),
    ensures
        unvisited(marks.update(i, mark)) < unvisited(marks),
    decreases marks.len(),
{
    let after = marks.update(i, mark);
    if i == marks.len() - 1 {
        assert(after.drop_last() =~= marks.drop_last());
    } else {
        assert(after.drop_last() =~= marks.drop_last().update(i, mark));
        lemma_unvisited_visit(marks.drop_last(), i, mark);
    }
}

/// Visits the definition with the key `sign`, and before it all that it
/// refers to, unless it was visited before.
fn check(visited: &mut Vec<Mark>, sign: &String, dict: &AliasDictionary) -> (r: Result<
    (),
    ConfigError,
>)
    requires
        old(visited).len() == dict.entries.len(),
        forall|i: int|
            0 <= i < dict.entries.len() && old(visited)[i] is Visited ==> settled(
                dict@,
                #[trigger] dict.entries[i].0@,
            ),
        forall|i: int|
            0 <= i < dict.entries.len() && old(visited)[i] is Current ==> reaches(
                dict@,
                #[trigger] dict.entries[i].0@,
                sign@,
            ),
    ensures
        match r {
            Ok(_) => {
                &&& final(visited).len() == old(visited).len()
                &&& forall|i: int|
                    0 <= i < dict.entries.len() ==> (#[trigger] final(visited)[i] is Current
                        <==> old(visited)[i] is Current)
                &&& forall|i: int|
                    0 <= i < dict.entries.len() && old(visited)[i] is Visited
                        ==> #[trigger] final(visited)[i] is Visited
                &&& forall|i: int|
                    0 <= i < dict.entries.len() && final(visited)[i] is Visited ==> settled(
                        dict@,
                        #[trigger] dict.entries[i].0@,
                    )
                &&& settled(dict@, sign@)
            },
            Err(ConfigError::CircularDependency(key)) => on_cycle(dict@, key@),
            Err(_) => false,
        },
    decreases unvisited(old(visited)@),
{
    proof {
        use_type_invariant(dict);
    }
    let i = match dict.position(sign) {
        Some(i) => i,
        None => {
            proof {
                lemma_leaf_settled(dict@, sign@);
            }
            return Ok(());
        },
    };
    proof {
        dict.lemma_entry(i as int);
    }
    match visited[i] {
        Mark::Visited => Ok(()),
        Mark::Current => Err(ConfigError::CircularDependency(sign.clone())),
        Mark::Unvisited => {
            proof {
                lemma_unvisited_visit(visited@, i as int, Mark::Current);
            }
            visited.set(i, Mark::Current);
            let function = &dict.entries[i].1;
            let mut t: usize = 0;
            while t < function.list.len()
                invariant
                    t <= function.list.len(),
                    i < dict.entries.len(),
                    dict.distinct_keys(),
                    function == &dict.entries[i as int].1,
                    dict.entries[i as int].0@ == sign@,
                    dict@.contains_key(sign@),
                    dict@[sign@] == function@,
                    visited.len() == old(visited).len() == dict.entries.len(),
                    old(visited)[i as int] is Unvisited,
                    unvisited(visited@) < unvisited(old(visited)@),
                    forall|j: int|
                        0 <= j < dict.entries.len() ==> (#[trigger] visited[j] is Current <==> (j
                            == i || old(visited)[j] is Current)),
                    forall|j: int|
                        0 <= j < dict.entries.len() && old(visited)[j] is Visited
                            ==> #[trigger] visited[j] is Visited,
                    forall|j: int|
                        0 <= j < dict.entries.len() && visited[j] is Visited ==> settled(
                            dict@,
                            #[trigger] dict.entries[j].0@,
                        ),
                    forall|j: int|
                        0 <= j < dict.entries.len() && old(visited)[j] is Current ==> reaches(
                            dict@,
                            #[trigger] dict.entries[j].0@,
                            sign@,
                        ),
                    forall|m: int|
                        0 <= m < t ==> settled(
                            dict@,
                            signature_key(#[trigger] function@.list[m]),
                        ),
                decreases function.list.len() - t,
            {
                let next = parse_function_args(function.list[t].as_str()).0;
                let ghost before = visited@;
                proof {
                    assert(function@.list[t as int] == function.list[t as int]@);
                    assert(refers(dict@, sign@, next@));
                    assert forall|j: int|
                        0 <= j < dict.entries.len() && visited[j] is Current implies reaches(
                        dict@,
                        #[trigger] dict.entries[j].0@,
                        next@,
                    ) by {
                        if j == i {
                            lemma_reaches_step(dict@, sign@, next@);
                        } else {
                            lemma_reaches_extend(dict@, dict.entries[j].0@, sign@, next@);
                        }
                    }
                }
                match check(visited, &next, dict) {
                    Ok(_) => {},
                    Err(error) => {
                        return Err(error);
                    },
                }
                proof {
                    lemma_unvisited_shrinks(before, visited@);
                }
                t += 1;
            }
            visited.set(i, Mark::Visited);
            proof {
                assert forall|m: int| 0 <= m < dict@[sign@].list.len() implies settled(
                    dict@,
                    signature_key(#[trigger] dict@[sign@].list[m]),
                ) by {
                    assert(settled(dict@, signature_key(function@.list[m])));
                }
                lemma_settled_from_references(dict@, sign@);
            }
            Ok(())
        },
    }
}

/// Looks for a cycle of references among the definitions of `dict`.
///
/// Succeeds exactly when the dictionary has none. Otherwise the error names
/// a key that lies on a cycle.
pub fn check_deps(dict: &AliasDictionary) -> (r: Result<(), ConfigError>)
    ensures
        r is Ok <==> acyclic(dict@),
        match r {
            Ok(_) => true,
            Err(ConfigError::CircularDependency(key)) => on_cycle(dict@, key@),
            Err(_) => false,
        },
{
    proof {
        use_type_invariant(dict);
    }
    let mut visited: Vec<Mark> = Vec::new();
    while visited.len() < dict.entries.len()
        invariant
            visited.len() <= dict.entries.len(),
            forall|i: int| 0 <= i < visited.len() ==> #[trigger] visited[i] is Unvisited,
        decreases dict.entries.len() - visited.len(),
    {
        visited.push(Mark::Unvisited);
    }
    let mut n: usize = 0;
    while n < dict.entries.len()
        invariant
            n <= dict.entries.len(),
            dict.distinct_keys(),
            visited.len() == dict.entries.len(),
            forall|i: int| 0 <= i < visited.len() ==> !(#[trigger] visited[i] is Current),
            forall|i: int|
                0 <= i < dict.entries.len() && visited[i] is Visited ==> settled(
                    dict@,
                    #[trigger] dict.entries[i].0@,
                ),
            forall|i: int| 0 <= i < n ==> settled(dict@, #[trigger] dict.entries[i].0@),
        decreases dict.entries.len() - n,
    {
        match check(&mut visited, &dict.entries[n].0, dict) {
            Ok(_) => {},
            Err(error) => {
                return Err(error);
            },
        }
        n += 1;
    }
    proof {
        assert forall|key: Seq<char>| dict@.contains_key(key) implies settled(dict@, key) by {
            assert(dict.holds(key));
            let i = dict.place(key);
            assert(settled(dict@, dict.entries[i].0@));
        }
        lemma_settled_acyclic(dict@);
    }
    Ok(())
}

/// The templates that the value of an entry stands for: the text itself, or
/// the texts of a list; `None` for any other value.
pub open spec fn templates_of(value: Node) -> Option<Seq<Seq<char>>> {
    match value {
        Node::Text(text) => Some(seq![text@]),
        Node::List(items) => if forall|i: int| 0 <= i < items.len() ==> #[trigger] items[i] is Text {
            Some(Seq::new(items.len() as nat, |i: int| items[i]->Text_0@))
        } else {
            None
        },
        _ => None,
    }
}

/// The key and the definition that an entry of a document stands for:
/// the key and the parameters come from the signature that the entry's key
/// spells, the templates from its value. `None` where the key is no text or
/// the value stands for no templates.
pub open spec fn entry_of(sign: Node, list: Node) -> Option<(Seq<char>, Definition)> {
    match (sign, templates_of(list)) {
        (Node::Text(text), Some(templates)) => Some(
            (signature_key(text@), Definition { args: signature_items(text@), list: templates }),
        ),
        _ => None,
    }
}

/// The dictionary that the entries build when taken in order, a later entry
/// replacing an earlier one with the same key; `None` where some entry
/// stands for no definition.
pub open spec fn dictionary_of(entries: Seq<(Node, Node)>) -> Option<Map<Seq<char>, Definition>>
    decreases entries.len(),
{
    if entries.len() == 0 {
        Some(Map::empty())
    } else {
        match (
            dictionary_of(entries.drop_last()),
            entry_of(entries.last().0, entries.last().1),
        ) {
            (Some(dict), Some((key, definition))) => Some(dict.insert(key, definition)),
            _ => None,
        }
    }
}

/// The dictionary that a document stands for: that of its entries where the
/// document is a mapping, the empty one where it is anything else or
/// missing.
pub open spec fn aliases_of(doc: Option<Node>) -> Option<Map<Seq<char>, Definition>> {
    match doc {
        Some(Node::Table(entries)) => dictionary_of(entries@),
        _ => Some(Map::empty()),
    }
}

/// Reads the templates from the value of an entry.
fn parse_templates(list: &Node) -> (r: Option<Vec<String>>)
    ensures
        match r {
            Some(templates) => templates_of(*list) == Some(templates.deep_view()),
            None => templates_of(*list) is None,
        },
{
    match list {
        Node::Text(text) => {
            let mut templates: Vec<String> = Vec::new();
            templates.push(text.clone());
            assert(templates.deep_view() =~= seq![text@]);
            Some(templates)
        },
        Node::List(items) => {
            let mut templates: Vec<String> = Vec::new();
            let mut i: usize = 0;
            while i < items.len()
                invariant
                    *list == Node::List(*items),
                    i <= items.len(),
                    templates.len() == i,
                    forall|j: int| 0 <= j < i ==> #[trigger] items[j] is Text,
                    forall|j: int| 0 <= j < i ==> #[trigger] templates[j]@ == items[j]->Text_0@,
                decreases items.len() - i,
            {
                match &items[i] {
                    Node::Text(text) => {
                        templates.push(text.clone());
                    },
                    _ => {
                        assert(!(items[i as int] is Text));
                        return None;
                    },
                }
                i += 1;
            }
            assert(templates.deep_view() =~= Seq::new(
                items.len() as nat,
                |i: int| items[i]->Text_0@,
            ));
            Some(templates)
        },
        _ => None,
    }
}

/// Reads one entry of a document into a key and its definition.
pub fn parse_function(sign: &Node, list: &Node) -> (r: Result<(String, Function), ConfigError>)
    ensures
        match entry_of(*sign, *list) {
            Some((key, definition)) => r matches Ok(entry) && entry.0@ == key && entry.1@
                == definition,
            None => r matches Err(ConfigError::Malformed),
        },
{
    let text = match sign {
        Node::Text(text) => text,
        _ => {
            return Err(ConfigError::Malformed);
        },
    };
    let list = match parse_templates(list) {
        Some(list) => list,
        None => {
            return Err(ConfigError::Malformed);
        },
    };
    let (key, args) = parse_function_args(text.as_str());
    Ok((key, Function { args, list }))
}

/// Builds the dictionary that a document stands for.
///
/// A missing document, or one that is no mapping, gives the empty
/// dictionary. The entries of a mapping are taken in order, a later entry
/// replacing an earlier one with the same key. An entry whose key is no
/// text, or whose value is neither a text nor a list of texts, is refused.
pub fn parse_aliases(doc: &Option<Node>) -> (r: Result<AliasDictionary, ConfigError>)
    ensures
        match aliases_of(*doc) {
            Some(aliases) => r matches Ok(dict) && dict@ == aliases,
            None => r matches Err(ConfigError::Malformed),
        },
{
    let mut dict = AliasDictionary::new();
    let entries = match doc {
        Some(Node::Table(entries)) => entries,
        _ => {
            return Ok(dict);
        },
    };
    let mut i: usize = 0;
    assert(entries@.take(0) =~= Seq::<(Node, Node)>::empty());
    while i < entries.len()
        invariant
            *doc == Some(Node::Table(*entries)),
            i <= entries.len(),
            dictionary_of(entries@.take(i as int)) == Some(dict@),
        decreases entries.len() - i,
    {
        proof {
            assert(entries@.take(i + 1).drop_last() =~= entries@.take(i as int));
        }
        match parse_function(&entries[i].0, &entries[i].1) {
            Ok((key, function)) => {
                dict.insert(key, function);
            },
            Err(error) => {
                proof {
                    assert(entries@.take(i + 1).last() == entries@[i as int]);
                    assert(dictionary_of(entries@.take(i + 1)) is None);
                    lemma_dictionary_of_prefix(entries@, i + 1);
                }
                return Err(error);
            },
        }
        i += 1;
    }
    assert(entries@.take(entries@.len() as int) =~= entries@);
    Ok(dict)
}

/// Entries of which some first ones build no dictionary build none
/// themselves.
proof fn lemma_dictionary_of_prefix(entries: Seq<(Node, Node)>, n: int)
    requires
        0 <= n <= entries.len(),
        dictionary_of(entries.take(n)) is None,
    ensures
        dictionary_of(entries) is None,
    decreases entries.len(),
{
    if n < entries.len() {
        assert(entries.drop_last().take(n) =~= entries.take(n));
        lemma_dictionary_of_prefix(entries.drop_last(), n);
    } else {
        assert(entries.take(n) =~= entries);
    }
}

/// The one document of a configuration text, if there are any; the outcome
/// of the parse is named by `yaml_documents`.
pub open spec fn document_of(documents: Seq<Node>) -> Option<Node> {
    if documents.len() == 0 {
        None
    } else {
        Some(documents[0])
    }
}

/// Parses a configuration text and returns its document, or nothing for a
/// text without documents.
///
/// A text that the parser rejects is refused with the parser's message, and
/// so is a text with more than one document.
pub fn load_yaml(content: &str) -> (r: Result<Option<Node>, ConfigError>)
    ensures
        match yaml_documents(content@) {
            None => r matches Err(ConfigError::Syntax(_)),
            Some(documents) => if documents.len() > 1 {
                r matches Err(ConfigError::SeveralDocuments)
            } else {
                r matches Ok(doc) && doc == document_of(documents)
            },
        },
{
    let mut documents = match load_from_str(content) {
        Ok(documents) => documents,
        Err(error) => {
            return Err(ConfigError::Syntax(describe(&error)));
        },
    };
    if documents.len() == 0 {
        Ok(None)
    } else if documents.len() == 1 {
        Ok(Some(documents.remove(0)))
    } else {
        Err(ConfigError::SeveralDocuments)
    }
}

/// Reads a configuration text into a dictionary of aliases and checks it for
/// circular references.
///
/// The text is parsed as YAML; the outcome of that parse is named by
/// `yaml_documents`. The dictionary is the one that `parse_aliases` builds
/// from the document, and it is returned only if it has no cycle.
pub fn parse_aliases_config(content: &str) -> (r: Result<AliasDictionary, ConfigError>)
    ensures
        match yaml_documents(content@) {
            None => r matches Err(ConfigError::Syntax(_)),
            Some(documents) => if documents.len() > 1 {
                r matches Err(ConfigError::SeveralDocuments)
            } else {
                match aliases_of(document_of(documents)) {
                    None => r matches Err(ConfigError::Malformed),
                    Some(aliases) => match r {
                        Ok(dict) => dict@ == aliases && acyclic(aliases),
                        Err(ConfigError::CircularDependency(key)) => on_cycle(aliases, key@),
                        Err(_) => false,
                    },
                }
            },
        },
{
    let doc = match load_yaml(content) {
        Ok(doc) => doc,
        Err(error) => {
            return Err(error);
        },
    };
    let dict = match parse_aliases(&doc) {
        Ok(dict) => dict,
        Err(error) => {
            return Err(error);
        },
    };
    match check_deps(&dict) {
        Ok(_) => Ok(dict),
        Err(error) => Err(error),
    }
}

} // verus!
