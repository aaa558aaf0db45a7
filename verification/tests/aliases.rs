use tospoof::aliases::{
    check_deps, load_yaml, parse_aliases, parse_aliases_config, parse_function, same_texts,
    AliasDictionary, ConfigError, Function,
};
use tospoof::document::Node;

fn strings(items: &[&str]) -> Vec<String> {
    items.iter().map(|item| item.to_string()).collect()
}

fn function(args: &[&str], list: &[&str]) -> Function {
    Function {
        args: strings(args),
        list: strings(list),
    }
}

fn dictionary(entries: &[(&str, &[&str], &[&str])]) -> AliasDictionary {
    let mut dict = AliasDictionary::new();
    for (key, args, list) in entries {
        dict.insert(key.to_string(), function(args, list));
    }
    dict
}

fn text(value: &str) -> Node {
    Node::Text(value.to_string())
}

fn cycle_at(dict: &AliasDictionary) -> String {
    match check_deps(dict) {
        Err(ConfigError::CircularDependency(key)) => key,
        other => panic!("no cycle reported: {:?}", other),
    }
}

#[test]
fn test_some() {
    let aliases: String = "\
        my-project-hosted-in-local-network-addr: 192.168.1.101\n\
        my-prj: my-project-hosted-in-local-network-addr\n\
        local(third, fourth): 127.0.<third>.<fourth>\n\
        dev(site): <site>.dev\n\
        localhost(last): local(0, <last>)\n\
        my-domains(lang):\n\
          - <lang>.example.com\n\
          - <lang>.test.net\n\
        my-domains-full-list:\n\
          - us.example.com\n\
          - my-domains(de)\n\
          - my-domains(static)\n\
        some-domains-as-one-line-array: [example.com, example.net]\n\
        preset-example:\n\
          - localhost(1)\n\
          - dev(example.local)\n\
          - my-domains-full-list\n\
        preset-as-array-example: ['local(0, 1)', my-prj]\n\
    "
    .to_string();

    let actual = parse_aliases_config(&aliases);

    let mut expected = AliasDictionary::new();

    expected.insert(
        "my-project-hosted-in-local-network-addr".to_string(),
        Function {
            args: vec![],
            list: vec!["192.168.1.101".to_string()],
        },
    );

    expected.insert(
        "my-prj".to_string(),
        Function {
            args: vec![],
            list: vec!["my-project-hosted-in-local-network-addr".to_string()],
        },
    );

    expected.insert(
        "local(2)".to_string(),
        Function {
            args: vec!["third".to_string(), "fourth".to_string()],
            list: vec!["127.0.<third>.<fourth>".to_string()],
        },
    );

    expected.insert(
        "dev(1)".to_string(),
        Function {
            args: vec!["site".to_string()],
            list: vec!["<site>.dev".to_string()],
        },
    );

    expected.insert(
        "localhost(1)".to_string(),
        Function {
            args: vec!["last".to_string()],
            list: vec!["local(0, <last>)".to_string()],
        },
    );

    expected.insert(
        "my-domains(1)".to_string(),
        Function {
            args: vec!["lang".to_string()],
            list: vec![
                "<lang>.example.com".to_string(),
                "<lang>.test.net".to_string(),
            ],
        },
    );

    expected.insert(
        "my-domains-full-list".to_string(),
        Function {
            args: vec![],
            list: vec![
                "us.example.com".to_string(),
                "my-domains(de)".to_string(),
                "my-domains(static)".to_string(),
            ],
        },
    );

    expected.insert(
        "some-domains-as-one-line-array".to_string(),
        Function {
            args: vec![],
            list: vec!["example.com".to_string(), "example.net".to_string()],
        },
    );

    expected.insert(
        "preset-example".to_string(),
        Function {
            args: vec![],
            list: vec![
                "localhost(1)".to_string(),
                "dev(example.local)".to_string(),
                "my-domains-full-list".to_string(),
            ],
        },
    );

    expected.insert(
        "preset-as-array-example".to_string(),
        Function {
            args: vec![],
            list: vec!["local(0, 1)".to_string(), "my-prj".to_string()],
        },
    );

    assert_eq!(actual.unwrap(), expected);
}

#[test]
fn same_texts_compares_in_order() {
    assert!(same_texts(&strings(&[]), &strings(&[])));
    assert!(same_texts(&strings(&["a", "b"]), &strings(&["a", "b"])));
    assert!(!same_texts(&strings(&["a", "b"]), &strings(&["b", "a"])));
    assert!(!same_texts(&strings(&["a"]), &strings(&["a", "b"])));
    assert!(!same_texts(&strings(&["a", "b"]), &strings(&["a", "c"])));
}

#[test]
fn functions_are_equal_by_what_they_hold() {
    assert_eq!(function(&["x"], &["<x>.dev"]), function(&["x"], &["<x>.dev"]));
    assert_ne!(function(&["x"], &["<x>.dev"]), function(&["y"], &["<x>.dev"]));
    assert_ne!(function(&["x"], &["<x>.dev"]), function(&["x"], &["<x>.com"]));
    assert_ne!(function(&[], &["a", "b"]), function(&[], &["a"]));
}

#[test]
fn dictionary_gets_what_was_inserted() {
    let dict = dictionary(&[("a", &[], &["b"]), ("f(1)", &["x"], &["<x>"])]);
    assert_eq!(Some(&function(&[], &["b"])), dict.get("a"));
    assert_eq!(Some(&function(&["x"], &["<x>"])), dict.get("f(1)"));
    assert_eq!(None, dict.get("f"));
    assert_eq!(None, dict.get(""));
    assert_eq!(None, AliasDictionary::new().get("a"));
}

#[test]
fn dictionary_insert_replaces_under_the_same_key() {
    let mut dict = dictionary(&[("a", &[], &["b"]), ("c", &[], &["d"])]);
    dict.insert("a".to_string(), function(&[], &["e"]));
    assert_eq!(Some(&function(&[], &["e"])), dict.get("a"));
    assert_eq!(Some(&function(&[], &["d"])), dict.get("c"));
    assert_eq!(dictionary(&[("c", &[], &["d"]), ("a", &[], &["e"])]), dict);
}

#[test]
fn dictionaries_are_equal_whatever_the_order() {
    let one = dictionary(&[("a", &[], &["b"]), ("c", &[], &["d"])]);
    let other = dictionary(&[("c", &[], &["d"]), ("a", &[], &["b"])]);
    assert_eq!(one, other);
    assert_eq!(AliasDictionary::new(), AliasDictionary::new());
}

#[test]
fn dictionaries_differ_by_a_key_or_a_definition() {
    let one = dictionary(&[("a", &[], &["b"]), ("c", &[], &["d"])]);
    assert_ne!(one, dictionary(&[("a", &[], &["b"])]));
    assert_ne!(dictionary(&[("a", &[], &["b"])]), one);
    assert_ne!(one, dictionary(&[("a", &[], &["b"]), ("c", &[], &["e"])]));
    assert_ne!(one, dictionary(&[("a", &[], &["b"]), ("e", &[], &["d"])]));
    assert_ne!(one, AliasDictionary::new());
}

#[test]
fn parse_function_reads_a_text_value() {
    let (key, found) = parse_function(&text("local(third, fourth)"), &text("127.0.<third>.<fourth>"))
        .unwrap();
    assert_eq!("local(2)", key);
    assert_eq!(function(&["third", "fourth"], &["127.0.<third>.<fourth>"]), found);
}

#[test]
fn parse_function_reads_a_list_value() {
    let list = Node::List(vec![text("<lang>.example.com"), text("<lang>.test.net")]);
    let (key, found) = parse_function(&text(" my-domains ( lang ) "), &list).unwrap();
    assert_eq!("my-domains(1)", key);
    assert_eq!(
        function(&["lang"], &["<lang>.example.com", "<lang>.test.net"]),
        found
    );
}

#[test]
fn parse_function_keeps_templates_as_they_are_written() {
    let (_, found) = parse_function(&text("a"), &text(" local( 0, 1 ) ")).unwrap();
    assert_eq!(function(&[], &[" local( 0, 1 ) "]), found);
}

#[test]
fn parse_function_reads_an_empty_list() {
    let (key, found) = parse_function(&text("none"), &Node::List(vec![])).unwrap();
    assert_eq!("none", key);
    assert_eq!(function(&[], &[]), found);
}

#[test]
fn parse_function_refuses_other_shapes() {
    let refused = |sign: Node, list: Node| {
        matches!(parse_function(&sign, &list), Err(ConfigError::Malformed))
    };
    assert!(refused(text("a"), Node::Other));
    assert!(refused(text("a"), Node::Table(vec![(text("b"), text("c"))])));
    assert!(refused(text("a"), Node::List(vec![text("b"), Node::Other])));
    assert!(refused(text("a"), Node::List(vec![Node::List(vec![text("b")])])));
    assert!(refused(Node::Other, text("b")));
    assert!(refused(Node::List(vec![text("a")]), text("b")));
    assert!(refused(Node::Other, Node::Other));
}

#[test]
fn parse_aliases_of_no_mapping_is_empty() {
    assert_eq!(AliasDictionary::new(), parse_aliases(&None).unwrap());
    assert_eq!(AliasDictionary::new(), parse_aliases(&Some(text("a"))).unwrap());
    assert_eq!(
        AliasDictionary::new(),
        parse_aliases(&Some(Node::List(vec![text("a")]))).unwrap()
    );
    assert_eq!(AliasDictionary::new(), parse_aliases(&Some(Node::Other)).unwrap());
    assert_eq!(
        AliasDictionary::new(),
        parse_aliases(&Some(Node::Table(vec![]))).unwrap()
    );
}

#[test]
fn parse_aliases_takes_entries_in_order() {
    let doc = Some(Node::Table(vec![
        (text("a"), text("b")),
        (text("f(x)"), Node::List(vec![text("<x>"), text("a")])),
    ]));
    assert_eq!(
        dictionary(&[("a", &[], &["b"]), ("f(1)", &["x"], &["<x>", "a"])]),
        parse_aliases(&doc).unwrap()
    );
}

#[test]
fn parse_aliases_lets_the_later_entry_win() {
    let doc = Some(Node::Table(vec![
        (text("f(x)"), text("<x>.one")),
        (text("g"), text("h")),
        (text("f( y )"), text("<y>.two")),
    ]));
    assert_eq!(
        dictionary(&[("g", &[], &["h"]), ("f(1)", &["y"], &["<y>.two"])]),
        parse_aliases(&doc).unwrap()
    );
}

#[test]
fn parse_aliases_refuses_one_bad_entry_among_good_ones() {
    for bad in 0..3 {
        let mut entries = vec![
            (text("a"), text("b")),
            (text("c"), text("d")),
            (text("e"), text("f")),
        ];
        entries[bad] = (text("x"), Node::Other);
        assert!(matches!(
            parse_aliases(&Some(Node::Table(entries))),
            Err(ConfigError::Malformed)
        ));
    }
}

#[test]
fn load_yaml_gives_the_document() {
    assert_eq!(None, load_yaml("").unwrap());
    assert_eq!(Some(text("a")), load_yaml("a").unwrap());
    assert_eq!(
        Some(Node::List(vec![text("a"), Node::Other, text("b")])),
        load_yaml("[a, 1, b]").unwrap()
    );
    assert_eq!(
        Some(Node::Table(vec![
            (text("a"), text("b")),
            (text("c"), Node::List(vec![text("d")])),
            (Node::Other, Node::Table(vec![(text("e"), Node::Other)])),
        ])),
        load_yaml("a: b\nc:\n  - d\n1:\n  e: ~\n").unwrap()
    );
}

#[test]
fn load_yaml_keeps_quoted_scalars_as_text() {
    assert_eq!(
        Some(Node::List(vec![text("1"), text("true"), text("a b")])),
        load_yaml("['1', \"true\", 'a b']").unwrap()
    );
}

#[test]
fn load_yaml_refuses_several_documents() {
    assert!(matches!(
        load_yaml("a: b\n---\nc: d\n"),
        Err(ConfigError::SeveralDocuments)
    ));
}

#[test]
fn load_yaml_refuses_what_is_no_yaml() {
    match load_yaml("a: [b, c") {
        Err(ConfigError::Syntax(message)) => assert!(!message.is_empty()),
        other => panic!("not refused: {:?}", other),
    }
    assert!(matches!(
        load_yaml("a: 'b"),
        Err(ConfigError::Syntax(_))
    ));
}

#[test]
fn config_of_an_empty_text_is_an_empty_dictionary() {
    assert_eq!(AliasDictionary::new(), parse_aliases_config("").unwrap());
    assert_eq!(AliasDictionary::new(), parse_aliases_config("# nothing\n").unwrap());
}

#[test]
fn config_that_is_no_mapping_is_an_empty_dictionary() {
    assert_eq!(AliasDictionary::new(), parse_aliases_config("- a\n- b\n").unwrap());
    assert_eq!(AliasDictionary::new(), parse_aliases_config("just text").unwrap());
}

#[test]
fn config_errors_each_have_their_input() {
    assert!(matches!(
        parse_aliases_config("a: [b"),
        Err(ConfigError::Syntax(_))
    ));
    assert!(matches!(
        parse_aliases_config("a: b\n---\nc: d\n"),
        Err(ConfigError::SeveralDocuments)
    ));
    assert!(matches!(
        parse_aliases_config("a:\n  b: c\n"),
        Err(ConfigError::Malformed)
    ));
    assert!(matches!(
        parse_aliases_config("a: 1\n"),
        Err(ConfigError::Malformed)
    ));
    assert!(matches!(
        parse_aliases_config("a: [b, [c]]\n"),
        Err(ConfigError::Malformed)
    ));
    assert!(matches!(
        parse_aliases_config("1: a\n"),
        Err(ConfigError::Malformed)
    ));
    match parse_aliases_config("a: b\nb: a\n") {
        Err(ConfigError::CircularDependency(key)) => assert!(key == "a" || key == "b"),
        other => panic!("not refused: {:?}", other),
    }
}

#[test]
fn config_with_a_repeated_signature_keeps_the_later_definition() {
    assert_eq!(
        dictionary(&[("f(1)", &["y"], &["<y>.two"])]),
        parse_aliases_config("f(x): <x>.one\nf(y): <y>.two\n").unwrap()
    );
}

#[test]
fn two_aliases_that_refer_to_each_other_are_a_cycle() {
    let dict = dictionary(&[("a", &[], &["b"]), ("b", &[], &["a"])]);
    let key = cycle_at(&dict);
    assert!(key == "a" || key == "b");
}

#[test]
fn an_alias_that_refers_to_itself_is_a_cycle() {
    assert_eq!("a", cycle_at(&dictionary(&[("a", &[], &["a"])])));
    assert_eq!(
        "f(1)",
        cycle_at(&dictionary(&[("f(1)", &["x"], &["ok", "f( <x> )"])]))
    );
}

#[test]
fn a_cycle_behind_other_aliases_is_found() {
    let dict = dictionary(&[
        ("start", &[], &["literal", "middle"]),
        ("middle", &[], &["one"]),
        ("one", &[], &["two"]),
        ("two", &[], &["three", "one"]),
        ("three", &[], &["3.3.3.3"]),
    ]);
    let key = cycle_at(&dict);
    assert!(key == "one" || key == "two");
}

#[test]
fn a_cycle_through_calls_is_found_by_their_keys() {
    let dict = dictionary(&[
        ("f(1)", &["x"], &["g(<x>, 1)"]),
        ("g(2)", &["x", "y"], &["f(<y>)"]),
    ]);
    let key = cycle_at(&dict);
    assert!(key == "f(1)" || key == "g(2)");
}

#[test]
fn calls_with_other_counts_are_other_aliases() {
    let dict = dictionary(&[
        ("f(1)", &["x"], &["f(<x>, 1)"]),
        ("f(2)", &["x", "y"], &["f"]),
        ("f", &[], &["1.1.1.1"]),
    ]);
    assert!(check_deps(&dict).is_ok());
}

#[test]
fn a_diamond_is_no_cycle() {
    let dict = dictionary(&[
        ("top", &[], &["left", "right"]),
        ("left", &[], &["bottom"]),
        ("right", &[], &["bottom"]),
        ("bottom", &[], &["1.2.3.4"]),
    ]);
    assert!(check_deps(&dict).is_ok());
}

#[test]
fn references_without_a_definition_are_no_error() {
    let dict = dictionary(&[("a", &[], &["unknown", "also(unknown)"])]);
    assert!(check_deps(&dict).is_ok());
    assert!(check_deps(&AliasDictionary::new()).is_ok());
}

#[test]
fn a_long_chain_is_no_cycle_until_it_is_closed() {
    let mut dict = AliasDictionary::new();
    for i in 0..200 {
        dict.insert(format!("k{}", i), function(&[], &[&format!("k{}", i + 1)]));
    }
    assert!(check_deps(&dict).is_ok());
    dict.insert("k200".to_string(), function(&[], &["k0"]));
    let key = cycle_at(&dict);
    assert!(dict.get(&key).is_some());
}
