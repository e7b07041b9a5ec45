use hdi::prelude::{Component, SerializedBytes};
use prefix_index::demo::{
    add_to_index_a, get_random_results_index_a, index_for, remove_cashtag_from_index_a,
    remove_hashtag_from_index_a, search_index_a, LinkTypes, SearchIndexInput,
};
use prefix_index::{
    get_children, get_children_paths, make_cashtag_index_text, make_hashtag_index_text,
    path_to_string, validate_create_link_prefix_index, validate_delete_link_prefix_index,
    CreateLink, DeleteLink, Graph, IndexError, PrefixIndex, ScopedLinkType,
    ValidateCallbackResult,
};

fn strings(v: &[&str]) -> Vec<String> {
    v.iter().map(|s| s.to_string()).collect()
}

fn index_a() -> PrefixIndex {
    PrefixIndex::new(
        String::from("prefix_index_a"),
        ScopedLinkType {
            zome_index: 0,
            zome_type: 0,
        },
        3,
        3,
    )
}

fn tag_of(text: &str) -> Vec<u8> {
    SerializedBytes::try_from(Component::from(text))
        .unwrap()
        .bytes()
        .clone()
}

fn create(base: &[&str], target: &[&str], tag: Vec<u8>) -> CreateLink {
    CreateLink {
        author: vec![1, 2, 3],
        base_address: strings(base),
        target_address: strings(target),
        tag,
    }
}

fn is_valid(r: &ValidateCallbackResult) -> bool {
    matches!(r, ValidateCallbackResult::Valid)
}

fn search(graph: &Graph, query: &str, limit: usize) -> Vec<String> {
    search_index_a(
        graph,
        SearchIndexInput {
            query: query.into(),
            limit,
        },
    )
    .unwrap()
}

#[test]
fn result_path_shards_lower_case_text() {
    let path = index_a().make_result_path(String::from("SuperDuperCool"), None);
    assert_eq!(
        path,
        strings(&["prefix_index_a", "sup", "erd", "upe", "SuperDuperCool"])
    );
}

#[test]
fn result_path_drops_partial_shard_and_uses_label() {
    let path = index_a().make_result_path(String::from("HOLY"), Some(String::from("$HOLY")));
    assert_eq!(path, strings(&["prefix_index_a", "hol", "$HOLY"]));
    let path = index_a().make_result_path(String::from("ab"), None);
    assert_eq!(path, strings(&["prefix_index_a", "ab"]));
}

#[test]
fn result_path_counts_characters_not_bytes() {
    let path = index_a().make_result_path(String::from("ÉÉÉÉ"), None);
    assert_eq!(path, strings(&["prefix_index_a", "ééé", "ÉÉÉÉ"]));
}

#[test]
fn marker_text_is_what_follows_the_marker() {
    assert_eq!(make_hashtag_index_text(String::from("#HOLOCHAIN")), "HOLOCHAIN");
    assert_eq!(make_hashtag_index_text(String::from("plain")), "plain");
    assert_eq!(make_hashtag_index_text(String::from("a#b#c")), "b");
    assert_eq!(make_cashtag_index_text(String::from("$CAT")), "CAT");
    assert_eq!(make_cashtag_index_text(String::from("#CAT")), "#CAT");
}

#[test]
fn adding_twice_changes_nothing() {
    let mut once = Graph::new();
    add_to_index_a(&mut once, String::from("superdupercool"));
    let mut twice = Graph::new();
    add_to_index_a(&mut twice, String::from("superdupercool"));
    add_to_index_a(&mut twice, String::from("superdupercool"));
    assert_eq!(search(&once, "sup", 5), search(&twice, "sup", 5));
    assert_eq!(search(&twice, "sup", 5), strings(&["superdupercool"]));
}

#[test]
fn search_limit_one_takes_first_shard_in_order() {
    let mut graph = Graph::new();
    for t in ["supersaturates", "superdupercrazy", "supercomputing", "superdupercool"] {
        add_to_index_a(&mut graph, String::from(t));
    }
    assert_eq!(search(&graph, "sup", 1), strings(&["supercomputing"]));
    assert_eq!(
        search(&graph, "sup", 4),
        strings(&[
            "supercomputing",
            "superdupercool",
            "superdupercrazy",
            "supersaturates"
        ])
    );
}

#[test]
fn ascent_lists_deeper_bucket_first() {
    let mut graph = Graph::new();
    for t in ["supersaturates", "superdupercrazy", "supercomputing", "superdupercool"] {
        add_to_index_a(&mut graph, String::from(t));
    }
    assert_eq!(
        search(&graph, "superduperbad", 5),
        strings(&[
            "superdupercool",
            "superdupercrazy",
            "supercomputing",
            "supersaturates"
        ])
    );
}

#[test]
fn zero_limit_is_invalid_input() {
    let graph = Graph::new();
    let r = search_index_a(
        &graph,
        SearchIndexInput {
            query: String::from("sup"),
            limit: 0,
        },
    );
    assert_eq!(r, Err(IndexError::InvalidInput));
    assert_eq!(
        get_random_results_index_a(&graph, 0),
        Err(IndexError::InvalidInput)
    );
}

#[test]
fn random_results_hold_limit_or_all() {
    let mut graph = Graph::new();
    for t in ["alpha", "bravo", "charlie"] {
        add_to_index_a(&mut graph, String::from(t));
    }
    let two = get_random_results_index_a(&graph, 2).unwrap();
    assert_eq!(two.len(), 2);
    assert_ne!(two[0], two[1]);
    let mut all = get_random_results_index_a(&graph, 10).unwrap();
    all.sort();
    assert_eq!(all, strings(&["alpha", "bravo", "charlie"]));
}

#[test]
fn removing_last_entry_prunes_the_chain() {
    let mut graph = Graph::new();
    add_to_index_a(&mut graph, String::from("superduper"));
    remove_from_index_a_helper(&mut graph, "superduper");
    assert!(graph.contains(&strings(&["prefix_index_a"])));
    assert!(!graph.contains(&strings(&["prefix_index_a", "sup"])));
    assert!(get_children(&graph, &strings(&["prefix_index_a"])).is_empty());
    assert_eq!(search(&graph, "sup", 4).len(), 0);
}

fn remove_from_index_a_helper(graph: &mut Graph, text: &str) {
    prefix_index::demo::remove_from_index_a(graph, String::from(text));
}

#[test]
fn removing_absent_text_is_a_no_op() {
    let mut graph = Graph::new();
    add_to_index_a(&mut graph, String::from("superdupercool"));
    remove_from_index_a_helper(&mut graph, "superduper");
    remove_from_index_a_helper(&mut graph, "cow");
    assert_eq!(search(&graph, "sup", 4), strings(&["superdupercool"]));
}

#[test]
fn removing_labelled_entries() {
    let mut graph = Graph::new();
    prefix_index::demo::add_hashtag_to_index_a(&mut graph, String::from("#HOLOCHAIN"));
    prefix_index::demo::add_cashtag_to_index_a(&mut graph, String::from("$HOLY"));
    remove_hashtag_from_index_a(&mut graph, String::from("#HOLOCHAIN"));
    assert_eq!(search(&graph, "holo", 5), strings(&["$HOLY"]));
    remove_cashtag_from_index_a(&mut graph, String::from("$HOLY"));
    assert_eq!(search(&graph, "holo", 5).len(), 0);
}

#[test]
fn children_come_in_order() {
    let mut graph = Graph::new();
    for t in ["supersaturates", "cow", "supercomputing"] {
        add_to_index_a(&mut graph, String::from(t));
    }
    let base = strings(&["prefix_index_a"]);
    assert_eq!(get_children(&graph, &base), strings(&["cow", "sup"]));
    let paths = get_children_paths(&graph, &strings(&["prefix_index_a", "sup"]));
    assert_eq!(
        paths,
        vec![
            strings(&["prefix_index_a", "sup", "erc"]),
            strings(&["prefix_index_a", "sup", "ers"])
        ]
    );
}

#[test]
fn path_to_string_joins_with_dots() {
    assert_eq!(path_to_string(&strings(&["a", "bc", "d"])), "a.bc.d");
    assert_eq!(path_to_string(&strings(&[])), "");
}

#[test]
fn demo_indexes_have_their_shapes() {
    let c = index_for(LinkTypes::PrefixIndexC);
    assert_eq!(c.index_name, "prefix_index_c");
    assert_eq!((c.width, c.depth), (4, 2));
}

#[test]
fn root_link_must_carry_index_name() {
    let ok = create(&[], &["prefix_index_a"], tag_of("prefix_index_a"));
    assert!(is_valid(&validate_create_link_prefix_index(&ok, &index_a()).unwrap()));
    let forged = create(&[], &["other"], tag_of("other"));
    assert!(!is_valid(&validate_create_link_prefix_index(&forged, &index_a()).unwrap()));
    let wrong_target = create(&[], &["other"], tag_of("prefix_index_a"));
    assert!(!is_valid(
        &validate_create_link_prefix_index(&wrong_target, &index_a()).unwrap()
    ));
}

#[test]
fn shard_link_must_have_index_width() {
    let ok = create(&["prefix_index_a"], &["prefix_index_a", "sup"], tag_of("sup"));
    assert!(is_valid(&index_a().validate_create_link(ok).unwrap()));
    let wide = create(&["prefix_index_a"], &["prefix_index_a", "supe"], tag_of("supe"));
    assert!(!is_valid(&index_a().validate_create_link(wide).unwrap()));
    let deeper = create(
        &["prefix_index_a", "sup"],
        &["prefix_index_a", "sup", "x"],
        tag_of("x"),
    );
    assert!(is_valid(&index_a().validate_create_link(deeper).unwrap()));
}

#[test]
fn undecodable_tag_is_a_decode_failure() {
    let garbage = create(&[], &["prefix_index_a"], vec![0xc1]);
    assert_eq!(
        validate_create_link_prefix_index(&garbage, &index_a()).err(),
        Some(IndexError::DecodeFailure)
    );
    let three = SerializedBytes::try_from(Component::from(vec![1u8, 2, 3]))
        .unwrap()
        .bytes()
        .clone();
    let odd = create(&[], &["prefix_index_a"], three);
    assert_eq!(
        validate_create_link_prefix_index(&odd, &index_a()).err(),
        Some(IndexError::DecodeFailure)
    );
}

#[test]
fn delete_needs_author_and_non_root_base() {
    let original = create(&["prefix_index_a"], &["prefix_index_a", "sup"], tag_of("sup"));
    let by_author = DeleteLink {
        author: vec![1, 2, 3],
        base_address: strings(&["prefix_index_a"]),
    };
    assert!(is_valid(&validate_delete_link_prefix_index(&by_author, &original)));
    let by_other = DeleteLink {
        author: vec![9],
        base_address: strings(&["prefix_index_a"]),
    };
    assert!(!is_valid(&validate_delete_link_prefix_index(&by_other, &original)));
    let root_link = create(&[], &["prefix_index_a"], tag_of("prefix_index_a"));
    let root_delete = DeleteLink {
        author: vec![1, 2, 3],
        base_address: vec![],
    };
    assert!(!is_valid(&index_a().validate_delete_link(root_delete, root_link)));
}

fn wide_index() -> PrefixIndex {
    PrefixIndex::new(
        String::from("wide"),
        ScopedLinkType {
            zome_index: 0,
            zome_type: 3,
        },
        5,
        1,
    )
}

#[test]
fn children_follow_tag_bytes_shorter_first() {
    let index = wide_index();
    let mut graph = Graph::new();
    index.add_result(&mut graph, String::from("ab"));
    index.add_result(&mut graph, String::from("b"));
    assert_eq!(get_children(&graph, &strings(&["wide"])), strings(&["b", "ab"]));
    let results = index
        .get_results_from_path(&graph, &strings(&["wide", "zz"]), 5)
        .len();
    assert_eq!(results, 0);
}

#[test]
fn children_follow_little_endian_character_bytes() {
    let index = wide_index();
    let mut graph = Graph::new();
    index.add_result_with_label(&mut graph, String::from("x"), String::from("a"));
    index.add_result_with_label(&mut graph, String::from("y"), String::from("\u{100}"));
    assert_eq!(
        get_children(&graph, &strings(&["wide"])),
        strings(&["\u{100}", "a"])
    );
}

#[test]
fn shard_path_slices_lowered_text() {
    let path = prefix_index::shard_path(
        &String::from("prefix_index_a"),
        3,
        3,
        &String::from("superdupercool"),
        String::from("SuperDuperCool"),
    );
    assert_eq!(
        path,
        strings(&["prefix_index_a", "sup", "erd", "upe", "SuperDuperCool"])
    );
}

#[test]
fn validators_give_their_reasons() {
    let wide = create(&["prefix_index_a"], &["prefix_index_a", "supe"], tag_of("supe"));
    match index_a().validate_create_link(wide).unwrap() {
        ValidateCallbackResult::Invalid(reason) => assert_eq!(
            reason,
            "PrefixIndex second component: tag string must have same number of chars as prefix index width"
        ),
        ValidateCallbackResult::Valid => panic!("a wide shard tag was accepted"),
    }
    let original = create(&["prefix_index_a"], &["prefix_index_a", "sup"], tag_of("sup"));
    let by_other = DeleteLink {
        author: vec![9],
        base_address: strings(&["prefix_index_a"]),
    };
    match validate_delete_link_prefix_index(&by_other, &original) {
        ValidateCallbackResult::Invalid(reason) => {
            assert_eq!(reason, "Only the original author can delete a PrefixIndex link")
        }
        ValidateCallbackResult::Valid => panic!("a foreign delete was accepted"),
    }
}
