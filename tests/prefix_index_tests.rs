use std::collections::HashSet;

use prefix_index::demo::{
    add_cashtag_to_index_a, add_hashtag_to_index_a, add_to_index_a, add_to_index_b, add_to_index_c,
    get_random_results_index_a, remove_from_index_a, search_index_a, search_index_b, search_index_c,
    SearchIndexInput,
};
use prefix_index::Graph;

fn input(query: &str, limit: usize) -> SearchIndexInput {
    SearchIndexInput {
        query: query.into(),
        limit,
    }
}

fn four() -> [String; 4] {
    [
        String::from("superdupercool"),
        String::from("superdupercrazy"),
        String::from("supercomputing"),
        String::from("supersaturates"),
    ]
}

#[test]
fn search_prefix_index_with_width_3_and_depth_3() {
    let mut graph = Graph::new();
    add_to_index_a(&mut graph, String::from("superdupercool"));
    add_to_index_a(&mut graph, String::from("superdupercrazy"));
    add_to_index_a(&mut graph, String::from("supercomputing"));
    add_to_index_a(&mut graph, String::from("supersaturates"));

    let results = search_index_a(&graph, input("sup", 4)).unwrap();
    assert!(four().iter().all(|item| results.contains(item)));

    let results = search_index_a(&graph, input("sup", 1)).unwrap();
    assert!(results.contains(&String::from("supercomputing")));

    let results = search_index_a(&graph, input("super", 5)).unwrap();
    assert!(four().iter().all(|item| results.contains(item)));
    assert_eq!(results[0], String::from("supercomputing"));

    let results = search_index_a(&graph, input("superdupe", 5)).unwrap();
    assert!(four().iter().all(|item| results.contains(item)));
    assert_eq!(results[0], String::from("superdupercool"));

    let results = search_index_a(&graph, input("superdupercool", 5)).unwrap();
    assert!(four().iter().all(|item| results.contains(item)));
    assert_eq!(results[0], String::from("superdupercool"));

    let results = search_index_a(&graph, input("superduperbad", 5)).unwrap();
    assert!(four().iter().all(|item| results.contains(item)));
    assert_eq!(results[0], String::from("superdupercool"));

    let results = search_index_a(&graph, input("supersaturday", 5)).unwrap();
    assert!(four().iter().all(|item| results.contains(item)));
    assert_eq!(results[0], String::from("supersaturates"));

    let results = search_index_a(&graph, input("cow", 5)).unwrap();
    assert_eq!(results.len(), 0);
}

#[test]
fn search_prefix_index_with_width_3_and_depth_5() {
    let mut graph = Graph::new();
    add_to_index_b(&mut graph, String::from("superdupercool"));
    add_to_index_b(&mut graph, String::from("superdupercrazy"));
    add_to_index_b(&mut graph, String::from("supercomputing"));
    add_to_index_b(&mut graph, String::from("supersaturates"));

    let results = search_index_b(&graph, input("sup", 4)).unwrap();
    assert!(four().iter().all(|item| results.contains(item)));

    let results = search_index_b(&graph, input("sup", 1)).unwrap();
    assert!(results.contains(&String::from("supercomputing")));

    let results = search_index_b(&graph, input("super", 5)).unwrap();
    assert!(four().iter().all(|item| results.contains(item)));
    assert_eq!(results[0], String::from("supercomputing"));

    let results = search_index_b(&graph, input("superdupe", 5)).unwrap();
    assert!(four().iter().all(|item| results.contains(item)));
    assert_eq!(results[0], String::from("superdupercool"));

    let results = search_index_b(&graph, input("superdupercool", 5)).unwrap();
    assert!(four().iter().all(|item| results.contains(item)));
    assert_eq!(results[0], String::from("superdupercool"));

    let results = search_index_b(&graph, input("superduperbad", 5)).unwrap();
    assert!(four().iter().all(|item| results.contains(item)));
    assert_eq!(results[0], String::from("superdupercool"));

    let results = search_index_b(&graph, input("supersaturday", 5)).unwrap();
    assert!(four().iter().all(|item| results.contains(item)));
    assert_eq!(results[0], String::from("supersaturates"));

    let results = search_index_b(&graph, input("cow", 5)).unwrap();
    assert_eq!(results.len(), 0);
}

#[test]
fn search_prefix_index_with_width_4_and_depth_2() {
    let mut graph = Graph::new();
    add_to_index_c(&mut graph, String::from("superdupercool"));
    add_to_index_c(&mut graph, String::from("superdupercrazy"));
    add_to_index_c(&mut graph, String::from("supercomputing"));
    add_to_index_c(&mut graph, String::from("supersaturates"));

    let results = search_index_c(&graph, input("sup", 4)).unwrap();
    assert_eq!(results.len(), 0);

    let results = search_index_c(&graph, input("supe", 4)).unwrap();
    assert!(four().iter().all(|item| results.contains(item)));

    let results = search_index_c(&graph, input("super", 5)).unwrap();
    assert!(four().iter().all(|item| results.contains(item)));
    assert_eq!(results[0], String::from("supercomputing"));

    let results = search_index_c(&graph, input("superdupe", 5)).unwrap();
    assert!(four().iter().all(|item| results.contains(item)));
    assert_eq!(results[0], String::from("superdupercool"));

    let results = search_index_c(&graph, input("superdupercool", 5)).unwrap();
    assert!(four().iter().all(|item| results.contains(item)));
    assert_eq!(results[0], String::from("superdupercool"));

    let results = search_index_c(&graph, input("superduperbad", 5)).unwrap();
    assert!(four().iter().all(|item| results.contains(item)));
    assert_eq!(results[0], String::from("superdupercool"));

    let results = search_index_c(&graph, input("supersaturday", 5)).unwrap();
    assert!(four().iter().all(|item| results.contains(item)));
    assert_eq!(results[0], String::from("supersaturates"));

    let results = search_index_c(&graph, input("cow", 5)).unwrap();
    assert_eq!(results.len(), 0);
}

#[test]
fn remove_result_from_index() {
    let mut graph = Graph::new();
    add_to_index_a(&mut graph, String::from("superduper"));
    add_to_index_a(&mut graph, String::from("superdupercrazy"));

    let results = search_index_a(&graph, input("sup", 4)).unwrap();
    assert!([String::from("superduper"), String::from("superdupercrazy")]
        .iter()
        .all(|item| results.contains(item)));

    remove_from_index_a(&mut graph, String::from("superduper"));

    let results = search_index_a(&graph, input("sup", 4)).unwrap();
    assert_eq!(vec![String::from("superdupercrazy")], results);
}

#[test]
fn add_result_with_labels() {
    let mut graph = Graph::new();
    add_hashtag_to_index_a(&mut graph, String::from("#superdupercool"));
    add_hashtag_to_index_a(&mut graph, String::from("#superdupercrazy"));
    add_hashtag_to_index_a(&mut graph, String::from("#supercomputing"));
    add_hashtag_to_index_a(&mut graph, String::from("#supersaturates"));
    add_cashtag_to_index_a(&mut graph, String::from("$supercomputing"));
    add_cashtag_to_index_a(&mut graph, String::from("$supersaturates"));

    let all = [
        String::from("#superdupercool"),
        String::from("#superdupercrazy"),
        String::from("#supercomputing"),
        String::from("#supersaturates"),
        String::from("$supercomputing"),
        String::from("$supersaturates"),
    ];

    let results = search_index_a(&graph, input("sup", 10)).unwrap();
    assert!(all.iter().all(|item| results.contains(item)));
    assert_eq!(String::from("#supercomputing"), results[0]);

    let results = search_index_a(&graph, input("super", 10)).unwrap();
    assert!(all.iter().all(|item| results.contains(item)));
    assert_eq!(String::from("#supercomputing"), results[0]);

    let results = search_index_a(&graph, input("superdupe", 10)).unwrap();
    assert!(all.iter().all(|item| results.contains(item)));
    assert_eq!(String::from("#superdupercool"), results[0]);

    let results = search_index_a(&graph, input("superdupercool", 10)).unwrap();
    assert!(all.iter().all(|item| results.contains(item)));
    assert_eq!(String::from("#superdupercool"), results[0]);

    let results = search_index_a(&graph, input("superduperbad", 10)).unwrap();
    assert!(all.iter().all(|item| results.contains(item)));
    assert_eq!(String::from("#superdupercool"), results[0]);

    let results = search_index_a(&graph, input("supersaturday", 10)).unwrap();
    assert!(all.iter().all(|item| results.contains(item)));
    assert_eq!(String::from("#supersaturates"), results[0]);

    let results = search_index_a(&graph, input("cow", 10)).unwrap();
    assert_eq!(results.len(), 0);
}

#[test]
fn presevere_letter_case_in_result_but_ignore_letter_case_in_index() {
    let mut graph = Graph::new();
    add_hashtag_to_index_a(&mut graph, String::from("#HOLOCHAIN"));
    add_hashtag_to_index_a(&mut graph, String::from("#holosapian"));
    add_cashtag_to_index_a(&mut graph, String::from("$HOLY"));

    let results = search_index_a(&graph, input("holo", 5)).unwrap();
    assert!([
        String::from("#HOLOCHAIN"),
        String::from("#holosapian"),
        String::from("$HOLY")
    ]
    .iter()
    .all(|item| results.contains(item)));
}

#[test]
fn get_random_results_returns_random_results() {
    let mut graph = Graph::new();
    add_hashtag_to_index_a(&mut graph, String::from("#HOLOCHAIN"));
    add_hashtag_to_index_a(&mut graph, String::from("#holosapian"));
    add_cashtag_to_index_a(&mut graph, String::from("$HOLY"));
    add_cashtag_to_index_a(&mut graph, String::from("$CAT"));
    add_cashtag_to_index_a(&mut graph, String::from("$DOGGO"));
    add_hashtag_to_index_a(&mut graph, String::from("#monkeys"));

    let results1 = get_random_results_index_a(&graph, 1).unwrap();
    let results2 = get_random_results_index_a(&graph, 1).unwrap();
    let results3 = get_random_results_index_a(&graph, 1).unwrap();
    let results4 = get_random_results_index_a(&graph, 1).unwrap();
    let results5 = get_random_results_index_a(&graph, 1).unwrap();

    // Assert we did not get the exact same result 5 times
    let mut unique_results = HashSet::new();
    unique_results.insert(&results1[0]);
    unique_results.insert(&results2[0]);
    unique_results.insert(&results3[0]);
    unique_results.insert(&results4[0]);
    unique_results.insert(&results5[0]);
    assert!(unique_results.len() > 1)
}
