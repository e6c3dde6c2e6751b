use ufos::types::TopCollections;

fn tc(children: Vec<(&str, TopCollections)>) -> TopCollections {
    TopCollections {
        total_records: 0,
        dids_estimate: 0,
        nsid_child_segments: children.into_iter().map(|(s, t)| (s.to_string(), t)).collect(),
    }
}

#[test]
fn test_top_collections_to_nsids() {
    let empty_tc = TopCollections::new();
    assert_eq!(Into::<Vec<String>>::into(empty_tc), Vec::<String>::new());

    let tree = tc(vec![("a", tc(vec![("b", tc(vec![])), ("c", tc(vec![]))])), ("z", tc(vec![]))]);
    let mut nsids: Vec<String> = tree.into();
    nsids.sort();
    assert_eq!(nsids, ["a.b", "a.c", "z"]);
}

#[test]
fn deep_tree_names() {
    let tree = tc(vec![("a", tc(vec![("b", tc(vec![("c", tc(vec![]))]))]))]);
    assert_eq!(tree.to_nsids(), vec!["a.b.c".to_string()]);
}
