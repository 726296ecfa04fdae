use belmarsh::dependency::chain::DependencyChain;
use belmarsh::dependency::cycle::CycleDetector;
use belmarsh::render::Render;

fn chain(nodes: &[&str]) -> DependencyChain {
    DependencyChain::new(nodes.iter().map(|n| n.to_string()).collect())
}

fn graph(entries: &[(&str, &[&str])]) -> Vec<(String, Vec<String>)> {
    entries
        .iter()
        .map(|(from, to)| (from.to_string(), to.iter().map(|t| t.to_string()).collect()))
        .collect()
}

fn cycles_of(entries: &[(&str, &[&str])]) -> Vec<String> {
    let mut found: Vec<String> =
        CycleDetector::new(graph(entries)).find_cycles().iter().map(|c| c.render()).collect();
    found.sort();
    found
}

#[test]
fn a_chain_is_printed_with_arrows() {
    assert_eq!(chain(&["a", "b", "c", "a"]).render(), "a > b > c > a");
    assert_eq!(chain(&["a"]).render(), "a");
    assert_eq!(chain(&[]).render(), "");
    assert_eq!(chain(&["a", "b"]).nodes(), &vec!["a".to_string(), "b".to_string()]);
    assert_eq!(chain(&["a", "b"]).len(), 2);
}

#[test]
fn a_cycle_is_normalized_to_start_at_its_smallest_node() {
    assert_eq!(chain(&["b", "c", "a", "b"]).normalize(), vec!["a", "b", "c", "a"]);
    assert_eq!(chain(&["c", "a", "b", "c"]).normalize(), vec!["a", "b", "c", "a"]);
    assert_eq!(chain(&["a", "b", "c", "a"]).normalize(), vec!["a", "b", "c", "a"]);
    assert_eq!(chain(&["x", "x"]).normalize(), vec!["x", "x"]);
    assert_eq!(chain(&["B", "a", "B"]).normalize(), vec!["B", "a", "B"]);
}

#[test]
fn an_open_chain_is_rotated_to_start_at_its_smallest_node() {
    assert_eq!(chain(&["c", "a", "b"]).normalize(), vec!["a", "b", "c"]);
    assert_eq!(chain(&["b", "a", "c", "a"]).normalize(), vec!["a", "c", "a", "b"]);
    assert_eq!(chain(&["a"]).normalize(), vec!["a"]);
    assert_eq!(chain(&[]).normalize(), Vec::<String>::new());
}

#[test]
fn chains_are_equal_up_to_the_node_they_start_at() {
    assert!(chain(&["a", "b", "c", "a"]) == chain(&["b", "c", "a", "b"]));
    assert!(chain(&["a", "b", "c", "a"]) == chain(&["c", "a", "b", "c"]));
    assert!(chain(&["a", "b", "c", "a"]) != chain(&["a", "c", "b", "a"]));
    assert!(chain(&["a", "b", "a"]) != chain(&["a", "b", "c", "a"]));
    assert!(chain(&["a", "a"]) != chain(&["b", "b"]));
    assert!(chain(&["a", "b", "c", "a"]).clone() == chain(&["a", "b", "c", "a"]));
}

#[test]
fn is_circular_asks_for_more_than_two_nodes() {
    assert!(chain(&["a", "b", "a"]).is_circular());
    assert!(chain(&["a", "b", "c", "a"]).is_circular());
    assert!(!chain(&["a", "a"]).is_circular());
    assert!(!chain(&["a"]).is_circular());
    assert!(!chain(&[]).is_circular());
    assert!(!chain(&["a", "b", "c"]).is_circular());
}

#[test]
fn has_loop_finds_a_node_that_stands_twice() {
    assert!(chain(&["a", "b", "a"]).has_loop());
    assert!(chain(&["a", "b", "c", "b"]).has_loop());
    assert!(chain(&["a", "a"]).has_loop());
    assert!(!chain(&["a", "b", "c"]).has_loop());
    assert!(!chain(&[]).has_loop());
}

#[test]
fn extend_adds_a_node_at_the_end() {
    let c = chain(&["a", "b"]).extend("c".to_string());
    assert_eq!(c.render(), "a > b > c");
    assert_eq!(chain(&[]).extend("a".to_string()).len(), 1);
}

#[test]
fn a_cycle_is_found_once_whatever_node_the_search_starts_at() {
    let from_a = cycles_of(&[("A", &["B"]), ("B", &["C"]), ("C", &["A"])]);
    let from_b = cycles_of(&[("B", &["C"]), ("C", &["A"]), ("A", &["B"])]);
    let from_c = cycles_of(&[("C", &["A"]), ("A", &["B"]), ("B", &["C"])]);
    assert_eq!(from_a, vec!["A > B > C > A"]);
    assert_eq!(from_b, from_a);
    assert_eq!(from_c, from_a);
}

#[test]
fn a_graph_without_cycles_has_none_to_report() {
    assert_eq!(cycles_of(&[]), Vec::<String>::new());
    assert_eq!(cycles_of(&[("a", &[])]), Vec::<String>::new());
    assert_eq!(
        cycles_of(&[("a", &["b", "c", "d"]), ("b", &["c", "d"]), ("c", &["d"])]),
        Vec::<String>::new()
    );
    assert_eq!(
        cycles_of(&[("d", &["e"]), ("a", &["b", "c"]), ("b", &["d"]), ("c", &["d"])]),
        Vec::<String>::new()
    );
}

#[test]
fn a_long_chain_without_cycle_has_none_to_report() {
    let names: Vec<String> = (0..400).map(|i| format!("n{i:04}")).collect();
    let mut entries: Vec<(String, Vec<String>)> = Vec::new();
    for i in 0..names.len() - 1 {
        let mut to = vec![names[i + 1].clone()];
        if i + 7 < names.len() {
            to.push(names[i + 7].clone());
        }
        entries.push((names[i].clone(), to));
    }
    assert_eq!(CycleDetector::new(entries).find_cycles().len(), 0);
}

#[test]
fn a_node_that_depends_on_itself_is_a_cycle_of_one_edge() {
    let found = CycleDetector::new(graph(&[("a", &["a"])])).find_cycles();
    assert_eq!(found.len(), 1);
    assert_eq!(found[0].nodes(), &vec!["a".to_string(), "a".to_string()]);
    assert_eq!(cycles_of(&[("a", &["b", "a"]), ("b", &["b"])]), vec!["a > a", "b > b"]);
}

#[test]
fn every_cycle_closed_during_the_search_is_reported() {
    assert_eq!(
        cycles_of(&[("a", &["b"]), ("b", &["a", "c"]), ("c", &["b"])]),
        vec!["a > b > a", "b > c > b"]
    );
    assert_eq!(
        cycles_of(&[("a", &["b"]), ("b", &["c"]), ("c", &["a", "b"]), ("x", &["y"]), ("y", &["x"])]),
        vec!["a > b > c > a", "b > c > b", "x > y > x"]
    );
}

#[test]
fn an_edge_given_twice_gives_its_cycle_once() {
    assert_eq!(cycles_of(&[("a", &["b", "b"]), ("b", &["a", "a"])]), vec!["a > b > a"]);
    assert_eq!(cycles_of(&[("a", &["b"]), ("b", &["a"]), ("a", &["b"])]), vec!["a > b > a"]);
}

#[test]
fn a_cycle_reached_from_outside_starts_at_its_smallest_node() {
    assert_eq!(
        cycles_of(&[("start", &["m"]), ("m", &["z"]), ("z", &["k"]), ("k", &["m"])]),
        vec!["k > m > z > k"]
    );
}

#[test]
fn cycles_are_reported_in_the_order_in_which_the_search_closes_them() {
    let found: Vec<String> = CycleDetector::new(graph(&[
        ("c", &["d"]),
        ("a", &["b"]),
        ("b", &["a", "c"]),
        ("d", &["c", "b"]),
    ]))
    .find_cycles()
    .iter()
    .map(|c| c.render())
    .collect();
    assert_eq!(found, vec!["c > d > c", "a > b > a", "b > c > d > b"]);
    let found: Vec<String> = CycleDetector::new(graph(&[
        ("a", &["b"]),
        ("b", &["a", "c"]),
        ("c", &["d"]),
        ("d", &["c", "b"]),
    ]))
    .find_cycles()
    .iter()
    .map(|c| c.render())
    .collect();
    assert_eq!(found, vec!["a > b > a", "c > d > c", "b > c > d > b"]);
}

#[test]
fn the_search_looks_at_the_successors_of_all_entries_of_a_node() {
    let found: Vec<String> = CycleDetector::new(graph(&[
        ("a", &["b"]),
        ("b", &[]),
        ("a", &["a"]),
        ("b", &["a"]),
    ]))
    .find_cycles()
    .iter()
    .map(|c| c.render())
    .collect();
    assert_eq!(found, vec!["a > b > a", "a > a"]);
}

#[test]
fn a_large_ring_is_one_cycle() {
    let n = 3_000;
    let entries: Vec<(String, Vec<String>)> = (0..n)
        .map(|i| (format!("n{i:05}"), vec![format!("n{:05}", (i + 1) % n), format!("n{i:05}x")]))
        .collect();
    let found = CycleDetector::new(entries).find_cycles();
    assert_eq!(found.len(), 1);
    assert_eq!(found[0].len(), n + 1);
    assert_eq!(found[0].nodes()[0], "n00000");
    assert_eq!(found[0].nodes()[n], "n00000");
}
