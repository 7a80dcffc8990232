use weaver::dict::Dictionary;
use weaver::graph::Graph;
use weaver::graph::generate_graph;
use weaver::search::breadth_first_search;
use weaver::search::find_path;
use weaver::search::solve;

fn words(list: &[&str]) -> Vec<Vec<u8>> {
    list.iter().map(|w| w.as_bytes().to_vec()).collect()
}

fn dict(list: &[&str]) -> Dictionary {
    Dictionary::new(words(list)).expect("valid dictionary")
}

fn neighbors(g: &Graph, i: usize) -> Vec<usize> {
    let mut out = Vec::new();
    let mut k: usize = 0;
    while k < g.degree(i) {
        out.push(g.neighbor(i, k));
        k += 1;
    }
    out
}

const CHAIN: [&str; 5] = ["cold", "cord", "card", "ward", "warm"];

#[test]
fn graph_has_exactly_the_one_letter_edges() {
    let d = dict(&CHAIN);
    let g = generate_graph(&d);
    assert_eq!(g.node_count(), 5);
    assert_eq!(neighbors(&g, 0), vec![1]);
    assert_eq!(neighbors(&g, 1), vec![0, 2]);
    assert_eq!(neighbors(&g, 2), vec![1, 3]);
    assert_eq!(neighbors(&g, 3), vec![2, 4]);
    assert_eq!(neighbors(&g, 4), vec![3]);
}

#[test]
fn empty_dictionary_gives_empty_graph() {
    let d = Dictionary::new(Vec::new()).expect("empty dictionary is valid");
    let g = generate_graph(&d);
    assert_eq!(g.node_count(), 0);
}

#[test]
fn graph_is_symmetric_without_self_loops() {
    let d = dict(&["dogs", "dots", "dote", "cote", "cots", "logs"]);
    let g = generate_graph(&d);
    let n = g.node_count();
    for i in 0..n {
        let ni = neighbors(&g, i);
        assert!(!ni.contains(&i), "self loop at {}", i);
        for &j in &ni {
            assert!(neighbors(&g, j).contains(&i), "edge {}->{} not mirrored", i, j);
        }
    }
}

#[test]
fn chain_query_returns_the_whole_chain() {
    let d = dict(&CHAIN);
    let path = find_path(&d, 0, 4).expect("cold reaches warm");
    assert_eq!(path, vec![0, 1, 2, 3, 4]);
    let texts: Vec<&str> = path.iter().map(|&i| CHAIN[i]).collect();
    assert_eq!(texts, vec!["cold", "cord", "card", "ward", "warm"]);
    assert_eq!(path.len(), 5); // 4 hops
}

#[test]
fn disjoint_components_have_no_path() {
    let d = dict(&["aaaa", "aaab", "bbbb", "bbba"]);
    assert_eq!(find_path(&d, 0, 2), None);
    assert_eq!(find_path(&d, 1, 3), None);
    // within a component the ladder exists
    assert_eq!(find_path(&d, 0, 1), Some(vec![0, 1]));
    assert_eq!(find_path(&d, 2, 3), Some(vec![2, 3]));
}

#[test]
fn same_start_and_end_is_a_single_element_path() {
    let d = dict(&CHAIN);
    assert_eq!(find_path(&d, 2, 2), Some(vec![2]));
    assert_eq!(find_path(&d, 0, 0), Some(vec![0]));
}

#[test]
fn search_and_reconstruction_work_separately() {
    let d = dict(&CHAIN);
    let g = generate_graph(&d);
    let pred = breadth_first_search(&g, 0, 4).expect("connected");
    assert_eq!(pred.len(), 5);
    let path = solve(pred, 0, 4);
    assert_eq!(path, vec![0, 1, 2, 3, 4]);

    let d2 = dict(&["aaaa", "aaab", "bbbb", "bbba"]);
    let g2 = generate_graph(&d2);
    assert_eq!(breadth_first_search(&g2, 0, 2), None);

    let pred3 = breadth_first_search(&g, 3, 3).expect("degenerate query");
    assert_eq!(solve(pred3, 3, 3), vec![3]);
}

// Plain reference implementation used to cross-check path lengths below.
fn hamming_ref(a: &str, b: &str) -> usize {
    a.bytes().zip(b.bytes()).filter(|(x, y)| x != y).count()
}

fn brute_force_distance(list: &[&str], start: usize, end: usize) -> Option<usize> {
    let n = list.len();
    let mut dist: Vec<Option<usize>> = vec![None; n];
    dist[start] = Some(0usize);
    let mut queue: std::collections::VecDeque<usize> = std::collections::VecDeque::new();
    queue.push_back(start);
    while let Some(u) = queue.pop_front() {
        for v in 0..n {
            if hamming_ref(list[u], list[v]) == 1 && dist[v].is_none() {
                dist[v] = Some(dist[u].unwrap() + 1);
                queue.push_back(v);
            }
        }
    }
    dist[end]
}

#[test]
fn path_length_matches_brute_force_distance() {
    let list = ["aaaa", "aaab", "aabb", "abbb", "bbbb", "aaba", "abaa", "baaa", "cccc"];
    let d = dict(&list);
    for s in 0..list.len() {
        for e in 0..list.len() {
            let expected = brute_force_distance(&list, s, e);
            match find_path(&d, s, e) {
                Some(path) => {
                    assert_eq!(Some(path.len() - 1), expected, "query {}->{}", s, e);
                    assert_eq!(path[0], s);
                    assert_eq!(*path.last().unwrap(), e);
                    for w in path.windows(2) {
                        assert_eq!(hamming_ref(list[w[0]], list[w[1]]), 1);
                    }
                },
                None => assert_eq!(expected, None, "query {}->{}", s, e),
            }
        }
    }
}
