use plox::sorter::{find_index, has_edge};
use plox::{
    get_mods_from_rules, get_order_from_rules, stable_topo_sort_inner, topo_sort, EOrderRule,
    NearStart, Order,
};

fn names(items: &[&str]) -> Vec<String> {
    items.iter().map(|e| (*e).to_owned()).collect()
}

fn pairs(items: &[(&str, &str)]) -> Vec<(String, String)> {
    items
        .iter()
        .map(|e| (e.0.to_owned(), e.1.to_owned()))
        .collect()
}

#[test]
fn test_cycle() {
    let rules: Vec<(String, String)> = [("a", "b"), ("b", "c"), ("d", "e"), ("b", "a")]
        .iter()
        .map(|e| (e.0.to_owned(), e.1.to_owned()))
        .collect();

    let mods: Vec<String> = ["a", "b", "c", "d", "e", "f", "g"]
        .iter()
        .map(|e| (*e).into())
        .collect();

    assert!(
        topo_sort(&mods, &rules).is_err(),
        "rules do not contain a cycle"
    )
}

#[test]
fn test_ordering() {
    let rules: Vec<(String, String)> = [
        ("a", "b"),
        ("b", "c"),
        ("d", "e"),
        ("e", "c"),
        ("test.archive", "test2.archive"),
    ]
    .iter()
    .map(|e| (e.0.to_owned(), e.1.to_owned()))
    .collect();

    let mods = ["a", "b", "c", "d", "e", "f", "g"]
        .iter()
        .map(|e| (*e).into())
        .collect();

    match topo_sort(&mods, &rules) {
        Ok(result) => assert!(checkresult(&result, &rules), "order is wrong"),
        Err(_) => panic!("rules contain a cycle"),
    }
}

fn checkresult(result: &[String], rules: &[(String, String)]) -> bool {
    for (a, b) in rules {
        let pos_a = result.iter().position(|x| x == a);
        if pos_a.is_none() {
            continue;
        }
        let pos_b = result.iter().position(|x| x == b);
        if pos_b.is_none() {
            continue;
        }

        if pos_a.unwrap() > pos_b.unwrap() {
            return false;
        }
    }

    true
}

#[test]
fn stable_sort_keeps_the_order_where_it_can() {
    let mods = names(&["a.esp", "b.esp", "c.esp", "d.esp", "e.esp", "f.esp", "g.esp"]);
    let order = pairs(&[
        ("a.esp", "b.esp"),
        ("b.esp", "c.esp"),
        ("d.esp", "e.esp"),
        ("e.esp", "c.esp"),
    ]);
    let expected = names(&["a.esp", "b.esp", "d.esp", "e.esp", "c.esp", "f.esp", "g.esp"]);
    assert_eq!(Ok(expected), topo_sort(&mods, &order));
}

#[test]
fn sort_reports_a_cycle_of_two() {
    let mods = names(&["a", "b", "c"]);
    let order = pairs(&[("a", "b"), ("b", "c"), ("b", "a")]);
    let err = topo_sort(&mods, &order).unwrap_err();
    assert_eq!("Graph contains a cycle", err.message());
}

#[test]
fn sort_returns_a_permutation() {
    let mods = names(&["g", "f", "e", "d", "c", "b", "a"]);
    let order = pairs(&[("a", "b"), ("b", "c"), ("c", "d"), ("a", "g"), ("e", "f")]);
    let sorted = topo_sort(&mods, &order).unwrap();
    let mut left = mods.clone();
    let mut right = sorted.clone();
    left.sort();
    right.sort();
    assert_eq!(left, right);
    assert!(checkresult(&sorted, &order));
    assert_eq!(names(&["a", "g", "e", "f", "b", "c", "d"]), sorted);
}

#[test]
fn sort_keeps_a_list_that_satisfies_the_constraints() {
    let mods = names(&["a", "b", "c", "d"]);
    let order = pairs(&[("a", "c"), ("b", "d"), ("a", "d")]);
    assert_eq!(Ok(mods.clone()), topo_sort(&mods, &order));
    let none: Vec<(String, String)> = vec![];
    assert_eq!(Ok(mods.clone()), topo_sort(&mods, &none));
}

#[test]
fn sort_moves_only_what_a_constraint_forces() {
    let mods = names(&["a", "b", "c", "d", "e"]);
    let order = pairs(&[("d", "b")]);
    assert_eq!(Ok(names(&["a", "d", "b", "c", "e"])), topo_sort(&mods, &order));
}

#[test]
fn sort_ignores_constraints_on_mods_that_are_not_installed() {
    let mods = names(&["b", "a"]);
    let order = pairs(&[("a", "x"), ("x", "b"), ("y", "z")]);
    assert_eq!(Ok(names(&["b", "a"])), topo_sort(&mods, &order));
    // a cycle through a mod that is not installed is no cycle
    let order = pairs(&[("a", "x"), ("x", "a")]);
    assert_eq!(Ok(names(&["b", "a"])), topo_sort(&mods, &order));
}

#[test]
fn sort_reports_a_self_loop_as_a_cycle() {
    let mods = names(&["a", "b"]);
    let order = pairs(&[("a", "a")]);
    assert!(topo_sort(&mods, &order).is_err());
}

#[test]
fn sort_reports_a_cycle_of_three() {
    let mods = names(&["a", "b", "c", "d"]);
    let order = pairs(&[("a", "b"), ("b", "c"), ("c", "a")]);
    assert!(topo_sort(&mods, &order).is_err());
    let order = pairs(&[("a", "b"), ("b", "c"), ("a", "c")]);
    assert!(topo_sort(&mods, &order).is_ok());
}

#[test]
fn sort_of_nothing_is_nothing() {
    let mods: Vec<String> = vec![];
    let order = pairs(&[("a", "b")]);
    assert_eq!(Ok(vec![]), topo_sort(&mods, &order));
}

#[test]
fn sort_with_a_constraint_stated_twice() {
    let mods = names(&["b", "a"]);
    let order = pairs(&[("a", "b"), ("a", "b")]);
    assert_eq!(Ok(names(&["a", "b"])), topo_sort(&mods, &order));
}

#[test]
fn sort_needs_several_passes() {
    // c before b, b before a: each pass moves one mod
    let mods = names(&["a", "b", "c"]);
    let order = pairs(&[("c", "b"), ("b", "a")]);
    assert_eq!(Ok(names(&["c", "b", "a"])), topo_sort(&mods, &order));
    // a mod jumps over others that then have to follow it
    let mods = names(&["y", "a", "b", "x"]);
    let order = pairs(&[("a", "x"), ("b", "x"), ("x", "y")]);
    assert_eq!(Ok(names(&["a", "b", "x", "y"])), topo_sort(&mods, &order));
}

#[test]
fn one_pass_resolves_the_first_violation() {
    let dict = names(&["a", "b", "c", "d"]);
    let edges: Vec<(usize, usize)> = vec![(3, 1), (2, 0)];
    let mut result = dict.clone();
    // scanning by rising position, c at 2 against a at 0 comes first
    assert!(stable_topo_sort_inner(4, &edges, &dict, &mut result));
    assert_eq!(names(&["c", "a", "b", "d"]), result);
    assert!(stable_topo_sort_inner(4, &edges, &dict, &mut result));
    assert_eq!(names(&["c", "a", "d", "b"]), result);
    assert!(!stable_topo_sort_inner(4, &edges, &dict, &mut result));
    assert_eq!(names(&["c", "a", "d", "b"]), result);
}

#[test]
fn one_pass_looks_at_the_first_entries_only() {
    let dict = names(&["a", "b", "c"]);
    let edges: Vec<(usize, usize)> = vec![(2, 0)];
    let mut result = dict.clone();
    assert!(!stable_topo_sort_inner(2, &edges, &dict, &mut result));
    assert_eq!(dict, result);
    assert!(stable_topo_sort_inner(3, &edges, &dict, &mut result));
    assert_eq!(names(&["c", "a", "b"]), result);
}

#[test]
fn one_pass_leaves_unknown_names_alone() {
    let dict = names(&["a", "b"]);
    let edges: Vec<(usize, usize)> = vec![(1, 0)];
    let mut result = names(&["x", "a", "y", "b"]);
    assert!(stable_topo_sort_inner(4, &edges, &dict, &mut result));
    assert_eq!(names(&["x", "b", "a", "y"]), result);
}

#[test]
fn find_index_gives_the_first_position() {
    let list = names(&["a", "b", "a", "c"]);
    assert_eq!(Some(0), find_index(&list, &"a".to_owned()));
    assert_eq!(Some(3), find_index(&list, &"c".to_owned()));
    assert_eq!(None, find_index(&list, &"x".to_owned()));
}

#[test]
fn has_edge_compares_both_ends() {
    let edges: Vec<(usize, usize)> = vec![(0, 1), (2, 3)];
    assert!(has_edge(&edges, 0, 1));
    assert!(has_edge(&edges, 2, 3));
    assert!(!has_edge(&edges, 1, 0));
    assert!(!has_edge(&edges, 0, 3));
}

#[test]
fn order_rules_give_pairs_of_neighbours() {
    let rules: Vec<EOrderRule> = vec![
        Order::new(names(&["a", "b", "c"])).into(),
        NearStart::new(names(&["x", "y"])).into(),
        Order::from("d", "e").into(),
        Order::new(names(&["lonely"])).into(),
    ];
    let expected = pairs(&[("a", "b"), ("b", "c"), ("d", "e")]);
    assert_eq!(expected, get_order_from_rules(&rules));
    assert!(get_order_from_rules(&vec![]).is_empty());
}

#[test]
fn mods_of_the_constraints_each_once() {
    let order = pairs(&[("a", "b"), ("b", "c"), ("a", "c"), ("d", "d")]);
    assert_eq!(names(&["a", "b", "c", "d"]), get_mods_from_rules(&order));
    assert!(get_mods_from_rules(&[]).is_empty());
}

/// A small generator of numbers that gives the same numbers on every run.
struct Numbers(u64);

impl Numbers {
    fn next(&mut self, below: usize) -> usize {
        self.0 = self
            .0
            .wrapping_mul(6364136223846793005)
            .wrapping_add(1442695040888963407);
        ((self.0 >> 33) as usize) % below
    }
}

#[test]
fn sort_of_many_lists_orders_every_pair_and_keeps_every_mod() {
    let mut numbers = Numbers(7);
    for round in 0..200 {
        let n = 1 + numbers.next(9);
        let mods: Vec<String> = (0..n).map(|i| format!("m{}.esp", i)).collect();
        // a shuffled list
        let mut list = mods.clone();
        for i in (1..n).rev() {
            let j = numbers.next(i + 1);
            list.swap(i, j);
        }
        // edges from a lower to a higher number never form a cycle
        let mut order: Vec<(String, String)> = vec![];
        for _ in 0..numbers.next(12) {
            let a = numbers.next(n);
            let b = numbers.next(n);
            if a < b {
                order.push((mods[a].clone(), mods[b].clone()));
            }
        }
        // and some that name mods which are not installed
        order.push(("x.esp".to_owned(), mods[0].clone()));
        let sorted = topo_sort(&list, &order).unwrap();
        assert!(checkresult(&sorted, &order), "round {}", round);
        let mut left = list.clone();
        let mut right = sorted.clone();
        left.sort();
        right.sort();
        assert_eq!(left, right, "round {}", round);
        // sorting again changes nothing
        assert_eq!(Ok(sorted.clone()), topo_sort(&sorted, &order), "round {}", round);
        // with an edge back the constraints have a cycle
        if let Some((a, b)) = order.iter().find(|(a, _)| a != "x.esp").cloned() {
            order.push((b, a));
            assert!(topo_sort(&list, &order).is_err(), "round {}", round);
        }
    }
}
