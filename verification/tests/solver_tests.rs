use dlx_rs::solver::Solver;

fn all_solutions(s: &mut Solver) -> Vec<Vec<String>> {
    let mut out = Vec::new();
    while let Some(sol) = s.next() {
        out.push(sol);
    }
    out
}

fn sorted(mut v: Vec<String>) -> Vec<String> {
    v.sort();
    v
}

fn knuth() -> Solver {
    let mut s = Solver::new(7);
    s.add_option("A", &[1, 4, 7])
        .add_option("B", &[1, 4])
        .add_option("C", &[4, 5, 7])
        .add_option("D", &[3, 5, 6])
        .add_option("E", &[2, 3, 6, 7])
        .add_option("F", &[2, 7]);
    s
}

#[test]
fn spacer_for() {
    let mut s = Solver::new(4);
    s.add_option("o1", &[1, 2])
        .add_option("o2", &[2, 3])
        .add_option("o3", &[3, 4])
        .add_option("o4", &[1, 4]);

    // This creates a vec which looks like
    // [i0, i1, i2, i3, i4, s0
    //      x    x          s1
    //           x   x      s2
    //               x   x  s3
    //      x            x  s4]
    let spacer_answers = std::collections::HashMap::from([
        (6, 8),
        (7, 8),
        (8, 8),
        (9, 11),
        (10, 11),
        (11, 11),
        (12, 14),
        (13, 14),
        (14, 14),
        (15, 17),
        (16, 17),
        (17, 17),
    ]);

    for i in 6..=17 {
        assert_eq!(s.spacer_for(i), spacer_answers[&i]);
    }
}

#[test]
fn spacer_for_the_root_spacer_is_itself() {
    let mut s = Solver::new(4);
    s.add_option("o1", &[1, 2]);
    assert_eq!(s.spacer_for(5), 5);
}

#[test]
fn simple_exact_cover_has_one_solution() {
    let mut s = knuth();
    let sols = all_solutions(&mut s);
    assert_eq!(sols.len(), 1);
    assert_eq!(sorted(sols[0].clone()), vec!["B", "D", "F"]);
}

#[test]
fn simple_exact_cover_comes_in_the_order_of_the_search() {
    // Item 1 and item 5 both have two options; the first of them, item 1,
    // is branched on. A fails, B leaves item 5 with D alone, then F.
    let mut s = knuth();
    assert_eq!(s.next(), Some(vec!["B".to_string(), "D".to_string(), "F".to_string()]));
}

#[test]
fn four_items_and_four_options() {
    let mut s = Solver::new(4);
    s.add_option("o1", &[1, 2])
        .add_option("o2", &[3])
        .add_option("o3", &[2, 4])
        .add_option("o4", &[1]);
    assert_eq!(s.next().unwrap(), ["o2", "o3", "o4"]);
    assert_eq!(s.next(), None);
}

#[test]
fn two_option_branching_in_order() {
    let mut s = Solver::new(3);
    s.add_option("o1", &[1]).add_option("o2", &[1]).add_option("o3", &[2, 3]);
    let sols = all_solutions(&mut s);
    assert_eq!(sols.len(), 2);
    assert_eq!(sols[0], vec!["o3", "o1"]);
    assert_eq!(sols[1], vec!["o3", "o2"]);
}

#[test]
fn optional_items_are_covered_at_most_once() {
    let mut s = Solver::new_optional(7, 1);
    s.add_option("o1", &[3, 5]);
    s.add_option("o2", &[1, 4, 7]);
    s.add_option("o3", &[2, 3, 6]);
    s.add_option("o4", &[1, 4, 6]);
    s.add_option("o5", &[2, 7]);
    s.add_option("o6", &[4, 5, 7]);
    s.add_option("o7", &[3, 5, 8]);
    let sols = all_solutions(&mut s);
    assert_eq!(sols.len(), 2);
    assert_eq!(sorted(sols[0].clone()), vec!["o1", "o4", "o5"]);
    assert_eq!(sorted(sols[1].clone()), vec!["o4", "o5", "o7"]);
}

#[test]
fn one_optional_item_shared_by_two_options() {
    let mut s = Solver::new_optional(4, 1);
    s.add_option("o1", &[1, 3])
        .add_option("o2", &[2, 4])
        .add_option("o3", &[1, 5])
        .add_option("o4", &[3])
        .add_option("o5", &[3, 5]);
    let s1 = s.next().unwrap_or_default();
    let s2 = s.next().unwrap_or_default();
    let s3 = s.next();
    assert_eq!(s1, ["o2", "o1"]);
    assert_eq!(s2, ["o2", "o3", "o4"]);
    assert_eq!(s3, None);
}

#[test]
fn preselection_leaves_the_rest_to_find() {
    let mut s = Solver::new(3);
    s.add_option("o1", &[1]).add_option("o2", &[1]).add_option("o3", &[2, 3]);

    // First get all solutions
    let mut all = s.clone();
    let sols = all_solutions(&mut all);
    assert_eq!(sols.len(), 2);
    assert_eq!(vec!["o3", "o1"], sols[0]);
    assert_eq!(vec!["o3", "o2"], sols[1]);

    // Now select o1 and get all solutions
    assert_eq!(s.select("o1"), Ok(()));
    assert_eq!(vec!["o3"], s.next().unwrap());
    assert_eq!(s.next(), None);
}

#[test]
fn selecting_an_unknown_option_fails_and_changes_nothing() {
    let mut s = Solver::new(3);
    s.add_option("o1", &[1]).add_option("o2", &[1]).add_option("o3", &[2, 3]);
    let before = s.display();
    assert_eq!(s.select("o9"), Err("Invalid option specified"));
    assert_eq!(s.display(), before);
    assert_eq!(all_solutions(&mut s).len(), 2);
}

#[test]
fn selecting_takes_the_first_option_of_that_name() {
    let mut s = Solver::new(2);
    s.add_option("twin", &[1]).add_option("twin", &[2]).add_option("other", &[2]);
    assert_eq!(s.select("twin"), Ok(()));
    // Item 1 is covered now, item 2 is still to be covered.
    let sols = all_solutions(&mut s);
    assert_eq!(sols, vec![vec!["twin".to_string()], vec!["other".to_string()]]);
}

#[test]
fn resumable_iteration() {
    let mut s = knuth();
    let first = s.next().unwrap();
    assert_eq!(sorted(first), vec!["B", "D", "F"]);
    assert_eq!(s.next(), None);
    assert_eq!(s.next(), None);
}

#[test]
fn solve_and_next_are_the_same() {
    let mut a = knuth();
    let mut b = knuth();
    assert_eq!(a.solve(), b.next());
    assert_eq!(a.solve(), b.next());
}

#[test]
fn no_options_no_solutions() {
    let mut s = Solver::new(3);
    assert_eq!(s.next(), None);
    assert_eq!(s.next(), None);
}

#[test]
fn one_primary_item_without_options_has_no_solution() {
    let mut s = Solver::new_optional(1, 4);
    assert_eq!(s.next(), None);
}

#[test]
fn no_primary_items_one_empty_solution() {
    let mut s = Solver::new_optional(0, 3);
    s.add_option("a", &[1, 2]).add_option("b", &[3]);
    assert_eq!(s.next(), Some(vec![]));
    assert_eq!(s.next(), None);
}

#[test]
fn no_items_at_all_one_empty_solution() {
    let mut s = Solver::new(0);
    assert_eq!(s.next(), Some(vec![]));
    assert_eq!(s.next(), None);
}

#[test]
fn an_option_without_items_is_never_chosen() {
    let mut s = Solver::new(2);
    s.add_option("empty", &[]).add_option("a", &[1]).add_option("b", &[2]);
    let sols = all_solutions(&mut s);
    assert_eq!(sols.len(), 1);
    assert_eq!(sorted(sols[0].clone()), vec!["a", "b"]);

    let mut t = Solver::new_optional(0, 1);
    t.add_option("empty", &[]);
    assert_eq!(all_solutions(&mut t), vec![Vec::<String>::new()]);
}

#[test]
fn an_option_of_optional_items_only_is_never_chosen() {
    let mut s = Solver::new_optional(1, 2);
    s.add_option("a", &[1]).add_option("side", &[2, 3]);
    assert_eq!(all_solutions(&mut s), vec![vec!["a".to_string()]]);
}

#[test]
fn solutions_are_exact_covers_and_all_different() {
    // Items 1..=4, every subset of size one or two as an option.
    let sets: Vec<Vec<usize>> = vec![
        vec![1],
        vec![2],
        vec![3],
        vec![4],
        vec![1, 2],
        vec![1, 3],
        vec![1, 4],
        vec![2, 3],
        vec![2, 4],
        vec![3, 4],
    ];
    let mut s = Solver::new(4);
    for (k, set) in sets.iter().enumerate() {
        s.add_option(&format!("{}", k), set);
    }
    let sols = all_solutions(&mut s);
    // 1 partition into singletons, 6 with one pair, 3 with two pairs.
    assert_eq!(sols.len(), 10);
    let mut seen: Vec<Vec<String>> = Vec::new();
    for sol in &sols {
        let mut times = [0usize; 5];
        for name in sol {
            let k: usize = name.parse().unwrap();
            for &i in &sets[k] {
                times[i] += 1;
            }
        }
        assert_eq!(&times[1..], &[1, 1, 1, 1]);
        let key = sorted(sol.clone());
        assert!(!seen.contains(&key));
        seen.push(key);
    }
}

#[test]
fn the_number_of_solutions_does_not_depend_on_the_order_of_the_options() {
    let options: Vec<(&str, Vec<usize>)> = vec![
        ("o1", vec![3, 5]),
        ("o2", vec![1, 4, 7]),
        ("o3", vec![2, 3, 6]),
        ("o4", vec![1, 4, 6]),
        ("o5", vec![2, 7]),
        ("o6", vec![4, 5, 7]),
        ("o7", vec![3, 5, 8]),
    ];
    let mut forward = Solver::new_optional(7, 1);
    for (name, items) in options.iter() {
        forward.add_option(name, items);
    }
    let mut backward = Solver::new_optional(7, 1);
    for (name, items) in options.iter().rev() {
        backward.add_option(name, items);
    }
    let a = all_solutions(&mut forward);
    let b = all_solutions(&mut backward);
    assert_eq!(a.len(), 2);
    assert_eq!(b.len(), 2);
    let mut a: Vec<Vec<String>> = a.into_iter().map(sorted).collect();
    let mut b: Vec<Vec<String>> = b.into_iter().map(sorted).collect();
    a.sort();
    b.sort();
    assert_eq!(a, b);
}

#[test]
fn the_search_branches_on_the_first_item_with_the_fewest_options() {
    // Item 2 has one option, items 1 and 3 have two: the search begins with
    // the option for item 2.
    let mut s = Solver::new(3);
    s.add_option("a", &[1])
        .add_option("b", &[1])
        .add_option("c", &[2])
        .add_option("d", &[3])
        .add_option("e", &[3]);
    let sols = all_solutions(&mut s);
    assert_eq!(
        sols,
        vec![vec!["c", "a", "d"], vec!["c", "a", "e"], vec!["c", "b", "d"], vec!["c", "b", "e"]]
    );
}

#[test]
fn cover_of_what_is_no_item_fails_and_changes_nothing() {
    let mut s = knuth();
    let before = s.display();
    // The header, a spacer, an option element, and a place behind the arena.
    assert_eq!(s.cover(0), Err("Can only cover items"));
    assert_eq!(s.cover(8), Err("Can only cover items"));
    assert_eq!(s.cover(9), Err("Can only cover items"));
    assert_eq!(s.cover(1000), Err("Can only cover items"));
    assert_eq!(s.display(), before);
    assert_eq!(all_solutions(&mut s).len(), 1);
}

#[test]
fn uncover_of_what_is_no_item_fails_and_changes_nothing() {
    let mut s = knuth();
    let before = s.display();
    assert_eq!(s.uncover(0), Err("Can only uncover items"));
    assert_eq!(s.uncover(8), Err("Can only uncover items"));
    assert_eq!(s.uncover(9), Err("Can only uncover items"));
    assert_eq!(s.uncover(1000), Err("Can only uncover items"));
    assert_eq!(s.display(), before);
    assert_eq!(all_solutions(&mut s).len(), 1);
}

#[test]
fn cover_then_uncover_gives_the_mesh_back() {
    let mut s = knuth();
    let fresh = s.clone();
    let before = s.display();
    for i in 1..=7 {
        assert_eq!(s.cover(i), Ok(()));
        assert_ne!(s.display(), before);
        assert_eq!(s.uncover(i), Ok(()));
        assert_eq!(s.display(), before);
    }
    // Several covers, taken back in reverse.
    for i in 1..=7 {
        assert_eq!(s.cover(i), Ok(()));
    }
    for i in (1..=7).rev() {
        assert_eq!(s.uncover(i), Ok(()));
    }
    assert_eq!(s.display(), before);
    for i in 8..32 {
        assert_eq!(s.spacer_for(i), fresh.spacer_for(i));
    }
    assert_eq!(all_solutions(&mut s), vec![vec!["B", "D", "F"]]);
}

#[test]
fn covering_an_item_leaves_the_problem_without_it() {
    // With item 2 covered by hand the options that hold it are gone, and
    // the rest has to be covered without them.
    let mut s = Solver::new(3);
    s.add_option("a", &[1, 2]).add_option("b", &[1]).add_option("c", &[3]).add_option("d", &[2, 3]);
    assert_eq!(s.cover(2), Ok(()));
    assert_eq!(all_solutions(&mut s), vec![vec!["b", "c"]]);
}

#[test]
fn display_shows_the_items_and_the_options() {
    let mut s = Solver::new(4);
    s.add_option("o1", &[1, 2])
        .add_option("o2", &[3])
        .add_option("o3", &[2, 4])
        .add_option("o4", &[1]);
    assert_eq!(s.display(), " 1 2 3 4 \n 1 2\n     3\n   2   4\n 1\n");
    assert_eq!(s.cover(2), Ok(()));
    assert_eq!(s.display(), " 1 3 4 \n 1\n   3\n     4\n 1\n");
}

#[test]
fn display_of_a_problem_without_options() {
    let s = Solver::new(2);
    assert_eq!(s.display(), " 1 2 \n");
    let t = Solver::new(0);
    assert_eq!(t.display(), " \n");
}

#[test]
fn output_names_the_options_of_the_solution_at_hand() {
    let mut s = knuth();
    assert_eq!(s.output(), Vec::<String>::new());
    let sol = s.next().unwrap();
    assert_eq!(s.output(), sol);
    assert_eq!(s.next(), None);
    assert_eq!(s.output(), Vec::<String>::new());
}

#[test]
fn a_clone_goes_its_own_way() {
    let mut s = Solver::new(3);
    s.add_option("o1", &[1]).add_option("o2", &[1]).add_option("o3", &[2, 3]);
    let mut t = s.clone();
    assert_eq!(s.next(), Some(vec!["o3".to_string(), "o1".to_string()]));
    assert_eq!(t.select("o2"), Ok(()));
    assert_eq!(t.next(), Some(vec!["o3".to_string()]));
    assert_eq!(s.next(), Some(vec!["o3".to_string(), "o2".to_string()]));
    assert_eq!(s.next(), None);
    assert_eq!(t.next(), None);
}

#[test]
fn lengths_count_the_elements_below_each_item() {
    // The search begins with the item that has the fewest options: with
    // three options for item 1 and one for item 2, item 2 comes first.
    let mut s = Solver::new(2);
    s.add_option("a", &[1]).add_option("b", &[1]).add_option("c", &[1]).add_option("d", &[2]);
    assert_eq!(s.next(), Some(vec!["d".to_string(), "a".to_string()]));
}

#[test]
fn with_optional_items_primary_once_and_optional_at_most_once() {
    let options: Vec<(&str, Vec<usize>)> = vec![
        ("a", vec![1, 4]),
        ("b", vec![2, 5]),
        ("c", vec![1, 5]),
        ("d", vec![2, 4]),
        ("e", vec![1]),
        ("f", vec![2]),
        ("g", vec![3, 4, 5]),
        ("h", vec![3]),
    ];
    let mut s = Solver::new_optional(3, 2);
    for (name, items) in options.iter() {
        s.add_option(name, items);
    }
    let sols = all_solutions(&mut s);
    assert!(!sols.is_empty());
    for sol in &sols {
        let mut times = [0usize; 6];
        for name in sol {
            let (_, items) = options.iter().find(|(n, _)| n == name).unwrap();
            for &i in items {
                times[i] += 1;
            }
        }
        assert_eq!(&times[1..=3], &[1, 1, 1]);
        assert!(times[4] <= 1 && times[5] <= 1);
    }
    // Every choice of one option for each of the items 1, 2 and 3 that keeps
    // the items 4 and 5 apart: counted by hand.
    let mut by_hand = 0;
    for one in ["a", "c", "e"] {
        for two in ["b", "d", "f"] {
            for three in ["g", "h"] {
                let mut times = [0usize; 6];
                for name in [one, two, three] {
                    let (_, items) = options.iter().find(|(n, _)| *n == name).unwrap();
                    for &i in items {
                        times[i] += 1;
                    }
                }
                if times[4] <= 1 && times[5] <= 1 {
                    by_hand += 1;
                }
            }
        }
    }
    assert_eq!(sols.len(), by_hand);
}

#[test]
fn count_runs_the_search_to_its_end() {
    let mut s = Solver::new(3);
    s.add_option("o1", &[1]).add_option("o2", &[1]).add_option("o3", &[2, 3]);
    assert_eq!(s.clone().count(), 2);
    assert!(s.next().is_some());
    assert_eq!(s.clone().count(), 1);
    assert!(s.next().is_some());
    assert_eq!(s.clone().count(), 0);
    assert_eq!(knuth().count(), 1);
    assert_eq!(Solver::new(2).count(), 0);
    assert_eq!(Solver::new(0).count(), 1);
}

/// Counts the exact covers by trying every set of options.
fn brute_force(primary: usize, items: usize, options: &[Vec<usize>]) -> usize {
    let mut count = 0;
    for mask in 0u32..(1u32 << options.len()) {
        let mut times = vec![0usize; items + 1];
        let mut proper = true;
        for (k, option) in options.iter().enumerate() {
            if mask & (1 << k) != 0 {
                // An option without a primary item is never part of a solution.
                if !option.iter().any(|&i| i <= primary) {
                    proper = false;
                }
                for &i in option {
                    times[i] += 1;
                }
            }
        }
        let exact = (1..=items).all(|i| if i <= primary { times[i] == 1 } else { times[i] <= 1 });
        if proper && exact {
            count += 1;
        }
    }
    count
}

#[test]
fn the_search_finds_as_many_solutions_as_there_are_exact_covers() {
    let mut seed: u64 = 12345;
    let mut next = |bound: u64| {
        seed = seed.wrapping_mul(6364136223846793005).wrapping_add(1442695040888963407);
        (seed >> 33) % bound
    };
    for _ in 0..200 {
        let primary = next(5) as usize;
        let items = primary + next(3) as usize;
        let n_options = next(9) as usize;
        let mut options: Vec<Vec<usize>> = Vec::new();
        for _ in 0..n_options {
            let mut option = Vec::new();
            for i in 1..=items {
                if next(3) == 0 {
                    option.push(i);
                }
            }
            // Not always in rising order.
            if next(2) == 0 {
                option.reverse();
            }
            options.push(option);
        }
        let mut s = Solver::new_optional(primary, items - primary);
        for (k, option) in options.iter().enumerate() {
            s.add_option(&format!("{}", k), option);
        }
        let sols = all_solutions(&mut s);
        assert_eq!(sols.len(), brute_force(primary, items, &options));
        for sol in &sols {
            let mut times = vec![0usize; items + 1];
            for name in sol {
                let k: usize = name.parse().unwrap();
                for &i in &options[k] {
                    times[i] += 1;
                }
            }
            for i in 1..=items {
                if i <= primary {
                    assert_eq!(times[i], 1);
                } else {
                    assert!(times[i] <= 1);
                }
            }
        }
        // Rendering a finished solver does not disturb it.
        let _ = s.display();
        assert_eq!(s.next(), None);
    }
}

#[test]
fn an_option_without_items_changes_no_solution() {
    let options: Vec<(&str, Vec<usize>)> = vec![
        ("o1", vec![3, 5]),
        ("o2", vec![1, 4, 7]),
        ("o3", vec![2, 3, 6]),
        ("o4", vec![1, 4, 6]),
        ("o5", vec![2, 7]),
        ("o6", vec![4, 5, 7]),
        ("o7", vec![3, 5, 8]),
    ];
    let mut plain = Solver::new_optional(7, 1);
    for (name, items) in options.iter() {
        plain.add_option(name, items);
    }
    let expected = all_solutions(&mut plain);
    assert_eq!(expected.len(), 2);
    for place in 0..=options.len() {
        let mut s = Solver::new_optional(7, 1);
        for (k, (name, items)) in options.iter().enumerate() {
            if k == place {
                s.add_option("blank", &[]);
            }
            s.add_option(name, items);
        }
        if place == options.len() {
            s.add_option("blank", &[]);
        }
        assert_eq!(all_solutions(&mut s), expected);
    }
}

#[test]
fn counts_are_the_numbers_of_options_that_hold_the_items() {
    // Item 3 is held by one option, item 1 by two, item 2 by three: the
    // search takes them in this order.
    let mut s = Solver::new(3);
    s.add_option("a", &[2])
        .add_option("b", &[1])
        .add_option("c", &[2])
        .add_option("d", &[3])
        .add_option("e", &[1])
        .add_option("f", &[2]);
    assert_eq!(s.next(), Some(vec!["d".to_string(), "b".to_string(), "a".to_string()]));
}
