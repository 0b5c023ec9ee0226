use obddimal::permutation::gen_permutation;

fn expected_1_4() -> Vec<(usize, usize)> {
    vec![
        (2, 3),
        (3, 4),
        (2, 3),
        (3, 4),
        (2, 3),
        (3, 4),
        (1, 2),
        (2, 3),
        (3, 4),
        (2, 3),
        (3, 4),
        (2, 3),
        (3, 4),
        (1, 2),
        (2, 3),
        (1, 2),
        (2, 3),
        (3, 4),
        (2, 3),
        (3, 4),
        (2, 3),
        (3, 4),
        (1, 2),
        (2, 3),
        (3, 4),
        (2, 3),
        (1, 2),
        (2, 3),
        (3, 4),
        (2, 3),
        (3, 4),
        (2, 3),
        (3, 4),
        (1, 2),
        (2, 3),
        (3, 4),
    ]
}

fn check_perm() {
    assert_eq!(0, gen_permutation(1, 1).len());
    assert_eq!(2, gen_permutation(1, 2).len());
    assert_eq!(6, gen_permutation(1, 3).len());
    assert_eq!(36, gen_permutation(1, 4).len());

    assert_eq!(gen_permutation(1, 1), vec![]);
    assert_eq!(gen_permutation(1, 2), vec![(1, 2), (2, 1)]);
    assert_eq!(
        gen_permutation(1, 3),
        vec![(1, 2), (2, 3), (1, 2), (2, 3), (1, 2), (2, 3)]
    );
    assert_eq!(gen_permutation(1, 4), expected_1_4())
}

fn check_perm_swap() {
    let mut list = vec![1, 2, 3, 4, 5];
    for i in 0..5 {
        for (from, to) in gen_permutation(0, i) {
            assert!((from as isize - to as isize).abs() == 1);
            list.swap(from, to);
        }
        assert_eq!(list, vec![1, 2, 3, 4, 5]);
    }
}

#[test]
fn dvo_perm_test() {
    check_perm();
}

#[test]
fn dvo_strategies_perm_test() {
    check_perm();
}

#[test]
fn dvo_perm_swap_test() {
    check_perm_swap();
}

#[test]
fn dvo_strategies_perm_swap_test() {
    check_perm_swap();
}

#[test]
fn perm_gen_count() {
    println!("4: {}", gen_permutation(1, 4).len());
    println!("5: {}", gen_permutation(1, 5).len());
    println!("6: {}", gen_permutation(1, 6).len());
    println!("7: {}", gen_permutation(1, 7).len());
}

#[test]
fn permutation_of_a_window_restores_it_and_visits_every_order() {
    // a window of four levels starting at 2: every one of the 24 orders shows up
    let mut list = vec![0, 0, 1, 2, 3, 4, 9];
    let mut seen: Vec<Vec<i32>> = vec![list[2..6].to_vec()];
    for (from, to) in gen_permutation(2, 5) {
        assert!(from >= 2 && from <= 5 && to >= 2 && to <= 5);
        list.swap(from, to);
        let w = list[2..6].to_vec();
        if !seen.contains(&w) {
            seen.push(w);
        }
    }
    assert_eq!(list, vec![0, 0, 1, 2, 3, 4, 9]);
    assert_eq!(seen.len(), 24);
}

#[test]
fn gen_permutation_of_an_empty_window() {
    assert_eq!(gen_permutation(3, 2), vec![]);
}

#[test]
fn gen_permutation_visits_every_order_of_the_window() {
    for (from, to, count) in [(1usize, 4usize, 24usize), (0, 4, 120), (2, 4, 6), (3, 4, 2)] {
        let mut list: Vec<usize> = (0..=to + 1).collect();
        let mut seen: Vec<Vec<usize>> = vec![list[from..=to].to_vec()];
        for (x, y) in gen_permutation(from, to) {
            list.swap(x, y);
            let w = list[from..=to].to_vec();
            if !seen.contains(&w) {
                seen.push(w);
            }
        }
        assert_eq!(seen.len(), count);
        assert_eq!(list, (0..=to + 1).collect::<Vec<usize>>());
    }
}
