use basket::Basket;

fn check_basket(basket: &Basket, inner: Vec<(i32, Vec<(u32, u128)>)>) {
    assert_eq!(basket.levels(), inner);
}

#[test]
fn put_test() {
    let mut basket = Basket::new();
    basket.put(20, 1, 101);
    basket.put(12, 2, 102);
    basket.put(20, 3, 103);
    basket.put(5, 4, 103);
    basket.put(10, 5, 104);
    basket.put(1, 6, 105);
    basket.put(2, 7, 106);
    basket.put(10, 8, 107);
    basket.put(20, 9, 108);
    basket.put(5, 10, 109);
    check_basket(&basket, vec![
        (1, vec![(6, 105)]),
        (2, vec![(7, 106)]),
        (5, vec![(4, 103), (10, 109)]),
        (10, vec![(5, 104), (8, 107)]),
        (12, vec![(2, 102)]),
        (20, vec![(1, 101), (3, 103), (9, 108)]),
    ]);

    let mut basket = Basket::new();
    basket.put(20, 1, 101);
    basket.put(21, 2, 102);
    basket.put(21, 3, 103);
    basket.put(22, 4, 104);
    basket.put(23, 5, 105);
    check_basket(&basket, vec![
        (20, vec![(1, 101)]),
        (21, vec![(2, 102), (3, 103)]),
        (22, vec![(4, 104)]),
        (23, vec![(5, 105)]),
    ]);

    let mut basket = Basket::new();
    basket.put(23, 5, 105);
    basket.put(22, 4, 104);
    basket.put(21, 2, 102);
    basket.put(21, 3, 103);
    basket.put(20, 1, 101);
    check_basket(&basket, vec![
        (20, vec![(1, 101)]),
        (21, vec![(2, 102), (3, 103)]),
        (22, vec![(4, 104)]),
        (23, vec![(5, 105)]),
    ]);
}

fn sample() -> Basket {
    let mut basket = Basket::new();
    basket.put(20, 1, 101);
    basket.put(21, 1, 102);
    basket.put(21, 1, 103);
    basket.put(21, 1, 104);
    basket.put(22, 1, 105);
    basket.put(23, 2, 106);
    basket
}

fn run_split(use_first: bool) {
    let split = |b: &mut Basket, p: i32, s: u32| if use_first { b.split(p, s) } else { b.split_1(p, s) };

    let mut basket = Basket::new();
    let other = split(&mut basket, 1000, 1000);
    check_basket(&basket, vec![]);
    check_basket(&other, vec![]);

    let mut basket = sample();
    let new = split(&mut basket, 21, 3);
    check_basket(&new, vec![(20, vec![(1, 101)]), (21, vec![(1, 102), (1, 103)])]);
    check_basket(&basket, vec![(21, vec![(1, 104)]), (22, vec![(1, 105)]), (23, vec![(2, 106)])]);

    let mut basket = Basket::new();
    basket.put(20, 1, 101);
    let new = split(&mut basket, 21, 3);
    check_basket(&new, vec![(20, vec![(1, 101)])]);
    check_basket(&basket, vec![]);

    let mut basket = Basket::new();
    basket.put(20, 1, 101);
    let new = split(&mut basket, 1, 3);
    check_basket(&new, vec![]);
    check_basket(&basket, vec![(20, vec![(1, 101)])]);

    let mut basket = sample();
    let new = split(&mut basket, 22, 33);
    check_basket(&new, vec![(20, vec![(1, 101)]), (21, vec![(1, 102), (1, 103), (1, 104)]), (22, vec![(1, 105)])]);
    check_basket(&basket, vec![(23, vec![(2, 106)])]);
}

#[test]
fn split_test() {
    run_split(true);
}

#[test]
fn split_1_test() {
    run_split(false);
}

#[test]
fn split_zero_budget_takes_nothing() {
    let mut basket = sample();
    let new = basket.split(100, 0);
    check_basket(&new, vec![]);
    check_basket(&basket, vec![(20, vec![(1, 101)]), (21, vec![(1, 102), (1, 103), (1, 104)]), (22, vec![(1, 105)]), (23, vec![(2, 106)])]);
}

#[test]
fn split_exact_budget_is_included() {
    let mut basket = sample();
    let new = basket.split(23, 7);
    check_basket(&new, vec![(20, vec![(1, 101)]), (21, vec![(1, 102), (1, 103), (1, 104)]), (22, vec![(1, 105)]), (23, vec![(2, 106)])]);
    check_basket(&basket, vec![]);
}

#[test]
fn split_does_not_overflow_the_running_sum() {
    let mut basket = Basket::new();
    basket.put(1, 4294967295, 1);
    basket.put(2, 1, 2);
    let new = basket.split(10, 4294967295);
    check_basket(&new, vec![(1, vec![(4294967295, 1)])]);
    check_basket(&basket, vec![(2, vec![(1, 2)])]);
}

#[test]
fn split_1_matches_split_on_a_partly_fitting_first_level() {
    let mut a = Basket::new();
    a.put(21, 1, 1);
    a.put(21, 1, 2);
    a.put(21, 1, 3);
    let new = a.split_1(21, 2);
    check_basket(&new, vec![(21, vec![(1, 1), (1, 2)])]);
    check_basket(&a, vec![(21, vec![(1, 3)])]);
}
