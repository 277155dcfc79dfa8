use paintings::random::Draws;
use rand::rngs::StdRng;
use rand::SeedableRng;

#[test]
fn listed_draws_come_in_order_and_below_the_bound() {
    let mut draws = Draws::from_values(vec![5, 7, 2]);
    assert_eq!(draws.below(3), 2);
    assert_eq!(draws.below(4), 3);
    assert_eq!(draws.below(9), 2);
}

#[test]
fn a_list_that_has_run_out_goes_on_with_zeros() {
    let mut draws = Draws::from_values(vec![1]);
    assert_eq!(draws.below(2), 1);
    assert_eq!(draws.below(2), 0);
    assert_eq!(draws.below(1), 0);
    let mut none = Draws::from_values(Vec::new());
    assert_eq!(none.below(5), 0);
}

#[test]
fn generated_draws_stay_below_the_bound() {
    let mut draws = Draws::from_generator(StdRng::seed_from_u64(7));
    let mut seen = [false; 4];
    for _ in 0..200 {
        let value = draws.below(4);
        assert!(value < 4);
        seen[value] = true;
    }
    assert_eq!(seen, [true; 4]);
    assert_eq!(draws.below(1), 0);
}
