use festival_pallets::market::{calculate_simple_reward, get_winners_total_lockup, get_winning_options, lex_less};

fn stakes(list: &[(&str, u128)]) -> Vec<(Vec<u8>, u128)> {
    list.iter().map(|(m, a)| (m.as_bytes().to_vec(), *a)).collect()
}

#[test]
fn winning_options_single_winner() {
    let s = stakes(&[("alpha", 5), ("beta", 3), ("alpha", 4)]);
    assert_eq!(get_winning_options(&s), vec![b"alpha".to_vec()]);
}

#[test]
fn winning_options_ties_last_first_then_ascending() {
    let s = stakes(&[("b", 5), ("a", 5), ("c", 3), ("b", 0)]);
    assert_eq!(get_winning_options(&s), vec![b"b".to_vec(), b"a".to_vec()]);
    let s = stakes(&[("c", 2), ("a", 2), ("b", 2)]);
    assert_eq!(get_winning_options(&s), vec![b"c".to_vec(), b"a".to_vec(), b"b".to_vec()]);
}

#[test]
fn winning_options_prefix_orders_first() {
    let s = stakes(&[("ab", 1), ("a", 1)]);
    assert_eq!(get_winning_options(&s), vec![b"ab".to_vec(), b"a".to_vec()]);
}

#[test]
fn winners_total_lockup_sums_winning_stakes() {
    let s = stakes(&[("b", 5), ("a", 5), ("c", 3), ("b", 2)]);
    let w = vec![b"b".to_vec()];
    assert_eq!(get_winners_total_lockup(&s, &w), 7);
    let w = vec![b"a".to_vec(), b"c".to_vec()];
    assert_eq!(get_winners_total_lockup(&s, &w), 8);
    assert_eq!(get_winners_total_lockup(&s, &vec![]), 0);
}

#[test]
fn simple_reward_values() {
    assert_eq!(calculate_simple_reward(150_000, 100_000, 100_000), 150_000);
    assert_eq!(calculate_simple_reward(150_000, 50_000, 100_000), 75_000);
    assert_eq!(calculate_simple_reward(999, 10, 10), 0);
    assert_eq!(calculate_simple_reward(10_000, 1, 3), 333 * 10);
}

#[test]
fn rewards_stay_within_lockup() {
    let total: u128 = 1_000_007;
    let stakes = [1u128, 2, 3, 5, 7];
    let w: u128 = stakes.iter().sum();
    let paid: u128 = stakes.iter().map(|u| calculate_simple_reward(total, *u, w)).sum();
    assert!(paid <= total);
}

#[test]
fn lex_less_orders_like_vec() {
    let cases: [(&[u8], &[u8]); 5] = [(b"", b"a"), (b"a", b"ab"), (b"ab", b"b"), (b"b", b"ab"), (b"x", b"x")];
    for (a, b) in cases.iter() {
        assert_eq!(lex_less(&a.to_vec(), &b.to_vec()), a.to_vec() < b.to_vec());
    }
}

#[test]
fn reward_of_a_stake_above_the_winners_total() {
    assert_eq!(calculate_simple_reward(5_000, 2, 1), 10_000);
    assert_eq!(calculate_simple_reward(999, 1, 1), 0);
}
