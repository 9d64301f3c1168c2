use train_network::args;
use train_network::args::case;
use train_network::model::Network;

fn optimal_time(input: args::Network) -> u32 {
    let network = Network::try_from(input).unwrap();
    assert!(network.is_within_limits());
    network.optimal_time_mins().unwrap()
}

#[test]
fn direct() {
    assert_eq!(optimal_time(case::direct()), 20);
}

#[test]
fn choice() {
    assert_eq!(optimal_time(case::choice()), 20);
}

#[test]
fn islands() {
    assert_eq!(optimal_time(case::islands()), 10);
}

#[test]
fn diverge() {
    assert_eq!(optimal_time(case::diverge()), 160);
}

#[test]
fn multiple_packages_small_train() {
    assert_eq!(optimal_time(case::multiple_packages_small_train()), 30);
}

#[test]
fn multiple_packages_big_train() {
    assert_eq!(optimal_time(case::multiple_packages_big_train()), 10);
}

#[test]
fn multiple_packages_islands() {
    assert_eq!(optimal_time(case::multiple_packages_islands()), 20);
}
