use train_network::args::case;
use train_network::model;
use train_network::model::state::{Action, Network};

fn diverge() -> model::Network {
    model::Network::try_from(case::diverge()).unwrap()
}

fn small_train() -> model::Network {
    model::Network::try_from(case::multiple_packages_small_train()).unwrap()
}

fn four_actions(state: &Network) -> (Action, Action, Action, Action) {
    let actions = &state.required_actions;
    assert_eq!(actions.len(), 4);
    (
        actions[0].clone(),
        actions[1].clone(),
        actions[2].clone(),
        actions[3].clone(),
    )
}

#[allow(clippy::too_many_arguments)]
fn assert_state_eq(
    state: &Network,
    taken_actions: Vec<Action>,
    untaken_actions: Vec<Action>,
    available_actions: Vec<Action>,
    optimal_duration_mins: u32,
    instructions_len: usize,
    is_success: bool,
    train_current_weight: u32,
    train_optimal_duration_mins: u32,
    train_instructions_len: usize,
) {
    assert_eq!(state.taken_actions(), taken_actions);
    assert_eq!(state.untaken_actions(), untaken_actions);
    assert_eq!(state.available_actions(), available_actions);
    assert_eq!(state.optimal_duration_mins(), optimal_duration_mins);
    assert_eq!(state.instructions().len(), instructions_len);
    assert_eq!(state.is_success(), is_success);
    assert_eq!(state.train_states[0].current_weight(), train_current_weight);
    assert_eq!(
        state.train_states[0].optimal_duration_mins(&state.route_map),
        train_optimal_duration_mins
    );
    assert_eq!(
        state.train_states[0].instructions(&state.route_map).len(),
        train_instructions_len
    );
}

#[test]
fn train_take_action_diverge() {
    let network = diverge();

    let mut state = Network::new(&network);

    let (pick_p1, drop_p1, pick_p2, drop_p2) = four_actions(&state);

    assert_state_eq(
        &state,
        vec![],
        vec![
            pick_p1.clone(),
            drop_p1.clone(),
            pick_p2.clone(),
            drop_p2.clone(),
        ],
        vec![pick_p1.clone(), pick_p2.clone()],
        0,
        0,
        false,
        0,
        0,
        0,
    );

    state.train_states[0].take_action(&pick_p1);

    assert_state_eq(
        &state,
        vec![pick_p1.clone()],
        vec![drop_p1.clone(), pick_p2.clone(), drop_p2.clone()],
        vec![drop_p1.clone(), pick_p2.clone()],
        50,
        1,
        false,
        5,
        50,
        1,
    );

    state.train_states[0].take_action(&drop_p1);

    assert_state_eq(
        &state,
        vec![pick_p1.clone(), drop_p1.clone()],
        vec![pick_p2.clone(), drop_p2.clone()],
        vec![pick_p2.clone()],
        60,
        2,
        false,
        0,
        60,
        2,
    );

    state.train_states[0].take_action(&pick_p2);

    assert_state_eq(
        &state,
        vec![pick_p1.clone(), drop_p1.clone(), pick_p2.clone()],
        vec![drop_p2.clone()],
        vec![drop_p2.clone()],
        160,
        5,
        false,
        5,
        160,
        5,
    );

    state.train_states[0].take_action(&drop_p2);

    assert_state_eq(
        &state,
        vec![
            pick_p1.clone(),
            drop_p1.clone(),
            pick_p2.clone(),
            drop_p2.clone(),
        ],
        vec![],
        vec![],
        170,
        6,
        true,
        0,
        170,
        6,
    );
}

#[test]
fn train_take_action_multiple_packages_small_train() {
    let network = small_train();

    let mut state = Network::new(&network);

    let (pick_p1, drop_p1, pick_p2, drop_p2) = four_actions(&state);

    assert_state_eq(
        &state,
        vec![],
        vec![
            pick_p1.clone(),
            drop_p1.clone(),
            pick_p2.clone(),
            drop_p2.clone(),
        ],
        vec![pick_p1.clone(), pick_p2.clone()],
        0,
        0,
        false,
        0,
        0,
        0,
    );

    state.train_states[0].take_action(&pick_p1);

    assert_state_eq(
        &state,
        vec![pick_p1.clone()],
        vec![drop_p1.clone(), pick_p2.clone(), drop_p2.clone()],
        vec![drop_p1.clone()],
        0,
        1,
        false,
        5,
        0,
        1,
    );

    state.train_states[0].take_action(&drop_p1);

    assert_state_eq(
        &state,
        vec![pick_p1.clone(), drop_p1.clone()],
        vec![pick_p2.clone(), drop_p2.clone()],
        vec![pick_p2.clone()],
        10,
        2,
        false,
        0,
        10,
        2,
    );

    state.train_states[0].take_action(&pick_p2);

    assert_state_eq(
        &state,
        vec![pick_p1.clone(), drop_p1.clone(), pick_p2.clone()],
        vec![drop_p2.clone()],
        vec![drop_p2.clone()],
        20,
        3,
        false,
        5,
        20,
        3,
    );

    state.train_states[0].take_action(&drop_p2);

    assert_state_eq(
        &state,
        vec![
            pick_p1.clone(),
            drop_p1.clone(),
            pick_p2.clone(),
            drop_p2.clone(),
        ],
        vec![],
        vec![],
        30,
        4,
        true,
        0,
        30,
        4,
    );
}

#[test]
fn network_take_available_actions_diverge() {
    let network = diverge();

    let state = Network::new(&network);

    let successor_states = state.take_available_actions();
    assert_eq!(successor_states.len(), 2);
    let state = successor_states[0].0.clone();

    let successor_states = state.take_available_actions();
    assert_eq!(successor_states.len(), 2);
    let state = successor_states[0].0.clone();

    let successor_states = state.take_available_actions();
    assert_eq!(successor_states.len(), 1);
    let state = successor_states[0].0.clone();

    let successor_states = state.take_available_actions();
    assert_eq!(successor_states.len(), 1);
    let state = successor_states[0].0.clone();

    let successor_states = state.take_available_actions();
    assert_eq!(successor_states.len(), 0);
}
