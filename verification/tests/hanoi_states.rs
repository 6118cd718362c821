use graph_traversal::hanoi::HanoiState;

#[test]
fn test_state_display() {
    let a = HanoiState {
        rods: vec![vec![3, 2, 1], vec![], vec![]],
    };
    assert_eq!(a.label(), "_321__");
}

#[test]
fn test_move_making() {
    let mut state = HanoiState {
        rods: vec![vec![3, 2, 1], vec![], vec![]],
    };

    // cannot move from an empty rod
    assert!(!state.is_valid((1, 2)));

    state.make_move((0, 1));
    assert_eq!(state.label(), "_32_1_");

    // cannot move a bigger disc onto a smaller one
    assert!(!state.is_valid((0, 1)));
}

#[test]
fn test_multi_digit_discs() {
    let state = HanoiState {
        rods: vec![vec![12], vec![205], vec![7]],
    };
    assert_eq!(state.label(), "_12_205_7");
}

#[test]
fn test_same_rod_move_is_invalid() {
    let state = HanoiState {
        rods: vec![vec![1], vec![2], vec![]],
    };
    assert!(!state.is_valid((0, 0)));
    assert!(state.is_valid((0, 1)));
}
