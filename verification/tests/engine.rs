use touring::machine::MoveHead;
use touring::machine::Transition;
use touring::machine::TouringMachine;
use touring::machine::TouringState;

fn simple_machine() -> TouringMachine {
    TouringMachine {
        input_alphabet: vec!['0', '1'],
        states: vec!['a', 'b'],
        work_alphabet: vec!['0', '1'],
        transitions: vec![
            Transition {
                curr_token: '0',
                curr_state: 'a',
                next_token: '0',
                next_state: 'a',
                move_head: MoveHead::RIGHT,
            },
            Transition {
                curr_token: '1',
                curr_state: 'a',
                next_token: '1',
                next_state: 'b',
                move_head: MoveHead::NOT,
            },
        ],
        start_state: 'a',
        empty_symbol: 'x',
    }
}

#[test]
fn test_simple_machine() {
    let machine = simple_machine();
    let mut state = TouringState::new(
        &machine,
        vec!['0', '0', '0', '1', '0'],
        0,
        machine.start_state,
    );
    state.run(1000);
    assert_eq!('b', state.current_state);
    assert_eq!('1', state.current_token());
}

#[test]
fn head_offsets() {
    assert_eq!(-1, MoveHead::LEFT.head_offset());
    assert_eq!(0, MoveHead::NOT.head_offset());
    assert_eq!(1, MoveHead::RIGHT.head_offset());
}

#[test]
fn transition_new_fills_fields() {
    let t = Transition::new('0', 'a', '1', 'b', MoveHead::LEFT);
    assert_eq!('0', t.curr_token);
    assert_eq!('a', t.curr_state);
    assert_eq!('1', t.next_token);
    assert_eq!('b', t.next_state);
    assert_eq!(MoveHead::LEFT, t.move_head);
}

#[test]
fn find_transition_takes_first_match() {
    let machine = TouringMachine {
        input_alphabet: vec![],
        states: vec![],
        work_alphabet: vec![],
        transitions: vec![
            Transition::new('1', 'a', '1', 'b', MoveHead::NOT),
            Transition::new('1', 'a', '1', 'c', MoveHead::NOT),
        ],
        start_state: 'a',
        empty_symbol: '#',
    };
    let found = machine.find_transition('1', 'a').unwrap();
    assert_eq!('b', found.next_state);
    assert_eq!(None, machine.find_transition('2', 'a'));
    assert_eq!(None, machine.find_transition('1', 'b'));

    let mut state = TouringState::new(&machine, vec!['1'], 0, 'a');
    assert!(state.exec_step());
    assert_eq!('b', state.current_state);
}

#[test]
fn steps_run_deterministically() {
    let machine = simple_machine();
    let mut state = TouringState::new(
        &machine,
        vec!['0', '0', '0', '1', '0'],
        0,
        machine.start_state,
    );
    // Three moves over the leading zeros, one state change on the one, then
    // the step that reports no change.
    assert!(state.exec_step());
    assert_eq!(1, state.head_position);
    assert!(state.exec_step());
    assert_eq!(2, state.head_position);
    assert!(state.exec_step());
    assert_eq!(3, state.head_position);
    assert_eq!('a', state.current_state);
    assert!(state.exec_step());
    assert_eq!(3, state.head_position);
    assert_eq!('b', state.current_state);
    assert!(!state.exec_step());
    assert_eq!(3, state.head_position);
    assert_eq!('b', state.current_state);
    assert_eq!('1', state.current_token());
}

#[test]
fn no_match_leaves_everything_unchanged() {
    let machine = simple_machine();
    let mut state = TouringState::new(&machine, vec!['2', '2'], 0, machine.start_state);
    assert!(!state.exec_step());
    assert_eq!('a', state.current_state);
    assert_eq!(0, state.head_position);
    assert_eq!(vec!['2', '2'], state.input.iter().clone());
    assert_eq!(0, state.input.first_index());
    assert_eq!(1, state.input.last_index());
}

#[test]
fn self_loop_counts_as_halt() {
    let machine = TouringMachine {
        input_alphabet: vec!['1'],
        states: vec!['a'],
        work_alphabet: vec!['1'],
        transitions: vec![Transition::new('1', 'a', '1', 'a', MoveHead::NOT)],
        start_state: 'a',
        empty_symbol: '#',
    };
    let mut state = TouringState::new(&machine, vec!['1'], 0, 'a');
    // A rule matches, yet the step reports no change.
    assert!(!state.exec_step());
    assert_eq!('a', state.current_state);
    assert_eq!(0, state.head_position);
    assert_eq!('1', state.current_token());
}

#[test]
fn rewrite_in_place_counts_as_halt() {
    let machine = TouringMachine {
        input_alphabet: vec!['0'],
        states: vec!['a'],
        work_alphabet: vec!['0', '1'],
        transitions: vec![Transition::new('0', 'a', '1', 'a', MoveHead::NOT)],
        start_state: 'a',
        empty_symbol: '#',
    };
    let mut state = TouringState::new(&machine, vec!['0'], 0, 'a');
    // The symbol under the head changes, but state and head do not: halt.
    assert!(!state.exec_step());
    assert_eq!('1', state.current_token());
    assert_eq!('a', state.current_state);
}

#[test]
fn run_halts_on_simple_machine() {
    let machine = simple_machine();
    let mut state = TouringState::new(&machine, vec!['1'], 0, machine.start_state);
    assert!(state.run(10));
    assert_eq!('b', state.current_state);
}

#[test]
fn run_reports_fuel_exhaustion() {
    let machine = TouringMachine {
        input_alphabet: vec![],
        states: vec!['a'],
        work_alphabet: vec!['#'],
        transitions: vec![Transition::new('#', 'a', '#', 'a', MoveHead::RIGHT)],
        start_state: 'a',
        empty_symbol: '#',
    };
    let mut state = TouringState::new(&machine, vec![], 0, 'a');
    assert!(!state.run(10));
    assert_eq!(10, state.head_position);
    assert_eq!('a', state.current_state);
}

#[test]
fn reading_off_the_tape_grows_it() {
    let machine = simple_machine();
    let mut state = TouringState::new(&machine, vec!['0'], 4, machine.start_state);
    // No rule matches the blank symbol, but the read materializes the cell.
    assert!(!state.exec_step());
    assert_eq!('x', state.current_token());
    assert_eq!(0, state.input.first_index());
    assert_eq!(4, state.input.last_index());
    assert_eq!(vec!['0', 'x', 'x', 'x', 'x'], state.input.iter().clone());
}

#[test]
fn head_can_walk_into_negative_indices() {
    let machine = TouringMachine {
        input_alphabet: vec!['0'],
        states: vec!['a', 'b'],
        work_alphabet: vec!['0', '#'],
        transitions: vec![
            Transition::new('0', 'a', '0', 'a', MoveHead::LEFT),
            Transition::new('#', 'a', '0', 'b', MoveHead::NOT),
        ],
        start_state: 'a',
        empty_symbol: '#',
    };
    let mut state = TouringState::new(&machine, vec!['0'], 0, 'a');
    assert!(state.run(10));
    assert_eq!('b', state.current_state);
    assert_eq!(-1, state.head_position);
    assert_eq!(-1, state.input.first_index());
    assert_eq!(vec!['0', '0'], state.input.iter().clone());
}
