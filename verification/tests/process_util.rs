use process1::process_util::{
    alive, alive_of, process_state, process_state_of, stat_needed, stat_needed_of, valid_pid,
    ProcessStateError,
};

const STAT: &str = "4242 (cat) S 1 4242 4242 0 -1 4194304";

#[test]
fn valid_pids_are_positive() {
    assert!(valid_pid(1));
    assert!(valid_pid(i32::MAX));
    assert!(!valid_pid(0));
    assert!(!valid_pid(-1));
}

#[test]
fn own_process_is_running() {
    assert!(!stat_needed_of(0, 77));
    assert!(!stat_needed_of(77, 77));
    assert!(stat_needed_of(78, 77));
    assert_eq!(process_state_of(0, 77, None), Ok('R'));
    assert_eq!(process_state_of(77, 77, None), Ok('R'));
}

#[test]
fn state_is_the_first_letter_of_the_fourth_field() {
    assert_eq!(process_state_of(4242, 77, Some(STAT)), Ok('1'));
    assert_eq!(process_state_of(4242, 77, Some("a b c Zed")), Ok('Z'));
    assert_eq!(process_state_of(4242, 77, Some("a b c")), Err(ProcessStateError::InvalidFormat));
    assert_eq!(process_state_of(4242, 77, Some("")), Err(ProcessStateError::InvalidFormat));
    assert_eq!(process_state_of(4242, 77, None), Err(ProcessStateError::Unreadable));
}

#[test]
fn who_is_alive() {
    assert!(!alive_of(-5, 77, Some(STAT)));
    assert!(alive_of(0, 77, None));
    assert!(alive_of(1, 77, None));
    assert!(alive_of(77, 77, None));
    assert!(alive_of(4242, 77, Some(STAT)));
    assert!(!alive_of(4242, 77, Some("a b c Z")));
    assert!(!alive_of(4242, 77, Some("a b")));
    assert!(!alive_of(4242, 77, None));
}

#[test]
fn the_asking_process_knows_itself() {
    let own = nix::unistd::getpid().as_raw();
    assert!(!stat_needed(own));
    assert!(!stat_needed(0));
    assert!(stat_needed(own + 2));
    assert_eq!(process_state(own, None), Ok('R'));
    assert_eq!(process_state(own, Some("a b c Z")), Ok('R'));
    assert!(alive(own, None));
    let other = own + 2;
    assert_eq!(process_state(other, Some("a b c Z")), Ok('Z'));
    assert!(!alive(other, Some("a b c Z")));
    assert!(!alive(other, None));
}
