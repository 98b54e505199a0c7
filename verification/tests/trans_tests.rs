use memfs::trans::Trans;

fn bytes(s: &str) -> Vec<u8> {
    s.as_bytes().to_vec()
}

#[test]
fn new_starts_in_arg_mode() {
    let t = Trans::new();
    assert!(t.arg_mode());
}

#[test]
fn take_args_drains_everything() {
    let mut t = Trans::new();
    t.add_arg(bytes("a"));
    t.add_arg(bytes("b"));
    t.add_arg(bytes("c"));
    let taken = t.take_args(2);
    assert_eq!(taken, Some(vec![bytes("a"), bytes("b")]));
    // the third record was discarded, not kept for a later call
    assert_eq!(t.take_args(1), None);
}

#[test]
fn take_args_absent_leaves_buffer_untouched() {
    let mut t = Trans::new();
    t.add_arg(bytes("only"));
    assert_eq!(t.take_args(2), None);
    // the one record is still there
    assert_eq!(t.take_args(1), Some(vec![bytes("only")]));
}

#[test]
fn take_args_zero_succeeds_and_empties() {
    let mut t = Trans::new();
    t.add_arg(bytes("x"));
    assert_eq!(t.take_args(0), Some(Vec::new()));
    assert_eq!(t.take_args(1), None);
}

#[test]
fn read_resp_streams_in_order() {
    let mut t = Trans::new();
    t.set_resp(bytes("HELLO"));
    assert_eq!(t.read_resp(3), bytes("HEL"));
    assert_eq!(t.read_resp(3), bytes("LO"));
    assert_eq!(t.read_resp(3), Vec::<u8>::new());
}

#[test]
fn set_resp_appends() {
    let mut t = Trans::new();
    t.set_resp(bytes("HE"));
    t.set_resp(bytes("LLO"));
    assert_eq!(t.read_resp(5), bytes("HELLO"));
}

#[test]
fn arg_mode_is_derived_from_response_emptiness() {
    let mut t = Trans::new();
    assert!(t.arg_mode());
    t.set_resp(Vec::new());
    // a zero-length append does not enter response mode
    assert!(t.arg_mode());
    t.set_resp(bytes("X"));
    assert!(!t.arg_mode());
    // draining the response back to empty re-enters argument mode
    assert_eq!(t.read_resp(1), bytes("X"));
    assert!(t.arg_mode());
}

#[test]
fn arguments_survive_response_phase() {
    let mut t = Trans::new();
    t.add_arg(bytes("world"));
    t.set_resp(bytes("HELLO"));
    t.read_resp(5);
    assert_eq!(t.take_args(2), None);
    assert_eq!(t.take_args(1), Some(vec![bytes("world")]));
}
