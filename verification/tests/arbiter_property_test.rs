use line_arbitration::arbiter::{Arbiter, ArbiterError};
use line_arbitration::mytype::message::Message;

fn msg(seq_num: u64, source_line: u8) -> Message {
    Message::new(seq_num, source_line, 0, vec![])
}

// Feeds every message to a fresh arbiter and returns the concatenation of
// everything it emits, ignoring gap errors along the way.
fn emitted_seq_nums(num_lines: usize, threshold: u64, order: &[u64]) -> Vec<u64> {
    let mut arbiter: Arbiter<Message> = Arbiter::new(num_lines, threshold);
    let mut emitted = vec![];
    for &s in order {
        if let Ok(out) = arbiter.receive_message(msg(s, 0)) {
            for m in out {
                emitted.push(m.seq_num);
            }
        }
    }
    emitted
}

#[test]
fn test_order_independence_permutations() {
    // The same duplicate-free arrival set, in several orders, emits the same
    // final sequence once the gap is filled.
    let orders: [[u64; 4]; 5] = [
        [1, 2, 3, 4],
        [4, 3, 2, 1],
        [2, 4, 1, 3],
        [3, 1, 4, 2],
        [2, 1, 4, 3],
    ];
    for order in &orders {
        assert_eq!(emitted_seq_nums(1, 100, order), vec![1, 2, 3, 4]);
    }
}

#[test]
fn test_duplicate_never_emits_twice() {
    let mut arbiter = Arbiter::new(2, 10);
    // Buffer 2, then release 1 and 2.
    assert!(arbiter.receive_message(msg(2, 0)).unwrap().is_empty());
    let out = arbiter.receive_message(msg(1, 1)).unwrap();
    assert_eq!(out.len(), 2);
    // The same submissions again emit nothing and move nothing.
    assert!(arbiter.receive_message(msg(2, 0)).unwrap().is_empty());
    assert!(arbiter.receive_message(msg(1, 1)).unwrap().is_empty());
    // The stream continues where it left off.
    let out = arbiter.receive_message(msg(3, 0)).unwrap();
    assert_eq!(out.len(), 1);
    assert_eq!(out[0].seq_num, 3);
}

#[test]
fn test_emitted_is_contiguous_and_ascending() {
    let order: [u64; 7] = [5, 3, 7, 1, 2, 4, 6];
    let emitted = emitted_seq_nums(1, 100, &order);
    assert_eq!(emitted, vec![1, 2, 3, 4, 5, 6, 7]);
}

#[test]
fn test_out_of_bounds_leaves_state_untouched() {
    let mut arbiter = Arbiter::new(1, 5);
    assert!(arbiter.receive_message(msg(2, 0)).unwrap().is_empty());
    // A message on an out-of-range line is rejected and changes nothing:
    // neither the buffer nor the high-water marks.
    let result = arbiter.receive_message(msg(1, 1));
    assert_eq!(result.unwrap_err(), ArbiterError::OutOfBoundsSourceLine);
    // Filling the gap still releases 1 and the buffered 2.
    let out = arbiter.receive_message(msg(1, 0)).unwrap();
    assert_eq!(out.len(), 2);
    assert_eq!(out[0].seq_num, 1);
    assert_eq!(out[1].seq_num, 2);
}

#[test]
fn test_zero_lines_rejects_everything() {
    let mut arbiter: Arbiter<Message> = Arbiter::new(0, 5);
    let result = arbiter.receive_message(msg(1, 0));
    assert_eq!(result.unwrap_err(), ArbiterError::OutOfBoundsSourceLine);
}

#[test]
fn test_threshold_boundary_one_line_short() {
    // Threshold k = 3, gap g = 1: the gap is unrecoverable only when every
    // line reaches g + k = 4; one line held at g + k - 1 = 3 must not trigger.
    let mut arbiter = Arbiter::new(2, 3);
    arbiter.receive_message(msg(2, 0)).unwrap();
    arbiter.receive_message(msg(9, 0)).unwrap();
    // Line 1 reaches 3 only: no error.
    assert!(arbiter.receive_message(msg(3, 1)).unwrap().is_empty());
    // Line 1 reaches 4: now every line is at or past 4, so the gap is lost.
    let result = arbiter.receive_message(msg(4, 1));
    assert_eq!(result.unwrap_err(), ArbiterError::UnrecoverableGap);
}

#[test]
fn test_threshold_zero_immediate_loss() {
    // With threshold 0 a gap is lost the instant every line reaches the gap's
    // own sequence number.
    let mut arbiter = Arbiter::new(1, 0);
    let result = arbiter.receive_message(msg(2, 0));
    assert_eq!(result.unwrap_err(), ArbiterError::UnrecoverableGap);
}

#[test]
fn test_error_leaves_state_well_formed() {
    // UnrecoverableGap is a raised condition, not a shutdown: the state stays
    // valid and the gap can even still be filled afterwards.
    let mut arbiter = Arbiter::new(1, 5);
    assert!(arbiter.receive_message(msg(3, 0)).unwrap().is_empty());
    let result = arbiter.receive_message(msg(7, 0));
    assert_eq!(result.unwrap_err(), ArbiterError::UnrecoverableGap);
    // Submitting 1 advances the release point, but the call still reports the
    // gap that now sits at 2 and supersedes the released run.
    let result = arbiter.receive_message(msg(1, 0));
    assert_eq!(result.unwrap_err(), ArbiterError::UnrecoverableGap);
    // Filling 2 closes that gap: 2 and the buffered 3 come out, and the gap
    // at 4 is still recoverable because 7 < 4 + 5.
    let out = arbiter.receive_message(msg(2, 0)).unwrap();
    assert_eq!(out.len(), 2);
    assert_eq!(out[0].seq_num, 2);
    assert_eq!(out[1].seq_num, 3);
}

#[test]
fn test_payload_passes_through_unchanged() {
    let mut arbiter = Arbiter::new(1, 5);
    let m = Message::new(1, 0, 42, vec![9, 8, 7]);
    let out = arbiter.receive_message(m).unwrap();
    assert_eq!(out.len(), 1);
    assert_eq!(out[0].ts, 42);
    assert_eq!(out[0].data, vec![9, 8, 7]);
}

#[test]
fn test_message_new_stores_fields() {
    let m = Message::new(7, 2, 1234, vec![1, 2]);
    assert_eq!(m.seq_num, 7);
    assert_eq!(m.source_line, 2);
    assert_eq!(m.ts, 1234);
    assert_eq!(m.data, vec![1, 2]);
}
