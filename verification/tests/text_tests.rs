use folder_scanner::decimal::decimal_string;
use folder_scanner::turns::{journal_line, next_turn, prep_delay_ms};

#[test]
fn decimal_text() {
    assert_eq!(decimal_string(0), "0");
    assert_eq!(decimal_string(7), "7");
    assert_eq!(decimal_string(10), "10");
    assert_eq!(decimal_string(1234567890), "1234567890");
    assert_eq!(decimal_string(u64::MAX), u64::MAX.to_string());
}

#[test]
fn preparation_delays() {
    assert_eq!(prep_delay_ms(1, 1), 35);
    assert_eq!(prep_delay_ms(1, 3), 105);
    assert_eq!(prep_delay_ms(2, 2), 20);
    assert_eq!(prep_delay_ms(3, 3), 66);
}

#[test]
fn turns_rotate() {
    assert_eq!(next_turn(1), 2);
    assert_eq!(next_turn(2), 3);
    assert_eq!(next_turn(3), 1);
}

#[test]
fn journal_line_text() {
    assert_eq!(journal_line(2, 3, 30), "writer-2 wrote step-3 (prep 30ms)");
    assert_eq!(journal_line(1, 1, 35), "writer-1 wrote step-1 (prep 35ms)");
}

#[test]
fn journal_order_with_turns() {
    // Simulate the turn rotation: whoever holds the turn writes its next step.
    let mut turn = 1usize;
    let mut steps_done = [0u64; 4];
    let mut journal = Vec::new();
    for _ in 0..9 {
        let w = turn;
        steps_done[w] += 1;
        let step = steps_done[w];
        journal.push(journal_line(w as u64, step, prep_delay_ms(w, step)));
        turn = next_turn(w);
    }
    assert_eq!(journal.len(), 9);
    assert_eq!(journal[0], "writer-1 wrote step-1 (prep 35ms)");
    assert_eq!(journal[1], "writer-2 wrote step-1 (prep 10ms)");
    assert_eq!(journal[2], "writer-3 wrote step-1 (prep 22ms)");
    assert_eq!(journal[4], "writer-2 wrote step-2 (prep 20ms)");
    assert_eq!(journal[8], "writer-3 wrote step-3 (prep 66ms)");
}
