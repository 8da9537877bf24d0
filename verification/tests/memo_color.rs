use infinite_canvas::memo_color::MemoColor;

#[test]
fn cycle_follows_fixed_order() {
    assert_eq!(MemoColor::Yellow.cycle(), MemoColor::Pink);
    assert_eq!(MemoColor::Pink.cycle(), MemoColor::Blue);
    assert_eq!(MemoColor::Blue.cycle(), MemoColor::Green);
    assert_eq!(MemoColor::Green.cycle(), MemoColor::Lavender);
    assert_eq!(MemoColor::Lavender.cycle(), MemoColor::Yellow);
}

#[test]
fn cycle_five_times_returns_to_start() {
    let all = [
        MemoColor::Yellow,
        MemoColor::Pink,
        MemoColor::Blue,
        MemoColor::Green,
        MemoColor::Lavender,
    ];
    for start in all {
        let mut c = start;
        for step in 1..=5 {
            c = c.cycle();
            if step < 5 {
                assert_ne!(c, start);
            }
        }
        assert_eq!(c, start);
    }
}

#[test]
fn cycle_never_stays_put() {
    for c in [
        MemoColor::Yellow,
        MemoColor::Pink,
        MemoColor::Blue,
        MemoColor::Green,
        MemoColor::Lavender,
    ] {
        assert_ne!(c.cycle(), c);
    }
}
