use desktop_utils::animation::{animation_plan, Mode};

#[test]
fn forward_plan_steps_up_and_closes_on_the_length() {
    assert_eq!(animation_plan(0, 5, 2, Mode::Forward), (vec![0, 2, 4], Some(5)));
    assert_eq!(animation_plan(0, 4, 2, Mode::Forward), (vec![0, 2, 4], None));
    assert_eq!(animation_plan(3, 6, 1, Mode::Forward), (vec![3, 4, 5, 6], None));
}

#[test]
fn reverse_plan_steps_down_and_closes_on_the_cut() {
    assert_eq!(animation_plan(1, 5, 2, Mode::Reverse), (vec![5, 3, 1], None));
    assert_eq!(animation_plan(0, 5, 2, Mode::Reverse), (vec![5, 3, 1], Some(0)));
}

#[test]
fn plan_with_cut_past_length() {
    assert_eq!(animation_plan(6, 5, 1, Mode::Forward), (vec![], Some(5)));
    assert_eq!(animation_plan(6, 5, 1, Mode::Reverse), (vec![], Some(6)));
    assert_eq!(animation_plan(3, 0, 1, Mode::Forward), (vec![], None));
}

#[test]
fn plan_of_empty_text() {
    assert_eq!(animation_plan(0, 0, 1, Mode::Forward), (vec![0], None));
    assert_eq!(animation_plan(0, 0, 3, Mode::Reverse), (vec![0], None));
}

#[test]
fn plan_ends_on_the_end_limit() {
    for step in 1..5 {
        for len in 0..7 {
            for cut in 0..7 {
                let (frames, closing) = animation_plan(cut, len, step, Mode::Forward);
                let last = closing.or(frames.last().copied());
                if let Some(last) = last {
                    assert_eq!(last, len);
                }
                let (frames, closing) = animation_plan(cut, len, step, Mode::Reverse);
                let last = closing.or(frames.last().copied());
                if let Some(last) = last {
                    assert_eq!(last, cut);
                }
            }
        }
    }
}

#[test]
fn frames_move_by_step_within_the_range() {
    let (frames, _) = animation_plan(2, 11, 3, Mode::Forward);
    assert_eq!(frames, vec![2, 5, 8, 11]);
    for pair in frames.windows(2) {
        assert_eq!(pair[1], pair[0] + 3);
    }
    let (frames, _) = animation_plan(2, 11, 4, Mode::Reverse);
    assert_eq!(frames, vec![11, 7, 3]);
    for pair in frames.windows(2) {
        assert_eq!(pair[1] + 4, pair[0]);
    }
    assert!(frames.iter().all(|f| (2..=11).contains(f)));
}
