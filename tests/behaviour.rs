use ribbon::{Band, Enroll, Ribbon, Tape};

#[test]
fn band_never_exceeds_capacity() {
    let mut band: Band<3, _> = Band::new(0u32..100u32);
    for step in 0..40u32 {
        match step % 4 {
            0 | 1 => {
                band.expand();
            }
            2 => {
                band.progress();
            }
            _ => {
                band.expand_n(5);
            }
        }
        assert!(band.len() <= 3);
    }
    assert_eq!(band.len(), 3);
}

#[test]
fn band_evicts_oldest_first() {
    let mut band: Band<3, _> = Band::new(0u32..10u32);
    assert!(band.expand_n(3));
    assert_eq!(band.len(), 3);

    // expand at capacity drops 0
    assert!(band.expand());
    assert_eq!(band.len(), 3);
    assert_eq!(band.peek_front(), Some(&1));
    assert_eq!(band.peek_back(), Some(&3));

    // progress at capacity hands out 1, then 2
    assert_eq!(band.progress(), Some(1));
    assert_eq!(band.progress(), Some(2));
    assert_eq!(band.peek_at(0), Some(&3));
    assert_eq!(band.peek_at(1), Some(&4));
    assert_eq!(band.peek_at(2), Some(&5));
}

#[test]
fn band_of_one_always_evicts() {
    let mut band = (0u8..3u8).band::<1>();
    assert_eq!(band.progress(), None);
    assert_eq!(band.progress(), Some(0));
    assert!(band.expand());
    assert_eq!(band.peek_front(), Some(&2));
    assert_eq!(band.peek_back(), Some(&2));
    assert_eq!(band.len(), 1);
    assert!(!band.expand());
    assert_eq!(band.progress(), None);
    assert_eq!(band.pop_back(), Some(2));
    assert!(band.is_empty());
}

#[test]
fn band_exhausted_source_is_noop() {
    let mut band: Band<4, _> = Band::new(0u32..2u32);
    assert!(band.expand_n(4));
    assert_eq!(band.len(), 2);
    for _ in 0..3 {
        assert!(!band.expand());
        assert_eq!(band.progress(), None);
        assert!(!band.expand_n(2));
        assert_eq!(band.len(), 2);
        assert_eq!(band.peek_at(0), Some(&0));
        assert_eq!(band.peek_at(1), Some(&1));
    }
}

#[test]
fn tape_exhausted_source_is_noop() {
    let mut tape = Tape::new(0u32..2u32);
    assert!(tape.expand_n(4));
    assert_eq!(tape.len(), 2);
    for _ in 0..3 {
        assert!(!tape.expand());
        assert_eq!(tape.progress(), None);
        assert!(!tape.expand_while(|_| true));
        assert_eq!(tape.len(), 2);
        assert_eq!(tape.peek_front(), Some(&0));
        assert_eq!(tape.peek_back(), Some(&1));
    }
}

#[test]
fn band_index_follows_insertion_order_after_wrapping() {
    let mut band: Band<4, _> = Band::new(10u32..30u32);
    band.expand_n(4);
    assert_eq!(band.pop_front(), Some(10));
    assert_eq!(band.pop_front(), Some(11));
    band.expand_n(2);
    // the ring has wrapped round: held items are 12, 13, 14, 15
    assert_eq!(band.len(), 4);
    assert_eq!(band.peek_at(0), Some(&12));
    assert_eq!(band.peek_at(1), Some(&13));
    assert_eq!(band.peek_at(2), Some(&14));
    assert_eq!(band.peek_at(3), Some(&15));
    assert_eq!(band.peek_at(4), None);
    assert_eq!(band.peek_at(usize::MAX), None);
    assert_eq!(band.pop_back(), Some(15));
    assert_eq!(band.peek_back(), Some(&14));
    assert_eq!(band.peek_at(3), None);
}

#[test]
fn tape_index_follows_insertion_order() {
    let mut tape = (5i64..9i64).tape();
    tape.expand_n(10);
    assert_eq!(tape.len(), 4);
    assert_eq!(tape.peek_at(0), Some(&5));
    assert_eq!(tape.peek_at(3), Some(&8));
    assert_eq!(tape.peek_at(4), None);
    assert_eq!(tape.peek_at(usize::MAX), None);
}

#[test]
fn pop_front_returns_what_peek_front_showed() {
    let mut band: Band<3, _> = Band::new(0u32..10u32);
    band.expand_n(3);
    band.progress();
    while let Some(&seen) = band.peek_front() {
        let before = band.len();
        assert_eq!(band.pop_front(), Some(seen));
        assert_eq!(band.len(), before - 1);
    }
    assert_eq!(band.peek_front(), None);
    assert_eq!(band.pop_front(), None);

    let mut tape = Tape::new(0u32..3u32);
    tape.expand_n(3);
    while let Some(&seen) = tape.peek_front() {
        let before = tape.len();
        assert_eq!(tape.pop_front(), Some(seen));
        assert_eq!(tape.len(), before - 1);
    }
    assert_eq!(tape.pop_front(), None);
}

#[test]
fn band_pop_back_four_times() {
    let mut band: Band<5, _> = Band::new(0u32..10u32);
    band.expand_n(5);
    assert_eq!(band.len(), 5);
    assert_eq!(band.peek_front(), Some(&0));
    assert_eq!(band.peek_back(), Some(&4));
    assert_eq!(band.pop_back(), Some(4));
    assert_eq!(band.pop_back(), Some(3));
    assert_eq!(band.pop_back(), Some(2));
    assert_eq!(band.pop_back(), Some(1));
    assert_eq!(band.len(), 1);
}

#[test]
fn tape_progress_streams() {
    let mut tape = Tape::new(0u32..10u32);
    tape.expand_n(5);
    assert_eq!(tape.len(), 5);
    assert_eq!(tape.peek_front(), Some(&0));
    assert_eq!(tape.peek_back(), Some(&4));
    assert_eq!(tape.progress(), Some(0));
    assert_eq!(tape.len(), 5);
    assert_eq!(tape.peek_front(), Some(&1));
    assert_eq!(tape.peek_back(), Some(&5));
}

#[test]
fn tape_progress_on_empty_tape_grows() {
    let mut tape = Tape::new(0u32..3u32);
    assert_eq!(tape.progress(), None);
    assert_eq!(tape.len(), 1);
    assert_eq!(tape.progress(), Some(0));
    assert_eq!(tape.len(), 1);
    assert_eq!(tape.peek_front(), Some(&1));
}

#[test]
fn band_over_empty_source() {
    let band: Band<5, _> = Band::new(0u32..0u32);
    assert_eq!(band.peek_front(), None);
    assert_eq!(band.peek_back(), None);
    assert_eq!(band.len(), 0);
    assert!(band.is_empty());
}

#[test]
fn band_next_refills_only_when_empty() {
    let mut band = (0u32..10u32).band::<5>();
    assert_eq!(band.next(), Some(0));
    assert_eq!(band.len(), 4);
    for expected in 1..5u32 {
        assert_eq!(band.next(), Some(expected));
    }
    assert_eq!(band.len(), 0);
    assert_eq!(band.next(), Some(5));
    assert_eq!(band.len(), 4);
    for expected in 6..10u32 {
        assert_eq!(band.next(), Some(expected));
    }
    assert_eq!(band.next(), None);
    assert_eq!(band.next(), None);
}

#[test]
fn band_next_after_progress_drains_held_first() {
    let mut band = (0u32..4u32).band::<3>();
    band.expand_n(2);
    assert_eq!(band.next(), Some(0));
    assert_eq!(band.next(), Some(1));
    assert_eq!(band.next(), Some(2));
    assert_eq!(band.len(), 1);
    assert_eq!(band.next(), Some(3));
    assert_eq!(band.next(), None);
}

#[test]
fn tape_expand_n_reports_growth() {
    let mut tape = Tape::new(0u32..10u32);
    assert!(tape.expand_n(5));
    assert_eq!(tape.len(), 5);
    assert!(tape.expand_n(7));
    assert_eq!(tape.len(), 10);
    assert_eq!(tape.peek_back(), Some(&9));
    assert!(!tape.expand_n(1));
    assert!(!tape.expand_n(0));
}

#[test]
fn tape_expand_while() {
    let mut tape = Tape::new(0u32..10u32);
    assert!(tape.expand_while(|item| *item < 5));
    assert_eq!(tape.len(), 5);
    assert_eq!(tape.peek_front(), Some(&0));
    assert_eq!(tape.peek_back(), Some(&4));

    assert!(tape.expand_while(|item| *item < 6));
    assert_eq!(tape.len(), 6);
    assert_eq!(tape.peek_back(), Some(&5));

    assert!(!tape.expand_while(|item| *item < 6));
    assert_eq!(tape.len(), 6);

    // the item looked at but not taken is still the next one drawn
    assert!(tape.expand());
    assert_eq!(tape.peek_back(), Some(&6));
}

#[test]
fn band_expand_while() {
    let mut band: Band<3, _> = Band::new(0u32..10u32);
    assert!(band.expand_while(|item| *item < 5));
    assert_eq!(band.len(), 3);
    assert_eq!(band.peek_front(), Some(&2));
    assert_eq!(band.peek_back(), Some(&4));

    assert!(!band.expand_while(|item| item % 2 == 0));
    assert_eq!(band.progress(), Some(2));
    assert_eq!(band.peek_back(), Some(&5));

    assert!(band.expand_while(|_| true));
    assert_eq!(band.peek_at(0), Some(&7));
    assert_eq!(band.peek_at(2), Some(&9));
    assert!(!band.expand_while(|_| true));
}

#[test]
fn tape_peek_mut_replaces_item() {
    let mut tape = Tape::new(0u32..10u32);
    tape.expand_n(5);
    if let Some(item) = tape.peek_at_mut(2) {
        *item = 42;
    }
    assert_eq!(tape.peek_at(2), Some(&42));
    assert_eq!(tape.peek_at(1), Some(&1));
    assert_eq!(tape.peek_at(3), Some(&3));
    assert!(tape.peek_at_mut(5).is_none());

    if let Some(item) = tape.peek_front_mut() {
        *item = 7;
    }
    if let Some(item) = tape.peek_back_mut() {
        *item = 8;
    }
    assert_eq!(tape.pop_front(), Some(7));
    assert_eq!(tape.pop_back(), Some(8));
    assert_eq!(tape.len(), 3);

    let mut empty = Tape::new(0u32..0u32);
    assert!(empty.peek_front_mut().is_none());
    assert!(empty.peek_back_mut().is_none());
}

#[test]
fn band_peek_mut_replaces_item() {
    let mut band: Band<4, _> = Band::new(0u32..10u32);
    band.expand_n(6);
    assert_eq!(band.peek_front(), Some(&2));
    if let Some(item) = band.peek_at_mut(1) {
        *item = 30;
    }
    if let Some(item) = band.peek_front_mut() {
        *item = 20;
    }
    assert!(band.peek_at_mut(4).is_none());
    assert_eq!(band.pop_front(), Some(20));
    assert_eq!(band.pop_front(), Some(30));
    assert_eq!(band.pop_front(), Some(4));

    let mut empty: Band<2, _> = Band::new(0u32..0u32);
    assert!(empty.peek_back_mut().is_none());
}

#[test]
fn clones_are_independent() {
    let mut band: Band<3, _> = Band::new(0u32..10u32);
    band.expand_n(2);
    let mut copy = band.clone();
    assert_eq!(copy.pop_front(), Some(0));
    assert_eq!(band.peek_front(), Some(&0));
    assert!(copy.expand());
    assert_eq!(copy.peek_back(), Some(&2));
    assert!(band.expand());
    assert_eq!(band.peek_back(), Some(&2));

    let mut tape = Tape::new(0u32..10u32);
    tape.expand_n(2);
    let mut copy = tape.clone();
    assert_eq!(copy.pop_back(), Some(1));
    assert_eq!(tape.len(), 2);
    assert_eq!(copy.next(), Some(0));
    assert_eq!(tape.next(), Some(0));
}

#[test]
fn debug_output_shows_held_items() {
    let mut band: Band<2, _> = Band::new(7u32..9u32);
    band.expand_n(2);
    let shown = format!("{:?}", band);
    assert!(shown.contains("Band"));
    assert!(shown.contains("Some(7)"));

    let mut tape = Tape::new(7u32..9u32);
    tape.expand();
    let shown = format!("{:?}", tape);
    assert!(shown.contains("Tape"));
    assert!(shown.contains('7'));
}
