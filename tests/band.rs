use ribbon::{Band, Enroll, Ribbon};

#[test]
fn band_expands() {
    let mut band: Band<5, _> = Band::new(0u32..10u32);

    assert_eq!(band.peek_front(), None);
    assert_eq!(band.peek_back(), None);

    band.expand();
    assert_eq!(band.peek_front(), Some(&0));
    assert_eq!(band.peek_back(), Some(&0));

    band.expand();
    assert_eq!(band.peek_front(), Some(&0));
    assert_eq!(band.peek_back(), Some(&1));

    band.expand_n(3);
    assert_eq!(band.peek_front(), Some(&0));
    assert_eq!(band.peek_back(), Some(&4));
}

#[test]
fn band_pops_front() {
    let mut band: Band<5, _> = Band::new(0u32..10u32);
    band.expand_n(5);

    assert_eq!(band.pop_front(), Some(0));
    assert_eq!(band.pop_front(), Some(1));
    assert_eq!(band.pop_front(), Some(2));
    assert_eq!(band.pop_front(), Some(3));
    assert_eq!(band.pop_front(), Some(4));
    assert_eq!(band.pop_front(), None);
}

#[test]
fn band_pops_back() {
    let mut band: Band<5, _> = Band::new(0u32..10u32);
    band.expand_n(5);

    assert_eq!(band.pop_back(), Some(4));
    assert_eq!(band.pop_back(), Some(3));
    assert_eq!(band.pop_back(), Some(2));
    assert_eq!(band.pop_back(), Some(1));
    assert_eq!(band.pop_back(), Some(0));
    assert_eq!(band.pop_back(), None);
}

#[test]
fn band_peeks_at() {
    let mut band: Band<5, _> = Band::new(0u32..10u32);
    band.expand_n(5);

    assert_eq!(band.peek_at(0), Some(&0));
    assert_eq!(band.peek_at(1), Some(&1));
    assert_eq!(band.peek_at(2), Some(&2));
    assert_eq!(band.peek_at(3), Some(&3));
    assert_eq!(band.peek_at(4), Some(&4));
    assert_eq!(band.peek_at(5), None);
}

#[test]
fn band_len_correct() {
    let mut band: Band<5, _> = Band::new(0u32..10u32);
    band.expand_n(5);

    assert_eq!(band.len(), 5);

    band.pop_back();
    assert_eq!(band.len(), 4);

    band.pop_back();
    assert_eq!(band.len(), 3);

    band.pop_back();
    assert_eq!(band.len(), 2);

    band.pop_back();
    assert_eq!(band.len(), 1);

    band.pop_back();
    assert_eq!(band.len(), 0);
}

#[test]
fn makes_progress() {
    let mut band: Band<5, _> = Band::new(0u32..5u32);

    // below capacity, progress only grows the band and hands nothing out
    assert_eq!(band.progress(), None);
    assert_eq!(band.len(), 1);
    assert_eq!(band.progress(), None);
    assert_eq!(band.progress(), None);
    assert_eq!(band.progress(), None);
    assert_eq!(band.progress(), None);
    assert_eq!(band.len(), 5);
    assert_eq!(band.peek_front(), Some(&0));
    assert_eq!(band.peek_back(), Some(&4));

    // the iterator does not produce more values, so progress does not drop anything
    assert_eq!(band.progress(), None);
    assert_eq!(band.len(), 5);
    assert_eq!(band.peek_front(), Some(&0));
}

#[test]
fn peek_back() {
    let mut band = (0..10).band::<5>();

    assert_eq!(band.len(), 0);
    band.expand_n(5);

    assert_eq!(band.len(), 5);
    assert_eq!(band.peek_back(), Some(&4));

    if let Some(item) = band.peek_back_mut() {
        *item = 42;
    }

    assert_eq!(band.peek_back(), Some(&42));
}

#[test]
fn band_is_iterator() {
    let mut band = (0..10).band::<5>();

    assert_eq!(band.next(), Some(0));
    assert_eq!(band.next(), Some(1));
    assert_eq!(band.next(), Some(2));
    assert_eq!(band.next(), Some(3));
    assert_eq!(band.next(), Some(4));
    assert_eq!(band.next(), Some(5));
}
