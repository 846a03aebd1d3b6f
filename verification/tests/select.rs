use task_heap::select::draw;

#[test]
fn nothing_is_drawn_without_weight() {
    assert_eq!(draw(&Vec::new()), None);
    assert_eq!(draw(&vec![0]), None);
    assert_eq!(draw(&vec![0, 0, 0]), None);
}

#[test]
fn weightless_places_are_never_drawn() {
    for _ in 0..200 {
        assert_eq!(draw(&vec![0, 5, 0]), Some(1));
        assert_eq!(draw(&vec![7]), Some(0));
        let at = draw(&vec![1, 0, 1]).unwrap();
        assert!(at == 0 || at == 2);
    }
}

#[test]
fn large_weights_are_summed_without_overflow() {
    for _ in 0..50 {
        let at = draw(&vec![u32::MAX, u32::MAX, u32::MAX]).unwrap();
        assert!(at < 3);
    }
}

#[test]
fn frequency_follows_the_weights() {
    let weights = vec![10, 30, 60];
    let trials = 20000;
    let mut hits = [0u32; 3];
    for _ in 0..trials {
        hits[draw(&weights).unwrap()] += 1;
    }
    for (i, expected) in [0.1f64, 0.3, 0.6].iter().enumerate() {
        let seen = hits[i] as f64 / trials as f64;
        assert!((seen - expected).abs() < 0.03, "{} {}", i, seen);
    }
}
