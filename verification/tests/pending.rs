use slammer::pending::PendingRing;

#[test]
fn pending_ring_fires_hits_in_order() {
    let mut ring = PendingRing::new();
    ring.push(0);
    ring.push(720);
    ring.push(1440);

    let mut fired: Vec<usize> = Vec::new();
    for sample in 0..1500 {
        let n = ring.tick();
        for _ in 0..n {
            fired.push(sample);
        }
    }
    assert_eq!(fired.len(), 3, "should fire exactly 3 hits, got {fired:?}");
    assert_eq!(fired[0], 0);
    assert_eq!(fired[1], 720);
    assert_eq!(fired[2], 1440);
}

#[test]
fn pending_ring_ignores_dead_slots() {
    let mut ring = PendingRing::new();
    for _ in 0..2000 {
        let _ = ring.tick();
    }
    let mut count = 0;
    for _ in 0..10 {
        count += ring.tick();
    }
    assert_eq!(count, 0, "idle ring should fire nothing");
}

#[test]
fn full_ring_drops_extra_hits() {
    let mut ring = PendingRing::new();
    for _ in 0..13 {
        ring.push(0);
    }
    assert!(ring.has_live());
    assert_eq!(ring.tick(), 12);
    assert!(!ring.has_live());
}

#[test]
fn simultaneous_hits_fire_together() {
    let mut ring = PendingRing::new();
    ring.push(3);
    ring.push(3);
    ring.push(1);
    assert_eq!(ring.tick(), 0);
    assert_eq!(ring.tick(), 1);
    assert_eq!(ring.tick(), 0);
    assert_eq!(ring.tick(), 2);
    assert_eq!(ring.tick(), 0);
}
