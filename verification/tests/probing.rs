use stacker::murmurhash2::murmurhash2;
use stacker::probing::QuadraticProbing;

#[test]
fn test_probing_starts_at_step_zero() {
    let probing = QuadraticProbing::compute(12, 7);
    assert_eq!(probing.hash, 12);
    assert_eq!(probing.i, 0);
    assert_eq!(probing.mask, 7);
}

#[test]
fn test_probing_steps_by_squares() {
    let mut probing = QuadraticProbing::compute(5, 15);
    assert_eq!(probing.next_probe(), 6);
    assert_eq!(probing.next_probe(), 9);
    assert_eq!(probing.next_probe(), 14);
    assert_eq!(probing.next_probe(), 5);
    assert_eq!(probing.next_probe(), 14);
    assert_eq!(probing.i, 5);
}

#[test]
fn test_probing_stays_in_the_table() {
    let hash = murmurhash2("quadratic".as_bytes()) as usize;
    let mut probing = QuadraticProbing::compute(hash, 1023);
    for i in 1..=2048usize {
        let bucket = probing.next_probe();
        assert!(bucket < 1024);
        assert_eq!(bucket, (hash + i * i) % 1024);
    }
}

#[test]
fn test_probing_repeats_after_capacity_steps() {
    let mut first = QuadraticProbing::compute(77, 63);
    let mut seen: Vec<usize> = Vec::new();
    for _ in 0..64 {
        seen.push(first.next_probe());
    }
    for at in 0..64 {
        assert_eq!(first.next_probe(), seen[at]);
    }
}

#[test]
fn test_probing_with_one_bucket() {
    let mut probing = QuadraticProbing::compute(123, 0);
    assert_eq!(probing.next_probe(), 0);
    assert_eq!(probing.next_probe(), 0);
}

#[test]
fn test_probing_wraps_without_leaving_the_path() {
    let mut probing = QuadraticProbing::compute(usize::MAX, 255);
    assert_eq!(probing.next_probe(), 0);
    assert_eq!(probing.next_probe(), 3);
    assert_eq!(probing.next_probe(), 8);
}
