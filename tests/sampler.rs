use iot_edge::sampler::CanSampler;

const MS: i64 = 1000;

#[test]
fn frames_in_one_bucket_forward_once() {
    let mut s = CanSampler::new(100).unwrap();
    let t0 = 1_000_000 * MS + 2 * MS;
    assert!(s.accept(t0));
    assert!(!s.accept(t0 + 3 * MS));
}

#[test]
fn frames_in_two_buckets_forward_twice() {
    let mut s = CanSampler::new(100).unwrap();
    let t0 = 1_000_000 * MS + 2 * MS;
    assert!(s.accept(t0));
    assert!(s.accept(t0 + 15 * MS));
}

#[test]
fn bucket_edges() {
    let mut s = CanSampler::new(100).unwrap();
    assert!(s.accept(9_999));
    assert!(s.accept(10_000));
    assert!(!s.accept(19_999));
    assert!(s.accept(-1));
}

#[test]
fn sampler_frequency_bounds() {
    assert!(CanSampler::new(0).is_none());
    assert!(CanSampler::new(1001).is_none());
    assert!(CanSampler::new(1000).is_some());
    assert!(CanSampler::new(1).is_some());
}
