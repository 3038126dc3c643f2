use mediafetch::dedup::{candidate_bytes, Deduplicator};

#[test]
fn first_assignment_keeps_base() {
    let mut d = Deduplicator::new();
    assert_eq!(d.assign(&b"a.png".to_vec()), b"a.png".to_vec());
}

#[test]
fn colliding_bases_probe_in_order() {
    let mut d = Deduplicator::new();
    let base = b"a.png".to_vec();
    assert_eq!(d.assign(&base), b"a.png".to_vec());
    assert_eq!(d.assign(&base), b"a.png (0)".to_vec());
    assert_eq!(d.assign(&base), b"a.png (1)".to_vec());
    assert_eq!(d.assign(&base), b"a.png (2)".to_vec());
}

#[test]
fn seeded_path_not_reused() {
    let mut d = Deduplicator::new();
    d.seed(b"a.png".to_vec());
    assert_eq!(d.assign(&b"a.png".to_vec()), b"a.png (0)".to_vec());
}

#[test]
fn probe_skips_seeded_candidate() {
    let mut d = Deduplicator::new();
    d.seed(b"x (0)".to_vec());
    assert_eq!(d.assign(&b"x".to_vec()), b"x".to_vec());
    assert_eq!(d.assign(&b"x".to_vec()), b"x (1)".to_vec());
}

#[test]
fn second_run_gets_suffixed_names() {
    let mut first = Deduplicator::new();
    let run_one = vec![
        first.assign(&b"11_img1.png".to_vec()),
        first.assign(&b"12_img1.png".to_vec()),
    ];
    assert_eq!(run_one, vec![b"11_img1.png".to_vec(), b"12_img1.png".to_vec()]);

    // The channel is unchanged; a second run starts with the first
    // run's files already on disk.
    let mut second = Deduplicator::new();
    for p in &run_one {
        second.seed(p.clone());
    }
    let run_two = vec![
        second.assign(&b"11_img1.png".to_vec()),
        second.assign(&b"12_img1.png".to_vec()),
    ];
    assert_eq!(run_two, vec![b"11_img1.png (0)".to_vec(), b"12_img1.png (0)".to_vec()]);
    for p in &run_one {
        assert!(!run_two.contains(p));
    }
}

#[test]
fn assigned_paths_all_distinct() {
    let mut d = Deduplicator::new();
    let bases: Vec<Vec<u8>> = vec![
        b"x".to_vec(),
        b"x".to_vec(),
        b"x (0)".to_vec(),
        b"y".to_vec(),
        b"x".to_vec(),
    ];
    let mut paths: Vec<Vec<u8>> = Vec::new();
    for b in &bases {
        paths.push(d.assign(b));
    }
    for i in 0..paths.len() {
        for j in 0..paths.len() {
            if i != j {
                assert_ne!(paths[i], paths[j]);
            }
        }
    }
}

#[test]
fn candidate_zero_is_base() {
    assert_eq!(candidate_bytes(&b"x".to_vec(), 0), b"x".to_vec());
}

#[test]
fn candidate_suffix_format() {
    assert_eq!(candidate_bytes(&b"x".to_vec(), 3), b"x (2)".to_vec());
    assert_eq!(candidate_bytes(&b"a.png".to_vec(), 11), b"a.png (10)".to_vec());
}
