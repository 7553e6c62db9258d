use super_holdem::representatives::representatives;
use super_holdem::suits::{canonical, perms4};

#[test]
fn twenty_four_renamings_in_order() {
    let p = perms4();
    assert_eq!(p.len(), 24);
    assert_eq!(p[0], [0, 1, 2, 3]);
    assert_eq!(p[1], [0, 1, 3, 2]);
    assert_eq!(p[6], [1, 0, 2, 3]);
    assert_eq!(p[23], [3, 2, 1, 0]);
    for w in p.windows(2) {
        assert!(w[0] < w[1]);
    }
    for q in p {
        let mut s = q;
        s.sort_unstable();
        assert_eq!(s, [0, 1, 2, 3]);
    }
}

#[test]
fn canonical_hands() {
    let p = perms4();
    assert_eq!(canonical([51, 50, 49], &p), [48, 49, 50]);
    assert_eq!(canonical([3, 7, 11], &p), [0, 4, 8]);
    assert_eq!(canonical([2, 3, 7], &p), [0, 1, 4]);
    assert_eq!(canonical([2, 3, 5], &p), [0, 1, 6]);
    assert_eq!(canonical([3, 6, 7], &p), [0, 4, 5]);
    assert_eq!(canonical([3, 4, 5], &p), [0, 5, 6]);
    assert_eq!(canonical([0, 5, 8], &p), [0, 5, 8]);
    assert_eq!(canonical([1, 4, 8], &p), [0, 5, 9]);
    assert_eq!(canonical([3, 6, 9], &p), [0, 5, 10]);
}

#[test]
fn canonical_under_one_renaming() {
    assert_eq!(canonical([9, 4, 3], &[[3, 2, 1, 0]]), [0, 7, 10]);
}

#[test]
fn canonical_of_an_image_is_the_same() {
    let p = perms4();
    for h in [[0u8, 5, 10], [3, 6, 7], [48, 49, 51], [1, 17, 33], [2, 17, 34]] {
        let m = canonical(h, &p);
        assert_eq!(canonical(m, &p), m);
        for q in &p {
            let image = h.map(|c| c / 4 * 4 + q[(c % 4) as usize]);
            assert_eq!(canonical(image, &p), m);
        }
    }
}

#[test]
fn classes_and_their_sizes() {
    let reps = representatives();
    assert_eq!(reps.len(), 1755);
    assert_eq!(reps.iter().map(|r| r.1).sum::<u32>(), 22100);
    for w in reps.windows(2) {
        assert!(w[0] < w[1]);
    }
    assert_eq!(reps[0], ([0, 1, 2], 4));
    assert_eq!(reps[1754], ([48, 49, 50], 4));
    let size = |h: [u8; 3]| reps.iter().find(|r| r.0 == h).map(|r| r.1);
    assert_eq!(size([0, 4, 8]), Some(4));
    assert_eq!(size([0, 4, 9]), Some(12));
    assert_eq!(size([0, 5, 8]), Some(12));
    assert_eq!(size([0, 5, 9]), Some(12));
    assert_eq!(size([0, 5, 10]), Some(24));
    assert_eq!(size([0, 1, 4]), Some(12));
    assert_eq!(size([0, 1, 6]), Some(12));
    assert_eq!(size([1, 5, 9]), None);
}

#[test]
fn every_hand_has_its_class_listed() {
    let p = perms4();
    let reps = representatives();
    let mut counts = vec![0u32; reps.len()];
    for i in 0..52u8 {
        for j in i + 1..52 {
            for k in j + 1..52 {
                let m = canonical([i, j, k], &p);
                let at = reps.binary_search_by(|r| r.0.cmp(&m)).unwrap();
                counts[at] += 1;
            }
        }
    }
    for (r, n) in reps.iter().zip(counts) {
        assert_eq!(r.1, n);
    }
}
