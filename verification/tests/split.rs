use kime::graph::Bucket;
use kime::split::{can_split, cost, pick, split, OVERHEAD};

fn buckets() -> Vec<Bucket> {
    (6..=14).map(|p| Bucket { tokens: 1 << p, seqs: 1 << (p - 2), markers: 1 << p }).collect()
}

fn total(items: &[(usize, usize)], at: &[usize]) -> (usize, usize, usize) {
    (at.iter().map(|&i| items[i].0).sum(), at.len(), at.iter().map(|&i| items[i].1).sum())
}

fn picked(b: &Vec<Bucket>, (t, s, m): (usize, usize, usize)) -> Option<Bucket> {
    pick(b, t, s, m)
}

fn padded(b: &Vec<Bucket>, items: &[(usize, usize)], plan: &[Vec<usize>]) -> usize {
    plan.iter()
        .map(|p| {
            let (t, s, m) = total(items, p);
            cost(b, t, s, m)
        })
        .sum()
}

fn check(b: &Vec<Bucket>, items: &[(usize, usize)], plan: &[Vec<usize>]) {
    let mut seen: Vec<usize> = plan.iter().flatten().copied().collect();
    seen.sort_unstable();
    assert_eq!(seen, (0..items.len()).collect::<Vec<_>>(), "each item exactly once");
    for p in plan {
        assert!(picked(b, total(items, p)).is_some(), "every batch fits a bucket");
    }
}

#[test]
fn small_work_is_one_batch() {
    let b = buckets();
    let items = vec![(119, 3); 3];
    let plan = split(&b, &items);
    assert_eq!(plan, vec![vec![0, 1, 2]]);
}

#[test]
fn just_over_a_bucket_splits_off_the_rest() {
    // 41 questions of 100 tokens: 4,100 tokens would run in the 8,192 bucket.
    let b = buckets();
    let items = vec![(100, 3); 41];
    let plan = split(&b, &items);
    check(&b, &items, &plan);
    assert_eq!(plan.len(), 2);
    assert!(padded(&b, &items, &plan) < OVERHEAD + 8192);
}

#[test]
fn never_worse_than_one_batch() {
    let b = buckets();
    let mut x = 7u64;
    for n in 1..300 {
        let items: Vec<(usize, usize)> = (0..n)
            .map(|_| {
                x = x
                    .wrapping_mul(6_364_136_223_846_793_005)
                    .wrapping_add(1_442_695_040_888_963_407);
                (20 + (x >> 33) as usize % 490, 2 + (x >> 20) as usize % 5)
            })
            .collect();
        let plan = split(&b, &items);
        check(&b, &items, &plan);
        if let Some(one) = picked(&b, total(&items, &(0..n).collect::<Vec<_>>())) {
            assert!(padded(&b, &items, &plan) <= OVERHEAD + one.tokens, "n {n}");
        }
    }
}

#[test]
fn too_big_for_one_bucket() {
    let b = buckets();
    let items = vec![(500, 4); 100];
    let plan = split(&b, &items);
    check(&b, &items, &plan);
    let big = vec![(40_000, 1)];
    assert_eq!(split(&b, &big), vec![vec![0]]);
}

#[test]
fn the_smallest_bucket_that_holds_a_batch_is_picked() {
    let b = buckets();
    assert_eq!(pick(&b, 65, 1, 1).map(|b| b.tokens), Some(128));
    assert_eq!(pick(&b, 1, 17, 1).map(|b| b.tokens), Some(128));
    assert_eq!(pick(&b, 40_000, 1, 1), None);
    assert_eq!(cost(&b, 65, 1, 1), OVERHEAD + 128);
    assert!(split(&b, &Vec::new()).is_empty());
}

#[test]
fn what_cannot_be_counted_is_told_apart() {
    let b = buckets();
    assert!(can_split(&b, &vec![(500, 4); 100]));
    assert!(can_split(&b, &vec![(usize::MAX / 2, 1)]));
    assert!(can_split(&Vec::new(), &vec![(usize::MAX, usize::MAX)]));
    assert!(!can_split(&b, &vec![(usize::MAX, 0), (1, 0)]));
    assert!(!can_split(&b, &vec![(1, usize::MAX), (1, 1)]));
    assert!(!can_split(&vec![Bucket { tokens: 0, seqs: 1, markers: 1 }], &vec![(1, 1)]));
    let wide = Bucket { tokens: usize::MAX / 2, seqs: 1, markers: 1 };
    assert!(!can_split(&vec![wide], &vec![(1, 1)]));
}
