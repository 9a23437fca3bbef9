use memega::evolve::{distinct_states, num_dup, stagnation_step, youngest, Stagnation};
use memega::species::{sample_members, speciate, species_tags, species_top};
use memega::train::{
    is_due, is_finished, BatchDataSampler, DataSampler, EmptyDataSampler, Harness, HarnessCfg,
    Termination, TrainerCfg,
};

fn near_matrix(n: usize, radius: f64) -> Vec<bool> {
    let mut near = Vec::new();
    for i in 0..n {
        for j in 0..n {
            near.push((i as f64 - j as f64).abs() <= radius);
        }
    }
    near
}

#[test]
fn speciation_splits_at_radius() {
    let (ids, num) = speciate(&near_matrix(5, 2.5), 5);
    assert_eq!(ids, vec![1, 1, 1, 2, 2]);
    assert_eq!(num, 2);
    let (ids, num) = speciate(&near_matrix(5, 1.5), 5);
    assert_eq!(ids, vec![1, 1, 2, 2, 3]);
    assert_eq!(num, 3);
    let (ids, num) = speciate(&near_matrix(5, 4.5), 5);
    assert_eq!(ids, vec![1, 1, 1, 1, 1]);
    assert_eq!(num, 1);
}

#[test]
fn speciation_seed_is_near_all_members() {
    let n = 6;
    let pos = [0.0, 5.0, 0.5, 9.0, 4.0, 1.2];
    let mut near = Vec::new();
    for i in 0..n {
        for j in 0..n {
            near.push(((pos[i] - pos[j]) as f64).abs() <= 1.0);
        }
    }
    let (ids, num) = speciate(&near, n);
    assert_eq!(ids, vec![1, 2, 1, 3, 2, 4]);
    assert_eq!(num, 4);
    for t in 1..=num {
        let seed = ids.iter().position(|&x| x == t).unwrap();
        for v in 0..n {
            if ids[v] == t {
                assert!(near[seed * n + v] || v == seed);
            }
        }
    }
}

#[test]
fn speciation_single_member_and_empty() {
    assert_eq!(speciate(&[false], 1), (vec![1], 1));
    assert_eq!(speciate(&[], 0), (vec![], 0));
}

#[test]
fn species_tags_sorted_distinct() {
    assert_eq!(species_tags(&[3, 1, 3, 2, 1]), vec![1, 2, 3]);
    assert_eq!(species_tags(&[]), Vec::<u64>::new());
}

#[test]
fn stagnation_policies() {
    assert_eq!(stagnation_step(Stagnation::Disabled, 5, true), (6, false));
    assert_eq!(stagnation_step(Stagnation::Disabled, 5, false), (0, false));
    // Continuous: stagnant from the 100th repeat on.
    let mut count = 0;
    let mut flags = vec![];
    for _ in 0..102 {
        let (c, s) = stagnation_step(Stagnation::ContinuousAfter(100), count, true);
        count = c;
        flags.push(s);
    }
    assert!(!flags[98]);
    assert!(flags[99] && flags[100] && flags[101]);
    // One shot: fires once and starts counting again.
    let mut count = 0;
    let mut fired = vec![];
    for g in 0..7 {
        let (c, s) = stagnation_step(Stagnation::OneShotAfter(3), count, true);
        count = c;
        if s {
            fired.push(g);
        }
    }
    assert_eq!(fired, vec![2, 5]);
    assert_eq!(stagnation_step(Stagnation::ContinuousAfter(1), 7, false), (0, false));
}

#[test]
fn duplicates_dropped() {
    let states = vec!["ab", "cd", "ab", "ef", "cd", "ab"];
    let kept = distinct_states(&states);
    assert_eq!(kept, vec![0, 1, 3]);
    let none: Vec<u32> = vec![];
    assert!(distinct_states(&none).is_empty());
    assert_eq!(distinct_states(&[7, 7, 7]), vec![0]);
    assert_eq!(num_dup(&states), 3);
    assert_eq!(num_dup(&[1, 2, 3]), 0);
}

#[test]
fn trainer_and_harness_settings() {
    let cfg = TrainerCfg::new("run")
        .set_termination(Termination::FixedGenerations(10))
        .set_print_gen(2)
        .set_print_summary(3)
        .set_print_samples(4)
        .set_print_valid(5)
        .set_report_gen(6)
        .set_report_path("/tmp/out");
    assert_eq!(cfg.name, "run");
    assert_eq!(cfg.termination, Termination::FixedGenerations(10));
    assert_eq!(cfg.print_gen, Some(2));
    assert_eq!(cfg.print_summary, Some(3));
    assert_eq!(cfg.print_samples, Some(4));
    assert_eq!(cfg.print_valid, Some(5));
    assert_eq!(cfg.report_gen, Some(6));
    assert_eq!(cfg.report_path, Some("/tmp/out".to_string()));
    assert!(is_due(Some(3), 6));
    assert!(!is_due(Some(3), 7));
    assert!(!is_due(None, 0));
    assert!(is_finished(Termination::FixedGenerations(10), 10));
    assert!(!is_finished(Termination::FixedGenerations(10), 9));

    let h = HarnessCfg::new();
    assert_eq!(h.termination(), Termination::FixedGenerations(2000));
    assert_eq!(h.print_gen(), None);
    let h = h.set_print_gen(5).set_print_summary(10).set_termination(Termination::FixedGenerations(20));
    assert_eq!(h.print_gen(), Some(5));
    assert_eq!(h.print_summary(), Some(10));
    let harness = Harness::new(h);
    let step = harness.step(10);
    assert!(!step.finished && step.print_gen && step.print_summary);
    let step = harness.step(5);
    assert!(step.print_gen && !step.print_summary);
    assert!(harness.step(20).finished);
    assert_eq!(HarnessCfg::default(), HarnessCfg::new());
}

#[derive(Clone)]
struct Numbers;

impl DataSampler<u32> for Numbers {
    fn train(&self, _: usize) -> Vec<u32> {
        (0..10).collect()
    }
    fn valid(&self, _: usize) -> Vec<u32> {
        vec![1]
    }
    fn test(&self, _: usize) -> Vec<u32> {
        vec![2]
    }
}

#[test]
fn samplers() {
    let e = EmptyDataSampler {};
    assert_eq!(e.train(3), vec![()]);
    assert_eq!(e.valid(3), vec![()]);
    assert_eq!(e.test(3), vec![()]);
    let b = BatchDataSampler::new(Numbers, 4);
    let first = b.train(7);
    assert_eq!(first.len(), 4);
    assert_eq!(first, b.train(7));
    assert!(first.iter().all(|&v| v < 10));
    assert_eq!(b.valid(0), vec![1]);
    assert_eq!(BatchDataSampler::new(Numbers, 40).train(1).len(), 10);
}

#[test]
fn youngest_members_first() {
    assert_eq!(youngest(&[3, 0, 2, 0, 5], 3), vec![1, 3, 2]);
    assert_eq!(youngest(&[3, 0, 2, 0, 5], 10), vec![1, 3, 2, 0, 4]);
    assert_eq!(youngest(&[1, 1, 1], 2), vec![0, 1]);
    assert!(youngest(&[], 4).is_empty());
    assert!(youngest(&[4, 2], 0).is_empty());
}

#[test]
fn best_of_each_species() {
    assert_eq!(species_top(&[2, 1, 2, 1, 2, 3], 2), vec![1, 3, 0, 2, 5]);
    assert_eq!(species_top(&[2, 1, 2, 1, 2, 3], 1), vec![1, 0, 5]);
    assert!(species_top(&[2, 1, 2], 0).is_empty());
    assert!(species_top(&[], 3).is_empty());
}

#[test]
fn sample_shared_across_species() {
    // Three species; one round gives positions 0, 1, 4, the next 2 and 3.
    let tags = [1, 2, 1, 1, 3, 2];
    assert_eq!(sample_members(&tags, 3), vec![0, 1, 4]);
    assert_eq!(sample_members(&tags, 4), vec![0, 1, 4, 2]);
    assert_eq!(sample_members(&tags, 10), vec![0, 1, 4, 2, 5, 3]);
    assert!(sample_members(&tags, 0).is_empty());
}
