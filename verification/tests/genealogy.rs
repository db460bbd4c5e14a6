use coalescence::partition::least_member;
use coalescence::{Coalescent, Genealogy};
use partitions::PartitionVec;
use rand::distributions::Distribution;
use rand::rngs::StdRng;
use rand::{Rng, SeedableRng};
use rand_distr::Exp;

fn draw<R: Rng>(rng: &mut R, rate: u128) -> u64 {
    Exp::new(rate as f64).unwrap().sample(rng).to_bits()
}

fn times(genealogy: &Genealogy) -> Vec<f64> {
    genealogy.time_steps().iter().map(|bits| f64::from_bits(*bits)).collect()
}

fn of(n: u128) -> u64 {
    (n as f64).to_bits()
}

fn sum(x: u64, y: u64) -> u64 {
    (f64::from_bits(x) + f64::from_bits(y)).to_bits()
}

fn product(x: u64, y: u64) -> u64 {
    (f64::from_bits(x) * f64::from_bits(y)).to_bits()
}

fn quotient(x: u64, y: u64) -> u64 {
    (f64::from_bits(x) / f64::from_bits(y)).to_bits()
}

fn depth(genealogy: &Genealogy) -> f64 {
    f64::from_bits(genealogy.depth(&of, &sum))
}

fn length(genealogy: &Genealogy) -> f64 {
    f64::from_bits(genealogy.length(&of, &sum, &product))
}

fn divergence(genealogy: &Genealogy, index_1: usize, index_2: usize) -> f64 {
    f64::from_bits(genealogy.divergence(index_1, index_2, &of, &sum, &product))
}

fn mean_pairwise_divergence(genealogy: &Genealogy) -> f64 {
    f64::from_bits(genealogy.mean_pairwise_divergence(&of, &sum, &product, &quotient))
}

fn brute_force_mean(genealogy: &Genealogy) -> f64 {
    let n = genealogy.group_size();
    let mut total = 0.0;
    let mut pairs = 0;
    for a in 0..n {
        for b in (a + 1)..n {
            total += divergence(genealogy, a, b);
            pairs += 1;
        }
    }
    total / pairs as f64
}

fn sample(group_size: usize, seed: u64) -> Genealogy {
    let process = Coalescent::new(group_size, StdRng::seed_from_u64(seed));
    let mut rng = StdRng::seed_from_u64(seed.wrapping_add(1000));
    process.sample_genealogy(&mut rng, &draw)
}

/// Three elements: 0 and 1 merge after 1.0, then 1 and 2 after 2.0 more.
fn three_leaves() -> Genealogy {
    let mut genealogy = Genealogy::new(3);
    assert!(genealogy.record([0, 1], 1.0f64.to_bits()));
    assert!(genealogy.record([1, 2], 2.0f64.to_bits()));
    genealogy
}

/// Four elements: 2 and 3 merge after 0.5, 0 and 1 after 0.25, all after 1.5.
fn four_leaves() -> Genealogy {
    let mut genealogy = Genealogy::new(4);
    assert!(genealogy.record([3, 2], 0.5f64.to_bits()));
    assert!(genealogy.record([0, 1], 0.25f64.to_bits()));
    assert!(genealogy.record([1, 3], 1.5f64.to_bits()));
    genealogy
}

#[test]
fn construction() {
    let group_size = 100;
    let rng = rand::thread_rng();
    let coalescent = Coalescent::new(group_size, rng);

    let mut rng = rand::thread_rng();
    let genealogy: Genealogy = coalescent.sample_genealogy(&mut rng, &draw);

    assert_eq!(genealogy.path().len(), group_size);
    assert_eq!(genealogy.steps().len(), group_size - 1);
    assert_eq!(genealogy.time_steps().len(), group_size - 1);
    assert!(genealogy.graph().is_none());
}

#[test]
fn sampled_genealogy_has_the_shape_of_a_complete_run() {
    for n in 2..12 {
        let genealogy = sample(n, n as u64);
        assert_eq!(genealogy.group_size(), n);
        assert_eq!(genealogy.events(), n - 1);
        assert_eq!(genealogy.path().len(), n);
        assert_eq!(genealogy.steps().len(), n - 1);
        assert_eq!(genealogy.time_steps().len(), n - 1);
        assert!(times(&genealogy).iter().all(|t| *t > 0.0));
        assert!(genealogy.is_complete());
        assert_eq!(genealogy.path()[n - 1].amount_of_sets(), 1);
        assert_eq!(genealogy.path()[0].amount_of_sets(), n);
        for i in 0..n {
            assert_eq!(genealogy.path()[0].len_of_set(i), 1);
        }
    }
}

#[test]
fn each_event_leaves_one_set_fewer() {
    let n = 20;
    let genealogy = sample(n, 77);
    for i in 0..n {
        assert_eq!(genealogy.path()[i].amount_of_sets(), n - i);
    }
    for i in 0..n - 1 {
        assert_eq!(genealogy.lineages(i), n - i);
        let pair = genealogy.steps()[i];
        assert!(!genealogy.path()[i].same_set(pair[0], pair[1]));
        assert!(genealogy.path()[i + 1].same_set(pair[0], pair[1]));
    }
}

#[test]
fn sampling_leaves_the_process_as_it_was() {
    let process = Coalescent::new(9, StdRng::seed_from_u64(1));
    let mut rng = StdRng::seed_from_u64(2);
    let _ = process.sample_genealogy(&mut rng, &draw);
    assert_eq!(process.state().amount_of_sets(), 9);
    assert_eq!(process.merge_rate(), Some(36));
}

#[test]
fn same_seed_gives_the_same_genealogy() {
    let first = sample(10, 5);
    let second = sample(10, 5);
    assert_eq!(first.steps(), second.steps());
    assert_eq!(first.time_steps(), second.time_steps());
    for i in 0..10 {
        for a in 0..10 {
            for b in 0..10 {
                assert_eq!(first.path()[i].same_set(a, b), second.path()[i].same_set(a, b));
            }
        }
    }
}

#[test]
fn different_seeds_give_different_genealogies() {
    let first = sample(10, 5);
    let second = sample(10, 6);
    assert_ne!(first.time_steps(), second.time_steps());
}

#[test]
fn sampling_advances_the_callers_source() {
    let process = Coalescent::new(10, StdRng::seed_from_u64(1));
    let mut rng = StdRng::seed_from_u64(2);
    let first = process.sample_genealogy(&mut rng, &draw);
    let second = process.sample_genealogy(&mut rng, &draw);
    assert_ne!(first.time_steps(), second.time_steps());
}

#[test]
fn waiting_times_are_asked_at_the_rate_of_the_pairs_alive() {
    let rate_as_time = |_rng: &mut StdRng, rate: u128| rate as u64;
    let process = Coalescent::new(5, StdRng::seed_from_u64(1));
    let mut rng = StdRng::seed_from_u64(2);
    let genealogy = process.sample_genealogy(&mut rng, &rate_as_time);
    assert_eq!(genealogy.time_steps(), &vec![10, 6, 3, 1]);
}

#[test]
fn two_elements() {
    let genealogy = sample(2, 42);
    assert_eq!(genealogy.events(), 1);
    assert_eq!(genealogy.path()[1].amount_of_sets(), 1);
    assert!(genealogy.path()[1].same_set(0, 1));
    let time_step = times(&genealogy)[0];
    assert!(time_step > 0.0);
    assert_eq!(genealogy.coalescence_event(0, 1), 1);
    assert_eq!(divergence(&genealogy, 0, 1), 2.0 * time_step);
    assert_eq!(mean_pairwise_divergence(&genealogy), divergence(&genealogy, 0, 1));
    assert_eq!(genealogy.merged_pairs(0), 1);
}

#[test]
fn one_element() {
    let mut genealogy = sample(1, 42);
    assert_eq!(genealogy.group_size(), 1);
    assert_eq!(genealogy.events(), 0);
    assert_eq!(genealogy.path().len(), 1);
    assert!(genealogy.is_complete());
    assert_eq!(depth(&genealogy), 0.0);
    assert_eq!(length(&genealogy), 0.0);
    assert_eq!(genealogy.coalescence_event(0, 0), 0);
    genealogy.compute_graph();
    let graph = genealogy.into_graph();
    assert_eq!(graph.node_count(), 1);
    assert_eq!(graph.edge_count(), 0);
    assert_eq!(graph.raw_nodes()[0].weight, (0, 0));
}

#[test]
fn no_element() {
    let genealogy = sample(0, 42);
    assert_eq!(genealogy.group_size(), 0);
    assert_eq!(genealogy.events(), 0);
    assert_eq!(genealogy.path().len(), 1);
    assert!(genealogy.is_complete());
    assert_eq!(depth(&genealogy), 0.0);
}

#[test]
fn new_genealogy_has_no_event() {
    let genealogy = Genealogy::new(4);
    assert_eq!(genealogy.group_size(), 4);
    assert_eq!(genealogy.events(), 0);
    assert_eq!(genealogy.path().len(), 1);
    assert_eq!(genealogy.path()[0].amount_of_sets(), 4);
    assert!(!genealogy.is_complete());
    assert!(genealogy.graph().is_none());
}

#[test]
fn record_appends_a_merge() {
    let mut genealogy = Genealogy::new(3);
    assert!(genealogy.record([2, 0], 7));
    assert_eq!(genealogy.events(), 1);
    assert_eq!(genealogy.steps(), &vec![[2, 0]]);
    assert_eq!(genealogy.time_steps(), &vec![7]);
    assert_eq!(genealogy.path().len(), 2);
    assert_eq!(genealogy.path()[0].amount_of_sets(), 3);
    assert_eq!(genealogy.path()[1].amount_of_sets(), 2);
    assert!(genealogy.path()[1].same_set(0, 2));
    assert!(!genealogy.path()[1].same_set(0, 1));
    assert!(!genealogy.path()[0].same_set(0, 2));
}

#[test]
fn record_refuses_what_is_no_merge() {
    let mut genealogy = Genealogy::new(3);
    assert!(genealogy.record([0, 1], 1));
    assert!(!genealogy.record([0, 1], 2));
    assert!(!genealogy.record([1, 0], 2));
    assert!(!genealogy.record([2, 2], 2));
    assert!(!genealogy.record([0, 3], 2));
    assert!(!genealogy.record([3, 0], 2));
    assert_eq!(genealogy.events(), 1);
    assert_eq!(genealogy.path().len(), 2);
    assert_eq!(genealogy.time_steps(), &vec![1]);
    assert!(genealogy.record([2, 1], 2));
    assert!(genealogy.is_complete());
    assert!(!genealogy.record([0, 2], 3));
    assert_eq!(genealogy.events(), 2);
}

#[test]
fn record_forgets_the_graph() {
    let mut genealogy = Genealogy::new(3);
    assert!(genealogy.record([0, 1], 1));
    genealogy.compute_graph();
    assert!(genealogy.graph().is_some());
    assert!(!genealogy.record([0, 1], 1));
    assert!(genealogy.graph().is_some());
    assert!(genealogy.record([0, 2], 1));
    assert!(genealogy.graph().is_none());
}

#[test]
fn depth_is_the_sum_of_the_waiting_times() {
    assert_eq!(depth(&three_leaves()), 3.0);
    assert_eq!(depth(&four_leaves()), 2.25);
}

#[test]
fn length_weights_each_waiting_time_by_its_lineages() {
    let genealogy = three_leaves();
    assert_eq!(genealogy.lineages(0), 3);
    assert_eq!(genealogy.lineages(1), 2);
    assert_eq!(length(&genealogy), 7.0);
    assert_eq!(length(&four_leaves()), 4.0 * 0.5 + 3.0 * 0.25 + 2.0 * 1.5);
}

#[test]
fn coalescence_event_counts_the_events_before_two_elements_meet() {
    let genealogy = four_leaves();
    assert_eq!(genealogy.coalescence_event(2, 3), 1);
    assert_eq!(genealogy.coalescence_event(0, 1), 2);
    assert_eq!(genealogy.coalescence_event(0, 2), 3);
    assert_eq!(genealogy.coalescence_event(1, 3), 3);
    assert_eq!(genealogy.coalescence_event(3, 3), 0);
}

#[test]
fn coalescence_event_of_an_unfinished_run() {
    let mut genealogy = Genealogy::new(3);
    assert!(genealogy.record([0, 1], 1.0f64.to_bits()));
    assert_eq!(genealogy.coalescence_event(0, 1), 1);
    assert_eq!(genealogy.coalescence_event(0, 2), 2);
    assert_eq!(divergence(&genealogy, 0, 2), 2.0);
}

#[test]
fn divergence_is_twice_the_time_to_the_common_ancestor() {
    let genealogy = three_leaves();
    assert_eq!(divergence(&genealogy, 0, 1), 2.0);
    assert_eq!(divergence(&genealogy, 0, 2), 6.0);
    assert_eq!(divergence(&genealogy, 1, 2), 6.0);
    let genealogy = four_leaves();
    assert_eq!(divergence(&genealogy, 2, 3), 1.0);
    assert_eq!(divergence(&genealogy, 0, 1), 1.5);
    assert_eq!(divergence(&genealogy, 0, 3), 4.5);
}

#[test]
fn divergence_is_symmetric_and_zero_on_the_diagonal() {
    let n = 9;
    let genealogy = sample(n, 31);
    for a in 0..n {
        assert_eq!(genealogy.coalescence_event(a, a), 0);
        assert_eq!(divergence(&genealogy, a, a), 0.0);
        for b in 0..n {
            assert_eq!(genealogy.coalescence_event(a, b), genealogy.coalescence_event(b, a));
            assert_eq!(divergence(&genealogy, a, b), divergence(&genealogy, b, a));
            if a != b {
                assert!(genealogy.coalescence_event(a, b) >= 1);
                assert!(genealogy.coalescence_event(a, b) <= n - 1);
            }
        }
    }
}

#[test]
fn merged_pairs_multiplies_the_sizes_of_the_two_sets() {
    let genealogy = three_leaves();
    assert_eq!(genealogy.merged_pairs(0), 1);
    assert_eq!(genealogy.merged_pairs(1), 2);
    let genealogy = four_leaves();
    assert_eq!(genealogy.merged_pairs(0), 1);
    assert_eq!(genealogy.merged_pairs(1), 1);
    assert_eq!(genealogy.merged_pairs(2), 4);
}

#[test]
fn merged_pairs_counts_the_pairs_that_meet_at_the_event() {
    let n = 8;
    let genealogy = sample(n, 17);
    for i in 0..n - 1 {
        let mut meeting = 0;
        for a in 0..n {
            for b in (a + 1)..n {
                if genealogy.coalescence_event(a, b) == i + 1 {
                    meeting += 1;
                }
            }
        }
        assert_eq!(genealogy.merged_pairs(i), meeting);
    }
}

#[test]
fn mean_pairwise_divergence_of_known_trees() {
    assert_eq!(mean_pairwise_divergence(&three_leaves()), 14.0 * 2.0 / 6.0);
    let expected = (1.0 + 1.5 + 4.0 * 4.5) / 6.0;
    assert!((mean_pairwise_divergence(&four_leaves()) - expected).abs() < 1e-12);
}

#[test]
fn mean_pairwise_divergence_agrees_with_brute_force() {
    for n in 2..=8 {
        for seed in 0..5 {
            let genealogy = sample(n, 100 * n as u64 + seed);
            let swept = mean_pairwise_divergence(&genealogy);
            let brute = brute_force_mean(&genealogy);
            assert!((swept - brute).abs() <= 1e-9 * brute.abs().max(1.0));
        }
    }
}

#[test]
fn the_sweep_adds_up_the_divergences_of_all_pairs() {
    let whole_times = |_rng: &mut StdRng, rate: u128| 3 * rate as u64 + 1;
    for n in 1..10 {
        let process = Coalescent::new(n, StdRng::seed_from_u64(n as u64));
        let mut rng = StdRng::seed_from_u64(50 + n as u64);
        let genealogy = process.sample_genealogy(&mut rng, &whole_times);
        let elapsed = |events: usize| -> u128 {
            genealogy.time_steps().iter().take(events).map(|t| *t as u128).sum()
        };
        let mut over_pairs: u128 = 0;
        for a in 0..n {
            for b in 0..n {
                over_pairs += 2 * elapsed(genealogy.coalescence_event(a, b));
            }
        }
        let mut swept: u128 = 0;
        for i in 0..genealogy.events() {
            swept += 2 * elapsed(i + 1) * genealogy.merged_pairs(i);
        }
        assert_eq!(over_pairs, 2 * swept);
    }
}

#[test]
fn depth_agrees_with_the_plain_sum() {
    let genealogy = sample(12, 90);
    let plain: f64 = times(&genealogy).iter().sum();
    assert_eq!(depth(&genealogy), plain);
}

#[test]
fn length_agrees_with_the_plain_weighted_sum() {
    let n = 12;
    let genealogy = sample(n, 91);
    let plain: f64 = times(&genealogy)
        .iter()
        .enumerate()
        .map(|(i, time_step)| (n - i) as f64 * time_step)
        .sum();
    assert_eq!(length(&genealogy), plain);
}

#[test]
fn divergence_agrees_with_the_plain_sum() {
    let n = 7;
    let genealogy = sample(n, 92);
    for a in 0..n {
        for b in 0..n {
            let events = genealogy.coalescence_event(a, b);
            let plain = 2.0 * times(&genealogy).iter().take(events).sum::<f64>();
            assert_eq!(divergence(&genealogy, a, b), plain);
        }
    }
}

#[test]
fn mean_pairwise_divergence_agrees_with_the_plain_sweep() {
    let n = 9;
    let genealogy = sample(n, 93);
    let mut cumulative_time = 0.0;
    let mut cumulative_divergence = 0.0;
    for (i, time_step) in times(&genealogy).iter().enumerate() {
        cumulative_time += time_step;
        cumulative_divergence += (2.0 * cumulative_time) * genealogy.merged_pairs(i) as f64;
    }
    let plain = cumulative_divergence * 2.0 / (n * (n - 1)) as f64;
    assert_eq!(mean_pairwise_divergence(&genealogy), plain);
}

#[test]
fn mean_pairwise_divergence_of_one_element_is_no_number() {
    let genealogy = sample(1, 94);
    assert!(mean_pairwise_divergence(&genealogy).is_nan());
}

#[test]
fn statistics_apply_the_operations_in_order() {
    let genealogy = three_leaves();
    let log = std::cell::RefCell::new(Vec::new());
    let of = |n: u128| {
        log.borrow_mut().push(format!("of {}", n));
        (n as f64).to_bits()
    };
    let sum = |x: u64, y: u64| {
        log.borrow_mut().push(format!("{} + {}", f64::from_bits(x), f64::from_bits(y)));
        (f64::from_bits(x) + f64::from_bits(y)).to_bits()
    };
    let product = |x: u64, y: u64| {
        log.borrow_mut().push(format!("{} * {}", f64::from_bits(x), f64::from_bits(y)));
        (f64::from_bits(x) * f64::from_bits(y)).to_bits()
    };
    let quotient = |x: u64, y: u64| {
        log.borrow_mut().push(format!("{} / {}", f64::from_bits(x), f64::from_bits(y)));
        (f64::from_bits(x) / f64::from_bits(y)).to_bits()
    };
    let mean = genealogy.mean_pairwise_divergence(&of, &sum, &product, &quotient);
    assert_eq!(f64::from_bits(mean), 28.0 / 6.0);
    assert_eq!(
        *log.borrow(),
        vec![
            "of 0", "of 2", "0 + 1", "2 * 1", "of 1", "2 * 1", "0 + 2", "1 + 2", "2 * 3", "of 2",
            "6 * 2", "2 + 12", "14 * 2", "of 6", "28 / 6",
        ]
    );
    log.borrow_mut().clear();
    let length = genealogy.length(&of, &sum, &product);
    assert_eq!(f64::from_bits(length), 7.0);
    assert_eq!(
        *log.borrow(),
        vec!["of 0", "of 3", "3 * 1", "0 + 3", "of 2", "2 * 2", "3 + 4"]
    );
    log.borrow_mut().clear();
    let divergence = genealogy.divergence(2, 0, &of, &sum, &product);
    assert_eq!(f64::from_bits(divergence), 6.0);
    assert_eq!(*log.borrow(), vec!["of 0", "of 2", "0 + 1", "1 + 2", "2 * 3"]);
    log.borrow_mut().clear();
    let depth = genealogy.depth(&of, &sum);
    assert_eq!(f64::from_bits(depth), 3.0);
    assert_eq!(*log.borrow(), vec!["of 0", "0 + 1", "1 + 2"]);
}

#[test]
fn least_member_finds_the_least_element_of_a_set() {
    let mut state: PartitionVec<()> = std::iter::repeat(()).take(5).collect();
    state.union(4, 2);
    state.union(3, 4);
    assert_eq!(least_member(&state, 4), Some(2));
    assert_eq!(least_member(&state, 3), Some(2));
    assert_eq!(least_member(&state, 2), Some(2));
    assert_eq!(least_member(&state, 1), Some(1));
    assert_eq!(least_member(&state, 0), Some(0));
    assert_eq!(least_member(&state, 5), None);
}

#[test]
fn graph_of_three_leaves() {
    let mut genealogy = three_leaves();
    genealogy.compute_graph();
    let graph = genealogy.graph().expect("the graph was computed");
    let labels: Vec<(usize, usize)> = graph.raw_nodes().iter().map(|node| node.weight).collect();
    assert_eq!(labels, vec![(0, 0), (0, 1), (0, 2), (1, 0), (2, 0)]);
    let edges: Vec<(usize, usize, f64)> = graph
        .raw_edges()
        .iter()
        .map(|edge| (edge.source().index(), edge.target().index(), f64::from_bits(edge.weight)))
        .collect();
    assert_eq!(edges, vec![(3, 0, 1.0), (3, 1, 1.0), (4, 3, 2.0), (4, 2, 2.0)]);
    assert!(!graph.is_directed());
}

#[test]
fn graph_of_four_leaves() {
    let graph = four_leaves().into_graph();
    let labels: Vec<(usize, usize)> = graph.raw_nodes().iter().map(|node| node.weight).collect();
    assert_eq!(labels, vec![(0, 0), (0, 1), (0, 2), (0, 3), (1, 2), (2, 0), (3, 0)]);
    let edges: Vec<(usize, usize, f64)> = graph
        .raw_edges()
        .iter()
        .map(|edge| (edge.source().index(), edge.target().index(), f64::from_bits(edge.weight)))
        .collect();
    assert_eq!(
        edges,
        vec![(4, 3, 0.5), (4, 2, 0.5), (5, 0, 0.25), (5, 1, 0.25), (6, 5, 1.5), (6, 4, 1.5)]
    );
}

#[test]
fn graph_has_a_node_for_each_element_and_event() {
    for n in 2..15 {
        let graph = sample(n, 3 * n as u64).into_graph();
        assert_eq!(graph.node_count(), 2 * n - 1);
        assert_eq!(graph.edge_count(), 2 * (n - 1));
    }
}

#[test]
fn clone_keeps_the_record_and_the_graph() {
    let mut genealogy = three_leaves();
    genealogy.compute_graph();
    let copy = genealogy.clone();
    assert_eq!(copy.group_size(), 3);
    assert_eq!(copy.steps(), genealogy.steps());
    assert_eq!(copy.time_steps(), genealogy.time_steps());
    assert_eq!(copy.path().len(), 3);
    assert!(copy.path()[1].same_set(0, 1));
    assert!(!copy.path()[1].same_set(0, 2));
    assert_eq!(copy.path()[2].amount_of_sets(), 1);
    let graph = copy.graph().expect("the graph was copied");
    assert_eq!(graph.node_count(), 5);
    assert_eq!(graph.edge_count(), 4);
    assert_eq!(graph.raw_nodes()[4].weight, (2, 0));
    assert_eq!(graph.raw_edges()[3].weight, 2.0f64.to_bits());

    let mut unfinished = Genealogy::new(3);
    assert!(unfinished.record([1, 2], 5));
    let mut branch = unfinished.clone();
    assert!(branch.graph().is_none());
    assert!(branch.record([0, 1], 6));
    assert_eq!(unfinished.events(), 1);
    assert_eq!(branch.events(), 2);
    assert_eq!(branch.steps(), &vec![[1, 2], [0, 1]]);
}

#[test]
fn graph_is_computed_once() {
    let mut genealogy = sample(6, 9);
    assert!(genealogy.graph().is_none());
    genealogy.compute_graph();
    let nodes = genealogy.graph().map(|graph| graph.node_count());
    genealogy.compute_graph();
    assert_eq!(genealogy.graph().map(|graph| graph.node_count()), nodes);
    assert_eq!(nodes, Some(11));
    assert_eq!(genealogy.events(), 5);
    assert_eq!(genealogy.into_graph().edge_count(), 10);
}

#[test]
fn graph_of_a_sample_is_a_tree_below_the_last_node() {
    let n = 10;
    let genealogy = sample(n, 21);
    let weights = times(&genealogy);
    let graph = genealogy.into_graph();
    let mut children = vec![0; graph.node_count()];
    let mut parents = vec![0; graph.node_count()];
    for (k, edge) in graph.raw_edges().iter().enumerate() {
        assert_eq!(edge.source().index(), n + k / 2);
        assert!(edge.target().index() < edge.source().index());
        assert_eq!(f64::from_bits(edge.weight), weights[k / 2]);
        children[edge.source().index()] += 1;
        parents[edge.target().index()] += 1;
    }
    for node in 0..graph.node_count() {
        assert_eq!(children[node], if node < n { 0 } else { 2 });
        assert_eq!(parents[node], if node + 1 == graph.node_count() { 0 } else { 1 });
    }
}

#[test]
fn large_samples_have_the_expected_depth_and_length() {
    let n = 1024;
    let replicates = 16;
    let process = Coalescent::new(n, StdRng::seed_from_u64(1));
    let mut rng = StdRng::seed_from_u64(2024);
    let mut total_depth = 0.0;
    let mut total_length = 0.0;
    for _ in 0..replicates {
        let genealogy = process.sample_genealogy(&mut rng, &draw);
        total_depth += depth(&genealogy);
        total_length += length(&genealogy);
    }
    let mean_depth = total_depth / replicates as f64;
    let mean_length = total_length / replicates as f64;
    let expected_depth = 2.0 * (1.0 - 1.0 / n as f64);
    let m = (n - 1) as f64;
    let expected_length = 2.0 * (m.ln() + 0.57721 + 1.0 / (2.0 * m));
    assert!((mean_depth - expected_depth).abs() < 1.0);
    assert!((mean_length - expected_length).abs() < 2.5);
}
