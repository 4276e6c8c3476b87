use u_routing::alns::destroy::{RandomRemoval, ShawRemoval, WorstRemoval};
use u_routing::alns::repair::{GreedyInsertion, RegretInsertion};
use u_routing::alns::solution_repr::RoutingSolution;
use u_routing::constructive::clarke_wright::clarke_wright_savings;
use u_routing::constructive::nearest_neighbor::nearest_neighbor;
use u_routing::constructive::nn_tw::nearest_neighbor_tw;
use u_routing::constructive::solomon_i1::solomon_i1;
use u_routing::constructive::sweep::sweep;
use u_routing::distance::DistanceMatrix;
use u_routing::evaluation::RouteEvaluator;
use u_routing::ga::chromosome::GiantTour;
use u_routing::ga::problem::RoutingGaProblem;
use u_routing::ga::split::split;
use u_routing::ga::split_tw::split_tw;
use u_routing::local_search::exchange::exchange_improve;
use u_routing::local_search::relocate::relocate_improve;
use u_routing::local_search::two_opt::two_opt_improve;
use u_routing::models::customer::{Customer, TimeWindow, rounded_sqrt};
use u_routing::models::solution::{Solution, ViolationType};
use u_routing::models::vehicle::Vehicle;
use u_routing::route_set::copy_solution;

fn line(n: usize, demand: u32) -> (Vec<Customer>, DistanceMatrix) {
    let mut customers = vec![Customer::depot(0, 0)];
    for i in 1..=n {
        customers.push(Customer::new(i, i as i32, 0, demand, 0));
    }
    let dm = DistanceMatrix::from_customers(&customers);
    (customers, dm)
}

fn sorted(mut v: Vec<usize>) -> Vec<usize> {
    v.sort();
    v
}

fn all_ids(sol: &RoutingSolution) -> Vec<usize> {
    let mut ids: Vec<usize> = sol.routes().iter().flat_map(|r| r.iter().copied()).collect();
    ids.extend(sol.unassigned().iter().copied());
    sorted(ids)
}

fn served_and_unassigned(sol: &Solution) -> Vec<usize> {
    let mut ids: Vec<usize> = sol.routes().iter().flat_map(|r| r.customer_ids()).collect();
    ids.extend(sol.unassigned().iter().copied());
    sorted(ids)
}

#[test]
fn rounded_sqrt_values() {
    assert_eq!(rounded_sqrt(0), 0);
    assert_eq!(rounded_sqrt(1), 1);
    assert_eq!(rounded_sqrt(2), 1);
    assert_eq!(rounded_sqrt(3), 2);
    assert_eq!(rounded_sqrt(6), 2);
    assert_eq!(rounded_sqrt(7), 3);
    assert_eq!(rounded_sqrt(25), 5);
    assert_eq!(rounded_sqrt(u64::MAX), 4_294_967_296);
}

#[test]
fn euclidean_distance_is_rounded() {
    let a = Customer::new(0, 0, 0, 0, 0);
    assert_eq!(a.distance_to(&Customer::new(1, 1, 1, 0, 0)), 1);
    assert_eq!(a.distance_to(&Customer::new(2, 2, 2, 0, 0)), 3);
    assert_eq!(a.distance_to(&Customer::new(3, 5, 5, 0, 0)), 7);
}

#[test]
fn matrix_diagonal_zero_and_symmetric() {
    let customers = vec![
        Customer::depot(0, 0),
        Customer::new(1, 5, 0, 1, 0),
        Customer::new(2, 0, 5, 1, 0),
        Customer::new(3, -7, 3, 1, 0),
    ];
    let dm = DistanceMatrix::from_customers(&customers);
    for i in 0..4 {
        assert_eq!(dm.get(i, i), 0);
        for j in 0..4 {
            assert_eq!(dm.get(i, j), dm.get(j, i));
        }
    }
    let mut m = DistanceMatrix::new(2);
    m.set(1, 1, 9);
    assert_eq!(m.get(1, 1), 0);
}

#[test]
fn time_window_laws() {
    let tw = TimeWindow::new(10, 20).expect("valid");
    assert_eq!(tw.waiting_time(4), 6);
    assert_eq!(tw.waiting_time(10), 0);
    assert_eq!(tw.waiting_time(25), 0);
    assert!(tw.contains(10) && tw.contains(20) && !tw.contains(21));
    assert!(TimeWindow::new(5, 5).is_some());
    assert!(TimeWindow::new(6, 5).is_none());
}

#[test]
fn build_route_round_trips_ids() {
    let (customers, dm) = line(4, 1);
    let vehicle = Vehicle::new(0, 100);
    let eval = RouteEvaluator::new(&customers, &dm, &vehicle);
    let (route, _) = eval.build_route(&[3, 1, 4, 2]);
    assert_eq!(route.customer_ids(), vec![3, 1, 4, 2]);
    assert_eq!(route.total_load(), 4);
    // 0→3→1→4→2→0 = 3 + 2 + 3 + 2 + 2
    assert_eq!(route.total_distance(), 12);
    let visits = route.visits();
    for k in 0..visits.len() - 1 {
        let travel = dm.get(visits[k].customer_id, visits[k + 1].customer_id) as u128;
        assert!(visits[k + 1].arrival_time >= visits[k].departure_time + travel);
    }
}

#[test]
fn evaluate_solution_marks_route_index() {
    let (customers, dm) = line(3, 10);
    let vehicle = Vehicle::new(0, 15).with_cost_per_distance(2).with_fixed_cost(5);
    let eval = RouteEvaluator::new(&customers, &dm, &vehicle);
    let mut sol = Solution::new();
    sol.add_route(eval.build_route(&[1]).0);
    sol.add_route(eval.build_route(&[2, 3]).0);
    let (cost, violations) = eval.evaluate_solution(&sol);
    // (2·2 + 5) + (6·2 + 5)
    assert_eq!(cost, 26);
    assert_eq!(violations.len(), 1);
    assert!(matches!(violations[0].kind, ViolationType::CapacityExceeded { route_index: 1, load: 20, capacity: 15 }));
}

#[test]
fn split_is_optimal_on_clusters() {
    let customers = vec![
        Customer::depot(0, 0),
        Customer::new(1, 1, 0, 10, 0),
        Customer::new(2, 2, 0, 10, 0),
        Customer::new(3, 3, 0, 10, 0),
    ];
    let dm = DistanceMatrix::from_customers(&customers);
    let r = split(&[1, 2, 3], &customers, &dm, 20);
    assert!(r.complete);
    assert_eq!(r.routes, vec![vec![1], vec![2, 3]]);
    assert_eq!(r.total_distance, 8);
}

#[test]
fn split_reports_incomplete_tour() {
    let (mut customers, _) = line(3, 10);
    customers[2] = Customer::new(2, 2, 0, 50, 0);
    let dm = DistanceMatrix::from_customers(&customers);
    let r = split(&[1, 2, 3], &customers, &dm, 20);
    assert!(!r.complete);
    assert_eq!(r.routes, vec![vec![1]]);
    assert_eq!(r.total_distance, 2);
}

#[test]
fn split_tw_waits_for_windows() {
    let customers = vec![
        Customer::depot(0, 0),
        Customer::new(1, 1, 0, 10, 2).with_time_window(TimeWindow::new(10, 20).expect("valid")),
        Customer::new(2, 2, 0, 10, 2).with_time_window(TimeWindow::new(14, 30).expect("valid")),
    ];
    let dm = DistanceMatrix::from_customers(&customers);
    let r = split_tw(&[1, 2], &customers, &dm, 30);
    assert!(r.complete);
    assert_eq!(r.routes, vec![vec![1, 2]]);
    assert_eq!(r.total_distance, 4);
}

#[test]
fn clarke_wright_triangle() {
    let customers = vec![
        Customer::depot(0, 0),
        Customer::new(1, 5, 0, 10, 0),
        Customer::new(2, 0, 5, 10, 0),
        Customer::new(3, 5, 5, 10, 0),
    ];
    let dm = DistanceMatrix::from_customers(&customers);
    let sol = clarke_wright_savings(&customers, &dm, &Vehicle::new(0, 100));
    assert_eq!(sol.num_routes(), 1);
    assert!(sol.total_distance() < 25);
    assert_eq!(served_and_unassigned(&sol), vec![1, 2, 3]);
}

#[test]
fn nn_tw_leaves_unreachable_customer() {
    let customers = vec![
        Customer::depot(0, 0),
        Customer::new(1, 1, 0, 1, 0).with_time_window(TimeWindow::new(0, 100).expect("valid")),
        Customer::new(2, 100, 0, 1, 0).with_time_window(TimeWindow::new(0, 5).expect("valid")),
    ];
    let dm = DistanceMatrix::from_customers(&customers);
    let sol = nearest_neighbor_tw(&customers, &dm, &[Vehicle::new(0, 100), Vehicle::new(1, 100)]);
    assert_eq!(sol.num_routes(), 1);
    assert_eq!(sol.routes()[0].customer_ids(), vec![1]);
    assert_eq!(sol.unassigned(), &[2]);
}

#[test]
fn oversized_customer_is_unassigned() {
    let (mut customers, _) = line(3, 10);
    customers[2] = Customer::new(2, 2, 0, 500, 0);
    let dm = DistanceMatrix::from_customers(&customers);
    let vehicle = Vehicle::new(0, 100);
    let nn = nearest_neighbor(&customers, &dm, &[vehicle, Vehicle::new(1, 100)]);
    assert_eq!(nn.unassigned(), &[2]);
    assert!(nn.routes().iter().all(|r| !r.customer_ids().contains(&2)));
    let sw = sweep(&customers, &dm, &vehicle);
    assert_eq!(sw.unassigned(), &[2]);
    assert!(sw.routes().iter().all(|r| !r.customer_ids().contains(&2)));
}

#[test]
fn single_customer_is_one_round_trip() {
    let (customers, dm) = line(1, 5);
    let vehicle = Vehicle::new(0, 100);
    let expected = 2 * dm.get(0, 1) as u128;
    for sol in [
        nearest_neighbor(&customers, &dm, &[vehicle]),
        nearest_neighbor_tw(&customers, &dm, &[vehicle]),
        clarke_wright_savings(&customers, &dm, &vehicle),
        sweep(&customers, &dm, &vehicle),
        solomon_i1(&customers, &dm, &vehicle),
    ] {
        assert_eq!(sol.num_routes(), 1);
        assert_eq!(sol.total_distance(), expected);
        assert_eq!(sol.total_cost(), expected);
    }
}

#[test]
fn depot_only_gives_empty_solutions() {
    let customers = vec![Customer::depot(3, 4)];
    let dm = DistanceMatrix::from_customers(&customers);
    let vehicle = Vehicle::new(0, 10);
    for sol in [
        nearest_neighbor(&customers, &dm, &[vehicle]),
        nearest_neighbor_tw(&customers, &dm, &[vehicle]),
        clarke_wright_savings(&customers, &dm, &vehicle),
        sweep(&customers, &dm, &vehicle),
        solomon_i1(&customers, &dm, &vehicle),
    ] {
        assert_eq!(sol.num_routes(), 0);
        assert_eq!(sol.num_unassigned(), 0);
        let again = relocate_improve(&sol, &customers, &dm, &vehicle);
        assert_eq!(again.num_routes(), 0);
        let again = exchange_improve(&sol, &customers, &dm, &vehicle);
        assert_eq!(again.num_routes(), 0);
    }
    let (route, d) = two_opt_improve(&[], 0, &dm);
    assert!(route.is_empty());
    assert_eq!(d, 0);
}

#[test]
fn relocate_keeps_customers_and_copies_single_route() {
    let (customers, dm) = line(4, 10);
    let vehicle = Vehicle::new(0, 100);
    let eval = RouteEvaluator::new(&customers, &dm, &vehicle);
    let mut sol = Solution::new();
    sol.add_route(eval.build_route(&[4, 1, 3, 2]).0);
    sol.add_unassigned(7);
    let same = relocate_improve(&sol, &customers, &dm, &vehicle);
    assert_eq!(same.routes()[0].customer_ids(), vec![4, 1, 3, 2]);
    assert_eq!(same.unassigned(), &[7]);
    let copy = copy_solution(&sol);
    assert_eq!(copy.routes()[0].customer_ids(), sol.routes()[0].customer_ids());
}

#[test]
fn lightweight_round_trip() {
    let (customers, dm) = line(4, 10);
    let vehicle = Vehicle::new(0, 100);
    let light = RoutingSolution::new(vec![vec![2, 1], vec![4]], vec![3], &customers, &dm);
    let full = light.to_solution(&customers, &dm, &vehicle);
    assert_eq!(full.num_routes(), 2);
    assert_eq!(full.total_distance(), light.total_distance());
    let back = RoutingSolution::from_solution(&full, &customers, &dm);
    assert_eq!(back.routes(), light.routes());
    assert_eq!(back.unassigned(), light.unassigned());
}

#[test]
fn destroy_is_deterministic_per_seed() {
    let (customers, dm) = line(8, 10);
    let sol = RoutingSolution::new(vec![vec![1, 2, 3, 4], vec![5, 6, 7, 8]], vec![], &customers, &dm);
    let random = RandomRemoval;
    let worst = WorstRemoval::new(dm.clone());
    let shaw = ShawRemoval::new(dm.clone(), customers.clone());
    for seed in [1u64, 7, 42] {
        let a = random.destroy(&sol, 400_000, &mut u_numflow::random::create_rng(seed));
        let b = random.destroy(&sol, 400_000, &mut u_numflow::random::create_rng(seed));
        assert_eq!(a.routes(), b.routes());
        assert_eq!(a.unassigned(), b.unassigned());
        assert_eq!(a.unassigned().len(), 3);
        assert_eq!(all_ids(&a), (1..=8).collect::<Vec<usize>>());
        let a = worst.destroy(&sol, 400_000, &mut u_numflow::random::create_rng(seed));
        let b = worst.destroy(&sol, 400_000, &mut u_numflow::random::create_rng(seed));
        assert_eq!(a.unassigned(), b.unassigned());
        assert_eq!(a.unassigned().len(), 3);
        let a = shaw.destroy(&sol, 400_000, &mut u_numflow::random::create_rng(seed));
        let b = shaw.destroy(&sol, 400_000, &mut u_numflow::random::create_rng(seed));
        assert_eq!(a.unassigned(), b.unassigned());
        assert_eq!(all_ids(&a), (1..=8).collect::<Vec<usize>>());
    }
}

#[test]
fn worst_removal_takes_the_detour() {
    let customers = vec![
        Customer::depot(0, 0),
        Customer::new(1, 1, 0, 1, 0),
        Customer::new(2, 2, 9, 1, 0),
        Customer::new(3, 3, 0, 1, 0),
    ];
    let dm = DistanceMatrix::from_customers(&customers);
    let sol = RoutingSolution::new(vec![vec![1, 2, 3]], vec![], &customers, &dm);
    let out = WorstRemoval::new(dm.clone()).destroy(&sol, 1, &mut u_numflow::random::create_rng(3));
    assert_eq!(out.unassigned(), &[2]);
    assert_eq!(out.routes(), &vec![vec![1, 3]]);
}

#[test]
fn repairs_insert_everything() {
    let (customers, dm) = line(4, 10);
    let sol = RoutingSolution::new(vec![vec![1]], vec![2, 3, 4], &customers, &dm);
    let mut rng = u_numflow::random::create_rng(1);
    let greedy = GreedyInsertion::new(dm.clone(), customers.clone(), 100).repair(&sol, &mut rng);
    // equal insertion costs go to the first position: 0→4→3→2→1→0
    assert_eq!(greedy.routes(), &vec![vec![4, 3, 2, 1]]);
    assert_eq!(greedy.total_distance(), 8);
    let regret = RegretInsertion::new(dm.clone(), customers.clone(), 20).with_k(3).repair(&sol, &mut rng);
    assert!(regret.unassigned().is_empty());
    assert_eq!(all_ids(&regret), vec![1, 2, 3, 4]);
}

#[test]
fn ga_operators_keep_permutations_and_repeat_per_seed() {
    let (customers, dm) = line(6, 10);
    let problem = RoutingGaProblem::new(customers, dm, 30);
    let a = problem.create_individual(&mut u_numflow::random::create_rng(5));
    let b = problem.create_individual(&mut u_numflow::random::create_rng(5));
    assert_eq!(a.customers(), b.customers());
    assert_eq!(sorted(a.customers().clone()), vec![1, 2, 3, 4, 5, 6]);
    let p1 = GiantTour::new(vec![1, 2, 3, 4, 5, 6]);
    let p2 = GiantTour::new(vec![6, 5, 4, 3, 2, 1]);
    let mut changed = false;
    for seed in 0..20u64 {
        let children = problem.crossover(&p1, &p2, &mut u_numflow::random::create_rng(seed));
        for child in &children {
            assert_eq!(sorted(child.customers().clone()), vec![1, 2, 3, 4, 5, 6]);
            if child.customers() != p1.customers() && child.customers() != p2.customers() {
                changed = true;
            }
        }
        let mut t = GiantTour::new(vec![1, 2, 3, 4, 5, 6]);
        problem.mutate(&mut t, &mut u_numflow::random::create_rng(seed));
        assert_eq!(sorted(t.customers().clone()), vec![1, 2, 3, 4, 5, 6]);
        if t.customers() != p1.customers() {
            changed = true;
        }
    }
    assert!(changed);
    let fitness = problem.evaluate(&GiantTour::new(vec![1, 2, 3, 4, 5, 6]));
    // capacity 30 holds three: [1,2,3] (6) and [4,5,6] (12)
    assert_eq!(fitness, Some(18));
}

#[test]
fn clarke_wright_and_solomon_leave_unservable_customers() {
    let (mut customers, _) = line(3, 10);
    customers[2] = Customer::new(2, 2, 0, 500, 0);
    let dm = DistanceMatrix::from_customers(&customers);
    let vehicle = Vehicle::new(0, 100);
    for sol in [clarke_wright_savings(&customers, &dm, &vehicle), solomon_i1(&customers, &dm, &vehicle)] {
        assert_eq!(sol.unassigned(), &[2]);
        assert!(sol.routes().iter().all(|r| !r.customer_ids().contains(&2) && r.total_load() <= 100));
        assert_eq!(served_and_unassigned(&sol), vec![1, 2, 3]);
    }
    let late = vec![
        Customer::depot(0, 0),
        Customer::new(1, 1, 0, 1, 0),
        Customer::new(2, 50, 0, 1, 0).with_time_window(TimeWindow::new(0, 10).expect("valid")),
    ];
    let dm = DistanceMatrix::from_customers(&late);
    let sol = solomon_i1(&late, &dm, &vehicle);
    assert_eq!(sol.unassigned(), &[2]);
    assert_eq!(sol.num_routes(), 1);
}

#[test]
fn shaw_drops_empty_routes_when_nothing_is_assigned() {
    let (customers, dm) = line(2, 10);
    let sol = RoutingSolution::new(vec![vec![], vec![]], vec![1, 2], &customers, &dm);
    let out = ShawRemoval::new(dm.clone(), customers.clone()).destroy(&sol, 500_000, &mut u_numflow::random::create_rng(1));
    assert_eq!(out.num_routes(), 0);
    assert_eq!(out.unassigned(), &[1, 2]);
}

#[test]
fn worst_candidate_uses_noise_only_on_ties() {
    let (customers, dm) = line(3, 1);
    let op = WorstRemoval::new(dm.clone());
    // savings on 0→1→2→3→0: customer 1: 1+1-2 = 0, 2: 1+1-2 = 0, 3: 1+3-2 = 2
    let routes = vec![vec![1, 2, 3]];
    assert_eq!(op.worst_candidate(&routes, &vec![vec![5, 9, 0]]), Some((0, 2)));
    // two routes serving customer 2 alone: equal savings 4, the larger
    // tie-breaker decides, and the first position on a full tie
    let twin = vec![vec![2], vec![2]];
    assert_eq!(op.worst_candidate(&twin, &vec![vec![3], vec![8]]), Some((1, 0)));
    assert_eq!(op.worst_candidate(&twin, &vec![vec![8], vec![8]]), Some((0, 0)));
    assert_eq!(op.worst_candidate(&vec![vec![]], &vec![vec![]]), None);
}
