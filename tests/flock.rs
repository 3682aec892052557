use birds::agent::Agent;
use birds::geometry::{ceil_sqrt_exec, div_trunc, wrap, Bounds, Vec2, UNIT};
use birds::heading::{renormalize, SPEED};
use birds::pool::AgentPool;

fn screen() -> Bounds {
    Bounds::new(-500 * UNIT, 500 * UNIT, -400 * UNIT, 400 * UNIT)
}

fn at_speed(v: &Vec2) -> bool {
    let s = SPEED as i128;
    let m2 = (v.x as i128) * (v.x as i128) + (v.y as i128) * (v.y as i128);
    s * s - 5 * s <= m2 && m2 <= s * s
}

fn agent(x: i64, y: i64, vx: i64, vy: i64) -> Agent {
    Agent::new_at(Vec2::new(x, y), Vec2::new(vx, vy))
}

#[test]
fn velocity_keeps_speed_after_every_tick() {
    let b = screen();
    let mut pool = AgentPool::initialize(&b, 200);
    for _ in 0..20 {
        pool.step(&b);
        for a in pool.agents().iter() {
            assert!(at_speed(&a.velocity));
        }
    }
}

#[test]
fn positions_stay_within_bounds() {
    let b = screen();
    let mut pool = AgentPool::initialize(&b, 200);
    let small = Bounds::new(-100 * UNIT, 100 * UNIT, -50 * UNIT, 50 * UNIT);
    for k in 0..20 {
        let bk = if k % 2 == 0 { b } else { small };
        pool.step(&bk);
        for a in pool.agents().iter() {
            assert!(bk.left <= a.position.x && a.position.x <= bk.right);
            assert!(bk.bottom <= a.position.y && a.position.y <= bk.top);
        }
    }
}

#[test]
fn wraparound_is_exact_on_all_four_edges() {
    let b = screen();
    let mut right = agent(b.right - 1, 0, SPEED, 0);
    right.update(&b, &vec![right], 0);
    assert_eq!(right.position, Vec2::new(b.left, 0));

    let mut left = agent(b.left + 1, 0, -SPEED, 0);
    left.update(&b, &vec![left], 0);
    assert_eq!(left.position, Vec2::new(b.right, 0));

    let mut top = agent(0, b.top - 1, 0, SPEED);
    top.update(&b, &vec![top], 0);
    assert_eq!(top.position, Vec2::new(0, b.bottom));

    let mut bottom = agent(0, b.bottom + 1, 0, -SPEED);
    bottom.update(&b, &vec![bottom], 0);
    assert_eq!(bottom.position, Vec2::new(0, b.top));
}

#[test]
fn landing_exactly_on_an_edge_does_not_wrap() {
    let b = screen();
    let mut a = agent(b.right - SPEED, 0, SPEED, 0);
    a.update(&b, &vec![a], 0);
    assert_eq!(a.position.x, b.right);
    assert_eq!(wrap(b.left, b.top, &b), Vec2::new(b.left, b.top));
}

#[test]
fn update_order_does_not_matter() {
    let b = screen();
    let first = agent(0, 0, SPEED, 0);
    let second = agent(20 * UNIT, 5 * UNIT, 0, SPEED);
    let snapshot = vec![first, second];

    let mut a1 = first;
    let mut b1 = second;
    a1.update(&b, &snapshot, 0);
    b1.update(&b, &snapshot, 1);

    let mut b2 = second;
    let mut a2 = first;
    b2.update(&b, &snapshot, 1);
    a2.update(&b, &snapshot, 0);

    assert_eq!(a1, a2);
    assert_eq!(b1, b2);

    let mut pool = AgentPool::from_agents(snapshot).unwrap();
    pool.step(&b);
    assert_eq!(pool.agents()[0], a1);
    assert_eq!(pool.agents()[1], b1);
}

#[test]
fn isolated_agent_moves_by_its_velocity() {
    let b = screen();
    let lone = agent(UNIT, 2 * UNIT, 900_000, 1_200_000);
    let far = agent(300 * UNIT, 300 * UNIT, SPEED, 0);
    let mut a = lone;
    a.update(&b, &vec![lone, far], 0);
    assert_eq!(a.position, Vec2::new(1_900_000, 3_200_000));
    assert_eq!(a.velocity, Vec2::new(900_000, 1_200_000));
}

#[test]
fn isolated_agent_far_from_the_origin_keeps_its_heading() {
    let b = screen();
    let lone = agent(0, 400 * UNIT - SPEED - 1, SPEED, 0);
    let mut pool = AgentPool::from_agents(vec![lone]).unwrap();
    for _ in 0..10 {
        pool.step(&b);
    }
    let a = pool.agents()[0];
    assert_eq!(a.velocity, Vec2::new(SPEED, 0));
    assert_eq!(a.position, Vec2::new(10 * SPEED, 400 * UNIT - SPEED - 1));
}

#[test]
fn renormalize_keeps_direction() {
    let cases: Vec<(i128, i128)> = vec![
        (1_000_000_000_000, 3),
        (-5, 123_456_789),
        (-(1i128 << 100), -(1i128 << 99) - 12_345),
        (7, -7),
    ];
    for (x, y) in cases {
        let r = renormalize(x, y, Vec2::new(0, 0));
        assert!(at_speed(&r));
        let cross = (r.x as i128) * y - (r.y as i128) * x;
        assert!(cross.abs() <= 2 * (x.abs() + y.abs()));
        assert!(x.signum() * (r.x as i128).signum() >= 0);
        assert!(y.signum() * (r.y as i128).signum() >= 0);
    }
    assert_eq!(renormalize(-9, 9, Vec2::new(0, 0)), renormalize(-1, 1, Vec2::new(0, 0)));
}

#[test]
fn random_headings_cover_all_quadrants() {
    let b = screen();
    let pool = AgentPool::initialize(&b, 200);
    let mut quadrants = [false; 4];
    for a in pool.agents().iter() {
        let q = (if a.velocity.x >= 0 { 0 } else { 1 }) + (if a.velocity.y >= 0 { 0 } else { 2 });
        quadrants[q] = true;
    }
    assert!(quadrants.iter().all(|q| *q));
}

#[test]
fn runs_with_the_same_start_are_identical() {
    let b = screen();
    let start = AgentPool::initialize(&b, 50);
    let copy: Vec<Agent> = start.agents().clone();
    let mut one = AgentPool::from_agents(copy.clone()).unwrap();
    let mut two = AgentPool::from_agents(copy).unwrap();
    let small = Bounds::new(-200 * UNIT, 200 * UNIT, -100 * UNIT, 100 * UNIT);
    let seq = vec![b, b, small, b, small, small, b];
    one.run(&seq);
    for bk in seq.iter() {
        two.step(bk);
    }
    assert_eq!(one.agents(), two.agents());
}

#[test]
fn two_close_agents_diverge() {
    let b = screen();
    let a = agent(0, 0, SPEED, 0);
    let c = agent(10 * UNIT, 0, SPEED, 0);
    let mut pool = AgentPool::from_agents(vec![a, c]).unwrap();
    pool.step(&b);
    let after = pool.agents();
    assert_ne!(after[0].velocity, after[1].velocity);
    assert!(at_speed(&after[0].velocity));
    assert!(at_speed(&after[1].velocity));
    assert_eq!(after[0].velocity, Vec2::new(1_499_999, 1_274));
    assert_eq!(after[1].velocity, Vec2::new(1_499_999, 1_726));
}

#[test]
fn separation_formula_is_pinned() {
    let b = screen();
    let snap = vec![
        agent(0, 0, SPEED, 0),
        agent(10 * UNIT, 0, SPEED, 0),
        agent(0, 20 * UNIT, 0, SPEED),
    ];
    let mut pool = AgentPool::from_agents(snap).unwrap();
    pool.step(&b);
    let after = pool.agents();
    assert_eq!(after[0], agent(SPEED, 0, 1_499_961, 10_703));
    assert_eq!(after[1], agent(11_500_000, 0, 1_499_958, 11_170));
    assert_eq!(after[2], agent(0, 21_500_000, 15_237, 1_499_922));
}

#[test]
fn neighbour_beyond_min_distance_gets_no_push() {
    let b = screen();
    let a = agent(0, 0, SPEED, 0);
    let f = agent(40 * UNIT, 0, SPEED, 0);
    let mut moved = a;
    moved.update(&b, &vec![a, f], 0);
    assert_eq!(moved.velocity, Vec2::new(SPEED, 0));
}

#[test]
fn zero_steering_keeps_previous_heading() {
    let fallback = Vec2::new(0, -SPEED);
    assert_eq!(renormalize(0, 0, fallback), fallback);
    let b = screen();
    let a = Agent::from_samples(&b, 3, 4, 0, 0);
    assert_eq!(a.velocity, Vec2::new(SPEED, 0));
    assert_eq!(a.position, Vec2::new(3, 4));
}

#[test]
fn renormalize_scales_to_speed() {
    assert_eq!(renormalize(3, 4, Vec2::new(0, 0)), Vec2::new(900_000, 1_200_000));
    assert_eq!(renormalize(-7, 0, Vec2::new(0, 0)), Vec2::new(-SPEED, 0));
    let big = renormalize(1i128 << 95, -(1i128 << 94), Vec2::new(0, 0));
    assert_eq!(big, Vec2::new(1_341_640, -670_820));
    assert!(at_speed(&big));
}

#[test]
fn from_samples_heading() {
    let b = screen();
    let a = Agent::from_samples(&b, 0, 0, -UNIT, UNIT);
    assert!(at_speed(&a.velocity));
    assert!(a.velocity.x < 0 && a.velocity.y > 0);
    assert_eq!(a.velocity.x, -a.velocity.y);
}

#[test]
fn integer_helpers() {
    assert_eq!(ceil_sqrt_exec(1), 1);
    assert_eq!(ceil_sqrt_exec(2), 2);
    assert_eq!(ceil_sqrt_exec(4), 2);
    assert_eq!(ceil_sqrt_exec(5), 3);
    assert_eq!(ceil_sqrt_exec(1_000_000_000_000), 1_000_000);
    assert_eq!(div_trunc(7, 2), 3);
    assert_eq!(div_trunc(-7, 2), -3);
    assert_eq!(div_trunc(-1, 100), 0);
}

#[test]
fn initialize_places_agents_randomly_inside_bounds() {
    let b = screen();
    let pool = AgentPool::initialize(&b, 200);
    assert_eq!(pool.len(), 200);
    let first = pool.agents()[0];
    let mut all_same = true;
    for a in pool.agents().iter() {
        assert!(b.left <= a.position.x && a.position.x < b.right);
        assert!(b.bottom <= a.position.y && a.position.y < b.top);
        assert!(at_speed(&a.velocity));
        if a.position != first.position || a.velocity != first.velocity {
            all_same = false;
        }
    }
    assert!(!all_same);
}

#[test]
fn invalid_input_is_rejected() {
    assert!(!Bounds::new(0, 0, -10, 10).is_valid());
    assert!(!Bounds::new(0, 10, 5, 5).is_valid());
    assert!(screen().is_valid());
    assert!(AgentPool::from_agents(vec![agent(0, 0, 1, 0)]).is_none());
    assert!(AgentPool::from_agents(vec![agent(0, 0, 0, 0)]).is_none());
    assert!(AgentPool::from_agents(vec![agent(0, 0, SPEED, 0)]).is_some());
    assert!(!agent(i64::MAX, 0, SPEED, 0).is_valid());
}
