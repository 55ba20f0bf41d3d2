use rigid4d::slice::{ceil_div, work_groups, DrawIndirectCommand, WORK_GROUP_SIZE};
use rigid4d::world::{Tick, TickAction, TickPhase, SOLVER_ITERS};

fn run(bodies: usize, colliding: &[(usize, usize)]) -> Vec<TickAction> {
    let mut tick = Tick::new(bodies);
    let mut actions = Vec::new();
    let mut action = tick.action();
    while action != TickAction::Done {
        actions.push(action);
        let contacts = match action {
            TickAction::Detect { a, b } => {
                if colliding.contains(&(a, b)) {
                    3
                } else {
                    0
                }
            },
            _ => 0,
        };
        action = tick.advance(contacts);
    }
    assert_eq!(tick.phase, TickPhase::Done);
    assert_eq!(tick.advance(1), TickAction::Done);
    actions
}

#[test]
fn every_pair_is_tested_once_in_order() {
    let actions = run(4, &[]);
    let pairs: Vec<(usize, usize)> = actions
        .iter()
        .filter_map(|action| match action {
            TickAction::Detect { a, b } => Some((*a, *b)),
            _ => None,
        })
        .collect();
    assert_eq!(pairs, vec![(0, 1), (0, 2), (0, 3), (1, 2), (1, 3), (2, 3)]);
    // without a collision the bodies are stepped right away
    assert_eq!(
        &actions[6..],
        &[
            TickAction::Step { body: 0 },
            TickAction::Step { body: 1 },
            TickAction::Step { body: 2 },
            TickAction::Step { body: 3 },
        ]
    );
}

#[test]
fn constraints_are_weighted_by_the_collisions_of_their_bodies() {
    let actions = run(3, &[(0, 1), (0, 2)]);
    let built: Vec<TickAction> =
        actions.iter().filter(|a| matches!(a, TickAction::Build { .. })).cloned().collect();
    assert_eq!(
        built,
        vec![
            TickAction::Build { collision: 0, a: 0, b: 1, weight_a: 2, weight_b: 1 },
            TickAction::Build { collision: 1, a: 0, b: 2, weight_a: 2, weight_b: 1 },
        ]
    );
}

#[test]
fn a_tick_detects_builds_solves_and_steps_in_this_order() {
    let actions = run(3, &[(0, 2), (1, 2)]);
    assert_eq!(actions.len(), 3 + 2 + 2 * SOLVER_ITERS + 3);
    assert_eq!(SOLVER_ITERS, 20);
    assert!(actions[..3].iter().all(|a| matches!(a, TickAction::Detect { .. })));
    assert!(actions[3..5].iter().all(|a| matches!(a, TickAction::Build { .. })));
    let solves = &actions[5..45];
    for (k, action) in solves.iter().enumerate() {
        let expected = if k % 2 == 0 {
            TickAction::Solve { constraint: 0, a: 0, b: 2 }
        } else {
            TickAction::Solve { constraint: 1, a: 1, b: 2 }
        };
        assert_eq!(*action, expected);
    }
    assert_eq!(
        &actions[45..],
        &[TickAction::Step { body: 0 }, TickAction::Step { body: 1 }, TickAction::Step { body: 2 }]
    );
}

#[test]
fn small_worlds_have_no_pairs() {
    assert_eq!(run(0, &[]), Vec::<TickAction>::new());
    assert_eq!(run(1, &[]), vec![TickAction::Step { body: 0 }]);
    assert_eq!(
        run(2, &[]),
        vec![
            TickAction::Detect { a: 0, b: 1 },
            TickAction::Step { body: 0 },
            TickAction::Step { body: 1 }
        ]
    );
}

#[test]
fn quotients_are_rounded_up() {
    assert_eq!(ceil_div(0, 256), 0);
    assert_eq!(ceil_div(1, 256), 1);
    assert_eq!(ceil_div(256, 256), 1);
    assert_eq!(ceil_div(257, 256), 2);
    assert_eq!(ceil_div(u32::MAX, 1), u32::MAX);
    assert_eq!(ceil_div(u32::MAX, u32::MAX), 1);
    assert_eq!(ceil_div(7, 2), 4);
    assert_eq!(WORK_GROUP_SIZE, 256);
    assert_eq!(work_groups(1000), 4);
}

#[test]
fn a_fresh_draw_command_draws_one_empty_instance() {
    let command = DrawIndirectCommand::default();
    assert_eq!(command.vertex_count, 0);
    assert_eq!(command.instance_count, 1);
    assert_eq!(command.first_vertex, 0);
    assert_eq!(command.first_instance, 0);
}

#[test]
fn bodies_are_counted_as_they_collide() {
    let mut tick = Tick::new(3);
    assert_eq!(tick.count(0), 0);
    // the pairs (0, 1) and (0, 2) collide, the pair (1, 2) does not
    tick.advance(2);
    tick.advance(1);
    tick.advance(0);
    assert_eq!(tick.count(0), 2);
    assert_eq!(tick.count(1), 1);
    assert_eq!(tick.count(2), 1);
    assert_eq!(tick.count(7), 0);
}
