use bevy_goap::dispatcher::{PlanDispatcher, RequestPlanEvent};
use bevy_goap::resources::{Claim, ResourcePool};
use bevy_goap::{
    Action, ActionState, Actor, ActorState, Condition, EvaluationResult, GoapPlugin, GoapSet,
    WorldState,
};

const HAS_AXE: Condition = Condition { id: 1 };
const HAS_WOOD: Condition = Condition { id: 2 };

const GET_AXE: usize = 0;
const CHOP_TREE: usize = 1;

fn get_axe() -> Action {
    Action::build(100)
        .with_precondition(HAS_AXE, false)
        .with_postcondition(HAS_AXE, true)
        .with_cost(1)
}

fn chop_tree() -> Action {
    Action::build(101)
        .with_precondition(HAS_AXE, true)
        .with_postcondition(HAS_WOOD, true)
        .with_cost(5)
}

fn collect_wood() -> Action {
    Action::build(102)
        .with_precondition(HAS_WOOD, false)
        .with_postcondition(HAS_WOOD, true)
        .with_cost(1)
}

fn lumberjack() -> Actor {
    Actor::build(7)
        .with_initial_condition(HAS_AXE, false)
        .with_initial_condition(HAS_WOOD, false)
        .with_goal(HAS_WOOD, true)
        .with_action(get_axe())
        .with_action(chop_tree())
}

fn states(actor: &Actor) -> Vec<ActionState> {
    actor.actions().iter().map(|action| action.state).collect()
}

/// What the host's systems behind the actions do in one tick: every action
/// that is asked to evaluate answers with `verdict`, and every action under
/// way moves one step on.
fn host_actions(actor: &mut Actor, verdict: impl Fn(usize) -> EvaluationResult) {
    for index in 0..actor.actions().len() {
        match actor.actions()[index].state {
            ActionState::Evaluate => {
                assert!(actor.report(index, ActionState::EvaluationComplete(verdict(index))));
            }
            ActionState::Started => {
                assert!(actor.report(index, ActionState::Executing));
            }
            ActionState::Executing => {
                assert!(actor.report(index, ActionState::Complete));
            }
            _ => {}
        }
    }
}

/// Takes a started action through its run to `end`.
fn run_to(actor: &mut Actor, index: usize, end: ActionState) {
    assert!(actor.report(index, ActionState::Executing));
    assert!(actor.report(index, end));
}

fn all_succeed(_: usize) -> EvaluationResult {
    EvaluationResult::Success
}

/// Takes the agent from wanting a plan to having one.
fn plan_for(actor: &mut Actor, verdict: impl Fn(usize) -> EvaluationResult) {
    assert!(actor.request());
    assert_eq!(actor.state(), ActorState::Planning);
    host_actions(actor, verdict);
    assert!(actor.make_plan());
}

#[test]
fn a_built_agent_wants_a_plan() {
    let actor = Actor::build(3);
    assert_eq!(actor.id(), 3);
    assert_eq!(actor.state(), ActorState::RequiresPlan);
    assert!(actor.actions().is_empty());
    assert!(actor.plan().steps.is_empty());
    assert_eq!(actor.plan().cost, 0);
    assert_eq!(actor.current_step(), None);
    assert!(actor.current_state().same_as(&WorldState::new()));
    assert!(actor.goal().same_as(&WorldState::new()));
}

#[test]
fn the_builder_collects_beliefs_goal_and_actions() {
    let actor = lumberjack();
    assert_eq!(actor.current_state().get(HAS_AXE), Some(false));
    assert_eq!(actor.current_state().get(HAS_WOOD), Some(false));
    assert_eq!(actor.goal().get(HAS_WOOD), Some(true));
    assert_eq!(actor.goal().get(HAS_AXE), None);
    assert_eq!(actor.actions().len(), 2);
    assert_eq!(actor.actions()[GET_AXE].id, 100);
    assert_eq!(actor.actions()[CHOP_TREE].id, 101);
}

#[test]
fn an_action_enters_an_agent_at_rest() {
    let mut busy = get_axe();
    busy.state = ActionState::Executing;
    let actor = Actor::build(1).with_action(busy);
    assert_eq!(states(&actor), vec![ActionState::Idle]);
    assert_eq!(actor.actions()[0].cost, 1);
}

#[test]
fn a_request_asks_every_action_to_evaluate() {
    let mut actor = lumberjack();
    assert!(actor.request());
    assert_eq!(actor.state(), ActorState::Planning);
    assert_eq!(states(&actor), vec![ActionState::Evaluate, ActionState::Evaluate]);
    assert!(!actor.request());
    assert_eq!(actor.state(), ActorState::Planning);
}

#[test]
fn planning_waits_for_every_evaluation() {
    let mut actor = lumberjack();
    assert!(actor.request());
    assert!(!actor.make_plan());
    assert!(actor.report(GET_AXE, ActionState::EvaluationComplete(EvaluationResult::Success)));
    assert!(!actor.make_plan());
    assert_eq!(actor.state(), ActorState::Planning);
    assert!(actor.report(CHOP_TREE, ActionState::EvaluationComplete(EvaluationResult::Success)));
    assert!(actor.make_plan());
    assert_eq!(actor.state(), ActorState::PerformingPlan);
}

#[test]
fn planning_does_nothing_for_an_agent_that_did_not_ask() {
    let mut actor = lumberjack();
    assert!(!actor.make_plan());
    assert_eq!(actor.state(), ActorState::RequiresPlan);
    assert_eq!(states(&actor), vec![ActionState::Idle, ActionState::Idle]);
}

#[test]
fn the_plan_starts_its_first_step_and_lets_the_others_wait() {
    let mut actor = lumberjack();
    plan_for(&mut actor, all_succeed);
    assert_eq!(actor.state(), ActorState::PerformingPlan);
    assert_eq!(actor.plan().steps, vec![GET_AXE, CHOP_TREE]);
    assert_eq!(actor.plan().cost, 6);
    assert_eq!(actor.current_step(), Some(GET_AXE));
    assert_eq!(
        states(&actor),
        vec![ActionState::Started, ActionState::EvaluationComplete(EvaluationResult::Success)]
    );
}

#[test]
fn an_evaluated_action_outside_the_plan_is_told_so() {
    let mut actor = lumberjack().with_action(collect_wood());
    plan_for(&mut actor, all_succeed);
    assert_eq!(actor.plan().steps, vec![2]);
    assert_eq!(actor.plan().cost, 1);
    assert_eq!(
        states(&actor),
        vec![ActionState::NotInPlan(true), ActionState::NotInPlan(true), ActionState::Started]
    );
    actor.observe();
    assert_eq!(states(&actor), vec![ActionState::Idle, ActionState::Idle, ActionState::Started]);
}

#[test]
fn an_agent_without_a_way_says_so() {
    let mut actor = lumberjack();
    plan_for(&mut actor, |index| {
        if index == GET_AXE {
            EvaluationResult::Failure
        } else {
            EvaluationResult::Success
        }
    });
    assert_eq!(actor.state(), ActorState::Infeasible);
    assert!(actor.plan().steps.is_empty());
    assert_eq!(actor.current_step(), None);
    assert_eq!(states(&actor), vec![ActionState::NotInPlan(true), ActionState::NotInPlan(true)]);
}

#[test]
fn an_agent_whose_goal_holds_is_done_at_once() {
    let mut actor = lumberjack();
    actor.update_current_state(HAS_WOOD, true);
    plan_for(&mut actor, all_succeed);
    assert_eq!(actor.state(), ActorState::CompletedPlan);
    assert!(actor.plan().steps.is_empty());
    assert_eq!(actor.plan().cost, 0);
    assert_eq!(states(&actor), vec![ActionState::NotInPlan(true), ActionState::NotInPlan(true)]);
}

#[test]
fn a_completed_step_enters_the_beliefs_and_starts_the_next() {
    let mut actor = lumberjack();
    plan_for(&mut actor, all_succeed);
    actor.observe();
    assert_eq!(states(&actor)[GET_AXE], ActionState::Started);
    assert!(actor.report(GET_AXE, ActionState::Executing));
    assert_eq!(actor.current_state().get(HAS_AXE), Some(false));
    actor.observe();
    assert_eq!(states(&actor)[GET_AXE], ActionState::Executing);
    assert!(actor.report(GET_AXE, ActionState::Complete));
    actor.observe();
    assert_eq!(actor.state(), ActorState::PerformingPlan);
    assert_eq!(actor.current_step(), Some(CHOP_TREE));
    assert_eq!(actor.current_state().get(HAS_AXE), Some(true));
    assert_eq!(actor.current_state().get(HAS_WOOD), Some(false));
    assert_eq!(states(&actor), vec![ActionState::Complete, ActionState::Started]);
}

#[test]
fn the_last_completed_step_completes_the_plan() {
    let mut actor = lumberjack();
    plan_for(&mut actor, all_succeed);
    run_to(&mut actor, GET_AXE, ActionState::Complete);
    actor.observe();
    run_to(&mut actor, CHOP_TREE, ActionState::Complete);
    actor.observe();
    assert_eq!(actor.state(), ActorState::CompletedPlan);
    assert_eq!(actor.current_step(), None);
    assert!(actor.plan().steps.is_empty());
    assert_eq!(actor.current_state().get(HAS_AXE), Some(true));
    assert_eq!(actor.current_state().get(HAS_WOOD), Some(true));
    assert_eq!(states(&actor), vec![ActionState::Complete, ActionState::Complete]);
}

#[test]
fn a_failed_step_fails_the_plan_and_applies_nothing() {
    let mut actor = lumberjack();
    plan_for(&mut actor, all_succeed);
    run_to(&mut actor, GET_AXE, ActionState::Complete);
    actor.observe();
    run_to(&mut actor, CHOP_TREE, ActionState::Failure);
    actor.observe();
    assert_eq!(actor.state(), ActorState::PlanFailed);
    assert!(actor.plan().steps.is_empty());
    assert_eq!(actor.current_state().get(HAS_AXE), Some(true));
    assert_eq!(actor.current_state().get(HAS_WOOD), Some(false));
    assert_eq!(states(&actor), vec![ActionState::Complete, ActionState::Failure]);
}

#[test]
fn a_failed_first_step_tells_the_waiting_steps_that_the_plan_is_gone() {
    let mut actor = lumberjack();
    plan_for(&mut actor, all_succeed);
    run_to(&mut actor, GET_AXE, ActionState::Failure);
    actor.observe();
    assert_eq!(actor.state(), ActorState::PlanFailed);
    assert_eq!(actor.current_state().get(HAS_AXE), Some(false));
    assert_eq!(states(&actor), vec![ActionState::Failure, ActionState::NotInPlan(true)]);
    actor.observe();
    assert_eq!(states(&actor), vec![ActionState::Failure, ActionState::Idle]);
}

#[test]
fn a_step_that_does_not_move_keeps_the_agent_waiting() {
    let mut actor = lumberjack();
    plan_for(&mut actor, all_succeed);
    for _ in 0..10 {
        actor.observe();
        assert_eq!(actor.state(), ActorState::PerformingPlan);
        assert_eq!(actor.current_step(), Some(GET_AXE));
        assert_eq!(states(&actor)[GET_AXE], ActionState::Started);
    }
    assert!(actor.report(GET_AXE, ActionState::Executing));
    for _ in 0..10 {
        actor.observe();
        assert_eq!(actor.state(), ActorState::PerformingPlan);
        assert_eq!(actor.current_step(), Some(GET_AXE));
        assert_eq!(states(&actor)[GET_AXE], ActionState::Executing);
    }
}

#[test]
fn the_logic_behind_an_action_cannot_move_it_out_of_turn() {
    let mut actor = lumberjack();
    assert!(!actor.report(GET_AXE, ActionState::Complete));
    assert!(!actor.report(GET_AXE, ActionState::Started));
    assert!(!actor.report(5, ActionState::Complete));
    plan_for(&mut actor, all_succeed);
    assert!(!actor.report(CHOP_TREE, ActionState::Complete));
    assert!(!actor.report(GET_AXE, ActionState::Idle));
    assert!(!actor.report(GET_AXE, ActionState::Complete));
    assert!(!actor.report(GET_AXE, ActionState::Failure));
    assert_eq!(
        states(&actor),
        vec![ActionState::Started, ActionState::EvaluationComplete(EvaluationResult::Success)]
    );
}

#[test]
fn update_cost_reaches_the_action_or_says_no() {
    let mut actor = lumberjack();
    assert!(actor.update_cost(CHOP_TREE, 50));
    assert_eq!(actor.actions()[CHOP_TREE].cost, 50);
    assert_eq!(actor.actions()[GET_AXE].cost, 1);
    assert!(!actor.update_cost(2, 1));
    plan_for(&mut actor, all_succeed);
    assert_eq!(actor.plan().cost, 51);
}

#[test]
fn update_goal_changes_what_the_agent_wants() {
    let mut actor = lumberjack();
    actor.update_goal(HAS_WOOD, false);
    assert_eq!(actor.goal().get(HAS_WOOD), Some(false));
    plan_for(&mut actor, all_succeed);
    assert_eq!(actor.state(), ActorState::CompletedPlan);
}

#[test]
fn reset_drops_the_plan_and_calls_off_the_actions() {
    let mut actor = lumberjack().with_action(collect_wood().with_cost(30));
    plan_for(&mut actor, all_succeed);
    assert_eq!(actor.plan().steps, vec![GET_AXE, CHOP_TREE]);
    actor.observe();
    assert!(actor.report(GET_AXE, ActionState::Executing));
    assert_eq!(
        states(&actor),
        vec![
            ActionState::Executing,
            ActionState::EvaluationComplete(EvaluationResult::Success),
            ActionState::Idle
        ]
    );
    actor.reset();
    assert_eq!(actor.state(), ActorState::RequiresPlan);
    assert!(actor.plan().steps.is_empty());
    assert_eq!(actor.plan().cost, 0);
    assert_eq!(actor.current_step(), None);
    assert_eq!(
        states(&actor),
        vec![ActionState::NotInPlan(true), ActionState::NotInPlan(true), ActionState::Idle]
    );
}

#[test]
fn reset_during_evaluation_marks_what_was_not_evaluated() {
    let mut actor = lumberjack();
    assert!(actor.request());
    assert!(actor.report(GET_AXE, ActionState::EvaluationComplete(EvaluationResult::Failure)));
    actor.reset();
    assert_eq!(actor.state(), ActorState::RequiresPlan);
    assert_eq!(states(&actor), vec![ActionState::NotInPlan(true), ActionState::NotInPlan(false)]);
}

#[test]
fn a_request_waits_until_left_out_actions_rest() {
    let mut actor = lumberjack();
    plan_for(&mut actor, |_| EvaluationResult::Failure);
    assert_eq!(actor.state(), ActorState::Infeasible);
    actor.reset();
    assert_eq!(states(&actor), vec![ActionState::NotInPlan(true), ActionState::NotInPlan(true)]);
    assert!(!actor.request());
    assert_eq!(actor.state(), ActorState::RequiresPlan);
    assert_eq!(states(&actor), vec![ActionState::NotInPlan(true), ActionState::NotInPlan(true)]);
    actor.observe();
    assert_eq!(states(&actor), vec![ActionState::Idle, ActionState::Idle]);
    assert!(actor.request());
    assert_eq!(states(&actor), vec![ActionState::Evaluate, ActionState::Evaluate]);
}

#[test]
fn after_a_completed_plan_and_a_reset_a_fresh_plan_is_made() {
    let plugin = GoapPlugin;
    let mut pool = ResourcePool::new();
    let mut actors = vec![lumberjack()];
    let mut seen = vec![actors[0].state()];
    let mut plans: Vec<(Vec<usize>, u64)> = Vec::new();
    let mut rounds = 0;
    for _ in 0..40 {
        host_actions(&mut actors[0], all_succeed);
        plugin.run(GoapSet::Actions, &mut actors, &mut pool);
        if actors[0].state() == ActorState::CompletedPlan {
            assert_eq!(actors[0].current_state().get(HAS_WOOD), Some(true));
            rounds += 1;
            if rounds == 2 {
                break;
            }
            actors[0].update_current_state(HAS_WOOD, false);
            actors[0].reset();
        }
        let before = actors[0].state();
        plugin.run(GoapSet::Actors, &mut actors, &mut pool);
        if before != ActorState::PerformingPlan && actors[0].state() == ActorState::PerformingPlan {
            plans.push((actors[0].plan().steps.clone(), actors[0].plan().cost));
        }
        if seen.last() != Some(&actors[0].state()) {
            seen.push(actors[0].state());
        }
    }
    assert_eq!(rounds, 2);
    assert_eq!(plans, vec![(vec![GET_AXE, CHOP_TREE], 6), (vec![CHOP_TREE], 5)]);
    assert_eq!(
        seen,
        vec![
            ActorState::RequiresPlan,
            ActorState::Planning,
            ActorState::PerformingPlan,
            ActorState::Planning,
            ActorState::PerformingPlan,
        ]
    );
    assert_eq!(actors[0].current_state().get(HAS_AXE), Some(true));
}

#[test]
fn the_engine_takes_each_agent_through_its_own_plan() {
    let plugin = GoapPlugin;
    let mut pool = ResourcePool::new();
    let mut actors = vec![
        lumberjack(),
        Actor::build(8).with_goal(HAS_WOOD, true),
        Actor::build(9)
            .with_initial_condition(HAS_WOOD, false)
            .with_goal(HAS_WOOD, true)
            .with_action(collect_wood()),
    ];
    for _ in 0..12 {
        for actor in actors.iter_mut() {
            host_actions(actor, all_succeed);
        }
        plugin.run(GoapSet::Actions, &mut actors, &mut pool);
        plugin.run(GoapSet::Actors, &mut actors, &mut pool);
    }
    assert_eq!(actors[0].state(), ActorState::CompletedPlan);
    assert_eq!(actors[1].state(), ActorState::Infeasible);
    assert_eq!(actors[2].state(), ActorState::CompletedPlan);
    assert_eq!(actors[2].current_state().get(HAS_WOOD), Some(true));
    assert_eq!(actors[2].current_state().get(HAS_AXE), None);
}

#[test]
fn an_agent_without_actions_is_planned_for_in_the_tick_of_its_request() {
    let plugin = GoapPlugin;
    let mut pool = ResourcePool::new();
    let mut actors = vec![Actor::build(1).with_goal(HAS_WOOD, true), Actor::build(2)];
    plugin.run(GoapSet::Actors, &mut actors, &mut pool);
    assert_eq!(actors[0].state(), ActorState::Infeasible);
    assert_eq!(actors[1].state(), ActorState::CompletedPlan);
}

#[test]
fn collect_takes_up_requests_and_names_the_waiting_agents() {
    let mut waiting = lumberjack();
    assert!(waiting.request());
    let mut busy = lumberjack();
    plan_for(&mut busy, all_succeed);
    let mut actors = vec![lumberjack(), busy, waiting, lumberjack()];
    let dispatcher = PlanDispatcher::collect(&mut actors);
    assert_eq!(
        dispatcher.pending(),
        &vec![
            RequestPlanEvent { actor: 0 },
            RequestPlanEvent { actor: 2 },
            RequestPlanEvent { actor: 3 }
        ]
    );
    assert_eq!(actors[0].state(), ActorState::Planning);
    assert_eq!(actors[1].state(), ActorState::PerformingPlan);
    assert_eq!(actors[2].state(), ActorState::Planning);
    assert_eq!(actors[3].state(), ActorState::Planning);
}

#[test]
fn dispatch_plans_for_the_agents_that_were_named() {
    let ready = || {
        let mut actor = lumberjack();
        assert!(actor.request());
        host_actions(&mut actor, all_succeed);
        actor
    };
    let mut actors = vec![ready(), ready(), ready()];
    let mut dispatcher = PlanDispatcher::new();
    assert!(dispatcher.pending().is_empty());
    dispatcher.submit(RequestPlanEvent { actor: 2 });
    dispatcher.submit(RequestPlanEvent { actor: 9 });
    dispatcher.submit(RequestPlanEvent { actor: 0 });
    dispatcher.submit(RequestPlanEvent { actor: 2 });
    assert_eq!(dispatcher.pending().len(), 4);
    dispatcher.dispatch(&mut actors);
    assert_eq!(actors[0].state(), ActorState::PerformingPlan);
    assert_eq!(actors[1].state(), ActorState::Planning);
    assert_eq!(actors[2].state(), ActorState::PerformingPlan);
    assert_eq!(actors[2].plan().steps, vec![GET_AXE, CHOP_TREE]);
    assert_eq!(actors[2].current_step(), Some(GET_AXE));
}

#[test]
fn a_pool_hands_out_each_slot_once() {
    let mut pool = ResourcePool::new();
    assert_eq!(pool.len(), 0);
    let first = Claim { actor: 7, action: 0 };
    let second = Claim { actor: 8, action: 0 };
    assert_eq!(pool.claim_any(first), None);
    assert!(!pool.claim(0, first));
    assert_eq!(pool.add(), 0);
    assert_eq!(pool.add(), 1);
    assert_eq!(pool.len(), 2);
    assert_eq!(pool.owner(0), None);
    assert!(pool.claim(1, first));
    assert!(!pool.claim(1, second));
    assert_eq!(pool.owner(1), Some(first));
    assert_eq!(pool.claim_any(second), Some(0));
    assert_eq!(pool.owner(0), Some(second));
    assert_eq!(pool.claim_any(first), None);
    assert!(!pool.claim(2, first));
    assert_eq!(pool.owner(2), None);
    pool.release(1);
    pool.release(5);
    assert_eq!(pool.owner(1), None);
    assert_eq!(pool.owner(0), Some(second));
    assert_eq!(pool.claim_any(first), Some(1));
}

#[test]
fn what_a_left_out_action_reserved_goes_back() {
    let plugin = GoapPlugin;
    let mut pool = ResourcePool::new();
    for _ in 0..4 {
        pool.add();
    }
    let mut actors = vec![lumberjack().with_action(collect_wood()), lumberjack()];
    plugin.run(GoapSet::Actors, &mut actors, &mut pool);
    // While they evaluate, both agents' axe actions reserve an axe each, and
    // the first agent's wood action reserves a cart.
    assert!(pool.claim(0, Claim { actor: 7, action: GET_AXE }));
    assert!(pool.claim(1, Claim { actor: 7, action: 2 }));
    assert!(pool.claim(2, Claim { actor: 7, action: GET_AXE }));
    assert!(pool.claim(3, Claim { actor: 9, action: GET_AXE }));
    for actor in actors.iter_mut() {
        host_actions(actor, all_succeed);
    }
    plugin.run(GoapSet::Actions, &mut actors, &mut pool);
    assert_eq!(pool.owner(0), Some(Claim { actor: 7, action: GET_AXE }));
    plugin.run(GoapSet::Actors, &mut actors, &mut pool);
    // Both agents have id 7; the claim of agent 9 belongs to neither.
    assert_eq!(actors[0].plan().steps, vec![2]);
    assert_eq!(actors[1].plan().steps, vec![GET_AXE, CHOP_TREE]);
    assert_eq!(states(&actors[0])[GET_AXE], ActionState::NotInPlan(true));
    assert_eq!(pool.owner(0), Some(Claim { actor: 7, action: GET_AXE }));
    plugin.run(GoapSet::Actions, &mut actors, &mut pool);
    assert_eq!(pool.owner(0), None);
    assert_eq!(pool.owner(1), Some(Claim { actor: 7, action: 2 }));
    assert_eq!(pool.owner(2), None);
    assert_eq!(pool.owner(3), Some(Claim { actor: 9, action: GET_AXE }));
    assert_eq!(states(&actors[0])[GET_AXE], ActionState::Idle);
}

#[test]
fn take_back_frees_only_what_evaluated_and_left_out_actions_hold() {
    let mut actor = lumberjack().with_action(collect_wood());
    let mut pool = ResourcePool::new();
    for _ in 0..5 {
        pool.add();
    }
    assert!(pool.claim(0, Claim { actor: 7, action: GET_AXE }));
    assert!(pool.claim(1, Claim { actor: 7, action: CHOP_TREE }));
    assert!(pool.claim(2, Claim { actor: 7, action: 2 }));
    assert!(pool.claim(3, Claim { actor: 7, action: 3 }));
    assert!(pool.claim(4, Claim { actor: 6, action: GET_AXE }));
    assert!(actor.request());
    assert!(actor.report(GET_AXE, ActionState::EvaluationComplete(EvaluationResult::Success)));
    actor.reset();
    assert_eq!(
        states(&actor),
        vec![
            ActionState::NotInPlan(true),
            ActionState::NotInPlan(false),
            ActionState::NotInPlan(false)
        ]
    );
    pool.take_back(&actor);
    assert_eq!(pool.owner(0), None);
    assert_eq!(pool.owner(1), Some(Claim { actor: 7, action: CHOP_TREE }));
    assert_eq!(pool.owner(2), Some(Claim { actor: 7, action: 2 }));
    assert_eq!(pool.owner(3), Some(Claim { actor: 7, action: 3 }));
    assert_eq!(pool.owner(4), Some(Claim { actor: 6, action: GET_AXE }));
}

#[test]
fn an_action_that_serves_twice_is_started_twice() {
    let lamp = Condition { id: 1 };
    let walked = Condition { id: 2 };
    let switch =
        Action::build(0).with_precondition(lamp, false).with_postcondition(lamp, true).with_cost(1);
    let walk = Action::build(1)
        .with_precondition(lamp, true)
        .with_postcondition(walked, true)
        .with_postcondition(lamp, false)
        .with_cost(2);
    let mut actor = Actor::build(1)
        .with_initial_condition(lamp, false)
        .with_initial_condition(walked, false)
        .with_goal(lamp, true)
        .with_goal(walked, true)
        .with_action(switch)
        .with_action(walk);
    plan_for(&mut actor, all_succeed);
    assert_eq!(actor.plan().steps, vec![0, 1, 0]);
    assert_eq!(actor.plan().cost, 4);
    let mut started = Vec::new();
    for _ in 0..12 {
        if let Some(step) = actor.current_step() {
            if actor.actions()[step].state == ActionState::Started {
                started.push(step);
            }
        }
        host_actions(&mut actor, all_succeed);
        actor.observe();
    }
    assert_eq!(started, vec![0, 1, 0]);
    assert_eq!(actor.state(), ActorState::CompletedPlan);
    assert_eq!(actor.current_state().get(lamp), Some(true));
    assert_eq!(actor.current_state().get(walked), Some(true));
}

#[test]
fn run_names_the_agents_whose_state_changed() {
    let plugin = GoapPlugin;
    let mut pool = ResourcePool::new();
    let mut busy = lumberjack();
    plan_for(&mut busy, all_succeed);
    let mut actors = vec![lumberjack(), busy, Actor::build(3), lumberjack()];
    assert_eq!(plugin.run(GoapSet::Actions, &mut actors, &mut pool), Vec::<usize>::new());
    assert_eq!(plugin.run(GoapSet::Actors, &mut actors, &mut pool), vec![0, 2, 3]);
    assert_eq!(actors[0].state(), ActorState::Planning);
    assert_eq!(actors[1].state(), ActorState::PerformingPlan);
    assert_eq!(actors[2].state(), ActorState::CompletedPlan);
    assert_eq!(actors[3].state(), ActorState::Planning);
    run_to(&mut actors[1], GET_AXE, ActionState::Failure);
    assert_eq!(plugin.run(GoapSet::Actions, &mut actors, &mut pool), vec![1]);
    assert_eq!(actors[1].state(), ActorState::PlanFailed);
    assert_eq!(plugin.run(GoapSet::Actors, &mut actors, &mut pool), Vec::<usize>::new());
}
