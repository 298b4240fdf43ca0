use bevy_goap::planning::find_plan;
use bevy_goap::{Action, ActionState, Condition, EvaluationResult, WorldState};

fn c(id: u64) -> Condition {
    Condition { id }
}

const HAS_AXE: Condition = Condition { id: 1 };
const HAS_WOOD: Condition = Condition { id: 2 };

fn state_of(entries: &[(Condition, bool)]) -> WorldState {
    let mut state = WorldState::new();
    for (id, value) in entries {
        state.set(*id, *value);
    }
    state
}

fn verdict(action: Action, result: EvaluationResult) -> Action {
    let mut action = action;
    action.state = ActionState::EvaluationComplete(result);
    action
}

fn ready(action: Action) -> Action {
    verdict(action, EvaluationResult::Success)
}

fn get_axe() -> Action {
    Action::build(100)
        .with_precondition(HAS_AXE, false)
        .with_postcondition(HAS_AXE, true)
        .with_cost(1)
}

fn chop_tree() -> Action {
    Action::build(101)
        .with_precondition(HAS_AXE, true)
        .with_postcondition(HAS_WOOD, true)
        .with_cost(5)
}

fn collect_wood() -> Action {
    Action::build(102)
        .with_precondition(HAS_WOOD, false)
        .with_postcondition(HAS_WOOD, true)
        .with_cost(1)
}

fn lumberjack_start() -> WorldState {
    state_of(&[(HAS_AXE, false), (HAS_WOOD, false)])
}

fn wants_wood() -> WorldState {
    state_of(&[(HAS_WOOD, true)])
}

#[test]
fn axe_then_tree_gives_wood_at_cost_six() {
    let actions = vec![ready(get_axe()), ready(chop_tree())];
    let plan = find_plan(&lumberjack_start(), &wants_wood(), &actions).expect("a plan");
    assert_eq!(plan.steps, vec![0, 1]);
    assert_eq!(plan.cost, 6);
}

#[test]
fn the_order_of_the_actions_does_not_change_the_way() {
    let actions = vec![ready(chop_tree()), ready(get_axe())];
    let plan = find_plan(&lumberjack_start(), &wants_wood(), &actions).expect("a plan");
    assert_eq!(plan.steps, vec![1, 0]);
    assert_eq!(plan.cost, 6);
}

#[test]
fn collecting_wood_beats_the_two_step_way() {
    let actions = vec![ready(get_axe()), ready(chop_tree()), ready(collect_wood())];
    let plan = find_plan(&lumberjack_start(), &wants_wood(), &actions).expect("a plan");
    assert_eq!(plan.steps, vec![2]);
    assert_eq!(plan.cost, 1);
}

#[test]
fn without_an_axe_to_get_there_is_no_plan() {
    let actions = vec![verdict(get_axe(), EvaluationResult::Failure), ready(chop_tree())];
    assert!(find_plan(&lumberjack_start(), &wants_wood(), &actions).is_none());
}

#[test]
fn a_goal_that_holds_needs_no_step() {
    let current = state_of(&[(HAS_AXE, false), (HAS_WOOD, true)]);
    let actions = vec![ready(get_axe()), ready(chop_tree()), ready(collect_wood())];
    let plan = find_plan(&current, &wants_wood(), &actions).expect("a plan");
    assert!(plan.steps.is_empty());
    assert_eq!(plan.cost, 0);
}

#[test]
fn the_empty_goal_holds_everywhere() {
    let plan = find_plan(&WorldState::new(), &WorldState::new(), &Vec::new()).expect("a plan");
    assert!(plan.steps.is_empty());
    assert_eq!(plan.cost, 0);
}

#[test]
fn without_actions_an_open_goal_is_out_of_reach() {
    assert!(find_plan(&lumberjack_start(), &wants_wood(), &Vec::new()).is_none());
}

#[test]
fn a_goal_on_an_unknown_condition_is_open() {
    let current = WorldState::new();
    let goal = state_of(&[(HAS_WOOD, false)]);
    assert!(find_plan(&current, &goal, &Vec::new()).is_none());
    let learn = ready(Action::build(1).with_postcondition(HAS_WOOD, false).with_cost(3));
    let plan = find_plan(&current, &goal, &vec![learn]).expect("a plan");
    assert_eq!(plan.steps, vec![0]);
    assert_eq!(plan.cost, 3);
}

#[test]
fn only_evaluated_successes_take_part() {
    for state in [
        ActionState::Idle,
        ActionState::Evaluate,
        ActionState::EvaluationComplete(EvaluationResult::Failure),
        ActionState::NotInPlan(true),
        ActionState::NotInPlan(false),
        ActionState::Started,
        ActionState::Executing,
        ActionState::Complete,
        ActionState::Failure,
    ] {
        let mut action = collect_wood();
        action.state = state;
        assert!(find_plan(&lumberjack_start(), &wants_wood(), &vec![action]).is_none());
    }
}

#[test]
fn what_an_excluded_action_says_has_no_part_in_the_plan() {
    let with_cheap = vec![
        ready(get_axe()),
        verdict(collect_wood(), EvaluationResult::Failure),
        ready(chop_tree()),
    ];
    let with_other = vec![
        ready(get_axe()),
        verdict(
            Action::build(7).with_postcondition(HAS_AXE, true).with_postcondition(HAS_WOOD, true),
            EvaluationResult::Failure,
        ),
        ready(chop_tree()),
    ];
    let a = find_plan(&lumberjack_start(), &wants_wood(), &with_cheap).expect("a plan");
    let b = find_plan(&lumberjack_start(), &wants_wood(), &with_other).expect("a plan");
    assert_eq!(a.steps, vec![0, 2]);
    assert_eq!(a.steps, b.steps);
    assert_eq!(a.cost, b.cost);
}

#[test]
fn the_same_problem_gives_the_same_plan() {
    let actions = vec![ready(get_axe()), ready(chop_tree()), ready(collect_wood())];
    let first = find_plan(&lumberjack_start(), &wants_wood(), &actions).expect("a plan");
    let second = find_plan(&lumberjack_start(), &wants_wood(), &actions).expect("a plan");
    assert_eq!(first.steps, second.steps);
    assert_eq!(first.cost, second.cost);
    let reordered = state_of(&[(HAS_WOOD, false), (HAS_AXE, false)]);
    let third = find_plan(&reordered, &wants_wood(), &actions).expect("a plan");
    assert_eq!(first.steps, third.steps);
    assert_eq!(first.cost, third.cost);
}

#[test]
fn of_two_equally_cheap_steps_the_earlier_action_wins() {
    let twin = || ready(collect_wood());
    let actions = vec![twin(), twin()];
    let plan = find_plan(&lumberjack_start(), &wants_wood(), &actions).expect("a plan");
    assert_eq!(plan.steps, vec![0]);
    assert_eq!(plan.cost, 1);
}

#[test]
fn of_two_equally_cheap_ways_the_one_met_first_wins() {
    // Two ways of cost 4 lead to the goal: by 0 then 2, and by 1 then 3. The
    // state behind action 1 is cheaper than the one behind action 0, so it is
    // expanded first and its successor enters the frontier first.
    let a = c(10);
    let b = c(11);
    let goal_id = c(12);
    let actions = vec![
        ready(Action::build(0).with_postcondition(a, true).with_cost(3)),
        ready(Action::build(1).with_postcondition(b, true).with_cost(1)),
        ready(
            Action::build(2)
                .with_precondition(a, true)
                .with_postcondition(goal_id, true)
                .with_cost(1),
        ),
        ready(
            Action::build(3)
                .with_precondition(b, true)
                .with_postcondition(goal_id, true)
                .with_cost(3),
        ),
    ];
    let plan =
        find_plan(&WorldState::new(), &state_of(&[(goal_id, true)]), &actions).expect("a plan");
    assert_eq!(plan.cost, 4);
    assert_eq!(plan.steps, vec![1, 3]);
}

#[test]
fn a_longer_way_wins_when_it_is_cheaper() {
    let actions = vec![
        ready(Action::build(0).with_postcondition(HAS_WOOD, true).with_cost(10)),
        ready(Action::build(1).with_postcondition(c(3), true).with_cost(2)),
        ready(
            Action::build(2)
                .with_precondition(c(3), true)
                .with_postcondition(c(4), true)
                .with_cost(2),
        ),
        ready(
            Action::build(3)
                .with_precondition(c(4), true)
                .with_postcondition(HAS_WOOD, true)
                .with_cost(2),
        ),
    ];
    let plan = find_plan(&WorldState::new(), &wants_wood(), &actions).expect("a plan");
    assert_eq!(plan.steps, vec![1, 2, 3]);
    assert_eq!(plan.cost, 6);
}

#[test]
fn actions_that_undo_each_other_do_not_hang_the_search() {
    let on = ready(Action::build(0).with_precondition(c(1), false).with_postcondition(c(1), true));
    let off = ready(Action::build(1).with_precondition(c(1), true).with_postcondition(c(1), false));
    let current = state_of(&[(c(1), false)]);
    assert!(find_plan(&current, &state_of(&[(c(2), true)]), &vec![on, off]).is_none());
}

#[test]
fn free_actions_give_a_plan_at_no_cost() {
    let on = ready(Action::build(0).with_precondition(c(1), false).with_postcondition(c(1), true));
    let off = ready(Action::build(1).with_precondition(c(1), true).with_postcondition(c(1), false));
    let done = ready(Action::build(2).with_precondition(c(1), true).with_postcondition(c(2), true));
    let current = state_of(&[(c(1), false)]);
    let goal = state_of(&[(c(2), true)]);
    let plan = find_plan(&current, &goal, &vec![off, on, done]).expect("a plan");
    assert_eq!(plan.steps, vec![1, 2]);
    assert_eq!(plan.cost, 0);
}

#[test]
fn an_action_may_serve_twice_in_one_plan() {
    // The switch flips the lamp; the walk needs the lamp on and turns it off;
    // the goal needs the walk done and the lamp on.
    let lamp = c(1);
    let walked = c(2);
    let switch = ready(
        Action::build(0).with_precondition(lamp, false).with_postcondition(lamp, true).with_cost(1),
    );
    let walk = ready(
        Action::build(1)
            .with_precondition(lamp, true)
            .with_postcondition(walked, true)
            .with_postcondition(lamp, false)
            .with_cost(2),
    );
    let current = state_of(&[(lamp, false), (walked, false)]);
    let goal = state_of(&[(lamp, true), (walked, true)]);
    let plan = find_plan(&current, &goal, &vec![switch, walk]).expect("a plan");
    assert_eq!(plan.steps, vec![0, 1, 0]);
    assert_eq!(plan.cost, 4);
}

#[test]
fn the_cost_is_read_when_the_plan_is_made() {
    let mut expensive_axe = ready(get_axe());
    expensive_axe.update_cost(20);
    let actions = vec![
        expensive_axe,
        ready(chop_tree()),
        ready(collect_wood().with_cost(24)),
    ];
    let plan = find_plan(&lumberjack_start(), &wants_wood(), &actions).expect("a plan");
    assert_eq!(plan.steps, vec![2]);
    assert_eq!(plan.cost, 24);
}

#[test]
fn a_plan_may_cost_as_much_as_a_u64_holds() {
    let actions = vec![
        ready(get_axe().with_cost(u64::MAX - 5)),
        ready(chop_tree()),
    ];
    let plan = find_plan(&lumberjack_start(), &wants_wood(), &actions).expect("a plan");
    assert_eq!(plan.steps, vec![0, 1]);
    assert_eq!(plan.cost, u64::MAX);
}

#[test]
fn a_way_whose_cost_no_u64_holds_is_no_plan() {
    let actions = vec![
        ready(get_axe().with_cost(u64::MAX - 4)),
        ready(chop_tree()),
    ];
    assert!(find_plan(&lumberjack_start(), &wants_wood(), &actions).is_none());
}

#[test]
fn a_precondition_on_an_unknown_condition_blocks_the_action() {
    let actions = vec![ready(collect_wood())];
    assert!(find_plan(&WorldState::new(), &wants_wood(), &actions).is_none());
}
