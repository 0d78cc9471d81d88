use task_graph::{Action, ExecutionState, ExtendedContext, GraphError, TaskGraph, TaskReport};

#[derive(Debug, Clone, Copy, PartialEq)]
enum TestTask {
    A,
    B,
    C,
    D,
    Failing,
}

type Condition = Box<dyn Fn(&ExtendedContext) -> bool>;

fn id(task: TestTask) -> String {
    match task {
        TestTask::A => "TaskA".to_string(),
        TestTask::B => "TaskB".to_string(),
        TestTask::C => "TaskC".to_string(),
        TestTask::D => "TaskD".to_string(),
        TestTask::Failing => "Failing".to_string(),
    }
}

fn push_order(ctx: &mut ExtendedContext, name: &str) {
    if let Some(order) = ctx.get_mut::<Vec<String>>("execution_order") {
        order.push(name.to_string());
    }
}

fn run(task: TestTask, ctx: &mut ExtendedContext) -> Result<(), GraphError> {
    match task {
        TestTask::A => {
            ctx.set("counter", 1i32);
            if let Some(order) = ctx.get_mut::<Vec<String>>("execution_order") {
                order.push("A".to_string());
            } else {
                ctx.set("execution_order", vec!["A".to_string()]);
            }
            ctx.set("task_a_completed", true);
            ctx.set("task_a_value", 1i32);
        }
        TestTask::B => {
            let current = ctx.get::<i32>("counter").copied().unwrap_or(0);
            ctx.set("counter", current + 10);
            let has_order = ctx.contains_key("execution_order");
            if has_order {
                push_order(ctx, "B");
            } else {
                ctx.set("execution_order", vec!["B".to_string()]);
            }
            if ctx.get::<bool>("task_a_completed").is_some() {
                ctx.set("task_b_saw_a", true);
            }
        }
        TestTask::C => {
            let current = ctx.get::<i32>("counter").copied().unwrap_or(0);
            ctx.set("counter", current + 100);
            push_order(ctx, "C");
            ctx.set("task_c_completed", true);
        }
        TestTask::D => {
            let current = ctx.get::<i32>("counter").copied().unwrap_or(0);
            ctx.set("counter", current * 2);
            push_order(ctx, "D");
            ctx.set("task_d_completed", true);
        }
        TestTask::Failing => {
            return Err(GraphError::TaskExecutionFailed("boom".to_string()));
        }
    }
    Ok(())
}

fn error_text(e: &GraphError) -> String {
    match e {
        GraphError::CycleDetected => "Cycle detected in graph".to_string(),
        GraphError::TaskExecutionFailed(s) => format!("Task execution failed: {}", s),
        GraphError::TaskNotFound(s) => format!("Task not found: {}", s),
        GraphError::InvalidCondition => "Invalid condition".to_string(),
    }
}

/// Runs the graph to the end, one batch of ready tasks at a time.
fn execute(graph: &TaskGraph<TestTask, Condition>, ctx: &mut ExtendedContext) -> Result<Vec<Vec<String>>, GraphError> {
    let mut state = ExecutionState::new(graph);
    let mut batches = Vec::new();
    loop {
        match graph.next_action(&state) {
            Action::Finished => return Ok(batches),
            Action::Run(ids) => {
                let mut results = Vec::new();
                for task_id in &ids {
                    let task = *graph.task(task_id).unwrap();
                    results.push((task_id.clone(), run(task, ctx)));
                }
                let mut reports = Vec::new();
                for (task_id, result) in results {
                    let outcome = match result {
                        Ok(()) => Ok(graph.conditions(&task_id).iter().map(|c| c(ctx)).collect()),
                        Err(e) => Err(error_text(&e)),
                    };
                    reports.push(TaskReport { task_id, outcome });
                }
                batches.push(ids);
                graph.apply_results(&mut state, &reports)?;
            }
        }
    }
}

fn edge(graph: &mut TaskGraph<TestTask, Condition>, from: TestTask, to: TestTask) -> Result<(), GraphError> {
    graph.add_edge(id(from), from, id(to), to)
}

fn cond_edge(
    graph: &mut TaskGraph<TestTask, Condition>,
    from: TestTask,
    to: TestTask,
    condition: Condition,
    else_task: Option<TestTask>,
) -> Result<(), GraphError> {
    graph.add_cond_edge(id(from), from, id(to), to, condition, else_task.map(|t| (id(t), t)))
}

#[test]
fn test_simple_chain() {
    let mut graph: TaskGraph<TestTask, Condition> = TaskGraph::new();
    edge(&mut graph, TestTask::A, TestTask::B).unwrap();
    let mut ctx = ExtendedContext::new();
    execute(&graph, &mut ctx).unwrap();

    let final_value = ctx.get::<i32>("counter").copied().unwrap_or(0);
    assert_eq!(final_value, 11);
    let order = ctx.get::<Vec<String>>("execution_order").unwrap();
    assert_eq!(order, &vec!["A", "B"]);
    assert_eq!(ctx.get::<bool>("task_a_completed"), Some(&true));
    assert_eq!(ctx.get::<bool>("task_b_saw_a"), Some(&true));
}

#[test]
fn test_parallel_execution() {
    let mut graph: TaskGraph<TestTask, Condition> = TaskGraph::new();
    edge(&mut graph, TestTask::A, TestTask::B).unwrap();
    edge(&mut graph, TestTask::A, TestTask::C).unwrap();
    let mut ctx = ExtendedContext::new();
    let batches = execute(&graph, &mut ctx).unwrap();

    let final_value = ctx.get::<i32>("counter").copied().unwrap_or(0);
    assert_eq!(final_value, 111);
    let order = ctx.get::<Vec<String>>("execution_order").unwrap();
    assert_eq!(order.len(), 3);
    assert_eq!(order[0], "A");
    assert!(order.contains(&"B".to_string()));
    assert!(order.contains(&"C".to_string()));
    // B and C are handed out together, after A.
    assert_eq!(batches, vec![vec!["TaskA".to_string()], vec!["TaskB".to_string(), "TaskC".to_string()]]);
}

#[test]
fn test_conditional_edge() {
    let mut graph: TaskGraph<TestTask, Condition> = TaskGraph::new();
    let condition: Condition =
        Box::new(|context: &ExtendedContext| context.get::<i32>("counter").copied().unwrap_or(0) > 5);
    edge(&mut graph, TestTask::A, TestTask::B).unwrap();
    cond_edge(&mut graph, TestTask::B, TestTask::C, condition, Some(TestTask::D)).unwrap();
    let mut ctx = ExtendedContext::new();
    execute(&graph, &mut ctx).unwrap();

    let final_value = ctx.get::<i32>("counter").copied().unwrap_or(0);
    assert_eq!(final_value, 111);
    let order = ctx.get::<Vec<String>>("execution_order").unwrap();
    assert_eq!(order, &vec!["A", "B", "C"]);
}

#[test]
fn test_conditional_with_store_access() {
    let mut graph: TaskGraph<TestTask, Condition> = TaskGraph::new();
    let condition: Condition =
        Box::new(|context: &ExtendedContext| context.get::<bool>("task_a_completed").is_some());
    edge(&mut graph, TestTask::A, TestTask::B).unwrap();
    cond_edge(&mut graph, TestTask::B, TestTask::C, condition, Some(TestTask::D)).unwrap();
    let mut ctx = ExtendedContext::new();
    execute(&graph, &mut ctx).unwrap();

    assert_eq!(ctx.get::<bool>("task_b_saw_a"), Some(&true));
    assert_eq!(ctx.get::<bool>("task_c_completed"), Some(&true));
    assert_eq!(ctx.get::<bool>("task_d_completed"), None);
}

#[test]
fn test_cycle_detection() {
    let mut graph: TaskGraph<TestTask, Condition> = TaskGraph::new();
    edge(&mut graph, TestTask::A, TestTask::B).unwrap();
    edge(&mut graph, TestTask::B, TestTask::C).unwrap();
    let result = edge(&mut graph, TestTask::C, TestTask::A);
    assert!(matches!(result, Err(GraphError::CycleDetected)));
}

#[test]
fn conditional_edge_false_runs_else_task() {
    let mut graph: TaskGraph<TestTask, Condition> = TaskGraph::new();
    let condition: Condition =
        Box::new(|context: &ExtendedContext| context.get::<i32>("counter").copied().unwrap_or(0) > 50);
    edge(&mut graph, TestTask::A, TestTask::B).unwrap();
    cond_edge(&mut graph, TestTask::B, TestTask::C, condition, Some(TestTask::D)).unwrap();
    let mut ctx = ExtendedContext::new();
    execute(&graph, &mut ctx).unwrap();

    // 1 + 10 = 11, then doubled by D.
    assert_eq!(ctx.get::<i32>("counter"), Some(&22));
    let order = ctx.get::<Vec<String>>("execution_order").unwrap();
    assert_eq!(order, &vec!["A", "B", "D"]);
    assert_eq!(ctx.get::<bool>("task_c_completed"), None);
}

#[test]
fn conditional_edge_false_without_else_skips_target_and_its_dependents() {
    let mut graph: TaskGraph<TestTask, Condition> = TaskGraph::new();
    let condition: Condition = Box::new(|_context: &ExtendedContext| false);
    cond_edge(&mut graph, TestTask::A, TestTask::B, condition, None).unwrap();
    edge(&mut graph, TestTask::B, TestTask::C).unwrap();
    let mut ctx = ExtendedContext::new();
    let batches = execute(&graph, &mut ctx).unwrap();
    assert_eq!(batches, vec![vec!["TaskA".to_string()]]);
    assert_eq!(ctx.get::<Vec<String>>("execution_order").unwrap(), &vec!["A"]);
}

#[test]
fn failing_task_stops_execution_with_its_name() {
    let mut graph: TaskGraph<TestTask, Condition> = TaskGraph::new();
    edge(&mut graph, TestTask::A, TestTask::Failing).unwrap();
    edge(&mut graph, TestTask::Failing, TestTask::C).unwrap();
    let mut ctx = ExtendedContext::new();
    let result = execute(&graph, &mut ctx);
    match result {
        Err(GraphError::TaskExecutionFailed(m)) => {
            assert_eq!(m, "Task Failing failed: Task execution failed: boom");
        }
        other => panic!("unexpected result {:?}", other),
    }
    assert_eq!(ctx.get::<bool>("task_c_completed"), None);
}

#[test]
fn self_edge_is_refused_and_the_graph_is_unchanged() {
    let mut graph: TaskGraph<TestTask, Condition> = TaskGraph::new();
    let result = edge(&mut graph, TestTask::A, TestTask::A);
    assert!(matches!(result, Err(GraphError::CycleDetected)));
    // The task stays, the edge does not: the task waits for nothing.
    assert_eq!(graph.len(), 1);
    let state = ExecutionState::new(&graph);
    match graph.next_action(&state) {
        Action::Run(ids) => assert_eq!(ids, vec!["TaskA".to_string()]),
        Action::Finished => panic!("nothing to run"),
    }
}

#[test]
fn refused_edge_leaves_the_graph_as_it_was() {
    let mut graph: TaskGraph<TestTask, Condition> = TaskGraph::new();
    edge(&mut graph, TestTask::A, TestTask::B).unwrap();
    assert!(matches!(edge(&mut graph, TestTask::B, TestTask::A), Err(GraphError::CycleDetected)));
    // The refused edge left nothing behind, so an edge that closes no cycle
    // is accepted, and A waits for nothing.
    assert!(edge(&mut graph, TestTask::A, TestTask::C).is_ok());
    assert!(edge(&mut graph, TestTask::C, TestTask::D).is_ok());
    let mut ctx = ExtendedContext::new();
    let batches = execute(&graph, &mut ctx).unwrap();
    assert_eq!(
        batches,
        vec![
            vec!["TaskA".to_string()],
            vec!["TaskB".to_string(), "TaskC".to_string()],
            vec!["TaskD".to_string()],
        ]
    );
}

#[test]
fn cycle_through_else_task_is_refused() {
    let mut graph: TaskGraph<TestTask, Condition> = TaskGraph::new();
    cond_edge(&mut graph, TestTask::A, TestTask::B, Box::new(|_c: &ExtendedContext| true), Some(TestTask::C)).unwrap();
    // C waits for A, so A may not wait for C.
    assert!(matches!(edge(&mut graph, TestTask::C, TestTask::A), Err(GraphError::CycleDetected)));
    assert!(matches!(
        cond_edge(&mut graph, TestTask::D, TestTask::B, Box::new(|_c: &ExtendedContext| true), Some(TestTask::A)),
        Ok(())
    ));
    assert!(matches!(
        cond_edge(&mut graph, TestTask::C, TestTask::D, Box::new(|_c: &ExtendedContext| true), Some(TestTask::Failing)),
        Err(GraphError::CycleDetected)
    ));
}

#[test]
fn refused_conditional_edge_leaves_dependencies_as_they_were() {
    let mut graph: TaskGraph<TestTask, Condition> = TaskGraph::new();
    edge(&mut graph, TestTask::A, TestTask::B).unwrap();
    let refused =
        cond_edge(&mut graph, TestTask::B, TestTask::A, Box::new(|_c: &ExtendedContext| true), Some(TestTask::D));
    assert!(matches!(refused, Err(GraphError::CycleDetected)));
    // D was added as a task, but waits for nothing; A still waits for nothing.
    assert_eq!(graph.len(), 3);
    assert!(edge(&mut graph, TestTask::A, TestTask::C).is_ok());
    assert_eq!(graph.conditions("TaskB").len(), 0);
    let mut ctx = ExtendedContext::new();
    let batches = execute(&graph, &mut ctx).unwrap();
    assert_eq!(
        batches,
        vec![
            vec!["TaskA".to_string(), "TaskD".to_string()],
            vec!["TaskB".to_string(), "TaskC".to_string()],
        ]
    );
}

#[test]
fn add_task_keeps_the_first_task_of_an_id() {
    let mut graph: TaskGraph<TestTask, Condition> = TaskGraph::new();
    graph.add_task("x".to_string(), TestTask::A);
    graph.add_task("x".to_string(), TestTask::B);
    graph.add_task("y".to_string(), TestTask::C);
    assert_eq!(graph.len(), 2);
    assert_eq!(graph.task("x"), Some(&TestTask::A));
    assert_eq!(graph.task("y"), Some(&TestTask::C));
    assert_eq!(graph.task("z"), None);
}

#[test]
fn diamond_runs_in_three_batches() {
    let mut graph: TaskGraph<TestTask, Condition> = TaskGraph::new();
    edge(&mut graph, TestTask::A, TestTask::B).unwrap();
    edge(&mut graph, TestTask::A, TestTask::C).unwrap();
    edge(&mut graph, TestTask::B, TestTask::D).unwrap();
    edge(&mut graph, TestTask::C, TestTask::D).unwrap();
    let mut ctx = ExtendedContext::new();
    let batches = execute(&graph, &mut ctx).unwrap();
    assert_eq!(
        batches,
        vec![
            vec!["TaskA".to_string()],
            vec!["TaskB".to_string(), "TaskC".to_string()],
            vec!["TaskD".to_string()],
        ]
    );
    // (1 + 10 + 100) * 2
    assert_eq!(ctx.get::<i32>("counter"), Some(&222));
}

#[test]
fn conditions_lists_only_conditional_edges() {
    let mut graph: TaskGraph<TestTask, Condition> = TaskGraph::new();
    edge(&mut graph, TestTask::A, TestTask::B).unwrap();
    cond_edge(&mut graph, TestTask::A, TestTask::C, Box::new(|_c: &ExtendedContext| true), None).unwrap();
    cond_edge(&mut graph, TestTask::A, TestTask::D, Box::new(|_c: &ExtendedContext| false), None).unwrap();
    let ctx = ExtendedContext::new();
    let outcomes: Vec<bool> = graph.conditions("TaskA").iter().map(|c| c(&ctx)).collect();
    assert_eq!(outcomes, vec![true, false]);
    assert_eq!(graph.conditions("TaskB").len(), 0);
    assert_eq!(graph.conditions("nope").len(), 0);
}

#[test]
fn completed_tasks_are_not_handed_out_again() {
    let mut graph: TaskGraph<TestTask, Condition> = TaskGraph::new();
    edge(&mut graph, TestTask::A, TestTask::B).unwrap();
    let mut state = ExecutionState::new(&graph);
    match graph.next_action(&state) {
        Action::Run(ids) => assert_eq!(ids, vec!["TaskA".to_string()]),
        Action::Finished => panic!("nothing to run"),
    }
    let reports = vec![TaskReport { task_id: "TaskA".to_string(), outcome: Ok(vec![]) }];
    graph.apply_results(&mut state, &reports).unwrap();
    match graph.next_action(&state) {
        Action::Run(ids) => assert_eq!(ids, vec!["TaskB".to_string()]),
        Action::Finished => panic!("nothing to run"),
    }
    let reports = vec![TaskReport { task_id: "TaskB".to_string(), outcome: Ok(vec![]) }];
    graph.apply_results(&mut state, &reports).unwrap();
    assert!(matches!(graph.next_action(&state), Action::Finished));
}

#[test]
fn edge_is_refused_only_when_target_reaches_source() {
    let mut graph: TaskGraph<TestTask, Condition> = TaskGraph::new();
    edge(&mut graph, TestTask::A, TestTask::B).unwrap();
    edge(&mut graph, TestTask::B, TestTask::C).unwrap();
    // C does not reach A, so a shortcut from A to C is accepted.
    assert!(edge(&mut graph, TestTask::A, TestTask::C).is_ok());
    // D is new and reaches nothing.
    assert!(edge(&mut graph, TestTask::C, TestTask::D).is_ok());
    // B reaches D, so an edge from D to B closes a cycle.
    assert!(matches!(edge(&mut graph, TestTask::D, TestTask::B), Err(GraphError::CycleDetected)));
}

#[test]
fn else_task_waits_for_the_source_of_the_conditional_edge() {
    let mut graph: TaskGraph<TestTask, Condition> = TaskGraph::new();
    cond_edge(&mut graph, TestTask::A, TestTask::B, Box::new(|_c: &ExtendedContext| true), Some(TestTask::D)).unwrap();
    let mut state = ExecutionState::new(&graph);
    match graph.next_action(&state) {
        Action::Run(ids) => assert_eq!(ids, vec!["TaskA".to_string()]),
        Action::Finished => panic!("nothing to run"),
    }
    let reports = vec![TaskReport { task_id: "TaskA".to_string(), outcome: Ok(vec![true]) }];
    graph.apply_results(&mut state, &reports).unwrap();
    // The condition held: B runs and D is blocked.
    match graph.next_action(&state) {
        Action::Run(ids) => assert_eq!(ids, vec!["TaskB".to_string()]),
        Action::Finished => panic!("nothing to run"),
    }
}

#[test]
fn each_task_runs_once_within_as_many_rounds_as_tasks() {
    let mut graph: TaskGraph<TestTask, Condition> = TaskGraph::new();
    edge(&mut graph, TestTask::A, TestTask::B).unwrap();
    edge(&mut graph, TestTask::A, TestTask::C).unwrap();
    edge(&mut graph, TestTask::B, TestTask::C).unwrap();
    edge(&mut graph, TestTask::C, TestTask::D).unwrap();
    edge(&mut graph, TestTask::A, TestTask::D).unwrap();
    let mut ctx = ExtendedContext::new();
    let batches = execute(&graph, &mut ctx).unwrap();
    assert!(batches.len() <= graph.len());
    let mut all: Vec<String> = batches.concat();
    assert_eq!(all.len(), graph.len());
    all.sort();
    all.dedup();
    assert_eq!(all.len(), graph.len());
    assert_eq!(
        ctx.get::<Vec<String>>("execution_order"),
        Some(&vec!["A".to_string(), "B".to_string(), "C".to_string(), "D".to_string()])
    );
}

#[test]
fn branch_not_taken_never_runs() {
    // The condition fails: the else task runs, the target and what waits
    // for it never do.
    let mut graph: TaskGraph<TestTask, Condition> = TaskGraph::new();
    cond_edge(&mut graph, TestTask::A, TestTask::B, Box::new(|_c: &ExtendedContext| false), Some(TestTask::C)).unwrap();
    edge(&mut graph, TestTask::B, TestTask::D).unwrap();
    let mut ctx = ExtendedContext::new();
    let batches = execute(&graph, &mut ctx).unwrap();
    assert_eq!(batches, vec![vec!["TaskA".to_string()], vec!["TaskC".to_string()]]);
    assert_eq!(ctx.get::<bool>("task_b_saw_a"), None);
    assert_eq!(ctx.get::<bool>("task_d_completed"), None);

    // The condition holds: the target and what waits for it run, the else
    // task never does.
    let mut graph: TaskGraph<TestTask, Condition> = TaskGraph::new();
    cond_edge(&mut graph, TestTask::A, TestTask::B, Box::new(|_c: &ExtendedContext| true), Some(TestTask::C)).unwrap();
    edge(&mut graph, TestTask::B, TestTask::D).unwrap();
    let mut ctx = ExtendedContext::new();
    let batches = execute(&graph, &mut ctx).unwrap();
    assert_eq!(
        batches,
        vec![vec!["TaskA".to_string()], vec!["TaskB".to_string()], vec!["TaskD".to_string()]]
    );
    assert_eq!(ctx.get::<bool>("task_c_completed"), None);
}

#[test]
fn no_task_is_handed_out_after_a_failure() {
    let mut graph: TaskGraph<TestTask, Condition> = TaskGraph::new();
    edge(&mut graph, TestTask::A, TestTask::B).unwrap();
    edge(&mut graph, TestTask::C, TestTask::D).unwrap();
    let mut state = ExecutionState::new(&graph);
    match graph.next_action(&state) {
        Action::Run(ids) => assert_eq!(ids, vec!["TaskA".to_string(), "TaskC".to_string()]),
        Action::Finished => panic!("nothing to run"),
    }
    let reports = vec![
        TaskReport { task_id: "TaskA".to_string(), outcome: Err("boom".to_string()) },
        TaskReport { task_id: "TaskC".to_string(), outcome: Ok(vec![]) },
    ];
    match graph.apply_results(&mut state, &reports) {
        Err(GraphError::TaskExecutionFailed(m)) => assert_eq!(m, "Task TaskA failed: boom"),
        other => panic!("unexpected result {:?}", other),
    }
    // C's success came after the failure and was not taken; D would wait
    // for it anyway, and nothing runs any more.
    assert!(matches!(graph.next_action(&state), Action::Finished));
}
