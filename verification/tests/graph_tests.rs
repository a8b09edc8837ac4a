use gaia::graph::{calculate_task_positions, graph_edges, status_class, try_task_positions};
use gaia::pipeline::Pipeline;
use gaia::task::{Task, TaskOutput, TaskStatus};

fn pos(p: &Pipeline, id: &str) -> (i32, i32) {
    *calculate_task_positions(p).get(id).unwrap()
}

#[test]
fn test_positions_of_a_chain() {
    let mut p = Pipeline::new("p", "Chain");
    p.add_task(Task::new("a", "A")).unwrap();
    p.add_task(Task::new("b", "B").add_dependency("a")).unwrap();
    p.add_task(Task::new("c", "C").add_dependency("b")).unwrap();
    let positions = calculate_task_positions(&p);
    assert_eq!(positions.len(), 3);
    assert_eq!(pos(&p, "a"), (0, 240));
    assert_eq!(pos(&p, "b"), (200, 240));
    assert_eq!(pos(&p, "c"), (400, 240));
}

#[test]
fn test_positions_spread_within_a_level() {
    let mut p = Pipeline::new("p", "Fan in");
    p.add_task(Task::new("a", "A")).unwrap();
    p.add_task(Task::new("b", "B")).unwrap();
    p.add_task(Task::new("c", "C").add_dependency("a").add_dependency("b")).unwrap();
    assert_eq!(pos(&p, "a"), (0, 180));
    assert_eq!(pos(&p, "b"), (0, 300));
    assert_eq!(pos(&p, "c"), (200, 240));
}

#[test]
fn test_positions_of_a_wide_level_start_above_the_drawing() {
    let mut p = Pipeline::new("p", "Wide");
    for i in 0..7 {
        p.add_task(Task::new(&format!("t{}", i), "T")).unwrap();
    }
    assert_eq!(pos(&p, "t0"), (0, -120));
    assert_eq!(pos(&p, "t6"), (0, 600));
}

#[test]
fn test_positions_skip_dependencies_already_walked() {
    // The walk from c enters b, then a, then d; d's dependency a was already
    // entered by this walk, so d gets level 0.
    let mut p = Pipeline::new("p", "Diamond");
    p.add_task(Task::new("c", "C").add_dependency("b").add_dependency("d")).unwrap();
    p.add_task(Task::new("b", "B").add_dependency("a")).unwrap();
    p.add_task(Task::new("d", "D").add_dependency("a")).unwrap();
    p.add_task(Task::new("a", "A")).unwrap();
    assert_eq!(pos(&p, "a"), (0, 180));
    assert_eq!(pos(&p, "d"), (0, 300));
    assert_eq!(pos(&p, "b"), (200, 240));
    assert_eq!(pos(&p, "c"), (400, 240));
}

#[test]
fn test_positions_with_a_cycle_and_a_missing_dependency() {
    let mut p = Pipeline::new("p", "Odd");
    p.add_task(Task::new("a", "A").add_dependency("b")).unwrap();
    p.add_task(Task::new("b", "B").add_dependency("a")).unwrap();
    p.add_task(Task::new("x", "X").add_dependency("missing")).unwrap();
    let positions = calculate_task_positions(&p);
    assert_eq!(positions.len(), 3);
    assert!(positions.get("missing").is_none());
    assert_eq!(pos(&p, "b"), (0, 240));
    assert_eq!(pos(&p, "a"), (200, 180));
    assert_eq!(pos(&p, "x"), (200, 300));
}

#[test]
fn test_positions_of_an_empty_pipeline() {
    let p = Pipeline::new("p", "Empty");
    assert!(calculate_task_positions(&p).is_empty());
}

#[test]
fn test_positions_are_distinct_and_roots_stand_first() {
    let mut p = Pipeline::new("p", "Mixed");
    p.add_task(Task::new("r1", "R1")).unwrap();
    p.add_task(Task::new("r2", "R2")).unwrap();
    p.add_task(Task::new("m", "M").add_dependency("r1")).unwrap();
    p.add_task(Task::new("n", "N").add_dependency("r2").add_dependency("m")).unwrap();
    let positions = calculate_task_positions(&p);
    let ids = ["r1", "r2", "m", "n"];
    for a in ids.iter() {
        for b in ids.iter() {
            if a != b {
                assert_ne!(positions.get(a).unwrap(), positions.get(b).unwrap());
            }
        }
    }
    assert_eq!(positions.get("r1").unwrap().0, 0);
    assert_eq!(positions.get("r2").unwrap().0, 0);
}

#[test]
fn test_graph_edges() {
    let mut p = Pipeline::new("p", "Chain");
    p.add_task(Task::new("a", "A")).unwrap();
    p.add_task(Task::new("b", "B").add_dependency("a").add_dependency("ghost")).unwrap();
    let positions = calculate_task_positions(&p);
    let edges = graph_edges(&p, &positions);
    assert_eq!(edges.len(), 1);
    let e = &edges[0];
    assert_eq!(e.task_id, "b");
    assert_eq!(e.dep_id, "a");
    assert_eq!((e.from_x, e.from_y, e.to_x, e.to_y), (75, 270, 200, 270));
}

#[test]
fn test_status_class() {
    assert_eq!(status_class(&TaskStatus::Pending), "bg-gray-100 border-gray-300");
    assert_eq!(status_class(&TaskStatus::Running), "bg-blue-100 border-blue-300");
    assert_eq!(status_class(&TaskStatus::Completed(TaskOutput::Unit)), "bg-green-100 border-green-300");
    assert_eq!(status_class(&TaskStatus::Failed), "bg-red-100 border-red-300");
    assert_eq!(status_class(&TaskStatus::Cancelled), "bg-yellow-100 border-yellow-300");
    assert_eq!(status_class(&TaskStatus::TimedOut), "bg-orange-100 border-orange-300");
    assert_eq!(status_class(&TaskStatus::Skipped), "bg-purple-100 border-purple-300");
}

#[test]
fn test_try_task_positions_matches_calculate() {
    let mut p = Pipeline::new("p", "P");
    p.add_task(Task::new("a", "A")).unwrap();
    p.add_task(Task::new("b", "B").add_dependency("a")).unwrap();
    p.add_task(Task::new("c", "C").add_dependency("a")).unwrap();
    let tried = try_task_positions(&p).expect("a small pipeline fits");
    assert_eq!(tried.get("a"), Some(&(0, 240)));
    assert_eq!(tried.get("b"), Some(&(200, 180)));
    assert_eq!(tried.get("c"), Some(&(200, 300)));
    let positions = calculate_task_positions(&p);
    for id in ["a", "b", "c"] {
        assert_eq!(tried.get(id), positions.get(id));
    }
}
