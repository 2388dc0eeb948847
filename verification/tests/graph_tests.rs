use agentx::chain::longest_chain;
use agentx::closure::get_dependency_closure;
use agentx::commands::Commands;
use agentx::config::Config;
use agentx::cycles::find_cycles;
use agentx::errors::TrackerError;
use agentx::graph::can_reach;
use agentx::issue::{Issue, IssueMetadata, IssueWithId, Priority, Status};
use agentx::layers::compute_graph_layers;
use agentx::storage::Storage;

fn rec(id: u32, depends_on: Vec<u32>, blocks: Vec<u32>) -> IssueWithId {
    IssueWithId {
        id,
        issue: Issue {
            metadata: IssueMetadata {
                title: format!("issue {id}"),
                priority: Priority::Medium,
                status: Status::NotStarted,
                created: 0,
                tags: Vec::new(),
                files: Vec::new(),
                effort: None,
                context: None,
                started: None,
                blocked_reason: None,
                closed: None,
                depends_on,
                blocks,
            },
            body: String::new(),
        },
    }
}

fn commands_with(open: Vec<IssueWithId>) -> Commands {
    let mut storage = Storage::new(String::from("."));
    storage.set_working_set(open, Vec::new());
    Commands::new(storage, Config::default())
}

#[test]
fn self_dependency_is_rejected() {
    // An issue can never be made to depend on itself.
    let mut commands = commands_with(vec![rec(1, vec![], vec![])]);
    assert!(commands.would_create_cycle(1, 1));
    let r = commands.depend_data("1", &vec![String::from("1")], &vec![]);
    assert_eq!(r.unwrap_err(), TrackerError::CycleDetected(1, 1));
    assert!(commands.storage.open_issues[0].issue.metadata.depends_on.is_empty());
}

#[test]
fn transitive_cycle_is_rejected_and_nothing_changes() {
    // 1 depends on 2, 2 depends on 3; asking 3 to depend on 1 closes a
    // loop and must leave every edge list as it was.
    let mut commands = commands_with(vec![
        rec(1, vec![2], vec![]),
        rec(2, vec![3], vec![1]),
        rec(3, vec![], vec![2]),
    ]);
    let r = commands.depend_data("3", &vec![String::from("1")], &vec![]);
    assert_eq!(r.unwrap_err(), TrackerError::CycleDetected(3, 1));
    assert_eq!(commands.storage.open_issues[0].issue.metadata.depends_on, vec![2]);
    assert_eq!(commands.storage.open_issues[2].issue.metadata.depends_on, Vec::<u32>::new());
    assert_eq!(commands.storage.open_issues[2].issue.metadata.blocks, vec![2]);
}

#[test]
fn depend_keeps_the_reverse_lists_in_step() {
    // After adds and removes, D sits in S.depends_on exactly when S sits
    // in D.blocks.
    let mut commands = commands_with(vec![
        rec(1, vec![], vec![]),
        rec(2, vec![], vec![]),
        rec(3, vec![], vec![]),
    ]);
    let r = commands
        .depend_data("1", &vec![String::from("2"), String::from("3")], &vec![])
        .unwrap();
    assert_eq!(r.depends_on, vec![2, 3]);
    let open = &commands.storage.open_issues;
    assert_eq!(open[1].issue.metadata.blocks, vec![1]);
    assert_eq!(open[2].issue.metadata.blocks, vec![1]);
    let r2 = commands
        .depend_data("1", &vec![], &vec![String::from("2")])
        .unwrap();
    assert_eq!(r2.depends_on, vec![3]);
    let open = &commands.storage.open_issues;
    assert_eq!(open[0].issue.metadata.depends_on, vec![3]);
    assert_eq!(open[1].issue.metadata.blocks, Vec::<u32>::new());
    assert_eq!(open[2].issue.metadata.blocks, vec![1]);
}

#[test]
fn redundant_adds_and_removes_change_nothing() {
    // Adding an edge that is already there, or removing one that is not,
    // succeeds and leaves the lists alone.
    let mut commands = commands_with(vec![
        rec(1, vec![2], vec![]),
        rec(2, vec![], vec![1]),
        rec(3, vec![], vec![]),
    ]);
    let r = commands
        .depend_data("1", &vec![String::from("2")], &vec![String::from("3")])
        .unwrap();
    assert_eq!(r.depends_on, vec![2]);
    let open = &commands.storage.open_issues;
    assert_eq!(open[0].issue.metadata.depends_on, vec![2]);
    assert_eq!(open[1].issue.metadata.blocks, vec![1]);
    assert_eq!(open[2].issue.metadata.blocks, Vec::<u32>::new());
}

#[test]
fn empty_edge_requests_are_malformed() {
    let mut commands = commands_with(vec![rec(1, vec![], vec![])]);
    let r = commands.depend_data("1", &vec![], &vec![]);
    assert_eq!(r.unwrap_err(), TrackerError::MalformedRequest);
}

#[test]
fn missing_issues_are_reported() {
    let mut commands = commands_with(vec![rec(1, vec![], vec![])]);
    let r = commands.depend_data("1", &vec![String::from("7")], &vec![]);
    assert_eq!(r.unwrap_err(), TrackerError::NotFound(7));
    let r2 = commands.depend_data("9", &vec![String::from("1")], &vec![]);
    assert_eq!(r2.unwrap_err(), TrackerError::NotFound(9));
    let r3 = commands.depend_data("one", &vec![String::from("1")], &vec![]);
    assert_eq!(r3.unwrap_err(), TrackerError::UnknownRef);
}

#[test]
fn a_three_cycle_is_one_component() {
    // Edges 1 -> 2, 2 -> 3, 3 -> 1 form exactly one component {1, 2, 3};
    // an acyclic working set yields nothing.
    let cyclic = vec![
        rec(1, vec![2], vec![]),
        rec(2, vec![3], vec![]),
        rec(3, vec![1], vec![]),
    ];
    assert_eq!(find_cycles(&cyclic), vec![vec![1, 2, 3]]);
    let acyclic = vec![
        rec(1, vec![2], vec![]),
        rec(2, vec![3], vec![]),
        rec(3, vec![], vec![]),
    ];
    assert_eq!(find_cycles(&acyclic), Vec::<Vec<u32>>::new());
}

#[test]
fn two_separate_cycles_are_two_components() {
    let issues = vec![
        rec(1, vec![2], vec![]),
        rec(2, vec![1], vec![]),
        rec(3, vec![4], vec![]),
        rec(4, vec![3], vec![]),
        rec(5, vec![1], vec![]),
    ];
    assert_eq!(find_cycles(&issues), vec![vec![1, 2], vec![3, 4]]);
}

#[test]
fn the_longest_chain_spans_three_issues() {
    // 2 has no dependencies, 1 depends on 2, 3 depends on 1: the longest
    // chain covers all three.
    let issues = vec![
        rec(1, vec![2], vec![]),
        rec(2, vec![], vec![]),
        rec(3, vec![1], vec![]),
    ];
    let chain = longest_chain(&issues);
    assert_eq!(chain.len(), 3);
    assert_eq!(chain, vec![2, 1, 3]);
}

#[test]
fn chains_survive_cycles() {
    let issues = vec![
        rec(1, vec![2], vec![]),
        rec(2, vec![1], vec![]),
        rec(3, vec![1], vec![]),
    ];
    let chain = longest_chain(&issues);
    assert_eq!(chain.len(), 3);
    assert!(longest_chain(&Vec::new()).is_empty());
}

#[test]
fn layers_follow_the_prerequisites() {
    // A depends on B, B depends on C: C lands in the first layer, B in
    // the second, A in the third.
    let a = 10;
    let b = 20;
    let c = 30;
    let issues = vec![
        rec(a, vec![b], vec![]),
        rec(b, vec![c], vec![]),
        rec(c, vec![], vec![]),
    ];
    let layers = compute_graph_layers(&vec![a, b, c], &issues);
    assert_eq!(layers, vec![vec![c], vec![b], vec![a]]);
}

#[test]
fn layers_dump_a_cycle_into_one_final_layer() {
    let issues = vec![
        rec(1, vec![2], vec![]),
        rec(2, vec![1], vec![]),
        rec(3, vec![], vec![]),
    ];
    let layers = compute_graph_layers(&vec![1, 2, 3], &issues);
    assert_eq!(layers, vec![vec![3], vec![1, 2]]);
}

#[test]
fn closure_covers_the_diamond_from_the_bottom() {
    // A depends on B and C; B and C depend on D. From D everything is
    // connected; from B only A, B and D.
    let a = 1;
    let b = 2;
    let c = 3;
    let d = 4;
    let issues = vec![
        rec(a, vec![b, c], vec![]),
        rec(b, vec![d], vec![a]),
        rec(c, vec![d], vec![a]),
        rec(d, vec![], vec![b, c]),
    ];
    assert_eq!(get_dependency_closure(d, &issues), vec![a, b, c, d]);
    assert_eq!(get_dependency_closure(b, &issues), vec![a, b, d]);
}

#[test]
fn reachability_follows_the_forward_edges_only() {
    let issues = vec![
        rec(1, vec![2], vec![]),
        rec(2, vec![3], vec![]),
        rec(3, vec![], vec![]),
    ];
    assert!(can_reach(&issues, 1, 3));
    assert!(!can_reach(&issues, 3, 1));
    assert!(can_reach(&issues, 2, 2));
}

#[test]
fn cyclic_inputs_terminate_everywhere() {
    // A working set that is already cyclic still gets a well-formed
    // answer from every analysis.
    let issues = vec![
        rec(1, vec![2], vec![]),
        rec(2, vec![3], vec![]),
        rec(3, vec![1, 4], vec![]),
        rec(4, vec![], vec![]),
    ];
    assert_eq!(find_cycles(&issues), vec![vec![1, 2, 3]]);
    assert_eq!(longest_chain(&issues).len(), 4);
    let layers = compute_graph_layers(&vec![1, 2, 3, 4], &issues);
    assert_eq!(layers, vec![vec![4], vec![1, 2, 3]]);
    assert_eq!(get_dependency_closure(1, &issues), vec![1, 2, 3, 4]);
}

#[test]
fn dependencies_report_both_directions() {
    let commands = commands_with(vec![
        rec(1, vec![2], vec![]),
        rec(2, vec![], vec![1]),
        rec(3, vec![2], vec![]),
    ]);
    let r = commands.dependencies_data("2").unwrap();
    assert_eq!(r.bug_num, 2);
    assert!(r.depends_on.is_empty());
    assert_eq!(r.blocks, vec![1, 3]);
}

#[test]
fn the_graph_view_scopes_to_the_focus() {
    let commands = commands_with(vec![
        rec(1, vec![2, 3], vec![]),
        rec(2, vec![4], vec![1]),
        rec(3, vec![4], vec![1]),
        rec(4, vec![], vec![2, 3]),
        rec(9, vec![], vec![]),
    ]);
    let (ids, layers) = commands.deps_graph_data(None).unwrap();
    assert_eq!(ids, vec![1, 2, 3, 4, 9]);
    assert_eq!(layers, vec![vec![4, 9], vec![2, 3], vec![1]]);
    let (ids, layers) = commands.deps_graph_data(Some("2")).unwrap();
    assert_eq!(ids, vec![1, 2, 4]);
    assert_eq!(layers, vec![vec![4], vec![2], vec![1]]);
}
