use nameless_locksmith::history::{history_is_readable, input_is_readable};
use nameless_locksmith::rules::rules_are_readable;
use nameless_locksmith::{
    build_matrix, goal, keycap, matching_locks, parse_catalog, parse_history, parse_start,
    pick_locks, sel_index, solve, step_from_lock, I18n, Lock, StepState,
};

fn rules(arr: &[&str]) -> Vec<String> {
    arr.iter().map(|s| s.to_string()).collect()
}

fn lock(name: &str) -> Lock {
    Lock { name: name.to_string(), rules: vec![], start: None, solution: vec![] }
}

// ---------- stepping through a solution ----------

#[test]
fn step_state_expands_groups_into_clicks() {
    let mat = build_matrix(&rules(&["-", "-"])).unwrap();
    let s = StepState::new("L".to_string(), mat, vec![6, 2], vec![(1, 'D', 2), (2, 'A', 2)]);
    assert_eq!(s.clicks, vec![(1, 'D'), (1, 'D'), (2, 'A'), (2, 'A')]);
    assert_eq!(s.idx, 0);
    assert_eq!(s.name, "L");
}

#[test]
fn positions_follow_the_clicks() {
    let mat = build_matrix(&rules(&["2r", "-"])).unwrap();
    let mut s = StepState::new("L".to_string(), mat, vec![5, 5], vec![(1, 'D', 1), (2, 'A', 2)]);
    assert_eq!(s.positions(), vec![5, 5]);
    s.idx = 1;
    assert_eq!(s.positions(), vec![4, 4]);
    s.idx = 2;
    assert_eq!(s.positions(), vec![4, 5]);
    s.idx = 3;
    assert_eq!(s.positions(), vec![4, 6]);
}

#[test]
fn current_group_tracks_the_next_click() {
    let mat = build_matrix(&rules(&["-", "-"])).unwrap();
    let mut s = StepState::new("L".to_string(), mat, vec![4, 4], vec![(1, 'D', 2), (2, 'A', 1)]);
    let expected = [Some(0), Some(0), Some(1), None];
    for (i, e) in expected.iter().enumerate() {
        s.idx = i;
        assert_eq!(s.current_group(), *e);
    }
    assert_eq!(sel_index(s.current_group(), &s.groups), 1);
    assert_eq!(sel_index(Some(0), &s.groups), 0);
    assert_eq!(sel_index(None, &[]), 0);
}

#[test]
fn walking_the_solvers_solution_stays_on_the_track() {
    let r = rules(&["3r, 6l", "-", "1r, 4l, 6r", "2r, 5r, 6l", "-", "3l"]);
    let mat = build_matrix(&r).unwrap();
    let start = vec![5, 3, 6, 7, 2, 7];
    let sol = solve(&start, &mat).unwrap();
    let mut s = StepState::new("walk".to_string(), mat, start, sol.steps.clone());
    assert_eq!(s.clicks.len(), sol.total);
    for k in 1..=s.clicks.len() {
        s.idx = k;
        assert!(s.positions().iter().all(|&p| (1..=7).contains(&p)));
    }
    assert_eq!(s.positions(), goal(6));
    assert_eq!(s.current_group(), None);
}

#[test]
fn step_from_lock_needs_start_steps_and_rules() {
    let mut l = Lock {
        name: "Gate".to_string(),
        rules: rules(&["2r", "-"]),
        start: None,
        solution: vec!["1: 1x D".to_string()],
    };
    assert_eq!(step_from_lock(&l).err().unwrap(), "no start position recorded");
    l.start = Some(vec![5, 5]);
    let s = step_from_lock(&l).ok().unwrap();
    assert_eq!(s.groups, vec![(1, 'D', 1)]);
    assert_eq!(s.start, vec![5, 5]);
    l.solution = vec!["already open".to_string()];
    assert_eq!(step_from_lock(&l).err().unwrap(), "no step-by-step solution recorded");
    l.solution = vec!["1: 1x D".to_string()];
    l.rules = rules(&["2q", "-"]);
    assert_eq!(
        step_from_lock(&l).err().unwrap(),
        "unknown direction 'q' in rule 1 (only r/l supported)"
    );
}

#[test]
fn parse_start_wants_six_numbers() {
    assert_eq!(parse_start("5, 3, 6, 7, 2, 7"), Some(vec![5, 3, 6, 7, 2, 7]));
    assert_eq!(parse_start("[1 2 3 4 5 -6]"), Some(vec![1, 2, 3, 4, 5, -6]));
    assert_eq!(parse_start("1,2,3,4,5"), None);
    assert_eq!(parse_start("1,2,3,4,5,6,7"), None);
    assert_eq!(parse_start("1,2,3,4,5,6-,7"), Some(vec![1, 2, 3, 4, 5, 7]));
    assert_eq!(parse_start("x1y2z3+4/5;6"), Some(vec![1, 2, 3, 4, 5, 6]));
}

#[test]
fn keycap_frames_the_key() {
    let k = keycap('D');
    assert_eq!(k[0], "\u{256d}\u{2500}\u{2500}\u{2500}\u{256e}");
    assert_eq!(k[1], "\u{2502} D \u{2502}");
    assert_eq!(k[2], "\u{2570}\u{2500}\u{2500}\u{2500}\u{256f}");
}

// ---------- catalogs ----------

#[test]
fn catalog_lines_and_lookup() {
    let c = parse_catalog("# comment\n tab.browse = Browse \n\nbroken line\nk = a=b\nk = later\n");
    assert!(!c.is_empty());
    assert_eq!(c.get("tab.browse"), Some("Browse".to_string()));
    assert_eq!(c.get("k"), Some("later".to_string()));
    assert_eq!(c.get("broken line"), None);
    assert!(!c.contains_key("# comment"));
    assert!(parse_catalog("\n# only\n").is_empty());
    assert_eq!(parse_catalog("a = x=y").get("a"), Some("x=y".to_string()));
}

#[test]
fn i18n_falls_back_to_english_then_the_key() {
    let t = I18n::new("tab.browse = Przeglądaj\n", "tab.browse = Browse\ntab.solve = Solve\n");
    assert_eq!(t.get("tab.browse"), "Przeglądaj");
    assert_eq!(t.get("tab.solve"), "Solve");
    assert_eq!(t.get("tab.step"), "tab.step");
}

// ---------- finding locks ----------

#[test]
fn matching_ignores_case() {
    let locks = vec![lock("Second chest in the TOWER"), lock("Cave"), lock("Tower door"), lock("ÄRGER")];
    assert_eq!(matching_locks(&locks, "tower"), vec![0, 2]);
    assert_eq!(matching_locks(&locks, ""), vec![0, 1, 2, 3]);
    assert_eq!(matching_locks(&locks, "ärg"), vec![3]);
    assert_eq!(matching_locks(&locks, "vault"), Vec::<usize>::new());
}

#[test]
fn pick_by_position_or_name() {
    let locks = parse_history("## One\n## Two 2\n## Three\n");
    assert_eq!(pick_locks(&locks, "2"), vec![1]);
    assert_eq!(pick_locks(&locks, "+3"), vec![2]);
    assert_eq!(pick_locks(&locks, "4"), Vec::<usize>::new());
    assert_eq!(pick_locks(&locks, "0"), Vec::<usize>::new());
    assert_eq!(pick_locks(&locks, "t"), vec![1, 2]);
}

// ---------- readability checks ----------

#[test]
fn readability_checks_find_reversed_brackets() {
    assert!(history_is_readable("## A\n**Start:** `[1, 2]`\n"));
    assert!(!history_is_readable("## A\n**Start:** ] [1, 2]\n"));
    // only the first **Start line of a section is read
    assert!(history_is_readable("## A\n**Start:** `[1]`\n**Start:** ] [\n"));
    // text before the first heading is no section
    assert!(history_is_readable("**Start:** ] [\n## A\n"));
    assert!(input_is_readable("1: -\n2: -\n[4, 4]\n"));
    assert!(!input_is_readable("1: -\n2: -\n] [4, 4]\n"));
    assert!(input_is_readable("Start: ] [\n# ] [\n"));
}

#[test]
fn rule_readability_check() {
    assert!(rules_are_readable(&rules(&["3r", "-"])));
    assert!(rules_are_readable(&rules(&["9x", "2\u{e9}"])));
    assert!(!rules_are_readable(&rules(&["2\u{e9}", "-"])));
    assert!(!rules_are_readable(&rules(&["2r", "1r, 2\u{e9}"])));
}
