use nameless_locksmith::screens::{
    browse_key, browse_lines, filter_line, language_key, plate_line, run_solve, shown_locks,
    solve_key, solve_result_lines, solved_name, step_key, step_view, BrowseAction, BrowseState,
    Key, LangAction, Mark, SolveAction, SolveForm, SolveResult, Tint,
};
use nameless_locksmith::{
    apply_click, build_matrix, parse_history, remove_lock, solution_lines, solve, Lock, StepState,
};

fn rules(arr: &[&str]) -> Vec<String> {
    arr.iter().map(|s| s.to_string()).collect()
}

fn lock(name: &str, solved: bool) -> Lock {
    let solution = if solved { vec!["1. Tumbler 1 [D] x1".to_string()] } else { vec![] };
    Lock { name: name.to_string(), rules: vec![], start: None, solution }
}

fn three_locks() -> Vec<Lock> {
    vec![lock("Alpha", false), lock("beta", true), lock("Gamma", false)]
}

fn state(filter: &str, filtering: bool, confirm: bool, selected: usize) -> BrowseState {
    BrowseState {
        filter: filter.chars().collect(),
        filtering,
        confirm_delete: confirm,
        selected,
    }
}

fn text(v: &[char]) -> String {
    v.iter().collect()
}

// ---------- browse keys ----------

#[test]
fn browse_moves_the_selection_round_the_list() {
    let locks = three_locks();
    let (s, a) = browse_key(&state("", false, false, 0), Key::Char('j'), &locks);
    assert_eq!((s.selected, a), (1, BrowseAction::Nothing));
    let (s, _) = browse_key(&state("", false, false, 2), Key::Down, &locks);
    assert_eq!(s.selected, 0);
    let (s, _) = browse_key(&state("", false, false, 0), Key::Char('k'), &locks);
    assert_eq!(s.selected, 2);
    let (s, _) = browse_key(&state("", false, false, 2), Key::Up, &locks);
    assert_eq!(s.selected, 1);
}

#[test]
fn browse_quits_switches_and_starts_the_filter() {
    let locks = three_locks();
    assert_eq!(browse_key(&state("", false, false, 0), Key::Char('q'), &locks).1, BrowseAction::Quit);
    assert_eq!(browse_key(&state("", false, false, 0), Key::Esc, &locks).1, BrowseAction::Quit);
    assert_eq!(browse_key(&state("", false, false, 0), Key::Tab, &locks).1, BrowseAction::ToSolve);
    let (s, a) = browse_key(&state("", false, false, 0), Key::Char('/'), &locks);
    assert!(s.filtering);
    assert_eq!(a, BrowseAction::StartFilter);
    let (s, a) = browse_key(&state("", false, false, 1), Key::Char('x'), &locks);
    assert_eq!((s.selected, s.filtering, a), (1, false, BrowseAction::Nothing));
}

#[test]
fn browse_enter_walks_the_selected_lock() {
    let locks = three_locks();
    assert_eq!(browse_key(&state("", false, false, 1), Key::Enter, &locks).1, BrowseAction::Walk(1));
    // with a filter, the row maps back to the lock's position in the history
    assert_eq!(browse_key(&state("ga", false, false, 0), Key::Enter, &locks).1, BrowseAction::Walk(2));
    // nothing shown: nothing to walk
    assert_eq!(browse_key(&state("zz", false, false, 0), Key::Enter, &locks).1, BrowseAction::Nothing);
}

#[test]
fn browse_delete_asks_then_deletes_or_cancels() {
    let locks = three_locks();
    let (s, a) = browse_key(&state("", false, false, 2), Key::Char('d'), &locks);
    assert!(s.confirm_delete);
    assert_eq!(a, BrowseAction::AskDelete(2));
    let (s2, a2) = browse_key(&s, Key::Char('y'), &locks);
    assert!(!s2.confirm_delete);
    assert_eq!(a2, BrowseAction::Delete(2));
    let (_, a3) = browse_key(&s, Key::Char('Y'), &locks);
    assert_eq!(a3, BrowseAction::Delete(2));
    let (_, a4) = browse_key(&s, Key::Enter, &locks);
    assert_eq!(a4, BrowseAction::Delete(2));
    let (s5, a5) = browse_key(&s, Key::Char('n'), &locks);
    assert!(!s5.confirm_delete);
    assert_eq!(a5, BrowseAction::CancelDelete);
    let (_, a6) = browse_key(&state("", false, false, 0), Key::Delete, &locks);
    assert_eq!(a6, BrowseAction::AskDelete(0));
    // nothing shown: nothing to delete
    let (s7, a7) = browse_key(&state("zz", false, false, 0), Key::Char('d'), &locks);
    assert!(!s7.confirm_delete);
    assert_eq!(a7, BrowseAction::Nothing);
}

#[test]
fn browse_filter_editing_keeps_the_selection_inside() {
    let locks = three_locks();
    let (s, _) = browse_key(&state("g", true, false, 2), Key::Char('a'), &locks);
    assert_eq!(text(&s.filter), "ga");
    assert_eq!(s.selected, 0);
    assert!(s.filtering);
    let (s, _) = browse_key(&s, Key::Backspace, &locks);
    assert_eq!(text(&s.filter), "g");
    let (s, _) = browse_key(&state("", true, false, 1), Key::Backspace, &locks);
    assert_eq!(text(&s.filter), "");
    assert_eq!(s.selected, 1);
    let (s, a) = browse_key(&state("ga", true, false, 0), Key::Enter, &locks);
    assert_eq!((text(&s.filter), s.filtering, a), ("ga".to_string(), false, BrowseAction::Nothing));
    let (s, _) = browse_key(&state("ga", true, false, 0), Key::Esc, &locks);
    assert_eq!((text(&s.filter), s.filtering), (String::new(), false));
    // typing `q` while filtering is text, not quit
    let (s, a) = browse_key(&state("", true, false, 0), Key::Char('q'), &locks);
    assert_eq!((text(&s.filter), a), ("q".to_string(), BrowseAction::Nothing));
}

#[test]
fn shown_locks_follows_the_filter() {
    let locks = three_locks();
    assert_eq!(shown_locks(&locks, &vec![]), vec![0, 1, 2]);
    assert_eq!(shown_locks(&locks, &"GA".chars().collect()), vec![2]);
    assert_eq!(shown_locks(&locks, &"a".chars().collect()), vec![0, 1, 2]);
}

// The delete flow of the browse screen, carried out on the history text.
#[test]
fn delete_flow_removes_lock_from_file() {
    let src = "# History\n\n## One\n\nbody one\n\n## Two\n\nbody two\n\n## Three\n\nbody three\n";
    let locks = parse_history(src);
    let before = locks.len();
    assert!(before >= 2);
    let st = state("", false, false, before - 1);
    let (st, a) = browse_key(&st, Key::Char('d'), &locks);
    assert!(st.confirm_delete);
    assert_eq!(a, BrowseAction::AskDelete(before - 1));
    let (st, a) = browse_key(&st, Key::Char('n'), &locks);
    assert!(!st.confirm_delete);
    assert_eq!(a, BrowseAction::CancelDelete);
    let (st, _) = browse_key(&st, Key::Char('d'), &locks);
    let (st, a) = browse_key(&st, Key::Char('y'), &locks);
    assert!(!st.confirm_delete);
    let idx = match a {
        BrowseAction::Delete(i) => i,
        other => panic!("expected a delete, got {:?}", other),
    };
    let updated = remove_lock(src, idx).expect("lock removed");
    let after = parse_history(&updated);
    assert_eq!(after.len(), before - 1);
    assert_eq!(after[after.len() - 1].name, "Two");
}

// ---------- the lock list ----------

#[test]
fn browse_lines_mark_solved_locks_and_clamp_the_selection() {
    let locks = three_locks();
    let (lines, sel) = browse_lines(&locks, &vec![], 5);
    assert_eq!(lines, vec!["[ ] Alpha", "[✓] beta", "[ ] Gamma"]);
    assert_eq!(sel, Some(2));
    let (lines, sel) = browse_lines(&locks, &"ET".chars().collect(), 1);
    assert_eq!(lines, vec!["[✓] beta"]);
    assert_eq!(sel, Some(0));
    let (lines, sel) = browse_lines(&locks, &"zz".chars().collect(), 0);
    assert!(lines.is_empty());
    assert_eq!(sel, None);
}

#[test]
fn filter_line_shows_placeholder_text_or_cursor() {
    assert_eq!(filter_line(&state("", false, false, 0)), None);
    assert_eq!(filter_line(&state("", true, false, 0)), Some("▏".to_string()));
    assert_eq!(filter_line(&state("ab", false, false, 0)), Some("ab".to_string()));
    assert_eq!(filter_line(&state("ab", true, false, 0)), Some("ab▏".to_string()));
}

// ---------- the step screen ----------

fn walk() -> StepState {
    let mat = build_matrix(&rules(&["-", "-"])).unwrap();
    StepState::new("W".to_string(), mat, vec![6, 3], vec![(1, 'D', 2), (2, 'A', 1)])
}

#[test]
fn step_keys_move_through_the_clicks() {
    let mut s = walk();
    assert!(!step_key(&mut s, Key::Right));
    assert_eq!(s.idx, 1);
    assert!(!step_key(&mut s, Key::Char('l')));
    assert!(!step_key(&mut s, Key::Char(' ')));
    assert_eq!(s.idx, 3);
    assert!(!step_key(&mut s, Key::Char('n')));
    assert_eq!(s.idx, 3);
    assert!(!step_key(&mut s, Key::Left));
    assert_eq!(s.idx, 2);
    assert!(!step_key(&mut s, Key::Char('g')));
    assert_eq!(s.idx, 0);
    assert!(!step_key(&mut s, Key::Char('h')));
    assert_eq!(s.idx, 0);
    assert!(!step_key(&mut s, Key::End));
    assert_eq!(s.idx, 3);
    assert!(!step_key(&mut s, Key::Home));
    assert_eq!(s.idx, 0);
    assert!(!step_key(&mut s, Key::Char('G')));
    assert_eq!(s.idx, 3);
    assert!(!step_key(&mut s, Key::Char('p')));
    assert_eq!(s.idx, 2);
    assert!(step_key(&mut s, Key::Esc));
    assert!(step_key(&mut s, Key::Char('q')));
    assert!(step_key(&mut s, Key::Char('b')));
    assert_eq!(s.idx, 2);
    assert!(!step_key(&mut s, Key::Char('z')));
    assert_eq!(s.idx, 2);
}

#[test]
fn step_view_at_the_start() {
    let s = walk();
    let v = step_view(&s);
    assert_eq!(v.positions, vec![6, 3]);
    assert!(!v.solved);
    assert_eq!(v.current, Some(0));
    assert_eq!(v.target, Some(1));
    assert_eq!(v.centered, 0);
    assert_eq!(v.marks, vec![Mark::Current, Mark::Pending]);
    assert_eq!(text(&v.arrows), "→ →");
}

#[test]
fn step_view_midway() {
    let mut s = walk();
    s.idx = 2;
    let v = step_view(&s);
    assert_eq!(v.positions, vec![4, 3]);
    assert!(!v.solved);
    assert_eq!(v.current, Some(1));
    assert_eq!(v.target, Some(2));
    assert_eq!(v.centered, 1);
    assert_eq!(v.marks, vec![Mark::Done, Mark::Current]);
    assert_eq!(text(&v.arrows), "←");
}

#[test]
fn step_view_when_open() {
    let mut s = walk();
    s.idx = 3;
    let v = step_view(&s);
    assert_eq!(v.positions, vec![4, 4]);
    assert!(v.solved);
    assert_eq!(v.current, None);
    assert_eq!(v.target, None);
    assert_eq!(v.centered, 2);
    assert_eq!(v.marks, vec![Mark::Done, Mark::Done]);
    assert!(v.arrows.is_empty());
}

#[test]
fn step_view_all_on_four_before_the_end_is_not_open() {
    let mat = build_matrix(&rules(&["-", "-"])).unwrap();
    let s = StepState::new("W".to_string(), mat, vec![4, 4], vec![(1, 'D', 1)]);
    let v = step_view(&s);
    assert_eq!(v.centered, 2);
    assert!(!v.solved);
}

// ---------- plates ----------

#[test]
fn plate_line_centred_plate() {
    let r = plate_line(0, 4, false);
    let grey = Tint::Rgb(235, 235, 235);
    let hole = Tint::Rgb(78, 78, 78);
    assert_eq!(r.plate, grey);
    assert_eq!(r.cells.len(), 15);
    let glyphs: String = r.cells.iter().map(|c| c.0).collect();
    assert_eq!(glyphs, "   ▕○○○◉○○○▏   ");
    assert_eq!(r.cells[7], ('◉', Tint::Green));
    assert_eq!(r.cells[3], ('▕', grey));
    assert_eq!(r.cells[11], ('▏', grey));
    assert_eq!(r.cells[4], ('○', hole));
    assert_eq!(r.cells[0], (' ', Tint::Plain));
    assert_eq!(text(&r.mark), "✓");
    assert_eq!(r.mark_tint, Tint::Green);
}

#[test]
fn plate_line_target_plate_off_centre() {
    let r = plate_line(1, 1, true);
    let grey = Tint::Rgb(215, 215, 215);
    let glyphs: String = r.cells.iter().map(|c| c.0).collect();
    assert_eq!(glyphs, "      ▕◉○○◌○○○▏");
    assert_eq!(r.cells[7], ('◉', Tint::Rgb(255, 190, 70)));
    assert_eq!(r.cells[10], ('◌', Tint::Rgb(90, 180, 180)));
    assert_eq!(r.cells[8], ('○', Tint::Rgb(71, 71, 71)));
    assert_eq!(r.cells[6], ('▕', grey));
    assert_eq!(text(&r.mark), "1");
    assert_eq!(r.mark_tint, grey);
}

#[test]
fn plate_line_pin_is_brass_off_target() {
    let r = plate_line(2, 7, false);
    assert_eq!(r.plate, Tint::Rgb(195, 195, 195));
    assert_eq!(r.cells[7], ('◉', Tint::Rgb(193, 131, 49)));
    let glyphs: String = r.cells.iter().map(|c| c.0).collect();
    assert_eq!(glyphs, "▕○○○◌○○◉▏      ");
    assert_eq!(text(&r.mark), "7");
    // deep plates bottom out at black
    assert_eq!(plate_line(12, 4, false).plate, Tint::Rgb(0, 0, 0));
}

#[test]
fn plate_edges_visible_at_every_position() {
    for p in 1..=7 {
        let line = plate_line(0, p, false);
        let s: String = line.cells.iter().map(|c| c.0).collect();
        assert!(s.contains('▕'), "left edge missing at position {}", p);
        assert!(s.contains('▏'), "right edge missing at position {}", p);
    }
}

// ---------- the solve screen ----------

fn form(focus: usize) -> SolveForm {
    SolveForm { name: vec![], rules: vec![vec![]; 6], start: vec![], focus }
}

#[test]
fn solve_keys_edit_the_focused_field() {
    let mut f = form(0);
    assert_eq!(solve_key(&mut f, Key::Char('N')), SolveAction::Nothing);
    assert_eq!(text(&f.name), "N");
    assert_eq!(solve_key(&mut f, Key::Tab), SolveAction::Nothing);
    assert_eq!(f.focus, 1);
    solve_key(&mut f, Key::Char('3'));
    solve_key(&mut f, Key::Char('r'));
    assert_eq!(text(&f.rules[0]), "3r");
    solve_key(&mut f, Key::Backspace);
    assert_eq!(text(&f.rules[0]), "3");
    assert_eq!(text(&f.name), "N");
    solve_key(&mut f, Key::BackTab);
    assert_eq!(f.focus, 0);
    solve_key(&mut f, Key::Up);
    assert_eq!(f.focus, 7);
    solve_key(&mut f, Key::Char('5'));
    assert_eq!(text(&f.start), "5");
    solve_key(&mut f, Key::Down);
    assert_eq!(f.focus, 0);
    solve_key(&mut f, Key::Backspace);
    solve_key(&mut f, Key::Backspace);
    assert_eq!(text(&f.name), "");
}

#[test]
fn solve_keys_give_their_actions() {
    let mut f = form(3);
    assert_eq!(solve_key(&mut f, Key::Esc), SolveAction::Back);
    assert_eq!(solve_key(&mut f, Key::Ctrl('w')), SolveAction::Walk);
    assert_eq!(solve_key(&mut f, Key::Ctrl('s')), SolveAction::Save);
    assert_eq!(solve_key(&mut f, Key::Enter), SolveAction::Run);
    assert_eq!(solve_key(&mut f, Key::Left), SolveAction::Nothing);
    assert_eq!(f.focus, 3);
    assert!(f.rules.iter().all(|r| r.is_empty()));
}

fn filled(start: &str, rule_texts: [&str; 6]) -> SolveForm {
    SolveForm {
        name: "Vault behind the inn".chars().collect(),
        rules: rule_texts.iter().map(|r| r.chars().collect()).collect(),
        start: start.chars().collect(),
        focus: 0,
    }
}

#[test]
fn run_solve_solves_the_form() {
    let texts = ["3r, 6l", "-", "1r, 4l, 6r", "2r, 5r, 6l", "-", "3l"];
    let f = filled("5, 3, 6, 7, 2, 7", texts);
    let mat = build_matrix(&rules(&texts)).unwrap();
    let want = solve(&[5, 3, 6, 7, 2, 7], &mat).expect("solvable");
    match run_solve(&f, "bad start", "no solution") {
        SolveResult::Solved { total, lines, mat: m, start, groups } => {
            assert_eq!(total, want.total);
            assert_eq!(groups, want.steps);
            assert_eq!(lines, solution_lines(&want));
            assert_eq!(start, vec![5, 3, 6, 7, 2, 7]);
            assert_eq!(m, mat);
        }
        _ => panic!("expected a solution"),
    }
}

#[test]
fn run_solve_reports_each_failure() {
    let free = ["-", "-", "-", "-", "-", "-"];
    match run_solve(&filled("5 3 6", free), "bad start", "no solution") {
        SolveResult::Failed(e) => assert_eq!(e, "bad start"),
        _ => panic!("expected a start error"),
    }
    let bad = ["9r", "-", "-", "-", "-", "-"];
    let err = build_matrix(&rules(&bad)).unwrap_err();
    match run_solve(&filled("4 4 4 4 4 4", bad), "bad start", "no solution") {
        SolveResult::Failed(e) => assert_eq!(e, err),
        _ => panic!("expected a rule error"),
    }
    let stuck = ["2r", "1r", "-", "-", "-", "-"];
    match run_solve(&filled("4 5 4 4 4 4", stuck), "bad start", "no solution") {
        SolveResult::Failed(e) => assert_eq!(e, "no solution"),
        _ => panic!("expected no solution"),
    }
}

#[test]
fn solve_result_lines_for_each_result() {
    assert_eq!(solve_result_lines(&SolveResult::Empty, "nothing yet", "clicks"), vec!["nothing yet"]);
    assert_eq!(
        solve_result_lines(&SolveResult::Failed("bad".to_string()), "nothing yet", "clicks"),
        vec!["✗ bad"]
    );
    let solved = SolveResult::Solved {
        total: 12,
        lines: vec!["1. a".to_string(), "2. b".to_string()],
        mat: vec![],
        start: vec![],
        groups: vec![],
    };
    assert_eq!(
        solve_result_lines(&solved, "nothing yet", "clicks"),
        vec!["✓ 12 clicks", "  1. a", "  2. b"]
    );
}

#[test]
fn solved_name_trims_or_falls_back() {
    let mut f = form(0);
    f.name = "  Vault  ".chars().collect();
    assert_eq!(solved_name(&f, "unnamed"), "Vault");
    f.name = "   ".chars().collect();
    assert_eq!(solved_name(&f, "unnamed"), "unnamed");
}

// ---------- the language screen ----------

#[test]
fn language_keys_move_confirm_and_pick_by_letter() {
    let codes: Vec<Vec<char>> = ["en", "pl", "de"].iter().map(|c| c.chars().collect()).collect();
    assert_eq!(language_key(0, Key::Down, &codes), (1, LangAction::Nothing));
    assert_eq!(language_key(2, Key::Char('j'), &codes), (0, LangAction::Nothing));
    assert_eq!(language_key(0, Key::Up, &codes), (2, LangAction::Nothing));
    assert_eq!(language_key(1, Key::Char('k'), &codes), (0, LangAction::Nothing));
    assert_eq!(language_key(1, Key::Enter, &codes), (1, LangAction::Confirm));
    assert_eq!(language_key(0, Key::Char('P'), &codes), (1, LangAction::Confirm));
    assert_eq!(language_key(0, Key::Char('d'), &codes), (2, LangAction::Confirm));
    assert_eq!(language_key(1, Key::Char('x'), &codes), (1, LangAction::Nothing));
    assert_eq!(language_key(1, Key::Char('q'), &codes), (1, LangAction::Quit));
    assert_eq!(language_key(2, Key::Esc, &codes), (2, LangAction::Quit));
}

// ---------- clicks ----------

#[test]
fn a_d_click_adds_the_row_even_at_the_bottom_of_i32() {
    let mat = vec![vec![i32::MIN, 0], vec![0, -1]];
    let mut s = vec![1, 5];
    apply_click(&mut s, &mat, 1, 'D');
    assert_eq!(s, vec![i32::MIN + 1, 5]);
}

#[test]
fn clicks_commute_on_values() {
    let mat = build_matrix(&rules(&["3r, 5l", "1l", "-", "-", "-", "-"])).unwrap();
    let mut a = vec![4, 4, 4, 4, 4, 4];
    let mut b = a.clone();
    apply_click(&mut a, &mat, 1, 'D');
    apply_click(&mut a, &mat, 2, 'A');
    apply_click(&mut b, &mat, 2, 'A');
    apply_click(&mut b, &mat, 1, 'D');
    assert_eq!(a, b);
    assert_ne!(a, vec![4, 4, 4, 4, 4, 4]);
}

// ---------- a lock's details ----------

#[test]
fn lock_detail_rows() {
    let l = Lock {
        name: "Vault".to_string(),
        rules: vec!["3r, 6l".to_string(), String::new()],
        start: Some(vec![5, -3]),
        solution: vec!["1: 2x D".to_string()],
    };
    assert_eq!(nameless_locksmith::screens::lock_rule_rows(&l), vec!["  1: 3r, 6l", "  2: -"]);
    assert_eq!(nameless_locksmith::screens::lock_start_text(&l), Some("[5, -3]".to_string()));
    assert_eq!(nameless_locksmith::screens::lock_step_rows(&l), vec!["  1: 2x D"]);
    let bare = lock("Bare", false);
    assert_eq!(nameless_locksmith::screens::lock_start_text(&bare), None);
    assert!(nameless_locksmith::screens::lock_rule_rows(&bare).is_empty());
    assert!(nameless_locksmith::screens::lock_step_rows(&bare).is_empty());
}

#[test]
fn keep_selection_after_the_list_shrinks() {
    let locks = three_locks();
    let st = nameless_locksmith::screens::keep_selection(&state("", false, false, 5), &locks);
    assert_eq!(st.selected, 2);
    let st = nameless_locksmith::screens::keep_selection(&state("ga", true, false, 3), &locks);
    assert_eq!((st.selected, st.filtering, text(&st.filter)), (0, true, "ga".to_string()));
    let st = nameless_locksmith::screens::keep_selection(&state("zz", false, false, 4), &locks);
    assert_eq!(st.selected, 0);
    let st = nameless_locksmith::screens::keep_selection(&state("", false, false, 1), &locks);
    assert_eq!(st.selected, 1);
}

#[test]
fn ints_text_joins_with_commas() {
    assert_eq!(nameless_locksmith::render::ints_text(&[5, 3, -6]), "5, 3, -6");
    assert_eq!(nameless_locksmith::render::ints_text(&[]), "");
}
