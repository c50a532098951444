use nameless_locksmith::{
    apply_click, build_matrix, goal, input_block, lock_markdown, parse_history, parse_input,
    parse_int_array, parse_solution_steps, remove_lock, replace_lock, rule_to_delta,
    solution_lines, solve, solve_lock, Lock, Solution,
};

fn rules(arr: &[&str]) -> Vec<String> {
    arr.iter().map(|s| s.to_string()).collect()
}

fn lines(arr: &[&str]) -> Vec<String> {
    arr.iter().map(|s| s.to_string()).collect()
}

fn names(locks: &[Lock]) -> Vec<String> {
    locks.iter().map(|l| l.name.clone()).collect()
}

fn same_lock(a: &Lock, b: &Lock) -> bool {
    a.name == b.name && a.rules == b.rules && a.start == b.start && a.solution == b.solution
}

// ---------- clicks ----------

#[test]
fn release_undoes_press_on_three_tumblers() {
    let mat = build_matrix(&rules(&["2r, 3l", "-", "1l"])).unwrap();
    let start = vec![3, 5, 2];
    let mut s = start.clone();
    apply_click(&mut s, &mat, 1, 'D');
    assert_eq!(s, vec![2, 4, 3]);
    apply_click(&mut s, &mat, 1, 'A');
    assert_eq!(s, start);
}

#[test]
fn any_key_but_a_presses_d() {
    let mat = build_matrix(&rules(&["-", "1r"])).unwrap();
    let mut s = vec![4, 4];
    apply_click(&mut s, &mat, 2, 'x');
    assert_eq!(s, vec![3, 3]);
}

// ---------- solver ----------

#[test]
fn solution_total_is_the_sum_of_the_counts() {
    let r = rules(&["3r, 6l", "-", "1r, 4l, 6r", "2r, 5r, 6l", "-", "3l"]);
    let mat = build_matrix(&r).unwrap();
    let sol = solve(&[5, 3, 6, 7, 2, 7], &mat).unwrap();
    let sum: usize = sol.steps.iter().map(|s| s.2).sum();
    assert_eq!(sum, sol.total);
    for w in sol.steps.windows(2) {
        assert!(w[0].0 != w[1].0 || w[0].1 != w[1].1);
    }
}

#[test]
fn independent_plate_needs_exactly_its_distance() {
    let r = rules(&["-", "-"]);
    let mat = build_matrix(&r).unwrap();
    let sol = solve(&[6, 4], &mat).unwrap();
    assert_eq!(sol.total, 2);
    assert_eq!(sol.steps, vec![(1, 'D', 2)]);
}

#[test]
fn solve_with_no_tumblers_is_already_open() {
    let sol = solve(&[], &[]).unwrap();
    assert_eq!(sol.total, 0);
    assert!(sol.steps.is_empty());
    assert!(goal(0).is_empty());
}

#[test]
fn solve_from_outside_the_track() {
    let mat = build_matrix(&rules(&["-", "-"])).unwrap();
    // from 9 every press lands off the track; from 0, [A] lands on it
    assert!(solve(&[9, 4], &mat).is_none());
    let sol = solve(&[0, 4], &mat).unwrap();
    assert_eq!(sol.total, 4);
    assert_eq!(sol.steps, vec![(1, 'A', 4)]);
}

#[test]
fn solve_lock_reports_each_error() {
    assert_eq!(
        solve_lock(rules(&["-", "-"]), vec![4]).err().unwrap(),
        "start length must equal the number of rules"
    );
    assert_eq!(
        solve_lock(rules(&["-", "7r"]), vec![4, 4]).err().unwrap(),
        "plate 7 out of range (1..2) in rule 2"
    );
    let ok = solve_lock(rules(&["2r", "-"]), vec![5, 5]).unwrap().unwrap();
    assert_eq!(ok.total, 1);
    assert_eq!(ok.steps, vec![(1, 'D', 1)]);
}

// ---------- rules ----------

#[test]
fn rule_errors_name_the_rule() {
    assert_eq!(rule_to_delta(0, "xr", 6).unwrap_err(), "bad token 'xr' in rule 1");
    assert_eq!(
        rule_to_delta(1, "9l", 6).unwrap_err(),
        "plate 9 out of range (1..6) in rule 2"
    );
    assert_eq!(
        rule_to_delta(2, "4q", 6).unwrap_err(),
        "unknown direction 'q' in rule 3 (only r/l supported)"
    );
    assert_eq!(rule_to_delta(0, "0r", 6).unwrap_err(), "plate 0 out of range (1..6) in rule 1");
}

#[test]
fn rule_text_with_gaps_and_own_plate() {
    assert_eq!(rule_to_delta(1, " 1r , , 2l ", 3).unwrap(), vec![-1, 0, 0]);
    assert_eq!(rule_to_delta(2, "", 3).unwrap(), vec![0, 0, -1]);
    assert_eq!(rule_to_delta(0, "3 r", 3).unwrap(), vec![-1, 0, -1]);
}

#[test]
fn build_matrix_stops_at_the_first_bad_rule() {
    assert_eq!(
        build_matrix(&rules(&["2r", "2x", "9r"])).unwrap_err(),
        "unknown direction 'x' in rule 2 (only r/l supported)"
    );
}

// ---------- reading steps and arrays ----------

#[test]
fn written_steps_read_back() {
    let sol = Solution { total: 120, steps: vec![(12, 'A', 105), (3, 'D', 1), (10, 'D', 14)] };
    let ls = solution_lines(&sol);
    assert_eq!(ls, lines(&["12: 105x A", "3: 1x D", "10: 14x D"]));
    assert_eq!(parse_solution_steps(&ls, 12), Some(sol.steps.clone()));
    assert_eq!(parse_solution_steps(&ls, 11), None);
}

#[test]
fn step_lines_are_read_loosely() {
    let ls = lines(&["  2 :  3 x   d  ", "", "1:1xA"]);
    assert_eq!(parse_solution_steps(&ls, 2), Some(vec![(2, 'D', 3), (1, 'A', 1)]));
    assert_eq!(parse_solution_steps(&lines(&["1: 1x B"]), 2), None);
    assert_eq!(parse_solution_steps(&lines(&["", "  "]), 2), None);
}

#[test]
fn int_array_edge_cases() {
    assert_eq!(parse_int_array("[-3, +2, x, 7]"), Some(vec![-3, 2, 7]));
    assert_eq!(parse_int_array("[]"), None);
    assert_eq!(parse_int_array("[a, b]"), None);
    assert_eq!(parse_int_array("[1, 2"), None);
    assert_eq!(parse_int_array("[2147483648]"), None);
    assert_eq!(parse_int_array("[-2147483648]"), Some(vec![i32::MIN]));
}

// ---------- input ----------

#[test]
fn parse_input_reports_each_error() {
    assert_eq!(
        parse_input("Rules:\n1: -\n2: -\n").unwrap_err(),
        "input is missing a Start line like [5,3,6,7,2,7]"
    );
    assert_eq!(
        parse_input("Rules:\n1: -\nStart:\n[4]\n").unwrap_err(),
        "lock has 1 tumblers; supported range is 2..8"
    );
    assert_eq!(
        parse_input("Rules:\n1: -\n2: -\n3: -\nStart:\n[4, 4]\n").unwrap_err(),
        "Start has 2 positions but the lock has 3 tumblers"
    );
    assert_eq!(
        parse_input("Rules:\n9: -\nStart:\n[4, 4]\n").unwrap_err(),
        "lock has 9 tumblers; supported range is 2..8"
    );
}

#[test]
fn parse_input_skips_comments_and_takes_the_last_start() {
    let text = "# a comment\nNAME:  Gate  \nrules\n1: 2r\n2: -\n[1, 1]\nstart:\n[3, 5]\n";
    let (name, r, start) = parse_input(text).unwrap();
    assert_eq!(name, "Gate");
    assert_eq!(r, rules(&["2r", "-"]));
    assert_eq!(start, vec![3, 5]);
    let (name, _, _) = parse_input("1: -\n2: -\n[4,4]").unwrap();
    assert_eq!(name, "unnamed");
}

#[test]
fn input_block_text_and_read_back() {
    let block = input_block("Vault", &rules(&["3r", ""]), &[5, -4]);
    assert_eq!(block, "Name: Vault\n\nRules:\n1: 3r\n2: -\n\nStart:\n[5, -4]\n");
    let (name, r, start) = parse_input(&block).unwrap();
    assert_eq!(name, "Vault");
    assert_eq!(r, rules(&["3r", "-"]));
    assert_eq!(start, vec![5, -4]);
}

// ---------- writing and reading sections ----------

#[test]
fn lock_markdown_exact_text() {
    let sol = Solution { total: 3, steps: vec![(2, 'D', 2), (1, 'A', 1)] };
    let md = lock_markdown("Gate", &rules(&["2l", ""]), &[3, 4], &sol);
    assert_eq!(
        md,
        "\n## Gate\n\n**Rules:**\n```\n1: 2l\n2: -\n```\n\n**Start:** `[3, 4]`\n\n\
         **Solution:** (3 clicks \u{2014} solved by locks)\n```\n2: 2x D\n1: 1x A\n```\n"
    );
}

#[test]
fn written_lock_reads_back_trimmed_and_padded() {
    let sol = Solution { total: 4, steps: vec![(3, 'A', 4)] };
    let md = lock_markdown("  Spaced name  ", &rules(&["  3r, 1l  ", "", "   "]), &[-2, 4, 11, 4], &sol);
    let locks = parse_history(&md);
    assert_eq!(locks.len(), 1);
    let l = &locks[0];
    assert_eq!(l.name, "Spaced name");
    assert_eq!(l.rules, rules(&["3r, 1l", "-", "", ""]));
    assert_eq!(l.start, Some(vec![-2, 4, 11, 4]));
    assert_eq!(l.solution, lines(&["3: 4x A"]));
    assert_eq!(parse_solution_steps(&l.solution, 4), Some(sol.steps.clone()));
}

#[test]
fn parse_history_reads_crlf_and_inline_notes() {
    let md = "## One\r\n\r\n**Rules:**\r\n```\r\n1: 2l\r\n2: -\r\n```\r\n\r\n**Start:** `[3, 4]`\r\n\r\n\
              **Solution:** already open\r\n\r\n## Two\r\n";
    let locks = parse_history(md);
    assert_eq!(names(&locks), lines(&["One", "Two"]));
    assert_eq!(locks[0].rules, rules(&["2l", "-"]));
    assert_eq!(locks[0].start, Some(vec![3, 4]));
    assert_eq!(locks[0].solution, lines(&["already open"]));
    assert_eq!(locks[1].rules.len(), 0);
    assert_eq!(locks[1].start, None);
    assert!(locks[1].solution.is_empty());
}

#[test]
fn parse_history_keeps_the_last_numbered_rule_and_covers_start() {
    let md = "## L\n**Rules:**\n```\n2: 1r\n2: 1l\nnote\n```\n**Start:** `[4, 4, 4]`\n";
    let l = &parse_history(md)[0];
    assert_eq!(l.rules, rules(&["", "1l", ""]));
}

#[test]
fn unclosed_solution_fence_runs_to_the_end() {
    let md = "## L\n**Solution:**\n```\n1: 1x D\n\n2: 2x A\n";
    let l = &parse_history(md)[0];
    assert_eq!(l.solution, lines(&["1: 1x D", "2: 2x A"]));
}

// ---------- editing the history ----------

const THREE: &str = "# History\n\n## A\n\n**Start:** `[1, 2]`\n\n## B\n\n**Rules:**\n```\n1: 2r\n```\n\n## C\n\n**Solution:**\n```\n1: 1x D\n```\n\n\n";

#[test]
fn removing_each_lock_keeps_the_others() {
    let before = parse_history(THREE);
    for i in 0..3 {
        let after = parse_history(&remove_lock(THREE, i).unwrap());
        assert_eq!(after.len(), 2);
        let mut k = 0;
        for (j, l) in before.iter().enumerate() {
            if j != i {
                assert!(same_lock(l, &after[k]));
                k += 1;
            }
        }
    }
    assert!(remove_lock(THREE, 3).is_none());
}

#[test]
fn removing_the_last_lock_trims_the_tail() {
    assert_eq!(remove_lock(THREE, 2).unwrap().ends_with("1: 2r\n```\n"), true);
    assert_eq!(remove_lock("## Only\n\nbody\n", 0).unwrap(), "\n");
    assert_eq!(remove_lock("intro\n## Only\n", 0).unwrap(), "intro\n");
}

#[test]
fn replacing_each_lock_changes_only_it() {
    let r = rules(&["2r", "-"]);
    let sol = Solution { total: 1, steps: vec![(1, 'D', 1)] };
    let before = parse_history(THREE);
    for i in 0..3 {
        let text = replace_lock(THREE, i, "New", &r, &[5, 3], &sol).unwrap();
        let after = parse_history(&text);
        assert_eq!(after.len(), 3);
        for j in 0..3 {
            if j == i {
                assert_eq!(after[j].name, "New");
                assert_eq!(after[j].rules, r);
                assert_eq!(after[j].start, Some(vec![5, 3]));
                assert_eq!(after[j].solution, lines(&["1: 1x D"]));
            } else {
                assert!(same_lock(&before[j], &after[j]));
            }
        }
    }
    assert!(replace_lock(THREE, 3, "New", &r, &[5, 3], &sol).is_none());
}

#[test]
fn replace_lock_exact_layout() {
    let r = rules(&["-", "-"]);
    let sol = Solution { total: 0, steps: vec![] };
    let text = replace_lock("intro\n\n\n## Old\nold body\n\n\n## Next\n", 0, "N", &r, &[4, 4], &sol)
        .unwrap();
    assert_eq!(
        text,
        "intro\n\n## N\n\n**Rules:**\n```\n1: -\n2: -\n```\n\n**Start:** `[4, 4]`\n\n\
         **Solution:** (0 clicks \u{2014} solved by locks)\n```\n```\n\n## Next\n"
    );
}

#[test]
fn appending_a_written_lock_adds_it_last() {
    let r = rules(&["2r", "-"]);
    let sol = Solution { total: 1, steps: vec![(1, 'D', 1)] };
    let block = lock_markdown("Saved", &r, &[5, 5], &sol);
    let before = parse_history(THREE);
    for text in [THREE.to_string(), THREE.trim_end().to_string(), String::new()] {
        let prior = parse_history(&text);
        let after = parse_history(&(text.clone() + &block));
        assert_eq!(after.len(), prior.len() + 1);
        for (a, b) in prior.iter().zip(after.iter()) {
            assert!(same_lock(a, b));
        }
        let last = after.last().unwrap();
        assert_eq!(last.name, "Saved");
        assert_eq!(last.rules, r);
        assert_eq!(last.start, Some(vec![5, 5]));
        assert_eq!(last.solution, lines(&["1: 1x D"]));
    }
    assert_eq!(before.len(), 3);
}

// Among the shortest sequences the solver gives the first in click order:
// (1, D) before (1, A) before (2, D) before (2, A).
#[test]
fn solver_picks_the_first_shortest_sequence_in_click_order() {
    let mat = build_matrix(&rules(&["2r", "-"])).unwrap();
    let sol = solve(&[7, 1], &mat).expect("solvable");
    assert_eq!(sol.total, 9);
    assert_eq!(
        sol.steps,
        vec![(2, 'A', 1), (1, 'D', 1), (2, 'A', 1), (1, 'D', 1), (2, 'A', 1), (1, 'D', 1), (2, 'A', 3)]
    );
}

#[test]
fn solver_answer_is_the_same_every_time() {
    let r = rules(&["3r, 6l", "-", "1r, 4l, 6r", "2r, 5r, 6l", "-", "3l"]);
    let mat = build_matrix(&r).unwrap();
    let a = solve(&[5, 3, 6, 7, 2, 7], &mat).unwrap();
    let b = solve(&[5, 3, 6, 7, 2, 7], &mat).unwrap();
    assert_eq!(a.steps, b.steps);
    assert_eq!(a.total, b.total);
}

// Replacing a lock again by the same written lock gives back the same text.
#[test]
fn replacing_again_gives_the_same_text() {
    let r = rules(&["3r", "-", "-"]);
    let sol = solve(&[5, 4, 4], &build_matrix(&r).unwrap()).unwrap();
    for md in [
        "# History\n\n## A\n\nbody a\n\n## B\n\nold b\n\n## C\n\nbody c\n",
        "# History\n\n## A\n\nbody a\n\n## B\n\nold b\n\n\n",
        "## B\nold b\n## C\nbody c",
    ] {
        for idx in 0..parse_history(md).len() {
            let once = replace_lock(md, idx, "B2", &r, &[5, 4, 4], &sol).unwrap();
            let twice = replace_lock(&once, idx, "B2", &r, &[5, 4, 4], &sol).unwrap();
            assert_eq!(once, twice);
        }
    }
}

// Replacing twice changes nothing whatever the steps hold, a line-break key included,
// and whatever the rules hold, markers included.
#[test]
fn replacing_again_with_any_steps_and_rules_gives_the_same_text() {
    let r = rules(&["**Start [1, 2]", "-", "**Solution"]);
    let sol = Solution { total: 3, steps: vec![(1, '\n', 1), (2, '\r', 1), (3, 'D', 1)] };
    let md = "# History\n\n## A\n\nbody a\n\n## B\n\nold b\n";
    for idx in 0..2 {
        let once = replace_lock(md, idx, "B2", &r, &[], &sol).unwrap();
        let twice = replace_lock(&once, idx, "B2", &r, &[], &sol).unwrap();
        assert_eq!(once, twice);
        let names: Vec<String> = parse_history(&once).into_iter().map(|l| l.name).collect();
        assert_eq!(names.len(), 2);
        assert_eq!(names[idx], "B2");
    }
}
