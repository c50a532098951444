use nameless_locksmith::{
    apply_click, build_matrix, goal, lock_markdown, parse_history, parse_input, parse_int_array,
    parse_solution_steps, remove_lock, replace_lock, rule_to_delta, solution_lines, solve,
    Solution,
};

const HISTORY: &str = r#"# History of Locks

## Chest above Cavalorn's cottage (near two New Camp thieves)

**Rules:**
```
1: 3r, 5l
2: 3l, 4l
3: 4r, 6r
4: 1l, 3l
5: -
6: -
```

**Start:** `[1, 4, 5, 2, 1, 4]`

**Solution:** (35 clicks — verified optimal by BFS via the `locks` solver; the
original hand-entry started `5: 6x D`, which drove plate 5 from 1 below the wall)
```
3: 1x D
5: 1x A
1: 1x A
4: 1x A
3: 1x D
5: 1x A
1: 1x A
4: 1x A
3: 1x D
5: 1x A
1: 1x A
4: 1x A
5: 1x A
1: 1x A
4: 1x A
5: 1x A
1: 1x A
4: 1x A
5: 1x A
1: 1x A
4: 1x A
5: 1x A
1: 1x A
5: 1x A
1: 1x A
5: 1x A
1: 1x A
5: 3x A
6: 1x A
3: 1x D
6: 3x A
```

## Cave near Cavalorn's cottage

**Rules:**
```
1: 2l, 3r
2: -
3: 1r, 5l
4: 6r, 2l, 3l
5: 4l, 6r
6: 1r
```

**Start:** `[2, 4, 5, 7, 5, 5]`

**Solution:** (41 clicks — verified optimal by BFS via the `locks` solver)
```
1: 1x D
2: 4x D
4: 1x D
2: 1x D
4: 1x D
2: 1x D
4: 1x D
2: 1x D
5: 1x D
6: 1x A
1: 1x D
2: 1x D
4: 1x D
2: 1x D
6: 1x A
1: 1x D
2: 1x D
4: 1x D
2: 1x D
6: 1x A
1: 1x D
2: 1x D
4: 1x D
6: 1x A
1: 1x D
4: 1x D
6: 1x A
3: 1x D
5: 1x D
6: 1x A
3: 1x D
5: 1x D
6: 1x A
3: 1x D
5: 1x D
6: 3x A
```

## Door to tower near Cavalorn's cottage

**Rules:**
```
1: -
2: 3l, 4r, 5r
3: 4r
4: -
5: 6l, 3l, 2r, 1l
6: 2r, 1l
```

**Start:** `[5, 6, 2, 2, 1, 1]`

**Solution:** (57 clicks — verified optimal by BFS via the `locks` solver)
```
1: 4x D
2: 1x A
3: 4x A
4: 1x D
3: 1x A
4: 6x D
5: 1x D
1: 1x D
2: 1x A
4: 1x D
5: 1x D
1: 1x D
2: 1x A
4: 1x D
5: 1x D
1: 1x D
2: 1x A
4: 1x D
5: 1x D
1: 1x D
2: 1x A
4: 1x D
5: 1x D
1: 1x D
2: 1x A
4: 1x D
5: 1x D
1: 1x D
2: 1x A
4: 1x D
6: 1x D
1: 1x D
2: 1x A
4: 1x D
5: 1x D
1: 1x D
2: 1x A
6: 1x D
1: 1x D
2: 1x A
5: 1x D
1: 1x D
2: 1x A
6: 3x D
```

## First chest in the tower

**Rules:**
```
1: 2l
2: 5r
3: 4l, 5l, 6r
4: -
5: -
6: 2l
```

**Start:** `[3, 1, 7, 4, 3, 2]`

**Solution:**
```
3: 1x D
2: 3x A
6: 3x A
5: 6x D
2: 6x A
6: 2x A
5: 5x D
3: 2x D
1: 1x A
4: 3x D
```

## Second chest in the tower

**Rules:** (tumbler 4 corrected after in-game re-measurement: `5r`, not `3r`)
```
1: 3r, 6l
2: -
3: 1r, 4l, 6r
4: 2r, 5r, 6l
5: -
6: 3l
```

**Start:** `[5, 3, 6, 7, 2, 7]`

**Solution:** (52 clicks — verified optimal by BFS via the `locks` solver; the
previous entry was 56 clicks and ended with plate 6 at 5 — pre-dated the tumbler-4
`5r` re-measurement)
```
1: 1x A
2: 4x A
4: 1x D
2: 1x A
3: 1x D
1: 1x A
5: 1x A
4: 1x D
2: 1x A
3: 1x D
1: 1x A
5: 1x A
4: 1x D
2: 1x A
3: 1x D
1: 1x A
5: 1x A
4: 1x D
2: 1x A
3: 1x D
1: 1x A
5: 1x A
4: 1x D
2: 1x A
3: 1x D
1: 1x A
5: 1x A
4: 1x D
2: 1x A
3: 1x D
5: 1x A
4: 1x D
1: 1x A
2: 1x A
5: 1x A
4: 1x D
2: 1x A
3: 1x D
5: 1x A
4: 1x D
3: 1x D
5: 1x A
4: 1x D
5: 1x A
4: 1x D
5: 3x A
6: 1x A
```

## kharim chest

**Rules:**
```
1: -
2: -
3: 2l,6r
4: -
5: 2l
6: 5r,3l
7: 6r,4l,1l
```

**Start:** `[3, 3, 4, 2, 3, 7, 1]`

**Solution:** (24 clicks — solved by locks)
```
1: 4x A
2: 2x A
3: 2x D
4: 5x A
5: 1x A
3: 1x D
5: 3x A
6: 3x D
7: 3x A
```

## chest near arena big home

**Rules:**
```
1: 4l
2: 1l,4r,6l
3: 6l
4: 2r,6r
5: 2r,6l
6: 4r
```

**Start:** `[5, 6, 1, 3, 2, 1]`

**Solution:** (30 clicks — solved by locks)
```
1: 4x D
2: 1x D
1: 1x D
2: 1x D
1: 1x D
2: 1x D
1: 1x D
2: 1x D
1: 1x D
2: 1x D
1: 1x D
3: 3x A
5: 1x A
2: 1x D
4: 1x A
2: 1x D
4: 1x A
2: 1x D
5: 1x A
4: 1x A
6: 1x D
4: 1x A
6: 3x D
```

## scatty chest

**Rules:**
```
1: 4r
2: 5r
3: 5l
4: 2r,3l,5l
5: -
```

**Start:** `[6, 3, 2, 1, 7]`

**Solution:** (31 clicks — solved by locks)
```
2: 2x D
3: 4x A
5: 1x A
3: 1x A
5: 1x A
4: 1x A
1: 1x D
5: 1x A
2: 1x D
5: 1x A
3: 1x A
5: 1x A
4: 1x A
1: 1x D
5: 1x A
2: 1x D
5: 1x A
3: 1x A
5: 1x A
4: 1x A
5: 1x A
4: 1x A
5: 1x A
4: 1x A
5: 3x A
```

## second chest behind ubert in mine

**Rules:**
```
1: 3l
2: 1l,3r,5r
3: 1r,2r,4r
4: -
5: 4r,3l
```

**Start:** `[1, 6, 2, 3, 3]`

**Solution:** (62 clicks — solved by locks)
```
2: 1x D
1: 1x D
2: 1x D
1: 1x D
3: 1x A
1: 1x D
3: 1x A
1: 1x D
3: 1x A
4: 5x D
5: 1x A
1: 1x D
2: 1x D
1: 1x D
4: 1x D
5: 1x A
2: 1x D
1: 1x D
3: 1x A
4: 2x D
5: 1x A
1: 1x D
2: 1x D
1: 1x D
4: 1x D
5: 1x A
2: 1x D
1: 1x D
3: 1x A
4: 2x D
5: 1x A
1: 1x D
2: 1x D
1: 1x D
4: 1x D
5: 1x A
2: 1x D
1: 1x D
3: 1x A
4: 2x D
5: 1x A
1: 1x D
2: 1x D
1: 1x D
4: 1x D
5: 1x A
2: 1x D
3: 2x A
4: 3x D
5: 3x A
```

## first chest behind ubert mine

**Rules:**
```
1: 2r,5l
2: 1l,4l,6r
3: -
4: 2l,5l,6r
5: 3r
6: 5r
```

**Start:** `[7, 6, 2, 6, 4, 2]`

**Solution:** (42 clicks — solved by locks)
```
1: 3x D
2: 1x D
3: 5x A
5: 1x D
1: 1x D
3: 1x A
5: 1x D
3: 1x A
5: 1x D
3: 1x A
5: 1x D
3: 1x A
5: 1x D
3: 1x A
5: 1x D
3: 1x A
5: 1x D
3: 1x A
6: 1x A
4: 1x D
5: 1x D
3: 1x A
5: 1x D
3: 1x A
6: 1x A
4: 1x D
5: 1x D
3: 1x A
5: 1x D
6: 1x A
4: 1x D
5: 2x D
6: 3x A
```

## aaron chest

**Rules:**
```
1: 6l
2: -
3: 1r,2l,4r
4: 3l
5: 6r
6: 4r,2r
```

**Start:** `[1, 5, 6, 6, 6, 5]`

**Solution:** (60 clicks — solved by locks)
```
1: 4x A
2: 4x D
3: 1x D
2: 1x D
3: 1x D
2: 1x D
3: 1x D
2: 1x D
3: 1x D
2: 1x D
4: 1x D
6: 1x A
1: 1x A
2: 1x D
3: 1x D
2: 1x D
6: 1x A
1: 1x A
2: 1x D
3: 1x D
2: 1x D
6: 1x A
1: 1x A
2: 1x D
4: 1x D
6: 1x A
1: 1x A
2: 1x D
3: 1x D
2: 1x D
6: 1x A
1: 1x A
2: 1x D
4: 1x D
6: 1x A
1: 1x A
2: 1x D
3: 1x D
2: 1x D
6: 1x A
1: 1x A
2: 1x D
4: 1x D
6: 1x A
2: 1x D
4: 1x D
5: 1x D
6: 1x A
2: 1x D
4: 1x D
5: 1x D
6: 3x A
```

## first cor kalom chest

**Rules:**
```
1: 4r
2: 1r,4r
3: 2l,1r
4: -
```

**Start:** `[7, 7, 6, 1]`

**Solution:** (15 clicks — solved by locks)
```
4: 1x A
2: 1x D
1: 1x A
2: 1x D
1: 1x A
2: 1x D
1: 1x A
2: 1x D
1: 1x A
2: 1x D
3: 2x D
4: 3x A
```

## second cor kalom chest

**Rules:**
```
1: 3r
2: -
3: 2l,5l
4: 1l,3r
5: 2l,4r
6: -
```

**Start:** `[6, 5, 5, 7, 1, 4]`

**Solution:** (59 clicks — solved by locks)
```
1: 1x A
2: 4x D
3: 1x D
2: 1x D
3: 1x D
2: 1x D
3: 1x D
2: 1x D
3: 1x D
2: 1x D
3: 1x D
2: 1x D
5: 1x D
2: 1x D
4: 1x A
1: 1x A
3: 1x D
2: 1x D
3: 1x D
2: 1x D
5: 1x D
2: 1x D
4: 1x A
1: 1x A
3: 1x D
2: 1x D
5: 1x D
2: 1x D
3: 1x D
2: 1x D
4: 1x A
1: 1x A
5: 1x D
2: 1x D
3: 1x D
2: 1x D
4: 1x A
1: 1x A
5: 1x D
2: 1x D
3: 1x D
2: 1x D
4: 1x A
5: 1x D
2: 1x D
3: 1x D
2: 1x D
4: 1x A
5: 1x D
2: 1x D
3: 1x D
2: 1x D
4: 1x A
5: 3x D
```

## bridge near new camp

**Rules:**
```
1: 2r,3l,4l,5r,6r
2: 1l,5l
3: -
4: 5l
5: 2r,4l
6: -
```

**Start:** `[6, 5, 2, 5, 7, 4]`

**Solution:** (25 clicks — solved by locks)
```
2: 1x A
1: 1x A
3: 4x A
5: 1x D
1: 1x A
5: 1x D
2: 1x A
4: 2x D
5: 1x D
2: 1x A
4: 2x D
5: 1x D
2: 1x A
4: 2x D
5: 3x D
6: 2x D
```

## Left chest near cain body flooded mine

**Rules:**
```
1: 4l
2: 1r,3l,5l
3: 1l,2r
4: 3l,5l
5: 1r,2l
```

**Start:** `[4, 5, 6, 5, 1]`

**Solution:** (34 clicks — solved by locks)
```
1: 2x D
3: 4x D
4: 1x D
1: 1x D
2: 1x A
3: 1x D
4: 1x D
1: 1x D
2: 1x A
4: 1x D
1: 1x D
2: 1x A
4: 1x D
1: 1x D
2: 1x A
4: 1x D
1: 1x D
3: 1x D
4: 1x D
1: 1x D
3: 1x D
4: 1x D
1: 1x D
3: 1x D
4: 3x D
5: 3x D
```

## Orc cementary near final Baal Lukora

**Rules:**
```
1: -
2: -
3: -
4: 1l,2r,3l
5: 1l
6: 1l,4l
```

**Start:** `[4, 5, 6, 1, 5, 1]`

**Solution:** (29 clicks — solved by locks)
```
1: 3x A
2: 4x D
3: 1x A
4: 1x A
1: 1x A
2: 1x D
3: 1x A
4: 1x A
1: 1x A
2: 1x D
3: 1x A
4: 1x A
1: 1x A
2: 1x D
3: 1x A
4: 1x A
1: 1x A
4: 1x A
1: 1x A
4: 1x A
5: 1x D
6: 3x A
```

## Trial of fire chest

**Rules:**
```
1: 5r,6l
2: 6r
3: 1l
4: 1l
5: 6l
6: 3l
```

**Start:** `[5, 1, 7, 7, 6, 4]`

**Solution:** (41 clicks — solved by locks)
```
1: 3x D
3: 5x D
5: 1x A
1: 1x D
3: 1x D
5: 1x A
1: 1x D
4: 1x D
5: 1x A
1: 1x D
4: 1x D
5: 1x A
1: 1x D
4: 1x D
5: 1x A
1: 1x D
5: 1x A
1: 1x D
5: 1x A
1: 1x D
5: 1x A
1: 1x D
5: 1x A
1: 1x D
5: 1x A
2: 1x A
6: 1x D
2: 1x A
3: 1x D
6: 1x D
2: 1x A
3: 1x D
6: 3x D
```

## Wood Camp near zombie stone circle

**Rules:**
```
1: 6l
2: 1r
3: 7r
4: 1r,7l
5: 4l,7r
6: 1r
7: 6r,1r
```

**Start:** `[7, 5, 1, 7, 6, 5, 6]`

**Solution:** (30 clicks — solved by locks)
```
2: 1x D
1: 1x A
3: 1x A
7: 1x D
1: 1x A
3: 1x A
7: 1x D
3: 1x A
6: 1x A
7: 1x D
4: 1x D
5: 1x D
4: 1x D
5: 1x D
4: 1x D
6: 4x A
7: 1x D
4: 1x D
6: 2x A
7: 1x D
4: 1x D
6: 2x A
7: 3x D
```

## First chest stone fortress

**Rules:**
```
1: 2r
2: -
3: 1r,4l,6l
4: 6l
5: -
6: 5l,1r
```

**Start:** `[5, 7, 7, 6, 3, 1]`

**Solution:** (34 clicks — solved by locks)
```
2: 1x D
1: 1x A
2: 1x D
1: 1x A
2: 6x D
3: 1x D
1: 1x A
2: 1x D
4: 1x D
3: 1x D
1: 1x A
2: 1x D
4: 1x D
3: 1x D
1: 1x A
4: 1x D
5: 2x D
6: 1x D
1: 1x A
4: 1x D
5: 1x D
6: 1x D
1: 1x A
4: 1x D
5: 1x D
6: 3x D
```

## second chect stone fortress

**Rules:**
```
1: 3r,5l
2: 5l
3: -
4: 1l,2r
5: 3r,1l,2l
6: 4l,1l
```

**Start:** `[2, 2, 6, 6, 4, 7]`

**Solution:** (28 clicks — solved by locks)
```
1: 1x D
2: 4x A
3: 2x A
4: 1x D
1: 1x D
2: 1x A
3: 1x A
4: 1x D
1: 1x D
2: 1x A
3: 1x A
4: 1x D
1: 1x D
3: 1x A
4: 1x D
1: 1x D
3: 1x A
4: 1x D
1: 1x D
5: 1x D
1: 1x D
6: 3x D
```

## Chest on top stone fortress

**Rules:**
```
1: 5r
2: 3l,6r
3: 2r,5r,6l
4: 5r
5: 3l,4r,6l
6: -
```

**Start:** `[2, 7, 4, 7, 1, 6]`

**Solution:** (58 clicks — solved by locks)
```
1: 2x A
2: 3x D
4: 2x D
5: 1x A
2: 1x D
4: 1x D
6: 1x A
5: 1x A
4: 1x D
6: 1x A
2: 1x D
6: 1x A
5: 1x A
4: 1x D
6: 1x A
2: 1x D
6: 1x A
5: 1x A
4: 1x D
6: 1x A
3: 1x A
4: 1x D
6: 1x A
5: 1x A
4: 1x D
6: 1x A
2: 1x D
6: 1x A
5: 1x A
4: 1x D
6: 1x A
3: 1x A
4: 1x D
6: 1x A
5: 1x A
4: 1x D
6: 1x A
3: 1x A
4: 1x D
6: 1x A
5: 1x A
4: 1x D
6: 1x A
3: 1x A
4: 1x D
6: 1x A
5: 1x A
6: 1x A
5: 1x A
6: 1x A
5: 1x A
6: 3x A
```

## under water chest

**Rules:**
```
1: 2r,4r
2: 1r,3r
3: 1r
4: -
```

**Start:** `[2, 5, 7, 7]`

**Solution:** (22 clicks — solved by locks)
```
2: 1x D
3: 1x A
2: 1x D
3: 1x A
2: 1x D
3: 1x A
2: 1x D
4: 1x D
1: 1x A
2: 1x D
4: 1x D
1: 1x A
2: 1x D
4: 1x D
1: 1x A
4: 1x D
1: 1x A
4: 1x D
1: 1x A
4: 3x D
```

## Lockpicking II: Chest inside new camp near buster

**Rules:**
```
1: 5l
2: 5r
3: -
4: 1l,3r,6r
5: 1l,2r,3l
6: 5l
```

**Start:** `[5, 4, 3, 1, 2, 2]`

**Solution:** (16 clicks — solved by locks)
```
1: 1x D
2: 3x A
3: 2x D
4: 1x A
3: 1x D
4: 1x A
3: 1x D
4: 1x A
3: 1x D
5: 3x D
6: 1x D
```

## Aarlan prison cage

**Rules:**
```
1: 6l
2: 3r,5l
3: 4l
4: 5l
5: 4l
6: 4r
7: 1l,3l
```

**Start:** `[1, 1, 3, 1, 7, 6, 7]`

**Solution:** (13 clicks — solved by locks)
```
2: 3x A
3: 5x D
6: 2x D
7: 3x D
```
"#;

fn rules(arr: &[&str]) -> Vec<String> {
    arr.iter().map(|s| s.to_string()).collect()
}

// Replay a grouped solution from `start`, returning the final state.
// Errors if any plate leaves the 1..7 track mid-sequence (a wall hit).
fn replay(
    start: &[i32],
    mat: &[Vec<i32>],
    steps: &[(usize, char, usize)],
) -> Result<Vec<i32>, String> {
    let mut s = start.to_vec();
    for &(tumbler, key, count) in steps {
        for _ in 0..count {
            apply_click(&mut s, mat, tumbler, key);
            for (i, &v) in s.iter().enumerate() {
                if !(1..=7).contains(&v) {
                    return Err(format!("plate {} hit wall at {}", i + 1, v));
                }
            }
        }
    }
    Ok(s)
}

#[test]
fn rule_to_delta_basic() {
    let d = rule_to_delta(0, "3r, 5l", 6).unwrap();
    assert_eq!(d, vec![-1, 0, -1, 0, 1, 0]);
}

#[test]
fn rule_to_delta_dash_is_self_only() {
    assert_eq!(rule_to_delta(2, "-", 6).unwrap(), vec![0, 0, -1, 0, 0, 0]);
    assert_eq!(rule_to_delta(2, "", 6).unwrap(), vec![0, 0, -1, 0, 0, 0]);
}

#[test]
fn rule_to_delta_accumulates_repeats() {
    let d = rule_to_delta(0, "2r, 2r", 6).unwrap();
    assert_eq!(d[1], -2);
}

#[test]
fn rule_to_delta_rejects_bad_input() {
    assert!(rule_to_delta(0, "9r", 6).is_err()); // plate out of range for n=6
    assert!(rule_to_delta(0, "3x", 6).is_err()); // bad direction
    assert!(rule_to_delta(0, "zr", 6).is_err()); // non-numeric plate
}

#[test]
fn apply_click_inverts() {
    let mat = build_matrix(&rules(&["3r, 5l", "-", "-", "-", "-", "-"])).unwrap();
    let mut s = vec![4, 4, 4, 4, 4, 4];
    apply_click(&mut s, &mat, 1, 'D');
    apply_click(&mut s, &mat, 1, 'A');
    assert_eq!(s, vec![4, 4, 4, 4, 4, 4]);
}

#[test]
fn solve_already_at_goal() {
    let mat = build_matrix(&rules(&["-"; 6])).unwrap();
    let sol = solve(&goal(6), &mat).expect("goal is trivially solvable");
    assert_eq!(sol.total, 0);
    assert!(sol.steps.is_empty());
}

#[test]
fn solve_independent_tumblers() {
    let mat = build_matrix(&rules(&["-"; 6])).unwrap();
    let sol = solve(&[5, 5, 5, 5, 5, 5], &mat).expect("solvable");
    assert_eq!(sol.total, 6);
    let end = replay(&[5, 5, 5, 5, 5, 5], &mat, &sol.steps).unwrap();
    assert_eq!(end, goal(6));
}

#[test]
fn solve_three_tumblers() {
    // a coupled 3-tumbler lock
    let mat = build_matrix(&rules(&["2r", "-", "1l"])).unwrap();
    let sol = solve(&[6, 2, 5], &mat).expect("solvable");
    let end = replay(&[6, 2, 5], &mat, &sol.steps).unwrap();
    assert_eq!(end, goal(3));
}

#[test]
fn solve_eight_tumblers_independent() {
    let mat = build_matrix(&rules(&["-"; 8])).unwrap();
    let sol = solve(&vec![5; 8], &mat).expect("solvable");
    assert_eq!(sol.total, 8);
    assert_eq!(replay(&vec![5; 8], &mat, &sol.steps).unwrap(), goal(8));
}

#[test]
fn solve_detects_unsolvable_invariant() {
    let mat = build_matrix(&rules(&["2r", "1r", "-", "-", "-", "-"])).unwrap();
    assert!(solve(&[4, 5, 4, 4, 4, 4], &mat).is_none());
}

#[test]
fn solve_result_reaches_goal_within_walls() {
    let r = rules(&["3r, 6l", "-", "1r, 4l, 6r", "2r, 5r, 6l", "-", "3l"]);
    let mat = build_matrix(&r).unwrap();
    let start = [5, 3, 6, 7, 2, 7];
    let sol = solve(&start, &mat).expect("solvable");
    let end = replay(&start, &mat, &sol.steps).expect("no wall hit");
    assert_eq!(end, goal(6));
    let clicks: usize = sol.steps.iter().map(|(_, _, n)| n).sum();
    assert_eq!(clicks, sol.total);
}

#[test]
fn parse_int_array_ok_and_bad() {
    assert_eq!(parse_int_array("[5, 3, 6, 7, 2, 7]"), Some(vec![5, 3, 6, 7, 2, 7]));
    assert_eq!(parse_int_array("Start: `[1,4,5]`"), Some(vec![1, 4, 5]));
    assert_eq!(parse_int_array("no brackets"), None);
}

#[test]
fn parse_solution_steps_roundtrip() {
    let lines = vec!["4: 2x D".to_string(), "1: 3x A".to_string()];
    let steps = parse_solution_steps(&lines, 6).unwrap();
    assert_eq!(steps, vec![(4, 'D', 2), (1, 'A', 3)]);
}

#[test]
fn parse_solution_steps_rejects_free_text() {
    assert!(parse_solution_steps(&["already centred".to_string()], 6).is_none());
    assert!(parse_solution_steps(&["7: 1x D".to_string()], 6).is_none()); // tumbler > n
    assert!(parse_solution_steps(&[], 6).is_none());
}

#[test]
fn solution_lines_format() {
    let sol = Solution {
        total: 3,
        steps: vec![(4, 'D', 2), (1, 'A', 1)],
    };
    assert_eq!(solution_lines(&sol), vec!["4: 2x D", "1: 1x A"]);
}

#[test]
fn parse_input_reads_rules_and_start() {
    let text = "Name: test\nRules:\n1: 3r, 6l\n2: -\n3: -\n4: -\n5: -\n6: -\nStart:\n[5, 3, 6, 7, 2, 7]\n";
    let (name, rules, start) = parse_input(text).unwrap();
    assert_eq!(name, "test");
    assert_eq!(rules.len(), 6);
    assert_eq!(rules[0], "3r, 6l");
    assert_eq!(start, vec![5, 3, 6, 7, 2, 7]);
}

#[test]
fn parse_input_infers_three_tumblers() {
    let text = "Rules:\n1: 2r\n2: -\n3: 1l\nStart:\n[6, 2, 5]\n";
    let (_, rules, start) = parse_input(text).unwrap();
    assert_eq!(rules.len(), 3);
    assert_eq!(start.len(), 3);
}

#[test]
fn parse_input_requires_start_and_valid_count() {
    assert!(parse_input("Rules:\n1: 3r\n").is_err()); // no start
    // 1 tumbler is below the supported range
    assert!(parse_input("Rules:\n1: -\nStart:\n[4]\n").is_err());
    // start count mismatch
    assert!(parse_input("Rules:\n1: -\n2: -\n3: -\nStart:\n[4, 4]\n").is_err());
}

#[test]
fn parse_history_extracts_sections() {
    let md = "\
# History\n\n## My Lock\n\n**Rules:**\n```\n1: 2l\n2: -\n```\n\n\
**Start:** `[3, 4]`\n\n**Solution:**\n```\n1: 2x D\n2: 1x A\n```\n";
    let locks = parse_history(md);
    assert_eq!(locks.len(), 1);
    let l = &locks[0];
    assert_eq!(l.name, "My Lock");
    assert_eq!(l.rules.len(), 2);
    assert_eq!(l.rules[0], "2l");
    assert_eq!(l.start, Some(vec![3, 4]));
    assert_eq!(l.solution, vec!["1: 2x D".to_string(), "2: 1x A".to_string()]);
}

#[test]
fn replace_lock_rewrites_in_place() {
    let md = "# History\n\n## A\n\nbody a\n\n## B\n\nold b\n\n## C\n\nbody c\n";
    let r = rules(&["3r", "-", "-"]);
    let sol = solve(&[5, 4, 4], &build_matrix(&r).unwrap()).unwrap();
    let after = replace_lock(md, 1, "B2", &r, &[5, 4, 4], &sol).unwrap();
    let locks = parse_history(&after);
    // same count, B replaced by B2 with the new rules/start
    assert_eq!(locks.iter().map(|l| l.name.clone()).collect::<Vec<_>>(), ["A", "B2", "C"]);
    assert_eq!(locks[1].rules, r);
    assert_eq!(locks[1].start, Some(vec![5, 4, 4]));
    assert_eq!(locks[0].name, "A"); // neighbours intact
    assert_eq!(locks[2].name, "C");
    assert!(replace_lock(md, 9, "x", &r, &[5, 4, 4], &sol).is_none());
}

#[test]
fn remove_lock_drops_the_right_section() {
    let md = "# History\n\n## A\n\nbody a\n\n## B\n\nbody b\n\n## C\n\nbody c\n";
    let after = remove_lock(md, 1).unwrap();
    let names: Vec<String> = parse_history(&after).into_iter().map(|l| l.name).collect();
    assert_eq!(names, vec!["A".to_string(), "C".to_string()]);
    assert!(remove_lock(md, 9).is_none());
}

#[test]
fn lock_markdown_roundtrips_through_parser() {
    let r = rules(&["3r, 6l", "-", "-", "-", "-", "-"]);
    let start = [5, 4, 4, 4, 4, 4];
    let sol = solve(&start, &build_matrix(&r).unwrap()).unwrap();
    let md = lock_markdown("Roundtrip", &r, &start, &sol);
    let parsed = parse_history(&md);
    assert_eq!(parsed.len(), 1);
    assert_eq!(parsed[0].name, "Roundtrip");
    assert_eq!(parsed[0].start, Some(start.to_vec()));
    assert_eq!(parsed[0].rules.len(), 6);
    assert_eq!(parsed[0].rules[0], "3r, 6l");
}

// Core-logic invariant against the checked-in history.
#[test]
fn solver_output_is_always_wall_safe() {
    let locks = parse_history(HISTORY);
    let mut checked = 0;
    for l in &locks {
        let start = match &l.start {
            Some(s) => s.clone(),
            None => continue,
        };
        let mat = build_matrix(&l.rules)
            .unwrap_or_else(|e| panic!("lock '{}' has bad rules: {}", l.name, e));
        let sol = solve(&start, &mat)
            .unwrap_or_else(|| panic!("lock '{}' is unsolvable per solver", l.name));
        let end = replay(&start, &mat, &sol.steps)
            .unwrap_or_else(|e| panic!("lock '{}' solver output hit a wall: {}", l.name, e));
        assert_eq!(end, goal(start.len()), "lock '{}' misses the goal", l.name);
        checked += 1;
    }
    assert!(checked >= 5);
}

#[test]
fn recorded_solutions_replay_to_goal() {
    let locks = parse_history(HISTORY);
    let mut checked = 0;
    for l in &locks {
        let (start, steps) = match (&l.start, parse_solution_steps(&l.solution, l.rules.len())) {
            (Some(s), Some(st)) => (s.clone(), st),
            _ => continue,
        };
        let mat = build_matrix(&l.rules).unwrap();
        let end = replay(&start, &mat, &steps)
            .unwrap_or_else(|e| panic!("lock '{}' recorded solution hit a wall: {}", l.name, e));
        assert_eq!(end, goal(start.len()), "lock '{}' recorded misses goal", l.name);

        let recorded: usize = steps.iter().map(|(_, _, n)| n).sum();
        let optimal = solve(&start, &mat).unwrap().total;
        assert!(optimal <= recorded, "lock '{}': {} > {}", l.name, optimal, recorded);
        checked += 1;
    }
    assert!(checked >= 5);
}
