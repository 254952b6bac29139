use nvimpam::card::keyword::Keyword::{Node, Shell};
use nvimpam::folds::{FoldError, FoldList};

const LINES: [&'static str; 20] = [
  /* 0 */
  "NODE  /        1              0.             0.5              0.",
  /* 1 */
  "NODE  /        1              0.             0.5              0.",
  /* 2 */
  "NODE  /        1              0.             0.5              0.",
  /* 3 */
  "NODE  /        1              0.             0.5              0.",
  /* 4 */
  "#Comment here",
  /* 5 */
  "SHELL /     3129       1       1    2967    2971    2970",
  /* 6 */
  "invalid line here",
  /* 7 */
  "SHELL /     3129       1       1    2967    2971    2970",
  /* 8 */
  "SHELL /     3129       1       1    2967    2971    2970",
  /* 9 */
  "#Comment",
  /* 10 */
  "#Comment",
  /* 11 */
  "SHELL /     3129       1       1    2967    2971    2970",
  /* 12 */
  "SHELL /     3129       1       1    2967    2971    2970",
  /* 13 */
  "$Comment",
  /* 14 */
  "SHELL /     3129       1       1    2967    2971    2970",
  /* 15 */
  "SHELL /     3129       1       1    2967    2971    2970",
  /* 16 */
  "$Comment",
  /* 17 */
  "#Comment",
  /* 18 */
  "NODE  /        1              0.             0.5              0.",
  /* 19 */
  "NODE  /        1              0.             0.5              0.",
];

const LINES2: [&'static str; 24] = [
  // 0
  "NODE  /        1              0.             0.5              0.",
  // 1
  "NODE  /        1              0.             0.5              0.",
  // 2
  "NODE  /        1              0.             0.5              0.",
  // 3
  "NODE  /        1              0.             0.5              0.",
  // 4
  "#Comment here",
  // 5
  "SHELL /     3129       1       1    2967    2971    2970",
  // 6
  "NODE  /     3129       1       1    2967    2971    2970",
  // 7
  "NODE  /     3129       1       1    2967    2971    2970",
  // 8
  "#Comment",
  // 9
  "#Comment",
  // 10
  "SHELL /     3129       1       1    2967    2971    2970",
  // 11
  "SHELL /     3129       1       1    2967    2971    2970",
  // 12
  "$Comment",
  // 13
  "SHELL /     3129       1       1    2967    2971    2970",
  // 14
  "SHELL /     3129       1       1    2967    2971    2970",
  // 15
  "$Comment",
  // 16
  "#Comment",
  // 17
  "NODE  /        1              0.             0.5              0.",
  // 18
  "NODE  /        1              0.             0.5              0.",
  // 19
  "NODE  /        1              0.             0.5              0.",
  // 20
  "SHELL /     3129       1       1    2967    2971    2970",
  // 21
  "SHELL /     3129       1       1    2967    2971    2970",
  // 22
  "SHELL /     3129       1       1    2967    2971    2970",
  // 23
  "SHELL /     3129       1       1    2967    2971    2970",
];

#[test]
fn fold_general() {
    let mut v = vec![(0, 3, Node), (7, 15, Shell), (18, 19, Node)];
    let mut foldlist = FoldList::new();
    let _ = foldlist.add_folds(&LINES);
    assert_eq!(v, foldlist.into_vec());

    v = vec![(3, 11, Shell), (14, 15, Node)];
    let mut foldlist = FoldList::new();
    let _ = foldlist.add_folds(&LINES[4..]);
    assert_eq!(v, foldlist.into_vec());

    v = vec![(1, 9, Shell), (12, 13, Node)];
    let mut foldlist = FoldList::new();
    let _ = foldlist.add_folds(&LINES[6..]);
    assert_eq!(v, foldlist.into_vec());

    v = vec![(1, 2, Shell)];
    let mut foldlist = FoldList::new();
    let _ = foldlist.add_folds(&LINES[13..19]);
    assert_eq!(v, foldlist.into_vec());
}

#[test]
fn fold_general_gather() {
    let v = vec![
        (0, 3, Node),
        (6, 7, Node),
        (10, 14, Shell),
        (17, 19, Node),
        (20, 23, Shell),
    ];
    let mut foldlist = FoldList::new();
    let _ = foldlist.add_folds(&LINES2);
    assert_eq!(v, foldlist.into_vec());
}

#[test]
fn insert_then_remove() {
    let mut foldlist = FoldList::new();
    assert_eq!(foldlist.checked_insert(1, 2, Node), Ok(()));
    assert_eq!(foldlist.remove(2, 3), Err(FoldError::NotFound));
    assert_eq!(foldlist.remove(1, 2), Ok(()));
    assert_eq!(foldlist.into_vec(), vec![]);
}

#[test]
fn duplicate_insert_is_rejected() {
    let mut foldlist = FoldList::new();
    assert_eq!(foldlist.checked_insert(4, 9, Shell), Ok(()));
    assert_eq!(foldlist.checked_insert(4, 9, Node), Err(FoldError::Duplicate));
    assert_eq!(foldlist.into_vec(), vec![(4, 9, Shell)]);
}

#[test]
fn short_fold_is_ignored() {
    let mut foldlist = FoldList::new();
    assert_eq!(foldlist.checked_insert(5, 5, Node), Ok(()));
    assert_eq!(foldlist.checked_insert(7, 3, Node), Ok(()));
    assert_eq!(foldlist.into_vec(), vec![]);
}

#[test]
fn inserts_are_kept_in_order() {
    let mut foldlist = FoldList::new();
    assert_eq!(foldlist.checked_insert(10, 12, Node), Ok(()));
    assert_eq!(foldlist.checked_insert(1, 5, Shell), Ok(()));
    assert_eq!(foldlist.checked_insert(10, 11, Shell), Ok(()));
    assert_eq!(foldlist.checked_insert(3, 4, Node), Ok(()));
    assert_eq!(foldlist.remove(10, 12), Ok(()));
    assert_eq!(foldlist.remove(10, 12), Err(FoldError::NotFound));
    assert_eq!(
        foldlist.into_vec(),
        vec![(1, 5, Shell), (3, 4, Node), (10, 11, Shell)]
    );
}

#[test]
fn clear_empties_the_list() {
    let mut foldlist = FoldList::new();
    let _ = foldlist.add_folds(&LINES);
    foldlist.clear();
    assert_eq!(foldlist.into_vec(), vec![]);
}

#[test]
fn rebuild_is_idempotent() {
    let mut foldlist = FoldList::new();
    assert_eq!(foldlist.add_folds(&LINES2), Ok(()));
    let first = foldlist.into_vec();
    let mut foldlist = FoldList::new();
    assert_eq!(foldlist.add_folds(&LINES2), Ok(()));
    assert_eq!(foldlist.add_folds(&LINES2), Ok(()));
    assert_eq!(first, foldlist.into_vec());
}

#[test]
fn recreate_all_replaces_old_folds() {
    let lines: Vec<String> = LINES.iter().map(|l| l.to_string()).collect();
    let mut foldlist = FoldList::new();
    assert_eq!(foldlist.checked_insert(100, 200, Node), Ok(()));
    assert_eq!(foldlist.recreate_all(&lines), Ok(()));
    assert_eq!(
        foldlist.into_vec(),
        vec![(0, 3, Node), (7, 15, Shell), (18, 19, Node)]
    );
}

#[test]
fn folds_are_disjoint_and_span_two_lines() {
    for start in 0..LINES2.len() {
        let mut foldlist = FoldList::new();
        let _ = foldlist.add_folds(&LINES2[start..]);
        let v = foldlist.into_vec();
        for (i, f) in v.iter().enumerate() {
            assert!(f.0 < f.1);
            if i + 1 < v.len() {
                assert!(f.1 < v[i + 1].0);
            }
        }
    }
}

const NODE: &str = "NODE  /        1              0.             0.5              0.";
const SHELL: &str = "SHELL /     3129       1       1    2967    2971    2970";

#[test]
fn comments_between_same_cards_are_absorbed() {
    let lines = [NODE, "#a", "$b", NODE];
    let mut foldlist = FoldList::new();
    let _ = foldlist.add_folds(&lines);
    assert_eq!(foldlist.into_vec(), vec![(0, 3, Node)]);
}

#[test]
fn comments_between_different_cards_are_dropped() {
    let lines = ["#lead", NODE, NODE, "#a", SHELL, SHELL, "$tail"];
    let mut foldlist = FoldList::new();
    let _ = foldlist.add_folds(&lines);
    assert_eq!(foldlist.into_vec(), vec![(1, 2, Node), (4, 5, Shell)]);
}

#[test]
fn unrecognized_line_breaks_a_run() {
    let lines = [NODE, NODE, "garbage", NODE, NODE];
    let mut foldlist = FoldList::new();
    let _ = foldlist.add_folds(&lines);
    assert_eq!(foldlist.into_vec(), vec![(0, 1, Node), (3, 4, Node)]);

    let lines = [NODE, "", NODE];
    let mut foldlist = FoldList::new();
    let _ = foldlist.add_folds(&lines);
    assert_eq!(foldlist.into_vec(), vec![]);
}

#[test]
fn run_at_end_of_input_closes() {
    let lines = [SHELL, "#c", SHELL, SHELL, "#c"];
    let mut foldlist = FoldList::new();
    let _ = foldlist.add_folds(&lines);
    assert_eq!(foldlist.into_vec(), vec![(0, 3, Shell)]);
}

#[test]
fn empty_input_has_no_folds() {
    let lines: [&str; 0] = [];
    let mut foldlist = FoldList::new();
    assert_eq!(foldlist.add_folds(&lines), Ok(()));
    assert_eq!(foldlist.into_vec(), vec![]);
}
