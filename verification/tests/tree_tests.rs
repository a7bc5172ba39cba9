use tree_editor::tree::{big_tree, Index, NavError, Tooth, Tree};

fn leaf(label: &str) -> Tree {
    Tree::mk(label, &[])
}

#[test]
fn tree_wrap_with_tooth_test1() {
    let tree = Tree::mk("B", &[]);

    let tree_new = tree.wrap_with_tooth(Tooth {
        label: "A".to_string(),
        kids_left: vec![Tree { label: "L".to_string(), kids: vec![] }],
        kids_right: vec![Tree { label: "R".to_string(), kids: vec![] }],
    });

    assert_eq!(
        tree_new,
        Tree::mk(
            "A",
            &[Tree::mk("L", &[]), Tree::mk("B", &[]), Tree::mk("R", &[])]
        )
    )
}

#[test]
fn tree_wrap_with_path_test1() {
    let tree = Tree::mk("B", &[]);

    let tree_new = tree.wrap_with_path(vec![Tooth::mk(
        "A",
        &[Tree::mk("L", &[])],
        &[Tree::mk("R", &[])],
    )]);

    assert_eq!(
        tree_new,
        Tree::mk(
            "A",
            &[Tree::mk("L", &[]), Tree::mk("B", &[]), Tree::mk("R", &[])]
        )
    )
}

#[test]
fn tree_wrap_with_path_test2() {
    let tree = Tree::mk("B", &[]);

    let tree_new = tree.wrap_with_path(vec![
        Tooth::mk("A1", &[Tree::mk("L", &[])], &[Tree::mk("R", &[])]),
        Tooth::mk("A2", &[Tree::mk("L", &[])], &[Tree::mk("R", &[])]),
        Tooth::mk("A3", &[Tree::mk("L", &[])], &[Tree::mk("R", &[])]),
    ]);

    assert_eq!(
        tree_new,
        Tree::mk(
            "A1",
            &[
                Tree::mk("L", &[]),
                Tree::mk(
                    "A2",
                    &[
                        Tree::mk("L", &[]),
                        Tree::mk(
                            "A3",
                            &[Tree::mk("L", &[]), Tree::mk("B", &[]), Tree::mk("R", &[])]
                        ),
                        Tree::mk("R", &[])
                    ]
                ),
                Tree::mk("R", &[])
            ]
        )
    )
}

#[test]
fn tree_wrap_with_path_at_test1() {
    let tree = Tree::mk("B", &[]);

    let mut tree_new = tree.clone();
    tree_new.wrap_with_path_at_index(
        &Index(vec![]),
        vec![Tooth::mk("A", &[Tree::mk("L", &[])], &[Tree::mk("R", &[])])],
    );

    assert_eq!(
        tree_new,
        Tree::mk(
            "A",
            &[Tree::mk("L", &[]), Tree::mk("B", &[]), Tree::mk("R", &[])]
        )
    )
}

#[test]
fn tree_wrap_with_path_at_test2() {
    let tree = Tree::mk("B1", &[Tree::mk("B2", &[])]);

    let mut tree_new = tree.clone();
    tree_new.wrap_with_path_at_index(
        &Index(vec![0]),
        vec![Tooth::mk("A", &[Tree::mk("L", &[])], &[Tree::mk("R", &[])])],
    );

    assert_eq!(
        tree_new,
        Tree::mk(
            "B1",
            &[Tree::mk(
                "A",
                &[Tree::mk("L", &[]), Tree::mk("B2", &[]), Tree::mk("R", &[])]
            )]
        )
    )
}

/// The sample document used by the movement tests:
/// root -> [a -> [b, c], d].
fn sample() -> Tree {
    Tree::mk(
        "root",
        &[Tree::mk("a", &[leaf("b"), leaf("c")]), leaf("d")],
    )
}

#[test]
fn index_basic_ops() {
    let mut idx = Index::default();
    assert_eq!(idx.len(), 0);
    assert_eq!(idx.get(0), None);
    idx.push(3);
    idx.push(7);
    assert_eq!(idx.len(), 2);
    assert_eq!(idx.get(0), Some(3));
    assert_eq!(idx.get(1), Some(7));
    assert_eq!(idx.get(2), None);
    assert_eq!(idx.shift(), Some(3));
    assert_eq!(idx, Index(vec![7]));
    assert_eq!(idx.pop(), Some(7));
    assert_eq!(idx.pop(), None);
    assert_eq!(idx.shift(), None);
}

#[test]
fn index_unsafe_moves() {
    let mut idx = Index(vec![1, 2]);
    idx.move_right_sibling_unsafe();
    assert_eq!(idx, Index(vec![1, 3]));
    idx.move_left_sibling_unsafe();
    assert_eq!(idx, Index(vec![1, 2]));
    idx.move_up_unsafe();
    assert_eq!(idx, Index(vec![1]));
    idx.move_down_unsafe(5);
    assert_eq!(idx, Index(vec![1, 5]));

    let mut at_zero = Index(vec![0]);
    at_zero.move_left_sibling_unsafe();
    assert_eq!(at_zero, Index(vec![0]));

    let mut root = Index(vec![]);
    root.move_up_unsafe();
    root.move_left_sibling_unsafe();
    root.move_right_sibling_unsafe();
    assert_eq!(root, Index(vec![]));
}

#[test]
fn child_at_returns_child_or_error() {
    let t = sample();
    assert_eq!(t.child_at(0).unwrap().label, "a");
    assert_eq!(t.child_at(1).unwrap().label, "d");
    assert_eq!(t.child_at(2), Err(NavError::NoSuchChild));
}

#[test]
fn at_index_finds_nodes() {
    let t = sample();
    assert_eq!(t.at_index(&Index(vec![])).unwrap().label, "root");
    assert_eq!(t.at_index(&Index(vec![0])).unwrap().label, "a");
    assert_eq!(t.at_index(&Index(vec![0, 1])).unwrap().label, "c");
    assert_eq!(t.at_index(&Index(vec![1])).unwrap().label, "d");
    assert_eq!(t.at_index_unsafe(&Index(vec![0, 0])).label, "b");
}

#[test]
fn at_index_reports_first_invalid_step() {
    let t = sample();
    assert_eq!(
        t.at_index(&Index(vec![2])),
        Err(NavError::InvalidAddress { depth: 0, step: 2 })
    );
    assert_eq!(
        t.at_index(&Index(vec![0, 5, 1])),
        Err(NavError::InvalidAddress { depth: 1, step: 5 })
    );
}

#[test]
fn in_bounds_checks_every_step() {
    let t = sample();
    assert!(t.is_index_in_bounds(&Index(vec![])));
    assert!(t.is_index_in_bounds(&Index(vec![0, 1])));
    assert!(t.is_index_in_bounds(&Index(vec![1])));
    assert!(!t.is_index_in_bounds(&Index(vec![2])));
    assert!(!t.is_index_in_bounds(&Index(vec![0, 2])));
    assert!(!t.is_index_in_bounds(&Index(vec![1, 0])));
    assert!(!t.is_index_in_bounds(&Index(vec![0, 0, 0])));
}

#[test]
fn checked_moves_succeed_and_fail_as_specified() {
    let t = sample();

    let mut idx = Index::default();
    assert_eq!(idx.move_up(), Err(NavError::NoParent));
    assert_eq!(idx, Index(vec![]));

    assert_eq!(idx.move_down(&t, 2), Err(NavError::NoSuchChild));
    assert_eq!(idx, Index(vec![]));
    assert_eq!(idx.move_down(&t, 0), Ok(()));
    assert_eq!(idx, Index(vec![0]));

    assert_eq!(idx.move_left(&t), Err(NavError::NoLeftSibling));
    assert_eq!(idx, Index(vec![0]));
    assert_eq!(idx.move_right(&t), Ok(()));
    assert_eq!(idx, Index(vec![1]));
    assert_eq!(idx.move_right(&t), Err(NavError::NoRightSibling));
    assert_eq!(idx, Index(vec![1]));
    assert_eq!(idx.move_left(&t), Ok(()));
    assert_eq!(idx, Index(vec![0]));
    assert_eq!(idx.move_up(), Ok(()));
    assert_eq!(idx, Index(vec![]));
}

#[test]
fn rejected_moves_leave_index_unchanged() {
    let t = sample();
    let mut idx = Index(vec![0, 1]);
    assert_eq!(idx.move_right(&t), Err(NavError::NoRightSibling));
    assert_eq!(idx, Index(vec![0, 1]));
    assert_eq!(idx.move_down(&t, 0), Err(NavError::NoSuchChild));
    assert_eq!(idx, Index(vec![0, 1]));
    assert_eq!(idx.move_next(&t), Ok(()));
    assert_eq!(idx, Index(vec![1]));
    assert_eq!(idx.move_next(&t), Err(NavError::NoNext));
    assert_eq!(idx, Index(vec![1]));
}

#[test]
fn move_next_visits_preorder_and_move_prev_reverses_it() {
    let t = sample();
    let expected = vec![
        Index(vec![]),
        Index(vec![0]),
        Index(vec![0, 0]),
        Index(vec![0, 1]),
        Index(vec![1]),
    ];

    let mut idx = Index::default();
    let mut forward = vec![idx.clone()];
    loop {
        match idx.move_next(&t) {
            Ok(()) => forward.push(idx.clone()),
            Err(e) => {
                assert_eq!(e, NavError::NoNext);
                break;
            }
        }
    }
    assert_eq!(forward, expected);

    let mut backward = vec![idx.clone()];
    loop {
        match idx.move_prev(&t) {
            Ok(()) => backward.push(idx.clone()),
            Err(e) => {
                assert_eq!(e, NavError::NoPrev);
                break;
            }
        }
    }
    backward.reverse();
    assert_eq!(backward, expected);
}

#[test]
fn moves_from_out_of_bounds_index_report_invalid_address() {
    let t = sample();
    let mut idx = Index(vec![0, 7]);
    assert_eq!(
        idx.move_down(&t, 0),
        Err(NavError::InvalidAddress { depth: 1, step: 7 })
    );
    assert_eq!(idx, Index(vec![0, 7]));
    assert_eq!(
        idx.move_next(&t),
        Err(NavError::InvalidAddress { depth: 1, step: 7 })
    );
    assert_eq!(idx, Index(vec![0, 7]));
    assert_eq!(
        idx.move_down_right_corner(&t),
        Err(NavError::InvalidAddress { depth: 1, step: 7 })
    );
    assert_eq!(idx, Index(vec![0, 7]));
}

#[test]
fn move_down_right_corner_reaches_last_leaf() {
    let deep = Tree::mk(
        "r",
        &[leaf("x"), Tree::mk("y", &[leaf("p"), Tree::mk("q", &[leaf("z")])])],
    );
    let mut idx = Index::default();
    assert_eq!(idx.move_down_right_corner(&deep), Ok(()));
    assert_eq!(idx, Index(vec![1, 1, 0]));
    assert_eq!(deep.at_index(&idx).unwrap().label, "z");
}

#[test]
fn move_up_until_right_climbs_to_a_sibling() {
    let t = sample();
    let mut idx = Index(vec![0, 1]);
    assert_eq!(idx.move_up_until_right(&t), Ok(()));
    assert_eq!(idx, Index(vec![1]));

    let mut last = Index(vec![1]);
    assert_eq!(last.move_up_until_right(&t), Err(NavError::NoNext));
    assert_eq!(last, Index(vec![1]));
}

#[test]
fn move_prev_steps_to_parent_or_corner() {
    let t = sample();
    let mut idx = Index(vec![0, 0]);
    assert_eq!(idx.move_prev(&t), Ok(()));
    assert_eq!(idx, Index(vec![0]));

    let mut right = Index(vec![1]);
    assert_eq!(right.move_prev(&t), Ok(()));
    assert_eq!(right, Index(vec![0, 1]));

    let mut root = Index::default();
    assert_eq!(root.move_prev(&t), Err(NavError::NoPrev));
    assert_eq!(root, Index(vec![]));
}

#[test]
fn up_then_down_restores_index() {
    let t = sample();
    let mut idx = Index(vec![0, 1]);
    let original_step = 1;
    assert_eq!(idx.move_up(), Ok(()));
    assert_eq!(idx.move_down(&t, original_step), Ok(()));
    assert_eq!(idx, Index(vec![0, 1]));
}

#[test]
fn wrap_at_empty_index_equals_wrap_with_path() {
    let path = || {
        vec![
            Tooth::mk("A1", &[leaf("L")], &[leaf("R")]),
            Tooth::mk("A2", &[], &[leaf("R2")]),
        ]
    };
    let tree = sample();
    let by_path = tree.clone().wrap_with_path(path());
    let mut by_index = tree.clone();
    by_index.wrap_with_path_at_index(&Index(vec![]), path());
    assert_eq!(by_path, by_index);
}

#[test]
fn big_tree_labels_and_shape() {
    let flat = big_tree(2, 1);
    assert_eq!(
        flat,
        Tree {
            label: "N0".to_string(),
            kids: vec![leaf("D1"), leaf("D1")],
        }
    );

    let chain = big_tree(1, 12);
    let mut cur = &chain;
    for d in 0..12 {
        assert_eq!(cur.label, format!("N{d}"));
        assert_eq!(cur.kids.len(), 1);
        cur = &cur.kids[0];
    }
    assert_eq!(cur.label, "D12");
    assert_eq!(cur.kids.len(), 0);

    let point = big_tree(3, 0);
    assert_eq!(point, leaf("D0"));
}

#[test]
fn tooth_mk_copies_siblings() {
    let tooth = Tooth::mk("T", &[leaf("l1"), leaf("l2")], &[leaf("r1")]);
    assert_eq!(tooth.label, "T");
    assert_eq!(tooth.kids_left, vec![leaf("l1"), leaf("l2")]);
    assert_eq!(tooth.kids_right, vec![leaf("r1")]);
    let copy = tooth.clone();
    assert_eq!(copy, tooth);
}
