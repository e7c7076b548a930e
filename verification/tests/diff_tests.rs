use crep_indexer::diff::FileDiffTracker;
use crep_indexer::diff::LineDeleteResult;

#[test]
fn test_find_chunk_index_by_line_num() {
    let tracker = FileDiffTracker {
        commit_line_end: vec![5, 8, 14, 21],
        commit_indexes: vec![(1, 0), (2, 5), (1, 5), (3, 10)],
    };

    assert_eq!(
        (0..=22)
            .map(|pos| tracker.find_chunk_index_by_line_num(pos))
            .collect::<Vec<usize>>(),
        vec![0, 0, 0, 0, 0, 1, 1, 1, 2, 2, 2, 2, 2, 2, 3, 3, 3, 3, 3, 3, 3, 4, 4]
    );

    let empty_tracker = FileDiffTracker {
        commit_line_end: vec![],
        commit_indexes: vec![],
    };

    assert_eq!(empty_tracker.find_chunk_index_by_line_num(0), 0);
    assert_eq!(empty_tracker.find_chunk_index_by_line_num(1), 0);
}

#[test]
fn test_add_lines_front() {
    let mut tracker = FileDiffTracker {
        commit_line_end: vec![36],
        commit_indexes: vec![(0, 0)],
    };

    tracker.add_lines(12, 1, (1, 13));
    assert_eq!(
        tracker,
        FileDiffTracker {
            commit_line_end: vec![12, 13, 37],
            commit_indexes: vec![(0, 0), (1, 13), (0, 12)],
        }
    );

    tracker.add_lines(10, 1, (2, 10));
    assert_eq!(
        tracker,
        FileDiffTracker {
            commit_line_end: vec![10, 11, 13, 14, 38],
            commit_indexes: vec![(0, 0), (2, 10), (0, 10), (1, 13), (0, 12)],
        }
    );

    // Add a new line at the front.
    tracker.add_lines(0, 5, (3, 0));
    assert_eq!(
        tracker,
        FileDiffTracker {
            commit_line_end: vec![5, 15, 16, 18, 19, 43],
            commit_indexes: vec![(3, 0), (0, 0), (2, 10), (0, 10), (1, 13), (0, 12)],
        }
    );
}

#[test]
fn test_add_lines_at_end() {
    let mut tracker = FileDiffTracker {
        commit_line_end: vec![36],
        commit_indexes: vec![(0, 0)],
    };

    tracker.add_lines(36, 5, (1, 36));
    assert_eq!(
        tracker,
        FileDiffTracker {
            commit_line_end: vec![36, 41],
            commit_indexes: vec![(0, 0), (1, 36)],
        }
    );

    // Add at the middle of the last element.
    tracker.add_lines(38, 2, (2, 38));
    assert_eq!(
        tracker,
        FileDiffTracker {
            commit_line_end: vec![36, 38, 40, 43],
            commit_indexes: vec![(0, 0), (1, 36), (2, 38), (1, 38)],
        }
    );

    // Add at the middle element.
    tracker.add_lines(39, 5, (3, 39));
    assert_eq!(
        tracker,
        FileDiffTracker {
            commit_line_end: vec![36, 38, 39, 44, 45, 48],
            commit_indexes: vec![(0, 0), (1, 36), (2, 38), (3, 39), (2, 39), (1, 38)],
        }
    );
}

#[test]
fn test_delete_lines_front() {
    let mut tracker = FileDiffTracker {
        commit_line_end: vec![36, 38, 39, 44, 45, 48],
        commit_indexes: vec![(0, 0), (1, 36), (2, 38), (3, 39), (2, 39), (1, 38)],
    };

    assert_eq!(
        tracker.delete_lines(0, 10),
        vec![LineDeleteResult {
            commit_id: 0,
            start_and_end: (0, 10)
        }]
    );

    assert_eq!(
        tracker,
        FileDiffTracker {
            commit_line_end: vec![26, 28, 29, 34, 35, 38],
            commit_indexes: vec![(0, 10), (1, 36), (2, 38), (3, 39), (2, 39), (1, 38)]
        }
    );

    // Delete the middle of the first chunk.
    assert_eq!(
        tracker.delete_lines(5, 10),
        vec![LineDeleteResult {
            commit_id: 0,
            start_and_end: (15, 25)
        }]
    );

    assert_eq!(
        tracker,
        FileDiffTracker {
            commit_line_end: vec![5, 16, 18, 19, 24, 25, 28],
            commit_indexes: vec![
                (0, 10),
                (0, 25),
                (1, 36),
                (2, 38),
                (3, 39),
                (2, 39),
                (1, 38)
            ]
        }
    );

    // Delete the entire first chunk.
    assert_eq!(
        tracker.delete_lines(0, 5),
        vec![LineDeleteResult {
            commit_id: 0,
            start_and_end: (10, 15)
        }]
    );
    assert_eq!(
        tracker,
        FileDiffTracker {
            commit_line_end: vec![11, 13, 14, 19, 20, 23],
            commit_indexes: vec![(0, 25), (1, 36), (2, 38), (3, 39), (2, 39), (1, 38)]
        }
    );
}

#[test]
fn test_delete_lines_middle() {
    let mut tracker = FileDiffTracker {
        commit_line_end: vec![36, 38, 39, 44, 45, 48],
        commit_indexes: vec![(0, 0), (1, 36), (2, 38), (3, 39), (2, 39), (1, 38)],
    };

    assert_eq!(
        tracker.delete_lines(41, 6),
        vec![
            LineDeleteResult {
                commit_id: 3,
                start_and_end: (41, 44)
            },
            LineDeleteResult {
                commit_id: 2,
                start_and_end: (39, 40)
            },
            LineDeleteResult {
                commit_id: 1,
                start_and_end: (38, 40)
            }
        ]
    );

    assert_eq!(
        tracker,
        FileDiffTracker {
            commit_line_end: vec![36, 38, 39, 41, 42],
            commit_indexes: vec![(0, 0), (1, 36), (2, 38), (3, 39), (1, 40)]
        }
    );

    assert_eq!(
        tracker.delete_lines(20, 18),
        vec![
            LineDeleteResult {
                commit_id: 0,
                start_and_end: (20, 36)
            },
            LineDeleteResult {
                commit_id: 1,
                start_and_end: (36, 38)
            }
        ]
    );

    assert_eq!(
        tracker,
        FileDiffTracker {
            commit_line_end: vec![20, 21, 23, 24],
            commit_indexes: vec![(0, 0), (2, 38), (3, 39), (1, 40)]
        }
    );

    assert_eq!(
        tracker.delete_lines(20, 3),
        vec![
            LineDeleteResult {
                commit_id: 2,
                start_and_end: (38, 39)
            },
            LineDeleteResult {
                commit_id: 3,
                start_and_end: (39, 41)
            }
        ]
    );

    assert_eq!(
        tracker,
        FileDiffTracker {
            commit_line_end: vec![20, 21],
            commit_indexes: vec![(0, 0), (1, 40)]
        }
    );

    assert_eq!(
        tracker.delete_lines(0, 21),
        vec![
            LineDeleteResult {
                commit_id: 0,
                start_and_end: (0, 20)
            },
            LineDeleteResult {
                commit_id: 1,
                start_and_end: (40, 41)
            }
        ]
    );

    assert_eq!(
        tracker,
        FileDiffTracker {
            commit_line_end: vec![],
            commit_indexes: vec![]
        }
    );

    // Case #1 for the middle element.
    let mut tracker = FileDiffTracker {
        commit_line_end: vec![36, 38, 39, 44, 45, 48],
        commit_indexes: vec![(0, 0), (1, 36), (2, 38), (3, 39), (2, 39), (1, 38)],
    };

    assert_eq!(
        tracker.delete_lines(40, 2),
        vec![LineDeleteResult {
            commit_id: 3,
            start_and_end: (40, 42)
        },]
    );

    assert_eq!(
        tracker,
        FileDiffTracker {
            commit_line_end: vec![36, 38, 39, 40, 42, 43, 46],
            commit_indexes: vec![(0, 0), (1, 36), (2, 38), (3, 39), (3, 42), (2, 39), (1, 38)]
        }
    );
}

#[test]
fn test_delete_lines_at_end() {
    let mut tracker = FileDiffTracker {
        commit_line_end: vec![36, 38, 39, 44, 45, 48],
        commit_indexes: vec![(0, 0), (1, 36), (2, 38), (3, 39), (2, 39), (1, 38)],
    };

    assert_eq!(
        tracker.delete_lines(46, 2),
        vec![LineDeleteResult {
            commit_id: 1,
            start_and_end: (39, 41)
        },]
    );

    assert_eq!(
        tracker,
        FileDiffTracker {
            commit_line_end: vec![36, 38, 39, 44, 45, 46],
            commit_indexes: vec![(0, 0), (1, 36), (2, 38), (3, 39), (2, 39), (1, 38)]
        }
    );

    assert_eq!(
        tracker.delete_lines(45, 1),
        vec![LineDeleteResult {
            commit_id: 1,
            start_and_end: (38, 39)
        },]
    );

    assert_eq!(
        tracker,
        FileDiffTracker {
            commit_line_end: vec![36, 38, 39, 44, 45],
            commit_indexes: vec![(0, 0), (1, 36), (2, 38), (3, 39), (2, 39)]
        }
    );

    assert_eq!(
        tracker.delete_lines(39, 6),
        vec![
            LineDeleteResult {
                commit_id: 3,
                start_and_end: (39, 44)
            },
            LineDeleteResult {
                commit_id: 2,
                start_and_end: (39, 40)
            },
        ]
    );

    assert_eq!(
        tracker,
        FileDiffTracker {
            commit_line_end: vec![36, 38, 39],
            commit_indexes: vec![(0, 0), (1, 36), (2, 38)]
        }
    );
}

#[test]
fn delete_nothing_changes_nothing() {
    let mut tracker = FileDiffTracker::new(4, 10);
    assert_eq!(tracker.delete_lines(3, 0), vec![]);
    assert_eq!(tracker, FileDiffTracker::new(4, 10));
}

#[test]
fn add_nothing_changes_nothing() {
    let mut tracker = FileDiffTracker::new(4, 10);
    tracker.add_lines(3, 0, (5, 3));
    assert_eq!(tracker, FileDiffTracker::new(4, 10));
}

#[test]
fn delete_all_empties_the_tracker() {
    let mut tracker = FileDiffTracker::new(4, 10);
    tracker.add_lines(3, 2, (5, 3));
    tracker.delete_all();
    assert_eq!(
        tracker,
        FileDiffTracker {
            commit_line_end: vec![],
            commit_indexes: vec![]
        }
    );
}

#[test]
fn add_past_the_end_appends() {
    let mut tracker = FileDiffTracker::new(0, 3);
    tracker.add_lines(100, 2, (1, 7));
    assert_eq!(
        tracker,
        FileDiffTracker {
            commit_line_end: vec![3, 5],
            commit_indexes: vec![(0, 0), (1, 7)]
        }
    );
}

#[test]
fn deleting_no_lines_changes_nothing_wherever_it_starts() {
    let mut tracker = FileDiffTracker::new(0, 36);
    tracker.add_lines(12, 1, (1, 13));
    let before = FileDiffTracker {
        commit_line_end: tracker.commit_line_end.clone(),
        commit_indexes: tracker.commit_indexes.clone(),
    };
    assert_eq!(tracker.delete_lines(0, 0), vec![]);
    assert_eq!(tracker.delete_lines(37, 0), vec![]);
    assert_eq!(tracker.delete_lines(1000, 0), vec![]);
    assert_eq!(tracker.delete_lines(usize::MAX, 0), vec![]);
    assert_eq!(tracker, before);
    let mut empty = FileDiffTracker::default();
    assert_eq!(empty.delete_lines(5, 0), vec![]);
    assert_eq!(empty, FileDiffTracker::default());
}

#[test]
fn each_run_that_loses_lines_gives_one_result() {
    let mut tracker = FileDiffTracker::new(0, 36);
    tracker.add_lines(12, 1, (1, 13));
    assert_eq!(tracker.commit_line_end, vec![12, 13, 37]);
    assert_eq!(tracker.commit_indexes, vec![(0, 0), (1, 13), (0, 12)]);
    // the lines 10 .. 15: the end of the first run, the second run, the
    // start of the third
    assert_eq!(
        tracker.delete_lines(10, 5),
        vec![
            LineDeleteResult { commit_id: 0, start_and_end: (10, 12) },
            LineDeleteResult { commit_id: 1, start_and_end: (13, 14) },
            LineDeleteResult { commit_id: 0, start_and_end: (12, 14) },
        ]
    );
    assert_eq!(tracker.commit_line_end, vec![10, 32]);
    assert_eq!(tracker.commit_indexes, vec![(0, 0), (0, 14)]);
}
