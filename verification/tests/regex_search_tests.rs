use crep_indexer::matcher::Pattern;
use crep_indexer::regex_search::build_candidates_from_hir;
use crep_indexer::regex_search::merge_trigrams;
use crep_indexer::regex_search::CharRange;
use crep_indexer::regex_search::CharacterClass;
use crep_indexer::regex_search::QueryError;
use crep_indexer::regex_search::RegexOrString;
use crep_indexer::regex_search::RegexSearchCandidates;
use crep_indexer::regex_search::SearchPartTrigram;
use crep_indexer::regex_search::Trigram;

fn t(list: &[&str]) -> Vec<Trigram> {
    list.iter().map(|s| Trigram::new(s)).collect()
}

#[test]
fn trigram_from_long_string() {
    assert_eq!(Trigram::from_long_string("a"), vec![Trigram::new("a")]);
    assert_eq!(Trigram::from_long_string("ab"), vec![Trigram::new("ab")]);
    assert_eq!(Trigram::from_long_string("abc"), vec![Trigram::new("abc")]);
    assert_eq!(
        Trigram::from_long_string("abcd"),
        vec![Trigram::new("abc"), Trigram::new("bcd")]
    );
    assert_eq!(
        Trigram::from_long_string("a b c"),
        vec![Trigram::new("a b"), Trigram::new(" b "), Trigram::new("b c")]
    );
}

#[test]
fn trigram_concat_small() {
    let empty_gram: Trigram = Trigram::new("");
    let one_gram: Trigram = Trigram::new("a");
    let two_gram: Trigram = Trigram::new("bb");
    let three_gram: Trigram = Trigram::new("ccc");

    assert_eq!(Trigram::concat_small(&one_gram, &one_gram), Trigram::new("aa"));
    assert_eq!(Trigram::concat_small(&two_gram, &one_gram), Trigram::new("bba"));
    assert_eq!(Trigram::concat_small(&one_gram, &two_gram), Trigram::new("abb"));
    assert_eq!(
        Trigram::concat_small(&three_gram, &empty_gram),
        Trigram::new("ccc")
    );
    assert_eq!(
        Trigram::concat_small(&empty_gram, &three_gram),
        Trigram::new("ccc")
    );
}

#[test]
fn trigram_concat_large() {
    let one_gram = Trigram::new("a");
    let two_gram1 = Trigram::new("bb");
    let two_gram2 = Trigram::new("cc");
    let three_gram1 = Trigram::new("ddd");
    let three_gram2 = Trigram::new("eee");

    assert_eq!(
        Trigram::concat(&one_gram, &two_gram1),
        vec![Trigram::new("abb")]
    );
    assert_eq!(
        Trigram::concat(&two_gram1, &two_gram2),
        vec![Trigram::new("bbc"), Trigram::new("bcc")]
    );

    assert_eq!(
        Trigram::concat(&two_gram1, &three_gram1),
        vec![
            Trigram::new("bbd"),
            Trigram::new("bdd"),
            Trigram::new("ddd")
        ]
    );

    assert_eq!(
        Trigram::concat(&three_gram1, &three_gram2),
        vec![
            Trigram::new("ddd"),
            Trigram::new("dde"),
            Trigram::new("dee"),
            Trigram::new("eee")
        ]
    );
}

#[test]
fn merge_trigrams_test() {
    let one_gram = Trigram::new("a");
    let two_gram1 = Trigram::new("bb");
    let two_gram2 = Trigram::new("cc");
    let three_gram1 = Trigram::new("ddd");
    let three_gram2 = Trigram::new("eee");

    assert_eq!(
        merge_trigrams(&[&vec![one_gram.clone()]]),
        vec![Trigram::new("a")]
    );

    assert_eq!(
        merge_trigrams(&[&vec![one_gram.clone()], &vec![one_gram.clone()]]),
        vec![Trigram::new("aa")]
    );

    assert_eq!(
        merge_trigrams(&[&vec![two_gram1.clone()], &vec![one_gram.clone()]]),
        vec![Trigram::new("bba")]
    );

    assert_eq!(
        merge_trigrams(&[&vec![one_gram.clone()], &vec![two_gram2.clone()]]),
        vec![Trigram::new("acc")]
    );

    assert_eq!(
        merge_trigrams(&[&vec![two_gram1.clone()], &vec![two_gram2.clone()]]),
        vec![Trigram::new("bbc"), Trigram::new("bcc")]
    );

    assert_eq!(
        merge_trigrams(&[&vec![two_gram1.clone()], &vec![three_gram1.clone()]]),
        vec![
            Trigram::new("bbd"),
            Trigram::new("bdd"),
            Trigram::new("ddd")
        ]
    );

    assert_eq!(
        merge_trigrams(&[&vec![three_gram2.clone()], &vec![three_gram1.clone()]]),
        vec![
            Trigram::new("eee"),
            Trigram::new("eed"),
            Trigram::new("edd"),
            Trigram::new("ddd")
        ]
    );

    assert_eq!(
        merge_trigrams(&[
            &vec![one_gram.clone()],
            &vec![one_gram.clone()],
            &vec![one_gram.clone()]
        ]),
        vec![Trigram::new("aaa")]
    );

    assert_eq!(
        merge_trigrams(&[
            &vec![one_gram.clone()],
            &vec![two_gram1.clone()],
            &vec![one_gram.clone()]
        ]),
        vec![Trigram::new("abb"), Trigram::new("bba")]
    );

    assert_eq!(
        merge_trigrams(&[
            &vec![two_gram1.clone()],
            &vec![two_gram2.clone()],
            &vec![one_gram.clone()]
        ]),
        vec![
            Trigram::new("bbc"),
            Trigram::new("bcc"),
            Trigram::new("cca")
        ]
    );

    assert_eq!(
        merge_trigrams(&[
            &vec![three_gram1.clone()],
            &vec![two_gram1.clone()],
            &vec![one_gram.clone()]
        ]),
        vec![
            Trigram::new("ddd"),
            Trigram::new("ddb"),
            Trigram::new("dbb"),
            Trigram::new("bba")
        ]
    );
}

#[test]
fn test_concat() {
    let part1 = RegexSearchCandidates {
        candidates: vec![SearchPartTrigram {
            trigrams: t(&["abc", "bcd"]),
        }],
    };

    let part2 = RegexSearchCandidates {
        candidates: vec![SearchPartTrigram { trigrams: t(&["12"]) }],
    };

    let part3 = RegexSearchCandidates {
        candidates: vec![SearchPartTrigram {
            trigrams: t(&["xyz"]),
        }],
    };

    assert_eq!(
        RegexSearchCandidates::concat(&[part1, part2, part3]),
        RegexSearchCandidates {
            candidates: vec![SearchPartTrigram {
                trigrams: t(&["abc", "bcd", "cd1", "d12", "12x", "2xy", "xyz"]),
            }]
        }
    );
}

#[test]
fn test_alternation() {
    let part1 = RegexSearchCandidates {
        candidates: vec![SearchPartTrigram {
            trigrams: t(&["abc", "bcd"]),
        }],
    };

    let part2 = RegexSearchCandidates {
        candidates: vec![SearchPartTrigram { trigrams: t(&["12"]) }],
    };

    assert_eq!(
        RegexSearchCandidates::alternation(&[part1, part2]),
        RegexSearchCandidates {
            candidates: vec![
                SearchPartTrigram {
                    trigrams: t(&["abc", "bcd"]),
                },
                SearchPartTrigram { trigrams: t(&["12"]) }
            ]
        }
    );
}

#[test]
fn test_repeat_simple() {
    let part = RegexSearchCandidates {
        candidates: vec![SearchPartTrigram { trigrams: t(&["a"]) }],
    };

    assert_eq!(
        RegexSearchCandidates::repeat(&part, 0, Some(100)),
        RegexSearchCandidates {
            candidates: vec![
                SearchPartTrigram { trigrams: vec![] },
                SearchPartTrigram { trigrams: t(&["a"]) },
                SearchPartTrigram { trigrams: t(&["aa"]) },
                SearchPartTrigram {
                    trigrams: t(&["aaa"]),
                }
            ]
        }
    );
}

#[test]
fn test_repeat_complex() {
    let part = RegexSearchCandidates {
        candidates: vec![
            SearchPartTrigram { trigrams: t(&["a"]) },
            SearchPartTrigram { trigrams: t(&["bc"]) },
            SearchPartTrigram {
                trigrams: t(&["xyz"]),
            },
        ],
    };

    assert_eq!(
        RegexSearchCandidates::repeat(&part, 2, Some(2)),
        RegexSearchCandidates {
            candidates: vec![
                SearchPartTrigram { trigrams: t(&["aa"]) },
                SearchPartTrigram {
                    trigrams: t(&["abc"]),
                },
                SearchPartTrigram {
                    trigrams: t(&["axy", "xyz"]),
                },
                SearchPartTrigram {
                    trigrams: t(&["bca"]),
                },
                SearchPartTrigram {
                    trigrams: t(&["bcb", "cbc"]),
                },
                SearchPartTrigram {
                    trigrams: t(&["bcx", "cxy", "xyz"]),
                },
                SearchPartTrigram {
                    trigrams: t(&["xyz", "yza"]),
                },
                SearchPartTrigram {
                    trigrams: t(&["xyz", "yzb", "zbc"]),
                },
                SearchPartTrigram {
                    trigrams: t(&["xyz", "yzx", "zxy", "xyz"]),
                },
            ]
        }
    );
}

#[test]
fn repeat_without_upper_bound_stops_at_three() {
    let part = RegexSearchCandidates {
        candidates: vec![SearchPartTrigram { trigrams: t(&["a"]) }],
    };

    assert_eq!(
        RegexSearchCandidates::repeat(&part, 0, None),
        RegexSearchCandidates {
            candidates: vec![
                SearchPartTrigram { trigrams: vec![] },
                SearchPartTrigram { trigrams: t(&["a"]) },
                SearchPartTrigram { trigrams: t(&["aa"]) },
                SearchPartTrigram { trigrams: t(&["aaa"]) },
            ]
        }
    );
    assert_eq!(
        RegexSearchCandidates::repeat(&part, 7, Some(9)),
        RegexSearchCandidates {
            candidates: vec![SearchPartTrigram { trigrams: t(&["aaa"]) }]
        }
    );
}

#[test]
fn repeat_of_a_pair_up_to_ten_times_has_the_empty_branch() {
    let part = RegexSearchCandidates {
        candidates: vec![SearchPartTrigram { trigrams: t(&["ab"]) }],
    };

    let planned = RegexSearchCandidates::repeat(&part, 0, Some(10));
    assert_eq!(
        planned,
        RegexSearchCandidates {
            candidates: vec![
                SearchPartTrigram { trigrams: vec![] },
                SearchPartTrigram { trigrams: t(&["ab"]) },
                SearchPartTrigram { trigrams: t(&["aba", "bab"]) },
                SearchPartTrigram { trigrams: t(&["aba", "bab", "aba", "bab"]) },
            ]
        }
    );
}

#[test]
fn concat_skips_branches_without_trigrams() {
    let star = RegexSearchCandidates {
        candidates: vec![
            SearchPartTrigram { trigrams: vec![] },
            SearchPartTrigram { trigrams: t(&["a"]) },
        ],
    };
    let tail = RegexSearchCandidates {
        candidates: vec![SearchPartTrigram { trigrams: t(&["bcd"]) }],
    };

    assert_eq!(
        RegexSearchCandidates::concat(&[star, tail]),
        RegexSearchCandidates {
            candidates: vec![
                SearchPartTrigram { trigrams: t(&["bcd"]) },
                SearchPartTrigram { trigrams: t(&["abc", "bcd"]) },
            ]
        }
    );
}

#[test]
fn concat_with_a_part_without_candidates_has_none() {
    let none = RegexSearchCandidates { candidates: vec![] };
    let tail = RegexSearchCandidates {
        candidates: vec![SearchPartTrigram { trigrams: t(&["bcd"]) }],
    };

    assert_eq!(
        RegexSearchCandidates::concat(&[tail, none]),
        RegexSearchCandidates { candidates: vec![] }
    );
}

#[test]
fn plan_of_a_literal_is_its_sliding_windows() {
    let planned =
        build_candidates_from_hir(&Pattern::Literal("quickly".as_bytes().to_vec())).unwrap();
    assert_eq!(
        planned,
        RegexSearchCandidates {
            candidates: vec![SearchPartTrigram {
                trigrams: t(&["qui", "uic", "ick", "ckl", "kly"]),
            }]
        }
    );
}

#[test]
fn plan_of_a_star_has_the_empty_branch_first() {
    let star = Pattern::Repetition {
        min: 0,
        max: None,
        sub: Box::new(Pattern::Literal(b"a".to_vec())),
    };
    assert_eq!(
        build_candidates_from_hir(&star).unwrap(),
        RegexSearchCandidates {
            candidates: vec![
                SearchPartTrigram { trigrams: vec![] },
                SearchPartTrigram { trigrams: t(&["a"]) },
                SearchPartTrigram { trigrams: t(&["aa"]) },
                SearchPartTrigram { trigrams: t(&["aaa"]) },
            ]
        }
    );
}

#[test]
fn plan_refuses_captures_looks_and_bad_literals() {
    assert_eq!(
        build_candidates_from_hir(&Pattern::Capture),
        Err(QueryError::Unsupported)
    );
    assert_eq!(
        build_candidates_from_hir(&Pattern::Concat(vec![
            Pattern::Literal(b"abc".to_vec()),
            Pattern::Look
        ])),
        Err(QueryError::Unsupported)
    );
    assert_eq!(
        build_candidates_from_hir(&Pattern::Literal(vec![0xff, 0xfe])),
        Err(QueryError::Unsupported)
    );
}

#[test]
fn plan_of_a_class_is_one_position() {
    let class = regex_syntax::hir::Class::Unicode(regex_syntax::hir::ClassUnicode::new([
        regex_syntax::hir::ClassUnicodeRange::new('a', 'c'),
        regex_syntax::hir::ClassUnicodeRange::new('0', '9'),
    ]));
    let planned = build_candidates_from_hir(&Pattern::Class(class)).unwrap();
    assert_eq!(
        planned,
        RegexSearchCandidates {
            candidates: vec![SearchPartTrigram {
                trigrams: vec![Trigram::from_classes(&vec![CharacterClass::CharRange(vec![
                    CharRange { start: 0x30, end: 0x39 },
                    CharRange { start: 0x61, end: 0x63 },
                ])])]
            }]
        }
    );
    let bytes = regex_syntax::hir::Class::Bytes(regex_syntax::hir::ClassBytes::new([
        regex_syntax::hir::ClassBytesRange::new(0x41, 0x5a),
    ]));
    assert_eq!(
        build_candidates_from_hir(&Pattern::Class(bytes)).unwrap(),
        RegexSearchCandidates {
            candidates: vec![SearchPartTrigram {
                trigrams: vec![Trigram {
                    data: arrayvec::ArrayVec::from_iter([CharacterClass::CharRange(vec![
                        CharRange { start: 0x41, end: 0x5a },
                    ])])
                }]
            }]
        }
    );
}

#[test]
fn matching_pattern_of_a_trigram() {
    match Trigram::new("abc").create_matching_regex_or_string() {
        RegexOrString::String(s) => assert_eq!(s, "abc"),
        RegexOrString::Regex(_) => panic!("three plain characters are looked up directly"),
    }
    match Trigram::new("ab").create_matching_regex_or_string() {
        RegexOrString::Regex(r) => assert_eq!(r, ".*ab.*"),
        RegexOrString::String(_) => panic!("a short trigram needs a pattern"),
    }
    let class = Trigram::from_classes(&vec![
        CharacterClass::Char('x'),
        CharacterClass::CharRange(vec![
            CharRange { start: 0x61, end: 0x7a },
            CharRange { start: 0x1F600, end: 0x1F64F },
            CharRange { start: 0, end: 0x10 },
        ]),
    ]);
    assert_eq!(class.len(), 2);
    assert_eq!(class.at(0), &CharacterClass::Char('x'));
    match class.create_matching_regex_or_string() {
        RegexOrString::Regex(r) => {
            assert_eq!(r, ".*x[\\u{61}-\\u{7A}\\u{1F600}-\\u{1F64F}\\u{0}-\\u{10}].*")
        }
        RegexOrString::String(_) => panic!("a class needs a pattern"),
    }
}

#[test]
fn a_trigram_holds_its_positions_in_order() {
    let t = Trigram::new("abc");
    assert_eq!(t.len(), 3);
    assert_eq!(t.at(0), &CharacterClass::Char('a'));
    assert_eq!(t.at(2), &CharacterClass::Char('c'));
    assert_eq!(Trigram::new("").len(), 0);
    let joined = Trigram::concat_small(&Trigram::new("a"), &Trigram::new("bc"));
    assert_eq!(joined, t);
    assert_eq!(
        Trigram::concat(&Trigram::new("abc"), &Trigram::new("de")),
        vec![Trigram::new("abc"), Trigram::new("bcd"), Trigram::new("cde")]
    );
    assert_eq!(
        Trigram::concat(&Trigram::new("a"), &Trigram::new("b")),
        Vec::<Trigram>::new()
    );
}

#[test]
fn a_class_is_one_position_with_its_ranges() {
    let class = regex_syntax::hir::Class::Unicode(regex_syntax::hir::ClassUnicode::new([
        regex_syntax::hir::ClassUnicodeRange::new('a', 'c'),
        regex_syntax::hir::ClassUnicodeRange::new('x', 'x'),
    ]));
    let t = Trigram::from_class(&class);
    assert_eq!(t.len(), 1);
    assert_eq!(
        t.at(0),
        &CharacterClass::CharRange(vec![
            CharRange { start: 0x61, end: 0x63 },
            CharRange { start: 0x78, end: 0x78 },
        ])
    );
}
