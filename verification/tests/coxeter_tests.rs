use rigid4d::bfs::{bfs_tree, coset_table_bfs, is_connected, table_bfs_fold};
use rigid4d::coxeter::{
    coset_table, coset_table_bounded, CosetTable, EnumerationError, ScanOutcome,
};
use rigid4d::table::{
    check_coset_table, has_table_shape, is_involutive, satisfies_relation, trace_word,
    words_in_alphabet,
};

fn repeat(word: &[usize], times: usize) -> Vec<usize> {
    let mut out = Vec::new();
    for _ in 0..times {
        out.extend_from_slice(word);
    }
    out
}

fn polytope_relations(symbol: [usize; 3]) -> Vec<Vec<usize>> {
    vec![
        vec![0, 0],
        vec![1, 1],
        vec![2, 2],
        vec![3, 3],
        repeat(&[0, 1], symbol[0]),
        repeat(&[1, 2], symbol[1]),
        repeat(&[2, 3], symbol[2]),
        repeat(&[0, 2], 2),
        repeat(&[0, 3], 2),
        repeat(&[1, 3], 2),
    ]
}

#[test]
fn dodecahedron_test() {
    let table = coset_table(
        4,
        &[
            &[0, 0],
            &[1, 1],
            &[2, 2],
            &[3, 3],
            &repeat(&[0, 1], 5),
            &repeat(&[1, 2], 3),
            &repeat(&[2, 3], 3),
            &repeat(&[0, 2], 2),
            &repeat(&[0, 3], 2),
            &repeat(&[1, 3], 2),
        ],
        &[0, 1, 3],
    )
    .unwrap();
    println!("{:?}", table);
    assert_eq!(table.len(), 720);

    let directions = coset_table_bfs(&table, 0);
    println!("{:?}", directions);
    assert_eq!(directions.len(), 720);
    assert!(directions[0].is_empty());
}

#[test]
fn triangle_group_has_six_elements() {
    // the symmetries of a triangle: two mirrors at sixty degrees
    let relations: Vec<&[usize]> = vec![&[0, 0], &[1, 1], &[0, 1, 0, 1, 0, 1]];
    let table = coset_table(2, &relations, &[]).unwrap();
    assert_eq!(table.len(), 6);
    assert_eq!(table[0], vec![1, 2]);
    assert!(check_coset_table(&table, 2, &relations, &[]));
}

#[test]
fn cosets_of_a_mirror_in_the_triangle_group() {
    let relations: Vec<&[usize]> = vec![&[0, 0], &[1, 1], &[0, 1, 0, 1, 0, 1]];
    let table = coset_table(2, &relations, &[0]).unwrap();
    assert_eq!(table, vec![vec![0, 1], vec![2, 0], vec![1, 2]]);
}

#[test]
fn cell_tables_have_the_known_sizes() {
    let expected = [
        ([3, 3, 3], [5, 10, 10, 5]),
        ([4, 3, 3], [16, 32, 24, 8]),
        ([3, 4, 3], [24, 96, 96, 24]),
        ([3, 3, 4], [8, 24, 32, 16]),
    ];
    let subgroups: [[usize; 3]; 4] = [[1, 2, 3], [0, 2, 3], [0, 1, 3], [0, 1, 2]];
    for (symbol, sizes) in expected.iter() {
        let words = polytope_relations(*symbol);
        let relations: Vec<&[usize]> = words.iter().map(|w| w.as_slice()).collect();
        for (sub, size) in subgroups.iter().zip(sizes.iter()) {
            let table = coset_table(4, &relations, sub).unwrap();
            assert_eq!(table.len(), *size);
            assert!(check_coset_table(&table, 4, &relations, sub));
        }
    }
}

#[test]
fn a_letter_that_is_no_generator_is_refused() {
    let relations: Vec<&[usize]> = vec![&[0, 0], &[1, 2]];
    assert!(!words_in_alphabet(&relations, 2));
    assert_eq!(coset_table(2, &relations, &[]), Err(EnumerationError::NotAGenerator));
    let fine: Vec<&[usize]> = vec![&[0, 0], &[1, 1], &[0, 1, 0, 1]];
    assert!(words_in_alphabet(&fine, 2));
    assert_eq!(coset_table(2, &fine, &[5]), Err(EnumerationError::NotAGenerator));
    assert_eq!(coset_table_bounded(2, &relations, &[], 0), Err(EnumerationError::NotAGenerator));
}

#[test]
fn an_infinite_group_runs_into_the_limit() {
    // two mirrors without a relation between them generate an infinite group
    let relations: Vec<&[usize]> = vec![&[0, 0], &[1, 1]];
    assert_eq!(coset_table_bounded(2, &relations, &[], 100), Err(EnumerationError::TableFull));
    assert_eq!(coset_table_bounded(2, &relations, &[], 0), Err(EnumerationError::TableFull));
}

#[test]
fn a_limit_that_suffices_gives_the_table() {
    let relations: Vec<&[usize]> = vec![&[0, 0], &[1, 1], &[0, 1, 0, 1]];
    let table = coset_table_bounded(2, &relations, &[], 8).unwrap();
    assert_eq!(table.len(), 4);
    assert_eq!(coset_table_bounded(2, &relations, &[], 3), Err(EnumerationError::TableFull));
}

#[test]
fn working_table_defines_and_merges() {
    let mut table = CosetTable::init(2, 10);
    assert_eq!(table.table, vec![vec![None, None]]);
    assert!(table.define(0, 1));
    assert_eq!(table.table, vec![vec![None, Some(1)], vec![None, Some(0)]]);
    assert_eq!(table.live_map, vec![0, 1]);
    assert!(table.define(1, 0));
    assert_eq!(table.rep(2), 2);
    table.coincidence(2, 0);
    assert_eq!(table.rep(2), 0);
    assert_eq!(table.rep(1), 1);
    assert_eq!(table.table[0], vec![Some(1), Some(1)]);
    assert_eq!(table.table[1], vec![Some(0), Some(0)]);
}

#[test]
fn working_table_is_full_at_its_limit() {
    let mut table = CosetTable::init(1, 2);
    assert!(table.define(0, 0));
    assert!(!table.define(1, 0));
    assert_eq!(table.table.len(), 2);
}

#[test]
fn scan_makes_a_deduction_where_the_scans_meet() {
    let mut table = CosetTable::init(2, 10);
    assert_eq!(table.scan_and_fill(0, &[0, 1, 0, 1]), ScanOutcome::Filled);
    // three cosets close the square: 0 -0-> 1 -1-> 2 -0-> 3 -1-> 0
    assert_eq!(table.table.len(), 4);
    assert_eq!(table.table[0], vec![Some(1), Some(3)]);
    assert_eq!(table.table[3], vec![Some(2), Some(0)]);
}

#[test]
fn words_are_traced_through_a_table() {
    let table = vec![vec![1, 2], vec![0, 3], vec![3, 0], vec![2, 1]];
    assert_eq!(trace_word(&table, 0, &[0, 1]), Some(3));
    assert_eq!(trace_word(&table, 0, &[0, 1, 0, 1]), Some(0));
    assert_eq!(trace_word(&table, 2, &[]), Some(2));
    assert_eq!(trace_word(&table, 0, &[2]), None);
    assert_eq!(trace_word(&table, 7, &[0]), None);
    assert_eq!(trace_word(&table, 7, &[]), Some(7));
}

#[test]
fn a_table_is_checked_against_its_presentation() {
    let table = vec![vec![1, 2], vec![0, 3], vec![3, 0], vec![2, 1]];
    let relations: Vec<&[usize]> = vec![&[0, 0], &[1, 1], &[0, 1, 0, 1]];
    assert!(has_table_shape(&table, 2));
    assert!(!has_table_shape(&table, 3));
    assert!(is_involutive(&table));
    assert!(satisfies_relation(&table, &[0, 1, 0, 1]));
    assert!(!satisfies_relation(&table, &[0, 1]));
    assert!(check_coset_table(&table, 2, &relations, &[]));
    assert!(!check_coset_table(&table, 2, &relations, &[0]));
    let longer: Vec<&[usize]> = vec![&[0, 0], &[1, 1], &[0, 1, 0]];
    assert!(!check_coset_table(&table, 2, &longer, &[]));
    let broken = vec![vec![1, 2], vec![0, 3], vec![3, 0], vec![2, 2]];
    assert!(!is_involutive(&broken));
    assert!(!check_coset_table(&broken, 2, &relations, &[]));
    let out_of_range = vec![vec![1, 9]];
    assert!(!has_table_shape(&out_of_range, 2));
    assert!(!check_coset_table(&Vec::new(), 2, &relations, &[]));
    // two copies of a table side by side are no coset table
    let doubled = vec![vec![1, 0], vec![0, 1], vec![3, 2], vec![2, 3]];
    let one: Vec<&[usize]> = vec![&[0, 0], &[1, 1]];
    assert!(has_table_shape(&doubled, 2) && is_involutive(&doubled));
    assert!(!is_connected(&doubled));
    assert!(!check_coset_table(&doubled, 2, &one, &[1]));
    assert!(is_connected(&table));
}

#[test]
fn breadth_first_paths_lead_to_their_cosets() {
    let table = vec![vec![1, 2], vec![0, 3], vec![3, 0], vec![2, 1]];
    let paths = coset_table_bfs(&table, 0);
    assert_eq!(paths, vec![vec![], vec![0], vec![1], vec![0, 1]]);
    for (coset, path) in paths.iter().enumerate() {
        assert_eq!(trace_word(&table, 0, path), Some(coset));
    }
    let from_three = coset_table_bfs(&table, 3);
    assert_eq!(from_three, vec![vec![0, 1], vec![1], vec![0], vec![]]);
}

#[test]
fn cosets_out_of_reach_keep_the_empty_path() {
    let table = vec![vec![0, 0], vec![1, 1]];
    let paths = coset_table_bfs(&table, 0);
    assert_eq!(paths, vec![Vec::<usize>::new(), Vec::<usize>::new()]);
    let tree = bfs_tree(&table, 1);
    assert_eq!(tree.order, vec![1]);
    assert_eq!(tree.slot, vec![None, Some(0)]);
}

#[test]
fn the_tree_records_the_first_discovery() {
    let table = vec![vec![1, 2], vec![0, 3], vec![3, 0], vec![2, 1]];
    let tree = bfs_tree(&table, 0);
    assert_eq!(tree.order, vec![0, 1, 2, 3]);
    assert_eq!(tree.link[1], (0, 0));
    assert_eq!(tree.link[2], (0, 1));
    assert_eq!(tree.link[3], (1, 1));
    assert_eq!(tree.slot, vec![Some(0), Some(1), Some(2), Some(3)]);
}

#[test]
fn values_are_folded_along_the_tree() {
    let table = vec![vec![1, 2], vec![0, 3], vec![3, 0], vec![2, 1]];
    let folded = table_bfs_fold(&table, 0, 100usize, |value, generator| value * 10 + generator);
    assert_eq!(folded, vec![100, 1000, 1001, 10001]);
    let words = table_bfs_fold(&table, 0, String::new(), |mut word: String, generator| {
        word.push(if generator == 0 { 'a' } else { 'b' });
        word
    });
    assert_eq!(words, vec!["", "a", "b", "ab"]);
}

fn words_up_to(letters: usize, length: usize) -> Vec<Vec<usize>> {
    let mut words: Vec<Vec<usize>> = vec![Vec::new()];
    let mut from = 0;
    for _ in 0..length {
        let upto = words.len();
        for k in from..upto {
            for g in 0..letters {
                let mut longer = words[k].clone();
                longer.push(g);
                words.push(longer);
            }
        }
        from = upto;
    }
    words
}

#[test]
fn an_enumeration_merges_no_more_than_a_smaller_action_does() {
    let relations = [
        vec![0, 0],
        vec![1, 1],
        vec![2, 2],
        repeat(&[0, 1], 3),
        repeat(&[1, 2], 3),
        repeat(&[0, 2], 2),
    ];
    let relations: Vec<&[usize]> = relations.iter().map(|r| r.as_slice()).collect();
    // the group itself, and its action on the cosets of two of its mirrors
    let whole = coset_table(3, &relations, &[]).unwrap();
    let cosets = coset_table(3, &relations, &[0, 1]).unwrap();
    assert_eq!(whole.len(), 24);
    assert_eq!(cosets.len(), 4);
    assert!(check_coset_table(&cosets, 3, &relations, &[]));
    let words = words_up_to(3, 4);
    assert_eq!(words.len(), 1 + 3 + 9 + 27 + 81);
    let mut told_apart = 0;
    for v in words.iter() {
        for w in words.iter() {
            if trace_word(&whole, 0, v) == trace_word(&whole, 0, w) {
                assert_eq!(trace_word(&cosets, 0, v), trace_word(&cosets, 0, w));
            }
            if trace_word(&cosets, 0, v) == trace_word(&cosets, 0, w)
                && trace_word(&whole, 0, v) != trace_word(&whole, 0, w)
            {
                told_apart += 1;
            }
        }
    }
    // the larger table tells words apart that the smaller one does not
    assert!(told_apart > 0);
}

#[test]
fn two_enumerations_of_one_presentation_tell_the_same_words_apart() {
    let relations = polytope_relations([3, 3, 3]);
    let relations: Vec<&[usize]> = relations.iter().map(|r| r.as_slice()).collect();
    let table = coset_table(4, &relations, &[1, 2, 3]).unwrap();
    let roomy = coset_table_bounded(4, &relations, &[1, 2, 3], 64).unwrap();
    assert_eq!(table.len(), 5);
    assert_eq!(roomy.len(), 5);
    let words = words_up_to(4, 3);
    for v in words.iter() {
        for w in words.iter() {
            assert_eq!(
                trace_word(&table, 0, v) == trace_word(&table, 0, w),
                trace_word(&roomy, 0, v) == trace_word(&roomy, 0, w)
            );
        }
    }
}

#[test]
fn the_four_group_is_numbered_as_its_cosets_are_defined() {
    let relations: Vec<&[usize]> = vec![&[0, 0], &[1, 1], &[0, 1, 0, 1]];
    let table = coset_table(2, &relations, &[]).unwrap();
    assert_eq!(table, vec![vec![1, 2], vec![0, 3], vec![3, 0], vec![2, 1]]);
}

#[test]
fn the_words_through_a_tree_are_the_breadth_first_words() {
    let relations: Vec<&[usize]> = vec![&[0, 0], &[1, 1], &[0, 1, 0, 1]];
    let table = coset_table(2, &relations, &[]).unwrap();
    let tree = bfs_tree(&table, 0);
    let paths = rigid4d::bfs::paths_along(&table, 0, &tree);
    assert_eq!(paths, vec![vec![], vec![0], vec![1], vec![0, 1]]);
    assert_eq!(paths, coset_table_bfs(&table, 0));
    assert_eq!(tree.order, vec![0, 1, 2, 3]);
}
