//! Binary trees.

use samsara::binarytree::{
    churn, create_tree, depths, iterations, long_lived_line, max_depth, result_count, result_index, stretch_depth,
    stretch_line, trees_line, MIN_DEPTH,
};
use samsara::gc::number_of_live_objects;
use samsara::runtime::Runtime;

#[test]
fn a_full_tree_has_twice_as_many_nodes_and_one() {
    let mut rt = Runtime::new();
    let tree = create_tree(&mut rt, 3);
    assert_eq!(tree.get(&rt, |t| t.check_tree(&rt)), 15);
    assert_eq!(number_of_live_objects(&rt), 15);
    assert_eq!(tree.get(&rt, |t| t.item), 0);
    tree.drop(&mut rt);
    assert_eq!(number_of_live_objects(&rt), 0);
    assert_eq!(rt.pending(), 0);
}

#[test]
fn a_tree_of_no_depth_is_a_leaf() {
    let mut rt = Runtime::new();
    let leaf = create_tree(&mut rt, 0);
    let below = create_tree(&mut rt, -5);
    assert_eq!(leaf.get(&rt, |t| t.check_tree(&rt)), 1);
    assert_eq!(below.get(&rt, |t| t.check_tree(&rt)), 1);
}

#[test]
fn the_benchmark_is_planned() {
    assert_eq!(max_depth(0), 6);
    assert_eq!(max_depth(5), 6);
    assert_eq!(max_depth(10), 10);
    assert_eq!(result_count(6), 2);
    assert_eq!(result_count(10), 4);
    assert_eq!(iterations(6, 4), 64);
    assert_eq!(iterations(6, 6), 16);
    assert_eq!(iterations(31, 4), i32::MIN);
    assert_eq!(MIN_DEPTH, 4);
}

#[test]
fn trees_are_built_and_dropped() {
    let mut rt = Runtime::new();
    assert_eq!(churn(&mut rt, 4, 10), 310);
    assert_eq!(number_of_live_objects(&rt), 0);
    assert_eq!(churn(&mut rt, 4, 0), 0);
    assert_eq!(churn(&mut rt, 4, -3), 0);
}

#[test]
fn the_benchmark_goes_through_the_depths() {
    assert_eq!(depths(4), vec![4]);
    assert_eq!(depths(6), vec![4, 6]);
    assert_eq!(depths(9), vec![4, 6, 8]);
    for (i, depth) in depths(13).into_iter().enumerate() {
        assert_eq!(result_index(depth), i);
    }
    assert_eq!(depths(13).len(), result_count(13));
    assert_eq!(stretch_depth(6), 7);
}

#[test]
fn the_benchmark_prints_lines() {
    assert_eq!(stretch_line(7, 255), "stretch tree of depth 7\t check: 255");
    assert_eq!(trees_line(64, 4, 1984), "64\t trees of depth 4\t check: 1984");
    assert_eq!(trees_line(i32::MIN, 4, 0), "-2147483648\t trees of depth 4\t check: 0");
    assert_eq!(long_lived_line(6, 127), "long lived tree of depth 6\t check: 127");
}
