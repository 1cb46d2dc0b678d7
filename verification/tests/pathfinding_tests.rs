use minesweeper_td::pathfinding::{
    calculate_dist_cost, calculate_index, calculate_path, find_path, get_lowest_fcost_index,
    get_neighbour_indicies, list_contains, remove_value, PathNode, PathPoints,
};

fn node(index: usize, g: usize, h: usize, f: usize, came_from_index: Option<usize>) -> PathNode {
    PathNode { x: index / 5, y: index % 5, index, g, h, f, is_walkable: true, came_from_index }
}

fn step_cost(a: &PathPoints, b: &PathPoints) -> usize {
    let dx = a.x.abs_diff(b.x);
    let dy = a.y.abs_diff(b.y);
    assert!(dx <= 1 && dy <= 1 && dx + dy > 0);
    if dx + dy == 2 {
        14
    } else {
        10
    }
}

fn total_cost(path: &[PathPoints]) -> usize {
    path.windows(2).map(|w| step_cost(&w[0], &w[1])).sum()
}

#[test]
fn path_from_origin_to_three_one() {
    let path = find_path(0, 0, 3, 1);
    assert_eq!(
        path,
        vec![
            PathPoints { x: 3, y: 1 },
            PathPoints { x: 2, y: 1 },
            PathPoints { x: 1, y: 1 },
            PathPoints { x: 0, y: 0 },
        ]
    );
    assert_eq!(total_cost(&path), 34);
}

#[test]
fn paths_are_contiguous_and_run_from_goal_to_start() {
    for sx in 0..4usize {
        for sy in 0..5usize {
            for ex in 0..4usize {
                for ey in 0..5usize {
                    let path = find_path(sx, sy, ex, ey);
                    if sx == ex && sy == ey {
                        assert!(path.is_empty());
                        continue;
                    }
                    assert_eq!(path[0], PathPoints { x: ex, y: ey });
                    assert_eq!(path[path.len() - 1], PathPoints { x: sx, y: sy });
                    for p in &path {
                        assert!(p.x < 4 && p.y < 5);
                    }
                    assert_eq!(total_cost(&path), calculate_dist_cost(sx, sy, ex, ey));
                }
            }
        }
    }
}

#[test]
fn straight_paths_are_cheapest() {
    let path = find_path(0, 1, 3, 1);
    assert_eq!(total_cost(&path), 30);
    let path = find_path(0, 0, 3, 3);
    assert_eq!(total_cost(&path), 42);
}

#[test]
fn no_path_to_the_start_itself() {
    assert_eq!(find_path(2, 2, 2, 2), Vec::<PathPoints>::new());
}

#[test]
fn dist_cost_is_octile() {
    assert_eq!(calculate_dist_cost(0, 1, 3, 1), 30);
    assert_eq!(calculate_dist_cost(0, 0, 3, 1), 34);
    assert_eq!(calculate_dist_cost(3, 1, 0, 0), 34);
    assert_eq!(calculate_dist_cost(0, 0, 2, 2), 28);
    assert_eq!(calculate_dist_cost(1, 4, 1, 4), 0);
    assert_eq!(calculate_dist_cost(0, 4, 3, 0), 14 * 3 + 10);
}

#[test]
fn index_is_column_major() {
    assert_eq!(calculate_index(0, 0, 5), 0);
    assert_eq!(calculate_index(0, 4, 5), 4);
    assert_eq!(calculate_index(1, 0, 5), 5);
    assert_eq!(calculate_index(3, 1, 5), 16);
}

#[test]
fn f_cost_is_capped() {
    let mut n = node(3, usize::MAX, 20, 0, None);
    n.calculate_f_cost();
    assert_eq!(n.f, usize::MAX);
    let mut n = node(3, usize::MAX - 20, 20, 0, None);
    n.calculate_f_cost();
    assert_eq!(n.f, usize::MAX);
    let mut n = node(3, usize::MAX - 21, 20, 0, None);
    n.calculate_f_cost();
    assert_eq!(n.f, usize::MAX - 1);
    let mut n = node(3, 24, 10, 0, Some(1));
    n.calculate_f_cost();
    assert_eq!(n, node(3, 24, 10, 34, Some(1)));
}

#[test]
fn neighbour_indices_in_order() {
    assert_eq!(get_neighbour_indicies(1, 1, 4, 5), vec![7, 12, 11, 10, 5, 0, 1, 2]);
    assert_eq!(get_neighbour_indicies(0, 0, 4, 5), vec![1, 6, 5]);
    assert_eq!(get_neighbour_indicies(3, 4, 4, 5), vec![18, 13, 14]);
    assert_eq!(get_neighbour_indicies(0, 4, 4, 5), vec![9, 8, 3]);
    assert_eq!(get_neighbour_indicies(3, 0, 4, 5), vec![16, 10, 11]);
    assert_eq!(get_neighbour_indicies(0, 0, 1, 1), Vec::<usize>::new());
}

#[test]
fn lowest_f_cost_takes_the_first_of_equals() {
    let nodes: Vec<PathNode> =
        vec![node(0, 0, 0, 30, None), node(1, 0, 0, 20, None), node(2, 0, 0, 20, None)];
    assert_eq!(get_lowest_fcost_index(&vec![0, 1, 2], &nodes), Some(1));
    assert_eq!(get_lowest_fcost_index(&vec![2, 0, 1], &nodes), Some(2));
    assert_eq!(get_lowest_fcost_index(&vec![0], &nodes), Some(0));
    assert_eq!(get_lowest_fcost_index(&vec![], &nodes), None);
}

#[test]
fn path_follows_the_links() {
    let nodes = vec![
        node(0, 0, 0, 0, None),
        node(1, 10, 0, 10, Some(0)),
        node(2, 20, 0, 20, Some(1)),
        node(3, usize::MAX, 0, usize::MAX, None),
    ];
    assert_eq!(
        calculate_path(&nodes, &nodes[2]),
        vec![PathPoints { x: 0, y: 2 }, PathPoints { x: 0, y: 1 }, PathPoints { x: 0, y: 0 }]
    );
    assert_eq!(calculate_path(&nodes, &nodes[0]), Vec::<PathPoints>::new());
    assert_eq!(calculate_path(&nodes, &nodes[3]), Vec::<PathPoints>::new());
}

#[test]
fn list_helpers() {
    let mut v = vec![4, 7, 9];
    assert!(list_contains(&v, 7));
    assert!(!list_contains(&v, 8));
    remove_value(&mut v, 7);
    assert_eq!(v, vec![4, 9]);
    let mut w = vec![1, 2, 1];
    remove_value(&mut w, 1);
    assert_eq!(w, vec![2, 1]);
}
