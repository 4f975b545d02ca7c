use generalsearch::breadth_first_search;
use std::cell::RefCell;
use std::collections::HashMap;

fn simple_final_state(_: &Vec<usize>, x: &usize) -> bool {
    *x == 5
}

fn simple_get_new_states(_: &Vec<usize>, x: &usize) -> Vec<usize> {
    vec![*x + 1]
}

fn open_cells(maze: &Vec<Vec<i32>>, pos: &(usize, usize)) -> Vec<(usize, usize)> {
    let (x, y) = *pos;
    let positions = vec![(x - 1, y), (x, y - 1), (x + 1, y), (x, y + 1)];
    positions.into_iter().filter(|&p| maze[p.1][p.0] != 1).collect::<Vec<(usize, usize)>>()
}

fn walled_maze(goal_cell: i32) -> Vec<Vec<i32>> {
    vec![
        vec![1, 1, 1, 1, 1, 1],
        vec![1, 0, 1, 0, 0, 1],
        vec![1, 0, 0, 0, 0, 1],
        vec![1, 0, 1, 1, goal_cell, 1],
        vec![1, 0, 0, 0, 1, 1],
        vec![1, 1, 1, 0, 1, 1],
        vec![1, 0, 0, 0, 0, 1],
        vec![1, 1, 1, 1, 1, 1],
    ]
}

/// A graph on small integers, given as adjacency lists.
fn edges(lists: &[(u32, &[u32])]) -> HashMap<u32, Vec<u32>> {
    let mut graph = HashMap::new();
    for (from, to) in lists {
        graph.insert(*from, to.to_vec());
    }
    graph
}

fn neighbours(graph: &HashMap<u32, Vec<u32>>, s: &u32) -> Vec<u32> {
    graph.get(s).cloned().unwrap_or_default()
}

#[test]
fn simple_maze() {
    let maze: Vec<usize> = vec![0, 0, 0, 0, 0, 0];
    let initial_state = 0 as usize;
    let final_state = simple_final_state;
    let get_new_states = simple_get_new_states;
    let res = breadth_first_search(&maze, initial_state, final_state, get_new_states);
    assert_eq!(res, Some(vec![0, 1, 2, 3, 4, 5]));
}

#[test]
fn more_complex_maze() {
    let maze: Vec<Vec<i32>> = vec![
        vec![1, 1, 1, 1, 1, 1],
        vec![1, 0, 1, 0, 0, 1],
        vec![1, 0, 0, 0, 0, 1],
        vec![1, 0, 1, 1, 2, 1],
        vec![1, 0, 0, 0, 1, 1],
        vec![1, 1, 1, 0, 1, 1],
        vec![1, 0, 0, 0, 0, 1],
        vec![1, 1, 1, 1, 1, 1],
    ];
    let res = breadth_first_search(
        &maze,
        (4, 6),
        |maze: &Vec<Vec<i32>>, x: &(usize, usize)| maze[x.1][x.0] == 2,
        |maze: &Vec<Vec<i32>>, pos: &(usize, usize)| {
            let (x, y) = *pos;
            let positions = vec![(x - 1, y), (x, y - 1), (x + 1, y), (x, y + 1)];
            positions.into_iter().filter(|&p| maze[p.1][p.0] != 1).collect::<Vec<(usize, usize)>>()
        },
    );
    assert_eq!(
        res,
        Some(vec![
            (4, 6),
            (3, 6),
            (3, 5),
            (3, 4),
            (2, 4),
            (1, 4),
            (1, 3),
            (1, 2),
            (2, 2),
            (3, 2),
            (4, 2),
            (4, 3)
        ])
    );
}

#[test]
fn more_complex_maze_no_solution() {
    let maze: Vec<Vec<i32>> = vec![
        vec![1, 1, 1, 1, 1, 1],
        vec![1, 0, 1, 0, 0, 1],
        vec![1, 0, 0, 0, 0, 1],
        vec![1, 0, 1, 1, 0, 1],
        vec![1, 0, 0, 0, 1, 1],
        vec![1, 1, 1, 0, 1, 1],
        vec![1, 0, 0, 0, 0, 1],
        vec![1, 1, 1, 1, 1, 1],
    ];
    let res = breadth_first_search(
        &maze,
        (4, 6),
        |maze: &Vec<Vec<i32>>, x: &(usize, usize)| maze[x.1][x.0] == 2,
        |maze: &Vec<Vec<i32>>, pos: &(usize, usize)| {
            let (x, y) = *pos;
            let positions = vec![(x - 1, y), (x, y - 1), (x + 1, y), (x, y + 1)];
            positions.into_iter().filter(|&p| maze[p.1][p.0] != 1).collect::<Vec<(usize, usize)>>()
        },
    );
    assert_eq!(res, None);
}

#[test]
fn maze_with_blocked_goal_cell_has_no_path() {
    let maze = walled_maze(1);
    let res = breadth_first_search(
        &maze,
        (4, 6),
        |maze: &Vec<Vec<i32>>, x: &(usize, usize)| maze[x.1][x.0] == 2,
        open_cells,
    );
    assert_eq!(res, None);
}

#[test]
fn goal_at_start_is_returned_alone_without_expanding() {
    let maze: Vec<usize> = Vec::new();
    let res = breadth_first_search(
        &maze,
        7usize,
        |_: &Vec<usize>, x: &usize| *x == 7,
        |_: &Vec<usize>, _: &usize| -> Vec<usize> {
            panic!("a goal at the start must not be expanded")
        },
    );
    assert_eq!(res, Some(vec![7]));
}

#[test]
fn goal_is_tested_before_a_state_is_expanded() {
    let graph = edges(&[(0, &[1]), (1, &[2])]);
    let expanded: RefCell<Vec<u32>> = RefCell::new(Vec::new());
    let res = breadth_first_search(
        &graph,
        0u32,
        |_: &HashMap<u32, Vec<u32>>, s: &u32| *s == 2,
        |g: &HashMap<u32, Vec<u32>>, s: &u32| {
            expanded.borrow_mut().push(*s);
            neighbours(g, s)
        },
    );
    assert_eq!(res, Some(vec![0, 1, 2]));
    assert_eq!(*expanded.borrow(), vec![0, 1]);
}

#[test]
fn shortest_of_several_routes_is_returned() {
    // 0 -> 1 -> 2 -> 3 -> 9 takes four steps, 0 -> 4 -> 9 takes two.
    let graph = edges(&[(0, &[1, 4]), (1, &[2]), (2, &[3]), (3, &[9]), (4, &[9])]);
    let res = breadth_first_search(
        &graph,
        0u32,
        |_: &HashMap<u32, Vec<u32>>, s: &u32| *s == 9,
        neighbours,
    );
    assert_eq!(res, Some(vec![0, 4, 9]));
}

#[test]
fn nearest_of_several_goals_is_returned() {
    let graph = edges(&[(0, &[1, 2]), (1, &[3]), (2, &[]), (3, &[8]), (8, &[])]);
    let res = breadth_first_search(
        &graph,
        0u32,
        |_: &HashMap<u32, Vec<u32>>, s: &u32| *s == 8 || *s == 2,
        neighbours,
    );
    assert_eq!(res, Some(vec![0, 2]));
}

#[test]
fn of_two_shortest_routes_the_one_listed_first_is_returned() {
    let graph = edges(&[(0, &[1, 2]), (1, &[3]), (2, &[3])]);
    let goal = |_: &HashMap<u32, Vec<u32>>, s: &u32| *s == 3;
    assert_eq!(breadth_first_search(&graph, 0u32, goal, neighbours), Some(vec![0, 1, 3]));

    let swapped = edges(&[(0, &[2, 1]), (1, &[3]), (2, &[3])]);
    assert_eq!(breadth_first_search(&swapped, 0u32, goal, neighbours), Some(vec![0, 2, 3]));
}

#[test]
fn order_of_listing_decides_between_goals_at_one_depth() {
    let graph = edges(&[(0, &[1, 2]), (1, &[5, 6]), (2, &[7])]);
    let goal = |_: &HashMap<u32, Vec<u32>>, s: &u32| *s == 6 || *s == 7;
    assert_eq!(breadth_first_search(&graph, 0u32, goal, neighbours), Some(vec![0, 1, 6]));
}

#[test]
fn cycle_without_goal_ends_with_no_path() {
    let graph = edges(&[(0, &[1]), (1, &[2]), (2, &[0, 1, 2])]);
    let res = breadth_first_search(
        &graph,
        0u32,
        |_: &HashMap<u32, Vec<u32>>, _: &u32| false,
        neighbours,
    );
    assert_eq!(res, None);
}

#[test]
fn start_without_successors_has_no_path() {
    let graph = edges(&[]);
    let res = breadth_first_search(
        &graph,
        0u32,
        |_: &HashMap<u32, Vec<u32>>, s: &u32| *s == 1,
        neighbours,
    );
    assert_eq!(res, None);
}

#[test]
fn each_state_is_expanded_at_most_once() {
    // Every state is listed several times, by itself and by others.
    let graph = edges(&[
        (0, &[1, 1, 2, 0]),
        (1, &[2, 0, 3, 3]),
        (2, &[1, 3, 2]),
        (3, &[0, 4, 4]),
        (4, &[4, 3]),
    ]);
    let calls: RefCell<HashMap<u32, u32>> = RefCell::new(HashMap::new());
    let res = breadth_first_search(
        &graph,
        0u32,
        |_: &HashMap<u32, Vec<u32>>, _: &u32| false,
        |g: &HashMap<u32, Vec<u32>>, s: &u32| {
            *calls.borrow_mut().entry(*s).or_insert(0) += 1;
            neighbours(g, s)
        },
    );
    assert_eq!(res, None);
    let calls = calls.borrow();
    assert_eq!(calls.len(), 5);
    for state in 0..5u32 {
        assert_eq!(calls[&state], 1);
    }
}

#[test]
fn each_state_is_tested_at_most_once() {
    let graph = edges(&[(0, &[1, 2, 1]), (1, &[2, 0]), (2, &[0, 1, 2])]);
    let tests: RefCell<Vec<u32>> = RefCell::new(Vec::new());
    let res = breadth_first_search(
        &graph,
        0u32,
        |_: &HashMap<u32, Vec<u32>>, s: &u32| {
            tests.borrow_mut().push(*s);
            false
        },
        neighbours,
    );
    assert_eq!(res, None);
    assert_eq!(*tests.borrow(), vec![0, 1, 2]);
}

#[test]
fn duplicate_successors_do_not_change_the_path() {
    let graph = edges(&[(0, &[1, 1, 1]), (1, &[2, 2]), (2, &[])]);
    let res = breadth_first_search(
        &graph,
        0u32,
        |_: &HashMap<u32, Vec<u32>>, s: &u32| *s == 2,
        neighbours,
    );
    assert_eq!(res, Some(vec![0, 1, 2]));
}

#[test]
fn every_step_of_the_maze_path_is_one_expansion() {
    let maze = walled_maze(2);
    let path = breadth_first_search(
        &maze,
        (4, 6),
        |maze: &Vec<Vec<i32>>, x: &(usize, usize)| maze[x.1][x.0] == 2,
        open_cells,
    )
    .unwrap();
    assert_eq!(path.len(), 12);
    assert_eq!(path[0], (4, 6));
    assert_eq!(maze[path[11].1][path[11].0], 2);
    for i in 0..path.len() - 1 {
        assert!(open_cells(&maze, &path[i]).contains(&path[i + 1]));
        assert_ne!(maze[path[i].1][path[i].0], 2);
    }
}

#[test]
fn path_on_a_ring_goes_the_short_way_round() {
    // A ring of eight states; each lists its two neighbours.
    let ring = 8u32;
    let res = breadth_first_search(
        &ring,
        0u32,
        |_: &u32, s: &u32| *s == 6,
        |n: &u32, s: &u32| vec![(*s + 1) % *n, (*s + *n - 1) % *n],
    );
    assert_eq!(res, Some(vec![0, 7, 6]));
}

#[test]
fn search_works_on_owned_string_states() {
    let limit = 3usize;
    let res = breadth_first_search(
        &limit,
        String::new(),
        |_: &usize, s: &String| s == "ba",
        |limit: &usize, s: &String| {
            if s.len() < *limit {
                vec![format!("{}a", s), format!("{}b", s)]
            } else {
                Vec::new()
            }
        },
    );
    assert_eq!(res, Some(vec![String::new(), String::from("b"), String::from("ba")]));
}

#[test]
fn goal_in_a_space_too_large_to_exhaust_is_found() {
    // Every state has two successors of its own; the states never repeat.
    let res = breadth_first_search(
        &(),
        0u128,
        |_: &(), s: &u128| *s == 12,
        |_: &(), s: &u128| vec![*s * 2 + 1, *s * 2 + 2],
    );
    assert_eq!(res, Some(vec![0, 2, 5, 12]));
}
