use govee::sides::{place_colors, place_side_colors, side_groups};

fn strings(v: &[&str]) -> Vec<String> {
    v.iter().map(|s| s.to_string()).collect()
}

#[test]
fn groups_by_first_appearance() {
    let s = strings(&["left", "left", "top", "right", "top"]);
    assert_eq!(side_groups(&s), vec![vec![0, 1], vec![2, 4], vec![3]]);
}

#[test]
fn groups_single_and_empty() {
    assert_eq!(side_groups(&strings(&["all"])), vec![vec![0]]);
    assert_eq!(side_groups(&[]), Vec::<Vec<usize>>::new());
}

#[test]
fn groups_partition_indices() {
    let s = strings(&["a", "b", "a", "c", "b", "a"]);
    let g = side_groups(&s);
    let mut seen: Vec<usize> = g.iter().flatten().copied().collect();
    seen.sort();
    assert_eq!(seen, (0..s.len()).collect::<Vec<_>>());
    for grp in &g {
        assert!(grp.iter().all(|&i| s[i] == s[grp[0]]));
    }
}

#[test]
fn place_colors_scatters_groups() {
    let groups = vec![vec![0, 1], vec![2, 4], vec![3]];
    let colors = vec![
        vec![[1, 1, 1], [2, 2, 2]],
        vec![[3, 3, 3], [4, 4, 4]],
        vec![[5, 5, 5]],
    ];
    assert_eq!(
        place_colors(5, &groups, &colors),
        vec![[1, 1, 1], [2, 2, 2], [3, 3, 3], [5, 5, 5], [4, 4, 4]]
    );
}

#[test]
fn place_colors_leaves_ungrouped_black() {
    assert_eq!(place_colors(3, &vec![vec![1]], &vec![vec![[9, 8, 7]]]), vec![[0, 0, 0], [9, 8, 7], [0, 0, 0]]);
}

#[test]
fn side_colours_follow_segments_in_order() {
    let s = strings(&["left", "top", "left", "left", "top"]);
    let g = side_groups(&s);
    assert_eq!(g, vec![vec![0, 2, 3], vec![1, 4]]);
    let colors = vec![vec![[1, 0, 0], [2, 0, 0], [3, 0, 0]], vec![[0, 1, 0], [0, 2, 0]]];
    assert_eq!(
        place_side_colors(&s, &g, &colors),
        vec![[1, 0, 0], [0, 1, 0], [2, 0, 0], [3, 0, 0], [0, 2, 0]]
    );
}
