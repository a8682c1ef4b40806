use shared_types::pathfinding::{PathSearch, SearchStep, TileIndex};

/// Runs the search with the tiles in `blocked` costing 1000 and every other tile nothing.
fn find_path(target: TileIndex, blocked: &[TileIndex]) -> Option<Vec<TileIndex>> {
    let cost = |t: TileIndex| if blocked.contains(&t) { 1000 } else { 0 };
    let mut search = PathSearch::start(target, cost(target), cost((0, 0, 0)))?;
    let mut steps = 0;
    while let SearchStep::Expand(_) = search.next_tile() {
        steps += 1;
        assert!(steps < 100_000);
        assert!(search.can_expand());
        let tiles = search.neighbor_tiles();
        let costs = [cost(tiles[0]), cost(tiles[1]), cost(tiles[2]), cost(tiles[3]), cost(tiles[4]), cost(tiles[5])];
        search.expand(costs);
    }
    search.finish()
}

fn is_walk(path: &[TileIndex], target: TileIndex) -> bool {
    let adjacent = |a: TileIndex, b: TileIndex| {
        (a.0 - b.0).abs() + (a.1 - b.1).abs() + (a.2 - b.2).abs() == 1
    };
    let mut prev = (0, 0, 0);
    for &t in path {
        if !adjacent(prev, t) {
            return false;
        }
        prev = t;
    }
    prev == target
}

#[test]
fn straight_path() {
    let path = find_path((3, 0, 0), &[]).unwrap();
    assert_eq!(path, vec![(1, 0, 0), (2, 0, 0), (3, 0, 0)]);
}

#[test]
fn path_around_obstacle() {
    let path = find_path((2, 0, 0), &[(1, 0, 0)]).unwrap();
    assert_eq!(path.len(), 4);
    assert!(is_walk(&path, (2, 0, 0)));
    assert!(!path.contains(&(1, 0, 0)));
}

#[test]
fn obstructed_target_or_origin() {
    assert!(PathSearch::start((5, 5, 5), 1000, 0).is_none());
    assert!(PathSearch::start((5, 5, 5), 0, 1000).is_none());
    assert!(find_path((1, 1, 0), &[(1, 1, 0)]).is_none());
}

#[test]
fn target_at_origin() {
    assert_eq!(find_path((0, 0, 0), &[]), Some(Vec::new()));
}
