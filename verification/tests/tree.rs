use point_index::bucket::{Item, CAPACITY};
use point_index::error::IndexError;
use point_index::geometry::{Aabb, Point};
use point_index::tree::Tree;

fn ids_in(tree: &Tree, min: Point, max: Point) -> Vec<u64> {
    let mut ids: Vec<u64> = tree
        .query_region(&Aabb::new(min, max))
        .iter()
        .map(|item| item.entity)
        .collect();
    ids.sort();
    ids
}

fn ids_at(tree: &Tree, point: Point) -> Vec<u64> {
    ids_in(tree, point, point)
}

#[test]
fn new_tree_is_one_empty_leaf() {
    let tree = Tree::new(Point::new(100, 100), 32);
    assert_eq!(tree.nodes_len(), 0);
    assert_eq!(tree.buckets_len(), 1);
    assert_eq!(tree.query_point(Point::new(0, 0)), None);
    assert!(ids_in(&tree, Point::new(-100, -100), Point::new(100, 100)).is_empty());
}

#[test]
fn inserted_point_is_found() {
    let mut tree = Tree::new(Point::new(100, 100), 32);
    assert_eq!(tree.insert(7, Point::new(3, -4)), Ok(()));
    assert_eq!(tree.query_point(Point::new(3, -4)), Some(7));
    assert_eq!(tree.query_point(Point::new(3, -5)), None);
    assert_eq!(ids_in(&tree, Point::new(0, -10), Point::new(10, 0)), vec![7]);
    assert_eq!(ids_in(&tree, Point::new(4, -10), Point::new(10, 0)), Vec::<u64>::new());
    let found = tree.query_region(&Aabb::new(Point::new(3, -4), Point::new(3, -4)));
    assert_eq!(found, vec![Item { entity: 7, point: Point::new(3, -4) }]);
}

#[test]
fn domain_includes_its_borders() {
    let mut tree = Tree::new(Point::new(10, 20), 32);
    assert!(tree.contains_point(Point::new(-10, -20)));
    assert!(tree.contains_point(Point::new(10, 20)));
    assert!(tree.contains_point(Point::new(10, 0)));
    assert!(tree.contains_point(Point::new(0, 20)));
    assert!(!tree.contains_point(Point::new(11, 0)));
    assert!(!tree.contains_point(Point::new(0, 21)));
    assert!(!tree.contains_point(Point::new(-11, 0)));
    assert!(!tree.contains_point(Point::new(0, -21)));
    assert_eq!(tree.insert(1, Point::new(-10, -20)), Ok(()));
    assert_eq!(tree.insert(2, Point::new(10, 20)), Ok(()));
    assert_eq!(tree.insert(3, Point::new(10, 0)), Ok(()));
    assert_eq!(tree.insert(4, Point::new(0, -20)), Ok(()));
    assert_eq!(tree.insert(5, Point::new(11, 0)), Err(IndexError::OutOfBounds));
    assert_eq!(tree.insert(6, Point::new(0, -21)), Err(IndexError::OutOfBounds));
    assert_eq!(tree.insert(7, Point::new(-11, 20)), Err(IndexError::OutOfBounds));
    assert_eq!(tree.insert(8, Point::new(10, 21)), Err(IndexError::OutOfBounds));
    assert_eq!(ids_in(&tree, Point::new(-50, -50), Point::new(50, 50)), vec![1, 2, 3, 4]);
    assert_eq!(tree.query_point(Point::new(10, 20)), Some(2));
    assert_eq!(tree.query_point(Point::new(10, 0)), Some(3));
    assert_eq!(tree.query_point(Point::new(11, 0)), None);
    assert_eq!(tree.remove(2, Point::new(10, 20)), Ok(()));
    assert_eq!(tree.query_point(Point::new(10, 20)), None);
    assert_eq!(tree.remove(5, Point::new(11, 0)), Err(IndexError::NotFound));
}

#[test]
fn point_on_the_upper_border_divides_a_full_leaf() {
    let mut tree = Tree::new(Point::new(10, 20), 32);
    for i in 0..CAPACITY as i32 {
        assert_eq!(tree.insert(i as u64, Point::new(-10 + i, i)), Ok(()));
    }
    assert_eq!(tree.nodes_len(), 0);
    // the seventeenth lies on the upper border, on the other side of the
    // first dividing line than the ten lowest
    assert_eq!(tree.insert(16, Point::new(10, 20)), Ok(()));
    assert_eq!(tree.nodes_len(), 1);
    assert_eq!(tree.buckets_len(), 2);
    for i in 0..CAPACITY as i32 {
        assert_eq!(tree.query_point(Point::new(-10 + i, i)), Some(i as u64));
    }
    assert_eq!(tree.query_point(Point::new(10, 20)), Some(16));
    assert_eq!(ids_in(&tree, Point::new(-10, -20), Point::new(-1, 20)), (0..10u64).collect::<Vec<u64>>());
    assert_eq!(ids_in(&tree, Point::new(0, -20), Point::new(10, 20)), (10..17u64).collect::<Vec<u64>>());
    let (path, _) = tree.find_bucket(Point::new(10, 20));
    assert_eq!(path.depth(), 1);
    assert_eq!(path.lower(), Point::new(0, -20));
    assert_eq!(path.upper(), Point::new(10, 20));
}

#[test]
fn overflow_divides_the_leaf_once() {
    let mut tree = Tree::new(Point::new(64, 64), 32);
    for i in 0..CAPACITY as i32 {
        // eight points on either side of the first dividing line
        let x = if i % 2 == 0 { -40 + i } else { 10 + i };
        assert_eq!(tree.insert(i as u64, Point::new(x, i)), Ok(()));
    }
    assert_eq!(tree.nodes_len(), 0);
    assert_eq!(tree.buckets_len(), 1);
    assert_eq!(tree.insert(100, Point::new(-1, -1)), Ok(()));
    assert_eq!(tree.nodes_len(), 1);
    assert_eq!(tree.buckets_len(), 2);
    for i in 0..CAPACITY as i32 {
        let x = if i % 2 == 0 { -40 + i } else { 10 + i };
        assert_eq!(tree.query_point(Point::new(x, i)), Some(i as u64));
    }
    assert_eq!(tree.query_point(Point::new(-1, -1)), Some(100));
    assert_eq!(ids_in(&tree, Point::new(-64, -64), Point::new(-1, 64)), vec![0, 2, 4, 6, 8, 10, 12, 14, 100]);
    assert_eq!(ids_in(&tree, Point::new(0, -64), Point::new(64, 64)), vec![1, 3, 5, 7, 9, 11, 13, 15]);
    let (_, low) = tree.find_bucket(Point::new(-1, -1));
    let (_, high) = tree.find_bucket(Point::new(10, 10));
    assert!(low != high);
}

#[test]
fn sixteen_at_one_place_then_one_elsewhere() {
    let mut tree = Tree::new(Point::new(1024, 1024), 32);
    let here = Point::new(100, 200);
    let there = Point::new(-300, 50);
    for id in 0..16u64 {
        assert_eq!(tree.insert(id, here), Ok(()));
    }
    assert_eq!(tree.nodes_len(), 0);
    assert_eq!(tree.insert(16, there), Ok(()));
    assert!(tree.nodes_len() >= 1);
    assert_eq!(ids_at(&tree, here), (0..16u64).collect::<Vec<u64>>());
    assert_eq!(ids_at(&tree, there), vec![16]);
    assert_eq!(tree.query_point(there), Some(16));
    assert_eq!(tree.query_point(here), Some(0));
}

#[test]
fn close_neighbours_need_several_divisions() {
    let mut tree = Tree::new(Point::new(1024, 1024), 64);
    let here = Point::new(100, 200);
    let beside = Point::new(101, 200);
    for id in 0..16u64 {
        assert_eq!(tree.insert(id, here), Ok(()));
    }
    assert_eq!(tree.insert(16, beside), Ok(()));
    // the domain is halved eleven times along x before 100 and 101 part,
    // and the divisions along y lie in between
    assert_eq!(tree.nodes_len(), 21);
    assert_eq!(tree.buckets_len(), 22);
    assert_eq!(ids_at(&tree, here), (0..16u64).collect::<Vec<u64>>());
    assert_eq!(ids_at(&tree, beside), vec![16]);
    assert_eq!(ids_in(&tree, Point::new(-1024, -1024), Point::new(1024, 1024)), (0..17u64).collect::<Vec<u64>>());
}

#[test]
fn coincident_points_end_at_the_depth_limit() {
    let mut tree = Tree::new(Point::new(1024, 1024), 5);
    let here = Point::new(100, 200);
    for id in 0..16u64 {
        assert_eq!(tree.insert(id, here), Ok(()));
    }
    assert_eq!(tree.insert(16, here), Err(IndexError::SplitDepthExceeded));
    assert_eq!(tree.nodes_len(), 5);
    assert_eq!(tree.buckets_len(), 6);
    assert_eq!(ids_at(&tree, here), (0..16u64).collect::<Vec<u64>>());
    // the leaf now lies at the limit: a further attempt fails at once
    assert_eq!(tree.insert(17, here), Err(IndexError::SplitDepthExceeded));
    assert_eq!(tree.nodes_len(), 5);
    // other places still take items
    assert_eq!(tree.insert(18, Point::new(-5, -5)), Ok(()));
    assert_eq!(ids_in(&tree, Point::new(-1024, -1024), Point::new(1024, 1024)), vec![0, 1, 2, 3, 4, 5, 6, 7, 8, 9, 10, 11, 12, 13, 14, 15, 18]);
}

#[test]
fn depth_limit_zero_never_divides() {
    let mut tree = Tree::new(Point::new(8, 8), 0);
    for id in 0..16u64 {
        assert_eq!(tree.insert(id, Point::new(id as i32 - 8, 0)), Ok(()));
    }
    assert_eq!(tree.insert(16, Point::new(0, 1)), Err(IndexError::SplitDepthExceeded));
    assert_eq!(tree.nodes_len(), 0);
    assert_eq!(tree.buckets_len(), 1);
}

#[test]
fn removal_by_place() {
    let mut tree = Tree::new(Point::new(100, 100), 32);
    assert_eq!(tree.insert(1, Point::new(5, 5)), Ok(()));
    assert_eq!(tree.insert(2, Point::new(5, 5)), Ok(()));
    assert_eq!(tree.insert(3, Point::new(-5, 5)), Ok(()));
    assert_eq!(tree.remove(1, Point::new(5, 5)), Ok(()));
    assert_eq!(tree.query_point(Point::new(5, 5)), Some(2));
    assert_eq!(tree.remove(1, Point::new(5, 5)), Err(IndexError::NotFound));
    assert_eq!(tree.remove(9, Point::new(5, 5)), Err(IndexError::NotFound));
    assert_eq!(tree.remove(3, Point::new(500, 5)), Err(IndexError::NotFound));
    assert_eq!(ids_in(&tree, Point::new(-100, -100), Point::new(100, 100)), vec![2, 3]);
    assert_eq!(tree.remove(2, Point::new(5, 5)), Ok(()));
    assert_eq!(tree.query_point(Point::new(5, 5)), None);
}

#[test]
fn removal_by_leaf() {
    let mut tree = Tree::new(Point::new(100, 100), 32);
    assert_eq!(tree.insert(1, Point::new(5, 5)), Ok(()));
    assert_eq!(tree.insert(2, Point::new(6, 6)), Ok(()));
    let (_, leaf) = tree.find_bucket(Point::new(5, 5));
    assert_eq!(tree.remove_from(leaf, 1), Ok(()));
    assert_eq!(tree.remove_from(leaf, 1), Err(IndexError::NotFound));
    assert_eq!(tree.query_point(Point::new(5, 5)), None);
    assert_eq!(tree.query_point(Point::new(6, 6)), Some(2));
    let stale = point_index::packed::PackedId::try_from(40).unwrap();
    assert_eq!(tree.remove_from(stale, 2), Err(IndexError::NotFound));
    assert_eq!(tree.query_point(Point::new(6, 6)), Some(2));
}

#[test]
fn removal_takes_the_first_of_equal_identifiers() {
    let mut tree = Tree::new(Point::new(100, 100), 32);
    assert_eq!(tree.insert(1, Point::new(5, 5)), Ok(()));
    assert_eq!(tree.insert(1, Point::new(6, 6)), Ok(()));
    // both lie in the one leaf: the one that came first leaves first
    assert_eq!(tree.remove(1, Point::new(6, 6)), Ok(()));
    assert_eq!(tree.query_point(Point::new(5, 5)), None);
    assert_eq!(tree.query_point(Point::new(6, 6)), Some(1));
}

#[test]
fn links_follow_the_leaves_through_many_divisions() {
    let mut tree = Tree::new(Point::new(512, 512), 40);
    let mut id: u64 = 0;
    let mut all: Vec<(u64, Point)> = Vec::new();
    // a grid of points fills the domain, so that leaves divide in every
    // part of the tree and leaves move within their arena
    let mut x = -512;
    while x < 512 {
        let mut y = -512;
        while y < 512 {
            let p = Point::new(x, y);
            assert_eq!(tree.insert(id, p), Ok(()));
            all.push((id, p));
            id += 1;
            y += 37;
        }
        x += 29;
    }
    assert!(tree.nodes_len() > 50);
    assert_eq!(tree.buckets_len(), tree.nodes_len() + 1);
    for (id, p) in all.iter() {
        assert_eq!(tree.query_point(*p), Some(*id));
    }
    assert_eq!(ids_in(&tree, Point::new(-512, -512), Point::new(511, 511)).len(), all.len());
    // remove every other one and look again
    for (id, p) in all.iter() {
        if id % 2 == 0 {
            assert_eq!(tree.remove(*id, *p), Ok(()));
        }
    }
    for (id, p) in all.iter() {
        if id % 2 == 0 {
            assert_eq!(tree.query_point(*p), None);
        } else {
            assert_eq!(tree.query_point(*p), Some(*id));
        }
    }
    let expected: Vec<u64> = all
        .iter()
        .filter(|(id, p)| id % 2 == 1 && -100 <= p.x && p.x <= 100 && 0 <= p.y && p.y <= 300)
        .map(|(id, _)| *id)
        .collect();
    assert_eq!(ids_in(&tree, Point::new(-100, 0), Point::new(100, 300)), expected);
}

#[test]
fn region_on_a_dividing_line_reaches_both_halves() {
    let mut tree = Tree::new(Point::new(64, 64), 32);
    for i in 0..20 {
        assert_eq!(tree.insert(i as u64, Point::new(-10 + i, 0)), Ok(()));
    }
    assert!(tree.nodes_len() >= 1);
    assert_eq!(ids_in(&tree, Point::new(-1, 0), Point::new(0, 0)), vec![9, 10]);
    assert_eq!(ids_in(&tree, Point::new(0, 0), Point::new(0, 0)), vec![10]);
    assert_eq!(ids_in(&tree, Point::new(5, 1), Point::new(4, -1)), Vec::<u64>::new());
}

#[test]
fn find_bucket_reports_the_cell() {
    let mut tree = Tree::new(Point::new(64, 64), 32);
    for i in 0..17 {
        assert_eq!(tree.insert(i as u64, Point::new(-17 + 2 * i, 3)), Ok(()));
    }
    let (path, _) = tree.find_bucket(Point::new(-17, 3));
    assert_eq!(path.depth(), 1);
    assert_eq!(path.lower(), Point::new(-64, -64));
    assert_eq!(path.upper(), Point::new(-1, 64));
    assert_eq!(path.target(), Point::new(-17, 3));
}

#[test]
fn new_leaves_stand_behind_the_halves_that_stayed() {
    let mut tree = Tree::new(Point::new(1024, 1024), 64);
    let here = Point::new(100, 200);
    let beside = Point::new(101, 200);
    for id in 0..16u64 {
        assert_eq!(tree.insert(id, here), Ok(()));
    }
    assert_eq!(tree.find_bucket(here).1.to_index(), 0);
    assert_eq!(tree.insert(16, beside), Ok(()));
    assert_eq!(tree.buckets_len(), 22);
    // the two halves of the last division stand last
    assert_eq!(tree.find_bucket(here).1.to_index(), 20);
    assert_eq!(tree.find_bucket(beside).1.to_index(), 21);
    // the half of the first division that stayed stands first
    let (path, far) = tree.find_bucket(Point::new(-300, 50));
    assert_eq!(far.to_index(), 0);
    assert_eq!(path.depth(), 1);
    // and the half of the second division that stayed stands next
    let (path, below) = tree.find_bucket(Point::new(5, -7));
    assert_eq!(below.to_index(), 1);
    assert_eq!(path.depth(), 2);
    assert_eq!(path.lower(), Point::new(0, -1024));
    assert_eq!(path.upper(), Point::new(1024, -1));
}

#[test]
fn last_leaf_moves_into_the_slot_of_a_divided_leaf() {
    let mut tree = Tree::new(Point::new(64, 64), 32);
    // the first division leaves a leaf for either half of the domain
    for i in 0..17 {
        assert_eq!(tree.insert(i as u64, Point::new(-34 + 4 * i, 3)), Ok(()));
    }
    let left = Point::new(-34, 3);
    let right = Point::new(30, 3);
    assert_eq!(tree.find_bucket(left).1.to_index(), 0);
    assert_eq!(tree.find_bucket(right).1.to_index(), 1);
    // fill the left leaf and divide it: the right leaf, which stood last,
    // moves into its slot
    for i in 0..8 {
        assert_eq!(tree.insert(100 + i as u64, Point::new(-60 + i, -40 + 10 * i)), Ok(()));
    }
    assert_eq!(tree.buckets_len(), 3);
    assert_eq!(tree.find_bucket(right).1.to_index(), 0);
    assert_eq!(tree.query_point(right), Some(16));
    assert_eq!(tree.query_point(left), Some(0));
    assert_eq!(tree.query_point(Point::new(-60, -40)), Some(100));
    let (_, leaf) = tree.find_bucket(right);
    assert_eq!(tree.remove_from(leaf, 16), Ok(()));
    assert_eq!(tree.query_point(right), None);
}

#[test]
fn leaves_run_out_of_handles() {
    let mut tree = Tree::new(Point::new(1 << 20, 1 << 20), 64);
    let mut state: u64 = 12345;
    let mut stored: u64 = 0;
    let mut refused = None;
    while stored < 2_000_000 {
        state = state.wrapping_mul(6364136223846793005).wrapping_add(1442695040888963407);
        let x = ((state >> 11) & 0x1f_ffff) as i32 - (1 << 20);
        let y = ((state >> 37) & 0x1f_ffff) as i32 - (1 << 20);
        match tree.insert(stored, Point::new(x, y)) {
            Ok(()) => stored += 1,
            Err(err) => {
                refused = Some((err, Point::new(x, y)));
                break;
            },
        }
    }
    let (err, place) = refused.unwrap();
    assert_eq!(err, IndexError::Exhausted);
    assert_eq!(tree.buckets_len(), 65535);
    assert_eq!(tree.nodes_len(), 65534);
    // nothing was stored and nothing was lost
    assert_eq!(
        tree.query_region(&Aabb::new(Point::new(-(1 << 20), -(1 << 20)), Point::new(1 << 20, 1 << 20)))
            .len() as u64,
        stored
    );
    assert_eq!(tree.insert(stored, place), Err(IndexError::Exhausted));
    // the leaf is still full, and still gives up what it holds
    let (_, leaf) = tree.find_bucket(place);
    let held = tree.query_point(place);
    let first = tree.query_region(&Aabb::new(Point::new(-(1 << 20), -(1 << 20)), Point::new(1 << 20, 1 << 20)));
    let inside: Vec<&Item> = first.iter().filter(|item| tree.find_bucket(item.point).1 == leaf).collect();
    assert_eq!(inside.len(), CAPACITY);
    assert_eq!(tree.remove(inside[0].entity, inside[0].point), Ok(()));
    assert_eq!(tree.insert(stored, place), Ok(()));
    match held {
        Some(entity) if entity != inside[0].entity => {
            assert_eq!(tree.query_point(place), Some(entity))
        },
        _ => {},
    }
    assert!(ids_at(&tree, place).contains(&stored));
}

#[test]
fn dividing_the_sibling_of_the_last_leaf_keeps_both_links_right() {
    let mut tree = Tree::new(Point::new(64, 64), 32);
    // one division: the lower half of x stands in slot 0, the higher in 1
    for i in 0..17 {
        assert_eq!(tree.insert(i as u64, Point::new(-34 + 4 * i, 3)), Ok(()));
    }
    assert_eq!(tree.find_bucket(Point::new(-34, 3)).1.to_index(), 0);
    assert_eq!(tree.find_bucket(Point::new(30, 3)).1.to_index(), 1);
    // fill and divide the lower half, which is the first child of the root
    // branch and the sibling of the last leaf: that leaf moves into slot 0,
    // so that for a moment both links of the root branch name slot 0
    let mut inserted: Vec<(u64, Point)> = Vec::new();
    for i in 0..8 {
        let p = Point::new(-60 + i, -40 + 10 * i);
        assert_eq!(tree.insert(100 + i as u64, p), Ok(()));
        inserted.push((100 + i as u64, p));
    }
    assert_eq!(tree.nodes_len(), 2);
    assert_eq!(tree.buckets_len(), 3);
    assert_eq!(tree.find_bucket(Point::new(30, 3)).1.to_index(), 0);
    for i in 0..17 {
        assert_eq!(tree.query_point(Point::new(-34 + 4 * i, 3)), Some(i as u64));
    }
    for (id, p) in inserted {
        assert_eq!(tree.query_point(p), Some(id));
    }
    assert_eq!(ids_in(&tree, Point::new(0, -64), Point::new(64, 64)), (9..17u64).collect::<Vec<u64>>());
    // and the other way round: divide the higher half, which stands in
    // slot 0 now, while the last leaf is a half of its sibling
    for i in 0..9 {
        assert_eq!(tree.insert(200 + i as u64, Point::new(40 + i, -30 + 5 * i)), Ok(()));
    }
    assert_eq!(tree.nodes_len(), 3);
    for i in 0..17 {
        assert_eq!(tree.query_point(Point::new(-34 + 4 * i, 3)), Some(i as u64));
    }
    for i in 0..9 {
        assert_eq!(tree.query_point(Point::new(40 + i, -30 + 5 * i)), Some(200 + i as u64));
    }
    assert_eq!(ids_in(&tree, Point::new(-64, -64), Point::new(64, 64)).len(), 34);
}
