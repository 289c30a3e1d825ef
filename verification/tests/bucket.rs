use point_index::bucket::{Bucket, Item, CAPACITY};
use point_index::error::IndexError;
use point_index::geometry::{Aabb, Point};
use point_index::node::{Child, Node};
use point_index::packed::PackedId;
use point_index::path::Half;

fn id(slot: usize) -> PackedId {
    PackedId::try_from(slot).unwrap()
}

#[test]
fn bucket_holds_sixteen() {
    assert_eq!(CAPACITY, 16);
    let mut bucket = Bucket::new(Some(id(3)));
    assert_eq!(bucket.parent(), Some(id(3)));
    for i in 0..16 {
        assert!(!bucket.is_full());
        assert_eq!(bucket.insert(i, Point::new(i as i32, 0)), Ok(()));
    }
    assert!(bucket.is_full());
    assert_eq!(bucket.len(), 16);
    assert_eq!(bucket.insert(16, Point::new(16, 0)), Err(IndexError::BucketFull));
    assert_eq!(bucket.len(), 16);
    assert_eq!(bucket.item(15), Item { entity: 15, point: Point::new(15, 0) });
}

#[test]
fn bucket_removes_the_first_match() {
    let mut bucket = Bucket::new(None);
    assert_eq!(bucket.parent(), None);
    assert_eq!(bucket.insert(1, Point::new(1, 1)), Ok(()));
    assert_eq!(bucket.insert(2, Point::new(2, 2)), Ok(()));
    assert_eq!(bucket.insert(1, Point::new(3, 3)), Ok(()));
    assert!(bucket.remove(1));
    assert_eq!(bucket.len(), 2);
    assert_eq!(bucket.item(0), Item { entity: 2, point: Point::new(2, 2) });
    assert_eq!(bucket.item(1), Item { entity: 1, point: Point::new(3, 3) });
    assert!(!bucket.remove(7));
    assert_eq!(bucket.len(), 2);
    assert!(bucket.remove(1));
    assert!(!bucket.remove(1));
    assert_eq!(bucket.len(), 1);
}

#[test]
fn bucket_finds_the_first_at_a_point() {
    let mut bucket = Bucket::new(None);
    assert_eq!(bucket.find_at(Point::new(1, 1)), None);
    assert_eq!(bucket.insert(4, Point::new(0, 1)), Ok(()));
    assert_eq!(bucket.insert(5, Point::new(1, 1)), Ok(()));
    assert_eq!(bucket.insert(6, Point::new(1, 1)), Ok(()));
    assert_eq!(bucket.find_at(Point::new(1, 1)), Some(5));
    assert_eq!(bucket.find_at(Point::new(0, 1)), Some(4));
    assert_eq!(bucket.find_at(Point::new(1, 0)), None);
}

#[test]
fn node_hands_out_its_children_by_half() {
    let node = Node::from_buckets(Some(id(0)), id(4), id(5));
    assert_eq!(node.parent(), Some(id(0)));
    assert_eq!(node.get_child(Half::TopLeft), Child::Bucket(id(4)));
    assert_eq!(node.get_child(Half::BottomRight), Child::Bucket(id(5)));
    assert_eq!(Node::from_buckets(None, id(1), id(2)).parent(), None);
}

#[test]
fn node_replaces_the_first_child_that_matches() {
    let mut node = Node::from_buckets(None, id(4), id(5));
    node.replace_child(Child::Bucket(id(5)), Child::Node(id(9)));
    assert_eq!(node.get_child(Half::TopLeft), Child::Bucket(id(4)));
    assert_eq!(node.get_child(Half::BottomRight), Child::Node(id(9)));
    // a handle of the other arena does not match
    node.replace_child(Child::Node(id(4)), Child::Bucket(id(7)));
    assert_eq!(node.get_child(Half::TopLeft), Child::Bucket(id(4)));
    node.replace_child(Child::Bucket(id(4)), Child::Bucket(id(9)));
    assert_eq!(node.get_child(Half::TopLeft), Child::Bucket(id(9)));
    assert_eq!(node.get_child(Half::BottomRight), Child::Node(id(9)));
}

#[test]
fn node_with_equal_children_replaces_only_the_first() {
    let mut node = Node::from_buckets(None, id(4), id(4));
    node.replace_child(Child::Bucket(id(4)), Child::Bucket(id(6)));
    assert_eq!(node.get_child(Half::TopLeft), Child::Bucket(id(6)));
    assert_eq!(node.get_child(Half::BottomRight), Child::Bucket(id(4)));
}

#[test]
fn boxes_include_their_borders() {
    let a = Aabb::new(Point::new(0, 0), Point::new(4, 4));
    let b = Aabb::new(Point::new(4, 4), Point::new(6, 6));
    let c = Aabb::new(Point::new(5, 0), Point::new(6, 3));
    assert_eq!(a.min(), Point::new(0, 0));
    assert_eq!(a.max(), Point::new(4, 4));
    assert!(a.intersects(&b));
    assert!(b.intersects(&a));
    assert!(!a.intersects(&c));
    assert!(b.intersects(&c) == false);
    assert!(a.includes(Point::new(4, 0)));
    assert!(!a.includes(Point::new(5, 0)));
    let empty = Aabb::new(Point::new(3, 3), Point::new(2, 2));
    assert!(!empty.includes(Point::new(2, 2)));
    assert!(!empty.includes(Point::new(3, 3)));
}

#[test]
fn node_sets_a_child_by_its_half() {
    // both children name the same handle: only the half that is asked for
    // changes
    let mut node = Node::from_buckets(None, id(4), id(4));
    node.set_child(Half::BottomRight, Child::Node(id(7)));
    assert_eq!(node.get_child(Half::TopLeft), Child::Bucket(id(4)));
    assert_eq!(node.get_child(Half::BottomRight), Child::Node(id(7)));
    node.set_child(Half::TopLeft, Child::Bucket(id(2)));
    assert_eq!(node.get_child(Half::TopLeft), Child::Bucket(id(2)));
    assert_eq!(node.get_child(Half::BottomRight), Child::Node(id(7)));
    assert_eq!(node.parent(), None);
}

#[test]
fn node_tells_the_half_of_a_child() {
    let node = Node::from_buckets(Some(id(1)), id(4), id(5));
    assert_eq!(node.half_of(Child::Bucket(id(4))), Half::TopLeft);
    assert_eq!(node.half_of(Child::Bucket(id(5))), Half::BottomRight);
    // what is no child at all counts as the higher half
    assert_eq!(node.half_of(Child::Node(id(4))), Half::BottomRight);
}
