use ruga::physics::{EntityInformation, Shape};
use ruga::spatial_hashing::{Collector, Location, SpatialHashing};

fn info(entity: usize) -> EntityInformation {
    EntityInformation { entity, pos: (0, 0), group: 1, mask: 1, shape: Shape::Circle(1) }
}

#[test]
fn test_index() {
    let sh = SpatialHashing::<EntityInformation>::new(40);

    let loc = Location { up: 10, down: -10, left: -10, right: 10 };

    let index = sh.index(&loc);
    assert!(index.len() == 4);

    let loc = Location { up: 40, down: 0, left: 0, right: 40 };

    let index = sh.index(&loc);
    assert!(index.len() == 1);
}

#[test]
fn index_lists_each_cell_once() {
    let sh = SpatialHashing::<EntityInformation>::new(10);
    let loc = Location { up: 5, down: -15, left: 0, right: 25 };
    let mut index = sh.index(&loc);
    index.sort();
    assert_eq!(index, vec![(0, -2), (0, -1), (0, 0), (1, -2), (1, -1), (1, 0), (2, -2), (2, -1), (2, 0)]);
}

#[test]
fn index_of_empty_box_is_empty() {
    let sh = SpatialHashing::<EntityInformation>::new(10);
    let loc = Location { up: 0, down: 0, left: 0, right: 0 };
    assert!(sh.index(&loc).is_empty());
}

#[test]
fn occupant_spanning_cells_is_found_once() {
    let mut sh = SpatialHashing::<EntityInformation>::new(10);
    let wide = Location { up: 15, down: -15, left: -15, right: 15 };
    assert_eq!(sh.index(&wide).len(), 16);
    sh.insert_locally(&wide, &info(7));
    sh.insert_locally(&Location { up: 5, down: 1, left: 1, right: 5 }, &info(8));
    let found = sh.get_locally(&Location { up: 30, down: -30, left: -30, right: 30 });
    assert_eq!(found.iter().filter(|t| t.entity == 7).count(), 1);
    assert_eq!(found.iter().filter(|t| t.entity == 8).count(), 1);
    assert_eq!(found.len(), 2);
}

#[test]
fn apply_locally_visits_each_occupant_once() {
    let mut sh = SpatialHashing::<EntityInformation>::new(10);
    sh.insert_locally(&Location { up: 20, down: 0, left: 0, right: 20 }, &info(1));
    sh.insert_locally(&Location { up: 40, down: 30, left: 30, right: 40 }, &info(2));
    let mut c = Collector { items: Vec::new() };
    sh.apply_locally(&Location { up: 20, down: 0, left: 0, right: 20 }, &mut c);
    assert_eq!(c.items.len(), 1);
    assert_eq!(c.items[0].entity, 1);
}

#[test]
fn cells_hold_what_was_inserted() {
    let mut sh = SpatialHashing::<EntityInformation>::new(10);
    sh.insert_on_index(&(3, -4), &info(1));
    sh.insert_on_index(&(3, -4), &info(2));
    let got = sh.get_on_index(&(3, -4));
    assert_eq!(got.iter().map(|t| t.entity).collect::<Vec<_>>(), vec![1, 2]);
    assert!(sh.get_on_index(&(-4, 3)).is_empty());
    let mut c = Collector { items: Vec::new() };
    sh.apply_on_index(&(3, -4), &mut c);
    assert_eq!(c.items.len(), 2);
    assert_eq!(sh.unit(), 10);
    sh.clear();
    assert!(sh.get_on_index(&(3, -4)).is_empty());
}

#[test]
fn negative_coordinates_round_outwards() {
    let sh = SpatialHashing::<EntityInformation>::new(10);
    let index = sh.index(&Location { up: -1, down: -11, left: -21, right: -19 });
    let mut index = index;
    index.sort();
    assert_eq!(index, vec![(-3, -2), (-3, -1), (-2, -2), (-2, -1)]);
}

#[test]
fn index_lists_columns_then_rows() {
    let sh = SpatialHashing::<EntityInformation>::new(10);
    let index = sh.index(&Location { up: 15, down: -5, left: 0, right: 15 });
    assert_eq!(index, vec![(0, -1), (0, 0), (0, 1), (1, -1), (1, 0), (1, 1)]);
}
