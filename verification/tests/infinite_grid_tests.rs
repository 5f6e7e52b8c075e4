use wfc::infinite_grid::InfiniteGrid;

#[test]
fn hash_round_trip_on_signed_corners() {
    let values = [i32::MIN, i32::MIN + 1, -2, -1, 0, 1, 2, i32::MAX - 1, i32::MAX];
    for &x in values.iter() {
        for &y in values.iter() {
            let hash = InfiniteGrid::<u8>::to_hash(x, y);
            assert_eq!(InfiniteGrid::<u8>::from_hash(hash), (x, y));
        }
    }
}

#[test]
fn hash_packs_x_low_and_y_high() {
    assert_eq!(InfiniteGrid::<u8>::to_hash(0, 0), 0);
    assert_eq!(InfiniteGrid::<u8>::to_hash(1, 2), 0x0000_0002_0000_0001);
    assert_eq!(InfiniteGrid::<u8>::to_hash(-1, 0), 0x0000_0000_ffff_ffff);
    assert_eq!(InfiniteGrid::<u8>::to_hash(0, -1), 0xffff_ffff_0000_0000);
    assert_eq!(InfiniteGrid::<u8>::to_hash(-1, -1), u64::MAX);
    assert_eq!(InfiniteGrid::<u8>::to_hash(i32::MIN, i32::MAX), 0x7fff_ffff_8000_0000);
}

#[test]
fn from_hash_unpacks_both_halves() {
    assert_eq!(InfiniteGrid::<u8>::from_hash(0x0000_0002_0000_0001), (1, 2));
    assert_eq!(InfiniteGrid::<u8>::from_hash(0xffff_fffe_ffff_ffff), (-1, -2));
    assert_eq!(InfiniteGrid::<u8>::from_hash(0x8000_0000_7fff_ffff), (i32::MAX, i32::MIN));
}

#[test]
fn distinct_positions_do_not_collide() {
    let mut grid: InfiniteGrid<i32> = InfiniteGrid::new();
    grid.set(-1, 0, 10);
    grid.set(-1, -1, 20);
    grid.set(0, -1, 30);
    grid.set(1, 0, 40);
    assert_eq!(grid.get(-1, 0), Some(&10));
    assert_eq!(grid.get(-1, -1), Some(&20));
    assert_eq!(grid.get(0, -1), Some(&30));
    assert_eq!(grid.get(1, 0), Some(&40));
    assert_eq!(grid.get(0, 0), None);
    assert_eq!(grid.get(0, 1), None);
}

#[test]
fn set_replaces_what_stood_there() {
    let mut grid: InfiniteGrid<&str> = InfiniteGrid::new();
    assert_eq!(grid.get(3, 4), None);
    grid.set(3, 4, "first");
    grid.set(3, 4, "second");
    assert_eq!(grid.get(3, 4), Some(&"second"));
    assert_eq!(grid.get(4, 3), None);
}

#[test]
fn get_mut_changes_the_value_in_place() {
    let mut grid: InfiniteGrid<Vec<u8>> = InfiniteGrid::new();
    grid.set(-5, 7, vec![1]);
    grid.set(5, 7, vec![9]);
    assert!(grid.get_mut(0, 0).is_none());
    grid.get_mut(-5, 7).unwrap().push(2);
    assert_eq!(grid.get(-5, 7), Some(&vec![1, 2]));
    assert_eq!(grid.get(5, 7), Some(&vec![9]));
}
