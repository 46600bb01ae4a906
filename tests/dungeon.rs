use dungeon_gen::dungeon::{
    corridor_rect, room_rect, Dir, Dungeon, Feature, GenerationReport, ObjectSpot, Rect, Tile,
};
use dungeon_gen::rng::{exclusive_random, inclusive_random};

fn snapshot(d: &Dungeon) -> Vec<Vec<char>> {
    (0..d.height()).map(|y| d.row_icons(y)).collect()
}

fn count(d: &Dungeon, t: Tile) -> usize {
    let mut n = 0;
    for y in 0..d.height() {
        for x in 0..d.width() {
            if d.get_tile(x, y) == t {
                n += 1;
            }
        }
    }
    n
}

fn check_layout(d: &Dungeon) {
    for y in 0..d.height() {
        for x in 0..d.width() {
            let t = d.get_tile(x, y);
            if t == Tile::Floor || t == Tile::Exit || t == Tile::Entrance {
                assert!(x >= 1 && y >= 1 && x <= d.width() - 2 && y <= d.height() - 2);
                for dy in -1..=1 {
                    for dx in -1..=1 {
                        assert_ne!(d.get_tile(x + dx, y + dy), Tile::Unused);
                    }
                }
            }
        }
    }
}

fn check_objects(d: &Dungeon, rep: &GenerationReport) {
    if let Some(e) = rep.exit {
        assert_eq!(d.get_tile(e.x, e.y), Tile::Exit);
    }
    if let Some(n) = rep.entrance {
        assert_eq!(d.get_tile(n.x, n.y), Tile::Entrance);
    }
    if let (Some(e), Some(n)) = (rep.exit, rep.entrance) {
        assert_ne!(e.room, n.room);
        assert!(e.x != n.x || e.y != n.y);
    }
}

#[test]
fn test_dungeon() {
    let mut d: Dungeon = Dungeon::new(100, 100);
    let max_features: isize = 78;

    let rep = d.generate(max_features);
    for row in snapshot(&d) {
        println!("{}", row.iter().collect::<String>());
    }
    assert!(rep.features < max_features);
    check_layout(&d);
    check_objects(&d, &rep);
}

#[test]
fn new_grid_is_blank() {
    let d = Dungeon::new(7, 5);
    assert_eq!(d.width(), 7);
    assert_eq!(d.height(), 5);
    assert_eq!(count(&d, Tile::Unused), 35);
    assert!(d.rooms().is_empty());
    assert!(d.exits().is_empty());
}

#[test]
fn off_grid_reads_unused_and_writes_stick() {
    let mut d = Dungeon::new(6, 4);
    d.set_tile(5, 3, Tile::Wall);
    d.set_tile(0, 0, Tile::Floor);
    d.set_tile(5, 3, Tile::Exit);
    assert_eq!(d.get_tile(5, 3), Tile::Exit);
    assert_eq!(d.get_tile(0, 0), Tile::Floor);
    assert_eq!(d.get_tile(1, 0), Tile::Unused);
    assert_eq!(d.get_tile(-1, 0), Tile::Unused);
    assert_eq!(d.get_tile(0, -1), Tile::Unused);
    assert_eq!(d.get_tile(6, 0), Tile::Unused);
    assert_eq!(d.get_tile(0, 4), Tile::Unused);
}

#[test]
fn seed_room_only() {
    let mut d = Dungeon::new(50, 50);
    let rep = d.generate(1);
    assert!(rep.first_room);
    assert_eq!(rep.features, 0);
    assert_eq!(d.exits().len(), 4);
    assert_eq!(count(&d, Tile::Corridor), 0);
    assert_eq!(count(&d, Tile::ClosedDoor), 0);
    // the one room took the exit, so no room is left for the entrance
    assert!(rep.exit.is_some());
    assert!(rep.entrance.is_none());
    assert!(d.rooms().is_empty());
    assert_eq!(count(&d, Tile::Exit), 1);
    // the seed room faces the centre cell from one side
    let r = rep.exit.unwrap().room;
    assert!(r.x - 1 <= 25 && 25 <= r.x + r.width && r.y - 1 <= 25 && 25 <= r.y + r.height);
    assert!(!(r.x <= 25 && 25 < r.x + r.width && r.y <= 25 && 25 < r.y + r.height));
    assert!(r.width >= 3 && r.width <= 16 && r.height >= 3 && r.height <= 16);
}

#[test]
fn small_grid_stops_early() {
    for _ in 0..20 {
        let mut d = Dungeon::new(10, 10);
        let rep = d.generate(35);
        assert!(rep.features < 34);
        for row in snapshot(&d) {
            assert_eq!(row.len(), 10);
            for c in row {
                assert!(" .,#+-><".contains(c));
            }
        }
        check_layout(&d);
        check_objects(&d, &rep);
    }
}

#[test]
fn generation_keeps_layout_and_objects_apart() {
    for _ in 0..30 {
        let mut d = Dungeon::new(60, 40);
        let rep = d.generate(40);
        assert!(rep.first_room);
        assert!(rep.exit.is_some());
        if rep.entrance.is_none() {
            assert!(d.rooms().is_empty());
        }
        check_layout(&d);
        check_objects(&d, &rep);
    }
}

#[test]
fn random_bounds() {
    for _ in 0..100 {
        assert_eq!(inclusive_random(5, 5), 5);
        assert_eq!(exclusive_random(1), 0);
        let r = exclusive_random(2);
        assert!(r == 0 || r == 1);
        let s = inclusive_random(-3, 4);
        assert!(-3 <= s && s <= 4);
    }
    let mut seen = [false; 4];
    for _ in 0..400 {
        let d = Dir::get_random_dir();
        let i = Dir::iterator().iter().position(|e| *e == d).unwrap();
        seen[i] = true;
    }
    assert!(seen.iter().all(|s| *s));
}

#[test]
fn directions_in_order() {
    assert_eq!(Dir::iterator(), vec![Dir::North, Dir::South, Dir::East, Dir::West]);
    assert_eq!(Dir::dir_at(0), Dir::North);
    assert_eq!(Dir::dir_at(1), Dir::South);
    assert_eq!(Dir::dir_at(2), Dir::East);
    assert_eq!(Dir::dir_at(3), Dir::West);
    assert_eq!(Dir::North.delta(), (0, -1));
    assert_eq!(Dir::South.delta(), (0, 1));
    assert_eq!(Dir::East.delta(), (1, 0));
    assert_eq!(Dir::West.delta(), (-1, 0));
}

#[test]
fn room_rect_faces_point() {
    assert_eq!(room_rect(20, 20, Dir::North, 5, 4), Rect::new(18, 16, 5, 4));
    assert_eq!(room_rect(20, 20, Dir::South, 5, 4), Rect::new(18, 21, 5, 4));
    assert_eq!(room_rect(20, 20, Dir::East, 5, 4), Rect::new(21, 18, 5, 4));
    assert_eq!(room_rect(20, 20, Dir::West, 5, 4), Rect::new(15, 18, 5, 4));
}

#[test]
fn corridor_rect_faces_point() {
    assert_eq!(corridor_rect(20, 20, Dir::North, true, 4, false), Rect::new(20, 19, 4, 1));
    assert_eq!(corridor_rect(20, 20, Dir::North, true, 4, true), Rect::new(17, 19, 4, 1));
    assert_eq!(corridor_rect(20, 20, Dir::South, true, 4, true), Rect::new(17, 21, 4, 1));
    assert_eq!(corridor_rect(20, 20, Dir::East, true, 4, false), Rect::new(21, 20, 4, 1));
    assert_eq!(corridor_rect(20, 20, Dir::West, true, 4, false), Rect::new(16, 20, 4, 1));
    assert_eq!(corridor_rect(20, 20, Dir::North, false, 4, false), Rect::new(20, 16, 1, 4));
    assert_eq!(corridor_rect(20, 20, Dir::South, false, 4, false), Rect::new(20, 21, 1, 4));
    assert_eq!(corridor_rect(20, 20, Dir::East, false, 4, true), Rect::new(21, 17, 1, 4));
    assert_eq!(corridor_rect(20, 20, Dir::West, false, 4, false), Rect::new(19, 20, 1, 4));
}

#[test]
fn place_rect_stamps_walls_and_fill() {
    let mut d = Dungeon::new(10, 10);
    assert!(d.place_rect(&Rect::new(3, 4, 3, 2), Tile::Floor));
    for y in 3..7 {
        for x in 2..7 {
            let inside = (3..6).contains(&x) && (4..6).contains(&y);
            let want = if inside { Tile::Floor } else { Tile::Wall };
            assert_eq!(d.get_tile(x, y), want);
        }
    }
    assert_eq!(count(&d, Tile::Wall), 14);
    assert_eq!(count(&d, Tile::Floor), 6);
}

#[test]
fn place_rect_margin() {
    let mut d = Dungeon::new(10, 10);
    assert!(!d.place_rect(&Rect::new(0, 4, 2, 2), Tile::Floor));
    assert!(!d.place_rect(&Rect::new(4, 0, 2, 2), Tile::Floor));
    assert!(!d.place_rect(&Rect::new(7, 4, 3, 2), Tile::Floor));
    assert!(!d.place_rect(&Rect::new(4, 8, 2, 2), Tile::Floor));
    assert_eq!(count(&d, Tile::Unused), 100);
    assert!(d.place_rect(&Rect::new(1, 1, 8, 8), Tile::Corridor));
    assert_eq!(d.get_tile(0, 0), Tile::Wall);
    assert_eq!(d.get_tile(9, 9), Tile::Wall);
}

#[test]
fn place_rect_one_cell_from_the_edge() {
    let mut d = Dungeon::new(10, 10);
    assert!(d.place_rect(&Rect::new(1, 4, 2, 2), Tile::Floor));
    assert_eq!(d.get_tile(0, 4), Tile::Wall);
    assert_eq!(d.get_tile(1, 4), Tile::Floor);
}

#[test]
fn overlapping_room_refused_and_grid_untouched() {
    let mut d = Dungeon::new(30, 30);
    assert!(d.place_rect(&Rect::new(10, 10, 5, 5), Tile::Floor));
    let before = snapshot(&d);
    // overlapping the floor
    assert!(!d.place_rect(&Rect::new(12, 12, 6, 6), Tile::Floor));
    // touching only the wall ring
    assert!(!d.place_rect(&Rect::new(15, 10, 4, 4), Tile::Floor));
    // a room grown over the existing one
    assert!(!d.make_room_sized(12, 16, Dir::North, false, 5, 5));
    assert_eq!(snapshot(&d), before);
    assert_eq!(d.rooms().len(), 0);
    assert_eq!(d.exits().len(), 0);
}

#[test]
fn first_room_has_four_seams() {
    let mut d = Dungeon::new(30, 30);
    assert!(d.make_room_sized(15, 15, Dir::North, true, 5, 4));
    let room = Rect::new(13, 11, 5, 4);
    assert_eq!(d.rooms(), &vec![room]);
    assert_eq!(
        d.exits(),
        &vec![
            Rect::new(13, 10, 5, 1),
            Rect::new(13, 15, 5, 1),
            Rect::new(12, 11, 1, 4),
            Rect::new(18, 11, 1, 4),
        ]
    );
}

#[test]
fn attached_room_skips_its_own_side() {
    let mut d = Dungeon::new(30, 30);
    assert!(d.make_room_sized(15, 15, Dir::North, false, 5, 4));
    assert_eq!(
        d.exits(),
        &vec![Rect::new(13, 10, 5, 1), Rect::new(12, 11, 1, 4), Rect::new(18, 11, 1, 4)]
    );
}

#[test]
fn corridor_seams_on_long_sides() {
    let mut d = Dungeon::new(30, 30);
    assert!(d.make_corridor(10, 10, Dir::East, true, 5, false));
    assert_eq!(d.exits(), &vec![Rect::new(11, 9, 5, 1), Rect::new(11, 11, 5, 1)]);
    assert_eq!(count(&d, Tile::Corridor), 5);
    assert!(d.rooms().is_empty());
    assert!(!d.make_corridor(10, 10, Dir::East, true, 5, false));
}

#[test]
fn attach_needs_open_cell_behind() {
    let mut d = Dungeon::new(30, 30);
    let before = snapshot(&d);
    assert!(!d.attach(10, 10, Dir::North, Feature::Room { width: 4, height: 4 }));
    assert!(!d.create_feature(10, 10, Dir::North));
    assert_eq!(snapshot(&d), before);
}

#[test]
fn attach_room_puts_door() {
    let mut d = Dungeon::new(40, 40);
    assert!(d.make_room_sized(20, 20, Dir::North, true, 5, 5));
    // the room spans (18..23, 15..20); its top seam is row 14
    assert!(d.attach(20, 14, Dir::North, Feature::Room { width: 3, height: 3 }));
    assert_eq!(d.get_tile(20, 14), Tile::ClosedDoor);
    assert_eq!(d.get_tile(20, 13), Tile::Floor);
    assert_eq!(d.rooms().len(), 2);
    assert_eq!(d.rooms()[1], Rect::new(19, 11, 3, 3));
}

#[test]
fn attach_corridor_joints() {
    let mut d = Dungeon::new(40, 40);
    assert!(d.make_room_sized(20, 20, Dir::North, true, 5, 5));
    // out of a room: a door
    assert!(d.attach(23, 17, Dir::East, Feature::Corridor { horizontal: true, length: 4, skew: false }));
    assert_eq!(d.get_tile(23, 17), Tile::ClosedDoor);
    // out of a corridor: an open joint
    assert!(d.attach(28, 17, Dir::East, Feature::Corridor { horizontal: true, length: 3, skew: false }));
    assert_eq!(d.get_tile(28, 17), Tile::Corridor);
    assert_eq!(d.rooms().len(), 1);
}

#[test]
fn has_exits_consumes_a_seam() {
    let mut d = Dungeon::new(10, 10);
    assert!(!d.has_exits());
    let mut d = Dungeon::new(60, 60);
    assert!(d.make_room_sized(30, 30, Dir::North, true, 4, 4));
    let mut grown = 0;
    for _ in 0..10 {
        if d.has_exits() {
            grown += 1;
        }
    }
    assert!(grown > 0);
    check_layout(&d);
}

#[test]
fn objects_leave_the_pool() {
    let mut d = Dungeon::new(30, 30);
    assert_eq!(d.place_object(Tile::Exit), None);
    assert!(d.make_room_sized(15, 15, Dir::North, true, 5, 4));
    assert_eq!(d.rooms().len(), 1);
    let spot = d.place_object_at(Tile::Exit, 0, 14, 12);
    assert_eq!(spot, Some(ObjectSpot { x: 14, y: 12, room: Rect::new(13, 11, 5, 4) }));
    assert_eq!(d.get_tile(14, 12), Tile::Exit);
    assert!(d.rooms().is_empty());
    assert_eq!(d.place_object(Tile::Entrance), None);
}

#[test]
fn place_object_random_cell() {
    let mut d = Dungeon::new(30, 30);
    assert!(d.make_room_sized(15, 15, Dir::South, true, 6, 6));
    let s = d.place_object(Tile::Entrance).unwrap();
    assert!(s.x >= s.room.x + 1 && s.x <= s.room.x + s.room.width - 2);
    assert!(s.y >= s.room.y + 1 && s.y <= s.room.y + s.room.height - 2);
    assert_eq!(d.get_tile(s.x, s.y), Tile::Entrance);
}

#[test]
fn icons() {
    assert_eq!(Dungeon::get_tile_icon(Tile::Floor), '.');
    assert_eq!(Dungeon::get_tile_icon(Tile::Corridor), ',');
    assert_eq!(Dungeon::get_tile_icon(Tile::Wall), '#');
    assert_eq!(Dungeon::get_tile_icon(Tile::ClosedDoor), '+');
    assert_eq!(Dungeon::get_tile_icon(Tile::OpenDoor), '-');
    assert_eq!(Dungeon::get_tile_icon(Tile::Exit), '>');
    assert_eq!(Dungeon::get_tile_icon(Tile::Entrance), '<');
    assert_eq!(Dungeon::get_tile_icon(Tile::Unused), ' ');
    let mut d = Dungeon::new(3, 2);
    d.set_tile(1, 1, Tile::Wall);
    assert_eq!(d.row_icons(1), vec![' ', '#', ' ']);
}

#[test]
fn no_room_fits_nothing_grows() {
    let mut d = Dungeon::new(4, 4);
    let rep = d.generate(10);
    assert!(!rep.first_room);
    assert_eq!(rep.features, 0);
    assert_eq!(rep.exit, None);
    assert_eq!(rep.entrance, None);
    assert_eq!(count(&d, Tile::Unused), 16);
    assert!(d.rooms().is_empty());
    assert!(d.exits().is_empty());
}
