use dungen::base::{Offset, Side};
use dungen::door::{Door, Lock};
use dungen::draw::DrawBuffer;
use dungen::dungeon::Dungeon;
use dungen::path::Path;
use dungen::room::{Room, Type};

#[test]
fn side_codes_round_trip() {
    assert_eq!(Side::from_i32(0), Side::North);
    assert_eq!(Side::from_i32(1), Side::East);
    assert_eq!(Side::from_i32(2), Side::South);
    assert_eq!(Side::from_i32(3), Side::West);
    assert_eq!(Side::from_i32(4), Side::Nowhere);
    assert_eq!(Side::get_all(), vec![Side::North, Side::East, Side::South, Side::West]);
}

#[test]
fn side_between_adjacent_offsets() {
    let a = Offset { x: 3, y: 5 };
    assert_eq!(Side::from_offsets(&a, &Offset { x: 4, y: 5 }), Side::East);
    assert_eq!(Side::from_offsets(&a, &Offset { x: 2, y: 5 }), Side::West);
    assert_eq!(Side::from_offsets(&a, &Offset { x: 3, y: 6 }), Side::South);
    assert_eq!(Side::from_offsets(&a, &Offset { x: 3, y: 4 }), Side::North);
    assert_eq!(Side::from_offsets(&a, &a), Side::North);
}

#[test]
fn side_deltas_sum_to_zero() {
    let mut x = 0;
    let mut y = 0;
    for s in Side::get_all() {
        let d = s.to_offset();
        x += d.x;
        y += d.y;
    }
    assert_eq!((x, y), (0, 0));
    assert_eq!(Side::North.to_offset(), Offset { x: 0, y: -1 });
    assert_eq!(Side::Nowhere.to_offset(), Offset { x: 0, y: 0 });
}

#[test]
fn offset_arithmetic() {
    let a = Offset { x: 2, y: -3 };
    let b = Offset { x: -1, y: 7 };
    assert_eq!(a.add(b), Offset { x: 1, y: 4 });
    assert_eq!(a.sub(b), Offset { x: 3, y: -10 });
    assert_eq!(Offset::default(), Offset { x: 0, y: 0 });
}

#[test]
fn lock_markers() {
    assert_eq!(Lock::BossKey.to_char(), 'B');
    assert_eq!(Lock::SmallKey.to_char(), 'S');
    assert_eq!(Lock::Trigger.to_char(), 'T');
    assert_eq!(Lock::Open.to_char(), ' ');
}

#[test]
fn type_names() {
    assert_eq!(Type::End.to_string(), "End");
    assert_eq!(Type::Hallway.to_string(), "Hallway");
    assert_eq!(Type::Intersection.to_string(), "Intersection");
    assert_eq!(Type::Crossing.to_string(), "Crossway");
    assert_eq!(Type::Entrance.to_string(), "Entrance");
    assert_eq!(Type::Exit.to_string(), "Exit");
    assert_eq!(Type::Invalid.to_string(), "Invalid");
    assert_eq!(Type::Unmarked.to_string(), "");
}

#[test]
fn path_edges() {
    let mut p = Path::new();
    p.0.push(Offset { x: 0, y: 0 });
    p.0.push(Offset { x: 1, y: 0 });
    p.0.push(Offset { x: 1, y: 1 });
    let q = p.clone();
    assert_eq!(p.0, q.0);
    let edges = p.into_connected_path();
    assert_eq!(
        edges,
        vec![
            (Offset { x: 0, y: 0 }, Offset { x: 1, y: 0 }),
            (Offset { x: 1, y: 0 }, Offset { x: 1, y: 1 }),
        ]
    );
    let single = Path::new().into_connected_path();
    assert!(single.is_empty());
}

#[test]
fn rooms_link_by_mirrored_doors() {
    let mut a = Room::new(0, 0);
    let mut b = Room::new(1, 0);
    a.add_door_to(&b);
    b.add_door_to(&a);
    assert_eq!(a.doors.len(), 1);
    assert_eq!(a.doors[0].side, Side::East);
    assert_eq!(a.doors[0].to, b.offset);
    assert_eq!(a.doors[0].lock, Lock::Open);
    assert_eq!(b.doors[0].side, Side::West);
    assert_eq!(b.doors[0].to, a.offset);
    assert_eq!(a.door_to_offset(&b.offset), Some(0));
    assert_eq!(a.door_to_offset(&Offset { x: 0, y: 1 }), None);
}

#[test]
fn dungeon_lookup() {
    let d = Dungeon::new();
    assert_eq!(d.rooms.len(), 0);
    assert!(!d.contains_room(&Offset { x: 0, y: 0 }));
    let d = Dungeon::from_seed(&[1, 2, 3, 8], 19, 10).unwrap();
    let first = d.rooms[0].offset;
    assert_eq!(d.room_index(&first), Some(0));
    assert!(d.contains_room(&first));
    assert!(!d.contains_room(&Offset { x: -100, y: -100 }));
}

#[test]
fn canvas_starts_blank() {
    let b = DrawBuffer::new(2, 2, 0, 0, 19, 8);
    assert_eq!(b.buffer.len(), 2 * 19 * 2 * 8);
    assert!(b.buffer.iter().all(|c| *c == ' '));
}

#[test]
fn hline_and_vline_paint_their_cells() {
    let mut b = DrawBuffer::new(2, 2, 0, 0, 19, 8);
    let stride = 2 * 19;
    b.draw_hline(1, 3, 7, '=');
    for i in 3..7 {
        assert_eq!(b.buffer[1 * stride + i], '=');
    }
    assert_eq!(b.buffer[1 * stride + 7], ' ');
    b.draw_vline(5, 2, 6, '|');
    for r in 2..6 {
        assert_eq!(b.buffer[r * stride + 5], '|');
    }
    assert_eq!(b.buffer[1 * stride + 3], '=');
}

#[test]
fn rect_paints_its_corners() {
    let mut b = DrawBuffer::new(2, 2, 0, 0, 19, 8);
    let stride = 2 * 19;
    b.draw_rect(1, 1);
    let left = 19;
    let top = 8;
    assert_eq!(b.buffer[top * stride + left], '\u{250f}');
    assert_eq!(b.buffer[top * stride + left + 16], '\u{2513}');
    assert_eq!(b.buffer[(top + 6) * stride + left], '\u{2517}');
    assert_eq!(b.buffer[(top + 6) * stride + left + 16], '\u{251b}');
}

#[test]
fn text_lands_inside_the_cell() {
    let mut b = DrawBuffer::new(2, 2, 0, 0, 19, 8);
    let stride = 2 * 19;
    b.draw_text(1, 0, 1, 1, "Exit");
    let base = 1 * stride + 19 + 1;
    assert_eq!(b.buffer[base], 'E');
    assert_eq!(b.buffer[base + 1], 'x');
    assert_eq!(b.buffer[base + 2], 'i');
    assert_eq!(b.buffer[base + 3], 't');
}

#[test]
fn connection_marks_the_shared_edge() {
    let mut b = DrawBuffer::new(2, 2, 0, 0, 19, 8);
    let stride = 2 * 19;
    b.draw_connection(0, 0, Side::East, 'S');
    assert_eq!(b.buffer[3 * stride + 15], 'S');
    b.draw_connection(0, 1, Side::North, 'B');
    assert_eq!(b.buffer[(8 + 1) * stride + 8], 'B');
}

#[test]
fn deterministic_offset_order() {
    let mut v = vec![
        Offset { x: 5, y: 1 },
        Offset { x: 0, y: 0 },
        Offset { x: 2, y: 1 },
        Offset { x: 9, y: 0 },
    ];
    dungen::order::sort_offsets(&mut v);
    assert_eq!(
        v,
        vec![
            Offset { x: 0, y: 0 },
            Offset { x: 9, y: 0 },
            Offset { x: 2, y: 1 },
            Offset { x: 5, y: 1 },
        ]
    );
}

#[test]
fn door_values_compare_by_fields() {
    let d1 = Door { side: Side::East, lock: Lock::Open, to: Offset { x: 1, y: 0 }, triggers: vec![] };
    let d2 = Door { side: Side::East, lock: Lock::Open, to: Offset { x: 1, y: 0 }, triggers: vec![] };
    assert_eq!(d1, d2);
}

#[test]
fn sort_keeps_equal_keys_in_original_order() {
    // (1000, 0) and (0, 1) share the sort key 1000; the earlier element
    // must stay first, whichever way round they arrive.
    let a = Offset { x: 1000, y: 0 };
    let b = Offset { x: 0, y: 1 };
    let mut v = vec![a, b, Offset { x: 0, y: 0 }];
    dungen::order::sort_offsets(&mut v);
    assert_eq!(v, vec![Offset { x: 0, y: 0 }, a, b]);
    let mut w = vec![b, a, Offset { x: 0, y: 0 }];
    dungen::order::sort_offsets(&mut w);
    assert_eq!(w, vec![Offset { x: 0, y: 0 }, b, a]);
}
