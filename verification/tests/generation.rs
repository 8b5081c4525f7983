use dungen::base::Offset;
use dungen::door::Lock;
use dungen::dungeon::Dungeon;
use dungen::entity::{Item, Key, Trigger};
use dungen::room::Type;

fn small_key_door_count(d: &Dungeon) -> usize {
    let mut n = 0;
    for room in d.rooms.iter() {
        for door in room.doors.iter() {
            if door.lock == Lock::SmallKey {
                n += 1;
            }
        }
    }
    n
}

fn room_at(d: &Dungeon, o: Offset) -> &dungen::room::Room {
    for room in d.rooms.iter() {
        if room.offset == o {
            return room;
        }
    }
    panic!("no room at the given offset");
}

fn holds_small_key(r: &dungen::room::Room) -> bool {
    let grant = Trigger::Item(Item::Key(Key::Small));
    if let Some(c) = &r.chest {
        if c.item == Item::Key(Key::Small) {
            return true;
        }
    }
    if let Some(s) = &r.switch {
        if s.triggers.iter().any(|t| *t == grant) {
            return true;
        }
    }
    if let Some(e) = &r.enemy {
        if e.triggers.iter().any(|t| *t == grant) {
            return true;
        }
    }
    false
}

/// Flood fill from `start`, crossing a door only when `cross` allows it.
fn flood(d: &Dungeon, start: Offset, cross: impl Fn(Offset, &dungen::door::Door) -> bool) -> Vec<Offset> {
    let mut visited = vec![start];
    let mut queue = vec![start];
    let mut out = Vec::new();
    while !queue.is_empty() {
        let o = queue.remove(0);
        out.push(o);
        let room = room_at(d, o);
        for door in room.doors.iter() {
            if !visited.contains(&door.to) && cross(o, door) {
                visited.push(door.to);
                queue.push(door.to);
            }
        }
    }
    out
}

#[test]
fn scenario_seed_generates_complete_dungeon() {
    let d = Dungeon::from_seed(&[1, 2, 3, 8], 19, 10);
    assert!(d.is_some());
    let d = d.unwrap();

    // Exactly one entrance and one exit.
    let entrances: Vec<_> = d.rooms.iter().filter(|r| r.typ == Type::Entrance).collect();
    let exits: Vec<_> = d.rooms.iter().filter(|r| r.typ == Type::Exit).collect();
    assert_eq!(entrances.len(), 1);
    assert_eq!(exits.len(), 1);
    assert_eq!(d.entrance_room, Some(entrances[0].offset));
    assert_eq!(d.exit_room, Some(exits[0].offset));

    // The boss room sits immediately in front of the exit.
    let boss_off = d.boss_room.expect("a boss room must be assigned");
    let exit_off = exits[0].offset;
    let boss = room_at(&d, boss_off);
    assert!(boss.doors.iter().any(|door| door.to == exit_off));
    match &boss.enemy {
        Some(en) => assert_eq!(en.typ, dungen::entity::EnemyKind::Boss),
        None => panic!("the boss room must hold the boss"),
    }

    // The inbound door from the non-exit side is locked by the boss key.
    let mut guarded = false;
    for room in d.rooms.iter() {
        if room.offset == exit_off {
            continue;
        }
        for door in room.doors.iter() {
            if door.to == boss_off && door.lock == Lock::BossKey {
                guarded = true;
            }
        }
    }
    assert!(guarded);
}

#[test]
fn same_seed_yields_identical_dungeons() {
    let a = Dungeon::from_seed(&[1, 2, 3, 8], 19, 10);
    let b = Dungeon::from_seed(&[1, 2, 3, 8], 19, 10);
    assert_eq!(a, b);
    assert!(a.is_some());
}

#[test]
fn different_seeds_yield_different_dungeons() {
    let a = Dungeon::from_seed(&[1, 2, 3, 8], 19, 10);
    let b = Dungeon::from_seed(&[4, 4, 4, 4], 19, 10);
    assert!(a.is_some());
    assert_ne!(a, b);
}

#[test]
fn tiny_room_counts_fail_deterministically() {
    assert!(Dungeon::from_seed(&[1, 2, 3, 8], 1, 5).is_none());
    assert!(Dungeon::from_seed(&[1, 2, 3, 8], 2, 5).is_none());
    assert!(Dungeon::from_seed(&[7, 7, 7, 7], 1, 3).is_none());
    assert!(Dungeon::from_seed(&[7, 7, 7, 7], 2, 3).is_none());
}

#[test]
fn small_key_lock_count_matches_empty_room_target() {
    let d = Dungeon::from_seed(&[1, 2, 3, 8], 19, 10).unwrap();
    // At lock-placement time exactly three rooms are taken: the exit, the
    // boss room, and the boss-key chest room; the target is a quarter of
    // the empty rooms, and the seeded increment draws from [0, 1), so zero.
    let empty_at_lock_time = d.rooms.len() - 3;
    assert_eq!(small_key_door_count(&d), empty_at_lock_time / 4);
}

#[test]
fn every_room_is_reachable_from_the_entrance() {
    let d = Dungeon::from_seed(&[1, 2, 3, 8], 19, 10).unwrap();
    let entrance = d.entrance_room.unwrap();
    let seen = flood(&d, entrance, |_, _| true);
    assert_eq!(seen.len(), d.rooms.len());
    for room in d.rooms.iter() {
        assert!(seen.contains(&room.offset));
    }
}

#[test]
fn boss_key_is_reachable_without_the_boss_door() {
    let d = Dungeon::from_seed(&[1, 2, 3, 8], 19, 10).unwrap();
    let entrance = d.entrance_room.unwrap();
    let key_room = d
        .rooms
        .iter()
        .find(|r| matches!(&r.chest, Some(c) if c.item == Item::Key(Key::Boss)))
        .expect("a boss key chest must exist");
    let seen = flood(&d, entrance, |_, door| door.lock != Lock::BossKey);
    assert!(seen.contains(&key_room.offset));
}

#[test]
fn key_pickup_in_discovery_order_opens_every_lock() {
    let d = Dungeon::from_seed(&[1, 2, 3, 8], 19, 10).unwrap();
    let entrance = d.entrance_room.unwrap();

    let mut opened: Vec<(Offset, Offset)> = Vec::new();
    let mut keys_found: Vec<Offset> = Vec::new();
    loop {
        let opened_now = opened.clone();
        let region = flood(&d, entrance, |from, door| match door.lock {
            Lock::BossKey => false,
            Lock::SmallKey => opened_now.contains(&(from, door.to)),
            _ => true,
        });

        // Collect the keys in reach.
        for &o in region.iter() {
            if holds_small_key(room_at(&d, o)) && !keys_found.contains(&o) {
                keys_found.push(o);
            }
        }

        // Open the small-key doors on the rim, one key each.
        let mut newly = 0;
        for &o in region.iter() {
            for door in room_at(&d, o).doors.iter() {
                if door.lock == Lock::SmallKey && !opened.contains(&(o, door.to)) {
                    opened.push((o, door.to));
                    newly += 1;
                }
            }
        }
        assert!(keys_found.len() >= opened.len(), "a key must be in reach before its lock");
        if newly == 0 {
            break;
        }
    }

    // Every small-key door was eventually opened.
    for room in d.rooms.iter() {
        for door in room.doors.iter() {
            if door.lock == Lock::SmallKey {
                assert!(opened.contains(&(room.offset, door.to)));
            }
        }
    }
}

#[test]
fn generated_dungeons_are_normalised_to_the_origin() {
    let d = Dungeon::from_seed(&[1, 2, 3, 8], 19, 10).unwrap();
    assert!(d.rooms.iter().all(|r| r.offset.x >= 0 && r.offset.y >= 0));
    assert!(d.rooms.iter().any(|r| r.offset.x == 0));
    assert!(d.rooms.iter().any(|r| r.offset.y == 0));
}

#[test]
fn doors_come_in_mirrored_pairs() {
    let d = Dungeon::from_seed(&[1, 2, 3, 8], 19, 10).unwrap();
    for room in d.rooms.iter() {
        for door in room.doors.iter() {
            let back = room_at(&d, door.to);
            assert!(back.doors.iter().any(|b| b.to == room.offset));
        }
    }
}
