use arena_sync::client::{Applied, ApplyError, ClientState, EnemySlot};
use arena_sync::codec::{
    decode, decode_input, decode_world, encode_input, encode_world, fills_buffer, sample_input,
    Body, Controls, DecodeError, InputPacket, ServerMsg, WorldState,
};
use arena_sync::registry::EnemyRegistry;
use bevy::ecs::entity::Entity;

fn bits(v: f32) -> u32 {
    v.to_bits()
}

fn body(x: f32, y: f32, vx: f32, vy: f32) -> Body {
    Body { x: bits(x), y: bits(y), vx: bits(vx), vy: bits(vy) }
}

fn push_f32(out: &mut Vec<u8>, v: f32) {
    out.extend_from_slice(&v.to_be_bytes());
}

fn world_packet(player: [f32; 4], death: u8, enemies: &[[f32; 4]]) -> Vec<u8> {
    let mut out = vec![1u8];
    for v in player {
        push_f32(&mut out, v);
    }
    out.push(death);
    for e in enemies {
        for v in e {
            push_f32(&mut out, *v);
        }
    }
    out
}

fn population(n: u32) -> Vec<Entity> {
    (0..n).map(|i| Entity::from_raw(100 + i)).collect()
}

fn session(n: u32) -> ClientState {
    let mut st = ClientState::new();
    st.register_enemies(&population(n));
    st
}

fn controls(left: bool, right: bool, up: bool, down: bool, restart: bool) -> Controls {
    Controls { left, right, up, down, restart }
}

#[test]
fn up_pressed_packet_decodes_to_unit_dy() {
    let mut st = ClientState::new();
    let bytes = st.sample_input(controls(false, false, true, false, false));
    let mut expected = vec![1u8];
    push_f32(&mut expected, 0.0);
    push_f32(&mut expected, 1.0);
    expected.push(0);
    assert_eq!(bytes, expected);
    assert_eq!(bytes.len(), 10);
    let p = decode_input(&bytes).unwrap();
    assert_eq!(p, InputPacket { dx: 0, dy: 1, restart: false });
}

#[test]
fn right_pressed_packet_spells_one_and_zero() {
    let bytes = encode_input(InputPacket { dx: 1, dy: 0, restart: false });
    assert_eq!(bytes, vec![1, 0x3F, 0x80, 0, 0, 0, 0, 0, 0, 0]);
    let bytes = encode_input(InputPacket { dx: -1, dy: -1, restart: true });
    let mut expected = vec![1u8];
    push_f32(&mut expected, -1.0);
    push_f32(&mut expected, -1.0);
    expected.push(1);
    assert_eq!(bytes, expected);
}

#[test]
fn every_control_combination_gives_unit_axes() {
    for mask in 0u32..32 {
        let c = controls(
            mask & 1 != 0,
            mask & 2 != 0,
            mask & 4 != 0,
            mask & 8 != 0,
            mask & 16 != 0,
        );
        for dead in [false, true] {
            let p = sample_input(c, dead);
            assert!([-1i8, 0, 1].contains(&p.dx));
            assert!([-1i8, 0, 1].contains(&p.dy));
            if c.left && c.right {
                assert_eq!(p.dx, 0);
            }
            if c.up && c.down {
                assert_eq!(p.dy, 0);
            }
            if dead {
                assert_eq!((p.dx, p.dy), (0, 0));
            }
            let bytes = encode_input(p);
            assert_eq!(bytes[9], c.restart as u8);
            let dx = f32::from_be_bytes([bytes[1], bytes[2], bytes[3], bytes[4]]);
            let dy = f32::from_be_bytes([bytes[5], bytes[6], bytes[7], bytes[8]]);
            assert_eq!(dx, p.dx as f32);
            assert_eq!(dy, p.dy as f32);
            assert_eq!(decode_input(&bytes), Some(p));
        }
    }
}

#[test]
fn malformed_input_packets_are_refused() {
    assert_eq!(decode_input(&[1, 0, 0, 0, 0, 0, 0, 0, 0]), None);
    assert_eq!(decode_input(&[2, 0, 0, 0, 0, 0, 0, 0, 0, 0]), None);
    assert_eq!(decode_input(&[1, 0, 0, 0, 0, 0, 0, 0, 0, 2]), None);
    assert_eq!(decode_input(&[1, 0x40, 0, 0, 0, 0, 0, 0, 0, 0]), None);
}

#[test]
fn world_packet_round_trips() {
    for k in 0..4usize {
        let enemies: Vec<[f32; 4]> =
            (0..k).map(|i| [i as f32, -(i as f32), 0.5, 2.0 + i as f32]).collect();
        let bytes = world_packet([1.5, -2.0, 10.0, -4.0], 0, &enemies);
        assert_eq!(bytes.len(), 18 + 16 * k);
        let w = decode_world(&bytes);
        assert_eq!(w.player, body(1.5, -2.0, 10.0, -4.0));
        assert_eq!(w.enemies.len(), k);
        for (i, e) in enemies.iter().enumerate() {
            assert_eq!(w.enemies[i], body(e[0], e[1], e[2], e[3]));
        }
        assert_eq!(encode_world(&w), bytes);
    }
}

#[test]
fn trailing_partial_record_is_ignored() {
    let mut bytes = world_packet([0.0, 0.0, 0.0, 0.0], 3, &[[1.0, 2.0, 3.0, 4.0]]);
    bytes.extend_from_slice(&[9, 9, 9, 9, 9]);
    let w = decode_world(&bytes);
    assert_eq!(w.death, 3);
    assert_eq!(w.enemies.len(), 1);
    let back = WorldState { player: w.player, death: w.death, enemies: w.enemies.clone() };
    assert_eq!(encode_world(&back), bytes[..34].to_vec());
}

#[test]
fn decode_reports_each_error() {
    assert!(matches!(decode(&[]), Err(DecodeError::Empty)));
    assert!(matches!(decode(&[1, 0, 0, 0]), Err(DecodeError::Truncated)));
    assert!(matches!(decode(&[2, 0xFF, 0xFE]), Err(DecodeError::BadText)));
    assert!(matches!(decode(&[7, 1, 2]), Ok(ServerMsg::Unknown(7))));
    match decode(&[2, b'h', b'i']) {
        Ok(ServerMsg::Flag(t)) => assert_eq!(t, "hi"),
        _ => panic!("expected a flag"),
    }
    match decode(&[2]) {
        Ok(ServerMsg::Flag(t)) => assert_eq!(t, ""),
        _ => panic!("expected an empty flag"),
    }
}

#[test]
fn flag_packet_reveals_win_text() {
    let mut st = session(2);
    let mut bytes = vec![2u8];
    bytes.extend_from_slice("CTF{test}".as_bytes());
    assert_eq!(st.win_text, "The flag is CTF{}");
    assert!(!st.win_visible);
    assert_eq!(st.apply_packet(&bytes), Ok(Applied::Flag));
    assert!(st.win_visible);
    assert_eq!(st.win_text, "The flag is CTF{test}");
}

#[test]
fn death_byte_toggles_overlay() {
    let mut st = session(0);
    let dead = world_packet([0.0, 0.0, 0.0, 0.0], 1, &[]);
    assert_eq!(st.apply_packet(&dead), Ok(Applied::World { enemies: 0 }));
    assert!(st.death_visible);
    let alive = world_packet([0.0, 0.0, 0.0, 0.0], 0, &[]);
    assert_eq!(st.apply_packet(&alive), Ok(Applied::World { enemies: 0 }));
    assert!(!st.death_visible);
}

#[test]
fn dead_player_sends_no_movement_but_restart() {
    let mut st = session(3);
    st.apply_packet(&world_packet([0.0, 0.0, 0.0, 0.0], 1, &[[1.0, 1.0, 0.0, 0.0]])).unwrap();
    assert_eq!(st.enemy(0).unwrap().visible, true);
    let bytes = st.sample_input(controls(true, false, true, false, true));
    assert_eq!(decode_input(&bytes), Some(InputPacket { dx: 0, dy: 0, restart: true }));
    for j in 0..3 {
        assert!(!st.enemy(j).unwrap().visible);
    }
    assert_eq!(st.enemy(0).unwrap().body, body(1.0, 1.0, 0.0, 0.0));
}

#[test]
fn world_packet_overwrites_player_and_enemies() {
    let mut st = session(3);
    let bytes = world_packet([3.0, 4.0, 10.0, -6.0], 0, &[[1.0, 2.0, 8.0, 2.0], [5.0, 6.0, 0.0, 1.0]]);
    assert_eq!(st.apply_packet(&bytes), Ok(Applied::World { enemies: 2 }));
    assert_eq!(st.player, body(3.0, 4.0, 10.0, -6.0));
    assert_eq!(st.enemy(0), Some(EnemySlot { body: body(1.0, 2.0, 8.0, 2.0), visible: true }));
    assert_eq!(st.enemy(1), Some(EnemySlot { body: body(5.0, 6.0, 0.0, 1.0), visible: true }));
    assert_eq!(st.enemy(2), Some(EnemySlot { body: body(0.0, 0.0, 0.0, 0.0), visible: false }));
    assert_eq!(st.enemy(3), None);
    let fewer = world_packet([0.0, 0.0, 0.0, 0.0], 0, &[[7.0, 7.0, 0.0, 0.0]]);
    st.apply_packet(&fewer).unwrap();
    assert_eq!(st.enemy(1), Some(EnemySlot { body: body(5.0, 6.0, 0.0, 1.0), visible: true }));
}

#[test]
fn short_world_packet_changes_nothing() {
    let mut st = session(2);
    st.apply_packet(&world_packet([1.0, 1.0, 1.0, 1.0], 1, &[[2.0, 2.0, 2.0, 2.0]])).unwrap();
    let before_player = st.player;
    let before_enemy = st.enemy(0);
    for len in 1..18 {
        let bytes = vec![1u8; len];
        assert_eq!(st.apply_packet(&bytes), Err(ApplyError::Decode(DecodeError::Truncated)));
        assert_eq!(st.player, before_player);
        assert_eq!(st.enemy(0), before_enemy);
        assert!(st.death_visible);
    }
}

#[test]
fn excess_enemy_records_are_a_protocol_violation() {
    let mut st = session(1);
    let bytes = world_packet([9.0, 9.0, 0.0, 0.0], 1, &[[1.0, 1.0, 0.0, 0.0], [2.0, 2.0, 0.0, 0.0]]);
    assert_eq!(
        st.apply_packet(&bytes),
        Err(ApplyError::OrdinalOutOfRange { ordinal: 1, registered: 1 })
    );
    assert_eq!(st.player, body(0.0, 0.0, 0.0, 0.0));
    assert!(!st.death_visible);
    assert_eq!(st.enemy(0).unwrap().visible, false);
}

#[test]
fn unknown_tag_is_ignored() {
    let mut st = session(1);
    assert_eq!(st.apply_packet(&[9, 1, 2, 3]), Ok(Applied::Ignored { tag: 9 }));
    assert_eq!(st.player, body(0.0, 0.0, 0.0, 0.0));
    assert!(!st.win_visible);
}

#[test]
fn ordinals_keep_their_enemy() {
    let mut st = session(3);
    let first: Vec<Entity> = (0..3).map(|j| st.registry().resolve(j).unwrap()).collect();
    assert_eq!(first, population(3));
    st.apply_packet(&world_packet([0.0; 4], 0, &[[1.0; 4], [2.0; 4]])).unwrap();
    st.register_enemies(&population(5).into_iter().rev().collect());
    st.apply_packet(&world_packet([0.0; 4], 0, &[[3.0; 4]])).unwrap();
    for j in 0..3 {
        assert_eq!(st.registry().resolve(j), Some(first[j]));
    }
    assert_eq!(st.registry().resolve(3), None);
}

#[test]
fn registry_takes_first_nonempty_population() {
    let mut reg = EnemyRegistry::new();
    assert!(!reg.is_built());
    reg.register(&Vec::new());
    assert!(!reg.is_built());
    reg.register(&population(2));
    assert!(reg.is_built());
    assert_eq!(reg.len(), 2);
    reg.register(&population(4));
    assert_eq!(reg.len(), 2);
    assert_eq!(reg.resolve(1), Some(Entity::from_raw(101)));
    assert_eq!(reg.resolve(2), None);
}

#[test]
fn full_buffer_is_flagged() {
    assert!(!fills_buffer(0));
    assert!(!fills_buffer(2047));
    assert!(fills_buffer(2048));
    assert!(fills_buffer(5000));
}
