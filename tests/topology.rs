use build_server::policy::{BuildWorld, GameMode, LobbyWorld, Position};
use build_server::registry::{WorldMap, WorldTemplate};
use build_server::universe::{
    build_template, lobby_template, BuildUniverse, InstanceRef, TargetSelector, TransferFailed,
};
use build_server::world::{Bounds, InstanceError, ProtoPlayer, ResizeError, World};

fn proto(id: u64, name: &str) -> ProtoPlayer {
    ProtoPlayer { id, name: name.to_string(), gamemode: GameMode::Survival, hardcore: false }
}

fn universe() -> BuildUniverse {
    BuildUniverse::new(&lobby_template()).unwrap()
}

fn lobby_spawn() -> Position {
    Position { x: 32, y: 224, z: 32, yaw: 0, pitch: 0 }
}

fn build_spawn() -> Position {
    Position { x: 8, y: 224, z: 8, yaw: 0, pitch: 0 }
}

fn holders(u: &BuildUniverse, id: u64) -> usize {
    let mut n = 0;
    if u.world(InstanceRef::Lobby).is_member(id) {
        n += 1;
    }
    for i in 0..u.registry_len() {
        if u.world(InstanceRef::Keyed(i)).is_member(id) {
            n += 1;
        }
    }
    n
}

#[test]
fn join_lands_in_lobby_at_lobby_spawn() {
    let mut u = universe();
    u.handle_player_join(proto(1, "steve"));
    let lobby = u.world(InstanceRef::Lobby);
    assert!(lobby.is_member(1));
    let p = lobby.player(1).unwrap();
    assert_eq!(p.position, lobby_spawn());
    assert_eq!(p.gamemode, GameMode::Creative);
    assert!(p.hardcore);
    assert_eq!(p.name, "steve");
    assert_eq!(u.instance_of(1), Some(InstanceRef::Lobby));
}

#[test]
fn load_creates_alpha_and_moves_client() {
    let mut u = universe();
    u.handle_player_join(proto(1, "steve"));
    assert_eq!(u.find(&"alpha".to_string()), None);
    let t = u.load(1, "alpha".to_string()).unwrap();
    assert_eq!(t.instance, InstanceRef::Keyed(0));
    assert_eq!(t.proto.id, 1);
    assert_eq!(t.proto.name, "steve");
    assert_eq!(u.registry_len(), 1);
    assert_eq!(u.find(&"alpha".to_string()), Some(0));
    let alpha = u.world(InstanceRef::Keyed(0));
    assert_eq!(
        alpha.bounds(),
        Bounds { origin_x: 0, origin_y: 0, origin_z: 0, size_x: 1, size_y: 24, size_z: 1 }
    );
    assert_eq!(alpha.policy(), BuildWorld::policy());
    assert!(alpha.is_member(1));
    assert_eq!(alpha.player(1).unwrap().position, build_spawn());
    assert!(!u.world(InstanceRef::Lobby).is_member(1));
    assert_eq!(holders(&u, 1), 1);
}

#[test]
fn two_transfers_to_beta_share_one_instance() {
    let mut u = universe();
    u.handle_player_join(proto(1, "a"));
    u.handle_player_join(proto(2, "b"));
    let t1 = u.transfer(1, TargetSelector::Keyed("beta".to_string(), build_template())).unwrap();
    let t2 = u.transfer(2, TargetSelector::Keyed("beta".to_string(), build_template())).unwrap();
    assert_eq!(u.registry_len(), 1);
    assert_eq!(t1.instance, t2.instance);
    let beta = u.world(t1.instance);
    assert!(beta.is_member(1));
    assert!(beta.is_member(2));
    assert!(!u.world(InstanceRef::Lobby).is_member(1));
    assert!(!u.world(InstanceRef::Lobby).is_member(2));
}

#[test]
fn resize_keeps_membership() {
    let mut u = universe();
    u.handle_player_join(proto(1, "a"));
    u.handle_player_join(proto(2, "b"));
    u.load(1, "alpha".to_string()).unwrap();
    u.expand(1, 2, 0, -3).unwrap();
    let alpha = u.world(InstanceRef::Keyed(0));
    assert_eq!(
        alpha.bounds(),
        Bounds { origin_x: 0, origin_y: 0, origin_z: -3, size_x: 3, size_y: 24, size_z: 4 }
    );
    assert!(alpha.is_member(1));
    assert_eq!(alpha.player(1).unwrap().position, build_spawn());
    assert!(u.world(InstanceRef::Lobby).is_member(2));
    assert_eq!(u.instance_of(1), Some(InstanceRef::Keyed(0)));
    assert_eq!(
        u.world(InstanceRef::Lobby).bounds(),
        Bounds { origin_x: 0, origin_y: 0, origin_z: 0, size_x: 6, size_y: 24, size_z: 6 }
    );
}

#[test]
fn resize_out_of_range_changes_nothing() {
    let mut u = universe();
    u.handle_player_join(proto(1, "a"));
    assert_eq!(u.expand(1, i64::MIN, 0, 0), Ok(()));
    assert_eq!(u.expand(1, -1, 0, 0), Err(ResizeError::OutOfRange));
    assert_eq!(u.expand(1, 0, 0, 0), Ok(()));
    assert_eq!(
        u.world(InstanceRef::Lobby).bounds(),
        Bounds { origin_x: i64::MIN, origin_y: 0, origin_z: 0, size_x: 6 + (1u64 << 63), size_y: 24, size_z: 6 }
    );
    assert!(u.world(InstanceRef::Lobby).is_member(1));
}

#[test]
fn failed_creation_leaves_client_in_place() {
    let mut u = universe();
    u.handle_player_join(proto(1, "a"));
    let before = u.player(1).unwrap().position;
    let broken = WorldTemplate { policy: BuildWorld::policy(), size_x: 0, size_y: 24, size_z: 1 };
    let r = u.transfer(1, TargetSelector::Keyed("gamma".to_string(), broken));
    assert!(matches!(r, Err(TransferFailed::InstanceCreationFailed(InstanceError::InvalidDimensions))));
    assert_eq!(u.registry_len(), 0);
    assert_eq!(u.instance_of(1), Some(InstanceRef::Lobby));
    assert_eq!(u.player(1).unwrap().position, before);
    assert_eq!(holders(&u, 1), 1);
}

#[test]
fn client_is_never_in_two_instances() {
    let mut u = universe();
    for id in 0..4u64 {
        u.handle_player_join(proto(id, "p"));
    }
    let keys = ["x", "y", "x", "z"];
    for round in 0..3usize {
        for id in 0..4u64 {
            let key = keys[(id as usize + round) % keys.len()];
            if (id as usize + round) % 3 == 0 {
                u.transfer(id, TargetSelector::Lobby).unwrap();
            } else {
                u.transfer(id, TargetSelector::Keyed(key.to_string(), build_template())).unwrap();
            }
            for other in 0..4u64 {
                assert_eq!(holders(&u, other), 1);
            }
        }
    }
    assert!(u.registry_len() <= 3);
}

#[test]
fn transfer_back_to_lobby_resets_placement() {
    let mut u = universe();
    u.handle_player_join(proto(1, "a"));
    u.load(1, "alpha".to_string()).unwrap();
    let t = u.transfer(1, TargetSelector::Lobby).unwrap();
    assert_eq!(t.instance, InstanceRef::Lobby);
    assert!(!u.world(InstanceRef::Keyed(0)).is_member(1));
    assert_eq!(u.player(1).unwrap().position, lobby_spawn());
    assert_eq!(u.registry_len(), 1);
}

#[test]
fn get_or_create_runs_factory_once() {
    let mut m = WorldMap::new();
    let key = "alpha".to_string();
    let first = m.get_or_create(&key, &build_template()).unwrap();
    for _ in 0..5 {
        assert_eq!(m.get_or_create(&key, &build_template()), Ok(first));
    }
    let other = WorldTemplate { policy: LobbyWorld::policy(), size_x: 9, size_y: 9, size_z: 9 };
    assert_eq!(m.get_or_create(&key, &other), Ok(first));
    assert_eq!(m.len(), 1);
    assert_eq!(m.get(first).policy(), BuildWorld::policy());
    let second = m.get_or_create(&"beta".to_string(), &other).unwrap();
    assert_eq!(second, 1);
    assert_eq!(m.len(), 2);
}

#[test]
fn get_or_create_with_broken_factory_inserts_nothing() {
    let mut m = WorldMap::new();
    let broken = WorldTemplate { policy: BuildWorld::policy(), size_x: 1, size_y: 0, size_z: 1 };
    assert_eq!(m.get_or_create(&"a".to_string(), &broken), Err(InstanceError::InvalidDimensions));
    assert_eq!(m.len(), 0);
    assert_eq!(m.find(&"a".to_string()), None);
}

#[test]
fn tick_advances_every_instance_once() {
    let mut u = universe();
    u.handle_player_join(proto(1, "a"));
    u.handle_player_join(proto(2, "b"));
    u.load(1, "alpha".to_string()).unwrap();
    u.load(2, "beta".to_string()).unwrap();
    u.tick();
    u.tick();
    assert_eq!(u.world(InstanceRef::Lobby).ticks(), 2);
    assert_eq!(u.world(InstanceRef::Keyed(0)).ticks(), 2);
    assert_eq!(u.world(InstanceRef::Keyed(1)).ticks(), 2);
    assert!(u.world(InstanceRef::Keyed(0)).is_member(1));
    assert!(u.world(InstanceRef::Keyed(1)).is_member(2));
}

#[test]
fn world_join_and_leave() {
    let mut w = World::new_with_default_chunks(LobbyWorld::policy(), 6, 24, 6).unwrap();
    w.handle_player_join(proto(5, "e"));
    assert!(w.is_member(5));
    let p = w.remove_player(5).unwrap();
    assert_eq!(p.id, 5);
    assert_eq!(p.name, "e");
    assert_eq!(p.gamemode, GameMode::Creative);
    assert!(p.hardcore);
    assert!(!w.is_member(5));
    assert!(w.remove_player(5).is_none());
}

#[test]
fn zero_sized_world_is_refused() {
    assert!(matches!(
        World::new_with_default_chunks(LobbyWorld::policy(), 6, 24, 0),
        Err(InstanceError::InvalidDimensions)
    ));
    assert!(BuildUniverse::new(&WorldTemplate { policy: LobbyWorld::policy(), size_x: 0, size_y: 1, size_z: 1 }).is_err());
}

#[test]
fn world_tick_counts_one() {
    let mut w = World::new_with_default_chunks(BuildWorld::policy(), 1, 1, 1).unwrap();
    w.tick();
    assert_eq!(w.ticks(), 1);
}

#[test]
fn expand_grows_both_sides() {
    let mut w = World::new_with_default_chunks(BuildWorld::policy(), 1, 24, 1).unwrap();
    w.expand(-2, 1, 3).unwrap();
    assert_eq!(
        w.bounds(),
        Bounds { origin_x: -2, origin_y: 0, origin_z: 0, size_x: 3, size_y: 25, size_z: 4 }
    );
    assert_eq!(w.expand(0, 0, 0), Ok(()));
    assert_eq!(w.bounds().size_x, 3);
}

#[test]
fn arrivals_join_lobby_once_each() {
    let mut u = universe();
    u.handle_player_join(proto(1, "a"));
    u.load(1, "alpha".to_string()).unwrap();
    u.handle_arrivals(vec![proto(2, "b"), proto(1, "again"), proto(3, "c"), proto(2, "twice")]);
    assert_eq!(u.instance_of(1), Some(InstanceRef::Keyed(0)));
    assert_eq!(u.instance_of(2), Some(InstanceRef::Lobby));
    assert_eq!(u.instance_of(3), Some(InstanceRef::Lobby));
    assert_eq!(u.player(2).unwrap().name, "b");
    assert_eq!(u.player(1).unwrap().name, "a");
    assert_eq!(holders(&u, 2), 1);
    assert!(!u.is_attached(4));
}
