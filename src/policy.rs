use vstd::prelude::*;

verus! {

/// The game mode a join policy puts a client in.
#[derive(Clone, Copy, Debug, PartialEq, Eq, Structural)]
pub enum GameMode {
    Survival,
    Creative,
    Adventure,
    Spectator,
}

/// Where a client stands and where it looks, in whole blocks and whole degrees.
#[derive(Clone, Copy, Debug, PartialEq, Eq, Structural)]
pub struct Position {
    pub x: i64,
    pub y: i64,
    pub z: i64,
    pub yaw: i32,
    pub pitch: i32,
}

/// Per-kind settings of the clients that an instance holds.
#[derive(Clone, Copy, Debug, PartialEq, Eq, Structural)]
pub struct PlayerPolicy {
    pub fast_packet_response: bool,
}

/// Everything that sets one kind of instance apart from another: view
/// distances, border visibility, and the placement a join gives a client.
#[derive(Clone, Copy, Debug, PartialEq, Eq, Structural)]
pub struct WorldPolicy {
    pub chunk_view_distance: u8,
    pub entity_view_distance: u8,
    pub show_default_world_border: bool,
    pub spawn: Position,
    pub gamemode: GameMode,
    pub hardcore: bool,
    pub player: PlayerPolicy,
}

/// The kind of client that lives in the lobby.
pub struct LobbyPlayer {}

/// The kind of client that lives in a build area.
pub struct BuildPlayer {}

/// The landing instance every new client joins.
pub struct LobbyWorld {}

/// A named build area of the registry.
pub struct BuildWorld {}

pub open spec fn lobby_player_policy() -> PlayerPolicy {
    PlayerPolicy { fast_packet_response: true }
}

pub open spec fn build_player_policy() -> PlayerPolicy {
    PlayerPolicy { fast_packet_response: true }
}

/// Fixed spawn near the lobby's centre and a tight view.
pub open spec fn lobby_policy() -> WorldPolicy {
    WorldPolicy {
        chunk_view_distance: 3,
        entity_view_distance: 3,
        show_default_world_border: true,
        spawn: Position { x: 32, y: 224, z: 32, yaw: 0, pitch: 0 },
        gamemode: GameMode::Creative,
        hardcore: true,
        player: lobby_player_policy(),
    }
}

/// Elevated spawn, a wider view, creative and hardcore forced on.
pub open spec fn build_policy() -> WorldPolicy {
    WorldPolicy {
        chunk_view_distance: 8,
        entity_view_distance: 8,
        show_default_world_border: true,
        spawn: Position { x: 8, y: 224, z: 8, yaw: 0, pitch: 0 },
        gamemode: GameMode::Creative,
        hardcore: true,
        player: build_player_policy(),
    }
}

impl LobbyPlayer {
    pub fn policy() -> (r: PlayerPolicy)
        ensures
            r == lobby_player_policy(),
    {
        PlayerPolicy { fast_packet_response: true }
    }
}

impl BuildPlayer {
    pub fn policy() -> (r: PlayerPolicy)
        ensures
            r == build_player_policy(),
    {
        PlayerPolicy { fast_packet_response: true }
    }
}

impl LobbyWorld {
    pub fn policy() -> (r: WorldPolicy)
        ensures
            r == lobby_policy(),
    {
        WorldPolicy {
            chunk_view_distance: 3,
            entity_view_distance: 3,
            show_default_world_border: true,
            spawn: Position { x: 32, y: 224, z: 32, yaw: 0, pitch: 0 },
            gamemode: GameMode::Creative,
            hardcore: true,
            player: LobbyPlayer::policy(),
        }
    }
}

impl BuildWorld {
    pub fn policy() -> (r: WorldPolicy)
        ensures
            r == build_policy(),
    {
        WorldPolicy {
            chunk_view_distance: 8,
            entity_view_distance: 8,
            show_default_world_border: true,
            spawn: Position { x: 8, y: 224, z: 8, yaw: 0, pitch: 0 },
            gamemode: GameMode::Creative,
            hardcore: true,
            player: BuildPlayer::policy(),
        }
    }
}

} // verus!
