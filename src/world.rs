use vstd::prelude::*;

use crate::policy::{GameMode, Position, WorldPolicy};

verus! {

/// A client between instances: its identity and profile, and the abilities it
/// carries along. This is what an instance's join policy is handed.
pub struct ProtoPlayer {
    pub id: u64,
    pub name: String,
    pub gamemode: GameMode,
    pub hardcore: bool,
}

pub struct ProtoView {
    pub id: u64,
    pub name: Seq<char>,
    pub gamemode: GameMode,
    pub hardcore: bool,
}

impl View for ProtoPlayer {
    type V = ProtoView;

    open spec fn view(&self) -> ProtoView {
        ProtoView { id: self.id, name: self.name@, gamemode: self.gamemode, hardcore: self.hardcore }
    }
}

/// The session record of a client attached to an instance.
pub struct Player {
    pub id: u64,
    pub name: String,
    pub gamemode: GameMode,
    pub hardcore: bool,
    pub position: Position,
}

pub struct PlayerView {
    pub id: u64,
    pub name: Seq<char>,
    pub gamemode: GameMode,
    pub hardcore: bool,
    pub position: Position,
}

impl View for Player {
    type V = PlayerView;

    open spec fn view(&self) -> PlayerView {
        PlayerView {
            id: self.id,
            name: self.name@,
            gamemode: self.gamemode,
            hardcore: self.hardcore,
            position: self.position,
        }
    }
}

/// The record that a join under `policy` makes of `proto`: the identity is
/// kept, the placement is the policy's.
pub open spec fn joined(policy: WorldPolicy, proto: ProtoView) -> PlayerView {
    PlayerView {
        id: proto.id,
        name: proto.name,
        gamemode: policy.gamemode,
        hardcore: policy.hardcore,
        position: policy.spawn,
    }
}

/// What a record leaves behind when it is detached from its instance.
pub open spec fn proto_of(p: PlayerView) -> ProtoView {
    ProtoView { id: p.id, name: p.name, gamemode: p.gamemode, hardcore: p.hardcore }
}

/// The extent of an instance, in chunks: a lower corner and a size per axis.
#[derive(Clone, Copy, Debug, PartialEq, Eq, Structural)]
pub struct Bounds {
    pub origin_x: i64,
    pub origin_y: i64,
    pub origin_z: i64,
    pub size_x: u64,
    pub size_y: u64,
    pub size_z: u64,
}

#[derive(Clone, Copy, Debug, PartialEq, Eq, Structural)]
pub enum InstanceError {
    /// An instance must be at least one chunk wide along every axis.
    InvalidDimensions,
}

#[derive(Clone, Copy, Debug, PartialEq, Eq, Structural)]
pub enum ResizeError {
    /// The grown extent does not fit the coordinate range.
    OutOfRange,
}

pub open spec fn dimensions_valid(size_x: u64, size_y: u64, size_z: u64) -> bool {
    size_x >= 1 && size_y >= 1 && size_z >= 1
}

/// One axis grown by `|delta|` chunks: on the positive side for a positive
/// delta, on the negative side (moving the lower corner) for a negative one.
pub open spec fn grown_axis(origin: i64, size: u64, delta: i64) -> Option<(i64, u64)> {
    let new_size = size + if delta < 0 { -delta } else { delta as int };
    let new_origin = if delta < 0 { origin + delta } else { origin as int };
    if new_size <= u64::MAX && new_origin >= i64::MIN {
        Some((new_origin as i64, new_size as u64))
    } else {
        None
    }
}

/// The bounds after growing each axis, or `None` where one leaves the range.
pub open spec fn expanded(b: Bounds, dx: i64, dy: i64, dz: i64) -> Option<Bounds> {
    match (grown_axis(b.origin_x, b.size_x, dx), grown_axis(b.origin_y, b.size_y, dy), grown_axis(b.origin_z, b.size_z, dz)) {
        (Some(x), Some(y), Some(z)) => Some(
            Bounds { origin_x: x.0, origin_y: y.0, origin_z: z.0, size_x: x.1, size_y: y.1, size_z: z.1 },
        ),
        _ => None,
    }
}

/// The abstract state of an instance: its configuration, how often it was
/// ticked, and its membership keyed by client id.
pub struct WorldView {
    pub policy: WorldPolicy,
    pub bounds: Bounds,
    pub ticks: u64,
    pub members: Map<u64, PlayerView>,
}

impl WorldView {
    pub open spec fn with_members(self, members: Map<u64, PlayerView>) -> WorldView {
        WorldView { policy: self.policy, bounds: self.bounds, ticks: self.ticks, members }
    }

    pub open spec fn with_bounds(self, bounds: Bounds) -> WorldView {
        WorldView { policy: self.policy, bounds, ticks: self.ticks, members: self.members }
    }

    pub open spec fn with_ticks(self, ticks: u64) -> WorldView {
        WorldView { policy: self.policy, bounds: self.bounds, ticks, members: self.members }
    }
}

/// A fresh instance: no members, never ticked, its lower corner at the origin.
pub open spec fn fresh_world(policy: WorldPolicy, size_x: u64, size_y: u64, size_z: u64) -> WorldView {
    WorldView {
        policy,
        bounds: Bounds { origin_x: 0, origin_y: 0, origin_z: 0, size_x, size_y, size_z },
        ticks: 0,
        members: Map::empty(),
    }
}

/// The tick counter after one more tick; it wraps around.
pub open spec fn next_tick(t: u64) -> u64 {
    if t == u64::MAX { 0 } else { (t + 1) as u64 }
}

pub open spec fn ids_unique(s: Seq<PlayerView>) -> bool {
    forall|i: int, j: int| 0 <= i < s.len() && 0 <= j < s.len() && s[i].id == s[j].id ==> i == j
}

pub open spec fn membership(s: Seq<PlayerView>) -> Map<u64, PlayerView> {
    Map::new(
        |id: u64| exists|i: int| 0 <= i < s.len() && s[i].id == id,
        |id: u64| s[choose|i: int| 0 <= i < s.len() && s[i].id == id],
    )
}

proof fn lemma_membership_at(s: Seq<PlayerView>, i: int)
    requires
        ids_unique(s),
        0 <= i < s.len(),
    ensures
        membership(s).contains_key(s[i].id),
        membership(s)[s[i].id] == s[i],
{
    let id = s[i].id;
    assert(exists|j: int| 0 <= j < s.len() && s[j].id == id);
    let c = choose|j: int| 0 <= j < s.len() && s[j].id == id;
    assert(c == i);
}

proof fn lemma_membership_push(s: Seq<PlayerView>, v: PlayerView)
    requires
        ids_unique(s),
        !membership(s).contains_key(v.id),
    ensures
        ids_unique(s.push(v)),
        membership(s.push(v)) == membership(s).insert(v.id, v),
{
    let t = s.push(v);
    assert forall|i: int| 0 <= i < s.len() implies s[i].id != v.id by {
        lemma_membership_at(s, i);
    }
    assert(ids_unique(t));
    assert forall|k: u64| #[trigger] membership(t).contains_key(k) <==> membership(s).insert(v.id, v).contains_key(k) by {
        if membership(s).contains_key(k) {
            let j = choose|j: int| 0 <= j < s.len() && s[j].id == k;
            assert(t[j].id == k);
        }
        if k == v.id {
            assert(t[s.len() as int].id == k);
        }
        if membership(t).contains_key(k) && k != v.id {
            let j = choose|j: int| 0 <= j < t.len() && t[j].id == k;
            assert(s[j].id == k);
        }
    }
    assert forall|k: u64| #[trigger] membership(t).contains_key(k) implies membership(t)[k] == membership(s).insert(v.id, v)[k] by {
        let j = choose|j: int| 0 <= j < t.len() && t[j].id == k;
        lemma_membership_at(t, j);
        if k != v.id {
            lemma_membership_at(s, j);
        }
    }
    assert(membership(t) =~= membership(s).insert(v.id, v));
}

proof fn lemma_membership_remove(s: Seq<PlayerView>, i: int)
    requires
        ids_unique(s),
        0 <= i < s.len(),
    ensures
        ids_unique(s.remove(i)),
        membership(s.remove(i)) == membership(s).remove(s[i].id),
{
    let t = s.remove(i);
    let id = s[i].id;
    assert(ids_unique(t)) by {
        assert forall|a: int, b: int| 0 <= a < t.len() && 0 <= b < t.len() && t[a].id == t[b].id implies a == b by {
            let a2 = if a < i { a } else { a + 1 };
            let b2 = if b < i { b } else { b + 1 };
            assert(t[a] == s[a2]);
            assert(t[b] == s[b2]);
        }
    }
    assert forall|k: u64| #[trigger] membership(t).contains_key(k) <==> membership(s).remove(id).contains_key(k) by {
        if membership(t).contains_key(k) {
            let j = choose|j: int| 0 <= j < t.len() && t[j].id == k;
            let j2 = if j < i { j } else { j + 1 };
            assert(t[j] == s[j2]);
            assert(j2 != i);
        }
        if membership(s).contains_key(k) && k != id {
            let j = choose|j: int| 0 <= j < s.len() && s[j].id == k;
            assert(j != i);
            let j2 = if j < i { j } else { j - 1 };
            assert(t[j2] == s[j]);
        }
    }
    assert forall|k: u64| #[trigger] membership(t).contains_key(k) implies membership(t)[k] == membership(s).remove(id)[k] by {
        let j = choose|j: int| 0 <= j < t.len() && t[j].id == k;
        let j2 = if j < i { j } else { j + 1 };
        assert(t[j] == s[j2]);
        lemma_membership_at(t, j);
        lemma_membership_at(s, j2);
    }
    assert(membership(t) =~= membership(s).remove(id));
}

/// One world instance: its policy, its extent, its tick counter and the
/// session records of its members.
pub struct World {
    policy: WorldPolicy,
    bounds: Bounds,
    ticks: u64,
    players: Vec<Player>,
}

impl View for World {
    type V = WorldView;

    closed spec fn view(&self) -> WorldView {
        WorldView {
            policy: self.policy,
            bounds: self.bounds,
            ticks: self.ticks,
            members: membership(self.records()),
        }
    }
}

impl World {
    spec fn records(&self) -> Seq<PlayerView> {
        self.players@.map_values(|p: Player| p@)
    }

    /// No client is held twice.
    pub closed spec fn wf(&self) -> bool {
        ids_unique(self.records())
    }

    /// An empty instance of the given size, in chunks per axis.
    pub fn new_with_default_chunks(policy: WorldPolicy, size_x: u64, size_y: u64, size_z: u64) -> (r: Result<World, InstanceError>)
        ensures
            r is Ok <==> dimensions_valid(size_x, size_y, size_z),
            r matches Ok(w) ==> w.wf() && w@ == fresh_world(policy, size_x, size_y, size_z),
            r matches Err(e) ==> e == InstanceError::InvalidDimensions,
    {
        if size_x == 0 || size_y == 0 || size_z == 0 {
            return Err(InstanceError::InvalidDimensions);
        }
        let w = World {
            policy,
            bounds: Bounds { origin_x: 0, origin_y: 0, origin_z: 0, size_x, size_y, size_z },
            ticks: 0,
            players: Vec::new(),
        };
        assert(w.records() =~= Seq::<PlayerView>::empty());
        assert(w@.members =~= Map::<u64, PlayerView>::empty());
        Ok(w)
    }

    pub fn policy(&self) -> (r: WorldPolicy)
        ensures
            r == self@.policy,
    {
        self.policy
    }

    pub fn bounds(&self) -> (r: Bounds)
        ensures
            r == self@.bounds,
    {
        self.bounds
    }

    pub fn ticks(&self) -> (r: u64)
        ensures
            r == self@.ticks,
    {
        self.ticks
    }

    /// Where `id` stands in the membership, if it is a member.
    fn find(&self, id: u64) -> (r: Option<usize>)
        requires
            self.wf(),
        ensures
            r is Some <==> self@.members.contains_key(id),
            r matches Some(i) ==> i < self.players@.len() && self.players@[i as int].id == id,
    {
        let mut i: usize = 0;
        while i < self.players.len()
            invariant
                i <= self.players@.len(),
                forall|j: int| 0 <= j < i ==> self.players@[j].id != id,
            decreases self.players@.len() - i,
        {
            if self.players[i].id == id {
                proof {
                    assert(self.records()[i as int].id == id);
                }
                return Some(i);
            }
            i = i + 1;
        }
        proof {
            if self@.members.contains_key(id) {
                let j = choose|j: int| 0 <= j < self.records().len() && self.records()[j].id == id;
                assert(self.players@[j].id == id);
            }
        }
        None
    }

    pub fn is_member(&self, id: u64) -> (r: bool)
        requires
            self.wf(),
        ensures
            r == self@.members.contains_key(id),
    {
        self.find(id).is_some()
    }

    /// The session record of `id`, if it is a member.
    pub fn player(&self, id: u64) -> (r: Option<&Player>)
        requires
            self.wf(),
        ensures
            r is Some <==> self@.members.contains_key(id),
            r matches Some(p) ==> p@ == self@.members[id] && p.id == id,
    {
        match self.find(id) {
            Some(i) => {
                proof {
                    lemma_membership_at(self.records(), i as int);
                }
                Some(&self.players[i])
            },
            None => None,
        }
    }

    /// The join policy: the client gets this instance's placement and becomes
    /// a member.
    pub fn handle_player_join(&mut self, proto: ProtoPlayer)
        requires
            old(self).wf(),
            !old(self)@.members.contains_key(proto.id),
        ensures
            final(self).wf(),
            final(self)@ == old(self)@.with_members(
                old(self)@.members.insert(proto.id, joined(old(self)@.policy, proto@)),
            ),
    {
        let p = Player {
            id: proto.id,
            name: proto.name,
            gamemode: self.policy.gamemode,
            hardcore: self.policy.hardcore,
            position: self.policy.spawn,
        };
        proof {
            lemma_membership_push(self.records(), p@);
        }
        self.players.push(p);
        assert(self.records() =~= old(self).records().push(p@));
    }

    /// Detaches `id`, handing back what it carries to its next instance.
    pub fn remove_player(&mut self, id: u64) -> (r: Option<ProtoPlayer>)
        requires
            old(self).wf(),
        ensures
            final(self).wf(),
            r is Some <==> old(self)@.members.contains_key(id),
            r matches Some(p) ==> p@ == proto_of(old(self)@.members[id]) && p.id == id,
            final(self)@ == old(self)@.with_members(old(self)@.members.remove(id)),
    {
        match self.find(id) {
            Some(i) => {
                proof {
                    lemma_membership_at(self.records(), i as int);
                    lemma_membership_remove(self.records(), i as int);
                }
                let p = self.players.remove(i);
                assert(self.records() =~= old(self).records().remove(i as int));
                Some(ProtoPlayer { id: p.id, name: p.name, gamemode: p.gamemode, hardcore: p.hardcore })
            },
            None => {
                assert(old(self)@.members.remove(id) =~= old(self)@.members);
                None
            },
        }
    }

    /// One tick of this instance.
    pub fn tick(&mut self)
        ensures
            final(self).wf() == old(self).wf(),
            final(self)@ == old(self)@.with_ticks(next_tick(old(self)@.ticks)),
    {
        self.ticks = self.ticks.wrapping_add(1);
    }

    /// Grows the instance by `|dx|`, `|dy|`, `|dz|` chunks; a negative amount
    /// grows it on the negative side. Membership is untouched.
    pub fn expand(&mut self, dx: i64, dy: i64, dz: i64) -> (r: Result<(), ResizeError>)
        ensures
            final(self).wf() == old(self).wf(),
            r is Ok <==> expanded(old(self)@.bounds, dx, dy, dz) is Some,
            r is Ok ==> final(self)@ == old(self)@.with_bounds(expanded(old(self)@.bounds, dx, dy, dz)->Some_0),
            r is Err ==> final(self)@ == old(self)@,
    {
        let x = grow_axis(self.bounds.origin_x, self.bounds.size_x, dx);
        let y = grow_axis(self.bounds.origin_y, self.bounds.size_y, dy);
        let z = grow_axis(self.bounds.origin_z, self.bounds.size_z, dz);
        match (x, y, z) {
            (Some(x), Some(y), Some(z)) => {
                self.bounds = Bounds { origin_x: x.0, origin_y: y.0, origin_z: z.0, size_x: x.1, size_y: y.1, size_z: z.1 };
                Ok(())
            },
            _ => Err(ResizeError::OutOfRange),
        }
    }
}

fn grow_axis(origin: i64, size: u64, delta: i64) -> (r: Option<(i64, u64)>)
    ensures
        r == grown_axis(origin, size, delta),
{
    let d = delta as i128;
    let magnitude: i128 = if d < 0 { -d } else { d };
    let new_size: i128 = size as i128 + magnitude;
    let new_origin: i128 = if d < 0 { origin as i128 + d } else { origin as i128 };
    if new_size <= u64::MAX as i128 && new_origin >= i64::MIN as i128 {
        Some((new_origin as i64, new_size as u64))
    } else {
        None
    }
}

} // verus!
