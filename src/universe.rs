use vstd::pervasive::unreached;
use vstd::prelude::*;

use crate::policy::{BuildWorld, LobbyWorld};
use crate::registry::{get_or_create_spec, WorldMap, WorldTemplate};
use crate::world::{
    expanded, joined, next_tick, proto_of, InstanceError, Player, PlayerView, ProtoPlayer, ResizeError, World,
    WorldView,
};

verus! {

/// An instance of a universe: the lobby, or the registry entry at an index.
#[derive(Clone, Copy, Debug, PartialEq, Eq, Structural)]
pub enum InstanceRef {
    Lobby,
    Keyed(usize),
}

/// Where a transfer goes: the lobby, or the registry entry under a key, made
/// from the template if it does not exist yet.
pub enum TargetSelector {
    Lobby,
    Keyed(String, WorldTemplate),
}

#[derive(Clone, Copy, Debug, PartialEq, Eq, Structural)]
pub enum TransferFailed {
    /// The target did not exist and could not be created.
    InstanceCreationFailed(InstanceError),
}

/// What a finished transfer hands its caller to complete instance-specific
/// setup: the instance the client now belongs to, and the client's state from
/// before the transfer.
pub struct Transferred {
    pub instance: InstanceRef,
    pub proto: ProtoPlayer,
}

pub struct UniverseView {
    pub lobby: WorldView,
    pub maps: Seq<(Seq<char>, WorldView)>,
}

/// Every instance of the universe, the lobby first, then the registry in order.
pub open spec fn instances(u: UniverseView) -> Seq<WorldView> {
    seq![u.lobby] + u.maps.map_values(|e: (Seq<char>, WorldView)| e.1)
}

pub open spec fn registry_keys(u: UniverseView) -> Seq<Seq<char>> {
    u.maps.map_values(|e: (Seq<char>, WorldView)| e.0)
}

/// The position of an instance in `instances`.
pub open spec fn slot(r: InstanceRef) -> int {
    match r {
        InstanceRef::Lobby => 0,
        InstanceRef::Keyed(i) => i + 1,
    }
}

pub open spec fn valid_ref(u: UniverseView, r: InstanceRef) -> bool {
    match r {
        InstanceRef::Lobby => true,
        InstanceRef::Keyed(i) => i < u.maps.len(),
    }
}

/// No client is a member of two instances.
pub open spec fn attached_at_most_once(ws: Seq<WorldView>) -> bool {
    forall|i: int, j: int, id: u64|
        0 <= i < ws.len() && 0 <= j < ws.len() && #[trigger] ws[i].members.contains_key(id)
            && #[trigger] ws[j].members.contains_key(id) ==> i == j
}

pub open spec fn attached(u: UniverseView, id: u64) -> bool {
    exists|s: int| 0 <= s < instances(u).len() && #[trigger] instances(u)[s].members.contains_key(id)
}

/// The instance that holds `id`, where `attached(u, id)`.
pub open spec fn location(u: UniverseView, id: u64) -> int {
    choose|s: int| 0 <= s < instances(u).len() && #[trigger] instances(u)[s].members.contains_key(id)
}

/// The session record of an attached client.
pub open spec fn record_of(u: UniverseView, id: u64) -> PlayerView {
    instances(u)[location(u, id)].members[id]
}

/// Every instance with `id` taken out of its membership.
pub open spec fn detach_all(ws: Seq<WorldView>, id: u64) -> Seq<WorldView> {
    ws.map_values(|w: WorldView| w.with_members(w.members.remove(id)))
}

/// The instance at `s` with `rec` added to its membership.
pub open spec fn attach(ws: Seq<WorldView>, s: int, rec: PlayerView) -> Seq<WorldView> {
    ws.update(s, ws[s].with_members(ws[s].members.insert(rec.id, rec)))
}

/// The universe once a transfer target has been looked up or created, and
/// the slot of that target.
pub open spec fn resolved(u: UniverseView, target: TargetSelector) -> (UniverseView, Result<int, InstanceError>) {
    match target {
        TargetSelector::Lobby => (u, Ok(0)),
        TargetSelector::Keyed(key, t) => {
            let (m, r) = get_or_create_spec(u.maps, key@, t);
            (
                UniverseView { lobby: u.lobby, maps: m },
                match r {
                    Ok(i) => Ok(i + 1),
                    Err(e) => Err(e),
                },
            )
        },
    }
}

/// The instances after moving `id` into the instance at `s`: detached from
/// wherever it was, then joined under the target's policy.
pub open spec fn moved(ws: Seq<WorldView>, id: u64, s: int, proto: crate::world::ProtoView) -> Seq<WorldView> {
    attach(detach_all(ws, id), s, joined(ws[s].policy, proto))
}

/// The universe after a brand-new client joins the lobby.
pub open spec fn lobby_joined(u: UniverseView, p: crate::world::ProtoView) -> UniverseView {
    UniverseView { lobby: u.lobby.with_members(u.lobby.members.insert(p.id, joined(u.lobby.policy, p))), maps: u.maps }
}

/// The universe after a batch of arrivals is let in, in order. An arrival
/// whose id is already attached (to any instance) is dropped.
pub open spec fn arrivals_joined(u: UniverseView, arrivals: Seq<crate::world::ProtoView>) -> UniverseView
    decreases arrivals.len(),
{
    if arrivals.len() == 0 {
        u
    } else {
        let v = arrivals_joined(u, arrivals.drop_last());
        if attached(v, arrivals.last().id) {
            v
        } else {
            lobby_joined(v, arrivals.last())
        }
    }
}

proof fn lemma_instances(u: UniverseView)
    ensures
        instances(u).len() == u.maps.len() + 1,
        instances(u)[0] == u.lobby,
        forall|i: int| 0 <= i < u.maps.len() ==> #[trigger] instances(u)[i + 1] == u.maps[i].1,
        registry_keys(u).len() == u.maps.len(),
        forall|i: int| 0 <= i < u.maps.len() ==> #[trigger] registry_keys(u)[i] == u.maps[i].0,
{
    assert forall|i: int| 0 <= i < u.maps.len() implies #[trigger] instances(u)[i + 1] == u.maps[i].1 by {}
}

proof fn lemma_instances_lobby(u: UniverseView, w: WorldView)
    ensures
        instances(UniverseView { lobby: w, maps: u.maps }) == instances(u).update(0, w),
{
    let v = UniverseView { lobby: w, maps: u.maps };
    lemma_instances(u);
    lemma_instances(v);
    assert forall|s: int| 0 <= s < instances(v).len() implies instances(v)[s] == instances(u).update(0, w)[s] by {
        if s > 0 {
            assert(instances(v)[(s - 1) + 1] == u.maps[s - 1].1);
            assert(instances(u)[(s - 1) + 1] == u.maps[s - 1].1);
        }
    }
    assert(instances(v) =~= instances(u).update(0, w));
}

proof fn lemma_instances_entry(u: UniverseView, m: Seq<(Seq<char>, WorldView)>, i: int, w: WorldView)
    requires
        0 <= i < u.maps.len(),
        m == u.maps.update(i, (u.maps[i].0, w)),
    ensures
        instances(UniverseView { lobby: u.lobby, maps: m }) == instances(u).update(i + 1, w),
        registry_keys(UniverseView { lobby: u.lobby, maps: m }) == registry_keys(u),
{
    let v = UniverseView { lobby: u.lobby, maps: m };
    lemma_instances(u);
    lemma_instances(v);
    assert forall|s: int| 0 <= s < instances(v).len() implies instances(v)[s] == instances(u).update(i + 1, w)[s] by {
        if s > 0 {
            assert(instances(v)[(s - 1) + 1] == m[s - 1].1);
            assert(instances(u)[(s - 1) + 1] == u.maps[s - 1].1);
        }
    }
    assert(instances(v) =~= instances(u).update(i + 1, w));
    assert(registry_keys(v) =~= registry_keys(u));
}

proof fn lemma_instances_push(u: UniverseView, k: Seq<char>, w: WorldView)
    ensures
        instances(UniverseView { lobby: u.lobby, maps: u.maps.push((k, w)) }) == instances(u).push(w),
        registry_keys(UniverseView { lobby: u.lobby, maps: u.maps.push((k, w)) }) == registry_keys(u).push(k),
{
    let v = UniverseView { lobby: u.lobby, maps: u.maps.push((k, w)) };
    lemma_instances(u);
    lemma_instances(v);
    assert forall|s: int| 0 <= s < instances(v).len() implies instances(v)[s] == instances(u).push(w)[s] by {
        if s > 0 {
            assert(instances(v)[(s - 1) + 1] == v.maps[s - 1].1);
            if s < instances(u).len() {
                assert(instances(u)[(s - 1) + 1] == u.maps[s - 1].1);
            }
        }
    }
    assert(instances(v) =~= instances(u).push(w));
    assert(registry_keys(v) =~= registry_keys(u).push(k));
}

/// Detaching a client that only one instance holds touches that instance only.
proof fn lemma_detach_single(ws: Seq<WorldView>, s: int, id: u64)
    requires
        attached_at_most_once(ws),
        0 <= s < ws.len(),
        ws[s].members.contains_key(id),
    ensures
        detach_all(ws, id) == ws.update(s, ws[s].with_members(ws[s].members.remove(id))),
{
    assert forall|i: int| 0 <= i < ws.len() && i != s implies detach_all(ws, id)[i] == ws[i] by {
        assert(!ws[i].members.contains_key(id));
        assert(ws[i].members.remove(id) =~= ws[i].members);
    }
    assert(detach_all(ws, id) =~= ws.update(s, ws[s].with_members(ws[s].members.remove(id))));
}

/// A transfer is detach-then-attach. Between the two steps no instance holds
/// the client; afterwards exactly the target holds it, with the target's
/// placement, and every other client's membership is as it was. No client
/// ends up in two instances.
pub proof fn lemma_transfer_detach_before_attach(ws: Seq<WorldView>, id: u64, s: int, proto: crate::world::ProtoView)
    requires
        attached_at_most_once(ws),
        0 <= s < ws.len(),
        proto.id == id,
    ensures
        forall|i: int| 0 <= i < ws.len() ==> !(#[trigger] detach_all(ws, id)[i]).members.contains_key(id),
        moved(ws, id, s, proto)[s].members.contains_key(id),
        moved(ws, id, s, proto)[s].members[id] == joined(ws[s].policy, proto),
        forall|i: int| 0 <= i < ws.len() && i != s ==> !(#[trigger] moved(ws, id, s, proto)[i]).members.contains_key(id),
        forall|i: int, k: u64|
            0 <= i < ws.len() && k != id ==> (#[trigger] moved(ws, id, s, proto)[i].members.contains_key(k)
                <==> ws[i].members.contains_key(k)),
        attached_at_most_once(moved(ws, id, s, proto)),
{
    let f = moved(ws, id, s, proto);
    assert forall|i: int, j: int, k: u64|
        0 <= i < f.len() && 0 <= j < f.len() && #[trigger] f[i].members.contains_key(k)
            && #[trigger] f[j].members.contains_key(k) implies i == j by {
        if k != id {
            assert(ws[i].members.contains_key(k));
            assert(ws[j].members.contains_key(k));
        }
    }
}

/// The top-level container: the lobby every new client lands in, and the
/// registry of named instances.
pub struct BuildUniverse {
    lobby: World,
    maps: WorldMap,
}

impl View for BuildUniverse {
    type V = UniverseView;

    closed spec fn view(&self) -> UniverseView {
        UniverseView { lobby: self.lobby@, maps: self.maps@ }
    }
}

/// The lobby: six by twenty-four by six chunks under the lobby policy.
pub fn lobby_template() -> (r: WorldTemplate)
    ensures
        r == (WorldTemplate { policy: crate::policy::lobby_policy(), size_x: 6, size_y: 24, size_z: 6 }),
{
    WorldTemplate { policy: LobbyWorld::policy(), size_x: 6, size_y: 24, size_z: 6 }
}

pub open spec fn build_template_spec() -> WorldTemplate {
    WorldTemplate { policy: crate::policy::build_policy(), size_x: 1, size_y: 24, size_z: 1 }
}

/// A new build area: one by twenty-four by one chunks under the build policy.
pub fn build_template() -> (r: WorldTemplate)
    ensures
        r == build_template_spec(),
{
    WorldTemplate { policy: BuildWorld::policy(), size_x: 1, size_y: 24, size_z: 1 }
}

impl BuildUniverse {
    pub closed spec fn wf(&self) -> bool {
        &&& self.lobby.wf()
        &&& self.maps.wf()
        &&& attached_at_most_once(instances(self@))
    }

    /// A universe whose lobby the template makes, with an empty registry.
    pub fn new(lobby: &WorldTemplate) -> (r: Result<BuildUniverse, InstanceError>)
        ensures
            r is Ok <==> crate::registry::template_valid(*lobby),
            r matches Ok(u) ==> u.wf() && u@ == (UniverseView {
                lobby: crate::registry::created(*lobby),
                maps: Seq::empty(),
            }),
            r matches Err(e) ==> e == InstanceError::InvalidDimensions,
    {
        match lobby.create() {
            Ok(w) => {
                let u = BuildUniverse { lobby: w, maps: WorldMap::new() };
                proof {
                    lemma_instances(u@);
                }
                Ok(u)
            },
            Err(e) => Err(e),
        }
    }

    /// The number of entries in the registry.
    pub fn registry_len(&self) -> (r: usize)
        requires
            self.wf(),
        ensures
            r == self@.maps.len(),
    {
        self.maps.len()
    }

    /// The registry index of `key`, if an instance was created under it.
    pub fn find(&self, key: &String) -> (r: Option<usize>)
        requires
            self.wf(),
        ensures
            r is None <==> crate::registry::key_index(self@.maps, key@) is None,
            r matches Some(j) ==> crate::registry::key_index(self@.maps, key@) == Some(j as int),
    {
        self.maps.find(key)
    }

    pub fn world(&self, r: InstanceRef) -> (w: &World)
        requires
            self.wf(),
            valid_ref(self@, r),
        ensures
            w.wf(),
            w@ == instances(self@)[slot(r)],
    {
        proof {
            lemma_instances(self@);
        }
        match r {
            InstanceRef::Lobby => &self.lobby,
            InstanceRef::Keyed(i) => self.maps.get(i),
        }
    }

    /// The instance that holds `id`, if any.
    pub fn instance_of(&self, id: u64) -> (r: Option<InstanceRef>)
        requires
            self.wf(),
        ensures
            r is None <==> !attached(self@, id),
            r matches Some(x) ==> valid_ref(self@, x) && slot(x) == location(self@, id)
                && instances(self@)[slot(x)].members.contains_key(id),
    {
        proof {
            lemma_instances(self@);
        }
        if self.lobby.is_member(id) {
            return Some(InstanceRef::Lobby);
        }
        let n = self.maps.len();
        let mut i: usize = 0;
        while i < n
            invariant
                self.wf(),
                n == self@.maps.len(),
                i <= n,
                !instances(self@)[0].members.contains_key(id),
                forall|j: int| 0 <= j < i ==> !(#[trigger] self@.maps[j]).1.members.contains_key(id),
            decreases n - i,
        {
            if self.maps.get(i).is_member(id) {
                assert(instances(self@)[i + 1].members.contains_key(id));
                return Some(InstanceRef::Keyed(i));
            }
            i = i + 1;
        }
        proof {
            assert forall|s: int| 0 <= s < instances(self@).len() implies !#[trigger] instances(self@)[s].members.contains_key(id) by {
                if s > 0 {
                    assert(instances(self@)[(s - 1) + 1] == self@.maps[s - 1].1);
                }
            }
        }
        None
    }

    /// Ingress: a brand-new client always joins the lobby.
    pub fn handle_player_join(&mut self, proto: ProtoPlayer)
        requires
            old(self).wf(),
            !attached(old(self)@, proto.id),
        ensures
            final(self).wf(),
            final(self)@ == lobby_joined(old(self)@, proto@),
    {
        proof {
            lemma_instances(self@);
            assert(!instances(self@)[0].members.contains_key(proto.id));
        }
        let ghost ws = instances(self@);
        let ghost rec = joined(self@.lobby.policy, proto@);
        self.lobby.handle_player_join(proto);
        proof {
            lemma_instances_lobby(old(self)@, self@.lobby);
            assert(instances(self@) == attach(ws, 0, rec));
            self.lemma_attach_fresh(ws, 0, rec);
        }
    }

    proof fn lemma_attach_fresh(&self, ws: Seq<WorldView>, s: int, rec: PlayerView)
        requires
            attached_at_most_once(ws),
            0 <= s < ws.len(),
            forall|i: int| 0 <= i < ws.len() ==> !(#[trigger] ws[i]).members.contains_key(rec.id),
        ensures
            attached_at_most_once(attach(ws, s, rec)),
    {
        let f = attach(ws, s, rec);
        assert forall|i: int, j: int, k: u64|
            0 <= i < f.len() && 0 <= j < f.len() && #[trigger] f[i].members.contains_key(k)
                && #[trigger] f[j].members.contains_key(k) implies i == j by {
            if k != rec.id {
                assert(ws[i].members.contains_key(k));
                assert(ws[j].members.contains_key(k));
            }
        }
    }

    /// Moves an attached client to the target instance, creating a keyed
    /// target first where it does not exist. Where creation fails nothing
    /// changes. Otherwise the client is detached from its instance and then
    /// joins the target under the target's policy.
    pub fn transfer(&mut self, id: u64, target: TargetSelector) -> (r: Result<Transferred, TransferFailed>)
        requires
            old(self).wf(),
            attached(old(self)@, id),
        ensures
            final(self).wf(),
            r is Err <==> resolved(old(self)@, target).1 is Err,
            r matches Err(e) ==> final(self)@ == old(self)@ && resolved(old(self)@, target).1 == Err::<int, InstanceError>(
                match e {
                    TransferFailed::InstanceCreationFailed(c) => c,
                },
            ),
            r matches Ok(t) ==> {
                let (u1, s) = resolved(old(self)@, target);
                &&& valid_ref(final(self)@, t.instance)
                &&& s == Ok::<int, InstanceError>(slot(t.instance))
                &&& t.proto@ == proto_of(record_of(old(self)@, id))
                &&& registry_keys(final(self)@) == registry_keys(u1)
                &&& instances(final(self)@) == moved(instances(u1), id, slot(t.instance), t.proto@)
            },
    {
        let ghost u0 = self@;
        proof {
            lemma_instances(u0);
        }
        let dest = match target {
            TargetSelector::Lobby => InstanceRef::Lobby,
            TargetSelector::Keyed(key, template) => {
                match self.maps.get_or_create(&key, &template) {
                    Ok(i) => {
                        proof {
                            let gr = get_or_create_spec(u0.maps, key@, template).1;
                            assert(gr == Ok::<int, InstanceError>(i as int));
                            assert(resolved(u0, target).1 == Ok::<int, InstanceError>(i as int + 1));
                            if self@.maps.len() > u0.maps.len() {
                                assert(self@.maps == u0.maps.push((key@, crate::registry::created(template))));
                                lemma_instances_push(u0, key@, crate::registry::created(template));
                                let ws = instances(u0);
                                let w = crate::registry::created(template);
                                assert(instances(self@) == ws.push(w));
                                assert forall|a: int, b: int, k: u64|
                                    0 <= a < ws.push(w).len() && 0 <= b < ws.push(w).len()
                                        && #[trigger] ws.push(w)[a].members.contains_key(k)
                                        && #[trigger] ws.push(w)[b].members.contains_key(k) implies a == b by {
                                    assert(a < ws.len());
                                    assert(b < ws.len());
                                    assert(ws[a].members.contains_key(k));
                                }
                            } else {
                                assert(self@ == u0);
                            }
                        }
                        InstanceRef::Keyed(i)
                    },
                    Err(e) => {
                        assert(self@ == u0);
                        return Err(TransferFailed::InstanceCreationFailed(e));
                    },
                }
            },
        };
        let ghost u1 = self@;
        proof {
            lemma_instances(u1);
            assert(u1 == resolved(u0, target).0);
            // the client is still where it was: a created instance has no members
            assert(instances(u1)[location(u0, id)] == instances(u0)[location(u0, id)]);
        }
        let src = match self.instance_of(id) {
            Some(x) => x,
            None => {
                proof {
                    assert(instances(u1)[location(u0, id)].members.contains_key(id));
                }
                return unreached();
            },
        };
        proof {
            assert(slot(src) == location(u0, id));
            lemma_detach_single(instances(u1), slot(src), id);
        }
        let removed = match src {
            InstanceRef::Lobby => self.lobby.remove_player(id),
            InstanceRef::Keyed(i) => self.maps.remove_player(i, id),
        };
        let proto = match removed {
            Some(p) => p,
            None => {
                return unreached();
            },
        };
        let ghost u2 = self@;
        proof {
            match src {
                InstanceRef::Lobby => lemma_instances_lobby(u1, u2.lobby),
                InstanceRef::Keyed(i) => lemma_instances_entry(u1, u2.maps, i as int, u2.maps[i as int].1),
            }
            assert(instances(u2) == detach_all(instances(u1), id));
            lemma_transfer_detach_before_attach(instances(u1), id, slot(dest), proto@);
            lemma_instances(u2);
        }
        let hook = ProtoPlayer { id: proto.id, name: proto.name.clone(), gamemode: proto.gamemode, hardcore: proto.hardcore };
        match dest {
            InstanceRef::Lobby => self.lobby.handle_player_join(proto),
            InstanceRef::Keyed(j) => self.maps.handle_player_join(j, proto),
        }
        proof {
            match dest {
                InstanceRef::Lobby => lemma_instances_lobby(u2, self@.lobby),
                InstanceRef::Keyed(j) => lemma_instances_entry(u2, self@.maps, j as int, self@.maps[j as int].1),
            }
            assert(instances(self@) == moved(instances(u1), id, slot(dest), hook@));
            assert(valid_ref(self@, dest));
            assert(resolved(u0, target).1 == Ok::<int, InstanceError>(slot(dest)));
            assert(hook@ == proto_of(record_of(u0, id)));
            assert(registry_keys(self@) == registry_keys(u1));
        }
        Ok(Transferred { instance: dest, proto: hook })
    }

    /// The operator command that sends a client to the build area under `key`,
    /// creating it from the build template where it does not exist yet.
    pub fn load(&mut self, id: u64, key: String) -> (r: Result<Transferred, TransferFailed>)
        requires
            old(self).wf(),
            attached(old(self)@, id),
        ensures
            final(self).wf(),
            r is Ok,
            r matches Ok(t) ==> {
                let (u1, s) = resolved(old(self)@, TargetSelector::Keyed(key, build_template_spec()));
                &&& t.instance is Keyed
                &&& valid_ref(final(self)@, t.instance)
                &&& s == Ok::<int, InstanceError>(slot(t.instance))
                &&& t.proto@ == proto_of(record_of(old(self)@, id))
                &&& registry_keys(final(self)@) == registry_keys(u1)
                &&& instances(final(self)@) == moved(instances(u1), id, slot(t.instance), t.proto@)
            },
    {
        let ghost k = key;
        let r = self.transfer(id, TargetSelector::Keyed(key, build_template()));
        proof {
            let tgt = TargetSelector::Keyed(k, build_template_spec());
            assert(resolved(old(self)@, tgt).1 is Ok);
        }
        r
    }

    /// The operator command that resizes the instance a client is in. Every
    /// membership stays as it was; only that instance's bounds change.
    pub fn expand(&mut self, id: u64, dx: i64, dy: i64, dz: i64) -> (r: Result<(), ResizeError>)
        requires
            old(self).wf(),
            attached(old(self)@, id),
        ensures
            final(self).wf(),
            ({
                let s = location(old(self)@, id);
                let ws = instances(old(self)@);
                &&& r is Ok <==> expanded(ws[s].bounds, dx, dy, dz) is Some
                &&& r is Ok ==> instances(final(self)@) == ws.update(
                    s,
                    ws[s].with_bounds(expanded(ws[s].bounds, dx, dy, dz)->Some_0),
                )
                &&& r is Err ==> final(self)@ == old(self)@
                &&& registry_keys(final(self)@) == registry_keys(old(self)@)
            }),
    {
        let ghost u0 = self@;
        proof {
            lemma_instances(u0);
        }
        let src = match self.instance_of(id) {
            Some(x) => x,
            None => {
                return unreached();
            },
        };
        let r = match src {
            InstanceRef::Lobby => self.lobby.expand(dx, dy, dz),
            InstanceRef::Keyed(i) => self.maps.expand(i, dx, dy, dz),
        };
        proof {
            let ws = instances(u0);
            let s = slot(src);
            if r is Ok {
                match src {
                    InstanceRef::Lobby => lemma_instances_lobby(u0, self@.lobby),
                    InstanceRef::Keyed(i) => lemma_instances_entry(u0, self@.maps, i as int, self@.maps[i as int].1),
                }
                let f = instances(self@);
                assert forall|a: int, b: int, k: u64|
                    0 <= a < f.len() && 0 <= b < f.len() && #[trigger] f[a].members.contains_key(k)
                        && #[trigger] f[b].members.contains_key(k) implies a == b by {
                    assert(ws[a].members.contains_key(k));
                    assert(ws[b].members.contains_key(k));
                }
            }
        }
        r
    }

    /// One tick of the universe: every instance, the lobby and each registry
    /// entry, is ticked exactly once. Memberships do not change.
    pub fn tick(&mut self)
        requires
            old(self).wf(),
        ensures
            final(self).wf(),
            registry_keys(final(self)@) == registry_keys(old(self)@),
            instances(final(self)@).len() == instances(old(self)@).len(),
            forall|s: int|
                0 <= s < instances(old(self)@).len() ==> #[trigger] instances(final(self)@)[s]
                    == instances(old(self)@)[s].with_ticks(next_tick(instances(old(self)@)[s].ticks)),
    {
        let ghost u0 = self@;
        self.lobby.tick();
        self.maps.tick();
        proof {
            lemma_instances(u0);
            lemma_instances(self@);
            let ws = instances(u0);
            let f = instances(self@);
            assert forall|s: int| 0 <= s < ws.len() implies #[trigger] f[s] == ws[s].with_ticks(next_tick(ws[s].ticks)) by {
                if s > 0 {
                    assert(f[(s - 1) + 1] == self@.maps[s - 1].1);
                    assert(ws[(s - 1) + 1] == u0.maps[s - 1].1);
                }
            }
            assert forall|a: int, b: int, k: u64|
                0 <= a < f.len() && 0 <= b < f.len() && #[trigger] f[a].members.contains_key(k)
                    && #[trigger] f[b].members.contains_key(k) implies a == b by {
                assert(ws[a].members.contains_key(k));
                assert(ws[b].members.contains_key(k));
            }
            assert(registry_keys(self@) =~= registry_keys(u0));
        }
    }

    /// Whatever sequence of joins, transfers, resizes and ticks led to a
    /// well-formed universe, no client in it is a member of two instances.
    pub proof fn lemma_attached_at_most_once(&self)
        requires
            self.wf(),
        ensures
            attached_at_most_once(instances(self@)),
    {
    }

    /// The session record of a client, wherever it is attached.
    pub fn player(&self, id: u64) -> (r: Option<&Player>)
        requires
            self.wf(),
        ensures
            r is Some <==> attached(self@, id),
            r matches Some(p) ==> p@ == record_of(self@, id),
    {
        match self.instance_of(id) {
            Some(x) => self.world(x).player(id),
            None => None,
        }
    }

    /// Lets in the clients that arrived since the last tick, in order of
    /// arrival. An arrival whose id is already attached is dropped.
    pub fn handle_arrivals(&mut self, arrivals: Vec<ProtoPlayer>)
        requires
            old(self).wf(),
        ensures
            final(self).wf(),
            final(self)@ == arrivals_joined(old(self)@, arrivals@.map_values(|p: ProtoPlayer| p@)),
    {
        let ghost views = arrivals@.map_values(|p: ProtoPlayer| p@);
        let mut i: usize = 0;
        while i < arrivals.len()
            invariant
                self.wf(),
                i <= arrivals@.len(),
                views == arrivals@.map_values(|p: ProtoPlayer| p@),
                self@ == arrivals_joined(old(self)@, views.take(i as int)),
            decreases arrivals@.len() - i,
        {
            let a = &arrivals[i];
            let p = ProtoPlayer { id: a.id, name: a.name.clone(), gamemode: a.gamemode, hardcore: a.hardcore };
            assert(views.take(i + 1).drop_last() =~= views.take(i as int));
            assert(views.take(i + 1).last() == p@);
            if !self.is_attached(p.id) {
                self.handle_player_join(p);
            }
            i = i + 1;
        }
        assert(views.take(i as int) =~= views);
    }

    pub fn is_attached(&self, id: u64) -> (r: bool)
        requires
            self.wf(),
        ensures
            r == attached(self@, id),
    {
        self.instance_of(id).is_some()
    }
}

} // verus!
