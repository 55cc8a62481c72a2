use vstd::prelude::*;

use crate::policy::WorldPolicy;
use crate::world::{
    dimensions_valid, expanded, fresh_world, joined, next_tick, proto_of, InstanceError,
    ProtoPlayer, ResizeError, World, WorldView,
};

verus! {

/// The factory of a keyed instance: its policy and its size in chunks.
#[derive(Clone, Copy, Debug, PartialEq, Eq, Structural)]
pub struct WorldTemplate {
    pub policy: WorldPolicy,
    pub size_x: u64,
    pub size_y: u64,
    pub size_z: u64,
}

pub open spec fn template_valid(t: WorldTemplate) -> bool {
    dimensions_valid(t.size_x, t.size_y, t.size_z)
}

/// The instance a template makes.
pub open spec fn created(t: WorldTemplate) -> WorldView {
    fresh_world(t.policy, t.size_x, t.size_y, t.size_z)
}

impl WorldTemplate {
    pub fn create(&self) -> (r: Result<World, InstanceError>)
        ensures
            r is Ok <==> template_valid(*self),
            r matches Ok(w) ==> w.wf() && w@ == created(*self),
            r matches Err(e) ==> e == InstanceError::InvalidDimensions,
    {
        World::new_with_default_chunks(self.policy, self.size_x, self.size_y, self.size_z)
    }
}

pub open spec fn keys_unique(e: Seq<(Seq<char>, WorldView)>) -> bool {
    forall|i: int, j: int| 0 <= i < e.len() && 0 <= j < e.len() && e[i].0 == e[j].0 ==> i == j
}

/// Where `key` stands among the entries, if anywhere.
pub open spec fn key_index(e: Seq<(Seq<char>, WorldView)>, key: Seq<char>) -> Option<int> {
    if exists|i: int| 0 <= i < e.len() && e[i].0 == key {
        Some(choose|i: int| 0 <= i < e.len() && e[i].0 == key)
    } else {
        None
    }
}

/// Get-or-create on the abstract entries: the entries afterwards and the
/// index handed back. The template is used only where the key is absent.
pub open spec fn get_or_create_spec(e: Seq<(Seq<char>, WorldView)>, key: Seq<char>, t: WorldTemplate) -> (
    Seq<(Seq<char>, WorldView)>,
    Result<int, InstanceError>,
) {
    match key_index(e, key) {
        Some(i) => (e, Ok(i)),
        None => if template_valid(t) {
            (e.push((key, created(t))), Ok(e.len() as int))
        } else {
            (e, Err(InstanceError::InvalidDimensions))
        },
    }
}

/// The entries after `n` calls of get-or-create with the same key and template.
pub open spec fn repeated_calls(e: Seq<(Seq<char>, WorldView)>, key: Seq<char>, t: WorldTemplate, n: nat) -> Seq<
    (Seq<char>, WorldView),
>
    decreases n,
{
    if n == 0 {
        e
    } else {
        get_or_create_spec(repeated_calls(e, key, t, (n - 1) as nat), key, t).0
    }
}

/// Keys stay unique under get-or-create, and a second call with the same key
/// changes nothing and hands back what the first did, whatever its template.
pub proof fn lemma_get_or_create_stable(e: Seq<(Seq<char>, WorldView)>, key: Seq<char>, t1: WorldTemplate, t2: WorldTemplate)
    requires
        keys_unique(e),
    ensures
        keys_unique(get_or_create_spec(e, key, t1).0),
        get_or_create_spec(e, key, t1).1 is Ok ==> get_or_create_spec(get_or_create_spec(e, key, t1).0, key, t2)
            == get_or_create_spec(e, key, t1),
{
    let (e1, r1) = get_or_create_spec(e, key, t1);
    if key_index(e, key) is None && template_valid(t1) {
        assert(e1[e.len() as int].0 == key);
        assert(keys_unique(e1));
        assert(key_index(e1, key) == Some(e.len() as int));
    }
}

/// However many callers ask for the same key with the same factory, the
/// factory's instance is added at most once, only where the key was absent,
/// and every caller is handed the same result as the first.
pub proof fn lemma_get_or_create_once(e: Seq<(Seq<char>, WorldView)>, key: Seq<char>, t: WorldTemplate, n: nat)
    requires
        keys_unique(e),
        n >= 1,
    ensures
        repeated_calls(e, key, t, n) == get_or_create_spec(e, key, t).0,
        forall|k: nat|
            1 <= k <= n ==> #[trigger] get_or_create_spec(repeated_calls(e, key, t, (k - 1) as nat), key, t).1
                == get_or_create_spec(e, key, t).1,
    decreases n,
{
    lemma_get_or_create_stable(e, key, t, t);
    if n > 1 {
        lemma_get_or_create_once(e, key, t, (n - 1) as nat);
        let first = get_or_create_spec(e, key, t);
        assert(repeated_calls(e, key, t, (n - 1) as nat) == first.0);
        assert(get_or_create_spec(first.0, key, t) == first);
        assert(repeated_calls(e, key, t, n) == get_or_create_spec(first.0, key, t).0);
    } else {
        assert(repeated_calls(e, key, t, 0) == e);
        assert(repeated_calls(e, key, t, 1) == get_or_create_spec(e, key, t).0);
    }
}

/// The registry of keyed instances. Entries are created lazily and never
/// replaced or removed.
pub struct WorldMap {
    keys: Vec<String>,
    worlds: Vec<World>,
}

impl View for WorldMap {
    type V = Seq<(Seq<char>, WorldView)>;

    closed spec fn view(&self) -> Seq<(Seq<char>, WorldView)> {
        Seq::new(self.keys@.len(), |i: int| (self.keys@[i]@, self.worlds@[i]@))
    }
}

impl WorldMap {
    /// Keys are unique and every instance is well formed.
    pub closed spec fn wf(&self) -> bool {
        &&& self.keys@.len() == self.worlds@.len()
        &&& keys_unique(self@)
        &&& forall|i: int| 0 <= i < self.worlds@.len() ==> (#[trigger] self.worlds@[i]).wf()
    }

    pub fn new() -> (r: WorldMap)
        ensures
            r.wf(),
            r@ == Seq::<(Seq<char>, WorldView)>::empty(),
    {
        let r = WorldMap { keys: Vec::new(), worlds: Vec::new() };
        assert(r@ =~= Seq::<(Seq<char>, WorldView)>::empty());
        r
    }

    pub fn len(&self) -> (r: usize)
        requires
            self.wf(),
        ensures
            r == self@.len(),
    {
        self.keys.len()
    }

    /// The index of `key`, if an instance has been created under it.
    pub fn find(&self, key: &String) -> (r: Option<usize>)
        requires
            self.wf(),
        ensures
            r is None <==> key_index(self@, key@) is None,
            r matches Some(j) ==> key_index(self@, key@) == Some(j as int),
    {
        let mut i: usize = 0;
        while i < self.keys.len()
            invariant
                self.wf(),
                i <= self.keys@.len(),
                forall|j: int| 0 <= j < i ==> self@[j].0 != key@,
            decreases self.keys@.len() - i,
        {
            if self.keys[i] == *key {
                assert(self@[i as int].0 == key@);
                return Some(i);
            }
            i = i + 1;
        }
        None
    }

    pub fn get(&self, i: usize) -> (r: &World)
        requires
            self.wf(),
            i < self@.len(),
        ensures
            r.wf(),
            r@ == self@[i as int].1,
    {
        &self.worlds[i]
    }

    /// The instance under `key`, made by `template` only if there is none yet.
    /// Where the template cannot make one, nothing is inserted.
    pub fn get_or_create(&mut self, key: &String, template: &WorldTemplate) -> (r: Result<usize, InstanceError>)
        requires
            old(self).wf(),
        ensures
            final(self).wf(),
            final(self)@ == get_or_create_spec(old(self)@, key@, *template).0,
            match get_or_create_spec(old(self)@, key@, *template).1 {
                Ok(i) => r matches Ok(j) && j == i,
                Err(e) => r == Err::<usize, InstanceError>(e),
            },
    {
        match self.find(key) {
            Some(i) => Ok(i),
            None => {
                match template.create() {
                    Ok(w) => {
                        let n = self.keys.len();
                        self.keys.push(key.clone());
                        self.worlds.push(w);
                        assert(self@ =~= old(self)@.push((key@, created(*template))));
                        assert(keys_unique(self@)) by {
                            lemma_get_or_create_stable(old(self)@, key@, *template, *template);
                        }
                        assert forall|j: int| 0 <= j < self.worlds@.len() implies (#[trigger] self.worlds@[j]).wf() by {
                            if j < n {
                                assert(self.worlds@[j] == old(self).worlds@[j]);
                            }
                        }
                        Ok(n)
                    },
                    Err(e) => Err(e),
                }
            },
        }
    }

    /// The join policy of the instance at `i`.
    pub fn handle_player_join(&mut self, i: usize, proto: ProtoPlayer)
        requires
            old(self).wf(),
            i < old(self)@.len(),
            !old(self)@[i as int].1.members.contains_key(proto.id),
        ensures
            final(self).wf(),
            final(self)@ == old(self)@.update(
                i as int,
                (
                    old(self)@[i as int].0,
                    old(self)@[i as int].1.with_members(
                        old(self)@[i as int].1.members.insert(proto.id, joined(old(self)@[i as int].1.policy, proto@)),
                    ),
                ),
            ),
    {
        self.worlds[i].handle_player_join(proto);
        proof {
            self.lemma_update_wf(*old(self), i as int);
        }
    }

    /// Detaches `id` from the instance at `i`.
    pub fn remove_player(&mut self, i: usize, id: u64) -> (r: Option<ProtoPlayer>)
        requires
            old(self).wf(),
            i < old(self)@.len(),
        ensures
            final(self).wf(),
            r is Some <==> old(self)@[i as int].1.members.contains_key(id),
            r matches Some(p) ==> p@ == proto_of(old(self)@[i as int].1.members[id]) && p.id == id,
            final(self)@ == old(self)@.update(
                i as int,
                (old(self)@[i as int].0, old(self)@[i as int].1.with_members(old(self)@[i as int].1.members.remove(id))),
            ),
    {
        let r = self.worlds[i].remove_player(id);
        proof {
            self.lemma_update_wf(*old(self), i as int);
        }
        r
    }

    /// Resizes the instance at `i`.
    pub fn expand(&mut self, i: usize, dx: i64, dy: i64, dz: i64) -> (r: Result<(), ResizeError>)
        requires
            old(self).wf(),
            i < old(self)@.len(),
        ensures
            final(self).wf(),
            r is Ok <==> expanded(old(self)@[i as int].1.bounds, dx, dy, dz) is Some,
            r is Ok ==> final(self)@ == old(self)@.update(
                i as int,
                (
                    old(self)@[i as int].0,
                    old(self)@[i as int].1.with_bounds(expanded(old(self)@[i as int].1.bounds, dx, dy, dz)->Some_0),
                ),
            ),
            r is Err ==> final(self)@ == old(self)@,
    {
        let r = self.worlds[i].expand(dx, dy, dz);
        proof {
            self.lemma_update_wf(*old(self), i as int);
            if r is Err {
                assert(self@ =~= old(self)@);
            }
        }
        r
    }

    /// Ticks every instance once.
    pub fn tick(&mut self)
        requires
            old(self).wf(),
        ensures
            final(self).wf(),
            final(self)@.len() == old(self)@.len(),
            forall|j: int|
                0 <= j < old(self)@.len() ==> #[trigger] final(self)@[j] == (
                    old(self)@[j].0,
                    old(self)@[j].1.with_ticks(next_tick(old(self)@[j].1.ticks)),
                ),
    {
        let mut i: usize = 0;
        while i < self.worlds.len()
            invariant
                self.keys == old(self).keys,
                self.worlds@.len() == old(self).worlds@.len(),
                old(self).wf(),
                0 <= i <= self.worlds@.len(),
                forall|j: int| 0 <= j < self.worlds@.len() ==> (#[trigger] self.worlds@[j]).wf(),
                forall|j: int|
                    0 <= j < i ==> #[trigger] self.worlds@[j]@ == old(self).worlds@[j]@.with_ticks(
                        next_tick(old(self).worlds@[j]@.ticks),
                    ),
                forall|j: int| i <= j < self.worlds@.len() ==> #[trigger] self.worlds@[j] == old(self).worlds@[j],
            decreases self.worlds@.len() - i,
        {
            self.worlds[i].tick();
            i = i + 1;
        }
        assert(forall|j: int| 0 <= j < self@.len() ==> #[trigger] self@[j].0 == old(self)@[j].0);
    }

    proof fn lemma_update_wf(&self, prev: WorldMap, i: int)
        requires
            prev.wf(),
            0 <= i < prev@.len(),
            self.keys == prev.keys,
            self.worlds@.len() == prev.worlds@.len(),
            self.worlds@[i].wf(),
            forall|j: int| 0 <= j < prev.worlds@.len() && j != i ==> self.worlds@[j] == prev.worlds@[j],
        ensures
            self.wf(),
            self@ == prev@.update(i, (prev@[i].0, self.worlds@[i]@)),
    {
        assert(self@ =~= prev@.update(i, (prev@[i].0, self.worlds@[i]@)));
        assert forall|a: int, b: int| 0 <= a < self@.len() && 0 <= b < self@.len() && self@[a].0 == self@[b].0 implies a == b by {
            assert(self@[a].0 == prev@[a].0);
            assert(self@[b].0 == prev@[b].0);
        }
        assert forall|j: int| 0 <= j < self.worlds@.len() implies (#[trigger] self.worlds@[j]).wf() by {
            if j != i {
                assert(self.worlds@[j] == prev.worlds@[j]);
            }
        }
    }
}

} // verus!
