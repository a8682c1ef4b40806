//! A game played on this machine: its objects, found by id, and the object ids it hands
//! out.
use vstd::prelude::*;
use std::collections::{HashMap, VecDeque};
use crate::ids::{ObjectId, object_id_from, wrapping_next, lemma_object_id_from, lemma_object_id_ext};
use crate::serializeable::{RemoteObject, GlobalLightingInfo};

verus! {

broadcast use {vstd::std_specs::hash::group_hash_axioms, lemma_object_id_from, lemma_object_id_ext};

/// Statistics of a game (none are kept yet).
pub struct GameStats {}

/// The player of this machine: its object id and where it starts (the bits, as
/// `f64::to_bits` gives them, of the three coordinates).
#[derive(Clone, Copy, Debug)]
pub struct PlayerStats {
    pub pid: ObjectId,
    pub spawn_pos: [u64; 3],
}

/// The objects of a local game, an index from object id to position, the next object id
/// it will hand out and the id ranges requested and not yet collected.
pub struct LocalGameController {
    last_id: ObjectId,
    objects: Vec<RemoteObject>,
    indices: HashMap<u32, usize>,
    requested_ids: VecDeque<(ObjectId, ObjectId)>,
    lighting: GlobalLightingInfo,
    player: PlayerStats,
}

/// A local game as values.
pub ghost struct ControllerView {
    pub last_id: ObjectId,
    pub objects: Seq<RemoteObject>,
    pub indices: Map<u32, usize>,
    pub requested_ids: Seq<(ObjectId, ObjectId)>,
}

impl View for LocalGameController {
    type V = ControllerView;

    closed spec fn view(&self) -> ControllerView {
        ControllerView {
            last_id: self.last_id,
            objects: self.objects@,
            indices: self.indices@,
            requested_ids: self.requested_ids@,
        }
    }
}

/// Every index entry that points into the objects points at an object with its id.
pub open spec fn indices_consistent(s: ControllerView) -> bool {
    forall|id: u32|
        #[trigger] s.indices.contains_key(id) && (s.indices[id] as int) < s.objects.len() ==> s.objects[s.indices[id] as int].id@ == id
}

/// The object with id `id`, if the index points at one.
pub open spec fn lookup(s: ControllerView, id: u32) -> Option<RemoteObject> {
    if s.indices.contains_key(id) && (s.indices[id] as int) < s.objects.len() {
        Some(s.objects[s.indices[id] as int])
    } else {
        None
    }
}

/// Whether setting `obj` stays within the objects: its id is not indexed, or indexed at
/// an object.
pub open spec fn can_set(s: ControllerView, obj: RemoteObject) -> bool {
    s.indices.contains_key(obj.id@) ==> (s.indices[obj.id@] as int) < s.objects.len()
}

/// Sets `obj`: it replaces the object its id is indexed at, or is added at the end.
pub open spec fn set_one(s: ControllerView, obj: RemoteObject) -> ControllerView {
    if s.indices.contains_key(obj.id@) {
        ControllerView { objects: s.objects.update(s.indices[obj.id@] as int, obj), ..s }
    } else {
        ControllerView {
            objects: s.objects.push(obj),
            indices: s.indices.insert(obj.id@, s.objects.len() as usize),
            ..s
        }
    }
}

/// Sets `objs` one after the other.
pub open spec fn set_all(s: ControllerView, objs: Seq<RemoteObject>) -> ControllerView
    decreases objs.len(),
{
    if objs.len() == 0 {
        s
    } else {
        set_one(set_all(s, objs.drop_last()), objs.last())
    }
}

/// Whether setting `objs` one after the other stays within the objects.
pub open spec fn can_set_all(s: ControllerView, objs: Seq<RemoteObject>) -> bool
    decreases objs.len(),
{
    objs.len() == 0 || (can_set_all(s, objs.drop_last()) && can_set(
        set_all(s, objs.drop_last()),
        objs.last(),
    ))
}

/// Whether removing `id` stays within the objects: it is not indexed, or indexed at an
/// object.
pub open spec fn can_remove(s: ControllerView, id: u32) -> bool {
    s.indices.contains_key(id) ==> (s.indices[id] as int) < s.objects.len()
}

/// Removes the object `id` is indexed at: the last object takes its place and the last
/// object's id is indexed there (when there was more than one object).
pub open spec fn remove_one(s: ControllerView, id: u32) -> ControllerView {
    if s.indices.contains_key(id) {
        let index = s.indices[id];
        let indices = s.indices.remove(id);
        ControllerView {
            objects: s.objects.update(index as int, s.objects.last()).drop_last(),
            indices: if s.objects.len() > 1 {
                indices.insert(s.objects.last().id@, index)
            } else {
                indices
            },
            ..s
        }
    } else {
        s
    }
}

/// Removes `ids` one after the other.
pub open spec fn remove_all(s: ControllerView, ids: Seq<ObjectId>) -> ControllerView
    decreases ids.len(),
{
    if ids.len() == 0 {
        s
    } else {
        remove_one(remove_all(s, ids.drop_last()), ids.last()@)
    }
}

/// Whether removing `ids` one after the other stays within the objects.
pub open spec fn can_remove_all(s: ControllerView, ids: Seq<ObjectId>) -> bool
    decreases ids.len(),
{
    ids.len() == 0 || (can_remove_all(s, ids.drop_last()) && can_remove(
        remove_all(s, ids.drop_last()),
        ids.last()@,
    ))
}

/// The index of freshly loaded objects: each id at the position of its last object.
pub open spec fn initial_indices(objs: Seq<RemoteObject>) -> Map<u32, usize>
    decreases objs.len(),
{
    if objs.len() == 0 {
        Map::empty()
    } else {
        initial_indices(objs.drop_last()).insert(objs.last().id@, (objs.len() - 1) as usize)
    }
}

/// No two objects have the same id.
pub open spec fn ids_unique(objs: Seq<RemoteObject>) -> bool {
    forall|i: int, j: int| 0 <= i < j < objs.len() ==> #[trigger] objs[i].id != #[trigger] objs[j].id
}

/// Every object is indexed at its own position, no two objects share an id, and every
/// index entry that points into the objects is right.
pub open spec fn well_indexed(s: ControllerView) -> bool {
    &&& indices_consistent(s)
    &&& ids_unique(s.objects)
    &&& forall|k: int|
        0 <= k < s.objects.len() ==> #[trigger] s.indices.contains_key(s.objects[k].id@)
            && s.indices[s.objects[k].id@] as int == k
}

/// Setting an object makes it the one found under its id, and changes no other lookup,
/// as long as every index entry that points into the objects is right and none points
/// just past the last object.
pub proof fn lemma_set_then_lookup(s: ControllerView, obj: RemoteObject, x: u32)
    requires
        indices_consistent(s),
        can_set(s, obj),
        s.objects.len() <= usize::MAX,
        forall|id: u32| #[trigger] s.indices.contains_key(id) ==> s.indices[id] as int != s.objects.len(),
    ensures
        lookup(set_one(s, obj), x) == if x == obj.id@ {
            Some(obj)
        } else {
            lookup(s, x)
        },
{
    let t = set_one(s, obj);
    let n = s.objects.len();
    if s.indices.contains_key(obj.id@) {
        let idx = s.indices[obj.id@];
        assert(s.objects[idx as int].id@ == obj.id@);
        if x != obj.id@ && s.indices.contains_key(x) && (s.indices[x] as int) < n {
            assert(s.objects[s.indices[x] as int].id@ == x);
            assert(t.objects[s.indices[x] as int] == s.objects[s.indices[x] as int]);
        }
    } else {
        if x != obj.id@ && s.indices.contains_key(x) {
            assert(t.indices[x] == s.indices[x]);
            if (s.indices[x] as int) < n {
                assert(t.objects[s.indices[x] as int] == s.objects[s.indices[x] as int]);
            } else {
                assert(s.indices[x] != n);
            }
        }
    }
}

/// Removing an object leaves nothing found under its id and changes no other lookup, as
/// long as the objects are well indexed.
pub proof fn lemma_remove_then_lookup(s: ControllerView, id: u32, x: u32)
    requires
        well_indexed(s),
        can_remove(s, id),
    ensures
        lookup(remove_one(s, id), x) == if x == id {
            None
        } else {
            lookup(s, x)
        },
{
    if s.indices.contains_key(id) {
        let t = remove_one(s, id);
        let index = s.indices[id];
        let n = s.objects.len();
        let last = s.objects.last().id@;
        assert(s.objects[index as int].id@ == id);
        assert(s.indices.contains_key(s.objects[n - 1].id@) && s.indices[s.objects[n - 1].id@] == n - 1);
        if last == id {
            assert(index == n - 1);
        }
        if x != id && x == last && n > 1 {
            assert(t.indices[x] == index);
            assert(t.objects[index as int] == s.objects[n - 1]);
        }
        if x != id && x != last && s.indices.contains_key(x) {
            let v = s.indices[x];
            assert(t.indices[x] == v);
            if (v as int) < n {
                assert(s.objects[v as int].id@ == x);
                assert(v != index);
                assert(v as int != n - 1);
                assert(t.objects[v as int] == s.objects[v as int]);
            }
        }
    }
}

/// In well indexed objects, the id of the object at `k` is indexed at `k`.
proof fn lemma_indexed_at(s: ControllerView, k: int)
    requires
        well_indexed(s),
        0 <= k < s.objects.len(),
    ensures
        s.indices.contains_key(s.objects[k].id@),
        s.indices[s.objects[k].id@] as int == k,
{
    assert(s.indices.contains_key(s.objects[k].id@));
}

/// Freshly loaded objects with distinct ids are well indexed, and no index entry points
/// past the last object.
pub proof fn lemma_initial_well_indexed(objs: Seq<RemoteObject>, s: ControllerView)
    requires
        ids_unique(objs),
        objs.len() <= usize::MAX,
        s.objects == objs,
        s.indices == initial_indices(objs),
    ensures
        well_indexed(s),
        forall|id: u32| #[trigger] s.indices.contains_key(id) ==> (s.indices[id] as int) < s.objects.len(),
    decreases objs.len(),
{
    if objs.len() > 0 {
        let init = objs.drop_last();
        let t = ControllerView { objects: init, indices: initial_indices(init), ..s };
        assert(ids_unique(init)) by {
            assert forall|i: int, j: int| 0 <= i < j < init.len() implies #[trigger] init[i].id
                != #[trigger] init[j].id by {
                assert(init[i] == objs[i] && init[j] == objs[j]);
            }
        }
        lemma_initial_well_indexed(init, t);
        let n = objs.len();
        let last = objs.last().id@;
        assert forall|k: int| 0 <= k < n implies #[trigger] s.indices.contains_key(s.objects[k].id@)
            && s.indices[s.objects[k].id@] as int == k by {
            if k < n - 1 {
                assert(objs[k] == init[k]);
                assert(objs[k].id != objs[n - 1].id);
                lemma_indexed_at(t, k);
            }
        }
        assert forall|id: u32|
            #[trigger] s.indices.contains_key(id) && (s.indices[id] as int) < s.objects.len() implies s.objects[s.indices[id] as int].id@
            == id by {
            if id != last {
                assert(t.indices.contains_key(id));
                assert(init[t.indices[id] as int] == objs[t.indices[id] as int]);
            }
        }
    }
}

/// Setting an object keeps the objects well indexed, as long as no index entry points
/// just past the last object.
#[verifier::spinoff_prover]
pub proof fn lemma_set_keeps_well_indexed(s: ControllerView, obj: RemoteObject)
    requires
        well_indexed(s),
        can_set(s, obj),
        s.objects.len() < usize::MAX,
        forall|id: u32| #[trigger] s.indices.contains_key(id) ==> s.indices[id] as int != s.objects.len(),
    ensures
        well_indexed(set_one(s, obj)),
{
    let t = set_one(s, obj);
    let n = s.objects.len();
    if s.indices.contains_key(obj.id@) {
        let idx = s.indices[obj.id@];
        assert(s.objects[idx as int].id@ == obj.id@);
        assert(t.objects.len() == n);
        assert forall|i: int, j: int| 0 <= i < j < t.objects.len() implies #[trigger] t.objects[i].id
            != #[trigger] t.objects[j].id by {
            assert(s.objects[i].id != s.objects[j].id);
        }
        assert forall|k: int| 0 <= k < n implies #[trigger] t.indices.contains_key(t.objects[k].id@)
            && t.indices[t.objects[k].id@] as int == k by {
            assert(s.indices.contains_key(s.objects[k].id@));
        }
        assert forall|id: u32|
            #[trigger] t.indices.contains_key(id) && (t.indices[id] as int) < t.objects.len() implies t.objects[t.indices[id] as int].id@
            == id by {
            assert(s.objects[s.indices[id] as int].id@ == id);
        }
        assert(well_indexed(t));
    } else {
        assert forall|k: int| 0 <= k < n implies s.objects[k].id@ != obj.id@ by {
            assert(s.indices.contains_key(s.objects[k].id@));
        }
        assert forall|i: int, j: int| 0 <= i < j < t.objects.len() implies #[trigger] t.objects[i].id
            != #[trigger] t.objects[j].id by {
            if j == n {
                assert(s.objects[i].id@ != obj.id@);
            } else {
                assert(s.objects[i].id != s.objects[j].id);
            }
        }
        assert forall|k: int| 0 <= k < t.objects.len() implies #[trigger] t.indices.contains_key(t.objects[k].id@)
            && t.indices[t.objects[k].id@] as int == k by {
            if k < n {
                assert(s.indices.contains_key(s.objects[k].id@));
                assert(s.objects[k].id@ != obj.id@);
            }
        }
        assert forall|id: u32|
            #[trigger] t.indices.contains_key(id) && (t.indices[id] as int) < t.objects.len() implies t.objects[t.indices[id] as int].id@
            == id by {
            if id != obj.id@ {
                assert(s.indices.contains_key(id));
                assert(s.indices[id] != n);
                assert(s.objects[s.indices[id] as int].id@ == id);
            }
        }
        assert(well_indexed(t));
    }
}

/// Removing an object keeps the objects well indexed.
#[verifier::spinoff_prover]
pub proof fn lemma_remove_keeps_well_indexed(s: ControllerView, id: u32)
    requires
        well_indexed(s),
        can_remove(s, id),
    ensures
        well_indexed(remove_one(s, id)),
{
    if s.indices.contains_key(id) {
        let t = remove_one(s, id);
        let index = s.indices[id];
        let n = s.objects.len();
        let last = s.objects[n - 1].id@;
        assert(s.objects[index as int].id@ == id);
        lemma_indexed_at(s, n - 1);
        assert forall|i: int, j: int| 0 <= i < j < t.objects.len() implies #[trigger] t.objects[i].id
            != #[trigger] t.objects[j].id by {
            if i == index {
                assert(s.objects[n - 1].id != s.objects[j].id);
            } else if j == index {
                assert(s.objects[i].id != s.objects[n - 1].id);
            } else {
                assert(s.objects[i].id != s.objects[j].id);
            }
        }
        assert forall|k: int| 0 <= k < t.objects.len() implies #[trigger] t.indices.contains_key(t.objects[k].id@)
            && t.indices[t.objects[k].id@] as int == k by {
            if k != index {
                assert(s.indices.contains_key(s.objects[k].id@));
                assert(s.objects[k].id != s.objects[index as int].id);
                assert(s.objects[k].id != s.objects[n - 1].id);
            }
        }
        assert forall|x: u32|
            #[trigger] t.indices.contains_key(x) && (t.indices[x] as int) < t.objects.len() implies t.objects[t.indices[x] as int].id@
            == x by {
            if x != last || n <= 1 {
                assert(x != id);
                let v = s.indices[x];
                assert(s.objects[v as int].id@ == x);
                assert(v != index);
            }
        }
    }
}

impl LocalGameController {
    /// A game on `objs`, the map's objects: each id is indexed at the position of its last
    /// object; the player is the last object (id 0 if there is none) and ids are handed
    /// out from the one after it.
    pub fn new(objs: Vec<RemoteObject>, lighting: GlobalLightingInfo) -> (res: LocalGameController)
        ensures
            res@.objects == objs@,
            res@.indices == initial_indices(objs@),
            res@.requested_ids == Seq::<(ObjectId, ObjectId)>::empty(),
            res.player_spec().pid@ == (if objs@.len() == 0 {
                0
            } else {
                objs@.last().id@
            }),
            res.player_spec().spawn_pos@ == seq![0u64, 0u64, 0u64],
            res@.last_id@ == wrapping_next(res.player_spec().pid@, 1),
            res.lighting_view() == lighting@,
    {
        let mut indices: HashMap<u32, usize> = HashMap::new();
        let mut i: usize = 0;
        while i < objs.len()
            invariant
                i <= objs@.len(),
                indices@ == initial_indices(objs@.take(i as int)),
            decreases objs@.len() - i,
        {
            assert(objs@.take(i + 1).drop_last() =~= objs@.take(i as int));
            indices.insert(objs[i].id.as_underlying_type(), i);
            i = i + 1;
        }
        assert(objs@.take(i as int) =~= objs@);
        let player_id = if objs.len() > 0 {
            objs[objs.len() - 1].id
        } else {
            ObjectId::default()
        };
        LocalGameController {
            last_id: player_id.next(),
            objects: objs,
            indices,
            requested_ids: VecDeque::new(),
            lighting,
            player: PlayerStats { pid: player_id, spawn_pos: [0u64, 0u64, 0u64] },
        }
    }

    /// The objects a client starts a remote game with: its own player first, then the
    /// objects the server answered its first update with, and the index of each id at the
    /// position of its last object.
    pub fn initial_remote_objects(player: RemoteObject, objs: Vec<RemoteObject>) -> (res: (
        Vec<RemoteObject>,
        HashMap<u32, usize>,
    ))
        ensures
            res.0@ == seq![player] + objs@,
            res.1@ == initial_indices(res.0@),
    {
        let mut objects: Vec<RemoteObject> = Vec::new();
        let mut indices: HashMap<u32, usize> = HashMap::new();
        objects.push(player);
        indices.insert(player.id.as_underlying_type(), 0);
        let ghost all = seq![player] + objs@;
        assert(all.take(1).drop_last() =~= Seq::<RemoteObject>::empty());
        assert(all.take(1).last() == player);
        assert(all.take(1).len() == 1);
        assert(initial_indices(Seq::<RemoteObject>::empty()) == Map::<u32, usize>::empty());
        assert(initial_indices(all.take(1)) == initial_indices(all.take(1).drop_last()).insert(
            player.id@,
            0,
        ));
        assert(initial_indices(all.take(1)) =~= Map::<u32, usize>::empty().insert(player.id@, 0));
        assert(objects@ =~= all.take(1));
        let mut i: usize = 0;
        while i < objs.len()
            invariant
                i <= objs@.len(),
                all == seq![player] + objs@,
                objects@ == all.take(i + 1),
                indices@ == initial_indices(all.take(i + 1)),
            decreases objs@.len() - i,
        {
            assert(all.take(i + 2).drop_last() =~= all.take(i + 1));
            assert(all[i + 1] == objs@[i as int]);
            let obj = objs[i];
            indices.insert(obj.id.as_underlying_type(), objects.len());
            objects.push(obj);
            assert(objects@ =~= all.take(i + 2));
            i = i + 1;
        }
        assert(all.take(i + 1) =~= all);
        (objects, indices)
    }

    /// The lighting of the game's map.
    pub closed spec fn lighting_view(&self) -> crate::serializeable::LightingView {
        self.lighting@
    }

    /// The game's objects.
    pub fn get_game_objects(&self) -> (res: &[RemoteObject])
        ensures
            res@ == self@.objects,
    {
        self.objects.as_slice()
    }

    /// The game's statistics.
    pub fn get_game_stats(&self) -> (res: GameStats) {
        GameStats {}
    }

    /// The player of this machine.
    pub fn get_player_stats(&self) -> (res: PlayerStats)
        ensures
            res == self.player_spec(),
    {
        self.player
    }

    /// The player of this machine, as the game holds it.
    pub closed spec fn player_spec(&self) -> PlayerStats {
        self.player
    }

    /// The lighting of the game's map.
    pub fn get_lighting_info(&self) -> (res: &GlobalLightingInfo)
        ensures
            res@ == self.lighting_view(),
    {
        &self.lighting
    }

    /// The position `id` is indexed at, if it is indexed; the position may lie past the
    /// last object.
    pub fn object_index(&self, id: ObjectId) -> (res: Option<usize>)
        ensures
            res == (if self@.indices.contains_key(id@) {
                Some(self@.indices[id@])
            } else {
                None::<usize>
            }),
    {
        match self.indices.get(&id.as_underlying_type()) {
            Some(i) => Some(*i),
            None => None,
        }
    }

    /// Sets each of `objects` in turn: an object replaces the object its id is indexed at,
    /// or is added at the end and indexed there.
    pub fn set_objects(&mut self, objects: &[RemoteObject])
        requires
            can_set_all(old(self)@, objects@),
        ensures
            final(self)@ == set_all(old(self)@, objects@),
            final(self).player_spec() == old(self).player_spec(),
            final(self).lighting_view() == old(self).lighting_view(),
    {
        let ghost s = self@;
        let mut i: usize = 0;
        while i < objects.len()
            invariant
                i <= objects@.len(),
                can_set_all(s, objects@),
                self@ == set_all(s, objects@.take(i as int)),
                self.player_spec() == old(self).player_spec(),
                self.lighting_view() == old(self).lighting_view(),
            decreases objects@.len() - i,
        {
            let ghost before = self@;
            proof {
                assert(objects@.take(i + 1).drop_last() =~= objects@.take(i as int));
                lemma_can_set_prefix(s, objects@, i + 1);
            }
            let obj = objects[i];
            let key = obj.id.as_underlying_type();
            match self.indices.get(&key) {
                Some(idx) => {
                    let idx = *idx;
                    self.objects.set(idx, obj);
                },
                None => {
                    let len = self.objects.len();
                    self.indices.insert(key, len);
                    self.objects.push(obj);
                },
            }
            assert(self@ == set_one(before, obj));
            i = i + 1;
        }
        assert(objects@.take(i as int) =~= objects@);
    }

    /// Whether `set_objects(objects)` stays within the objects.
    pub fn can_set_objects(&self, objects: &[RemoteObject]) -> (res: bool)
        requires
            self@.objects.len() + objects@.len() <= usize::MAX,
        ensures
            res == can_set_all(self@, objects@),
    {
        let ghost s = self@;
        let mut indices = self.indices.clone();
        let mut len: usize = self.objects.len();
        let mut i: usize = 0;
        while i < objects.len()
            invariant
                i <= objects@.len(),
                s == self@,
                can_set_all(s, objects@.take(i as int)),
                indices@ == set_all(s, objects@.take(i as int)).indices,
                len == set_all(s, objects@.take(i as int)).objects.len(),
                len <= s.objects.len() + i,
                s.objects.len() + objects@.len() <= usize::MAX,
            decreases objects@.len() - i,
        {
            assert(objects@.take(i + 1).drop_last() =~= objects@.take(i as int));
            let key = objects[i].id.as_underlying_type();
            match indices.get(&key) {
                Some(idx) => {
                    if *idx >= len {
                        proof {
                            lemma_cannot_set_longer(s, objects@, i + 1);
                        }
                        return false;
                    }
                },
                None => {
                    indices.insert(key, len);
                    len = len + 1;
                },
            }
            i = i + 1;
        }
        assert(objects@.take(i as int) =~= objects@);
        true
    }

    /// Removes each of `ids` in turn: an indexed id is dropped from the index, the last
    /// object takes the place of its object and, when there was more than one object, the
    /// last object's id is indexed at that place.
    pub fn remove_objects(&mut self, ids: &[ObjectId])
        requires
            can_remove_all(old(self)@, ids@),
        ensures
            final(self)@ == remove_all(old(self)@, ids@),
            final(self).player_spec() == old(self).player_spec(),
            final(self).lighting_view() == old(self).lighting_view(),
    {
        let ghost s = self@;
        let mut i: usize = 0;
        while i < ids.len()
            invariant
                i <= ids@.len(),
                can_remove_all(s, ids@),
                self@ == remove_all(s, ids@.take(i as int)),
                self.player_spec() == old(self).player_spec(),
                self.lighting_view() == old(self).lighting_view(),
            decreases ids@.len() - i,
        {
            let ghost before = self@;
            proof {
                assert(ids@.take(i + 1).drop_last() =~= ids@.take(i as int));
                lemma_can_remove_prefix(s, ids@, i + 1);
            }
            let key = ids[i].as_underlying_type();
            match self.indices.remove(&key) {
                Some(index) => {
                    assert(before.indices.contains_key(key) && before.indices[key] == index);
                    assert(self.indices@ == before.indices.remove(key));
                    if self.objects.len() > 1 {
                        let last_index = self.objects.len() - 1;
                        let last_id = self.objects[last_index].id.as_underlying_type();
                        self.indices.insert(last_id, index);
                    }
                    self.objects.swap_remove(index);
                    assert(self@.objects == remove_one(before, key).objects);
                    assert(self@.indices == remove_one(before, key).indices);
                },
                None => {
                    assert(self.indices@ =~= before.indices);
                },
            }
            assert(self@ == remove_one(before, key));
            i = i + 1;
        }
        assert(ids@.take(i as int) =~= ids@);
    }

    /// Whether `remove_objects(ids)` stays within the objects.
    pub fn can_remove_objects(&self, ids: &[ObjectId]) -> (res: bool)
        ensures
            res == can_remove_all(self@, ids@),
    {
        let ghost s = self@;
        let mut indices = self.indices.clone();
        let mut obj_ids: Vec<u32> = Vec::new();
        let mut k: usize = 0;
        while k < self.objects.len()
            invariant
                k <= self.objects@.len(),
                obj_ids@ == object_ids(self.objects@.take(k as int)),
            decreases self.objects@.len() - k,
        {
            obj_ids.push(self.objects[k].id.as_underlying_type());
            assert(object_ids(self.objects@.take(k + 1)) =~= object_ids(self.objects@.take(k as int)).push(self.objects@[k as int].id@));
            k = k + 1;
        }
        assert(self.objects@.take(k as int) =~= self.objects@);
        let mut i: usize = 0;
        while i < ids.len()
            invariant
                i <= ids@.len(),
                s == self@,
                can_remove_all(s, ids@.take(i as int)),
                indices@ == remove_all(s, ids@.take(i as int)).indices,
                obj_ids@ == object_ids(remove_all(s, ids@.take(i as int)).objects),
            decreases ids@.len() - i,
        {
            let ghost t = remove_all(s, ids@.take(i as int));
            assert(ids@.take(i + 1).drop_last() =~= ids@.take(i as int));
            let key = ids[i].as_underlying_type();
            match indices.remove(&key) {
                Some(index) => {
                    if index >= obj_ids.len() {
                        proof {
                            lemma_cannot_remove_longer(s, ids@, i + 1);
                        }
                        return false;
                    }
                    if obj_ids.len() > 1 {
                        let last_index = obj_ids.len() - 1;
                        let last_id = obj_ids[last_index];
                        indices.insert(last_id, index);
                    }
                    obj_ids.swap_remove(index);
                    assert(obj_ids@ =~= object_ids(remove_one(t, key).objects));
                },
                None => {},
            }
            i = i + 1;
        }
        assert(ids@.take(i as int) =~= ids@);
        true
    }

    /// Asks for `n` object ids: the range from the next id to `n` ids on is queued, and
    /// ids are handed out from its end.
    pub fn request_n_ids(&mut self, n: u32)
        ensures
            final(self)@.last_id@ == wrapping_next(old(self)@.last_id@, n),
            final(self)@.requested_ids == old(self)@.requested_ids.push(
                (old(self)@.last_id, final(self)@.last_id),
            ),
            final(self)@.objects == old(self)@.objects,
            final(self)@.indices == old(self)@.indices,
            final(self).player_spec() == old(self).player_spec(),
            final(self).lighting_view() == old(self).lighting_view(),
    {
        let id = self.last_id;
        self.last_id = self.last_id.incr(n);
        self.requested_ids.push_back((id, self.last_id));
    }

    /// The first and last id of the oldest requested range not yet collected, or `None`
    /// if every requested range was collected. The last id may be less than the first if
    /// the ids wrap around.
    pub fn get_requested_ids(&mut self) -> (res: Option<(ObjectId, ObjectId)>)
        ensures
            old(self)@.requested_ids.len() == 0 ==> res == None::<(ObjectId, ObjectId)>
                && final(self)@ == old(self)@,
            old(self)@.requested_ids.len() > 0 ==> res == Some(old(self)@.requested_ids[0])
                && final(self)@.requested_ids == old(self)@.requested_ids.skip(1),
            final(self)@.objects == old(self)@.objects,
            final(self)@.indices == old(self)@.indices,
            final(self)@.last_id == old(self)@.last_id,
            final(self).player_spec() == old(self).player_spec(),
            final(self).lighting_view() == old(self).lighting_view(),
    {
        let res = self.requested_ids.pop_front();
        proof {
            if old(self)@.requested_ids.len() > 0 {
                assert(self@.requested_ids =~= old(self)@.requested_ids.skip(1));
            }
        }
        res
    }
}

/// The ids of objects, in order.
pub open spec fn object_ids(objs: Seq<RemoteObject>) -> Seq<u32> {
    objs.map_values(|o: RemoteObject| o.id@)
}

/// Removing a prefix of ids stays within the objects when removing them all does.
proof fn lemma_can_remove_prefix(s: ControllerView, ids: Seq<ObjectId>, k: int)
    requires
        0 <= k <= ids.len(),
        can_remove_all(s, ids),
    ensures
        can_remove_all(s, ids.take(k)),
        k > 0 ==> can_remove(remove_all(s, ids.take(k - 1)), ids[k - 1]@),
    decreases ids.len() - k,
{
    if k < ids.len() {
        assert(ids.drop_last().take(k) =~= ids.take(k));
        if k > 0 {
            assert(ids.drop_last().take(k - 1) =~= ids.take(k - 1));
        }
        lemma_can_remove_prefix(s, ids.drop_last(), k);
    } else {
        assert(ids.take(k) =~= ids);
        if k > 0 {
            assert(ids.take(k - 1) =~= ids.drop_last());
        }
    }
}

/// Once removing a prefix of ids leaves the objects, removing more does too.
proof fn lemma_cannot_remove_longer(s: ControllerView, ids: Seq<ObjectId>, k: int)
    requires
        0 < k <= ids.len(),
        !can_remove(remove_all(s, ids.take(k - 1)), ids[k - 1]@),
    ensures
        !can_remove_all(s, ids),
    decreases ids.len() - k,
{
    if k < ids.len() {
        assert(ids.drop_last().take(k - 1) =~= ids.take(k - 1));
        lemma_cannot_remove_longer(s, ids.drop_last(), k);
    } else {
        assert(ids.take(k - 1) =~= ids.drop_last());
    }
}

/// Setting a prefix of objects stays within the objects when setting them all does.
proof fn lemma_can_set_prefix(s: ControllerView, objs: Seq<RemoteObject>, k: int)
    requires
        0 <= k <= objs.len(),
        can_set_all(s, objs),
    ensures
        can_set_all(s, objs.take(k)),
        k > 0 ==> can_set(set_all(s, objs.take(k - 1)), objs[k - 1]),
    decreases objs.len() - k,
{
    if k < objs.len() {
        assert(objs.drop_last().take(k) =~= objs.take(k));
        if k > 0 {
            assert(objs.drop_last().take(k - 1) =~= objs.take(k - 1));
        }
        lemma_can_set_prefix(s, objs.drop_last(), k);
    } else {
        assert(objs.take(k) =~= objs);
        if k > 0 {
            assert(objs.take(k - 1) =~= objs.drop_last());
        }
    }
}

/// Once setting a prefix leaves the objects, setting more does too.
proof fn lemma_cannot_set_longer(s: ControllerView, objs: Seq<RemoteObject>, k: int)
    requires
        0 < k <= objs.len(),
        !can_set(set_all(s, objs.take(k - 1)), objs[k - 1]),
    ensures
        !can_set_all(s, objs),
    decreases objs.len() - k,
{
    if k < objs.len() {
        assert(objs.drop_last().take(k - 1) =~= objs.take(k - 1));
        lemma_cannot_set_longer(s, objs.drop_last(), k);
    } else {
        assert(objs.take(k - 1) =~= objs.drop_last());
    }
}

} // verus!
