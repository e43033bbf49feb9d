//! Scenes: UI subtrees bound to an application state.
//!
//! Binding a marker to a state registers the scene's setup system under the
//! marker's key. Entering the state queues a run of that system; leaving it
//! queues the recursive destruction of every object tagged with the marker.
use crate::commands::{Command, CommandQueue};
use crate::markers::{Marker, MarkerComponent};
use crate::one_shot_system::{register_outcome, invoke_outcome, OneShotSystemIds, SceneError};
use crate::store::{
    apply_spec, has_marker, in_subtree, lemma_apply_keeps_outside, lemma_apply_removes_subtree,
    lemma_spawn_shape_wf, lemma_subtree_root_le, lemma_tagged_ids, lemma_tagged_ids_single, live,
    scene_object, spawn_shape, store_wf, tagged_ids, valid_shape, ObjectStore, StoreSlots,
};
use vstd::prelude::*;

verus! {

/// A scene binding as the contracts see it: the marker key and the state.
pub type BindingView = (Seq<char>, u64);

/// The commands that destroy each of `ids`, in order.
pub open spec fn despawns<H>(ids: Seq<usize>) -> Seq<Command<H>> {
    ids.map_values(|e: usize| Command::<H>::DespawnRecursive(e))
}

/// The keys of the bindings of `bs` bound to `state`, in binding order.
pub open spec fn entered_keys(bs: Seq<BindingView>, state: u64) -> Seq<Seq<char>>
    decreases bs.len(),
{
    if bs.len() == 0 {
        Seq::empty()
    } else if bs.last().1 == state {
        entered_keys(bs.drop_last(), state).push(bs.last().0)
    } else {
        entered_keys(bs.drop_last(), state)
    }
}

/// The commands queued when `state` is entered: one run of the setup
/// system of each scene bound to it.
pub open spec fn enter_commands<H>(m: Map<Seq<char>, H>, bs: Seq<BindingView>, state: u64) -> Seq<
    Command<H>,
> {
    entered_keys(bs, state).map_values(|k: Seq<char>| Command::RunSystem(m[k]))
}

/// The commands queued when `state` is left: for each scene bound to it,
/// the destruction of every object of `v` tagged with its marker.
pub open spec fn exit_commands<H>(v: StoreSlots, bs: Seq<BindingView>, state: u64) -> Seq<
    Command<H>,
>
    decreases bs.len(),
{
    if bs.len() == 0 {
        Seq::empty()
    } else if bs.last().1 == state {
        exit_commands(v, bs.drop_last(), state) + despawns(tagged_ids(v, bs.last().0))
    } else {
        exit_commands(v, bs.drop_last(), state)
    }
}

/// No two bindings of `bs` share a key.
pub open spec fn keys_distinct(bs: Seq<BindingView>) -> bool {
    forall|i: int, j: int| 0 <= i < bs.len() && 0 <= j < bs.len() && i != j ==> bs[i].0 != bs[j].0
}

/// Entering a state queues exactly one run for each scene bound to it, and
/// none for any other key: the keys entered are those bound to the state,
/// each once, and the i-th command runs the system of the i-th of them.
pub proof fn lemma_enter_runs_each_scene_once<H>(m: Map<Seq<char>, H>, bs: Seq<BindingView>, state: u64)
    requires
        keys_distinct(bs),
    ensures
        ({
            let ks = entered_keys(bs, state);
            &&& forall|i: int, j: int| 0 <= i < ks.len() && 0 <= j < ks.len() && i != j ==> ks[i] != ks[j]
            &&& forall|k: Seq<char>|
                #[trigger] ks.contains(k) <==> (exists|j: int| 0 <= j < bs.len() && bs[j] == (k, state))
            &&& enter_commands(m, bs, state).len() == ks.len()
            &&& forall|i: int|
                0 <= i < ks.len() ==> enter_commands(m, bs, state)[i] == Command::RunSystem(m[ks[i]])
        }),
    decreases bs.len(),
{
    if bs.len() > 0 {
        let t = bs.drop_last();
        assert forall|i: int, j: int| 0 <= i < t.len() && 0 <= j < t.len() && i != j implies t[i].0
            != t[j].0 by {
            assert(t[i] == bs[i] && t[j] == bs[j]);
        }
        lemma_enter_runs_each_scene_once(m, t, state);
        let ks = entered_keys(bs, state);
        let kt = entered_keys(t, state);
        assert forall|k: Seq<char>|
            #[trigger] ks.contains(k) <==> (exists|j: int| 0 <= j < bs.len() && bs[j] == (k, state)) by {
            if exists|j: int| 0 <= j < bs.len() && bs[j] == (k, state) {
                let j = choose|j: int| 0 <= j < bs.len() && bs[j] == (k, state);
                if j < t.len() {
                    assert(t[j] == bs[j]);
                    assert(kt.contains(k));
                    let i = choose|i: int| 0 <= i < kt.len() && kt[i] == k;
                    assert(ks[i] == k);
                } else {
                    assert(ks[kt.len() as int] == k);
                }
            }
            if exists|i: int| 0 <= i < ks.len() && ks[i] == k {
                let i = choose|i: int| 0 <= i < ks.len() && ks[i] == k;
                if i < kt.len() {
                    assert(kt[i] == k);
                    assert(kt.contains(k));
                    let j = choose|j: int| 0 <= j < t.len() && t[j] == (k, state);
                    assert(bs[j] == (k, state));
                } else {
                    assert(bs[bs.len() - 1] == (k, state));
                }
            }
        }
        if bs.last().1 == state {
            assert forall|i: int, j: int| 0 <= i < ks.len() && 0 <= j < ks.len() && i != j implies ks[i]
                != ks[j] by {
                if i == kt.len() && j < kt.len() {
                    assert(kt.contains(kt[j]));
                    let jj = choose|jj: int| 0 <= jj < t.len() && t[jj] == (kt[j], state);
                    assert(bs[jj] == t[jj]);
                }
                if j == kt.len() && i < kt.len() {
                    assert(kt.contains(kt[i]));
                    let ii = choose|ii: int| 0 <= ii < t.len() && t[ii] == (kt[i], state);
                    assert(bs[ii] == t[ii]);
                }
            }
        }
    }
}

/// Every live object tagged with the marker of a scene bound to `state` is
/// the target of one of the commands queued when `state` is left.
proof fn lemma_exit_commands_cover<H>(v: StoreSlots, bs: Seq<BindingView>, state: u64, j: int, r: int)
    requires
        v.len() <= usize::MAX,
        0 <= j < bs.len(),
        bs[j].1 == state,
        has_marker(v, r, bs[j].0),
    ensures
        exists|i: int|
            0 <= i < exit_commands::<H>(v, bs, state).len() && exit_commands::<H>(v, bs, state)[i]
                == Command::<H>::DespawnRecursive(r as usize),
    decreases bs.len(),
{
    let t = bs.drop_last();
    let rest = exit_commands::<H>(v, t, state);
    let all = exit_commands::<H>(v, bs, state);
    if j < t.len() {
        assert(t[j] == bs[j]);
        lemma_exit_commands_cover::<H>(v, t, state, j, r);
        let i = choose|i: int| 0 <= i < rest.len() && rest[i] == Command::<H>::DespawnRecursive(r as usize);
        assert(all[i] == rest[i]);
    } else {
        lemma_tagged_ids(v, bs[j].0, r);
        let ids = tagged_ids(v, bs[j].0);
        let k = choose|k: int| 0 <= k < ids.len() && ids[k] == r;
        assert(all[rest.len() + k] == despawns::<H>(ids)[k]);
    }
}

/// Every command queued when `state` is left destroys a live object tagged
/// with the marker of a scene bound to `state`.
proof fn lemma_exit_commands_targets<H>(v: StoreSlots, bs: Seq<BindingView>, state: u64, i: int)
    requires
        v.len() <= usize::MAX,
        0 <= i < exit_commands::<H>(v, bs, state).len(),
    ensures
        exit_commands::<H>(v, bs, state)[i] matches Command::DespawnRecursive(r) && exists|j: int|
            0 <= j < bs.len() && bs[j].1 == state && has_marker(v, r as int, bs[j].0),
    decreases bs.len(),
{
    let t = bs.drop_last();
    let rest = exit_commands::<H>(v, t, state);
    let all = exit_commands::<H>(v, bs, state);
    if i < rest.len() {
        lemma_exit_commands_targets::<H>(v, t, state, i);
        assert(all[i] == rest[i]);
        if let Command::DespawnRecursive(r) = rest[i] {
            let j = choose|j: int| 0 <= j < t.len() && t[j].1 == state && has_marker(v, r as int, t[j].0);
            assert(bs[j] == t[j]);
        }
    } else {
        let ids = tagged_ids(v, bs.last().0);
        let k = i - rest.len();
        assert(all[i] == despawns::<H>(ids)[k]);
        lemma_tagged_ids(v, bs.last().0, ids[k] as int);
        assert(bs[bs.len() - 1] == bs.last());
    }
}

/// Once the commands queued on leaving `state` are applied, no object of the
/// subtree of any object tagged with the marker of a scene bound to
/// `state` is left, however many descendants it had; in particular no
/// object is left tagged with such a marker.
pub proof fn lemma_exit_clears_scenes<H>(v: StoreSlots, bs: Seq<BindingView>, state: u64)
    requires
        store_wf(v),
    ensures
        ({
            let after = apply_spec(v, exit_commands::<H>(v, bs, state));
            &&& forall|j: int, r: int, x: int|
                0 <= j < bs.len() && bs[j].1 == state && has_marker(v, r, bs[j].0) && in_subtree(
                    v,
                    x,
                    r,
                ) ==> !live(after, x)
            &&& forall|j: int, x: int|
                0 <= j < bs.len() && bs[j].1 == state ==> !has_marker(after, x, bs[j].0)
        }),
{
    let cmds = exit_commands::<H>(v, bs, state);
    let after = apply_spec(v, cmds);
    assert forall|j: int, r: int, x: int|
        0 <= j < bs.len() && bs[j].1 == state && has_marker(v, r, bs[j].0) && in_subtree(
            v,
            x,
            r,
        ) implies !live(after, x) by {
        lemma_exit_commands_cover::<H>(v, bs, state, j, r);
        lemma_apply_removes_subtree(v, cmds, r as usize, x);
    }
    assert forall|j: int, x: int| 0 <= j < bs.len() && bs[j].1 == state implies !has_marker(
        after,
        x,
        bs[j].0,
    ) by {
        crate::store::lemma_apply_sub_store(v, cmds);
        if has_marker(after, x, bs[j].0) {
            assert(after[x] == v[x]);
            assert(in_subtree(v, x, x));
            lemma_exit_commands_cover::<H>(v, bs, state, j, x);
            lemma_apply_removes_subtree(v, cmds, x as usize, x);
        }
    }
}

/// Leaving `state` leaves every object outside the subtrees of the tagged
/// roots of its scenes exactly as it was: one scene's removal does not
/// touch another scene's objects.
pub proof fn lemma_exit_keeps_other_objects<H>(v: StoreSlots, bs: Seq<BindingView>, state: u64, x: int)
    requires
        store_wf(v),
        0 <= x < v.len(),
        forall|j: int, r: int|
            0 <= j < bs.len() && bs[j].1 == state && has_marker(v, r, bs[j].0) ==> !in_subtree(v, x, r),
    ensures
        apply_spec(v, exit_commands::<H>(v, bs, state))[x] == v[x],
{
    let cmds = exit_commands::<H>(v, bs, state);
    assert forall|i: int|
        0 <= i < cmds.len() implies (#[trigger] cmds[i] matches Command::DespawnRecursive(r)
            ==> !in_subtree(v, x, r as int)) by {
        lemma_exit_commands_targets::<H>(v, bs, state, i);
    }
    lemma_apply_keeps_outside(v, cmds, x);
}

/// Leaving `state` when no object carries the marker of any scene bound to
/// it queues nothing and changes nothing.
pub proof fn lemma_exit_without_scene_is_noop<H>(v: StoreSlots, bs: Seq<BindingView>, state: u64)
    requires
        store_wf(v),
        forall|j: int, i: int| 0 <= j < bs.len() && bs[j].1 == state ==> !has_marker(v, i, bs[j].0),
    ensures
        exit_commands::<H>(v, bs, state) == Seq::<Command<H>>::empty(),
        apply_spec(v, exit_commands::<H>(v, bs, state)) == v,
{
    let cmds = exit_commands::<H>(v, bs, state);
    if cmds.len() > 0 {
        lemma_exit_commands_targets::<H>(v, bs, state, 0);
    }
    assert(cmds =~= Seq::<Command<H>>::empty());
}

/// `w` is `v` after a setup that spawned one scene for `key`: new objects
/// only, the first of them the root tagged with `key`, every other one a
/// descendant of that root carrying no `key` tag.
pub open spec fn scene_spawned(v: StoreSlots, w: StoreSlots, key: Seq<char>) -> bool {
    &&& v.len() < w.len()
    &&& forall|i: int| 0 <= i < v.len() ==> #[trigger] w[i] == v[i]
    &&& has_marker(w, v.len() as int, key)
    &&& forall|i: int| v.len() <= i < w.len() ==> #[trigger] in_subtree(w, i, v.len() as int)
    &&& forall|i: int| v.len() < i < w.len() ==> !#[trigger] has_marker(w, i, key)
}

/// Entering and then leaving a scene gives the store back: every object that
/// was there before the setup ran is as it was, and every object the setup
/// spawned is gone. Entering again therefore starts from the same objects
/// and, with a setup that behaves the same each time, builds the same scene.
pub proof fn lemma_enter_exit_round_trip<H>(v: StoreSlots, w: StoreSlots, key: Seq<char>)
    requires
        store_wf(v),
        store_wf(w),
        forall|i: int| !has_marker(v, i, key),
        scene_spawned(v, w, key),
    ensures
        ({
            let after = apply_spec(w, despawns::<H>(tagged_ids(w, key)));
            &&& after.len() == w.len()
            &&& forall|i: int| 0 <= i < v.len() ==> after[i] == v[i]
            &&& forall|i: int| v.len() <= i < w.len() ==> after[i] is None
        }),
{
    let ids = tagged_ids(w, key);
    let cmds = despawns::<H>(ids);
    let root = v.len() as int;
    crate::store::lemma_apply_wf(w, cmds);
    lemma_tagged_ids(w, key, root);
    let k = choose|k: int| 0 <= k < ids.len() && ids[k] == root;
    assert(cmds[k] == Command::<H>::DespawnRecursive(root as usize));
    assert forall|i: int| 0 <= i < v.len() implies apply_spec(w, cmds)[i] == v[i] by {
        assert forall|j: int|
            0 <= j < cmds.len() implies (#[trigger] cmds[j] matches Command::DespawnRecursive(r)
                ==> !in_subtree(w, i, r as int)) by {
            lemma_tagged_ids(w, key, ids[j] as int);
            assert(cmds[j] == Command::<H>::DespawnRecursive(ids[j]));
            let r = ids[j] as int;
            assert(has_marker(w, r, key));
            if r < root {
                assert(w[r] == v[r]);
                assert(!has_marker(v, r, key));
            }
            if r > root {
                assert(r < w.len());
                assert(!has_marker(w, r, key));
            }
            assert(r == root);
            if in_subtree(w, i, r) {
                lemma_subtree_root_le(w, i, r);
            }
        }
        lemma_apply_keeps_outside(w, cmds, i);
    }
    assert forall|i: int| root <= i < w.len() implies apply_spec(w, cmds)[i] is None by {
        lemma_apply_removes_subtree(w, cmds, root as usize, i);
    }
}

/// A scene of a valid shape, spawned at the end of a store, is spawned in
/// the sense of [`scene_spawned`].
pub proof fn lemma_spawn_shape_spawned(v: StoreSlots, shape: Seq<usize>, key: Seq<char>)
    requires
        valid_shape(shape),
        v.len() + shape.len() + 1 <= usize::MAX,
    ensures
        scene_spawned(v, spawn_shape(v, shape, key), key),
{
    let w = spawn_shape(v, shape, key);
    let base = v.len() as int;
    assert(w[base] == scene_object(base, shape, key, 0));
    assert(seq![key][0] == key);
    assert forall|i: int| base <= i < w.len() implies #[trigger] in_subtree(w, i, base) by {
        lemma_spawn_shape_in_subtree(v, shape, key, i);
    }
    assert forall|i: int| base < i < w.len() implies !#[trigger] has_marker(w, i, key) by {
        assert(w[i] == scene_object(base, shape, key, i - base));
    }
}

proof fn lemma_spawn_shape_in_subtree(v: StoreSlots, shape: Seq<usize>, key: Seq<char>, i: int)
    requires
        valid_shape(shape),
        v.len() + shape.len() + 1 <= usize::MAX,
        v.len() <= i < spawn_shape(v, shape, key).len(),
    ensures
        in_subtree(spawn_shape(v, shape, key), i, v.len() as int),
    decreases i,
{
    let w = spawn_shape(v, shape, key);
    let base = v.len() as int;
    if i > base {
        let k = i - base;
        assert(w[i] == scene_object(base, shape, key, k));
        assert(shape[k - 1] <= k - 1);
        assert(live(w, i));
        lemma_spawn_shape_in_subtree(v, shape, key, base + shape[k - 1]);
    }
}

/// With a setup that spawns a scene of a fixed shape, entering, leaving and
/// entering again rebuilds an equivalent scene: each time exactly one root
/// carries the marker, the live objects of its subtree are exactly the
/// objects of the new scene (as many the second time as the first), object
/// `k` of both scenes is placed alike relative to its root, and the objects
/// that were there before the first entry are untouched.
pub proof fn lemma_enter_exit_enter_rebuilds<H>(v: StoreSlots, shape: Seq<usize>, key: Seq<char>)
    requires
        store_wf(v),
        forall|i: int| !has_marker(v, i, key),
        valid_shape(shape),
        v.len() + 2 * (shape.len() + 1) <= usize::MAX,
    ensures
        ({
            let n = shape.len() + 1;
            let w1 = spawn_shape(v, shape, key);
            let v2 = apply_spec(w1, despawns::<H>(tagged_ids(w1, key)));
            let w2 = spawn_shape(v2, shape, key);
            let r1 = v.len() as int;
            let r2 = w1.len() as int;
            &&& tagged_ids(w1, key) == seq![r1 as usize]
            &&& tagged_ids(w2, key) == seq![r2 as usize]
            &&& forall|x: int| live(w1, x) && in_subtree(w1, x, r1) <==> r1 <= x < r1 + n
            &&& forall|x: int| live(w2, x) && in_subtree(w2, x, r2) <==> r2 <= x < r2 + n
            &&& forall|k: int|
                0 <= k < n ==> w1[r1 + k] == scene_object(r1, shape, key, k) && w2[r2 + k]
                    == scene_object(r2, shape, key, k)
            &&& forall|x: int| 0 <= x < r1 ==> w2[x] == v[x]
        }),
{
    let n = shape.len() + 1;
    let w1 = spawn_shape(v, shape, key);
    let v2 = apply_spec(w1, despawns::<H>(tagged_ids(w1, key)));
    let w2 = spawn_shape(v2, shape, key);
    let r1 = v.len() as int;
    let r2 = w1.len() as int;
    lemma_spawn_shape_wf(v, shape, key);
    lemma_spawn_shape_spawned(v, shape, key);
    lemma_enter_exit_round_trip::<H>(v, w1, key);
    crate::store::lemma_apply_wf(w1, despawns::<H>(tagged_ids(w1, key)));
    assert forall|i: int| i != r1 implies !has_marker(w1, i, key) by {
        if 0 <= i < r1 {
            assert(w1[i] == v[i]);
            assert(!has_marker(v, i, key));
        }
    }
    lemma_tagged_ids_single(w1, key, r1);
    assert forall|i: int| !has_marker(v2, i, key) by {
        if 0 <= i < r1 {
            assert(!has_marker(v, i, key));
        }
    }
    lemma_spawn_shape_wf(v2, shape, key);
    lemma_spawn_shape_spawned(v2, shape, key);
    assert forall|i: int| i != r2 implies !has_marker(w2, i, key) by {
        if 0 <= i < r2 {
            assert(w2[i] == v2[i]);
            assert(!has_marker(v2, i, key));
        }
    }
    lemma_tagged_ids_single(w2, key, r2);
    assert forall|x: int| r1 <= x < r1 + n implies live(w1, x) && in_subtree(w1, x, r1) by {}
    assert forall|x: int| live(w1, x) && in_subtree(w1, x, r1) implies r1 <= x < r1 + n by {
        lemma_subtree_root_le(w1, x, r1);
    }
    assert forall|x: int| r2 <= x < r2 + n implies live(w2, x) && in_subtree(w2, x, r2) by {}
    assert forall|x: int| live(w2, x) && in_subtree(w2, x, r2) implies r2 <= x < r2 + n by {
        lemma_subtree_root_le(w2, x, r2);
    }
    assert forall|x: int| 0 <= x < r1 implies w2[x] == v[x] by {
        assert(w2[x] == v2[x]);
    }
}

/// Queues the recursive destruction of each of `roots`, in order.
pub fn despawn_all<H>(roots: &Vec<usize>, commands: &mut CommandQueue<H>)
    ensures
        final(commands)@ == old(commands)@ + despawns::<H>(roots@),
{
    let ghost start = commands@;
    let mut i: usize = 0;
    while i < roots.len()
        invariant
            i <= roots@.len(),
            commands@ == start + despawns::<H>(roots@.take(i as int)),
        decreases roots@.len() - i,
    {
        assert(despawns::<H>(roots@.take(i + 1)) =~= despawns::<H>(roots@.take(i as int)).push(
            Command::DespawnRecursive(roots@[i as int]),
        ));
        commands.despawn_recursive(roots[i]);
        i = i + 1;
    }
    assert(roots@.take(i as int) =~= roots@);
}

/// Queues the destruction of every object tagged with `key`, together with
/// its descendants. Nothing is queued when no object carries the tag.
pub fn cleanup_scene<H>(store: &ObjectStore, key: &String, commands: &mut CommandQueue<H>)
    ensures
        final(commands)@ == old(commands)@ + despawns::<H>(tagged_ids(store@, key@)),
{
    let roots = store.tagged(key);
    despawn_all(&roots, commands);
}

/// One scene: the key of its marker and the state it is bound to.
pub struct SceneBinding {
    key: String,
    state: u64,
}

/// The registry together with the scenes bound to states.
pub struct SceneSchedule<H> {
    systems: OneShotSystemIds<H>,
    scenes: Vec<SceneBinding>,
}

impl<H> SceneSchedule<H> {
    /// The registry's table.
    pub closed spec fn table(&self) -> Map<Seq<char>, H> {
        self.systems@
    }

    /// The scene bindings, in the order in which they were made.
    pub closed spec fn bindings(&self) -> Seq<BindingView> {
        self.scenes@.map_values(|b: SceneBinding| (b.key@, b.state))
    }

    /// The registry is well formed, every bound key is registered, and no
    /// two bindings share a key.
    pub closed spec fn wf(&self) -> bool {
        &&& self.systems.wf()
        &&& forall|j: int|
            0 <= j < self.bindings().len() ==> self.systems@.dom().contains(
                #[trigger] self.bindings()[j].0,
            )
        &&& forall|i: int, j: int|
            0 <= i < self.bindings().len() && 0 <= j < self.bindings().len() && i != j
                ==> self.bindings()[i].0 != self.bindings()[j].0
    }
}

impl<H: Copy> SceneSchedule<H> {
    /// An empty schedule: no system registered, no scene bound.
    pub fn new() -> (r: Self)
        ensures
            r.wf(),
            keys_distinct(r.bindings()),
            r.table() == Map::<Seq<char>, H>::empty(),
            r.bindings() == Seq::<BindingView>::empty(),
    {
        let r = SceneSchedule { systems: OneShotSystemIds::new(), scenes: Vec::new() };
        assert(r.bindings() =~= Seq::<BindingView>::empty());
        r
    }

    /// The registry.
    pub fn systems(&self) -> (r: &OneShotSystemIds<H>)
        requires
            self.wf(),
        ensures
            r.wf(),
            r@ == self.table(),
    {
        &self.systems
    }

    /// Registers a one-shot system under the key of `M`, bound to no state.
    pub fn register_one_shot_system<M: Marker>(
        &mut self,
        marker: MarkerComponent<M>,
        system: H,
    ) -> (r: Result<(), SceneError>)
        requires
            old(self).wf(),
        ensures
            final(self).wf(),
            keys_distinct(final(self).bindings()),
            (final(self).table(), r) == register_outcome(old(self).table(), M::key_spec(), system),
            final(self).bindings() == old(self).bindings(),
    {
        let r = self.systems.register_one_shot_system(marker, system);
        assert(self.bindings() == old(self).bindings());
        proof {
            if r is Ok {
                assert forall|j: int| 0 <= j < self.bindings().len() implies self.systems@.dom().contains(
                    #[trigger] self.bindings()[j].0,
                ) by {
                    assert(old(self).systems@.dom().contains(old(self).bindings()[j].0));
                }
            }
        }
        r
    }

    /// Binds the scene of `key` to `state`: registers `setup` under `key`,
    /// then records the binding. A key that already has a system is refused
    /// with `DuplicateRegistration`, and nothing changes.
    pub fn bind_scene(&mut self, key: String, setup: H, state: u64) -> (r: Result<(), SceneError>)
        requires
            old(self).wf(),
        ensures
            final(self).wf(),
            keys_distinct(final(self).bindings()),
            (final(self).table(), r) == register_outcome(old(self).table(), key@, setup),
            final(self).bindings() == (if r is Ok {
                old(self).bindings().push((key@, state))
            } else {
                old(self).bindings()
            }),
    {
        let ghost k = key@;
        let binding_key = key.clone();
        let r = self.systems.register(key, setup);
        if r.is_err() {
            return r;
        }
        self.scenes.push(SceneBinding { key: binding_key, state });
        assert(self.bindings() =~= old(self).bindings().push((k, state)));
        assert forall|j: int| 0 <= j < self.bindings().len() implies self.systems@.dom().contains(
            #[trigger] self.bindings()[j].0,
        ) by {
            if j < old(self).bindings().len() {
                assert(old(self).systems@.dom().contains(old(self).bindings()[j].0));
            }
        }
        assert forall|i: int, j: int|
            0 <= i < self.bindings().len() && 0 <= j < self.bindings().len() && i != j
                implies self.bindings()[i].0 != self.bindings()[j].0 by {
            if i < old(self).bindings().len() {
                assert(old(self).systems@.dom().contains(old(self).bindings()[i].0));
            }
            if j < old(self).bindings().len() {
                assert(old(self).systems@.dom().contains(old(self).bindings()[j].0));
            }
        }
        r
    }

    /// Binds the scene of the marker type `M` to `state`, as
    /// [`SceneSchedule::bind_scene`] does with the key of `M`.
    pub fn add_scene<M: Marker>(
        &mut self,
        marker: MarkerComponent<M>,
        setup: H,
        state: u64,
    ) -> (r: Result<(), SceneError>)
        requires
            old(self).wf(),
        ensures
            final(self).wf(),
            keys_distinct(final(self).bindings()),
            (final(self).table(), r) == register_outcome(old(self).table(), M::key_spec(), setup),
            final(self).bindings() == (if r is Ok {
                old(self).bindings().push((M::key_spec(), state))
            } else {
                old(self).bindings()
            }),
    {
        self.bind_scene(marker.key(), setup, state)
    }

    /// Resolves `key` and queues a run of its system; see
    /// [`OneShotSystemIds::run`].
    pub fn run(&self, key: &String, commands: &mut CommandQueue<H>) -> (r: Result<(), SceneError>)
        requires
            self.wf(),
        ensures
            (final(commands)@, r) == invoke_outcome(self.table(), old(commands)@, key@),
    {
        self.systems.run(key, commands)
    }

    /// Reacts to `state` being entered: queues one run of the setup system
    /// of each scene bound to `state`, in binding order.
    pub fn on_enter(&self, state: u64, commands: &mut CommandQueue<H>)
        requires
            self.wf(),
        ensures
            final(commands)@ == old(commands)@ + enter_commands(self.table(), self.bindings(), state),
    {
        let ghost start = commands@;
        let ghost bs = self.bindings();
        let mut i: usize = 0;
        while i < self.scenes.len()
            invariant
                self.wf(),
                bs == self.bindings(),
                i <= bs.len(),
                commands@ == start + enter_commands(self.table(), bs.take(i as int), state),
            decreases bs.len() - i,
        {
            assert(bs.take(i + 1).drop_last() =~= bs.take(i as int));
            assert(bs[i as int] == (self.scenes@[i as int].key@, self.scenes@[i as int].state));
            if self.scenes[i].state == state {
                assert(self.table().dom().contains(bs[i as int].0));
                // Every bound key is registered, so the lookup succeeds.
                let _ = self.systems.run(&self.scenes[i].key, commands);
                assert(enter_commands(self.table(), bs.take(i + 1), state) =~= enter_commands(
                    self.table(),
                    bs.take(i as int),
                    state,
                ).push(Command::RunSystem(self.table()[bs[i as int].0])));
            }
            i = i + 1;
        }
        assert(bs.take(i as int) =~= bs);
    }

    /// Reacts to `state` being left: for each scene bound to `state`, in
    /// binding order, queues the destruction of every object of `store`
    /// tagged with its marker.
    pub fn on_exit(&self, state: u64, store: &ObjectStore, commands: &mut CommandQueue<H>)
        requires
            self.wf(),
        ensures
            final(commands)@ == old(commands)@ + exit_commands::<H>(store@, self.bindings(), state),
    {
        let ghost start = commands@;
        let ghost bs = self.bindings();
        let mut i: usize = 0;
        while i < self.scenes.len()
            invariant
                bs == self.bindings(),
                i <= bs.len(),
                commands@ == start + exit_commands::<H>(store@, bs.take(i as int), state),
            decreases bs.len() - i,
        {
            assert(bs.take(i + 1).drop_last() =~= bs.take(i as int));
            assert(bs[i as int] == (self.scenes@[i as int].key@, self.scenes@[i as int].state));
            if self.scenes[i].state == state {
                cleanup_scene(store, &self.scenes[i].key, commands);
                assert(commands@ =~= start + exit_commands::<H>(store@, bs.take(i + 1), state));
            }
            i = i + 1;
        }
        assert(bs.take(i as int) =~= bs);
    }
}

} // verus!
