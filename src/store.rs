//! The object store: objects linked to their parents and tagged with
//! marker keys. Objects are only created at the end, so an object's parent
//! always has a smaller id than the object itself.
use crate::commands::{Command, CommandQueue};
use vstd::prelude::*;

verus! {

/// What the store knows of one live object: its parent and its marker keys.
pub type ObjectView = (Option<usize>, Seq<Seq<char>>);

/// The store's contents: one slot per id ever handed out, `None` once the
/// object was destroyed.
pub type StoreSlots = Seq<Option<ObjectView>>;

/// One live object.
pub struct Object {
    parent: Option<usize>,
    markers: Vec<String>,
}

impl View for Object {
    type V = ObjectView;

    closed spec fn view(&self) -> ObjectView {
        (self.parent, self.markers@.map_values(|s: String| s@))
    }
}

/// Whether `i` names a live object of `v`.
pub open spec fn live(v: StoreSlots, i: int) -> bool {
    0 <= i < v.len() && v[i] is Some
}

/// Whether `i` names a live object of `v` tagged with `key`.
pub open spec fn has_marker(v: StoreSlots, i: int, key: Seq<char>) -> bool {
    live(v, i) && v[i].unwrap().1.contains(key)
}

/// Ids fit in `usize`, and every live object's parent is live and has a
/// smaller id.
pub open spec fn store_wf(v: StoreSlots) -> bool {
    &&& v.len() <= usize::MAX
    &&& forall|i: int|
        #![trigger v[i]]
        live(v, i) && v[i].unwrap().0 is Some ==> {
            let p = v[i].unwrap().0.unwrap() as int;
            p < i && live(v, p)
        }
}

/// Whether `x` is `root` or a descendant of `root` in `v`.
pub open spec fn in_subtree(v: StoreSlots, x: int, root: int) -> bool
    decreases x,
{
    if x == root {
        true
    } else if live(v, x) && v[x].unwrap().0 is Some && (v[x].unwrap().0.unwrap() as int) < x {
        in_subtree(v, v[x].unwrap().0.unwrap() as int, root)
    } else {
        false
    }
}

/// The store after `root` and all of its descendants are destroyed.
pub open spec fn despawn_spec(v: StoreSlots, root: int) -> StoreSlots {
    Seq::new(v.len(), |i: int| if in_subtree(v, i, root) { None } else { v[i] })
}

/// The store after the commands `cmds` are applied in order. Runs leave the
/// store alone: the host runs them.
pub open spec fn apply_spec<H>(v: StoreSlots, cmds: Seq<Command<H>>) -> StoreSlots
    decreases cmds.len(),
{
    if cmds.len() == 0 {
        v
    } else {
        let before = apply_spec(v, cmds.drop_last());
        match cmds.last() {
            Command::RunSystem(_) => before,
            Command::DespawnRecursive(e) => despawn_spec(before, e as int),
        }
    }
}

/// The handles of the run commands among `cmds`, in order.
pub open spec fn run_requests<H>(cmds: Seq<Command<H>>) -> Seq<H>
    decreases cmds.len(),
{
    if cmds.len() == 0 {
        Seq::empty()
    } else {
        match cmds.last() {
            Command::RunSystem(h) => run_requests(cmds.drop_last()).push(h),
            Command::DespawnRecursive(_) => run_requests(cmds.drop_last()),
        }
    }
}

/// The ids of the live objects of `v` tagged with `key`, in increasing order.
pub open spec fn tagged_ids(v: StoreSlots, key: Seq<char>) -> Seq<usize>
    decreases v.len(),
{
    if v.len() == 0 {
        Seq::empty()
    } else if has_marker(v, v.len() - 1, key) {
        tagged_ids(v.drop_last(), key).push((v.len() - 1) as usize)
    } else {
        tagged_ids(v.drop_last(), key)
    }
}

/// Destroying a subtree keeps a store well formed.
pub proof fn lemma_despawn_wf(v: StoreSlots, root: int)
    requires
        store_wf(v),
    ensures
        store_wf(despawn_spec(v, root)),
{
    let w = despawn_spec(v, root);
    assert forall|i: int| #![trigger w[i]] live(w, i) && w[i].unwrap().0 is Some implies {
        let p = w[i].unwrap().0.unwrap() as int;
        p < i && live(w, p)
    } by {
        assert(w[i] == v[i]);
        let p = v[i].unwrap().0.unwrap() as int;
        assert(live(v, i) && v[i].unwrap().0 is Some);
        assert(p < i && live(v, p));
        if in_subtree(v, p, root) {
            assert(in_subtree(v, i, root));
        }
        assert(w[p] == v[p]);
    }
}

/// Applying commands keeps a store well formed and never lengthens it.
pub proof fn lemma_apply_wf<H>(v: StoreSlots, cmds: Seq<Command<H>>)
    requires
        store_wf(v),
    ensures
        store_wf(apply_spec(v, cmds)),
        apply_spec(v, cmds).len() == v.len(),
    decreases cmds.len(),
{
    if cmds.len() > 0 {
        lemma_apply_wf(v, cmds.drop_last());
        if let Command::DespawnRecursive(e) = cmds.last() {
            lemma_despawn_wf(apply_spec(v, cmds.drop_last()), e as int);
        }
    }
}

/// `s` is `v` with some objects destroyed.
pub open spec fn sub_store(s: StoreSlots, v: StoreSlots) -> bool {
    s.len() == v.len() && forall|i: int| 0 <= i < s.len() ==> #[trigger] s[i] is None || s[i] == v[i]
}

proof fn lemma_sub_store_trans(a: StoreSlots, b: StoreSlots, c: StoreSlots)
    requires
        sub_store(a, b),
        sub_store(b, c),
    ensures
        sub_store(a, c),
{
    assert forall|i: int| 0 <= i < a.len() implies #[trigger] a[i] is None || a[i] == c[i] by {
        assert(b[i] is None || b[i] == c[i]);
    }
}

/// An object lies above its subtree's root: ids only grow downward.
pub proof fn lemma_subtree_root_le(v: StoreSlots, x: int, root: int)
    requires
        in_subtree(v, x, root),
    ensures
        root <= x,
    decreases x,
{
    if x != root {
        lemma_subtree_root_le(v, v[x].unwrap().0.unwrap() as int, root);
    }
}

/// A subtree of a store with some objects destroyed lies in the subtree of
/// the full store.
proof fn lemma_subtree_of_sub_store(s: StoreSlots, v: StoreSlots, x: int, root: int)
    requires
        sub_store(s, v),
        in_subtree(s, x, root),
    ensures
        in_subtree(v, x, root),
    decreases x,
{
    if x != root {
        assert(s[x] == v[x]);
        lemma_subtree_of_sub_store(s, v, s[x].unwrap().0.unwrap() as int, root);
    }
}

/// In a well-formed store with some objects destroyed, a live object keeps
/// its place in every subtree of the full store.
proof fn lemma_subtree_kept_in_sub_store(s: StoreSlots, v: StoreSlots, x: int, root: int)
    requires
        sub_store(s, v),
        store_wf(s),
        in_subtree(v, x, root),
        live(s, x),
    ensures
        in_subtree(s, x, root),
    decreases x,
{
    if x != root {
        assert(s[x] == v[x]);
        let p = s[x].unwrap().0.unwrap() as int;
        assert(live(s, p));
        lemma_subtree_kept_in_sub_store(s, v, p, root);
    }
}

proof fn lemma_despawn_sub_store(v: StoreSlots, root: int)
    ensures
        sub_store(despawn_spec(v, root), v),
{
}

/// Applying commands only destroys objects.
pub proof fn lemma_apply_sub_store<H>(v: StoreSlots, cmds: Seq<Command<H>>)
    ensures
        sub_store(apply_spec(v, cmds), v),
    decreases cmds.len(),
{
    if cmds.len() > 0 {
        let before = apply_spec(v, cmds.drop_last());
        lemma_apply_sub_store(v, cmds.drop_last());
        if let Command::DespawnRecursive(e) = cmds.last() {
            lemma_despawn_sub_store(before, e as int);
            lemma_sub_store_trans(apply_spec(v, cmds), before, v);
        }
    }
}

/// Once some command destroys `root`, no object of `root`'s subtree in the
/// starting store survives the whole sequence, whatever came before.
pub proof fn lemma_apply_removes_subtree<H>(v: StoreSlots, cmds: Seq<Command<H>>, root: usize, x: int)
    requires
        store_wf(v),
        exists|j: int| 0 <= j < cmds.len() && cmds[j] == Command::<H>::DespawnRecursive(root),
        in_subtree(v, x, root as int),
    ensures
        !live(apply_spec(v, cmds), x),
    decreases cmds.len(),
{
    let rest = cmds.drop_last();
    let before = apply_spec(v, rest);
    lemma_apply_wf(v, rest);
    lemma_apply_sub_store(v, rest);
    let after = apply_spec(v, cmds);
    if cmds.last() == Command::<H>::DespawnRecursive(root) {
        lemma_despawn_sub_store(before, root as int);
        if live(before, x) {
            lemma_subtree_kept_in_sub_store(before, v, x, root as int);
        }
        if 0 <= x < after.len() {
            assert(after[x] is None || after[x] == before[x]);
        }
    } else {
        let j = choose|j: int| 0 <= j < cmds.len() && cmds[j] == Command::<H>::DespawnRecursive(root);
        assert(rest[j] == cmds[j]);
        lemma_apply_removes_subtree(v, rest, root, x);
        if let Command::DespawnRecursive(e) = cmds.last() {
            lemma_despawn_sub_store(before, e as int);
            if 0 <= x < after.len() {
                assert(after[x] is None || after[x] == before[x]);
            }
        }
    }
}

/// An object outside the subtree of every destroyed root in the starting
/// store is left exactly as it was.
pub proof fn lemma_apply_keeps_outside<H>(v: StoreSlots, cmds: Seq<Command<H>>, x: int)
    requires
        0 <= x < v.len(),
        forall|j: int|
            0 <= j < cmds.len() ==> (#[trigger] cmds[j] matches Command::DespawnRecursive(r)
                ==> !in_subtree(v, x, r as int)),
    ensures
        apply_spec(v, cmds)[x] == v[x],
    decreases cmds.len(),
{
    if cmds.len() > 0 {
        let rest = cmds.drop_last();
        assert forall|j: int|
            0 <= j < rest.len() implies (#[trigger] rest[j] matches Command::DespawnRecursive(r)
                ==> !in_subtree(v, x, r as int)) by {
            assert(rest[j] == cmds[j]);
        }
        lemma_apply_keeps_outside(v, rest, x);
        lemma_apply_sub_store(v, rest);
        if let Command::DespawnRecursive(e) = cmds.last() {
            let before = apply_spec(v, rest);
            assert(cmds[cmds.len() - 1] == cmds.last());
            if in_subtree(before, x, e as int) {
                lemma_subtree_of_sub_store(before, v, x, e as int);
            }
        }
    }
}

/// The ids listed as tagged with `key` are exactly the live objects tagged
/// with it.
pub proof fn lemma_tagged_ids(v: StoreSlots, key: Seq<char>, e: int)
    requires
        v.len() <= usize::MAX,
    ensures
        (exists|i: int| 0 <= i < tagged_ids(v, key).len() && tagged_ids(v, key)[i] == e) <==> has_marker(v, e, key),
    decreases v.len(),
{
    if v.len() > 0 {
        let t = v.drop_last();
        lemma_tagged_ids(t, key, e);
        let ids = tagged_ids(v, key);
        let rest = tagged_ids(t, key);
        if 0 <= e < t.len() {
            assert(t[e] == v[e]);
        }
        if has_marker(v, v.len() - 1, key) {
            assert(ids == rest.push((v.len() - 1) as usize));
            if has_marker(v, e, key) && e != v.len() - 1 {
                let i = choose|i: int| 0 <= i < rest.len() && rest[i] == e;
                assert(ids[i] == e);
            }
            if e == v.len() - 1 {
                assert(ids[rest.len() as int] == e);
            }
            if exists|i: int| 0 <= i < ids.len() && ids[i] == e {
                let i = choose|i: int| 0 <= i < ids.len() && ids[i] == e;
                if i < rest.len() {
                    assert(rest[i] == e);
                }
            }
        }
    }
}

/// A scene's shape: entry `k` is the position, within the scene, of the
/// parent of the scene's object `k + 1`; the scene's object 0 is its root.
/// A parent always comes before its child.
pub open spec fn valid_shape(shape: Seq<usize>) -> bool {
    forall|k: int| 0 <= k < shape.len() ==> #[trigger] shape[k] <= k
}

/// Object `k` of a scene of the given shape placed from id `base` on: the
/// root carries `key` and has no parent; every other object carries nothing.
pub open spec fn scene_object(base: int, shape: Seq<usize>, key: Seq<char>, k: int) -> Option<
    ObjectView,
> {
    if k == 0 {
        Some((None, seq![key]))
    } else {
        Some((Some((base + shape[k - 1]) as usize), Seq::<Seq<char>>::empty()))
    }
}

/// The first `n` objects of that scene.
pub open spec fn scene_objects(base: int, shape: Seq<usize>, key: Seq<char>, n: int) -> StoreSlots {
    Seq::new(n as nat, |k: int| scene_object(base, shape, key, k))
}

/// The store after a scene of the given shape is spawned at its end.
pub open spec fn spawn_shape(v: StoreSlots, shape: Seq<usize>, key: Seq<char>) -> StoreSlots {
    v + scene_objects(v.len() as int, shape, key, (shape.len() + 1) as int)
}

/// With no object tagged `key` but `r`, `r` is the only tagged id listed.
pub proof fn lemma_tagged_ids_single(v: StoreSlots, key: Seq<char>, r: int)
    requires
        v.len() <= usize::MAX,
        has_marker(v, r, key),
        forall|i: int| i != r ==> !has_marker(v, i, key),
    ensures
        tagged_ids(v, key) == seq![r as usize],
    decreases v.len(),
{
    let t = v.drop_last();
    assert forall|i: int| 0 <= i < t.len() implies t[i] == v[i] by {}
    if r == v.len() - 1 {
        assert forall|i: int| !has_marker(t, i, key) by {
            if 0 <= i < t.len() {
                assert(!has_marker(v, i, key));
            }
        }
        lemma_tagged_ids_none(t, key);
        assert(tagged_ids(t, key).push(r as usize) =~= seq![r as usize]);
    } else {
        assert(has_marker(t, r, key));
        assert forall|i: int| i != r implies !has_marker(t, i, key) by {
            if 0 <= i < t.len() {
                assert(!has_marker(v, i, key));
            }
        }
        lemma_tagged_ids_single(t, key, r);
    }
}

/// With no object tagged `key`, no id is listed.
pub proof fn lemma_tagged_ids_none(v: StoreSlots, key: Seq<char>)
    requires
        forall|i: int| !has_marker(v, i, key),
    ensures
        tagged_ids(v, key) == Seq::<usize>::empty(),
    decreases v.len(),
{
    if v.len() > 0 {
        let t = v.drop_last();
        assert forall|i: int| !has_marker(t, i, key) by {
            if 0 <= i < t.len() {
                assert(t[i] == v[i]);
                assert(!has_marker(v, i, key));
            }
        }
        lemma_tagged_ids_none(t, key);
        assert(!has_marker(v, v.len() - 1, key));
    }
}

/// Spawning a scene of a valid shape keeps a store well formed.
pub proof fn lemma_spawn_shape_wf(v: StoreSlots, shape: Seq<usize>, key: Seq<char>)
    requires
        store_wf(v),
        valid_shape(shape),
        v.len() + shape.len() + 1 <= usize::MAX,
    ensures
        store_wf(spawn_shape(v, shape, key)),
{
    let w = spawn_shape(v, shape, key);
    let base = v.len() as int;
    assert forall|i: int| #![trigger w[i]] live(w, i) && w[i].unwrap().0 is Some implies {
        let p = w[i].unwrap().0.unwrap() as int;
        p < i && live(w, p)
    } by {
        if i < base {
            assert(w[i] == v[i]);
            let p = v[i].unwrap().0.unwrap() as int;
            assert(live(v, i) && v[i].unwrap().0 is Some);
            assert(w[p] == v[p]);
        } else {
            let k = i - base;
            assert(w[i] == scene_object(base, shape, key, k));
            assert(shape[k - 1] <= k - 1);
            let p = base + shape[k - 1];
            assert(w[p] == scene_object(base, shape, key, p - base));
        }
    }
}

/// The object store.
pub struct ObjectStore {
    slots: Vec<Option<Object>>,
}

/// The view of one slot.
pub open spec fn slot_view(o: Option<Object>) -> Option<ObjectView> {
    match o {
        Some(obj) => Some(obj@),
        None => None,
    }
}

impl View for ObjectStore {
    type V = StoreSlots;

    closed spec fn view(&self) -> StoreSlots {
        self.slots@.map_values(|o: Option<Object>| slot_view(o))
    }
}

impl Object {
    fn has_marker(&self, key: &String) -> (r: bool)
        ensures
            r == self@.1.contains(key@),
    {
        let mut i: usize = 0;
        while i < self.markers.len()
            invariant
                i <= self.markers@.len(),
                forall|j: int| 0 <= j < i ==> self.markers@[j]@ != key@,
            decreases self.markers@.len() - i,
        {
            if self.markers[i] == *key {
                assert(self@.1[i as int] == key@);
                return true;
            }
            i = i + 1;
        }
        assert forall|j: int| 0 <= j < self@.1.len() implies self@.1[j] != key@ by {
            assert(self@.1[j] == self.markers@[j]@);
        }
        false
    }
}

impl ObjectStore {
    /// An empty store.
    pub fn new() -> (r: Self)
        ensures
            r@ == StoreSlots::empty(),
            store_wf(r@),
    {
        let r = ObjectStore { slots: Vec::new() };
        assert(r@ =~= StoreSlots::empty());
        r
    }

    /// Number of ids handed out so far; the next object gets this id.
    pub fn id_bound(&self) -> (r: usize)
        ensures
            r == self@.len(),
    {
        self.slots.len()
    }

    /// Creates an object with no parent and no marker, and returns its id.
    pub fn spawn(&mut self) -> (r: usize)
        requires
            store_wf(old(self)@),
            old(self)@.len() < usize::MAX,
        ensures
            store_wf(final(self)@),
            r == old(self)@.len(),
            final(self)@ == old(self)@.push(Some((None, Seq::<Seq<char>>::empty()))),
    {
        let r = self.slots.len();
        let obj = Object { parent: None, markers: Vec::new() };
        assert(obj@ =~= (None, Seq::<Seq<char>>::empty()));
        self.slots.push(Some(obj));
        assert(self@ =~= old(self)@.push(Some((None, Seq::<Seq<char>>::empty()))));
        r
    }

    /// Creates an object under `parent`, and returns its id; `None`, with
    /// nothing created, when `parent` is not live.
    pub fn spawn_child(&mut self, parent: usize) -> (r: Option<usize>)
        requires
            store_wf(old(self)@),
            old(self)@.len() < usize::MAX,
        ensures
            store_wf(final(self)@),
            live(old(self)@, parent as int) ==> r == Some(old(self)@.len() as usize) && final(self)@
                == old(self)@.push(Some((Some(parent), Seq::<Seq<char>>::empty()))),
            !live(old(self)@, parent as int) ==> r is None && final(self)@ == old(self)@,
    {
        if !self.contains(parent) {
            return None;
        }
        let r = self.slots.len();
        let obj = Object { parent: Some(parent), markers: Vec::new() };
        assert(obj@ =~= (Some(parent), Seq::<Seq<char>>::empty()));
        self.slots.push(Some(obj));
        assert(self@ =~= old(self)@.push(Some((Some(parent), Seq::<Seq<char>>::empty()))));
        Some(r)
    }

    /// Spawns a scene of the given shape at the end of the store: a root
    /// tagged with `key`, then one object per entry of `shape`, each under
    /// the scene object that the entry names. Returns the root's id.
    pub fn spawn_scene(&mut self, shape: &Vec<usize>, key: String) -> (root: usize)
        requires
            store_wf(old(self)@),
            valid_shape(shape@),
            old(self)@.len() + shape@.len() + 1 <= usize::MAX,
        ensures
            store_wf(final(self)@),
            root == old(self)@.len(),
            final(self)@ == spawn_shape(old(self)@, shape@, key@),
    {
        let ghost v = self@;
        let ghost k = key@;
        let root = self.spawn();
        self.insert_marker(root, key);
        assert(self@ =~= v + scene_objects(root as int, shape@, k, 1)) by {
            assert(seq![k] =~= Seq::<Seq<char>>::empty().push(k));
        }
        let mut i: usize = 0;
        while i < shape.len()
            invariant
                store_wf(self@),
                valid_shape(shape@),
                root == v.len(),
                v.len() + shape@.len() + 1 <= usize::MAX,
                i <= shape@.len(),
                self@ == v + scene_objects(root as int, shape@, k, i + 1 as int),
            decreases shape@.len() - i,
        {
            assert(shape@[i as int] <= i);
            let p = root + shape[i];
            assert(self@[p as int] == scene_object(root as int, shape@, k, p - root));
            let c = self.spawn_child(p);
            assert(self@ =~= v + scene_objects(root as int, shape@, k, i + 2 as int));
            i = i + 1;
        }
        root
    }

    /// Whether `e` names a live object.
    pub fn contains(&self, e: usize) -> (r: bool)
        ensures
            r == live(self@, e as int),
    {
        e < self.slots.len() && self.slots[e].is_some()
    }

    /// The parent of `e`, if `e` is live and has one.
    pub fn parent(&self, e: usize) -> (r: Option<usize>)
        ensures
            r == (if live(self@, e as int) {
                self@[e as int].unwrap().0
            } else {
                None
            }),
    {
        if e < self.slots.len() {
            match &self.slots[e] {
                Some(o) => o.parent,
                None => None,
            }
        } else {
            None
        }
    }

    /// Whether `e` is live and tagged with `key`.
    pub fn has_marker(&self, e: usize, key: &String) -> (r: bool)
        ensures
            r == has_marker(self@, e as int, key@),
    {
        if e < self.slots.len() {
            match &self.slots[e] {
                Some(o) => o.has_marker(key),
                None => false,
            }
        } else {
            false
        }
    }

    /// Tags the live object `e` with `key`; a tag it already has stays
    /// once. Returns whether `e` was live; the store is unchanged if not.
    pub fn insert_marker(&mut self, e: usize, key: String) -> (r: bool)
        requires
            store_wf(old(self)@),
        ensures
            store_wf(final(self)@),
            r == live(old(self)@, e as int),
            !r ==> final(self)@ == old(self)@,
            r && old(self)@[e as int].unwrap().1.contains(key@) ==> final(self)@ == old(self)@,
            r && !old(self)@[e as int].unwrap().1.contains(key@) ==> final(self)@ == old(self)@.update(
                e as int,
                Some((old(self)@[e as int].unwrap().0, old(self)@[e as int].unwrap().1.push(key@))),
            ),
    {
        if !self.contains(e) || self.has_marker(e, &key) {
            return self.contains(e);
        }
        let ghost k = key@;
        let mut slot: Option<Object> = None;
        std::mem::swap(&mut slot, &mut self.slots[e]);
        let mut obj = slot.unwrap();
        let ghost before = obj@;
        obj.markers.push(key);
        assert(obj@ =~= (before.0, before.1.push(k)));
        self.slots.set(e, Some(obj));
        assert(self@ =~= old(self)@.update(e as int, Some((before.0, before.1.push(k)))));
        true
    }

    /// The live objects tagged with `key`, in increasing id order.
    pub fn tagged(&self, key: &String) -> (r: Vec<usize>)
        ensures
            r@ == tagged_ids(self@, key@),
    {
        let mut r: Vec<usize> = Vec::new();
        let mut i: usize = 0;
        while i < self.slots.len()
            invariant
                i <= self@.len(),
                r@ == tagged_ids(self@.take(i as int), key@),
            decreases self@.len() - i,
        {
            assert(self@.take(i + 1).drop_last() =~= self@.take(i as int));
            assert(has_marker(self@.take(i + 1), i as int, key@) == has_marker(self@, i as int, key@));
            if self.has_marker(i, key) {
                r.push(i);
            }
            i = i + 1;
        }
        assert(self@.take(i as int) =~= self@);
        r
    }

    /// Destroys `root` and all of its descendants at once. Nothing happens
    /// when `root` is not live.
    pub fn despawn_recursive(&mut self, root: usize)
        requires
            store_wf(old(self)@),
        ensures
            final(self)@ == despawn_spec(old(self)@, root as int),
            store_wf(final(self)@),
    {
        let ghost v = self@;
        let mut i: usize = 0;
        while i < self.slots.len()
            invariant
                store_wf(v),
                self@.len() == v.len(),
                i <= v.len(),
                forall|j: int| 0 <= j < i ==> #[trigger] self@[j] == despawn_spec(v, root as int)[j],
                forall|j: int| i <= j < v.len() ==> #[trigger] self@[j] == v[j],
            decreases v.len() - i,
        {
            let ghost prev = self@;
            assert(self@[i as int] == slot_view(self.slots@[i as int]));
            assert(self@[i as int] == v[i as int]);
            let remove = match &self.slots[i] {
                Some(o) => {
                    assert(live(v, i as int) && v[i as int].unwrap().0 == o.parent);
                    if i == root {
                        true
                    } else {
                        match o.parent {
                            Some(p) => {
                                assert(p < i && live(v, p as int));
                                assert(self@[p as int] == slot_view(self.slots@[p as int]));
                                assert(self@[p as int] == despawn_spec(v, root as int)[p as int]);
                                self.slots[p].is_none()
                            },
                            None => false,
                        }
                    }
                },
                None => false,
            };
            assert(remove == in_subtree(v, i as int, root as int) || v[i as int] is None);
            if remove {
                self.slots.set(i, None);
                assert(self@ =~= prev.update(i as int, None));
            } else {
                assert(self@ =~= prev);
            }
            assert(self@[i as int] == despawn_spec(v, root as int)[i as int]);
            i = i + 1;
        }
        assert(self@ =~= despawn_spec(v, root as int));
        proof {
            lemma_despawn_wf(v, root as int);
        }
    }

    /// Applies the queued commands in order at the barrier, and hands back
    /// the systems to run, in order. The queue is left empty.
    pub fn apply_commands<H: Copy>(&mut self, queue: &mut CommandQueue<H>) -> (r: Vec<H>)
        requires
            store_wf(old(self)@),
        ensures
            final(self)@ == apply_spec(old(self)@, old(queue)@),
            store_wf(final(self)@),
            r@ == run_requests(old(queue)@),
            final(queue)@ == Seq::<Command<H>>::empty(),
    {
        let cmds = queue.take();
        let mut out: Vec<H> = Vec::new();
        let mut i: usize = 0;
        while i < cmds.len()
            invariant
                i <= cmds@.len(),
                self@ == apply_spec(old(self)@, cmds@.take(i as int)),
                store_wf(self@),
                out@ == run_requests(cmds@.take(i as int)),
            decreases cmds@.len() - i,
        {
            assert(cmds@.take(i + 1).drop_last() =~= cmds@.take(i as int));
            assert(cmds@.take(i + 1).last() == cmds@[i as int]);
            match &cmds[i] {
                Command::RunSystem(h) => {
                    out.push(*h);
                },
                Command::DespawnRecursive(e) => {
                    self.despawn_recursive(*e);
                },
            }
            i = i + 1;
        }
        assert(cmds@.take(i as int) =~= cmds@);
        out
    }
}

} // verus!
