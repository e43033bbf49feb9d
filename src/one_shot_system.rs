//! The callback registry: a table from marker keys to system handles.
//!
//! Entries are added once and never removed or overwritten. A system is
//! reached only through its key, so every caller that names the same marker
//! type reaches the same system.
use crate::commands::{Command, CommandQueue};
use crate::markers::{Marker, MarkerComponent};
use vstd::prelude::*;

verus! {

/// Why a registry or scene operation was refused.
#[derive(PartialEq, Eq, Structural, Debug, Clone, Copy)]
pub enum SceneError {
    /// A system is already registered under the key.
    DuplicateRegistration,
    /// No system was ever registered under the key.
    NotRegistered,
}

/// One row of the registry table.
pub struct SystemEntry<H> {
    key: String,
    system: H,
}

/// The table as a map from key to handle; a later row wins over an
/// earlier one (rows never share a key in a well-formed table).
pub open spec fn entries_map<H>(s: Seq<(Seq<char>, H)>) -> Map<Seq<char>, H>
    decreases s.len(),
{
    if s.len() == 0 {
        Map::empty()
    } else {
        entries_map(s.drop_last()).insert(s.last().0, s.last().1)
    }
}

/// What registering `system` under `key` does to the table `m`, and what it returns.
pub open spec fn register_outcome<H>(m: Map<Seq<char>, H>, key: Seq<char>, system: H) -> (
    Map<Seq<char>, H>,
    Result<(), SceneError>,
) {
    if m.dom().contains(key) {
        (m, Err(SceneError::DuplicateRegistration))
    } else {
        (m.insert(key, system), Ok(()))
    }
}

/// What invoking `key` through the table `m` does to the command queue `q`,
/// and what it returns.
pub open spec fn invoke_outcome<H>(m: Map<Seq<char>, H>, q: Seq<Command<H>>, key: Seq<char>) -> (
    Seq<Command<H>>,
    Result<(), SceneError>,
) {
    if m.dom().contains(key) {
        (q.push(Command::RunSystem(m[key])), Ok(()))
    } else {
        (q, Err(SceneError::NotRegistered))
    }
}

/// Registering a second system under a key that was just registered fails
/// with `DuplicateRegistration` and keeps the first system.
pub proof fn lemma_register_twice_fails<H>(m: Map<Seq<char>, H>, key: Seq<char>, first: H, second: H)
    ensures
        register_outcome(register_outcome(m, key, first).0, key, second) == (
            register_outcome(m, key, first).0,
            Err::<(), SceneError>(SceneError::DuplicateRegistration),
        ),
        register_outcome(m, key, first).0[key] == (if m.dom().contains(key) {
            m[key]
        } else {
            first
        }),
{
}

/// After a successful registration, each invocation of the key queues
/// exactly one run of the registered system: one invocation one run, two
/// invocations two runs.
pub proof fn lemma_register_then_invoke<H>(
    m: Map<Seq<char>, H>,
    q: Seq<Command<H>>,
    key: Seq<char>,
    system: H,
)
    requires
        !m.dom().contains(key),
    ensures
        ({
            let m1 = register_outcome(m, key, system).0;
            &&& register_outcome(m, key, system).1 == Ok::<(), SceneError>(())
            &&& invoke_outcome(m1, q, key) == (q.push(Command::RunSystem(system)), Ok::<
                (),
                SceneError,
            >(()))
            &&& invoke_outcome(m1, invoke_outcome(m1, q, key).0, key) == (q.push(
                Command::RunSystem(system),
            ).push(Command::RunSystem(system)), Ok::<(), SceneError>(()))
        }),
{
}

/// Invoking a key with no system fails with `NotRegistered` and leaves the
/// command queue as it was.
pub proof fn lemma_invoke_unregistered<H>(m: Map<Seq<char>, H>, q: Seq<Command<H>>, key: Seq<char>)
    requires
        !m.dom().contains(key),
    ensures
        invoke_outcome(m, q, key) == (q, Err::<(), SceneError>(SceneError::NotRegistered)),
{
}

proof fn lemma_entries_map<H>(s: Seq<(Seq<char>, H)>, k: Seq<char>)
    ensures
        entries_map(s).contains_key(k) <==> exists|j: int| 0 <= j < s.len() && s[j].0 == k,
        forall|j: int|
            0 <= j < s.len() && s[j].0 == k && (forall|i: int|
                0 <= i < s.len() && i != j ==> s[i].0 != s[j].0) ==> entries_map(s)[k] == s[j].1,
    decreases s.len(),
{
    if s.len() > 0 {
        let t = s.drop_last();
        lemma_entries_map(t, k);
        assert forall|j: int| 0 <= j < t.len() implies t[j] == s[j] by {}
        if entries_map(s).contains_key(k) && s.last().0 != k {
            let j = choose|j: int| 0 <= j < t.len() && t[j].0 == k;
            assert(s[j].0 == k);
        }
        assert forall|j: int|
            0 <= j < s.len() && s[j].0 == k && (forall|i: int|
                0 <= i < s.len() && i != j ==> s[i].0 != s[j].0) implies entries_map(s)[k]
            == s[j].1 by {
            if j < s.len() - 1 {
                assert(s[s.len() - 1].0 != s[j].0);
                assert(t[j].0 == k);
                assert forall|i: int| 0 <= i < t.len() && i != j implies t[i].0 != t[j].0 by {
                    assert(s[i].0 != s[j].0);
                }
            }
        }
    }
}

/// The registry of one-shot systems, keyed by marker type.
pub struct OneShotSystemIds<H> {
    entries: Vec<SystemEntry<H>>,
}

impl<H> OneShotSystemIds<H> {
    /// The rows of the table, as (key, handle) pairs.
    pub closed spec fn rows(&self) -> Seq<(Seq<char>, H)> {
        self.entries@.map_values(|e: SystemEntry<H>| (e.key@, e.system))
    }

    /// No two rows share a key.
    pub closed spec fn wf(&self) -> bool {
        forall|i: int, j: int|
            0 <= i < self.rows().len() && 0 <= j < self.rows().len() && i != j
                ==> self.rows()[i].0 != self.rows()[j].0
    }
}

impl<H> View for OneShotSystemIds<H> {
    type V = Map<Seq<char>, H>;

    closed spec fn view(&self) -> Map<Seq<char>, H> {
        entries_map(self.rows())
    }
}

impl<H: Copy> OneShotSystemIds<H> {
    /// An empty registry.
    pub fn new() -> (r: Self)
        ensures
            r.wf(),
            r@ == Map::<Seq<char>, H>::empty(),
    {
        let r = OneShotSystemIds { entries: Vec::new() };
        assert(r.rows().len() == 0);
        r
    }

    /// Finds the row that holds `key`.
    fn find(&self, key: &String) -> (r: Option<usize>)
        requires
            self.wf(),
        ensures
            r.is_none() <==> !self@.dom().contains(key@),
            r matches Some(i) ==> i < self.entries@.len() && self.entries@[i as int].key@ == key@
                && self@.dom().contains(key@) && self@[key@] == self.entries@[i as int].system,
    {
        proof {
            lemma_entries_map(self.rows(), key@);
        }
        let mut i: usize = 0;
        while i < self.entries.len()
            invariant
                self.wf(),
                entries_map(self.rows()).contains_key(key@) <==> exists|j: int|
                    0 <= j < self.rows().len() && self.rows()[j].0 == key@,
                forall|j: int|
                    0 <= j < self.rows().len() && self.rows()[j].0 == key@ && (forall|x: int|
                        0 <= x < self.rows().len() && x != j ==> self.rows()[x].0
                            != self.rows()[j].0) ==> entries_map(self.rows())[key@]
                        == self.rows()[j].1,
                i <= self.entries@.len(),
                forall|j: int| 0 <= j < i ==> self.rows()[j].0 != key@,
            decreases self.entries@.len() - i,
        {
            assert(self.rows()[i as int] == (self.entries@[i as int].key@, self.entries@[i as int].system));
            if self.entries[i].key == *key {
                return Some(i);
            }
            i = i + 1;
        }
        assert forall|j: int| 0 <= j < self.rows().len() implies self.rows()[j].0 != key@ by {}
        None
    }

    /// Whether a system is registered under `key`.
    pub fn contains_key(&self, key: &String) -> (r: bool)
        requires
            self.wf(),
        ensures
            r == self@.dom().contains(key@),
    {
        self.find(key).is_some()
    }

    /// The handle registered under `key`, if any.
    pub fn get(&self, key: &String) -> (r: Option<H>)
        requires
            self.wf(),
        ensures
            r == (if self@.dom().contains(key@) {
                Some(self@[key@])
            } else {
                None
            }),
    {
        match self.find(key) {
            Some(i) => Some(self.entries[i].system),
            None => None,
        }
    }

    /// Stores `system` under `key`. A key takes one system only: a second
    /// registration is refused and leaves the table as it was.
    pub fn register(&mut self, key: String, system: H) -> (r: Result<(), SceneError>)
        requires
            old(self).wf(),
        ensures
            final(self).wf(),
            (final(self)@, r) == register_outcome(old(self)@, key@, system),
    {
        if self.find(&key).is_some() {
            return Err(SceneError::DuplicateRegistration);
        }
        let ghost k = key@;
        proof {
            lemma_entries_map(old(self).rows(), k);
        }
        self.entries.push(SystemEntry { key, system });
        assert(self.rows().drop_last() =~= old(self).rows());
        assert(self.rows().last() == (k, system));
        assert forall|i: int, j: int|
            0 <= i < self.rows().len() && 0 <= j < self.rows().len() && i != j
                implies self.rows()[i].0 != self.rows()[j].0 by {
            if i < old(self).rows().len() {
                assert(self.rows()[i] == old(self).rows()[i]);
            }
            if j < old(self).rows().len() {
                assert(self.rows()[j] == old(self).rows()[j]);
            }
        }
        assert(self@ == old(self)@.insert(k, system));
        Ok(())
    }

    /// Registers `system` under the key of the marker type `M`.
    pub fn register_one_shot_system<M: Marker>(
        &mut self,
        marker: MarkerComponent<M>,
        system: H,
    ) -> (r: Result<(), SceneError>)
        requires
            old(self).wf(),
        ensures
            final(self).wf(),
            (final(self)@, r) == register_outcome(old(self)@, M::key_spec(), system),
    {
        self.register(marker.key(), system)
    }

    /// Resolves `key` and queues a run of its system. Fails with
    /// `NotRegistered`, queueing nothing, when the key has no system.
    pub fn run(&self, key: &String, commands: &mut CommandQueue<H>) -> (r: Result<(), SceneError>)
        requires
            self.wf(),
        ensures
            (final(commands)@, r) == invoke_outcome(self@, old(commands)@, key@),
    {
        match self.get(key) {
            Some(system) => {
                commands.run_system(system);
                Ok(())
            },
            None => Err(SceneError::NotRegistered),
        }
    }
}

} // verus!
