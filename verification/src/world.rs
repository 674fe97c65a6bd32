//! The instances of a running game: their ids, their destruction, and the
//! sets of instances that a `with` statement runs over.
//!
//! An instance is known by its id. The ids of the instances that are
//! created are given out in rising order from 100001 on, so that no two
//! instances ever have the same id. An instance that is destroyed stays in
//! the world, and is found by its id, until the destroyed instances are
//! freed; a `with` statement passes it over.

use vstd::prelude::*;

verus! {

/// The id of the first instance that is created.
pub const FIRST_ID: i32 = 100001;

/// The value that stands for the instance itself in code.
pub const SELF: i32 = -1;

/// The value that stands for the other instance in code.
pub const OTHER: i32 = -2;

/// The value that stands for all instances in code.
pub const ALL: i32 = -3;

/// The value that stands for no instance in code.
pub const NOONE: i32 = -4;

/// An instance: its id, the index of its object, and whether it was
/// destroyed.
#[derive(Clone, Copy, Debug, PartialEq, Eq, Structural)]
pub struct Instance {
    pub id: i32,
    pub object_index: i32,
    pub destroyed: bool,
}

/// The instances that a `with` statement runs over.
#[derive(Clone, Copy, Debug, PartialEq, Eq, Structural)]
pub enum With {
    /// The instance with the id.
    Single(i32),
    /// The instances of the object with the index.
    Class(i32),
    All,
    NoOne,
}

/// Whether an instance is one that a `with` statement over `set` runs
/// over: it belongs to the set and was not destroyed.
pub open spec fn chosen(instance: Instance, set: With) -> bool {
    !instance.destroyed && match set {
        With::Single(id) => instance.id == id,
        With::Class(index) => instance.object_index == index,
        With::All => true,
        With::NoOne => false,
    }
}

/// The ids of those of the first `n` instances that a `with` statement
/// over `set` runs over, in their order.
pub open spec fn selected(instances: Seq<Instance>, set: With, n: nat) -> Seq<i32>
    decreases n,
{
    if n == 0 {
        Seq::empty()
    } else if chosen(instances[n - 1], set) {
        selected(instances, set, (n - 1) as nat).push(instances[n - 1].id)
    } else {
        selected(instances, set, (n - 1) as nat)
    }
}

/// Those of the first `n` instances that were not destroyed, in their
/// order.
pub open spec fn living(instances: Seq<Instance>, n: nat) -> Seq<Instance>
    decreases n,
{
    if n == 0 {
        Seq::empty()
    } else if instances[n - 1].destroyed {
        living(instances, (n - 1) as nat)
    } else {
        living(instances, (n - 1) as nat).push(instances[n - 1])
    }
}

/// The index of the instance with the id among the instances from index
/// `from` on.
pub open spec fn index_of(instances: Seq<Instance>, id: i32, from: int) -> Option<int>
    decreases instances.len() - from,
{
    if from < 0 || from >= instances.len() {
        None
    } else if instances[from].id == id {
        Some(from)
    } else {
        index_of(instances, id, from + 1)
    }
}

/// The ids rise from the first id on and stay below `next`.
pub open spec fn ordered(instances: Seq<Instance>, next: int) -> bool {
    &&& FIRST_ID <= next
    &&& forall|i: int| 0 <= i < instances.len() ==> FIRST_ID <= (#[trigger] instances[i]).id < next
    &&& forall|i: int, j: int|
        0 <= i < j < instances.len() ==> (#[trigger] instances[i]).id < (#[trigger] instances[j]).id
}

/// What a value of code stands for in a `with` statement, where `own` is
/// the id of the instance itself and `other` that of the other instance:
/// an id from the first id on is that instance, a number from 0 on the
/// instances of that object, and the reserved values the instance itself,
/// the other one, all and none.
pub open spec fn resolved(value: i32, own: i32, other: i32) -> With {
    if value >= FIRST_ID {
        With::Single(value)
    } else if value >= 0 {
        With::Class(value)
    } else if value == SELF {
        With::Single(own)
    } else if value == OTHER {
        With::Single(other)
    } else if value == ALL {
        With::All
    } else {
        With::NoOne
    }
}

/// What a value of code stands for in a `with` statement.
pub fn resolve(value: i32, own: i32, other: i32) -> (r: With)
    ensures
        r == resolved(value, own, other),
{
    if value >= FIRST_ID {
        With::Single(value)
    } else if value >= 0 {
        With::Class(value)
    } else if value == SELF {
        With::Single(own)
    } else if value == OTHER {
        With::Single(other)
    } else if value == ALL {
        With::All
    } else {
        With::NoOne
    }
}

/// A `with` statement over no instance runs over nothing.
pub proof fn lemma_with_noone(instances: Seq<Instance>, n: nat)
    ensures
        selected(instances, With::NoOne, n) == Seq::<i32>::empty(),
    decreases n,
{
    if n > 0 {
        lemma_with_noone(instances, (n - 1) as nat);
    }
}

/// A `with` statement over one instance that lives runs over that
/// instance, once; over one that does not live it runs over nothing.
pub proof fn lemma_with_single(instances: Seq<Instance>, next: int, id: i32, n: nat)
    requires
        ordered(instances, next),
        n <= instances.len(),
    ensures
        selected(instances, With::Single(id), n) == (if exists|i: int|
            0 <= i < n && instances[i].id == id && !instances[i].destroyed {
            seq![id]
        } else {
            Seq::empty()
        }),
    decreases n,
{
    if n > 0 {
        lemma_with_single(instances, next, id, (n - 1) as nat);
        let last = instances[n - 1];
        let before = selected(instances, With::Single(id), (n - 1) as nat);
        if chosen(last, With::Single(id)) {
            assert(!(exists|i: int| 0 <= i < n - 1 && instances[i].id == id && !instances[i].destroyed)) by {
                if exists|i: int| 0 <= i < n - 1 && instances[i].id == id && !instances[i].destroyed {
                    let i = choose|i: int|
                        0 <= i < n - 1 && instances[i].id == id && !instances[i].destroyed;
                    assert(instances[i].id < instances[n - 1].id);
                }
            }
            assert(before.push(id) =~= seq![id]);
            assert(instances[n - 1].id == id && !instances[n - 1].destroyed);
        } else {
            if exists|i: int| 0 <= i < n && instances[i].id == id && !instances[i].destroyed {
                let i = choose|i: int|
                    0 <= i < n && instances[i].id == id && !instances[i].destroyed;
                assert(i < n - 1);
            }
        }
    }
}

/// What is left of the first `n` instances once the destroyed ones are
/// freed is in order.
pub proof fn lemma_living(instances: Seq<Instance>, next: int, n: nat)
    requires
        ordered(instances, next),
        n <= instances.len(),
    ensures
        ordered(living(instances, n), next),
        forall|k: int|
            0 <= k < living(instances, n).len() ==> !(#[trigger] living(
                instances,
                n,
            )[k]).destroyed && exists|i: int|
                0 <= i < n && instances[i] == living(instances, n)[k],
    decreases n,
{
    if n > 0 {
        lemma_living(instances, next, (n - 1) as nat);
        let before = living(instances, (n - 1) as nat);
        let now = living(instances, n);
        if !instances[n - 1].destroyed {
            assert forall|k: int| 0 <= k < now.len() implies !(#[trigger] now[k]).destroyed
                && exists|i: int| 0 <= i < n && instances[i] == now[k] by {
                if k < before.len() {
                    assert(now[k] == before[k]);
                    let i = choose|i: int| 0 <= i < n - 1 && instances[i] == before[k];
                    assert(0 <= i < n && instances[i] == now[k]);
                } else {
                    assert(instances[n - 1] == now[k]);
                }
            }
            assert forall|a: int, b: int| 0 <= a < b < now.len() implies (#[trigger] now[a]).id < (
            #[trigger] now[b]).id by {
                if b < before.len() {
                    assert(now[a] == before[a] && now[b] == before[b]);
                } else {
                    assert(now[a] == before[a]);
                    let i = choose|i: int| 0 <= i < n - 1 && instances[i] == before[a];
                    assert(instances[i].id < instances[n - 1].id);
                }
            }
            assert forall|k: int| 0 <= k < now.len() implies FIRST_ID <= (#[trigger] now[k]).id
                < next by {
                if k < before.len() {
                    assert(now[k] == before[k]);
                }
            }
        }
    }
}

/// The instances of a game, in the order in which they were created.
#[derive(Debug)]
pub struct World {
    instances: Vec<Instance>,
    next: i32,
}

impl View for World {
    type V = Seq<Instance>;

    closed spec fn view(&self) -> Seq<Instance> {
        self.instances@
    }
}

impl World {
    /// The id that the next instance gets.
    pub closed spec fn next(&self) -> int {
        self.next as int
    }

    /// The ids of the instances rise, from the first id on, and lie below
    /// the id that the next instance gets.
    pub open spec fn wf(&self) -> bool {
        ordered(self@, self.next())
    }

    /// A world without instances.
    pub fn new() -> (r: World)
        ensures
            r.wf(),
            r@ == Seq::<Instance>::empty(),
            r.next() == FIRST_ID,
    {
        World { instances: Vec::new(), next: FIRST_ID }
    }

    /// Whether every id has been given out.
    pub fn is_full(&self) -> (r: bool)
        ensures
            r == (self.next() == i32::MAX),
    {
        self.next == i32::MAX
    }

    /// Creates an instance of the object with the index, behind all the
    /// others, and gives its id: the next id, which no instance has or
    /// has had.
    pub fn create_instance(&mut self, object_index: i32) -> (id: i32)
        requires
            old(self).wf(),
            old(self).next() < i32::MAX,
        ensures
            final(self).wf(),
            id == old(self).next(),
            final(self).next() == id + 1,
            id >= FIRST_ID,
            forall|i: int| 0 <= i < old(self)@.len() ==> old(self)@[i].id != id,
            final(self)@ == old(self)@.push(Instance { id, object_index, destroyed: false }),
    {
        let id = self.next;
        self.instances.push(Instance { id, object_index, destroyed: false });
        self.next = id + 1;
        id
    }

    /// The index of the instance with the id, destroyed or not.
    pub fn find(&self, id: i32) -> (r: Option<usize>)
        ensures
            match r {
                Some(i) => index_of(self@, id, 0) == Some(i as int) && i < self@.len()
                    && self@[i as int].id == id,
                None => index_of(self@, id, 0).is_none() && forall|i: int|
                    0 <= i < self@.len() ==> self@[i].id != id,
            },
    {
        let mut i: usize = 0;
        while i < self.instances.len()
            invariant
                i <= self@.len(),
                index_of(self@, id, 0) == index_of(self@, id, i as int),
                forall|j: int| 0 <= j < i ==> self@[j].id != id,
            decreases self@.len() - i,
        {
            if self.instances[i].id == id {
                return Some(i);
            }
            i = i + 1;
        }
        None
    }

    /// Marks the instance with the id as destroyed and tells whether there
    /// is such an instance. The instance stays in the world.
    pub fn destroy(&mut self, id: i32) -> (r: bool)
        requires
            old(self).wf(),
        ensures
            final(self).wf(),
            final(self).next() == old(self).next(),
            final(self)@.len() == old(self)@.len(),
            r == index_of(old(self)@, id, 0).is_some(),
            forall|i: int|
                0 <= i < old(self)@.len() ==> (#[trigger] final(self)@[i]) == (if old(self)@[i].id
                    == id {
                    Instance { id, object_index: old(self)@[i].object_index, destroyed: true }
                } else {
                    old(self)@[i]
                }),
    {
        match self.find(id) {
            Some(i) => {
                let instance = self.instances[i];
                self.instances[i] = Instance {
                    id,
                    object_index: instance.object_index,
                    destroyed: true,
                };
                proof {
                    assert forall|k: int| 0 <= k < old(self)@.len() implies (
                    #[trigger] self@[k]) == (if old(self)@[k].id == id {
                        Instance { id, object_index: old(self)@[k].object_index, destroyed: true }
                    } else {
                        old(self)@[k]
                    }) by {
                        if k != i {
                            if k < i {
                                assert(old(self)@[k].id < old(self)@[i as int].id);
                            } else {
                                assert(old(self)@[i as int].id < old(self)@[k].id);
                            }
                        }
                    }
                }
                true
            },
            None => false,
        }
    }

    /// Removes the instances that were destroyed. Those that live stay, in
    /// their order.
    pub fn free_destroyed(&mut self)
        requires
            old(self).wf(),
        ensures
            final(self).wf(),
            final(self).next() == old(self).next(),
            final(self)@ == living(old(self)@, old(self)@.len()),
    {
        let mut kept: Vec<Instance> = Vec::new();
        let mut i: usize = 0;
        while i < self.instances.len()
            invariant
                i <= self@.len(),
                self@ == old(self)@,
                self.next() == old(self).next(),
                kept@ == living(self@, i as nat),
            decreases self@.len() - i,
        {
            let instance = self.instances[i];
            if !instance.destroyed {
                kept.push(instance);
            }
            i = i + 1;
        }
        proof {
            lemma_living(self@, self.next(), self@.len());
        }
        self.instances = kept;
    }

    /// The ids of the instances that a `with` statement over `set` runs
    /// over, in the order in which the instances were created. Destroyed
    /// instances are passed over.
    pub fn iterate(&self, set: With) -> (r: Vec<i32>)
        ensures
            r@ == selected(self@, set, self@.len()),
    {
        let mut ids: Vec<i32> = Vec::new();
        let mut i: usize = 0;
        while i < self.instances.len()
            invariant
                i <= self@.len(),
                ids@ == selected(self@, set, i as nat),
            decreases self@.len() - i,
        {
            let instance = self.instances[i];
            let belongs = match set {
                With::Single(id) => instance.id == id,
                With::Class(index) => instance.object_index == index,
                With::All => true,
                With::NoOne => false,
            };
            if !instance.destroyed && belongs {
                ids.push(instance.id);
            }
            i = i + 1;
        }
        ids
    }
}

/// The ids of the instances of a world are from the first id on, and no
/// two instances have the same id.
pub proof fn lemma_ids(world: World, i: int, j: int)
    requires
        world.wf(),
        0 <= i < world@.len(),
        0 <= j < world@.len(),
        i != j,
    ensures
        world@[i].id >= FIRST_ID,
        world@[i].id != world@[j].id,
{
    if i < j {
        assert(world@[i].id < world@[j].id);
    } else {
        assert(world@[j].id < world@[i].id);
    }
}

} // verus!
