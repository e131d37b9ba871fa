//! A pre-allocated array of entries. Each entry is reached through a key made of
//! its index and the random id it was given when it was added; a key whose id no
//! longer matches the entry is refused.
use vstd::prelude::*;

use crate::random::random_u64;

verus! {

/// A key: the index of an entry and the id it carries.
pub type Eid = (usize, u64);

/// An entry: its id (0 for an entry that is not in use) and its data.
pub type Ent<T> = (u64, Option<T>);

/// Why an access was refused, or why an iteration should stop.
#[derive(Debug, Clone, Copy, PartialEq, Eq, Structural)]
pub enum EntErr {
    /// The key's id matches its entry's, but there is no data to hand out:
    /// the entry holds none, or the id is 0, which marks an entry not in use.
    NoData,
    /// The key's id does not match the entry's id.
    Invalid,
    /// Every entry is in use.
    Maxed,
    /// Returned by the closure of `each` or `each_mut` to stop the iteration.
    Break,
}

/// The abstract state of a `Cubby`: its entries, and the stack of free
/// indices whose top (the last element) is handed out by the next add.
#[verifier::ext_equal]
pub struct CubbyModel<T> {
    pub slots: Seq<Ent<T>>,
    pub free: Seq<usize>,
}

/// Whether some key of `keys` has index `i`.
pub open spec fn has_index(keys: Seq<Eid>, i: int) -> bool {
    exists|j: int| 0 <= j < keys.len() && keys[j].0 == i
}

impl<T> CubbyModel<T> {
    /// The state of a new store with room for `size` entries: every entry is
    /// unused and empty, and the free indices are handed out from 0 upwards.
    pub open spec fn fresh(size: nat) -> Self {
        CubbyModel {
            slots: Seq::new(size, |i: int| (0u64, None::<T>)),
            free: Seq::new(size, |k: int| (size - 1 - k) as usize),
        }
    }

    /// Every free index is in bounds and occurs once; an index is free
    /// exactly when its entry's id is 0; and every entry in use holds data.
    pub open spec fn wf(self) -> bool {
        &&& forall|k: int| 0 <= k < self.free.len() ==> #[trigger] self.free[k] < self.slots.len()
        &&& forall|j: int, k: int|
            0 <= j < k < self.free.len() ==> #[trigger] self.free[j] != #[trigger] self.free[k]
        &&& forall|i: int|
            0 <= i < self.slots.len() ==> (#[trigger] self.slots[i].0 == 0 <==> self.is_free(i))
        &&& forall|i: int|
            0 <= i < self.slots.len() && #[trigger] self.slots[i].0 != 0 ==> self.slots[i].1 is Some
    }

    /// Whether index `i` is on the free stack.
    pub open spec fn is_free(self, i: int) -> bool {
        exists|k: int| 0 <= k < self.free.len() && self.free[k] == i
    }

    /// Whether the entry at index `i` is in use (its id is not 0).
    pub open spec fn is_live(self, i: int) -> bool {
        0 <= i < self.slots.len() && self.slots[i].0 > 0
    }

    /// The data held at index `i`.
    pub open spec fn data(self, i: int) -> T {
        self.slots[i].1->Some_0
    }

    /// The key of the entry at index `i`.
    pub open spec fn key_at(self, i: int) -> Eid {
        (i as usize, self.slots[i].0)
    }

    /// Whether `r` is what a search with `f` answers: the keys of the entries
    /// in use, in index order, for which `f` answered `true`, every other
    /// entry in use having answered `false`.
    pub open spec fn found<F: FnMut(&T) -> bool>(self, f: F, r: Seq<Eid>) -> bool {
        &&& forall|j: int|
            0 <= j < r.len() ==> {
                &&& self.is_live(#[trigger] r[j].0 as int)
                &&& r[j] == self.key_at(r[j].0 as int)
                &&& f.ensures((&self.data(r[j].0 as int),), true)
            }
        &&& forall|j: int, k: int| 0 <= j < k < r.len() ==> r[j].0 < r[k].0
        &&& forall|i: int|
            #[trigger] self.is_live(i) && !has_index(r, i) ==> f.ensures((&self.data(i),), false)
    }

    /// Whether `r` is what a search for the first match with `f` answers: the
    /// key of the first entry in use, in index order, for which `f` answered
    /// `true`, every entry in use before it having answered `false`; or
    /// `None`, every entry in use having answered `false`.
    pub open spec fn found_first<F: FnMut(&T) -> bool>(self, f: F, r: Option<Eid>) -> bool {
        match r {
            Some(key) => {
                &&& self.is_live(key.0 as int)
                &&& key == self.key_at(key.0 as int)
                &&& f.ensures((&self.data(key.0 as int),), true)
                &&& forall|k: int|
                    0 <= k < key.0 && #[trigger] self.is_live(k) ==> f.ensures((&self.data(k),), false)
            },
            None => forall|k: int| #[trigger] self.is_live(k) ==> f.ensures((&self.data(k),), false),
        }
    }

    /// Whether a visit that calls `f`, in index order, on the data of every
    /// entry in use, ends at index `stop`: every entry in use before `stop`
    /// answered something other than `Some(Break)`, and, unless `stop` is
    /// the number of entries, the entry at `stop` is in use and answered
    /// `Some(Break)`.
    pub open spec fn visit_ends_at<F: FnMut(&T) -> Option<EntErr>>(self, f: F, stop: int) -> bool {
        &&& 0 <= stop <= self.slots.len()
        &&& forall|i: int|
            0 <= i < stop && #[trigger] self.is_live(i) ==> exists|o: Option<EntErr>|
                o != Some(EntErr::Break) && f.ensures((&self.data(i),), o)
        &&& stop < self.slots.len() ==> {
            &&& self.is_live(stop)
            &&& f.ensures((&self.data(stop),), Some(EntErr::Break))
        }
    }

    /// What a lookup with key `e` finds: `Invalid` when the key's id differs
    /// from the entry's; `NoData` when both ids are 0 (id 0 marks an entry not
    /// in use, whose data, if any, is not handed out) or the entry holds no
    /// data; the data otherwise.
    pub open spec fn entry(self, e: Eid) -> Result<T, EntErr> {
        let s = self.slots[e.0 as int];
        if s.0 != e.1 {
            Err(EntErr::Invalid)
        } else if e.1 == 0 {
            Err(EntErr::NoData)
        } else {
            match s.1 {
                Some(d) => Ok(d),
                None => Err(EntErr::NoData),
            }
        }
    }

    /// The state after adding `v` under the id `id`, and the result: the
    /// entry at the top of the free stack takes `(id, Some(v))`, or, with no
    /// free index left, nothing changes and the add is refused.
    pub open spec fn added(self, v: T, id: u64) -> (Self, Result<Eid, EntErr>) {
        if self.free.len() == 0 {
            (self, Err(EntErr::Maxed))
        } else {
            let idx = self.free.last();
            (
                CubbyModel {
                    slots: self.slots.update(idx as int, (id, Some(v))),
                    free: self.free.drop_last(),
                },
                Ok((idx, id)),
            )
        }
    }

    /// The state after adding the values `vs` one after another, the `k`-th
    /// under the id `ids[k]`, and the result of each add.
    pub open spec fn added_all(self, vs: Seq<T>, ids: Seq<u64>) -> (Self, Seq<Result<Eid, EntErr>>)
        decreases vs.len(),
    {
        if vs.len() == 0 {
            (self, Seq::empty())
        } else {
            let before = self.added_all(vs.drop_last(), ids.drop_last());
            let step = before.0.added(vs.last(), ids[vs.len() - 1]);
            (step.0, before.1.push(step.1))
        }
    }

    /// The state after removing the entry of key `e`, and whether it was
    /// removed: when the key reaches its entry (a nonzero, matching id) the
    /// entry's id becomes 0 (its data stays) and its index is pushed on the
    /// free stack.
    pub open spec fn removed(self, e: Eid) -> (Self, bool) {
        let s = self.slots[e.0 as int];
        if e.1 != 0 && s.0 == e.1 {
            (
                CubbyModel {
                    slots: self.slots.update(e.0 as int, (0u64, s.1)),
                    free: self.free.push(e.0),
                },
                true,
            )
        } else {
            (self, false)
        }
    }
}

/// A fixed-capacity store of entries of type `T`.
pub struct Cubby<T> {
    ents: Vec<Ent<T>>,
    dead: Vec<usize>,
}

impl<T> View for Cubby<T> {
    type V = CubbyModel<T>;

    closed spec fn view(&self) -> CubbyModel<T> {
        CubbyModel { slots: self.ents@, free: self.dead@ }
    }
}

impl<T> Cubby<T> {
    /// The store's invariant, which every constructor establishes and every
    /// method keeps.
    pub open spec fn wf(&self) -> bool {
        self@.wf()
    }

    /// A store with room for `s` entries, all unused.
    pub fn new(s: usize) -> (c: Cubby<T>)
        ensures
            c@ == CubbyModel::<T>::fresh(s as nat),
            c.wf(),
    {
        let mut ents: Vec<Ent<T>> = Vec::new();
        let mut k: usize = 0;
        while k < s
            invariant
                k <= s,
                ents@.len() == k,
                forall|i: int| 0 <= i < k ==> ents@[i] == (0u64, None::<T>),
            decreases s - k,
        {
            ents.push((0, None));
            k = k + 1;
        }
        let mut dead: Vec<usize> = Vec::new();
        let mut n: usize = s;
        while n > 0
            invariant
                n <= s,
                dead@.len() == s - n,
                forall|j: int| 0 <= j < s - n ==> dead@[j] == s - 1 - j,
            decreases n,
        {
            n = n - 1;
            dead.push(n);
        }
        let c = Cubby { ents, dead };
        assert(c@ =~= CubbyModel::<T>::fresh(s as nat));
        proof {
            lemma_fresh::<T>(s as nat);
        }
        c
    }

    /// Calls `f` on the data that key `e` reaches and returns what `f` returns;
    /// refuses a key whose id does not match (`Invalid`), and a key whose id
    /// is 0 or whose entry holds no data (`NoData`).
    pub fn with<W, F: Fn(&T) -> W>(&self, e: Eid, f: F) -> (r: Result<W, EntErr>)
        requires
            e.0 < self@.slots.len(),
            self@.entry(e) is Ok ==> f.requires((&self@.entry(e)->Ok_0,)),
        ensures
            match self@.entry(e) {
                Ok(d) => r is Ok && f.ensures((&d,), r->Ok_0),
                Err(x) => r == Err::<W, EntErr>(x),
            },
    {
        let ent = &self.ents[e.0];
        if ent.0 == e.1 {
            if e.1 == 0 {
                return Err(EntErr::NoData);
            }
            match &ent.1 {
                Some(d) => Ok(f(d)),
                None => Err(EntErr::NoData),
            }
        } else {
            Err(EntErr::Invalid)
        }
    }

    /// Calls `f` on the data that key `e` reaches, which `f` may change, and
    /// returns what `f` returns; refuses keys as `with` does.
    pub fn with_mut<W, F: FnOnce(&mut T) -> W>(&mut self, e: Eid, f: F) -> (r: Result<W, EntErr>)
        requires
            old(self).wf(),
            e.0 < old(self)@.slots.len(),
            old(self)@.entry(e) is Ok ==> forall|m: &mut T|
                mut_ref_current(m) == old(self)@.entry(e)->Ok_0 ==> f.requires((m,)),
        ensures
            final(self).wf(),
            final(self)@.free == old(self)@.free,
            match old(self)@.entry(e) {
                Ok(d) => r is Ok && exists|m: &mut T|
                    {
                        &&& mut_ref_current(m) == d
                        &&& final(self)@.slots == old(self)@.slots.update(
                            e.0 as int,
                            (e.1, Some(mut_ref_future(m))),
                        )
                        &&& f.ensures((m,), r->Ok_0)
                    },
                Err(x) => r == Err::<W, EntErr>(x) && final(self)@ == old(self)@,
            },
    {
        let ent = &mut self.ents[e.0];
        let r = if ent.0 == e.1 {
            if e.1 == 0 {
                Err(EntErr::NoData)
            } else {
                match &mut ent.1 {
                    Some(d) => Ok(f(d)),
                    None => Err(EntErr::NoData),
                }
            }
        } else {
            Err(EntErr::Invalid)
        };
        proof {
            assert(self@.free == old(self)@.free);
            assert(self@.slots.len() == old(self)@.slots.len());
            assert forall|i: int|
                0 <= i < self@.slots.len() && #[trigger] self@.slots[i].0 != 0 implies self@.slots[i].1 is Some by {
                if i != e.0 {
                    assert(old(self)@.slots[i] == self@.slots[i]);
                }
            }
        }
        r
    }

    /// The keys of the entries in use whose data `f` accepts, in index order.
    pub fn find<F: FnMut(&T) -> bool>(&self, mut f: F) -> (r: Vec<Eid>)
        requires
            self.wf(),
            forall|i: int| #[trigger] self@.is_live(i) ==> f.requires((&self@.data(i),)),
        ensures
            self@.found(f, r@),
    {
        let mut v: Vec<Eid> = Vec::new();
        let ghost f0 = f;
        let n = self.ents.len();
        let mut i: usize = 0;
        while i < n
            invariant
                f == f0,
                self.wf(),
                n == self@.slots.len(),
                i <= n,
                forall|k: int| #[trigger] self@.is_live(k) ==> f.requires((&self@.data(k),)),
                forall|j: int|
                    0 <= j < v@.len() ==> {
                        &&& (#[trigger] v@[j]).0 < i
                        &&& self@.is_live(v@[j].0 as int)
                        &&& v@[j] == self@.key_at(v@[j].0 as int)
                        &&& f.ensures((&self@.data(v@[j].0 as int),), true)
                    },
                forall|j: int, k: int| 0 <= j < k < v@.len() ==> v@[j].0 < v@[k].0,
                forall|k: int|
                    0 <= k < i && #[trigger] self@.is_live(k) && !has_index(v@, k) ==> f.ensures(
                        (&self@.data(k),),
                        false,
                    ),
            ensures
                i == n,
                forall|j: int|
                    0 <= j < v@.len() ==> {
                        &&& self@.is_live(#[trigger] v@[j].0 as int)
                        &&& v@[j] == self@.key_at(v@[j].0 as int)
                        &&& f.ensures((&self@.data(v@[j].0 as int),), true)
                    },
                forall|j: int, k: int| 0 <= j < k < v@.len() ==> v@[j].0 < v@[k].0,
                forall|k: int|
                    0 <= k < i && #[trigger] self@.is_live(k) && !has_index(v@, k) ==> f.ensures(
                        (&self@.data(k),),
                        false,
                    ),
            decreases n - i,
        {
            let ent = &self.ents[i];
            if ent.0 > 0 {
                match &ent.1 {
                    Some(d) => {
                        let ghost before = v@;
                        assert(self@.is_live(i as int));
                        if f(d) {
                            v.push((i, ent.0));
                            assert(v@[v@.len() - 1] == (i, ent.0));
                        }
                        assert forall|k: int|
                            0 <= k < i + 1 && #[trigger] self@.is_live(k) && !has_index(v@, k) implies f.ensures(
                            (&self@.data(k),),
                            false,
                        ) by {
                            if k < i {
                                if has_index(before, k) {
                                    let j = choose|j: int| 0 <= j < before.len() && before[j].0 == k;
                                    assert(v@[j] == before[j]);
                                }
                            } else if has_index(v@, k) {
                            } else {
                                assert(v@ == before);
                            }
                        }
                    },
                    None => {
                        assert(false);
                        break;
                    },
                }
            }
            i = i + 1;
        }
        v
    }

    /// The key of the first entry in use, in index order, whose data `f`
    /// accepts, or `None` when `f` accepts none.
    pub fn first<F: Fn(&T) -> bool>(&self, f: F) -> (r: Option<Eid>)
        requires
            self.wf(),
            forall|i: int| #[trigger] self@.is_live(i) ==> f.requires((&self@.data(i),)),
        ensures
            self@.found_first(f, r),
    {
        let n = self.ents.len();
        let mut i: usize = 0;
        while i < n
            invariant
                self.wf(),
                n == self@.slots.len(),
                i <= n,
                forall|k: int| #[trigger] self@.is_live(k) ==> f.requires((&self@.data(k),)),
                forall|k: int| 0 <= k < i && #[trigger] self@.is_live(k) ==> f.ensures((&self@.data(k),), false),
            decreases n - i,
        {
            let ent = &self.ents[i];
            if ent.0 > 0 {
                match &ent.1 {
                    Some(d) => {
                        assert(self@.is_live(i as int));
                        if f(d) {
                            return Some((i, ent.0));
                        }
                    },
                    None => {
                        assert(false);
                        return None;
                    },
                }
            }
            i = i + 1;
        }
        None
    }

    /// Calls `f`, in index order, on the data of every entry in use, and stops
    /// after the first call that answers `Some(Break)`.
    pub fn each<F: FnMut(&T) -> Option<EntErr>>(&self, mut f: F)
        requires
            self.wf(),
            forall|i: int| #[trigger] self@.is_live(i) ==> f.requires((&self@.data(i),)),
        ensures
            exists|stop: int| self@.visit_ends_at(f, stop),
    {
        let ghost f0 = f;
        let n = self.ents.len();
        let mut i: usize = 0;
        while i < n
            invariant_except_break
                forall|k: int|
                    0 <= k < i && #[trigger] self@.is_live(k) ==> exists|o: Option<EntErr>|
                        o != Some(EntErr::Break) && f.ensures((&self@.data(k),), o),
            invariant
                f == f0,
                self.wf(),
                n == self@.slots.len(),
                i <= n,
                forall|k: int| #[trigger] self@.is_live(k) ==> f.requires((&self@.data(k),)),
            ensures
                self@.visit_ends_at(f, i as int),
            decreases n - i,
        {
            let ent = &self.ents[i];
            if ent.0 > 0 {
                match &ent.1 {
                    Some(d) => {
                        assert(self@.is_live(i as int));
                        let out = f(d);
                        match out {
                            Some(EntErr::Break) => {
                                break;
                            },
                            _ => {},
                        }
                    },
                    None => {
                        assert(false);
                        break;
                    },
                }
            }
            i = i + 1;
        }
    }

    /// Calls `f`, in index order, on the data of every entry in use, which `f`
    /// may change, and stops after the first call that answers `Some(Break)`.
    /// Ids and free indices stay; each visited entry holds what `f` left in
    /// it; the entries after the stopping point, and those not in use, stay.
    pub fn each_mut<F: FnMut(&mut T) -> Option<EntErr>>(&mut self, mut f: F)
        requires
            old(self).wf(),
            forall|i: int, m: &mut T|
                #[trigger] old(self)@.is_live(i) && mut_ref_current(m) == old(self)@.data(i)
                    ==> #[trigger] f.requires((m,)),
        ensures
            final(self).wf(),
            final(self)@.free == old(self)@.free,
            final(self)@.slots.len() == old(self)@.slots.len(),
            forall|i: int|
                0 <= i < old(self)@.slots.len() ==> #[trigger] final(self)@.slots[i].0
                    == old(self)@.slots[i].0,
            exists|stop: int|
                #![trigger old(self)@.is_live(stop)]
                {
                    &&& 0 <= stop <= old(self)@.slots.len()
                    &&& forall|i: int|
                        0 <= i < old(self)@.slots.len() && (!old(self)@.is_live(i) || stop < i)
                            ==> #[trigger] final(self)@.slots[i] == old(self)@.slots[i]
                    &&& forall|i: int|
                        0 <= i < stop && #[trigger] old(self)@.is_live(i) ==> {
                            &&& final(self)@.slots[i].1 is Some
                            &&& exists|m: &mut T, o: Option<EntErr>|
                                {
                                    &&& mut_ref_current(m) == old(self)@.data(i)
                                    &&& mut_ref_future(m) == final(self)@.data(i)
                                    &&& o != Some(EntErr::Break)
                                    &&& f.ensures((m,), o)
                                }
                        }
                    &&& stop < old(self)@.slots.len() ==> {
                        &&& old(self)@.is_live(stop)
                        &&& final(self)@.slots[stop].1 is Some
                        &&& exists|m: &mut T|
                            {
                                &&& mut_ref_current(m) == old(self)@.data(stop)
                                &&& mut_ref_future(m) == final(self)@.data(stop)
                                &&& f.ensures((m,), Some(EntErr::Break))
                            }
                    }
                },
    {
        let ghost f0 = f;
        let n = self.ents.len();
        let mut i: usize = 0;
        while i < n
            invariant_except_break
                forall|k: int| i <= k < n ==> #[trigger] self@.slots[k] == old(self)@.slots[k],
            invariant
                f == f0,
                old(self).wf(),
                n == old(self)@.slots.len(),
                i <= n,
                self@.free == old(self)@.free,
                self@.slots.len() == n,
                forall|k: int| 0 <= k < n ==> #[trigger] self@.slots[k].0 == old(self)@.slots[k].0,
                forall|k: int|
                    0 <= k < n && !old(self)@.is_live(k) ==> #[trigger] self@.slots[k]
                        == old(self)@.slots[k],
                forall|k: int|
                    0 <= k < i && #[trigger] old(self)@.is_live(k) ==> {
                        &&& self@.slots[k].1 is Some
                        &&& exists|m: &mut T, o: Option<EntErr>|
                            {
                                &&& mut_ref_current(m) == old(self)@.data(k)
                                &&& mut_ref_future(m) == self@.data(k)
                                &&& o != Some(EntErr::Break)
                                &&& f.ensures((m,), o)
                            }
                    },
                forall|k: int, m: &mut T|
                    #[trigger] old(self)@.is_live(k) && mut_ref_current(m) == old(self)@.data(k)
                        ==> #[trigger] f.requires((m,)),
            ensures
                forall|k: int|
                    0 <= k < n && (!old(self)@.is_live(k) || i < k) ==> #[trigger] self@.slots[k]
                        == old(self)@.slots[k],
                i < n ==> {
                    &&& old(self)@.is_live(i as int)
                    &&& self@.slots[i as int].1 is Some
                    &&& exists|m: &mut T|
                        {
                            &&& mut_ref_current(m) == old(self)@.data(i as int)
                            &&& mut_ref_future(m) == self@.data(i as int)
                            &&& f.ensures((m,), Some(EntErr::Break))
                        }
                },
            decreases n - i,
        {
            let ent = &mut self.ents[i];
            if ent.0 > 0 {
                match &mut ent.1 {
                    Some(w) => {
                        assert(old(self)@.is_live(i as int));
                        assert(mut_ref_current(w) == old(self)@.data(i as int));
                        let out = f(w);
                        match out {
                            Some(EntErr::Break) => {
                                break;
                            },
                            _ => {},
                        }
                    },
                    None => {
                        assert(false);
                        break;
                    },
                }
            }
            i = i + 1;
        }
        proof {
            // names the stopping index so that it can witness the `exists` above
            let stopped_live = old(self)@.is_live(i as int);
        }
        proof {
            assert forall|k: int|
                0 <= k < self@.slots.len() && #[trigger] self@.slots[k].0 != 0 implies self@.slots[k].1 is Some by {
                assert(self@.slots[k].0 == old(self)@.slots[k].0);
            }
        }
    }

    /// Adds `i` under the id `id` at the top free index and returns its key,
    /// or refuses with `Maxed` when every entry is in use. The id is not 0,
    /// which marks an entry not in use.
    pub fn add_with_id(&mut self, i: T, id: u64) -> (r: Result<Eid, EntErr>)
        requires
            old(self).wf(),
            id != 0,
        ensures
            final(self).wf(),
            (final(self)@, r) == old(self)@.added(i, id),
    {
        proof {
            lemma_added_keeps_wf(self@, i, id);
        }
        match self.dead.pop() {
            Some(idx) => {
                proof {
                    assert(old(self)@.free[old(self)@.free.len() - 1] < self.ents@.len());
                }
                self.ents.set(idx, (id, Some(i)));
                assert(self@ =~= old(self)@.added(i, id).0);
                Ok((idx, id))
            },
            None => Err(EntErr::Maxed),
        }
    }

    /// Adds `i` under a freshly drawn random id at the top free index and
    /// returns its key, or refuses with `Maxed` when every entry is in use.
    /// A draw of 0, the id that marks an entry not in use, is taken as 1.
    pub fn add(&mut self, i: T) -> (r: Result<Eid, EntErr>)
        requires
            old(self).wf(),
        ensures
            final(self).wf(),
            r is Ok <==> old(self)@.free.len() > 0,
            match r {
                Ok(key) => key.1 != 0 && (final(self)@, r) == old(self)@.added(i, key.1),
                Err(x) => x == EntErr::Maxed && final(self)@ == old(self)@,
            },
    {
        if self.dead.len() == 0 {
            return Err(EntErr::Maxed);
        }
        let drawn = random_u64();
        let rid = if drawn == 0 {
            1
        } else {
            drawn
        };
        self.add_with_id(i, rid)
    }

    /// Removes the entry that key `e` reaches (a nonzero id that matches): the
    /// entry's id becomes 0 and its index becomes free. Returns whether it did.
    pub fn remove(&mut self, e: Eid) -> (r: bool)
        requires
            old(self).wf(),
            e.0 < old(self)@.slots.len(),
        ensures
            final(self).wf(),
            (final(self)@, r) == old(self)@.removed(e),
    {
        proof {
            lemma_removed_keeps_wf(self@, e);
        }
        let idx = e.0;
        if e.1 != 0 && self.ents[idx].0 == e.1 {
            let ent = &mut self.ents[idx];
            ent.0 = 0;
            self.dead.push(idx);
            assert(self@ =~= old(self)@.removed(e).0);
            true
        } else {
            false
        }
    }
}

/// A new store with room for `size` entries keeps the invariant, has `size`
/// free indices, and has no entry in use.
pub proof fn lemma_fresh<T>(size: nat)
    requires
        size <= usize::MAX,
    ensures
        CubbyModel::<T>::fresh(size).wf(),
        CubbyModel::<T>::fresh(size).free.len() == size,
        forall|i: int| !#[trigger] CubbyModel::<T>::fresh(size).is_live(i),
{
    let c = CubbyModel::<T>::fresh(size);
    assert forall|i: int| 0 <= i < c.slots.len() implies (#[trigger] c.slots[i].0 == 0 <==> c.is_free(i)) by {
        assert(c.free[size - 1 - i] == i);
    }
}

/// A key reaches data exactly when its id is nonzero, equals its entry's id
/// and the entry holds data, and then it reaches that data; a mismatched id is
/// refused as `Invalid`.
pub proof fn lemma_entry_reaches_matching_data<T>(c: CubbyModel<T>, e: Eid)
    requires
        e.0 < c.slots.len(),
    ensures
        c.entry(e) is Ok <==> (e.1 != 0 && c.slots[e.0 as int].0 == e.1 && c.slots[e.0 as int].1 is Some),
        c.entry(e) is Ok ==> c.entry(e) == Ok::<T, EntErr>(c.slots[e.0 as int].1->Some_0),
        c.slots[e.0 as int].0 != e.1 ==> c.entry(e) == Err::<T, EntErr>(EntErr::Invalid),
{
}

/// What an add stores is what its key reads back, and no other entry
/// changes: after adding `v` under a nonzero `id`, the key handed out is the
/// top free index with `id`, looking it up gives `v`, and every other index
/// reads as before.
pub proof fn lemma_added_then_entry<T>(c: CubbyModel<T>, v: T, id: u64)
    requires
        c.wf(),
        c.free.len() > 0,
        id != 0,
    ensures
        c.added(v, id).1 == Ok::<Eid, EntErr>((c.free.last(), id)),
        c.added(v, id).0.entry((c.free.last(), id)) == Ok::<T, EntErr>(v),
        forall|e: Eid|
            e.0 < c.slots.len() && e.0 != c.free.last() ==> #[trigger] c.added(v, id).0.entry(e)
                == c.entry(e),
{
    assert(c.free[c.free.len() - 1] < c.slots.len());
}

/// An add is refused, with `Maxed` and no change, exactly when no index is
/// free.
pub proof fn lemma_added_refused_when_full<T>(c: CubbyModel<T>, v: T, id: u64)
    ensures
        c.added(v, id).1 == Err::<Eid, EntErr>(EntErr::Maxed) <==> c.free.len() == 0,
        c.free.len() == 0 ==> c.added(v, id).0 == c,
{
}

/// A remove succeeds exactly when the key reaches data; after it the key
/// reaches nothing (and a key with a nonzero id is refused as `Invalid`),
/// and every other index reads as before.
pub proof fn lemma_removed_then_entry<T>(c: CubbyModel<T>, e: Eid)
    requires
        c.wf(),
        e.0 < c.slots.len(),
    ensures
        c.removed(e).1 <==> c.entry(e) is Ok,
        c.removed(e).0.entry(e) is Err,
        e.1 != 0 ==> c.removed(e).0.entry(e) == Err::<T, EntErr>(EntErr::Invalid),
        forall|e2: Eid|
            e2.0 < c.slots.len() && e2.0 != e.0 ==> #[trigger] c.removed(e).0.entry(e2) == c.entry(e2),
{
}

/// A key with id 0 reaches no data and removes nothing: on an entry not in
/// use it answers `NoData`, on an entry in use `Invalid`.
pub proof fn lemma_id_zero_refused<T>(c: CubbyModel<T>, i: usize)
    requires
        i < c.slots.len(),
    ensures
        c.entry((i, 0u64)) == (if c.is_live(i as int) {
            Err::<T, EntErr>(EntErr::Invalid)
        } else {
            Err::<T, EntErr>(EntErr::NoData)
        }),
        c.removed((i, 0u64)) == (c, false),
{
}

/// Two entries in use never share an index with the free stack, so an add
/// never overwrites an entry in use: the index it takes holds id 0.
pub proof fn lemma_add_takes_unused_entry<T>(c: CubbyModel<T>)
    requires
        c.wf(),
        c.free.len() > 0,
    ensures
        !c.is_live(c.free.last() as int),
        c.free.last() < c.slots.len(),
{
    let k = c.free.len() - 1;
    assert(c.free[k] < c.slots.len());
    assert(c.is_free(c.free[k] as int));
    assert(c.slots[c.free[k] as int].0 == 0);
}

/// A refused key stays refused across an add, unless the add draws the
/// key's own id.
pub proof fn lemma_refused_key_stays_refused<T>(c: CubbyModel<T>, e: Eid, v: T, id: u64)
    requires
        c.wf(),
        e.0 < c.slots.len(),
        c.entry(e) == Err::<T, EntErr>(EntErr::Invalid),
        id != e.1,
    ensures
        c.added(v, id).0.entry(e) == Err::<T, EntErr>(EntErr::Invalid),
{
    if c.free.len() > 0 {
        assert(c.free[c.free.len() - 1] < c.slots.len());
    }
}

/// The index freed by a remove is the one the next add takes.
pub proof fn lemma_removed_slot_reused_first<T>(c: CubbyModel<T>, e: Eid, v: T, id: u64)
    requires
        c.wf(),
        e.0 < c.slots.len(),
        c.removed(e).1,
    ensures
        c.removed(e).0.added(v, id).1 == Ok::<Eid, EntErr>((e.0, id)),
{
}

/// A key with a nonzero id whose entry holds data reads back what was
/// written through it.
pub proof fn lemma_written_then_entry<T>(c: CubbyModel<T>, e: Eid, x: T)
    requires
        e.0 < c.slots.len(),
        e.1 != 0,
    ensures
        (CubbyModel { slots: c.slots.update(e.0 as int, (e.1, Some(x))), free: c.free }).entry(e)
            == Ok::<T, EntErr>(x),
{
}

/// On a new store with room for `size` entries, a run of adds takes the
/// indices 0, 1, 2, ... in turn, each keyed by its own id, and leaves the
/// remaining indices free.
pub proof fn lemma_fresh_run<T>(size: nat, vs: Seq<T>, ids: Seq<u64>)
    requires
        size <= usize::MAX,
        vs.len() == ids.len(),
        vs.len() <= size,
    ensures
        CubbyModel::<T>::fresh(size).added_all(vs, ids).1.len() == vs.len(),
        forall|k: int|
            0 <= k < vs.len() ==> #[trigger] CubbyModel::<T>::fresh(size).added_all(vs, ids).1[k]
                == Ok::<Eid, EntErr>((k as usize, ids[k])),
        CubbyModel::<T>::fresh(size).added_all(vs, ids).0.free =~= Seq::new(
            (size - vs.len()) as nat,
            |j: int| (size - 1 - j) as usize,
        ),
    decreases vs.len(),
{
    let c = CubbyModel::<T>::fresh(size);
    if vs.len() > 0 {
        let n = vs.len() - 1;
        lemma_fresh_run(size, vs.drop_last(), ids.drop_last());
        let before = c.added_all(vs.drop_last(), ids.drop_last());
        assert(before.0.free.len() == size - n);
        assert(before.0.free.last() == n as usize);
        let r = c.added_all(vs, ids).1;
        assert forall|k: int| 0 <= k < vs.len() implies #[trigger] r[k] == Ok::<Eid, EntErr>(
            (k as usize, ids[k]),
        ) by {
            if k < n {
                assert(r[k] == before.1[k]);
                assert(ids.drop_last()[k] == ids[k]);
            }
        }
    }
}

/// A new store with room for `size` entries accepts exactly `size` adds, at
/// the indices 0 to `size - 1` in turn, and refuses the next one with `Maxed`.
pub proof fn lemma_fresh_capacity<T>(size: nat, vs: Seq<T>, ids: Seq<u64>)
    requires
        size <= usize::MAX,
        vs.len() == ids.len(),
        vs.len() == size + 1,
    ensures
        forall|k: int|
            0 <= k < size ==> #[trigger] CubbyModel::<T>::fresh(size).added_all(vs, ids).1[k]
                == Ok::<Eid, EntErr>((k as usize, ids[k])),
        CubbyModel::<T>::fresh(size).added_all(vs, ids).1[size as int] == Err::<Eid, EntErr>(
            EntErr::Maxed,
        ),
{
    let c = CubbyModel::<T>::fresh(size);
    lemma_fresh_run(size, vs.drop_last(), ids.drop_last());
    let before = c.added_all(vs.drop_last(), ids.drop_last());
    assert(before.0.free.len() == 0);
    let r = c.added_all(vs, ids).1;
    assert forall|k: int| 0 <= k < size implies #[trigger] r[k] == Ok::<Eid, EntErr>(
        (k as usize, ids[k]),
    ) by {
        assert(r[k] == before.1[k]);
        assert(ids.drop_last()[k] == ids[k]);
    }
}

/// For a predicate that never answers both ways on one value, the first
/// match is the head of the list of matches: `first` answers the first key
/// that `find` answers, or `None` when `find` answers none.
pub proof fn lemma_first_is_head_of_find<T, F: Fn(&T) -> bool>(
    c: CubbyModel<T>,
    f: F,
    first: Option<Eid>,
    all: Seq<Eid>,
)
    requires
        c.found_first(f, first),
        c.found(f, all),
        forall|x: T| !(#[trigger] f.ensures((&x,), true) && f.ensures((&x,), false)),
    ensures
        first == (if all.len() > 0 {
            Some(all[0])
        } else {
            None::<Eid>
        }),
{
    match first {
        Some(k1) => {
            let i1 = k1.0 as int;
            if all.len() > 0 {
                let i0 = all[0].0 as int;
                assert(c.is_live(i0));
                if i1 < i0 {
                    if has_index(all, i1) {
                        let j = choose|j: int| 0 <= j < all.len() && all[j].0 == i1;
                        if j > 0 {
                            assert(all[0].0 < all[j].0);
                        }
                    }
                    assert(f.ensures((&c.data(i1),), false));
                } else if i0 < i1 {
                    assert(f.ensures((&c.data(i0),), false));
                }
            } else {
                assert(!has_index(all, i1));
            }
        },
        None => {
            if all.len() > 0 {
                assert(c.is_live(all[0].0 as int));
            }
        },
    }
}

/// Adding under a nonzero id keeps the store's invariant.
pub proof fn lemma_added_keeps_wf<T>(c: CubbyModel<T>, v: T, id: u64)
    requires
        c.wf(),
        id != 0,
    ensures
        c.added(v, id).0.wf(),
{
    let c2 = c.added(v, id).0;
    if c.free.len() > 0 {
        let last = c.free.len() - 1;
        let idx = c.free[last];
        assert(idx < c.slots.len());
        assert forall|k: int| 0 <= k < c2.free.len() implies #[trigger] c2.free[k] < c2.slots.len() by {
            assert(c.free[k] < c.slots.len());
        }
        assert forall|j: int, k: int| 0 <= j < k < c2.free.len() implies #[trigger] c2.free[j]
            != #[trigger] c2.free[k] by {
            assert(c.free[j] != c.free[k]);
        }
        assert forall|i: int| 0 <= i < c2.slots.len() implies (#[trigger] c2.slots[i].0 == 0
            <==> c2.is_free(i)) by {
            if i == idx {
                if c2.is_free(i) {
                    let k = choose|k: int| 0 <= k < c2.free.len() && c2.free[k] == i;
                    assert(c.free[k] != c.free[last]);
                }
            } else {
                if c.is_free(i) {
                    let k = choose|k: int| 0 <= k < c.free.len() && c.free[k] == i;
                    assert(k != last);
                    assert(c2.free[k] == i);
                }
                if c2.is_free(i) {
                    let k = choose|k: int| 0 <= k < c2.free.len() && c2.free[k] == i;
                    assert(c.free[k] == i);
                }
            }
        }
    }
}

/// Removing keeps the store's invariant.
pub proof fn lemma_removed_keeps_wf<T>(c: CubbyModel<T>, e: Eid)
    requires
        c.wf(),
        e.0 < c.slots.len(),
    ensures
        c.removed(e).0.wf(),
{
    let c2 = c.removed(e).0;
    if c.removed(e).1 {
        assert(!c.is_free(e.0 as int));
        assert forall|k: int| 0 <= k < c2.free.len() implies #[trigger] c2.free[k] < c2.slots.len() by {
            if k < c.free.len() {
                assert(c.free[k] < c.slots.len());
            }
        }
        assert forall|j: int, k: int| 0 <= j < k < c2.free.len() implies #[trigger] c2.free[j]
            != #[trigger] c2.free[k] by {
            if k < c.free.len() {
                assert(c.free[j] != c.free[k]);
            } else {
                assert(c.is_free(c.free[j] as int));
            }
        }
        assert forall|i: int| 0 <= i < c2.slots.len() implies (#[trigger] c2.slots[i].0 == 0
            <==> c2.is_free(i)) by {
            if i == e.0 {
                assert(c2.free[c2.free.len() - 1] == e.0);
            } else {
                if c.is_free(i) {
                    let k = choose|k: int| 0 <= k < c.free.len() && c.free[k] == i;
                    assert(c2.free[k] == i);
                }
                if c2.is_free(i) {
                    let k = choose|k: int| 0 <= k < c2.free.len() && c2.free[k] == i;
                    assert(k < c.free.len());
                    assert(c.free[k] == i);
                }
            }
        }
    }
}

} // verus!
