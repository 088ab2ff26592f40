use vstd::prelude::*;

verus! {

/// The devices a camera provider has seen, each under its id (the device's bus path), in the
/// order they were added.
pub struct DeviceCache<T> {
    devs: Vec<(String, T)>,
}

/// Whether an entry's id differs from `id`.
pub open spec fn other_id<T>(id: Seq<char>) -> spec_fn((Seq<char>, T)) -> bool {
    |e: (Seq<char>, T)| e.0 != id
}

impl<T> DeviceCache<T> {
    /// The cached devices with their ids, oldest first.
    pub closed spec fn entries(&self) -> Seq<(Seq<char>, T)> {
        self.devs@.map_values(|e: (String, T)| (e.0@, e.1))
    }

    /// The ids of the cached devices, oldest first.
    pub open spec fn ids(&self) -> Seq<Seq<char>> {
        self.entries().map_values(|e: (Seq<char>, T)| e.0)
    }

    /// An empty cache.
    pub fn new() -> (c: Self)
        ensures
            c.entries() == Seq::<(Seq<char>, T)>::empty(),
    {
        let c = DeviceCache { devs: Vec::new() };
        proof {
            assert(c.entries() =~= Seq::<(Seq<char>, T)>::empty());
        }
        c
    }

    /// A device was plugged in: remember it under `id`.
    pub fn device_added(&mut self, id: String, dev: T)
        ensures
            final(self).entries() == old(self).entries().push((id@, dev)),
            final(self).ids().contains(id@),
    {
        let ghost idv = id@;
        self.devs.push((id, dev));
        proof {
            assert(self.entries() =~= old(self).entries().push((idv, dev)));
            assert(self.ids()[self.ids().len() - 1] == idv);
        }
    }

    /// A device was unplugged: forget every cached device with its id, keeping the others in
    /// their order.
    pub fn device_removed(&mut self, id: &String)
        ensures
            final(self).entries() == old(self).entries().filter(other_id::<T>(id@)),
            !final(self).ids().contains(id@),
            forall|other: Seq<char>|
                other != id@ && old(self).ids().contains(other)
                    ==> #[trigger] final(self).ids().contains(other),
    {
        let ghost e0 = self.entries();
        let ghost pred = other_id::<T>(id@);
        let mut rest: Vec<(String, T)> = Vec::new();
        std::mem::swap(&mut rest, &mut self.devs);
        let ghost all = rest@;
        let ghost n = rest.len();
        assert(e0 == all.map_values(|e: (String, T)| (e.0@, e.1)));
        let mut i: usize = 0;
        while rest.len() > 0
            invariant
                n == all.len(),
                i + rest.len() == n,
                rest@ == all.skip(i as int),
                e0 == all.map_values(|e: (String, T)| (e.0@, e.1)),
                pred == other_id::<T>(id@),
                self.entries() == e0.take(i as int).filter(pred),
            decreases rest.len(),
        {
            let e = rest.remove(0);
            proof {
                assert(e == all[i as int]);
                assert(rest@ =~= all.skip(i + 1));
                assert(e0.take(i + 1) =~= e0.take(i as int).push(e0[i as int]));
                e0.take(i as int).lemma_filter_push(e0[i as int], pred);
            }
            if !(e.0 == *id) {
                let ghost before = self.entries();
                self.devs.push(e);
                proof {
                    assert(self.entries() =~= before.push(e0[i as int]));
                }
            }
            i = i + 1;
        }
        proof {
            assert(e0.take(i as int) =~= e0);
            let f = e0.filter(pred);
            broadcast use vstd::seq_lib::group_filter_ensures;

            if self.ids().contains(id@) {
                let k = choose|k: int| 0 <= k < self.ids().len() && self.ids()[k] == id@;
                assert(pred(f[k]));
            }
            assert forall|other: Seq<char>|
                other != id@ && old(self).ids().contains(other) implies #[trigger] self.ids().contains(
                other,
            ) by {
                let k = choose|k: int| 0 <= k < old(self).ids().len() && old(self).ids()[k] == other;
                assert(old(self).entries() == e0);
                assert(pred(e0[k]));
                e0.lemma_filter_contains(pred, k);
                let j = choose|j: int| 0 <= j < f.len() && f[j] == e0[k];
                assert(self.ids()[j] == other);
            }
        }
    }

    /// The first cached device with id `id`, if any.
    pub fn get_by_id(&self, id: &String) -> (r: Option<&T>)
        ensures
            r is None <==> !self.ids().contains(id@),
            r matches Some(d) ==> exists|p: int|
                0 <= p < self.entries().len() && self.entries()[p] == (id@, *d) && forall|j: int|
                    0 <= j < p ==> #[trigger] self.ids()[j] != id@,
    {
        let mut i: usize = 0;
        while i < self.devs.len()
            invariant
                i <= self.devs.len(),
                forall|j: int| 0 <= j < i ==> #[trigger] self.ids()[j] != id@,
            decreases self.devs.len() - i,
        {
            if self.devs[i].0 == *id {
                proof {
                    assert(self.ids()[i as int] == id@);
                    assert(self.entries()[i as int] == (id@, self.devs@[i as int].1));
                }
                return Some(&self.devs[i].1);
            }
            proof {
                assert(self.ids()[i as int] != id@);
            }
            i = i + 1;
        }
        proof {
            if self.ids().contains(id@) {
                let k = choose|k: int| 0 <= k < self.ids().len() && self.ids()[k] == id@;
                assert(self.ids()[k] != id@);
            }
        }
        None
    }

    /// The ids of the cached devices, oldest first.
    pub fn devices(&self) -> (ids: Vec<String>)
        ensures
            ids.deep_view() == self.ids(),
    {
        let mut out: Vec<String> = Vec::new();
        let mut i: usize = 0;
        while i < self.devs.len()
            invariant
                i <= self.devs.len(),
                out.deep_view() == self.ids().take(i as int),
            decreases self.devs.len() - i,
        {
            let s = self.devs[i].0.clone();
            let ghost before = out.deep_view();
            out.push(s);
            proof {
                assert(out.deep_view() =~= before.push(self.ids()[i as int]));
                assert(self.ids().take(i + 1) =~= self.ids().take(i as int).push(
                    self.ids()[i as int],
                ));
            }
            i = i + 1;
        }
        proof {
            assert(self.ids().take(i as int) =~= self.ids());
        }
        out
    }
}

} // verus!
