use vstd::prelude::*;

verus! {

/// One stored value, with the instant at which it expires, if any.
struct Entry {
    data: Vec<u8>,
    expires_at: Option<u64>,
}

/// The mathematical value of a stored entry.
pub struct EntryModel {
    pub data: Seq<u8>,
    pub expires_at: Option<u64>,
}

impl View for Entry {
    type V = EntryModel;

    closed spec fn view(&self) -> EntryModel {
        EntryModel { data: self.data@, expires_at: self.expires_at }
    }
}

/// `k` is stored and expires at `t`.
pub open spec fn has_deadline(m: Map<Seq<char>, EntryModel>, k: Seq<char>, t: u64) -> bool {
    m.contains_key(k) && m[k].expires_at == Some(t)
}

/// `t` is the deadline of some key, and no key expires before it.
pub open spec fn is_earliest(m: Map<Seq<char>, EntryModel>, t: u64) -> bool {
    &&& exists|k: Seq<char>| has_deadline(m, k, t)
    &&& forall|k: Seq<char>, u: u64| has_deadline(m, k, u) ==> t <= u
}

/// The earliest deadline of the store, if any key has one.
pub open spec fn earliest(m: Map<Seq<char>, EntryModel>) -> Option<u64> {
    if exists|t: u64| is_earliest(m, t) {
        Some(choose|t: u64| is_earliest(m, t))
    } else {
        None
    }
}

/// An entry whose deadline is not after `now`.
pub open spec fn expired(e: EntryModel, now: u64) -> bool {
    e.expires_at matches Some(t) && t <= now
}

/// The store once every entry expired at `now` is gone.
pub open spec fn after_sweep(m: Map<Seq<char>, EntryModel>, now: u64) -> Map<Seq<char>, EntryModel> {
    Map::new(|k: Seq<char>| m.contains_key(k) && !expired(m[k], now), |k: Seq<char>| m[k])
}

/// The deadline of a value stored at `now` to live for `ttl`.
pub open spec fn deadline(now: u64, ttl: Option<u64>) -> Option<u64> {
    match ttl {
        Some(d) => Some((now + d) as u64),
        None => None,
    }
}

/// The store once `k` holds `v` with deadline `when`; whatever `k` held before
/// is gone, with its deadline.
pub open spec fn after_set(
    m: Map<Seq<char>, EntryModel>,
    k: Seq<char>,
    v: Seq<u8>,
    when: Option<u64>,
) -> Map<Seq<char>, EntryModel> {
    m.insert(k, EntryModel { data: v, expires_at: when })
}

/// A new deadline must wake the reaper when it comes before every deadline
/// the store had, or when the store had none.
pub open spec fn wakes_reaper(m: Map<Seq<char>, EntryModel>, when: Option<u64>) -> bool {
    match when {
        None => false,
        Some(w) => match earliest(m) {
            None => true,
            Some(t) => w < t,
        },
    }
}

/// What a read of `k` sees.
pub open spec fn lookup(m: Map<Seq<char>, EntryModel>, k: Seq<char>) -> Option<Seq<u8>> {
    if m.contains_key(k) {
        Some(m[k].data)
    } else {
        None
    }
}

/// The index is ordered by time.
pub open spec fn index_sorted(xs: Seq<(u64, String)>) -> bool {
    forall|i: int, j: int| 0 <= i <= j < xs.len() ==> xs[i].0 <= xs[j].0
}

/// The index holds one pair for each key of `m` with a deadline, but `k`, and
/// no other pair.
pub open spec fn index_except(xs: Seq<(u64, String)>, m: Map<Seq<char>, EntryModel>, k: Option<Seq<char>>) -> bool {
    &&& index_sorted(xs)
    &&& forall|i: int, j: int| 0 <= i < j < xs.len() ==> xs[i].1@ != xs[j].1@
    &&& forall|i: int| 0 <= i < xs.len() ==> has_deadline(m, #[trigger] xs[i].1@, xs[i].0) && k != Some(xs[i].1@)
    &&& forall|k2: Seq<char>, t: u64| has_deadline(m, k2, t) && k != Some(k2) ==> exists|i: int|
        0 <= i < xs.len() && #[trigger] xs[i].1@ == k2
}

fn find_pair(xs: &Vec<(u64, String)>, key: &String) -> (r: Option<usize>)
    ensures
        match r {
            Some(i) => i < xs@.len() && xs@[i as int].1@ == key@,
            None => forall|i: int| 0 <= i < xs@.len() ==> #[trigger] xs@[i].1@ != key@,
        },
{
    let mut i: usize = 0;
    while i < xs.len()
        invariant
            i <= xs@.len(),
            forall|j: int| 0 <= j < i ==> #[trigger] xs@[j].1@ != key@,
        decreases xs@.len() - i,
    {
        if xs[i].1 == *key {
            return Some(i);
        }
        i = i + 1;
    }
    None
}

/// Drops the pair of `key` from an index of `m`.
fn remove_pair(xs: &mut Vec<(u64, String)>, key: &String, Ghost(m): Ghost<Map<Seq<char>, EntryModel>>)
    requires
        index_except(old(xs)@, m, None),
    ensures
        index_except(final(xs)@, m, Some(key@)),
{
    let ghost xs0 = xs@;
    let stale = find_pair(xs, key);
    match stale {
        Some(j) => {
            xs.remove(j);
        },
        None => {},
    }
    let ghost xs1 = xs@;
    assert forall|i: int| 0 <= i < xs1.len() implies has_deadline(m, #[trigger] xs1[i].1@, xs1[i].0)
        && Some(key@) != Some(xs1[i].1@) by {
        if let Some(j) = stale {
            if i < j {
                assert(xs1[i] == xs0[i]);
            } else {
                assert(xs1[i] == xs0[i + 1]);
            }
        } else {
            assert(xs1[i] == xs0[i]);
        }
    }
    assert forall|i: int, j: int| 0 <= i <= j < xs1.len() implies xs1[i].0 <= xs1[j].0 by {
        if let Some(s) = stale {
            let i0 = if i < s { i } else { i + 1 };
            let j0 = if j < s { j } else { j + 1 };
            assert(xs1[i] == xs0[i0] && xs1[j] == xs0[j0]);
        } else {
            assert(xs1[i] == xs0[i] && xs1[j] == xs0[j]);
        }
    }
    assert forall|i: int, j: int| 0 <= i < j < xs1.len() implies xs1[i].1@ != xs1[j].1@ by {
        if let Some(s) = stale {
            let i0 = if i < s { i } else { i + 1 };
            let j0 = if j < s { j } else { j + 1 };
            assert(xs1[i] == xs0[i0] && xs1[j] == xs0[j0]);
        } else {
            assert(xs1[i] == xs0[i] && xs1[j] == xs0[j]);
        }
    }
    assert forall|k2: Seq<char>, t: u64| has_deadline(m, k2, t) && Some(key@) != Some(k2) implies exists|i: int|
        0 <= i < xs1.len() && #[trigger] xs1[i].1@ == k2 by {
        let i0 = choose|i: int| 0 <= i < xs0.len() && #[trigger] xs0[i].1@ == k2;
        if let Some(s) = stale {
            if i0 < s {
                assert(xs1[i0] == xs0[i0]);
            } else {
                assert(i0 != s);
                assert(xs1[i0 - 1] == xs0[i0]);
            }
        } else {
            assert(xs1[i0] == xs0[i0]);
        }
    }
}

/// Indexes the deadline `w` of `key`, after every pair that is not later.
fn add_pair(xs: &mut Vec<(u64, String)>, w: u64, key: String, Ghost(m): Ghost<Map<Seq<char>, EntryModel>>)
    requires
        index_except(old(xs)@, m, Some(key@)),
        has_deadline(m, key@, w),
    ensures
        index_except(final(xs)@, m, None),
{
    let ghost xs1 = xs@;
    let ghost k = key@;
    let mut p: usize = 0;
    while p < xs.len() && xs[p].0 <= w
        invariant
            p <= xs@.len(),
            xs@ == xs1,
            forall|i: int| 0 <= i < p ==> #[trigger] xs1[i].0 <= w,
        decreases xs@.len() - p,
    {
        p = p + 1;
    }
    xs.insert(p, (w, key));
    let ghost xs2 = xs@;
    assert forall|i: int| p <= i < xs1.len() implies w < #[trigger] xs1[i].0 by {
        assert(xs1[p as int].0 <= xs1[i].0);
    }
    assert forall|i: int| 0 <= i < xs2.len() implies has_deadline(m, #[trigger] xs2[i].1@, xs2[i].0)
        && None::<Seq<char>> != Some(xs2[i].1@) by {
        if i < p {
            assert(xs2[i] == xs1[i]);
        } else if i > p {
            assert(xs2[i] == xs1[i - 1]);
        }
    }
    assert forall|i: int, j: int| 0 <= i <= j < xs2.len() implies xs2[i].0 <= xs2[j].0 by {
        let i0 = if i < p { i } else { i - 1 };
        let j0 = if j < p { j } else { j - 1 };
        if i != p {
            assert(xs2[i] == xs1[i0]);
        }
        if j != p {
            assert(xs2[j] == xs1[j0]);
        }
    }
    assert forall|i: int, j: int| 0 <= i < j < xs2.len() implies xs2[i].1@ != xs2[j].1@ by {
        let i0 = if i < p { i } else { i - 1 };
        let j0 = if j < p { j } else { j - 1 };
        if i != p {
            assert(xs2[i] == xs1[i0]);
        }
        if j != p {
            assert(xs2[j] == xs1[j0]);
        }
    }
    assert forall|k2: Seq<char>, t: u64| has_deadline(m, k2, t) && None::<Seq<char>> != Some(k2) implies exists|i: int|
        0 <= i < xs2.len() && #[trigger] xs2[i].1@ == k2 by {
        if k2 == k {
            assert(xs2[p as int].1@ == k2);
        } else {
            let i1 = choose|i: int| 0 <= i < xs1.len() && #[trigger] xs1[i].1@ == k2;
            if i1 < p {
                assert(xs2[i1] == xs1[i1]);
            } else {
                assert(xs2[i1 + 1] == xs1[i1]);
            }
        }
    }
}

/// The entries hold the model, one per key.
spec fn entries_match(es: Seq<(String, Entry)>, m: Map<Seq<char>, EntryModel>) -> bool {
    &&& forall|i: int| 0 <= i < es.len() ==> m.contains_key(#[trigger] es[i].0@) && m[es[i].0@] == es[i].1@
    &&& forall|k: Seq<char>| m.contains_key(k) ==> exists|i: int| 0 <= i < es.len() && #[trigger] es[i].0@ == k
    &&& forall|i: int, j: int| 0 <= i < j < es.len() ==> es[i].0@ != es[j].0@
}

/// Drops the entry of `key`, which the model holds.
fn drop_entry(es: &mut Vec<(String, Entry)>, key: &String, Ghost(m): Ghost<Map<Seq<char>, EntryModel>>)
    requires
        entries_match(old(es)@, m),
        m.contains_key(key@),
    ensures
        entries_match(final(es)@, m.remove(key@)),
{
    let ghost es0 = es@;
    let mut i: usize = 0;
    while i < es.len()
        invariant
            es@ == es0,
            i <= es@.len(),
            forall|j: int| 0 <= j < i ==> #[trigger] es0[j].0@ != key@,
        ensures
            es@ == es0,
            i <= es@.len(),
            forall|j: int| 0 <= j < i ==> #[trigger] es0[j].0@ != key@,
            i < es@.len() ==> es0[i as int].0@ == key@,
        decreases es@.len() - i,
    {
        if es[i].0 == *key {
            break;
        }
        i = i + 1;
    }
    if i == es.len() {
        proof {
            let j = choose|j: int| 0 <= j < es0.len() && #[trigger] es0[j].0@ == key@;
            assert(es0[j].0@ != key@);
        }
        return;
    }
    es.remove(i);
    let ghost es1 = es@;
    let ghost m1 = m.remove(key@);
    assert forall|j: int| 0 <= j < es1.len() implies #[trigger] es1[j] == es0[if j < i { j } else { j + 1 }] by {}
    assert forall|j: int| 0 <= j < es1.len() implies m1.contains_key(#[trigger] es1[j].0@) && m1[es1[j].0@] == es1[j].1@ by {
        let j0 = if j < i { j } else { j + 1 };
        assert(es1[j] == es0[j0]);
        if j0 < i {
            assert(es0[j0].0@ != es0[i as int].0@);
        } else {
            assert(es0[i as int].0@ != es0[j0].0@);
        }
    }
    assert forall|k2: Seq<char>| m1.contains_key(k2) implies exists|j: int| 0 <= j < es1.len() && #[trigger] es1[j].0@ == k2 by {
        let j0 = choose|j: int| 0 <= j < es0.len() && #[trigger] es0[j].0@ == k2;
        if j0 < i {
            assert(es1[j0] == es0[j0]);
        } else {
            assert(j0 != i);
            assert(es1[j0 - 1] == es0[j0]);
        }
    }
    assert forall|a: int, b: int| 0 <= a < b < es1.len() implies es1[a].0@ != es1[b].0@ by {
        let a0 = if a < i { a } else { a + 1 };
        let b0 = if b < i { b } else { b + 1 };
        assert(es1[a] == es0[a0] && es1[b] == es0[b0]);
    }
}

/// The keys and values of the store, with an index of deadlines ordered by
/// time.
pub struct State {
    entries: Vec<(String, Entry)>,
    expirations: Vec<(u64, String)>,
    model: Ghost<Map<Seq<char>, EntryModel>>,
}

impl View for State {
    type V = Map<Seq<char>, EntryModel>;

    closed spec fn view(&self) -> Map<Seq<char>, EntryModel> {
        self.model@
    }
}

impl State {
    /// The entries are the model, one per key; the index holds one pair for
    /// each key with a deadline, and nothing else, in order of time.
    pub closed spec fn wf(&self) -> bool {
        let es = self.entries@;
        let xs = self.expirations@;
        let m = self.model@;
        &&& m.dom().finite()
        &&& entries_match(es, m)
        &&& index_except(xs, m, None)
    }

    /// An empty store.
    pub fn new() -> (s: State)
        ensures
            s.wf(),
            s@ == Map::<Seq<char>, EntryModel>::empty(),
    {
        State { entries: Vec::new(), expirations: Vec::new(), model: Ghost(Map::empty()) }
    }

    fn find_entry(&self, key: &String) -> (r: Option<usize>)
        ensures
            match r {
                Some(i) => i < self.entries@.len() && self.entries@[i as int].0@ == key@,
                None => forall|i: int| 0 <= i < self.entries@.len() ==> #[trigger] self.entries@[i].0@ != key@,
            },
    {
        let mut i: usize = 0;
        while i < self.entries.len()
            invariant
                i <= self.entries@.len(),
                forall|j: int| 0 <= j < i ==> #[trigger] self.entries@[j].0@ != key@,
            decreases self.entries@.len() - i,
        {
            if self.entries[i].0 == *key {
                return Some(i);
            }
            i = i + 1;
        }
        None
    }

    /// The earliest deadline in the store.
    pub fn next_expiration(&self) -> (r: Option<u64>)
        requires
            self.wf(),
        ensures
            r == earliest(self@),
    {
        if self.expirations.len() == 0 {
            proof {
                assert forall|t: u64| !is_earliest(self@, t) by {
                    if is_earliest(self@, t) {
                        let k = choose|k: Seq<char>| has_deadline(self@, k, t);
                        assert(has_deadline(self@, k, t));
                    }
                }
            }
            None
        } else {
            let t = self.expirations[0].0;
            proof {
                let xs = self.expirations@;
                assert(has_deadline(self@, xs[0].1@, t));
                assert forall|k: Seq<char>, u: u64| has_deadline(self@, k, u) implies t <= u by {
                    let i = choose|i: int| 0 <= i < xs.len() && #[trigger] xs[i].1@ == k;
                    assert(has_deadline(self@, xs[i].1@, xs[i].0));
                }
                assert(is_earliest(self@, t));
                let c = choose|c: u64| is_earliest(self@, c);
                assert(is_earliest(self@, c));
                let kc = choose|k: Seq<char>| has_deadline(self@, k, c);
                assert(has_deadline(self@, kc, c));
            }
            Some(t)
        }
    }

    /// A copy of the value stored at `key`, if any. Expiry is not checked
    /// here: a key stays readable until a sweep removes it.
    pub fn get(&self, key: &str) -> (r: Option<Vec<u8>>)
        requires
            self.wf(),
        ensures
            match lookup(self@, key@) {
                Some(v) => r matches Some(d) && d@ == v,
                None => r is None,
            },
    {
        let k = key.to_owned();
        match self.find_entry(&k) {
            Some(i) => {
                proof {
                    assert(self@.contains_key(self.entries@[i as int].0@));
                }
                Some(vstd::slice::slice_to_vec(self.entries[i].1.data.as_slice()))
            },
            None => {
                proof {
                    if self@.contains_key(key@) {
                        let i = choose|i: int| 0 <= i < self.entries@.len() && #[trigger] self.entries@[i].0@ == key@;
                    }
                }
                None
            },
        }
    }

    /// Stores `value` at `key`, to expire `ttl` after `now` if a ttl is given,
    /// and drops the deadline of whatever `key` held before. Returns whether
    /// the reaper must be woken: the new deadline comes before every deadline
    /// the store had.
    pub fn set(&mut self, key: &str, value: Vec<u8>, ttl: Option<u64>, now: u64) -> (notify: bool)
        requires
            old(self).wf(),
            ttl matches Some(d) ==> now + d <= u64::MAX,
        ensures
            final(self).wf(),
            final(self)@ == after_set(old(self)@, key@, value@, deadline(now, ttl)),
            notify == wakes_reaper(old(self)@, deadline(now, ttl)),
    {
        let ghost m0 = self@;
        let ghost es0 = self.entries@;
        let k = key.to_owned();
        let when: Option<u64> = match ttl {
            Some(d) => Some(now + d),
            None => None,
        };
        let notify = match when {
            Some(w) => match self.next_expiration() {
                Some(t) => w < t,
                None => true,
            },
            None => false,
        };
        let ghost newe = EntryModel { data: value@, expires_at: when };
        let ghost m1 = m0.insert(k@, newe);
        remove_pair(&mut self.expirations, &k, Ghost(m0));
        assert(index_except(self.expirations@, m1, Some(k@))) by {
            let xs = self.expirations@;
            assert forall|i: int| 0 <= i < xs.len() implies has_deadline(m1, #[trigger] xs[i].1@, xs[i].0) by {
                assert(has_deadline(m0, xs[i].1@, xs[i].0));
            }
            assert forall|k2: Seq<char>, t: u64| has_deadline(m1, k2, t) && Some(k@) != Some(k2) implies exists|i: int|
                0 <= i < xs.len() && #[trigger] xs[i].1@ == k2 by {
                assert(has_deadline(m0, k2, t));
            }
        }
        match when {
            Some(w) => {
                add_pair(&mut self.expirations, w, k.clone(), Ghost(m1));
            },
            None => {
                assert(index_except(self.expirations@, m1, None));
            },
        }
        let slot = self.find_entry(&k);
        let entry = Entry { data: value, expires_at: when };
        assert(entry@ == newe);
        match slot {
            Some(i) => {
                self.entries.set(i, (k, entry));
            },
            None => {
                self.entries.push((k, entry));
            },
        }
        self.model = Ghost(m1);
        proof {
            let es1 = self.entries@;
            let ki = match slot {
                Some(i) => i as int,
                None => es0.len() as int,
            };
            assert(es1[ki].0@ == k@ && es1[ki].1@ == newe);
            assert forall|i: int| 0 <= i < es1.len() && i != ki implies #[trigger] es1[i] == es0[i]
                && es0[i].0@ != k@ by {
                if let Some(s) = slot {
                    if es0[i].0@ == k@ {
                        if i < s {
                            assert(es0[i].0@ != es0[s as int].0@);
                        } else {
                            assert(es0[s as int].0@ != es0[i].0@);
                        }
                    }
                }
            }
            assert forall|i: int| 0 <= i < es1.len() implies m1.contains_key(#[trigger] es1[i].0@)
                && m1[es1[i].0@] == es1[i].1@ by {
                if i != ki {
                    assert(es1[i] == es0[i]);
                }
            }
            assert forall|k2: Seq<char>| m1.contains_key(k2) implies exists|i: int|
                0 <= i < es1.len() && #[trigger] es1[i].0@ == k2 by {
                if k2 == k@ {
                    assert(es1[ki].0@ == k2);
                } else {
                    let i0 = choose|i: int| 0 <= i < es0.len() && #[trigger] es0[i].0@ == k2;
                    assert(es1[i0] == es0[i0]);
                }
            }
            assert forall|i: int, j: int| 0 <= i < j < es1.len() implies es1[i].0@ != es1[j].0@ by {
                if i != ki && j != ki {
                    assert(es1[i] == es0[i] && es1[j] == es0[j]);
                } else if i == ki {
                    assert(es1[j] == es0[j]);
                } else {
                    assert(es1[i] == es0[i]);
                }
            }
        }
        notify
    }

    /// Removes every entry whose deadline is not after `now`, and returns the
    /// earliest deadline left, when the reaper must next wake.
    pub fn remove_expired_keys(&mut self, now: u64) -> (r: Option<u64>)
        requires
            old(self).wf(),
        ensures
            final(self).wf(),
            final(self)@ == after_sweep(old(self)@, now),
            r == earliest(final(self)@),
    {
        loop
            invariant
                self.wf(),
                after_sweep(self@, now) == after_sweep(old(self)@, now),
            decreases self.expirations@.len(),
        {
            if self.expirations.len() == 0 || self.expirations[0].0 > now {
                proof {
                    let m = self@;
                    let xs = self.expirations@;
                    assert forall|k: Seq<char>| m.contains_key(k) implies !expired(m[k], now) by {
                        if let Some(t) = m[k].expires_at {
                            assert(has_deadline(m, k, t));
                            let i = choose|i: int| 0 <= i < xs.len() && #[trigger] xs[i].1@ == k;
                            assert(has_deadline(m, xs[i].1@, xs[i].0));
                            assert(xs[0].0 <= xs[i].0);
                        }
                    }
                    assert(after_sweep(m, now) =~= m);
                }
                return self.next_expiration();
            }
            let ghost m = self@;
            let ghost xs0 = self.expirations@;
            let pair = self.expirations.remove(0);
            let k = pair.1;
            let ghost m1 = m.remove(k@);
            assert(has_deadline(m, xs0[0].1@, xs0[0].0));
            drop_entry(&mut self.entries, &k, Ghost(m));
            self.model = Ghost(m1);
            proof {
                let xs1 = self.expirations@;
                assert forall|i: int| 0 <= i < xs1.len() implies #[trigger] xs1[i] == xs0[i + 1] by {}
                assert forall|i: int| 0 <= i < xs1.len() implies has_deadline(m1, #[trigger] xs1[i].1@, xs1[i].0)
                    && None::<Seq<char>> != Some(xs1[i].1@) by {
                    assert(xs1[i] == xs0[i + 1]);
                    assert(xs0[0].1@ != xs0[i + 1].1@);
                    assert(has_deadline(m, xs0[i + 1].1@, xs0[i + 1].0));
                }
                assert forall|a: int, b: int| 0 <= a <= b < xs1.len() implies xs1[a].0 <= xs1[b].0 by {
                    assert(xs1[a] == xs0[a + 1] && xs1[b] == xs0[b + 1]);
                }
                assert forall|a: int, b: int| 0 <= a < b < xs1.len() implies xs1[a].1@ != xs1[b].1@ by {
                    assert(xs1[a] == xs0[a + 1] && xs1[b] == xs0[b + 1]);
                }
                assert forall|k2: Seq<char>, t: u64| has_deadline(m1, k2, t) && None::<Seq<char>> != Some(k2)
                    implies exists|i: int| 0 <= i < xs1.len() && #[trigger] xs1[i].1@ == k2 by {
                    assert(has_deadline(m, k2, t));
                    let i0 = choose|i: int| 0 <= i < xs0.len() && #[trigger] xs0[i].1@ == k2;
                    assert(i0 != 0);
                    assert(xs1[i0 - 1] == xs0[i0]);
                }
                assert(index_except(xs1, m1, None));
                assert(expired(m[k@], now));
                assert(after_sweep(m1, now) =~= after_sweep(m, now));
            }
        }
    }

    /// The model of a well-formed store is finite.
    pub proof fn lemma_finite(&self)
        requires
            self.wf(),
        ensures
            self@.dom().finite(),
    {
    }
}

/// In a finite store, a key with a deadline bounds the earliest deadline.
pub proof fn lemma_earliest_bound(m: Map<Seq<char>, EntryModel>, k: Seq<char>, t: u64)
    requires
        m.dom().finite(),
        has_deadline(m, k, t),
    ensures
        earliest(m) matches Some(e) && e <= t,
    decreases m.dom().len(),
{
    if forall|k2: Seq<char>, u: u64| has_deadline(m, k2, u) ==> t <= u {
        assert(is_earliest(m, t));
        lemma_earliest_unique(m, t);
    } else {
        let (k2, u) = choose|k2: Seq<char>, u: u64| has_deadline(m, k2, u) && u < t;
        let m1 = m.remove(k);
        assert(has_deadline(m1, k2, u));
        assert(m1.dom() =~= m.dom().remove(k));
        lemma_earliest_bound(m1, k2, u);
        let e = earliest(m1).unwrap();
        lemma_earliest_unique(m1, e);
        assert(is_earliest(m1, e));
        let ke = choose|ke: Seq<char>| has_deadline(m1, ke, e);
        assert(has_deadline(m, ke, e));
        assert forall|k3: Seq<char>, w: u64| has_deadline(m, k3, w) implies e <= w by {
            if k3 != k {
                assert(has_deadline(m1, k3, w));
            }
        }
        assert(is_earliest(m, e));
        lemma_earliest_unique(m, e);
    }
}

/// The earliest deadline, once it exists, is the one `earliest` names.
pub proof fn lemma_earliest_unique(m: Map<Seq<char>, EntryModel>, t: u64)
    requires
        is_earliest(m, t),
    ensures
        earliest(m) == Some(t),
{
    let c = choose|c: u64| is_earliest(m, c);
    assert(is_earliest(m, c));
    let kc = choose|k: Seq<char>| has_deadline(m, k, c);
    let kt = choose|k: Seq<char>| has_deadline(m, k, t);
    assert(has_deadline(m, kc, c));
    assert(has_deadline(m, kt, t));
}

/// A value stored with a ttl reads back at once; the reaper is due no later
/// than its deadline, and a sweep at or after the deadline removes it.
pub proof fn lemma_ttl(m: Map<Seq<char>, EntryModel>, k: Seq<char>, v: Seq<u8>, now: u64, ttl: u64, later: u64)
    requires
        m.dom().finite(),
        now + ttl <= u64::MAX,
        later >= now + ttl,
    ensures
        lookup(after_set(m, k, v, deadline(now, Some(ttl))), k) == Some(v),
        earliest(after_set(m, k, v, deadline(now, Some(ttl)))) matches Some(t) && t <= now + ttl,
        lookup(after_sweep(after_set(m, k, v, deadline(now, Some(ttl))), later), k) is None,
{
    let m1 = after_set(m, k, v, deadline(now, Some(ttl)));
    assert(has_deadline(m1, k, (now + ttl) as u64));
    lemma_earliest_bound(m1, k, (now + ttl) as u64);
}

/// A later store with an earlier deadline than any the store holds wakes the
/// reaper, which then waits for that deadline first.
pub proof fn lemma_earlier_deadline_wakes(
    m: Map<Seq<char>, EntryModel>,
    a: Seq<char>,
    va: Seq<u8>,
    now_a: u64,
    ttl_a: u64,
    b: Seq<char>,
    vb: Seq<u8>,
    now_b: u64,
    ttl_b: u64,
)
    requires
        m.dom().finite(),
        now_a + ttl_a <= u64::MAX,
        now_b + ttl_b < now_a + ttl_a,
        forall|k: Seq<char>, t: u64| has_deadline(m, k, t) ==> now_b + ttl_b < t,
    ensures
        wakes_reaper(after_set(m, a, va, deadline(now_a, Some(ttl_a))), deadline(now_b, Some(ttl_b))),
        earliest(after_set(after_set(m, a, va, deadline(now_a, Some(ttl_a))), b, vb, deadline(now_b, Some(ttl_b))))
            == Some((now_b + ttl_b) as u64),
{
    let tb = (now_b + ttl_b) as u64;
    let m1 = after_set(m, a, va, deadline(now_a, Some(ttl_a)));
    let m2 = after_set(m1, b, vb, deadline(now_b, Some(ttl_b)));
    assert forall|k: Seq<char>, t: u64| has_deadline(m1, k, t) implies tb < t by {
        if k != a {
            assert(has_deadline(m, k, t));
        }
    }
    assert(has_deadline(m1, a, (now_a + ttl_a) as u64));
    lemma_earliest_bound(m1, a, (now_a + ttl_a) as u64);
    let e = earliest(m1).unwrap();
    lemma_earliest_unique(m1, e);
    assert(is_earliest(m1, e));
    let ke = choose|ke: Seq<char>| has_deadline(m1, ke, e);
    assert(has_deadline(m1, ke, e));
    assert(has_deadline(m2, b, tb));
    assert forall|k: Seq<char>, u: u64| has_deadline(m2, k, u) implies tb <= u by {
        if k != b {
            assert(has_deadline(m1, k, u));
        }
    }
    assert(is_earliest(m2, tb));
    lemma_earliest_unique(m2, tb);
}

/// A value stored without a ttl survives every sweep.
pub proof fn lemma_no_ttl_persists(m: Map<Seq<char>, EntryModel>, k: Seq<char>, v: Seq<u8>, later: u64)
    ensures
        lookup(after_sweep(after_set(m, k, v, None), later), k) == Some(v),
{
}

/// Storing over a key without a ttl drops its earlier deadline: no sweep
/// removes the new value.
pub proof fn lemma_overwrite_clears_deadline(
    m: Map<Seq<char>, EntryModel>,
    k: Seq<char>,
    v1: Seq<u8>,
    v2: Seq<u8>,
    now: u64,
    ttl: u64,
    later: u64,
)
    requires
        now + ttl <= u64::MAX,
    ensures
        forall|t: u64| !has_deadline(after_set(after_set(m, k, v1, deadline(now, Some(ttl))), k, v2, None), k, t),
        lookup(after_sweep(after_set(after_set(m, k, v1, deadline(now, Some(ttl))), k, v2, None), later), k)
            == Some(v2),
{
}

} // verus!
