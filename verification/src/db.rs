//! The storage engine: a keyed store of values with optional per-key
//! expiration, tracked in a separate expiration index that the reaper
//! walks.  The store itself is synchronous; whoever owns it serializes
//! access and runs the reaper off `purge_expired_keys`.
use vstd::prelude::*;

verus! {

/// A value held in the store for one key.
#[derive(Debug, PartialEq)]
pub enum Data {
    Bytes(Vec<u8>),
    Array(Vec<Data>),
    String(Vec<u8>),
    Integer(u64),
}

/// The mathematical value of a `Data`.
pub enum DataView {
    Bytes(Seq<u8>),
    Array(Seq<DataView>),
    String(Seq<u8>),
    Integer(u64),
}

/// The value of a stored datum.
pub open spec fn data_view(d: Data) -> DataView
    decreases d,
{
    match d {
        Data::Bytes(b) => DataView::Bytes(b@),
        Data::Array(items) => DataView::Array(datas_view(items@)),
        Data::String(s) => DataView::String(s@),
        Data::Integer(n) => DataView::Integer(n),
    }
}

/// The values of a sequence of stored data, in order.
pub open spec fn datas_view(s: Seq<Data>) -> Seq<DataView>
    decreases s,
{
    if s.len() == 0 {
        Seq::empty()
    } else {
        datas_view(s.drop_last()).push(data_view(s.last()))
    }
}

impl View for Data {
    type V = DataView;

    open spec fn view(&self) -> DataView {
        data_view(*self)
    }
}

/// Element-wise equality between a data sequence and its values.
pub proof fn lemma_datas_view(s: Seq<Data>)
    ensures
        datas_view(s).len() == s.len(),
        forall|i: int| 0 <= i < s.len() ==> datas_view(s)[i] == data_view(#[trigger] s[i]),
        forall|i: int| 0 <= i < s.len() ==> (#[trigger] datas_view(s)[i]) == data_view(s[i]),
    decreases s,
{
    if s.len() > 0 {
        lemma_datas_view(s.drop_last());
        assert forall|i: int| 0 <= i < s.len() implies datas_view(s)[i] == data_view(
            #[trigger] s[i],
        ) by {
            if i < s.len() - 1 {
                assert(datas_view(s)[i] == datas_view(s.drop_last())[i]);
                assert(s.drop_last()[i] == s[i]);
            } else {
                assert(datas_view(s)[i] == data_view(s.last()));
            }
        }
    }
}

/// Concatenating data sequences concatenates their values.
pub proof fn lemma_datas_view_add(a: Seq<Data>, b: Seq<Data>)
    ensures
        datas_view(a + b) == datas_view(a) + datas_view(b),
{
    lemma_datas_view(a);
    lemma_datas_view(b);
    lemma_datas_view(a + b);
    assert forall|i: int| 0 <= i < (a + b).len() implies datas_view(a + b)[i] == (datas_view(a)
        + datas_view(b))[i] by {
        assert(datas_view(a + b)[i] == data_view((a + b)[i]));
        if i < a.len() {
            assert((a + b)[i] == a[i]);
            assert(datas_view(a)[i] == data_view(a[i]));
        } else {
            assert((a + b)[i] == b[i - a.len()]);
            assert(datas_view(b)[i - a.len()] == data_view(b[i - a.len()]));
        }
    }
    assert(datas_view(a + b) =~= datas_view(a) + datas_view(b));
}

/// What the store holds for one key.
#[derive(Debug, PartialEq)]
pub struct Entry {
    pub data: Data,
    /// The absolute instant, in milliseconds, at which the key lapses.
    pub expires_at: Option<u64>,
}

/// The mathematical value of an `Entry`.
pub struct EntryView {
    pub data: DataView,
    pub expires_at: Option<u64>,
}

impl View for Entry {
    type V = EntryView;

    open spec fn view(&self) -> EntryView {
        EntryView { data: self.data@, expires_at: self.expires_at }
    }
}

/// The map described by an association list; a later pair for the same
/// key overrides an earlier one.
pub open spec fn kv_map<T>(s: Seq<(Seq<u8>, T)>) -> Map<Seq<u8>, T>
    decreases s,
{
    if s.len() == 0 {
        Map::empty()
    } else {
        kv_map(s.drop_last()).insert(s.last().0, s.last().1)
    }
}

/// No two pairs of the list share a key.
pub open spec fn distinct_keys<T>(s: Seq<(Seq<u8>, T)>) -> bool {
    forall|i: int, j: int| 0 <= i < j < s.len() ==> (#[trigger] s[i]).0 != (#[trigger] s[j]).0
}

/// Each pair of a distinct-keyed list is in its map.
pub proof fn lemma_kv_index<T>(s: Seq<(Seq<u8>, T)>, i: int)
    requires
        distinct_keys(s),
        0 <= i < s.len(),
    ensures
        kv_map(s).contains_key(s[i].0),
        kv_map(s)[s[i].0] == s[i].1,
    decreases s,
{
    if i < s.len() - 1 {
        assert(distinct_keys(s.drop_last())) by {
            assert forall|a: int, b: int| 0 <= a < b < s.drop_last().len() implies (
            #[trigger] s.drop_last()[a]).0 != (#[trigger] s.drop_last()[b]).0 by {
                assert(s.drop_last()[a] == s[a]);
                assert(s.drop_last()[b] == s[b]);
            }
        }
        lemma_kv_index(s.drop_last(), i);
        assert(s.drop_last()[i] == s[i]);
        assert(s[i].0 != s.last().0);
    }
}

/// A key on no pair of the list is not in its map.
pub proof fn lemma_kv_absent<T>(s: Seq<(Seq<u8>, T)>, k: Seq<u8>)
    requires
        forall|i: int| 0 <= i < s.len() ==> (#[trigger] s[i]).0 != k,
    ensures
        !kv_map(s).contains_key(k),
    decreases s,
{
    if s.len() > 0 {
        assert forall|i: int| 0 <= i < s.drop_last().len() implies (#[trigger] s.drop_last()[
        i]).0 != k by {
            assert(s.drop_last()[i] == s[i]);
        }
        lemma_kv_absent(s.drop_last(), k);
    }
}

/// Every key of the map is on some pair of the list.
pub proof fn lemma_kv_dom<T>(s: Seq<(Seq<u8>, T)>, k: Seq<u8>)
    requires
        kv_map(s).contains_key(k),
    ensures
        exists|i: int| 0 <= i < s.len() && (#[trigger] s[i]).0 == k,
    decreases s,
{
    if s.len() > 0 {
        if s.last().0 == k {
            assert(s[s.len() - 1].0 == k);
        } else {
            lemma_kv_dom(s.drop_last(), k);
            let i = choose|i: int| 0 <= i < s.drop_last().len() && (#[trigger] s.drop_last()[
            i]).0 == k;
            assert(s[i].0 == k);
        }
    }
}

/// Appending a pair inserts its key.
pub proof fn lemma_kv_push<T>(s: Seq<(Seq<u8>, T)>, p: (Seq<u8>, T))
    ensures
        kv_map(s.push(p)) == kv_map(s).insert(p.0, p.1),
{
    assert(s.push(p).drop_last() =~= s);
    assert(s.push(p).last() == p);
}

/// Replacing the value of the pair at `i` re-inserts its key.
pub proof fn lemma_kv_update<T>(s: Seq<(Seq<u8>, T)>, i: int, t: T)
    requires
        distinct_keys(s),
        0 <= i < s.len(),
    ensures
        kv_map(s.update(i, (s[i].0, t))) == kv_map(s).insert(s[i].0, t),
        distinct_keys(s.update(i, (s[i].0, t))),
    decreases s,
{
    let s2 = s.update(i, (s[i].0, t));
    assert forall|a: int, b: int| 0 <= a < b < s2.len() implies (#[trigger] s2[a]).0 != (
    #[trigger] s2[b]).0 by {
        assert(s2[a].0 == s[a].0);
        assert(s2[b].0 == s[b].0);
    }
    if i == s.len() - 1 {
        assert(s2.drop_last() =~= s.drop_last());
        assert(s2.last() == (s[i].0, t));
        assert(kv_map(s2) =~= kv_map(s).insert(s[i].0, t));
    } else {
        assert(distinct_keys(s.drop_last())) by {
            assert forall|a: int, b: int| 0 <= a < b < s.drop_last().len() implies (
            #[trigger] s.drop_last()[a]).0 != (#[trigger] s.drop_last()[b]).0 by {
                assert(s.drop_last()[a] == s[a]);
                assert(s.drop_last()[b] == s[b]);
            }
        }
        assert(s2.drop_last() =~= s.drop_last().update(i, (s[i].0, t)));
        assert(s.drop_last()[i] == s[i]);
        lemma_kv_update(s.drop_last(), i, t);
        assert(s2.last() == s.last());
        assert(s[i].0 != s.last().0);
        assert(kv_map(s2) =~= kv_map(s).insert(s[i].0, t));
    }
}

/// Removing the pair at `i` removes its key.
pub proof fn lemma_kv_remove<T>(s: Seq<(Seq<u8>, T)>, i: int)
    requires
        distinct_keys(s),
        0 <= i < s.len(),
    ensures
        kv_map(s.remove(i)) == kv_map(s).remove(s[i].0),
        distinct_keys(s.remove(i)),
    decreases s,
{
    let s2 = s.remove(i);
    assert forall|a: int, b: int| 0 <= a < b < s2.len() implies (#[trigger] s2[a]).0 != (
    #[trigger] s2[b]).0 by {
        assert(s2[a] == if a < i {
            s[a]
        } else {
            s[a + 1]
        });
        assert(s2[b] == if b < i {
            s[b]
        } else {
            s[b + 1]
        });
    }
    assert(distinct_keys(s.drop_last())) by {
        assert forall|a: int, b: int| 0 <= a < b < s.drop_last().len() implies (
        #[trigger] s.drop_last()[a]).0 != (#[trigger] s.drop_last()[b]).0 by {
            assert(s.drop_last()[a] == s[a]);
            assert(s.drop_last()[b] == s[b]);
        }
    }
    if i == s.len() - 1 {
        assert(s2 =~= s.drop_last());
        assert forall|j: int| 0 <= j < s.drop_last().len() implies (#[trigger] s.drop_last()[
        j]).0 != s[i].0 by {
            assert(s.drop_last()[j] == s[j]);
        }
        lemma_kv_absent(s.drop_last(), s[i].0);
        assert(kv_map(s2) =~= kv_map(s).remove(s[i].0));
    } else {
        lemma_kv_remove(s.drop_last(), i);
        assert(s.drop_last()[i] == s[i]);
        assert(s2.drop_last() =~= s.drop_last().remove(i));
        assert(s2.last() == s.last());
        assert(s[i].0 != s.last().0);
        assert(kv_map(s2) =~= kv_map(s).remove(s[i].0));
    }
}

/// The ghost pairs of the entry list: key bytes to entry value.
pub open spec fn entries_pairs(s: Seq<(Vec<u8>, Entry)>) -> Seq<(Seq<u8>, EntryView)> {
    s.map_values(|p: (Vec<u8>, Entry)| (p.0@, p.1@))
}

/// The ghost pairs of the expiration index: key bytes to deadline.
pub open spec fn exp_pairs(s: Seq<(u64, Vec<u8>)>) -> Seq<(Seq<u8>, u64)> {
    s.map_values(|p: (u64, Vec<u8>)| (p.1@, p.0))
}

/// The mathematical state of the store.
pub struct DbView {
    /// What each key holds, with its optional absolute deadline.
    pub entries: Map<Seq<u8>, EntryView>,
    /// The deadline of each key that has one.
    pub expirations: Map<Seq<u8>, u64>,
    /// Whether the reaper has been told to exit.
    pub shutdown: bool,
}

/// The store invariant: the expiration index holds exactly the keys whose
/// entry carries a deadline, with that deadline.
pub open spec fn consistent(v: DbView) -> bool {
    &&& forall|k: Seq<u8>|
        #[trigger] v.entries.dom().contains(k) && v.entries[k].expires_at is Some
            ==> v.expirations.dom().contains(k) && v.entries[k].expires_at == Some(
            v.expirations[k],
        )
    &&& forall|k: Seq<u8>| #[trigger]
        v.expirations.dom().contains(k) ==> v.entries.dom().contains(k)
            && v.entries[k].expires_at == Some(v.expirations[k])
}

/// Addition of a duration to an instant, stopping at the largest
/// representable instant.
pub open spec fn sat_add(a: u64, b: u64) -> u64 {
    if a + b > u64::MAX {
        u64::MAX
    } else {
        (a + b) as u64
    }
}

/// The absolute deadline of a write made at `now` with an optional
/// time-to-live in milliseconds.
pub open spec fn spec_deadline(now: u64, expire: Option<u64>) -> Option<u64> {
    match expire {
        None => None,
        Some(d) => Some(sat_add(now, d)),
    }
}

/// Whether a write made at `now` with the given time-to-live moves the
/// earliest tracked deadline forward, so the reaper must be woken.
pub open spec fn spec_notify(exp: Map<Seq<u8>, u64>, now: u64, expire: Option<u64>) -> bool {
    match expire {
        None => false,
        Some(d) => forall|k: Seq<u8>| #[trigger]
            exp.dom().contains(k) ==> sat_add(now, d) < exp[k],
    }
}

/// The keys whose deadline has passed at `now`.
pub open spec fn expired_keys(exp: Map<Seq<u8>, u64>, now: u64) -> Set<Seq<u8>> {
    Set::new(|k: Seq<u8>| exp.dom().contains(k) && exp[k] <= now)
}

/// What `get` returns: the value under the key, if any.
pub open spec fn spec_get(v: DbView, key: Seq<u8>) -> Option<DataView> {
    if v.entries.dom().contains(key) {
        Some(v.entries[key].data)
    } else {
        None
    }
}

/// What `set` does to the store, and whether it must wake the reaper.
pub open spec fn spec_set(
    v: DbView,
    key: Seq<u8>,
    data: DataView,
    expire: Option<u64>,
    now: u64,
) -> (DbView, bool) {
    let dl = spec_deadline(now, expire);
    (
        DbView {
            entries: v.entries.insert(key, EntryView { data, expires_at: dl }),
            expirations: match dl {
                Some(t) => v.expirations.insert(key, t),
                None => v.expirations.remove(key),
            },
            shutdown: v.shutdown,
        },
        spec_notify(v.expirations, now, expire),
    )
}

/// What `rpush` does to the store, and the length it reports: zero is the
/// conflict signal for a key holding a non-list.
pub open spec fn spec_rpush(v: DbView, key: Seq<u8>, items: Seq<DataView>) -> (DbView, nat) {
    if !v.entries.dom().contains(key) {
        (
            DbView {
                entries: v.entries.insert(
                    key,
                    EntryView { data: DataView::Array(items), expires_at: None },
                ),
                ..v
            },
            items.len(),
        )
    } else {
        match v.entries[key].data {
            DataView::Array(l) => (
                DbView {
                    entries: v.entries.insert(
                        key,
                        EntryView {
                            data: DataView::Array(l + items),
                            expires_at: v.entries[key].expires_at,
                        },
                    ),
                    ..v
                },
                l.len() + items.len(),
            ),
            _ => (v, 0),
        }
    }
}

/// What one purge pass at `now` does to the store: nothing while it is
/// shutting down, else it drops every lapsed key from both maps.
pub open spec fn spec_purge(v: DbView, now: u64) -> DbView {
    if v.shutdown {
        v
    } else {
        DbView {
            entries: v.entries.remove_keys(expired_keys(v.expirations, now)),
            expirations: v.expirations.remove_keys(expired_keys(v.expirations, now)),
            shutdown: v.shutdown,
        }
    }
}

/// The keyed store: entries, the expiration index, and the shutdown flag
/// that stops the reaper.
pub struct Db {
    entries: Vec<(Vec<u8>, Entry)>,
    expirations: Vec<(u64, Vec<u8>)>,
    shutdown: bool,
}

impl View for Db {
    type V = DbView;

    closed spec fn view(&self) -> DbView {
        DbView {
            entries: kv_map(entries_pairs(self.entries@)),
            expirations: kv_map(exp_pairs(self.expirations@)),
            shutdown: self.shutdown,
        }
    }
}

impl Db {
    /// The store is well formed: no key repeats in either list, and the
    /// two lists agree as `consistent` demands.  Every method keeps it.
    pub closed spec fn wf(&self) -> bool {
        &&& distinct_keys(entries_pairs(self.entries@))
        &&& distinct_keys(exp_pairs(self.expirations@))
        &&& consistent(self@)
    }

    /// An empty store.
    pub fn new() -> (db: Db)
        ensures
            db.wf(),
            db@.entries == Map::<Seq<u8>, EntryView>::empty(),
            db@.expirations == Map::<Seq<u8>, u64>::empty(),
            !db@.shutdown,
    {
        let db = Db { entries: Vec::new(), expirations: Vec::new(), shutdown: false };
        proof {
            assert(entries_pairs(db.entries@) =~= Seq::<(Seq<u8>, EntryView)>::empty());
            assert(exp_pairs(db.expirations@) =~= Seq::<(Seq<u8>, u64)>::empty());
        }
        db
    }

    /// Index of the entry for `key`, if any.
    fn position(&self, key: &[u8]) -> (r: Option<usize>)
        ensures
            match r {
                Some(i) => i < self.entries@.len() && self.entries@[i as int].0@ == key@,
                None => forall|i: int|
                    0 <= i < self.entries@.len() ==> (#[trigger] self.entries@[i]).0@ != key@,
            },
    {
        let mut i: usize = 0;
        while i < self.entries.len()
            invariant
                i <= self.entries@.len(),
                forall|j: int| 0 <= j < i ==> (#[trigger] self.entries@[j]).0@ != key@,
            decreases self.entries@.len() - i,
        {
            if crate::text::eq_bytes(self.entries[i].0.as_slice(), key) {
                return Some(i);
            }
            i = i + 1;
        }
        None
    }

    /// Index of the expiration pair for `key`, if any.
    fn exp_position(&self, key: &[u8]) -> (r: Option<usize>)
        ensures
            match r {
                Some(i) => i < self.expirations@.len() && self.expirations@[i as int].1@ == key@,
                None => forall|i: int|
                    0 <= i < self.expirations@.len() ==> (#[trigger] self.expirations@[i]).1@
                        != key@,
            },
    {
        let mut i: usize = 0;
        while i < self.expirations.len()
            invariant
                i <= self.expirations@.len(),
                forall|j: int| 0 <= j < i ==> (#[trigger] self.expirations@[j]).1@ != key@,
            decreases self.expirations@.len() - i,
        {
            if crate::text::eq_bytes(self.expirations[i].1.as_slice(), key) {
                return Some(i);
            }
            i = i + 1;
        }
        None
    }

    /// The value held for `key`, or nothing.
    pub fn get(&self, key: &[u8]) -> (r: Option<&Data>)
        requires
            self.wf(),
        ensures
            match r {
                Some(d) => self@.entries.dom().contains(key@) && d@ == self@.entries[key@].data,
                None => !self@.entries.dom().contains(key@),
            },
    {
        match self.position(key) {
            Some(i) => {
                proof {
                    lemma_kv_index(entries_pairs(self.entries@), i as int);
                }
                Some(&self.entries[i].1.data)
            },
            None => {
                proof {
                    assert forall|j: int| 0 <= j < entries_pairs(self.entries@).len() implies (
                    #[trigger] entries_pairs(self.entries@)[j]).0 != key@ by {
                        assert(entries_pairs(self.entries@)[j].0 == self.entries@[j].0@);
                    }
                    lemma_kv_absent(entries_pairs(self.entries@), key@);
                }
                None
            },
        }
    }

    /// Whether `when` comes before every tracked deadline.
    fn earlier_than_all(&self, when: u64) -> (r: bool)
        requires
            self.wf(),
        ensures
            r == (forall|k: Seq<u8>| #[trigger]
                self@.expirations.dom().contains(k) ==> when < self@.expirations[k]),
    {
        let ghost pairs = exp_pairs(self.expirations@);
        let mut i: usize = 0;
        while i < self.expirations.len()
            invariant
                self.wf(),
                i <= self.expirations@.len(),
                pairs == exp_pairs(self.expirations@),
                forall|j: int| 0 <= j < i ==> when < (#[trigger] self.expirations@[j]).0,
            decreases self.expirations@.len() - i,
        {
            if self.expirations[i].0 <= when {
                proof {
                    lemma_kv_index(pairs, i as int);
                    assert(pairs[i as int] == (
                        self.expirations@[i as int].1@,
                        self.expirations@[i as int].0,
                    ));
                    assert(self@.expirations.dom().contains(self.expirations@[i as int].1@));
                    assert(self@.expirations[self.expirations@[i as int].1@]
                        == self.expirations@[i as int].0);
                }
                return false;
            }
            i = i + 1;
        }
        proof {
            assert forall|k: Seq<u8>| #[trigger]
                self@.expirations.dom().contains(k) implies when < self@.expirations[k] by {
                lemma_kv_dom(pairs, k);
                let j = choose|j: int| 0 <= j < pairs.len() && (#[trigger] pairs[j]).0 == k;
                lemma_kv_index(pairs, j);
                assert(pairs[j] == (self.expirations@[j].1@, self.expirations@[j].0));
            }
        }
        true
    }
}

impl Db {
    /// Writes `value` under `key`, replacing whatever the key held.  A
    /// time-to-live of `d` milliseconds sets the absolute deadline
    /// `now + d`, stopped at the largest representable instant; without
    /// one the key never lapses.  Returns whether the write moved the
    /// earliest tracked deadline forward, in which case the caller must
    /// wake the reaper once, after releasing its lock.
    pub fn set(&mut self, key: Vec<u8>, value: Data, expire: Option<u64>, now: u64) -> (notify:
        bool)
        requires
            old(self).wf(),
        ensures
            final(self).wf(),
            final(self)@ == spec_set(old(self)@, key@, value@, expire, now).0,
            notify == spec_set(old(self)@, key@, value@, expire, now).1,
    {
        let ghost old_entries = self@.entries;
        let ghost old_exp = self@.expirations;
        let expires_at: Option<u64> = match expire {
            None => None,
            Some(d) => Some(
                if d > u64::MAX - now {
                    u64::MAX
                } else {
                    now + d
                },
            ),
        };
        proof {
            assert(expires_at == spec_deadline(now, expire));
        }
        let notify = match expires_at {
            None => false,
            Some(when) => self.earlier_than_all(when),
        };

        // Keep the expiration index in step: drop the key's old deadline,
        // then record the new one if there is one.
        let key_bytes = vstd::slice::slice_to_vec(key.as_slice());
        match self.exp_position(key.as_slice()) {
            Some(j) => {
                proof {
                    lemma_kv_remove(exp_pairs(self.expirations@), j as int);
                    assert(exp_pairs(self.expirations@)[j as int].0 == key@);
                    assert(exp_pairs(self.expirations@.remove(j as int)) =~= exp_pairs(
                        self.expirations@,
                    ).remove(j as int));
                }
                let _ = self.expirations.remove(j);
            },
            None => {
                proof {
                    assert forall|i: int| 0 <= i < exp_pairs(self.expirations@).len() implies (
                    #[trigger] exp_pairs(self.expirations@)[i]).0 != key@ by {
                        assert(exp_pairs(self.expirations@)[i].0 == self.expirations@[i].1@);
                    }
                    lemma_kv_absent(exp_pairs(self.expirations@), key@);
                    assert(old_exp.remove(key@) =~= old_exp);
                }
            },
        }
        proof {
            assert(self@.expirations == old_exp.remove(key@));
            assert forall|i: int| 0 <= i < exp_pairs(self.expirations@).len() implies (
            #[trigger] exp_pairs(self.expirations@)[i]).0 != key@ by {
                assert(exp_pairs(self.expirations@)[i].0 == self.expirations@[i].1@);
            }
        }
        if let Some(t) = expires_at {
            proof {
                lemma_kv_push(exp_pairs(self.expirations@), (key@, t));
                assert(exp_pairs(self.expirations@.push((t, key_bytes))) =~= exp_pairs(
                    self.expirations@,
                ).push((key@, t)));
                assert(old_exp.remove(key@).insert(key@, t) =~= old_exp.insert(key@, t));
            }
            let ghost before = exp_pairs(self.expirations@);
            self.expirations.push((t, key_bytes));
            proof {
                let pairs = exp_pairs(self.expirations@);
                assert forall|a: int, b: int| 0 <= a < b < pairs.len() implies (
                #[trigger] pairs[a]).0 != (#[trigger] pairs[b]).0 by {
                    if b < pairs.len() - 1 {
                        assert(pairs[a] == before[a]);
                        assert(pairs[b] == before[b]);
                    } else {
                        assert(pairs[a] == before[a]);
                        assert(pairs[b].0 == key@);
                    }
                }
            }
        }

        // Write the entry itself.
        let entry = Entry { data: value, expires_at };
        match self.position(key.as_slice()) {
            Some(i) => {
                proof {
                    lemma_kv_update(entries_pairs(self.entries@), i as int, entry@);
                    assert(entries_pairs(self.entries@)[i as int].0 == key@);
                    assert(entries_pairs(self.entries@.update(i as int, (key, entry))) =~=
                    entries_pairs(self.entries@).update(i as int, (key@, entry@)));
                }
                self.entries[i] = (key, entry);
            },
            None => {
                proof {
                    assert forall|i: int| 0 <= i < entries_pairs(self.entries@).len() implies (
                    #[trigger] entries_pairs(self.entries@)[i]).0 != key@ by {
                        assert(entries_pairs(self.entries@)[i].0 == self.entries@[i].0@);
                    }
                    lemma_kv_absent(entries_pairs(self.entries@), key@);
                    lemma_kv_push(entries_pairs(self.entries@), (key@, entry@));
                    assert(entries_pairs(self.entries@.push((key, entry))) =~= entries_pairs(
                        self.entries@,
                    ).push((key@, entry@)));
                }
                let ghost before = entries_pairs(self.entries@);
                self.entries.push((key, entry));
                proof {
                    let pairs = entries_pairs(self.entries@);
                    assert forall|a: int, b: int| 0 <= a < b < pairs.len() implies (
                    #[trigger] pairs[a]).0 != (#[trigger] pairs[b]).0 by {
                        if b < pairs.len() - 1 {
                            assert(pairs[a] == before[a]);
                            assert(pairs[b] == before[b]);
                        } else {
                            assert(pairs[a] == before[a]);
                            assert(pairs[b].0 == key@);
                        }
                    }
                }
            },
        }

        // The two maps agree again.
        proof {
            let ev = EntryView { data: value@, expires_at: spec_deadline(now, expire) };
            assert(self@.entries == old_entries.insert(key@, ev));
            assert forall|k: Seq<u8>| #[trigger]
                self@.entries.dom().contains(k) && self@.entries[k].expires_at is Some implies
                self@.expirations.dom().contains(k) && self@.entries[k].expires_at == Some(
                self@.expirations[k],
            ) by {
                if k != key@ {
                    assert(old_entries.dom().contains(k));
                    assert(old_entries[k] == self@.entries[k]);
                }
            }
            assert forall|k: Seq<u8>| #[trigger]
                self@.expirations.dom().contains(k) implies self@.entries.dom().contains(k)
                && self@.entries[k].expires_at == Some(self@.expirations[k]) by {
                if k != key@ {
                    assert(old_exp.dom().contains(k));
                    assert(old_exp[k] == self@.expirations[k]);
                }
            }
            assert(self@ == spec_set(
                DbView { entries: old_entries, expirations: old_exp, shutdown: self@.shutdown },
                key@,
                value@,
                expire,
                now,
            ).0);
        }
        notify
    }
}

impl Db {
    /// Whether the store has been told to shut its reaper down.
    pub fn is_shutdown(&self) -> (r: bool)
        ensures
            r == self@.shutdown,
    {
        self.shutdown
    }

    /// Tells the reaper to exit: it returns `None` from its next purge.
    /// The caller wakes it once after releasing its lock.
    pub fn shutdown_purge_task(&mut self)
        requires
            old(self).wf(),
        ensures
            final(self).wf(),
            final(self)@.entries == old(self)@.entries,
            final(self)@.expirations == old(self)@.expirations,
            final(self)@.shutdown,
    {
        self.shutdown = true;
        proof {
            assert(self@.entries == old(self)@.entries);
            assert(self@.expirations == old(self)@.expirations);
        }
    }

    /// The earliest tracked deadline, if any: the next instant the reaper
    /// must wake for.
    pub fn next_expiration(&self) -> (r: Option<u64>)
        requires
            self.wf(),
        ensures
            match r {
                None => forall|k: Seq<u8>| !(#[trigger] self@.expirations.dom().contains(k)),
                Some(m) => {
                    &&& exists|k: Seq<u8>| #[trigger]
                        self@.expirations.dom().contains(k) && self@.expirations[k] == m
                    &&& forall|k: Seq<u8>| #[trigger]
                        self@.expirations.dom().contains(k) ==> m <= self@.expirations[k]
                },
            },
    {
        let ghost pairs = exp_pairs(self.expirations@);
        let mut best: Option<u64> = None;
        let mut i: usize = 0;
        while i < self.expirations.len()
            invariant
                self.wf(),
                i <= self.expirations@.len(),
                pairs == exp_pairs(self.expirations@),
                match best {
                    None => i == 0,
                    Some(m) => {
                        &&& i > 0
                        &&& exists|j: int| 0 <= j < i && (#[trigger] self.expirations@[j]).0 == m
                        &&& forall|j: int| 0 <= j < i ==> m <= (#[trigger] self.expirations@[j]).0
                    },
                },
            decreases self.expirations@.len() - i,
        {
            let d = self.expirations[i].0;
            best = match best {
                None => Some(d),
                Some(m) => if d < m {
                    Some(d)
                } else {
                    Some(m)
                },
            };
            i = i + 1;
        }
        proof {
            match best {
                None => {
                    assert forall|k: Seq<u8>| !(#[trigger] self@.expirations.dom().contains(
                        k,
                    )) by {
                        if self@.expirations.dom().contains(k) {
                            lemma_kv_dom(pairs, k);
                        }
                    }
                },
                Some(m) => {
                    let j = choose|j: int| 0 <= j < i && (#[trigger] self.expirations@[j]).0 == m;
                    lemma_kv_index(pairs, j);
                    assert(pairs[j] == (self.expirations@[j].1@, self.expirations@[j].0));
                    assert(self@.expirations.dom().contains(self.expirations@[j].1@)
                        && self@.expirations[self.expirations@[j].1@] == m);
                    assert forall|k: Seq<u8>| #[trigger]
                        self@.expirations.dom().contains(k) implies m <= self@.expirations[k] by {
                        lemma_kv_dom(pairs, k);
                        let j2 = choose|j2: int|
                            0 <= j2 < pairs.len() && (#[trigger] pairs[j2]).0 == k;
                        lemma_kv_index(pairs, j2);
                        assert(pairs[j2] == (self.expirations@[j2].1@, self.expirations@[j2].0));
                    }
                },
            }
        }
        best
    }

    /// Removes every entry whose deadline has passed at `now` and returns
    /// the earliest remaining deadline, which the reaper sleeps until.
    /// `None` asks the reaper to wait for a notification: the store is
    /// shutting down (nothing is purged then) or no deadline remains.
    pub fn purge_expired_keys(&mut self, now: u64) -> (r: Option<u64>)
        requires
            old(self).wf(),
        ensures
            final(self).wf(),
            final(self)@ == spec_purge(old(self)@, now),
            old(self)@.shutdown ==> r is None,
            !old(self)@.shutdown ==> {
                &&& match r {
                    None => forall|k: Seq<u8>|
                        !(#[trigger] final(self)@.expirations.dom().contains(k)),
                    Some(m) => {
                        &&& now < m
                        &&& exists|k: Seq<u8>| #[trigger]
                            final(self)@.expirations.dom().contains(k)
                                && final(self)@.expirations[k] == m
                        &&& forall|k: Seq<u8>| #[trigger]
                            final(self)@.expirations.dom().contains(k)
                                ==> m <= final(self)@.expirations[k]
                    },
                }
            },
    {
        if self.shutdown {
            return None;
        }
        let ghost old_entries = self@.entries;
        let ghost old_exp = self@.expirations;
        let ghost mut removed: Set<Seq<u8>> = Set::empty();
        proof {
            assert(old_exp.remove_keys(removed) =~= old_exp);
            assert(old_entries.remove_keys(removed) =~= old_entries);
        }
        let mut j: usize = 0;
        while j < self.expirations.len()
            invariant
                self.wf(),
                j <= self.expirations@.len(),
                !self@.shutdown,
                forall|k: Seq<u8>| #[trigger]
                    removed.contains(k) ==> old_exp.dom().contains(k) && old_exp[k] <= now,
                self@.expirations == old_exp.remove_keys(removed),
                self@.entries == old_entries.remove_keys(removed),
                forall|i: int| 0 <= i < j ==> now < (#[trigger] self.expirations@[i]).0,
            decreases self.expirations@.len() - j,
        {
            let when = self.expirations[j].0;
            if when <= now {
                let ghost pairs = exp_pairs(self.expirations@);
                let ghost k = self.expirations@[j as int].1@;
                proof {
                    lemma_kv_index(pairs, j as int);
                    assert(pairs[j as int] == (k, when));
                    assert(self@.expirations.dom().contains(k) && self@.expirations[k] == when);
                    assert(old_exp.dom().contains(k) && old_exp[k] == when);
                    lemma_kv_remove(pairs, j as int);
                    assert(exp_pairs(self.expirations@.remove(j as int)) =~= pairs.remove(
                        j as int,
                    ));
                }
                let ghost exp_before = self.expirations@;
                let pair = self.expirations.remove(j);
                proof {
                    assert(pair.1@ == k);
                }
                match self.position(pair.1.as_slice()) {
                    Some(i) => {
                        proof {
                            lemma_kv_remove(entries_pairs(self.entries@), i as int);
                            assert(entries_pairs(self.entries@)[i as int].0 == k);
                            assert(entries_pairs(self.entries@.remove(i as int)) =~=
                            entries_pairs(self.entries@).remove(i as int));
                        }
                        let _ = self.entries.remove(i);
                    },
                    None => {
                        proof {
                            assert forall|i: int|
                                0 <= i < entries_pairs(self.entries@).len() implies (
                            #[trigger] entries_pairs(self.entries@)[i]).0 != k by {
                                assert(entries_pairs(self.entries@)[i].0 == self.entries@[i].0@);
                            }
                            lemma_kv_absent(entries_pairs(self.entries@), k);
                            assert(false);
                        }
                    },
                }
                proof {
                    removed = removed.insert(k);
                    assert(self@.expirations =~= old_exp.remove_keys(removed));
                    assert(self@.entries =~= old_entries.remove_keys(removed));
                    assert forall|i: int| 0 <= i < j implies now < (
                    #[trigger] self.expirations@[i]).0 by {
                        assert(self.expirations@[i] == exp_before[i]);
                    }
                }
            } else {
                j = j + 1;
            }
        }
        proof {
            assert forall|k: Seq<u8>| #[trigger]
                old_exp.dom().contains(k) && old_exp[k] <= now implies removed.contains(k) by {
                if !removed.contains(k) {
                    assert(self@.expirations.dom().contains(k));
                    let pairs = exp_pairs(self.expirations@);
                    lemma_kv_dom(pairs, k);
                    let i = choose|i: int| 0 <= i < pairs.len() && (#[trigger] pairs[i]).0 == k;
                    lemma_kv_index(pairs, i);
                    assert(pairs[i] == (self.expirations@[i].1@, self.expirations@[i].0));
                    assert(now < self.expirations@[i].0);
                    assert(self@.expirations[k] == old_exp[k]);
                }
            }
            assert(removed =~= expired_keys(old_exp, now));
        }
        let r = self.next_expiration();
        proof {
            match r {
                Some(m) => {
                    let k = choose|k: Seq<u8>| #[trigger]
                        self@.expirations.dom().contains(k) && self@.expirations[k] == m;
                    let pairs = exp_pairs(self.expirations@);
                    lemma_kv_dom(pairs, k);
                    let i = choose|i: int| 0 <= i < pairs.len() && (#[trigger] pairs[i]).0 == k;
                    lemma_kv_index(pairs, i);
                    assert(pairs[i] == (self.expirations@[i].1@, self.expirations@[i].0));
                    assert(now < self.expirations@[i].0);
                },
                None => {},
            }
        }
        r
    }

    /// Appends `items` to the list held under `key`.  An absent key gets a
    /// fresh list holding exactly `items`, with no deadline; the reply is
    /// the list's new length.  A key holding anything but a list is left
    /// untouched and the reply is zero, the conflict signal.
    pub fn rpush(&mut self, key: Vec<u8>, items: Vec<Data>) -> (r: u64)
        requires
            old(self).wf(),
        ensures
            final(self).wf(),
            final(self)@ == spec_rpush(old(self)@, key@, datas_view(items@)).0,
            r == spec_rpush(old(self)@, key@, datas_view(items@)).1,
    {
        let ghost old_entries = self@.entries;
        let ghost old_exp = self@.expirations;
        proof {
            lemma_datas_view(items@);
        }
        let ghost arg_items = items@;
        match self.position(key.as_slice()) {
            None => {
                let n = items.len();
                let entry = Entry { data: Data::Array(items), expires_at: None };
                proof {
                    assert forall|i: int| 0 <= i < entries_pairs(self.entries@).len() implies (
                    #[trigger] entries_pairs(self.entries@)[i]).0 != key@ by {
                        assert(entries_pairs(self.entries@)[i].0 == self.entries@[i].0@);
                    }
                    lemma_kv_absent(entries_pairs(self.entries@), key@);
                    lemma_kv_push(entries_pairs(self.entries@), (key@, entry@));
                    assert(entries_pairs(self.entries@.push((key, entry))) =~= entries_pairs(
                        self.entries@,
                    ).push((key@, entry@)));
                }
                let ghost before = entries_pairs(self.entries@);
                self.entries.push((key, entry));
                proof {
                    let pairs = entries_pairs(self.entries@);
                    assert forall|a: int, b: int| 0 <= a < b < pairs.len() implies (
                    #[trigger] pairs[a]).0 != (#[trigger] pairs[b]).0 by {
                        if b < pairs.len() - 1 {
                            assert(pairs[a] == before[a]);
                            assert(pairs[b] == before[b]);
                        } else {
                            assert(pairs[a] == before[a]);
                            assert(pairs[b].0 == key@);
                        }
                    }
                    assert forall|k: Seq<u8>| #[trigger]
                        self@.entries.dom().contains(k) && self@.entries[k].expires_at is Some
                        implies self@.expirations.dom().contains(k) && self@.entries[
                        k].expires_at == Some(self@.expirations[k]) by {
                        if k != key@ {
                            assert(old_entries.dom().contains(k));
                            assert(old_entries[k] == self@.entries[k]);
                        }
                    }
                    assert forall|k: Seq<u8>| #[trigger]
                        self@.expirations.dom().contains(k) implies self@.entries.dom().contains(
                        k,
                    ) && self@.entries[k].expires_at == Some(self@.expirations[k]) by {
                        if k != key@ {
                            assert(old_entries.dom().contains(k) ==> old_entries[k]
                                == self@.entries[k]);
                        }
                    }
                }
                n as u64
            },
            Some(i) => {
                proof {
                    lemma_kv_index(entries_pairs(self.entries@), i as int);
                    assert(entries_pairs(self.entries@)[i as int] == (
                        self.entries@[i as int].0@,
                        self.entries@[i as int].1@,
                    ));
                    lemma_kv_remove(entries_pairs(self.entries@), i as int);
                    assert(entries_pairs(self.entries@.remove(i as int)) =~= entries_pairs(
                        self.entries@,
                    ).remove(i as int));
                }
                let ghost entries_before = self.entries@;
                let (key2, old_entry) = self.entries.remove(i);
                let ghost removed_map = self@.entries;
                proof {
                    assert(key2@ == key@);
                    assert(removed_map == old_entries.remove(key@));
                }
                match old_entry.data {
                    Data::Array(list) => {
                        let mut list = list;
                        let mut items = items;
                        let ghost olist = list@;
                        let ghost oitems = items@;
                        let ghost l = datas_view(olist);
                        let ghost iv = datas_view(oitems);
                        proof {
                            lemma_datas_view(olist);
                            lemma_datas_view(oitems);
                            assert(oitems == arg_items);
                            assert(old_entries[key@] == entries_before[i as int].1@);
                            assert(old_entries[key@].data == DataView::Array(l));
                        }
                        list.append(&mut items);
                        proof {
                            lemma_datas_view_add(olist, oitems);
                        }
                        let n = list.len();
                        let entry = Entry {
                            data: Data::Array(list),
                            expires_at: old_entry.expires_at,
                        };
                        proof {
                            assert(entry@.data == DataView::Array(l + iv));
                            assert forall|q: int|
                                0 <= q < entries_pairs(self.entries@).len() implies (
                            #[trigger] entries_pairs(self.entries@)[q]).0 != key@ by {
                                assert(entries_pairs(self.entries@)[q].0 == self.entries@[q].0@);
                                assert(self.entries@[q] == if q < i as int {
                                    entries_before[q]
                                } else {
                                    entries_before[q + 1]
                                });
                            }
                            lemma_kv_absent(entries_pairs(self.entries@), key@);
                            lemma_kv_push(entries_pairs(self.entries@), (key@, entry@));
                            assert(entries_pairs(self.entries@.push((key2, entry))) =~=
                            entries_pairs(self.entries@).push((key@, entry@)));
                        }
                        let ghost before = entries_pairs(self.entries@);
                        self.entries.push((key2, entry));
                        proof {
                            let pairs = entries_pairs(self.entries@);
                            assert forall|a: int, b: int| 0 <= a < b < pairs.len() implies (
                            #[trigger] pairs[a]).0 != (#[trigger] pairs[b]).0 by {
                                if b < pairs.len() - 1 {
                                    assert(pairs[a] == before[a]);
                                    assert(pairs[b] == before[b]);
                                } else {
                                    assert(pairs[a] == before[a]);
                                    assert(pairs[b].0 == key@);
                                }
                            }
                            assert(self@.entries =~= old_entries.insert(
                                key@,
                                EntryView {
                                    data: DataView::Array(l + iv),
                                    expires_at: old_entries[key@].expires_at,
                                },
                            ));
                            assert forall|k: Seq<u8>| #[trigger]
                                self@.entries.dom().contains(k) && self@.entries[
                            k].expires_at is Some implies self@.expirations.dom().contains(k)
                                && self@.entries[k].expires_at == Some(self@.expirations[k]) by {
                                if k != key@ {
                                    assert(old_entries.dom().contains(k));
                                    assert(old_entries[k] == self@.entries[k]);
                                } else {
                                    assert(old_entries[key@].expires_at is Some
                                        ==> self@.expirations.dom().contains(k));
                                }
                            }
                            assert forall|k: Seq<u8>| #[trigger]
                                self@.expirations.dom().contains(k) implies
                                self@.entries.dom().contains(k) && self@.entries[k].expires_at
                                == Some(self@.expirations[k]) by {
                                if k != key@ {
                                    assert(old_entries[k] == self@.entries[k]);
                                }
                            }
                        }
                        n as u64
                    },
                    other => {
                        let entry = Entry { data: other, expires_at: old_entry.expires_at };
                        proof {
                            assert forall|q: int|
                                0 <= q < entries_pairs(self.entries@).len() implies (
                            #[trigger] entries_pairs(self.entries@)[q]).0 != key@ by {
                                assert(entries_pairs(self.entries@)[q].0 == self.entries@[q].0@);
                                assert(self.entries@[q] == if q < i as int {
                                    entries_before[q]
                                } else {
                                    entries_before[q + 1]
                                });
                            }
                            lemma_kv_absent(entries_pairs(self.entries@), key@);
                            lemma_kv_push(entries_pairs(self.entries@), (key@, entry@));
                            assert(entries_pairs(self.entries@.push((key2, entry))) =~=
                            entries_pairs(self.entries@).push((key@, entry@)));
                            assert(entry@ == old_entries[key@]);
                        }
                        let ghost before = entries_pairs(self.entries@);
                        self.entries.push((key2, entry));
                        proof {
                            let pairs = entries_pairs(self.entries@);
                            assert forall|a: int, b: int| 0 <= a < b < pairs.len() implies (
                            #[trigger] pairs[a]).0 != (#[trigger] pairs[b]).0 by {
                                if b < pairs.len() - 1 {
                                    assert(pairs[a] == before[a]);
                                    assert(pairs[b] == before[b]);
                                } else {
                                    assert(pairs[a] == before[a]);
                                    assert(pairs[b].0 == key@);
                                }
                            }
                            assert(self@.entries =~= old_entries);
                            assert(self@ == old(self)@);
                        }
                        0u64
                    },
                }
            },
        }
    }
}

/// Law: the store invariant.  Every store a caller can hold is consistent:
/// a key's entry carries a deadline exactly when the expiration index
/// holds that key, with the same instant.  `new` establishes it and every
/// method keeps it.
pub proof fn lemma_store_invariant(db: &Db)
    requires
        db.wf(),
    ensures
        consistent(db@),
{
}

/// Law: expiration correctness.  After a write at `now` with time-to-live
/// `ttl`, a purge pass at any instant before the deadline leaves the key
/// readable with its value, and a purge pass at the deadline or beyond
/// removes it.
pub proof fn lemma_expiration(
    v: DbView,
    key: Seq<u8>,
    data: DataView,
    ttl: u64,
    now: u64,
    later: u64,
)
    requires
        !v.shutdown,
    ensures
        ({
            let v1 = spec_set(v, key, data, Some(ttl), now).0;
            let v2 = spec_purge(v1, later);
            &&& later < sat_add(now, ttl) ==> spec_get(v2, key) == Some(data)
            &&& later >= sat_add(now, ttl) ==> spec_get(v2, key) == None::<DataView>
        }),
{
    let dl = sat_add(now, ttl);
    let v1 = spec_set(v, key, data, Some(ttl), now).0;
    let v2 = spec_purge(v1, later);
    assert(v1.expirations[key] == dl);
    if later < dl {
        assert(!expired_keys(v1.expirations, later).contains(key));
        assert(v2.entries.dom().contains(key));
        assert(v2.entries[key].data == data);
    } else {
        assert(expired_keys(v1.expirations, later).contains(key));
        assert(!v2.entries.dom().contains(key));
    }
}

/// Law: earlier-deadline wake-up.  A write whose deadline comes before
/// every tracked deadline asks for the reaper to be woken, and the
/// earliest tracked deadline is then the new one, so the reaper sleeps
/// until the shorter deadline, not the one it had planned for.
pub proof fn lemma_earlier_deadline(v: DbView, key: Seq<u8>, data: DataView, ttl: u64, now: u64)
    requires
        forall|k: Seq<u8>| #[trigger]
            v.expirations.dom().contains(k) ==> sat_add(now, ttl) < v.expirations[k],
    ensures
        spec_set(v, key, data, Some(ttl), now).1,
        ({
            let x1 = spec_set(v, key, data, Some(ttl), now).0.expirations;
            &&& x1.dom().contains(key)
            &&& x1[key] == sat_add(now, ttl)
            &&& forall|k: Seq<u8>| #[trigger] x1.dom().contains(k) ==> x1[key] <= x1[k]
        }),
{
    let x1 = spec_set(v, key, data, Some(ttl), now).0.expirations;
    assert forall|k: Seq<u8>| #[trigger] x1.dom().contains(k) implies x1[key] <= x1[k] by {
        if k != key {
            assert(v.expirations.dom().contains(k));
        }
    }
}

/// Law: push semantics.  Pushing onto an absent key creates a list holding
/// exactly the pushed items and reports their count; a second push appends
/// in order and reports the combined length.
pub proof fn lemma_rpush_semantics(v: DbView, key: Seq<u8>, a: Seq<DataView>, b: Seq<DataView>)
    requires
        !v.entries.dom().contains(key),
    ensures
        ({
            let (v1, r1) = spec_rpush(v, key, a);
            let (v2, r2) = spec_rpush(v1, key, b);
            &&& r1 == a.len()
            &&& spec_get(v1, key) == Some(DataView::Array(a))
            &&& r2 == a.len() + b.len()
            &&& spec_get(v2, key) == Some(DataView::Array(a + b))
        }),
{
}

/// Law: push conflict.  Pushing onto a key that holds anything but a list
/// reports zero and changes nothing; in particular, after a plain write of
/// bytes, a push reports zero and a read still finds the original bytes.
pub proof fn lemma_rpush_conflict(
    v: DbView,
    key: Seq<u8>,
    bytes: Seq<u8>,
    items: Seq<DataView>,
    now: u64,
)
    ensures
        ({
            let v1 = spec_set(v, key, DataView::Bytes(bytes), None, now).0;
            let (v2, r) = spec_rpush(v1, key, items);
            &&& r == 0
            &&& v2 == v1
            &&& spec_get(v2, key) == Some(DataView::Bytes(bytes))
        }),
{
}

} // verus!
