use vstd::prelude::*;

verus! {

/// An ASCII letter folded to lower case; other bytes unchanged.
pub open spec fn lower_byte(b: u8) -> u8 {
    if 65 <= b <= 90 {
        (b + 32) as u8
    } else {
        b
    }
}

/// A name folded to lower case byte by byte.
pub open spec fn lower(s: Seq<u8>) -> Seq<u8> {
    s.map_values(|b: u8| lower_byte(b))
}

/// `now + ttl`, held at the largest value where it would overflow.
pub open spec fn expiry_of(now: u64, ttl: u64) -> u64 {
    if now as int + ttl as int > u64::MAX as int {
        u64::MAX
    } else {
        (now + ttl) as u64
    }
}

/// Folds the ASCII letters of a name to lower case.
pub fn to_lower(name: &[u8]) -> (r: Vec<u8>)
    ensures
        r@ == lower(name@),
{
    let mut out: Vec<u8> = Vec::new();
    let mut i: usize = 0;
    while i < name.len()
        invariant
            i <= name@.len(),
            out@ == lower(name@.subrange(0, i as int)),
        decreases name@.len() - i,
    {
        let b = name[i];
        let l = if 65 <= b && b <= 90 {
            b + 32
        } else {
            b
        };
        out.push(l);
        assert(name@.subrange(0, i + 1) =~= name@.subrange(0, i as int).push(b));
        assert(lower(name@.subrange(0, i + 1)) =~= lower(name@.subrange(0, i as int)).push(l));
        i = i + 1;
    }
    assert(name@.subrange(0, i as int) =~= name@);
    out
}

/// Whether two byte strings are equal.
pub fn bytes_eq(a: &[u8], b: &[u8]) -> (r: bool)
    ensures
        r == (a@ == b@),
{
    if a.len() != b.len() {
        return false;
    }
    let mut i: usize = 0;
    while i < a.len()
        invariant
            a@.len() == b@.len(),
            i <= a@.len(),
            forall|j: int| 0 <= j < i ==> a@[j] == b@[j],
        decreases a@.len() - i,
    {
        if a[i] != b[i] {
            return false;
        }
        i = i + 1;
    }
    assert(a@ =~= b@);
    true
}

/// Relies on `SystemTime::elapsed` of `UNIX_EPOCH`: the clock in whole
/// seconds, or 0 where it stands before the epoch. Nothing is known of the
/// value.
#[verifier::external_body]
fn clock_secs() -> (r: u64)
{
    match std::time::UNIX_EPOCH.elapsed() {
        Ok(d) => d.as_secs(),
        Err(_) => 0,
    }
}

/// An address with the instant, in seconds, at which it stops being valid.
#[derive(Debug, Clone, Copy)]
pub struct CacheEntry {
    pub a: [u8; 4],
    pub expiry: u64,
}

/// The remaining time to live of an entry at `now`, never negative.
pub open spec fn remaining(e: CacheEntry, now: u64) -> u64 {
    if e.expiry > now {
        (e.expiry - now) as u64
    } else {
        0
    }
}

impl CacheEntry {
    /// An entry for `a` that is valid for `ttl` seconds from `now`.
    pub fn new_at(a: &[u8; 4], ttl: u64, now: u64) -> (r: CacheEntry)
        ensures
            r.a == *a,
            r.expiry == expiry_of(now, ttl),
    {
        let expiry = if now > u64::MAX - ttl {
            u64::MAX
        } else {
            now + ttl
        };
        CacheEntry { a: *a, expiry }
    }

    /// An entry for `a` that is valid for `ttl` seconds from the clock's
    /// reading.
    pub fn new(a: &[u8; 4], ttl: u64) -> (r: CacheEntry)
        ensures
            r.a == *a,
            exists|now: u64| r.expiry == expiry_of(now, ttl),
    {
        let now = clock_secs();
        Self::new_at(a, ttl, now)
    }

    /// The whole seconds left at `now`, never negative.
    pub fn get_ttl_at(&self, now: u64) -> (r: u64)
        ensures
            r == remaining(*self, now),
    {
        if self.expiry > now {
            self.expiry - now
        } else {
            0
        }
    }

    /// The whole seconds left at the clock's reading.
    pub fn get_ttl(&self) -> (r: u64)
        ensures
            r <= self.expiry,
            exists|now: u64| r == remaining(*self, now),
    {
        let now = clock_secs();
        self.get_ttl_at(now)
    }

    /// Whether the entry is still valid at `now`.
    pub fn is_valid_at(&self, now: u64) -> (r: bool)
        ensures
            r == (self.expiry > now),
    {
        self.expiry > now
    }

    /// Whether the entry is still valid at the clock's reading.
    pub fn is_valid(&self) -> (r: bool)
        ensures
            r ==> self.expiry > 0,
    {
        let now = clock_secs();
        self.is_valid_at(now)
    }
}

/// One stored entry under its lower-case name.
#[derive(Debug)]
pub struct CacheSlot {
    pub key: Vec<u8>,
    pub entry: CacheEntry,
}

/// The positive answer cache: lower-case name to address and expiry.
pub struct Cache {
    slots: Vec<CacheSlot>,
    model: Ghost<Map<Seq<u8>, CacheEntry>>,
}

/// The cache after `insert(name, a, ttl)` at `now`.
pub open spec fn cache_insert(m: Map<Seq<u8>, CacheEntry>, name: Seq<u8>, a: [u8; 4], ttl: u64, now: u64)
    -> Map<Seq<u8>, CacheEntry> {
    m.insert(lower(name), CacheEntry { a, expiry: expiry_of(now, ttl) })
}

/// What `get(name)` at `now` returns: the address and the remaining whole
/// seconds, where an entry exists and has not expired.
pub open spec fn cache_lookup(m: Map<Seq<u8>, CacheEntry>, name: Seq<u8>, now: u64) -> Option<([u8; 4], u64)> {
    let k = lower(name);
    if m.contains_key(k) && m[k].expiry > now {
        Some((m[k].a, (m[k].expiry - now) as u64))
    } else {
        None
    }
}

/// The cache after `get(name)` at `now`: an expired entry for the name is gone.
pub open spec fn cache_after_get(m: Map<Seq<u8>, CacheEntry>, name: Seq<u8>, now: u64) -> Map<Seq<u8>, CacheEntry> {
    let k = lower(name);
    if m.contains_key(k) && m[k].expiry <= now {
        m.remove(k)
    } else {
        m
    }
}

impl Cache {
    /// The entries, keyed by lower-case name.
    pub closed spec fn view(&self) -> Map<Seq<u8>, CacheEntry> {
        self.model@
    }

    /// Keys are unique and the slots hold exactly the entries of the view.
    pub closed spec fn wf(&self) -> bool {
        &&& forall|i: int, j: int| 0 <= i < j < self.slots@.len()
            ==> self.slots@[i].key@ != self.slots@[j].key@
        &&& forall|i: int| 0 <= i < self.slots@.len()
            ==> #[trigger] self.model@.contains_key(self.slots@[i].key@)
                && self.model@[self.slots@[i].key@] == self.slots@[i].entry
        &&& forall|k: Seq<u8>| #[trigger] self.model@.contains_key(k)
            ==> exists|i: int| 0 <= i < self.slots@.len() && self.slots@[i].key@ == k
    }

    /// An empty cache.
    pub fn new() -> (r: Cache)
        ensures
            r.wf(),
            r@ == Map::<Seq<u8>, CacheEntry>::empty(),
    {
        Cache { slots: Vec::new(), model: Ghost(Map::empty()) }
    }

    fn find(&self, key: &Vec<u8>) -> (r: Option<usize>)
        requires
            self.wf(),
        ensures
            r matches Some(i) ==> i < self.slots@.len() && self.slots@[i as int].key@ == key@,
            r is None ==> !self@.contains_key(key@),
    {
        let mut i: usize = 0;
        while i < self.slots.len()
            invariant
                i <= self.slots@.len(),
                forall|j: int| 0 <= j < i ==> self.slots@[j].key@ != key@,
            decreases self.slots@.len() - i,
        {
            if bytes_eq(self.slots[i].key.as_slice(), key.as_slice()) {
                return Some(i);
            }
            i = i + 1;
        }
        None
    }

    /// Stores `a` under the lower-case `name`, valid for `ttl` seconds from
    /// `now`, in place of any earlier entry.
    pub fn insert_at(&mut self, name: &[u8], a: &[u8; 4], ttl: u64, now: u64)
        requires
            old(self).wf(),
        ensures
            final(self).wf(),
            final(self)@ == cache_insert(old(self)@, name@, *a, ttl, now),
    {
        let key = to_lower(name);
        let entry = CacheEntry::new_at(a, ttl, now);
        let ghost k = key@;
        let ghost mut idx: int = 0;
        match self.find(&key) {
            Some(i) => {
                self.slots.set(i, CacheSlot { key, entry });
                proof {
                    idx = i as int;
                }
            },
            None => {
                self.slots.push(CacheSlot { key, entry });
                proof {
                    idx = old(self).slots@.len() as int;
                }
            },
        }
        self.model = Ghost(self.model@.insert(k, entry));
        assert(self.slots@[idx].key@ == k);
        assert(self@ =~= cache_insert(old(self)@, name@, *a, ttl, now));
        assert forall|k2: Seq<u8>| #[trigger] self.model@.contains_key(k2)
            implies exists|i: int| 0 <= i < self.slots@.len() && self.slots@[i].key@ == k2 by {
            if k2 != k {
                let j = choose|j: int| 0 <= j < old(self).slots@.len() && old(self).slots@[j].key@ == k2;
                assert(self.slots@[j].key@ == k2);
            }
        }
    }

    /// Stores `a` under the lower-case `name`, valid for `ttl` seconds from
    /// the clock's reading, in place of any earlier entry.
    pub fn insert(&mut self, name: &[u8], a: &[u8; 4], ttl: u64)
        requires
            old(self).wf(),
        ensures
            final(self).wf(),
            exists|now: u64| final(self)@ == cache_insert(old(self)@, name@, *a, ttl, now),
    {
        let now = clock_secs();
        self.insert_at(name, a, ttl, now);
    }

    /// The stored entry for `name`, expired or not.
    fn get_(&self, name: &[u8]) -> (r: Option<CacheEntry>)
        requires
            self.wf(),
        ensures
            r == (if self@.contains_key(lower(name@)) {
                Some(self@[lower(name@)])
            } else {
                None
            }),
    {
        let key = to_lower(name);
        match self.find(&key) {
            Some(i) => Some(self.slots[i].entry),
            None => None,
        }
    }

    /// The address stored for `name` and its remaining whole seconds at
    /// `now`; an expired entry is removed and gives `None`.
    pub fn get_at(&mut self, name: &[u8], now: u64) -> (r: Option<([u8; 4], u64)>)
        requires
            old(self).wf(),
        ensures
            final(self).wf(),
            r == cache_lookup(old(self)@, name@, now),
            final(self)@ == cache_after_get(old(self)@, name@, now),
    {
        let key = to_lower(name);
        let ghost k = key@;
        match self.find(&key) {
            None => None,
            Some(i) => {
                let e = self.slots[i].entry;
                if !e.is_valid_at(now) {
                    let ghost before = self.slots@;
                    self.slots.remove(i);
                    self.model = Ghost(self.model@.remove(k));
                    assert(self@ =~= cache_after_get(old(self)@, name@, now));
                    assert forall|a: int, b: int| 0 <= a < b < self.slots@.len()
                        implies self.slots@[a].key@ != self.slots@[b].key@ by {
                        let a2 = if a < i { a } else { a + 1 };
                        let b2 = if b < i { b } else { b + 1 };
                        assert(before[a2].key@ != before[b2].key@);
                    }
                    assert forall|j: int| 0 <= j < self.slots@.len()
                        implies #[trigger] self.model@.contains_key(self.slots@[j].key@)
                            && self.model@[self.slots@[j].key@] == self.slots@[j].entry by {
                        let j2 = if j < i { j } else { j + 1 };
                        assert(before[j2] == self.slots@[j]);
                        assert(old(self).model@.contains_key(old(self).slots@[j2].key@));
                        assert(before[j2].key@ != before[i as int].key@);
                    }
                    assert forall|k2: Seq<u8>| #[trigger] self.model@.contains_key(k2)
                        implies exists|j: int| 0 <= j < self.slots@.len() && self.slots@[j].key@ == k2 by {
                        let j = choose|j: int| 0 <= j < before.len() && before[j].key@ == k2;
                        if j < i {
                            assert(self.slots@[j].key@ == k2);
                        } else {
                            assert(j != i);
                            assert(self.slots@[j - 1].key@ == k2);
                        }
                    }
                    None
                } else {
                    Some((e.a, e.get_ttl_at(now)))
                }
            },
        }
    }

    /// The address stored for `name` and its remaining whole seconds at the
    /// clock's reading; an expired entry is removed and gives `None`.
    pub fn get(&mut self, name: &[u8]) -> (r: Option<([u8; 4], u64)>)
        requires
            old(self).wf(),
        ensures
            final(self).wf(),
            exists|now: u64| r == cache_lookup(old(self)@, name@, now)
                && final(self)@ == cache_after_get(old(self)@, name@, now),
    {
        let now = clock_secs();
        self.get_at(name, now)
    }

    /// Whether an entry, expired or not, is stored for `name`.
    pub fn contains(&self, name: &[u8]) -> (r: bool)
        requires
            self.wf(),
        ensures
            r == self@.contains_key(lower(name@)),
    {
        match self.get_(name) {
            Some(_) => true,
            None => false,
        }
    }
}

/// Right after `insert(n, a, t)` with `t > 0`, `get(n)` returns `a` with a
/// remaining time to live of at most `t`, and exactly `t` where the expiry
/// did not saturate. Only the last instant the clock can show is left out.
pub proof fn lemma_get_right_after_insert(m: Map<Seq<u8>, CacheEntry>, n: Seq<u8>, a: [u8; 4], t: u64, now: u64)
    requires
        t > 0,
        now < u64::MAX,
    ensures
        cache_lookup(cache_insert(m, n, a, t, now), n, now) matches Some((a2, t2)) && a2 == a && 0 < t2 <= t,
        now as int + t as int <= u64::MAX as int ==> cache_lookup(cache_insert(m, n, a, t, now), n, now) == Some((a, t)),
{
}

/// At any time before the entry expires, `get(n)` returns `a` with a
/// remaining time to live of at most `t`.
pub proof fn lemma_get_after_insert(m: Map<Seq<u8>, CacheEntry>, n: Seq<u8>, a: [u8; 4], t: u64, now: u64, later: u64)
    requires
        now <= later < expiry_of(now, t),
    ensures
        cache_lookup(cache_insert(m, n, a, t, now), n, later) == Some((a, (expiry_of(now, t) - later) as u64)),
        (expiry_of(now, t) - later) as u64 <= t,
{
}

/// Once `t` seconds or more have passed since `insert(n, a, t)`, `get(n)`
/// returns `None` and leaves no entry for `n`.
pub proof fn lemma_get_after_expiry(m: Map<Seq<u8>, CacheEntry>, n: Seq<u8>, a: [u8; 4], t: u64, now: u64, later: u64)
    requires
        later as int >= now as int + t as int,
    ensures
        cache_lookup(cache_insert(m, n, a, t, now), n, later) is None,
        !cache_after_get(cache_insert(m, n, a, t, now), n, later).contains_key(lower(n)),
{
}

/// A second `insert` for a name replaces the first: `get` then returns the
/// second address, with at most the second time to live.
pub proof fn lemma_insert_overwrites(m: Map<Seq<u8>, CacheEntry>, n: Seq<u8>, a1: [u8; 4], t1: u64, now1: u64,
    a2: [u8; 4], t2: u64, now2: u64, later: u64)
    requires
        now2 <= later < expiry_of(now2, t2),
    ensures
        cache_insert(cache_insert(m, n, a1, t1, now1), n, a2, t2, now2) == cache_insert(m, n, a2, t2, now2),
        cache_lookup(cache_insert(cache_insert(m, n, a1, t1, now1), n, a2, t2, now2), n, later)
            == Some((a2, (expiry_of(now2, t2) - later) as u64)),
        (expiry_of(now2, t2) - later) as u64 <= t2,
{
    assert(cache_insert(cache_insert(m, n, a1, t1, now1), n, a2, t2, now2) =~= cache_insert(m, n, a2, t2, now2));
}

/// An entry inserted under one spelling of a name is found under any
/// spelling that differs only in the case of ASCII letters.
pub proof fn lemma_insert_then_get_other_case(m: Map<Seq<u8>, CacheEntry>, n1: Seq<u8>, n2: Seq<u8>, a: [u8; 4],
    t: u64, now: u64)
    requires
        lower(n1) == lower(n2),
        t > 0,
        now < u64::MAX,
    ensures
        cache_lookup(cache_insert(m, n1, a, t, now), n2, now) matches Some((a2, t2)) && a2 == a && 0 < t2 <= t,
{
}

/// Names that differ only in the case of ASCII letters share one entry:
/// what `get` returns for one it returns for the other.
pub proof fn lemma_lookup_case_insensitive(m: Map<Seq<u8>, CacheEntry>, n1: Seq<u8>, n2: Seq<u8>, now: u64)
    requires
        lower(n1) == lower(n2),
    ensures
        cache_lookup(m, n1, now) == cache_lookup(m, n2, now),
        cache_after_get(m, n1, now) == cache_after_get(m, n2, now),
{
}

} // verus!
