//! Read/write bookkeeping for queries and systems.
//!
//! [`QueryAccess`] is what one query claims to read and write, one
//! [`Entry`] per referenced type (its key and its name for diagnostics).
//! [`Access`] lifts that to a whole system: a component set and a resource
//! set, kept apart so that a type used both as a component and as a
//! resource never conflicts with itself across the two domains.
use vstd::prelude::*;

verus! {

/// How two access sets clash on a shared type.
#[derive(Clone, Copy, Debug, PartialEq, Eq, Structural)]
pub enum ConflictKind {
    /// Both sides write the type.
    WriteWrite,
    /// One side writes a type the other reads.
    WriteRead,
}

/// Why a single access set conflicts with itself.
#[derive(Clone, Copy, Debug, PartialEq, Eq, Structural)]
pub enum SelfConflictReason {
    /// The type is written twice.
    WrittenTwice,
    /// The type is written and also read.
    WrittenAndRead,
}

/// The first self-conflict found in an access set, with the words a
/// diagnostic needs: the scope (`"query"` / `"system"`), the domain
/// (`"component"` / `"resource"`) and the offending type's name.
#[derive(Clone, Copy, Debug, PartialEq, Eq)]
pub struct SelfConflict {
    pub scope: &'static str,
    pub domain: &'static str,
    pub name: &'static str,
    pub id: u32,
    pub reason: SelfConflictReason,
}

/// One referenced type: its key and its name for diagnostics.
#[derive(Clone, Copy, Debug, PartialEq, Eq)]
pub struct Entry {
    pub id: u32,
    pub name: &'static str,
}

impl Entry {
    /// The entry for the type keyed `id`, named `name`.
    pub fn of(id: u32, name: &'static str) -> (e: Entry)
        ensures
            e.id == id,
            e.name == name,
    {
        Entry { id, name }
    }
}

/// Some entry of `writes` shares a key with some entry of `against`.
pub open spec fn spec_aliases(writes: Seq<Entry>, against: Seq<Entry>) -> bool {
    exists|i: int, j: int|
        0 <= i < writes.len() && 0 <= j < against.len() && (#[trigger] writes[i]).id == (
        #[trigger] against[j]).id
}

/// `s` holds an entry keyed `id`.
pub open spec fn has_id(s: Seq<Entry>, id: u32) -> bool {
    exists|j: int| 0 <= j < s.len() && (#[trigger] s[j]).id == id
}

/// One `(key, kind)` per entry of `writes` whose key occurs in `against`,
/// in the order of `writes`.
pub open spec fn clashes(writes: Seq<Entry>, against: Seq<Entry>, kind: ConflictKind) -> Seq<
    (u32, ConflictKind),
>
    decreases writes.len(),
{
    if writes.len() == 0 {
        Seq::empty()
    } else {
        let rest = clashes(writes.drop_last(), against, kind);
        if has_id(against, writes.last().id) {
            rest.push((writes.last().id, kind))
        } else {
            rest
        }
    }
}

/// The abstract state of a [`QueryAccess`]: read entries and write
/// entries, in the order they were recorded.
pub struct AccessView {
    pub reads: Seq<Entry>,
    pub writes: Seq<Entry>,
}

impl AccessView {
    /// The write at index `i` is written again later.
    pub open spec fn written_twice_at(self, i: int) -> bool {
        exists|j: int| i < j < self.writes.len() && (#[trigger] self.writes[j]).id == self.writes[i].id
    }

    /// The write at index `i` is also read.
    pub open spec fn written_and_read_at(self, i: int) -> bool {
        has_id(self.reads, self.writes[i].id)
    }

    /// The write at index `i` conflicts within this set.
    pub open spec fn conflict_at(self, i: int) -> bool {
        self.written_twice_at(i) || self.written_and_read_at(i)
    }

    /// No type is written twice, or written and read.
    pub open spec fn no_self_conflict(self) -> bool {
        forall|i: int| 0 <= i < self.writes.len() ==> !#[trigger] self.conflict_at(i)
    }

    /// `i` is the first conflicting write.
    pub open spec fn first_conflict(self, i: int) -> bool {
        &&& 0 <= i < self.writes.len()
        &&& self.conflict_at(i)
        &&& forall|j: int| 0 <= j < i ==> !#[trigger] self.conflict_at(j)
    }

    /// `c` names the first conflicting write of this set: its key, its
    /// name, and whether it is written twice or written and read.
    pub open spec fn reports_first_conflict(self, c: SelfConflict) -> bool {
        exists|i: int|
            #![trigger self.writes[i]]
            {
                &&& self.first_conflict(i)
                &&& c.name == self.writes[i].name
                &&& c.id == self.writes[i].id
                &&& c.reason == (if self.written_twice_at(i) {
                    SelfConflictReason::WrittenTwice
                } else {
                    SelfConflictReason::WrittenAndRead
                })
            }
    }

    /// The two sets can run together: no write of one meets a read or
    /// write of the other.
    pub open spec fn compatible(self, other: AccessView) -> bool {
        &&& !spec_aliases(self.writes, other.writes)
        &&& !spec_aliases(self.writes, other.reads)
        &&& !spec_aliases(other.writes, self.reads)
    }

    /// Every clash between the two sets: write/write first, then this
    /// set's writes against the other's reads, then the mirror.
    pub open spec fn conflicts(self, other: AccessView) -> Seq<(u32, ConflictKind)> {
        clashes(self.writes, other.writes, ConflictKind::WriteWrite) + clashes(
            self.writes,
            other.reads,
            ConflictKind::WriteRead,
        ) + clashes(other.writes, self.reads, ConflictKind::WriteRead)
    }

    /// The index of the first entry keyed `id` in reads followed by writes.
    pub open spec fn first_index_of(self, id: u32) -> Option<int> {
        let all = self.reads + self.writes;
        if has_id(all, id) {
            Some(choose|k: int| 0 <= k < all.len() && all[k].id == id && forall|j: int| 0 <= j < k ==> (#[trigger] all[j]).id != id)
        } else {
            None
        }
    }
}

/// `clashes` is empty exactly when no key of `writes` occurs in `against`,
/// and every clash names a key of `writes` that occurs in `against`.
pub proof fn lemma_clashes(writes: Seq<Entry>, against: Seq<Entry>, kind: ConflictKind)
    ensures
        (clashes(writes, against, kind).len() == 0) == !spec_aliases(writes, against),
        forall|k: int|
            0 <= k < clashes(writes, against, kind).len() ==> {
                &&& has_id(writes, (#[trigger] clashes(writes, against, kind)[k]).0)
                &&& has_id(against, clashes(writes, against, kind)[k].0)
                &&& clashes(writes, against, kind)[k].1 == kind
            },
    decreases writes.len(),
{
    if writes.len() > 0 {
        let w = writes.drop_last();
        lemma_clashes(w, against, kind);
        assert forall|k: int| 0 <= k < clashes(writes, against, kind).len() implies {
            &&& has_id(writes, (#[trigger] clashes(writes, against, kind)[k]).0)
            &&& has_id(against, clashes(writes, against, kind)[k].0)
            &&& clashes(writes, against, kind)[k].1 == kind
        } by {
            if k < clashes(w, against, kind).len() {
                let c = clashes(w, against, kind)[k];
                let i = choose|i: int| 0 <= i < w.len() && (#[trigger] w[i]).id == c.0;
                assert(writes[i].id == c.0);
            } else {
                assert(writes[writes.len() - 1].id == writes.last().id);
            }
        }
        if spec_aliases(writes, against) {
            let (i, j) = choose|i: int, j: int|
                0 <= i < writes.len() && 0 <= j < against.len() && (#[trigger] writes[i]).id == (
                #[trigger] against[j]).id;
            if i < writes.len() - 1 {
                assert(w[i].id == against[j].id);
            } else {
                assert(has_id(against, writes.last().id));
            }
        } else {
            if spec_aliases(w, against) {
                let (i, j) = choose|i: int, j: int|
                    0 <= i < w.len() && 0 <= j < against.len() && (#[trigger] w[i]).id == (
                    #[trigger] against[j]).id;
                assert(writes[i].id == against[j].id);
            }
            if has_id(against, writes.last().id) {
                let j = choose|j: int| 0 <= j < against.len() && (#[trigger] against[j]).id == writes.last().id;
                assert(writes[writes.len() - 1].id == against[j].id);
            }
        }
    }
}

/// The conflict list between two sets is empty exactly when they are
/// compatible.
pub proof fn lemma_conflicts_empty_iff_compatible(a: AccessView, b: AccessView)
    ensures
        (a.conflicts(b).len() == 0) == a.compatible(b),
{
    lemma_clashes(a.writes, b.writes, ConflictKind::WriteWrite);
    lemma_clashes(a.writes, b.reads, ConflictKind::WriteRead);
    lemma_clashes(b.writes, a.reads, ConflictKind::WriteRead);
}

/// What one query reads and writes.
#[derive(Debug)]
pub struct QueryAccess {
    reads: Vec<Entry>,
    writes: Vec<Entry>,
}

impl View for QueryAccess {
    type V = AccessView;

    closed spec fn view(&self) -> AccessView {
        AccessView { reads: self.reads@, writes: self.writes@ }
    }
}

/// `true` iff some entry of `writes` shares a key with some entry of
/// `against`.
pub fn aliases(writes: &[Entry], against: &[Entry]) -> (r: bool)
    ensures
        r == spec_aliases(writes@, against@),
{
    let mut i: usize = 0;
    while i < writes.len()
        invariant
            i <= writes@.len(),
            forall|a: int, b: int|
                0 <= a < i && 0 <= b < against@.len() ==> (#[trigger] writes@[a]).id != (
                #[trigger] against@[b]).id,
        decreases writes.len() - i,
    {
        let mut j: usize = 0;
        while j < against.len()
            invariant
                i < writes@.len(),
                j <= against@.len(),
                forall|b: int| 0 <= b < j ==> writes@[i as int].id != (#[trigger] against@[b]).id,
            decreases against.len() - j,
        {
            if writes[i].id == against[j].id {
                return true;
            }
            j += 1;
        }
        i += 1;
    }
    false
}

/// `true` iff some entry of `s` is keyed `id`.
fn contains_id(s: &[Entry], id: u32) -> (r: bool)
    ensures
        r == has_id(s@, id),
{
    let mut j: usize = 0;
    while j < s.len()
        invariant
            j <= s@.len(),
            forall|b: int| 0 <= b < j ==> (#[trigger] s@[b]).id != id,
        decreases s.len() - j,
    {
        if s[j].id == id {
            return true;
        }
        j += 1;
    }
    false
}

impl QueryAccess {
    /// An empty access set.
    pub fn new() -> (a: Self)
        ensures
            a@.reads.len() == 0,
            a@.writes.len() == 0,
    {
        QueryAccess { reads: Vec::new(), writes: Vec::new() }
    }

    /// Records a read of the type keyed `id`.
    pub fn add_read(&mut self, id: u32, name: &'static str)
        ensures
            final(self)@.reads == old(self)@.reads.push(Entry { id, name }),
            final(self)@.writes == old(self)@.writes,
    {
        self.reads.push(Entry::of(id, name));
    }

    /// Records a write of the type keyed `id`.
    pub fn add_write(&mut self, id: u32, name: &'static str)
        ensures
            final(self)@.writes == old(self)@.writes.push(Entry { id, name }),
            final(self)@.reads == old(self)@.reads,
    {
        self.writes.push(Entry::of(id, name));
    }

    /// Checks that no type is written twice or written and read within
    /// this query; reports the first offending write otherwise.
    pub fn assert_no_self_conflict(&self) -> (r: Result<(), SelfConflict>)
        ensures
            r is Ok <==> self@.no_self_conflict(),
            r matches Err(c) ==> c.scope == "query" && c.domain == "component",
            r matches Err(c) ==> exists|i: int|
                #![trigger self@.writes[i]]
                {
                    &&& self@.first_conflict(i)
                    &&& c.name == self@.writes[i].name
                    &&& c.id == self@.writes[i].id
                    &&& c.reason == (if self@.written_twice_at(i) {
                        SelfConflictReason::WrittenTwice
                    } else {
                        SelfConflictReason::WrittenAndRead
                    })
                },
    {
        self.assert_no_self_conflict_named("query", "component")
    }

    /// The self-conflict check with the scope and domain words the report
    /// should carry.
    pub fn assert_no_self_conflict_named(&self, scope: &'static str, kind: &'static str) -> (r:
        Result<(), SelfConflict>)
        ensures
            r is Ok <==> self@.no_self_conflict(),
            r matches Err(c) ==> c.scope == scope && c.domain == kind,
            r matches Err(c) ==> exists|i: int|
                #![trigger self@.writes[i]]
                {
                    &&& self@.first_conflict(i)
                    &&& c.name == self@.writes[i].name
                    &&& c.id == self@.writes[i].id
                    &&& c.reason == (if self@.written_twice_at(i) {
                        SelfConflictReason::WrittenTwice
                    } else {
                        SelfConflictReason::WrittenAndRead
                    })
                },
    {
        let n = self.writes.len();
        let mut i: usize = 0;
        while i < n
            invariant
                n == self@.writes.len(),
                i <= n,
                forall|j: int| 0 <= j < i ==> !#[trigger] self@.conflict_at(j),
            decreases n - i,
        {
            let w = self.writes[i];
            let mut j: usize = i + 1;
            while j < n
                invariant
                    n == self@.writes.len(),
                    i < n,
                    w == self@.writes[i as int],
                    i + 1 <= j <= n,
                    forall|k: int| i < k < j ==> (#[trigger] self@.writes[k]).id != w.id,
                    forall|jj: int| 0 <= jj < i ==> !#[trigger] self@.conflict_at(jj),
                decreases n - j,
            {
                if self.writes[j].id == w.id {
                    let c = SelfConflict {
                        scope,
                        domain: kind,
                        name: w.name,
                        id: w.id,
                        reason: SelfConflictReason::WrittenTwice,
                    };
                    assert(self@.written_twice_at(i as int));
                    assert(self@.first_conflict(i as int));
                    return Err(c);
                }
                j += 1;
            }
            if contains_id(self.reads.as_slice(), w.id) {
                let c = SelfConflict {
                    scope,
                    domain: kind,
                    name: w.name,
                    id: w.id,
                    reason: SelfConflictReason::WrittenAndRead,
                };
                assert(!self@.written_twice_at(i as int));
                assert(self@.first_conflict(i as int));
                return Err(c);
            }
            assert(!self@.conflict_at(i as int));
            i += 1;
        }
        Ok(())
    }

    /// `true` iff the two queries can run concurrently: no type written by
    /// one is read or written by the other (read/read is fine).
    pub fn is_compatible_with(&self, other: &QueryAccess) -> (r: bool)
        ensures
            r == self@.compatible(other@),
    {
        !aliases(self.writes.as_slice(), other.writes.as_slice()) && !aliases(
            self.writes.as_slice(),
            other.reads.as_slice(),
        ) && !aliases(other.writes.as_slice(), self.reads.as_slice())
    }

    /// Appends every clash between `self` and `other` to `out`.
    pub fn collect_conflicts(&self, other: &QueryAccess, out: &mut Vec<(u32, ConflictKind)>)
        ensures
            final(out)@ == old(out)@ + self@.conflicts(other@),
    {
        let ghost start = out@;
        push_clashes(self.writes.as_slice(), other.writes.as_slice(), ConflictKind::WriteWrite, out);
        push_clashes(self.writes.as_slice(), other.reads.as_slice(), ConflictKind::WriteRead, out);
        push_clashes(other.writes.as_slice(), self.reads.as_slice(), ConflictKind::WriteRead, out);
        proof {
            let a = clashes(self@.writes, other@.writes, ConflictKind::WriteWrite);
            let b = clashes(self@.writes, other@.reads, ConflictKind::WriteRead);
            let c = clashes(other@.writes, self@.reads, ConflictKind::WriteRead);
            assert(start + a + b + c == start + (a + b + c));
        }
    }

    /// The name recorded for the first entry keyed `id` (reads first, then
    /// writes).
    pub fn name_of(&self, id: u32) -> (r: Option<&'static str>)
        ensures
            r is Some <==> has_id(self@.reads + self@.writes, id),
            r matches Some(n) ==> (self@.reads + self@.writes)[self@.first_index_of(id)->0].name
                == n,
    {
        let ghost all = self@.reads + self@.writes;
        let mut k: usize = 0;
        while k < self.reads.len()
            invariant
                all == self@.reads + self@.writes,
                k <= self@.reads.len(),
                forall|j: int| 0 <= j < k ==> (#[trigger] all[j]).id != id,
            decreases self.reads.len() - k,
        {
            if self.reads[k].id == id {
                proof {
                    assert(all[k as int].id == id);
                    lemma_first_index(all, id, k as int);
                }
                return Some(self.reads[k].name);
            }
            k += 1;
        }
        let mut m: usize = 0;
        while m < self.writes.len()
            invariant
                all == self@.reads + self@.writes,
                m <= self@.writes.len(),
                forall|j: int| 0 <= j < self@.reads.len() + m ==> (#[trigger] all[j]).id != id,
            decreases self.writes.len() - m,
        {
            if self.writes[m].id == id {
                proof {
                    let k2 = self@.reads.len() + m;
                    assert(all[k2 as int] == self@.writes[m as int]);
                    lemma_first_index(all, id, k2 as int);
                }
                return Some(self.writes[m].name);
            }
            m += 1;
        }
        proof {
            assert forall|j: int| 0 <= j < all.len() implies (#[trigger] all[j]).id != id by {}
        }
        None
    }

    /// Folds `other`'s reads and writes into `self` (no deduplication).
    pub fn extend(&mut self, other: &QueryAccess)
        ensures
            final(self)@.reads == old(self)@.reads + other@.reads,
            final(self)@.writes == old(self)@.writes + other@.writes,
    {
        let ghost r0 = self@.reads;
        let ghost w0 = self@.writes;
        let mut k: usize = 0;
        while k < other.reads.len()
            invariant
                k <= other@.reads.len(),
                self@.reads == r0 + other@.reads.subrange(0, k as int),
                self@.writes == w0,
            decreases other.reads.len() - k,
        {
            self.reads.push(other.reads[k]);
            proof {
                assert(other@.reads.subrange(0, k + 1) == other@.reads.subrange(0, k as int).push(
                    other@.reads[k as int],
                ));
            }
            k += 1;
        }
        let mut m: usize = 0;
        while m < other.writes.len()
            invariant
                m <= other@.writes.len(),
                self@.reads == r0 + other@.reads,
                self@.writes == w0 + other@.writes.subrange(0, m as int),
            decreases other.writes.len() - m,
        {
            self.writes.push(other.writes[m]);
            proof {
                assert(other@.writes.subrange(0, m + 1) == other@.writes.subrange(
                    0,
                    m as int,
                ).push(other@.writes[m as int]));
            }
            m += 1;
        }
        proof {
            assert(other@.reads.subrange(0, other@.reads.len() as int) == other@.reads);
            assert(other@.writes.subrange(0, other@.writes.len() as int) == other@.writes);
        }
    }

    /// The keys of every write, in order.
    pub fn write_ids(&self) -> (r: Vec<u32>)
        ensures
            r@ == self@.writes.map_values(|e: Entry| e.id),
    {
        ids_of(self.writes.as_slice())
    }

    /// The keys of every read followed by every write.
    pub fn access_ids(&self) -> (r: Vec<u32>)
        ensures
            r@ == (self@.reads + self@.writes).map_values(|e: Entry| e.id),
    {
        let mut out = ids_of(self.reads.as_slice());
        let mut tail = ids_of(self.writes.as_slice());
        out.append(&mut tail);
        proof {
            assert(out@ == (self@.reads + self@.writes).map_values(|e: Entry| e.id));
        }
        out
    }
}

/// The first index of an entry keyed `id` in `all` is `k` when `all[k]` is
/// keyed `id` and no earlier entry is.
proof fn lemma_first_index(all: Seq<Entry>, id: u32, k: int)
    requires
        0 <= k < all.len(),
        all[k].id == id,
        forall|j: int| 0 <= j < k ==> (#[trigger] all[j]).id != id,
    ensures
        has_id(all, id),
        ({
            let c = choose|c: int|
                0 <= c < all.len() && all[c].id == id && forall|j: int|
                    0 <= j < c ==> (#[trigger] all[j]).id != id;
            c == k
        }),
{
    let c = choose|c: int|
        0 <= c < all.len() && all[c].id == id && forall|j: int| 0 <= j < c ==> (#[trigger] all[j]).id != id;
    if c < k {
        assert(all[c].id != id);
    }
    if k < c {
        assert(all[k].id != id);
    }
}

/// The keys of `s`, in order.
fn ids_of(s: &[Entry]) -> (r: Vec<u32>)
    ensures
        r@ == s@.map_values(|e: Entry| e.id),
{
    let mut out: Vec<u32> = Vec::new();
    let mut k: usize = 0;
    while k < s.len()
        invariant
            k <= s@.len(),
            out@ == s@.subrange(0, k as int).map_values(|e: Entry| e.id),
        decreases s.len() - k,
    {
        out.push(s[k].id);
        proof {
            assert(s@.subrange(0, k + 1) == s@.subrange(0, k as int).push(s@[k as int]));
            assert(s@.subrange(0, k + 1).map_values(|e: Entry| e.id) == s@.subrange(
                0,
                k as int,
            ).map_values(|e: Entry| e.id).push(s@[k as int].id));
        }
        k += 1;
    }
    proof {
        assert(s@.subrange(0, s@.len() as int) == s@);
    }
    out
}

/// Appends one `(key, kind)` per entry of `writes` whose key occurs in
/// `against`.
fn push_clashes(
    writes: &[Entry],
    against: &[Entry],
    kind: ConflictKind,
    out: &mut Vec<(u32, ConflictKind)>,
)
    ensures
        final(out)@ == old(out)@ + clashes(writes@, against@, kind),
{
    let ghost start = out@;
    let mut i: usize = 0;
    while i < writes.len()
        invariant
            i <= writes@.len(),
            out@ == start + clashes(writes@.subrange(0, i as int), against@, kind),
        decreases writes.len() - i,
    {
        let ghost pre = writes@.subrange(0, i as int);
        let ghost next = writes@.subrange(0, i + 1);
        proof {
            assert(next.drop_last() == pre);
            assert(next.last() == writes@[i as int]);
        }
        if contains_id(against, writes[i].id) {
            out.push((writes[i].id, kind));
            proof {
                assert(start + clashes(pre, against@, kind).push((writes@[i as int].id, kind))
                    == (start + clashes(pre, against@, kind)).push((writes@[i as int].id, kind)));
            }
        }
        i += 1;
    }
    proof {
        assert(writes@.subrange(0, writes@.len() as int) == writes@);
    }
}

/// The reads and writes of a whole system, split into a component set
/// and a resource set.
#[derive(Debug)]
pub struct Access {
    components: QueryAccess,
    resources: QueryAccess,
}

impl Access {
    /// The component half of the access.
    pub closed spec fn comps(&self) -> AccessView {
        self.components@
    }

    /// The resource half of the access.
    pub closed spec fn res(&self) -> AccessView {
        self.resources@
    }

    /// Neither half conflicts with itself.
    pub open spec fn no_self_conflict(&self) -> bool {
        self.comps().no_self_conflict() && self.res().no_self_conflict()
    }

    /// The two systems can run concurrently.
    pub open spec fn compatible(&self, other: &Access) -> bool {
        self.comps().compatible(other.comps()) && self.res().compatible(other.res())
    }

    /// Every clash, components first, then resources.
    pub open spec fn conflicts(&self, other: &Access) -> Seq<(u32, ConflictKind)> {
        self.comps().conflicts(other.comps()) + self.res().conflicts(other.res())
    }

    /// An empty access set: compatible with everything.
    pub fn new() -> (a: Self)
        ensures
            a.comps().reads.len() == 0,
            a.comps().writes.len() == 0,
            a.res().reads.len() == 0,
            a.res().writes.len() == 0,
    {
        Access { components: QueryAccess::new(), resources: QueryAccess::new() }
    }

    /// The component-access set, for a query to record into.
    pub fn components_mut(&mut self) -> (r: &mut QueryAccess)
        ensures
            r@ == old(self).comps(),
            final(self).comps() == final(r)@,
            final(self).res() == old(self).res(),
    {
        &mut self.components
    }

    /// The component-access set.
    pub fn components(&self) -> (r: &QueryAccess)
        ensures
            r@ == self.comps(),
    {
        &self.components
    }

    /// Records a read of the resource keyed `id`.
    pub fn add_resource_read(&mut self, id: u32, name: &'static str)
        ensures
            final(self).res().reads == old(self).res().reads.push(Entry { id, name }),
            final(self).res().writes == old(self).res().writes,
            final(self).comps() == old(self).comps(),
    {
        self.resources.add_read(id, name);
    }

    /// Records a write of the resource keyed `id`.
    pub fn add_resource_write(&mut self, id: u32, name: &'static str)
        ensures
            final(self).res().writes == old(self).res().writes.push(Entry { id, name }),
            final(self).res().reads == old(self).res().reads,
            final(self).comps() == old(self).comps(),
    {
        self.resources.add_write(id, name);
    }

    /// Checks the system's own parameters against each other, components
    /// first; reports the first offending type otherwise.
    pub fn assert_no_self_conflict(&self) -> (r: Result<(), SelfConflict>)
        ensures
            r is Ok <==> self.no_self_conflict(),
            r matches Err(c) ==> c.scope == "system",
            r matches Err(c) ==> (c.domain == "component") == !self.comps().no_self_conflict(),
            r matches Err(c) ==> c.domain == "component" || c.domain == "resource",
            r matches Err(c) ==> if self.comps().no_self_conflict() {
                self.res().reports_first_conflict(c)
            } else {
                self.comps().reports_first_conflict(c)
            },
    {
        match self.components.assert_no_self_conflict_named("system", "component") {
            Err(c) => Err(c),
            Ok(()) => self.resources.assert_no_self_conflict_named("system", "resource"),
        }
    }

    /// `true` iff the two systems can run concurrently: compatible on
    /// components and on resources, each in its own domain.
    pub fn compatible_with(&self, other: &Access) -> (r: bool)
        ensures
            r == self.compatible(other),
    {
        self.components.is_compatible_with(&other.components)
            && self.resources.is_compatible_with(&other.resources)
    }

    /// Every conflicting type between the two systems with the kind of
    /// clash; empty exactly when they are compatible.
    pub fn find_conflicts(&self, other: &Access) -> (r: Vec<(u32, ConflictKind)>)
        ensures
            r@ == self.conflicts(other),
            (r@.len() == 0) == self.compatible(other),
    {
        let mut out: Vec<(u32, ConflictKind)> = Vec::new();
        self.components.collect_conflicts(&other.components, &mut out);
        self.resources.collect_conflicts(&other.resources, &mut out);
        proof {
            lemma_conflicts_empty_iff_compatible(self.comps(), other.comps());
            lemma_conflicts_empty_iff_compatible(self.res(), other.res());
        }
        out
    }

    /// The recorded name and domain word for the type keyed `id`:
    /// components are searched first.
    pub fn describe(&self, id: u32) -> (r: Option<(&'static str, &'static str)>)
        ensures
            r is Some <==> (has_id(self.comps().reads + self.comps().writes, id) || has_id(
                self.res().reads + self.res().writes,
                id,
            )),
            r matches Some(p) ==> p.1 == (if has_id(self.comps().reads + self.comps().writes, id) {
                "component"
            } else {
                "resource"
            }),
            r matches Some(p) ==> has_id(self.comps().reads + self.comps().writes, id) ==> p.0 == (
            self.comps().reads + self.comps().writes)[self.comps().first_index_of(id)->0].name,
            r matches Some(p) ==> !has_id(self.comps().reads + self.comps().writes, id) ==> p.0 == (
            self.res().reads + self.res().writes)[self.res().first_index_of(id)->0].name,
    {
        match self.components.name_of(id) {
            Some(name) => Some((name, "component")),
            None => match self.resources.name_of(id) {
                Some(name) => Some((name, "resource")),
                None => None,
            },
        }
    }

    /// Folds `other`'s component and resource access into `self`.
    pub fn extend(&mut self, other: &Access)
        ensures
            final(self).comps().reads == old(self).comps().reads + other.comps().reads,
            final(self).comps().writes == old(self).comps().writes + other.comps().writes,
            final(self).res().reads == old(self).res().reads + other.res().reads,
            final(self).res().writes == old(self).res().writes + other.res().writes,
    {
        self.components.extend(&other.components);
        self.resources.extend(&other.resources);
    }

    /// The component keys this system writes.
    pub fn component_write_ids(&self) -> (r: Vec<u32>)
        ensures
            r@ == self.comps().writes.map_values(|e: Entry| e.id),
    {
        self.components.write_ids()
    }

    /// The component keys this system reads or writes.
    pub fn component_access_ids(&self) -> (r: Vec<u32>)
        ensures
            r@ == (self.comps().reads + self.comps().writes).map_values(|e: Entry| e.id),
    {
        self.components.access_ids()
    }
}

/// Compatibility is symmetric.
pub proof fn law_compatibility_is_symmetric(a: AccessView, b: AccessView)
    ensures
        a.compatible(b) == b.compatible(a),
{
    if spec_aliases(a.writes, b.writes) {
        let (i, j) = choose|i: int, j: int|
            0 <= i < a.writes.len() && 0 <= j < b.writes.len() && (#[trigger] a.writes[i]).id == (
            #[trigger] b.writes[j]).id;
        assert(b.writes[j].id == a.writes[i].id);
    }
    if spec_aliases(b.writes, a.writes) {
        let (i, j) = choose|i: int, j: int|
            0 <= i < b.writes.len() && 0 <= j < a.writes.len() && (#[trigger] b.writes[i]).id == (
            #[trigger] a.writes[j]).id;
        assert(a.writes[j].id == b.writes[i].id);
    }
}

/// Read/read overlap never conflicts: a set that writes nothing is
/// compatible with every set that writes nothing, itself included.
pub proof fn law_reads_never_conflict(a: AccessView, b: AccessView)
    requires
        a.writes.len() == 0,
        b.writes.len() == 0,
    ensures
        a.compatible(b),
{
}

} // verus!
