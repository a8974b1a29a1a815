//! An address-range keyed registry of type information.
use std::ops::Range;
use vstd::prelude::*;

verus! {

/// What is known about the data or code found in an address range.
#[derive(Debug)]
pub enum TypeInfo {
    Function { name: String, is_extern: bool },
    Integer { bits: u32, signed: bool },
    Struct { name: String, size: u64 },
    Union { name: String, size: u64 },
    Array { element_type: Box<TypeInfo>, count: u64 },
}

impl Clone for TypeInfo {
    fn clone(&self) -> (r: Self)
        ensures
            r == *self,
        decreases self,
    {
        match self {
            TypeInfo::Function { name, is_extern } => TypeInfo::Function {
                name: name.clone(),
                is_extern: *is_extern,
            },
            TypeInfo::Integer { bits, signed } => TypeInfo::Integer { bits: *bits, signed: *signed },
            TypeInfo::Struct { name, size } => TypeInfo::Struct { name: name.clone(), size: *size },
            TypeInfo::Union { name, size } => TypeInfo::Union { name: name.clone(), size: *size },
            TypeInfo::Array { element_type, count } => TypeInfo::Array {
                element_type: Box::new((**element_type).clone()),
                count: *count,
            },
        }
    }
}

/// One registered range `[start, end)` and its type information.
pub type Entry = (u64, u64, TypeInfo);

/// Entries ordered by start address, each start keeping its entries in insertion order.
pub open spec fn sorted_by_start(s: Seq<Entry>) -> bool {
    forall|i: int, j: int| 0 <= i < j < s.len() ==> s[i].0 <= s[j].0
}

/// Number of entries whose start is at most `k`.
pub open spec fn count_le(s: Seq<Entry>, k: u64) -> nat
    decreases s.len(),
{
    if s.len() == 0 {
        0
    } else {
        count_le(s.drop_last(), k) + if s.last().0 <= k { 1nat } else { 0nat }
    }
}

/// The entries after `e` is registered: `e` goes last among those with its start.
pub open spec fn insert_entry(s: Seq<Entry>, e: Entry) -> Seq<Entry> {
    s.insert(count_le(s, e.0) as int, e)
}

/// The entries of a registry into which `s` was inserted in order, starting empty.
pub open spec fn inserted(s: Seq<Entry>) -> Seq<Entry>
    decreases s.len(),
{
    if s.len() == 0 {
        Seq::empty()
    } else {
        insert_entry(inserted(s.drop_last()), s.last())
    }
}

/// Whether the half-open range of `e` contains `a`.
pub open spec fn contains_address(e: Entry, a: u64) -> bool {
    e.0 <= a && a < e.1
}

/// The type information of the entries of `s` whose range contains `a`, in order.
pub open spec fn covering(s: Seq<Entry>, a: u64) -> Seq<TypeInfo>
    decreases s.len(),
{
    if s.len() == 0 {
        Seq::empty()
    } else {
        covering(s.drop_last(), a) + if contains_address(s.last(), a) {
            seq![s.last().2]
        } else {
            Seq::empty()
        }
    }
}

/// Designed with quickly fetching all types for a given address in mind.
#[derive(Debug)]
pub struct TypeRegistry {
    lookup: Vec<Entry>,
}

impl View for TypeRegistry {
    type V = Seq<Entry>;

    closed spec fn view(&self) -> Seq<Entry> {
        self.lookup@
    }
}

impl TypeRegistry {
    pub open spec fn wf(&self) -> bool {
        sorted_by_start(self@)
    }

    pub fn new() -> (r: Self)
        ensures
            r.wf(),
            r@ == Seq::<Entry>::empty(),
    {
        TypeRegistry { lookup: Vec::new() }
    }

    /// Registers `type_info` for the addresses of `range`.
    pub fn insert(&mut self, range: Range<u64>, type_info: TypeInfo)
        requires
            old(self).wf(),
        ensures
            final(self).wf(),
            final(self)@ == insert_entry(old(self)@, (range.start, range.end, type_info)),
    {
        let start = range.start;
        let mut pos: usize = 0;
        while pos < self.lookup.len() && self.lookup[pos].0 <= start
            invariant
                self.wf(),
                pos <= self.lookup.len(),
                forall|j: int| 0 <= j < pos ==> self@[j].0 <= start,
            decreases self.lookup.len() - pos,
        {
            pos = pos + 1;
        }
        proof {
            lemma_count_le_sorted(self@, start, pos as int);
        }
        self.lookup.insert(pos, (start, range.end, type_info));
    }

    /// All type information registered for a range that contains `address`.
    pub fn get_at_address(&self, address: u64) -> (r: Vec<&TypeInfo>)
        requires
            self.wf(),
        ensures
            r@.len() == covering(self@, address).len(),
            forall|j: int| 0 <= j < r@.len() ==> *r@[j] == covering(self@, address)[j],
    {
        let mut results: Vec<&TypeInfo> = Vec::new();
        let mut i: usize = 0;
        while i < self.lookup.len() && self.lookup[i].0 <= address
            invariant
                self.wf(),
                i <= self.lookup.len(),
                results@.len() == covering(self@.take(i as int), address).len(),
                forall|j: int|
                    0 <= j < results@.len() ==> *results@[j] == covering(
                        self@.take(i as int),
                        address,
                    )[j],
            decreases self.lookup.len() - i,
        {
            let entry = &self.lookup[i];
            if address < entry.1 {
                results.push(&entry.2);
            }
            proof {
                assert(self@.take(i + 1).drop_last() == self@.take(i as int));
            }
            i = i + 1;
        }
        proof {
            lemma_covering_split(self@.take(i as int), self@.skip(i as int), address);
            assert(self@.take(i as int) + self@.skip(i as int) == self@);
            lemma_covering_none(self@.skip(i as int), address);
        }
        results
    }
}

/// Every query is answered from exactly the entries that were inserted: for any
/// sequence of insertions into an empty registry and any address, the type
/// information returned is, with multiplicity, that of the inserted entries whose
/// range contains the address.
pub proof fn lemma_query_complete(s: Seq<Entry>, a: u64)
    ensures
        covering(inserted(s), a).to_multiset() == covering(s, a).to_multiset(),
    decreases s.len(),
{
    if s.len() > 0 {
        let e = s.last();
        let t = inserted(s.drop_last());
        lemma_query_complete(s.drop_last(), a);
        lemma_insert_entry_covering(t, e, a);
        assert(inserted(s) == insert_entry(t, e));
        if contains_address(e, a) {
            assert(covering(s, a) == covering(s.drop_last(), a).push(e.2));
            let q = covering(t.take(count_le(t, e.0) as int), a).len() as int;
            vstd::seq_lib::to_multiset_insert(covering(t, a), q, e.2);
            vstd::seq_lib::to_multiset_build(covering(s.drop_last(), a), e.2);
        } else {
            assert(covering(s, a) == covering(s.drop_last(), a));
        }
    }
}

/// The order of insertion does not matter to queries: two registries filled with
/// the same entries in any two orders return, at every address, the same type
/// information, counted with repeats.
pub proof fn lemma_insert_order_irrelevant(s1: Seq<Entry>, s2: Seq<Entry>, a: u64)
    requires
        s1.to_multiset() == s2.to_multiset(),
    ensures
        covering(inserted(s1), a).to_multiset() == covering(inserted(s2), a).to_multiset(),
{
    lemma_query_complete(s1, a);
    lemma_query_complete(s2, a);
    lemma_covering_permutation(s1, s2, a);
}

/// Entries that share a start keep their insertion order: a new entry goes after
/// every entry already registered with the same start, and those stay in place.
pub proof fn lemma_insert_keeps_start_order(t: Seq<Entry>, e: Entry)
    requires
        sorted_by_start(t),
    ensures
        ({
            let p = count_le(t, e.0) as int;
            let r = insert_entry(t, e);
            &&& 0 <= p <= t.len()
            &&& r[p] == e
            &&& forall|j: int| 0 <= j < t.len() && t[j].0 == e.0 ==> j < p && r[j] == t[j]
        }),
{
    lemma_count_le_split(t, e.0);
}

proof fn lemma_count_le_split(t: Seq<Entry>, k: u64)
    requires
        sorted_by_start(t),
    ensures
        count_le(t, k) <= t.len(),
        forall|j: int| 0 <= j < count_le(t, k) ==> t[j].0 <= k,
        forall|j: int| count_le(t, k) <= j < t.len() ==> t[j].0 > k,
    decreases t.len(),
{
    if t.len() > 0 {
        let d = t.drop_last();
        lemma_count_le_split(d, k);
        assert(count_le(t, k) == count_le(d, k) + if t.last().0 <= k { 1nat } else { 0nat });
        assert forall|j: int| 0 <= j < d.len() implies d[j] == t[j] by {}
        if t.last().0 <= k {
            if count_le(d, k) < d.len() {
                assert(d[d.len() - 1].0 <= t[t.len() - 1].0);
            }
            assert forall|j: int| 0 <= j < t.len() implies t[j].0 <= k by {
                if j < t.len() - 1 {
                    assert(t[j].0 <= t[t.len() - 1].0);
                }
            }
        } else {
            assert forall|j: int| 0 <= j < count_le(t, k) implies t[j].0 <= k by {
                assert(d[j] == t[j]);
            }
            assert forall|j: int| count_le(t, k) <= j < t.len() implies t[j].0 > k by {
                if j < t.len() - 1 {
                    assert(d[j] == t[j]);
                }
            }
        }
    }
}

proof fn lemma_covering_permutation(s1: Seq<Entry>, s2: Seq<Entry>, a: u64)
    requires
        s1.to_multiset() == s2.to_multiset(),
    ensures
        covering(s1, a).to_multiset() == covering(s2, a).to_multiset(),
    decreases s1.len(),
{
    vstd::seq_lib::to_multiset_len(s1);
    vstd::seq_lib::to_multiset_len(s2);
    if s1.len() == 0 {
        assert(s1 =~= s2);
    } else {
        let e = s1.last();
        let d1 = s1.drop_last();
        assert(s1 == d1.push(e));
        vstd::seq_lib::to_multiset_build(d1, e);
        vstd::seq_lib::to_multiset_contains(s1, e);
        assert(s1.contains(e)) by {
            assert(s1[s1.len() - 1] == e);
        }
        vstd::seq_lib::to_multiset_contains(s2, e);
        let i = choose|i: int| 0 <= i < s2.len() && s2[i] == e;
        let d2 = s2.remove(i);
        vstd::seq_lib::to_multiset_remove(s2, i);
        assert(d1.to_multiset() =~= d2.to_multiset());
        lemma_covering_permutation(d1, d2, a);
        let x = s2.take(i);
        let y = s2.skip(i + 1);
        assert(s2 == x + seq![e] + y);
        assert(d2 == x + y);
        lemma_covering_split(x + seq![e], y, a);
        lemma_covering_split(x, seq![e], a);
        lemma_covering_split(x, y, a);
        assert(seq![e].drop_last() == Seq::<Entry>::empty());
        assert(seq![e].last() == e);
        let ce = covering(seq![e], a);
        vstd::seq_lib::lemma_multiset_commutative(covering(x, a) + ce, covering(y, a));
        vstd::seq_lib::lemma_multiset_commutative(covering(x, a), ce);
        vstd::seq_lib::lemma_multiset_commutative(covering(x, a), covering(y, a));
        vstd::seq_lib::lemma_multiset_commutative(covering(d1, a), ce);
        assert(s1 == d1 + seq![e]);
        lemma_covering_split(d1, seq![e], a);
        assert(covering(s1, a) == covering(d1, a) + ce);
        assert(covering(s1, a).to_multiset() =~= covering(s2, a).to_multiset());
    }
}

proof fn lemma_covering_contains(s: Seq<Entry>, a: u64, x: TypeInfo) -> (i: int)
    requires
        covering(s, a).contains(x),
    ensures
        0 <= i < s.len(),
        contains_address(s[i], a),
        s[i].2 == x,
    decreases s.len(),
{
    let c = covering(s.drop_last(), a);
    if c.contains(x) {
        lemma_covering_contains(s.drop_last(), a, x)
    } else {
        let k = choose|k: int| 0 <= k < covering(s, a).len() && covering(s, a)[k] == x;
        if contains_address(s.last(), a) && k == c.len() {
            s.len() - 1
        } else {
            assert(c[k] == x);
            lemma_covering_contains(s.drop_last(), a, x)
        }
    }
}

proof fn lemma_covering_hit(s: Seq<Entry>, a: u64, i: int)
    requires
        0 <= i < s.len(),
        contains_address(s[i], a),
    ensures
        covering(s, a).contains(s[i].2),
    decreases s.len(),
{
    if i == s.len() - 1 {
        assert(covering(s, a)[covering(s.drop_last(), a).len() as int] == s[i].2);
    } else {
        lemma_covering_hit(s.drop_last(), a, i);
        let c = covering(s.drop_last(), a);
        let k = choose|k: int| 0 <= k < c.len() && c[k] == s[i].2;
        assert(covering(s, a)[k] == s[i].2);
    }
}

proof fn lemma_count_le_bound(s: Seq<Entry>, k: u64)
    ensures
        count_le(s, k) <= s.len(),
    decreases s.len(),
{
    if s.len() > 0 {
        lemma_count_le_bound(s.drop_last(), k);
    }
}

/// Registering `e` adds its type information to a query's result exactly when its
/// range contains the address.
proof fn lemma_insert_entry_covering(t: Seq<Entry>, e: Entry, a: u64)
    ensures
        contains_address(e, a) ==> covering(insert_entry(t, e), a) == covering(t, a).insert(
            covering(t.take(count_le(t, e.0) as int), a).len() as int,
            e.2,
        ),
        !contains_address(e, a) ==> covering(insert_entry(t, e), a) == covering(t, a),
        covering(t.take(count_le(t, e.0) as int), a).len() <= covering(t, a).len(),
{
    lemma_count_le_bound(t, e.0);
    let p = count_le(t, e.0) as int;
    let x = t.take(p);
    let y = t.skip(p);
    assert(insert_entry(t, e) == x + seq![e] + y);
    assert(t == x + y);
    lemma_covering_split(x + seq![e], y, a);
    lemma_covering_split(x, seq![e], a);
    lemma_covering_split(x, y, a);
    assert(seq![e].drop_last() == Seq::<Entry>::empty());
    assert(seq![e].last() == e);
    assert(covering(Seq::<Entry>::empty(), a) == Seq::<TypeInfo>::empty());
    let cx = covering(x, a);
    let cy = covering(y, a);
    assert(covering(t, a) == cx + cy);
    assert(covering(insert_entry(t, e), a) == cx + covering(seq![e], a) + cy);
    if contains_address(e, a) {
        assert(covering(seq![e], a) == seq![e.2]);
        assert(cx + seq![e.2] + cy == (cx + cy).insert(cx.len() as int, e.2));
    } else {
        assert(covering(seq![e], a) == Seq::<TypeInfo>::empty());
        assert(cx + Seq::<TypeInfo>::empty() == cx);
    }
}

/// In sorted entries, the first `p` have start at most `k` and the rest do not.
proof fn lemma_count_le_sorted(s: Seq<Entry>, k: u64, p: int)
    requires
        sorted_by_start(s),
        0 <= p <= s.len(),
        forall|j: int| 0 <= j < p ==> s[j].0 <= k,
        p == s.len() || s[p].0 > k,
    ensures
        count_le(s, k) == p,
    decreases s.len(),
{
    if s.len() > 0 {
        if p == s.len() {
            lemma_count_le_sorted(s.drop_last(), k, p - 1);
        } else {
            lemma_count_le_sorted(s.drop_last(), k, p);
        }
    }
}

proof fn lemma_covering_split(x: Seq<Entry>, y: Seq<Entry>, a: u64)
    ensures
        covering(x + y, a) == covering(x, a) + covering(y, a),
    decreases y.len(),
{
    if y.len() == 0 {
        assert(x + y == x);
    } else {
        lemma_covering_split(x, y.drop_last(), a);
        assert((x + y).drop_last() == x + y.drop_last());
    }
}

proof fn lemma_covering_none(s: Seq<Entry>, a: u64)
    requires
        forall|j: int| 0 <= j < s.len() ==> s[j].0 > a,
    ensures
        covering(s, a) == Seq::<TypeInfo>::empty(),
    decreases s.len(),
{
    if s.len() > 0 {
        lemma_covering_none(s.drop_last(), a);
    }
}

} // verus!
