use crate::route::RouteEntry;
use vstd::prelude::*;

verus! {

broadcast use vstd::seq_lib::group_seq_properties;

/// The entry with its destination cleared of every bit outside its mask.
pub open spec fn masked(e: RouteEntry) -> RouteEntry {
    RouteEntry { destination: e.destination & e.mask, mask: e.mask, gateway: e.gateway }
}

/// Every entry of `s`, masked.
pub open spec fn mask_all(s: Seq<RouteEntry>) -> Seq<RouteEntry> {
    s.map_values(|e: RouteEntry| masked(e))
}

/// `s` with `e` placed before the first entry whose destination is smaller
/// than that of `e` (after all entries with a destination at least as large).
pub open spec fn insert_desc(s: Seq<RouteEntry>, e: RouteEntry) -> Seq<RouteEntry>
    decreases s.len(),
{
    if s.len() == 0 {
        seq![e]
    } else if s[0].destination < e.destination {
        seq![e] + s
    } else {
        seq![s[0]] + insert_desc(s.drop_first(), e)
    }
}

/// The stable sort of `s` by destination, largest first: entries with equal
/// destinations keep their relative order.
pub open spec fn sort_desc(s: Seq<RouteEntry>) -> Seq<RouteEntry>
    decreases s.len(),
{
    if s.len() == 0 {
        Seq::empty()
    } else {
        insert_desc(sort_desc(s.drop_last()), s.last())
    }
}

/// The snapshot that a list of filtered entries gives: masked, then sorted.
pub open spec fn snapshot_of(routes: Seq<RouteEntry>) -> Seq<RouteEntry> {
    sort_desc(mask_all(routes))
}

/// Whether address `ip` lies in the network of entry `e`.
pub open spec fn covers(e: RouteEntry, ip: u32) -> bool {
    e.mask & ip == e.destination
}

/// The gateway of the first entry of `s` that covers `ip`, if any does.
pub open spec fn first_match(s: Seq<RouteEntry>, ip: u32) -> Option<u32>
    decreases s.len(),
{
    if s.len() == 0 {
        None
    } else if covers(s[0], ip) {
        Some(s[0].gateway)
    } else {
        first_match(s.drop_first(), ip)
    }
}

/// Every destination of `s` is already masked.
pub open spec fn all_masked(s: Seq<RouteEntry>) -> bool {
    forall|i: int| 0 <= i < s.len() ==> #[trigger] s[i].destination == s[i].destination & s[i].mask
}

/// The destinations of `s` never increase along the sequence.
pub open spec fn sorted_desc(s: Seq<RouteEntry>) -> bool {
    forall|i: int, j: int| 0 <= i < j < s.len() ==> s[i].destination >= s[j].destination
}

/// Masking an entry twice gives what masking it once gives.
pub proof fn lemma_mask_idempotent(e: RouteEntry)
    ensures
        masked(masked(e)) == masked(e),
        masked(e).destination == masked(e).destination & masked(e).mask,
{
    let d = e.destination;
    let m = e.mask;
    assert((d & m) & m == d & m) by (bit_vector);
}

proof fn lemma_insert_desc_at(s: Seq<RouteEntry>, e: RouteEntry, k: int)
    requires
        0 <= k <= s.len(),
        forall|j: int| 0 <= j < k ==> s[j].destination >= e.destination,
        k < s.len() ==> s[k].destination < e.destination,
    ensures
        insert_desc(s, e) == s.insert(k, e),
    decreases s.len(),
{
    if s.len() == 0 {
        assert(insert_desc(s, e) =~= s.insert(k, e));
    } else if k == 0 {
        assert(insert_desc(s, e) =~= s.insert(k, e));
    } else {
        let t = s.drop_first();
        assert forall|j: int| 0 <= j < k - 1 implies t[j].destination >= e.destination by {
            assert(t[j] == s[j + 1]);
        }
        lemma_insert_desc_at(t, e, k - 1);
        assert(insert_desc(s, e) =~= s.insert(k, e));
    }
}

spec fn insert_position(s: Seq<RouteEntry>, e: RouteEntry) -> int
    decreases s.len(),
{
    if s.len() == 0 {
        0
    } else if s[0].destination < e.destination {
        0
    } else {
        1 + insert_position(s.drop_first(), e)
    }
}

proof fn lemma_insert_desc_is_insert(s: Seq<RouteEntry>, e: RouteEntry)
    ensures
        0 <= insert_position(s, e) <= s.len(),
        insert_desc(s, e) == s.insert(insert_position(s, e), e),
    decreases s.len(),
{
    if s.len() != 0 && s[0].destination >= e.destination {
        lemma_insert_desc_is_insert(s.drop_first(), e);
    }
    assert(insert_desc(s, e) =~= s.insert(insert_position(s, e), e));
}

proof fn lemma_insert_desc_sorted(s: Seq<RouteEntry>, e: RouteEntry)
    requires
        sorted_desc(s),
    ensures
        sorted_desc(insert_desc(s, e)),
    decreases s.len(),
{
    if s.len() == 0 {
    } else if s[0].destination < e.destination {
        let r = insert_desc(s, e);
        assert(r =~= seq![e] + s);
        assert forall|i: int, j: int| 0 <= i < j < r.len() implies r[i].destination
            >= r[j].destination by {
            if i == 0 {
                assert(s[0].destination >= s[j - 1].destination || j - 1 == 0);
            }
        }
    } else {
        let t = s.drop_first();
        lemma_insert_desc_sorted(t, e);
        lemma_insert_desc_is_insert(t, e);
        let r = insert_desc(s, e);
        let u = insert_desc(t, e);
        assert(r =~= seq![s[0]] + u);
        assert forall|i: int, j: int| 0 <= i < j < r.len() implies r[i].destination
            >= r[j].destination by {
            if i == 0 {
                let p = insert_position(t, e);
                if j - 1 < p {
                    assert(u[j - 1] == t[j - 1]);
                } else if j - 1 > p {
                    assert(u[j - 1] == t[j - 2]);
                }
            } else {
                assert(r[i] == u[i - 1] && r[j] == u[j - 1]);
            }
        }
    }
}

/// The sorted snapshot is a permutation of its input and has destinations in
/// descending order.
pub proof fn lemma_sort_desc(s: Seq<RouteEntry>)
    ensures
        sort_desc(s).to_multiset() == s.to_multiset(),
        sort_desc(s).len() == s.len(),
        sorted_desc(sort_desc(s)),
    decreases s.len(),
{
    broadcast use vstd::seq_lib::to_multiset_insert;
    broadcast use vstd::seq_lib::to_multiset_build;

    if s.len() != 0 {
        let t = sort_desc(s.drop_last());
        lemma_sort_desc(s.drop_last());
        lemma_insert_desc_is_insert(t, s.last());
        lemma_insert_desc_sorted(t, s.last());
        assert(s.drop_last().push(s.last()) =~= s);
    }
}

proof fn lemma_first_match(s: Seq<RouteEntry>, ip: u32)
    ensures
        match first_match(s, ip) {
            Some(g) => exists|i: int|
                0 <= i < s.len() && covers(#[trigger] s[i], ip) && s[i].gateway == g && (forall|
                    j: int,
                | 0 <= j < i ==> !covers(s[j], ip)),
            None => forall|i: int| 0 <= i < s.len() ==> !covers(#[trigger] s[i], ip),
        },
    decreases s.len(),
{
    if s.len() != 0 && !covers(s[0], ip) {
        let t = s.drop_first();
        lemma_first_match(t, ip);
        match first_match(t, ip) {
            Some(g) => {
                let i = choose|i: int|
                    0 <= i < t.len() && covers(#[trigger] t[i], ip) && t[i].gateway == g && (forall|
                        j: int,
                    | 0 <= j < i ==> !covers(t[j], ip));
                assert(s[i + 1] == t[i]);
                assert forall|j: int| 0 <= j < i + 1 implies !covers(s[j], ip) by {
                    if j > 0 {
                        assert(s[j] == t[j - 1]);
                    }
                }
            },
            None => {
                assert forall|i: int| 0 <= i < s.len() implies !covers(#[trigger] s[i], ip) by {
                    if i > 0 {
                        assert(s[i] == t[i - 1]);
                    }
                }
            },
        }
    }
}

/// After a replace with `routes`, a lookup of `ip` yields the gateway of the
/// first entry, in stored order, whose mask applied to `ip` gives its
/// destination, and no route when no stored entry does.
pub proof fn lemma_replace_then_lookup(routes: Seq<RouteEntry>, ip: u32)
    ensures
        match first_match(snapshot_of(routes), ip) {
            Some(g) => exists|i: int|
                0 <= i < snapshot_of(routes).len() && covers(
                    #[trigger] snapshot_of(routes)[i],
                    ip,
                ) && snapshot_of(routes)[i].gateway == g && (forall|j: int|
                    0 <= j < i ==> !covers(snapshot_of(routes)[j], ip)),
            None => forall|i: int|
                0 <= i < snapshot_of(routes).len() ==> !covers(
                    #[trigger] snapshot_of(routes)[i],
                    ip,
                ),
        },
{
    lemma_first_match(snapshot_of(routes), ip);
}

/// Every entry of a snapshot is an entry of the input with its destination
/// masked, and masking it again changes nothing.
pub proof fn lemma_snapshot_masked(routes: Seq<RouteEntry>)
    ensures
        forall|i: int|
            0 <= i < snapshot_of(routes).len() ==> exists|j: int|
                0 <= j < routes.len() && #[trigger] snapshot_of(routes)[i] == masked(
                    #[trigger] routes[j],
                ),
        forall|i: int|
            0 <= i < snapshot_of(routes).len() ==> #[trigger] masked(snapshot_of(routes)[i])
                == snapshot_of(routes)[i],
{
    broadcast use vstd::seq_lib::to_multiset_contains;

    let m = mask_all(routes);
    let snap = snapshot_of(routes);
    lemma_sort_desc(m);
    assert forall|i: int| 0 <= i < snap.len() implies exists|j: int|
        0 <= j < routes.len() && #[trigger] snap[i] == masked(#[trigger] routes[j]) by {
        assert(snap.contains(snap[i]));
        assert(snap.to_multiset().count(snap[i]) > 0);
        assert(m.to_multiset().count(snap[i]) > 0);
        assert(m.contains(snap[i]));
        let j = choose|j: int| 0 <= j < m.len() && m[j] == snap[i];
        assert(snap[i] == masked(routes[j]));
    }
    assert forall|i: int| 0 <= i < snap.len() implies #[trigger] masked(snap[i]) == snap[i] by {
        let j = choose|j: int| 0 <= j < routes.len() && #[trigger] snap[i] == masked(
            #[trigger] routes[j],
        );
        lemma_mask_idempotent(routes[j]);
    }
}

/// A routing snapshot: entries with masked destinations, in descending order
/// of destination. It never changes once built; a new listing gives a new one.
pub struct RouteTable {
    entries: Vec<RouteEntry>,
}

impl View for RouteTable {
    type V = Seq<RouteEntry>;

    closed spec fn view(&self) -> Seq<RouteEntry> {
        self.entries@
    }
}

impl RouteTable {
    #[verifier::type_invariant]
    pub(crate) open spec fn well_formed(self) -> bool {
        all_masked(self@) && sorted_desc(self@)
    }

    /// The empty snapshot, which has a route for no address.
    pub fn new() -> (t: RouteTable)
        ensures
            t@ == Seq::<RouteEntry>::empty(),
    {
        RouteTable { entries: Vec::new() }
    }

    /// Builds the snapshot of a list of filtered entries: each destination is
    /// masked, then the entries are sorted by destination, largest first, with
    /// equal destinations kept in list order. The order goes by destination
    /// value, not by prefix length: where networks of different lengths share
    /// a masked destination, the one listed first is tried first, so a lookup
    /// is a longest-prefix match only where no such pair is present.
    pub fn from_routes(routes: Vec<RouteEntry>) -> (t: RouteTable)
        ensures
            t@ == snapshot_of(routes@),
            all_masked(t@),
            sorted_desc(t@),
    {
        let ghost m = mask_all(routes@);
        let mut sorted: Vec<RouteEntry> = Vec::new();
        let mut i: usize = 0;
        while i < routes.len()
            invariant
                i <= routes@.len(),
                m == mask_all(routes@),
                sorted@ == sort_desc(m.take(i as int)),
            decreases routes@.len() - i,
        {
            let r = routes[i];
            let e = RouteEntry { destination: r.destination & r.mask, mask: r.mask, gateway: r.gateway };
            let mut k: usize = 0;
            while k < sorted.len() && sorted[k].destination >= e.destination
                invariant
                    k <= sorted@.len(),
                    forall|j: int| 0 <= j < k ==> sorted@[j].destination >= e.destination,
                decreases sorted@.len() - k,
            {
                k += 1;
            }
            proof {
                lemma_insert_desc_at(sorted@, e, k as int);
                assert(m.take(i as int + 1).drop_last() =~= m.take(i as int));
                assert(m.take(i as int + 1).last() == e);
            }
            sorted.insert(k, e);
            i += 1;
        }
        proof {
            assert(m.take(i as int) =~= m);
            lemma_sort_desc(m);
            assert forall|x: int| 0 <= x < sorted@.len() implies #[trigger] sorted@[x].destination
                == sorted@[x].destination & sorted@[x].mask by {
                broadcast use vstd::seq_lib::to_multiset_contains;

                assert(sorted@.contains(sorted@[x]));
                assert(sorted@.to_multiset().count(sorted@[x]) > 0);
                assert(m.to_multiset().count(sorted@[x]) > 0);
                assert(m.contains(sorted@[x]));
                let j = choose|j: int| 0 <= j < m.len() && m[j] == sorted@[x];
                lemma_mask_idempotent(routes@[j]);
            }
        }
        RouteTable { entries: sorted }
    }

    /// The gateway for `ip`: that of the first entry, in stored order, whose
    /// mask applied to `ip` gives its destination; `None` where none does.
    pub fn route(&self, ip: u32) -> (r: Option<u32>)
        ensures
            r == first_match(self@, ip),
    {
        let n = self.entries.len();
        if n == 0 {
            return None;
        }
        let mut i: usize = 0;
        while i < n
            invariant
                n == self@.len(),
                i <= n,
                first_match(self@, ip) == first_match(self@.skip(i as int), ip),
            decreases n - i,
        {
            let e = self.entries[i];
            assert(self@.skip(i as int)[0] == e);
            if e.mask & ip == e.destination {
                return Some(e.gateway);
            }
            assert(self@.skip(i as int).drop_first() =~= self@.skip(i as int + 1));
            i += 1;
        }
        None
    }
}

} // verus!
