//! The probe history: which records a cleanup keeps, which a failed
//! address loses, and how records group into candidate addresses.

use vstd::prelude::*;
use crate::clock::{utc_now, ClockError};

verus! {

/// An instant in UTC: whole seconds since the Unix epoch, and nanoseconds
/// within the second (from 1_000_000_000 up during a leap second).
#[derive(Debug, Clone, Copy, PartialEq, Eq, Structural)]
pub struct Stamp {
    pub secs: i64,
    pub nanos: u32,
}

/// `a` is no later than `b`.
pub open spec fn stamp_le(a: Stamp, b: Stamp) -> bool {
    a.secs < b.secs || (a.secs == b.secs && a.nanos <= b.nanos)
}

/// Whether `a` is no later than `b`.
pub fn stamp_not_after(a: Stamp, b: Stamp) -> (r: bool)
    ensures
        r == stamp_le(a, b),
{
    a.secs < b.secs || (a.secs == b.secs && a.nanos <= b.nanos)
}

/// How long records are kept, in hours.
pub const RETENTION_HOURS: i64 = 1;

/// The earliest second that a UTC date-time can hold: midnight starting
/// 1 January of the year -262143.
pub const EARLIEST_TIMESTAMP: i64 = -8_334_601_228_800;

/// The latest second that a UTC date-time can hold: 23:59:59 on
/// 31 December of the year 262142.
pub const LATEST_TIMESTAMP: i64 = 8_210_266_876_799;

/// The instant `hours` hours before `t`. An instant inside a leap second
/// first moves to the start of the next second, as date-time subtraction does.
pub open spec fn hours_before(t: Stamp, hours: int) -> Stamp {
    if t.nanos >= 1_000_000_000 {
        Stamp { secs: (t.secs + 1 - 3600 * hours) as i64, nanos: (t.nanos - 1_000_000_000) as u32 }
    } else {
        Stamp { secs: (t.secs - 3600 * hours) as i64, nanos: t.nanos }
    }
}

/// The oldest instant a record may carry and survive a cleanup at `now`.
pub fn retention_cutoff(now: Stamp) -> (c: Stamp)
    requires
        now.nanos < 2_000_000_000,
        now.secs - 3600 * RETENTION_HOURS >= EARLIEST_TIMESTAMP,
    ensures
        c == hours_before(now, RETENTION_HOURS as int),
        now.nanos < 1_000_000_000 ==> c.secs == now.secs - 3600 && c.nanos == now.nanos,
{
    if now.nanos >= 1_000_000_000 {
        Stamp { secs: now.secs - 3600 * RETENTION_HOURS + 1, nanos: now.nanos - 1_000_000_000 }
    } else {
        Stamp { secs: now.secs - 3600 * RETENTION_HOURS, nanos: now.nanos }
    }
}

/// What the logic reads of one probe record.
pub struct RecordMeta {
    pub domain: String,
    pub ip: String,
    pub port: u16,
    pub stamp: Stamp,
}

/// The indices below `n` at which `p` holds, in increasing order.
pub open spec fn indices_where(n: nat, p: spec_fn(int) -> bool) -> Seq<int>
    decreases n,
{
    if n == 0 {
        seq![]
    } else if p(n - 1) {
        indices_where((n - 1) as nat, p).push(n - 1)
    } else {
        indices_where((n - 1) as nat, p)
    }
}

/// The listed indices increase, hold `p`, and are all the indices below `n` that hold `p`.
pub proof fn lemma_indices_where(n: nat, p: spec_fn(int) -> bool)
    ensures
        forall|a: int, b: int|
            0 <= a < b < indices_where(n, p).len() ==> #[trigger] indices_where(n, p)[a]
                < #[trigger] indices_where(n, p)[b],
        forall|a: int|
            0 <= a < indices_where(n, p).len() ==> 0 <= #[trigger] indices_where(n, p)[a] < n && p(
                indices_where(n, p)[a],
            ),
        forall|i: int| 0 <= i < n && p(i) ==> #[trigger] indices_where(n, p).contains(i),
        indices_where(n, p).len() <= n,
        indices_where(n, p).len() == n <==> forall|i: int| 0 <= i < n ==> #[trigger] p(i),
    decreases n,
{
    if n > 0 {
        lemma_indices_where((n - 1) as nat, p);
        let prev = indices_where((n - 1) as nat, p);
        let cur = indices_where(n, p);
        assert forall|i: int| 0 <= i < n && p(i) implies #[trigger] cur.contains(i) by {
            if i < n - 1 {
                assert(prev.contains(i));
                let k = choose|k: int| 0 <= k < prev.len() && prev[k] == i;
                assert(cur[k] == i);
            } else {
                assert(cur[cur.len() - 1] == i);
            }
        }
        if !p(n - 1) {
            assert(cur.len() < n);
        }
        if cur.len() == n {
            assert forall|i: int| 0 <= i < n implies #[trigger] p(i) by {
                if i < n - 1 {
                    assert(prev.len() == n - 1);
                }
            }
        }
    }
}

/// `t` is no more than one hour before `now`, for an instant `now` outside a
/// leap second: the cutoff is `now` less 3600 seconds.
pub open spec fn is_within_hour(t: Stamp, now: Stamp) -> bool {
    t.secs > now.secs - 3600 || (t.secs == now.secs - 3600 && t.nanos >= now.nanos)
}

/// What a vector of indices built from `indices_where` holds: increasing
/// indices below `n`, each where `p` holds, and every index below `n` where
/// `p` holds.
pub proof fn lemma_index_vec(v: Seq<usize>, n: nat, p: spec_fn(int) -> bool)
    requires
        v.map_values(|x: usize| x as int) == indices_where(n, p),
        n <= usize::MAX,
    ensures
        forall|a: int, b: int| 0 <= a < b < v.len() ==> v[a] < v[b],
        forall|a: int| 0 <= a < v.len() ==> #[trigger] v[a] < n,
        forall|a: int| 0 <= a < v.len() ==> #[trigger] p(v[a] as int),
        forall|i: int| 0 <= i < n && #[trigger] p(i) ==> v.contains(i as usize),
        v.len() == n <==> forall|i: int| 0 <= i < n ==> #[trigger] p(i),
{
    let idx = indices_where(n, p);
    lemma_indices_where(n, p);
    assert forall|a: int| 0 <= a < v.len() implies v[a] as int == #[trigger] idx[a] by {
        assert(v.map_values(|x: usize| x as int)[a] == v[a] as int);
    }
    assert forall|a: int, b: int| 0 <= a < b < v.len() implies v[a] < v[b] by {
        assert(idx[a] < idx[b]);
    }
    assert forall|a: int| 0 <= a < v.len() implies #[trigger] v[a] < n by {
        assert(v[a] as int == idx[a]);
    }
    assert forall|a: int| 0 <= a < v.len() implies #[trigger] p(v[a] as int) by {
        assert(v[a] as int == idx[a]);
        assert(p(idx[a]));
    }
    assert forall|i: int| 0 <= i < n && #[trigger] p(i) implies v.contains(i as usize) by {
        assert(idx.contains(i));
        let k = choose|k: int| 0 <= k < idx.len() && idx[k] == i;
        assert(v[k] as int == idx[k]);
    }
}

/// The indices of the records that a cleanup at `now` keeps: those no
/// older than the retention period.
pub open spec fn recent_indices(records: Seq<RecordMeta>, now: Stamp) -> Seq<int> {
    indices_where(
        records.len(),
        |i: int| stamp_le(hours_before(now, RETENTION_HOURS as int), records[i].stamp),
    )
}

/// The indices of the records that removing `(domain, ip)` keeps: those of
/// any other domain or address.
pub open spec fn fresh_indices(records: Seq<RecordMeta>, domain: Seq<char>, ip: Seq<char>) -> Seq<
    int,
> {
    indices_where(records.len(), other_address(records, domain, ip))
}

/// Whether the record at an index is of another domain or address.
pub open spec fn other_address(records: Seq<RecordMeta>, domain: Seq<char>, ip: Seq<char>) -> spec_fn(
    int,
) -> bool {
    |i: int| !(records[i].domain@ == domain && records[i].ip@ == ip)
}

/// The records that a cleanup at `now` keeps, by index, or `None` when it
/// keeps them all and the history is to be left as it is.
pub fn retained_records(records: &Vec<RecordMeta>, now: Stamp) -> (r: Option<Vec<usize>>)
    requires
        now.nanos < 2_000_000_000,
        now.secs - 3600 * RETENTION_HOURS >= EARLIEST_TIMESTAMP,
    ensures
        r is None <==> recent_indices(records@, now).len() == records.len(),
        r matches Some(v) ==> v@.map_values(|x: usize| x as int) == recent_indices(records@, now),
        now.nanos < 1_000_000_000 ==> (r is None <==> forall|i: int|
            0 <= i < records.len() ==> is_within_hour(records@[i].stamp, now)),
        now.nanos < 1_000_000_000 ==> (r matches Some(v) ==> (forall|a: int, b: int|
            0 <= a < b < v.len() ==> v[a] < v[b]) && (forall|a: int|
            0 <= a < v.len() ==> v[a] < records.len() && is_within_hour(records@[v[a] as int].stamp, now))
            && (forall|i: int|
            0 <= i < records.len() && is_within_hour(records@[i].stamp, now) ==> v@.contains(
                i as usize,
            ))),
{
    let cutoff = retention_cutoff(now);
    let ghost p = |i: int| stamp_le(hours_before(now, RETENTION_HOURS as int), records@[i].stamp);
    let mut kept: Vec<usize> = Vec::new();
    let mut i: usize = 0;
    while i < records.len()
        invariant
            i <= records.len(),
            cutoff == hours_before(now, RETENTION_HOURS as int),
            p == (|i: int| stamp_le(hours_before(now, RETENTION_HOURS as int), records@[i].stamp)),
            kept@.map_values(|x: usize| x as int) == indices_where(i as nat, p),
        decreases records.len() - i,
    {
        let ghost before = kept@;
        if stamp_not_after(cutoff, records[i].stamp) {
            kept.push(i);
            assert(kept@.map_values(|x: usize| x as int) =~= before.map_values(|x: usize| x as int).push(
                i as int,
            ));
        }
        i = i + 1;
    }
    proof {
        lemma_indices_where(records.len() as nat, p);
        lemma_index_vec(kept@, records.len() as nat, p);
        if now.nanos < 1_000_000_000 {
            assert forall|i: int| 0 <= i < records.len() implies #[trigger] p(i) == is_within_hour(
                records@[i].stamp,
                now,
            ) by {}
            assert((kept.len() == records.len()) <==> forall|i: int|
                0 <= i < records.len() ==> is_within_hour(records@[i].stamp, now)) by {
                if forall|i: int| 0 <= i < records.len() ==> is_within_hour(records@[i].stamp, now) {
                    assert forall|i: int| 0 <= i < records.len() implies #[trigger] p(i) by {
                        assert(is_within_hour(records@[i].stamp, now));
                    }
                }
                if kept.len() == records.len() {
                    assert forall|i: int| 0 <= i < records.len() implies is_within_hour(
                        records@[i].stamp,
                        now,
                    ) by {
                        assert(p(i));
                    }
                }
            }
            assert forall|a: int| 0 <= a < kept.len() implies kept@[a] < records.len()
                && is_within_hour(records@[kept@[a] as int].stamp, now) by {
                assert(p(kept@[a] as int));
            }
            assert forall|i: int| 0 <= i < records.len() && is_within_hour(records@[i].stamp, now)
                implies kept@.contains(i as usize) by {
                assert(p(i));
            }
        }
    }
    if kept.len() == records.len() {
        None
    } else {
        Some(kept)
    }
}

/// The records that remain once every record of `domain` at `ip` is
/// removed, by index, or `None` when there is none to remove.
pub fn without_address(records: &Vec<RecordMeta>, domain: &String, ip: &String) -> (r: Option<
    Vec<usize>,
>)
    ensures
        r is None <==> fresh_indices(records@, domain@, ip@).len() == records.len(),
        r matches Some(v) ==> v@.map_values(|x: usize| x as int) == fresh_indices(
            records@,
            domain@,
            ip@,
        ),
        r is None <==> forall|i: int|
            0 <= i < records.len() ==> !(records@[i].domain@ == domain@ && records@[i].ip@ == ip@),
        r matches Some(v) ==> (forall|a: int, b: int| 0 <= a < b < v.len() ==> v[a] < v[b]) && (
        forall|a: int|
            0 <= a < v.len() ==> v[a] < records.len() && !(records@[v[a] as int].domain@ == domain@
                && records@[v[a] as int].ip@ == ip@)) && (forall|i: int|
            0 <= i < records.len() && !(records@[i].domain@ == domain@ && records@[i].ip@ == ip@)
                ==> v@.contains(i as usize)),
{
    let ghost p = other_address(records@, domain@, ip@);
    let mut kept: Vec<usize> = Vec::new();
    let mut i: usize = 0;
    while i < records.len()
        invariant
            i <= records.len(),
            p == other_address(records@, domain@, ip@),
            kept@.map_values(|x: usize| x as int) == indices_where(i as nat, p),
        decreases records.len() - i,
    {
        let ghost before = kept@;
        if !(records[i].domain == *domain && records[i].ip == *ip) {
            kept.push(i);
            assert(kept@.map_values(|x: usize| x as int) =~= before.map_values(|x: usize| x as int).push(
                i as int,
            ));
        }
        i = i + 1;
    }
    proof {
        lemma_indices_where(records.len() as nat, p);
        lemma_index_vec(kept@, records.len() as nat, p);
        assert forall|i: int| 0 <= i < records.len() implies #[trigger] p(i) == !(records@[i].domain@
            == domain@ && records@[i].ip@ == ip@) by {}
        assert((kept.len() == records.len()) <==> forall|i: int|
            0 <= i < records.len() ==> !(records@[i].domain@ == domain@ && records@[i].ip@ == ip@)) by {
            if forall|i: int|
                0 <= i < records.len() ==> !(records@[i].domain@ == domain@ && records@[i].ip@ == ip@) {
                assert forall|i: int| 0 <= i < records.len() implies #[trigger] p(i) by {
                    assert(!(records@[i].domain@ == domain@ && records@[i].ip@ == ip@));
                }
            }
            if kept.len() == records.len() {
                assert forall|i: int| 0 <= i < records.len() implies !(records@[i].domain@ == domain@
                    && records@[i].ip@ == ip@) by {
                    assert(p(i));
                }
            }
        }
        assert forall|a: int| 0 <= a < kept.len() implies kept@[a] < records.len() && !(
        records@[kept@[a] as int].domain@ == domain@ && records@[kept@[a] as int].ip@ == ip@) by {
            assert(p(kept@[a] as int));
        }
        assert forall|i: int|
            0 <= i < records.len() && !(records@[i].domain@ == domain@ && records@[i].ip@ == ip@)
                implies kept@.contains(i as usize) by {
            assert(p(i));
        }
    }
    if kept.len() == records.len() {
        None
    } else {
        Some(kept)
    }
}

/// The port of the first record of `domain`, if any record has that domain.
pub open spec fn port_of(records: Seq<RecordMeta>, domain: Seq<char>) -> Option<u16>
    decreases records.len(),
{
    if records.len() == 0 {
        None
    } else if records[0].domain@ == domain {
        Some(records[0].port)
    } else {
        port_of(records.drop_first(), domain)
    }
}

/// The port of the first record of `domain`.
pub fn find_port(records: &Vec<RecordMeta>, domain: &String) -> (r: Option<u16>)
    ensures
        r == port_of(records@, domain@),
{
    let mut i: usize = 0;
    assert(records@.skip(0) =~= records@);
    while i < records.len()
        invariant
            i <= records.len(),
            port_of(records@, domain@) == port_of(records@.skip(i as int), domain@),
        decreases records.len() - i,
    {
        assert(records@.skip(i as int).drop_first() =~= records@.skip(i + 1));
        assert(records@.skip(i as int)[0] == records@[i as int]);
        if records[i].domain == *domain {
            return Some(records[i].port);
        }
        i = i + 1;
    }
    None
}


/// The records at the given indices, in that order.
pub open spec fn select(records: Seq<RecordMeta>, idx: Seq<int>) -> Seq<RecordMeta> {
    idx.map_values(|i: int| records[i])
}

/// A cleanup after a cleanup keeps every record, when its clock reads no
/// later than the first one's. The one exception is a second reading inside a
/// leap second that precedes the first reading's second: subtracting an hour
/// from a leap second lands at the start of the next second.
pub proof fn lemma_cleanup_idempotent(records: Seq<RecordMeta>, first: Stamp, second: Stamp)
    requires
        stamp_le(second, first),
        second.nanos < 1_000_000_000 || second.secs == first.secs,
        second.secs - 3600 * RETENTION_HOURS >= EARLIEST_TIMESTAMP,
        first.secs <= LATEST_TIMESTAMP,
    ensures
        ({
            let kept = select(records, recent_indices(records, first));
            recent_indices(kept, second).len() == kept.len()
        }),
{
    let c1 = hours_before(first, RETENTION_HOURS as int);
    let c2 = hours_before(second, RETENTION_HOURS as int);
    assert(stamp_le(c2, c1));
    let p = |i: int| stamp_le(c1, records[i].stamp);
    let idx = recent_indices(records, first);
    lemma_indices_where(records.len(), p);
    let kept = select(records, idx);
    let q = |i: int| stamp_le(c2, kept[i].stamp);
    lemma_indices_where(kept.len(), q);
    assert forall|i: int| 0 <= i < kept.len() implies #[trigger] q(i) by {
        assert(p(idx[i]));
    }
}

/// Removing an address a second time removes nothing more.
pub proof fn lemma_removal_idempotent(records: Seq<RecordMeta>, domain: Seq<char>, ip: Seq<char>)
    ensures
        ({
            let kept = select(records, fresh_indices(records, domain, ip));
            fresh_indices(kept, domain, ip).len() == kept.len()
        }),
{
    let p = other_address(records, domain, ip);
    let idx = fresh_indices(records, domain, ip);
    lemma_indices_where(records.len(), p);
    let kept = select(records, idx);
    let q = other_address(kept, domain, ip);
    lemma_indices_where(kept.len(), q);
    assert forall|i: int| 0 <= i < kept.len() implies #[trigger] q(i) by {
        assert(p(idx[i]));
    }
}


/// The domain and address of a record.
pub open spec fn pair_of(r: RecordMeta) -> (Seq<char>, Seq<char>) {
    (r.domain@, r.ip@)
}

/// The distinct `(domain, address)` pairs of the records, in order of first appearance.
pub open spec fn distinct_pairs(records: Seq<RecordMeta>) -> Seq<(Seq<char>, Seq<char>)>
    decreases records.len(),
{
    if records.len() == 0 {
        seq![]
    } else {
        let prev = distinct_pairs(records.drop_last());
        if prev.contains(pair_of(records.last())) {
            prev
        } else {
            prev.push(pair_of(records.last()))
        }
    }
}

/// The distinct domains of the records, in order of first appearance.
pub open spec fn distinct_domains(records: Seq<RecordMeta>) -> Seq<Seq<char>>
    decreases records.len(),
{
    if records.len() == 0 {
        seq![]
    } else {
        let prev = distinct_domains(records.drop_last());
        if prev.contains(records.last().domain@) {
            prev
        } else {
            prev.push(records.last().domain@)
        }
    }
}

/// Whether the record at an index has the given domain and address.
pub open spec fn has_pair(records: Seq<RecordMeta>, pair: (Seq<char>, Seq<char>)) -> spec_fn(
    int,
) -> bool {
    |i: int| pair_of(records[i]) == pair
}

/// Whether the pair at an index has the given domain.
pub open spec fn pair_in_domain(pairs: Seq<(Seq<char>, Seq<char>)>, domain: Seq<char>) -> spec_fn(
    int,
) -> bool {
    |c: int| pairs[c].0 == domain
}

/// The records of one address of one domain.
pub struct AddressGroup {
    pub domain: String,
    pub ip: String,
    /// Indices of the records, in increasing order.
    pub members: Vec<usize>,
}

/// One domain: the port its first record names, and its addresses.
pub struct DomainGroup {
    pub domain: String,
    pub port: u16,
    /// Indices into the address groups, in increasing order.
    pub candidates: Vec<usize>,
}

/// The records grouped by address, and the addresses grouped by domain.
pub struct Grouping {
    pub addresses: Vec<AddressGroup>,
    pub domains: Vec<DomainGroup>,
}

/// The address groups are those of `records`: one per distinct pair, in
/// order of first appearance, each with the indices of its records.
pub open spec fn addresses_match(addresses: Seq<AddressGroup>, records: Seq<RecordMeta>) -> bool {
    let dp = distinct_pairs(records);
    &&& addresses.len() == dp.len()
    &&& forall|k: int|
        0 <= k < dp.len() ==> (#[trigger] addresses[k]).domain@ == dp[k].0 && addresses[k].ip@
            == dp[k].1 && addresses[k].members@.map_values(|x: usize| x as int) == indices_where(
            records.len(),
            has_pair(records, dp[k]),
        )
}

/// The domain groups are those of `records`: one per distinct domain, in
/// order of first appearance, each with the port of its first record and
/// the indices of its address groups.
pub open spec fn domains_match(domains: Seq<DomainGroup>, records: Seq<RecordMeta>) -> bool {
    let dd = distinct_domains(records);
    let dp = distinct_pairs(records);
    &&& domains.len() == dd.len()
    &&& forall|d: int|
        0 <= d < dd.len() ==> (#[trigger] domains[d]).domain@ == dd[d] && port_of(records, dd[d])
            == Some(domains[d].port) && domains[d].candidates@.map_values(|x: usize| x as int)
            == indices_where(dp.len(), pair_in_domain(dp, dd[d]))
}

/// The domains listed hold no duplicate, and are exactly the domains of the records.
pub proof fn lemma_distinct_domains(records: Seq<RecordMeta>)
    ensures
        forall|a: int, b: int|
            0 <= a < b < distinct_domains(records).len() ==> #[trigger] distinct_domains(records)[a]
                != #[trigger] distinct_domains(records)[b],
        forall|a: int|
            0 <= a < distinct_domains(records).len() ==> exists|j: int|
                0 <= j < records.len() && (#[trigger] records[j]).domain@ == #[trigger] distinct_domains(
                    records,
                )[a],
        forall|j: int|
            0 <= j < records.len() ==> distinct_domains(records).contains((#[trigger] records[j]).domain@),
    decreases records.len(),
{
    if records.len() > 0 {
        let rest = records.drop_last();
        lemma_distinct_domains(rest);
        let prev = distinct_domains(rest);
        let cur = distinct_domains(records);
        assert forall|a: int| 0 <= a < cur.len() implies exists|j: int|
            0 <= j < records.len() && (#[trigger] records[j]).domain@ == #[trigger] cur[a] by {
            if a < prev.len() {
                let j = choose|j: int| 0 <= j < rest.len() && (#[trigger] rest[j]).domain@ == prev[a];
                assert(records[j] == rest[j]);
            } else {
                assert(records[records.len() - 1].domain@ == cur[a]);
            }
        }
        assert forall|j: int| 0 <= j < records.len() implies cur.contains((#[trigger] records[j]).domain@) by {
            if j < rest.len() {
                assert(rest[j] == records[j]);
                assert(prev.contains(rest[j].domain@));
                let k = choose|k: int| 0 <= k < prev.len() && prev[k] == rest[j].domain@;
                assert(cur[k] == prev[k]);
            } else if !prev.contains(records.last().domain@) {
                assert(cur[cur.len() - 1] == records.last().domain@);
            }
        }
    }
}

/// The pairs listed hold no duplicate, and are exactly the pairs of the records.
pub proof fn lemma_distinct_pairs(records: Seq<RecordMeta>)
    ensures
        forall|a: int, b: int|
            0 <= a < b < distinct_pairs(records).len() ==> #[trigger] distinct_pairs(records)[a]
                != #[trigger] distinct_pairs(records)[b],
        forall|a: int|
            0 <= a < distinct_pairs(records).len() ==> exists|j: int|
                0 <= j < records.len() && pair_of(#[trigger] records[j]) == #[trigger] distinct_pairs(
                    records,
                )[a],
        forall|j: int|
            0 <= j < records.len() ==> distinct_pairs(records).contains(pair_of(#[trigger] records[j])),
    decreases records.len(),
{
    if records.len() > 0 {
        let rest = records.drop_last();
        lemma_distinct_pairs(rest);
        let prev = distinct_pairs(rest);
        let cur = distinct_pairs(records);
        assert forall|a: int| 0 <= a < cur.len() implies exists|j: int|
            0 <= j < records.len() && pair_of(#[trigger] records[j]) == #[trigger] cur[a] by {
            if a < prev.len() {
                let j = choose|j: int| 0 <= j < rest.len() && pair_of(#[trigger] rest[j]) == prev[a];
                assert(records[j] == rest[j]);
            } else {
                assert(pair_of(records[records.len() - 1]) == cur[a]);
            }
        }
        assert forall|j: int| 0 <= j < records.len() implies cur.contains(pair_of(#[trigger] records[j])) by {
            if j < rest.len() {
                assert(rest[j] == records[j]);
                assert(prev.contains(pair_of(rest[j])));
                let k = choose|k: int| 0 <= k < prev.len() && prev[k] == pair_of(rest[j]);
                assert(cur[k] == prev[k]);
            } else if !prev.contains(pair_of(records.last())) {
                assert(cur[cur.len() - 1] == pair_of(records.last()));
            }
        }
    }
}


fn contains_pair(keys: &Vec<(String, String)>, domain: &String, ip: &String) -> (r: bool)
    ensures
        r == keys.deep_view().contains((domain@, ip@)),
{
    let mut i: usize = 0;
    while i < keys.len()
        invariant
            i <= keys.len(),
            forall|j: int| 0 <= j < i ==> keys.deep_view()[j] != (domain@, ip@),
        decreases keys.len() - i,
    {
        if keys[i].0 == *domain && keys[i].1 == *ip {
            assert(keys.deep_view()[i as int] == (domain@, ip@));
            return true;
        }
        i = i + 1;
    }
    false
}

fn contains_domain(domains: &Vec<String>, domain: &String) -> (r: bool)
    ensures
        r == domains.deep_view().contains(domain@),
{
    let mut i: usize = 0;
    while i < domains.len()
        invariant
            i <= domains.len(),
            forall|j: int| 0 <= j < i ==> domains.deep_view()[j] != domain@,
        decreases domains.len() - i,
    {
        if domains[i] == *domain {
            assert(domains.deep_view()[i as int] == domain@);
            return true;
        }
        i = i + 1;
    }
    false
}

fn members_of(records: &Vec<RecordMeta>, domain: &String, ip: &String) -> (r: Vec<usize>)
    ensures
        r@.map_values(|x: usize| x as int) == indices_where(
            records.len() as nat,
            has_pair(records@, (domain@, ip@)),
        ),
{
    let ghost p = has_pair(records@, (domain@, ip@));
    let mut kept: Vec<usize> = Vec::new();
    let mut i: usize = 0;
    while i < records.len()
        invariant
            i <= records.len(),
            p == has_pair(records@, (domain@, ip@)),
            kept@.map_values(|x: usize| x as int) == indices_where(i as nat, p),
        decreases records.len() - i,
    {
        let ghost before = kept@;
        if records[i].domain == *domain && records[i].ip == *ip {
            kept.push(i);
            assert(kept@.map_values(|x: usize| x as int) =~= before.map_values(|x: usize| x as int).push(
                i as int,
            ));
        }
        i = i + 1;
    }
    kept
}

fn candidates_of(keys: &Vec<(String, String)>, domain: &String) -> (r: Vec<usize>)
    ensures
        r@.map_values(|x: usize| x as int) == indices_where(
            keys.len() as nat,
            pair_in_domain(keys.deep_view(), domain@),
        ),
{
    let ghost p = pair_in_domain(keys.deep_view(), domain@);
    let mut kept: Vec<usize> = Vec::new();
    let mut i: usize = 0;
    while i < keys.len()
        invariant
            i <= keys.len(),
            p == pair_in_domain(keys.deep_view(), domain@),
            kept@.map_values(|x: usize| x as int) == indices_where(i as nat, p),
        decreases keys.len() - i,
    {
        let ghost before = kept@;
        if keys[i].0 == *domain {
            kept.push(i);
            assert(kept@.map_values(|x: usize| x as int) =~= before.map_values(|x: usize| x as int).push(
                i as int,
            ));
        }
        i = i + 1;
    }
    kept
}

proof fn lemma_port_of_some(records: Seq<RecordMeta>, j: int)
    requires
        0 <= j < records.len(),
    ensures
        port_of(records, records[j].domain@) is Some,
    decreases j,
{
    if j > 0 && records[0].domain@ != records[j].domain@ {
        lemma_port_of_some(records.drop_first(), j - 1);
        assert(records.drop_first()[j - 1] == records[j]);
    }
}

/// An address group lists a record exactly when the record has its domain
/// and address, and lists only records.
pub open spec fn members_exact(addresses: Seq<AddressGroup>, records: Seq<RecordMeta>) -> bool {
    &&& forall|k: int, j: int|
        0 <= k < addresses.len() && 0 <= j < records.len() ==> ((#[trigger] addresses[k]).members@.contains(
            j as usize,
        ) <==> (#[trigger] records[j]).domain@ == addresses[k].domain@ && records[j].ip@
            == addresses[k].ip@)
    &&& forall|k: int, a: int|
        0 <= k < addresses.len() && 0 <= a < (#[trigger] addresses[k]).members.len()
            ==> #[trigger] addresses[k].members@[a] < records.len()
}

/// Every record's domain and address has an address group.
pub open spec fn pairs_covered(addresses: Seq<AddressGroup>, records: Seq<RecordMeta>) -> bool {
    forall|j: int|
        0 <= j < records.len() ==> exists|k: int|
            0 <= k < addresses.len() && (#[trigger] addresses[k]).domain@ == (#[trigger] records[j]).domain@
                && addresses[k].ip@ == records[j].ip@
}

/// Every record's domain has a domain group.
pub open spec fn domains_covered(domains: Seq<DomainGroup>, records: Seq<RecordMeta>) -> bool {
    forall|j: int|
        0 <= j < records.len() ==> exists|d: int|
            0 <= d < domains.len() && (#[trigger] domains[d]).domain@ == (#[trigger] records[j]).domain@
}

/// A domain group lists an address group exactly when that group has its domain.
pub open spec fn candidates_exact(addresses: Seq<AddressGroup>, domains: Seq<DomainGroup>) -> bool {
    forall|d: int, k: int|
        0 <= d < domains.len() && 0 <= k < addresses.len() ==> ((#[trigger] domains[d]).candidates@.contains(
            k as usize,
        ) <==> (#[trigger] addresses[k]).domain@ == domains[d].domain@)
}

/// A domain group's port is that of the first record of its domain.
pub open spec fn ports_first(domains: Seq<DomainGroup>, records: Seq<RecordMeta>) -> bool {
    forall|d: int|
        0 <= d < domains.len() ==> exists|j: int|
            0 <= j < records.len() && (#[trigger] records[j]).domain@ == (#[trigger] domains[d]).domain@
                && records[j].port == domains[d].port && forall|i: int|
                0 <= i < j ==> records[i].domain@ != domains[d].domain@
}

/// What the groups are for, said of the records directly.
pub open spec fn groups_partition(
    addresses: Seq<AddressGroup>,
    domains: Seq<DomainGroup>,
    records: Seq<RecordMeta>,
) -> bool {
    &&& members_exact(addresses, records)
    &&& pairs_covered(addresses, records)
    &&& domains_covered(domains, records)
    &&& candidates_exact(addresses, domains)
    &&& ports_first(domains, records)
}

proof fn lemma_port_of_first(records: Seq<RecordMeta>, domain: Seq<char>, port: u16)
    requires
        port_of(records, domain) == Some(port),
    ensures
        exists|j: int|
            0 <= j < records.len() && (#[trigger] records[j]).domain@ == domain && records[j].port == port
                && forall|i: int| 0 <= i < j ==> records[i].domain@ != domain,
    decreases records.len(),
{
    if records[0].domain@ != domain {
        let rest = records.drop_first();
        lemma_port_of_first(rest, domain, port);
        let j = choose|j: int|
            0 <= j < rest.len() && (#[trigger] rest[j]).domain@ == domain && rest[j].port == port
                && forall|i: int| 0 <= i < j ==> rest[i].domain@ != domain;
        assert(records[j + 1] == rest[j]);
        assert forall|i: int| 0 <= i < j + 1 implies records[i].domain@ != domain by {
            if i > 0 {
                assert(records[i] == rest[i - 1]);
            }
        }
    } else {
        assert(records[0].domain@ == domain);
    }
}

proof fn lemma_members_exact(addresses: Seq<AddressGroup>, records: Seq<RecordMeta>)
    requires
        addresses_match(addresses, records),
        records.len() <= usize::MAX,
    ensures
        members_exact(addresses, records),
{
    let dp = distinct_pairs(records);
    assert forall|k: int, j: int|
        0 <= k < addresses.len() && 0 <= j < records.len() implies ((#[trigger] addresses[k]).members@.contains(
            j as usize,
        ) <==> (#[trigger] records[j]).domain@ == addresses[k].domain@ && records[j].ip@
            == addresses[k].ip@) by {
        let p = has_pair(records, dp[k]);
        lemma_index_vec(addresses[k].members@, records.len(), p);
        if addresses[k].members@.contains(j as usize) {
            let a = choose|a: int|
                0 <= a < addresses[k].members.len() && addresses[k].members@[a] == j as usize;
            assert(p(addresses[k].members@[a] as int));
        }
        if records[j].domain@ == addresses[k].domain@ && records[j].ip@ == addresses[k].ip@ {
            assert(p(j));
        }
    }
    assert forall|k: int, a: int|
        0 <= k < addresses.len() && 0 <= a < (#[trigger] addresses[k]).members.len()
            implies #[trigger] addresses[k].members@[a] < records.len() by {
        lemma_index_vec(addresses[k].members@, records.len(), has_pair(records, dp[k]));
    }
}

proof fn lemma_pairs_covered(addresses: Seq<AddressGroup>, records: Seq<RecordMeta>)
    requires
        addresses_match(addresses, records),
    ensures
        pairs_covered(addresses, records),
{
    let dp = distinct_pairs(records);
    lemma_distinct_pairs(records);
    assert forall|j: int| 0 <= j < records.len() implies exists|k: int|
        0 <= k < addresses.len() && (#[trigger] addresses[k]).domain@ == (#[trigger] records[j]).domain@
            && addresses[k].ip@ == records[j].ip@ by {
        assert(dp.contains(pair_of(records[j])));
        let k = choose|k: int| 0 <= k < dp.len() && dp[k] == pair_of(records[j]);
        assert(addresses[k].domain@ == dp[k].0);
    }
}

proof fn lemma_domains_covered(domains: Seq<DomainGroup>, records: Seq<RecordMeta>)
    requires
        domains_match(domains, records),
    ensures
        domains_covered(domains, records),
{
    let dd = distinct_domains(records);
    lemma_distinct_domains(records);
    assert forall|j: int| 0 <= j < records.len() implies exists|d: int|
        0 <= d < domains.len() && (#[trigger] domains[d]).domain@ == (#[trigger] records[j]).domain@ by {
        assert(dd.contains(records[j].domain@));
        let d = choose|d: int| 0 <= d < dd.len() && dd[d] == records[j].domain@;
        assert(domains[d].domain@ == dd[d]);
    }
}

proof fn lemma_candidates_exact(
    addresses: Seq<AddressGroup>,
    domains: Seq<DomainGroup>,
    records: Seq<RecordMeta>,
)
    requires
        addresses_match(addresses, records),
        domains_match(domains, records),
        records.len() <= usize::MAX,
    ensures
        candidates_exact(addresses, domains),
{
    let dp = distinct_pairs(records);
    let dd = distinct_domains(records);
    lemma_distinct_pairs_len(records);
    assert forall|d: int, k: int|
        0 <= d < domains.len() && 0 <= k < addresses.len() implies ((#[trigger] domains[d]).candidates@.contains(
            k as usize,
        ) <==> (#[trigger] addresses[k]).domain@ == domains[d].domain@) by {
        let p = pair_in_domain(dp, dd[d]);
        lemma_index_vec(domains[d].candidates@, dp.len(), p);
        if domains[d].candidates@.contains(k as usize) {
            let a = choose|a: int|
                0 <= a < domains[d].candidates.len() && domains[d].candidates@[a] == k as usize;
            assert(p(domains[d].candidates@[a] as int));
        }
        if addresses[k].domain@ == domains[d].domain@ {
            assert(p(k));
        }
    }
}

proof fn lemma_ports_first(domains: Seq<DomainGroup>, records: Seq<RecordMeta>)
    requires
        domains_match(domains, records),
    ensures
        ports_first(domains, records),
{
    let dd = distinct_domains(records);
    assert forall|d: int| 0 <= d < domains.len() implies exists|j: int|
        0 <= j < records.len() && (#[trigger] records[j]).domain@ == (#[trigger] domains[d]).domain@
            && records[j].port == domains[d].port && forall|i: int|
            0 <= i < j ==> records[i].domain@ != domains[d].domain@ by {
        lemma_port_of_first(records, dd[d], domains[d].port);
    }
}

/// Groups that match the records, by `addresses_match` and `domains_match`,
/// partition them as `groups_partition` says.
pub proof fn lemma_groups_partition(
    addresses: Seq<AddressGroup>,
    domains: Seq<DomainGroup>,
    records: Seq<RecordMeta>,
)
    requires
        addresses_match(addresses, records),
        domains_match(domains, records),
        records.len() <= usize::MAX,
    ensures
        groups_partition(addresses, domains, records),
{
    lemma_members_exact(addresses, records);
    lemma_pairs_covered(addresses, records);
    lemma_domains_covered(domains, records);
    lemma_candidates_exact(addresses, domains, records);
    lemma_ports_first(domains, records);
}

proof fn lemma_distinct_pairs_len(records: Seq<RecordMeta>)
    ensures
        distinct_pairs(records).len() <= records.len(),
    decreases records.len(),
{
    if records.len() > 0 {
        lemma_distinct_pairs_len(records.drop_last());
    }
}

/// Groups the records by address and the addresses by domain, each in
/// order of first appearance.
pub fn group_records(records: &Vec<RecordMeta>) -> (g: Grouping)
    ensures
        addresses_match(g.addresses@, records@),
        domains_match(g.domains@, records@),
        groups_partition(g.addresses@, g.domains@, records@),
{
    let mut keys: Vec<(String, String)> = Vec::new();
    let mut names: Vec<String> = Vec::new();
    let mut i: usize = 0;
    while i < records.len()
        invariant
            i <= records.len(),
            keys.deep_view() == distinct_pairs(records@.take(i as int)),
            names.deep_view() == distinct_domains(records@.take(i as int)),
        decreases records.len() - i,
    {
        let ghost t = records@.take(i + 1);
        assert(t.drop_last() =~= records@.take(i as int));
        assert(t.last() == records@[i as int]);
        let r = &records[i];
        if !contains_pair(&keys, &r.domain, &r.ip) {
            let ghost before = keys.deep_view();
            keys.push((r.domain.clone(), r.ip.clone()));
            assert(keys.deep_view() =~= before.push(pair_of(records@[i as int])));
        }
        if !contains_domain(&names, &r.domain) {
            let ghost before = names.deep_view();
            names.push(r.domain.clone());
            assert(names.deep_view() =~= before.push(records@[i as int].domain@));
        }
        i = i + 1;
    }
    assert(records@.take(records.len() as int) =~= records@);
    let ghost dp = distinct_pairs(records@);
    let ghost dd = distinct_domains(records@);
    let mut addresses: Vec<AddressGroup> = Vec::new();
    let mut k: usize = 0;
    while k < keys.len()
        invariant
            k <= keys.len(),
            keys.deep_view() == dp,
            dp == distinct_pairs(records@),
            addresses.len() == k,
            forall|a: int|
                0 <= a < k ==> (#[trigger] addresses@[a]).domain@ == dp[a].0 && addresses@[a].ip@
                    == dp[a].1 && addresses@[a].members@.map_values(|x: usize| x as int)
                    == indices_where(records.len() as nat, has_pair(records@, dp[a])),
        decreases keys.len() - k,
    {
        let members = members_of(records, &keys[k].0, &keys[k].1);
        addresses.push(
            AddressGroup { domain: keys[k].0.clone(), ip: keys[k].1.clone(), members },
        );
        k = k + 1;
    }
    proof {
        lemma_distinct_domains(records@);
    }
    let mut domains: Vec<DomainGroup> = Vec::new();
    let mut d: usize = 0;
    while d < names.len()
        invariant
            d <= names.len(),
            names.deep_view() == dd,
            keys.deep_view() == dp,
            dd == distinct_domains(records@),
            dp == distinct_pairs(records@),
            forall|a: int|
                0 <= a < dd.len() ==> exists|j: int|
                    0 <= j < records.len() && (#[trigger] records@[j]).domain@ == #[trigger] dd[a],
            domains.len() == d,
            forall|a: int|
                0 <= a < d ==> (#[trigger] domains@[a]).domain@ == dd[a] && port_of(records@, dd[a])
                    == Some(domains@[a].port) && domains@[a].candidates@.map_values(
                    |x: usize| x as int,
                ) == indices_where(dp.len(), pair_in_domain(dp, dd[a])),
        decreases names.len() - d,
    {
        proof {
            assert(0 <= d < dd.len());
            let j = choose|j: int| 0 <= j < records.len() && (#[trigger] records@[j]).domain@ == dd[d as int];
            lemma_port_of_some(records@, j);
        }
        let port = match find_port(records, &names[d]) {
            Some(p) => p,
            None => 0,
        };
        let candidates = candidates_of(&keys, &names[d]);
        domains.push(DomainGroup { domain: names[d].clone(), port, candidates });
        d = d + 1;
    }
    proof {
        lemma_groups_partition(addresses@, domains@, records@);
    }
    Grouping { addresses, domains }
}


/// Each record belongs to exactly one address group: the one of its own
/// domain and address.
pub proof fn lemma_each_record_in_one_group(records: Seq<RecordMeta>, j: int)
    requires
        0 <= j < records.len(),
    ensures
        exists|k: int|
            0 <= k < distinct_pairs(records).len() && #[trigger] distinct_pairs(records)[k] == pair_of(
                records[j],
            ) && indices_where(records.len(), has_pair(records, distinct_pairs(records)[k])).contains(
                j,
            ),
        forall|k: int|
            0 <= k < distinct_pairs(records).len() && indices_where(
                records.len(),
                has_pair(records, #[trigger] distinct_pairs(records)[k]),
            ).contains(j) ==> distinct_pairs(records)[k] == pair_of(records[j]),
{
    let dp = distinct_pairs(records);
    lemma_distinct_pairs(records);
    assert(dp.contains(pair_of(records[j])));
    let k = choose|k: int| 0 <= k < dp.len() && dp[k] == pair_of(records[j]);
    lemma_indices_where(records.len(), has_pair(records, dp[k]));
    assert(has_pair(records, dp[k])(j));
    assert forall|k2: int|
        0 <= k2 < dp.len() && indices_where(records.len(), has_pair(records, #[trigger] dp[k2])).contains(
            j,
        ) implies dp[k2] == pair_of(records[j]) by {
        let idx = indices_where(records.len(), has_pair(records, dp[k2]));
        lemma_indices_where(records.len(), has_pair(records, dp[k2]));
        let a = choose|a: int| 0 <= a < idx.len() && idx[a] == j;
        assert(has_pair(records, dp[k2])(idx[a]));
    }
}


/// The records that a cleanup now keeps, by index, or `None` when it keeps
/// them all; "now" is read from the system clock. A clock that reads before
/// the Unix epoch, or past the last representable date, is an error.
pub fn cleanup_now(records: &Vec<RecordMeta>) -> (r: Result<Option<Vec<usize>>, ClockError>)
    ensures
        r matches Ok(kept) ==> exists|now: Stamp|
            #![trigger recent_indices(records@, now)]
            0 <= now.secs <= LATEST_TIMESTAMP && now.nanos < 1_000_000_000 && (kept is None <==> recent_indices(
                records@,
                now,
            ).len() == records.len()) && (kept matches Some(v) ==> v@.map_values(|x: usize| x as int)
                == recent_indices(records@, now)) && (kept is None <==> forall|i: int|
                0 <= i < records.len() ==> is_within_hour(records@[i].stamp, now)) && (kept matches Some(
                v,
            ) ==> (forall|a: int, b: int| 0 <= a < b < v.len() ==> v[a] < v[b]) && (forall|a: int|
                0 <= a < v.len() ==> v[a] < records.len() && is_within_hour(
                    records@[v[a] as int].stamp,
                    now,
                )) && (forall|i: int|
                0 <= i < records.len() && is_within_hour(records@[i].stamp, now) ==> v@.contains(
                    i as usize,
                ))),
{
    match utc_now() {
        Err(e) => Err(e),
        Ok(now) => {
            let kept = retained_records(records, now);
            assert(recent_indices(records@, now) == recent_indices(records@, now));
            Ok(kept)
        },
    }
}

/// Whether a record is of another domain or address than the given pair.
pub open spec fn is_other_address(domain: Seq<char>, ip: Seq<char>) -> spec_fn(RecordMeta) -> bool {
    |r: RecordMeta| !(r.domain@ == domain && r.ip@ == ip)
}

proof fn lemma_select_fresh_is_filter(records: Seq<RecordMeta>, domain: Seq<char>, ip: Seq<char>, n: nat)
    requires
        n <= records.len(),
    ensures
        select(records, indices_where(n, other_address(records, domain, ip))) == records.take(
            n as int,
        ).filter(is_other_address(domain, ip)),
    decreases n,
{
    let p = other_address(records, domain, ip);
    if n == 0 {
        reveal(Seq::filter);
        assert(records.take(0) =~= Seq::<RecordMeta>::empty());
        assert(select(records, indices_where(0, p)) =~= Seq::<RecordMeta>::empty());
    } else {
        lemma_select_fresh_is_filter(records, domain, ip, (n - 1) as nat);
        let t = records.take(n as int);
        assert(t.drop_last() =~= records.take(n - 1));
        assert(t.last() == records[n - 1]);
        let prev = indices_where((n - 1) as nat, p);
        let f = is_other_address(domain, ip);
        reveal(Seq::filter);
        assert(p(n - 1) == f(t.last()));
        if p(n - 1) {
            assert(indices_where(n, p) == prev.push(n - 1));
            assert(select(records, prev.push(n - 1)) =~= select(records, prev).push(records[n - 1]));
            assert(t.filter(f) == t.drop_last().filter(f).push(t.last()));
        } else {
            assert(indices_where(n, p) == prev);
            assert(t.filter(f) == t.drop_last().filter(f));
        }
    }
}

proof fn lemma_filter_commute<A>(s: Seq<A>, f: spec_fn(A) -> bool, g: spec_fn(A) -> bool)
    ensures
        s.filter(f).filter(g) == s.filter(g).filter(f),
    decreases s.len(),
{
    reveal(Seq::filter);
    if s.len() > 0 {
        lemma_filter_commute(s.drop_last(), f, g);
        let x = s.last();
        let a = s.drop_last().filter(f);
        let b = s.drop_last().filter(g);
        if f(x) {
            assert(s.filter(f) == a.push(x));
            assert(a.push(x).drop_last() =~= a);
            assert(a.push(x).last() == x);
            if g(x) {
                assert(a.push(x).filter(g) == a.filter(g).push(x));
            } else {
                assert(a.push(x).filter(g) == a.filter(g));
            }
        } else {
            assert(s.filter(f) == a);
        }
        if g(x) {
            assert(s.filter(g) == b.push(x));
            assert(b.push(x).drop_last() =~= b);
            assert(b.push(x).last() == x);
            if f(x) {
                assert(b.push(x).filter(f) == b.filter(f).push(x));
            } else {
                assert(b.push(x).filter(f) == b.filter(f));
            }
        } else {
            assert(s.filter(g) == b);
        }
    }
}

/// Removing one address and then another leaves the same history as
/// removing them in the other order.
pub proof fn lemma_removals_commute(
    records: Seq<RecordMeta>,
    d1: Seq<char>,
    ip1: Seq<char>,
    d2: Seq<char>,
    ip2: Seq<char>,
)
    ensures
        ({
            let r1 = select(records, fresh_indices(records, d1, ip1));
            select(r1, fresh_indices(r1, d2, ip2))
        }) == ({
            let r2 = select(records, fresh_indices(records, d2, ip2));
            select(r2, fresh_indices(r2, d1, ip1))
        }),
{
    let n = records.len();
    assert(records.take(n as int) =~= records);
    lemma_select_fresh_is_filter(records, d1, ip1, n);
    lemma_select_fresh_is_filter(records, d2, ip2, n);
    let r1 = select(records, fresh_indices(records, d1, ip1));
    let r2 = select(records, fresh_indices(records, d2, ip2));
    assert(r1.take(r1.len() as int) =~= r1);
    assert(r2.take(r2.len() as int) =~= r2);
    lemma_select_fresh_is_filter(r1, d2, ip2, r1.len());
    lemma_select_fresh_is_filter(r2, d1, ip1, r2.len());
    lemma_filter_commute(records, is_other_address(d1, ip1), is_other_address(d2, ip2));
}

/// Removing a pair keeps a record exactly when its domain or its address
/// differs from the pair, whatever its other fields hold.
pub proof fn lemma_fresh_indices_exact(records: Seq<RecordMeta>, domain: Seq<char>, ip: Seq<char>)
    ensures
        forall|i: int|
            #[trigger] fresh_indices(records, domain, ip).contains(i) <==> 0 <= i < records.len() && !(
            records[i].domain@ == domain && records[i].ip@ == ip),
{
    let p = other_address(records, domain, ip);
    lemma_indices_where(records.len(), p);
    let idx = fresh_indices(records, domain, ip);
    assert forall|i: int| #[trigger] idx.contains(i) <==> 0 <= i < records.len() && !(records[i].domain@
        == domain && records[i].ip@ == ip) by {
        if idx.contains(i) {
            let k = choose|k: int| 0 <= k < idx.len() && idx[k] == i;
            assert(p(idx[k]));
        }
        if 0 <= i < records.len() && !(records[i].domain@ == domain && records[i].ip@ == ip) {
            assert(p(i));
        }
    }
}

/// A cleanup at an instant outside a leap second keeps a record exactly
/// when it is stamped no more than one hour before that instant.
pub proof fn lemma_recent_indices_exact(records: Seq<RecordMeta>, now: Stamp)
    requires
        now.nanos < 1_000_000_000,
        now.secs - 3600 >= i64::MIN,
    ensures
        forall|i: int|
            #[trigger] recent_indices(records, now).contains(i) <==> 0 <= i < records.len() && (
            records[i].stamp.secs > now.secs - 3600 || (records[i].stamp.secs == now.secs - 3600
                && records[i].stamp.nanos >= now.nanos)),
{
    let p = |i: int| stamp_le(hours_before(now, RETENTION_HOURS as int), records[i].stamp);
    lemma_indices_where(records.len(), p);
    let idx = recent_indices(records, now);
    assert forall|i: int| #[trigger] idx.contains(i) <==> 0 <= i < records.len() && (
    records[i].stamp.secs > now.secs - 3600 || (records[i].stamp.secs == now.secs - 3600
        && records[i].stamp.nanos >= now.nanos)) by {
        if idx.contains(i) {
            let k = choose|k: int| 0 <= k < idx.len() && idx[k] == i;
            assert(p(idx[k]));
        }
        if 0 <= i < records.len() && (records[i].stamp.secs > now.secs - 3600 || (
        records[i].stamp.secs == now.secs - 3600 && records[i].stamp.nanos >= now.nanos)) {
            assert(p(i));
        }
    }
}

} // verus!
