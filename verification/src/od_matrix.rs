//! Origin-Destination matrix for zone-to-zone trip volumes.
use std::collections::HashMap;
use vstd::prelude::*;

verus! {

broadcast use vstd::std_specs::hash::group_hash_axioms;

/// Traffic analysis zones.
///
/// The `BenThanh..Waterfront` variants are sub-zones within District 1 for
/// the POC. The `District1..BinhThanh` variants represent full-district zones
/// for the 5-district HCMC simulation.
#[derive(Debug, Clone, Copy, PartialEq, Eq, Hash, Structural)]
pub enum Zone {
    // District 1 sub-zones (POC).
    BenThanh,
    NguyenHue,
    Bitexco,
    BuiVien,
    Waterfront,
    // 5-district zones.
    District1,
    District3,
    District5,
    District10,
    BinhThanh,
}

/// Named zone descriptor used with time-of-day profiles.
#[derive(Debug, Clone)]
pub struct NamedZone {
    /// Zone enum variant.
    pub zone: Zone,
    /// Human-readable name.
    pub name: String,
}

/// Position of a zone in declaration order, `0..10`.
pub open spec fn zone_index(z: Zone) -> int {
    match z {
        Zone::BenThanh => 0,
        Zone::NguyenHue => 1,
        Zone::Bitexco => 2,
        Zone::BuiVien => 3,
        Zone::Waterfront => 4,
        Zone::District1 => 5,
        Zone::District3 => 6,
        Zone::District5 => 7,
        Zone::District10 => 8,
        Zone::BinhThanh => 9,
    }
}

/// The zone at position `i` in declaration order (the last one past the end).
pub open spec fn zone_at(i: int) -> Zone {
    if i <= 0 {
        Zone::BenThanh
    } else if i == 1 {
        Zone::NguyenHue
    } else if i == 2 {
        Zone::Bitexco
    } else if i == 3 {
        Zone::BuiVien
    } else if i == 4 {
        Zone::Waterfront
    } else if i == 5 {
        Zone::District1
    } else if i == 6 {
        Zone::District3
    } else if i == 7 {
        Zone::District5
    } else if i == 8 {
        Zone::District10
    } else {
        Zone::BinhThanh
    }
}

/// Number of an ordered zone pair in `0..100`, origin-major.
pub open spec fn pair_code(from: Zone, to: Zone) -> int {
    zone_index(from) * 10 + zone_index(to)
}

/// The ordered zone pair with number `c`.
pub open spec fn code_pair(c: int) -> (Zone, Zone) {
    (zone_at(c / 10), zone_at(c % 10))
}

proof fn lemma_code_roundtrip(from: Zone, to: Zone)
    ensures
        0 <= pair_code(from, to) < 100,
        code_pair(pair_code(from, to)) == (from, to),
{
}

/// Trips per hour configured for pair `p` in matrix view `m` (0 if absent).
pub open spec fn count_of(m: Map<(Zone, Zone), u32>, p: (Zone, Zone)) -> nat {
    if m.contains_key(p) {
        m[p] as nat
    } else {
        0
    }
}

/// Matrix view `m` after setting the count of pair `(from, to)`: a count
/// of 0 removes the pair.
pub open spec fn with_trips(m: Map<(Zone, Zone), u32>, from: Zone, to: Zone, count: u32) -> Map<(Zone, Zone), u32> {
    if count == 0 {
        m.remove((from, to))
    } else {
        m.insert((from, to), count)
    }
}

/// Trips per hour summed over the pairs numbered below `n`.
pub open spec fn total_upto(m: Map<(Zone, Zone), u32>, n: nat) -> nat
    decreases n,
{
    if n == 0 {
        0
    } else {
        total_upto(m, (n - 1) as nat) + count_of(m, code_pair(n - 1))
    }
}

/// Trips per hour summed over all zone pairs.
pub open spec fn total(m: Map<(Zone, Zone), u32>) -> nat {
    total_upto(m, 100)
}

/// The configured pairs numbered below `n` with their counts, in pair
/// number order.
pub open spec fn listed_upto(m: Map<(Zone, Zone), u32>, n: nat) -> Seq<(Zone, Zone, u32)>
    decreases n,
{
    if n == 0 {
        Seq::empty()
    } else {
        let rest = listed_upto(m, (n - 1) as nat);
        let p = code_pair(n - 1);
        if m.contains_key(p) {
            rest.push((p.0, p.1, m[p]))
        } else {
            rest
        }
    }
}

proof fn lemma_listed_contains(m: Map<(Zone, Zone), u32>, n: nat)
    requires
        n <= 100,
    ensures
        forall|from: Zone, to: Zone, c: u32| #[trigger] listed_upto(m, n).contains((from, to, c)) <==> (pair_code(from, to)
            < n && m.contains_key((from, to)) && m[(from, to)] == c),
        listed_upto(m, n).len() <= n,
    decreases n,
{
    if n > 0 {
        lemma_listed_contains(m, (n - 1) as nat);
        let rest = listed_upto(m, (n - 1) as nat);
        let p = code_pair(n - 1);
        assert forall|from: Zone, to: Zone, c: u32| #[trigger] listed_upto(m, n).contains((from, to, c)) <==> (pair_code(
            from,
            to,
        ) < n && m.contains_key((from, to)) && m[(from, to)] == c) by {
            lemma_code_roundtrip(from, to);
            if listed_upto(m, n).contains((from, to, c)) {
                let k = choose|k: int| 0 <= k < listed_upto(m, n).len() && listed_upto(m, n)[k] == (from, to, c);
                if k < rest.len() {
                    assert(rest[k] == (from, to, c));
                    assert(rest.contains((from, to, c)));
                }
            }
            if pair_code(from, to) < n && m.contains_key((from, to)) && m[(from, to)] == c {
                if pair_code(from, to) < n - 1 {
                    assert(rest.contains((from, to, c)));
                    let k = choose|k: int| 0 <= k < rest.len() && rest[k] == (from, to, c);
                    assert(listed_upto(m, n)[k] == (from, to, c));
                } else {
                    assert(p == (from, to));
                    assert(listed_upto(m, n)[rest.len() as int] == (from, to, c));
                }
            }
        }
    }
}

proof fn lemma_total_monotone(m: Map<(Zone, Zone), u32>, n: nat, k: nat)
    requires
        n <= k,
    ensures
        total_upto(m, n) <= total_upto(m, k),
    decreases k,
{
    if n < k {
        lemma_total_monotone(m, n, (k - 1) as nat);
    }
}

/// Origin-Destination matrix storing zone-to-zone trip counts (trips per hour).
///
/// Viewed as the map from each configured zone pair to its count; a pair
/// with no trips is not in the map.
#[derive(Debug)]
pub struct OdMatrix {
    /// Trips per hour keyed by pair number; only non-zero counts are kept.
    trips: HashMap<u32, u32>,
}

impl View for OdMatrix {
    type V = Map<(Zone, Zone), u32>;

    closed spec fn view(&self) -> Map<(Zone, Zone), u32> {
        Map::new(
            |p: (Zone, Zone)| self.trips@.contains_key(pair_code(p.0, p.1) as u32),
            |p: (Zone, Zone)| self.trips@[pair_code(p.0, p.1) as u32],
        )
    }
}

/// Number of a zone in declaration order.
fn zone_number(z: Zone) -> (r: u32)
    ensures
        r == zone_index(z),
{
    match z {
        Zone::BenThanh => 0,
        Zone::NguyenHue => 1,
        Zone::Bitexco => 2,
        Zone::BuiVien => 3,
        Zone::Waterfront => 4,
        Zone::District1 => 5,
        Zone::District3 => 6,
        Zone::District5 => 7,
        Zone::District10 => 8,
        Zone::BinhThanh => 9,
    }
}

/// The zone with number `i` in declaration order.
fn zone_numbered(i: u32) -> (r: Zone)
    requires
        i < 10,
    ensures
        r == zone_at(i as int),
{
    if i == 0 {
        Zone::BenThanh
    } else if i == 1 {
        Zone::NguyenHue
    } else if i == 2 {
        Zone::Bitexco
    } else if i == 3 {
        Zone::BuiVien
    } else if i == 4 {
        Zone::Waterfront
    } else if i == 5 {
        Zone::District1
    } else if i == 6 {
        Zone::District3
    } else if i == 7 {
        Zone::District5
    } else if i == 8 {
        Zone::District10
    } else {
        Zone::BinhThanh
    }
}

/// Number of an ordered zone pair.
fn pair_number(from: Zone, to: Zone) -> (r: u32)
    ensures
        r == pair_code(from, to),
        r < 100,
{
    zone_number(from) * 10 + zone_number(to)
}

impl OdMatrix {
    /// Keys are pair numbers and every stored count is non-zero.
    #[verifier::type_invariant]
    spec fn wf(self) -> bool {
        forall|c: u32| #[trigger] self.trips@.contains_key(c) ==> c < 100 && self.trips@[c] > 0
    }

    /// Create an empty OD matrix.
    pub fn new() -> (r: Self)
        ensures
            r@ == Map::<(Zone, Zone), u32>::empty(),
    {
        let r = OdMatrix { trips: HashMap::new() };
        assert(r@ =~= Map::<(Zone, Zone), u32>::empty());
        r
    }

    /// Set trips per hour for a zone pair; a count of 0 removes the pair.
    pub fn set_trips(&mut self, from: Zone, to: Zone, count: u32)
        ensures
            final(self)@ == with_trips(old(self)@, from, to, count),
    {
        proof {
            use_type_invariant(&*self);
            lemma_code_roundtrip(from, to);
        }
        let key = pair_number(from, to);
        let ghost before = self.trips@;
        let mut trips: HashMap<u32, u32> = HashMap::new();
        std::mem::swap(&mut trips, &mut self.trips);
        if count == 0 {
            trips.remove(&key);
        } else {
            trips.insert(key, count);
        }
        self.trips = trips;
        proof {
            let target = if count == 0 {
                old(self)@.remove((from, to))
            } else {
                old(self)@.insert((from, to), count)
            };
            assert forall|p: (Zone, Zone)| #[trigger] self@.contains_key(p) <==> target.contains_key(p) by {
                lemma_code_roundtrip(p.0, p.1);
            }
            assert forall|p: (Zone, Zone)| #[trigger] self@.contains_key(p) implies self@[p] == target[p] by {
                lemma_code_roundtrip(p.0, p.1);
            }
            assert(self@ =~= target);
        }
    }

    /// Trips per hour for a zone pair; 0 exactly when the pair is not configured.
    pub fn get_trips(&self, from: Zone, to: Zone) -> (r: u32)
        ensures
            r == count_of(self@, (from, to)),
            r == 0 <==> !self@.contains_key((from, to)),
    {
        proof {
            use_type_invariant(self);
        }
        let key = pair_number(from, to);
        match self.trips.get(&key) {
            Some(c) => *c,
            None => 0,
        }
    }

    /// Sum of all trips across all zone pairs.
    pub fn total_trips(&self) -> (r: u32)
        requires
            total(self@) <= u32::MAX,
        ensures
            r == total(self@),
    {
        let mut sum: u32 = 0;
        let mut c: u32 = 0;
        while c < 100
            invariant
                c <= 100,
                sum == total_upto(self@, c as nat),
                total(self@) <= u32::MAX,
            decreases 100 - c,
        {
            let from = zone_numbered(c / 10);
            let to = zone_numbered(c % 10);
            proof {
                lemma_code_roundtrip(from, to);
                assert(pair_code(from, to) == c);
                lemma_total_monotone(self@, (c + 1) as nat, 100);
            }
            let n = self.get_trips(from, to);
            sum = sum + n;
            c = c + 1;
        }
        sum
    }

    /// All configured zone pairs with their counts, `(from, to, count)`,
    /// each once, in pair number order (origin-major, declaration order).
    pub fn zone_pairs(&self) -> (r: Vec<(Zone, Zone, u32)>)
        ensures
            r@ == listed_upto(self@, 100),
            forall|from: Zone, to: Zone, c: u32| #[trigger] r@.contains((from, to, c)) <==> (self@.contains_key(
                (from, to),
            ) && self@[(from, to)] == c),
    {
        let mut r: Vec<(Zone, Zone, u32)> = Vec::new();
        let mut c: u32 = 0;
        while c < 100
            invariant
                c <= 100,
                r@ == listed_upto(self@, c as nat),
            decreases 100 - c,
        {
            let from = zone_numbered(c / 10);
            let to = zone_numbered(c % 10);
            proof {
                lemma_code_roundtrip(from, to);
                assert(code_pair(c as int) == (from, to));
            }
            let n = self.get_trips(from, to);
            if n != 0 {
                r.push((from, to, n));
            }
            c = c + 1;
        }
        proof {
            lemma_listed_contains(self@, 100);
            assert forall|from: Zone, to: Zone, c: u32| #[trigger] r@.contains((from, to, c)) <==> (self@.contains_key(
                (from, to),
            ) && self@[(from, to)] == c) by {
                lemma_code_roundtrip(from, to);
            }
        }
        r
    }

    /// Set the counts of the given entries in order.
    fn set_all(&mut self, entries: &[(Zone, Zone, u32)])
        ensures
            final(self)@ == applied(old(self)@, entries@),
    {
        let mut i: usize = 0;
        while i < entries.len()
            invariant
                i <= entries@.len(),
                self@ == applied(old(self)@, entries@.take(i as int)),
            decreases entries@.len() - i,
        {
            let (from, to, count) = entries[i];
            proof {
                assert(entries@.take(i + 1).drop_last() =~= entries@.take(i as int));
                assert(entries@.take(i + 1).last() == (from, to, count));
            }
            self.set_trips(from, to, count);
            i = i + 1;
        }
        proof {
            assert(entries@.take(i as int) =~= entries@);
        }
    }

    /// Factory: District 1 POC OD matrix with 5 sub-zones and realistic trip
    /// volumes, 560 trips/hour in all.
    pub fn district1_poc() -> (r: Self)
        ensures
            r@ == build(district1_poc_entries()),
            total(r@) == 560,
    {
        let mut od = Self::new();
        let entries: Vec<(Zone, Zone, u32)> = vec![
            (Zone::BenThanh, Zone::NguyenHue, 80),
            (Zone::NguyenHue, Zone::BenThanh, 75),
            (Zone::BenThanh, Zone::Bitexco, 70),
            (Zone::Bitexco, Zone::BenThanh, 65),
            (Zone::BuiVien, Zone::BenThanh, 55),
            (Zone::BenThanh, Zone::BuiVien, 50),
            (Zone::BuiVien, Zone::Waterfront, 60),
            (Zone::Waterfront, Zone::BuiVien, 55),
            (Zone::NguyenHue, Zone::Waterfront, 50),
        ];
        proof {
            assert(entries@ =~= district1_poc_entries());
        }
        od.set_all(entries.as_slice());
        proof {
            let e = district1_poc_entries();
            assert(pairs_distinct(e));
            lemma_total_build(e);
            reveal_with_fuel(sum_counts, 10);
            assert(sum_counts(e) == 560);
        }
        od
    }

    /// Factory: 5-district HCMC OD matrix with inter-district flows at AM
    /// peak: 25 zone pairs (5x5 including intra-zone), 140,000 trips/hour
    /// in all. District 1 (CBD) attracts the most commuters, adjacent
    /// districts have higher cross-flows, and intra-zone trips represent
    /// local circulation. Scale by a time-of-day factor for other hours.
    pub fn hcmc_5district() -> (r: Self)
        ensures
            r@ == build(hcmc_5district_entries()),
            total(r@) == 140_000,
    {
        let mut od = Self::new();
        let entries: Vec<(Zone, Zone, u32)> = vec![
            // Intra-zone trips (local circulation).
            (Zone::District1, Zone::District1, 8_000),
            (Zone::District3, Zone::District3, 6_000),
            (Zone::District5, Zone::District5, 5_000),
            (Zone::District10, Zone::District10, 7_000),
            (Zone::BinhThanh, Zone::BinhThanh, 6_500),
            // District 1 inbound commuter flows.
            (Zone::District3, Zone::District1, 12_000),
            (Zone::District5, Zone::District1, 8_000),
            (Zone::District10, Zone::District1, 10_000),
            (Zone::BinhThanh, Zone::District1, 11_000),
            // District 1 outbound (return flows, slightly lower).
            (Zone::District1, Zone::District3, 10_000),
            (Zone::District1, Zone::District5, 7_000),
            (Zone::District1, Zone::District10, 8_500),
            (Zone::District1, Zone::BinhThanh, 9_500),
            // Adjacent district cross-flows.
            (Zone::District3, Zone::District10, 4_500),
            (Zone::District10, Zone::District3, 4_000),
            (Zone::District3, Zone::BinhThanh, 3_500),
            (Zone::BinhThanh, Zone::District3, 3_000),
            (Zone::District5, Zone::District10, 3_000),
            (Zone::District10, Zone::District5, 2_500),
            // Distant cross-flows (weaker).
            (Zone::District5, Zone::District3, 2_000),
            (Zone::District3, Zone::District5, 1_800),
            (Zone::District5, Zone::BinhThanh, 1_500),
            (Zone::BinhThanh, Zone::District5, 1_200),
            (Zone::District10, Zone::BinhThanh, 2_500),
            (Zone::BinhThanh, Zone::District10, 2_000),
        ];
        proof {
            assert(entries@ =~= hcmc_5district_entries());
        }
        od.set_all(entries.as_slice());
        proof {
            let e = hcmc_5district_entries();
            assert(pairs_distinct(e));
            lemma_total_build(e);
            reveal_with_fuel(sum_counts, 26);
            assert(sum_counts(e) == 140_000);
        }
        od
    }
}


/// Matrix view `m` after setting the given `(from, to, count)` entries in
/// order.
pub open spec fn applied(m: Map<(Zone, Zone), u32>, entries: Seq<(Zone, Zone, u32)>) -> Map<(Zone, Zone), u32>
    decreases entries.len(),
{
    if entries.len() == 0 {
        m
    } else {
        let e = entries.last();
        with_trips(applied(m, entries.drop_last()), e.0, e.1, e.2)
    }
}

/// The matrix view made by setting the given entries in order on an empty
/// matrix.
pub open spec fn build(entries: Seq<(Zone, Zone, u32)>) -> Map<(Zone, Zone), u32> {
    applied(Map::empty(), entries)
}

/// Sum of the counts of the given entries.
pub open spec fn sum_counts(entries: Seq<(Zone, Zone, u32)>) -> nat
    decreases entries.len(),
{
    if entries.len() == 0 {
        0
    } else {
        sum_counts(entries.drop_last()) + entries.last().2 as nat
    }
}

/// No zone pair occurs twice among the entries.
pub open spec fn pairs_distinct(entries: Seq<(Zone, Zone, u32)>) -> bool {
    forall|i: int, j: int|
        0 <= i < j < entries.len() ==> ((#[trigger] entries[i]).0, entries[i].1) != ((#[trigger] entries[j]).0,
            entries[j].1)
}

/// The District 1 POC trip volumes, trips per hour, in the order they are set.
pub open spec fn district1_poc_entries() -> Seq<(Zone, Zone, u32)> {
    seq![
        (Zone::BenThanh, Zone::NguyenHue, 80u32),
        (Zone::NguyenHue, Zone::BenThanh, 75u32),
        (Zone::BenThanh, Zone::Bitexco, 70u32),
        (Zone::Bitexco, Zone::BenThanh, 65u32),
        (Zone::BuiVien, Zone::BenThanh, 55u32),
        (Zone::BenThanh, Zone::BuiVien, 50u32),
        (Zone::BuiVien, Zone::Waterfront, 60u32),
        (Zone::Waterfront, Zone::BuiVien, 55u32),
        (Zone::NguyenHue, Zone::Waterfront, 50u32),
    ]
}

/// The 5-district HCMC AM-peak trip volumes, trips per hour, in the order
/// they are set: all 25 pairs of the five district zones, intra-zone pairs
/// included.
pub open spec fn hcmc_5district_entries() -> Seq<(Zone, Zone, u32)> {
    seq![
        (Zone::District1, Zone::District1, 8_000u32),
        (Zone::District3, Zone::District3, 6_000u32),
        (Zone::District5, Zone::District5, 5_000u32),
        (Zone::District10, Zone::District10, 7_000u32),
        (Zone::BinhThanh, Zone::BinhThanh, 6_500u32),
        (Zone::District3, Zone::District1, 12_000u32),
        (Zone::District5, Zone::District1, 8_000u32),
        (Zone::District10, Zone::District1, 10_000u32),
        (Zone::BinhThanh, Zone::District1, 11_000u32),
        (Zone::District1, Zone::District3, 10_000u32),
        (Zone::District1, Zone::District5, 7_000u32),
        (Zone::District1, Zone::District10, 8_500u32),
        (Zone::District1, Zone::BinhThanh, 9_500u32),
        (Zone::District3, Zone::District10, 4_500u32),
        (Zone::District10, Zone::District3, 4_000u32),
        (Zone::District3, Zone::BinhThanh, 3_500u32),
        (Zone::BinhThanh, Zone::District3, 3_000u32),
        (Zone::District5, Zone::District10, 3_000u32),
        (Zone::District10, Zone::District5, 2_500u32),
        (Zone::District5, Zone::District3, 2_000u32),
        (Zone::District3, Zone::District5, 1_800u32),
        (Zone::District5, Zone::BinhThanh, 1_500u32),
        (Zone::BinhThanh, Zone::District5, 1_200u32),
        (Zone::District10, Zone::BinhThanh, 2_500u32),
        (Zone::BinhThanh, Zone::District10, 2_000u32),
    ]
}

proof fn lemma_code_inverse(c: int)
    requires
        0 <= c < 100,
    ensures
        pair_code(code_pair(c).0, code_pair(c).1) == c,
{
}

proof fn lemma_total_upto_update(m: Map<(Zone, Zone), u32>, m2: Map<(Zone, Zone), u32>, p: (Zone, Zone), n: nat)
    requires
        n <= 100,
        forall|q: (Zone, Zone)| q != p ==> #[trigger] count_of(m2, q) == count_of(m, q),
    ensures
        total_upto(m2, n) == total_upto(m, n) + if pair_code(p.0, p.1) < n {
            count_of(m2, p) - count_of(m, p)
        } else {
            0
        },
    decreases n,
{
    if n > 0 {
        lemma_total_upto_update(m, m2, p, (n - 1) as nat);
        let q = code_pair(n - 1);
        lemma_code_inverse(n - 1);
        lemma_code_roundtrip(p.0, p.1);
        if q != p {
            assert(count_of(m2, q) == count_of(m, q));
        }
    }
}

proof fn lemma_total_upto_empty(n: nat)
    ensures
        total_upto(Map::<(Zone, Zone), u32>::empty(), n) == 0,
    decreases n,
{
    if n > 0 {
        lemma_total_upto_empty((n - 1) as nat);
    }
}

/// Law: setting a pair's count changes the total by the difference between
/// the new count and the pair's old count.
pub proof fn lemma_total_after_set(m: Map<(Zone, Zone), u32>, from: Zone, to: Zone, count: u32)
    ensures
        total(with_trips(m, from, to, count)) == total(m) - count_of(m, (from, to)) + count,
        count_of(with_trips(m, from, to, count), (from, to)) == count,
        forall|p: (Zone, Zone)| p != (from, to) ==> #[trigger] count_of(with_trips(m, from, to, count), p) == count_of(m, p),
{
    lemma_code_roundtrip(from, to);
    lemma_total_upto_update(m, with_trips(m, from, to, count), (from, to), 100);
}

proof fn lemma_total_build(entries: Seq<(Zone, Zone, u32)>)
    requires
        pairs_distinct(entries),
    ensures
        total(build(entries)) == sum_counts(entries),
    decreases entries.len(),
{
    if entries.len() == 0 {
        lemma_total_upto_empty(100);
    } else {
        let rest = entries.drop_last();
        let e = entries.last();
        assert(pairs_distinct(rest)) by {
            assert forall|i: int, j: int| 0 <= i < j < rest.len() implies ((#[trigger] rest[i]).0, rest[i].1) != (
            (#[trigger] rest[j]).0, rest[j].1) by {
                assert(rest[i] == entries[i] && rest[j] == entries[j]);
            }
        }
        lemma_total_build(rest);
        assert(!build(rest).contains_key((e.0, e.1))) by {
            lemma_build_keys(rest);
            if build(rest).contains_key((e.0, e.1)) {
                let i = choose|i: int| 0 <= i < rest.len() && (rest[i].0, rest[i].1) == (e.0, e.1);
                assert(entries[i] == rest[i]);
                assert(entries[entries.len() - 1] == e);
            }
        }
        lemma_total_after_set(build(rest), e.0, e.1, e.2);
    }
}

proof fn lemma_build_keys(entries: Seq<(Zone, Zone, u32)>)
    ensures
        forall|p: (Zone, Zone)| #[trigger] build(entries).contains_key(p) ==> exists|i: int|
            0 <= i < entries.len() && (entries[i].0, entries[i].1) == p,
    decreases entries.len(),
{
    if entries.len() > 0 {
        let rest = entries.drop_last();
        lemma_build_keys(rest);
        assert forall|p: (Zone, Zone)| #[trigger] build(entries).contains_key(p) implies exists|i: int|
            0 <= i < entries.len() && (entries[i].0, entries[i].1) == p by {
            if p == (entries.last().0, entries.last().1) {
                assert((entries[entries.len() - 1].0, entries[entries.len() - 1].1) == p);
            } else {
                assert(build(entries) == with_trips(build(rest), entries.last().0, entries.last().1, entries.last().2));
                assert(build(rest).contains_key(p));
                let i = choose|i: int| 0 <= i < rest.len() && (rest[i].0, rest[i].1) == p;
                assert(entries[i] == rest[i]);
            }
        }
    }

}

impl Clone for OdMatrix {
    fn clone(&self) -> (r: Self)
        ensures
            r@ == self@,
    {
        proof {
            use_type_invariant(self);
        }
        OdMatrix { trips: self.trips.clone() }
    }
}

impl Default for OdMatrix {
    fn default() -> (r: Self)
        ensures
            r@ == Map::<(Zone, Zone), u32>::empty(),
    {
        Self::new()
    }
}

} // verus!
