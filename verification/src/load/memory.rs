//! A sparse byte image of the 32-bit flash address space.
use vstd::prelude::*;
use crate::load::{FlashParseError, ensure_address_range, fits_address_space};

verus! {

/// A run of consecutive flash bytes starting at `base_addr`.
#[derive(Clone, Debug, PartialEq, Eq)]
pub struct ResolvedFlashRegion {
    pub base_addr: u32,
    pub data: Vec<u8>,
}

/// Addresses strictly increase along the sequence.
pub open spec fn addr_sorted(s: Seq<(u32, u8)>) -> bool {
    forall|i: int, j: int| 0 <= i < j < s.len() ==> #[trigger] s[i].0 < #[trigger] s[j].0
}

/// Some entry of `s` is at address `a`.
pub open spec fn has_addr(s: Seq<(u32, u8)>, a: u32) -> bool {
    exists|i: int| 0 <= i < s.len() && s[i].0 == a
}

/// The byte map held by a sequence of `(address, byte)` entries.
pub open spec fn pairs_map(s: Seq<(u32, u8)>) -> Map<u32, u8> {
    Map::new(
        |a: u32| has_addr(s, a),
        |a: u32| s[choose|i: int| 0 <= i < s.len() && s[i].0 == a].1,
    )
}

/// The bytes of `data` placed at `base`, `base + 1`, and so on.
pub open spec fn span_map(base: u32, data: Seq<u8>) -> Map<u32, u8> {
    Map::new(|a: u32| base <= a < base + data.len(), |a: u32| data[a - base])
}

/// `after` is `before` with the bytes of `data` written from `base` on:
/// each address of the run holds its byte, and every other address holds
/// what it held before, or nothing where it held nothing.
pub open spec fn written_at(before: Map<u32, u8>, after: Map<u32, u8>, base: int, data: Seq<u8>) -> bool {
    &&& forall|a: u32| base <= a < base + data.len() ==> #[trigger] after.contains_key(a) && after[a] == data[a - base]
    &&& forall|a: u32| !(base <= a < base + data.len()) ==> (#[trigger] after.contains_key(a) <==> before.contains_key(a))
    &&& forall|a: u32| !(base <= a < base + data.len()) && #[trigger] before.contains_key(a) ==> after[a] == before[a]
}

/// Laying a run over an image writes the run.
pub proof fn lemma_span_written(before: Map<u32, u8>, base: u32, data: Seq<u8>)
    ensures
        written_at(before, before.union_prefer_right(span_map(base, data)), base as int, data),
{
}

pub proof fn lemma_pairs_map_at(s: Seq<(u32, u8)>, i: int)
    requires
        addr_sorted(s),
        0 <= i < s.len(),
    ensures
        pairs_map(s).contains_key(s[i].0),
        pairs_map(s)[s[i].0] == s[i].1,
{
    assert(has_addr(s, s[i].0));
    let j = choose|j: int| 0 <= j < s.len() && s[j].0 == s[i].0;
    if j < i {
        assert(s[j].0 < s[i].0);
    } else if i < j {
        assert(s[i].0 < s[j].0);
    }
}

/// Byte `k` of region `i` is the byte `m` holds at its address.
pub open spec fn region_byte_mapped(regions: Seq<ResolvedFlashRegion>, m: Map<u32, u8>, i: int, k: int) -> bool {
    &&& m.contains_key((regions[i].base_addr + k) as u32)
    &&& m[(regions[i].base_addr + k) as u32] == regions[i].data@[k]
}

/// `regions` are the maximal runs of consecutive addresses of `m`, in
/// increasing address order: each run is non-empty, ends before the next one
/// starts with at least one unmapped address between them, carries exactly the
/// bytes of `m`, and every mapped address lies in some run.
pub open spec fn regions_describe(regions: Seq<ResolvedFlashRegion>, m: Map<u32, u8>) -> bool {
    &&& forall|i: int|
        0 <= i < regions.len() ==> #[trigger] regions[i].data@.len() > 0 && regions[i].base_addr
            + regions[i].data@.len() <= 0x1_0000_0000int
    &&& forall|i: int, j: int|
        0 <= i < j < regions.len() ==> #[trigger] regions[i].base_addr + regions[i].data@.len()
            < #[trigger] regions[j].base_addr
    &&& forall|i: int, k: int|
        0 <= i < regions.len() && 0 <= k < regions[i].data@.len() ==> #[trigger] region_byte_mapped(regions, m, i, k)
    &&& forall|a: u32|
        #[trigger] m.contains_key(a) ==> exists|i: int, k: int|
            0 <= i < regions.len() && 0 <= k < regions[i].data@.len() && regions[i].base_addr + k == a
                && #[trigger] regions[i].data@[k] == m[a]
}

proof fn lemma_replace_entry(s: Seq<(u32, u8)>, lo: int, addr: u32, value: u8)
    requires
        addr_sorted(s),
        0 <= lo < s.len(),
        s[lo].0 == addr,
    ensures
        addr_sorted(s.update(lo, (addr, value))),
        pairs_map(s.update(lo, (addr, value))) == pairs_map(s).insert(addr, value),
{
    let t = s.update(lo, (addr, value));
    assert forall|a: u32| #[trigger] pairs_map(t).contains_key(a) == pairs_map(s).insert(addr, value).contains_key(a) by {
        if has_addr(s, a) {
            let i = choose|i: int| 0 <= i < s.len() && s[i].0 == a;
            assert(t[i].0 == a);
        }
        if has_addr(t, a) {
            let i = choose|i: int| 0 <= i < t.len() && t[i].0 == a;
            assert(s[i].0 == a);
        }
    }
    assert forall|a: u32| #[trigger] pairs_map(t).contains_key(a) implies pairs_map(t)[a]
        == pairs_map(s).insert(addr, value)[a] by {
        let i = choose|i: int| 0 <= i < t.len() && t[i].0 == a;
        lemma_pairs_map_at(t, i);
        if i != lo {
            lemma_pairs_map_at(s, i);
        }
    }
    assert(pairs_map(t) =~= pairs_map(s).insert(addr, value));
}

proof fn lemma_insert_entry(s: Seq<(u32, u8)>, lo: int, addr: u32, value: u8)
    requires
        addr_sorted(s),
        0 <= lo <= s.len(),
        forall|i: int| 0 <= i < lo ==> #[trigger] s[i].0 < addr,
        lo < s.len() ==> s[lo].0 > addr,
    ensures
        addr_sorted(s.insert(lo, (addr, value))),
        pairs_map(s.insert(lo, (addr, value))) == pairs_map(s).insert(addr, value),
{
    let t = s.insert(lo, (addr, value));
    assert forall|i: int, j: int| 0 <= i < j < t.len() implies #[trigger] t[i].0 < #[trigger] t[j].0 by {
        if j < lo {
        } else if j == lo {
        } else if i < lo {
            assert(t[j] == s[j - 1]);
        } else if i == lo {
            assert(t[j] == s[j - 1]);
        } else {
            assert(t[i] == s[i - 1] && t[j] == s[j - 1]);
        }
    }
    assert forall|a: u32| #[trigger] pairs_map(t).contains_key(a) == pairs_map(s).insert(addr, value).contains_key(a) by {
        if has_addr(s, a) {
            let i = choose|i: int| 0 <= i < s.len() && s[i].0 == a;
            if i < lo {
                assert(t[i].0 == a);
            } else {
                assert(t[i + 1].0 == a);
            }
        }
        if a == addr {
            assert(t[lo].0 == a);
        }
        if has_addr(t, a) {
            let i = choose|i: int| 0 <= i < t.len() && t[i].0 == a;
            if i < lo {
                assert(s[i].0 == a);
            } else if i > lo {
                assert(s[i - 1].0 == a);
            }
        }
    }
    assert forall|a: u32| #[trigger] pairs_map(t).contains_key(a) implies pairs_map(t)[a]
        == pairs_map(s).insert(addr, value)[a] by {
        let i = choose|i: int| 0 <= i < t.len() && t[i].0 == a;
        lemma_pairs_map_at(t, i);
        if i < lo {
            lemma_pairs_map_at(s, i);
        } else if i > lo {
            lemma_pairs_map_at(s, i - 1);
        }
    }
    assert(pairs_map(t) =~= pairs_map(s).insert(addr, value));
}

/// A sparse byte image: writes overwrite earlier bytes at the same address.
pub struct FlashMemory {
    bytes: Vec<(u32, u8)>,
}

impl View for FlashMemory {
    type V = Map<u32, u8>;

    closed spec fn view(&self) -> Map<u32, u8> {
        pairs_map(self.bytes@)
    }
}

impl Default for FlashMemory {
    fn default() -> (m: Self)
        ensures
            m.wf(),
            m@ == Map::<u32, u8>::empty(),
    {
        FlashMemory::new()
    }
}

impl FlashMemory {
    /// The entries are kept in increasing address order.
    pub closed spec fn wf(&self) -> bool {
        addr_sorted(self.bytes@)
    }

    pub fn new() -> (m: Self)
        ensures
            m.wf(),
            m@ == Map::<u32, u8>::empty(),
    {
        let m = FlashMemory { bytes: Vec::new() };
        assert(m@ =~= Map::<u32, u8>::empty());
        m
    }

    /// Stores one byte, replacing what was at that address.
    pub fn insert_byte(&mut self, addr: u32, value: u8)
        requires
            old(self).wf(),
        ensures
            final(self).wf(),
            final(self)@ == old(self)@.insert(addr, value),
    {
        let ghost s = self.bytes@;
        let n = self.bytes.len();
        if n == 0 || self.bytes[n - 1].0 < addr {
            self.bytes.push((addr, value));
            proof {
                lemma_insert_entry(s, s.len() as int, addr, value);
                assert(s.insert(s.len() as int, (addr, value)) =~= s.push((addr, value)));
            }
            return;
        }
        let mut lo: usize = 0;
        let mut hi: usize = n - 1;
        while lo < hi
            invariant
                s == self.bytes@,
                n == s.len(),
                addr_sorted(s),
                lo <= hi < n,
                s[n - 1].0 >= addr,
                forall|i: int| 0 <= i < lo ==> #[trigger] s[i].0 < addr,
                s[hi as int].0 >= addr,
            decreases hi - lo,
        {
            let mid = lo + (hi - lo) / 2;
            if self.bytes[mid].0 < addr {
                lo = mid + 1;
            } else {
                hi = mid;
            }
        }
        if self.bytes[lo].0 == addr {
            self.bytes.set(lo, (addr, value));
            proof {
                lemma_replace_entry(s, lo as int, addr, value);
            }
        } else {
            self.bytes.insert(lo, (addr, value));
            proof {
                lemma_insert_entry(s, lo as int, addr, value);
            }
        }
    }

    /// Stores `data` at `base_addr` and the addresses after it; later writes win.
    pub fn write(&mut self, base_addr: u32, data: &[u8]) -> (r: Result<(), FlashParseError>)
        requires
            old(self).wf(),
        ensures
            final(self).wf(),
            r is Ok <==> fits_address_space(base_addr, data@.len() as int),
            r is Ok ==> final(self)@ == old(self)@.union_prefer_right(span_map(base_addr, data@)),
            r is Err ==> final(self)@ == old(self)@ && r == Err::<(), FlashParseError>(
                FlashParseError::AddressOverflow { base_addr, len: data@.len() as usize },
            ),
    {
        match ensure_address_range(base_addr, data.len()) {
            Err(e) => {
                return Err(e);
            },
            Ok(()) => {},
        }
        let ghost m0 = self@;
        let mut offset: usize = 0;
        while offset < data.len()
            invariant
                self.wf(),
                offset <= data@.len(),
                fits_address_space(base_addr, data@.len() as int),
                self@ == m0.union_prefer_right(span_map(base_addr, data@.take(offset as int))),
            decreases data@.len() - offset,
        {
            let addr: u32 = base_addr + offset as u32;
            self.insert_byte(addr, data[offset]);
            proof {
                assert(m0.union_prefer_right(span_map(base_addr, data@.take(offset + 1))) =~= m0.union_prefer_right(
                    span_map(base_addr, data@.take(offset as int)),
                ).insert(addr, data@[offset as int]));
            }
            offset = offset + 1;
        }
        proof {
            assert(data@.take(data@.len() as int) =~= data@);
        }
        Ok(())
    }

    /// The image as its maximal runs of consecutive addresses, lowest first.
    pub fn into_regions(self) -> (regions: Vec<ResolvedFlashRegion>)
        requires
            self.wf(),
        ensures
            regions_describe(regions@, self@),
    {
        let ghost s = self.bytes@;
        let n = self.bytes.len();
        let mut regions: Vec<ResolvedFlashRegion> = Vec::new();
        if n == 0 {
            proof {
                assert forall|a: u32| !#[trigger] pairs_map(s).contains_key(a) by {}
            }
            return regions;
        }
        let mut cur_base: u32 = self.bytes[0].0;
        let mut cur: Vec<u8> = Vec::new();
        cur.push(self.bytes[0].1);
        let mut prev: u32 = self.bytes[0].0;
        let ghost mut cur_start: int = 0;
        let ghost mut starts: Seq<int> = Seq::empty();
        let ghost mut owner: Seq<int> = Seq::empty();
        let mut i: usize = 1;
        while i < n
            invariant
                s == self.bytes@,
                n == s.len(),
                addr_sorted(s),
                1 <= i <= n,
                0 <= cur_start < i,
                prev == s[i - 1].0,
                run_at(s, cur_start, cur_base, cur@),
                cur_start + cur@.len() == i,
                runs_match(s, regions@, starts, owner, cur_start, cur_base as int),
            decreases n - i,
        {
            let (addr, value) = self.bytes[i];
            proof {
                assert(s[i as int] == (addr, value));
                assert(s[i - 1].0 < s[i as int].0);
                assert(s[cur_start + (cur@.len() - 1)].0 == cur_base + (cur@.len() - 1));
            }
            if addr == prev + 1 {
                let ghost old_cur = cur@;
                cur.push(value);
                proof {
                    lemma_run_extend(s, cur_start, cur_base, old_cur, value);
                }
            } else {
                let ghost old_regions = regions@;
                let ghost old_cur = cur@;
                let finished = ResolvedFlashRegion { base_addr: cur_base, data: cur };
                regions.push(finished);
                proof {
                    lemma_runs_close(s, old_regions, starts, owner, cur_start, cur_base, old_cur, finished, addr as int);
                    starts = starts.push(cur_start);
                    owner = owner + Seq::new((i - cur_start) as nat, |j: int| old_regions.len() as int);
                    cur_start = i as int;
                }
                cur_base = addr;
                cur = Vec::new();
                cur.push(value);
                proof {
                    assert(cur@ =~= seq![value]);
                    assert(run_at(s, cur_start, cur_base, cur@));
                }
            }
            prev = addr;
            i = i + 1;
        }
        let ghost old_regions = regions@;
        let ghost old_cur = cur@;
        proof {
            assert(s[cur_start + (cur@.len() - 1)].0 == cur_base + (cur@.len() - 1));
        }
        let last = ResolvedFlashRegion { base_addr: cur_base, data: cur };
        regions.push(last);
        proof {
            lemma_runs_close(s, old_regions, starts, owner, cur_start, cur_base, old_cur, last, 0x1_0000_0001int);
            let starts2 = starts.push(cur_start);
            let owner2 = owner + Seq::new((n - cur_start) as nat, |j: int| old_regions.len() as int);
            lemma_runs_describe(s, regions@, starts2, owner2);
        }
        regions
    }
}

/// `cur` holds the bytes of the entries of `s` from `start` on, at `base` and the addresses after it.
pub open spec fn run_at(s: Seq<(u32, u8)>, start: int, base: u32, cur: Seq<u8>) -> bool {
    &&& cur.len() > 0
    &&& start + cur.len() <= s.len()
    &&& forall|k: int|
        0 <= k < cur.len() ==> #[trigger] s[start + k].0 == base + k && s[start + k].1 == cur[k]
}

/// Run `r` starts at entry `starts[r]`, is non-empty, ends by entry `end`
/// and below address `limit`.
pub open spec fn per_run_ok(regions: Seq<ResolvedFlashRegion>, starts: Seq<int>, r: int, end: int, limit: int) -> bool {
    &&& 0 <= starts[r]
    &&& starts[r] + regions[r].data@.len() <= end
    &&& regions[r].data@.len() > 0
    &&& regions[r].base_addr + regions[r].data@.len() <= 0x1_0000_0000int
    &&& regions[r].base_addr + regions[r].data@.len() < limit
}

/// Byte `k` of run `r` is entry `starts[r] + k` of `s`.
pub open spec fn run_byte_ok(s: Seq<(u32, u8)>, regions: Seq<ResolvedFlashRegion>, starts: Seq<int>, r: int, k: int) -> bool {
    &&& s[starts[r] + k].0 == regions[r].base_addr + k
    &&& s[starts[r] + k].1 == regions[r].data@[k]
}

/// The finished runs cover the entries of `s` before `end`, in order, each
/// ending before `limit`, with `owner` naming the run of each entry.
pub open spec fn runs_match(
    s: Seq<(u32, u8)>,
    regions: Seq<ResolvedFlashRegion>,
    starts: Seq<int>,
    owner: Seq<int>,
    end: int,
    limit: int,
) -> bool {
    &&& starts.len() == regions.len()
    &&& owner.len() == end
    &&& forall|r: int| 0 <= r < regions.len() ==> #[trigger] per_run_ok(regions, starts, r, end, limit)
    &&& forall|r: int, k: int|
        0 <= r < regions.len() && 0 <= k < regions[r].data@.len() ==> #[trigger] run_byte_ok(s, regions, starts, r, k)
    &&& forall|j: int|
        0 <= j < end ==> 0 <= #[trigger] owner[j] < regions.len() && starts[owner[j]] <= j < starts[owner[j]]
            + regions[owner[j]].data@.len()
    &&& forall|r1: int, r2: int|
        0 <= r1 < r2 < regions.len() ==> #[trigger] regions[r1].base_addr + regions[r1].data@.len()
            < #[trigger] regions[r2].base_addr
}

proof fn lemma_run_extend(s: Seq<(u32, u8)>, start: int, base: u32, cur: Seq<u8>, value: u8)
    requires
        run_at(s, start, base, cur),
        start + cur.len() < s.len(),
        s[start + cur.len()] == ((base + cur.len()) as u32, value),
        base + cur.len() <= u32::MAX,
    ensures
        run_at(s, start, base, cur.push(value)),
{
    assert forall|k: int| 0 <= k < cur.len() + 1 implies #[trigger] s[start + k].0 == base + k
        && s[start + k].1 == cur.push(value)[k] by {
        if k < cur.len() {
            assert(s[start + k].0 == base + k);
        }
    }
}

proof fn lemma_runs_close(
    s: Seq<(u32, u8)>,
    regions: Seq<ResolvedFlashRegion>,
    starts: Seq<int>,
    owner: Seq<int>,
    start: int,
    base: u32,
    cur: Seq<u8>,
    finished: ResolvedFlashRegion,
    next_limit: int,
)
    requires
        0 <= start,
        runs_match(s, regions, starts, owner, start, base as int),
        run_at(s, start, base, cur),
        finished.base_addr == base,
        finished.data@ == cur,
        base + cur.len() < next_limit,
        base + cur.len() <= 0x1_0000_0000int,
    ensures
        runs_match(
            s,
            regions.push(finished),
            starts.push(start),
            owner + Seq::new(cur.len(), |j: int| regions.len() as int),
            start + cur.len(),
            next_limit,
        ),
{
    let nr = regions.push(finished);
    let ns = starts.push(start);
    let no = owner + Seq::new(cur.len(), |j: int| regions.len() as int);
    let r_new = regions.len() as int;
    assert forall|r: int| 0 <= r < nr.len() implies #[trigger] per_run_ok(nr, ns, r, start + cur.len(), next_limit) by {
        if r < r_new {
            assert(nr[r] == regions[r]);
            assert(ns[r] == starts[r]);
            assert(per_run_ok(regions, starts, r, start, base as int));
        }
    }
    assert forall|r: int, k: int|
        0 <= r < nr.len() && 0 <= k < nr[r].data@.len() implies #[trigger] run_byte_ok(s, nr, ns, r, k) by {
        if r < r_new {
            assert(nr[r] == regions[r]);
            assert(ns[r] == starts[r]);
            assert(run_byte_ok(s, regions, starts, r, k));
        } else {
            assert(s[start + k].0 == base + k);
        }
    }
    assert forall|j: int| 0 <= j < start + cur.len() implies 0 <= #[trigger] no[j] < nr.len() && ns[no[j]] <= j
        < ns[no[j]] + nr[no[j]].data@.len() by {
        if j < start {
            assert(no[j] == owner[j]);
            assert(nr[owner[j]] == regions[owner[j]]);
            assert(ns[owner[j]] == starts[owner[j]]);
        } else {
            assert(no[j] == r_new);
        }
    }
    assert forall|r1: int, r2: int| 0 <= r1 < r2 < nr.len() implies #[trigger] nr[r1].base_addr
        + nr[r1].data@.len() < #[trigger] nr[r2].base_addr by {
        assert(nr[r1] == regions[r1]);
        assert(per_run_ok(regions, starts, r1, start, base as int));
        if r2 < r_new {
            assert(nr[r2] == regions[r2]);
        }
    }
    assert(no.len() == start + cur.len());
    assert(ns.len() == nr.len());
    assert(runs_match(s, nr, ns, no, start + cur.len(), next_limit));
}

proof fn lemma_runs_describe(
    s: Seq<(u32, u8)>,
    regions: Seq<ResolvedFlashRegion>,
    starts: Seq<int>,
    owner: Seq<int>,
)
    requires
        addr_sorted(s),
        runs_match(s, regions, starts, owner, s.len() as int, 0x1_0000_0001int),
    ensures
        regions_describe(regions, pairs_map(s)),
{
    let m = pairs_map(s);
    assert forall|r: int| 0 <= r < regions.len() implies #[trigger] regions[r].data@.len() > 0
        && regions[r].base_addr + regions[r].data@.len() <= 0x1_0000_0000int by {
        assert(per_run_ok(regions, starts, r, s.len() as int, 0x1_0000_0001int));
    }
    assert forall|r: int, k: int|
        0 <= r < regions.len() && 0 <= k < regions[r].data@.len() implies #[trigger] region_byte_mapped(regions, m, r, k) by {
        assert(per_run_ok(regions, starts, r, s.len() as int, 0x1_0000_0001int));
        let p = starts[r] + k;
        assert(0 <= p < s.len());
        assert(run_byte_ok(s, regions, starts, r, k));
        lemma_pairs_map_at(s, p);
        assert((regions[r].base_addr + k) as u32 == s[p].0);
        assert(pairs_map(s).dom().contains(s[p].0));
    }
    assert forall|a: u32| #[trigger] m.contains_key(a) implies exists|r: int, k: int|
        0 <= r < regions.len() && 0 <= k < regions[r].data@.len() && regions[r].base_addr + k == a
            && #[trigger] regions[r].data@[k] == m[a] by {
        let j = choose|j: int| 0 <= j < s.len() && s[j].0 == a;
        lemma_pairs_map_at(s, j);
        let r = owner[j];
        let k = j - starts[r];
        assert(per_run_ok(regions, starts, r, s.len() as int, 0x1_0000_0001int));
        assert(run_byte_ok(s, regions, starts, r, k));
        assert(0 <= r < regions.len() && 0 <= k < regions[r].data@.len() && regions[r].base_addr + k == a
            && regions[r].data@[k] == m[a]);
    }
}

} // verus!